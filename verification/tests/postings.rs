//! Posting lists written to and read from a fjall database.
use fjall::{Database, Keyspace, KeyspaceCreateOptions, Readable, Snapshot};
use mt_postings::append::AppendError;
use mt_postings::block::MAX_PL_BLOCK_SIZE;
use mt_postings::buffer::TokenIndexBuffer;
use mt_postings::features::TokenFieldFeatures;
use mt_postings::field::{Section, TokenFieldIndex};
use mt_postings::iter::{
    DocIdSetIterator, PostingIterator, Progress, TokenPostingIterator, DOC_ID_DONE,
    DOC_ID_UNPOSITIONED,
};
use mt_postings::stats::DocId;
use mt_postings::store::{Entry, Query};

/// The keyspaces of a field.
#[derive(Clone)]
struct Keyspaces {
    stats: Keyspace,
    docpl: Keyspace,
    pospl: Option<Keyspace>,
}

impl Keyspaces {
    fn of(&self, section: Section) -> &Keyspace {
        match section {
            Section::Stats => &self.stats,
            Section::DocPl => &self.docpl,
            Section::PosPl => self.pospl.as_ref().unwrap(),
        }
    }

    fn answer(&self, snap: &Snapshot, query: &Query) -> Option<Entry> {
        match query {
            Query::Get { section, key } => {
                snap.get(self.of(*section), key).unwrap().map(|value| Entry {
                    key: key.clone(),
                    value: value.to_vec(),
                })
            }
            Query::Last { section, lo, hi } => snap
                .range(self.of(*section), lo.as_slice()..=hi.as_slice())
                .next_back()
                .map(|guard| entry(guard.into_inner().unwrap())),
            Query::First { section, lo, hi } => snap
                .range(self.of(*section), lo.as_slice()..hi.as_slice())
                .next()
                .map(|guard| entry(guard.into_inner().unwrap())),
        }
    }
}

fn entry(pair: (fjall::Slice, fjall::Slice)) -> Entry {
    Entry {
        key: pair.0.to_vec(),
        value: pair.1.to_vec(),
    }
}

struct Field {
    index: TokenFieldIndex,
    keyspaces: Keyspaces,
}

/// A posting iterator together with the snapshot that answers its reads.
struct Postings {
    snap: Snapshot,
    keyspaces: Keyspaces,
    it: TokenPostingIterator,
}

impl Postings {
    fn settle(&mut self, mut progress: Progress) -> DocId {
        loop {
            match progress {
                Progress::At(doc) => return doc,
                Progress::Fetch(query) => {
                    let reply = self.keyspaces.answer(&self.snap, &query);
                    progress = self.it.resume(reply).unwrap();
                }
            }
        }
    }

    fn doc(&self) -> DocId {
        self.it.doc()
    }

    fn next(&mut self) -> DocId {
        let progress = self.it.next();
        self.settle(progress)
    }

    fn advance_to(&mut self, target: DocId) -> DocId {
        let progress = self.it.advance_to(target);
        self.settle(progress)
    }

    fn size_hint(&self) -> u64 {
        self.it.size_hint()
    }

    fn features(&self) -> TokenFieldFeatures {
        self.it.features()
    }

    fn term_frequency(&mut self) -> u32 {
        self.it.term_frequency().unwrap()
    }

    fn append_positions(&mut self, out: &mut Vec<u32>) {
        if let Some(query) = self.it.append_positions(out) {
            let reply = self.keyspaces.answer(&self.snap, &query);
            self.it.fill_positions(reply, out).unwrap();
        }
    }
}

// Fields are dropped in declaration order: db before tmpdir, ensuring the fjall
// database is closed before the temporary directory is removed.
struct Fixture {
    db: Database,
    _tmpdir: tempfile::TempDir,
}

impl Fixture {
    fn new() -> Self {
        let tmpdir = tempfile::tempdir().unwrap();
        let db = Database::builder(tmpdir.path()).open().unwrap();
        Self {
            db,
            _tmpdir: tmpdir,
        }
    }

    fn field(&self, name: &str, features: TokenFieldFeatures) -> Field {
        let index = TokenFieldIndex::new(name, name, features);
        let open = |section| {
            index
                .keyspace(section)
                .map(|ks| self.db.keyspace(ks, KeyspaceCreateOptions::default).unwrap())
        };
        let keyspaces = Keyspaces {
            stats: open(Section::Stats).unwrap(),
            docpl: open(Section::DocPl).unwrap(),
            pospl: open(Section::PosPl),
        };
        Field { index, keyspaces }
    }

    fn append(
        &self,
        field: &Field,
        buf: TokenIndexBuffer,
        start_docid: DocId,
    ) -> Result<DocId, AppendError> {
        let snap = self.db.snapshot();
        let mut batch = self.db.batch();
        let mut append = buf.apply_append(&field.index, start_docid);
        while let Some(query) = append.query() {
            let reply = field.keyspaces.answer(&snap, &query);
            for write in append.resume(reply)? {
                batch.insert(field.keyspaces.of(write.section), write.key, write.value);
            }
        }
        batch.commit().unwrap();
        Ok(append.next_docid())
    }

    fn write(&self, field: &Field, docid: u64, tokens: &[(u32, &[u8])]) {
        let mut buf = TokenIndexBuffer::new(field.index.features());
        let tokens: Vec<(u32, Vec<u8>)> = tokens.iter().map(|&(p, t)| (p, t.to_vec())).collect();
        buf.add_doc(&tokens);
        self.append(field, buf, docid).unwrap();
    }

    fn iter(&self, field: &Field, token: &[u8]) -> Option<Postings> {
        let snap = self.db.snapshot();
        let query = TokenPostingIterator::stats_query(&field.index, token);
        let stats = field.keyspaces.answer(&snap, &query);
        let it = TokenPostingIterator::new(&field.index, token, stats).unwrap()?;
        Some(Postings {
            snap,
            keyspaces: field.keyspaces.clone(),
            it,
        })
    }
}

fn collect_docs(mut it: Postings) -> Vec<DocId> {
    let mut docs = vec![];
    loop {
        let d = it.next();
        if d == DOC_ID_DONE {
            break;
        }
        docs.push(d);
    }
    docs
}

/// Drain the iterator into `(docid, term_frequency, positions)` triples.
fn collect_postings(mut it: Postings) -> Vec<(DocId, u32, Vec<u32>)> {
    let mut out = vec![];
    let mut pos = vec![];
    loop {
        let d = it.next();
        if d == DOC_ID_DONE {
            break;
        }
        let tf = it.term_frequency();
        it.append_positions(&mut pos);
        out.push((d, tf, pos.clone()));
    }
    out
}

// --- TokenFieldFeatures::Doc ---

#[test]
fn doc_single_hit() {
    let fix = Fixture::new();
    let field = fix.field("f", TokenFieldFeatures::Doc);
    fix.write(&field, 5, &[(0, b"hello")]);

    let mut it = fix.iter(&field, b"hello").unwrap();
    assert_eq!(it.next(), 5);
    assert_eq!(it.next(), DOC_ID_DONE);
}

#[test]
fn doc_multi_hit_next() {
    let fix = Fixture::new();
    let field = fix.field("f", TokenFieldFeatures::Doc);
    for docid in [1u64, 3, 7, 9] {
        fix.write(&field, docid, &[(0, b"word")]);
    }
    assert_eq!(
        collect_docs(fix.iter(&field, b"word").unwrap()),
        [1, 3, 7, 9]
    );
}

#[test]
fn doc_advance_to_exact() {
    let fix = Fixture::new();
    let field = fix.field("f", TokenFieldFeatures::Doc);
    for docid in [2u64, 4, 6, 8] {
        fix.write(&field, docid, &[(0, b"token")]);
    }

    let mut it = fix.iter(&field, b"token").unwrap();
    assert_eq!(it.advance_to(4), 4);
    assert_eq!(it.advance_to(6), 6);
    assert_eq!(it.next(), 8);
    assert_eq!(it.next(), DOC_ID_DONE);
}

#[test]
fn doc_advance_to_gap() {
    let fix = Fixture::new();
    let field = fix.field("f", TokenFieldFeatures::Doc);
    for docid in [10u64, 20, 30] {
        fix.write(&field, docid, &[(0, b"gap")]);
    }

    let mut it = fix.iter(&field, b"gap").unwrap();
    // advance_to a value between 10 and 20 should land on 20
    assert_eq!(it.advance_to(15), 20);
    assert_eq!(it.advance_to(25), 30);
    assert_eq!(it.next(), DOC_ID_DONE);
}

#[test]
fn doc_missing_token_returns_none() {
    let fix = Fixture::new();
    let field = fix.field("f", TokenFieldFeatures::Doc);
    assert!(fix.iter(&field, b"ghost").is_none());
}

// --- TokenFieldFeatures::WithTermFrequency ---

#[test]
fn with_tf_single_hit() {
    let fix = Fixture::new();
    let field = fix.field("f", TokenFieldFeatures::WithTermFrequency);
    fix.write(&field, 1, &[(0, b"hi"), (3, b"hi"), (7, b"hi")]);

    let mut it = fix.iter(&field, b"hi").unwrap();
    assert_eq!(it.next(), 1);
    assert_eq!(it.next(), DOC_ID_DONE);
}

#[test]
fn with_tf_multi_hit_next() {
    let fix = Fixture::new();
    let field = fix.field("f", TokenFieldFeatures::WithTermFrequency);
    fix.write(&field, 1, &[(0, b"a"), (1, b"a")]);
    fix.write(&field, 5, &[(0, b"a")]);
    fix.write(&field, 9, &[(0, b"a"), (1, b"a"), (2, b"a")]);

    assert_eq!(collect_docs(fix.iter(&field, b"a").unwrap()), [1, 5, 9]);
}

#[test]
fn with_tf_advance_to() {
    let fix = Fixture::new();
    let field = fix.field("f", TokenFieldFeatures::WithTermFrequency);
    for docid in [1u64, 2, 3, 4, 5] {
        fix.write(&field, docid, &[(0, b"b")]);
    }

    let mut it = fix.iter(&field, b"b").unwrap();
    assert_eq!(it.advance_to(3), 3);
    assert_eq!(it.next(), 4);
    assert_eq!(it.advance_to(5), 5);
    assert_eq!(it.next(), DOC_ID_DONE);
}

// --- TokenFieldFeatures::WithPositions ---

#[test]
fn with_pos_single_hit() {
    let fix = Fixture::new();
    let field = fix.field("f", TokenFieldFeatures::WithPositions);
    fix.write(&field, 42, &[(5, b"pos"), (10, b"pos")]);

    let mut it = fix.iter(&field, b"pos").unwrap();
    assert_eq!(it.next(), 42);
    assert_eq!(it.next(), DOC_ID_DONE);
}

#[test]
fn with_pos_multi_hit_next() {
    let fix = Fixture::new();
    let field = fix.field("f", TokenFieldFeatures::WithPositions);
    fix.write(&field, 1, &[(0, b"p"), (2, b"p")]);
    fix.write(&field, 3, &[(1, b"p")]);
    fix.write(&field, 6, &[(0, b"p"), (4, b"p"), (8, b"p")]);

    assert_eq!(collect_docs(fix.iter(&field, b"p").unwrap()), [1, 3, 6]);
}

#[test]
fn with_pos_advance_to_gap() {
    let fix = Fixture::new();
    let field = fix.field("f", TokenFieldFeatures::WithPositions);
    for docid in [10u64, 20, 30, 40] {
        fix.write(&field, docid, &[(0, b"q")]);
    }

    let mut it = fix.iter(&field, b"q").unwrap();
    assert_eq!(it.advance_to(11), 20);
    assert_eq!(it.advance_to(30), 30);
    assert_eq!(it.next(), 40);
    assert_eq!(it.next(), DOC_ID_DONE);
}

// --- PostingIterator: features() ---

#[test]
fn posting_features() {
    let fix = Fixture::new();
    for (features, expected) in [
        (TokenFieldFeatures::Doc, TokenFieldFeatures::Doc),
        (
            TokenFieldFeatures::WithTermFrequency,
            TokenFieldFeatures::WithTermFrequency,
        ),
        (
            TokenFieldFeatures::WithPositions,
            TokenFieldFeatures::WithPositions,
        ),
    ] {
        let field = fix.field(&format!("f_{:?}", features), features);
        fix.write(&field, 1, &[(0, b"x")]);
        let mut it = fix.iter(&field, b"x").unwrap();
        assert_eq!(it.features(), expected);
        it.next();
        assert_eq!(it.features(), expected);
    }
}

// --- PostingIterator: term_frequency() ---

#[test]
fn tf_doc_always_one() {
    // Doc mode does not store real frequencies; must always return 1.
    let fix = Fixture::new();
    let field = fix.field("f", TokenFieldFeatures::Doc);
    fix.write(&field, 1, &[(0, b"w"), (1, b"w"), (2, b"w")]);
    fix.write(&field, 2, &[(0, b"w")]);

    let postings = collect_postings(fix.iter(&field, b"w").unwrap());
    assert_eq!(postings, [(1, 1, vec![]), (2, 1, vec![])]);
}

#[test]
fn tf_with_tf_single_hit() {
    let fix = Fixture::new();
    let field = fix.field("f", TokenFieldFeatures::WithTermFrequency);
    fix.write(&field, 7, &[(0, b"hi"), (3, b"hi"), (9, b"hi")]);

    let postings = collect_postings(fix.iter(&field, b"hi").unwrap());
    assert_eq!(postings, [(7, 3, vec![])]);
}

#[test]
fn tf_with_tf_multi_hit() {
    let fix = Fixture::new();
    let field = fix.field("f", TokenFieldFeatures::WithTermFrequency);
    fix.write(&field, 1, &[(0, b"a"), (1, b"a")]);
    fix.write(&field, 5, &[(0, b"a")]);
    fix.write(&field, 9, &[(0, b"a"), (1, b"a"), (2, b"a")]);

    let postings = collect_postings(fix.iter(&field, b"a").unwrap());
    assert_eq!(postings, [(1, 2, vec![]), (5, 1, vec![]), (9, 3, vec![])]);
}

#[test]
fn tf_with_pos_single_hit() {
    let fix = Fixture::new();
    let field = fix.field("f", TokenFieldFeatures::WithPositions);
    fix.write(&field, 42, &[(5, b"p"), (10, b"p")]);

    let mut it = fix.iter(&field, b"p").unwrap();
    assert_eq!(it.next(), 42);
    assert_eq!(it.term_frequency(), 2);
}

#[test]
fn tf_with_pos_multi_hit() {
    let fix = Fixture::new();
    let field = fix.field("f", TokenFieldFeatures::WithPositions);
    fix.write(&field, 1, &[(0, b"p"), (2, b"p")]);
    fix.write(&field, 3, &[(1, b"p")]);
    fix.write(&field, 6, &[(0, b"p"), (4, b"p"), (8, b"p")]);

    let mut it = fix.iter(&field, b"p").unwrap();
    assert_eq!(it.next(), 1);
    assert_eq!(it.term_frequency(), 2);
    assert_eq!(it.next(), 3);
    assert_eq!(it.term_frequency(), 1);
    assert_eq!(it.next(), 6);
    assert_eq!(it.term_frequency(), 3);
}

// --- PostingIterator: append_positions() ---

#[test]
fn positions_doc_always_empty() {
    let fix = Fixture::new();
    let field = fix.field("f", TokenFieldFeatures::Doc);
    fix.write(&field, 1, &[(0, b"x"), (1, b"x")]);
    fix.write(&field, 2, &[(0, b"x")]);

    let postings = collect_postings(fix.iter(&field, b"x").unwrap());
    assert!(postings.iter().all(|(_, _, pos)| pos.is_empty()));
}

#[test]
fn positions_with_tf_always_empty() {
    let fix = Fixture::new();
    let field = fix.field("f", TokenFieldFeatures::WithTermFrequency);
    fix.write(&field, 1, &[(0, b"x"), (5, b"x")]);
    fix.write(&field, 2, &[(0, b"x")]);

    let postings = collect_postings(fix.iter(&field, b"x").unwrap());
    assert!(postings.iter().all(|(_, _, pos)| pos.is_empty()));
}

#[test]
fn positions_with_pos_single_hit() {
    let fix = Fixture::new();
    let field = fix.field("f", TokenFieldFeatures::WithPositions);
    fix.write(&field, 42, &[(5, b"pos"), (10, b"pos")]);

    let postings = collect_postings(fix.iter(&field, b"pos").unwrap());
    assert_eq!(postings, [(42, 2, vec![5, 10])]);
}

#[test]
fn positions_with_pos_multi_hit() {
    let fix = Fixture::new();
    let field = fix.field("f", TokenFieldFeatures::WithPositions);
    fix.write(&field, 1, &[(0, b"p"), (2, b"p")]);
    fix.write(&field, 3, &[(1, b"p")]);
    fix.write(&field, 6, &[(0, b"p"), (4, b"p"), (8, b"p")]);

    let postings = collect_postings(fix.iter(&field, b"p").unwrap());
    assert_eq!(
        postings,
        [(1, 2, vec![0, 2]), (3, 1, vec![1]), (6, 3, vec![0, 4, 8]),]
    );
}

#[test]
fn positions_after_advance_to() {
    let fix = Fixture::new();
    let field = fix.field("f", TokenFieldFeatures::WithPositions);
    fix.write(&field, 10, &[(1, b"q"), (5, b"q")]);
    fix.write(&field, 20, &[(3, b"q")]);
    fix.write(&field, 30, &[(0, b"q"), (7, b"q")]);

    let mut it = fix.iter(&field, b"q").unwrap();
    let mut pos = vec![];

    assert_eq!(it.advance_to(20), 20);
    it.append_positions(&mut pos);
    assert_eq!(pos, [3]);

    assert_eq!(it.next(), 30);
    it.append_positions(&mut pos);
    assert_eq!(pos, [0, 7]);
}

#[test]
fn positions_append_idempotent() {
    // Calling append_positions twice on the same doc replaces rather than appends.
    let fix = Fixture::new();
    let field = fix.field("f", TokenFieldFeatures::WithPositions);
    fix.write(&field, 1, &[(3, b"r"), (6, b"r")]);
    fix.write(&field, 2, &[(0, b"r")]);

    let mut it = fix.iter(&field, b"r").unwrap();
    let mut pos = vec![];

    it.next();
    it.append_positions(&mut pos);
    it.append_positions(&mut pos);
    assert_eq!(pos, [3, 6]);
}

#[test]
fn positions_across_block_boundary() {
    // Positions must be correct for docs in both the first and second block, and
    // the cached pos block must be invalidated when crossing the boundary.
    let fix = Fixture::new();
    let field = fix.field("f", TokenFieldFeatures::WithPositions);
    let n = MAX_PL_BLOCK_SIZE as u64 + 3;
    for docid in 0..n {
        // Give each doc a unique position equal to its docid, plus a second at docid+1000.
        fix.write(
            &field,
            docid,
            &[(docid as u32, b"x"), (docid as u32 + 1000, b"x")],
        );
    }

    let mut it = fix.iter(&field, b"x").unwrap();
    let mut pos = vec![];

    // Sample from the first block.
    assert_eq!(it.next(), 0);
    it.append_positions(&mut pos);
    assert_eq!(pos, [0, 1000]);

    // Jump into the second block.
    let second_block_start = MAX_PL_BLOCK_SIZE as u64;
    assert_eq!(it.advance_to(second_block_start), second_block_start);
    it.append_positions(&mut pos);
    assert_eq!(
        pos,
        [second_block_start as u32, second_block_start as u32 + 1000]
    );
}

// --- multi-block iteration ---

#[test]
fn multi_block_next() {
    let fix = Fixture::new();
    let field = fix.field("f", TokenFieldFeatures::Doc);
    let n = (MAX_PL_BLOCK_SIZE + MAX_PL_BLOCK_SIZE / 2) as u64;
    for docid in 0..n {
        fix.write(&field, docid, &[(0, b"big")]);
    }

    let docs = collect_docs(fix.iter(&field, b"big").unwrap());
    assert_eq!(docs.len(), n as usize);
    assert_eq!(docs, (0..n).collect::<Vec<_>>());
}

#[test]
fn multi_block_advance_to_second_block() {
    let fix = Fixture::new();
    let field = fix.field("f", TokenFieldFeatures::Doc);
    let n = (MAX_PL_BLOCK_SIZE + 10) as u64;
    for docid in 0..n {
        fix.write(&field, docid, &[(0, b"blk")]);
    }

    let target = MAX_PL_BLOCK_SIZE as u64 + 5;
    let mut it = fix.iter(&field, b"blk").unwrap();
    assert_eq!(it.advance_to(target), target);
    assert_eq!(it.next(), target + 1);
}

// --- advance_to from unpositioned ---

#[test]
fn advance_to_from_unpositioned() {
    let fix = Fixture::new();
    let field = fix.field("f", TokenFieldFeatures::Doc);
    for docid in [5u64, 10, 15] {
        fix.write(&field, docid, &[(0, b"z")]);
    }

    let mut it = fix.iter(&field, b"z").unwrap();
    assert_eq!(it.advance_to(10), 10);
    assert_eq!(it.next(), 15);
    assert_eq!(it.next(), DOC_ID_DONE);
}

// --- documents that are not there ---

#[test]
fn seek_before_the_first_document_meets_no_other_token() {
    let fix = Fixture::new();
    let field = fix.field("f", TokenFieldFeatures::Doc);
    for docid in [1u64, 2] {
        fix.write(&field, docid, &[(0, b"aa")]);
    }
    for docid in [10u64, 20] {
        fix.write(&field, docid, &[(0, b"bb")]);
    }
    let mut it = fix.iter(&field, b"bb").unwrap();
    assert_eq!(it.advance_to(5), 10);
    assert_eq!(it.next(), 20);
    assert_eq!(it.next(), DOC_ID_DONE);
}

#[test]
fn seek_beyond_a_single_hit_is_done() {
    let fix = Fixture::new();
    let field = fix.field("f", TokenFieldFeatures::Doc);
    fix.write(&field, 5, &[(0, b"one")]);
    let mut it = fix.iter(&field, b"one").unwrap();
    assert_eq!(it.doc(), DOC_ID_UNPOSITIONED);
    assert_eq!(it.size_hint(), 1);
    assert_eq!(it.advance_to(6), DOC_ID_DONE);
    assert_eq!(it.doc(), DOC_ID_DONE);
    assert_eq!(it.next(), DOC_ID_DONE);
}

#[test]
fn seek_at_or_before_a_single_hit_finds_it() {
    let fix = Fixture::new();
    let field = fix.field("f", TokenFieldFeatures::WithTermFrequency);
    fix.write(&field, 5, &[(0, b"one"), (1, b"one")]);
    for target in [0u64, 4, 5] {
        let mut it = fix.iter(&field, b"one").unwrap();
        assert_eq!(it.advance_to(target), 5);
        assert_eq!(it.term_frequency(), 2);
        assert_eq!(it.next(), DOC_ID_DONE);
    }
}

#[test]
fn seek_beyond_the_last_document_is_done() {
    let fix = Fixture::new();
    let field = fix.field("f", TokenFieldFeatures::Doc);
    for docid in [5u64, 10] {
        fix.write(&field, docid, &[(0, b"two")]);
    }
    let mut it = fix.iter(&field, b"two").unwrap();
    assert_eq!(it.next(), 5);
    assert_eq!(it.advance_to(11), DOC_ID_DONE);
    assert_eq!(it.next(), DOC_ID_DONE);
}

// --- appends of many documents ---

#[test]
fn a_batch_of_documents_is_read_back() {
    let fix = Fixture::new();
    let field = fix.field("f", TokenFieldFeatures::WithPositions);
    let mut buf = TokenIndexBuffer::new(TokenFieldFeatures::WithPositions);
    buf.add_doc(&[(0, b"cat".to_vec()), (1, b"dog".to_vec()), (2, b"cat".to_vec())]);
    buf.add_doc(&[(0, b"dog".to_vec())]);
    buf.add_doc(&[(4, b"cat".to_vec())]);
    assert_eq!(fix.append(&field, buf, 100), Ok(103));

    let mut buf = TokenIndexBuffer::new(TokenFieldFeatures::WithPositions);
    buf.add_doc(&[(7, b"cat".to_vec()), (9, b"emu".to_vec())]);
    assert_eq!(fix.append(&field, buf, 103), Ok(104));

    assert_eq!(
        collect_postings(fix.iter(&field, b"cat").unwrap()),
        [
            (100, 2, vec![0, 2]),
            (102, 1, vec![4]),
            (103, 1, vec![7])
        ]
    );
    assert_eq!(
        collect_postings(fix.iter(&field, b"dog").unwrap()),
        [(100, 1, vec![1]), (101, 1, vec![0])]
    );
    assert_eq!(
        collect_postings(fix.iter(&field, b"emu").unwrap()),
        [(103, 1, vec![9])]
    );
    assert_eq!(fix.iter(&field, b"cat").unwrap().size_hint(), 3);
    assert!(fix.iter(&field, b"fox").is_none());
}

#[test]
fn blocks_are_filled_up_over_appends() {
    let fix = Fixture::new();
    let field = fix.field("f", TokenFieldFeatures::WithTermFrequency);
    let mut next = 0;
    for count in [1usize, 200, 300, 1, 600] {
        let mut buf = TokenIndexBuffer::new(TokenFieldFeatures::WithTermFrequency);
        for _ in 0..count {
            buf.add_doc(&[(0, b"t".to_vec()), (1, b"t".to_vec())]);
        }
        next = fix.append(&field, buf, next).unwrap();
    }
    assert_eq!(next, 1102);
    let expected: Vec<(DocId, u32, Vec<u32>)> = (0..next).map(|d| (d, 2, vec![])).collect();
    assert_eq!(collect_postings(fix.iter(&field, b"t").unwrap()), expected);
    // Full blocks, and one with the rest.
    let snap = fix.db.snapshot();
    let blocks = snap.iter(&field.keyspaces.docpl).count();
    assert_eq!(blocks, 1102 / MAX_PL_BLOCK_SIZE + 1);
}

#[test]
fn documents_that_are_already_there_are_refused() {
    let fix = Fixture::new();
    let field = fix.field("f", TokenFieldFeatures::Doc);
    for docid in [5u64, 10] {
        fix.write(&field, docid, &[(0, b"dup")]);
    }
    let mut buf = TokenIndexBuffer::new(TokenFieldFeatures::Doc);
    buf.add_doc(&[(0, b"dup".to_vec())]);
    assert_eq!(fix.append(&field, buf, 7), Err(AppendError::OutOfOrder));
}
