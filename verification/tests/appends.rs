//! Appends and iterators against a store that is a map in memory.
use mt_postings::append::{update_doc_pl, AppendError};
use mt_postings::block::DocPostingBlock;
use mt_postings::buffer::TokenIndexBuffer;
use mt_postings::features::TokenFieldFeatures;
use mt_postings::field::{Section, TokenFieldIndex};
use mt_postings::ingest::{Batch, Ingest, RecordField};
use mt_postings::iter::{
    DocIdSetIterator, PostingError, PostingIterator, Progress, TokenPostingIterator, DOC_ID_DONE,
};
use mt_postings::reader::IndexRecord;
use mt_postings::store::{Entry, Query, Write};
use mt_postings::stats::TokenStats;
use std::collections::BTreeMap;

#[derive(Default)]
struct Store {
    sections: [BTreeMap<Vec<u8>, Vec<u8>>; 3],
}

fn slot(section: Section) -> usize {
    match section {
        Section::Stats => 0,
        Section::DocPl => 1,
        Section::PosPl => 2,
    }
}

fn entry(pair: (&Vec<u8>, &Vec<u8>)) -> Entry {
    Entry {
        key: pair.0.clone(),
        value: pair.1.clone(),
    }
}

impl Store {
    fn answer(&self, query: &Query) -> Option<Entry> {
        match query {
            Query::Get { section, key } => self.sections[slot(*section)].get_key_value(key),
            Query::Last { section, lo, hi } => self.sections[slot(*section)]
                .range::<Vec<u8>, _>(lo..=hi)
                .next_back(),
            Query::First { section, lo, hi } => self.sections[slot(*section)]
                .range::<Vec<u8>, _>(lo..hi)
                .next(),
        }
        .map(entry)
    }

    fn put(&mut self, write: Write) {
        self.sections[slot(write.section)].insert(write.key, write.value);
    }

    /// Appends, and tells how many reads it took.
    fn append(
        &mut self,
        field: &TokenFieldIndex,
        buffer: TokenIndexBuffer,
        start: u64,
    ) -> Result<usize, AppendError> {
        let mut append = buffer.apply_append(field, start);
        let mut writes = vec![];
        let mut reads = 0;
        while let Some(query) = append.query() {
            reads += 1;
            writes.extend(append.resume(self.answer(&query))?);
        }
        for write in writes {
            self.put(write);
        }
        Ok(reads)
    }

    fn iter(&self, field: &TokenFieldIndex, token: &[u8]) -> Option<TokenPostingIterator> {
        let query = TokenPostingIterator::stats_query(field, token);
        TokenPostingIterator::new(field, token, self.answer(&query)).unwrap()
    }

    /// Goes on with an operation; tells the document and the number of reads.
    fn settle(&self, it: &mut TokenPostingIterator, mut progress: Progress) -> (u64, usize) {
        let mut reads = 0;
        loop {
            match progress {
                Progress::At(doc) => return (doc, reads),
                Progress::Fetch(query) => {
                    reads += 1;
                    progress = it.resume(self.answer(&query)).unwrap();
                }
            }
        }
    }

    fn docs(&self, field: &TokenFieldIndex, token: &[u8]) -> Vec<u64> {
        let mut docs = vec![];
        if let Some(mut it) = self.iter(field, token) {
            loop {
                let progress = it.next();
                let (doc, _) = self.settle(&mut it, progress);
                if doc == DOC_ID_DONE {
                    break;
                }
                docs.push(doc);
            }
        }
        docs
    }
}

fn buffer(features: TokenFieldFeatures, docs: &[&[(u32, &str)]]) -> TokenIndexBuffer {
    let mut buffer = TokenIndexBuffer::new(features);
    for doc in docs {
        let tokens: Vec<(u32, Vec<u8>)> =
            doc.iter().map(|&(p, t)| (p, t.as_bytes().to_vec())).collect();
        buffer.add_doc(&tokens);
    }
    buffer
}

fn name() -> TokenFieldIndex {
    TokenFieldIndex::new("i", "name", TokenFieldFeatures::WithPositions)
}

#[test]
fn the_entries_that_an_append_writes() {
    let field = name();
    let mut store = Store::default();
    let first = buffer(
        TokenFieldFeatures::WithPositions,
        &[&[(0, "a"), (1, "b"), (4, "a")]],
    );
    // One read for each token: both are new and in one document.
    assert_eq!(store.append(&field, first, 10), Ok(2));
    assert_eq!(store.sections[0][b"name:a".as_slice()], [21, 2]);
    assert_eq!(store.sections[0][b"name:b".as_slice()], [21, 1]);
    assert!(store.sections[1].is_empty());
    assert_eq!(store.sections[2][&field.pospl_key(10, b"a")], [0, 4]);
    assert_eq!(store.sections[2][&field.pospl_key(10, b"b")], [1]);

    let second = buffer(
        TokenFieldFeatures::WithPositions,
        &[&[(3, "a")], &[(0, "a"), (2, "a"), (3, "a")]],
    );
    // Two reads: the token has a posting already.
    assert_eq!(store.append(&field, second, 11), Ok(2));
    assert_eq!(store.sections[0][b"name:a".as_slice()], [6, 6]);
    assert_eq!(store.sections[1].len(), 1);
    assert_eq!(
        store.sections[1][&field.pl_key(b"a", 10)],
        [3, 1, 1, 2, 1, 3]
    );
    assert_eq!(store.sections[2][&field.pospl_key(12, b"a")], [0, 2, 1]);
    assert_eq!(store.docs(&field, b"a"), [10, 11, 12]);
    assert_eq!(store.docs(&field, b"b"), [10]);
    assert!(store.docs(&field, b"c").is_empty());
}

#[test]
fn an_empty_block_writes_nothing() {
    let field = name();
    let last = DocPostingBlock::from_singleton(4, 1);
    let last = Entry {
        key: field.pl_key(b"t", 4),
        value: last.encode(TokenFieldFeatures::WithPositions),
    };
    let malformed = Entry {
        key: field.pl_key(b"t", 4),
        value: vec![0x80],
    };
    for reply in [None, Some(last), Some(malformed)] {
        let writes = update_doc_pl(&field, b"t", &DocPostingBlock::default(), reply);
        assert!(writes.unwrap().is_empty());
    }
}

#[test]
fn a_block_goes_behind_the_last_one() {
    let field = name();
    let last = Entry {
        key: field.pl_key(b"t", 4),
        value: DocPostingBlock::from_singleton(4, 1).encode(TokenFieldFeatures::WithPositions),
    };
    let more = DocPostingBlock::from_singleton(9, 2);
    let writes = update_doc_pl(&field, b"t", &more, Some(last)).unwrap();
    assert_eq!(writes.len(), 1);
    assert_eq!(writes[0].key, field.pl_key(b"t", 4));
    assert_eq!(writes[0].value, [2, 5, 1, 2]);
    let writes = update_doc_pl(&field, b"t", &more, None).unwrap();
    assert_eq!(writes.len(), 1);
    assert_eq!(writes[0].key, field.pl_key(b"t", 9));
    assert_eq!(writes[0].value, [1, 2]);
}

#[test]
fn an_empty_buffer_writes_nothing() {
    let field = name();
    let mut store = Store::default();
    let empty = TokenIndexBuffer::new(TokenFieldFeatures::WithPositions);
    assert_eq!(store.append(&field, empty, 3), Ok(0));
    assert!(store.sections.iter().all(|s| s.is_empty()));
}

#[test]
fn a_buffer_counts_documents_without_tokens() {
    let field = name();
    let mut store = Store::default();
    let mut docs = TokenIndexBuffer::new(TokenFieldFeatures::WithPositions);
    docs.add_doc(&[]);
    docs.add_doc(&[(0, b"t".to_vec())]);
    docs.add_doc(&[]);
    let append = docs.apply_append(&field, 40);
    assert_eq!(append.next_docid(), 43);
    let mut docs = TokenIndexBuffer::new(TokenFieldFeatures::WithPositions);
    docs.add_doc(&[]);
    docs.add_doc(&[(0, b"t".to_vec())]);
    store.append(&field, docs, 40).unwrap();
    assert_eq!(store.docs(&field, b"t"), [41]);
}

#[test]
fn occurrences_beyond_64_bits_are_refused() {
    let field = name();
    let mut store = Store::default();
    let stats = TokenStats::MultiHit {
        doc_frequency: 7,
        term_frequency: u64::MAX,
    };
    store.put(Write {
        section: Section::Stats,
        key: field.stats_key(b"t"),
        value: stats.encode().as_ref().to_vec(),
    });
    let docs = buffer(TokenFieldFeatures::WithPositions, &[&[(0, "t")]]);
    assert_eq!(
        store.append(&field, docs, 1),
        Err(AppendError::TermFrequencyOverflow)
    );
}

#[test]
fn a_last_block_that_cannot_be_decoded_is_refused() {
    let field = name();
    let mut store = Store::default();
    let docs = buffer(TokenFieldFeatures::WithPositions, &[&[(0, "t")], &[(0, "t")]]);
    store.append(&field, docs, 0).unwrap();
    store.put(Write {
        section: Section::DocPl,
        key: field.pl_key(b"t", 0),
        value: vec![0x80],
    });
    let docs = buffer(TokenFieldFeatures::WithPositions, &[&[(0, "t")]]);
    assert_eq!(store.append(&field, docs, 2), Err(AppendError::BadBlock));
}

#[test]
fn old_documents_are_refused() {
    let field = name();
    let mut store = Store::default();
    let docs = buffer(TokenFieldFeatures::WithPositions, &[&[(0, "t")], &[(0, "t")]]);
    store.append(&field, docs, 5).unwrap();
    let docs = buffer(TokenFieldFeatures::WithPositions, &[&[(0, "t")]]);
    assert_eq!(store.append(&field, docs, 5), Err(AppendError::OutOfOrder));
}

#[test]
fn entries_that_cannot_be_decoded_are_errors() {
    let field = name();
    let entry = |value: &[u8]| {
        Some(Entry {
            key: field.pl_key(b"t", 0),
            value: value.to_vec(),
        })
    };
    assert!(TokenPostingIterator::new(&field, b"t", None).unwrap().is_none());
    assert_eq!(
        TokenPostingIterator::new(&field, b"t", entry(&[])).err(),
        Some(PostingError::BadStats)
    );

    let many = TokenStats::MultiHit {
        doc_frequency: 2,
        term_frequency: 2,
    };
    let stats = entry(many.encode().as_ref());
    let mut it = TokenPostingIterator::new(&field, b"t", stats).unwrap().unwrap();
    assert!(matches!(it.next(), Progress::Fetch(Query::First { .. })));
    assert_eq!(it.resume(entry(&[])).unwrap_err(), PostingError::BadBlock);
    // A good answer makes up for it.
    assert!(matches!(
        it.resume(entry(&[2, 5, 1, 1])),
        Ok(Progress::At(0))
    ));
    let mut out = vec![8];
    assert!(matches!(
        it.append_positions(&mut out),
        Some(Query::Get {
            section: Section::PosPl,
            ..
        })
    ));
    assert!(out.is_empty());
    assert_eq!(
        it.fill_positions(None, &mut out),
        Err(PostingError::MissingPositions)
    );
    assert_eq!(
        it.fill_positions(entry(&[0xff, 0xff, 0xff, 0xff, 0x0f, 1]), &mut out),
        Err(PostingError::BadPositions)
    );
    assert!(out.is_empty());
    assert_eq!(it.fill_positions(entry(&[3, 4]), &mut out), Ok(()));
    assert_eq!(out, [3, 7]);
}

#[test]
fn a_block_without_frequencies() {
    let field = TokenFieldIndex::new("i", "name", TokenFieldFeatures::WithTermFrequency);
    let many = TokenStats::MultiHit {
        doc_frequency: 1,
        term_frequency: 1,
    };
    let stats = Entry {
        key: field.stats_key(b"t"),
        value: many.encode().as_ref().to_vec(),
    };
    let mut it = TokenPostingIterator::new(&field, b"t", Some(stats))
        .unwrap()
        .unwrap();
    assert!(matches!(it.next(), Progress::Fetch(_)));
    let empty = Entry {
        key: field.pl_key(b"t", 6),
        value: vec![0],
    };
    assert!(matches!(it.resume(Some(empty)), Ok(Progress::At(6))));
    assert_eq!(it.term_frequency(), None);
    assert!(matches!(it.next(), Progress::Fetch(_)));
    assert!(matches!(it.resume(None), Ok(Progress::At(DOC_ID_DONE))));
    assert_eq!(it.term_frequency(), Some(1));
}

#[test]
fn reads_of_an_iterator_are_few() {
    let field = TokenFieldIndex::new("i", "name", TokenFieldFeatures::Doc);
    let mut store = Store::default();
    let doc: &[(u32, &str)] = &[(0, "t")];
    let docs = vec![doc; 1000];
    store
        .append(&field, buffer(TokenFieldFeatures::Doc, &docs), 0)
        .unwrap();
    let mut it = store.iter(&field, b"t").unwrap();
    assert_eq!(it.size_hint(), 1000);
    for expected in 0..1000u64 {
        let progress = it.next();
        let (doc, reads) = store.settle(&mut it, progress);
        assert_eq!(doc, expected);
        assert_eq!(reads, usize::from(expected % 256 == 0));
    }
    let progress = it.next();
    assert_eq!(store.settle(&mut it, progress), (DOC_ID_DONE, 1));

    for from in [0u64, 100, 255, 256, 511, 900] {
        for to in [0u64, 100, 101, 255, 256, 257, 511, 700, 999, 1000, 5000] {
            let mut it = store.iter(&field, b"t").unwrap();
            let progress = it.advance_to(from);
            assert_eq!(store.settle(&mut it, progress).0, from);
            if to >= from {
                let progress = it.advance_to(to);
                let (doc, reads) = store.settle(&mut it, progress);
                assert_eq!(doc, if to < 1000 { to } else { DOC_ID_DONE });
                assert!(reads <= 3);
            }
        }
    }
}

#[test]
fn a_token_with_a_separator_mixes_with_another() {
    let field = TokenFieldIndex::new("i", "n", TokenFieldFeatures::Doc);
    let mut store = Store::default();
    let doc: &[(u32, &str)] = &[(0, "a"), (1, "a:b")];
    store
        .append(&field, buffer(TokenFieldFeatures::Doc, &[doc, doc]), 0)
        .unwrap();
    let keys = [field.pl_key(b"a", 0), field.pl_key(b"a:b", 0)];
    assert!(keys[1] > keys[0] && keys[1] < field.pl_key(b"a", DOC_ID_DONE));
}

#[test]
fn gathered_records_are_appended_and_read_back() {
    let texts = ["the cat", "a dog", "the cat and the dog", "fin"];
    let mut stores = [Store::default(), Store::default(), Store::default()];
    let mut ingest = Ingest::new(3);
    let mut batches = vec![];
    for text in texts {
        let record = IndexRecord {
            title: text.to_string(),
            body: text.to_uppercase(),
            random_label: "label".to_string(),
            time_of_day_secs: 0,
            timestamp_ms: 0,
        };
        if ingest.add(&record) {
            let (batch, rest) = ingest.flush();
            batches.push(batch);
            ingest = rest;
        }
    }
    assert_eq!(ingest.batch_count(), 1);
    batches.push(ingest.finish().0.unwrap());
    let indexes: Vec<TokenFieldIndex> = RecordField::all().iter().map(|f| f.index()).collect();
    for batch in batches {
        let start = batch.start_docid;
        stores[0].append(&indexes[0], batch.title, start).unwrap();
        stores[1].append(&indexes[1], batch.body, start).unwrap();
        stores[2].append(&indexes[2], batch.random_label, start).unwrap();
    }
    assert_eq!(stores[0].docs(&indexes[0], b"cat"), [0, 2]);
    assert_eq!(stores[0].docs(&indexes[0], b"the"), [0, 2]);
    assert_eq!(stores[0].docs(&indexes[0], b"dog"), [1, 2]);
    assert_eq!(stores[0].docs(&indexes[0], b"fin"), [3]);
    assert_eq!(stores[1].docs(&indexes[1], b"CAT"), [0, 2]);
    assert!(stores[1].docs(&indexes[1], b"cat").is_empty());
    assert_eq!(stores[2].docs(&indexes[2], b"label"), [0, 1, 2, 3]);

    let mut it = stores[0].iter(&indexes[0], b"the").unwrap();
    let progress = it.advance_to(1);
    assert_eq!(stores[0].settle(&mut it, progress).0, 2);
    assert_eq!(it.term_frequency(), Some(2));
    let mut out = vec![];
    let query = it.append_positions(&mut out).unwrap();
    it.fill_positions(stores[0].answer(&query), &mut out).unwrap();
    assert_eq!(out, [0, 3]);
}

/// The entries after documents are appended in batches of some sizes.
fn entries(features: TokenFieldFeatures, docs: &[Vec<(u32, Vec<u8>)>], sizes: &[usize]) -> Store {
    let field = TokenFieldIndex::new("i", "name", features);
    let mut store = Store::default();
    let mut start = 7u64;
    let mut rest = docs;
    for &size in sizes {
        let (batch, more) = rest.split_at(size);
        let mut buffer = TokenIndexBuffer::new(features);
        for doc in batch {
            buffer.add_doc(doc);
        }
        store.append(&field, buffer, start).unwrap();
        start += size as u64;
        rest = more;
    }
    assert!(rest.is_empty());
    store
}

#[test]
fn batches_do_not_show() {
    let docs: Vec<Vec<(u32, Vec<u8>)>> = (0..600u32)
        .map(|i| {
            let mut doc = vec![(0, b"all".to_vec()), (3, b"all".to_vec())];
            if i % 2 == 0 {
                doc.push((4 + i, b"even".to_vec()));
            }
            if i == 599 {
                doc.push((9, b"last".to_vec()));
            }
            doc
        })
        .collect();
    for features in [
        TokenFieldFeatures::Doc,
        TokenFieldFeatures::WithTermFrequency,
        TokenFieldFeatures::WithPositions,
    ] {
        let at_once = entries(features, &docs, &[600]);
        let one_by_one = entries(features, &docs, &[1; 600]);
        let mixed = entries(features, &docs, &[255, 1, 0, 2, 300, 42]);
        assert_eq!(at_once.sections, one_by_one.sections);
        assert_eq!(at_once.sections, mixed.sections);
        // "all" has two full blocks and one with the rest, "even" one full block and one more.
        assert_eq!(at_once.sections[1].len(), 3 + 2);
    }
}

#[test]
fn the_size_of_batches_does_not_show() {
    let texts = ["a b a", "b", "", "c a", "b b", "d", "a"];
    let run = |batch_size: usize, limit: Option<usize>| {
        let mut stores = [Store::default(), Store::default(), Store::default()];
        let mut write = |batch: Batch| {
            let start = batch.start_docid;
            let [title, body, label] = RecordField::all().map(|f| f.index());
            stores[0].append(&title, batch.title, start).unwrap();
            stores[1].append(&body, batch.body, start).unwrap();
            stores[2].append(&label, batch.random_label, start).unwrap();
        };
        let mut ingest = Ingest::new(batch_size);
        for text in texts {
            if !ingest.wants_more(limit) {
                break;
            }
            let record = IndexRecord {
                title: text.to_string(),
                body: "x".to_string(),
                random_label: text.to_uppercase(),
                time_of_day_secs: 0,
                timestamp_ms: 0,
            };
            if ingest.add(&record) {
                let (batch, rest) = ingest.flush();
                write(batch);
                ingest = rest;
            }
        }
        if let (Some(batch), _) = ingest.finish() {
            write(batch);
        }
        stores
    };
    for limit in [None, Some(0), Some(4), Some(7), Some(99)] {
        let expected = run(1, limit);
        for batch_size in [0usize, 2, 3, 7, 100] {
            let stores = run(batch_size, limit);
            for (store, want) in stores.iter().zip(&expected) {
                assert_eq!(store.sections, want.sections);
            }
        }
    }
    let stores = run(3, Some(5));
    let title = RecordField::Title.index();
    assert_eq!(stores[0].docs(&title, b"a"), [0, 3]);
    assert_eq!(stores[0].docs(&title, b"b"), [0, 1, 4]);
    assert!(stores[0].docs(&title, b"d").is_empty());
    assert_eq!(stores[1].docs(&RecordField::Body.index(), b"x"), [0, 1, 2, 3, 4]);
}
