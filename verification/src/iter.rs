//! Iterating over the documents of a token.
use crate::block::{ascending, lemma_decoded_block, BlockView, DocPostingBlock};
use crate::bytes::{be_bytes, lemma_be_bytes, push_be};
use crate::features::TokenFieldFeatures;
use crate::field::{
    pl_front, spec_key_docid, spec_stats_key, Section, TokenFieldIndex, SEPARATOR,
};
use crate::positions::{decode_positions, positions_from, PosId};
use crate::stats::{DocId, TokenStats};
use crate::store::{reply_view, Entry, EntryView, Query, QueryView};
use vstd::prelude::*;
use vstd::slice::slice_to_vec;

verus! {

/// Value yielded by methods returning a DocId if there are no more results.
pub const DOC_ID_DONE: u64 = 0xffff_ffff_ffff_ffff;

/// Value yielded by `doc()` when the iterator is not positioned.
pub const DOC_ID_UNPOSITIONED: DocId = 0xffff_ffff_ffff_fffe;

/// How far an iterator has come: at a document (or done), or in need of a read before it can go on.
#[derive(Debug)]
pub enum Progress {
    At(DocId),
    Fetch(Query),
}

/// [`Progress`] by its contents.
#[verifier::ext_equal]
pub enum ProgressView {
    At(DocId),
    Fetch(QueryView),
}

impl View for Progress {
    type V = ProgressView;

    open spec fn view(&self) -> ProgressView {
        match *self {
            Progress::At(d) => ProgressView::At(d),
            Progress::Fetch(q) => ProgressView::Fetch(q@),
        }
    }
}

/// What is wrong with an entry of the store.
#[derive(Debug, Copy, Clone, PartialEq, Eq, Structural)]
pub enum PostingError {
    /// The statistics of a token cannot be decoded.
    BadStats,
    /// A block of a posting list cannot be decoded.
    BadBlock,
    /// A document of the list has no positions.
    MissingPositions,
    /// The positions of a document cannot be decoded.
    BadPositions,
}

/// Trait for iterating over an ordered set of DocIds.
///
/// On creation iterator should be in an unpositioned state.
///
/// An iterator that needs an entry of the store says so by `Progress::Fetch`; the answer goes to
/// `resume()`, and nothing else may be asked of it before.
pub trait DocIdSetIterator: Send {
    spec fn wf(&self) -> bool;

    spec fn spec_doc(&self) -> DocId;

    /// The iterator waits for the answer to a read.
    spec fn awaiting(&self) -> bool;

    spec fn spec_size_hint(&self) -> u64;

    /// Return the current doc.
    ///
    /// May return `DONE` if there are no more docs or `UNPOSITIONED` if this iterator has not
    /// been advanced at all.
    fn doc(&self) -> (r: DocId)
        ensures
            r == self.spec_doc(),
    ;

    /// Advance to the next doc and return its id.
    ///
    /// This operation positions the iterator.
    fn next(&mut self) -> (r: Progress)
        requires
            old(self).wf(),
            !old(self).awaiting(),
        ensures
            final(self).wf(),
            final(self).spec_size_hint() == old(self).spec_size_hint(),
            match r {
                Progress::At(d) => !final(self).awaiting() && d == final(self).spec_doc(),
                Progress::Fetch(_) => final(self).awaiting(),
            },
    ;

    /// Advance to the next document in the list _at or after_ `target`.
    ///
    /// This operation positions the iterator. A positioned iterator may not go backwards.
    fn advance_to(&mut self, target: DocId) -> (r: Progress)
        requires
            old(self).wf(),
            !old(self).awaiting(),
            old(self).spec_doc() != DOC_ID_UNPOSITIONED ==> old(self).spec_doc() <= target,
        ensures
            final(self).wf(),
            final(self).spec_size_hint() == old(self).spec_size_hint(),
            match r {
                Progress::At(d) => {
                    &&& !final(self).awaiting()
                    &&& d == final(self).spec_doc()
                    &&& d >= target
                },
                Progress::Fetch(_) => final(self).awaiting(),
            },
    ;

    /// Take the answer to a read and go on with the operation that asked for it. After an error
    /// the iterator still waits for the answer.
    fn resume(&mut self, reply: Option<Entry>) -> (r: Result<Progress, PostingError>)
        requires
            old(self).wf(),
            old(self).awaiting(),
        ensures
            final(self).wf(),
            final(self).spec_size_hint() == old(self).spec_size_hint(),
            match r {
                Ok(Progress::At(d)) => !final(self).awaiting() && d == final(self).spec_doc(),
                _ => final(self).awaiting(),
            },
    ;

    /// Return an estimate of the total number of doc hits this iterator will yield.
    fn size_hint(&self) -> (r: u64)
        ensures
            r == self.spec_size_hint(),
    ;
}

/// Trait for iterating over posting data for a document, including positions.
pub trait PostingIterator: DocIdSetIterator {
    /// Value yielded by `next_pos()` if there are no more positions.
    const POS_DONE: PosId = u32::MAX;

    spec fn spec_features(&self) -> TokenFieldFeatures;

    /// The number of positions on this doc, unless the store has none for it.
    spec fn spec_term_frequency(&self) -> Option<u32>;

    /// Return the features available on this posting.
    fn features(&self) -> (r: TokenFieldFeatures)
        ensures
            r == self.spec_features(),
    ;

    /// Return the number of matching positions on this doc, or `None` if the block that the store
    /// has for it does not say.
    ///
    /// Will return 1 if `!features().has_term_frequency()`.
    ///
    /// May not be called on an unpositioned iterator.
    fn term_frequency(&mut self) -> (r: Option<u32>)
        requires
            old(self).wf(),
            !old(self).awaiting(),
            old(self).spec_doc() != DOC_ID_UNPOSITIONED,
        ensures
            final(self).wf(),
            !final(self).awaiting(),
            final(self).spec_doc() == old(self).spec_doc(),
            final(self).spec_features() == old(self).spec_features(),
            final(self).spec_term_frequency() == old(self).spec_term_frequency(),
            r == old(self).spec_term_frequency(),
            old(self).spec_features() is Doc ==> r == Some(1u32),
    ;

    /// Begin to list the position of all hits within the document: empty `out`, and return the
    /// read whose answer `fill_positions()` takes. There is none if `!features().has_positions()`
    /// or if there are no more docs; the output vector then stays empty.
    fn append_positions(&mut self, out: &mut Vec<u32>) -> (r: Option<Query>)
        requires
            old(self).wf(),
            !old(self).awaiting(),
            old(self).spec_doc() != DOC_ID_UNPOSITIONED,
        ensures
            final(self).wf(),
            !final(self).awaiting(),
            final(self).spec_doc() == old(self).spec_doc(),
            final(self).spec_features() == old(self).spec_features(),
            final(self).spec_term_frequency() == old(self).spec_term_frequency(),
            final(out)@ == Seq::<u32>::empty(),
            r is Some <==> old(self).spec_features() is WithPositions && old(self).spec_doc()
                != DOC_ID_DONE,
    ;

    /// Take the answer to the read of `append_positions()` and put the positions of all hits
    /// within the document in `out`. After an error `out` is empty.
    fn fill_positions(&self, reply: Option<Entry>, out: &mut Vec<u32>) -> (r: Result<
        (),
        PostingError,
    >)
        ensures
            match reply_view(reply) {
                None => r == Err::<(), _>(PostingError::MissingPositions),
                Some(e) => match positions_from(0, e.value) {
                    Some(ps) => r is Ok && final(out)@ == ps,
                    None => r == Err::<(), _>(PostingError::BadPositions),
                },
            },
            r is Err ==> final(out)@ == Seq::<u32>::empty(),
    ;
}

/// What an iterator does with the answer that it waits for.
#[derive(Debug, Copy, Clone, PartialEq, Eq, Structural)]
pub enum Pending {
    /// It gets the last block that begins at or before `seek`. Unless that is the current block,
    /// it moves there, and then on to the document `settle` if there is one.
    AtOrBefore { seek: DocId, settle: Option<DocId> },
    /// It gets the first block from some document on, moves there, and then on to the document
    /// `settle` if there is one.
    From { settle: Option<DocId> },
}

/// The first index from `from` on at which a document at or after `target` stands; the length if
/// there is none.
pub open spec fn first_at_or_after(docids: Seq<u64>, from: int, target: DocId) -> int
    decreases docids.len() - from,
{
    if from >= docids.len() {
        docids.len() as int
    } else if docids[from] >= target {
        from
    } else {
        first_at_or_after(docids, from + 1, target)
    }
}

/// The state of an iterator over the documents of a token.
#[verifier::ext_equal]
pub struct IterView {
    /// What the keys of the blocks begin with.
    pub front: Seq<u8>,
    /// What the keys of the positions end with, after the document.
    pub pos_tail: Seq<u8>,
    pub features: TokenFieldFeatures,
    pub size_hint: u64,
    /// The only document of the token and its term frequency, where there is no posting list.
    pub single: Option<(DocId, u64)>,
    /// The current block and the index of the current document within it.
    pub block: Option<(BlockView, int)>,
    pub doc: DocId,
    pub pending: Option<Pending>,
}

impl IterView {
    pub open spec fn key(self, docid: DocId) -> Seq<u8> {
        self.front + be_bytes(docid)
    }

    /// No more documents.
    pub open spec fn finished(self) -> (IterView, ProgressView) {
        (
            IterView { block: None, doc: DOC_ID_DONE, pending: None, ..self },
            ProgressView::At(DOC_ID_DONE),
        )
    }

    /// At a document of a block.
    pub open spec fn positioned(self, block: BlockView, index: int) -> (IterView, ProgressView) {
        (
            IterView {
                block: Some((block, index)),
                doc: block.docids[index],
                pending: None,
                ..self
            },
            ProgressView::At(block.docids[index]),
        )
    }

    /// At the only document of a token without a posting list.
    pub open spec fn at_single(self) -> (IterView, ProgressView) {
        self.positioned(
            BlockView {
                docids: seq![self.single.unwrap().0],
                term_frequencies: seq![self.single.unwrap().1 as u32],
            },
            0,
        )
    }

    /// Asks for the first block that begins at or after `docid`.
    pub open spec fn fetch_from(self, docid: DocId, settle: Option<DocId>) -> (
        IterView,
        ProgressView,
    ) {
        (
            IterView { pending: Some(Pending::From { settle }), ..self },
            ProgressView::Fetch(
                QueryView::First {
                    section: Section::DocPl,
                    lo: self.key(docid),
                    hi: self.key(DOC_ID_DONE),
                },
            ),
        )
    }

    /// Asks for the last block that begins at or before `seek`.
    pub open spec fn fetch_at_or_before(self, seek: DocId, settle: Option<DocId>) -> (
        IterView,
        ProgressView,
    ) {
        (
            IterView { pending: Some(Pending::AtOrBefore { seek, settle }), ..self },
            ProgressView::Fetch(
                QueryView::Last { section: Section::DocPl, lo: self.key(0), hi: self.key(seek) },
            ),
        )
    }

    /// The block after the current one, or the first.
    pub open spec fn next_block(self) -> (IterView, ProgressView) {
        match (self.single, self.block) {
            (Some(_), Some(_)) => self.finished(),
            (Some(_), None) => self.at_single(),
            (None, Some((b, _))) => if b.docids[0] == DOC_ID_DONE {
                self.finished()
            } else {
                self.fetch_from((b.docids[0] + 1) as u64, None)
            },
            (None, None) => self.fetch_from(0, None),
        }
    }

    pub open spec fn next(self) -> (IterView, ProgressView) {
        if self.doc == DOC_ID_UNPOSITIONED {
            self.next_block()
        } else {
            match self.block {
                None => self.finished(),
                Some((b, i)) => if i + 1 < b.docids.len() {
                    self.positioned(b, i + 1)
                } else {
                    self.next_block()
                },
            }
        }
    }

    /// Towards the last block that begins at or before `target`, or, if there is none or it is the
    /// current one, the first block that begins at or after `target`; then on to the first document
    /// at or after `settle`. Without `settle` it ends at the first document of the block, which
    /// comes before `target` if `target` lies within the block or in the gap behind it. A token
    /// without a posting list has its only document or none.
    pub open spec fn advance_to_block(self, target: DocId, settle: Option<DocId>) -> (
        IterView,
        ProgressView,
    ) {
        match self.single {
            Some((d, _)) => if target <= d {
                self.at_single()
            } else {
                self.finished()
            },
            None => self.fetch_at_or_before(target, settle),
        }
    }

    pub open spec fn advance_to(self, target: DocId) -> (IterView, ProgressView) {
        if self.doc == DOC_ID_DONE {
            (self, ProgressView::At(DOC_ID_DONE))
        } else {
            match self.block {
                Some((b, i)) if target <= b.docids.last() => self.positioned(
                    b,
                    first_at_or_after(b.docids, i, target),
                ),
                _ => self.advance_to_block(target, Some(target)),
            }
        }
    }

    /// `key` is that of the current block.
    pub open spec fn is_current(self, key: Seq<u8>) -> bool {
        self.block matches Some((b, _)) && spec_key_docid(key) == Some(b.docids[0])
    }

    /// Moves to a block that was read.
    pub open spec fn load(self, e: EntryView, settle: Option<DocId>) -> Result<
        (IterView, ProgressView),
        PostingError,
    > {
        match BlockView::spec_decode(e.key, e.value, self.features) {
            None => Err(PostingError::BadBlock),
            Some(b) => match settle {
                None => Ok(self.positioned(b, 0)),
                Some(target) => if target <= b.docids.last() {
                    Ok(self.positioned(b, first_at_or_after(b.docids, 0, target)))
                } else {
                    Ok(
                        self.positioned(b, 0).0.fetch_at_or_before(
                            (b.docids.last() + 1) as u64,
                            None,
                        ),
                    )
                },
            },
        }
    }

    pub open spec fn resume(self, reply: Option<EntryView>) -> Result<
        (IterView, ProgressView),
        PostingError,
    > {
        match (self.pending.unwrap(), reply) {
            (Pending::AtOrBefore { seek, settle }, Some(e)) => if self.is_current(e.key) {
                Ok(self.fetch_from(seek, settle))
            } else {
                self.load(e, settle)
            },
            (Pending::AtOrBefore { seek, settle }, None) => Ok(self.fetch_from(seek, settle)),
            (Pending::From { settle }, Some(e)) => self.load(e, settle),
            (Pending::From { settle }, None) => Ok(self.finished()),
        }
    }

    /// How often the token occurs in the current document.
    pub open spec fn term_frequency(self) -> Option<u32> {
        if self.features is Doc {
            Some(1)
        } else {
            match self.block {
                Some((b, i)) => if i < b.term_frequencies.len() {
                    Some(b.term_frequencies[i])
                } else {
                    None
                },
                None => match self.single {
                    Some((_, tf)) => Some(tf as u32),
                    None => Some(1),
                },
            }
        }
    }

    /// The read for the positions of the current document.
    pub open spec fn positions_query(self) -> Option<QueryView> {
        if self.features is WithPositions && self.doc != DOC_ID_DONE {
            Some(QueryView::Get { section: Section::PosPl, key: be_bytes(self.doc) + self.pos_tail })
        } else {
            None
        }
    }
}

/// Finds the first document at or after `target` from `from` on.
fn search(docids: &Vec<u64>, from: usize, target: DocId) -> (r: usize)
    requires
        ascending(docids@),
        from < docids@.len(),
        target <= docids@.last(),
    ensures
        from <= r < docids@.len(),
        r == first_at_or_after(docids@, from as int, target),
        docids@[r as int] >= target,
{
    let mut lo: usize = from;
    let mut hi: usize = docids.len() - 1;
    while lo < hi
        invariant
            ascending(docids@),
            from <= lo <= hi < docids@.len(),
            docids@[hi as int] >= target,
            first_at_or_after(docids@, from as int, target) == first_at_or_after(
                docids@,
                lo as int,
                target,
            ),
        decreases hi - lo,
    {
        let mid: usize = lo + (hi - lo) / 2;
        if docids[mid] < target {
            proof {
                lemma_first_skips(docids@, lo as int, mid + 1, target);
            }
            lo = mid + 1;
        } else {
            hi = mid;
        }
    }
    lo
}

/// Documents before `target` are passed over.
pub proof fn lemma_first_skips(docids: Seq<u64>, from: int, to: int, target: DocId)
    requires
        0 <= from <= to <= docids.len(),
        forall|i: int| from <= i < to ==> docids[i] < target,
    ensures
        first_at_or_after(docids, from, target) == first_at_or_after(docids, to, target),
    decreases to - from,
{
    if from < to {
        lemma_first_skips(docids, from + 1, to, target);
    }
}

pub struct DocBlockState {
    block: DocPostingBlock,
    index: usize,
}

pub struct PosState {
    /// Full pospl key with a placeholder docid in the first 8 bytes, replaced for each lookup.
    key: Vec<u8>,
}

/// An iterator over the documents of a token.
pub struct TokenPostingIterator {
    features: TokenFieldFeatures,
    size_hint: u64,
    start_key: Vec<u8>,
    scratch_key: Vec<u8>,
    end_key: Vec<u8>,
    /// `Some((docid, term_frequency))` when the stats entry is `SingleHit` and
    /// there is no doc posting list in the keyspace.
    single_doc: Option<(DocId, u64)>,
    doc_state: Option<DocBlockState>,
    pos_state: PosState,
    doc: DocId,
    pending: Option<Pending>,
}

impl View for TokenPostingIterator {
    type V = IterView;

    closed spec fn view(&self) -> IterView {
        IterView {
            front: self.end_key@.take(self.end_key@.len() - 8),
            pos_tail: self.pos_state.key@.skip(8),
            features: self.features,
            size_hint: self.size_hint,
            single: self.single_doc,
            block: match self.doc_state {
                Some(s) => Some((s.block@, s.index as int)),
                None => None,
            },
            doc: self.doc,
            pending: self.pending,
        }
    }
}

/// The statistics as an iterator uses them: the estimated number of documents, and the only
/// document with its term frequency.
pub open spec fn hint_and_single(stats: TokenStats) -> (u64, Option<(DocId, u64)>) {
    match stats {
        TokenStats::SingleHit { docid, term_frequency } => (1, Some((docid, term_frequency))),
        TokenStats::MultiHit { doc_frequency, .. } => (doc_frequency, None),
    }
}

/// A new iterator over a token, given its statistics.
pub open spec fn new_iter(
    name: Seq<u8>,
    features: TokenFieldFeatures,
    token: Seq<u8>,
    stats: TokenStats,
) -> IterView {
    IterView {
        front: pl_front(name, token),
        pos_tail: seq![SEPARATOR] + name + seq![SEPARATOR] + token,
        features,
        size_hint: hint_and_single(stats).0,
        single: hint_and_single(stats).1,
        block: None,
        doc: DOC_ID_UNPOSITIONED,
        pending: None,
    }
}

impl TokenPostingIterator {
    closed spec fn inv(self) -> bool {
        &&& self.end_key@.len() >= 8
        &&& self.start_key@ == self@.key(0)
        &&& self.end_key@ == self@.key(DOC_ID_DONE)
        &&& self.scratch_key@.len() == self.end_key@.len()
        &&& self.scratch_key@.take(self.end_key@.len() - 8) == self@.front
        &&& self.pos_state.key@.len() >= 8
        &&& self.doc_state matches Some(s) ==> {
            &&& s.index < s.block@.docids.len()
            &&& ascending(s.block@.docids)
        }
    }

    /// The read that has to be answered before there can be an iterator over `token`.
    pub fn stats_query(field: &TokenFieldIndex, token: &[u8]) -> (r: Query)
        ensures
            r@ == (QueryView::Get {
                section: Section::Stats,
                key: spec_stats_key(field.name_bytes(), token@),
            }),
    {
        Query::Get { section: Section::Stats, key: field.stats_key(token) }
    }

    /// An iterator over the documents of `token`, given the statistics of the token. There is
    /// none if there are no statistics.
    pub fn new(field: &TokenFieldIndex, token: &[u8], stats: Option<Entry>) -> (r: Result<
        Option<Self>,
        PostingError,
    >)
        ensures
            match reply_view(stats) {
                None => r matches Ok(None),
                Some(e) => match TokenStats::spec_decode(e.value) {
                    None => r matches Err(PostingError::BadStats),
                    Some(s) => r matches Ok(Some(it)) && it.wf() && it@ == new_iter(
                        field.name_bytes(),
                        field.spec_features(),
                        token@,
                        s,
                    ),
                },
            },
    {
        let entry = match stats {
            Some(e) => e,
            None => return Ok(None),
        };
        let decoded = match TokenStats::decode(entry.value.as_slice()) {
            Some(s) => s,
            None => return Err(PostingError::BadStats),
        };
        let (size_hint, single_doc) = match decoded {
            TokenStats::SingleHit { docid, term_frequency } => (1, Some((docid, term_frequency))),
            TokenStats::MultiHit { doc_frequency, term_frequency: _ } => (doc_frequency, None),
        };
        let start_key = field.pl_key(token, 0);
        let end_key = field.pl_key(token, DOC_ID_DONE);
        let it = TokenPostingIterator {
            features: field.features(),
            size_hint,
            start_key,
            scratch_key: slice_to_vec(end_key.as_slice()),
            end_key,
            single_doc,
            doc_state: None,
            pos_state: PosState { key: field.pospl_key(0, token) },
            doc: DOC_ID_UNPOSITIONED,
            pending: None,
        };
        proof {
            let name = field.name_bytes();
            lemma_be_bytes(0);
            lemma_be_bytes(DOC_ID_DONE);
            assert(it@.front =~= pl_front(name, token@));
            assert(it@.pos_tail =~= seq![SEPARATOR] + name + seq![SEPARATOR] + token@);
            assert(it@ =~= new_iter(name, field.spec_features(), token@, decoded));
        }
        Ok(Some(it))
    }

    fn update_scratch_key(&mut self, target: DocId)
        requires
            old(self).inv(),
        ensures
            final(self).inv(),
            final(self)@ == old(self)@,
            final(self).scratch_key@ == old(self)@.key(target),
    {
        let n: usize = self.end_key.len() - 8;
        self.scratch_key.truncate(n);
        push_be(&mut self.scratch_key, target);
        proof {
            lemma_be_bytes(target);
            assert(self.scratch_key@ =~= self@.key(target));
            assert(self.scratch_key@.take(n as int) =~= self@.front);
        }
    }

    /// Load the last block that begins at or before `target`, or, if there is none or it is the
    /// current one, the first block that begins at or after `target`. Then go on to the first
    /// document at or after `settle`. Without `settle` the iterator stays at the first document of
    /// the block that was loaded, which comes before `target` if `target` lies within the block or
    /// in the gap behind it. A token without a posting list has its only document or none.
    fn advance_to_block(&mut self, target: DocId, settle: Option<DocId>) -> (r: Progress)
        requires
            old(self).inv(),
        ensures
            final(self).inv(),
            (final(self)@, r@) == old(self)@.advance_to_block(target, settle),
    {
        if let Some((docid, tf)) = self.single_doc {
            if target <= docid {
                self.load_single(docid, tf)
            } else {
                self.finish()
            }
        } else {
            // Find the last block whose first docid <= target. If there is no such block or that
            // block is the same as the current block, find the block that starts after `target`.
            self.update_scratch_key(target);
            self.pending = Some(Pending::AtOrBefore { seek: target, settle });
            Progress::Fetch(
                Query::Last {
                    section: Section::DocPl,
                    lo: slice_to_vec(self.start_key.as_slice()),
                    hi: slice_to_vec(self.scratch_key.as_slice()),
                },
            )
        }
    }

    fn load_single(&mut self, docid: DocId, tf: u64) -> (r: Progress)
        requires
            old(self).inv(),
            old(self)@.single == Some((docid, tf)),
        ensures
            final(self).inv(),
            (final(self)@, r@) == old(self)@.at_single(),
    {
        self.doc_state =
        Some(DocBlockState { block: DocPostingBlock::from_singleton(docid, tf), index: 0 });
        self.doc = docid;
        self.pending = None;
        Progress::At(docid)
    }

    fn finish(&mut self) -> (r: Progress)
        requires
            old(self).inv(),
        ensures
            final(self).inv(),
            (final(self)@, r@) == old(self)@.finished(),
    {
        self.doc_state = None;
        self.doc = DOC_ID_DONE;
        self.pending = None;
        Progress::At(DOC_ID_DONE)
    }

    /// Ask for the first block that begins at or after `docid`.
    fn fetch_from(&mut self, docid: DocId, settle: Option<DocId>) -> (r: Progress)
        requires
            old(self).inv(),
        ensures
            final(self).inv(),
            (final(self)@, r@) == old(self)@.fetch_from(docid, settle),
    {
        self.update_scratch_key(docid);
        self.pending = Some(Pending::From { settle });
        Progress::Fetch(
            Query::First {
                section: Section::DocPl,
                lo: slice_to_vec(self.scratch_key.as_slice()),
                hi: slice_to_vec(self.end_key.as_slice()),
            },
        )
    }

    fn next_block(&mut self) -> (r: Progress)
        requires
            old(self).inv(),
        ensures
            final(self).inv(),
            (final(self)@, r@) == old(self)@.next_block(),
    {
        if let Some((docid, tf)) = self.single_doc {
            if self.doc_state.is_some() {
                self.finish()
            } else {
                self.load_single(docid, tf)
            }
        } else {
            let current: Option<u64> = match &self.doc_state {
                Some(s) => Some(s.block.docids[0]),
                None => None,
            };
            match current {
                Some(first) => if first == DOC_ID_DONE {
                    self.finish()
                } else {
                    self.fetch_from(first + 1, None)
                },
                None => self.fetch_from(0, None),
            }
        }
    }

    /// Move to a block that was read, and then on to the document `settle`, if there is one.
    fn update_doc_block(&mut self, entry: Entry, settle: Option<DocId>) -> (r: Result<
        Progress,
        PostingError,
    >)
        requires
            old(self).inv(),
            old(self)@.single is None,
        ensures
            final(self).inv(),
            match r {
                Ok(p) => old(self)@.load(entry@, settle) == Ok::<_, PostingError>(
                    (final(self)@, p@),
                ),
                Err(e) => {
                    &&& old(self)@.load(entry@, settle) == Err::<(IterView, ProgressView), _>(e)
                    &&& final(self)@ == old(self)@
                },
            },
    {
        proof {
            lemma_decoded_block(entry.key@, entry.value@, self.features);
        }
        let block = match DocPostingBlock::decode(
            entry.key.as_slice(),
            entry.value.as_slice(),
            self.features,
        ) {
            Some(b) => b,
            None => return Err(PostingError::BadBlock),
        };
        let last: u64 = block.docids[block.docids.len() - 1];
        let index: usize = match settle {
            Some(target) => if target <= last {
                search(&block.docids, 0, target)
            } else {
                0
            },
            None => 0,
        };
        self.doc = block.docids[index];
        self.doc_state = Some(DocBlockState { block, index });
        self.pending = None;
        if let Some(target) = settle {
            if target > last {
                return Ok(self.advance_to_block(last + 1, None));
            }
        }
        Ok(Progress::At(self.doc))
    }
}

impl DocIdSetIterator for TokenPostingIterator {
    closed spec fn wf(&self) -> bool {
        &&& self.inv()
        &&& self@.single is Some ==> self@.pending is None
    }

    open spec fn spec_doc(&self) -> DocId {
        self@.doc
    }

    open spec fn awaiting(&self) -> bool {
        self@.pending is Some
    }

    open spec fn spec_size_hint(&self) -> u64 {
        self@.size_hint
    }

    fn doc(&self) -> (r: DocId) {
        self.doc
    }

    fn next(&mut self) -> (r: Progress)
        ensures
            (final(self)@, r@) == old(self)@.next(),
    {
        if self.doc == DOC_ID_UNPOSITIONED {
            return self.next_block();
        }
        let following: Option<(u64, usize)> = match &self.doc_state {
            None => return self.finish(),
            Some(s) => {
                if s.index < s.block.len() - 1 {
                    Some((s.block.docids[s.index + 1], s.index + 1))
                } else {
                    None
                }
            },
        };
        match following {
            Some((docid, index)) => {
                if let Some(s) = &mut self.doc_state {
                    s.index = index;
                }
                self.doc = docid;
                Progress::At(docid)
            },
            None => self.next_block(),
        }
    }

    fn advance_to(&mut self, target: DocId) -> (r: Progress)
        ensures
            (final(self)@, r@) == old(self)@.advance_to(target),
    {
        if self.doc == DOC_ID_DONE {
            return Progress::At(DOC_ID_DONE);
        }
        // If the current block cannot contain target, then load the needed block.
        let found: Option<(u64, usize)> = match &self.doc_state {
            None => None,
            Some(s) => {
                if target <= s.block.docids[s.block.docids.len() - 1] {
                    let index: usize = search(&s.block.docids, s.index, target);
                    Some((s.block.docids[index], index))
                } else {
                    None
                }
            },
        };
        match found {
            Some((docid, index)) => {
                if let Some(s) = &mut self.doc_state {
                    s.index = index;
                }
                self.doc = docid;
                Progress::At(docid)
            },
            None => self.advance_to_block(target, Some(target)),
        }
    }

    fn resume(&mut self, reply: Option<Entry>) -> (r: Result<Progress, PostingError>)
        ensures
            match r {
                Ok(p) => old(self)@.resume(reply_view(reply)) == Ok::<_, PostingError>(
                    (final(self)@, p@),
                ),
                Err(e) => {
                    &&& old(self)@.resume(reply_view(reply)) == Err::<
                        (IterView, ProgressView),
                        _,
                    >(e)
                    &&& final(self)@ == old(self)@
                },
            },
    {
        match self.pending {
            Some(Pending::AtOrBefore { seek, settle }) => match reply {
                Some(entry) => {
                    let same: bool = match &self.doc_state {
                        Some(s) => match TokenFieldIndex::pl_key_extract_docid(
                            entry.key.as_slice(),
                        ) {
                            Some(d) => d == s.block.docids[0],
                            None => false,
                        },
                        None => false,
                    };
                    if same {
                        Ok(self.fetch_from(seek, settle))
                    } else {
                        self.update_doc_block(entry, settle)
                    }
                },
                None => Ok(self.fetch_from(seek, settle)),
            },
            Some(Pending::From { settle }) => match reply {
                Some(entry) => self.update_doc_block(entry, settle),
                None => Ok(self.finish()),
            },
            None => Ok(self.finish()),
        }
    }

    fn size_hint(&self) -> (r: u64) {
        self.size_hint
    }
}

impl PostingIterator for TokenPostingIterator {
    open spec fn spec_features(&self) -> TokenFieldFeatures {
        self@.features
    }

    open spec fn spec_term_frequency(&self) -> Option<u32> {
        self@.term_frequency()
    }

    fn features(&self) -> (r: TokenFieldFeatures) {
        self.features
    }

    fn term_frequency(&mut self) -> (r: Option<u32>)
        ensures
            final(self)@ == old(self)@,
    {
        if !self.features.has_term_frequency() {
            return Some(1);
        }
        match &self.doc_state {
            Some(s) => if s.index < s.block.term_frequencies.len() {
                Some(s.block.term_frequencies[s.index])
            } else {
                None
            },
            None => match self.single_doc {
                Some((_, tf)) => {
                    #[verifier::truncate]
                    let r: u32 = tf as u32;
                    Some(r)
                },
                None => Some(1),
            },
        }
    }

    fn append_positions(&mut self, out: &mut Vec<u32>) -> (r: Option<Query>)
        ensures
            final(self)@ == old(self)@,
            match r {
                Some(q) => old(self)@.positions_query() == Some(q@),
                None => old(self)@.positions_query() is None,
            },
    {
        out.clear();
        if !self.features.has_positions() || self.doc == DOC_ID_DONE {
            return None;
        }
        let mut key: Vec<u8> = Vec::new();
        push_be(&mut key, self.doc);
        let n: usize = self.pos_state.key.len();
        let tail: &[u8] = vstd::slice::slice_subrange(self.pos_state.key.as_slice(), 8, n);
        key.extend_from_slice(tail);
        assert(key@ =~= be_bytes(self.doc) + self@.pos_tail);
        Some(Query::Get { section: Section::PosPl, key })
    }

    fn fill_positions(&self, reply: Option<Entry>, out: &mut Vec<u32>) -> (r: Result<
        (),
        PostingError,
    >) {
        out.clear();
        match reply {
            None => Err(PostingError::MissingPositions),
            Some(e) => {
                if decode_positions(e.value.as_slice(), out) {
                    assert(forall|ps: Seq<u32>| Seq::<u32>::empty() + ps =~= ps);
                    Ok(())
                } else {
                    Err(PostingError::BadPositions)
                }
            },
        }
    }
}

} // verus!
