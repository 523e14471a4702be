//! What it means that a store holds the posting list of a token, and that iterators read it back.
use crate::block::{lemma_decoded_block, BlockView, MAX_PL_BLOCK_SIZE};
use crate::bytes::{
    be_bytes, bytes_at_most, bytes_less, lemma_at_most_transitive, lemma_less_asymmetric,
    lemma_numbered_keys_order,
};
use crate::features::TokenFieldFeatures;
use crate::field::{
    pl_front, spec_key_docid, spec_pl_key, spec_pospl_key, spec_stats_key, Section, SEPARATOR,
};
use crate::iter::{
    first_at_or_after, lemma_first_skips, new_iter, IterView, Pending, ProgressView, DOC_ID_DONE,
    DOC_ID_UNPOSITIONED,
};
use crate::positions::positions_from;
use crate::stats::{DocId, TokenStats};
use crate::store::{EntryView, FieldStore, QueryView};
use vstd::prelude::*;

verus! {

/// A token in a document: how often it occurs there, and where. Fields that do not record
/// occurrences count one; fields that do not record positions have none.
#[verifier::ext_equal]
pub struct Posting {
    pub doc: DocId,
    pub tf: u32,
    pub positions: Seq<u32>,
}

pub open spec fn docids_of(list: Seq<Posting>) -> Seq<u64> {
    list.map_values(|p: Posting| p.doc)
}

pub open spec fn tfs_of(list: Seq<Posting>) -> Seq<u32> {
    list.map_values(|p: Posting| p.tf)
}

/// The number of occurrences in a list.
pub open spec fn occurrences(list: Seq<Posting>) -> nat
    decreases list.len(),
{
    if list.len() == 0 {
        0
    } else {
        occurrences(list.drop_last()) + list.last().tf as nat
    }
}

/// Blocks one after the other.
pub open spec fn joined(cuts: Seq<BlockView>) -> BlockView
    decreases cuts.len(),
{
    if cuts.len() == 0 {
        BlockView { docids: seq![], term_frequencies: seq![] }
    } else {
        joined(cuts.drop_last()).plus(cuts.last())
    }
}

/// How many documents come before block `i`.
#[verifier::opaque]
pub open spec fn offset(cuts: Seq<BlockView>, i: int) -> int
    decreases i,
{
    if i <= 0 {
        0
    } else {
        offset(cuts, i - 1) + cuts[i - 1].docids.len()
    }
}

/// Blocks of a list: none is empty or over the maximum, and each document has a term frequency.
pub open spec fn well_cut(cuts: Seq<BlockView>) -> bool {
    forall|i: int|
        0 <= i < cuts.len() ==> {
            &&& 1 <= (#[trigger] cuts[i]).docids.len() <= MAX_PL_BLOCK_SIZE
            &&& cuts[i].term_frequencies.len() == cuts[i].docids.len()
        }
}

/// Documents stand in strictly ascending order.
pub open spec fn strictly_ascending(docids: Seq<u64>) -> bool {
    forall|i: int, j: int| 0 <= i < j < docids.len() ==> docids[i] < docids[j]
}

/// A store, and the posting list of a token that it is to hold.
pub struct StoredList {
    pub store: FieldStore,
    pub name: Seq<u8>,
    pub features: TokenFieldFeatures,
    pub token: Seq<u8>,
    pub list: Seq<Posting>,
}

impl StoredList {
    pub open spec fn key(self, docid: DocId) -> Seq<u8> {
        spec_pl_key(self.name, self.token, docid)
    }

    /// `key` lies where the keys of the blocks of the token lie.
    pub open spec fn in_range(self, key: Seq<u8>) -> bool {
        bytes_at_most(self.key(0), key) && bytes_at_most(key, self.key(DOC_ID_DONE))
    }

    /// The list makes sense: documents ascend and leave out the reserved identifiers, what the
    /// field does not record is not there, and recorded positions are counted by the occurrences.
    pub open spec fn sensible(self) -> bool {
        &&& strictly_ascending(docids_of(self.list))
        &&& forall|i: int|
            0 <= i < self.list.len() ==> {
                &&& (#[trigger] self.list[i]).doc < DOC_ID_UNPOSITIONED
                &&& self.features is Doc ==> self.list[i].tf == 1
                &&& !(self.features is WithPositions) ==> self.list[i].positions.len() == 0
                &&& self.features is WithPositions ==> self.list[i].tf
                    == self.list[i].positions.len() as u32
            }
    }

    /// The statistics entry says what the list is: there is none for an empty list, the posting
    /// itself for a list of one, and the counts for a longer list.
    #[verifier::opaque]
    pub open spec fn stats_held(self) -> bool {
        let m = self.store.stats;
        let k = spec_stats_key(self.name, self.token);
        if self.list.len() == 0 {
            !m.contains_key(k)
        } else {
            m.contains_key(k) && TokenStats::spec_decode(m[k]) == Some(
                if self.list.len() == 1 {
                    TokenStats::SingleHit {
                        docid: self.list[0].doc,
                        term_frequency: self.list[0].tf as u64,
                    }
                } else {
                    TokenStats::MultiHit {
                        doc_frequency: self.list.len() as u64,
                        term_frequency: occurrences(self.list) as u64,
                    }
                },
            ) && self.list.len() <= u64::MAX && occurrences(self.list) <= u64::MAX
        }
    }

    /// `cuts` are the blocks of the token: together they make up the list, each is stored under
    /// its first document, and no other document has one.
    pub open spec fn cut_into(self, cuts: Seq<BlockView>) -> bool {
        &&& well_cut(cuts)
        &&& joined(cuts) == (BlockView {
            docids: docids_of(self.list),
            term_frequencies: tfs_of(self.list),
        })
        &&& forall|i: int|
            0 <= i < cuts.len() ==> {
                let k = self.key((#[trigger] cuts[i]).docids[0]);
                &&& self.store.docpl.contains_key(k)
                &&& BlockView::spec_decode(k, self.store.docpl[k], self.features) == Some(cuts[i])
            }
        &&& forall|d: DocId| #[trigger]
            self.store.docpl.contains_key(self.key(d)) ==> exists|i: int|
                0 <= i < cuts.len() && #[trigger] cuts[i].docids[0] == d
    }

    /// The blocks of the token are there: none for a list of up to one posting.
    pub open spec fn blocks_held(self) -> bool {
        if self.list.len() <= 1 {
            forall|d: DocId| !#[trigger] self.store.docpl.contains_key(self.key(d))
        } else {
            exists|cuts: Seq<BlockView>| self.cut_into(cuts)
        }
    }

    /// Every document has its positions, where the field records them.
    #[verifier::opaque]
    pub open spec fn positions_held(self) -> bool {
        self.features is WithPositions ==> forall|i: int|
            0 <= i < self.list.len() ==> {
                let k = spec_pospl_key(self.name, (#[trigger] self.list[i]).doc, self.token);
                &&& self.store.pospl.contains_key(k)
                &&& positions_from(0, self.store.pospl[k]) == Some(self.list[i].positions)
            }
    }

    /// No key of another token lies among those of the blocks of this token.
    pub open spec fn unmixed(self) -> bool {
        forall|k: Seq<u8>| #[trigger]
            self.store.docpl.contains_key(k) && self.in_range(k) ==> exists|d: DocId|
                k == #[trigger] self.key(d)
    }

    /// The entries of the token are those of the list.
    pub open spec fn held(self) -> bool {
        self.sensible() && self.stats_held() && self.blocks_held() && self.positions_held()
    }

    /// The store holds the list, and reads of it meet no other token.
    pub open spec fn valid(self) -> bool {
        self.held() && self.unmixed()
    }

    /// The blocks of a list of more than one posting.
    pub open spec fn cuts(self) -> Seq<BlockView> {
        choose|cuts: Seq<BlockView>| self.cut_into(cuts)
    }

    /// The document of a position in the list; after the last one there is none.
    pub open spec fn doc_at(self, p: int) -> DocId {
        if p < self.list.len() {
            self.list[p].doc
        } else {
            DOC_ID_DONE
        }
    }

    /// The iterator stands at posting `p` of the list: before the first for -1, after the last for
    /// the length of the list.
    pub open spec fn tracks(self, v: IterView, p: int) -> bool {
        let n = self.list.len();
        &&& -1 <= p <= n
        &&& v.front == pl_front(self.name, self.token)
        &&& v.pos_tail == seq![SEPARATOR] + self.name + seq![SEPARATOR] + self.token
        &&& v.features == self.features
        &&& v.size_hint == n
        &&& v.single == (if n == 1 {
            Some((self.list[0].doc, self.list[0].tf as u64))
        } else {
            None
        })
        &&& v.pending is None
        &&& v.doc == (if p == -1 {
            DOC_ID_UNPOSITIONED
        } else {
            self.doc_at(p)
        })
        &&& if p == -1 || p == n {
            v.block is None
        } else if n == 1 {
            v.block == Some(
                (
                    BlockView {
                        docids: seq![self.list[0].doc],
                        term_frequencies: seq![self.list[0].tf],
                    },
                    0int,
                ),
            )
        } else {
            exists|i: int| self.in_cut(v, i, p)
        }
    }

    /// The iterator stands in block `i`, at posting `p` of the list.
    pub open spec fn in_cut(self, v: IterView, i: int, p: int) -> bool {
        &&& 0 <= i < self.cuts().len()
        &&& v.block == Some((self.cuts()[i], p - offset(self.cuts(), i)))
        &&& 0 <= p - offset(self.cuts(), i) < self.cuts()[i].docids.len()
    }

    /// Document `j` of block `i` is that of the posting at its place in the list.
    pub open spec fn is_doc_of_cut(self, i: int, j: int) -> bool {
        let p = offset(self.cuts(), i) + j;
        &&& 0 <= p < self.list.len()
        &&& self.list[p].doc == self.cuts()[i].docids[j]
        &&& self.list[p].tf == self.cuts()[i].term_frequencies[j]
    }

    /// Whatever true answers the store gives, the operation that has come to `progress` ends at
    /// posting `p` after no more than `reads` of them.
    pub open spec fn reaches(self, v: IterView, progress: ProgressView, reads: nat, p: int) -> bool
        decreases reads,
    {
        match progress {
            ProgressView::At(d) => self.tracks(v, p) && d == self.doc_at(p),
            ProgressView::Fetch(q) => reads > 0 && forall|reply: Option<EntryView>| #[trigger]
                self.store.answers(q, reply) ==> match v.resume(reply) {
                    Ok((v2, progress2)) => self.reaches(v2, progress2, (reads - 1) as nat, p),
                    Err(_) => false,
                },
        }
    }
}

impl StoredList {
    /// Whatever true answers the store gives, `n` calls of `next()` end at posting `p`.
    pub open spec fn nexts_reach(self, v: IterView, n: nat, p: int) -> bool
        decreases n,
    {
        if n == 0 {
            self.tracks(v, p)
        } else {
            let (v1, progress) = v.next();
            match progress {
                ProgressView::At(_) => self.nexts_reach(v1, (n - 1) as nat, p),
                ProgressView::Fetch(q) => forall|reply: Option<EntryView>| #[trigger]
                    self.store.answers(q, reply) ==> match v1.resume(reply) {
                        Ok((v2, ProgressView::At(_))) => self.nexts_reach(v2, (n - 1) as nat, p),
                        _ => false,
                    },
            }
        }
    }
}

/// Keys of blocks are ordered by their first documents.
pub proof fn lemma_keys_order(l: StoredList, a: DocId, b: DocId)
    ensures
        bytes_less(l.key(a), l.key(b)) == (a < b),
        bytes_at_most(l.key(a), l.key(b)) == (a <= b),
        l.key(a) == l.key(b) ==> a == b,
{
    lemma_numbered_keys_order(pl_front(l.name, l.token), a, b);
    lemma_numbered_keys_order(pl_front(l.name, l.token), b, a);
}

/// Cutting off the last block leaves well-cut blocks.
pub proof fn lemma_well_cut_front(cuts: Seq<BlockView>)
    requires
        well_cut(cuts),
        cuts.len() > 0,
    ensures
        well_cut(cuts.drop_last()),
{
    let front = cuts.drop_last();
    assert forall|k: int| 0 <= k < front.len() implies {
        &&& 1 <= (#[trigger] front[k]).docids.len() <= MAX_PL_BLOCK_SIZE
        &&& front[k].term_frequencies.len() == front[k].docids.len()
    } by {
        assert(front[k] == cuts[k]);
    }
}

/// The joined blocks are as long as the blocks together.
pub proof fn lemma_joined_len(cuts: Seq<BlockView>)
    requires
        well_cut(cuts),
    ensures
        joined(cuts).docids.len() == offset(cuts, cuts.len() as int),
        joined(cuts).term_frequencies.len() == joined(cuts).docids.len(),
    decreases cuts.len(),
{
    reveal(offset);
    if cuts.len() > 0 {
        lemma_well_cut_front(cuts);
        lemma_joined_len(cuts.drop_last());
        lemma_offset_front(cuts, cuts.len() - 1);
    }
}

/// Block `i` is the part of the joined blocks from its offset on.
pub proof fn lemma_joined(cuts: Seq<BlockView>, i: int, j: int)
    requires
        0 <= i < cuts.len(),
        0 <= j < cuts[i].docids.len(),
        well_cut(cuts),
    ensures
        0 <= offset(cuts, i) + j < joined(cuts).docids.len(),
        joined(cuts).docids[offset(cuts, i) + j] == cuts[i].docids[j],
        joined(cuts).term_frequencies[offset(cuts, i) + j] == cuts[i].term_frequencies[j],
    decreases cuts.len(),
{
    let front = cuts.drop_last();
    lemma_well_cut_front(cuts);
    lemma_joined_len(front);
    lemma_offset_front(cuts, i);
    lemma_offset_grows(front, 0, front.len() as int);
    reveal(offset);
    if i < front.len() {
        lemma_joined(front, i, j);
    }
}

proof fn lemma_offset_front(cuts: Seq<BlockView>, i: int)
    requires
        0 <= i < cuts.len(),
    ensures
        offset(cuts.drop_last(), i) == offset(cuts, i),
    decreases i,
{
    reveal(offset);
    if i > 0 {
        lemma_offset_front(cuts, i - 1);
    }
}

/// The offset of the next block.
pub proof fn lemma_offset_step(cuts: Seq<BlockView>, i: int)
    requires
        0 <= i < cuts.len(),
    ensures
        offset(cuts, i + 1) == offset(cuts, i) + cuts[i].docids.len(),
        offset(cuts, 0) == 0,
{
    reveal(offset);
}

pub proof fn lemma_offset_grows(cuts: Seq<BlockView>, i: int, k: int)
    requires
        0 <= i <= k <= cuts.len(),
    ensures
        offset(cuts, i) <= offset(cuts, k),
    decreases k,
{
    if i < k {
        lemma_offset_grows(cuts, i, k - 1);
        lemma_offset_step(cuts, k - 1);
    }
}

/// Where the documents of blocks stand in the list that they make up.
pub proof fn lemma_joined_list(cuts: Seq<BlockView>, list: Seq<Posting>, i: int, j: int)
    requires
        well_cut(cuts),
        joined(cuts).docids == docids_of(list),
        joined(cuts).term_frequencies == tfs_of(list),
        0 <= i < cuts.len(),
        0 <= j < cuts[i].docids.len(),
    ensures
        offset(cuts, cuts.len() as int) == list.len(),
        0 <= offset(cuts, i) + j < list.len(),
        list[offset(cuts, i) + j].doc == cuts[i].docids[j],
        list[offset(cuts, i) + j].tf == cuts[i].term_frequencies[j],
{
    lemma_joined(cuts, i, j);
    lemma_joined_len(cuts);
    let p = offset(cuts, i) + j;
    assert(joined(cuts).docids[p] == cuts[i].docids[j]);
    assert(docids_of(list)[p] == list[p].doc);
    assert(tfs_of(list)[p] == list[p].tf);
}

/// Where the documents of the blocks stand in the list.
pub proof fn lemma_cut_docs(l: StoredList)
    requires
        l.held(),
        l.list.len() >= 2,
    ensures
        l.cut_into(l.cuts()),
        l.cuts().len() >= 1,
        offset(l.cuts(), l.cuts().len() as int) == l.list.len(),
        forall|i: int, j: int|
            0 <= i < l.cuts().len() && 0 <= j < l.cuts()[i].docids.len() ==> l.is_doc_of_cut(i, j),
{
    let cuts = l.cuts();
    assert(l.cut_into(cuts));
    assert(docids_of(l.list).len() == l.list.len());
    assert(cuts.len() >= 1) by {
        if cuts.len() == 0 {
            assert(joined(cuts).docids.len() == 0);
        }
    }
    assert(cuts[0].docids.len() >= 1);
    lemma_joined_list(cuts, l.list, 0, 0);
    assert forall|i: int, j: int|
        0 <= i < l.cuts().len() && 0 <= j < l.cuts()[i].docids.len() implies l.is_doc_of_cut(
        i,
        j,
    ) by {
        lemma_joined_list(l.cuts(), l.list, i, j);
    }
}

/// All documents of a block come before those of a later block.
pub proof fn lemma_cut_order(l: StoredList, i: int, k: int)
    requires
        l.held(),
        l.list.len() >= 2,
        0 <= i < k < l.cuts().len(),
    ensures
        l.cuts()[i].docids.last() < l.cuts()[k].docids[0],
        l.cuts()[i].docids[0] <= l.cuts()[i].docids.last(),
{
    let cuts = l.cuts();
    lemma_cut_docs(l);
    assert(well_cut(cuts));
    let last = cuts[i].docids.len() - 1;
    lemma_offset_grows(cuts, i + 1, k);
    lemma_offset_step(cuts, i);
    let d = docids_of(l.list);
    assert(l.is_doc_of_cut(i, last));
    assert(l.is_doc_of_cut(i, 0));
    assert(l.is_doc_of_cut(k, 0));
    assert(cuts[i].docids[last] == d[offset(cuts, i) + last]);
    assert(cuts[i].docids[0] == d[offset(cuts, i)]);
    assert(cuts[k].docids[0] == d[offset(cuts, k)]);
}

/// The first document of a block is not after its last.
proof fn lemma_cut_ends(l: StoredList, i: int)
    requires
        l.held(),
        l.list.len() >= 2,
        0 <= i < l.cuts().len(),
    ensures
        l.cuts()[i].docids.len() >= 1,
        l.cuts()[i].docids[0] <= l.cuts()[i].docids.last() < DOC_ID_UNPOSITIONED,
        spec_key_docid(l.key(l.cuts()[i].docids[0])) == Some(l.cuts()[i].docids[0]),
{
    let cuts = l.cuts();
    lemma_cut_docs(l);
    assert(well_cut(cuts));
    let last = cuts[i].docids.len() - 1;
    let d = docids_of(l.list);
    assert(l.is_doc_of_cut(i, last));
    assert(l.is_doc_of_cut(i, 0));
    assert(cuts[i].docids[last] == d[offset(cuts, i) + last]);
    assert(cuts[i].docids[0] == d[offset(cuts, i)]);
    let k = l.key(cuts[i].docids[0]);
    lemma_decoded_block(k, l.store.docpl[k], l.features);
}

/// A key in the range of the token is that of one of its blocks.
proof fn lemma_key_of_cut(l: StoredList, k: Seq<u8>) -> (i: int)
    requires
        l.valid(),
        l.list.len() >= 2,
        l.store.docpl.contains_key(k),
        l.in_range(k),
    ensures
        0 <= i < l.cuts().len(),
        k == l.key(l.cuts()[i].docids[0]),
        BlockView::spec_decode(k, l.store.docpl[k], l.features) == Some(l.cuts()[i]),
{
    lemma_cut_docs(l);
    let d = choose|d: DocId| k == #[trigger] l.key(d);
    let cuts = l.cuts();
    assert(l.store.docpl.contains_key(l.key(d)));
    choose|i: int| 0 <= i < cuts.len() && #[trigger] cuts[i].docids[0] == d
}

/// The true answer to a search forward is the first block from there on.
proof fn lemma_answer_first(l: StoredList, from: DocId, reply: Option<EntryView>) -> (i: int)
    requires
        l.valid(),
        l.list.len() >= 2,
        l.store.answers(
            QueryView::First { section: Section::DocPl, lo: l.key(from), hi: l.key(DOC_ID_DONE) },
            reply,
        ),
    ensures
        0 <= i <= l.cuts().len(),
        forall|k: int| 0 <= k < i ==> (#[trigger] l.cuts()[k]).docids[0] < from,
        match reply {
            Some(e) => {
                &&& i < l.cuts().len()
                &&& l.cuts()[i].docids[0] >= from
                &&& e.key == l.key(l.cuts()[i].docids[0])
                &&& BlockView::spec_decode(e.key, e.value, l.features) == Some(l.cuts()[i])
            },
            None => i == l.cuts().len(),
        },
{
    let cuts = l.cuts();
    lemma_cut_docs(l);
    match reply {
        Some(e) => {
            lemma_keys_order(l, 0, from);
            lemma_at_most_transitive(l.key(0), l.key(from), e.key);
            lemma_less_asymmetric(e.key, l.key(DOC_ID_DONE));
            let i = lemma_key_of_cut(l, e.key);
            lemma_keys_order(l, from, cuts[i].docids[0]);
            assert forall|k: int| 0 <= k < i implies (#[trigger] cuts[k]).docids[0] < from by {
                lemma_cut_order(l, k, i);
                lemma_cut_ends(l, k);
                let kk = l.key(cuts[k].docids[0]);
                assert(l.store.section(Section::DocPl).contains_key(kk));
                lemma_keys_order(l, from, cuts[k].docids[0]);
                lemma_keys_order(l, cuts[k].docids[0], DOC_ID_DONE);
                lemma_keys_order(l, cuts[i].docids[0], cuts[k].docids[0]);
            }
            i
        },
        None => {
            assert forall|k: int| 0 <= k < cuts.len() implies (#[trigger] cuts[k]).docids[0]
                < from by {
                lemma_cut_ends(l, k);
                let kk = l.key(cuts[k].docids[0]);
                assert(l.store.section(Section::DocPl).contains_key(kk));
                lemma_keys_order(l, from, cuts[k].docids[0]);
                lemma_keys_order(l, cuts[k].docids[0], DOC_ID_DONE);
            }
            cuts.len() as int
        },
    }
}

/// The true answer to a search backward is the last block up to there.
pub proof fn lemma_answer_last(l: StoredList, upto: DocId, reply: Option<EntryView>) -> (i: int)
    requires
        l.valid(),
        l.list.len() >= 2,
        l.store.answers(
            QueryView::Last { section: Section::DocPl, lo: l.key(0), hi: l.key(upto) },
            reply,
        ),
    ensures
        -1 <= i < l.cuts().len(),
        forall|k: int| i < k < l.cuts().len() ==> (#[trigger] l.cuts()[k]).docids[0] > upto,
        match reply {
            Some(e) => {
                &&& i >= 0
                &&& l.cuts()[i].docids[0] <= upto
                &&& e.key == l.key(l.cuts()[i].docids[0])
                &&& BlockView::spec_decode(e.key, e.value, l.features) == Some(l.cuts()[i])
            },
            None => i == -1,
        },
{
    let cuts = l.cuts();
    lemma_cut_docs(l);
    match reply {
        Some(e) => {
            lemma_keys_order(l, upto, DOC_ID_DONE);
            lemma_at_most_transitive(e.key, l.key(upto), l.key(DOC_ID_DONE));
            let i = lemma_key_of_cut(l, e.key);
            lemma_keys_order(l, cuts[i].docids[0], upto);
            assert forall|k: int| i < k < cuts.len() implies (#[trigger] cuts[k]).docids[0]
                > upto by {
                lemma_cut_order(l, i, k);
                let kk = l.key(cuts[k].docids[0]);
                assert(l.store.section(Section::DocPl).contains_key(kk));
                lemma_keys_order(l, 0, cuts[k].docids[0]);
                lemma_keys_order(l, cuts[k].docids[0], upto);
                lemma_keys_order(l, cuts[k].docids[0], cuts[i].docids[0]);
            }
            i
        },
        None => {
            assert forall|k: int| 0 <= k < cuts.len() implies (#[trigger] cuts[k]).docids[0]
                > upto by {
                let kk = l.key(cuts[k].docids[0]);
                assert(l.store.section(Section::DocPl).contains_key(kk));
                lemma_keys_order(l, 0, cuts[k].docids[0]);
                lemma_keys_order(l, cuts[k].docids[0], upto);
            }
            -1
        },
    }
}

/// An iterator that moves to a document of a block stands at the posting of that document.
proof fn lemma_positioned_tracks(l: StoredList, v: IterView, i: int, j: int)
    requires
        l.held(),
        l.list.len() >= 2,
        0 <= i < l.cuts().len(),
        0 <= j < l.cuts()[i].docids.len(),
        v.front == pl_front(l.name, l.token),
        v.pos_tail == seq![SEPARATOR] + l.name + seq![SEPARATOR] + l.token,
        v.features == l.features,
        v.size_hint == l.list.len(),
        v.single is None,
    ensures
        l.tracks(v.positioned(l.cuts()[i], j).0, offset(l.cuts(), i) + j),
        v.positioned(l.cuts()[i], j).1 == ProgressView::At(l.doc_at(offset(l.cuts(), i) + j)),
        0 <= offset(l.cuts(), i) + j < l.list.len(),
{
    lemma_cut_docs(l);
    let p = offset(l.cuts(), i) + j;
    assert(l.is_doc_of_cut(i, j));
    assert(l.in_cut(v.positioned(l.cuts()[i], j).0, i, p));
}

/// What the first document at or after `target` is.
proof fn lemma_first_is(docids: Seq<u64>, target: DocId, q: int)
    requires
        0 <= q <= docids.len(),
        forall|k: int| 0 <= k < q ==> docids[k] < target,
        q < docids.len() ==> docids[q] >= target,
    ensures
        first_at_or_after(docids, 0, target) == q,
{
    lemma_first_skips(docids, 0, q, target);
}

/// The first document at or after `target` in a sorted list of documents.
proof fn lemma_first_found(docids: Seq<u64>, from: int, target: DocId)
    requires
        0 <= from < docids.len(),
        docids.last() >= target,
    ensures
        from <= first_at_or_after(docids, from, target) < docids.len(),
        docids[first_at_or_after(docids, from, target)] >= target,
        forall|k: int|
            from <= k < first_at_or_after(docids, from, target) ==> docids[k] < target,
    decreases docids.len() - from,
{
    if docids[from] < target {
        lemma_first_found(docids, from + 1, target);
    }
}

/// If block `i` holds the first document of the list at or after `target`, that document is where
/// a search of the block ends.
proof fn lemma_found_in_cut(l: StoredList, i: int, from: int, target: DocId)
    requires
        l.held(),
        l.list.len() >= 2,
        0 <= i < l.cuts().len(),
        0 <= from < l.cuts()[i].docids.len(),
        target <= l.cuts()[i].docids.last(),
        offset(l.cuts(), i) + from == 0 || l.list[offset(l.cuts(), i) + from - 1].doc < target,
    ensures
        0 <= first_at_or_after(l.cuts()[i].docids, from, target) < l.cuts()[i].docids.len(),
        first_at_or_after(docids_of(l.list), 0, target) == offset(l.cuts(), i)
            + first_at_or_after(l.cuts()[i].docids, from, target),
{
    let cuts = l.cuts();
    let d = docids_of(l.list);
    let o = offset(cuts, i);
    lemma_cut_docs(l);
    lemma_offset_grows(cuts, 0, i);
    lemma_offset_step(cuts, 0);
    lemma_first_found(cuts[i].docids, from, target);
    let j = first_at_or_after(cuts[i].docids, from, target);
    assert(l.is_doc_of_cut(i, j));
    assert forall|k: int| 0 <= k < o + j implies d[k] < target by {
        if k >= o + from {
            assert(l.is_doc_of_cut(i, k - o));
        } else {
            assert(d[k] <= d[o + from - 1]);
        }
    }
    lemma_first_is(d, target, o + j);
}

/// If `target` lies after block `i` and not after the start of the next block, the first document
/// at or after it is where the next block starts, or there is none.
proof fn lemma_found_after_cut(l: StoredList, i: int, target: DocId)
    requires
        l.held(),
        l.list.len() >= 2,
        0 <= i < l.cuts().len(),
        l.cuts()[i].docids.last() < target,
        i + 1 < l.cuts().len() ==> l.cuts()[i + 1].docids[0] >= target,
    ensures
        first_at_or_after(docids_of(l.list), 0, target) == offset(l.cuts(), i + 1),
        i + 1 == l.cuts().len() ==> offset(l.cuts(), i + 1) == l.list.len(),
{
    let cuts = l.cuts();
    let d = docids_of(l.list);
    lemma_cut_docs(l);
    lemma_cut_ends(l, i);
    lemma_offset_step(cuts, i);
    lemma_offset_grows(cuts, 0, i);
    lemma_offset_step(cuts, 0);
    let last = cuts[i].docids.len() - 1;
    assert(l.is_doc_of_cut(i, last));
    let q = offset(cuts, i + 1);
    assert forall|k: int| 0 <= k < q implies d[k] < target by {
        assert(d[k] <= d[q - 1]);
    }
    if i + 1 < cuts.len() {
        lemma_cut_ends(l, i + 1);
        assert(l.is_doc_of_cut(i + 1, 0));
    }
    lemma_first_is(d, target, q);
}

/// The iterator waits for the first block from `from` on, all blocks up to `i` are known to begin
/// before it, and the next one, if there is one, does not. It ends at the start of the next block.
proof fn lemma_resume_from(
    l: StoredList,
    v: IterView,
    progress: ProgressView,
    reads: nat,
    i: int,
    from: DocId,
    settle: Option<DocId>,
)
    requires
        l.valid(),
        l.list.len() >= 2,
        reads >= 1,
        v.front == pl_front(l.name, l.token),
        v.pos_tail == seq![SEPARATOR] + l.name + seq![SEPARATOR] + l.token,
        v.features == l.features,
        v.size_hint == l.list.len(),
        v.single is None,
        v.pending == Some(Pending::From { settle }),
        progress == ProgressView::Fetch(
            QueryView::First { section: Section::DocPl, lo: l.key(from), hi: l.key(DOC_ID_DONE) },
        ),
        -1 <= i < l.cuts().len(),
        i >= 0 ==> l.cuts()[i].docids[0] < from,
        i + 1 < l.cuts().len() ==> l.cuts()[i + 1].docids[0] >= from,
        settle matches Some(target) ==> i + 1 < l.cuts().len() ==> target
            <= l.cuts()[i + 1].docids[0],
    ensures
        l.reaches(v, progress, reads, offset(l.cuts(), i + 1)),
{
    let cuts = l.cuts();
    lemma_cut_docs(l);
    assert forall|reply: Option<EntryView>| #[trigger]
        l.store.answers(progress->Fetch_0, reply) implies match v.resume(reply) {
        Ok((v2, progress2)) => l.reaches(
            v2,
            progress2,
            (reads - 1) as nat,
            offset(cuts, i + 1),
        ),
        Err(_) => false,
    } by {
        let k = lemma_answer_first(l, from, reply);
        if i + 1 < k {
            assert(cuts[i + 1].docids[0] < from);
        }
        if k <= i && reply is Some {
            if k < i {
                lemma_cut_order(l, k, i);
            }
        }
        assert(k == i + 1);
        if reply is Some {
            lemma_cut_ends(l, k);
            lemma_positioned_tracks(l, v, k, 0);
        }
    }
}

/// The iterator waits for the last block that begins at or before `seek`, stands in that block
/// (`i`), and goes on from there to the next one.
proof fn lemma_resume_at_current(
    l: StoredList,
    v: IterView,
    progress: ProgressView,
    reads: nat,
    i: int,
    seek: DocId,
    settle: Option<DocId>,
)
    requires
        l.valid(),
        l.list.len() >= 2,
        reads >= 2,
        v.front == pl_front(l.name, l.token),
        v.pos_tail == seq![SEPARATOR] + l.name + seq![SEPARATOR] + l.token,
        v.features == l.features,
        v.size_hint == l.list.len(),
        v.single is None,
        v.pending == Some(Pending::AtOrBefore { seek, settle }),
        progress == ProgressView::Fetch(
            QueryView::Last { section: Section::DocPl, lo: l.key(0), hi: l.key(seek) },
        ),
        0 <= i < l.cuts().len(),
        v.block matches Some((b, _)) && b == l.cuts()[i],
        l.cuts()[i].docids.last() < seek,
        i + 1 < l.cuts().len() ==> l.cuts()[i + 1].docids[0] > seek,
        settle matches Some(target) ==> target == seek,
    ensures
        l.reaches(v, progress, reads, offset(l.cuts(), i + 1)),
{
    let cuts = l.cuts();
    let q = offset(cuts, i + 1);
    lemma_cut_docs(l);
    lemma_cut_ends(l, i);
    assert forall|reply: Option<EntryView>| #[trigger]
        l.store.answers(progress->Fetch_0, reply) implies match v.resume(reply) {
        Ok((v2, progress2)) => l.reaches(v2, progress2, (reads - 1) as nat, q),
        Err(_) => false,
    } by {
        let k = lemma_answer_last(l, seek, reply);
        if k < i {
            assert(cuts[i].docids[0] > seek);
        }
        if i < k {
            if i + 1 < k {
                lemma_cut_order(l, i + 1, k);
            }
        }
        assert(k == i);
        let (v2, progress2) = v.fetch_from(seek, settle);
        lemma_resume_from(l, v2, progress2, (reads - 1) as nat, i, seek, settle);
    }
}

/// From one document of a token an iterator goes to the next, and from the last one to the end,
/// with at most one read. At the end it stays.
pub proof fn law_next(l: StoredList, v: IterView, p: int)
    requires
        l.valid(),
        l.list.len() >= 1,
        l.tracks(v, p),
    ensures
        l.reaches(
            v.next().0,
            v.next().1,
            1,
            if p < l.list.len() {
                p + 1
            } else {
                p
            },
        ),
{
    let n = l.list.len() as int;
    let (v1, progress) = v.next();
    if 0 <= p < n {
        assert(l.list[p].doc < DOC_ID_UNPOSITIONED);
    }
    if n >= 2 && p < n {
        lemma_cut_docs(l);
        let cuts = l.cuts();
        if p == -1 {
            lemma_cut_ends(l, 0);
            lemma_offset_step(cuts, 0);
            lemma_resume_from(l, v1, progress, 1, -1, 0, None);
        } else {
            let i = choose|i: int| l.in_cut(v, i, p);
            let j = p - offset(cuts, i);
            lemma_cut_ends(l, i);
            if j + 1 < cuts[i].docids.len() {
                lemma_positioned_tracks(l, v, i, j + 1);
            } else {
                let from = (cuts[i].docids[0] + 1) as u64;
                lemma_offset_step(cuts, i);
                if i + 1 < cuts.len() {
                    lemma_cut_order(l, i, i + 1);
                }
                lemma_resume_from(l, v1, progress, 1, i, from, None);
            }
        }
    }
}

/// An iterator that is asked to advance goes to the first document of the token at or after the
/// target, or to the end if there is none, with at most three reads.
pub proof fn law_advance_to(l: StoredList, v: IterView, p: int, target: DocId)
    requires
        l.valid(),
        l.list.len() >= 1,
        l.tracks(v, p),
        p != -1 ==> l.doc_at(p) <= target,
    ensures
        l.reaches(
            v.advance_to(target).0,
            v.advance_to(target).1,
            3,
            first_at_or_after(docids_of(l.list), 0, target),
        ),
{
    let n = l.list.len() as int;
    let d = docids_of(l.list);
    let (v1, progress) = v.advance_to(target);
    assert forall|k: int| 0 <= k < n implies d[k] < DOC_ID_UNPOSITIONED by {
        assert(l.list[k].doc < DOC_ID_UNPOSITIONED);
    }
    if p == n {
        lemma_first_is(d, target, n);
    } else if n == 1 {
        lemma_first_is(d, target, if d[0] >= target { 0 } else { 1 });
        if p == 0 && d[0] >= target {
            assert(first_at_or_after(v.block.unwrap().0.docids, 0, target) == 0);
        }
    } else {
        lemma_cut_docs(l);
        let cuts = l.cuts();
        if p >= 0 {
            let i = choose|i: int| l.in_cut(v, i, p);
            let j = p - offset(cuts, i);
            lemma_cut_ends(l, i);
            if target <= cuts[i].docids.last() {
                if p > 0 {
                    assert(d[p - 1] < d[p]);
                }
                lemma_found_in_cut(l, i, j, target);
                lemma_positioned_tracks(l, v, i, first_at_or_after(cuts[i].docids, j, target));
            } else {
                lemma_advance_in_blocks(l, v1, progress, target, i);
            }
        } else {
            lemma_advance_in_blocks(l, v1, progress, target, -1);
        }
    }
}

/// The iterator waits for the last block that begins at or before `target`, which lies after its
/// current block (`i`, or -1 for none).
proof fn lemma_advance_in_blocks(
    l: StoredList,
    v: IterView,
    progress: ProgressView,
    target: DocId,
    i: int,
)
    requires
        l.valid(),
        l.list.len() >= 2,
        v.front == pl_front(l.name, l.token),
        v.pos_tail == seq![SEPARATOR] + l.name + seq![SEPARATOR] + l.token,
        v.features == l.features,
        v.size_hint == l.list.len(),
        v.single is None,
        v.pending == Some(Pending::AtOrBefore { seek: target, settle: Some(target) }),
        progress == ProgressView::Fetch(
            QueryView::Last { section: Section::DocPl, lo: l.key(0), hi: l.key(target) },
        ),
        -1 <= i < l.cuts().len(),
        if i == -1 {
            v.block is None
        } else {
            v.block matches Some((b, _)) && b == l.cuts()[i] && b.docids.last() < target
        },
    ensures
        l.reaches(v, progress, 3, first_at_or_after(docids_of(l.list), 0, target)),
{
    let cuts = l.cuts();
    let d = docids_of(l.list);
    let q = first_at_or_after(d, 0, target);
    lemma_cut_docs(l);
    assert forall|reply: Option<EntryView>| #[trigger]
        l.store.answers(progress->Fetch_0, reply) implies match v.resume(reply) {
        Ok((v2, progress2)) => l.reaches(v2, progress2, 2, q),
        Err(_) => false,
    } by {
        let k = lemma_answer_last(l, target, reply);
        if i >= 0 {
            lemma_cut_ends(l, i);
            if k < i {
                assert(cuts[i].docids[0] > target);
            }
            if i < k {
                lemma_cut_order(l, i, k);
            }
        }
        if k == -1 {
            // All blocks begin after the target.
            lemma_cut_ends(l, 0);
            lemma_offset_step(cuts, 0);
            assert(cuts[0].docids[0] > target);
            lemma_found_in_cut(l, 0, 0, target);
            assert(first_at_or_after(cuts[0].docids, 0, target) == 0);
            let (v2, progress2) = v.fetch_from(target, Some(target));
            lemma_resume_from(l, v2, progress2, 2, -1, target, Some(target));
        } else {
            lemma_cut_ends(l, k);
            if k == i {
                // The target lies between the current block and the next.
                lemma_found_after_cut(l, i, target);
                let (v2, progress2) = v.fetch_from(target, Some(target));
                lemma_resume_from(l, v2, progress2, 2, i, target, Some(target));
            } else if target <= cuts[k].docids.last() {
                let first = first_at_or_after(cuts[k].docids, 0, target);
                if k > 0 {
                    lemma_cut_order(l, k - 1, k);
                    lemma_cut_ends(l, k - 1);
                    lemma_offset_step(cuts, k - 1);
                    assert(l.is_doc_of_cut(k - 1, cuts[k - 1].docids.len() - 1));
                } else {
                    lemma_offset_step(cuts, 0);
                }
                lemma_found_in_cut(l, k, 0, target);
                lemma_positioned_tracks(l, v, k, first);
            } else {
                // The target lies between a later block and the one after it.
                let last = cuts[k].docids.last();
                let seek = (last + 1) as u64;
                lemma_found_after_cut(l, k, target);
                let (v2, progress2) = v.positioned(cuts[k], 0).0.fetch_at_or_before(seek, None);
                lemma_resume_at_current(l, v2, progress2, 2, k, seek, None);
            }
        }
    }
}

/// There is an iterator over a token exactly if the token occurs in a document. It is not
/// positioned, and its size hint is the number of documents.
pub proof fn law_new(l: StoredList, reply: Option<EntryView>)
    requires
        l.valid(),
        l.store.answers(
            QueryView::Get { section: Section::Stats, key: spec_stats_key(l.name, l.token) },
            reply,
        ),
    ensures
        reply is None <==> l.list.len() == 0,
        reply matches Some(e) ==> {
            &&& TokenStats::spec_decode(e.value) matches Some(stats)
            &&& l.tracks(new_iter(l.name, l.features, l.token, stats), -1)
        },
{
    reveal(StoredList::stats_held);
}

/// At a document of a token an iterator gives the term frequency of the token in it.
pub proof fn law_term_frequency(l: StoredList, v: IterView, p: int)
    requires
        l.valid(),
        l.tracks(v, p),
        0 <= p < l.list.len(),
    ensures
        v.term_frequency() == Some(l.list[p].tf),
{
    if l.list.len() >= 2 {
        lemma_cut_docs(l);
        let i = choose|i: int| l.in_cut(v, i, p);
        assert(l.is_doc_of_cut(i, p - offset(l.cuts(), i)));
        assert(well_cut(l.cuts()));
    }
    assert(l.features is Doc ==> l.list[p].tf == 1);
}

/// At a document of a token, in a field that records positions, the read that an iterator asks for
/// finds the positions of the token, as many as the term frequency that the iterator gives; in
/// another field there are none and none is asked for.
pub proof fn law_positions(l: StoredList, v: IterView, p: int)
    requires
        l.valid(),
        l.tracks(v, p),
        0 <= p < l.list.len(),
    ensures
        v.positions_query() is Some <==> l.features is WithPositions,
        v.positions_query() is None ==> l.list[p].positions.len() == 0,
        v.positions_query() matches Some(q) ==> forall|reply: Option<EntryView>| #[trigger]
            l.store.answers(q, reply) ==> (reply matches Some(e) && positions_from(0, e.value)
                == Some(l.list[p].positions)),
        l.features is WithPositions ==> v.term_frequency() == Some(
            l.list[p].positions.len() as u32,
        ),
{
    law_term_frequency(l, v, p);
    reveal(StoredList::positions_held);
    assert(l.list[p].doc < DOC_ID_UNPOSITIONED);
    assert(be_bytes(v.doc) + v.pos_tail =~= spec_pospl_key(l.name, l.list[p].doc, l.token));
}

/// Calling `next()` over and over gives the documents of the token one by one: from posting `p`,
/// `n` calls lead to posting `p + n`, or to the end if the list is not that long.
pub proof fn law_iteration(l: StoredList, v: IterView, p: int, n: nat)
    requires
        l.valid(),
        l.list.len() >= 1,
        l.tracks(v, p),
    ensures
        l.nexts_reach(
            v,
            n,
            if p + n <= l.list.len() {
                p + n
            } else {
                l.list.len() as int
            },
        ),
    decreases n,
{
    if n > 0 {
        let len = l.list.len() as int;
        let end = if p + n <= len { p + n } else { len };
        let q = if p < len { p + 1 } else { p };
        let (v1, progress) = v.next();
        law_next(l, v, p);
        match progress {
            ProgressView::At(_) => {
                law_iteration(l, v1, q, (n - 1) as nat);
            },
            ProgressView::Fetch(query) => {
                assert forall|reply: Option<EntryView>| #[trigger]
                    l.store.answers(query, reply) implies match v1.resume(reply) {
                    Ok((v2, ProgressView::At(_))) => l.nexts_reach(v2, (n - 1) as nat, end),
                    _ => false,
                } by {
                    let (v2, progress2) = v1.resume(reply)->Ok_0;
                    assert(l.reaches(v2, progress2, 0, q));
                    law_iteration(l, v2, q, (n - 1) as nat);
                }
            },
        }
    }
}

} // verus!
