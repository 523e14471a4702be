//! What an append does to the posting list of one token.
use crate::append::{
    all_ascend, block_writes, carried, chunks, doc_pl_writes, filled, fits_in, is_single, left_over,
    new_block, new_stats, placed, position_writes, stats_in, summed_tf, total_tf, AppendError,
    AppendView,
};
use crate::block::{ascending, lemma_block_round_trip, BlockView, MAX_PL_BLOCK_SIZE};
use crate::buffer::in_doc_order;
use crate::bytes::{be_bytes, lemma_at_most_transitive, lemma_be_bytes};
use crate::features::TokenFieldFeatures;
use crate::field::{lemma_key_docid, spec_pl_key, spec_pospl_key, spec_stats_key, Section};
use crate::iter::{DOC_ID_DONE, DOC_ID_UNPOSITIONED};
use crate::positions::{lemma_positions_round_trip, positions_ascend, positions_from};
use crate::stats::{lemma_stats_round_trip, DocId, TokenStats};
use crate::store::{
    last_write, lemma_last_write_parts, lemma_not_written, lemma_put_all_at, lemma_written,
    EntryView, FieldStore, QueryView, WriteView,
};
use crate::stored_list::{
    docids_of, joined, lemma_answer_last, lemma_cut_docs, lemma_joined_list, lemma_keys_order,
    lemma_offset_grows, lemma_offset_step, lemma_well_cut_front, occurrences, offset,
    strictly_ascending, tfs_of, well_cut, Posting, StoredList,
};
use crate::token_map::LocalPosting;
use vstd::prelude::*;

verus! {

/// Buffered postings as the index keeps them, with the documents counted from `start`.
pub open spec fn new_postings(start: DocId, list: Seq<LocalPosting>) -> Seq<Posting> {
    list.map_values(
        |p: LocalPosting|
            Posting { doc: (start + p.doc) as u64, tf: p.tf, positions: p.positions },
    )
}

/// The write is to an entry of the token.
pub open spec fn belongs(w: WriteView, name: Seq<u8>, token: Seq<u8>) -> bool {
    match w.section {
        Section::Stats => w.key == spec_stats_key(name, token),
        Section::DocPl => exists|d: DocId| w.key == #[trigger] spec_pl_key(name, token, d),
        Section::PosPl => exists|d: DocId| w.key == #[trigger] spec_pospl_key(name, d, token),
    }
}

/// The write is to an entry of another token.
pub open spec fn is_other(w: WriteView, name: Seq<u8>, token: Seq<u8>) -> bool {
    exists|t: Seq<u8>| t != token && #[trigger] belongs(w, name, t)
}

/// Two maps have the same under a key.
pub open spec fn same_at(a: Map<Seq<u8>, Seq<u8>>, b: Map<Seq<u8>, Seq<u8>>, key: Seq<u8>) -> bool {
    a.contains_key(key) == b.contains_key(key) && (b.contains_key(key) ==> a[key] == b[key])
}

/// Two stores have the same entries of a token.
pub open spec fn agree(a: FieldStore, b: FieldStore, name: Seq<u8>, token: Seq<u8>) -> bool {
    &&& same_at(a.stats, b.stats, spec_stats_key(name, token))
    &&& forall|d: DocId| same_at(a.docpl, b.docpl, #[trigger] spec_pl_key(name, token, d))
    &&& forall|d: DocId| same_at(a.pospl, b.pospl, #[trigger] spec_pospl_key(name, d, token))
}

/// Entries of different tokens have different keys.
pub(crate) proof fn lemma_keys_differ(name: Seq<u8>, s: Seq<u8>, t: Seq<u8>, c: DocId, d: DocId)
    ensures
        spec_stats_key(name, s) == spec_stats_key(name, t) ==> s == t,
        spec_pl_key(name, s, c) == spec_pl_key(name, t, d) ==> s == t && c == d,
        spec_pospl_key(name, c, s) == spec_pospl_key(name, d, t) ==> s == t && c == d,
{
    lemma_be_bytes(c);
    lemma_be_bytes(d);
    let n = name.len() as int;
    if spec_stats_key(name, s) == spec_stats_key(name, t) {
        assert(s =~= spec_stats_key(name, s).skip(n + 1));
        assert(t =~= spec_stats_key(name, t).skip(n + 1));
    }
    if spec_pl_key(name, s, c) == spec_pl_key(name, t, d) {
        let k = spec_pl_key(name, s, c);
        assert(s =~= k.subrange(n + 1, k.len() - 9));
        assert(t =~= k.subrange(n + 1, k.len() - 9));
        assert(be_bytes(c) =~= k.skip(k.len() - 8));
        assert(be_bytes(d) =~= k.skip(k.len() - 8));
    }
    if spec_pospl_key(name, c, s) == spec_pospl_key(name, d, t) {
        let k = spec_pospl_key(name, c, s);
        assert(s =~= k.skip(n + 10));
        assert(t =~= k.skip(n + 10));
        assert(be_bytes(c) =~= k.take(8));
        assert(be_bytes(d) =~= k.take(8));
    }
}

/// Writes to entries of other tokens leave those of a token as they were.
pub(crate) proof fn lemma_other_writes(
    store: FieldStore,
    writes: Seq<WriteView>,
    name: Seq<u8>,
    token: Seq<u8>,
)
    requires
        forall|i: int| 0 <= i < writes.len() ==> is_other(#[trigger] writes[i], name, token),
    ensures
        agree(store.put_all(writes), store, name, token),
{
    let after = store.put_all(writes);
    let k = spec_stats_key(name, token);
    assert(last_write(writes, Section::Stats, k) is None) by {
        assert forall|i: int| 0 <= i < writes.len() implies !((#[trigger] writes[i]).section
            == Section::Stats && writes[i].key == k) by {
            let t = choose|t: Seq<u8>| t != token && #[trigger] belongs(writes[i], name, t);
            lemma_keys_differ(name, t, token, 0, 0);
        }
        lemma_not_written(writes, Section::Stats, k);
    }
    lemma_put_all_at(store, writes, Section::Stats, k);
    assert forall|d: DocId| same_at(
        after.docpl,
        store.docpl,
        #[trigger] spec_pl_key(name, token, d),
    ) by {
        let k = spec_pl_key(name, token, d);
        assert forall|i: int| 0 <= i < writes.len() implies !((#[trigger] writes[i]).section
            == Section::DocPl && writes[i].key == k) by {
            let t = choose|t: Seq<u8>| t != token && #[trigger] belongs(writes[i], name, t);
            if writes[i].section == Section::DocPl {
                let c = choose|c: DocId| writes[i].key == #[trigger] spec_pl_key(name, t, c);
                lemma_keys_differ(name, t, token, c, d);
            }
        }
        lemma_not_written(writes, Section::DocPl, k);
        lemma_put_all_at(store, writes, Section::DocPl, k);
    }
    assert forall|d: DocId| same_at(
        after.pospl,
        store.pospl,
        #[trigger] spec_pospl_key(name, d, token),
    ) by {
        let k = spec_pospl_key(name, d, token);
        assert forall|i: int| 0 <= i < writes.len() implies !((#[trigger] writes[i]).section
            == Section::PosPl && writes[i].key == k) by {
            let t = choose|t: Seq<u8>| t != token && #[trigger] belongs(writes[i], name, t);
            if writes[i].section == Section::PosPl {
                let c = choose|c: DocId| writes[i].key == #[trigger] spec_pospl_key(name, c, t);
                lemma_keys_differ(name, t, token, c, d);
            }
        }
        lemma_not_written(writes, Section::PosPl, k);
        lemma_put_all_at(store, writes, Section::PosPl, k);
    }
}

/// A list is held wherever the entries of its token are the same.
pub(crate) proof fn lemma_held_elsewhere(l: StoredList, m: StoredList)
    requires
        l.held(),
        agree(m.store, l.store, l.name, l.token),
        m == (StoredList { store: m.store, ..l }),
    ensures
        m.held(),
{
    reveal(StoredList::stats_held);
    reveal(StoredList::positions_held);
    if l.list.len() <= 1 {
        assert forall|d: DocId| !#[trigger] m.store.docpl.contains_key(m.key(d)) by {
            assert(!l.store.docpl.contains_key(l.key(d)));
        }
    } else {
        let cuts = l.cuts();
        assert(l.cut_into(cuts));
        assert(m.cut_into(cuts)) by {
            assert forall|i: int| 0 <= i < cuts.len() implies {
                let k = m.key((#[trigger] cuts[i]).docids[0]);
                &&& m.store.docpl.contains_key(k)
                &&& BlockView::spec_decode(k, m.store.docpl[k], m.features) == Some(cuts[i])
            } by {
                assert(same_at(m.store.docpl, l.store.docpl, l.key(cuts[i].docids[0])));
            }
            assert forall|d: DocId| #[trigger]
                m.store.docpl.contains_key(m.key(d)) implies exists|i: int|
                0 <= i < cuts.len() && #[trigger] cuts[i].docids[0] == d by {
                assert(l.store.docpl.contains_key(l.key(d)));
            }
        }
    }
    if l.features is WithPositions {
        assert forall|i: int| 0 <= i < m.list.len() implies {
            let k = spec_pospl_key(m.name, (#[trigger] m.list[i]).doc, m.token);
            &&& m.store.pospl.contains_key(k)
            &&& positions_from(0, m.store.pospl[k]) == Some(m.list[i].positions)
        } by {
            let k = spec_pospl_key(l.name, l.list[i].doc, l.token);
            assert(same_at(m.store.pospl, l.store.pospl, k));
        }
    }
}

/// What a token has to be for an append of `list`: the postings are new and fit the field, and
/// nothing outgrows its place.
pub open spec fn appendable(
    l: StoredList,
    start: DocId,
    list: Seq<LocalPosting>,
    end: u32,
) -> bool {
    &&& in_doc_order(list, end)
    &&& start + end <= DOC_ID_UNPOSITIONED
    &&& forall|i: int| 0 <= i < l.list.len() ==> (#[trigger] l.list[i]).doc < start
    &&& forall|i: int| 0 <= i < list.len() ==> fits_field(#[trigger] list[i], l.features)
    &&& within_limits(l, start, list)
}

/// Nothing in the longer list outgrows its place.
pub open spec fn within_limits(l: StoredList, start: DocId, list: Seq<LocalPosting>) -> bool {
    appended(l, l.store, start, list).within_limits()
}

/// A posting has what a field with these features records, and no more.
pub open spec fn fits_field(p: LocalPosting, features: TokenFieldFeatures) -> bool {
    &&& features is Doc ==> p.tf == 1
    &&& !(features is WithPositions) ==> p.positions.len() == 0
    &&& features is WithPositions ==> p.tf == p.positions.len() as u32
    &&& positions_ascend(p.positions)
}

/// The list of a token after an append, in the store that the writes leave.
pub open spec fn appended(
    l: StoredList,
    store: FieldStore,
    start: DocId,
    list: Seq<LocalPosting>,
) -> StoredList {
    StoredList { store, list: l.list + new_postings(start, list), ..l }
}

pub open spec fn list_block(list: Seq<Posting>) -> BlockView {
    BlockView { docids: docids_of(list), term_frequencies: tfs_of(list) }
}

/// Blocks joined in two parts.
proof fn lemma_joined_parts(a: Seq<BlockView>, b: Seq<BlockView>)
    ensures
        joined(a + b) == joined(a).plus(joined(b)),
    decreases b.len(),
{
    if b.len() == 0 {
        assert(a + b =~= a);
        assert(joined(a).plus(joined(b)) =~= joined(a));
    } else {
        lemma_joined_parts(a, b.drop_last());
        assert((a + b).drop_last() =~= a + b.drop_last());
        assert(joined(a).plus(joined(b.drop_last())).plus(b.last()) =~= joined(a).plus(
            joined(b.drop_last()).plus(b.last()),
        ));
    }
}

proof fn lemma_joined_one(b: BlockView)
    ensures
        joined(seq![b]) == b,
{
    reveal_with_fuel(joined, 2);
    assert(seq![b].drop_last() =~= seq![]);
    assert(joined(seq![b]) =~= b);
}

/// The blocks that a block is cut into make it up, and none is empty or too long.
pub(crate) proof fn lemma_chunks(b: BlockView)
    requires
        b.term_frequencies.len() == b.docids.len(),
    ensures
        well_cut(chunks(b)),
        joined(chunks(b)) == b,
    decreases b.docids.len(),
{
    if b.docids.len() == 0 {
        assert(joined(chunks(b)) =~= b);
    } else if b.docids.len() <= MAX_PL_BLOCK_SIZE {
        lemma_joined_one(b);
    } else {
        let first = b.take(MAX_PL_BLOCK_SIZE as int);
        let rest = b.skip(MAX_PL_BLOCK_SIZE as int);
        lemma_chunks(rest);
        lemma_joined_one(first);
        lemma_joined_parts(seq![first], chunks(rest));
        assert(first.plus(rest) =~= b);
        lemma_well_cut_parts(seq![first], chunks(rest));
    }
}

proof fn lemma_well_cut_parts(a: Seq<BlockView>, b: Seq<BlockView>)
    requires
        well_cut(a),
        well_cut(b),
    ensures
        well_cut(a + b),
{
    assert forall|i: int| 0 <= i < (a + b).len() implies {
        &&& 1 <= (#[trigger] (a + b)[i]).docids.len() <= MAX_PL_BLOCK_SIZE
        &&& (a + b)[i].term_frequencies.len() == (a + b)[i].docids.len()
    } by {
        if i < a.len() {
            assert((a + b)[i] == a[i]);
        } else {
            assert((a + b)[i] == b[i - a.len()]);
        }
    }
}

/// The blocks of a list begin in strictly ascending order.
pub open spec fn firsts_ascend(bs: Seq<BlockView>) -> bool {
    forall|i: int, k: int|
        0 <= i < k < bs.len() ==> (#[trigger] bs[i]).docids[0] < (#[trigger] bs[k]).docids[0]
}

/// Blocks that make up a list can each be stored and read back, and begin in ascending order.
pub(crate) proof fn lemma_cuts_storable(
    cuts: Seq<BlockView>,
    list: Seq<Posting>,
    features: TokenFieldFeatures,
)
    requires
        well_cut(cuts),
        joined(cuts) == list_block(list),
        strictly_ascending(docids_of(list)),
        features is Doc ==> forall|i: int| 0 <= i < list.len() ==> (#[trigger] list[i]).tf == 1,
    ensures
        forall|i: int| 0 <= i < cuts.len() ==> (#[trigger] cuts[i]).storable(features),
        firsts_ascend(cuts),
{
    let docs = docids_of(list);
    assert forall|i: int| 0 <= i < cuts.len() implies (#[trigger] cuts[i]).storable(features) by {
        let b = cuts[i];
        assert(1 <= b.docids.len() <= MAX_PL_BLOCK_SIZE);
        assert forall|x: int, y: int| 0 <= x <= y < b.docids.len() implies b.docids[x]
            <= b.docids[y] by {
            lemma_joined_list(cuts, list, i, x);
            lemma_joined_list(cuts, list, i, y);
            let o = offset(cuts, i);
            assert(docs[o + x] == list[o + x].doc);
            assert(docs[o + y] == list[o + y].doc);
        }
        if features is Doc {
            assert forall|x: int| 0 <= x < b.term_frequencies.len() implies b.term_frequencies[x]
                == 1 by {
                lemma_joined_list(cuts, list, i, x);
            }
        }
    }
    assert forall|i: int, k: int| 0 <= i < k < cuts.len() implies (#[trigger] cuts[i]).docids[0]
        < (#[trigger] cuts[k]).docids[0] by {
        lemma_joined_list(cuts, list, i, 0);
        lemma_joined_list(cuts, list, k, 0);
        lemma_offset_step(cuts, i);
        lemma_offset_grows(cuts, i + 1, k);
        let (a, b) = (offset(cuts, i), offset(cuts, k));
        assert(docs[a + 0] == list[a + 0].doc);
        assert(docs[b + 0] == list[b + 0].doc);
    }
}

/// The last write to the key of a block, among the writes of blocks.
pub(crate) proof fn lemma_block_written(
    name: Seq<u8>,
    token: Seq<u8>,
    features: TokenFieldFeatures,
    bs: Seq<BlockView>,
    d: DocId,
)
    requires
        firsts_ascend(bs),
    ensures
        ({
            let written = last_write(
                block_writes(name, token, features, bs),
                Section::DocPl,
                spec_pl_key(name, token, d),
            );
            match written {
                Some(value) => exists|i: int|
                    0 <= i < bs.len() && (#[trigger] bs[i]).docids[0] == d && value
                        == bs[i].spec_encode(features),
                None => forall|i: int| 0 <= i < bs.len() ==> (#[trigger] bs[i]).docids[0] != d,
            }
        }),
{
    let writes = block_writes(name, token, features, bs);
    let key = spec_pl_key(name, token, d);
    if exists|i: int| 0 <= i < bs.len() && (#[trigger] bs[i]).docids[0] == d {
        let i = choose|i: int| 0 <= i < bs.len() && (#[trigger] bs[i]).docids[0] == d;
        assert forall|j: int| i < j < writes.len() implies !((#[trigger] writes[j]).section
            == writes[i].section && writes[j].key == writes[i].key) by {
            lemma_keys_differ(name, token, token, bs[j].docids[0], d);
            assert(bs[i].docids[0] < bs[j].docids[0]);
        }
        lemma_written(writes, i);
    } else {
        assert forall|j: int| 0 <= j < writes.len() implies !((#[trigger] writes[j]).section
            == Section::DocPl && writes[j].key == key) by {
            lemma_keys_differ(name, token, token, bs[j].docids[0], d);
            assert(bs[j].docids[0] != d);
        }
        lemma_not_written(writes, Section::DocPl, key);
    }
}

/// Which part of the writes for a token counts for a section.
pub(crate) proof fn lemma_writes_by_section(
    stats: WriteView,
    blocks: Seq<WriteView>,
    positions: Seq<WriteView>,
    section: Section,
    key: Seq<u8>,
)
    requires
        stats.section == Section::Stats,
        forall|i: int| 0 <= i < blocks.len() ==> (#[trigger] blocks[i]).section == Section::DocPl,
        forall|i: int|
            0 <= i < positions.len() ==> (#[trigger] positions[i]).section == Section::PosPl,
    ensures
        last_write(seq![stats] + blocks + positions, section, key) == (match section {
            Section::Stats => if stats.key == key {
                Some(stats.value)
            } else {
                None
            },
            Section::DocPl => last_write(blocks, section, key),
            Section::PosPl => last_write(positions, section, key),
        }),
{
    let one = seq![stats];
    lemma_last_write_parts(one + blocks, positions, section, key);
    lemma_last_write_parts(one, blocks, section, key);
    if section != Section::PosPl {
        lemma_not_written(positions, section, key);
    }
    if section != Section::DocPl {
        lemma_not_written(blocks, section, key);
    }
    if section != Section::Stats || stats.key != key {
        assert(one[0] == stats);
        lemma_not_written(one, section, key);
    } else {
        assert(one[0] == stats);
        lemma_written(one, 0);
    }
}

/// Blocks of which some were there and the others are written make up the list.
proof fn lemma_blocks_after(
    l: StoredList,
    before: FieldStore,
    writes: Seq<WriteView>,
    m: StoredList,
    kept: Seq<BlockView>,
    new: Seq<BlockView>,
)
    requires
        agree(before, l.store, l.name, l.token),
        m.store == before.put_all(writes),
        m.name == l.name,
        m.token == l.token,
        m.features == l.features,
        forall|d: DocId|
            last_write(writes, Section::DocPl, #[trigger] l.key(d)) == last_write(
                block_writes(l.name, l.token, l.features, new),
                Section::DocPl,
                l.key(d),
            ),
        m.sensible(),
        well_cut(kept + new),
        joined(kept + new) == list_block(m.list),
        l.name.len() + l.token.len() >= 2,
        forall|i: int|
            0 <= i < kept.len() ==> {
                let k = l.key((#[trigger] kept[i]).docids[0]);
                &&& l.store.docpl.contains_key(k)
                &&& BlockView::spec_decode(k, l.store.docpl[k], l.features) == Some(kept[i])
            },
        forall|d: DocId| #[trigger]
            l.store.docpl.contains_key(l.key(d)) ==> exists|i: int|
                0 <= i < (kept + new).len() && #[trigger] (kept + new)[i].docids[0] == d,
    ensures
        m.cut_into(kept + new),
{
    let cuts = kept + new;
    lemma_cuts_storable(cuts, m.list, m.features);
    assert(firsts_ascend(new)) by {
        assert forall|i: int, k: int| 0 <= i < k < new.len() implies (#[trigger] new[i]).docids[0]
            < (#[trigger] new[k]).docids[0] by {
            assert(cuts[kept.len() + i] == new[i]);
            assert(cuts[kept.len() + k] == new[k]);
        }
    }
    assert forall|i: int| 0 <= i < cuts.len() implies {
        let k = m.key((#[trigger] cuts[i]).docids[0]);
        &&& m.store.docpl.contains_key(k)
        &&& BlockView::spec_decode(k, m.store.docpl[k], m.features) == Some(cuts[i])
    } by {
        let d = cuts[i].docids[0];
        let k = l.key(d);
        assert(m.key(d) == k);
        lemma_put_all_at(before, writes, Section::DocPl, k);
        lemma_block_written(l.name, l.token, l.features, new, d);
        if i < kept.len() {
            assert(cuts[i] == kept[i]);
            assert forall|j: int| 0 <= j < new.len() implies (#[trigger] new[j]).docids[0] != d by {
                assert(cuts[kept.len() + j] == new[j]);
            }
            assert(same_at(before.docpl, l.store.docpl, k));
        } else {
            assert(cuts[i] == new[i - kept.len()]);
            lemma_key_docid(l.name, l.token, d);
            assert(cuts[i].storable(m.features));
            lemma_block_round_trip(cuts[i], k, m.features);
            assert(last_write(
                block_writes(l.name, l.token, l.features, new),
                Section::DocPl,
                k,
            ) is Some);
            let j = choose|j: int|
                0 <= j < new.len() && (#[trigger] new[j]).docids[0] == d && last_write(
                    block_writes(l.name, l.token, l.features, new),
                    Section::DocPl,
                    k,
                ) == Some(new[j].spec_encode(l.features));
            if j < i - kept.len() {
                assert(new[j].docids[0] < new[i - kept.len()].docids[0]);
            } else if j > i - kept.len() {
                assert(new[i - kept.len()].docids[0] < new[j].docids[0]);
            }
        }
    }
    assert forall|d: DocId| #[trigger] m.store.docpl.contains_key(m.key(d)) implies exists|i: int|
        0 <= i < cuts.len() && #[trigger] cuts[i].docids[0] == d by {
        let k = l.key(d);
        lemma_put_all_at(before, writes, Section::DocPl, k);
        lemma_block_written(l.name, l.token, l.features, new, d);
        match last_write(writes, Section::DocPl, k) {
            Some(_) => {
                let j = choose|j: int| 0 <= j < new.len() && (#[trigger] new[j]).docids[0] == d;
                assert(cuts[kept.len() + j].docids[0] == d);
            },
            None => {
                assert(same_at(before.docpl, l.store.docpl, k));
                assert(l.store.docpl.contains_key(l.key(d)));
            },
        }
    }
}

/// Occurrences in two parts of a list.
pub(crate) proof fn lemma_occurrences_parts(a: Seq<Posting>, b: Seq<Posting>)
    ensures
        occurrences(a + b) == occurrences(a) + occurrences(b),
    decreases b.len(),
{
    if b.len() == 0 {
        assert(a + b =~= a);
    } else {
        lemma_occurrences_parts(a, b.drop_last());
        assert((a + b).drop_last() =~= a + b.drop_last());
    }
}

/// Postings keep their occurrences when they are placed.
pub(crate) proof fn lemma_occurrences_new(start: DocId, list: Seq<LocalPosting>)
    ensures
        occurrences(new_postings(start, list)) == total_tf(list),
    decreases list.len(),
{
    if list.len() > 0 {
        lemma_occurrences_new(start, list.drop_last());
        assert(new_postings(start, list).drop_last() =~= new_postings(start, list.drop_last()));
    }
}

/// The statistics that an append reads are those of the list.
pub(crate) proof fn lemma_stats_read(l: StoredList, reply: Option<EntryView>)
    requires
        l.held(),
        l.store.answers(
            QueryView::Get { section: Section::Stats, key: spec_stats_key(l.name, l.token) },
            reply,
        ),
    ensures
        stats_in(reply) == (if l.list.len() == 0 {
            None
        } else if l.list.len() == 1 {
            Some(
                TokenStats::SingleHit {
                    docid: l.list[0].doc,
                    term_frequency: l.list[0].tf as u64,
                },
            )
        } else {
            Some(
                TokenStats::MultiHit {
                    doc_frequency: l.list.len() as u64,
                    term_frequency: occurrences(l.list) as u64,
                },
            )
        }),
        l.list.len() <= u64::MAX,
        occurrences(l.list) <= u64::MAX,
{
    reveal(StoredList::stats_held);
    if l.list.len() == 0 {
        assert(occurrences(l.list) == 0);
    }
}

/// The statistics that an append writes are those of the longer list.
proof fn lemma_stats_after(
    l: StoredList,
    reply: Option<EntryView>,
    start: DocId,
    list: Seq<LocalPosting>,
    end: u32,
    m: StoredList,
)
    requires
        l.held(),
        l.store.answers(
            QueryView::Get { section: Section::Stats, key: spec_stats_key(l.name, l.token) },
            reply,
        ),
        appendable(l, start, list, end),
        list.len() > 0,
        m == appended(l, m.store, start, list),
        m.store.stats.contains_key(spec_stats_key(l.name, l.token)),
        m.store.stats[spec_stats_key(l.name, l.token)] == new_stats(
            stats_in(reply),
            start,
            list,
        ).spec_encode(),
    ensures
        m.stats_held(),
        is_single(stats_in(reply), list) || summed_tf(stats_in(reply), list) <= u64::MAX,
        is_single(stats_in(reply), list) == (m.list.len() == 1),
{
    reveal(StoredList::stats_held);
    let old = stats_in(reply);
    lemma_stats_read(l, reply);
    lemma_occurrences_parts(l.list, new_postings(start, list));
    lemma_occurrences_new(start, list);
    let stats = new_stats(old, start, list);
    if l.list.len() == 1 {
        reveal_with_fuel(occurrences, 2);
        assert(l.list.drop_last() =~= seq![]);
        assert(occurrences(l.list) == l.list[0].tf);
    }
    if m.list.len() == 1 {
        assert(new_postings(start, list)[0] == m.list[0]);
    }
    lemma_stats_round_trip(stats, seq![]);
    assert(stats.spec_encode() + seq![] =~= stats.spec_encode());
}

/// The longer list makes sense.
pub(crate) proof fn lemma_appended_sensible(
    l: StoredList,
    start: DocId,
    list: Seq<LocalPosting>,
    end: u32,
    m: StoredList,
)
    requires
        l.sensible(),
        appendable(l, start, list, end),
        m == appended(l, m.store, start, list),
    ensures
        m.sensible(),
        list_block(m.list) == list_block(l.list).plus(placed(start, list)),
{
    let n = l.list.len();
    let docs = docids_of(m.list);
    assert forall|i: int| 0 <= i < m.list.len() implies {
        &&& (#[trigger] m.list[i]).doc < DOC_ID_UNPOSITIONED
        &&& m.features is Doc ==> m.list[i].tf == 1
        &&& !(m.features is WithPositions) ==> m.list[i].positions.len() == 0
        &&& m.features is WithPositions ==> m.list[i].tf == m.list[i].positions.len() as u32
    } by {
        if i < n {
            assert(m.list[i] == l.list[i]);
        } else {
            assert(fits_field(list[i - n], l.features));
            assert(list[i - n].doc < end);
        }
    }
    assert forall|i: int, j: int| 0 <= i < j < docs.len() implies docs[i] < docs[j] by {
        if j < n {
            assert(docids_of(l.list)[i] < docids_of(l.list)[j]);
        } else if i < n {
            assert(l.list[i].doc < start);
            assert(list[j - n].doc < end);
        } else {
            assert(list[i - n].doc < list[j - n].doc);
            assert(list[j - n].doc < end);
        }
    }
    assert(list_block(m.list) =~= list_block(l.list).plus(placed(start, list)));
}

/// The positions of the longer list are there once the new ones are written.
proof fn lemma_positions_after(
    l: StoredList,
    before: FieldStore,
    writes: Seq<WriteView>,
    start: DocId,
    list: Seq<LocalPosting>,
    end: u32,
    m: StoredList,
)
    requires
        l.positions_held(),
        l.features is WithPositions,
        agree(before, l.store, l.name, l.token),
        appendable(l, start, list, end),
        m == appended(l, before.put_all(writes), start, list),
        forall|k: Seq<u8>|
            #![trigger last_write(writes, Section::PosPl, k)]
            last_write(writes, Section::PosPl, k) == last_write(
                position_writes(l.name, l.token, start, list),
                Section::PosPl,
                k,
            ),
    ensures
        m.positions_held(),
{
    reveal(StoredList::positions_held);
    let n = l.list.len();
    let pw = position_writes(l.name, l.token, start, list);
    assert forall|i: int| 0 <= i < m.list.len() implies {
        let k = spec_pospl_key(m.name, (#[trigger] m.list[i]).doc, m.token);
        &&& m.store.pospl.contains_key(k)
        &&& positions_from(0, m.store.pospl[k]) == Some(m.list[i].positions)
    } by {
        let d = m.list[i].doc;
        let k = spec_pospl_key(l.name, d, l.token);
        lemma_put_all_at(before, writes, Section::PosPl, k);
        assert(same_at(before.pospl, l.store.pospl, k));
        if i < n {
            assert(m.list[i] == l.list[i]);
            assert forall|j: int| 0 <= j < pw.len() implies !((#[trigger] pw[j]).section
                == Section::PosPl && pw[j].key == k) by {
                assert(list[j].doc < end);
                lemma_keys_differ(l.name, l.token, l.token, (start + list[j].doc) as u64, d);
            }
            lemma_not_written(pw, Section::PosPl, k);
        } else {
            let i0 = i - n;
            assert(list[i0].doc < end);
            assert forall|j: int| i0 < j < pw.len() implies !((#[trigger] pw[j]).section
                == pw[i0].section && pw[j].key == pw[i0].key) by {
                assert(list[i0].doc < list[j].doc);
                assert(list[j].doc < end);
                lemma_keys_differ(l.name, l.token, l.token, (start + list[j].doc) as u64, d);
            }
            lemma_written(pw, i0);
            assert(pw[i0].key == k);
            assert(fits_field(list[i0], l.features));
            lemma_positions_round_trip(list[i0].positions);
        }
    }
}

/// The append stands at a token, and its list is in the store.
pub open spec fn stands_at(v: AppendView, l: StoredList) -> bool {
    &&& v.token() == l.token
    &&& v.name == l.name
    &&& v.features == l.features
    &&& (v.rep.features() is WithPositions) == (l.features is WithPositions)
    &&& v.list().len() > 0
}

/// The writes for a token are to its entries.
pub open spec fn all_belong(writes: Seq<WriteView>, name: Seq<u8>, token: Seq<u8>) -> bool {
    forall|i: int| 0 <= i < writes.len() ==> belongs(#[trigger] writes[i], name, token)
}

/// The writes that a token gets, given its blocks.
pub open spec fn token_writes(
    v: AppendView,
    reply: Option<EntryView>,
    blocks: Seq<BlockView>,
) -> Seq<WriteView> {
    seq![
        WriteView {
            section: Section::Stats,
            key: spec_stats_key(v.name, v.token()),
            value: new_stats(stats_in(reply), v.start, v.list()).spec_encode(),
        },
    ] + block_writes(v.name, v.token(), v.features, blocks) + v.positions_part()
}

/// With the blocks that complete the list, the writes for a token make the longer list.
proof fn lemma_token_written(
    l: StoredList,
    v: AppendView,
    end: u32,
    reply: Option<EntryView>,
    before: FieldStore,
    kept: Seq<BlockView>,
    new: Seq<BlockView>,
)
    requires
        l.held(),
        stands_at(v, l),
        appendable(l, v.start, v.list(), end),
        l.store.answers(
            QueryView::Get { section: Section::Stats, key: spec_stats_key(l.name, l.token) },
            reply,
        ),
        agree(before, l.store, l.name, l.token),
        l.list.len() + v.list().len() == 1 ==> {
            &&& new.len() == 0
            &&& forall|d: DocId| !#[trigger] l.store.docpl.contains_key(l.key(d))
        },
        l.list.len() + v.list().len() >= 2 ==> {
            &&& well_cut(kept + new)
            &&& joined(kept + new) == list_block(l.list).plus(placed(v.start, v.list()))
            &&& forall|i: int|
                0 <= i < kept.len() ==> {
                    let k = l.key((#[trigger] kept[i]).docids[0]);
                    &&& l.store.docpl.contains_key(k)
                    &&& BlockView::spec_decode(k, l.store.docpl[k], l.features) == Some(kept[i])
                }
            &&& forall|d: DocId| #[trigger]
                l.store.docpl.contains_key(l.key(d)) ==> exists|i: int|
                    0 <= i < (kept + new).len() && #[trigger] (kept + new)[i].docids[0] == d
        },
    ensures
        appended(l, before.put_all(token_writes(v, reply, new)), v.start, v.list()).held(),
        all_belong(token_writes(v, reply, new), l.name, l.token),
{
    let writes = token_writes(v, reply, new);
    let m = appended(l, before.put_all(writes), v.start, v.list());
    let blocks = block_writes(v.name, v.token(), v.features, new);
    let positions = v.positions_part();
    let stats_key = spec_stats_key(l.name, l.token);
    let stats = writes[0];
    assert(writes =~= seq![stats] + blocks + positions);
    lemma_appended_sensible(l, v.start, v.list(), end, m);
    lemma_writes_by_section(stats, blocks, positions, Section::Stats, stats_key);
    lemma_put_all_at(before, writes, Section::Stats, stats_key);
    lemma_stats_after(l, reply, v.start, v.list(), end, m);
    assert(m.blocks_held()) by {
        assert forall|d: DocId|
            last_write(writes, Section::DocPl, #[trigger] l.key(d)) == last_write(
                blocks,
                Section::DocPl,
                l.key(d),
            ) by {
            lemma_writes_by_section(stats, blocks, positions, Section::DocPl, l.key(d));
        }
        if m.list.len() == 1 {
            assert forall|d: DocId| !#[trigger] m.store.docpl.contains_key(m.key(d)) by {
                assert(!l.store.docpl.contains_key(l.key(d)));
                assert(same_at(before.docpl, l.store.docpl, l.key(d)));
                lemma_put_all_at(before, writes, Section::DocPl, l.key(d));
            }
        } else {
            lemma_blocks_after(l, before, writes, m, kept, new);
            assert(m.cut_into(kept + new));
        }
    }
    assert(m.positions_held()) by {
        if l.features is WithPositions {
            assert forall|k: Seq<u8>|
                #![trigger last_write(writes, Section::PosPl, k)]
                last_write(writes, Section::PosPl, k) == last_write(
                    position_writes(l.name, l.token, v.start, v.list()),
                    Section::PosPl,
                    k,
                ) by {
                lemma_writes_by_section(stats, blocks, positions, Section::PosPl, k);
            }
            lemma_positions_after(l, before, writes, v.start, v.list(), end, m);
        } else {
            reveal(StoredList::positions_held);
        }
    }
    assert forall|i: int| 0 <= i < writes.len() implies belongs(
        #[trigger] writes[i],
        l.name,
        l.token,
    ) by {
        if i == 0 {
        } else if i < 1 + blocks.len() {
            assert(writes[i] == blocks[i - 1]);
            assert(writes[i].key == spec_pl_key(l.name, l.token, new[i - 1].docids[0]));
        } else {
            let j = i - 1 - blocks.len();
            assert(writes[i] == positions[j]);
            assert(writes[i].key == spec_pospl_key(
                l.name,
                (v.start + v.list()[j].doc) as u64,
                l.token,
            ));
        }
    }
}

/// A token that is new and occurs in one document is done after the first answer.
pub(crate) proof fn lemma_single_token(
    l: StoredList,
    v: AppendView,
    end: u32,
    reply: Option<EntryView>,
    before: FieldStore,
)
    requires
        l.held(),
        stands_at(v, l),
        v.block is None,
        appendable(l, v.start, v.list(), end),
        l.store.answers(
            QueryView::Get { section: Section::Stats, key: spec_stats_key(l.name, l.token) },
            reply,
        ),
        agree(before, l.store, l.name, l.token),
        l.list.len() + v.list().len() == 1,
    ensures
        v.step(reply) == Ok::<_, AppendError>(
            (AppendView { at: v.at + 1, ..v }, token_writes(v, reply, seq![])),
        ),
        appended(l, before.put_all(token_writes(v, reply, seq![])), v.start, v.list()).held(),
        all_belong(token_writes(v, reply, seq![]), l.name, l.token),
{
    lemma_stats_read(l, reply);
    let none = Seq::<BlockView>::empty();
    lemma_token_written(l, v, end, reply, before, none, none);
    let writes = token_writes(v, reply, none);
    assert(block_writes(v.name, v.token(), v.features, none) =~= seq![]);
    assert(writes =~= seq![writes[0]] + v.positions_part());
}

/// The first answer for any other token leads to a read of its last block.
pub(crate) proof fn lemma_first_answer(
    l: StoredList,
    v: AppendView,
    end: u32,
    reply: Option<EntryView>,
)
    requires
        l.held(),
        stands_at(v, l),
        v.block is None,
        !v.done(),
        appendable(l, v.start, v.list(), end),
        l.store.answers(
            QueryView::Get { section: Section::Stats, key: spec_stats_key(l.name, l.token) },
            reply,
        ),
        l.list.len() + v.list().len() >= 2,
    ensures
        ({
            let block = new_block(stats_in(reply), v.start, v.list());
            let v1 = AppendView { block: Some(block), ..v };
            &&& v.step(reply) == Ok::<_, AppendError>((v1, token_writes(v, reply, seq![]).take(1)))
            &&& block.docids.len() > 0
            &&& v1.query() == Some(
                QueryView::Last {
                    section: Section::DocPl,
                    lo: l.key(0),
                    hi: l.key(block.docids[0]),
                },
            )
            &&& block == (if l.list.len() <= 1 {
                list_block(l.list).plus(placed(v.start, v.list()))
            } else {
                placed(v.start, v.list())
            })
        }),
{
    let old = stats_in(reply);
    let list = v.list();
    lemma_stats_read(l, reply);
    lemma_occurrences_parts(l.list, new_postings(v.start, list));
    lemma_occurrences_new(v.start, list);
    if l.list.len() == 1 {
        reveal_with_fuel(occurrences, 2);
        assert(l.list.drop_last() =~= seq![]);
    }
    let block = new_block(old, v.start, list);
    assert(carried(old) =~= (if l.list.len() <= 1 {
        list_block(l.list)
    } else {
        BlockView { docids: seq![], term_frequencies: seq![] }
    }));
    assert(l.list.len() != 1 ==> block =~= placed(v.start, list));
    if l.list.len() == 0 {
        assert(list_block(l.list).plus(placed(v.start, list)) =~= placed(v.start, list));
    }
    let writes = token_writes(v, reply, seq![]);
    assert(writes.take(1) =~= seq![writes[0]]);
}

/// A list of up to one posting has no block that a search could find.
proof fn lemma_no_last_block(l: StoredList, upto: DocId, reply: Option<EntryView>)
    requires
        l.valid(),
        l.list.len() <= 1,
        l.store.answers(
            QueryView::Last { section: Section::DocPl, lo: l.key(0), hi: l.key(upto) },
            reply,
        ),
    ensures
        reply is None,
{
    if let Some(e) = reply {
        lemma_keys_order(l, upto, DOC_ID_DONE);
        lemma_at_most_transitive(e.key, l.key(upto), l.key(DOC_ID_DONE));
        assert(l.in_range(e.key));
        assert(l.store.docpl.contains_key(e.key));
        let d = choose|d: DocId| e.key == #[trigger] l.key(d);
        assert(!l.store.docpl.contains_key(l.key(d)));
    }
}

/// New blocks for a list of up to one posting.
pub(crate) proof fn lemma_second_answer_short(
    l: StoredList,
    v: AppendView,
    end: u32,
    stats: Option<EntryView>,
    block: BlockView,
    reply: Option<EntryView>,
    before: FieldStore,
) -> (new: Seq<BlockView>)
    requires
        l.valid(),
        stands_at(v, l),
        appendable(l, v.start, v.list(), end),
        l.store.answers(
            QueryView::Get { section: Section::Stats, key: spec_stats_key(l.name, l.token) },
            stats,
        ),
        agree(before, l.store, l.name, l.token),
        l.list.len() <= 1,
        l.list.len() + v.list().len() >= 2,
        block == list_block(l.list).plus(placed(v.start, v.list())),
        l.store.answers(
            QueryView::Last { section: Section::DocPl, lo: l.key(0), hi: l.key(block.docids[0]) },
            reply,
        ),
    ensures
        new == chunks(block),
        doc_pl_writes(l.name, l.token, l.features, block, reply) == Ok::<_, AppendError>(
            block_writes(l.name, l.token, l.features, new),
        ),
        appended(l, before.put_all(token_writes(v, stats, new)), v.start, v.list()).held(),
        all_belong(token_writes(v, stats, new), l.name, l.token),
{
    let new = chunks(block);
    let none = Seq::<BlockView>::empty();
    let m = appended(l, l.store, v.start, v.list());
    lemma_no_last_block(l, block.docids[0], reply);
    lemma_appended_sensible(l, v.start, v.list(), end, m);
    lemma_chunks(block);
    assert(none + new =~= new);
    lemma_cuts_storable(new, m.list, l.features);
    assert forall|d: DocId| #[trigger]
        l.store.docpl.contains_key(l.key(d)) implies exists|i: int|
        0 <= i < (none + new).len() && #[trigger] (none + new)[i].docids[0] == d by {
        assert(false);
    }
    assert(all_ascend(new));
    lemma_token_written(l, v, end, stats, before, none, new);
    new
}

/// The last block filled up, and the rest cut up, make up the longer list.
pub(crate) proof fn lemma_filled_cuts(cuts: Seq<BlockView>, block: BlockView)
    requires
        well_cut(cuts),
        cuts.len() > 0,
        block.docids.len() > 0,
        block.term_frequencies.len() == block.docids.len(),
    ensures
        ({
            let first = filled(cuts.last(), block);
            let new = seq![first] + chunks(left_over(cuts.last(), block));
            &&& well_cut(cuts.drop_last() + new)
            &&& joined(cuts.drop_last() + new) == joined(cuts).plus(block)
            &&& first.docids[0] == cuts.last().docids[0]
        }),
{
    let last = cuts.last();
    let n = fits_in(last, block);
    let first = filled(last, block);
    let rest = left_over(last, block);
    let more = chunks(rest);
    let kept = cuts.drop_last();
    assert(cuts[cuts.len() - 1] == last);
    lemma_chunks(rest);
    lemma_well_cut_front(cuts);
    assert(1 <= first.docids.len() <= MAX_PL_BLOCK_SIZE);
    lemma_well_cut_parts(seq![first], more);
    lemma_well_cut_parts(kept, seq![first] + more);
    lemma_joined_one(first);
    lemma_joined_parts(seq![first], more);
    lemma_joined_parts(kept, seq![first] + more);
    assert(first.plus(rest) =~= last.plus(block)) by {
        assert(block.take(n).plus(block.skip(n)) =~= block);
    }
    assert(joined(kept).plus(last.plus(block)) =~= joined(kept).plus(last).plus(block));
}

/// The blocks of a longer list.
pub(crate) proof fn lemma_second_answer_long(
    l: StoredList,
    v: AppendView,
    end: u32,
    stats: Option<EntryView>,
    block: BlockView,
    reply: Option<EntryView>,
    before: FieldStore,
) -> (new: Seq<BlockView>)
    requires
        l.valid(),
        stands_at(v, l),
        appendable(l, v.start, v.list(), end),
        l.store.answers(
            QueryView::Get { section: Section::Stats, key: spec_stats_key(l.name, l.token) },
            stats,
        ),
        agree(before, l.store, l.name, l.token),
        l.list.len() >= 2,
        block == placed(v.start, v.list()),
        l.store.answers(
            QueryView::Last { section: Section::DocPl, lo: l.key(0), hi: l.key(block.docids[0]) },
            reply,
        ),
    ensures
        new == seq![filled(l.cuts().last(), block)] + chunks(left_over(l.cuts().last(), block)),
        doc_pl_writes(l.name, l.token, l.features, block, reply) == Ok::<_, AppendError>(
            block_writes(l.name, l.token, l.features, new),
        ),
        appended(l, before.put_all(token_writes(v, stats, new)), v.start, v.list()).held(),
        all_belong(token_writes(v, stats, new), l.name, l.token),
{
    let cuts = l.cuts();
    let kept = cuts.drop_last();
    let last = cuts.last();
    let m = appended(l, l.store, v.start, v.list());
    lemma_cut_docs(l);
    lemma_appended_sensible(l, v.start, v.list(), end, m);
    let i = lemma_answer_last(l, block.docids[0], reply);
    assert(i == cuts.len() - 1) by {
        if i < cuts.len() - 1 {
            let k = cuts.len() - 1;
            assert(cuts[k].docids.len() >= 1);
            assert(l.is_doc_of_cut(k, 0));
            assert(l.list[offset(cuts, k) + 0].doc < v.start);
            assert(v.list()[0].doc < end);
            assert(cuts[k].docids[0] > block.docids[0]);
        }
    }
    assert(last == cuts[i]);
    let first = filled(last, block);
    let more = chunks(left_over(last, block));
    let new = seq![first] + more;
    lemma_filled_cuts(cuts, block);
    lemma_cuts_storable(kept + new, m.list, l.features);
    assert forall|j: int| 0 <= j < new.len() implies ascending((#[trigger] new[j]).docids) by {
        assert((kept + new)[kept.len() + j] == new[j]);
    }
    assert(ascending(first.docids)) by {
        assert(new[0] == first);
    }
    assert(all_ascend(more)) by {
        assert forall|j: int| 0 <= j < more.len() implies ascending(
            (#[trigger] more[j]).docids,
        ) by {
            assert(new[j + 1] == more[j]);
        }
    }
    let e = reply->0;
    let writes = block_writes(l.name, l.token, l.features, new);
    assert(writes =~= seq![
        WriteView {
            section: Section::DocPl,
            key: e.key,
            value: first.spec_encode(l.features),
        },
    ] + block_writes(l.name, l.token, l.features, more));
    assert forall|j: int| 0 <= j < kept.len() implies {
        let k = l.key((#[trigger] kept[j]).docids[0]);
        &&& l.store.docpl.contains_key(k)
        &&& BlockView::spec_decode(k, l.store.docpl[k], l.features) == Some(kept[j])
    } by {
        assert(kept[j] == cuts[j]);
    }
    assert forall|d: DocId| #[trigger]
        l.store.docpl.contains_key(l.key(d)) implies exists|j: int|
        0 <= j < (kept + new).len() && #[trigger] (kept + new)[j].docids[0] == d by {
        let j = choose|j: int| 0 <= j < cuts.len() && #[trigger] cuts[j].docids[0] == d;
        assert((kept + new)[j].docids[0] == d) by {
            if j < kept.len() {
                assert((kept + new)[j] == cuts[j]);
            } else {
                assert((kept + new)[j] == new[0]);
            }
        }
    }
    lemma_token_written(l, v, end, stats, before, kept, new);
    new
}

} // verus!
