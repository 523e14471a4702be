//! Posting lists as appends write them: which entries there are, byte for byte.
use crate::append::{
    block_writes, chunks, filled, fits_in, left_over, new_stats, placed, stats_in, AppendView,
};
use crate::block::{lemma_block_round_trip, BlockView, MAX_PL_BLOCK_SIZE};
use crate::field::{
    lemma_key_docid, spec_key_docid, spec_pl_key, spec_pospl_key, spec_stats_key, Section,
};
use crate::positions::{
    lemma_positions_round_trip, position_steps, positions_ascend, positions_from,
};
use crate::stats::{lemma_stats_round_trip, DocId, TokenStats};
use crate::store::{
    last_write, lemma_last_write_parts, lemma_not_written, lemma_put_all_at, lemma_written,
    EntryView, FieldStore, QueryView, WriteView,
};
use crate::stored_list::{
    docids_of, joined, occurrences, strictly_ascending, well_cut, Posting, StoredList,
};
use crate::token_append::{
    agree, appendable, appended, firsts_ascend, fits_field, lemma_appended_sensible,
    lemma_block_written, lemma_chunks, lemma_cuts_storable, lemma_filled_cuts, lemma_keys_differ,
    lemma_occurrences_new, lemma_occurrences_parts, lemma_stats_read, lemma_writes_by_section,
    list_block, new_postings, same_at, stands_at, token_writes, within_limits,
};
use crate::token_map::LocalPosting;
use crate::varint::leb128_all;
use vstd::prelude::*;

verus! {

/// A store without entries.
pub open spec fn empty_store() -> FieldStore {
    FieldStore { stats: Map::empty(), docpl: Map::empty(), pospl: Map::empty() }
}

/// The writes of the positions of a list, one for each document.
pub open spec fn posting_writes(name: Seq<u8>, token: Seq<u8>, list: Seq<Posting>) -> Seq<
    WriteView,
> {
    Seq::new(
        list.len(),
        |i: int|
            WriteView {
                section: Section::PosPl,
                key: spec_pospl_key(name, list[i].doc, token),
                value: leb128_all(position_steps(0, list[i].positions)),
            },
    )
}

impl StoredList {
    /// The statistics of a list with a posting.
    pub open spec fn list_stats(self) -> TokenStats {
        if self.list.len() == 1 {
            TokenStats::SingleHit {
                docid: self.list[0].doc,
                term_frequency: self.list[0].tf as u64,
            }
        } else {
            TokenStats::MultiHit {
                doc_frequency: self.list.len() as u64,
                term_frequency: occurrences(self.list) as u64,
            }
        }
    }

    /// The blocks of a list: none up to one posting, else full ones and one with the rest.
    pub open spec fn blocks(self) -> Seq<BlockView> {
        if self.list.len() <= 1 {
            seq![]
        } else {
            chunks(list_block(self.list))
        }
    }

    pub open spec fn stats_entry(self) -> WriteView {
        WriteView {
            section: Section::Stats,
            key: spec_stats_key(self.name, self.token),
            value: self.list_stats().spec_encode(),
        }
    }

    pub open spec fn block_entries(self) -> Seq<WriteView> {
        block_writes(self.name, self.token, self.features, self.blocks())
    }

    pub open spec fn position_entries(self) -> Seq<WriteView> {
        if self.features is WithPositions {
            posting_writes(self.name, self.token, self.list)
        } else {
            seq![]
        }
    }

    /// The list written out.
    pub open spec fn entries(self) -> Seq<WriteView> {
        if self.list.len() == 0 {
            seq![]
        } else {
            seq![self.stats_entry()] + self.block_entries() + self.position_entries()
        }
    }

    /// Neither the numbers of the statistics entry nor the keys of the blocks lose anything.
    pub open spec fn within_limits(self) -> bool {
        &&& self.list.len() == 1 ==> self.list[0].doc < 0x8000_0000_0000_0000
        &&& self.list.len() >= 2 ==> self.name.len() + self.token.len() >= 2
        &&& self.list.len() < 0x8000_0000_0000_0000
        &&& occurrences(self.list) <= u64::MAX
    }

    /// The entries of the token are exactly those of the list written out.
    pub open spec fn written_out(self) -> bool {
        &&& self.sensible()
        &&& self.within_limits()
        &&& forall|i: int|
            0 <= i < self.list.len() ==> positions_ascend((#[trigger] self.list[i]).positions)
        &&& agree(
            self.store,
            empty_store().put_all(self.entries()),
            self.name,
            self.token,
        )
    }
}

/// A map has this under a key, or nothing.
pub open spec fn shows(m: Map<Seq<u8>, Seq<u8>>, key: Seq<u8>, want: Option<Seq<u8>>) -> bool {
    match want {
        Some(value) => m.contains_key(key) && m[key] == value,
        None => !m.contains_key(key),
    }
}

/// The entries of a token, section by section.
pub open spec fn shows_entries(l: StoredList) -> bool {
    &&& shows(
        l.store.stats,
        spec_stats_key(l.name, l.token),
        if l.list.len() == 0 {
            None
        } else {
            Some(l.list_stats().spec_encode())
        },
    )
    &&& forall|d: DocId|
        shows(
            l.store.docpl,
            #[trigger] l.key(d),
            last_write(l.block_entries(), Section::DocPl, l.key(d)),
        )
    &&& forall|d: DocId|
        shows(
            l.store.pospl,
            #[trigger] spec_pospl_key(l.name, d, l.token),
            last_write(
                l.position_entries(),
                Section::PosPl,
                spec_pospl_key(l.name, d, l.token),
            ),
        )
}

/// What the list written out leaves under a key.
proof fn lemma_entry(l: StoredList, section: Section, key: Seq<u8>)
    ensures
        shows(
            empty_store().put_all(l.entries()).section(section),
            key,
            match section {
                Section::Stats => if l.list.len() > 0 && key == spec_stats_key(l.name, l.token) {
                    Some(l.list_stats().spec_encode())
                } else {
                    None
                },
                Section::DocPl => last_write(l.block_entries(), section, key),
                Section::PosPl => last_write(l.position_entries(), section, key),
            },
        ),
{
    lemma_put_all_at(empty_store(), l.entries(), section, key);
    if l.list.len() > 0 {
        lemma_writes_by_section(
            l.stats_entry(),
            l.block_entries(),
            l.position_entries(),
            section,
            key,
        );
    } else {
        lemma_not_written(l.block_entries(), section, key);
        lemma_not_written(l.position_entries(), section, key);
    }
}

/// The two ways to say which entries there are.
pub(crate) proof fn lemma_shows_entries(l: StoredList)
    ensures
        shows_entries(l) <==> agree(
            l.store,
            empty_store().put_all(l.entries()),
            l.name,
            l.token,
        ),
{
    let out = empty_store().put_all(l.entries());
    lemma_entry(l, Section::Stats, spec_stats_key(l.name, l.token));
    assert forall|d: DocId|
        shows(
            l.store.docpl,
            #[trigger] l.key(d),
            last_write(l.block_entries(), Section::DocPl, l.key(d)),
        ) <==> same_at(l.store.docpl, out.docpl, l.key(d)) by {
        lemma_entry(l, Section::DocPl, l.key(d));
    }
    assert forall|d: DocId|
        shows(
            l.store.pospl,
            #[trigger] spec_pospl_key(l.name, d, l.token),
            last_write(
                l.position_entries(),
                Section::PosPl,
                spec_pospl_key(l.name, d, l.token),
            ),
        ) <==> same_at(l.store.pospl, out.pospl, spec_pospl_key(l.name, d, l.token)) by {
        lemma_entry(l, Section::PosPl, spec_pospl_key(l.name, d, l.token));
    }
    if shows_entries(l) {
        assert forall|d: DocId| same_at(
            l.store.docpl,
            out.docpl,
            #[trigger] spec_pl_key(l.name, l.token, d),
        ) by {
            assert(l.key(d) == spec_pl_key(l.name, l.token, d));
        }
    }
    if agree(l.store, out, l.name, l.token) {
        assert forall|d: DocId|
            shows(
                l.store.docpl,
                #[trigger] l.key(d),
                last_write(l.block_entries(), Section::DocPl, l.key(d)),
            ) by {
            assert(l.key(d) == spec_pl_key(l.name, l.token, d));
        }
    }
}

/// The blocks of a list of more than one posting.
proof fn lemma_blocks(l: StoredList)
    requires
        l.sensible(),
        l.list.len() >= 2,
    ensures
        well_cut(l.blocks()),
        joined(l.blocks()) == list_block(l.list),
        forall|i: int| 0 <= i < l.blocks().len() ==> (#[trigger] l.blocks()[i]).storable(l.features),
        firsts_ascend(l.blocks()),
{
    lemma_chunks(list_block(l.list));
    lemma_cuts_storable(l.blocks(), l.list, l.features);
}

/// The last write to the positions of a document.
proof fn lemma_position_written(name: Seq<u8>, token: Seq<u8>, list: Seq<Posting>, i: int)
    requires
        0 <= i < list.len(),
        strictly_ascending(docids_of(list)),
    ensures
        last_write(
            posting_writes(name, token, list),
            Section::PosPl,
            spec_pospl_key(name, list[i].doc, token),
        ) == Some(leb128_all(position_steps(0, list[i].positions))),
{
    let writes = posting_writes(name, token, list);
    assert forall|j: int| i < j < writes.len() implies !((#[trigger] writes[j]).section
        == writes[i].section && writes[j].key == writes[i].key) by {
        assert(docids_of(list)[i] < docids_of(list)[j]);
        lemma_keys_differ(name, token, token, list[j].doc, list[i].doc);
    }
    lemma_written(writes, i);
}

/// A list that is written out is held.
pub proof fn lemma_written_out_held(l: StoredList)
    requires
        l.written_out(),
    ensures
        l.held(),
        l.list.len() >= 2 ==> l.cut_into(l.blocks()),
{
    lemma_shows_entries(l);
    assert(l.stats_held()) by {
        reveal(StoredList::stats_held);
        if l.list.len() > 0 {
            lemma_stats_round_trip(l.list_stats(), seq![]);
            assert(l.list_stats().spec_encode() + seq![] =~= l.list_stats().spec_encode());
        }
    }
    if l.list.len() <= 1 {
        assert forall|d: DocId| !#[trigger] l.store.docpl.contains_key(l.key(d)) by {
            lemma_not_written(l.block_entries(), Section::DocPl, l.key(d));
        }
    } else {
        let cuts = l.blocks();
        lemma_blocks(l);
        assert forall|i: int| 0 <= i < cuts.len() implies {
            let k = l.key((#[trigger] cuts[i]).docids[0]);
            &&& l.store.docpl.contains_key(k)
            &&& BlockView::spec_decode(k, l.store.docpl[k], l.features) == Some(cuts[i])
        } by {
            let d = cuts[i].docids[0];
            lemma_block_written(l.name, l.token, l.features, cuts, d);
            lemma_key_docid(l.name, l.token, d);
            lemma_block_round_trip(cuts[i], l.key(d), l.features);
            let w = last_write(l.block_entries(), Section::DocPl, l.key(d));
            assert(w is Some);
            let j = choose|j: int|
                0 <= j < cuts.len() && (#[trigger] cuts[j]).docids[0] == d && w == Some(
                    cuts[j].spec_encode(l.features),
                );
            if i < j {
                assert(cuts[i].docids[0] < cuts[j].docids[0]);
            } else if j < i {
                assert(cuts[j].docids[0] < cuts[i].docids[0]);
            }
        }
        assert forall|d: DocId| #[trigger] l.store.docpl.contains_key(l.key(d)) implies exists|
            i: int,
        |
            0 <= i < cuts.len() && #[trigger] cuts[i].docids[0] == d by {
            lemma_block_written(l.name, l.token, l.features, cuts, d);
        }
        assert(l.cut_into(cuts));
    }
    assert(l.positions_held()) by {
        reveal(StoredList::positions_held);
        if l.features is WithPositions {
            assert forall|i: int| 0 <= i < l.list.len() implies {
                let k = spec_pospl_key(l.name, (#[trigger] l.list[i]).doc, l.token);
                &&& l.store.pospl.contains_key(k)
                &&& positions_from(0, l.store.pospl[k]) == Some(l.list[i].positions)
            } by {
                lemma_position_written(l.name, l.token, l.list, i);
                lemma_positions_round_trip(l.list[i].positions);
            }
        }
    }
}

/// The blocks of a list are full but for the last. Together they are the list; each is stored under
/// a key that ends with its first document, and there are no others.
pub proof fn law_blocks_full(l: StoredList)
    requires
        l.written_out(),
        l.list.len() >= 2,
    ensures
        l.blocks().len() >= 1,
        forall|i: int|
            0 <= i < l.blocks().len() - 1 ==> (#[trigger] l.blocks()[i]).docids.len()
                == MAX_PL_BLOCK_SIZE,
        1 <= l.blocks().last().docids.len() <= MAX_PL_BLOCK_SIZE,
        l.cut_into(l.blocks()),
        forall|i: int|
            0 <= i < l.blocks().len() ==> spec_key_docid(
                l.key((#[trigger] l.blocks()[i]).docids[0]),
            ) == Some(l.blocks()[i].docids[0]),
{
    lemma_written_out_held(l);
    lemma_blocks(l);
    assert(docids_of(l.list).len() == l.list.len());
    lemma_chunks_full(list_block(l.list));
    assert(l.blocks()[l.blocks().len() - 1] == l.blocks().last());
    assert forall|i: int| 0 <= i < l.blocks().len() implies spec_key_docid(
        l.key((#[trigger] l.blocks()[i]).docids[0]),
    ) == Some(l.blocks()[i].docids[0]) by {
        lemma_key_docid(l.name, l.token, l.blocks()[i].docids[0]);
    }
}

/// All but the last of the blocks that a block is cut into are full.
proof fn lemma_chunks_full(b: BlockView)
    requires
        b.docids.len() > 0,
    ensures
        chunks(b).len() >= 1,
        forall|i: int|
            0 <= i < chunks(b).len() - 1 ==> (#[trigger] chunks(b)[i]).docids.len()
                == MAX_PL_BLOCK_SIZE,
    decreases b.docids.len(),
{
    if b.docids.len() > MAX_PL_BLOCK_SIZE {
        let rest = b.skip(MAX_PL_BLOCK_SIZE as int);
        lemma_chunks_full(rest);
        assert forall|i: int| 0 <= i < chunks(b).len() - 1 implies (#[trigger] chunks(
            b,
        )[i]).docids.len() == MAX_PL_BLOCK_SIZE by {
            if i > 0 {
                assert(chunks(b)[i] == chunks(rest)[i - 1]);
            }
        }
    }
}

/// A block with more behind it is cut like the block, with the last part filled up.
proof fn lemma_chunks_grow(b: BlockView, more: BlockView)
    requires
        b.docids.len() > 0,
        b.term_frequencies.len() == b.docids.len(),
        more.term_frequencies.len() == more.docids.len(),
    ensures
        chunks(b).len() > 0,
        chunks(b.plus(more)) == chunks(b).drop_last() + (seq![filled(chunks(b).last(), more)]
            + chunks(left_over(chunks(b).last(), more))),
    decreases b.docids.len(),
{
    let all = b.plus(more);
    let size = MAX_PL_BLOCK_SIZE as int;
    if b.docids.len() <= size {
        assert(chunks(b).last() == b);
        assert(chunks(b).drop_last() =~= seq![]);
        let n = fits_in(b, more);
        if all.docids.len() <= size {
            assert(filled(b, more) =~= all);
            assert(left_over(b, more).docids.len() == 0);
            assert(seq![filled(b, more)] + chunks(left_over(b, more)) =~= seq![all]);
        } else {
            assert(all.take(size) =~= filled(b, more));
            assert(all.skip(size) =~= left_over(b, more));
        }
        assert(Seq::<BlockView>::empty() + (seq![filled(b, more)] + chunks(left_over(b, more)))
            =~= seq![filled(b, more)] + chunks(left_over(b, more)));
    } else {
        let rest = b.skip(size);
        lemma_chunks_grow(rest, more);
        assert(all.take(size) =~= b.take(size));
        assert(all.skip(size) =~= rest.plus(more));
        assert(chunks(b).last() == chunks(rest).last());
        assert(chunks(b).drop_last() =~= seq![b.take(size)] + chunks(rest).drop_last());
        assert(chunks(all) =~= chunks(b).drop_last() + (seq![filled(chunks(b).last(), more)]
            + chunks(left_over(chunks(b).last(), more))));
    }
}

/// However a list is cut into the blocks that are stored, the last one is the same.
proof fn lemma_last_cut(l: StoredList, a: Seq<BlockView>, b: Seq<BlockView>)
    requires
        l.held(),
        l.list.len() >= 2,
        l.cut_into(a),
        l.cut_into(b),
    ensures
        a.len() > 0,
        b.len() > 0,
        a.last() == b.last(),
{
    assert(docids_of(l.list).len() == l.list.len());
    assert(a.len() > 0) by {
        assert(a.len() == 0 ==> joined(a).docids.len() == 0);
    }
    assert(b.len() > 0) by {
        assert(b.len() == 0 ==> joined(b).docids.len() == 0);
    }
    lemma_cuts_storable(a, l.list, l.features);
    lemma_cuts_storable(b, l.list, l.features);
    let (x, y) = (a.len() - 1, b.len() - 1);
    let (dx, dy) = (a[x].docids[0], b[y].docids[0]);
    assert(l.store.docpl.contains_key(l.key(dx)));
    assert(l.store.docpl.contains_key(l.key(dy)));
    let i = choose|i: int| 0 <= i < b.len() && #[trigger] b[i].docids[0] == dx;
    let j = choose|j: int| 0 <= j < a.len() && #[trigger] a[j].docids[0] == dy;
    assert(dx <= dy) by {
        if i < y {
            assert(b[i].docids[0] < b[y].docids[0]);
        }
    }
    assert(dy <= dx) by {
        if j < x {
            assert(a[j].docids[0] < a[x].docids[0]);
        }
    }
}

/// Blocks of which the first stay and the others are written, the last old one among them.
proof fn lemma_blocks_written(
    l: StoredList,
    before: FieldStore,
    writes: Seq<WriteView>,
    m: StoredList,
    kept: Seq<BlockView>,
    new: Seq<BlockView>,
    d: DocId,
)
    requires
        shows_entries(l),
        agree(before, l.store, l.name, l.token),
        m.store == before.put_all(writes),
        m.name == l.name,
        m.token == l.token,
        m.features == l.features,
        last_write(writes, Section::DocPl, l.key(d)) == last_write(
            block_writes(l.name, l.token, l.features, new),
            Section::DocPl,
            l.key(d),
        ),
        m.blocks() == kept + new,
        firsts_ascend(kept + new),
        firsts_ascend(l.blocks()),
        l.blocks().len() == kept.len() || (l.blocks().len() == kept.len() + 1 && new.len() > 0
            && l.blocks()[kept.len() as int].docids[0] == new[0].docids[0]),
        forall|i: int| 0 <= i < kept.len() ==> #[trigger] kept[i] == l.blocks()[i],
    ensures
        shows(
            m.store.docpl,
            m.key(d),
            last_write(m.block_entries(), Section::DocPl, m.key(d)),
        ),
{
    let all = kept + new;
    let n = kept.len() as int;
    let k = l.key(d);
    assert(firsts_ascend(new)) by {
        assert forall|i: int, j: int| 0 <= i < j < new.len() implies (#[trigger] new[i]).docids[0]
            < (#[trigger] new[j]).docids[0] by {
            assert(all[n + i] == new[i] && all[n + j] == new[j]);
        }
    }
    lemma_put_all_at(before, writes, Section::DocPl, k);
    lemma_block_written(l.name, l.token, l.features, new, d);
    lemma_block_written(l.name, l.token, l.features, all, d);
    lemma_block_written(l.name, l.token, l.features, l.blocks(), d);
    assert(same_at(before.docpl, l.store.docpl, k)) by {
        assert(k == spec_pl_key(l.name, l.token, d));
    }
    let want = last_write(m.block_entries(), Section::DocPl, k);
    let fresh = last_write(block_writes(l.name, l.token, l.features, new), Section::DocPl, k);
    let old = last_write(l.block_entries(), Section::DocPl, k);
    assert(shows(l.store.docpl, l.key(d), old));
    if want is Some {
        let i = choose|i: int|
            0 <= i < all.len() && (#[trigger] all[i]).docids[0] == d && want == Some(
                all[i].spec_encode(l.features),
            );
        if i < n {
            assert(all[i] == kept[i]);
            assert(l.blocks()[i] == kept[i]);
            assert(fresh is None) by {
                assert forall|j: int| 0 <= j < new.len() implies (#[trigger] new[j]).docids[0]
                    != d by {
                    assert(all[n + j] == new[j]);
                }
            }
            let j = choose|j: int|
                0 <= j < l.blocks().len() && (#[trigger] l.blocks()[j]).docids[0] == d && old
                    == Some(l.blocks()[j].spec_encode(l.features));
            if i < j {
                assert(l.blocks()[i].docids[0] < l.blocks()[j].docids[0]);
            } else if j < i {
                assert(l.blocks()[j].docids[0] < l.blocks()[i].docids[0]);
            }
        } else {
            assert(all[i] == new[i - n]);
            let j = choose|j: int|
                0 <= j < new.len() && (#[trigger] new[j]).docids[0] == d && fresh == Some(
                    new[j].spec_encode(l.features),
                );
            assert(all[n + j] == new[j]);
            if i < n + j {
                assert(all[i].docids[0] < all[n + j].docids[0]);
            } else if n + j < i {
                assert(all[n + j].docids[0] < all[i].docids[0]);
            }
        }
    } else {
        assert forall|j: int| 0 <= j < new.len() implies (#[trigger] new[j]).docids[0] != d by {
            assert(all[n + j] == new[j]);
        }
        assert forall|j: int| 0 <= j < l.blocks().len() implies (#[trigger] l.blocks()[j]).docids[0]
            != d by {
            if j < n {
                assert(all[j] == kept[j]);
                assert(kept[j] == l.blocks()[j]);
            } else {
                assert(new[0].docids[0] != d);
            }
        }
        assert(fresh is None);
        assert(old is None);
    }
}

/// The statistics that an append writes are those of the longer list.
proof fn lemma_stats_written(
    l: StoredList,
    reply: Option<EntryView>,
    start: DocId,
    list: Seq<LocalPosting>,
    m: StoredList,
)
    requires
        l.held(),
        l.store.answers(
            QueryView::Get { section: Section::Stats, key: spec_stats_key(l.name, l.token) },
            reply,
        ),
        list.len() > 0,
        m == appended(l, m.store, start, list),
    ensures
        new_stats(stats_in(reply), start, list) == m.list_stats(),
{
    lemma_stats_read(l, reply);
    lemma_occurrences_parts(l.list, new_postings(start, list));
    lemma_occurrences_new(start, list);
    if l.list.len() == 1 {
        reveal_with_fuel(occurrences, 2);
        assert(l.list.drop_last() =~= seq![]);
    }
    if m.list.len() == 1 {
        assert(new_postings(start, list)[0] == m.list[0]);
    }
}

/// With the blocks of the longer list, the writes for a token write it out.
pub(crate) proof fn lemma_written_after(
    l: StoredList,
    v: AppendView,
    end: u32,
    reply: Option<EntryView>,
    before: FieldStore,
    kept: Seq<BlockView>,
    new: Seq<BlockView>,
)
    requires
        l.written_out(),
        stands_at(v, l),
        appendable(l, v.start, v.list(), end),
        l.store.answers(
            QueryView::Get { section: Section::Stats, key: spec_stats_key(l.name, l.token) },
            reply,
        ),
        agree(before, l.store, l.name, l.token),
        appended(l, l.store, v.start, v.list()).blocks() == kept + new,
        l.blocks().len() == kept.len() || (l.blocks().len() == kept.len() + 1 && new.len() > 0
            && l.blocks()[kept.len() as int].docids[0] == new[0].docids[0]),
        forall|i: int| 0 <= i < kept.len() ==> #[trigger] kept[i] == l.blocks()[i],
    ensures
        appended(l, before.put_all(token_writes(v, reply, new)), v.start, v.list()).written_out(),
{
    let list = v.list();
    let writes = token_writes(v, reply, new);
    let m = appended(l, before.put_all(writes), v.start, list);
    let blocks = block_writes(l.name, l.token, l.features, new);
    let positions = v.positions_part();
    let stats_key = spec_stats_key(l.name, l.token);
    let stats = writes[0];
    assert(writes =~= seq![stats] + blocks + positions);
    lemma_written_out_held(l);
    lemma_shows_entries(l);
    lemma_appended_sensible(l, v.start, list, end, m);
    lemma_stats_written(l, reply, v.start, list, m);
    lemma_writes_by_section(stats, blocks, positions, Section::Stats, stats_key);
    lemma_put_all_at(before, writes, Section::Stats, stats_key);
    if l.list.len() >= 2 {
        lemma_blocks(l);
    }
    if m.list.len() >= 2 {
        lemma_blocks(m);
    }
    assert forall|d: DocId|
        shows(
            m.store.docpl,
            #[trigger] m.key(d),
            last_write(m.block_entries(), Section::DocPl, m.key(d)),
        ) by {
        lemma_writes_by_section(stats, blocks, positions, Section::DocPl, l.key(d));
        lemma_blocks_written(l, before, writes, m, kept, new, d);
    }
    assert forall|d: DocId|
        shows(
            m.store.pospl,
            #[trigger] spec_pospl_key(m.name, d, m.token),
            last_write(
                m.position_entries(),
                Section::PosPl,
                spec_pospl_key(m.name, d, m.token),
            ),
        ) by {
        let k = spec_pospl_key(l.name, d, l.token);
        lemma_writes_by_section(stats, blocks, positions, Section::PosPl, k);
        lemma_put_all_at(before, writes, Section::PosPl, k);
        assert(same_at(before.pospl, l.store.pospl, k));
        assert(shows(
            l.store.pospl,
            k,
            last_write(l.position_entries(), Section::PosPl, k),
        ));
        if l.features is WithPositions {
            assert(m.position_entries() =~= l.position_entries() + positions);
            lemma_last_write_parts(l.position_entries(), positions, Section::PosPl, k);
        } else {
            lemma_not_written(positions, Section::PosPl, k);
        }
    }
    assert(shows_entries(m));
    lemma_shows_entries(m);
    assert forall|i: int| 0 <= i < m.list.len() implies positions_ascend(
        (#[trigger] m.list[i]).positions,
    ) by {
        if i < l.list.len() {
            assert(m.list[i] == l.list[i]);
        } else {
            assert(fits_field(list[i - l.list.len()], l.features));
        }
    }
    assert(m.within_limits()) by {
        assert(within_limits(l, v.start, list));
    }
}

/// A list is written out wherever the entries of its token are the same.
pub(crate) proof fn lemma_written_out_elsewhere(l: StoredList, m: StoredList)
    requires
        l.written_out(),
        agree(m.store, l.store, l.name, l.token),
        m == (StoredList { store: m.store, ..l }),
    ensures
        m.written_out(),
{
    let out = empty_store().put_all(l.entries());
    assert forall|d: DocId| same_at(
        m.store.docpl,
        out.docpl,
        #[trigger] spec_pl_key(l.name, l.token, d),
    ) by {
        assert(same_at(m.store.docpl, l.store.docpl, spec_pl_key(l.name, l.token, d)));
    }
    assert forall|d: DocId| same_at(
        m.store.pospl,
        out.pospl,
        #[trigger] spec_pospl_key(l.name, d, l.token),
    ) by {
        assert(same_at(m.store.pospl, l.store.pospl, spec_pospl_key(l.name, d, l.token)));
    }
}

/// A token that gets no blocks is written out.
pub(crate) proof fn lemma_single_written(
    l: StoredList,
    v: AppendView,
    end: u32,
    reply: Option<EntryView>,
    before: FieldStore,
)
    requires
        l.written_out(),
        stands_at(v, l),
        appendable(l, v.start, v.list(), end),
        l.store.answers(
            QueryView::Get { section: Section::Stats, key: spec_stats_key(l.name, l.token) },
            reply,
        ),
        agree(before, l.store, l.name, l.token),
        l.list.len() + v.list().len() == 1,
    ensures
        appended(
            l,
            before.put_all(token_writes(v, reply, seq![])),
            v.start,
            v.list(),
        ).written_out(),
{
    let none = Seq::<BlockView>::empty();
    assert(none + none =~= none);
    lemma_written_after(l, v, end, reply, before, none, none);
}

/// A token that gets blocks is written out.
pub(crate) proof fn lemma_blocks_written_after(
    l: StoredList,
    v: AppendView,
    end: u32,
    reply: Option<EntryView>,
    before: FieldStore,
    block: BlockView,
    new: Seq<BlockView>,
)
    requires
        l.written_out(),
        stands_at(v, l),
        appendable(l, v.start, v.list(), end),
        l.store.answers(
            QueryView::Get { section: Section::Stats, key: spec_stats_key(l.name, l.token) },
            reply,
        ),
        agree(before, l.store, l.name, l.token),
        l.list.len() + v.list().len() >= 2,
        l.list.len() <= 1 ==> {
            &&& block == list_block(l.list).plus(placed(v.start, v.list()))
            &&& new == chunks(block)
        },
        l.list.len() >= 2 ==> {
            &&& block == placed(v.start, v.list())
            &&& new == seq![filled(l.cuts().last(), block)] + chunks(
                left_over(l.cuts().last(), block),
            )
        },
    ensures
        appended(l, before.put_all(token_writes(v, reply, new)), v.start, v.list()).written_out(),
{
    let m = appended(l, l.store, v.start, v.list());
    lemma_appended_sensible(l, v.start, v.list(), end, m);
    if l.list.len() <= 1 {
        let none = Seq::<BlockView>::empty();
        assert(none + new =~= new);
        lemma_written_after(l, v, end, reply, before, none, new);
    } else {
        lemma_written_out_held(l);
        lemma_blocks(l);
        let kept = l.blocks().drop_last();
        assert(l.cut_into(l.cuts()));
        lemma_last_cut(l, l.cuts(), l.blocks());
        lemma_chunks_grow(list_block(l.list), block);
        lemma_filled_cuts(l.blocks(), block);
        lemma_written_after(l, v, end, reply, before, kept, new);
    }
}

} // verus!
