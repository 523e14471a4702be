//! What an append does with the postings of a token, posting by posting.
use crate::append::{
    block_writes, chunks, doc_pl_writes, filled, fits_in, left_over, new_block, new_stats, total_tf,
    AppendError, AppendView,
};
use crate::append_law::FieldLists;
use crate::block::{ascending, BlockView};
use crate::bytes::be_bytes;
use crate::features::TokenFieldFeatures;
use crate::field::{spec_pospl_key, spec_stats_key, Section};
use crate::positions::{position_steps, positions_from};
use crate::stats::{DocId, TokenStats};
use crate::store::{EntryView, QueryView, WriteView};
use crate::stored_list::{docids_of, occurrences, Posting, StoredList};
use crate::token_append::new_postings;
use crate::token_map::LocalPosting;
use crate::varint::leb128_all;
use vstd::prelude::*;

verus! {

/// Occurrences are counted posting by posting.
pub proof fn law_occurrences(list: Seq<LocalPosting>, p: LocalPosting, held: Seq<Posting>, q: Posting)
    ensures
        total_tf(seq![]) == 0,
        total_tf(list.push(p)) == total_tf(list) + p.tf,
        occurrences(seq![]) == 0,
        occurrences(held.push(q)) == occurrences(held) + q.tf,
{
    assert(list.push(p).drop_last() =~= list);
    assert(held.push(q).drop_last() =~= held);
}

/// A token that is new and in one document has that document in its statistics; any other has
/// the number of documents and of occurrences, those of before and the new ones.
pub proof fn law_new_stats(start: DocId, list: Seq<LocalPosting>, d: u64, n: u64)
    requires
        list.len() >= 1,
        start + list[0].doc <= u64::MAX,
        total_tf(list) + n <= u64::MAX,
    ensures
        list.len() == 1 ==> new_stats(None, start, list) == (TokenStats::SingleHit {
            docid: (start + list[0].doc) as u64,
            term_frequency: list[0].tf as u64,
        }),
        list.len() > 1 ==> new_stats(None, start, list) == (TokenStats::MultiHit {
            doc_frequency: list.len() as u64,
            term_frequency: total_tf(list) as u64,
        }),
        list.len() < u64::MAX ==> new_stats(
            Some(TokenStats::SingleHit { docid: d, term_frequency: n }),
            start,
            list,
        ) == (TokenStats::MultiHit {
            doc_frequency: (1 + list.len()) as u64,
            term_frequency: (n + total_tf(list)) as u64,
        }),
        list.len() + d <= u64::MAX ==> new_stats(
            Some(TokenStats::MultiHit { doc_frequency: d, term_frequency: n }),
            start,
            list,
        ) == (TokenStats::MultiHit {
            doc_frequency: (d + list.len()) as u64,
            term_frequency: (n + total_tf(list)) as u64,
        }),
{
}

/// A token that is new and in one document gets no block. Otherwise the documents of the buffer,
/// counted on from the first, go into blocks, each with its term frequency; the document that the
/// statistics held goes before them.
pub proof fn law_new_block(start: DocId, list: Seq<LocalPosting>, d: u64, n: u64)
    requires
        list.len() >= 1,
        forall|i: int| 0 <= i < list.len() ==> start + (#[trigger] list[i]).doc <= u64::MAX,
    ensures
        list.len() == 1 ==> new_block(None, start, list).docids.len() == 0,
        forall|old: Option<TokenStats>|
            (old matches Some(s) && s == (TokenStats::MultiHit {
                doc_frequency: d,
                term_frequency: n,
            })) || (old is None && list.len() > 1) ==> {
                let b = #[trigger] new_block(old, start, list);
                &&& b.docids.len() == list.len()
                &&& b.term_frequencies.len() == list.len()
                &&& forall|i: int|
                    0 <= i < list.len() ==> b.docids[i] == start + (#[trigger] list[i]).doc
                        && b.term_frequencies[i] == list[i].tf
            },
        ({
            let b = new_block(
                Some(TokenStats::SingleHit { docid: d, term_frequency: n }),
                start,
                list,
            );
            &&& b.docids.len() == list.len() + 1
            &&& b.term_frequencies.len() == list.len() + 1
            &&& b.docids[0] == d
            &&& b.term_frequencies[0] == n as u32
            &&& forall|i: int|
                0 <= i < list.len() ==> b.docids[i + 1] == start + (#[trigger] list[i]).doc
                    && b.term_frequencies[i + 1] == list[i].tf
        }),
{
}

/// A run of documents is cut into blocks of 256 and one with the rest.
pub proof fn law_chunks(b: BlockView)
    requires
        b.docids.len() == b.term_frequencies.len(),
    ensures
        b.docids.len() <= 256 * chunks(b).len() < b.docids.len() + 256,
        forall|i: int|
            0 <= i < chunks(b).len() ==> {
                let c = #[trigger] chunks(b)[i];
                &&& c.docids.len() == (if b.docids.len() - 256 * i >= 256 {
                    256
                } else {
                    b.docids.len() - 256 * i
                })
                &&& c.docids.len() == c.term_frequencies.len()
                &&& forall|j: int|
                    0 <= j < c.docids.len() ==> #[trigger] c.docids[j] == b.docids[256 * i + j]
                        && c.term_frequencies[j] == b.term_frequencies[256 * i + j]
            },
    decreases b.docids.len(),
{
    if b.docids.len() > 256 {
        let rest = b.skip(256);
        law_chunks(rest);
        assert forall|i: int| 0 <= i < chunks(b).len() implies {
            let c = #[trigger] chunks(b)[i];
            &&& c.docids.len() == (if b.docids.len() - 256 * i >= 256 {
                256
            } else {
                b.docids.len() - 256 * i
            })
            &&& c.docids.len() == c.term_frequencies.len()
            &&& forall|j: int|
                0 <= j < c.docids.len() ==> #[trigger] c.docids[j] == b.docids[256 * i + j]
                    && c.term_frequencies[j] == b.term_frequencies[256 * i + j]
        } by {
            if i > 0 {
                let c = chunks(rest)[i - 1];
                assert(chunks(b)[i] == c);
                assert forall|j: int| 0 <= j < c.docids.len() implies #[trigger] c.docids[j]
                    == b.docids[256 * i + j] && c.term_frequencies[j] == b.term_frequencies[256 * i
                    + j] by {
                    assert(c.docids[j] == rest.docids[256 * (i - 1) + j]);
                }
            }
        }
    }
}

/// Documents that are put at the end of a list without blocks are written in blocks of 256 and one
/// with the rest, each under its first document, if the documents of each ascend.
pub proof fn law_first_blocks(
    name: Seq<u8>,
    token: Seq<u8>,
    features: TokenFieldFeatures,
    block: BlockView,
) -> (blocks: Seq<BlockView>)
    requires
        block.docids.len() >= 1,
        block.docids.len() == block.term_frequencies.len(),
    ensures
        block.docids.len() <= 256 * blocks.len() < block.docids.len() + 256,
        forall|i: int|
            0 <= i < blocks.len() ==> {
                let c = #[trigger] blocks[i];
                &&& c.docids.len() == (if block.docids.len() - 256 * i >= 256 {
                    256
                } else {
                    block.docids.len() - 256 * i
                })
                &&& c.docids.len() == c.term_frequencies.len()
                &&& forall|j: int|
                    0 <= j < c.docids.len() ==> #[trigger] c.docids[j] == block.docids[256 * i + j]
                        && c.term_frequencies[j] == block.term_frequencies[256 * i + j]
            },
        match doc_pl_writes(name, token, features, block, None) {
            Ok(writes) => {
                &&& forall|i: int, j: int, k: int|
                    0 <= i < blocks.len() && 0 <= j <= k < blocks[i].docids.len()
                        ==> #[trigger] blocks[i].docids[j] <= #[trigger] blocks[i].docids[k]
                &&& writes.len() == blocks.len()
                &&& forall|i: int|
                    0 <= i < blocks.len() ==> {
                        let w = #[trigger] writes[i];
                        &&& w.section == Section::DocPl
                        &&& w.key == name + seq![58u8] + token + seq![58u8] + be_bytes(
                            blocks[i].docids[0],
                        )
                        &&& w.value == blocks[i].spec_encode(features)
                    }
            },
            Err(e) => {
                &&& e == AppendError::OutOfOrder
                &&& exists|i: int, j: int, k: int|
                    0 <= i < blocks.len() && 0 <= j <= k < blocks[i].docids.len()
                        && #[trigger] blocks[i].docids[j] > #[trigger] blocks[i].docids[k]
            },
        },
{
    law_chunks(block);
    chunks(block)
}

/// Documents that are put at the end of a list go into its last block as long as that has fewer
/// than 256 documents, and then into blocks of 256 and one with the rest. The last block stays
/// under its key; each other is written under its first document. They are written if the documents
/// of each ascend.
pub proof fn law_further_blocks(
    name: Seq<u8>,
    token: Seq<u8>,
    features: TokenFieldFeatures,
    block: BlockView,
    e: EntryView,
    last: BlockView,
) -> (r: (BlockView, Seq<BlockView>))
    requires
        block.docids.len() >= 1,
        block.docids.len() == block.term_frequencies.len(),
        BlockView::spec_decode(e.key, e.value, features) == Some(last),
        last.docids.len() == last.term_frequencies.len(),
    ensures
        ({
            let whole = last.docids + block.docids;
            let tfs = last.term_frequencies + block.term_frequencies;
            let n = r.0.docids.len();
            &&& last.docids.len() >= 256 ==> n == last.docids.len()
            &&& last.docids.len() < 256 && whole.len() >= 256 ==> n == 256
            &&& whole.len() < 256 ==> n == whole.len()
            &&& r.0.term_frequencies.len() == n
            &&& forall|j: int|
                0 <= j < n ==> #[trigger] r.0.docids[j] == whole[j] && r.0.term_frequencies[j]
                    == tfs[j]
            &&& whole.len() - n <= 256 * r.1.len() < whole.len() - n + 256
            &&& forall|i: int|
                0 <= i < r.1.len() ==> {
                    let c = #[trigger] r.1[i];
                    &&& c.docids.len() == (if whole.len() - n - 256 * i >= 256 {
                        256
                    } else {
                        whole.len() - n - 256 * i
                    })
                    &&& c.docids.len() == c.term_frequencies.len()
                    &&& forall|j: int|
                        0 <= j < c.docids.len() ==> #[trigger] c.docids[j] == whole[n + 256 * i + j]
                            && c.term_frequencies[j] == tfs[n + 256 * i + j]
                }
        }),
        match doc_pl_writes(name, token, features, block, Some(e)) {
            Ok(writes) => {
                &&& forall|j: int, k: int|
                    0 <= j <= k < r.0.docids.len() ==> r.0.docids[j] <= r.0.docids[k]
                &&& forall|i: int, j: int, k: int|
                    0 <= i < r.1.len() && 0 <= j <= k < r.1[i].docids.len()
                        ==> #[trigger] r.1[i].docids[j] <= #[trigger] r.1[i].docids[k]
                &&& writes.len() == r.1.len() + 1
                &&& writes[0] == (WriteView {
                    section: Section::DocPl,
                    key: e.key,
                    value: r.0.spec_encode(features),
                })
                &&& forall|i: int|
                    0 <= i < r.1.len() ==> {
                        let w = #[trigger] writes[i + 1];
                        &&& w.section == Section::DocPl
                        &&& w.key == name + seq![58u8] + token + seq![58u8] + be_bytes(
                            r.1[i].docids[0],
                        )
                        &&& w.value == r.1[i].spec_encode(features)
                    }
            },
            Err(error) => {
                &&& error == AppendError::OutOfOrder
                &&& (exists|j: int, k: int|
                    0 <= j <= k < r.0.docids.len() && r.0.docids[j] > r.0.docids[k]) || (exists|
                    i: int,
                    j: int,
                    k: int,
                |
                    0 <= i < r.1.len() && 0 <= j <= k < r.1[i].docids.len()
                        && #[trigger] r.1[i].docids[j] > #[trigger] r.1[i].docids[k])
            },
        },
{
    let rest = left_over(last, block);
    let n = filled(last, block).docids.len();
    let whole = last.docids + block.docids;
    let tfs = last.term_frequencies + block.term_frequencies;
    let k = fits_in(last, block);
    let first = filled(last, block);
    law_chunks(rest);
    let more = chunks(rest);
    assert(n == last.docids.len() + k);
    assert(rest.docids.len() == whole.len() - n);
    assert forall|j: int| 0 <= j < rest.docids.len() implies #[trigger] rest.docids[j] == whole[n + j]
        && rest.term_frequencies[j] == tfs[n + j] by {
        assert(rest.docids[j] == block.docids[k + j]);
    }
    assert forall|i: int| 0 <= i < more.len() implies {
        let c = #[trigger] more[i];
        &&& c.docids.len() == (if whole.len() - n - 256 * i >= 256 {
            256
        } else {
            whole.len() - n - 256 * i
        })
        &&& c.docids.len() == c.term_frequencies.len()
        &&& forall|j: int|
            0 <= j < c.docids.len() ==> #[trigger] c.docids[j] == whole[n + 256 * i + j]
                && c.term_frequencies[j] == tfs[n + 256 * i + j]
    } by {
        let c = more[i];
        assert(c == chunks(rest)[i]);
        assert(c.docids.len() == c.term_frequencies.len());
        assert forall|j: int| 0 <= j < c.docids.len() implies #[trigger] c.docids[j] == whole[n
            + 256 * i + j] && c.term_frequencies[j] == tfs[n + 256 * i + j] by {
            assert(c.docids[j] == rest.docids[256 * i + j]);
        }
    }
    let writes = block_writes(name, token, features, more);
    assert forall|j: int| 0 <= j < n implies #[trigger] first.docids[j] == whole[j]
        && first.term_frequencies[j] == tfs[j] by {
    }
    match doc_pl_writes(name, token, features, block, Some(e)) {
        Ok(all) => {
            assert(all.len() == more.len() + 1);
            assert(all[0].key == e.key);
            assert forall|i: int, j: int, k: int|
                0 <= i < more.len() && 0 <= j <= k < more[i].docids.len() implies #[trigger] more[i].docids[j]
                <= #[trigger] more[i].docids[k] by {
                assert(ascending(more[i].docids));
            }
            assert(forall|j: int, k: int|
                0 <= j <= k < first.docids.len() ==> first.docids[j] <= first.docids[k]);
            assert forall|i: int| 0 <= i < more.len() implies {
                let w = #[trigger] all[i + 1];
                &&& w.section == Section::DocPl
                &&& w.key == name + seq![58u8] + token + seq![58u8] + be_bytes(more[i].docids[0])
                &&& w.value == more[i].spec_encode(features)
            } by {
                assert(all[i + 1] == writes[i]);
            }
        },
        Err(error) => {
            assert(error == AppendError::OutOfOrder);
            if ascending(first.docids) {
                let i = choose|i: int|
                    0 <= i < more.len() && !ascending((#[trigger] more[i]).docids);
                assert(!ascending(more[i].docids));
            }
        },
    }
    (first, more)
}

/// Nothing is written where there is no document to put at the end of a list, and a last block
/// that cannot be read is an error.
pub proof fn law_no_blocks(
    name: Seq<u8>,
    token: Seq<u8>,
    features: TokenFieldFeatures,
    block: BlockView,
    reply: Option<EntryView>,
)
    ensures
        block.docids.len() == 0 ==> doc_pl_writes(name, token, features, block, reply) == Ok::<
            Seq<WriteView>,
            AppendError,
        >(seq![]),
        block.docids.len() > 0 && (reply matches Some(e) && BlockView::spec_decode(
            e.key,
            e.value,
            features,
        ) is None) ==> doc_pl_writes(name, token, features, block, reply) == Err::<
            Seq<WriteView>,
            AppendError,
        >(AppendError::BadBlock),
{
}

/// An append reads the statistics of each token, and, where documents go into its blocks, the last
/// of these up to the first of the documents. It is done when it has come past the last token.
pub proof fn law_append_reads(v: AppendView)
    ensures
        v.at >= v.rep.token_count() ==> v.query() is None,
        v.at < v.rep.token_count() && v.block is None ==> v.query() == Some(
            QueryView::Get {
                section: Section::Stats,
                key: v.name + seq![58u8] + v.rep.token_at(v.at),
            },
        ),
        v.at < v.rep.token_count() && v.block is Some ==> v.query() == Some(
            QueryView::Last {
                section: Section::DocPl,
                lo: v.name + seq![58u8] + v.rep.token_at(v.at) + seq![58u8] + be_bytes(0),
                hi: v.name + seq![58u8] + v.rep.token_at(v.at) + seq![58u8] + be_bytes(
                    v.block.unwrap().docids[0],
                ),
            },
        ),
{
}

/// The positions of a token are written document by document, where they are recorded.
proof fn lemma_positions_part(v: AppendView)
    ensures
        !(v.rep.features() is WithPositions) ==> v.positions_part().len() == 0,
        v.rep.features() is WithPositions ==> {
            let list = v.rep.list(v.rep.token_at(v.at));
            &&& v.positions_part().len() == list.len()
            &&& forall|i: int|
                0 <= i < list.len() ==> #[trigger] v.positions_part()[i] == (WriteView {
                    section: Section::PosPl,
                    key: be_bytes((v.start + list[i].doc) as u64) + seq![58u8] + v.name + seq![58u8]
                        + v.rep.token_at(v.at),
                    value: leb128_all(position_steps(0, list[i].positions)),
                })
        },
{
}

/// Given the statistics of a token (an entry that cannot be read counts as none), an append writes
/// the new ones, unless the occurrences would not fit. With them go the positions of a token that
/// gets no block; for any other the append stays to write the blocks.
pub proof fn law_stats_step(v: AppendView, reply: Option<EntryView>, old: Option<TokenStats>)
    requires
        v.block is None,
        reply is None ==> old is None,
        reply matches Some(e) ==> old == TokenStats::spec_decode(e.value),
        v.rep.list(v.rep.token_at(v.at)).len() >= 1,
    ensures
        ({
            let list = v.rep.list(v.rep.token_at(v.at));
            let single = old is None && list.len() == 1;
            let before = match old {
                None => 0,
                Some(TokenStats::SingleHit { docid, term_frequency }) => term_frequency as int,
                Some(TokenStats::MultiHit { doc_frequency, term_frequency }) => term_frequency as int,
            };
            let stats = WriteView {
                section: Section::Stats,
                key: v.name + seq![58u8] + v.rep.token_at(v.at),
                value: new_stats(old, v.start, list).spec_encode(),
            };
            match v.step(reply) {
                Err(e) => {
                    &&& e == AppendError::TermFrequencyOverflow
                    &&& !single && before + total_tf(list) > u64::MAX
                },
                Ok((v2, writes)) => {
                    &&& single || before + total_tf(list) <= u64::MAX
                    &&& writes.len() >= 1 && writes[0] == stats
                    &&& v2.name == v.name && v2.features == v.features && v2.start == v.start
                        && v2.rep == v.rep
                    &&& !single ==> {
                        &&& writes.len() == 1
                        &&& v2.at == v.at
                        &&& v2.block == Some(new_block(old, v.start, list))
                    }
                    &&& single ==> {
                        &&& v2.at == v.at + 1 && v2.block is None
                        &&& !(v.rep.features() is WithPositions) ==> writes.len() == 1
                        &&& v.rep.features() is WithPositions ==> writes.len() == 2 && writes[1]
                            == (WriteView {
                            section: Section::PosPl,
                            key: be_bytes((v.start + list[0].doc) as u64) + seq![58u8] + v.name
                                + seq![58u8] + v.rep.token_at(v.at),
                            value: leb128_all(position_steps(0, list[0].positions)),
                        })
                    }
                },
            }
        }),
{
    lemma_positions_part(v);
}

/// Given the last block of a token, an append writes the blocks and the positions, and goes on to
/// the next token. It fails as writing the blocks does.
pub proof fn law_blocks_step(v: AppendView, block: BlockView, reply: Option<EntryView>)
    requires
        v.block == Some(block),
    ensures
        ({
            let token = v.rep.token_at(v.at);
            let list = v.rep.list(token);
            match (doc_pl_writes(v.name, token, v.features, block, reply), v.step(reply)) {
                (Err(e), Err(error)) => e == error,
                (Ok(blocks), Ok((v2, writes))) => {
                    &&& v2.name == v.name && v2.features == v.features && v2.start == v.start
                        && v2.rep == v.rep
                    &&& v2.at == v.at + 1 && v2.block is None
                    &&& writes.take(blocks.len() as int) == blocks
                    &&& !(v.rep.features() is WithPositions) ==> writes.len() == blocks.len()
                    &&& v.rep.features() is WithPositions ==> {
                        &&& writes.len() == blocks.len() + list.len()
                        &&& forall|i: int|
                            0 <= i < list.len() ==> writes[blocks.len() + i] == (WriteView {
                                section: Section::PosPl,
                                key: be_bytes((v.start + (#[trigger] list[i]).doc) as u64)
                                    + seq![58u8] + v.name + seq![58u8] + token,
                                value: leb128_all(position_steps(0, list[i].positions)),
                            })
                    }
                },
                _ => false,
            }
        }),
{
    lemma_positions_part(v);
    if let Ok(blocks) = doc_pl_writes(v.name, v.token(), v.features, block, reply) {
        let writes = blocks + v.positions_part();
        assert(writes.take(blocks.len() as int) =~= blocks);
        let list = v.rep.list(v.rep.token_at(v.at));
        if v.rep.features() is WithPositions {
            assert forall|i: int| 0 <= i < list.len() implies writes[blocks.len() + i] == (WriteView {
                section: Section::PosPl,
                key: be_bytes((v.start + (#[trigger] list[i]).doc) as u64) + seq![58u8] + v.name
                    + seq![58u8] + v.rep.token_at(v.at),
                value: leb128_all(position_steps(0, list[i].positions)),
            }) by {
                assert(writes[blocks.len() + i] == v.positions_part()[i]);
            }
        }
    }
}

/// After an append the list of a token is the one that it was, and behind it each posting of the
/// buffer, with its document counted on from the first free one.
pub proof fn law_longer_lists(f: FieldLists, v: AppendView, writes: Seq<WriteView>, token: Seq<u8>)
    ensures
        ({
            let before = (f.lists)(token);
            let added = v.rep.list(token);
            let l = f.after(v, writes).at(token);
            &&& l.store == f.store.put_all(writes)
            &&& l.name == f.name
            &&& l.features == f.features
            &&& l.token == token
            &&& l.list.len() == before.len() + added.len()
            &&& forall|i: int| 0 <= i < before.len() ==> l.list[i] == #[trigger] before[i]
            &&& forall|i: int|
                0 <= i < added.len() && v.start + (#[trigger] added[i]).doc <= u64::MAX ==> {
                    let p = l.list[before.len() + i];
                    &&& p.doc == v.start + added[i].doc
                    &&& p.tf == added[i].tf
                    &&& p.positions == added[i].positions
                }
        }),
{
    let before = (f.lists)(token);
    let added = v.rep.list(token);
    let l = f.after(v, writes).at(token);
    assert(l.list == before + new_postings(v.start, added));
}

/// A list in the store has an entry of statistics just if it has a posting: the document of its only
/// posting and how often the token occurs in it, or how many postings and occurrences there are.
pub proof fn law_held_stats(l: StoredList)
    requires
        l.held(),
    ensures
        ({
            let key = l.name + seq![58u8] + l.token;
            let entry = TokenStats::spec_decode(l.store.stats[key]);
            &&& l.store.stats.contains_key(key) <==> l.list.len() > 0
            &&& l.list.len() == 1 ==> entry == Some(
                TokenStats::SingleHit {
                    docid: l.list[0].doc,
                    term_frequency: l.list[0].tf as u64,
                },
            )
            &&& l.list.len() >= 2 ==> l.list.len() <= u64::MAX && occurrences(l.list) <= u64::MAX
                && entry == Some(
                TokenStats::MultiHit {
                    doc_frequency: l.list.len() as u64,
                    term_frequency: occurrences(l.list) as u64,
                },
            )
        }),
{
    reveal(StoredList::stats_held);
    assert(spec_stats_key(l.name, l.token) =~= l.name + seq![58u8] + l.token);
}

/// Each posting of a list in the store has its positions under its document, where the field records
/// them, and the postings stand in the order of their documents.
pub proof fn law_held_positions(l: StoredList, i: int)
    requires
        l.held(),
        0 <= i < l.list.len(),
    ensures
        l.features is WithPositions ==> {
            let key = be_bytes(l.list[i].doc) + seq![58u8] + l.name + seq![58u8] + l.token;
            &&& l.store.pospl.contains_key(key)
            &&& positions_from(0, l.store.pospl[key]) == Some(l.list[i].positions)
            &&& l.list[i].tf == l.list[i].positions.len() as u32
        },
        l.features is Doc ==> l.list[i].tf == 1,
        i + 1 < l.list.len() ==> l.list[i].doc < l.list[i + 1].doc,
{
    reveal(StoredList::positions_held);
    let key = be_bytes(l.list[i].doc) + seq![58u8] + l.name + seq![58u8] + l.token;
    assert(spec_pospl_key(l.name, l.list[i].doc, l.token) =~= key);
    if i + 1 < l.list.len() {
        let docids = docids_of(l.list);
        assert(docids[i] < docids[i + 1]);
    }
}

} // verus!
