//! Appending a buffer to a field: which entries are read, and what is written for them.
use crate::block::{
    ascending, is_ascending, lemma_decoded_block, BlockView, DocPostingBlock, MAX_PL_BLOCK_SIZE,
};
use crate::buffer::{in_doc_order, lemma_in_doc_order_len, TokenIndexBuffer, TokenIndexBufferRep};
use crate::features::TokenFieldFeatures;
use crate::field::{spec_pl_key, spec_pospl_key, spec_stats_key, Section, TokenFieldIndex};
use crate::positions::{encode_positions, position_steps, positions_ascend};
use crate::stats::{DocId, TokenStats};
use crate::store::{
    lemma_writes_push, reply_view, writes_view, Entry, EntryView, Query, QueryView, Write, WriteView,
};
use crate::token_map::{models, Hit, LocalPosting};
use crate::varint::leb128_all;
use vstd::prelude::*;
use vstd::slice::slice_to_vec;

verus! {

/// Why an entry of the store cannot be appended to.
#[derive(Debug, Copy, Clone, PartialEq, Eq, Structural)]
pub enum AppendError {
    /// The occurrences of a token would not fit in 64 bits.
    TermFrequencyOverflow,
    /// The last block of a token cannot be decoded.
    BadBlock,
    /// A block would hold documents that do not ascend: the new documents are not all unused.
    OutOfOrder,
}

/// The statistics in the answer to a read. An entry that cannot be decoded counts as none.
pub open spec fn stats_in(reply: Option<EntryView>) -> Option<TokenStats> {
    match reply {
        Some(e) => TokenStats::spec_decode(e.value),
        None => None,
    }
}

/// Buffered postings as a block, with the documents counted from `start`.
pub open spec fn placed(start: DocId, list: Seq<LocalPosting>) -> BlockView {
    BlockView {
        docids: Seq::new(list.len(), |i: int| (start + list[i].doc) as u64),
        term_frequencies: Seq::new(list.len(), |i: int| list[i].tf),
    }
}

/// The number of occurrences in a list.
pub open spec fn total_tf(list: Seq<LocalPosting>) -> nat
    decreases list.len(),
{
    if list.len() == 0 {
        0
    } else {
        total_tf(list.drop_last()) + list.last().tf as nat
    }
}

/// A token that is new and occurs in one document gets no posting list.
pub open spec fn is_single(old: Option<TokenStats>, list: Seq<LocalPosting>) -> bool {
    list.len() == 1 && old is None
}

/// The number of occurrences after the append.
pub open spec fn summed_tf(old: Option<TokenStats>, list: Seq<LocalPosting>) -> nat {
    match old {
        Some(s) => s.spec_term_frequency() as nat + total_tf(list),
        None => total_tf(list),
    }
}

/// The number of documents after the append.
pub open spec fn summed_df(old: Option<TokenStats>, list: Seq<LocalPosting>) -> nat {
    match old {
        Some(s) => s.spec_doc_frequency() as nat + list.len(),
        None => list.len(),
    }
}

/// The statistics of a token after the append.
pub open spec fn new_stats(
    old: Option<TokenStats>,
    start: DocId,
    list: Seq<LocalPosting>,
) -> TokenStats {
    if is_single(old, list) {
        TokenStats::SingleHit {
            docid: (start + list[0].doc) as u64,
            term_frequency: list[0].tf as u64,
        }
    } else {
        TokenStats::MultiHit {
            doc_frequency: summed_df(old, list) as u64,
            term_frequency: summed_tf(old, list) as u64,
        }
    }
}

/// The posting that the statistics held in place of a list.
pub open spec fn carried(old: Option<TokenStats>) -> BlockView {
    match old {
        Some(TokenStats::SingleHit { docid, term_frequency }) => BlockView {
            docids: seq![docid],
            term_frequencies: seq![term_frequency as u32],
        },
        _ => BlockView { docids: seq![], term_frequencies: seq![] },
    }
}

/// What goes to the posting list of a token: nothing for a single hit, else the posting that the
/// statistics held and the new ones.
pub open spec fn new_block(
    old: Option<TokenStats>,
    start: DocId,
    list: Seq<LocalPosting>,
) -> BlockView {
    if is_single(old, list) {
        BlockView { docids: seq![], term_frequencies: seq![] }
    } else {
        carried(old).plus(placed(start, list))
    }
}

/// A block cut into blocks of the maximum size and one with the rest.
pub open spec fn chunks(b: BlockView) -> Seq<BlockView>
    decreases b.docids.len(),
{
    if b.docids.len() == 0 {
        seq![]
    } else if b.docids.len() <= MAX_PL_BLOCK_SIZE {
        seq![b]
    } else {
        seq![b.take(MAX_PL_BLOCK_SIZE as int)] + chunks(b.skip(MAX_PL_BLOCK_SIZE as int))
    }
}

/// How many documents of `block` go into the last block of the list.
pub open spec fn fits_in(last: BlockView, block: BlockView) -> int {
    if last.docids.len() >= MAX_PL_BLOCK_SIZE {
        0
    } else if last.docids.len() + block.docids.len() <= MAX_PL_BLOCK_SIZE {
        block.docids.len() as int
    } else {
        MAX_PL_BLOCK_SIZE - last.docids.len()
    }
}

/// The last block of the list, filled up.
pub open spec fn filled(last: BlockView, block: BlockView) -> BlockView {
    last.plus(block.take(fits_in(last, block)))
}

/// What is left for further blocks.
pub open spec fn left_over(last: BlockView, block: BlockView) -> BlockView {
    block.skip(fits_in(last, block))
}

pub open spec fn all_ascend(bs: Seq<BlockView>) -> bool {
    forall|i: int| 0 <= i < bs.len() ==> ascending((#[trigger] bs[i]).docids)
}

/// The writes of blocks, each under its first document.
pub open spec fn block_writes(
    name: Seq<u8>,
    token: Seq<u8>,
    features: TokenFieldFeatures,
    bs: Seq<BlockView>,
) -> Seq<WriteView> {
    Seq::new(
        bs.len(),
        |i: int|
            WriteView {
                section: Section::DocPl,
                key: spec_pl_key(name, token, bs[i].docids[0]),
                value: bs[i].spec_encode(features),
            },
    )
}

/// The writes that append `block` to the list of a token, given the last block of the list: none
/// for an empty block.
pub open spec fn doc_pl_writes(
    name: Seq<u8>,
    token: Seq<u8>,
    features: TokenFieldFeatures,
    block: BlockView,
    reply: Option<EntryView>,
) -> Result<Seq<WriteView>, AppendError> {
    if block.docids.len() == 0 {
        Ok(seq![])
    } else {
        filling_writes(name, token, features, block, reply)
    }
}

/// The writes that put documents at the end of the list of a token: the last block filled up, and
/// further blocks.
pub open spec fn filling_writes(
    name: Seq<u8>,
    token: Seq<u8>,
    features: TokenFieldFeatures,
    block: BlockView,
    reply: Option<EntryView>,
) -> Result<Seq<WriteView>, AppendError> {
    match reply {
        None => if all_ascend(chunks(block)) {
            Ok(block_writes(name, token, features, chunks(block)))
        } else {
            Err(AppendError::OutOfOrder)
        },
        Some(e) => match BlockView::spec_decode(e.key, e.value, features) {
            None => Err(AppendError::BadBlock),
            Some(last) => {
                let first = filled(last, block);
                let more = chunks(left_over(last, block));
                if ascending(first.docids) && all_ascend(more) {
                    Ok(
                        seq![
                            WriteView {
                                section: Section::DocPl,
                                key: e.key,
                                value: first.spec_encode(features),
                            },
                        ] + block_writes(name, token, features, more),
                    )
                } else {
                    Err(AppendError::OutOfOrder)
                }
            },
        },
    }
}

/// The writes of the positions of a token, one for each document.
pub open spec fn position_writes(
    name: Seq<u8>,
    token: Seq<u8>,
    start: DocId,
    list: Seq<LocalPosting>,
) -> Seq<WriteView> {
    Seq::new(
        list.len(),
        |i: int|
            WriteView {
                section: Section::PosPl,
                key: spec_pospl_key(name, (start + list[i].doc) as u64, token),
                value: leb128_all(position_steps(0, list[i].positions)),
            },
    )
}

/// The statistics of `token` with the postings of a buffer, given its entry, and what is to be
/// appended to its posting list.
pub fn update_stats_and_generate_doc_pl<P: Hit>(
    field: &TokenFieldIndex,
    token: &[u8],
    start_docid: DocId,
    postings: &Vec<P>,
    stats: &Option<Entry>,
) -> (r: Result<(DocPostingBlock, Write), AppendError>)
    requires
        1 <= postings@.len() <= u32::MAX,
        forall|i: int|
            0 <= i < postings@.len() ==> start_docid + (#[trigger] models(postings@)[i]).doc
                <= u64::MAX,
    ensures
        ({
            let old = stats_in(reply_view(*stats));
            let list = models(postings@);
            let fits = is_single(old, list) || summed_tf(old, list) <= u64::MAX;
            match r {
                Ok((block, write)) => {
                    &&& fits
                    &&& block@ == new_block(old, start_docid, list)
                    &&& write@ == (WriteView {
                        section: Section::Stats,
                        key: spec_stats_key(field.name_bytes(), token@),
                        value: new_stats(old, start_docid, list).spec_encode(),
                    })
                },
                Err(e) => !fits && e == AppendError::TermFrequencyOverflow,
            }
        }),
{
    let ghost list = models(postings@);
    let mut block = DocPostingBlock::default();
    let old_stats: Option<TokenStats> = match stats {
        Some(e) => TokenStats::decode(e.value.as_slice()),
        None => None,
    };
    if let Some(TokenStats::SingleHit { docid, term_frequency }) = old_stats {
        block.docids.push(docid);
        #[verifier::truncate]
        let tf: u32 = term_frequency as u32;
        block.term_frequencies.push(tf);
    }
    assert(block@ =~= carried(old_stats));
    let stats = if postings.len() == 1 && old_stats.is_none() {
        // A single document: no block is written for it.
        let docid: u64 = start_docid + postings[0].doc() as u64;
        assert(list[0] == postings@[0].model());
        TokenStats::SingleHit { docid, term_frequency: postings[0].tf() as u64 }
    } else {
        let (old_df, old_tf) = match &old_stats {
            Some(s) => s.frequencies(),
            None => (0, 0),
        };
        let total_df: u64 = old_df + postings.len() as u64;
        let mut sum_tf: u64 = old_tf;
        let mut i: usize = 0;
        assert(list.take(0) =~= seq![]);
        assert(block@ =~= carried(old_stats).plus(placed(start_docid, list).take(0)));
        while i < postings.len()
            invariant
                i <= postings@.len(),
                list == models(postings@),
                old_stats == stats_in(reply_view(*stats)),
                forall|k: int|
                    0 <= k < postings@.len() ==> start_docid + (#[trigger] list[k]).doc <= u64::MAX,
                sum_tf == old_tf + total_tf(list.take(i as int)),
                block@ == carried(old_stats).plus(placed(start_docid, list).take(i as int)),
                summed_tf(old_stats, list) == old_tf + total_tf(list),
                !is_single(old_stats, list),
            decreases postings@.len() - i,
        {
            let ghost before = block@;
            let tf: u32 = postings[i].tf();
            assert(list[i as int] == postings@[i as int].model());
            assert(list.take(i + 1).drop_last() =~= list.take(i as int));
            block.docids.push(start_docid + postings[i].doc() as u64);
            block.term_frequencies.push(tf);
            sum_tf = match sum_tf.checked_add(tf as u64) {
                Some(s) => s,
                None => {
                    proof {
                        lemma_total_tf_prefix(list, i + 1);
                    }
                    return Err(AppendError::TermFrequencyOverflow);
                },
            };
            i = i + 1;
            assert(block@ =~= carried(old_stats).plus(placed(start_docid, list).take(i as int)));
        }
        assert(list.take(i as int) =~= list);
        assert(placed(start_docid, list).take(i as int) =~= placed(start_docid, list));
        TokenStats::MultiHit { doc_frequency: total_df, term_frequency: sum_tf }
    };
    let encoded = stats.encode();
    let write = Write {
        section: Section::Stats,
        key: field.stats_key(token),
        value: slice_to_vec(encoded.as_ref()),
    };
    Ok((block, write))
}

/// A list has at least as many occurrences as its first part.
proof fn lemma_total_tf_prefix(list: Seq<LocalPosting>, k: int)
    requires
        0 <= k <= list.len(),
    ensures
        total_tf(list.take(k)) <= total_tf(list),
    decreases list.len(),
{
    if k == list.len() {
        assert(list.take(k) =~= list);
    } else {
        assert(list.drop_last().take(k) =~= list.take(k));
        lemma_total_tf_prefix(list.drop_last(), k);
    }
}

/// The documents from `at` on, as many as one block takes, and the index after them.
fn next_chunk(block: &DocPostingBlock, at: usize) -> (r: (DocPostingBlock, usize))
    requires
        at < block@.docids.len(),
        block@.term_frequencies.len() == block@.docids.len(),
    ensures
        at < r.1 <= block@.docids.len(),
        r.1 - at <= MAX_PL_BLOCK_SIZE,
        r.0@ == block@.skip(at as int).take(r.1 - at),
        chunks(block@.skip(at as int)) == seq![r.0@] + chunks(block@.skip(r.1 as int)),
{
    let mut chunk = DocPostingBlock::default();
    let mut end: usize = at;
    assert(chunk@ =~= block@.skip(at as int).take(0));
    while chunk.len() < MAX_PL_BLOCK_SIZE && end < block.len()
        invariant
            at <= end <= block@.docids.len(),
            at < block@.docids.len(),
            block@.term_frequencies.len() == block@.docids.len(),
            chunk@.docids.len() == end - at,
            end - at <= MAX_PL_BLOCK_SIZE,
            chunk@ == block@.skip(at as int).take(end - at),
        decreases block@.docids.len() - end,
    {
        chunk.docids.push(block.docids[end]);
        chunk.term_frequencies.push(block.term_frequencies[end]);
        end = end + 1;
        assert(chunk@ =~= block@.skip(at as int).take(end - at));
    }
    proof {
        let rest = block@.skip(at as int);
        if rest.docids.len() <= MAX_PL_BLOCK_SIZE {
            assert(chunk@ =~= rest);
            assert(chunks(block@.skip(end as int)) =~= seq![]);
            assert(seq![chunk@] + seq![] =~= seq![chunk@]);
        } else {
            assert(chunk@ =~= rest.take(MAX_PL_BLOCK_SIZE as int));
            assert(block@.skip(end as int) =~= rest.skip(MAX_PL_BLOCK_SIZE as int));
        }
    }
    (chunk, end)
}

/// The writes that append `block` to the posting list of `token`, whose last block up to there is
/// `last`.
pub fn update_doc_pl(
    field: &TokenFieldIndex,
    token: &[u8],
    block: &DocPostingBlock,
    last: Option<Entry>,
) -> (r: Result<Vec<Write>, AppendError>)
    requires
        block@.term_frequencies.len() == block@.docids.len(),
    ensures
        ({
            let want = doc_pl_writes(
                field.name_bytes(),
                token@,
                field.spec_features(),
                block@,
                reply_view(last),
            );
            match r {
                Ok(writes) => want == Ok::<_, AppendError>(writes_view(writes@)),
                Err(e) => want == Err::<Seq<WriteView>, _>(e),
            }
        }),
{
    if block.is_empty() {
        let none: Vec<Write> = Vec::new();
        assert(writes_view(none@) =~= seq![]);
        return Ok(none);
    }
    let features = field.features();
    let ghost name = field.name_bytes();
    let mut writes: Vec<Write> = Vec::new();
    let mut at: usize = 0;
    let ghost reply = reply_view(last);
    assert(block@.skip(0) =~= block@);
    assert(writes_view(writes@) =~= seq![]);
    if let Some(e) = last {
        proof {
            lemma_decoded_block(e.key@, e.value@, features);
        }
        let mut last_block = match DocPostingBlock::decode(
            e.key.as_slice(),
            e.value.as_slice(),
            features,
        ) {
            Some(b) => b,
            None => return Err(AppendError::BadBlock),
        };
        let ghost found = last_block@;
        assert(last_block@ =~= found.plus(block@.take(0)));
        while last_block.len() < MAX_PL_BLOCK_SIZE && at < block.len()
            invariant
                at <= fits_in(found, block@),
                at <= block@.docids.len(),
                block@.term_frequencies.len() == block@.docids.len(),
                last_block@.docids.len() == found.docids.len() + at,
                last_block@ == found.plus(block@.take(at as int)),
            decreases block@.docids.len() - at,
        {
            last_block.docids.push(block.docids[at]);
            last_block.term_frequencies.push(block.term_frequencies[at]);
            at = at + 1;
            assert(last_block@ =~= found.plus(block@.take(at as int)));
        }
        assert(at == fits_in(found, block@));
        if !is_ascending(last_block.docids.as_slice()) {
            return Err(AppendError::OutOfOrder);
        }
        writes.push(
            Write { section: Section::DocPl, key: e.key, value: last_block.encode(features) },
        );
        proof {
            assert(writes_view(writes@) =~= seq![
                WriteView {
                    section: Section::DocPl,
                    key: e.key@,
                    value: filled(found, block@).spec_encode(features),
                },
            ]);
        }
    }
    let ghost head = writes_view(writes@);
    let ghost all = chunks(block@.skip(at as int));
    let ghost mut done: Seq<BlockView> = seq![];
    proof {
        assert(done + all =~= all);
        assert(block_writes(name, token@, features, done) =~= seq![]);
        assert(head + seq![] =~= head);
    }
    while at < block.len()
        invariant
            at <= block@.docids.len(),
            block@.term_frequencies.len() == block@.docids.len(),
            features == field.spec_features(),
            name == field.name_bytes(),
            reply == reply_view(last),
            doc_pl_writes(name, token@, features, block@, reply) == (if all_ascend(all) {
                Ok(head + block_writes(name, token@, features, all))
            } else {
                Err(AppendError::OutOfOrder)
            }),
            all == done + chunks(block@.skip(at as int)),
            all_ascend(done),
            writes_view(writes@) == head + block_writes(name, token@, features, done),
        decreases block@.docids.len() - at,
    {
        let (chunk, end) = next_chunk(block, at);
        let ghost longer = done.push(chunk@);
        proof {
            assert(done + (seq![chunk@] + chunks(block@.skip(end as int))) =~= longer + chunks(
                block@.skip(end as int),
            ));
            assert(all[done.len() as int] == chunk@);
        }
        if !is_ascending(chunk.docids.as_slice()) {
            return Err(AppendError::OutOfOrder);
        }
        let key = field.pl_key(token, chunk.docids[0]);
        let write = Write { section: Section::DocPl, key, value: chunk.encode(features) };
        proof {
            lemma_writes_push(writes@, write);
        }
        writes.push(write);
        proof {
            assert(writes_view(writes@) =~= head + block_writes(name, token@, features, longer));
            done = longer;
        }
        at = end;
    }
    proof {
        assert(chunks(block@.skip(at as int)) =~= seq![]);
        assert(all =~= done);
    }
    Ok(writes)
}

/// The writes of the positions of `token`, one for each document.
fn position_entries(
    field: &TokenFieldIndex,
    token: &[u8],
    start_docid: DocId,
    postings: &Vec<(u32, Vec<u32>)>,
    writes: &mut Vec<Write>,
)
    requires
        forall|i: int|
            0 <= i < postings@.len() ==> {
                &&& start_docid + (#[trigger] models(postings@)[i]).doc <= u64::MAX
                &&& positions_ascend(models(postings@)[i].positions)
            },
    ensures
        writes_view(final(writes)@) == writes_view(old(writes)@) + position_writes(
            field.name_bytes(),
            token@,
            start_docid,
            models(postings@),
        ),
{
    let ghost list = models(postings@);
    let ghost all = position_writes(field.name_bytes(), token@, start_docid, list);
    let ghost before = writes_view(writes@);
    let mut i: usize = 0;
    assert(writes_view(writes@) =~= before + all.take(0));
    while i < postings.len()
        invariant
            i <= postings@.len(),
            list == models(postings@),
            all == position_writes(field.name_bytes(), token@, start_docid, list),
            forall|k: int|
                0 <= k < postings@.len() ==> {
                    &&& start_docid + (#[trigger] list[k]).doc <= u64::MAX
                    &&& positions_ascend(list[k].positions)
                },
            writes_view(writes@) == before + all.take(i as int),
        decreases postings@.len() - i,
    {
        assert(list[i as int] == postings@[i as int].model());
        let docid: u64 = start_docid + postings[i].0 as u64;
        let value = encode_positions(postings[i].1.as_slice());
        let key = field.pospl_key(docid, token);
        let write = Write { section: Section::PosPl, key, value };
        proof {
            lemma_writes_push(writes@, write);
        }
        writes.push(write);
        i = i + 1;
        assert(writes_view(writes@) =~= before + all.take(i as int));
    }
    assert(all.take(i as int) =~= all);
}

/// The state of an append: the token that it has come to, and, once the statistics of that token
/// are known, what goes to its posting list.
pub struct AppendView {
    pub name: Seq<u8>,
    pub features: TokenFieldFeatures,
    pub start: DocId,
    pub rep: TokenIndexBufferRep,
    pub at: int,
    pub block: Option<BlockView>,
}

impl AppendView {
    pub open spec fn done(self) -> bool {
        self.at >= self.rep.token_count()
    }

    pub open spec fn token(self) -> Seq<u8> {
        self.rep.token_at(self.at)
    }

    /// The postings that the buffer has for the token.
    pub open spec fn list(self) -> Seq<LocalPosting> {
        self.rep.list(self.token())
    }

    /// What has to be read next: the statistics of the token, then the last block of its list
    /// that can come before the new documents.
    pub open spec fn query(self) -> Option<QueryView> {
        if self.done() {
            None
        } else {
            match self.block {
                None => Some(
                    QueryView::Get {
                        section: Section::Stats,
                        key: spec_stats_key(self.name, self.token()),
                    },
                ),
                Some(b) => Some(
                    QueryView::Last {
                        section: Section::DocPl,
                        lo: spec_pl_key(self.name, self.token(), 0),
                        hi: spec_pl_key(self.name, self.token(), b.docids[0]),
                    },
                ),
            }
        }
    }

    /// The writes of the positions of the token, where they are recorded.
    pub open spec fn positions_part(self) -> Seq<WriteView> {
        if self.rep.features() is WithPositions {
            position_writes(self.name, self.token(), self.start, self.list())
        } else {
            seq![]
        }
    }

    /// What an answer leads to: the next state, and what is to be written.
    pub open spec fn step(self, reply: Option<EntryView>) -> Result<
        (AppendView, Seq<WriteView>),
        AppendError,
    > {
        match self.block {
            None => {
                let old = stats_in(reply);
                let list = self.list();
                let block = new_block(old, self.start, list);
                let stats_write = seq![
                    WriteView {
                        section: Section::Stats,
                        key: spec_stats_key(self.name, self.token()),
                        value: new_stats(old, self.start, list).spec_encode(),
                    },
                ];
                if !is_single(old, list) && summed_tf(old, list) > u64::MAX {
                    Err(AppendError::TermFrequencyOverflow)
                } else if block.docids.len() == 0 {
                    Ok(
                        (
                            AppendView { at: self.at + 1, ..self },
                            stats_write + self.positions_part(),
                        ),
                    )
                } else {
                    Ok((AppendView { block: Some(block), ..self }, stats_write))
                }
            },
            Some(b) => match doc_pl_writes(self.name, self.token(), self.features, b, reply) {
                Ok(writes) => Ok(
                    (
                        AppendView { at: self.at + 1, block: None, ..self },
                        writes + self.positions_part(),
                    ),
                ),
                Err(e) => Err(e),
            },
        }
    }
}

/// The positions of every posting stand in ascending order.
pub open spec fn positions_in_order(rep: TokenIndexBufferRep) -> bool {
    forall|t: Seq<u8>, i: int|
        0 <= i < rep.list(t).len() ==> positions_ascend((#[trigger] rep.list(t)[i]).positions)
}

/// An append of a buffer to a field. It says what it has to read, takes the answers, and hands
/// out what is to be written for them.
pub struct Append<'a> {
    field: &'a TokenFieldIndex,
    start_docid: DocId,
    end_docid: DocId,
    rep: TokenIndexBufferRep,
    at: usize,
    block: Option<DocPostingBlock>,
}

impl<'a> View for Append<'a> {
    type V = AppendView;

    closed spec fn view(&self) -> AppendView {
        AppendView {
            name: self.field.name_bytes(),
            features: self.field.spec_features(),
            start: self.start_docid,
            rep: self.rep,
            at: self.at as int,
            block: match self.block {
                Some(b) => Some(b@),
                None => None,
            },
        }
    }
}

impl<'a> Append<'a> {
    /// The first document after those of the buffer.
    pub closed spec fn spec_next_docid(self) -> DocId {
        self.end_docid
    }

    pub closed spec fn wf(self) -> bool {
        &&& self.start_docid <= self.end_docid <= self.start_docid + u32::MAX
        &&& self.rep.maps_wf()
        &&& positions_in_order(self.rep)
        &&& forall|t: Seq<u8>|
            in_doc_order(
                #[trigger] self.rep.list(t),
                (self.end_docid - self.start_docid) as u32,
            )
        &&& self.at <= self.rep.token_count()
        &&& self.block matches Some(b) ==> {
            &&& self.at < self.rep.token_count()
            &&& b@.docids.len() > 0
            &&& b@.docids.len() == b@.term_frequencies.len()
        }
    }

    /// The next free docid once everything is written.
    pub fn next_docid(&self) -> (r: DocId)
        ensures
            r == self.spec_next_docid(),
    {
        self.end_docid
    }

    fn token(&self) -> (r: &[u8])
        requires
            self.wf(),
            !self@.done(),
        ensures
            r@ == self@.token(),
    {
        match &self.rep {
            TokenIndexBufferRep::Doc(m) => m.entries[self.at].token.as_slice(),
            TokenIndexBufferRep::WithTermFrequency(m) => m.entries[self.at].token.as_slice(),
            TokenIndexBufferRep::WithPositions(m) => m.entries[self.at].token.as_slice(),
        }
    }

    /// What has to be read before the append can go on, or `None` when everything is written.
    pub fn query(&self) -> (r: Option<Query>)
        requires
            self.wf(),
        ensures
            match r {
                Some(q) => self@.query() == Some(q@),
                None => self@.query() is None,
            },
    {
        if self.at == self.rep.len() {
            return None;
        }
        let token = self.token();
        match &self.block {
            None => {
                let key = self.field.stats_key(token);
                Some(Query::Get { section: Section::Stats, key })
            },
            Some(b) => {
                let lo = self.field.pl_key(token, 0);
                let hi = self.field.pl_key(token, b.docids[0]);
                Some(Query::Last { section: Section::DocPl, lo, hi })
            },
        }
    }

    proof fn lemma_list_bounds(&self)
        requires
            self.wf(),
            !self@.done(),
        ensures
            1 <= self@.list().len() <= u32::MAX,
            self@.list() == (match self.rep {
                TokenIndexBufferRep::Doc(m) => models(m.entries@[self.at as int].list@),
                TokenIndexBufferRep::WithTermFrequency(m) => models(
                    m.entries@[self.at as int].list@,
                ),
                TokenIndexBufferRep::WithPositions(m) => models(m.entries@[self.at as int].list@),
            }),
            forall|i: int|
                0 <= i < self@.list().len() ==> {
                    &&& self.start_docid + (#[trigger] self@.list()[i]).doc <= u64::MAX
                    &&& positions_ascend(self@.list()[i].positions)
                },
    {
        match self.rep {
            TokenIndexBufferRep::Doc(m) => {
                m.lemma_list_at(self.at as int);
            },
            TokenIndexBufferRep::WithTermFrequency(m) => {
                m.lemma_list_at(self.at as int);
            },
            TokenIndexBufferRep::WithPositions(m) => {
                m.lemma_list_at(self.at as int);
            },
        }
        let list = self.rep.list(self@.token());
        lemma_in_doc_order_len(list, (self.end_docid - self.start_docid) as u32);
        assert forall|i: int| 0 <= i < list.len() implies {
            &&& self.start_docid + (#[trigger] list[i]).doc <= u64::MAX
            &&& positions_ascend(list[i].positions)
        } by {
            assert(list[i] == self.rep.list(self@.token())[i]);
        }
    }

    /// Adds the writes of the positions of the token, where they are recorded.
    fn push_positions(&self, writes: &mut Vec<Write>)
        requires
            self.wf(),
            !self@.done(),
        ensures
            writes_view(final(writes)@) == writes_view(old(writes)@) + self@.positions_part(),
    {
        proof {
            self.lemma_list_bounds();
        }
        if let TokenIndexBufferRep::WithPositions(m) = &self.rep {
            position_entries(
                self.field,
                m.entries[self.at].token.as_slice(),
                self.start_docid,
                &m.entries[self.at].list,
                writes,
            );
        } else {
            assert(writes_view(writes@) + seq![] =~= writes_view(writes@));
        }
    }

    /// Takes the answer to `query()`, goes on, and returns what is to be written for it. After an
    /// error the append is where it was.
    pub fn resume(&mut self, reply: Option<Entry>) -> (r: Result<Vec<Write>, AppendError>)
        requires
            old(self).wf(),
            !old(self)@.done(),
        ensures
            final(self).wf(),
            final(self).spec_next_docid() == old(self).spec_next_docid(),
            match r {
                Ok(writes) => old(self)@.step(reply_view(reply)) == Ok::<_, AppendError>(
                    (final(self)@, writes_view(writes@)),
                ),
                Err(e) => {
                    &&& old(self)@.step(reply_view(reply)) == Err::<
                        (AppendView, Seq<WriteView>),
                        _,
                    >(e)
                    &&& final(self)@ == old(self)@
                },
            },
    {
        proof {
            self.lemma_list_bounds();
        }
        let count: usize = self.rep.len();
        assert(self.at < count);
        let following: usize = self.at + 1;
        match &self.block {
            None => {
                let updated = match &self.rep {
                    TokenIndexBufferRep::Doc(m) => update_stats_and_generate_doc_pl(
                        self.field,
                        m.entries[self.at].token.as_slice(),
                        self.start_docid,
                        &m.entries[self.at].list,
                        &reply,
                    ),
                    TokenIndexBufferRep::WithTermFrequency(m) => update_stats_and_generate_doc_pl(
                        self.field,
                        m.entries[self.at].token.as_slice(),
                        self.start_docid,
                        &m.entries[self.at].list,
                        &reply,
                    ),
                    TokenIndexBufferRep::WithPositions(m) => update_stats_and_generate_doc_pl(
                        self.field,
                        m.entries[self.at].token.as_slice(),
                        self.start_docid,
                        &m.entries[self.at].list,
                        &reply,
                    ),
                };
                let (block, write) = match updated {
                    Ok(p) => p,
                    Err(e) => return Err(e),
                };
                let mut writes: Vec<Write> = Vec::new();
                writes.push(write);
                assert(writes_view(writes@) =~= seq![write@]);
                if block.is_empty() {
                    self.push_positions(&mut writes);
                    self.at = following;
                } else {
                    self.block = Some(block);
                }
                Ok(writes)
            },
            Some(block) => {
                let mut writes = match update_doc_pl(self.field, self.token(), block, reply) {
                    Ok(w) => w,
                    Err(e) => return Err(e),
                };
                self.push_positions(&mut writes);
                self.at = following;
                self.block = None;
                Ok(writes)
            },
        }
    }
}

impl TokenIndexBuffer {
    /// Apply this batch as an append to `field` starting at `start_docid`.
    ///
    /// The append asks for committed state with `query()`; the writes that `resume()` returns are
    /// to be queued. `next_docid()` is the next free docid.
    ///
    /// _This method assumes that start_docid and all docids after are unused._
    pub fn apply_append<'a>(self, field: &'a TokenFieldIndex, start_docid: DocId) -> (r: Append<'a>)
        requires
            self.wf(),
            start_docid + self.spec_next_docid() <= u64::MAX,
            self.spec_features() is WithPositions ==> field.spec_features() is WithPositions,
            positions_in_order(self.spec_rep()),
        ensures
            r.wf(),
            r.spec_next_docid() == start_docid + self.spec_next_docid(),
            r@ == (AppendView {
                name: field.name_bytes(),
                features: field.spec_features(),
                start: start_docid,
                rep: self.spec_rep(),
                at: 0,
                block: None,
            }),
    {
        let (rep, count) = self.into_parts();
        let r = Append {
            field,
            start_docid,
            end_docid: start_docid + count as u64,
            rep,
            at: 0,
            block: None,
        };
        proof {
            assert forall|t: Seq<u8>| in_doc_order(#[trigger] r.rep.list(t), count) by {
                assert(in_doc_order(self.postings(t), count));
            }
        }
        r
    }
}

} // verus!
