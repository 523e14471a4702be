//! What appending a buffer does to the posting lists of a field, and that it is read back.
use crate::append::{block_writes, new_block, stats_in, AppendError, AppendView};
use crate::buffer::{in_doc_order, TokenIndexBufferRep};
use crate::bytes::{be_bytes, lemma_between_has_front, lemma_less_irreflexive};
use crate::features::TokenFieldFeatures;
use crate::field::{pl_front, spec_pl_key, spec_stats_key, Section, SEPARATOR};
use crate::iter::{new_iter, DOC_ID_DONE};
use crate::stats::{DocId, TokenStats};
use crate::store::{
    last_write, lemma_not_written, lemma_put_all_at, lemma_put_all_parts, EntryView, FieldStore,
    QueryView, WriteView,
};
use crate::stored_list::{law_iteration, law_new, Posting, StoredList};
use crate::token_append::{
    agree, all_belong, appendable, appended, belongs, is_other, lemma_first_answer,
    lemma_held_elsewhere, lemma_other_writes, lemma_second_answer_long, lemma_second_answer_short,
    lemma_single_token, new_postings, stands_at, token_writes,
};
use crate::written_out::{
    lemma_blocks_written_after, lemma_single_written, lemma_written_out_elsewhere,
};
use vstd::prelude::*;

verus! {

/// The tokens of a buffer: no two are the same, and they are those that have postings.
proof fn lemma_rep_tokens(rep: TokenIndexBufferRep)
    requires
        rep.maps_wf(),
    ensures
        forall|a: int, b: int|
            0 <= a < b < rep.token_count() ==> #[trigger] rep.token_at(a) != #[trigger] rep.token_at(
                b,
            ),
        forall|a: int| 0 <= a < rep.token_count() ==> rep.list(#[trigger] rep.token_at(a)).len() > 0,
        forall|t: Seq<u8>| #[trigger]
            rep.list(t).len() > 0 ==> exists|a: int|
                0 <= a < rep.token_count() && #[trigger] rep.token_at(a) == t,
{
    assert forall|a: int, b: int| 0 <= a < b < rep.token_count() implies #[trigger] rep.token_at(a)
        != #[trigger] rep.token_at(b) by {
        lemma_less_irreflexive(rep.token_at(a));
    }
    assert forall|a: int| 0 <= a < rep.token_count() implies rep.list(
        #[trigger] rep.token_at(a),
    ).len() > 0 by {
        match rep {
            TokenIndexBufferRep::Doc(m) => {
                m.lemma_list_at(a);
                assert(m.entries@[a].list@.len() > 0);
            },
            TokenIndexBufferRep::WithTermFrequency(m) => {
                m.lemma_list_at(a);
                assert(m.entries@[a].list@.len() > 0);
            },
            TokenIndexBufferRep::WithPositions(m) => {
                m.lemma_list_at(a);
                assert(m.entries@[a].list@.len() > 0);
            },
        }
    }
    assert forall|t: Seq<u8>| #[trigger] rep.list(t).len() > 0 implies exists|a: int|
        0 <= a < rep.token_count() && #[trigger] rep.token_at(a) == t by {
        match rep {
            TokenIndexBufferRep::Doc(m) => {
                let a = choose|a: int| m.holds(a, t);
                assert(m.holds(a, t));
                assert(rep.token_at(a) == t);
            },
            TokenIndexBufferRep::WithTermFrequency(m) => {
                let a = choose|a: int| m.holds(a, t);
                assert(m.holds(a, t));
                assert(rep.token_at(a) == t);
            },
            TokenIndexBufferRep::WithPositions(m) => {
                let a = choose|a: int| m.holds(a, t);
                assert(m.holds(a, t));
                assert(rep.token_at(a) == t);
            },
        }
    }
}

/// The posting lists of a field, and the store that is to hold them.
pub struct FieldLists {
    pub store: FieldStore,
    pub name: Seq<u8>,
    pub features: TokenFieldFeatures,
    pub lists: spec_fn(Seq<u8>) -> Seq<Posting>,
}

impl FieldLists {
    /// The list of a token.
    pub open spec fn at(self, token: Seq<u8>) -> StoredList {
        StoredList {
            store: self.store,
            name: self.name,
            features: self.features,
            token,
            list: (self.lists)(token),
        }
    }

    /// The append can be made: the buffer is one for the field, and every token of it has a valid
    /// list to which its postings can be appended.
    pub open spec fn ready(self, v: AppendView, end: u32) -> bool {
        &&& v.name == self.name
        &&& v.features == self.features
        &&& v.rep.maps_wf()
        &&& (v.rep.features() is WithPositions) == (self.features is WithPositions)
        &&& forall|t: Seq<u8>| #[trigger]
            v.rep.list(t).len() > 0 ==> self.at(t).valid() && appendable(
                self.at(t),
                v.start,
                v.rep.list(t),
                end,
            )
    }

    /// The lists with the postings of the buffer at their ends, in the store with the writes.
    pub open spec fn after(self, v: AppendView, writes: Seq<WriteView>) -> FieldLists {
        FieldLists {
            store: self.store.put_all(writes),
            lists: |t: Seq<u8>| (self.lists)(t) + new_postings(v.start, v.rep.list(t)),
            ..self
        }
    }

    /// No block of another token of the buffer lies among those of `token`.
    pub open spec fn apart(self, v: AppendView, token: Seq<u8>) -> bool {
        forall|s: Seq<u8>, d: DocId|
            v.rep.list(s).len() > 0 && s != token ==> !self.at(token).in_range(
                #[trigger] spec_pl_key(self.name, s, d),
            )
    }

    /// Every list that was there is there with the new postings, and is valid as before where the
    /// tokens of the buffer keep apart from it. A list that was written out is so again. Nothing
    /// is written for a token that is not in the buffer.
    pub open spec fn grown(self, v: AppendView, writes: Seq<WriteView>) -> bool {
        &&& forall|t: Seq<u8>|
            self.at(t).held() ==> (#[trigger] self.after(v, writes).at(t)).held()
        &&& forall|t: Seq<u8>|
            self.at(t).valid() && self.apart(v, t) ==> (#[trigger] self.after(v, writes).at(
                t,
            )).valid()
        &&& forall|t: Seq<u8>|
            self.at(t).written_out() ==> (#[trigger] self.after(v, writes).at(t)).written_out()
        &&& forall|i: int| 0 <= i < writes.len() ==> self.is_for_buffer(v, #[trigger] writes[i])
    }

    /// The write is to an entry of a token of the buffer.
    pub open spec fn is_for_buffer(self, v: AppendView, w: WriteView) -> bool {
        exists|t: Seq<u8>| #[trigger] v.rep.list(t).len() > 0 && belongs(w, self.name, t)
    }

    /// Whatever true answers the store gives, the append does not fail, is done after no more
    /// than `reads` of them, and its writes make the lists grow.
    pub open spec fn grows(self, v: AppendView, writes: Seq<WriteView>, reads: nat) -> bool
        decreases reads,
    {
        match v.query() {
            None => self.grown(v, writes),
            Some(q) => reads > 0 && forall|reply: Option<EntryView>| #[trigger]
                self.store.answers(q, reply) ==> match v.step(reply) {
                    Ok((v2, more)) => self.grows(v2, writes + more, (reads - 1) as nat),
                    Err(_) => false,
                },
        }
    }

    /// The tokens before the one at which the append stands have got their postings, and nothing
    /// else is written.
    pub open spec fn done_so_far(self, v: AppendView, writes: Seq<WriteView>) -> bool {
        &&& forall|i: int|
            0 <= i < writes.len() ==> exists|a: int|
                0 <= a < v.at && belongs(
                    #[trigger] writes[i],
                    self.name,
                    #[trigger] v.rep.token_at(a),
                )
        &&& forall|a: int|
            0 <= a < v.at ==> appended(
                self.at(#[trigger] v.rep.token_at(a)),
                self.store.put_all(writes),
                v.start,
                v.rep.list(v.rep.token_at(a)),
            ).held()
        &&& forall|a: int|
            0 <= a < v.at && self.at(#[trigger] v.rep.token_at(a)).written_out() ==> appended(
                self.at(v.rep.token_at(a)),
                self.store.put_all(writes),
                v.start,
                v.rep.list(v.rep.token_at(a)),
            ).written_out()
    }
}

proof fn lemma_more_reads(f: FieldLists, v: AppendView, writes: Seq<WriteView>, a: nat, b: nat)
    requires
        f.grows(v, writes, a),
        a <= b,
    ensures
        f.grows(v, writes, b),
    decreases a,
{
    if let Some(q) = v.query() {
        assert forall|reply: Option<EntryView>| #[trigger]
            f.store.answers(q, reply) implies match v.step(reply) {
            Ok((v2, more)) => f.grows(v2, writes + more, (b - 1) as nat),
            Err(_) => false,
        } by {
            if let Ok((v2, more)) = v.step(reply) {
                lemma_more_reads(f, v2, writes + more, (a - 1) as nat, (b - 1) as nat);
            }
        }
    }
}

/// The writes leave the entries of a token that is not in the buffer as they were.
proof fn lemma_untouched(f: FieldLists, v: AppendView, writes: Seq<WriteView>, t: Seq<u8>)
    requires
        v.rep.maps_wf(),
        v.at <= v.rep.token_count(),
        f.done_so_far(v, writes),
        v.rep.list(t).len() == 0,
    ensures
        agree(f.store.put_all(writes), f.store, f.name, t),
{
    lemma_rep_tokens(v.rep);
    assert forall|i: int| 0 <= i < writes.len() implies is_other(#[trigger] writes[i], f.name, t) by {
        let a = choose|a: int|
            0 <= a < v.at && belongs(writes[i], f.name, #[trigger] v.rep.token_at(a));
        assert(belongs(writes[i], f.name, v.rep.token_at(a)));
    }
    lemma_other_writes(f.store, writes, f.name, t);
}

/// Once every token is done, the lists have grown.
proof fn lemma_all_done(f: FieldLists, v: AppendView, end: u32, writes: Seq<WriteView>)
    requires
        f.ready(v, end),
        v.at == v.rep.token_count(),
        f.done_so_far(v, writes),
    ensures
        f.grown(v, writes),
{
    let g = f.after(v, writes);
    lemma_rep_tokens(v.rep);
    assert forall|i: int| 0 <= i < writes.len() implies f.is_for_buffer(
        v,
        #[trigger] writes[i],
    ) by {
        let a = choose|a: int|
            0 <= a < v.at && belongs(writes[i], f.name, #[trigger] v.rep.token_at(a));
        assert(v.rep.list(v.rep.token_at(a)).len() > 0);
    }
    assert forall|t: Seq<u8>| f.at(t).held() implies (#[trigger] g.at(t)).held() by {
        let list = v.rep.list(t);
        assert(g.at(t) == appended(f.at(t), g.store, v.start, list));
        if list.len() > 0 {
            let a = choose|a: int| 0 <= a < v.rep.token_count() && #[trigger] v.rep.token_at(a) == t;
            assert(appended(f.at(v.rep.token_at(a)), g.store, v.start, list).held());
        } else {
            lemma_untouched(f, v, writes, t);
            assert(f.at(t).list + new_postings(v.start, list) =~= f.at(t).list);
            lemma_held_elsewhere(f.at(t), g.at(t));
        }
    }
    assert forall|t: Seq<u8>| f.at(t).written_out() implies (#[trigger] g.at(t)).written_out() by {
        let list = v.rep.list(t);
        assert(g.at(t) == appended(f.at(t), g.store, v.start, list));
        if list.len() > 0 {
            let a = choose|a: int| 0 <= a < v.rep.token_count() && #[trigger] v.rep.token_at(a) == t;
            assert(appended(f.at(v.rep.token_at(a)), g.store, v.start, list).written_out());
        } else {
            lemma_untouched(f, v, writes, t);
            assert(f.at(t).list + new_postings(v.start, list) =~= f.at(t).list);
            lemma_written_out_elsewhere(f.at(t), g.at(t));
        }
    }
    assert forall|t: Seq<u8>| f.at(t).valid() && f.apart(v, t) implies (#[trigger] g.at(
        t,
    )).valid() by {
        assert(g.at(t).held());
        assert forall|k: Seq<u8>| #[trigger]
            g.store.docpl.contains_key(k) && g.at(t).in_range(k) implies exists|d: DocId|
            k == #[trigger] g.at(t).key(d) by {
            lemma_put_all_at(f.store, writes, Section::DocPl, k);
            assert(f.at(t).in_range(k));
            if last_write(writes, Section::DocPl, k) is None {
                let l = f.at(t);
                assert(l.store.docpl.contains_key(k) && l.in_range(k));
                let d = choose|d: DocId| k == #[trigger] l.key(d);
                assert(k == g.at(t).key(d));
            } else {
                if forall|i: int|
                    0 <= i < writes.len() ==> !((#[trigger] writes[i]).section == Section::DocPl
                        && writes[i].key == k) {
                    lemma_not_written(writes, Section::DocPl, k);
                }
                let i = choose|i: int|
                    0 <= i < writes.len() && (#[trigger] writes[i]).section == Section::DocPl
                        && writes[i].key == k;
                let a = choose|a: int|
                    0 <= a < v.at && belongs(writes[i], f.name, #[trigger] v.rep.token_at(a));
                let s = v.rep.token_at(a);
                let d = choose|d: DocId| writes[i].key == #[trigger] spec_pl_key(f.name, s, d);
                assert(s == t);
                assert(k == g.at(t).key(d));
            }
        }
    }
}

/// The writes so far leave the entries of the token at which the append stands as they were.
proof fn lemma_token_untouched(f: FieldLists, v: AppendView, writes: Seq<WriteView>)
    requires
        v.rep.maps_wf(),
        0 <= v.at < v.rep.token_count(),
        f.done_so_far(v, writes),
    ensures
        agree(f.store.put_all(writes), f.store, f.name, v.token()),
{
    lemma_rep_tokens(v.rep);
    assert forall|i: int| 0 <= i < writes.len() implies is_other(
        #[trigger] writes[i],
        f.name,
        v.token(),
    ) by {
        let a = choose|a: int|
            0 <= a < v.at && belongs(writes[i], f.name, #[trigger] v.rep.token_at(a));
        assert(belongs(writes[i], f.name, v.rep.token_at(a)));
    }
    lemma_other_writes(f.store, writes, f.name, v.token());
}

/// Once the token at which the append stands has got its postings, one more token is done.
proof fn lemma_one_more_done(
    f: FieldLists,
    v: AppendView,
    writes: Seq<WriteView>,
    more: Seq<WriteView>,
)
    requires
        v.rep.maps_wf(),
        0 <= v.at < v.rep.token_count(),
        f.done_so_far(v, writes),
        all_belong(more, f.name, v.token()),
        appended(
            f.at(v.token()),
            f.store.put_all(writes).put_all(more),
            v.start,
            v.list(),
        ).held(),
        f.at(v.token()).written_out() ==> appended(
            f.at(v.token()),
            f.store.put_all(writes).put_all(more),
            v.start,
            v.list(),
        ).written_out(),
    ensures
        f.done_so_far(AppendView { at: v.at + 1, ..v }, writes + more),
{
    let v2 = AppendView { at: v.at + 1, ..v };
    let all = writes + more;
    let before = f.store.put_all(writes);
    lemma_rep_tokens(v.rep);
    lemma_put_all_parts(f.store, writes, more);
    assert forall|i: int| 0 <= i < all.len() implies exists|a: int|
        0 <= a < v2.at && belongs(#[trigger] all[i], f.name, #[trigger] v2.rep.token_at(a)) by {
        if i < writes.len() {
            assert(all[i] == writes[i]);
            let a = choose|a: int|
                0 <= a < v.at && belongs(writes[i], f.name, #[trigger] v.rep.token_at(a));
            assert(belongs(all[i], f.name, v2.rep.token_at(a)));
        } else {
            assert(all[i] == more[i - writes.len()]);
            assert(belongs(all[i], f.name, v2.rep.token_at(v.at)));
        }
    }
    assert forall|a: int| 0 <= a < v2.at implies appended(
        f.at(#[trigger] v2.rep.token_at(a)),
        f.store.put_all(all),
        v2.start,
        v2.rep.list(v2.rep.token_at(a)),
    ).held() by {
        let t = v.rep.token_at(a);
        if a < v.at {
            let l = appended(f.at(t), before, v.start, v.rep.list(t));
            let m = appended(f.at(t), f.store.put_all(all), v.start, v.rep.list(t));
            assert(l.held());
            assert(t != v.token());
            assert forall|i: int| 0 <= i < more.len() implies is_other(
                #[trigger] more[i],
                f.name,
                t,
            ) by {
                assert(belongs(more[i], f.name, v.token()));
            }
            lemma_other_writes(before, more, f.name, t);
            lemma_held_elsewhere(l, m);
        }
    }
    assert forall|a: int|
        0 <= a < v2.at && f.at(#[trigger] v2.rep.token_at(a)).written_out() implies appended(
        f.at(v2.rep.token_at(a)),
        f.store.put_all(all),
        v2.start,
        v2.rep.list(v2.rep.token_at(a)),
    ).written_out() by {
        let t = v.rep.token_at(a);
        if a < v.at {
            let l = appended(f.at(t), before, v.start, v.rep.list(t));
            let m = appended(f.at(t), f.store.put_all(all), v.start, v.rep.list(t));
            assert(t != v.token());
            assert forall|i: int| 0 <= i < more.len() implies is_other(
                #[trigger] more[i],
                f.name,
                t,
            ) by {
                assert(belongs(more[i], f.name, v.token()));
            }
            lemma_other_writes(before, more, f.name, t);
            lemma_written_out_elsewhere(l, m);
        }
    }
}

/// From any token on, the append goes through.
proof fn lemma_grows_from(f: FieldLists, v: AppendView, end: u32, writes: Seq<WriteView>)
    requires
        f.ready(v, end),
        v.block is None,
        0 <= v.at <= v.rep.token_count(),
        f.done_so_far(v, writes),
    ensures
        f.grows(v, writes, (2 * (v.rep.token_count() - v.at)) as nat),
    decreases v.rep.token_count() - v.at, 1int,
{
    let reads = (2 * (v.rep.token_count() - v.at)) as nat;
    if v.at == v.rep.token_count() {
        lemma_all_done(f, v, end, writes);
    } else {
        let l = f.at(v.token());
        let before = f.store.put_all(writes);
        let v2 = AppendView { at: v.at + 1, ..v };
        lemma_rep_tokens(v.rep);
        assert(v.rep.list(v.rep.token_at(v.at)).len() > 0);
        assert(stands_at(v, l));
        assert(l.valid() && appendable(l, v.start, v.list(), end));
        lemma_token_untouched(f, v, writes);
        let q = v.query()->0;
        assert forall|reply: Option<EntryView>| #[trigger]
            f.store.answers(q, reply) implies match v.step(reply) {
            Ok((v1, more)) => f.grows(v1, writes + more, (reads - 1) as nat),
            Err(_) => false,
        } by {
            if l.list.len() + v.list().len() == 1 {
                lemma_single_token(l, v, end, reply, before);
                if l.written_out() {
                    lemma_single_written(l, v, end, reply, before);
                }
                let more = token_writes(v, reply, seq![]);
                lemma_one_more_done(f, v, writes, more);
                lemma_grows_from(f, v2, end, writes + more);
                lemma_more_reads(f, v2, writes + more, (reads - 2) as nat, (reads - 1) as nat);
            } else {
                lemma_first_answer(l, v, end, reply);
                lemma_grows_after_first(f, v, end, writes, reply);
            }
        }
    }
}

/// With the first answer for a token that gets blocks, the append goes through.
#[verifier::rlimit(40)]
proof fn lemma_grows_after_first(
    f: FieldLists,
    v: AppendView,
    end: u32,
    writes: Seq<WriteView>,
    stats: Option<EntryView>,
)
    requires
        f.ready(v, end),
        v.block is None,
        0 <= v.at < v.rep.token_count(),
        f.done_so_far(v, writes),
        stands_at(v, f.at(v.token())),
        (f.lists)(v.token()).len() + v.list().len() >= 2,
        f.store.answers(
            QueryView::Get { section: Section::Stats, key: spec_stats_key(f.name, v.token()) },
            stats,
        ),
    ensures
        ({
            let block = new_block(stats_in(stats), v.start, v.list());
            f.grows(
                AppendView { block: Some(block), ..v },
                writes + token_writes(v, stats, seq![]).take(1),
                (2 * (v.rep.token_count() - v.at) - 1) as nat,
            )
        }),
    decreases v.rep.token_count() - v.at, 0int,
{
    let l = f.at(v.token());
    let block = new_block(stats_in(stats), v.start, v.list());
    let v1 = AppendView { block: Some(block), ..v };
    let v2 = AppendView { at: v.at + 1, ..v };
    let stats_write = token_writes(v, stats, seq![]).take(1);
    let reads = (2 * (v.rep.token_count() - v.at) - 1) as nat;
    assert(v.rep.list(v.token()).len() > 0);
    assert(l.valid() && appendable(l, v.start, v.list(), end));
    lemma_first_answer(l, v, end, stats);
    let q = v1.query()->0;
    assert forall|reply: Option<EntryView>| #[trigger]
        f.store.answers(q, reply) implies match v1.step(reply) {
        Ok((v3, more)) => f.grows(v3, writes + stats_write + more, (reads - 1) as nat),
        Err(_) => false,
    } by {
        let all = lemma_second_answer(f, v, end, writes, stats, reply);
        assert(writes + stats_write + all.skip(1) =~= writes + all);
        lemma_grows_from(f, v2, end, writes + all);
    }
}

/// The second answer for a token completes it.
#[verifier::rlimit(40)]
proof fn lemma_second_answer(
    f: FieldLists,
    v: AppendView,
    end: u32,
    writes: Seq<WriteView>,
    stats: Option<EntryView>,
    reply: Option<EntryView>,
) -> (all: Seq<WriteView>)
    requires
        f.ready(v, end),
        v.block is None,
        0 <= v.at < v.rep.token_count(),
        f.done_so_far(v, writes),
        stands_at(v, f.at(v.token())),
        (f.lists)(v.token()).len() + v.list().len() >= 2,
        f.store.answers(
            QueryView::Get { section: Section::Stats, key: spec_stats_key(f.name, v.token()) },
            stats,
        ),
        f.store.answers(
            QueryView::Last {
                section: Section::DocPl,
                lo: f.at(v.token()).key(0),
                hi: f.at(v.token()).key(
                    new_block(stats_in(stats), v.start, v.list()).docids[0],
                ),
            },
            reply,
        ),
    ensures
        ({
            let block = new_block(stats_in(stats), v.start, v.list());
            let v2 = AppendView { at: v.at + 1, ..v };
            &&& (AppendView { block: Some(block), ..v }).step(reply) == Ok::<_, AppendError>(
                (v2, all.skip(1)),
            )
            &&& all.take(1) == token_writes(v, stats, seq![]).take(1)
            &&& all.len() >= 1
            &&& f.done_so_far(v2, writes + all)
        }),
{
    let l = f.at(v.token());
    let before = f.store.put_all(writes);
    let block = new_block(stats_in(stats), v.start, v.list());
    let v1 = AppendView { block: Some(block), ..v };
    assert(v.rep.list(v.token()).len() > 0);
    assert(l.valid() && appendable(l, v.start, v.list(), end));
    lemma_token_untouched(f, v, writes);
    lemma_first_answer(l, v, end, stats);
    let new = if l.list.len() <= 1 {
        lemma_second_answer_short(l, v, end, stats, block, reply, before)
    } else {
        lemma_second_answer_long(l, v, end, stats, block, reply, before)
    };
    if l.written_out() {
        lemma_blocks_written_after(l, v, end, stats, before, block, new);
    }
    let all = token_writes(v, stats, new);
    assert(v1.positions_part() == v.positions_part());
    assert(all.skip(1) =~= block_writes(v.name, v.token(), v.features, new) + v.positions_part());
    assert(all.take(1) =~= token_writes(v, stats, seq![]).take(1));
    lemma_one_more_done(f, v, writes, all);
    all
}

/// Appending a buffer to a field puts its postings at the ends of the posting lists. Whatever true
/// answers the store gives, no answer makes the append fail, two reads for each token are enough,
/// and afterwards the store holds, for every token, the list it had followed by the postings of
/// the buffer: lists of tokens that are not in the buffer stay as they were.
pub proof fn law_append(f: FieldLists, v: AppendView, end: u32)
    requires
        f.ready(v, end),
        v.at == 0,
        v.block is None,
    ensures
        f.grows(v, seq![], 2 * v.rep.token_count()),
{
    lemma_grows_from(f, v, end, seq![]);
}

/// With some true answers of the store, an append that stands at `v` writes `writes` and is done.
pub open spec fn wrote(
    store: FieldStore,
    v: AppendView,
    writes: Seq<WriteView>,
    reads: nat,
) -> bool
    decreases reads,
{
    match v.query() {
        None => writes.len() == 0,
        Some(q) => reads > 0 && exists|reply: Option<EntryView>| #[trigger]
            store.answers(q, reply) && match v.step(reply) {
                Ok((v2, more)) => {
                    &&& more.len() <= writes.len()
                    &&& writes.take(more.len() as int) == more
                    &&& wrote(store, v2, writes.skip(more.len() as int), (reads - 1) as nat)
                },
                Err(_) => false,
            },
    }
}

#[verifier::rlimit(40)]
proof fn lemma_wrote_grown(
    f: FieldLists,
    v: AppendView,
    before: Seq<WriteView>,
    writes: Seq<WriteView>,
    most: nat,
    reads: nat,
)
    requires
        f.grows(v, before, most),
        wrote(f.store, v, writes, reads),
    ensures
        f.grown(v, before + writes),
    decreases reads,
{
    match v.query() {
        None => {
            assert(before + writes =~= before);
        },
        Some(q) => {
            let reply = choose|reply: Option<EntryView>| #[trigger]
                f.store.answers(q, reply) && match v.step(reply) {
                    Ok((v2, more)) => {
                        &&& more.len() <= writes.len()
                        &&& writes.take(more.len() as int) == more
                        &&& wrote(f.store, v2, writes.skip(more.len() as int), (reads - 1) as nat)
                    },
                    Err(_) => false,
                };
            let (v2, more) = v.step(reply)->Ok_0;
            let rest = writes.skip(more.len() as int);
            lemma_wrote_grown(f, v2, before + more, rest, (most - 1) as nat, (reads - 1) as nat);
            assert(before + more + rest =~= before + writes);
            let (a, b) = (f.after(v, before + writes), f.after(v2, before + writes));
            assert(a.lists =~= b.lists);
            assert forall|t: Seq<u8>| f.apart(v, t) implies #[trigger] f.apart(v2, t) by {}
            assert forall|i: int|
                0 <= i < (before + writes).len() implies #[trigger] f.is_for_buffer(
                v,
                (before + writes)[i],
            ) by {
                assert(f.is_for_buffer(v2, (before + writes)[i]));
            }
        },
    }
}

/// An append that is run to its end, with any true answers of the store, makes the lists grow.
pub proof fn law_append_written(
    f: FieldLists,
    v: AppendView,
    end: u32,
    writes: Seq<WriteView>,
    reads: nat,
)
    requires
        f.ready(v, end),
        v.at == 0,
        v.block is None,
        wrote(f.store, v, writes, reads),
    ensures
        f.grown(v, writes),
{
    law_append(f, v, end);
    lemma_wrote_grown(f, v, seq![], writes, 2 * v.rep.token_count(), reads);
    assert(Seq::<WriteView>::empty() + writes =~= writes);
}

/// The blocks of a token without a separator do not lie among those of another such token.
pub proof fn lemma_blocks_apart(l: StoredList, s: Seq<u8>, d: DocId)
    requires
        !l.token.contains(SEPARATOR),
        !s.contains(SEPARATOR),
        l.in_range(spec_pl_key(l.name, s, d)),
    ensures
        s == l.token,
{
    let token = l.token;
    let k = spec_pl_key(l.name, s, d);
    let n = l.name.len() as int;
    let front = pl_front(l.name, token);
    lemma_between_has_front(front, be_bytes(0), k, be_bytes(DOC_ID_DONE));
    assert(k.take(front.len() as int) == front);
    assert(forall|i: int| 0 <= i < front.len() ==> k[i] == front[i]);
    if s.len() < token.len() {
        assert(k[n + 1 + s.len()] == SEPARATOR);
        assert(front[n + 1 + s.len()] == token[s.len() as int]);
    } else if s.len() > token.len() {
        assert(front[n + 1 + token.len()] == SEPARATOR);
        assert(k[n + 1 + token.len()] == s[token.len() as int]);
    } else {
        assert forall|i: int| 0 <= i < s.len() implies s[i] == token[i] by {
            assert(k[n + 1 + i] == s[i]);
            assert(front[n + 1 + i] == token[i]);
        }
        assert(s =~= token);
    }
}

/// Tokens without a separator keep apart.
pub proof fn law_tokens_apart(f: FieldLists, v: AppendView, token: Seq<u8>)
    requires
        !token.contains(SEPARATOR),
        forall|s: Seq<u8>| #[trigger] v.rep.list(s).len() > 0 ==> !s.contains(SEPARATOR),
    ensures
        f.apart(v, token),
{
    assert forall|s: Seq<u8>, d: DocId| v.rep.list(s).len() > 0 && s != token implies !f.at(
        token,
    ).in_range(#[trigger] spec_pl_key(f.name, s, d)) by {
        if f.at(token).in_range(spec_pl_key(f.name, s, d)) {
            lemma_blocks_apart(f.at(token), s, d);
        }
    }
}

/// An empty store holds an empty list for every token.
pub proof fn law_empty_store(name: Seq<u8>, features: TokenFieldFeatures, token: Seq<u8>)
    ensures
        (StoredList {
            store: FieldStore { stats: Map::empty(), docpl: Map::empty(), pospl: Map::empty() },
            name,
            features,
            token,
            list: seq![],
        }).valid(),
{
    reveal(StoredList::stats_held);
    reveal(StoredList::positions_held);
}

/// The documents of a buffer lie between the first free docid before the append and the one after
/// it, so that the next append can go on from there.
pub proof fn law_next_docid(f: FieldLists, v: AppendView, end: u32, writes: Seq<WriteView>, t: Seq<u8>)
    requires
        in_doc_order(v.rep.list(t), end),
        v.start + end <= u64::MAX,
        forall|i: int| 0 <= i < (f.lists)(t).len() ==> (#[trigger] (f.lists)(t)[i]).doc < v.start,
    ensures
        forall|i: int|
            0 <= i < (f.after(v, writes).lists)(t).len() ==> (#[trigger] (f.after(
                v,
                writes,
            ).lists)(t)[i]).doc < v.start + end,
{
    let n = (f.lists)(t).len();
    assert forall|i: int| 0 <= i < (f.after(v, writes).lists)(t).len() implies (#[trigger] (f.after(
        v,
        writes,
    ).lists)(t)[i]).doc < v.start + end by {
        if i < n {
            assert((f.lists)(t)[i].doc < v.start);
        } else {
            assert(v.rep.list(t)[i - n].doc < end);
        }
    }
}

/// What was appended is read back. After an append that has gone through, a new iterator over a
/// token comes, by calls of `next()`, to each document that the token was in before and then to
/// each document of the buffer that it is in.
pub proof fn law_read_back(
    f: FieldLists,
    v: AppendView,
    writes: Seq<WriteView>,
    token: Seq<u8>,
    reply: Option<EntryView>,
    p: int,
)
    requires
        f.grown(v, writes),
        f.at(token).valid(),
        f.apart(v, token),
        0 <= p < (f.lists)(token).len() + v.rep.list(token).len(),
        f.store.put_all(writes).answers(
            QueryView::Get { section: Section::Stats, key: spec_stats_key(f.name, token) },
            reply,
        ),
    ensures
        ({
            let l = f.after(v, writes).at(token);
            &&& reply matches Some(e)
            &&& TokenStats::spec_decode(e.value) matches Some(stats)
            &&& l.nexts_reach(new_iter(f.name, f.features, token, stats), (p + 1) as nat, p)
            &&& l.list[p] == (if p < (f.lists)(token).len() {
                (f.lists)(token)[p]
            } else {
                new_postings(v.start, v.rep.list(token))[p - (f.lists)(token).len()]
            })
        }),
{
    let l = f.after(v, writes).at(token);
    assert(l.valid());
    law_new(l, reply);
    let e = reply->0;
    let stats = TokenStats::spec_decode(e.value)->0;
    law_iteration(l, new_iter(f.name, f.features, token, stats), -1, (p + 1) as nat);
}

} // verus!
