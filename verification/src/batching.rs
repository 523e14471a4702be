//! Documents appended in batches: what the store holds afterwards does not depend on the batches.
use crate::append::AppendView;
use crate::append_law::{law_append_written, lemma_blocks_apart, wrote, FieldLists};
use crate::buffer::{doc_postings, hits, in_doc_order, TokenIndexBuffer, TokenIndexBufferRep};
use crate::features::TokenFieldFeatures;
use crate::field::{spec_pl_key, spec_pospl_key, spec_stats_key, Section, SEPARATOR};
use crate::positions::positions_ascend;
use crate::stats::DocId;
use crate::store::{last_write, lemma_not_written, lemma_put_all_at, WriteView};
use crate::stored_list::{occurrences, Posting, StoredList};
use crate::token_append::{
    agree, appendable, belongs, fits_field, lemma_occurrences_parts, new_postings, same_at,
    within_limits,
};
use crate::token_map::{law_posting_counts, posting_of, LocalPosting};
use crate::written_out::{empty_store, lemma_written_out_held};
use vstd::prelude::*;

verus! {

/// A document, as the positions at which each token stands in it.
pub type Doc = spec_fn(Seq<u8>) -> Seq<u32>;

/// The postings of a token in documents that are numbered from zero.
pub open spec fn gathered(features: TokenFieldFeatures, docs: Seq<Doc>, token: Seq<u8>) -> Seq<
    LocalPosting,
>
    decreases docs.len(),
{
    if docs.len() == 0 {
        seq![]
    } else {
        let front = gathered(features, docs.drop_last(), token);
        let positions = (docs.last())(token);
        if positions.len() == 0 {
            front
        } else {
            front.push(posting_of(features, (docs.len() - 1) as u32, positions))
        }
    }
}

/// The postings of a token are those of exactly the documents that it is in: `at` are their numbers,
/// ascending, and each posting has the occurrences of the token in its document, as far as they are
/// recorded.
pub proof fn law_gathered(features: TokenFieldFeatures, docs: Seq<Doc>, token: Seq<u8>) -> (at: Seq<
    int,
>)
    requires
        docs.len() <= u32::MAX,
    ensures
        at.len() == gathered(features, docs, token).len(),
        forall|j: int|
            0 <= j < at.len() ==> {
                let p = gathered(features, docs, token)[j];
                let positions = (docs[at[j]])(token);
                &&& 0 <= #[trigger] at[j] < docs.len()
                &&& positions.len() > 0
                &&& p.doc == at[j]
                &&& features is Doc ==> p.tf == 1
                &&& features is WithTermFrequency ==> p.tf == positions.len() as u32
                &&& features is WithPositions ==> p.tf == positions.len() as u32 && p.positions
                    == positions
                &&& !(features is WithPositions) ==> p.positions.len() == 0
            },
        forall|j: int, k: int| 0 <= j < k < at.len() ==> at[j] < at[k],
        forall|i: int|
            0 <= i < docs.len() && ((#[trigger] docs[i])(token)).len() > 0 ==> at.contains(i),
    decreases docs.len(),
{
    if docs.len() == 0 {
        Seq::empty()
    } else {
        let front = docs.drop_last();
        let n = docs.len() - 1;
        let before = law_gathered(features, front, token);
        let at = if (docs.last())(token).len() > 0 {
            before.push(n)
        } else {
            before
        };
        law_posting_counts(features, n as u32, (docs.last())(token));
        assert forall|j: int| 0 <= j < at.len() implies {
            let p = gathered(features, docs, token)[j];
            let positions = (docs[at[j]])(token);
            &&& 0 <= #[trigger] at[j] < docs.len()
            &&& positions.len() > 0
            &&& p.doc == at[j]
            &&& features is Doc ==> p.tf == 1
            &&& features is WithTermFrequency ==> p.tf == positions.len() as u32
            &&& features is WithPositions ==> p.tf == positions.len() as u32 && p.positions
                == positions
            &&& !(features is WithPositions) ==> p.positions.len() == 0
        } by {
            if j < before.len() {
                assert(at[j] == before[j]);
                assert(front[before[j]] == docs[before[j]]);
                assert(gathered(features, docs, token)[j] == gathered(features, front, token)[j]);
            }
        }
        assert forall|j: int, k: int| 0 <= j < k < at.len() implies at[j] < at[k] by {
            assert(at[j] == before[j]);
            assert(before[j] < front.len());
        }
        assert forall|i: int|
            0 <= i < docs.len() && ((#[trigger] docs[i])(token)).len() > 0 implies at.contains(i) by {
            if i < n {
                assert(front[i] == docs[i]);
                let j = choose|j: int| 0 <= j < before.len() && before[j] == i;
                assert(at[j] == i);
            } else {
                assert(at[before.len() as int] == n);
            }
        }
        at
    }
}

/// The buffer holds these documents.
pub open spec fn holds_docs(rep: TokenIndexBufferRep, docs: Seq<Doc>) -> bool {
    forall|t: Seq<u8>| #[trigger] rep.list(t) == gathered(rep.features(), docs, t)
}

/// A buffer that holds documents has, for every token, a posting for exactly the documents that the
/// token is in: `at` are their numbers, ascending.
pub proof fn law_holds_docs(rep: TokenIndexBufferRep, docs: Seq<Doc>, token: Seq<u8>) -> (at: Seq<int>)
    requires
        holds_docs(rep, docs),
        docs.len() <= u32::MAX,
    ensures
        at.len() == rep.list(token).len(),
        forall|j: int|
            0 <= j < at.len() ==> {
                let p = rep.list(token)[j];
                let positions = (docs[at[j]])(token);
                &&& 0 <= #[trigger] at[j] < docs.len()
                &&& positions.len() > 0
                &&& p.doc == at[j]
                &&& rep is Doc ==> p.tf == 1
                &&& !(rep is Doc) ==> p.tf == positions.len() as u32
                &&& rep is WithPositions ==> p.positions == positions
                &&& !(rep is WithPositions) ==> p.positions.len() == 0
            },
        forall|j: int, k: int| 0 <= j < k < at.len() ==> at[j] < at[k],
        forall|i: int|
            0 <= i < docs.len() && ((#[trigger] docs[i])(token)).len() > 0 ==> at.contains(i),
{
    assert(rep.list(token) == gathered(rep.features(), docs, token));
    law_gathered(rep.features(), docs, token)
}

/// A document that is added to a buffer comes behind those that are there.
pub proof fn law_add_doc(
    before: TokenIndexBuffer,
    after: TokenIndexBuffer,
    docs: Seq<Doc>,
    tokens: Seq<(u32, Vec<u8>)>,
)
    requires
        holds_docs(before.spec_rep(), docs),
        before.spec_next_docid() == docs.len(),
        after.spec_features() == before.spec_features(),
        forall|t: Seq<u8>| #[trigger]
            after.postings(t) == before.postings(t) + doc_postings(
                before.spec_features(),
                before.spec_next_docid(),
                tokens,
                t,
            ),
    ensures
        holds_docs(after.spec_rep(), docs.push(|t: Seq<u8>| hits(tokens, t))),
{
    let doc = |t: Seq<u8>| hits(tokens, t);
    assert forall|t: Seq<u8>| #[trigger] after.spec_rep().list(t) == gathered(
        after.spec_features(),
        docs.push(doc),
        t,
    ) by {
        assert(docs.push(doc).drop_last() =~= docs);
        assert(after.postings(t) == after.spec_rep().list(t));
        assert(before.postings(t) == before.spec_rep().list(t));
        assert(doc(t) == hits(tokens, t));
        assert(after.postings(t) =~= gathered(after.spec_features(), docs.push(doc), t));
    }
}

/// The postings of a token in documents that are numbered from `start` on.
pub open spec fn doc_list(
    features: TokenFieldFeatures,
    start: int,
    docs: Seq<Doc>,
    token: Seq<u8>,
) -> Seq<Posting>
    decreases docs.len(),
{
    if docs.len() == 0 {
        seq![]
    } else {
        let front = doc_list(features, start, docs.drop_last(), token);
        let positions = (docs.last())(token);
        if positions.len() == 0 {
            front
        } else {
            front.push(doc_posting(features, start + docs.len() - 1, docs.last(), token))
        }
    }
}

/// Gathered postings that are placed are those of the documents.
proof fn lemma_gathered_placed(
    features: TokenFieldFeatures,
    start: DocId,
    docs: Seq<Doc>,
    token: Seq<u8>,
)
    requires
        docs.len() <= u32::MAX,
        start + docs.len() <= u64::MAX,
    ensures
        new_postings(start, gathered(features, docs, token)) == doc_list(
            features,
            start as int,
            docs,
            token,
        ),
        in_doc_order(gathered(features, docs, token), docs.len() as u32),
        forall|i: int|
            0 <= i < doc_list(features, start as int, docs, token).len() ==> start <= (
            #[trigger] doc_list(features, start as int, docs, token)[i]).doc < start + docs.len(),
    decreases docs.len(),
{
    if docs.len() > 0 {
        let front = docs.drop_last();
        lemma_gathered_placed(features, start, front, token);
        let positions = (docs.last())(token);
        let list = gathered(features, docs, token);
        let before = gathered(features, front, token);
        assert(new_postings(start, list) =~= doc_list(features, start as int, docs, token));
        assert forall|i: int| 0 <= i < list.len() implies (#[trigger] list[i]).doc
            < docs.len() as u32 by {
            if i < before.len() {
                assert(list[i] == before[i]);
            }
        }
        assert forall|i: int, j: int| 0 <= i < j < list.len() implies list[i].doc < list[j].doc by {
            if j < before.len() {
                assert(list[i] == before[i] && list[j] == before[j]);
            } else {
                assert(list[i] == before[i]);
                assert(before[i].doc < front.len() as u32);
            }
        }
        let all = doc_list(features, start as int, docs, token);
        let some = doc_list(features, start as int, front, token);
        assert forall|i: int| 0 <= i < all.len() implies start <= (#[trigger] all[i]).doc < start
            + docs.len() by {
            if i < some.len() {
                assert(all[i] == some[i]);
            }
        }
    } else {
        assert(new_postings(start, gathered(features, docs, token)) =~= seq![]);
    }
}

/// The documents can be taken in two parts.
proof fn lemma_doc_list_parts(
    features: TokenFieldFeatures,
    start: int,
    a: Seq<Doc>,
    b: Seq<Doc>,
    token: Seq<u8>,
)
    ensures
        doc_list(features, start, a + b, token) == doc_list(features, start, a, token) + doc_list(
            features,
            start + a.len(),
            b,
            token,
        ),
    decreases b.len(),
{
    if b.len() == 0 {
        assert(a + b =~= a);
        assert(doc_list(features, start, a, token) + seq![] =~= doc_list(features, start, a, token));
    } else {
        lemma_doc_list_parts(features, start, a, b.drop_last(), token);
        assert((a + b).drop_last() =~= a + b.drop_last());
        assert(doc_list(features, start, a + b, token) =~= doc_list(features, start, a, token)
            + doc_list(features, start + a.len(), b, token));
    }
}

/// A posting of a document: its number, how often the token occurs in it, and where.
pub open spec fn doc_posting(
    features: TokenFieldFeatures,
    number: int,
    doc: Doc,
    token: Seq<u8>,
) -> Posting {
    let p = posting_of(features, 0, doc(token));
    Posting { doc: number as u64, tf: p.tf, positions: p.positions }
}

/// Every document with the token has its posting in the list. Where positions are recorded, they
/// are those that the document was added with, and the term frequency is their number.
pub proof fn law_postings_of_docs(
    features: TokenFieldFeatures,
    start: int,
    docs: Seq<Doc>,
    token: Seq<u8>,
    i: int,
)
    requires
        0 <= i < docs.len(),
        (docs[i])(token).len() > 0,
    ensures
        exists|p: int|
            0 <= p < doc_list(features, start, docs, token).len() && #[trigger] doc_list(
                features,
                start,
                docs,
                token,
            )[p] == doc_posting(features, start + i, docs[i], token),
        features is WithPositions ==> {
            let posting = doc_posting(features, start + i, docs[i], token);
            posting.positions == (docs[i])(token) && posting.tf == posting.positions.len() as u32
        },
    decreases docs.len(),
{
    let all = doc_list(features, start, docs, token);
    let front = doc_list(features, start, docs.drop_last(), token);
    let want = doc_posting(features, start + i, docs[i], token);
    if i == docs.len() - 1 {
        assert(docs.last() == docs[i]);
        assert(all[front.len() as int] == want);
    } else {
        assert(docs.drop_last()[i] == docs[i]);
        law_postings_of_docs(features, start, docs.drop_last(), token, i);
        let p = choose|p: int| 0 <= p < front.len() && #[trigger] front[p] == want;
        assert(all[p] == want);
    }
}

/// The list of a token has a posting for exactly the documents that it is in: `at` are their places
/// among the documents, ascending, and a document has the number of its place from `start` on. Where
/// frequencies are recorded, that of a posting is the number of occurrences, however many; where
/// positions are recorded, they are those that the document was added with.
pub proof fn law_doc_list(
    features: TokenFieldFeatures,
    start: int,
    docs: Seq<Doc>,
    token: Seq<u8>,
) -> (at: Seq<int>)
    requires
        0 <= start,
        start + docs.len() <= u64::MAX,
    ensures
        at.len() == doc_list(features, start, docs, token).len(),
        forall|j: int|
            0 <= j < at.len() ==> {
                let p = doc_list(features, start, docs, token)[j];
                let positions = (docs[at[j]])(token);
                &&& 0 <= #[trigger] at[j] < docs.len()
                &&& positions.len() > 0
                &&& p.doc == start + at[j]
                &&& features is Doc ==> p.tf == 1
                &&& features is WithTermFrequency ==> p.tf == positions.len() as u32
                &&& features is WithPositions ==> p.tf == positions.len() as u32 && p.positions
                    == positions
                &&& !(features is WithPositions) ==> p.positions.len() == 0
            },
        forall|j: int, k: int| 0 <= j < k < at.len() ==> at[j] < at[k],
        forall|i: int|
            0 <= i < docs.len() && ((#[trigger] docs[i])(token)).len() > 0 ==> at.contains(i),
    decreases docs.len(),
{
    if docs.len() == 0 {
        Seq::empty()
    } else {
        let front = docs.drop_last();
        let n = docs.len() - 1;
        let before = law_doc_list(features, start, front, token);
        let at = if (docs.last())(token).len() > 0 {
            before.push(n)
        } else {
            before
        };
        law_posting_counts(features, 0, (docs.last())(token));
        assert forall|j: int| 0 <= j < at.len() implies {
            let p = doc_list(features, start, docs, token)[j];
            let positions = (docs[at[j]])(token);
            &&& 0 <= #[trigger] at[j] < docs.len()
            &&& positions.len() > 0
            &&& p.doc == start + at[j]
            &&& features is Doc ==> p.tf == 1
            &&& features is WithTermFrequency ==> p.tf == positions.len() as u32
            &&& features is WithPositions ==> p.tf == positions.len() as u32 && p.positions
                == positions
            &&& !(features is WithPositions) ==> p.positions.len() == 0
        } by {
            if j < before.len() {
                assert(at[j] == before[j]);
                assert(front[before[j]] == docs[before[j]]);
                assert(doc_list(features, start, docs, token)[j] == doc_list(
                    features,
                    start,
                    front,
                    token,
                )[j]);
            }
        }
        assert forall|j: int, k: int| 0 <= j < k < at.len() implies at[j] < at[k] by {
            assert(at[j] == before[j]);
            assert(before[j] < front.len());
        }
        assert forall|i: int|
            0 <= i < docs.len() && ((#[trigger] docs[i])(token)).len() > 0 implies at.contains(i) by {
            if i < n {
                assert(front[i] == docs[i]);
                let j = choose|j: int| 0 <= j < before.len() && before[j] == i;
                assert(at[j] == i);
            } else {
                assert(at[before.len() as int] == n);
            }
        }
        at
    }
}

/// The tokens of a document hold no separator, and stand at ascending positions.
pub open spec fn sound(doc: Doc) -> bool {
    forall|t: Seq<u8>|
        (#[trigger] doc(t)).len() > 0 ==> !t.contains(SEPARATOR) && positions_ascend(doc(t))
}

pub open spec fn all_sound(docs: Seq<Doc>) -> bool {
    forall|i: int| 0 <= i < docs.len() ==> sound(#[trigger] docs[i])
}

/// Postings of sound documents fit the field, and are of tokens without a separator.
proof fn lemma_gathered_fits(features: TokenFieldFeatures, docs: Seq<Doc>, token: Seq<u8>)
    requires
        all_sound(docs),
    ensures
        forall|i: int|
            0 <= i < gathered(features, docs, token).len() ==> fits_field(
                #[trigger] gathered(features, docs, token)[i],
                features,
            ),
        gathered(features, docs, token).len() > 0 ==> !token.contains(SEPARATOR),
    decreases docs.len(),
{
    if docs.len() > 0 {
        let front = docs.drop_last();
        assert(all_sound(front)) by {
            assert forall|i: int| 0 <= i < front.len() implies sound(#[trigger] front[i]) by {
                assert(front[i] == docs[i]);
            }
        }
        lemma_gathered_fits(features, front, token);
        assert(sound(docs[docs.len() - 1]));
        let list = gathered(features, docs, token);
        let before = gathered(features, front, token);
        assert forall|i: int| 0 <= i < list.len() implies fits_field(
            #[trigger] list[i],
            features,
        ) by {
            if i < before.len() {
                assert(list[i] == before[i]);
            }
        }
    }
}

impl FieldLists {
    /// Every entry of the store is one of some token.
    pub open spec fn only_own(self) -> bool {
        &&& forall|k: Seq<u8>| #[trigger]
            self.store.stats.contains_key(k) ==> exists|t: Seq<u8>|
                k == #[trigger] spec_stats_key(self.name, t)
        &&& forall|k: Seq<u8>| #[trigger]
            self.store.docpl.contains_key(k) ==> exists|t: Seq<u8>, d: DocId|
                k == #[trigger] spec_pl_key(self.name, t, d)
        &&& forall|k: Seq<u8>| #[trigger]
            self.store.pospl.contains_key(k) ==> exists|t: Seq<u8>, d: DocId|
                k == #[trigger] spec_pospl_key(self.name, d, t)
    }

    /// The store holds the lists written out, of tokens without a separator, and nothing else.
    pub open spec fn whole(self) -> bool {
        &&& forall|t: Seq<u8>| (#[trigger] self.at(t)).written_out()
        &&& self.only_own()
        &&& forall|t: Seq<u8>|
            (#[trigger] self.at(t)).list.len() > 0 ==> !t.contains(SEPARATOR)
    }
}

/// An empty store is whole.
pub proof fn law_empty_whole(f: FieldLists)
    requires
        f.store == empty_store(),
        forall|t: Seq<u8>| (#[trigger] f.at(t)).list.len() == 0,
    ensures
        f.whole(),
{
}

/// Two stores that hold the same lists written out, and nothing else, have the same entries.
pub proof fn law_same_entries(f: FieldLists, g: FieldLists)
    requires
        f.whole(),
        g.whole(),
        f.name == g.name,
        f.features == g.features,
        forall|t: Seq<u8>| (#[trigger] f.at(t)).list == g.at(t).list,
    ensures
        f.store == g.store,
{
    assert forall|t: Seq<u8>|
        #![trigger f.at(t)]
        (StoredList { store: g.store, ..f.at(t) }) == g.at(t) by {}
    assert forall|k: Seq<u8>| same_at(f.store.stats, g.store.stats, k) by {
        if f.store.stats.contains_key(k) || g.store.stats.contains_key(k) {
            let t = choose|t: Seq<u8>| k == #[trigger] spec_stats_key(f.name, t);
            lemma_same_token(f, g, t);
        }
    }
    assert forall|k: Seq<u8>| same_at(f.store.docpl, g.store.docpl, k) by {
        if f.store.docpl.contains_key(k) || g.store.docpl.contains_key(k) {
            let (t, d) = choose|t: Seq<u8>, d: DocId| k == #[trigger] spec_pl_key(f.name, t, d);
            lemma_same_token(f, g, t);
            assert(same_at(f.store.docpl, g.store.docpl, spec_pl_key(f.name, t, d)));
        }
    }
    assert forall|k: Seq<u8>| same_at(f.store.pospl, g.store.pospl, k) by {
        if f.store.pospl.contains_key(k) || g.store.pospl.contains_key(k) {
            let (t, d) = choose|t: Seq<u8>, d: DocId| k == #[trigger] spec_pospl_key(f.name, d, t);
            lemma_same_token(f, g, t);
            assert(same_at(f.store.pospl, g.store.pospl, spec_pospl_key(f.name, d, t)));
        }
    }
    lemma_same_map(f.store.stats, g.store.stats);
    lemma_same_map(f.store.docpl, g.store.docpl);
    lemma_same_map(f.store.pospl, g.store.pospl);
}

proof fn lemma_same_map(a: Map<Seq<u8>, Seq<u8>>, b: Map<Seq<u8>, Seq<u8>>)
    requires
        forall|k: Seq<u8>| same_at(a, b, k),
    ensures
        a == b,
{
    assert forall|k: Seq<u8>| a.contains_key(k) == b.contains_key(k) by {
        assert(same_at(a, b, k));
    }
    assert forall|k: Seq<u8>| a.contains_key(k) implies a[k] == b[k] by {
        assert(same_at(a, b, k));
    }
    assert(a =~= b);
}

proof fn lemma_same_token(f: FieldLists, g: FieldLists, t: Seq<u8>)
    requires
        f.at(t).written_out(),
        g.at(t).written_out(),
        f.name == g.name,
        f.features == g.features,
        f.at(t).list == g.at(t).list,
    ensures
        agree(f.store, g.store, f.name, t),
{
    let out = empty_store().put_all(f.at(t).entries());
    assert(f.at(t).entries() == g.at(t).entries());
    assert forall|d: DocId| same_at(
        f.store.docpl,
        g.store.docpl,
        #[trigger] spec_pl_key(f.name, t, d),
    ) by {
        assert(same_at(f.store.docpl, out.docpl, spec_pl_key(f.name, t, d)));
        assert(same_at(g.store.docpl, out.docpl, spec_pl_key(f.name, t, d)));
    }
    assert forall|d: DocId| same_at(
        f.store.pospl,
        g.store.pospl,
        #[trigger] spec_pospl_key(f.name, d, t),
    ) by {
        assert(same_at(f.store.pospl, out.pospl, spec_pospl_key(f.name, d, t)));
        assert(same_at(g.store.pospl, out.pospl, spec_pospl_key(f.name, d, t)));
    }
}

/// In a whole store, the list of a token without a separator is valid.
pub proof fn lemma_whole_valid(f: FieldLists, t: Seq<u8>)
    requires
        f.whole(),
        !t.contains(SEPARATOR),
    ensures
        f.at(t).valid(),
{
    let l = f.at(t);
    assert(l.written_out());
    lemma_written_out_held(l);
    assert forall|k: Seq<u8>| #[trigger]
        l.store.docpl.contains_key(k) && l.in_range(k) implies exists|d: DocId|
        k == #[trigger] l.key(d) by {
        assert(f.store.docpl.contains_key(k));
        let (s, d) = choose|s: Seq<u8>, d: DocId| k == #[trigger] spec_pl_key(f.name, s, d);
        let other = f.at(s);
        assert(other.written_out());
        lemma_written_out_held(other);
        assert(other.store.docpl.contains_key(other.key(d)));
        assert(other.list.len() > 0);
        lemma_blocks_apart(l, s, d);
        assert(k == l.key(d));
    }
}

/// The list of a token, with the postings of further documents, has room for everything.
pub open spec fn roomy(name: Seq<u8>, token: Seq<u8>, list: Seq<Posting>) -> bool {
    &&& list.len() >= 2 ==> name.len() + token.len() >= 2
    &&& list.len() < 0x8000_0000_0000_0000
    &&& occurrences(list) <= u64::MAX
}

/// A batch of documents appended to a field: the append, its documents, and what it wrote.
pub struct Step {
    pub v: AppendView,
    pub docs: Seq<Doc>,
    pub writes: Seq<WriteView>,
    pub reads: nat,
}

impl Step {
    /// A buffer with the documents was appended from `start` on, and with some true answers of the
    /// store it wrote what it wrote.
    pub open spec fn went_through(self, f: FieldLists, start: int) -> bool {
        &&& self.v.name == f.name
        &&& self.v.features == f.features
        &&& self.v.rep.maps_wf()
        &&& self.v.rep.features() == f.features
        &&& self.v.at == 0
        &&& self.v.block is None
        &&& self.v.start == start
        &&& holds_docs(self.v.rep, self.docs)
        &&& self.docs.len() <= u32::MAX
        &&& wrote(f.store, self.v, self.writes, self.reads)
    }
}

/// The documents of all the batches.
pub open spec fn all_docs(steps: Seq<Step>) -> Seq<Doc>
    decreases steps.len(),
{
    if steps.len() == 0 {
        seq![]
    } else {
        all_docs(steps.drop_last()) + steps.last().docs
    }
}

/// The lists and the store after the batches.
pub open spec fn after_all(f: FieldLists, steps: Seq<Step>) -> FieldLists
    decreases steps.len(),
{
    if steps.len() == 0 {
        f
    } else {
        after_all(f, steps.drop_last()).after(steps.last().v, steps.last().writes)
    }
}

/// Each batch was appended to what the ones before it had left, from the next free docid on.
pub open spec fn all_went_through(f: FieldLists, start: DocId, steps: Seq<Step>) -> bool
    decreases steps.len(),
{
    steps.len() == 0 || {
        &&& all_went_through(f, start, steps.drop_last())
        &&& steps.last().went_through(
            after_all(f, steps.drop_last()),
            start + all_docs(steps.drop_last()).len(),
        )
    }
}

/// The documents can be appended from `start` on: their ids and those before them are unused,
/// they are sound, and there is room for them.
pub open spec fn can_follow(f: FieldLists, start: DocId, docs: Seq<Doc>) -> bool {
    &&& start + docs.len() <= 0x8000_0000_0000_0000
    &&& all_sound(docs)
    &&& forall|t: Seq<u8>, i: int|
        0 <= i < f.at(t).list.len() ==> (#[trigger] f.at(t).list[i]).doc < start
    &&& forall|t: Seq<u8>|
        roomy(
            f.name,
            t,
            (#[trigger] f.at(t)).list + doc_list(f.features, start as int, docs, t),
        )
}

/// Room for a list is room for its front.
proof fn lemma_roomy_front(name: Seq<u8>, token: Seq<u8>, a: Seq<Posting>, b: Seq<Posting>)
    requires
        roomy(name, token, a + b),
    ensures
        roomy(name, token, a),
{
    lemma_occurrences_parts(a, b);
}

/// Documents that can follow are ready to be appended as one batch.
proof fn lemma_step_ready(f: FieldLists, start: DocId, step: Step)
    requires
        f.whole(),
        step.went_through(f, start as int),
        can_follow(f, start, step.docs),
    ensures
        f.ready(step.v, step.docs.len() as u32),
        forall|t: Seq<u8>| #[trigger] step.v.rep.list(t).len() > 0 ==> !t.contains(SEPARATOR),
        forall|t: Seq<u8>|
            new_postings(start, #[trigger] step.v.rep.list(t)) == doc_list(
                f.features,
                start as int,
                step.docs,
                t,
            ),
{
    let v = step.v;
    let docs = step.docs;
    assert forall|t: Seq<u8>| #[trigger] v.rep.list(t).len() > 0 implies !t.contains(
        SEPARATOR,
    ) && f.at(t).valid() && appendable(f.at(t), start, v.rep.list(t), docs.len() as u32) by {
        let list = gathered(f.features, docs, t);
        assert(v.rep.list(t) == list);
        lemma_gathered_fits(f.features, docs, t);
        lemma_gathered_placed(f.features, start, docs, t);
        lemma_whole_valid(f, t);
        let all = f.at(t).list + doc_list(f.features, start as int, docs, t);
        assert(roomy(f.name, t, all));
        assert(within_limits(f.at(t), start, list)) by {
            if all.len() == 1 {
                if f.at(t).list.len() == 1 {
                    assert(f.at(t).list[0].doc < start);
                } else {
                    assert(all[0] == doc_list(f.features, start as int, docs, t)[0]);
                }
            }
        }
    }
    assert forall|t: Seq<u8>|
        new_postings(start, #[trigger] v.rep.list(t)) == doc_list(
            f.features,
            start as int,
            docs,
            t,
        ) by {
        assert(v.rep.list(t) == gathered(f.features, docs, t));
        lemma_gathered_placed(f.features, start, docs, t);
    }
}

/// After an append a whole store is whole.
proof fn lemma_step_whole(f: FieldLists, start: DocId, step: Step)
    requires
        f.whole(),
        step.went_through(f, start as int),
        can_follow(f, start, step.docs),
    ensures
        f.after(step.v, step.writes).whole(),
        forall|t: Seq<u8>|
            (#[trigger] f.after(step.v, step.writes).at(t)).list == f.at(t).list + doc_list(
                f.features,
                start as int,
                step.docs,
                t,
            ),
{
    let g = f.after(step.v, step.writes);
    let v = step.v;
    lemma_step_ready(f, start, step);
    law_append_written(f, v, step.docs.len() as u32, step.writes, step.reads);
    assert forall|t: Seq<u8>| (#[trigger] g.at(t)).list == f.at(t).list + doc_list(
        f.features,
        start as int,
        step.docs,
        t,
    ) by {
        assert(new_postings(start, v.rep.list(t)) == doc_list(
            f.features,
            start as int,
            step.docs,
            t,
        ));
    }
    assert forall|t: Seq<u8>| (#[trigger] g.at(t)).written_out() by {
        assert(f.at(t).written_out());
    }
    assert forall|t: Seq<u8>| (#[trigger] g.at(t)).list.len() > 0 implies !t.contains(
        SEPARATOR,
    ) by {
        if f.at(t).list.len() == 0 {
            assert(new_postings(start, v.rep.list(t)).len() > 0);
            assert(v.rep.list(t).len() > 0);
        }
    }
    assert(g.only_own()) by {
        assert forall|k: Seq<u8>| #[trigger] g.store.stats.contains_key(k) implies exists|
            t: Seq<u8>,
        |
            k == #[trigger] spec_stats_key(g.name, t) by {
            lemma_key_from(f, step, Section::Stats, k);
        }
        assert forall|k: Seq<u8>| #[trigger] g.store.docpl.contains_key(k) implies exists|
            t: Seq<u8>,
            d: DocId,
        |
            k == #[trigger] spec_pl_key(g.name, t, d) by {
            lemma_key_from(f, step, Section::DocPl, k);
        }
        assert forall|k: Seq<u8>| #[trigger] g.store.pospl.contains_key(k) implies exists|
            t: Seq<u8>,
            d: DocId,
        |
            k == #[trigger] spec_pospl_key(g.name, d, t) by {
            lemma_key_from(f, step, Section::PosPl, k);
        }
    }
}

/// A key that is there after an append is one of a token.
proof fn lemma_key_from(f: FieldLists, step: Step, section: Section, k: Seq<u8>)
    requires
        f.only_own(),
        f.grown(step.v, step.writes),
        f.store.put_all(step.writes).section(section).contains_key(k),
    ensures
        match section {
            Section::Stats => exists|t: Seq<u8>| k == #[trigger] spec_stats_key(f.name, t),
            Section::DocPl => exists|t: Seq<u8>, d: DocId|
                k == #[trigger] spec_pl_key(f.name, t, d),
            Section::PosPl => exists|t: Seq<u8>, d: DocId|
                k == #[trigger] spec_pospl_key(f.name, d, t),
        },
{
    let writes = step.writes;
    lemma_put_all_at(f.store, writes, section, k);
    if last_write(writes, section, k) is None {
        match section {
            Section::Stats => {
                assert(f.store.stats.contains_key(k));
            },
            Section::DocPl => {
                assert(f.store.docpl.contains_key(k));
            },
            Section::PosPl => {
                assert(f.store.pospl.contains_key(k));
            },
        }
    } else {
        if forall|i: int|
            0 <= i < writes.len() ==> !((#[trigger] writes[i]).section == section && writes[i].key
                == k) {
            lemma_not_written(writes, section, k);
        }
        let i = choose|i: int|
            0 <= i < writes.len() && (#[trigger] writes[i]).section == section && writes[i].key
                == k;
        assert(f.is_for_buffer(step.v, writes[i]));
        let t = choose|t: Seq<u8>| #[trigger]
            step.v.rep.list(t).len() > 0 && belongs(writes[i], f.name, t);
        assert(belongs(writes[i], f.name, t));
    }
}

/// What can follow in two parts: the first part can follow.
proof fn lemma_follow_front(f: FieldLists, start: DocId, a: Seq<Doc>, b: Seq<Doc>)
    requires
        can_follow(f, start, a + b),
    ensures
        can_follow(f, start, a),
{
    assert forall|i: int| 0 <= i < a.len() implies sound(#[trigger] a[i]) by {
        assert(a[i] == (a + b)[i]);
    }
    assert forall|t: Seq<u8>|
        roomy(f.name, t, (#[trigger] f.at(t)).list + doc_list(f.features, start as int, a, t)) by {
        lemma_doc_list_parts(f.features, start as int, a, b, t);
        let x = f.at(t).list + doc_list(f.features, start as int, a, t);
        let y = doc_list(f.features, start + a.len(), b, t);
        assert(roomy(f.name, t, f.at(t).list + doc_list(f.features, start as int, a + b, t)));
        assert(f.at(t).list + doc_list(f.features, start as int, a + b, t) =~= x + y);
        lemma_roomy_front(f.name, t, x, y);
    }
}

/// What can follow in two parts: once the first part is there, the second can follow.
proof fn lemma_follow_rest(f: FieldLists, g: FieldLists, start: DocId, a: Seq<Doc>, b: Seq<Doc>)
    requires
        can_follow(f, start, a + b),
        g.name == f.name,
        g.features == f.features,
        forall|t: Seq<u8>|
            (#[trigger] g.at(t)).list == f.at(t).list + doc_list(f.features, start as int, a, t),
    ensures
        can_follow(g, (start + a.len()) as u64, b),
        forall|t: Seq<u8>|
            (#[trigger] g.at(t)).list + doc_list(f.features, start + a.len(), b, t) == f.at(t).list
                + doc_list(f.features, start as int, a + b, t),
{
    let next = (start + a.len()) as u64;
    assert forall|i: int| 0 <= i < b.len() implies sound(#[trigger] b[i]) by {
        assert(b[i] == (a + b)[a.len() + i]);
    }
    assert forall|t: Seq<u8>|
        (#[trigger] g.at(t)).list + doc_list(f.features, start + a.len(), b, t) == f.at(t).list
            + doc_list(f.features, start as int, a + b, t) by {
        lemma_doc_list_parts(f.features, start as int, a, b, t);
        assert(g.at(t).list + doc_list(f.features, start + a.len(), b, t) =~= f.at(t).list
            + doc_list(f.features, start as int, a + b, t));
    }
    assert forall|t: Seq<u8>, i: int| 0 <= i < g.at(t).list.len() implies (#[trigger] g.at(
        t,
    ).list[i]).doc < next by {
        lemma_doc_list_bounds(f.features, start as int, a, t);
        let n = f.at(t).list.len();
        if i < n {
            assert(g.at(t).list[i] == f.at(t).list[i]);
        } else {
            assert(g.at(t).list[i] == doc_list(f.features, start as int, a, t)[i - n]);
        }
    }
    assert forall|t: Seq<u8>|
        roomy(g.name, t, (#[trigger] g.at(t)).list + doc_list(g.features, next as int, b, t)) by {
        assert(roomy(f.name, t, f.at(t).list + doc_list(f.features, start as int, a + b, t)));
    }
}

/// After appends in batches, each committed before the next, the store holds the lists that were
/// there with the postings of all the documents behind them, written out, and nothing else. The
/// last batch ends at the docid after all the documents.
pub proof fn law_run(f: FieldLists, start: DocId, steps: Seq<Step>)
    requires
        f.whole(),
        all_went_through(f, start, steps),
        can_follow(f, start, all_docs(steps)),
    ensures
        after_all(f, steps).whole(),
        after_all(f, steps).name == f.name,
        after_all(f, steps).features == f.features,
        forall|t: Seq<u8>|
            (#[trigger] after_all(f, steps).at(t)).list == f.at(t).list + doc_list(
                f.features,
                start as int,
                all_docs(steps),
                t,
            ),
        steps.len() > 0 ==> steps.last().v.start + steps.last().docs.len() == start + all_docs(
            steps,
        ).len(),
    decreases steps.len(),
{
    if steps.len() == 0 {
        assert forall|t: Seq<u8>| (#[trigger] f.at(t)).list == f.at(t).list + doc_list(
            f.features,
            start as int,
            seq![],
            t,
        ) by {
            assert(f.at(t).list + seq![] =~= f.at(t).list);
        }
    } else {
        let front = steps.drop_last();
        let step = steps.last();
        let before = all_docs(front);
        let g = after_all(f, front);
        lemma_follow_front(f, start, before, step.docs);
        law_run(f, start, front);
        lemma_follow_rest(f, g, start, before, step.docs);
        lemma_step_whole(g, (start + before.len()) as u64, step);
    }
}

/// The documents of the postings lie behind `start`.
proof fn lemma_doc_list_bounds(
    features: TokenFieldFeatures,
    start: int,
    docs: Seq<Doc>,
    token: Seq<u8>,
)
    requires
        0 <= start,
        start + docs.len() <= u64::MAX,
    ensures
        forall|i: int|
            0 <= i < doc_list(features, start, docs, token).len() ==> start <= (
            #[trigger] doc_list(features, start, docs, token)[i]).doc < start + docs.len(),
    decreases docs.len(),
{
    if docs.len() > 0 {
        lemma_doc_list_bounds(features, start, docs.drop_last(), token);
        let all = doc_list(features, start, docs, token);
        let some = doc_list(features, start, docs.drop_last(), token);
        assert forall|i: int| 0 <= i < all.len() implies start <= (#[trigger] all[i]).doc < start
            + docs.len() by {
            if i < some.len() {
                assert(all[i] == some[i]);
            }
        }
    }
}

/// How documents are divided into batches does not show: appended to the same store, in the same
/// order and from the same docid on, they leave the same entries in every section.
pub proof fn law_batching(f: FieldLists, start: DocId, a: Seq<Step>, b: Seq<Step>)
    requires
        f.whole(),
        all_went_through(f, start, a),
        all_went_through(f, start, b),
        all_docs(a) == all_docs(b),
        can_follow(f, start, all_docs(a)),
    ensures
        after_all(f, a).store == after_all(f, b).store,
{
    law_run(f, start, a);
    law_run(f, start, b);
    law_same_entries(after_all(f, a), after_all(f, b));
}

} // verus!
