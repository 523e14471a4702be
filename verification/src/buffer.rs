//! A buffer of documents that are to be appended to a field together.
use crate::features::TokenFieldFeatures;
use crate::token_map::{law_posting_counts, posting_of, Hit, LocalPosting, TokenMap};
use vstd::prelude::*;

verus! {

/// The positions at which `token` occurs in a document, in the order of the document.
pub open spec fn hits(tokens: Seq<(u32, Vec<u8>)>, token: Seq<u8>) -> Seq<u32>
    decreases tokens.len(),
{
    if tokens.len() == 0 {
        seq![]
    } else {
        let front = hits(tokens.drop_last(), token);
        if tokens.last().1@ == token {
            front.push(tokens.last().0)
        } else {
            front
        }
    }
}

/// Every occurrence of a token in a document counts, in the order of the document: `at` are the
/// indices of exactly those tokens of the document that are `token`, ascending, and their positions
/// are the ones that are noted.
pub proof fn law_every_occurrence(tokens: Seq<(u32, Vec<u8>)>, token: Seq<u8>) -> (at: Seq<int>)
    ensures
        at.len() == hits(tokens, token).len(),
        forall|j: int|
            0 <= j < at.len() ==> {
                &&& 0 <= #[trigger] at[j] < tokens.len()
                &&& tokens[at[j]].1@ == token
                &&& hits(tokens, token)[j] == tokens[at[j]].0
            },
        forall|j: int, k: int| 0 <= j < k < at.len() ==> at[j] < at[k],
        forall|k: int|
            0 <= k < tokens.len() && (#[trigger] tokens[k]).1@ == token ==> at.contains(k),
    decreases tokens.len(),
{
    if tokens.len() == 0 {
        Seq::empty()
    } else {
        let front = tokens.drop_last();
        let n = tokens.len() - 1;
        let before = law_every_occurrence(front, token);
        let at = if tokens.last().1@ == token {
            before.push(n)
        } else {
            before
        };
        assert forall|j: int| 0 <= j < at.len() implies {
            &&& 0 <= #[trigger] at[j] < tokens.len()
            &&& tokens[at[j]].1@ == token
            &&& hits(tokens, token)[j] == tokens[at[j]].0
        } by {
            if j < before.len() {
                assert(at[j] == before[j]);
                assert(front[before[j]] == tokens[before[j]]);
            }
        }
        assert forall|j: int, k: int| 0 <= j < k < at.len() implies at[j] < at[k] by {
            assert(at[j] == before[j]);
            assert(before[j] < front.len());
        }
        assert forall|k: int|
            0 <= k < tokens.len() && (#[trigger] tokens[k]).1@ == token implies at.contains(k) by {
            if k < n {
                assert(front[k].1@ == token);
                let j = choose|j: int| 0 <= j < before.len() && before[j] == k;
                assert(at[j] == k);
            } else {
                assert(at[before.len() as int] == n);
            }
        }
        at
    }
}

/// What a document adds to the postings of `token`: one posting if the token occurs in it.
pub open spec fn doc_postings(
    features: TokenFieldFeatures,
    doc: u32,
    tokens: Seq<(u32, Vec<u8>)>,
    token: Seq<u8>,
) -> Seq<LocalPosting> {
    if hits(tokens, token).len() == 0 {
        seq![]
    } else {
        seq![posting_of(features, doc, hits(tokens, token))]
    }
}

/// The postings stand in the order of their documents, all of which come before `end`.
pub open spec fn in_doc_order(list: Seq<LocalPosting>, end: u32) -> bool {
    &&& forall|i: int, j: int| 0 <= i < j < list.len() ==> list[i].doc < list[j].doc
    &&& forall|i: int| 0 <= i < list.len() ==> (#[trigger] list[i]).doc < end
}

/// There are no more postings than documents.
pub proof fn lemma_in_doc_order_len(list: Seq<LocalPosting>, end: u32)
    requires
        in_doc_order(list, end),
    ensures
        list.len() <= end,
    decreases list.len(),
{
    if list.len() > 0 {
        lemma_in_doc_order_len(list.drop_last(), list.last().doc);
    }
}

pub enum TokenIndexBufferRep {
    Doc(TokenMap<u32>),
    WithTermFrequency(TokenMap<(u32, u32)>),
    WithPositions(TokenMap<(u32, Vec<u32>)>),
}

impl TokenIndexBufferRep {
    pub open spec fn features(self) -> TokenFieldFeatures {
        match self {
            TokenIndexBufferRep::Doc(_) => TokenFieldFeatures::Doc,
            TokenIndexBufferRep::WithTermFrequency(_) => TokenFieldFeatures::WithTermFrequency,
            TokenIndexBufferRep::WithPositions(_) => TokenFieldFeatures::WithPositions,
        }
    }

    /// The postings of a token.
    pub open spec fn list(self, token: Seq<u8>) -> Seq<LocalPosting> {
        match self {
            TokenIndexBufferRep::Doc(m) => m.list(token),
            TokenIndexBufferRep::WithTermFrequency(m) => m.list(token),
            TokenIndexBufferRep::WithPositions(m) => m.list(token),
        }
    }

    pub open spec fn maps_wf(self) -> bool {
        match self {
            TokenIndexBufferRep::Doc(m) => m.wf(),
            TokenIndexBufferRep::WithTermFrequency(m) => m.wf(),
            TokenIndexBufferRep::WithPositions(m) => m.wf(),
        }
    }

    /// How many tokens there are.
    pub open spec fn token_count(self) -> nat {
        match self {
            TokenIndexBufferRep::Doc(m) => m.entries@.len(),
            TokenIndexBufferRep::WithTermFrequency(m) => m.entries@.len(),
            TokenIndexBufferRep::WithPositions(m) => m.entries@.len(),
        }
    }

    pub fn len(&self) -> (r: usize)
        ensures
            r == self.token_count(),
    {
        match self {
            TokenIndexBufferRep::Doc(m) => m.entries.len(),
            TokenIndexBufferRep::WithTermFrequency(m) => m.entries.len(),
            TokenIndexBufferRep::WithPositions(m) => m.entries.len(),
        }
    }

    /// The tokens, in key order.
    pub open spec fn token_at(self, i: int) -> Seq<u8> {
        match self {
            TokenIndexBufferRep::Doc(m) => m.entries@[i].token@,
            TokenIndexBufferRep::WithTermFrequency(m) => m.entries@[i].token@,
            TokenIndexBufferRep::WithPositions(m) => m.entries@[i].token@,
        }
    }
}

/// A buffer keeps as much as its representation says, and its postings and tokens are those of the
/// entries of its map.
pub proof fn law_rep(a: TokenMap<u32>, b: TokenMap<(u32, u32)>, c: TokenMap<(u32, Vec<u32>)>)
    ensures
        TokenIndexBufferRep::Doc(a).features() is Doc,
        TokenIndexBufferRep::WithTermFrequency(b).features() is WithTermFrequency,
        TokenIndexBufferRep::WithPositions(c).features() is WithPositions,
        forall|t: Seq<u8>| #[trigger] TokenIndexBufferRep::Doc(a).list(t) == a.list(t),
        forall|t: Seq<u8>| #[trigger]
            TokenIndexBufferRep::WithTermFrequency(b).list(t) == b.list(t),
        forall|t: Seq<u8>| #[trigger] TokenIndexBufferRep::WithPositions(c).list(t) == c.list(t),
        TokenIndexBufferRep::Doc(a).token_count() == a.entries@.len(),
        TokenIndexBufferRep::WithTermFrequency(b).token_count() == b.entries@.len(),
        TokenIndexBufferRep::WithPositions(c).token_count() == c.entries@.len(),
        forall|i: int| #[trigger] TokenIndexBufferRep::Doc(a).token_at(i) == a.entries@[i].token@,
        forall|i: int| #[trigger]
            TokenIndexBufferRep::WithTermFrequency(b).token_at(i) == b.entries@[i].token@,
        forall|i: int| #[trigger]
            TokenIndexBufferRep::WithPositions(c).token_at(i) == c.entries@[i].token@,
{
}

/// A posting has what a buffer with its features records, and no more.
pub proof fn lemma_rep_postings(rep: TokenIndexBufferRep, token: Seq<u8>, i: int)
    requires
        0 <= i < rep.list(token).len(),
    ensures
        rep.features() is Doc ==> rep.list(token)[i].tf == 1,
        !(rep.features() is WithPositions) ==> rep.list(token)[i].positions.len() == 0,
        rep.features() is WithPositions ==> rep.list(token)[i].tf == rep.list(
            token,
        )[i].positions.len() as u32,
{
}

/// Buffer for TokenFieldIndex mutations that can span multiple documents.
/// These changes can be applied to an index as a block of documents, amortizing costs related to
/// patching posting data across many docs.
///
/// This is likely to be helpful in the average case but may not help in cases where documents have
/// no overlap in their token data. This is unlikely for natural language input.
pub struct TokenIndexBuffer {
    rep: TokenIndexBufferRep,
    next_docid: u32,
}

impl TokenIndexBuffer {
    pub closed spec fn spec_rep(self) -> TokenIndexBufferRep {
        self.rep
    }

    pub open spec fn spec_features(self) -> TokenFieldFeatures {
        self.spec_rep().features()
    }

    /// How many documents the buffer holds, which is the number that the next one gets.
    pub closed spec fn spec_next_docid(self) -> u32 {
        self.next_docid
    }

    /// The postings of a token in the documents of the buffer.
    pub open spec fn postings(self, token: Seq<u8>) -> Seq<LocalPosting> {
        self.spec_rep().list(token)
    }

    pub open spec fn wf(self) -> bool {
        &&& self.spec_rep().maps_wf()
        &&& forall|t: Seq<u8>| in_doc_order(#[trigger] self.postings(t), self.spec_next_docid())
    }

    /// Create a new buffer.
    ///
    /// `features` is used to minimize the size of the representation.
    pub fn new(features: TokenFieldFeatures) -> (r: Self)
        ensures
            r.wf(),
            r.spec_features() == features,
            r.spec_next_docid() == 0,
            forall|t: Seq<u8>| #[trigger] r.postings(t) == Seq::<LocalPosting>::empty(),
    {
        let rep = match features {
            TokenFieldFeatures::Doc => TokenIndexBufferRep::Doc(TokenMap::new()),
            TokenFieldFeatures::WithTermFrequency => TokenIndexBufferRep::WithTermFrequency(
                TokenMap::new(),
            ),
            TokenFieldFeatures::WithPositions => TokenIndexBufferRep::WithPositions(
                TokenMap::new(),
            ),
        };
        TokenIndexBuffer { rep, next_docid: 0 }
    }

    /// The representation and the number of documents.
    pub(crate) fn into_parts(self) -> (r: (TokenIndexBufferRep, u32))
        ensures
            r.0 == self.spec_rep(),
            r.1 == self.spec_next_docid(),
    {
        (self.rep, self.next_docid)
    }

    /// Add a doc as a stream of (pos, token).
    pub fn add_doc(&mut self, tokens: &[(u32, Vec<u8>)])
        requires
            old(self).wf(),
            old(self).spec_next_docid() < u32::MAX,
            old(self).spec_features() is WithTermFrequency ==> forall|t: Seq<u8>|
                #[trigger] hits(tokens@, t).len() <= u32::MAX,
        ensures
            final(self).wf(),
            final(self).spec_features() == old(self).spec_features(),
            final(self).spec_next_docid() == old(self).spec_next_docid() + 1,
            forall|t: Seq<u8>| #[trigger]
                final(self).postings(t) == old(self).postings(t) + doc_postings(
                    old(self).spec_features(),
                    old(self).spec_next_docid(),
                    tokens@,
                    t,
                ),
            forall|k: int|
                0 <= k < tokens@.len() ==> {
                    let was = old(self).postings((#[trigger] tokens@[k]).1@);
                    let is = final(self).postings(tokens@[k].1@);
                    &&& is.len() == was.len() + 1
                    &&& is.drop_last() == was
                    &&& is.last().doc == old(self).spec_next_docid()
                    &&& old(self).spec_features() is Doc ==> is.last().tf == 1
                    &&& old(self).spec_features() is WithPositions ==> {
                        &&& is.last().positions.contains(tokens@[k].0)
                        &&& is.last().tf == is.last().positions.len() as u32
                    }
                },
            forall|t: Seq<u8>|
                (forall|k: int| 0 <= k < tokens@.len() ==> (#[trigger] tokens@[k]).1@ != t)
                    ==> #[trigger] final(self).postings(t) == old(self).postings(t),
    {
        let docid: u32 = self.next_docid;
        let ghost before = *self;
        match &mut self.rep {
            TokenIndexBufferRep::Doc(m) => {
                proof {
                    assert forall|t: Seq<u8>| in_doc_order(#[trigger] m.list(t), docid) by {
                        assert(in_doc_order(before.postings(t), docid));
                    }
                }
                add_tokens(m, docid, tokens);
            },
            TokenIndexBufferRep::WithTermFrequency(m) => {
                proof {
                    assert forall|t: Seq<u8>| in_doc_order(#[trigger] m.list(t), docid) by {
                        assert(in_doc_order(before.postings(t), docid));
                    }
                }
                add_tokens(m, docid, tokens);
            },
            TokenIndexBufferRep::WithPositions(m) => {
                proof {
                    assert forall|t: Seq<u8>| in_doc_order(#[trigger] m.list(t), docid) by {
                        assert(in_doc_order(before.postings(t), docid));
                    }
                }
                add_tokens(m, docid, tokens);
            },
        }
        self.next_docid = self.next_docid + 1;
        proof {
            assert forall|t: Seq<u8>| in_doc_order(#[trigger] self.postings(t), self.next_docid) by {
                assert(in_doc_order(before.postings(t), docid));
            }
            assert forall|k: int| 0 <= k < tokens@.len() implies {
                let was = before.postings((#[trigger] tokens@[k]).1@);
                let is = self.postings(tokens@[k].1@);
                &&& is.len() == was.len() + 1
                &&& is.drop_last() == was
                &&& is.last().doc == docid
                &&& before.spec_features() is Doc ==> is.last().tf == 1
                &&& before.spec_features() is WithPositions ==> {
                    &&& is.last().positions.contains(tokens@[k].0)
                    &&& is.last().tf == is.last().positions.len() as u32
                }
            } by {
                let t = tokens@[k].1@;
                let at = law_every_occurrence(tokens@, t);
                let j = choose|j: int| 0 <= j < at.len() && at[j] == k;
                assert(hits(tokens@, t)[j] == tokens@[k].0);
                assert(self.postings(t).drop_last() =~= before.postings(t));
            }
            assert forall|t: Seq<u8>|
                (forall|k: int| 0 <= k < tokens@.len() ==> (#[trigger] tokens@[k]).1@ != t) implies
                #[trigger] self.postings(t) == before.postings(t) by {
                let at = law_every_occurrence(tokens@, t);
                if at.len() > 0 {
                    assert(tokens@[at[0]].1@ == t);
                }
                assert(before.postings(t) + seq![] =~= before.postings(t));
            }
        }
    }
}

/// What adding a document does to the postings of a token: `at` are the indices of its occurrences
/// in the document, all of them and in order. Without any the postings stay as they are. Else one
/// is added, for the new document; where frequencies are recorded it counts the occurrences, and
/// where positions are recorded it has the position of each.
pub proof fn law_add_doc_counts(
    before: TokenIndexBuffer,
    after: TokenIndexBuffer,
    tokens: Seq<(u32, Vec<u8>)>,
    token: Seq<u8>,
) -> (at: Seq<int>)
    requires
        after.postings(token) == before.postings(token) + doc_postings(
            before.spec_features(),
            before.spec_next_docid(),
            tokens,
            token,
        ),
    ensures
        forall|j: int|
            0 <= j < at.len() ==> 0 <= #[trigger] at[j] < tokens.len() && tokens[at[j]].1@ == token,
        forall|j: int, k: int| 0 <= j < k < at.len() ==> at[j] < at[k],
        forall|k: int|
            0 <= k < tokens.len() && (#[trigger] tokens[k]).1@ == token ==> at.contains(k),
        at.len() == 0 ==> after.postings(token) == before.postings(token),
        at.len() > 0 ==> {
            let p = after.postings(token).last();
            &&& after.postings(token) == before.postings(token).push(p)
            &&& p.doc == before.spec_next_docid()
            &&& before.spec_features() is Doc ==> p.tf == 1
            &&& before.spec_features() is WithTermFrequency ==> p.tf == at.len() as u32
            &&& before.spec_features() is WithPositions ==> {
                &&& p.tf == at.len() as u32
                &&& p.positions.len() == at.len()
                &&& forall|j: int|
                    0 <= j < at.len() ==> #[trigger] p.positions[j] == tokens[at[j]].0
            }
        },
{
    let at = law_every_occurrence(tokens, token);
    let features = before.spec_features();
    law_posting_counts(features, before.spec_next_docid(), hits(tokens, token));
    if at.len() == 0 {
        assert(after.postings(token) =~= before.postings(token));
    } else {
        let p = after.postings(token).last();
        assert(after.postings(token) =~= before.postings(token).push(p));
        if features is WithPositions {
            assert forall|j: int| 0 <= j < at.len() implies #[trigger] p.positions[j]
                == tokens[at[j]].0 by {
                assert(hits(tokens, token)[j] == tokens[at[j]].0);
            }
        }
    }
    at
}

/// Adds the tokens of one document to the postings of earlier documents.
fn add_tokens<P: Hit>(m: &mut TokenMap<P>, doc: u32, tokens: &[(u32, Vec<u8>)])
    requires
        old(m).wf(),
        forall|t: Seq<u8>| in_doc_order(#[trigger] old(m).list(t), doc),
        P::spec_features() is WithTermFrequency ==> forall|t: Seq<u8>|
            #[trigger] hits(tokens@, t).len() <= u32::MAX,
    ensures
        final(m).wf(),
        forall|t: Seq<u8>| #[trigger]
            final(m).list(t) == old(m).list(t) + doc_postings(
                P::spec_features(),
                doc,
                tokens@,
                t,
            ),
{
    let ghost before = *m;
    let mut k: usize = 0;
    proof {
        assert forall|t: Seq<u8>| #[trigger] m.list(t) == before.list(t) + doc_postings(
            P::spec_features(),
            doc,
            tokens@.take(0),
            t,
        ) by {
            assert(tokens@.take(0) =~= seq![]);
            assert(before.list(t) + seq![] =~= before.list(t));
        }
    }
    while k < tokens.len()
        invariant
            k <= tokens@.len(),
            m.wf(),
            forall|t: Seq<u8>| in_doc_order(#[trigger] before.list(t), doc),
            P::spec_features() is WithTermFrequency ==> forall|t: Seq<u8>|
                #[trigger] hits(tokens@, t).len() <= u32::MAX,
            forall|t: Seq<u8>| #[trigger]
                m.list(t) == before.list(t) + doc_postings(
                    P::spec_features(),
                    doc,
                    tokens@.take(k as int),
                    t,
                ),
        decreases tokens@.len() - k,
    {
        let pos: u32 = tokens[k].0;
        let token: &[u8] = tokens[k].1.as_slice();
        let ghost noted = hits(tokens@.take(k as int), token@);
        let ghost after = tokens@.take(k + 1);
        proof {
            assert(after.drop_last() =~= tokens@.take(k as int));
            lemma_hits_prefix(tokens@, token@, k + 1);
            assert(in_doc_order(before.list(token@), doc));
        }
        let ghost mid = *m;
        m.hit(token, doc, pos, Ghost(noted));
        proof {
            assert forall|t: Seq<u8>| #[trigger] m.list(t) == before.list(t) + doc_postings(
                P::spec_features(),
                doc,
                after,
                t,
            ) by {
                if t == token@ {
                    let posted = posting_of(P::spec_features(), doc, noted.push(pos));
                    assert(m.list(t) =~= before.list(t) + seq![posted]);
                } else {
                    assert(m.list(t) == mid.list(t));
                    assert(hits(after, t) == hits(tokens@.take(k as int), t));
                }
            }
        }
        k = k + 1;
    }
    assert(tokens@.take(k as int) =~= tokens@);
}

/// A document has at least as many occurrences of a token as its first part.
proof fn lemma_hits_prefix(tokens: Seq<(u32, Vec<u8>)>, token: Seq<u8>, k: int)
    requires
        0 <= k <= tokens.len(),
    ensures
        hits(tokens.take(k), token).len() <= hits(tokens, token).len(),
    decreases tokens.len(),
{
    if k == tokens.len() {
        assert(tokens.take(k) =~= tokens);
    } else {
        assert(tokens.drop_last().take(k) =~= tokens.take(k));
        lemma_hits_prefix(tokens.drop_last(), token, k);
    }
}

/// What a buffer tells of itself is what its representation has.
pub proof fn law_buffer_view(b: TokenIndexBuffer)
    ensures
        b.spec_features() == b.spec_rep().features(),
        forall|t: Seq<u8>| #[trigger] b.postings(t) == b.spec_rep().list(t),
{
}

} // verus!
