//! The postings that a buffer gathers for each token.
use crate::bytes::{
    bytes_less, is_less, lemma_less_irreflexive, lemma_less_total, lemma_less_transitive,
};
use crate::features::TokenFieldFeatures;
use vstd::prelude::*;
use vstd::slice::slice_to_vec;

verus! {

/// What is known of a token in one buffered document: the document (counted from the start of the
/// buffer), how often the token occurs in it, and where. Fields that do not record occurrences
/// count one; fields that do not record positions have none.
#[verifier::ext_equal]
pub struct LocalPosting {
    pub doc: u32,
    pub tf: u32,
    pub positions: Seq<u32>,
}

/// The posting of a token that occurs at the positions `hits` of a document.
pub open spec fn posting_of(features: TokenFieldFeatures, doc: u32, hits: Seq<u32>) -> LocalPosting {
    LocalPosting {
        doc,
        tf: if features is Doc {
            1
        } else {
            hits.len() as u32
        },
        positions: if features is WithPositions {
            hits
        } else {
            seq![]
        },
    }
}

/// A posting counts every occurrence, however many there are, and keeps every position, as far as
/// the field records them.
pub proof fn law_posting_counts(features: TokenFieldFeatures, doc: u32, hits: Seq<u32>)
    ensures
        posting_of(features, doc, hits).doc == doc,
        features is Doc ==> posting_of(features, doc, hits).tf == 1 && posting_of(
            features,
            doc,
            hits,
        ).positions.len() == 0,
        features is WithTermFrequency ==> posting_of(features, doc, hits).tf == hits.len() as u32
            && posting_of(features, doc, hits).positions.len() == 0,
        features is WithPositions ==> posting_of(features, doc, hits).tf == hits.len() as u32
            && posting_of(features, doc, hits).positions == hits,
{
}

/// A posting as it is held in memory, with no more than the field records.
pub trait Hit: Sized {
    spec fn spec_features() -> TokenFieldFeatures;

    spec fn model(&self) -> LocalPosting;

    fn doc(&self) -> (r: u32)
        ensures
            r == self.model().doc,
    ;

    fn tf(&self) -> (r: u32)
        ensures
            r == self.model().tf,
    ;

    /// The posting of a token that occurs once.
    fn fresh(doc: u32, pos: u32) -> (r: Self)
        ensures
            r.model() == posting_of(Self::spec_features(), doc, seq![pos]),
    ;

    /// Counts one more occurrence.
    fn hit(&mut self, pos: u32, Ghost(hits): Ghost<Seq<u32>>)
        requires
            old(self).model() == posting_of(Self::spec_features(), old(self).model().doc, hits),
            Self::spec_features() is WithTermFrequency ==> hits.len() < u32::MAX,
        ensures
            final(self).model() == posting_of(
                Self::spec_features(),
                old(self).model().doc,
                hits.push(pos),
            ),
    ;
}

impl Hit for u32 {
    open spec fn spec_features() -> TokenFieldFeatures {
        TokenFieldFeatures::Doc
    }

    open spec fn model(&self) -> LocalPosting {
        LocalPosting { doc: *self, tf: 1, positions: seq![] }
    }

    fn doc(&self) -> (r: u32) {
        *self
    }

    fn tf(&self) -> (r: u32) {
        1
    }

    fn fresh(doc: u32, pos: u32) -> (r: Self) {
        doc
    }

    // Flatten repeated occurrences.
    fn hit(&mut self, pos: u32, Ghost(hits): Ghost<Seq<u32>>) {
    }
}

impl Hit for (u32, u32) {
    open spec fn spec_features() -> TokenFieldFeatures {
        TokenFieldFeatures::WithTermFrequency
    }

    open spec fn model(&self) -> LocalPosting {
        LocalPosting { doc: self.0, tf: self.1, positions: seq![] }
    }

    fn doc(&self) -> (r: u32) {
        self.0
    }

    fn tf(&self) -> (r: u32) {
        self.1
    }

    fn fresh(doc: u32, pos: u32) -> (r: Self) {
        (doc, 1)
    }

    // Increment on repeated occurrences.
    fn hit(&mut self, pos: u32, Ghost(hits): Ghost<Seq<u32>>) {
        self.1 = self.1 + 1;
    }
}

impl Hit for (u32, Vec<u32>) {
    open spec fn spec_features() -> TokenFieldFeatures {
        TokenFieldFeatures::WithPositions
    }

    open spec fn model(&self) -> LocalPosting {
        LocalPosting { doc: self.0, tf: self.1@.len() as u32, positions: self.1@ }
    }

    fn doc(&self) -> (r: u32) {
        self.0
    }

    fn tf(&self) -> (r: u32) {
        #[verifier::truncate]
        let n: u32 = self.1.len() as u32;
        n
    }

    fn fresh(doc: u32, pos: u32) -> (r: Self) {
        let r = (doc, vec![pos]);
        assert(r.1@ =~= seq![pos]);
        r
    }

    fn hit(&mut self, pos: u32, Ghost(hits): Ghost<Seq<u32>>) {
        self.1.push(pos);
    }
}

/// Postings by their contents.
pub open spec fn models<P: Hit>(list: Seq<P>) -> Seq<LocalPosting> {
    list.map_values(|p: P| p.model())
}

/// A token with its postings.
pub struct TokenEntry<P> {
    pub token: Vec<u8>,
    pub list: Vec<P>,
}

/// Lists of postings by token. The entries are ordered by token, so that no token has two, and
/// every token has a posting.
pub struct TokenMap<P> {
    pub entries: Vec<TokenEntry<P>>,
}

impl<P: Hit> TokenMap<P> {
    pub open spec fn wf(self) -> bool {
        &&& forall|i: int, j: int|
            0 <= i < j < self.entries@.len() ==> bytes_less(
                self.entries@[i].token@,
                self.entries@[j].token@,
            )
        &&& forall|i: int|
            0 <= i < self.entries@.len() ==> (#[trigger] self.entries@[i]).list@.len() > 0
    }

    pub open spec fn holds(self, i: int, token: Seq<u8>) -> bool {
        0 <= i < self.entries@.len() && self.entries@[i].token@ == token
    }

    /// The postings of a token; none if the map does not have it.
    pub open spec fn list(self, token: Seq<u8>) -> Seq<LocalPosting> {
        if exists|i: int| self.holds(i, token) {
            models(self.entries@[choose|i: int| self.holds(i, token)].list@)
        } else {
            seq![]
        }
    }

    pub proof fn lemma_list_at(self, i: int)
        requires
            self.wf(),
            0 <= i < self.entries@.len(),
        ensures
            self.list(self.entries@[i].token@) == models(self.entries@[i].list@),
    {
        let token = self.entries@[i].token@;
        assert(self.holds(i, token));
        let j = choose|j: int| self.holds(j, token);
        lemma_less_irreflexive(token);
        assert(i == j);
    }

    pub fn new() -> (r: Self)
        ensures
            r.wf(),
            r.entries@.len() == 0,
            forall|t: Seq<u8>| r.list(t) == Seq::<LocalPosting>::empty(),
    {
        TokenMap { entries: Vec::new() }
    }

    /// Looks a token up: its index, or the index at which it would stand.
    fn find(&self, token: &[u8]) -> (r: Result<usize, usize>)
        requires
            self.wf(),
        ensures
            match r {
                Ok(i) => self.holds(i as int, token@),
                Err(i) => {
                    &&& i <= self.entries@.len()
                    &&& forall|j: int|
                        0 <= j < i ==> bytes_less(#[trigger] self.entries@[j].token@, token@)
                    &&& forall|j: int|
                        i <= j < self.entries@.len() ==> bytes_less(
                            token@,
                            #[trigger] self.entries@[j].token@,
                        )
                },
            },
    {
        let mut lo: usize = 0;
        let mut hi: usize = self.entries.len();
        while lo < hi
            invariant
                self.wf(),
                lo <= hi <= self.entries@.len(),
                forall|j: int|
                    0 <= j < lo ==> bytes_less(#[trigger] self.entries@[j].token@, token@),
                forall|j: int|
                    hi <= j < self.entries@.len() ==> bytes_less(
                        token@,
                        #[trigger] self.entries@[j].token@,
                    ),
            decreases hi - lo,
        {
            let mid: usize = lo + (hi - lo) / 2;
            let ghost at = self.entries@[mid as int].token@;
            if is_less(self.entries[mid].token.as_slice(), token) {
                proof {
                    assert forall|j: int| 0 <= j < mid + 1 implies bytes_less(
                        #[trigger] self.entries@[j].token@,
                        token@,
                    ) by {
                        if j < mid {
                            lemma_less_transitive(self.entries@[j].token@, at, token@);
                        }
                    }
                }
                lo = mid + 1;
            } else if is_less(token, self.entries[mid].token.as_slice()) {
                proof {
                    assert forall|j: int| mid <= j < self.entries@.len() implies bytes_less(
                        token@,
                        #[trigger] self.entries@[j].token@,
                    ) by {
                        if j > mid {
                            lemma_less_transitive(token@, at, self.entries@[j].token@);
                        }
                    }
                }
                hi = mid;
            } else {
                proof {
                    lemma_less_total(at, token@);
                }
                return Ok(mid);
            }
        }
        Err(lo)
    }

    /// Notes that `token` occurs at `pos` of the document `doc`, where `hits` are the positions
    /// of that document noted so far.
    pub fn hit(&mut self, token: &[u8], doc: u32, pos: u32, Ghost(hits): Ghost<Seq<u32>>)
        requires
            old(self).wf(),
            hits.len() == 0 ==> old(self).list(token@).len() == 0 || old(self).list(
                token@,
            ).last().doc != doc,
            hits.len() > 0 ==> old(self).list(token@).len() > 0 && old(self).list(token@).last()
                == posting_of(P::spec_features(), doc, hits),
            P::spec_features() is WithTermFrequency ==> hits.len() < u32::MAX,
        ensures
            final(self).wf(),
            final(self).list(token@) == (if hits.len() == 0 {
                old(self).list(token@)
            } else {
                old(self).list(token@).drop_last()
            }).push(posting_of(P::spec_features(), doc, hits.push(pos))),
            forall|t: Seq<u8>|
                t != token@ ==> #[trigger] final(self).list(t) == old(self).list(t),
    {
        let ghost before = *self;
        match self.find(token) {
            Ok(i) => {
                proof {
                    before.lemma_list_at(i as int);
                }
                let n: usize = self.entries[i].list.len();
                let ghost l0 = before.entries@[i as int].list@;
                if n > 0 && self.entries[i].list[n - 1].doc() == doc {
                    assert(before.list(token@).last() == l0.last().model());
                    self.entries[i].list[n - 1].hit(pos, Ghost(hits));
                } else {
                    proof {
                        if hits.len() > 0 {
                            assert(before.list(token@).last() == l0.last().model());
                        }
                    }
                    self.entries[i].list.push(P::fresh(doc, pos));
                    assert(hits =~= seq![]);
                    assert(hits.push(pos) =~= seq![pos]);
                }
                proof {
                    assert forall|a: int| 0 <= a < self.entries@.len() implies (
                    #[trigger] self.entries@[a]).token == before.entries@[a].token by {}
                    self.lemma_list_at(i as int);
                    assert(self.list(token@) =~= (if hits.len() == 0 {
                        before.list(token@)
                    } else {
                        before.list(token@).drop_last()
                    }).push(posting_of(P::spec_features(), doc, hits.push(pos))));
                    assert forall|t: Seq<u8>| t != token@ implies #[trigger] self.list(t)
                        == before.list(t) by {
                        before.lemma_same_elsewhere(*self, i as int, t);
                    }
                }
            },
            Err(i) => {
                let mut list: Vec<P> = Vec::new();
                list.push(P::fresh(doc, pos));
                let entry = TokenEntry { token: slice_to_vec(token), list };
                self.entries.insert(i, entry);
                proof {
                    self.lemma_inserted(before, i as int, token@);
                    assert(before.list(token@) =~= seq![]);
                    assert(hits =~= seq![]);
                    assert(hits.push(pos) =~= seq![pos]);
                    self.lemma_list_at(i as int);
                    assert(models(entry.list@) =~= seq![
                        posting_of(P::spec_features(), doc, seq![pos]),
                    ]);
                }
            },
        }
    }

    /// Changing the list of one entry changes no other token.
    proof fn lemma_same_elsewhere(self, after: Self, i: int, t: Seq<u8>)
        requires
            self.wf(),
            after.wf(),
            0 <= i < self.entries@.len(),
            after.entries@.len() == self.entries@.len(),
            after.entries@[i].token@ == self.entries@[i].token@,
            forall|j: int|
                0 <= j < self.entries@.len() && j != i ==> after.entries@[j] == self.entries@[j],
            t != self.entries@[i].token@,
        ensures
            after.list(t) == self.list(t),
    {
        if exists|j: int| self.holds(j, t) {
            let j = choose|j: int| self.holds(j, t);
            assert(after.holds(j, t));
            self.lemma_list_at(j);
            after.lemma_list_at(j);
        } else if exists|j: int| after.holds(j, t) {
            let j = choose|j: int| after.holds(j, t);
            assert(self.holds(j, t));
        }
    }

    /// A new entry in its place keeps the order, and changes no other token.
    proof fn lemma_inserted(self, before: Self, i: int, token: Seq<u8>)
        requires
            before.wf(),
            0 <= i <= before.entries@.len(),
            self.entries@.len() == before.entries@.len() + 1,
            self.entries@[i].token@ == token,
            self.entries@ == before.entries@.insert(i, self.entries@[i]),
            forall|j: int| 0 <= j < i ==> bytes_less(#[trigger] before.entries@[j].token@, token),
            forall|j: int|
                i <= j < before.entries@.len() ==> bytes_less(
                    token,
                    #[trigger] before.entries@[j].token@,
                ),
            self.entries@[i].list@.len() > 0,
        ensures
            self.wf(),
            before.list(token) == Seq::<LocalPosting>::empty(),
            forall|t: Seq<u8>| t != token ==> #[trigger] self.list(t) == before.list(t),
    {
        assert forall|a: int| 0 <= a < self.entries@.len() implies (
        #[trigger] self.entries@[a]).list@.len() > 0 by {
            if a != i {
                assert(self.entries@[a] == before.entries@[if a < i { a } else { a - 1 }]);
            }
        }
        assert forall|a: int, b: int| 0 <= a < b < self.entries@.len() implies bytes_less(
            self.entries@[a].token@,
            self.entries@[b].token@,
        ) by {
            let x = if a < i { a } else { a - 1 };
            let y = if b < i { b } else { b - 1 };
            if a != i {
                assert(self.entries@[a] == before.entries@[x]);
            }
            if b != i {
                assert(self.entries@[b] == before.entries@[y]);
            }
        }
        if exists|j: int| before.holds(j, token) {
            let j = choose|j: int| before.holds(j, token);
            lemma_less_irreflexive(token);
            assert(bytes_less(before.entries@[j].token@, token) || bytes_less(
                token,
                before.entries@[j].token@,
            ));
        }
        assert forall|t: Seq<u8>| t != token implies #[trigger] self.list(t) == before.list(t) by {
            if exists|j: int| before.holds(j, t) {
                let j = choose|j: int| before.holds(j, t);
                let k = if j < i { j } else { j + 1 };
                assert(self.entries@[k] == before.entries@[j]);
                assert(self.holds(k, t));
                before.lemma_list_at(j);
                self.lemma_list_at(k);
            } else if exists|k: int| self.holds(k, t) {
                let k = choose|k: int| self.holds(k, t);
                let j = if k < i { k } else { k - 1 };
                assert(self.entries@[k] == before.entries@[j]);
                assert(before.holds(j, t));
            }
        }
    }
}

/// A posting in memory is the document that it notes, with the number of occurrences and the
/// positions as far as they are noted.
pub proof fn law_models(a: Seq<u32>, b: Seq<(u32, u32)>, c: Seq<(u32, Vec<u32>)>)
    ensures
        models(a).len() == a.len(),
        models(b).len() == b.len(),
        models(c).len() == c.len(),
        forall|i: int|
            0 <= i < a.len() ==> {
                let p = #[trigger] models(a)[i];
                p.doc == a[i] && p.tf == 1 && p.positions.len() == 0
            },
        forall|i: int|
            0 <= i < b.len() ==> {
                let p = #[trigger] models(b)[i];
                p.doc == b[i].0 && p.tf == b[i].1 && p.positions.len() == 0
            },
        forall|i: int|
            0 <= i < c.len() ==> {
                let p = #[trigger] models(c)[i];
                p.doc == c[i].0 && p.tf == c[i].1@.len() as u32 && p.positions == c[i].1@
            },
{
}

/// The list of a token is that of the entry with the token, and empty where no entry has it.
pub proof fn law_entry_lists<P: Hit>(m: TokenMap<P>, token: Seq<u8>)
    requires
        m.wf(),
    ensures
        forall|i: int|
            0 <= i < m.entries@.len() && (#[trigger] m.entries@[i]).token@ == token ==> m.list(token)
                == models(m.entries@[i].list@),
        (forall|i: int| 0 <= i < m.entries@.len() ==> (#[trigger] m.entries@[i]).token@ != token)
            ==> m.list(token).len() == 0,
        forall|i: int, j: int|
            0 <= i < j < m.entries@.len() ==> m.entries@[i].token@ != m.entries@[j].token@,
{
    assert forall|i: int|
        0 <= i < m.entries@.len() && (#[trigger] m.entries@[i]).token@ == token implies m.list(token)
        == models(m.entries@[i].list@) by {
        m.lemma_list_at(i);
    }
    assert forall|i: int, j: int| 0 <= i < j < m.entries@.len() implies m.entries@[i].token@
        != m.entries@[j].token@ by {
        lemma_less_irreflexive(m.entries@[i].token@);
    }
}

} // verus!
