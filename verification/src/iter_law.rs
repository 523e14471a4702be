//! Where an iterator comes to, document by document.
use crate::block::BlockView;
use crate::bytes::be_bytes;
use crate::features::TokenFieldFeatures;
use crate::field::Section;
use crate::iter::{
    first_at_or_after, new_iter, DocIdSetIterator, IterView, Pending, PostingError, PostingIterator,
    Progress, ProgressView, TokenPostingIterator,
};
use crate::stats::{DocId, TokenStats};
use crate::store::{EntryView, Query, QueryView};
use crate::stored_list::{docids_of, law_advance_to, law_next, StoredList};
use vstd::prelude::*;

verus! {

/// The progress of an iterator is seen by its document, or by the read that it asks for.
pub proof fn law_progress_view(d: DocId, q: Query)
    ensures
        Progress::At(d)@ == ProgressView::At(d),
        Progress::Fetch(q)@ == ProgressView::Fetch(q@),
{
}

/// What an iterator tells of itself is what it has: its document, its size hint, its features, the
/// term frequency at its document, and whether it waits for an answer.
pub proof fn law_iterator_view(it: TokenPostingIterator)
    ensures
        it.spec_doc() == it@.doc,
        it.spec_size_hint() == it@.size_hint,
        it.spec_features() == it@.features,
        it.spec_term_frequency() == it@.term_frequency(),
        it.awaiting() <==> it@.pending is Some,
{
}

/// The index that is found is the first of a document at or after the target.
pub proof fn law_first_at_or_after(docids: Seq<u64>, from: int, target: DocId)
    requires
        0 <= from <= docids.len(),
    ensures
        from <= first_at_or_after(docids, from, target) <= docids.len(),
        forall|i: int|
            from <= i < first_at_or_after(docids, from, target) ==> #[trigger] docids[i] < target,
        first_at_or_after(docids, from, target) < docids.len() ==> docids[first_at_or_after(
            docids,
            from,
            target,
        )] >= target,
    decreases docids.len() - from,
{
    if from < docids.len() && docids[from] < target {
        law_first_at_or_after(docids, from + 1, target);
    }
}

/// A new iterator is not positioned and waits for nothing. Its size hint is the number of
/// documents that the statistics count, and it has the document that they hold.
pub proof fn law_new_iter(
    name: Seq<u8>,
    features: TokenFieldFeatures,
    token: Seq<u8>,
    d: u64,
    n: u64,
)
    ensures
        forall|stats: TokenStats|
            {
                let v = #[trigger] new_iter(name, features, token, stats);
                &&& v.features == features
                &&& v.doc == 0xffff_ffff_ffff_fffe
                &&& v.block is None
                &&& v.pending is None
                &&& v.front == name + seq![58u8] + token + seq![58u8]
                &&& v.pos_tail == seq![58u8] + name + seq![58u8] + token
            },
        ({
            let v = new_iter(
                name,
                features,
                token,
                TokenStats::SingleHit { docid: d, term_frequency: n },
            );
            v.size_hint == 1 && v.single == Some((d, n))
        }),
        ({
            let v = new_iter(
                name,
                features,
                token,
                TokenStats::MultiHit { doc_frequency: d, term_frequency: n },
            );
            v.size_hint == d && v.single is None
        }),
{
}

/// An iterator that stands at a posting of a list gives its document; before the first it is not
/// positioned, and after the last it is done. Its size hint is the length of the list.
pub proof fn law_stands(l: StoredList, v: IterView, p: int)
    requires
        l.tracks(v, p),
    ensures
        -1 <= p <= l.list.len(),
        p == -1 ==> v.doc == 0xffff_ffff_ffff_fffe,
        0 <= p < l.list.len() ==> v.doc == l.list[p].doc,
        p == l.list.len() ==> v.doc == 0xffff_ffff_ffff_ffff,
        v.size_hint == l.list.len(),
        v.features == l.features,
        v.pending is None,
{
}

/// From one document of a token an iterator goes to the next in the list, at once or with one
/// answer of the store, and from the last to the end.
pub proof fn law_next_doc(l: StoredList, v: IterView, p: int)
    requires
        l.valid(),
        l.list.len() >= 1,
        l.tracks(v, p),
    ensures
        ({
            let d = if p + 1 < l.list.len() {
                l.list[p + 1].doc
            } else {
                0xffff_ffff_ffff_ffffu64
            };
            let (v1, progress) = v.next();
            match progress {
                ProgressView::At(e) => e == d && v1.doc == d,
                ProgressView::Fetch(q) => forall|reply: Option<EntryView>| #[trigger]
                    l.store.answers(q, reply) ==> {
                        &&& v1.resume(reply) matches Ok((v2, ProgressView::At(e)))
                        &&& e == d && v2.doc == d
                    },
            }
        }),
{
    law_next(l, v, p);
    let (v1, progress) = v.next();
    let to = if p < l.list.len() {
        p + 1
    } else {
        p
    };
    if let ProgressView::Fetch(q) = progress {
        assert forall|reply: Option<EntryView>| #[trigger] l.store.answers(q, reply) implies {
            &&& v1.resume(reply) matches Ok((v2, ProgressView::At(e)))
            &&& e == l.doc_at(to) && v2.doc == e
        } by {
            let (v2, progress2) = v1.resume(reply)->Ok_0;
            assert(l.reaches(v2, progress2, 0, to));
        }
    }
}

/// An iterator that is asked to advance comes to a document of the token at or after the target, and
/// no such document comes before it; without one it comes to the end. It gets there with up to
/// three answers of the store.
pub proof fn law_advance_doc(
    l: StoredList,
    v: IterView,
    p: int,
    target: DocId,
    r1: Option<EntryView>,
    r2: Option<EntryView>,
    r3: Option<EntryView>,
) -> (d: DocId)
    requires
        l.valid(),
        l.list.len() >= 1,
        l.tracks(v, p),
        p != -1 ==> v.doc <= target,
    ensures
        (d == 0xffff_ffff_ffff_ffff && forall|i: int|
            0 <= i < l.list.len() ==> (#[trigger] l.list[i]).doc < target) || (d >= target && exists|
            i: int,
        |
            0 <= i < l.list.len() && (#[trigger] l.list[i]).doc == d && forall|j: int|
                0 <= j < i ==> (#[trigger] l.list[j]).doc < target),
        match v.advance_to(target) {
            (v1, ProgressView::At(e)) => e == d && v1.doc == d,
            (v1, ProgressView::Fetch(q1)) => l.store.answers(q1, r1) ==> match v1.resume(r1) {
                Ok((v2, ProgressView::At(e))) => e == d && v2.doc == d,
                Ok((v2, ProgressView::Fetch(q2))) => l.store.answers(q2, r2) ==> match v2.resume(
                    r2,
                ) {
                    Ok((v3, ProgressView::At(e))) => e == d && v3.doc == d,
                    Ok((v3, ProgressView::Fetch(q3))) => l.store.answers(q3, r3)
                        ==> match v3.resume(r3) {
                        Ok((v4, ProgressView::At(e))) => e == d && v4.doc == d,
                        _ => false,
                    },
                    Err(_) => false,
                },
                Err(_) => false,
            },
        },
{
    law_advance_to(l, v, p, target);
    let docids = docids_of(l.list);
    let to = first_at_or_after(docids, 0, target);
    law_first_at_or_after(docids, 0, target);
    assert forall|j: int| 0 <= j < to implies (#[trigger] l.list[j]).doc < target by {
        assert(docids[j] < target);
    }
    if let (v1, ProgressView::Fetch(q1)) = v.advance_to(target) {
        if l.store.answers(q1, r1) {
            let (v2, progress2) = v1.resume(r1)->Ok_0;
            assert(l.reaches(v2, progress2, 2, to));
            if let ProgressView::Fetch(q2) = progress2 {
                if l.store.answers(q2, r2) {
                    let (v3, progress3) = v2.resume(r2)->Ok_0;
                    assert(l.reaches(v3, progress3, 1, to));
                    if let ProgressView::Fetch(q3) = progress3 {
                        if l.store.answers(q3, r3) {
                            let (v4, progress4) = v3.resume(r3)->Ok_0;
                            assert(l.reaches(v4, progress4, 0, to));
                        }
                    }
                }
            }
        }
    }
    l.doc_at(to)
}

/// An iterator that is at the end stays there, whatever it is asked.
pub proof fn law_stays_done(v: IterView, target: DocId)
    requires
        v.doc == 0xffff_ffff_ffff_ffff,
        v.block is None,
    ensures
        v.next().1 == ProgressView::At(0xffff_ffff_ffff_ffff),
        v.next().0.doc == 0xffff_ffff_ffff_ffff,
        v.advance_to(target) == (v, ProgressView::At(0xffff_ffff_ffff_ffff)),
{
}

/// Within a block an iterator needs no read: `next()` gives the following document, and
/// `advance_to()` the first of the block, from the current one on, at or after the target.
pub proof fn law_within_block(v: IterView, b: BlockView, i: int, target: DocId)
    requires
        v.block == Some((b, i)),
        0 <= i < b.docids.len(),
        v.doc == b.docids[i],
        v.doc < 0xffff_ffff_ffff_fffe,
    ensures
        i + 1 < b.docids.len() ==> v.next().1 == ProgressView::At(b.docids[i + 1]) && v.next().0.doc
            == b.docids[i + 1],
        target <= b.docids.last() ==> {
            &&& v.advance_to(target).1 matches ProgressView::At(d)
            &&& v.advance_to(target).0.doc == d
            &&& d >= target
            &&& exists|k: int|
                i <= k < b.docids.len() && #[trigger] b.docids[k] == d && forall|j: int|
                    i <= j < k ==> #[trigger] b.docids[j] < target
        },
{
    law_first_at_or_after(b.docids, i, target);
    if target <= b.docids.last() {
        let k = first_at_or_after(b.docids, i, target);
        assert(b.docids[b.docids.len() - 1] >= target);
        assert(k < b.docids.len());
        assert(b.docids[k] >= target);
    }
}

/// A token in one document needs no read: an iterator that is not positioned comes to that document,
/// unless it is asked for a later one, and then to the end.
pub proof fn law_single_doc(v: IterView, d: DocId, tf: u64, target: DocId)
    requires
        v.single == Some((d, tf)),
        v.doc == 0xffff_ffff_ffff_fffe,
        v.block is None,
    ensures
        v.next().1 == ProgressView::At(d),
        v.next().0.doc == d,
        !(v.features is Doc) ==> v.next().0.term_frequency() == Some(tf as u32),
        d < 0xffff_ffff_ffff_fffe ==> v.next().0.next().1 == ProgressView::At(
            0xffff_ffff_ffff_ffff,
        ),
        target <= d ==> v.advance_to(target).1 == ProgressView::At(d),
        target > d ==> v.advance_to(target).1 == ProgressView::At(0xffff_ffff_ffff_ffff),
{
}

/// The reads of an iterator lie among the keys of the blocks of its token: the first block from a
/// document on, or the last that begins at or before one.
pub proof fn law_iterator_reads(v: IterView, target: DocId)
    requires
        v.single is None,
        v.block is None,
    ensures
        v.doc == 0xffff_ffff_ffff_fffe ==> v.next().1 == ProgressView::Fetch(
            QueryView::First {
                section: Section::DocPl,
                lo: v.front + be_bytes(0),
                hi: v.front + be_bytes(0xffff_ffff_ffff_ffff),
            },
        ),
        v.doc != 0xffff_ffff_ffff_ffff ==> v.advance_to(target).1 == ProgressView::Fetch(
            QueryView::Last {
                section: Section::DocPl,
                lo: v.front + be_bytes(0),
                hi: v.front + be_bytes(target),
            },
        ),
{
}

/// A block that cannot be read is an error, and where there is no block from a document on the
/// iterator is at the end.
pub proof fn law_answers_taken(v: IterView, e: EntryView, settle: Option<DocId>, seek: DocId)
    ensures
        v.pending == Some(Pending::From { settle }) && BlockView::spec_decode(
            e.key,
            e.value,
            v.features,
        ) is None ==> v.resume(Some(e)) == Err::<(IterView, ProgressView), _>(
            PostingError::BadBlock,
        ),
        v.pending == Some(Pending::AtOrBefore { seek, settle }) && BlockView::spec_decode(
            e.key,
            e.value,
            v.features,
        ) is None && v.block is None ==> v.resume(Some(e)) == Err::<(IterView, ProgressView), _>(
            PostingError::BadBlock,
        ),
        v.pending == Some(Pending::From { settle }) ==> {
            &&& v.resume(None) matches Ok((v2, ProgressView::At(d)))
            &&& d == 0xffff_ffff_ffff_ffff && v2.doc == d
        },
        v.pending == Some(Pending::AtOrBefore { seek, settle }) ==> {
            &&& v.resume(None) matches Ok((v2, ProgressView::Fetch(q)))
            &&& q == (QueryView::First {
                section: Section::DocPl,
                lo: v.front + be_bytes(seek),
                hi: v.front + be_bytes(0xffff_ffff_ffff_ffff),
            })
            &&& v2.pending == Some(Pending::From { settle })
        },
{
}

/// In a field that records documents alone every term frequency is one; in any other an iterator at a
/// document gives what its block has for it.
pub proof fn law_term_frequencies(v: IterView, b: BlockView, i: int)
    ensures
        v.features is Doc ==> v.term_frequency() == Some(1u32),
        !(v.features is Doc) && v.block == Some((b, i)) && 0 <= i < b.term_frequencies.len()
            ==> v.term_frequency() == Some(b.term_frequencies[i]),
        !(v.features is Doc) && v.block == Some((b, i)) && i >= b.term_frequencies.len()
            ==> v.term_frequency() is None,
        !(v.features is Doc) && v.block is None && v.single is None ==> v.term_frequency() == Some(
            1u32,
        ),
{
}

/// The positions of a document stand under its eight bytes, the field and the token. They are asked
/// for only where they are recorded, and not at the end.
pub proof fn law_positions_read_at(v: IterView)
    ensures
        v.positions_query() is Some <==> v.features is WithPositions && v.doc
            != 0xffff_ffff_ffff_ffff,
        v.positions_query() matches Some(q) ==> q == (QueryView::Get {
            section: Section::PosPl,
            key: be_bytes(v.doc) + v.pos_tail,
        }),
{
}

} // verus!
