//! What a run over records puts into the index, whatever the size of the batches.
use crate::append_law::FieldLists;
use crate::batching::{
    after_all, all_docs, all_went_through, can_follow, doc_list, law_batching, law_run, Step,
};
use crate::ingest::{field_docs, BatchView, IngestView, RecordField};
use crate::reader::RecordView;
use vstd::prelude::*;

verus! {

/// The records that are taken of those that there are.
pub open spec fn taken(v: IngestView, records: Seq<RecordView>, limit: Option<usize>) -> Seq<
    RecordView,
> {
    match limit {
        None => records,
        Some(n) => if n <= v.added() {
            seq![]
        } else if records.len() <= n - v.added() {
            records
        } else {
            records.take(n - v.added())
        },
    }
}

/// The records that are taken are the first ones, in their order: all of them without a limit, and
/// else as many as the limit leaves beside the `before` records that are in already.
pub proof fn law_taken(v: IngestView, records: Seq<RecordView>, limit: Option<usize>, before: int)
    requires
        before == v.next_docid + v.gathered.len(),
    ensures
        limit is None ==> taken(v, records, limit).len() == records.len(),
        limit matches Some(n) ==> {
            let room = if n > before {
                n - before
            } else {
                0
            };
            taken(v, records, limit).len() == if records.len() <= room {
                records.len() as int
            } else {
                room
            }
        },
        forall|i: int|
            0 <= i < taken(v, records, limit).len() ==> #[trigger] taken(v, records, limit)[i]
                == records[i],
{
}

/// A run over records: as long as more are wanted each is added, full batches are handed out, and
/// so is the last incomplete one.
pub open spec fn ingest_run(
    v: IngestView,
    records: Seq<RecordView>,
    limit: Option<usize>,
) -> (Seq<BatchView>, IngestView)
    decreases records.len(),
{
    if records.len() == 0 || !v.wants_more(limit) {
        match v.finish() {
            (Some(batch), rest) => (seq![batch], rest),
            (None, rest) => (seq![], rest),
        }
    } else {
        let added = v.add(records[0]);
        if added.is_full() {
            let (batches, rest) = ingest_run(added.flush(), records.skip(1), limit);
            (seq![added.batch()] + batches, rest)
        } else {
            ingest_run(added, records.skip(1), limit)
        }
    }
}

/// The records of batches, one after the other.
pub open spec fn batch_records(batches: Seq<BatchView>) -> Seq<RecordView>
    decreases batches.len(),
{
    if batches.len() == 0 {
        seq![]
    } else {
        batches[0].records + batch_records(batches.skip(1))
    }
}

/// Each batch begins with the document after those of the batches before it.
pub open spec fn in_sequence(batches: Seq<BatchView>, start: int) -> bool
    decreases batches.len(),
{
    batches.len() == 0 || {
        &&& batches[0].start == start
        &&& in_sequence(batches.skip(1), start + batches[0].records.len())
    }
}

/// A run indexes the records that are taken, all of them, in order and without gaps: the last
/// incomplete batch is among the batches, and nothing is left.
pub proof fn law_ingest_run(v: IngestView, records: Seq<RecordView>, limit: Option<usize>)
    ensures
        ({
            let (batches, rest) = ingest_run(v, records, limit);
            &&& batch_records(batches) == v.gathered + taken(v, records, limit)
            &&& in_sequence(batches, v.next_docid)
            &&& rest.gathered.len() == 0
            &&& rest.added() == v.added() + taken(v, records, limit).len()
        }),
    decreases records.len(),
{
    let (batches, rest) = ingest_run(v, records, limit);
    if records.len() == 0 || !v.wants_more(limit) {
        assert(taken(v, records, limit) =~= seq![]);
        assert(v.gathered + taken(v, records, limit) =~= v.gathered);
        if v.gathered.len() > 0 {
            lemma_one_batch(v.batch());
        }
    } else {
        let added = v.add(records[0]);
        let tail = records.skip(1);
        if added.is_full() {
            let next = added.flush();
            law_ingest_run(next, tail, limit);
            let (more, _) = ingest_run(next, tail, limit);
            assert(batches.skip(1) =~= more);
            assert(v.gathered + taken(v, records, limit) =~= added.gathered + (next.gathered
                + taken(next, tail, limit)));
        } else {
            law_ingest_run(added, tail, limit);
            assert(v.gathered + taken(v, records, limit) =~= added.gathered + taken(
                added,
                tail,
                limit,
            ));
        }
    }
}

proof fn lemma_one_batch(b: BatchView)
    ensures
        batch_records(seq![b]) == b.records,
        in_sequence(seq![b], b.start),
{
    let none = Seq::<BatchView>::empty();
    assert(seq![b].skip(1) =~= none);
    assert(batch_records(none) =~= seq![]);
    assert(b.records + batch_records(none) =~= b.records);
    assert(in_sequence(none, b.start + b.records.len()));
}

/// A record of a batch has the number of all records before it as its document.
pub proof fn law_documents_are_numbered(batches: Seq<BatchView>, start: int, k: int, j: int)
    requires
        in_sequence(batches, start),
        0 <= k < batches.len(),
        0 <= j < batches[k].records.len(),
    ensures
        0 <= batches[k].start + j - start < batch_records(batches).len(),
        batch_records(batches)[batches[k].start + j - start] == batches[k].records[j],
    decreases batches.len(),
{
    if k > 0 {
        let n = batches[0].records.len();
        assert(batches.skip(1)[k - 1] == batches[k]);
        law_documents_are_numbered(batches.skip(1), start + n, k - 1, j);
    }
}

/// The batches were appended to a field, one after the other.
pub open spec fn appended_batches(
    steps: Seq<Step>,
    field: RecordField,
    batches: Seq<BatchView>,
) -> bool {
    &&& steps.len() == batches.len()
    &&& forall|i: int|
        0 <= i < steps.len() ==> (#[trigger] steps[i]).docs == field_docs(
            field,
            batches[i].records,
        )
}

proof fn lemma_batch_records_parts(a: Seq<BatchView>, b: Seq<BatchView>)
    ensures
        batch_records(a + b) == batch_records(a) + batch_records(b),
    decreases a.len(),
{
    if a.len() == 0 {
        assert(a + b =~= b);
        assert(batch_records(a) + batch_records(b) =~= batch_records(b));
    } else {
        lemma_batch_records_parts(a.skip(1), b);
        assert((a + b).skip(1) =~= a.skip(1) + b);
        assert(batch_records(a + b) =~= batch_records(a) + batch_records(b));
    }
}

/// The documents of appended batches are the texts of their records.
proof fn lemma_all_docs(steps: Seq<Step>, field: RecordField, batches: Seq<BatchView>)
    requires
        appended_batches(steps, field, batches),
    ensures
        all_docs(steps) == field_docs(field, batch_records(batches)),
    decreases steps.len(),
{
    if steps.len() == 0 {
        assert(all_docs(steps) =~= field_docs(field, batch_records(batches)));
    } else {
        let (front, last) = (batches.drop_last(), batches.last());
        assert(appended_batches(steps.drop_last(), field, front)) by {
            assert forall|i: int|
                0 <= i < steps.drop_last().len() implies (#[trigger] steps.drop_last()[i]).docs
                == field_docs(field, front[i].records) by {
                assert(steps.drop_last()[i] == steps[i]);
            }
        }
        lemma_all_docs(steps.drop_last(), field, front);
        lemma_batch_records_parts(front, seq![last]);
        lemma_one_batch(last);
        assert(front + seq![last] =~= batches);
        assert(steps[steps.len() - 1].docs == field_docs(field, last.records));
        assert(all_docs(steps) =~= field_docs(field, batch_records(batches)));
    }
}

/// After a run from the first record on, appended to a field without documents, the field holds
/// the texts of exactly the records that are taken, record `i` as document `i`.
pub proof fn law_ingested(
    f: FieldLists,
    field: RecordField,
    batch_size: usize,
    records: Seq<RecordView>,
    limit: Option<usize>,
    steps: Seq<Step>,
)
    requires
        f.whole(),
        all_went_through(f, 0, steps),
        appended_batches(
            steps,
            field,
            ingest_run(IngestView::begin(batch_size), records, limit).0,
        ),
        can_follow(
            f,
            0,
            field_docs(field, taken(IngestView::begin(batch_size), records, limit)),
        ),
    ensures
        after_all(f, steps).whole(),
        forall|t: Seq<u8>|
            (#[trigger] after_all(f, steps).at(t)).list == doc_list(
                f.features,
                0,
                field_docs(field, taken(IngestView::begin(batch_size), records, limit)),
                t,
            ),
{
    let v = IngestView::begin(batch_size);
    let batches = ingest_run(v, records, limit).0;
    law_ingest_run(v, records, limit);
    assert(v.gathered + taken(v, records, limit) =~= taken(v, records, limit));
    lemma_all_docs(steps, field, batches);
    law_run(f, 0, steps);
    let docs = field_docs(field, taken(v, records, limit));
    assert forall|t: Seq<u8>| (#[trigger] after_all(f, steps).at(t)).list == doc_list(
        f.features,
        0,
        docs,
        t,
    ) by {
        if f.at(t).list.len() > 0 {
            assert(f.at(t).list[0].doc < 0);
        }
        assert(f.at(t).list + doc_list(f.features, 0, docs, t) =~= doc_list(
            f.features,
            0,
            docs,
            t,
        ));
    }
}

/// The size of the batches does not show: runs over the same records with different sizes leave
/// the same entries in every section of a field.
pub proof fn law_batch_size(
    f: FieldLists,
    field: RecordField,
    sizes: (usize, usize),
    records: Seq<RecordView>,
    limit: Option<usize>,
    a: Seq<Step>,
    b: Seq<Step>,
)
    requires
        f.whole(),
        all_went_through(f, 0, a),
        all_went_through(f, 0, b),
        appended_batches(a, field, ingest_run(IngestView::begin(sizes.0), records, limit).0),
        appended_batches(b, field, ingest_run(IngestView::begin(sizes.1), records, limit).0),
        can_follow(
            f,
            0,
            field_docs(field, taken(IngestView::begin(sizes.0), records, limit)),
        ),
    ensures
        after_all(f, a).store == after_all(f, b).store,
{
    let (v, w) = (IngestView::begin(sizes.0), IngestView::begin(sizes.1));
    law_ingest_run(v, records, limit);
    law_ingest_run(w, records, limit);
    assert(taken(v, records, limit) == taken(w, records, limit));
    assert(v.gathered + taken(v, records, limit) =~= taken(v, records, limit));
    assert(w.gathered + taken(w, records, limit) =~= taken(w, records, limit));
    lemma_all_docs(a, field, ingest_run(v, records, limit).0);
    lemma_all_docs(b, field, ingest_run(w, records, limit).0);
    law_batching(f, 0, a, b);
}

} // verus!
