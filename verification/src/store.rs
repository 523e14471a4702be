//! What the index asks of the ordered key-value store that holds it, and what the answers mean.
use crate::bytes::{
    bytes_at_most, bytes_less, lemma_at_most_transitive, lemma_less_asymmetric,
    lemma_less_irreflexive, lemma_less_total,
};
use crate::field::Section;
use vstd::prelude::*;

verus! {

/// A key with its value.
#[derive(Debug, Clone)]
pub struct Entry {
    pub key: Vec<u8>,
    pub value: Vec<u8>,
}

/// A read of one section of a field. The answer to it is an entry or none.
#[derive(Debug, Clone)]
pub enum Query {
    /// The entry with this key.
    Get { section: Section, key: Vec<u8> },
    /// The entry with the greatest key from `lo` to `hi`, both included.
    Last { section: Section, lo: Vec<u8>, hi: Vec<u8> },
    /// The entry with the least key from `lo` on and before `hi`.
    First { section: Section, lo: Vec<u8>, hi: Vec<u8> },
}

/// A value to be stored under a key of one section of a field.
#[derive(Debug, Clone)]
pub struct Write {
    pub section: Section,
    pub key: Vec<u8>,
    pub value: Vec<u8>,
}

/// [`Entry`] by its bytes.
#[verifier::ext_equal]
pub struct EntryView {
    pub key: Seq<u8>,
    pub value: Seq<u8>,
}

impl View for Entry {
    type V = EntryView;

    open spec fn view(&self) -> EntryView {
        EntryView { key: self.key@, value: self.value@ }
    }
}

/// [`Query`] by its bytes.
#[verifier::ext_equal]
pub enum QueryView {
    Get { section: Section, key: Seq<u8> },
    Last { section: Section, lo: Seq<u8>, hi: Seq<u8> },
    First { section: Section, lo: Seq<u8>, hi: Seq<u8> },
}

impl View for Query {
    type V = QueryView;

    open spec fn view(&self) -> QueryView {
        match *self {
            Query::Get { section, key } => QueryView::Get { section, key: key@ },
            Query::Last { section, lo, hi } => QueryView::Last { section, lo: lo@, hi: hi@ },
            Query::First { section, lo, hi } => QueryView::First { section, lo: lo@, hi: hi@ },
        }
    }
}

/// [`Write`] by its bytes.
#[verifier::ext_equal]
pub struct WriteView {
    pub section: Section,
    pub key: Seq<u8>,
    pub value: Seq<u8>,
}

impl View for Write {
    type V = WriteView;

    open spec fn view(&self) -> WriteView {
        WriteView { section: self.section, key: self.key@, value: self.value@ }
    }
}

/// The answer to a query by its bytes.
pub open spec fn reply_view(reply: Option<Entry>) -> Option<EntryView> {
    match reply {
        Some(e) => Some(e@),
        None => None,
    }
}

/// Writes by their bytes.
pub open spec fn writes_view(writes: Seq<Write>) -> Seq<WriteView> {
    writes.map_values(|w: Write| w@)
}

/// One more write is one more in the view.
pub proof fn lemma_writes_push(writes: Seq<Write>, w: Write)
    ensures
        writes_view(writes.push(w)) == writes_view(writes).push(w@),
{
    assert(writes_view(writes.push(w)) =~= writes_view(writes).push(w@));
}

/// The contents of the keyspaces of a field.
#[verifier::ext_equal]
pub struct FieldStore {
    pub stats: Map<Seq<u8>, Seq<u8>>,
    pub docpl: Map<Seq<u8>, Seq<u8>>,
    pub pospl: Map<Seq<u8>, Seq<u8>>,
}

impl FieldStore {
    pub open spec fn section(self, section: Section) -> Map<Seq<u8>, Seq<u8>> {
        match section {
            Section::Stats => self.stats,
            Section::DocPl => self.docpl,
            Section::PosPl => self.pospl,
        }
    }

    /// The store after a write.
    pub open spec fn put(self, w: WriteView) -> FieldStore {
        match w.section {
            Section::Stats => FieldStore { stats: self.stats.insert(w.key, w.value), ..self },
            Section::DocPl => FieldStore { docpl: self.docpl.insert(w.key, w.value), ..self },
            Section::PosPl => FieldStore { pospl: self.pospl.insert(w.key, w.value), ..self },
        }
    }

    /// The store after writes, made one after the other.
    pub open spec fn put_all(self, writes: Seq<WriteView>) -> FieldStore
        decreases writes.len(),
    {
        if writes.len() == 0 {
            self
        } else {
            self.put_all(writes.drop_last()).put(writes.last())
        }
    }

    /// `reply` is the true answer to `query`.
    pub open spec fn answers(self, query: QueryView, reply: Option<EntryView>) -> bool {
        match query {
            QueryView::Get { section, key } => {
                let m = self.section(section);
                match reply {
                    Some(e) => e.key == key && m.contains_key(key) && m[key] == e.value,
                    None => !m.contains_key(key),
                }
            },
            QueryView::Last { section, lo, hi } => {
                let m = self.section(section);
                match reply {
                    Some(e) => {
                        &&& m.contains_key(e.key) && m[e.key] == e.value
                        &&& bytes_at_most(lo, e.key) && bytes_at_most(e.key, hi)
                        &&& forall|k: Seq<u8>|
                            #[trigger] m.contains_key(k) && bytes_at_most(lo, k) && bytes_at_most(
                                k,
                                hi,
                            ) ==> bytes_at_most(k, e.key)
                    },
                    None => forall|k: Seq<u8>| #[trigger]
                        m.contains_key(k) ==> !(bytes_at_most(lo, k) && bytes_at_most(k, hi)),
                }
            },
            QueryView::First { section, lo, hi } => {
                let m = self.section(section);
                match reply {
                    Some(e) => {
                        &&& m.contains_key(e.key) && m[e.key] == e.value
                        &&& bytes_at_most(lo, e.key) && bytes_less(e.key, hi)
                        &&& forall|k: Seq<u8>|
                            #[trigger] m.contains_key(k) && bytes_at_most(lo, k) && bytes_less(
                                k,
                                hi,
                            ) ==> bytes_at_most(e.key, k)
                    },
                    None => forall|k: Seq<u8>| #[trigger]
                        m.contains_key(k) ==> !(bytes_at_most(lo, k) && bytes_less(k, hi)),
                }
            },
        }
    }
}

/// What a list of writes leaves under a key, if one of them is to it.
pub open spec fn last_write(writes: Seq<WriteView>, section: Section, key: Seq<u8>) -> Option<
    Seq<u8>,
>
    decreases writes.len(),
{
    if writes.len() == 0 {
        None
    } else if writes.last().section == section && writes.last().key == key {
        Some(writes.last().value)
    } else {
        last_write(writes.drop_last(), section, key)
    }
}

/// Under each key is what was written last, or else what was there before.
pub proof fn lemma_put_all_at(
    store: FieldStore,
    writes: Seq<WriteView>,
    section: Section,
    key: Seq<u8>,
)
    ensures
        ({
            let before = store.section(section);
            let after = store.put_all(writes).section(section);
            match last_write(writes, section, key) {
                Some(value) => after.contains_key(key) && after[key] == value,
                None => {
                    &&& after.contains_key(key) == before.contains_key(key)
                    &&& before.contains_key(key) ==> after[key] == before[key]
                },
            }
        }),
    decreases writes.len(),
{
    if writes.len() > 0 {
        lemma_put_all_at(store, writes.drop_last(), section, key);
    }
}

/// Writes can be made in two parts.
pub proof fn lemma_put_all_parts(store: FieldStore, a: Seq<WriteView>, b: Seq<WriteView>)
    ensures
        store.put_all(a + b) == store.put_all(a).put_all(b),
    decreases b.len(),
{
    if b.len() == 0 {
        assert(a + b =~= a);
    } else {
        lemma_put_all_parts(store, a, b.drop_last());
        assert((a + b).drop_last() =~= a + b.drop_last());
    }
}

/// The second part of the writes counts before the first.
pub proof fn lemma_last_write_parts(
    a: Seq<WriteView>,
    b: Seq<WriteView>,
    section: Section,
    key: Seq<u8>,
)
    ensures
        last_write(a + b, section, key) == (match last_write(b, section, key) {
            Some(v) => Some(v),
            None => last_write(a, section, key),
        }),
    decreases b.len(),
{
    if b.len() == 0 {
        assert(a + b =~= a);
    } else {
        lemma_last_write_parts(a, b.drop_last(), section, key);
        assert((a + b).drop_last() =~= a + b.drop_last());
    }
}

/// Where no write is to a key, none is the last.
pub proof fn lemma_not_written(writes: Seq<WriteView>, section: Section, key: Seq<u8>)
    requires
        forall|i: int|
            0 <= i < writes.len() ==> !((#[trigger] writes[i]).section == section && writes[i].key
                == key),
    ensures
        last_write(writes, section, key) is None,
    decreases writes.len(),
{
    if writes.len() > 0 {
        let front = writes.drop_last();
        assert forall|i: int| 0 <= i < front.len() implies !((#[trigger] front[i]).section
            == section && front[i].key == key) by {
            assert(front[i] == writes[i]);
        }
        lemma_not_written(front, section, key);
    }
}

/// A write after which there is no other to the same key is the last to it.
pub proof fn lemma_written(writes: Seq<WriteView>, i: int)
    requires
        0 <= i < writes.len(),
        forall|j: int|
            i < j < writes.len() ==> !((#[trigger] writes[j]).section == writes[i].section
                && writes[j].key == writes[i].key),
    ensures
        last_write(writes, writes[i].section, writes[i].key) == Some(writes[i].value),
    decreases writes.len(),
{
    if i < writes.len() - 1 {
        let front = writes.drop_last();
        assert(front[i] == writes[i]);
        assert forall|j: int| i < j < front.len() implies !((#[trigger] front[j]).section
            == front[i].section && front[j].key == front[i].key) by {
            assert(front[j] == writes[j]);
        }
        lemma_written(front, i);
    }
}

/// A finite set of keys has a last one.
proof fn lemma_last_key(keys: Set<Seq<u8>>) -> (last: Seq<u8>)
    requires
        keys.finite(),
        keys.len() > 0,
    ensures
        keys.contains(last),
        forall|k: Seq<u8>| #[trigger] keys.contains(k) ==> bytes_at_most(k, last),
    decreases keys.len(),
{
    let a = keys.choose();
    let rest = keys.remove(a);
    lemma_less_irreflexive(a);
    if rest.len() == 0 {
        assert forall|k: Seq<u8>| #[trigger] keys.contains(k) implies bytes_at_most(k, a) by {
            if k != a {
                assert(rest.contains(k));
                assert(rest =~= Set::empty());
            }
        }
        a
    } else {
        let b = lemma_last_key(rest);
        let last = if bytes_at_most(a, b) { b } else { a };
        assert forall|k: Seq<u8>| #[trigger] keys.contains(k) implies bytes_at_most(k, last) by {
            if k != a {
                assert(rest.contains(k));
                if bytes_less(b, a) {
                    lemma_less_asymmetric(b, a);
                    lemma_at_most_transitive(k, b, a);
                }
            }
        }
        last
    }
}

/// A finite set of keys has a first one.
proof fn lemma_first_key(keys: Set<Seq<u8>>) -> (first: Seq<u8>)
    requires
        keys.finite(),
        keys.len() > 0,
    ensures
        keys.contains(first),
        forall|k: Seq<u8>| #[trigger] keys.contains(k) ==> bytes_at_most(first, k),
    decreases keys.len(),
{
    let a = keys.choose();
    let rest = keys.remove(a);
    lemma_less_irreflexive(a);
    if rest.len() == 0 {
        assert forall|k: Seq<u8>| #[trigger] keys.contains(k) implies bytes_at_most(a, k) by {
            if k != a {
                assert(rest.contains(k));
                assert(rest =~= Set::empty());
            }
        }
        a
    } else {
        let b = lemma_first_key(rest);
        let first = if bytes_at_most(b, a) { b } else { a };
        assert forall|k: Seq<u8>| #[trigger] keys.contains(k) implies bytes_at_most(first, k) by {
            if k != a {
                assert(rest.contains(k));
                if bytes_less(a, b) {
                    lemma_less_asymmetric(a, b);
                    lemma_at_most_transitive(a, b, k);
                }
            }
        }
        first
    }
}

/// A store with finitely many entries has a true answer to every query.
pub proof fn law_answered(store: FieldStore, query: QueryView)
    requires
        store.stats.dom().finite(),
        store.docpl.dom().finite(),
        store.pospl.dom().finite(),
    ensures
        exists|reply: Option<EntryView>| store.answers(query, reply),
{
    match query {
        QueryView::Get { section, key } => {
            let m = store.section(section);
            if m.contains_key(key) {
                assert(store.answers(query, Some(EntryView { key, value: m[key] })));
            } else {
                assert(store.answers(query, None));
            }
        },
        QueryView::Last { section, lo, hi } => {
            let m = store.section(section);
            let keys = m.dom().filter(|k: Seq<u8>| bytes_at_most(lo, k) && bytes_at_most(k, hi));
            if keys.len() == 0 {
                assert forall|k: Seq<u8>| #[trigger] m.contains_key(k) implies !(bytes_at_most(
                    lo,
                    k,
                ) && bytes_at_most(k, hi)) by {
                    assert(!keys.contains(k)) by {
                        assert(keys =~= Set::empty());
                    }
                }
                assert(store.answers(query, None));
            } else {
                let key = lemma_last_key(keys);
                assert forall|k: Seq<u8>|
                    #[trigger] m.contains_key(k) && bytes_at_most(lo, k) && bytes_at_most(
                        k,
                        hi,
                    ) implies bytes_at_most(k, key) by {
                    assert(keys.contains(k));
                }
                assert(store.answers(query, Some(EntryView { key, value: m[key] })));
            }
        },
        QueryView::First { section, lo, hi } => {
            let m = store.section(section);
            let keys = m.dom().filter(|k: Seq<u8>| bytes_at_most(lo, k) && bytes_less(k, hi));
            if keys.len() == 0 {
                assert forall|k: Seq<u8>| #[trigger] m.contains_key(k) implies !(bytes_at_most(
                    lo,
                    k,
                ) && bytes_less(k, hi)) by {
                    assert(!keys.contains(k)) by {
                        assert(keys =~= Set::empty());
                    }
                }
                assert(store.answers(query, None));
            } else {
                let key = lemma_first_key(keys);
                assert forall|k: Seq<u8>|
                    #[trigger] m.contains_key(k) && bytes_at_most(lo, k) && bytes_less(
                        k,
                        hi,
                    ) implies bytes_at_most(key, k) by {
                    assert(keys.contains(k));
                }
                assert(store.answers(query, Some(EntryView { key, value: m[key] })));
            }
        },
    }
}

/// Entries, queries and writes are seen by the bytes that they hold.
pub proof fn law_store_views(entry: Entry, write: Write, section: Section, a: Vec<u8>, b: Vec<u8>)
    ensures
        entry@.key == entry.key@,
        entry@.value == entry.value@,
        write@.section == write.section,
        write@.key == write.key@,
        write@.value == write.value@,
        (Query::Get { section, key: a })@ == (QueryView::Get { section, key: a@ }),
        (Query::Last { section, lo: a, hi: b })@ == (QueryView::Last { section, lo: a@, hi: b@ }),
        (Query::First { section, lo: a, hi: b })@ == (QueryView::First { section, lo: a@, hi: b@ }),
{
}

/// An answer is seen by its entry, and a list of writes one by one.
pub proof fn law_answer_views(reply: Option<Entry>, writes: Seq<Write>)
    ensures
        reply is None <==> reply_view(reply) is None,
        reply matches Some(e) ==> reply_view(reply) == Some(
            EntryView { key: e.key@, value: e.value@ },
        ),
        writes_view(writes).len() == writes.len(),
        forall|i: int|
            0 <= i < writes.len() ==> {
                let w = #[trigger] writes_view(writes)[i];
                w.section == writes[i].section && w.key == writes[i].key@ && w.value
                    == writes[i].value@
            },
{
}

/// A write changes one key of one section: what is found there afterwards is its value. Writes in
/// a row are made one after the other.
pub proof fn law_put(
    store: FieldStore,
    write: WriteView,
    writes: Seq<WriteView>,
    section: Section,
    key: Seq<u8>,
)
    ensures
        store.section(Section::Stats) == store.stats,
        store.section(Section::DocPl) == store.docpl,
        store.section(Section::PosPl) == store.pospl,
        store.put(write).section(write.section).contains_key(write.key),
        store.put(write).section(write.section)[write.key] == write.value,
        section != write.section || key != write.key ==> {
            &&& store.put(write).section(section).contains_key(key) == store.section(
                section,
            ).contains_key(key)
            &&& store.put(write).section(section)[key] == store.section(section)[key]
        },
        store.put_all(seq![]) == store,
        store.put_all(writes.push(write)) == store.put_all(writes).put(write),
{
    assert(writes.push(write).drop_last() =~= writes);
}

/// A query for one key is answered with what is stored under it, if anything is.
pub proof fn law_get(store: FieldStore, section: Section, key: Seq<u8>, reply: Option<EntryView>)
    ensures
        store.answers(QueryView::Get { section, key }, reply) <==> reply == (if store.section(
            section,
        ).contains_key(key) {
            Some(EntryView { key, value: store.section(section)[key] })
        } else {
            None
        }),
{
}

/// A query for the last entry of a range, both ends included, or the first before its end, is
/// answered with a stored entry of the range that no other passes, or with none where the range
/// is empty.
pub proof fn law_ranges(
    store: FieldStore,
    section: Section,
    lo: Seq<u8>,
    hi: Seq<u8>,
    reply: Option<EntryView>,
    k: Seq<u8>,
)
    ensures
        store.answers(QueryView::Last { section, lo, hi }, reply) ==> {
            &&& reply matches Some(e) ==> {
                &&& store.section(section).contains_key(e.key)
                &&& store.section(section)[e.key] == e.value
                &&& !bytes_less(e.key, lo) && !bytes_less(hi, e.key)
            }
            &&& store.section(section).contains_key(k) && !bytes_less(k, lo) && !bytes_less(hi, k)
                ==> (reply matches Some(e) && !bytes_less(e.key, k))
        },
        store.answers(QueryView::First { section, lo, hi }, reply) ==> {
            &&& reply matches Some(e) ==> {
                &&& store.section(section).contains_key(e.key)
                &&& store.section(section)[e.key] == e.value
                &&& !bytes_less(e.key, lo) && bytes_less(e.key, hi)
            }
            &&& store.section(section).contains_key(k) && !bytes_less(k, lo) && bytes_less(k, hi)
                ==> (reply matches Some(e) && !bytes_less(k, e.key))
        },
{
    lemma_less_total(lo, k);
    lemma_less_total(k, hi);
    if store.answers(QueryView::Last { section, lo, hi }, reply) {
        if let Some(e) = reply {
            lemma_at_most_is(lo, e.key);
            lemma_at_most_is(e.key, hi);
            lemma_at_most_is(k, e.key);
        }
    }
    if store.answers(QueryView::First { section, lo, hi }, reply) {
        if let Some(e) = reply {
            lemma_at_most_is(lo, e.key);
            lemma_at_most_is(e.key, k);
        }
    }
}

/// A key at most another is not behind it.
proof fn lemma_at_most_is(a: Seq<u8>, b: Seq<u8>)
    ensures
        bytes_at_most(a, b) ==> !bytes_less(b, a),
{
    if bytes_less(a, b) {
        lemma_less_asymmetric(a, b);
    } else {
        lemma_less_irreflexive(a);
    }
}

} // verus!
