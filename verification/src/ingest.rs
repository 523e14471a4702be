//! Records gathered into batches for the fields of an index.
use crate::append::{positions_in_order, AppendView};
use crate::append_law::{law_tokens_apart, FieldLists};
use crate::batching::{all_sound, gathered, holds_docs, law_add_doc, sound, Doc};
use crate::buffer::{doc_postings, hits, lemma_rep_postings, TokenIndexBuffer};
use crate::features::TokenFieldFeatures;
use crate::field::{keyspace_name, spec_keyspace_name, Section, TokenFieldIndex, SEPARATOR};
use crate::iter::DOC_ID_UNPOSITIONED;
use crate::positions::positions_ascend;
use crate::reader::{IndexRecord, RecordView};
use crate::stats::DocId;
use crate::token_append::{appendable, fits_field, within_limits};
use crate::token_map::LocalPosting;
use crate::tokenizer::{alphanumeric, law_runs_are_whole, lemma_runs_len, runs, tokenize};
use vstd::prelude::*;
use vstd::utf8::encode_utf8;

verus! {

/// A text of a record that is indexed. Each is a field of its own.
#[derive(Debug, Copy, Clone, PartialEq, Eq, Structural)]
pub enum RecordField {
    Title,
    Body,
    RandomLabel,
}

impl RecordField {
    pub open spec fn spec_name(self) -> Seq<char> {
        match self {
            RecordField::Title => "title"@,
            RecordField::Body => "body"@,
            RecordField::RandomLabel => "random_label"@,
        }
    }

    /// The name of the field.
    pub fn name(self) -> (r: &'static str)
        ensures
            r@ == self.spec_name(),
    {
        match self {
            RecordField::Title => "title",
            RecordField::Body => "body",
            RecordField::RandomLabel => "random_label",
        }
    }

    /// All the fields.
    pub fn all() -> (r: [RecordField; 3])
        ensures
            r@ == seq![RecordField::Title, RecordField::Body, RecordField::RandomLabel],
    {
        let r = [RecordField::Title, RecordField::Body, RecordField::RandomLabel];
        assert(r@ =~= seq![RecordField::Title, RecordField::Body, RecordField::RandomLabel]);
        r
    }

    /// The text of a record that the field indexes.
    pub open spec fn text(self, record: RecordView) -> Seq<char> {
        match self {
            RecordField::Title => record.title,
            RecordField::Body => record.body,
            RecordField::RandomLabel => record.random_label,
        }
    }

    /// The field as an index: it records positions.
    pub fn index(self) -> (r: TokenFieldIndex)
        ensures
            r.name_bytes() == encode_utf8(self.spec_name()),
            r.spec_features() is WithPositions,
            forall|s: Section| #[trigger]
                r.spec_keyspace(s) == Some(spec_keyspace_name("enwiki"@, self.spec_name(), s)),
    {
        let r = TokenFieldIndex::new("enwiki", self.name(), TokenFieldFeatures::WithPositions);
        proof {
            assert forall|s: Section| #[trigger] r.spec_keyspace(s) == Some(
                spec_keyspace_name("enwiki"@, self.spec_name(), s),
            ) by {
                match s {
                    Section::Stats => {},
                    Section::DocPl => {},
                    Section::PosPl => {},
                }
            }
        }
        r
    }

    /// The name of the keyspace that holds a section of the field.
    pub fn keyspace(self, section: Section) -> (r: String)
        ensures
            r@ == spec_keyspace_name("enwiki"@, self.spec_name(), section),
    {
        keyspace_name("enwiki", self.name(), section)
    }
}

/// Each field indexes its own text of a record, whatever the texts are.
pub proof fn law_field_texts(record: IndexRecord)
    ensures
        RecordField::Title.text(record@) == record.title@,
        RecordField::Body.text(record@) == record.body@,
        RecordField::RandomLabel.text(record@) == record.random_label@,
        RecordField::Title.spec_name() == "title"@,
        RecordField::Body.spec_name() == "body"@,
        RecordField::RandomLabel.spec_name() == "random_label"@,
{
}

/// At which positions a token stands among the tokens of a text.
pub open spec fn places(texts: Seq<Seq<char>>, token: Seq<u8>) -> Seq<u32>
    decreases texts.len(),
{
    if texts.len() == 0 {
        seq![]
    } else {
        let front = places(texts.drop_last(), token);
        if encode_utf8(texts.last()) == token {
            front.push((texts.len() - 1) as u32)
        } else {
            front
        }
    }
}

/// A token stands exactly at the numbers of those tokens of a text that are the token: each such
/// number is there, nothing else is, and they ascend.
pub proof fn law_places(texts: Seq<Seq<char>>, token: Seq<u8>)
    requires
        texts.len() <= u32::MAX,
    ensures
        forall|p: u32|
            #![trigger places(texts, token).contains(p)]
            places(texts, token).contains(p) <==> p < texts.len() && encode_utf8(texts[p as int])
                == token,
        forall|i: int, j: int|
            0 <= i < j < places(texts, token).len() ==> places(texts, token)[i] < places(
                texts,
                token,
            )[j],
    decreases texts.len(),
{
    if texts.len() > 0 {
        let front = texts.drop_last();
        let n = texts.len() - 1;
        law_places(front, token);
        let before = places(front, token);
        let all = places(texts, token);
        assert forall|p: u32|
            #![trigger all.contains(p)]
            all.contains(p) <==> p < texts.len() && encode_utf8(texts[p as int]) == token by {
            if p < n {
                assert(front[p as int] == texts[p as int]);
                if before.contains(p) {
                    let i = choose|i: int| 0 <= i < before.len() && before[i] == p;
                    assert(all[i] == p);
                }
                if all.contains(p) {
                    let i = choose|i: int| 0 <= i < all.len() && all[i] == p;
                    assert(before[i] == p);
                }
            } else {
                assert(!before.contains(p));
                if all.contains(p) {
                    let i = choose|i: int| 0 <= i < all.len() && all[i] == p;
                    if i < before.len() {
                        assert(before[i] == p);
                    }
                }
                if p == n && encode_utf8(texts[n]) == token {
                    assert(all[before.len() as int] == p);
                }
            }
        }
        assert forall|i: int, j: int| 0 <= i < j < all.len() implies all[i] < all[j] by {
            assert(all[i] == before[i]);
            assert(before.contains(before[i]));
        }
    }
}

/// A text as the positions at which each token stands in it.
pub open spec fn text_doc(text: Seq<char>) -> Doc {
    |t: Seq<u8>| places(runs(text), t)
}

/// A token stands in a text where a whole word of the text is the token: `spans` are the words, the
/// longest runs of alphanumeric characters in order, and the positions of the token are the numbers
/// of exactly those words that it is, ascending.
pub proof fn law_text_doc(text: Seq<char>, token: Seq<u8>) -> (spans: Seq<(int, int)>)
    requires
        text.len() <= u32::MAX,
    ensures
        forall|i: int|
            0 <= i < spans.len() ==> {
                let (from, to) = #[trigger] spans[i];
                &&& 0 <= from < to <= text.len()
                &&& from > 0 ==> !alphanumeric(text[from - 1])
                &&& to < text.len() ==> !alphanumeric(text[to])
            },
        forall|i: int, c: int|
            0 <= i < spans.len() && (#[trigger] spans[i]).0 <= c < spans[i].1 ==> alphanumeric(
                #[trigger] text[c],
            ),
        forall|i: int, j: int|
            0 <= i < j < spans.len() ==> (#[trigger] spans[i]).1 < (#[trigger] spans[j]).0,
        forall|c: int|
            0 <= c < text.len() && alphanumeric(#[trigger] text[c]) ==> exists|i: int|
                0 <= i < spans.len() && (#[trigger] spans[i]).0 <= c < spans[i].1,
        forall|p: u32|
            #![trigger text_doc(text)(token).contains(p)]
            text_doc(text)(token).contains(p) <==> p < spans.len() && encode_utf8(
                text.subrange(spans[p as int].0, spans[p as int].1),
            ) == token,
        forall|i: int, j: int|
            0 <= i < j < text_doc(text)(token).len() ==> #[trigger] text_doc(text)(token)[i]
                < #[trigger] text_doc(text)(token)[j],
{
    let spans = law_runs_are_whole(text);
    lemma_runs_len(text);
    law_places(runs(text), token);
    assert forall|p: u32|
        #![trigger text_doc(text)(token).contains(p)]
        text_doc(text)(token).contains(p) <==> p < spans.len() && encode_utf8(
            text.subrange(spans[p as int].0, spans[p as int].1),
        ) == token by {
        assert(places(runs(text), token).contains(p) <==> p < runs(text).len() && encode_utf8(
            runs(text)[p as int],
        ) == token);
        if p < spans.len() {
            let span = spans[p as int];
            assert(runs(text)[p as int] == text.subrange(span.0, span.1));
        }
    }
    spans
}

/// The texts of records that a field indexes.
pub open spec fn field_docs(field: RecordField, records: Seq<RecordView>) -> Seq<Doc> {
    records.map_values(|r: RecordView| text_doc(field.text(r)))
}

/// The positions are below the number of tokens, and ascend.
proof fn lemma_places_ascend(texts: Seq<Seq<char>>, token: Seq<u8>)
    requires
        texts.len() <= u32::MAX,
    ensures
        positions_ascend(places(texts, token)),
        forall|i: int|
            0 <= i < places(texts, token).len() ==> (#[trigger] places(texts, token)[i])
                < texts.len(),
    decreases texts.len(),
{
    if texts.len() > 0 {
        lemma_places_ascend(texts.drop_last(), token);
    }
}

/// The occurrences of a token among numbered tokens are at its places.
proof fn lemma_hits_are_places(
    tokens: Seq<(u32, Vec<u8>)>,
    texts: Seq<Seq<char>>,
    token: Seq<u8>,
)
    requires
        tokens.len() == texts.len(),
        texts.len() <= u32::MAX,
        forall|i: int|
            0 <= i < tokens.len() ==> (#[trigger] tokens[i]).0 == i && tokens[i].1@ == encode_utf8(
                texts[i],
            ),
    ensures
        hits(tokens, token) == places(texts, token),
    decreases tokens.len(),
{
    if tokens.len() > 0 {
        let front = tokens.drop_last();
        assert forall|i: int| 0 <= i < front.len() implies (#[trigger] front[i]).0 == i
            && front[i].1@ == encode_utf8(texts.drop_last()[i]) by {
            assert(front[i] == tokens[i]);
        }
        lemma_hits_are_places(front, texts.drop_last(), token);
        assert(tokens[tokens.len() - 1].0 == tokens.len() - 1);
    }
}

/// A token that occurs is one of the tokens.
proof fn lemma_hits_from(tokens: Seq<(u32, Vec<u8>)>, token: Seq<u8>)
    requires
        hits(tokens, token).len() > 0,
    ensures
        exists|i: int| 0 <= i < tokens.len() && (#[trigger] tokens[i]).1@ == token,
    decreases tokens.len(),
{
    if tokens.last().1@ == token {
        assert(tokens[tokens.len() - 1].1@ == token);
    } else {
        let front = tokens.drop_last();
        lemma_hits_from(front, token);
        let i = choose|i: int| 0 <= i < front.len() && (#[trigger] front[i]).1@ == token;
        assert(tokens[i].1@ == token);
    }
}

/// A buffer for a field that records positions: it can be appended, and its tokens keep apart.
pub open spec fn buffer_wf(buffer: TokenIndexBuffer) -> bool {
    &&& buffer.wf()
    &&& buffer.spec_features() is WithPositions
    &&& positions_in_order(buffer.spec_rep())
    &&& forall|t: Seq<u8>| #[trigger] buffer.postings(t).len() > 0 ==> !t.contains(SEPARATOR)
}

/// An empty buffer for a field that records positions.
fn empty_buffer() -> (r: TokenIndexBuffer)
    ensures
        buffer_wf(r),
        r.spec_next_docid() == 0,
        forall|t: Seq<u8>| #[trigger] r.postings(t) == Seq::<LocalPosting>::empty(),
{
    let r = TokenIndexBuffer::new(TokenFieldFeatures::WithPositions);
    proof {
        assert forall|t: Seq<u8>, i: int| 0 <= i < r.spec_rep().list(t).len() implies
            positions_ascend((#[trigger] r.spec_rep().list(t)[i]).positions) by {
            assert(r.postings(t) == r.spec_rep().list(t));
        }
    }
    r
}

/// Adds a text to a buffer.
fn add_text(buffer: &mut TokenIndexBuffer, text: &String, Ghost(docs): Ghost<Seq<Doc>>)
    requires
        buffer_wf(*old(buffer)),
        holds_docs(old(buffer).spec_rep(), docs),
        old(buffer).spec_next_docid() == docs.len(),
        old(buffer).spec_next_docid() < u32::MAX,
        text@.len() <= u32::MAX,
    ensures
        buffer_wf(*final(buffer)),
        holds_docs(final(buffer).spec_rep(), docs.push(text_doc(text@))),
        sound(text_doc(text@)),
        final(buffer).spec_next_docid() == old(buffer).spec_next_docid() + 1,
{
    let ghost before = *buffer;
    let tokens = tokenize(text.as_str());
    buffer.add_doc(tokens.as_slice());
    proof {
        let doc = text_doc(text@);
        lemma_runs_len(text@);
        assert forall|t: Seq<u8>| #[trigger] hits(tokens@, t) == doc(t) by {
            lemma_hits_are_places(tokens@, runs(text@), t);
        }
        law_add_doc(before, *buffer, docs, tokens@);
        assert((|t: Seq<u8>| hits(tokens@, t)) =~= doc);
        assert forall|t: Seq<u8>| (#[trigger] doc(t)).len() > 0 implies !t.contains(SEPARATOR)
            && positions_ascend(doc(t)) by {
            assert(hits(tokens@, t) == doc(t));
            lemma_places_ascend(runs(text@), t);
            lemma_hits_from(tokens@, t);
            let i = choose|i: int| 0 <= i < tokens@.len() && (#[trigger] tokens@[i]).1@ == t;
            assert(!tokens@[i].1@.contains(SEPARATOR));
        }
        let number = before.spec_next_docid();
        assert forall|t: Seq<u8>, i: int| 0 <= i < buffer.spec_rep().list(t).len() implies
            positions_ascend((#[trigger] buffer.spec_rep().list(t)[i]).positions) by {
            assert(buffer.postings(t) == before.postings(t) + doc_postings(
                before.spec_features(),
                number,
                tokens@,
                t,
            ));
            if i < before.postings(t).len() {
                assert(buffer.spec_rep().list(t)[i] == before.spec_rep().list(t)[i]);
            } else {
                assert(hits(tokens@, t) == doc(t));
                assert(positions_ascend(doc(t)));
            }
        }
        assert forall|t: Seq<u8>| #[trigger] buffer.postings(t).len() > 0 implies !t.contains(
            SEPARATOR,
        ) by {
            if before.postings(t).len() == 0 {
                assert(doc_postings(before.spec_features(), number, tokens@, t).len() > 0);
                assert(hits(tokens@, t) == doc(t));
            }
        }
    }
}

/// The buffer of a field holds the texts of records, and can be appended.
pub open spec fn buffer_of(
    buffer: TokenIndexBuffer,
    field: RecordField,
    records: Seq<RecordView>,
) -> bool {
    &&& buffer_wf(buffer)
    &&& buffer.spec_next_docid() == records.len()
    &&& holds_docs(buffer.spec_rep(), field_docs(field, records))
    &&& all_sound(field_docs(field, records))
}

/// Adds a text of a record to the buffer of a field.
fn add_field(
    buffer: &mut TokenIndexBuffer,
    text: &String,
    Ghost(field): Ghost<RecordField>,
    Ghost(records): Ghost<Seq<RecordView>>,
    Ghost(record): Ghost<RecordView>,
)
    requires
        buffer_of(*old(buffer), field, records),
        records.len() < u32::MAX,
        text@ == field.text(record),
        text@.len() <= u32::MAX,
    ensures
        buffer_of(*final(buffer), field, records.push(record)),
{
    let ghost docs = field_docs(field, records);
    add_text(buffer, text, Ghost(docs));
    proof {
        let more = field_docs(field, records.push(record));
        assert(more =~= docs.push(text_doc(text@)));
        assert forall|i: int| 0 <= i < more.len() implies sound(#[trigger] more[i]) by {
            if i < docs.len() {
                assert(more[i] == docs[i]);
            }
        }
    }
}

/// Records that are appended together, from a document on.
pub struct Batch {
    pub start_docid: DocId,
    pub title: TokenIndexBuffer,
    pub body: TokenIndexBuffer,
    pub random_label: TokenIndexBuffer,
    pub records: Ghost<Seq<RecordView>>,
}

/// [`Batch`] by its records.
#[verifier::ext_equal]
pub struct BatchView {
    pub start: int,
    pub records: Seq<RecordView>,
}

impl View for Batch {
    type V = BatchView;

    open spec fn view(&self) -> BatchView {
        BatchView { start: self.start_docid as int, records: self.records@ }
    }
}

impl Batch {
    /// The buffer of a field.
    pub open spec fn buffer(self, field: RecordField) -> TokenIndexBuffer {
        match field {
            RecordField::Title => self.title,
            RecordField::Body => self.body,
            RecordField::RandomLabel => self.random_label,
        }
    }

    /// Every buffer holds the records.
    pub open spec fn wf(self) -> bool {
        forall|f: RecordField| buffer_of(#[trigger] self.buffer(f), f, self@.records)
    }
}

/// A batch is seen by its first document and its records, and the buffer of each field is the one
/// with its name.
pub proof fn law_batch_members(batch: Batch)
    ensures
        batch@.start == batch.start_docid,
        batch@.records == batch.records@,
        batch.buffer(RecordField::Title) == batch.title,
        batch.buffer(RecordField::Body) == batch.body,
        batch.buffer(RecordField::RandomLabel) == batch.random_label,
{
}

/// Each text that a field indexes is that of one record, in the order of the records.
pub proof fn law_field_docs(records: Seq<RecordView>, i: int)
    requires
        0 <= i < records.len(),
    ensures
        forall|field: RecordField| #[trigger] field_docs(field, records).len() == records.len(),
        field_docs(RecordField::Title, records)[i] == text_doc(records[i].title),
        field_docs(RecordField::Body, records)[i] == text_doc(records[i].body),
        field_docs(RecordField::RandomLabel, records)[i] == text_doc(records[i].random_label),
{
}

/// Gathers records into batches of a given size and numbers their documents from zero on.
pub struct Ingest {
    title: TokenIndexBuffer,
    body: TokenIndexBuffer,
    random_label: TokenIndexBuffer,
    records: Ghost<Seq<RecordView>>,
    batch_count: usize,
    batch_size: usize,
    next_docid: DocId,
    total_bytes: u64,
}

/// [`Ingest`] by what it has gathered.
#[verifier::ext_equal]
pub struct IngestView {
    /// How many records make a batch.
    pub batch_size: usize,
    /// The document that the first of the gathered records gets.
    pub next_docid: int,
    /// The records that are not in a batch yet.
    pub gathered: Seq<RecordView>,
    /// How many bytes of text there were in all.
    pub total_bytes: nat,
}

impl IngestView {
    /// Nothing is gathered yet.
    pub open spec fn begin(batch_size: usize) -> IngestView {
        IngestView { batch_size, next_docid: 0, gathered: seq![], total_bytes: 0 }
    }

    /// How many records there were in all. The documents are numbered by it.
    pub open spec fn added(self) -> int {
        self.next_docid + self.gathered.len()
    }

    /// There may be another record.
    pub open spec fn wants_more(self, limit: Option<usize>) -> bool {
        limit matches Some(n) ==> self.added() < n
    }

    pub open spec fn add(self, record: RecordView) -> IngestView {
        IngestView {
            gathered: self.gathered.push(record),
            total_bytes: self.total_bytes + text_bytes(record),
            ..self
        }
    }

    /// The gathered records make a batch.
    pub open spec fn is_full(self) -> bool {
        self.gathered.len() >= self.batch_size
    }

    pub open spec fn batch(self) -> BatchView {
        BatchView { start: self.next_docid, records: self.gathered }
    }

    pub open spec fn flush(self) -> IngestView {
        IngestView { next_docid: self.added(), gathered: seq![], ..self }
    }

    /// The last batch, if there is one, and what is left.
    pub open spec fn finish(self) -> (Option<BatchView>, IngestView) {
        if self.gathered.len() > 0 {
            (Some(self.batch()), self.flush())
        } else {
            (None, self)
        }
    }
}

impl View for Ingest {
    type V = IngestView;

    closed spec fn view(&self) -> IngestView {
        IngestView {
            batch_size: self.batch_size,
            next_docid: self.next_docid as int,
            gathered: self.records@,
            total_bytes: self.total_bytes as nat,
        }
    }
}

impl Ingest {
    /// The buffer of the titles.
    pub closed spec fn spec_title(self) -> TokenIndexBuffer {
        self.title
    }

    /// The buffer of the bodies.
    pub closed spec fn spec_body(self) -> TokenIndexBuffer {
        self.body
    }

    /// The buffer of the labels.
    pub closed spec fn spec_random_label(self) -> TokenIndexBuffer {
        self.random_label
    }

    /// Every buffer holds the gathered records.
    pub closed spec fn wf(self) -> bool {
        &&& buffer_of(self.title, RecordField::Title, self.records@)
        &&& buffer_of(self.body, RecordField::Body, self.records@)
        &&& buffer_of(self.random_label, RecordField::RandomLabel, self.records@)
        &&& self.batch_count == self.records@.len()
    }

    pub fn new(batch_size: usize) -> (r: Self)
        ensures
            r.wf(),
            r@ == IngestView::begin(batch_size),
            r@.batch_size == batch_size,
            r@.next_docid == 0,
            r@.gathered.len() == 0,
            r@.total_bytes == 0,
    {
        let r = Ingest {
            title: empty_buffer(),
            body: empty_buffer(),
            random_label: empty_buffer(),
            records: Ghost(Seq::empty()),
            batch_count: 0,
            batch_size,
            next_docid: 0,
            total_bytes: 0,
        };
        proof {
            lemma_empty_buffer(r.title, RecordField::Title);
            lemma_empty_buffer(r.body, RecordField::Body);
            lemma_empty_buffer(r.random_label, RecordField::RandomLabel);
        }
        r
    }

    pub fn batch_count(&self) -> (r: usize)
        requires
            self.wf(),
        ensures
            r == self@.gathered.len(),
    {
        self.batch_count
    }

    pub fn next_docid(&self) -> (r: DocId)
        ensures
            r == self@.next_docid,
    {
        self.next_docid
    }

    pub fn total_bytes(&self) -> (r: u64)
        ensures
            r == self@.total_bytes,
    {
        self.total_bytes
    }

    /// Tells whether there may be another record, given how many there may be in all.
    pub fn wants_more(&self, limit: Option<usize>) -> (r: bool)
        requires
            self.wf(),
        ensures
            r == self@.wants_more(limit),
            limit is None ==> r,
            limit matches Some(n) ==> r == (self@.next_docid + self@.gathered.len() < n),
    {
        match limit {
            Some(n) => {
                let n: u64 = n as u64;
                n > self.next_docid && n - self.next_docid > self.batch_count as u64
            },
            None => true,
        }
    }

    /// Gathers a record, and tells whether the batch is full.
    pub fn add(&mut self, record: &IndexRecord) -> (full: bool)
        requires
            old(self).wf(),
            old(self)@.gathered.len() < u32::MAX,
            forall|f: RecordField| (#[trigger] f.text(record@)).len() <= u32::MAX,
            old(self)@.total_bytes + text_bytes(record@) <= u64::MAX,
        ensures
            final(self).wf(),
            final(self)@ == old(self)@.add(record@),
            full == final(self)@.is_full(),
            final(self)@.gathered == old(self)@.gathered.push(record@),
            final(self)@.next_docid == old(self)@.next_docid,
            final(self)@.batch_size == old(self)@.batch_size,
            full == (old(self)@.gathered.len() + 1 >= old(self)@.batch_size),
            final(self)@.total_bytes == old(self)@.total_bytes + encode_utf8(
                record.title@,
            ).len() + encode_utf8(record.body@).len() + encode_utf8(record.random_label@).len(),
            holds_docs(
                final(self).spec_title().spec_rep(),
                old(self)@.gathered.map_values(|r: RecordView| text_doc(r.title)).push(
                    text_doc(record.title@),
                ),
            ),
            holds_docs(
                final(self).spec_body().spec_rep(),
                old(self)@.gathered.map_values(|r: RecordView| text_doc(r.body)).push(
                    text_doc(record.body@),
                ),
            ),
            holds_docs(
                final(self).spec_random_label().spec_rep(),
                old(self)@.gathered.map_values(|r: RecordView| text_doc(r.random_label)).push(
                    text_doc(record.random_label@),
                ),
            ),
    {
        proof {
            assert(RecordField::Title.text(record@) == record.title@);
            assert(RecordField::Body.text(record@) == record.body@);
            assert(RecordField::RandomLabel.text(record@) == record.random_label@);
        }
        let ghost records = self.records@;
        let title_len: u64 = record.title.as_str().as_bytes().len() as u64;
        let body_len: u64 = record.body.as_str().as_bytes().len() as u64;
        let label_len: u64 = record.random_label.as_str().as_bytes().len() as u64;
        self.total_bytes = self.total_bytes + title_len + body_len + label_len;
        add_field(
            &mut self.title,
            &record.title,
            Ghost(RecordField::Title),
            Ghost(records),
            Ghost(record@),
        );
        add_field(
            &mut self.body,
            &record.body,
            Ghost(RecordField::Body),
            Ghost(records),
            Ghost(record@),
        );
        add_field(
            &mut self.random_label,
            &record.random_label,
            Ghost(RecordField::RandomLabel),
            Ghost(records),
            Ghost(record@),
        );
        self.records = Ghost(records.push(record@));
        self.batch_count = self.batch_count + 1;
        proof {
            let all = records.push(record@);
            assert(field_docs(RecordField::Title, all) =~= records.map_values(
                |r: RecordView| text_doc(r.title),
            ).push(text_doc(record.title@)));
            assert(field_docs(RecordField::Body, all) =~= records.map_values(
                |r: RecordView| text_doc(r.body),
            ).push(text_doc(record.body@)));
            assert(field_docs(RecordField::RandomLabel, all) =~= records.map_values(
                |r: RecordView| text_doc(r.random_label),
            ).push(text_doc(record.random_label@)));
        }
        self.batch_count >= self.batch_size
    }

    /// Hands out what is gathered, and goes on with the document after it.
    pub fn flush(self) -> (r: (Batch, Ingest))
        requires
            self.wf(),
            self@.added() <= u64::MAX,
        ensures
            r.0.wf(),
            r.0@ == self@.batch(),
            r.1.wf(),
            r.1@ == self@.flush(),
            r.0.records@ == self@.gathered,
            r.0.start_docid == self@.next_docid,
            buffer_wf(r.0.title) && buffer_wf(r.0.body) && buffer_wf(r.0.random_label),
            r.0.title.spec_next_docid() == self@.gathered.len(),
            r.0.body.spec_next_docid() == self@.gathered.len(),
            r.0.random_label.spec_next_docid() == self@.gathered.len(),
            holds_docs(
                r.0.title.spec_rep(),
                self@.gathered.map_values(|r: RecordView| text_doc(r.title)),
            ),
            holds_docs(
                r.0.body.spec_rep(),
                self@.gathered.map_values(|r: RecordView| text_doc(r.body)),
            ),
            holds_docs(
                r.0.random_label.spec_rep(),
                self@.gathered.map_values(|r: RecordView| text_doc(r.random_label)),
            ),
            r.1@.next_docid == self@.next_docid + self@.gathered.len(),
            r.1@.gathered.len() == 0,
            r.1@.batch_size == self@.batch_size,
            r.1@.total_bytes == self@.total_bytes,
    {
        let Ingest {
            title,
            body,
            random_label,
            records,
            batch_count,
            batch_size,
            next_docid,
            total_bytes,
        } = self;
        let batch = Batch { start_docid: next_docid, title, body, random_label, records };
        let rest = Ingest {
            title: empty_buffer(),
            body: empty_buffer(),
            random_label: empty_buffer(),
            records: Ghost(Seq::empty()),
            batch_count: 0,
            batch_size,
            next_docid: next_docid + batch_count as u64,
            total_bytes,
        };
        proof {
            lemma_empty_buffer(rest.title, RecordField::Title);
            lemma_empty_buffer(rest.body, RecordField::Body);
            lemma_empty_buffer(rest.random_label, RecordField::RandomLabel);
            let all = self@.gathered;
            assert(field_docs(RecordField::Title, all) =~= all.map_values(
                |r: RecordView| text_doc(r.title),
            ));
            assert(field_docs(RecordField::Body, all) =~= all.map_values(
                |r: RecordView| text_doc(r.body),
            ));
            assert(field_docs(RecordField::RandomLabel, all) =~= all.map_values(
                |r: RecordView| text_doc(r.random_label),
            ));
        }
        (batch, rest)
    }

    /// Hands out the last batch, if there is one.
    pub fn finish(self) -> (r: (Option<Batch>, Ingest))
        requires
            self.wf(),
            self@.added() <= u64::MAX,
        ensures
            match r.0 {
                Some(batch) => batch.wf() && self@.finish() == (Some(batch@), r.1@),
                None => self@.finish() == (None::<BatchView>, r.1@),
            },
            r.1.wf(),
            r.0 is Some <==> self@.gathered.len() > 0,
            r.0 matches Some(batch) ==> {
                &&& batch.start_docid == self@.next_docid
                &&& batch.records@ == self@.gathered
                &&& buffer_wf(batch.title) && buffer_wf(batch.body) && buffer_wf(batch.random_label)
                &&& batch.title.spec_next_docid() == self@.gathered.len()
                &&& batch.body.spec_next_docid() == self@.gathered.len()
                &&& batch.random_label.spec_next_docid() == self@.gathered.len()
                &&& holds_docs(
                    batch.title.spec_rep(),
                    self@.gathered.map_values(|r: RecordView| text_doc(r.title)),
                )
                &&& holds_docs(
                    batch.body.spec_rep(),
                    self@.gathered.map_values(|r: RecordView| text_doc(r.body)),
                )
                &&& holds_docs(
                    batch.random_label.spec_rep(),
                    self@.gathered.map_values(|r: RecordView| text_doc(r.random_label)),
                )
            },
            r.1@.next_docid == self@.next_docid + self@.gathered.len(),
            r.1@.gathered.len() == 0,
            r.1@.total_bytes == self@.total_bytes,
    {
        if self.batch_count > 0 {
            let (batch, rest) = self.flush();
            (Some(batch), rest)
        } else {
            (None, self)
        }
    }
}

/// A buffer without postings holds no records.
proof fn lemma_empty_buffer(buffer: TokenIndexBuffer, field: RecordField)
    requires
        buffer_wf(buffer),
        buffer.spec_next_docid() == 0,
        forall|t: Seq<u8>| #[trigger] buffer.postings(t) == Seq::<LocalPosting>::empty(),
    ensures
        buffer_of(buffer, field, seq![]),
{
    let none = Seq::<RecordView>::empty();
    assert(field_docs(field, none) =~= seq![]);
    assert forall|t: Seq<u8>| #[trigger] buffer.spec_rep().list(t) == gathered(
        buffer.spec_features(),
        field_docs(field, none),
        t,
    ) by {
        assert(buffer.postings(t) == buffer.spec_rep().list(t));
    }
}

/// A gathered batch can be appended to a field that has valid lists for its tokens and no document
/// from the start of the batch on. Tokens without a separator then keep apart from those of the
/// batch.
pub proof fn law_batch_can_be_appended(f: FieldLists, buffer: TokenIndexBuffer, start: DocId)
    requires
        buffer_wf(buffer),
        f.features is WithPositions,
        start + buffer.spec_next_docid() <= DOC_ID_UNPOSITIONED,
        forall|t: Seq<u8>| #[trigger]
            buffer.postings(t).len() > 0 ==> {
                &&& f.at(t).valid()
                &&& forall|i: int|
                    0 <= i < f.at(t).list.len() ==> (#[trigger] f.at(t).list[i]).doc < start
                &&& within_limits(f.at(t), start, buffer.postings(t))
            },
    ensures
        ({
            let v = AppendView {
                name: f.name,
                features: f.features,
                start,
                rep: buffer.spec_rep(),
                at: 0,
                block: None,
            };
            &&& f.ready(v, buffer.spec_next_docid())
            &&& forall|t: Seq<u8>| !t.contains(SEPARATOR) ==> #[trigger] f.apart(v, t)
        }),
{
    let v = AppendView {
        name: f.name,
        features: f.features,
        start,
        rep: buffer.spec_rep(),
        at: 0,
        block: None,
    };
    assert forall|t: Seq<u8>| #[trigger] v.rep.list(t).len() > 0 implies f.at(t).valid()
        && appendable(f.at(t), start, v.rep.list(t), buffer.spec_next_docid())
        && !t.contains(SEPARATOR) by {
        let list = v.rep.list(t);
        assert(buffer.postings(t) == list);
        assert forall|i: int| 0 <= i < list.len() implies fits_field(
            #[trigger] list[i],
            f.features,
        ) by {
            assert(positions_ascend(buffer.spec_rep().list(t)[i].positions));
            lemma_rep_postings(v.rep, t, i);
        }
    }
    assert forall|t: Seq<u8>| !t.contains(SEPARATOR) implies #[trigger] f.apart(v, t) by {
        law_tokens_apart(f, v, t);
    }
}

/// How many bytes of text a record has.
pub open spec fn text_bytes(record: RecordView) -> nat {
    encode_utf8(record.title).len() + encode_utf8(record.body).len() + encode_utf8(
        record.random_label,
    ).len()
}

/// The unit in which a size is shown.
#[derive(Debug, Copy, Clone, PartialEq, Eq, Structural)]
pub enum SizeUnit {
    B,
    KB,
    MB,
    GB,
}

impl SizeUnit {
    pub open spec fn spec_bytes(self) -> nat {
        match self {
            SizeUnit::B => 1,
            SizeUnit::KB => 1024,
            SizeUnit::MB => 1024 * 1024,
            SizeUnit::GB => 1024 * 1024 * 1024,
        }
    }

    /// How many bytes the unit is.
    pub fn bytes(self) -> (r: u64)
        ensures
            r == self.spec_bytes(),
            r == (match self {
                SizeUnit::B => 1int,
                SizeUnit::KB => 1_024,
                SizeUnit::MB => 1_048_576,
                SizeUnit::GB => 1_073_741_824,
            }),
    {
        match self {
            SizeUnit::B => 1,
            SizeUnit::KB => 1024,
            SizeUnit::MB => 1024 * 1024,
            SizeUnit::GB => 1024 * 1024 * 1024,
        }
    }

    /// The largest unit of which there is one in `bytes`; bytes if there are none.
    pub fn of(bytes: u64) -> (r: SizeUnit)
        ensures
            bytes >= r.spec_bytes() || r is B,
            forall|u: SizeUnit| #[trigger] u.spec_bytes() > r.spec_bytes() ==> bytes < u.spec_bytes(),
            r is B <==> bytes < 1_024,
            r is KB <==> 1_024 <= bytes < 1_048_576,
            r is MB <==> 1_048_576 <= bytes < 1_073_741_824,
            r is GB <==> 1_073_741_824 <= bytes,
    {
        if bytes >= SizeUnit::GB.bytes() {
            SizeUnit::GB
        } else if bytes >= SizeUnit::MB.bytes() {
            SizeUnit::MB
        } else if bytes >= SizeUnit::KB.bytes() {
            SizeUnit::KB
        } else {
            SizeUnit::B
        }
    }
}

} // verus!
