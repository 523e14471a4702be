//! Records of a binary line-docs file.
use crate::words::{
    int32, int32_bytes, int64, int64_bytes, lemma_int32_round_trip, lemma_int64_round_trip,
    native_order, read_i32, read_i64, ByteOrder,
};
use vstd::prelude::*;
use vstd::slice::{slice_subrange, slice_to_vec};
use vstd::utf8::{
    decode_utf8, encode_utf8, encode_utf8_decode_utf8, encode_utf8_valid_utf8, valid_utf8,
};

verus! {

/// The length of the header of a record: four numbers of four bytes and one of eight.
pub const HEADER_LEN: usize = 24;

/// A record parsed from the binary line-docs file.
#[derive(Debug)]
pub struct IndexRecord {
    pub title: String,
    pub body: String,
    pub random_label: String,
    /// Hour x 3600 + min x 60 + sec for the document timestamp.
    pub time_of_day_secs: i32,
    /// Milliseconds since the Unix epoch.
    pub timestamp_ms: i64,
}

/// [`IndexRecord`] by its contents.
#[verifier::ext_equal]
pub struct RecordView {
    pub title: Seq<char>,
    pub body: Seq<char>,
    pub random_label: Seq<char>,
    pub time_of_day_secs: i32,
    pub timestamp_ms: i64,
}

impl View for IndexRecord {
    type V = RecordView;

    open spec fn view(&self) -> RecordView {
        RecordView {
            title: self.title@,
            body: self.body@,
            random_label: self.random_label@,
            time_of_day_secs: self.time_of_day_secs,
            timestamp_ms: self.timestamp_ms,
        }
    }
}

/// Why the next record of a chunk cannot be parsed.
#[derive(Debug, Copy, Clone, PartialEq, Eq, Structural)]
pub enum RecordError {
    /// The chunk ends within the header of the record.
    TruncatedHeader,
    /// The chunk ends before the texts of the record do.
    TruncatedPayload,
    /// A text of the record is not UTF-8.
    InvalidUtf8,
}

/// The length that four bytes write. A negative number makes a length that no chunk has.
pub open spec fn length_at(order: ByteOrder, s: Seq<u8>, from: int) -> nat {
    int32(order, s.subrange(from, from + 4)) as usize as nat
}

/// Where the record at the front of `s` ends.
pub open spec fn record_end(order: ByteOrder, s: Seq<u8>) -> nat {
    HEADER_LEN as nat + length_at(order, s, 0) + length_at(order, s, 4) + length_at(order, s, 8)
}

/// The record at the front of a chunk: lengths of three texts, two numbers, and the texts.
pub open spec fn parsed(order: ByteOrder, s: Seq<u8>) -> Result<RecordView, RecordError> {
    let body_start = HEADER_LEN + length_at(order, s, 0);
    let label_start = body_start + length_at(order, s, 4);
    let title = s.subrange(HEADER_LEN as int, body_start);
    let body = s.subrange(body_start, label_start);
    let label = s.subrange(label_start, record_end(order, s) as int);
    if s.len() < HEADER_LEN {
        Err(RecordError::TruncatedHeader)
    } else if s.len() < record_end(order, s) {
        Err(RecordError::TruncatedPayload)
    } else if valid_utf8(title) && valid_utf8(body) && valid_utf8(label) {
        Ok(
            RecordView {
                title: decode_utf8(title),
                body: decode_utf8(body),
                random_label: decode_utf8(label),
                time_of_day_secs: int32(order, s.subrange(12, 16)),
                timestamp_ms: int64(order, s.subrange(16, 24)),
            },
        )
    } else {
        Err(RecordError::InvalidUtf8)
    }
}

/// `String::from_utf8`: the text that bytes encode in UTF-8, or nothing if they do not.
#[verifier::external_body]
fn text_of(bytes: Vec<u8>) -> (r: Option<String>)
    ensures
        match r {
            Some(s) => valid_utf8(bytes@) && s@ == decode_utf8(bytes@),
            None => !valid_utf8(bytes@),
        },
{
    String::from_utf8(bytes).ok()
}

/// The text in a part of a buffer.
fn text_in(buf: &[u8], from: usize, to: usize) -> (r: Option<String>)
    requires
        from <= to <= buf.len(),
    ensures
        ({
            let part = buf@.subrange(from as int, to as int);
            match r {
                Some(s) => valid_utf8(part) && s@ == decode_utf8(part),
                None => !valid_utf8(part),
            }
        }),
{
    let part = slice_subrange(buf, from, to);
    text_of(slice_to_vec(part))
}

/// What a reader has of the current chunk.
#[verifier::ext_equal]
pub struct ReaderView {
    pub order: ByteOrder,
    /// How many records are still to be parsed.
    pub remaining: u32,
    /// The part of the payload that is not parsed yet.
    pub rest: Seq<u8>,
}

/// What the next record takes.
#[derive(Debug)]
pub enum ReadStep {
    /// It is there, or cannot be parsed.
    Record(Result<IndexRecord, RecordError>),
    /// The chunk is used up: the eight bytes of the header of the next chunk have to be read. If
    /// there are none, there is no further record.
    Header,
}

/// Parses [`IndexRecord`]s from a binary line-docs file produced by `buildBinaryLineDocs.py`.
///
/// File layout:
/// ```text
/// repeat {
///   [4 bytes i]  number of docs in this chunk
///   [4 bytes i]  byte length of the chunk payload
///   [N bytes]    chunk payload (concatenated doc records)
/// }
/// ```
/// Each doc record in the payload:
/// ```text
/// [4 bytes i]  title length (UTF-8)
/// [4 bytes i]  body length (UTF-8)
/// [4 bytes i]  randomLabel length (UTF-8)
/// [4 bytes i]  time-of-day in seconds
/// [8 bytes l]  milliseconds since epoch
/// [N bytes]    title (UTF-8)
/// [M bytes]    body (UTF-8)
/// [K bytes]    randomLabel (UTF-8)
/// ```
/// All integers are native byte order, matching Python's unadorned struct format.
///
/// The caller reads the bytes, as [`ReadStep`] says, and hands them in.
pub struct BinDocReader<R> {
    reader: R,
    order: ByteOrder,
    chunk_remaining: u32,
    chunk_buf: Vec<u8>,
    chunk_pos: usize,
}

impl<R> View for BinDocReader<R> {
    type V = ReaderView;

    closed spec fn view(&self) -> ReaderView {
        ReaderView {
            order: self.order,
            remaining: self.chunk_remaining,
            rest: self.chunk_buf@.skip(self.chunk_pos as int),
        }
    }
}

impl<R> BinDocReader<R> {
    pub closed spec fn wf(self) -> bool {
        self.chunk_pos <= self.chunk_buf@.len()
    }

    /// Where the bytes come from.
    pub closed spec fn spec_reader(self) -> R {
        self.reader
    }

    /// Where the bytes come from, to be read as [`ReadStep`] says.
    pub fn reader_mut(&mut self) -> (r: &mut R)
        requires
            old(self).wf(),
        ensures
            *r == old(self).spec_reader(),
            final(self).spec_reader() == *final(r),
            final(self)@ == old(self)@,
            final(self).wf(),
    {
        &mut self.reader
    }

    /// A reader of a file written on this machine. It has no chunk yet.
    pub fn new(reader: R) -> (r: Self)
        ensures
            r.wf(),
            r.spec_reader() == reader,
            r@ == (ReaderView { order: r@.order, remaining: 0, rest: seq![] }),
    {
        Self::with_order(reader, native_order())
    }

    /// A reader of a file written in a given byte order. It has no chunk yet.
    pub fn with_order(reader: R, order: ByteOrder) -> (r: Self)
        ensures
            r.wf(),
            r.spec_reader() == reader,
            r@ == (ReaderView { order, remaining: 0, rest: seq![] }),
    {
        let r = BinDocReader {
            reader,
            order,
            chunk_remaining: 0,
            chunk_buf: Vec::new(),
            chunk_pos: 0,
        };
        assert(r@.rest =~= seq![]);
        r
    }

    /// What the header of a chunk says: the number of records, and the length of the payload. A
    /// negative length becomes one that no payload has.
    pub fn chunk_header(&self, header: [u8; 8]) -> (r: (u32, usize))
        ensures
            r.0 == int32(self@.order, header@.subrange(0, 4)) as u32,
            r.1 == length_at(self@.order, header@, 4),
            r.1 == int32(self@.order, header@.subrange(4, 8)) as usize,
    {
        let bytes: &[u8] = &header;
        #[verifier::truncate]
        let num_docs: u32 = read_i32(self.order, bytes, 0) as u32;
        #[verifier::truncate]
        let payload_len: usize = read_i32(self.order, bytes, 4) as usize;
        (num_docs, payload_len)
    }

    /// Takes the payload of the next chunk.
    pub fn read_next_chunk(&mut self, num_docs: u32, payload: Vec<u8>)
        ensures
            final(self).wf(),
            final(self).spec_reader() == old(self).spec_reader(),
            final(self)@ == (ReaderView {
                order: old(self)@.order,
                remaining: num_docs,
                rest: payload@,
            }),
    {
        self.chunk_buf = payload;
        self.chunk_remaining = num_docs;
        self.chunk_pos = 0;
        assert(self@.rest =~= payload@);
    }

    /// Parses the next record of the chunk. A record that cannot be parsed is not passed over.
    pub fn parse_record(&mut self) -> (r: Result<IndexRecord, RecordError>)
        requires
            old(self).wf(),
            old(self)@.remaining > 0,
        ensures
            final(self).wf(),
            final(self).spec_reader() == old(self).spec_reader(),
            match r {
                Ok(record) => {
                    &&& parsed(old(self)@.order, old(self)@.rest) == Ok::<_, RecordError>(record@)
                    &&& final(self)@ == (ReaderView {
                        order: old(self)@.order,
                        remaining: (old(self)@.remaining - 1) as u32,
                        rest: old(self)@.rest.skip(
                            record_end(old(self)@.order, old(self)@.rest) as int,
                        ),
                    })
                },
                Err(e) => {
                    &&& parsed(old(self)@.order, old(self)@.rest) == Err::<RecordView, _>(e)
                    &&& final(self)@ == old(self)@
                },
            },
    {
        let buf = slice_subrange(self.chunk_buf.as_slice(), self.chunk_pos, self.chunk_buf.len());
        let order = self.order;
        assert(buf@ =~= self@.rest);
        if buf.len() < HEADER_LEN {
            return Err(RecordError::TruncatedHeader);
        }
        #[verifier::truncate]
        let title_len: usize = read_i32(order, buf, 0) as usize;
        #[verifier::truncate]
        let body_len: usize = read_i32(order, buf, 4) as usize;
        #[verifier::truncate]
        let label_len: usize = read_i32(order, buf, 8) as usize;
        let time_of_day_secs: i32 = read_i32(order, buf, 12);
        let timestamp_ms: i64 = read_i64(order, buf, 16);

        let room: usize = buf.len() - HEADER_LEN;
        if room < title_len || room - title_len < body_len || room - title_len - body_len
            < label_len {
            return Err(RecordError::TruncatedPayload);
        }
        let body_start: usize = HEADER_LEN + title_len;
        let label_start: usize = body_start + body_len;
        let record_end: usize = label_start + label_len;
        let title = text_in(buf, HEADER_LEN, body_start);
        let body = text_in(buf, body_start, label_start);
        let random_label = text_in(buf, label_start, record_end);
        match (title, body, random_label) {
            (Some(title), Some(body), Some(random_label)) => {
                let record = IndexRecord {
                    title,
                    body,
                    random_label,
                    time_of_day_secs,
                    timestamp_ms,
                };
                self.chunk_pos = self.chunk_pos + record_end;
                self.chunk_remaining = self.chunk_remaining - 1;
                assert(self@.rest =~= old(self)@.rest.skip(record_end as int));
                Ok(record)
            },
            _ => Err(RecordError::InvalidUtf8),
        }
    }

    /// The next record, or what has to be read for it.
    pub fn next(&mut self) -> (r: ReadStep)
        requires
            old(self).wf(),
        ensures
            final(self).wf(),
            final(self).spec_reader() == old(self).spec_reader(),
            match r {
                ReadStep::Header => old(self)@.remaining == 0 && final(self)@ == old(self)@,
                ReadStep::Record(Ok(record)) => {
                    &&& old(self)@.remaining > 0
                    &&& parsed(old(self)@.order, old(self)@.rest) == Ok::<_, RecordError>(record@)
                    &&& final(self)@ == (ReaderView {
                        order: old(self)@.order,
                        remaining: (old(self)@.remaining - 1) as u32,
                        rest: old(self)@.rest.skip(
                            record_end(old(self)@.order, old(self)@.rest) as int,
                        ),
                    })
                },
                ReadStep::Record(Err(e)) => {
                    &&& old(self)@.remaining > 0
                    &&& parsed(old(self)@.order, old(self)@.rest) == Err::<RecordView, _>(e)
                    &&& final(self)@ == old(self)@
                },
            },
    {
        if self.chunk_remaining > 0 {
            ReadStep::Record(self.parse_record())
        } else {
            ReadStep::Header
        }
    }
}

/// A record as a file has it.
pub open spec fn record_bytes(order: ByteOrder, r: RecordView) -> Seq<u8> {
    let title = encode_utf8(r.title);
    let body = encode_utf8(r.body);
    let label = encode_utf8(r.random_label);
    int32_bytes(order, title.len() as i32) + int32_bytes(order, body.len() as i32) + int32_bytes(
        order,
        label.len() as i32,
    ) + int32_bytes(order, r.time_of_day_secs) + int64_bytes(order, r.timestamp_ms) + title + body
        + label
}

/// The texts of a record are not too long for their lengths to be written.
pub open spec fn writable(r: RecordView) -> bool {
    &&& encode_utf8(r.title).len() <= i32::MAX
    &&& encode_utf8(r.body).len() <= i32::MAX
    &&& encode_utf8(r.random_label).len() <= i32::MAX
}

/// A record is seen by its texts and numbers.
pub proof fn law_record_view(record: IndexRecord)
    ensures
        record@.title == record.title@,
        record@.body == record.body@,
        record@.random_label == record.random_label@,
        record@.time_of_day_secs == record.time_of_day_secs,
        record@.timestamp_ms == record.timestamp_ms,
{
}

/// A record takes 24 bytes and its texts, whose lengths `t`, `b` and `l` come first: the title, the
/// body and the label follow the two numbers, one after the other. It is parsed if all of it is
/// there and its texts are UTF-8.
pub proof fn law_parsed(order: ByteOrder, s: Seq<u8>, t: i32, b: i32, l: i32)
    requires
        s.len() >= 24 ==> t == int32(order, s.subrange(0, 4)),
        s.len() >= 24 ==> b == int32(order, s.subrange(4, 8)),
        s.len() >= 24 ==> l == int32(order, s.subrange(8, 12)),
        t >= 0 && b >= 0 && l >= 0,
    ensures
        s.len() >= 24 ==> record_end(order, s) == 24 + t + b + l,
        match parsed(order, s) {
            Err(RecordError::TruncatedHeader) => s.len() < 24,
            Err(RecordError::TruncatedPayload) => 24 <= s.len() < 24 + t + b + l,
            Err(RecordError::InvalidUtf8) => {
                &&& s.len() >= 24 + t + b + l
                &&& !valid_utf8(s.subrange(24, 24 + t)) || !valid_utf8(
                    s.subrange(24 + t, 24 + t + b),
                ) || !valid_utf8(s.subrange(24 + t + b, 24 + t + b + l))
            },
            Ok(record) => {
                &&& s.len() >= 24 + t + b + l
                &&& valid_utf8(s.subrange(24, 24 + t))
                &&& valid_utf8(s.subrange(24 + t, 24 + t + b))
                &&& valid_utf8(s.subrange(24 + t + b, 24 + t + b + l))
                &&& record.title == decode_utf8(s.subrange(24, 24 + t))
                &&& record.body == decode_utf8(s.subrange(24 + t, 24 + t + b))
                &&& record.random_label == decode_utf8(s.subrange(24 + t + b, 24 + t + b + l))
                &&& record.time_of_day_secs == int32(order, s.subrange(12, 16))
                &&& record.timestamp_ms == int64(order, s.subrange(16, 24))
            },
        },
{
}

/// No text has a negative length: a record that says so is longer than its chunk.
pub proof fn law_negative_length(order: ByteOrder, s: Seq<u8>)
    requires
        24 <= s.len() < 0x8000_0000,
        int32(order, s.subrange(0, 4)) < 0 || int32(order, s.subrange(4, 8)) < 0 || int32(
            order,
            s.subrange(8, 12),
        ) < 0,
    ensures
        parsed(order, s) == Err::<RecordView, _>(RecordError::TruncatedPayload),
{
    lemma_negative_is_long(int32(order, s.subrange(0, 4)));
    lemma_negative_is_long(int32(order, s.subrange(4, 8)));
    lemma_negative_is_long(int32(order, s.subrange(8, 12)));
}

proof fn lemma_negative_is_long(n: i32)
    ensures
        n < 0 ==> n as usize >= 0x8000_0000,
{
    assert(n < 0 ==> n as usize >= 0x8000_0000) by (bit_vector);
}

/// A record in a file is parsed as it was written, whatever follows it, and its end is where what
/// follows begins.
#[verifier::rlimit(40)]
pub proof fn law_record_round_trip(order: ByteOrder, r: RecordView, tail: Seq<u8>)
    requires
        writable(r),
    ensures
        parsed(order, record_bytes(order, r) + tail) == Ok::<_, RecordError>(r),
        (record_bytes(order, r) + tail).skip(
            record_end(order, record_bytes(order, r) + tail) as int,
        ) == tail,
{
    let title = encode_utf8(r.title);
    let body = encode_utf8(r.body);
    let label = encode_utf8(r.random_label);
    let (t, b, l) = (title.len() as i32, body.len() as i32, label.len() as i32);
    let s = record_bytes(order, r) + tail;
    lemma_int32_round_trip(order, t);
    lemma_int32_round_trip(order, b);
    lemma_int32_round_trip(order, l);
    lemma_int32_round_trip(order, r.time_of_day_secs);
    lemma_int64_round_trip(order, r.timestamp_ms);
    assert(s.subrange(0, 4) =~= int32_bytes(order, t));
    assert(s.subrange(4, 8) =~= int32_bytes(order, b));
    assert(s.subrange(8, 12) =~= int32_bytes(order, l));
    assert(s.subrange(12, 16) =~= int32_bytes(order, r.time_of_day_secs));
    assert(s.subrange(16, 24) =~= int64_bytes(order, r.timestamp_ms));
    let body_start = HEADER_LEN + title.len();
    let label_start = body_start + body.len();
    let end = label_start + label.len();
    assert(s.subrange(HEADER_LEN as int, body_start) =~= title);
    assert(s.subrange(body_start, label_start) =~= body);
    assert(s.subrange(label_start, end) =~= label);
    encode_utf8_valid_utf8(r.title);
    encode_utf8_valid_utf8(r.body);
    encode_utf8_valid_utf8(r.random_label);
    encode_utf8_decode_utf8(r.title);
    encode_utf8_decode_utf8(r.body);
    encode_utf8_decode_utf8(r.random_label);
    assert(s.skip(end) =~= tail);
}

/// Records one after the other, as the payload of a chunk has them.
pub open spec fn payload_bytes(order: ByteOrder, records: Seq<RecordView>) -> Seq<u8>
    decreases records.len(),
{
    if records.len() == 0 {
        seq![]
    } else {
        record_bytes(order, records[0]) + payload_bytes(order, records.skip(1))
    }
}

/// The reader still has these records to parse.
pub open spec fn has_records(v: ReaderView, records: Seq<RecordView>) -> bool {
    &&& v.remaining == records.len()
    &&& v.rest == payload_bytes(v.order, records)
    &&& forall|i: int| 0 <= i < records.len() ==> writable(#[trigger] records[i])
}

/// A reader parses the records of a chunk one by one, in order: the first that it still has comes
/// next, and leaves the others.
pub proof fn law_records_in_order(v: ReaderView, records: Seq<RecordView>)
    requires
        has_records(v, records),
        records.len() > 0,
    ensures
        parsed(v.order, v.rest) == Ok::<_, RecordError>(records[0]),
        has_records(
            ReaderView {
                order: v.order,
                remaining: (v.remaining - 1) as u32,
                rest: v.rest.skip(record_end(v.order, v.rest) as int),
            },
            records.skip(1),
        ),
{
    assert(writable(records[0]));
    law_record_round_trip(v.order, records[0], payload_bytes(v.order, records.skip(1)));
    assert forall|i: int| 0 <= i < records.skip(1).len() implies writable(
        #[trigger] records.skip(1)[i],
    ) by {
        assert(records.skip(1)[i] == records[i + 1]);
    }
}

/// A chunk as a file has it: the number of records, the length of the payload, and the payload.
pub open spec fn chunk_bytes(order: ByteOrder, records: Seq<RecordView>) -> Seq<u8> {
    let payload = payload_bytes(order, records);
    int32_bytes(order, records.len() as i32) + int32_bytes(order, payload.len() as i32) + payload
}

/// A file: its chunks one after the other.
pub open spec fn file_bytes(order: ByteOrder, chunks: Seq<Seq<RecordView>>) -> Seq<u8>
    decreases chunks.len(),
{
    if chunks.len() == 0 {
        seq![]
    } else {
        chunk_bytes(order, chunks[0]) + file_bytes(order, chunks.skip(1))
    }
}

/// The records of a file, in the order of the file.
pub open spec fn file_records(chunks: Seq<Seq<RecordView>>) -> Seq<RecordView>
    decreases chunks.len(),
{
    if chunks.len() == 0 {
        seq![]
    } else {
        chunks[0] + file_records(chunks.skip(1))
    }
}

/// The records of a chunk can be written, and so can their number and their length.
pub open spec fn writable_chunk(order: ByteOrder, records: Seq<RecordView>) -> bool {
    &&& records.len() <= i32::MAX
    &&& payload_bytes(order, records).len() <= i32::MAX
    &&& forall|i: int| 0 <= i < records.len() ==> writable(#[trigger] records[i])
}

/// A reader, and the bytes of its file that are not read yet.
pub struct FileView {
    pub reader: ReaderView,
    pub unread: Seq<u8>,
}

/// What reading on in a file comes to.
pub enum FileStep {
    Record(Result<RecordView, RecordError>),
    /// The file ends within the payload of a chunk.
    CutOff,
    /// There is no further chunk.
    End,
}

impl FileView {
    /// The chunk at the front of the unread bytes is read.
    pub open spec fn with_chunk(self) -> FileView {
        let len = length_at(self.reader.order, self.unread, 4) as int;
        FileView {
            reader: ReaderView {
                order: self.reader.order,
                remaining: int32(self.reader.order, self.unread.subrange(0, 4)) as u32,
                rest: self.unread.subrange(8, 8 + len),
            },
            unread: self.unread.skip(8 + len),
        }
    }

    /// Reading has come to the end of the file.
    pub open spec fn at_end(self) -> FileView {
        FileView { unread: seq![], ..self }
    }

    /// The next record of the file: from the chunk at hand, or, where that is used up, from the
    /// chunks that follow, read one by one as [`ReadStep`] says. A read of more bytes than there
    /// are uses up those that there are.
    pub open spec fn next(self) -> (FileStep, FileView)
        decreases self.unread.len(),
    {
        let v = self.reader;
        if v.remaining > 0 {
            match parsed(v.order, v.rest) {
                Ok(r) => (
                    FileStep::Record(Ok(r)),
                    FileView {
                        reader: ReaderView {
                            order: v.order,
                            remaining: (v.remaining - 1) as u32,
                            rest: v.rest.skip(record_end(v.order, v.rest) as int),
                        },
                        unread: self.unread,
                    },
                ),
                Err(e) => (FileStep::Record(Err(e)), self),
            }
        } else if self.unread.len() < 8 {
            (FileStep::End, self.at_end())
        } else if self.unread.len() < 8 + length_at(v.order, self.unread, 4) {
            (FileStep::CutOff, self.at_end())
        } else {
            self.with_chunk().next()
        }
    }

    /// The file still has these records: those of the chunk at hand, and those of chunks to come.
    pub open spec fn has(
        self,
        records: Seq<RecordView>,
        chunks: Seq<Seq<RecordView>>,
    ) -> bool {
        &&& has_records(self.reader, records)
        &&& self.unread == file_bytes(self.reader.order, chunks)
        &&& forall|i: int|
            0 <= i < chunks.len() ==> writable_chunk(self.reader.order, #[trigger] chunks[i])
    }

    /// The file still has these records.
    pub open spec fn has_still(self, all: Seq<RecordView>) -> bool {
        exists|records: Seq<RecordView>, chunks: Seq<Seq<RecordView>>| #[trigger]
            self.has(records, chunks) && all == records + file_records(chunks)
    }
}

/// Reading a chunk that was written gives its records.
proof fn lemma_chunk_read(f: FileView, chunks: Seq<Seq<RecordView>>)
    requires
        f.has(seq![], chunks),
        chunks.len() > 0,
    ensures
        f.unread.len() >= 8 + length_at(f.reader.order, f.unread, 4),
        f.with_chunk().has(chunks[0], chunks.skip(1)),
        f.with_chunk().unread.len() < f.unread.len(),
{
    let order = f.reader.order;
    let records = chunks[0];
    let payload = payload_bytes(order, records);
    let rest = file_bytes(order, chunks.skip(1));
    let (n, len) = (records.len() as i32, payload.len() as i32);
    assert(writable_chunk(order, chunks[0]));
    lemma_int32_round_trip(order, n);
    lemma_int32_round_trip(order, len);
    assert(f.unread =~= int32_bytes(order, n) + int32_bytes(order, len) + payload + rest);
    assert(f.unread.subrange(0, 4) =~= int32_bytes(order, n));
    assert(f.unread.subrange(4, 8) =~= int32_bytes(order, len));
    assert(f.unread.subrange(8, 8 + payload.len() as int) =~= payload);
    assert(f.unread.skip(8 + payload.len() as int) =~= rest);
    assert forall|i: int| 0 <= i < chunks.skip(1).len() implies writable_chunk(
        order,
        #[trigger] chunks.skip(1)[i],
    ) by {
        assert(chunks.skip(1)[i] == chunks[i + 1]);
    }
}

proof fn lemma_file_next(
    f: FileView,
    records: Seq<RecordView>,
    chunks: Seq<Seq<RecordView>>,
)
    requires
        f.has(records, chunks),
    ensures
        ({
            let all = records + file_records(chunks);
            let (step, rest) = f.next();
            if all.len() == 0 {
                step is End
            } else {
                step == FileStep::Record(Ok(all[0])) && rest.has_still(all.skip(1))
            }
        }),
    decreases chunks.len(),
{
    let all = records + file_records(chunks);
    if records.len() > 0 {
        law_records_in_order(f.reader, records);
        let rest = f.next().1;
        assert(rest.has(records.skip(1), chunks));
        assert(all.skip(1) =~= records.skip(1) + file_records(chunks));
    } else if chunks.len() > 0 {
        assert(records =~= seq![]);
        lemma_chunk_read(f, chunks);
        lemma_file_next(f.with_chunk(), chunks[0], chunks.skip(1));
        assert(all =~= file_records(chunks));
        assert(f.next() == f.with_chunk().next());
    }
}

/// A new reader has all the records of the file before it.
pub proof fn law_file_begins(f: FileView, chunks: Seq<Seq<RecordView>>)
    requires
        f.reader.remaining == 0,
        f.reader.rest.len() == 0,
        f.unread == file_bytes(f.reader.order, chunks),
        forall|i: int|
            0 <= i < chunks.len() ==> writable_chunk(f.reader.order, #[trigger] chunks[i]),
    ensures
        f.has_still(file_records(chunks)),
{
    let none = Seq::<RecordView>::empty();
    assert(f.reader.rest =~= payload_bytes(f.reader.order, none));
    assert(f.has(none, chunks));
    assert(none + file_records(chunks) =~= file_records(chunks));
}

/// The records of a file come one by one, in the order of the file, whatever chunks they are in;
/// chunks without records are passed over. After the last record there is none.
pub proof fn law_file_in_order(f: FileView, all: Seq<RecordView>)
    requires
        f.has_still(all),
    ensures
        all.len() == 0 ==> f.next().0 is End,
        all.len() > 0 ==> {
            &&& f.next().0 == FileStep::Record(Ok(all[0]))
            &&& f.next().1.has_still(all.skip(1))
        },
{
    let (records, chunks) = choose|records: Seq<RecordView>, chunks: Seq<Seq<RecordView>>|
        #[trigger] f.has(records, chunks) && all == records + file_records(chunks);
    lemma_file_next(f, records, chunks);
}

/// Where the file ends, be it within a chunk, there is no further record.
pub proof fn law_file_is_over(f: FileView)
    ensures
        !(f.next().0 is Record) ==> f.next().1.next().0 is End,
    decreases f.unread.len(),
{
    let v = f.reader;
    if v.remaining == 0 && f.unread.len() >= 8 && f.unread.len() >= 8 + length_at(
        v.order,
        f.unread,
        4,
    ) {
        law_file_is_over(f.with_chunk());
    }
}

} // verus!
