//! Records read from a binary line-docs file, and gathered into batches.
use mt_postings::features::TokenFieldFeatures;
use mt_postings::field::Section;
use mt_postings::ingest::{Ingest, RecordField, SizeUnit};
use mt_postings::reader::{BinDocReader, IndexRecord, ReadStep, RecordError};
use mt_postings::tokenizer::{number_tokens, tokenize};
use mt_postings::words::{order_of, ByteOrder};
use std::io::{BufReader, Read};

fn i32_bytes(order: Option<ByteOrder>, v: i32) -> [u8; 4] {
    match order {
        None => v.to_ne_bytes(),
        Some(ByteOrder::Little) => v.to_le_bytes(),
        Some(ByteOrder::Big) => v.to_be_bytes(),
    }
}

fn i64_bytes(order: Option<ByteOrder>, v: i64) -> [u8; 8] {
    match order {
        None => v.to_ne_bytes(),
        Some(ByteOrder::Little) => v.to_le_bytes(),
        Some(ByteOrder::Big) => v.to_be_bytes(),
    }
}

fn record_bytes(
    order: Option<ByteOrder>,
    title: &[u8],
    body: &[u8],
    label: &[u8],
    secs: i32,
    ms: i64,
) -> Vec<u8> {
    let mut out = vec![];
    out.extend(i32_bytes(order, title.len() as i32));
    out.extend(i32_bytes(order, body.len() as i32));
    out.extend(i32_bytes(order, label.len() as i32));
    out.extend(i32_bytes(order, secs));
    out.extend(i64_bytes(order, ms));
    out.extend(title);
    out.extend(body);
    out.extend(label);
    out
}

fn parsed(reader: &mut BinDocReader<()>) -> Result<IndexRecord, RecordError> {
    match reader.next() {
        ReadStep::Record(r) => r,
        ReadStep::Header => panic!("the chunk is used up"),
    }
}

fn is_used_up(reader: &mut BinDocReader<()>) -> bool {
    matches!(reader.next(), ReadStep::Header)
}

fn record(title: &str, body: &str, random_label: &str) -> IndexRecord {
    IndexRecord {
        title: title.to_string(),
        body: body.to_string(),
        random_label: random_label.to_string(),
        time_of_day_secs: 0,
        timestamp_ms: 0,
    }
}

// --- the byte order ---

#[test]
fn the_byte_order_of_a_probe() {
    assert_eq!(order_of(i32::from_le_bytes([1, 0, 0, 0])), ByteOrder::Little);
    assert_eq!(order_of(i32::from_be_bytes([1, 0, 0, 0])), ByteOrder::Big);
    let native = order_of(i32::from_ne_bytes([1, 0, 0, 0]));
    assert_eq!(i32_bytes(Some(native), 0x0102_0304), 0x0102_0304i32.to_ne_bytes());
}

// --- the reader ---

#[test]
fn records_of_a_chunk_come_in_order() {
    for order in [None, Some(ByteOrder::Little), Some(ByteOrder::Big)] {
        let mut reader = match order {
            None => BinDocReader::new(()),
            Some(order) => BinDocReader::with_order((), order),
        };
        assert!(is_used_up(&mut reader));
        let mut payload = record_bytes(order, b"Title", "bödy".as_bytes(), b"", -7, -1);
        payload.extend(record_bytes(order, b"", b"b", b"label", 86_399, 1 << 40));
        let mut header = [0u8; 8];
        header[..4].copy_from_slice(&i32_bytes(order, 2));
        header[4..].copy_from_slice(&i32_bytes(order, payload.len() as i32));
        assert_eq!(reader.chunk_header(header), (2, payload.len()));
        reader.read_next_chunk(2, payload);

        let first = parsed(&mut reader).unwrap();
        assert_eq!(first.title, "Title");
        assert_eq!(first.body, "bödy");
        assert_eq!(first.random_label, "");
        assert_eq!(first.time_of_day_secs, -7);
        assert_eq!(first.timestamp_ms, -1);
        let second = parsed(&mut reader).unwrap();
        assert_eq!(second.title, "");
        assert_eq!(second.body, "b");
        assert_eq!(second.random_label, "label");
        assert_eq!(second.time_of_day_secs, 86_399);
        assert_eq!(second.timestamp_ms, 1 << 40);
        assert!(is_used_up(&mut reader));
    }
}

#[test]
fn a_header_that_is_cut_off() {
    let mut reader = BinDocReader::new(());
    reader.read_next_chunk(1, vec![0; 23]);
    assert_eq!(parsed(&mut reader).unwrap_err(), RecordError::TruncatedHeader);
    // The record is not passed over.
    assert_eq!(parsed(&mut reader).unwrap_err(), RecordError::TruncatedHeader);
}

#[test]
fn texts_that_are_cut_off() {
    let mut payload = record_bytes(None, b"abc", b"de", b"f", 0, 0);
    payload.pop();
    let mut reader = BinDocReader::new(());
    reader.read_next_chunk(1, payload);
    assert_eq!(parsed(&mut reader).unwrap_err(), RecordError::TruncatedPayload);
}

#[test]
fn a_negative_length() {
    let mut payload = record_bytes(None, b"abc", b"de", b"f", 0, 0);
    payload[4..8].copy_from_slice(&(-2i32).to_ne_bytes());
    let mut reader = BinDocReader::new(());
    reader.read_next_chunk(1, payload);
    assert_eq!(parsed(&mut reader).unwrap_err(), RecordError::TruncatedPayload);
}

#[test]
fn texts_that_are_not_utf8() {
    for part in 0..3 {
        let mut texts: [&[u8]; 3] = [b"a", b"b", b"c"];
        texts[part] = b"\xff";
        let mut reader = BinDocReader::new(());
        reader.read_next_chunk(1, record_bytes(None, texts[0], texts[1], texts[2], 0, 0));
        assert_eq!(parsed(&mut reader).unwrap_err(), RecordError::InvalidUtf8);
    }
}

#[test]
fn an_empty_record() {
    let mut reader = BinDocReader::new(());
    reader.read_next_chunk(1, record_bytes(None, b"", b"", b"", 1, 2));
    let r = parsed(&mut reader).unwrap();
    assert_eq!((r.title, r.body, r.random_label), Default::default());
    assert_eq!((r.time_of_day_secs, r.timestamp_ms), (1, 2));
}

#[test]
fn bytes_come_from_the_reader() {
    let mut reader = BinDocReader::new(vec![1u8, 2]);
    reader.reader_mut().push(3);
    assert_eq!(reader.reader_mut(), &mut vec![1, 2, 3]);
}

/// The next record of a file, read as the steps of the reader say.
fn next_record(
    reader: &mut BinDocReader<BufReader<&[u8]>>,
) -> Option<Result<IndexRecord, &'static str>> {
    loop {
        match reader.next() {
            ReadStep::Record(r) => return Some(r.map_err(|_| "bad record")),
            ReadStep::Header => {
                let mut header = [0u8; 8];
                if reader.reader_mut().read_exact(&mut header).is_err() {
                    return None;
                }
                let (num_docs, len) = reader.chunk_header(header);
                let mut payload = vec![0u8; len];
                if reader.reader_mut().read_exact(&mut payload).is_err() {
                    return Some(Err("cut off"));
                }
                reader.read_next_chunk(num_docs, payload);
            }
        }
    }
}

/// Reads all the records of a file.
fn read_file(bytes: &[u8]) -> Result<Vec<IndexRecord>, &'static str> {
    let mut reader = BinDocReader::new(BufReader::new(bytes));
    let mut records = vec![];
    while let Some(r) = next_record(&mut reader) {
        records.push(r?);
    }
    Ok(records)
}

fn chunk(records: &[Vec<u8>]) -> Vec<u8> {
    let payload = records.concat();
    let mut out = vec![];
    out.extend((records.len() as i32).to_ne_bytes());
    out.extend((payload.len() as i32).to_ne_bytes());
    out.extend(payload);
    out
}

#[test]
fn records_of_a_file_come_in_order() {
    let titled = |title: &str| record_bytes(None, title.as_bytes(), b"body", b"l", 1, 2);
    let mut file = chunk(&[]);
    file.extend(chunk(&[titled("a"), titled("b")]));
    file.extend(chunk(&[]));
    file.extend(chunk(&[]));
    file.extend(chunk(&[titled("c")]));
    file.extend(chunk(&[]));
    let titles = |bytes: &[u8]| -> Vec<String> {
        read_file(bytes).unwrap().into_iter().map(|r| r.title).collect()
    };
    assert_eq!(titles(&file), ["a", "b", "c"]);
    assert!(titles(&[]).is_empty());
    // A header that is cut off ends the file.
    file.extend([1, 2, 3]);
    assert_eq!(titles(&file), ["a", "b", "c"]);
    // A payload that is cut off does not.
    let mut short = chunk(&[titled("a")]);
    short.pop();
    assert_eq!(read_file(&short).err(), Some("cut off"));
}

#[test]
fn nothing_comes_after_a_payload_that_is_cut_off() {
    // A header that promises five bytes, and three of them.
    let mut file = vec![];
    file.extend(1i32.to_ne_bytes());
    file.extend(5i32.to_ne_bytes());
    file.extend([7, 7, 7]);
    let mut reader = BinDocReader::new(BufReader::new(file.as_slice()));
    assert_eq!(next_record(&mut reader).unwrap().err(), Some("cut off"));
    assert!(next_record(&mut reader).is_none());
    assert!(next_record(&mut reader).is_none());
}

// --- tokens ---

#[test]
fn a_text_is_cut_into_words() {
    assert_eq!(
        tokenize("Hello, happy:tax  payer! größe"),
        [
            (0, b"Hello".to_vec()),
            (1, b"happy".to_vec()),
            (2, b"tax".to_vec()),
            (3, b"payer".to_vec()),
            (4, "größe".as_bytes().to_vec()),
        ]
    );
    assert!(tokenize("").is_empty());
    assert!(tokenize(" ,;:").is_empty());
}

#[test]
fn positions_of_tokens_are_cut_to_32_bits() {
    let tokens = vec![(3, "a".to_string()), ((1usize << 32) + 5, "ü".to_string())];
    assert_eq!(
        number_tokens(tokens),
        [(3, b"a".to_vec()), (5, "ü".as_bytes().to_vec())]
    );
}

// --- batches ---

#[test]
fn records_are_gathered_into_batches() {
    let mut ingest = Ingest::new(2);
    assert!(!ingest.add(&record("one", "two three", "x")));
    assert_eq!(ingest.batch_count(), 1);
    assert!(ingest.add(&record("", "é", "")));
    assert_eq!(ingest.batch_count(), 2);
    assert_eq!(ingest.total_bytes(), 3 + 9 + 1 + 2);
    let (batch, mut ingest) = ingest.flush();
    assert_eq!(batch.start_docid, 0);
    assert_eq!(ingest.batch_count(), 0);
    assert!(!ingest.add(&record("more", "", "")));
    let (batch, ingest) = ingest.flush();
    assert_eq!(batch.start_docid, 2);
    assert_eq!(ingest.total_bytes(), 15 + 4);
    let (batch, _) = ingest.flush();
    assert_eq!(batch.start_docid, 3);
}

#[test]
fn no_more_records_than_the_limit() {
    let mut ingest = Ingest::new(2);
    assert!(ingest.wants_more(None));
    assert!(!ingest.wants_more(Some(0)));
    for i in 0..5usize {
        assert!(ingest.wants_more(Some(5)));
        assert!(!ingest.wants_more(Some(i)));
        if ingest.add(&record("a", "b", "c")) {
            ingest = ingest.flush().1;
        }
    }
    assert!(!ingest.wants_more(Some(5)));
    assert!(ingest.wants_more(Some(6)));
    assert!(ingest.wants_more(None));
}

#[test]
fn the_last_batch_is_there_if_it_has_records() {
    let mut ingest = Ingest::new(3);
    let (batch, rest) = Ingest::new(3).finish();
    assert!(batch.is_none());
    assert_eq!(rest.next_docid(), 0);
    ingest.add(&record("a", "b", "c"));
    ingest.add(&record("a", "b", "c"));
    let (batch, rest) = ingest.finish();
    assert_eq!(batch.unwrap().start_docid, 0);
    assert_eq!((rest.batch_count(), rest.next_docid()), (0, 2));
    assert!(rest.finish().0.is_none());
}

#[test]
fn a_batch_of_size_zero_is_full_at_once() {
    let mut ingest = Ingest::new(0);
    assert!(ingest.add(&record("a", "b", "c")));
}

#[test]
fn fields_of_a_record() {
    let names: Vec<&str> = RecordField::all().iter().map(|f| f.name()).collect();
    assert_eq!(names, ["title", "body", "random_label"]);
    for field in RecordField::all() {
        let index = field.index();
        assert_eq!(index.features(), TokenFieldFeatures::WithPositions);
        for section in [Section::Stats, Section::DocPl, Section::PosPl] {
            let name = format!("enwiki.{}.{}", field.name(), section.label());
            assert_eq!(index.keyspace(section), Some(name.as_str()));
            assert_eq!(field.keyspace(section), name);
        }
    }
}

#[test]
fn units_of_size() {
    for (bytes, unit) in [
        (0, SizeUnit::B),
        (1_023, SizeUnit::B),
        (1_024, SizeUnit::KB),
        ((1 << 20) - 1, SizeUnit::KB),
        (1 << 20, SizeUnit::MB),
        ((1 << 30) - 1, SizeUnit::MB),
        (1 << 30, SizeUnit::GB),
        (u64::MAX, SizeUnit::GB),
    ] {
        assert_eq!(SizeUnit::of(bytes), unit);
    }
    assert_eq!(SizeUnit::KB.bytes(), 1_024);
    assert_eq!(SizeUnit::MB.bytes(), 1_048_576);
    assert_eq!(SizeUnit::GB.bytes(), 1_073_741_824);
    assert_eq!(SizeUnit::B.bytes(), 1);
}
