//! The bytes that keys and values are made of.
use mt_postings::block::{is_ascending, DocPostingBlock, MAX_PL_BLOCK_SIZE};
use mt_postings::bytes::{is_less, push_be, read_be};
use mt_postings::features::TokenFieldFeatures;
use mt_postings::field::{keyspace_name, Section, TokenFieldIndex};
use mt_postings::positions::{decode_positions, encode_positions};
use mt_postings::stats::{EncodedTokenStats, TokenStats};

fn block(docids: &[u64], term_frequencies: &[u32]) -> DocPostingBlock {
    DocPostingBlock {
        docids: docids.to_vec(),
        term_frequencies: term_frequencies.to_vec(),
    }
}

fn key_of(docid: u64) -> Vec<u8> {
    TokenFieldIndex::new("i", "field", TokenFieldFeatures::Doc).pl_key(b"token", docid)
}

// --- statistics ---

#[test]
fn stats_of_a_single_hit_in_bytes() {
    let stats = TokenStats::SingleHit {
        docid: 5,
        term_frequency: 3,
    };
    assert_eq!(stats.encode().as_ref(), &[11, 3]);
    assert_eq!(stats.frequencies(), (1, 3));
}

#[test]
fn stats_of_many_hits_in_bytes() {
    let stats = TokenStats::MultiHit {
        doc_frequency: 300,
        term_frequency: 128,
    };
    assert_eq!(stats.encode().as_ref(), &[0xd8, 0x04, 0x80, 0x01]);
    assert_eq!(stats.frequencies(), (300, 128));
}

#[test]
fn stats_are_read_back() {
    for stats in [
        TokenStats::SingleHit {
            docid: 0,
            term_frequency: 0,
        },
        TokenStats::SingleHit {
            docid: (1 << 63) - 1,
            term_frequency: u64::MAX,
        },
        TokenStats::MultiHit {
            doc_frequency: 1 << 40,
            term_frequency: 1 << 50,
        },
    ] {
        let mut bytes = stats.encode().as_ref().to_vec();
        assert_eq!(TokenStats::decode(&bytes), Some(stats));
        bytes.push(77);
        assert_eq!(TokenStats::decode(&bytes), Some(stats));
    }
}

#[test]
fn a_single_hit_loses_the_top_bit_of_its_document() {
    let stats = TokenStats::SingleHit {
        docid: (1 << 63) + 9,
        term_frequency: 1,
    };
    assert_eq!(
        TokenStats::decode(stats.encode().as_ref()),
        Some(TokenStats::SingleHit {
            docid: 9,
            term_frequency: 1
        })
    );
}

#[test]
fn stats_that_are_cut_off_are_not_decoded() {
    assert_eq!(TokenStats::decode(&[]), None);
    assert_eq!(TokenStats::decode(&[11]), None);
    assert_eq!(TokenStats::decode(&[0x80]), None);
    assert_eq!(TokenStats::decode(&[11, 0x80]), None);
}

#[test]
fn no_stats_are_no_bytes() {
    assert!(EncodedTokenStats::default().as_ref().is_empty());
}

// --- blocks ---

#[test]
fn a_block_in_bytes() {
    let b = block(&[10, 12, 500], &[1, 2, 300]);
    assert_eq!(b.encode(TokenFieldFeatures::Doc), [3, 2, 0xe8, 0x03]);
    assert_eq!(
        b.encode(TokenFieldFeatures::WithTermFrequency),
        [3, 2, 0xe8, 0x03, 1, 2, 0xac, 0x02]
    );
    assert_eq!(
        b.encode(TokenFieldFeatures::WithPositions),
        b.encode(TokenFieldFeatures::WithTermFrequency)
    );
    assert_eq!(b.len(), 3);
    assert!(!b.is_empty());
    assert_eq!(b.first_docid(), Some(10));
}

#[test]
fn a_block_is_read_back() {
    let docids: Vec<u64> = (0..MAX_PL_BLOCK_SIZE as u64).map(|i| 7 + i * i).collect();
    let freqs: Vec<u32> = (0..MAX_PL_BLOCK_SIZE as u32).map(|i| i * 1000).collect();
    let b = block(&docids, &freqs);
    let features = TokenFieldFeatures::WithTermFrequency;
    let read = DocPostingBlock::decode(&key_of(7), &b.encode(features), features).unwrap();
    assert_eq!(read.docids, docids);
    assert_eq!(read.term_frequencies, freqs);

    let features = TokenFieldFeatures::Doc;
    let read = DocPostingBlock::decode(&key_of(7), &b.encode(features), features).unwrap();
    assert_eq!(read.docids, docids);
    assert!(read.term_frequencies.iter().all(|&f| f == 1));
}

#[test]
fn a_block_that_makes_no_sense_is_not_decoded() {
    let features = TokenFieldFeatures::WithTermFrequency;
    // A key without a document.
    assert!(DocPostingBlock::decode(b"short", &[1, 1], features).is_none());
    // No count, a missing step, a missing frequency, a malformed frequency.
    assert!(DocPostingBlock::decode(&key_of(7), &[], features).is_none());
    assert!(DocPostingBlock::decode(&key_of(7), &[2], features).is_none());
    assert!(DocPostingBlock::decode(&key_of(7), &[2, 1, 1], features).is_none());
    assert!(DocPostingBlock::decode(&key_of(7), &[1, 0x80], features).is_none());
    // A document beyond 64 bits.
    assert!(DocPostingBlock::decode(&key_of(u64::MAX), &[2, 1, 1, 1], features).is_none());
}

#[test]
fn a_block_of_one() {
    let b = DocPostingBlock::from_singleton(9, (1 << 32) + 4);
    assert_eq!(b.docids, [9]);
    assert_eq!(b.term_frequencies, [4]);
    let none = DocPostingBlock::default();
    assert!(none.is_empty());
    assert_eq!(none.first_docid(), None);
}

#[test]
fn ascending_documents() {
    assert!(is_ascending(&[]));
    assert!(is_ascending(&[3]));
    assert!(is_ascending(&[3, 3, 9]));
    assert!(!is_ascending(&[3, 9, 8]));
}

// --- positions ---

#[test]
fn positions_in_bytes() {
    assert_eq!(encode_positions(&[5, 10, 1000]), [5, 5, 0xde, 0x07]);
    assert!(encode_positions(&[]).is_empty());
}

#[test]
fn positions_are_read_back() {
    let positions = [0u32, 0, 7, 127, 128, 70_000, u32::MAX];
    let mut out = vec![1, 2];
    assert!(decode_positions(&encode_positions(&positions), &mut out));
    assert_eq!(out[..2], [1, 2]);
    assert_eq!(out[2..], positions);
}

#[test]
fn positions_beyond_32_bits_are_refused() {
    let mut bytes = encode_positions(&[u32::MAX]);
    bytes.push(1);
    let mut out = vec![9];
    assert!(!decode_positions(&bytes, &mut out));
    assert_eq!(out, [9]);
}

// --- keys ---

#[test]
fn keys_in_bytes() {
    let field = TokenFieldIndex::new("idx", "f", TokenFieldFeatures::WithPositions);
    assert_eq!(field.stats_key(b"tok"), b"f:tok");
    assert_eq!(field.pl_key(b"tok", 258), b"f:tok:\0\0\0\0\0\0\x01\x02");
    assert_eq!(field.pospl_key(258, b"tok"), b"\0\0\0\0\0\0\x01\x02:f:tok");
}

#[test]
fn the_document_of_a_key() {
    assert_eq!(TokenFieldIndex::pl_key_extract_docid(&key_of(77)), Some(77));
    assert_eq!(
        TokenFieldIndex::pl_key_extract_docid(&key_of(u64::MAX)),
        Some(u64::MAX)
    );
    // Too short, and without the separator.
    assert_eq!(
        TokenFieldIndex::pl_key_extract_docid(b"f::\0\0\0\0\0\0\0\x01"),
        None
    );
    assert_eq!(
        TokenFieldIndex::pl_key_extract_docid(b"f:tok.\0\0\0\0\0\0\0\x01"),
        None
    );
}

#[test]
fn keys_of_blocks_are_ordered_by_document() {
    let docids = [0u64, 1, 255, 256, 65_535, 1 << 32, u64::MAX];
    for (i, &a) in docids.iter().enumerate() {
        for (j, &b) in docids.iter().enumerate() {
            assert_eq!(is_less(&key_of(a), &key_of(b)), i < j);
            assert_eq!(key_of(a) < key_of(b), i < j);
        }
    }
}

#[test]
fn the_order_of_byte_strings() {
    for (a, b) in [("", "a"), ("a", "ab"), ("ab", "b"), ("a:", "aa")] {
        assert!(is_less(a.as_bytes(), b.as_bytes()));
        assert!(!is_less(b.as_bytes(), a.as_bytes()));
        assert!(!is_less(a.as_bytes(), a.as_bytes()));
    }
}

#[test]
fn big_endian_numbers() {
    let mut out = vec![7];
    push_be(&mut out, 0x0102_0304_0506_0708);
    assert_eq!(out, [7, 1, 2, 3, 4, 5, 6, 7, 8]);
    assert_eq!(read_be(&out, 1), 0x0102_0304_0506_0708);
}

#[test]
fn names_of_keyspaces() {
    assert_eq!(keyspace_name("enwiki", "title", Section::DocPl), "enwiki.title.docpl");
    let field = TokenFieldIndex::new("i", "n", TokenFieldFeatures::WithTermFrequency);
    assert_eq!(field.keyspace(Section::Stats), Some("i.n.stats"));
    assert_eq!(field.keyspace(Section::DocPl), Some("i.n.docpl"));
    assert_eq!(field.keyspace(Section::PosPl), None);
    let field = TokenFieldIndex::new("i", "n", TokenFieldFeatures::WithPositions);
    assert_eq!(field.keyspace(Section::PosPl), Some("i.n.pospl"));
    assert_eq!(field.features(), TokenFieldFeatures::WithPositions);
}

#[test]
fn what_features_record() {
    assert!(!TokenFieldFeatures::Doc.has_term_frequency());
    assert!(TokenFieldFeatures::WithTermFrequency.has_term_frequency());
    assert!(TokenFieldFeatures::WithPositions.has_term_frequency());
    assert!(!TokenFieldFeatures::Doc.has_positions());
    assert!(!TokenFieldFeatures::WithTermFrequency.has_positions());
    assert!(TokenFieldFeatures::WithPositions.has_positions());
    assert_eq!(TokenFieldFeatures::default(), TokenFieldFeatures::WithPositions);
}
