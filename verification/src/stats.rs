//! The statistics entry that the index keeps for each token.
use crate::varint::{
    leb128, leb128_read, lemma_leb128_len, lemma_leb128_round_trip, read_unsigned, write_unsigned,
};
use vstd::prelude::*;

verus! {

/// Type for document identifiers.
pub type DocId = u64;

/// Statistics entry for a single token in the index.
#[derive(Debug, Copy, Clone, PartialEq, Eq, Structural)]
pub enum TokenStats {
    /// Entry is actually a single hit entry in the index.
    /// In this case there isn't a document posting list associated with this term.
    SingleHit {
        /// DocId matching this token.
        docid: u64,
        /// Number of occurrences within the document.
        term_frequency: u64,
    },
    /// Entry maps to hits across multiple documents.
    MultiHit {
        /// Number of documents containing this term.
        doc_frequency: u64,
        /// Number of occurrences across all documents.
        term_frequency: u64,
    },
}

impl TokenStats {
    /// The first number of the encoding: twice the document (odd, for a single hit) or twice the
    /// document count (even), in 64 bits.
    pub open spec fn tag_word(self) -> nat {
        match self {
            TokenStats::SingleHit { docid, .. } => (2 * docid + 1) as nat
                % 0x1_0000_0000_0000_0000,
            TokenStats::MultiHit { doc_frequency, .. } => (2 * doc_frequency) as nat
                % 0x1_0000_0000_0000_0000,
        }
    }

    /// The number of occurrences that the entry counts.
    pub open spec fn spec_term_frequency(self) -> u64 {
        match self {
            TokenStats::SingleHit { term_frequency, .. } => term_frequency,
            TokenStats::MultiHit { term_frequency, .. } => term_frequency,
        }
    }

    /// The number of documents that the entry counts.
    pub open spec fn spec_doc_frequency(self) -> u64 {
        match self {
            TokenStats::SingleHit { .. } => 1,
            TokenStats::MultiHit { doc_frequency, .. } => doc_frequency,
        }
    }

    /// The entry as bytes: the tagged number, then the number of occurrences.
    pub open spec fn spec_encode(self) -> Seq<u8> {
        leb128(self.tag_word()) + leb128(self.spec_term_frequency() as nat)
    }

    /// The entry that `s` begins with. What follows the second number is not looked at.
    pub open spec fn spec_decode(s: Seq<u8>) -> Option<TokenStats> {
        match leb128_read(s) {
            Some((tagged, rest)) => match leb128_read(rest) {
                Some((term_frequency, _)) => if tagged % 2 == 1 {
                    Some(TokenStats::SingleHit { docid: tagged / 2, term_frequency })
                } else {
                    Some(TokenStats::MultiHit { doc_frequency: tagged / 2, term_frequency })
                },
                None => None,
            },
            None => None,
        }
    }

    /// Decode from a raw byte array. Returns `None` if the input is too short.
    pub fn decode(encoded: &[u8]) -> (r: Option<Self>)
        ensures
            r == Self::spec_decode(encoded@),
    {
        let (doc, rest) = match read_unsigned(encoded) {
            Some(p) => p,
            None => return None,
        };
        let (term, _rest) = match read_unsigned(rest) {
            Some(p) => p,
            None => return None,
        };
        assert((doc & 1 == 1) == (doc % 2 == 1) && doc >> 1 == doc / 2) by (bit_vector);
        if doc & 1 == 1 {
            Some(TokenStats::SingleHit { docid: doc >> 1, term_frequency: term })
        } else {
            Some(TokenStats::MultiHit { doc_frequency: doc >> 1, term_frequency: term })
        }
    }

    /// Encode this token stats into a byte array to be written
    pub fn encode(&self) -> (r: EncodedTokenStats)
        ensures
            r@ == self.spec_encode(),
    {
        let mut bytes: Vec<u8> = Vec::with_capacity(24);
        match self {
            TokenStats::SingleHit { docid, term_frequency } => {
                let d: u64 = *docid;
                assert((d << 1 | 1) == (2 * d + 1) % 0x1_0000_0000_0000_0000) by (bit_vector);
                write_unsigned(&mut bytes, d << 1 | 1);
                proof { lemma_leb128_len(d << 1 | 1); }
                write_unsigned(&mut bytes, *term_frequency);
            },
            TokenStats::MultiHit { doc_frequency, term_frequency } => {
                let d: u64 = *doc_frequency;
                assert((d << 1) == (2 * d) % 0x1_0000_0000_0000_0000) by (bit_vector);
                write_unsigned(&mut bytes, d << 1);
                proof { lemma_leb128_len(d << 1); }
                write_unsigned(&mut bytes, *term_frequency);
            },
        }
        proof { lemma_leb128_len(self.spec_term_frequency()); }
        assert(bytes@ =~= self.spec_encode());
        EncodedTokenStats::from_bytes(&bytes)
    }

    /// The number of documents and the number of occurrences that this entry counts.
    pub fn frequencies(&self) -> (r: (u64, u64))
        ensures
            r == (self.spec_doc_frequency(), self.spec_term_frequency()),
            *self matches TokenStats::SingleHit { docid, term_frequency } ==> r == (
                1u64,
                term_frequency,
            ),
            *self matches TokenStats::MultiHit { doc_frequency, term_frequency } ==> r == (
                doc_frequency,
                term_frequency,
            ),
    {
        match self {
            TokenStats::SingleHit { docid: _, term_frequency } => (1, *term_frequency),
            TokenStats::MultiHit { doc_frequency, term_frequency } => (
                *doc_frequency,
                *term_frequency,
            ),
        }
    }
}

/// An encoded [`TokenStats`]: the bytes, in a buffer that holds every entry, and how many of them
/// are in use.
#[derive(Debug, Copy, Clone)]
pub struct EncodedTokenStats([u8; 24], usize);

impl View for EncodedTokenStats {
    type V = Seq<u8>;

    closed spec fn view(&self) -> Seq<u8> {
        self.0@.take(self.1 as int)
    }
}

impl EncodedTokenStats {
    #[verifier::type_invariant]
    spec fn fits(self) -> bool {
        self.1 <= 24
    }

    fn from_bytes(bytes: &Vec<u8>) -> (r: Self)
        requires
            bytes@.len() <= 24,
        ensures
            r@ == bytes@,
    {
        let mut buf: [u8; 24] = [0u8; 24];
        let mut i: usize = 0;
        while i < bytes.len()
            invariant
                i <= bytes@.len() <= 24,
                buf@.take(i as int) == bytes@.take(i as int),
            decreases bytes@.len() - i,
        {
            buf[i] = bytes[i];
            i = i + 1;
            assert(buf@.take(i as int) =~= bytes@.take(i as int)) by {
                assert(bytes@.take(i as int) =~= bytes@.take(i - 1).push(bytes@[i - 1]));
            }
        }
        assert(bytes@.take(i as int) =~= bytes@);
        EncodedTokenStats(buf, i)
    }

    /// The bytes to be written.
    pub fn as_ref(&self) -> (r: &[u8])
        ensures
            r@ == self@,
    {
        proof {
            use_type_invariant(self);
        }
        let r: &[u8] = &self.0[0..self.1];
        assert(r@ =~= self.0@.take(self.1 as int));
        r
    }
}

impl Default for EncodedTokenStats {
    fn default() -> (r: Self)
        ensures
            r@ == Seq::<u8>::empty(),
    {
        let r = EncodedTokenStats([0u8; 24], 0);
        assert(r@ =~= Seq::<u8>::empty());
        r
    }
}

/// Decoding gives back the entry that was encoded, as long as its document, or its number of
/// documents, leaves room for the tag bit.
pub proof fn lemma_stats_round_trip(stats: TokenStats, rest: Seq<u8>)
    requires
        match stats {
            TokenStats::SingleHit { docid, .. } => docid < 0x8000_0000_0000_0000,
            TokenStats::MultiHit { doc_frequency, .. } => doc_frequency < 0x8000_0000_0000_0000,
        },
    ensures
        TokenStats::spec_decode(stats.spec_encode() + rest) == Some(stats),
{
    let w = stats.tag_word() as u64;
    let tf = stats.spec_term_frequency();
    lemma_leb128_round_trip(w, leb128(tf as nat) + rest);
    lemma_leb128_round_trip(tf, rest);
    assert(stats.spec_encode() + rest =~= leb128(w as nat) + (leb128(tf as nat) + rest));
}

} // verus!
