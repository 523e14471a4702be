//! The bytes that are stored, place by place.
use crate::block::{
    ascending, deltas, narrowed, running_sums, widened, BlockView, DocPostingBlock,
};
use crate::bytes::{
    be_bytes, be_digits, be_value, bytes_less, lemma_be_bytes, lemma_be_digits_len,
};
use crate::features::TokenFieldFeatures;
use crate::field::{
    spec_key_docid, spec_keyspace_name, spec_pl_key, spec_pospl_key, spec_stats_key, Section,
};
use crate::positions::{position_steps, positions_ascend, positions_from};
use crate::stats::{DocId, TokenStats};
use crate::varint::{
    leb128, leb128_all, leb128_prefix, leb128_read, leb128_read_n, lemma_leb128_all_round_trip,
    lemma_leb128_len, lemma_leb128_round_trip,
};
use crate::words::{int32, int64, word, ByteOrder};
use vstd::arithmetic::div_mod::lemma_div_denominator;
use vstd::arithmetic::power::{lemma_pow0, lemma_pow1, lemma_pow_positive, pow};
use vstd::prelude::*;

verus! {

/// A digit of a number is the digit one place lower of the number without its lowest digit.
proof fn lemma_digit(v: int, base: int, i: nat)
    requires
        v >= 0,
        base > 1,
        i > 0,
    ensures
        v / pow(base, i) == (v / base) / pow(base, (i - 1) as nat),
{
    lemma_pow_positive(base, (i - 1) as nat);
    reveal(pow);
    assert(pow(base, i) == base * pow(base, (i - 1) as nat));
    lemma_div_denominator(v, base, pow(base, (i - 1) as nat));
}

/// A number without its lowest digit is as much smaller.
proof fn lemma_below(v: int, base: int, n: nat)
    requires
        v >= 0,
        base > 1,
        n > 0,
    ensures
        v < pow(base, n) <==> v / base < pow(base, (n - 1) as nat),
{
    reveal(pow);
    let q = pow(base, (n - 1) as nat);
    assert(pow(base, n) == base * q);
    assert(v < base * q <==> v / base < q) by (nonlinear_arith)
        requires
            base > 1,
            v >= 0,
    ;
}

proof fn lemma_leb128_digits(v: nat)
    ensures
        leb128(v).len() >= 1,
        forall|i: int| 0 <= i < leb128(v).len() - 1 ==> #[trigger] leb128(v)[i] >= 128,
        leb128(v).last() < 128,
        forall|i: int|
            0 <= i < leb128(v).len() ==> #[trigger] leb128(v)[i] as int % 128 == (v as int / pow(
                128,
                i as nat,
            )) % 128,
        (v as int) < pow(128, leb128(v).len()),
        leb128(v).len() > 1 ==> v >= pow(128, (leb128(v).len() - 1) as nat),
    decreases v,
{
    let s = leb128(v);
    lemma_pow0(128);
    lemma_pow1(128);
    if v >= 128 {
        let rest = leb128(v / 128);
        lemma_leb128_digits(v / 128);
        assert forall|i: int| 0 <= i < s.len() - 1 implies #[trigger] s[i] >= 128 by {
            if i > 0 {
                assert(s[i] == rest[i - 1]);
            }
        }
        assert(s.last() == rest.last());
        assert forall|i: int| 0 <= i < s.len() implies #[trigger] s[i] as int % 128 == (v as int
            / pow(128, i as nat)) % 128 by {
            if i > 0 {
                assert(s[i] == rest[i - 1]);
                lemma_digit(v as int, 128, i as nat);
            }
        }
        lemma_below(v as int, 128, s.len());
        lemma_below(v as int, 128, (s.len() - 1) as nat);
    }
}

/// A number is written with seven bits in each byte, low bits first; every byte but the last has
/// the top bit set, and there are no more bytes than the number needs.
pub proof fn law_leb128_digits(v: u64)
    ensures
        1 <= leb128(v as nat).len() <= 10,
        forall|i: int|
            0 <= i < leb128(v as nat).len() - 1 ==> #[trigger] leb128(v as nat)[i] >= 128,
        leb128(v as nat).last() < 128,
        forall|i: int|
            0 <= i < leb128(v as nat).len() ==> #[trigger] leb128(v as nat)[i] as int % 128 == (
            v as int / pow(128, i as nat)) % 128,
        (v as int) < pow(128, leb128(v as nat).len()),
        leb128(v as nat).len() > 1 ==> v as int >= pow(
            128,
            (leb128(v as nat).len() - 1) as nat,
        ),
{
    lemma_leb128_digits(v as nat);
    lemma_leb128_len(v);
}

proof fn lemma_prefix_read(s: Seq<u8>, v: nat, n: nat)
    requires
        1 <= n <= s.len(),
        forall|i: int| 0 <= i < n - 1 ==> #[trigger] s[i] >= 128,
        s[n - 1] < 128,
        forall|i: int|
            0 <= i < n ==> #[trigger] s[i] as int % 128 == (v as int / pow(128, i as nat)) % 128,
        (v as int) < pow(128, n),
    ensures
        leb128_prefix(s) == Some((v, n)),
    decreases n,
{
    lemma_pow0(128);
    lemma_pow1(128);
    assert(s[0] as int % 128 == (v as int / pow(128, 0)) % 128);
    if n > 1 {
        let rest = s.skip(1);
        assert forall|i: int| 0 <= i < n - 2 implies #[trigger] rest[i] >= 128 by {
            assert(rest[i] == s[i + 1]);
        }
        assert forall|i: int| 0 <= i < n - 1 implies #[trigger] rest[i] as int % 128 == ((v
            / 128) as int / pow(128, i as nat)) % 128 by {
            assert(rest[i] == s[i + 1]);
            lemma_digit(v as int, 128, (i + 1) as nat);
        }
        lemma_below(v as int, 128, n);
        lemma_prefix_read(rest, v / 128, (n - 1) as nat);
    }
}

/// A number is read from its bytes, up to the first without the top bit: ten at most, and the
/// number fits. What follows is left.
pub proof fn law_leb128_read(s: Seq<u8>, v: u64, n: nat)
    requires
        1 <= n <= 10,
        n <= s.len(),
        forall|i: int| 0 <= i < n - 1 ==> #[trigger] s[i] >= 128,
        s[n - 1] < 128,
        forall|i: int|
            0 <= i < n ==> #[trigger] s[i] as int % 128 == (v as int / pow(128, i as nat)) % 128,
        (v as int) < pow(128, n),
    ensures
        leb128_read(s) == Some((v, s.skip(n as int))),
{
    lemma_prefix_read(s, v as nat, n);
}

proof fn lemma_prefix_digits(s: Seq<u8>)
    ensures
        leb128_prefix(s) matches Some((v, n)) ==> {
            &&& 1 <= n <= s.len()
            &&& forall|i: int| 0 <= i < n - 1 ==> #[trigger] s[i] >= 128
            &&& s[n - 1] < 128
            &&& forall|i: int|
                0 <= i < n ==> #[trigger] s[i] as int % 128 == (v as int / pow(128, i as nat)) % 128
            &&& (v as int) < pow(128, n)
        },
        leb128_prefix(s) is None ==> forall|i: int| 0 <= i < s.len() ==> #[trigger] s[i] >= 128,
    decreases s.len(),
{
    lemma_pow0(128);
    lemma_pow1(128);
    if s.len() > 0 && s[0] >= 128 {
        let rest = s.skip(1);
        lemma_prefix_digits(rest);
        match leb128_prefix(rest) {
            Some((w, m)) => {
                let v = (s[0] - 128) as nat + 128 * w;
                let n = m + 1;
                assert(v / 128 == w && v % 128 == s[0] - 128);
                assert forall|i: int| 0 <= i < n - 1 implies #[trigger] s[i] >= 128 by {
                    if i > 0 {
                        assert(s[i] == rest[i - 1]);
                    }
                }
                assert(s[n - 1] == rest[m - 1]);
                assert forall|i: int| 0 <= i < n implies #[trigger] s[i] as int % 128 == (v as int
                    / pow(128, i as nat)) % 128 by {
                    if i > 0 {
                        assert(s[i] == rest[i - 1]);
                        lemma_digit(v as int, 128, i as nat);
                    }
                }
                lemma_below(v as int, 128, n);
            },
            None => {
                assert forall|i: int| 0 <= i < s.len() implies #[trigger] s[i] >= 128 by {
                    if i > 0 {
                        assert(s[i] == rest[i - 1]);
                    }
                }
            },
        }
    }
}

/// What is read is the number that the bytes write.
pub proof fn law_leb128_read_digits(s: Seq<u8>)
    ensures
        leb128_read(s) matches Some((v, rest)) ==> {
            let n = s.len() - rest.len();
            &&& 1 <= n <= 10
            &&& rest == s.skip(n)
            &&& forall|i: int| 0 <= i < n - 1 ==> #[trigger] s[i] >= 128
            &&& s[n - 1] < 128
            &&& forall|i: int|
                0 <= i < n ==> #[trigger] s[i] as int % 128 == (v as int / pow(128, i as nat)) % 128
            &&& (v as int) < pow(128, n as nat)
        },
        s.len() == 0 ==> leb128_read(s) is None,
{
    lemma_prefix_digits(s);
}

proof fn lemma_be_digits(v: nat, n: nat)
    ensures
        be_digits(v, n).len() == n,
        forall|i: int|
            0 <= i < n ==> #[trigger] be_digits(v, n)[i] == (v as int / pow(
                256,
                (n - 1 - i) as nat,
            )) % 256,
    decreases n,
{
    lemma_be_digits_len(v, n);
    lemma_pow0(256);
    if n > 0 {
        let front = be_digits(v / 256, (n - 1) as nat);
        lemma_be_digits(v / 256, (n - 1) as nat);
        assert forall|i: int| 0 <= i < n implies #[trigger] be_digits(v, n)[i] == (v as int / pow(
            256,
            (n - 1 - i) as nat,
        )) % 256 by {
            if i < n - 1 {
                assert(be_digits(v, n)[i] == front[i]);
                lemma_digit(v as int, 256, (n - 1 - i) as nat);
            }
        }
    }
}

/// The eight bytes of a document in a key, high byte first.
pub proof fn law_be_bytes(v: u64)
    ensures
        be_bytes(v).len() == 8,
        forall|i: int|
            0 <= i < 8 ==> #[trigger] be_bytes(v)[i] == (v as int / pow(256, (7 - i) as nat)) % 256,
{
    lemma_be_digits(v as nat, 8);
}

/// The number that bytes write, high byte first.
pub proof fn law_be_value(s: Seq<u8>)
    ensures
        (be_value(s) as int) < pow(256, s.len()),
        forall|i: int|
            0 <= i < s.len() ==> #[trigger] s[i] == (be_value(s) as int / pow(
                256,
                (s.len() - 1 - i) as nat,
            )) % 256,
    decreases s.len(),
{
    lemma_pow0(256);
    if s.len() > 0 {
        let front = s.drop_last();
        let v = be_value(s);
        law_be_value(front);
        assert(v / 256 == be_value(front) && v % 256 == s.last());
        lemma_below(v as int, 256, s.len());
        assert forall|i: int| 0 <= i < s.len() implies #[trigger] s[i] == (v as int / pow(
            256,
            (s.len() - 1 - i) as nat,
        )) % 256 by {
            if i < front.len() {
                assert(front[i] == s[i]);
                lemma_digit(v as int, 256, (s.len() - 1 - i) as nat);
            }
        }
    }
}

/// A number in the order of a machine, byte by byte: low byte first or high byte first.
pub proof fn law_word(s: Seq<u8>)
    ensures
        forall|order: ByteOrder| (#[trigger] word(order, s) as int) < pow(256, s.len()),
        forall|i: int|
            0 <= i < s.len() ==> #[trigger] s[i] == (word(ByteOrder::Little, s) as int / pow(
                256,
                i as nat,
            )) % 256,
        forall|i: int|
            0 <= i < s.len() ==> #[trigger] s[i] == (word(ByteOrder::Big, s) as int / pow(
                256,
                (s.len() - 1 - i) as nat,
            )) % 256,
        forall|order: ByteOrder| #[trigger] int32(order, s) == word(order, s) as u32 as i32,
        forall|order: ByteOrder| #[trigger] int64(order, s) == word(order, s) as u64 as i64,
{
    let r = s.reverse();
    law_be_value(s);
    law_be_value(r);
    assert forall|i: int| 0 <= i < s.len() implies #[trigger] s[i] == (word(
        ByteOrder::Little,
        s,
    ) as int / pow(256, i as nat)) % 256 by {
        assert(r[s.len() - 1 - i] == s[i]);
    }
}

/// The order of keys: `a` comes before `b` where, at the first place at which they differ, `a` has
/// the lesser byte or ends.
pub proof fn law_bytes_less(a: Seq<u8>, b: Seq<u8>)
    ensures
        bytes_less(a, b) <==> exists|k: int|
            0 <= k <= a.len() && k < b.len() && #[trigger] a.take(k) == b.take(k) && (k == a.len()
                || a[k] < b[k]),
    decreases a.len(),
{
    reveal(bytes_less);
    if a.len() > 0 && b.len() > 0 && a[0] == b[0] {
        let (x, y) = (a.skip(1), b.skip(1));
        law_bytes_less(x, y);
        if bytes_less(x, y) {
            let k = choose|k: int|
                0 <= k <= x.len() && k < y.len() && #[trigger] x.take(k) == y.take(k) && (k
                    == x.len() || x[k] < y[k]);
            assert(a.take(k + 1) =~= b.take(k + 1)) by {
                assert forall|i: int| 0 <= i < k + 1 implies a[i] == b[i] by {
                    if i > 0 {
                        assert(x.take(k)[i - 1] == y.take(k)[i - 1]);
                    }
                }
            }
            if k < x.len() {
                assert(x[k] == a[k + 1] && y[k] == b[k + 1]);
            }
        }
        if exists|k: int|
            0 <= k <= a.len() && k < b.len() && #[trigger] a.take(k) == b.take(k) && (k == a.len()
                || a[k] < b[k]) {
            let k = choose|k: int|
                0 <= k <= a.len() && k < b.len() && #[trigger] a.take(k) == b.take(k) && (k
                    == a.len() || a[k] < b[k]);
            assert(k > 0);
            assert(x.take(k - 1) =~= y.take(k - 1)) by {
                assert forall|i: int| 0 <= i < k - 1 implies x[i] == y[i] by {
                    assert(a.take(k)[i + 1] == b.take(k)[i + 1]);
                }
            }
            if k < a.len() {
                assert(x[k - 1] == a[k] && y[k - 1] == b[k]);
            }
        }
    } else if b.len() > 0 {
        assert(a.take(0) =~= b.take(0));
        if exists|k: int|
            0 <= k <= a.len() && k < b.len() && #[trigger] a.take(k) == b.take(k) && (k == a.len()
                || a[k] < b[k]) {
            let k = choose|k: int|
                0 <= k <= a.len() && k < b.len() && #[trigger] a.take(k) == b.take(k) && (k
                    == a.len() || a[k] < b[k]);
            if k > 0 {
                assert(a.take(k)[0] == b.take(k)[0]);
            }
        }
    }
}

/// Numbers in a row are written one after the other.
pub proof fn law_leb128_all(a: Seq<u64>, v: u64)
    ensures
        leb128_all(seq![]) == Seq::<u8>::empty(),
        leb128_all(a.push(v)) == leb128_all(a) + leb128(v as nat),
{
    assert(a.push(v).drop_last() =~= a);
}

/// A single hit is written as twice the document and one, a multiple hit as twice the number of
/// documents, in 64 bits; the number of occurrences follows.
pub proof fn law_stats_bytes(first: u64, term_frequency: u64)
    ensures
        (TokenStats::SingleHit { docid: first, term_frequency }).spec_encode() == leb128(
            ((2 * first + 1) % 0x1_0000_0000_0000_0000) as nat,
        ) + leb128(term_frequency as nat),
        (TokenStats::MultiHit { doc_frequency: first, term_frequency }).spec_encode() == leb128(
            ((2 * first) % 0x1_0000_0000_0000_0000) as nat,
        ) + leb128(term_frequency as nat),
{
}

/// An odd first number is a single hit in the document of half its value, an even one a number of
/// documents; the second number counts occurrences, and the bytes after it do not matter. Where a
/// number is missing there is no entry.
pub proof fn law_stats_read(first: u64, term_frequency: u64, rest: Seq<u8>, s: Seq<u8>)
    ensures
        first % 2 == 1 ==> TokenStats::spec_decode(
            leb128(first as nat) + leb128(term_frequency as nat) + rest,
        ) == Some(TokenStats::SingleHit { docid: first / 2, term_frequency }),
        first % 2 == 0 ==> TokenStats::spec_decode(
            leb128(first as nat) + leb128(term_frequency as nat) + rest,
        ) == Some(TokenStats::MultiHit { doc_frequency: first / 2, term_frequency }),
        leb128_read(s) is None ==> TokenStats::spec_decode(s) is None,
        leb128_read(s) is None ==> TokenStats::spec_decode(leb128(first as nat) + s) is None,
{
    lemma_leb128_round_trip(first, leb128(term_frequency as nat) + rest);
    lemma_leb128_round_trip(term_frequency, rest);
    lemma_leb128_round_trip(first, s);
    assert(leb128(first as nat) + leb128(term_frequency as nat) + rest =~= leb128(first as nat) + (
    leb128(term_frequency as nat) + rest));
}

/// Positions are written as the first and then the step from each to the next.
pub proof fn law_position_steps(positions: Seq<u32>)
    requires
        forall|i: int, j: int| 0 <= i <= j < positions.len() ==> positions[i] <= positions[j],
    ensures
        position_steps(0, positions).len() == positions.len(),
        positions.len() > 0 ==> position_steps(0, positions)[0] == positions[0],
        forall|i: int|
            0 < i < positions.len() ==> #[trigger] position_steps(0, positions)[i] == positions[i]
                - positions[i - 1],
{
}

/// A position is the one before it and the low 32 bits of the step that follows; it must fit. The
/// positions end where no number follows.
pub proof fn law_positions_read(prev: u32, step: u64, s: Seq<u8>)
    ensures
        leb128_read(s) is None ==> positions_from(prev, s) == Some(Seq::<u32>::empty()),
        prev + (step as u32) > u32::MAX ==> positions_from(prev, leb128(step as nat) + s) is None,
        prev + (step as u32) <= u32::MAX ==> {
            let next = (prev + (step as u32)) as u32;
            match positions_from(next, s) {
                Some(more) => positions_from(prev, leb128(step as nat) + s) == Some(
                    seq![next] + more,
                ),
                None => positions_from(prev, leb128(step as nat) + s) is None,
            }
        },
{
    lemma_leb128_round_trip(step, s);
}

/// No position, or document, comes before an earlier one just where none comes before its
/// neighbour.
pub proof fn law_ascending(docids: Seq<u64>, positions: Seq<u32>)
    ensures
        ascending(docids) <==> forall|i: int|
            0 < i < docids.len() ==> docids[i - 1] <= #[trigger] docids[i],
        positions_ascend(positions) <==> forall|i: int|
            0 < i < positions.len() ==> positions[i - 1] <= #[trigger] positions[i],
{
    if forall|i: int| 0 < i < docids.len() ==> docids[i - 1] <= #[trigger] docids[i] {
        assert forall|i: int, j: int| 0 <= i <= j < docids.len() implies docids[i]
            <= docids[j] by {
            lemma_docids_climb(docids, i, j);
        }
    }
    if forall|i: int| 0 < i < positions.len() ==> positions[i - 1] <= #[trigger] positions[i] {
        assert forall|i: int, j: int| 0 <= i <= j < positions.len() implies positions[i]
            <= positions[j] by {
            lemma_positions_climb(positions, i, j);
        }
    }
}

proof fn lemma_docids_climb(docids: Seq<u64>, i: int, j: int)
    requires
        0 <= i <= j < docids.len(),
        forall|k: int| 0 < k < docids.len() ==> docids[k - 1] <= #[trigger] docids[k],
    ensures
        docids[i] <= docids[j],
    decreases j - i,
{
    if i < j {
        lemma_docids_climb(docids, i, j - 1);
        assert(docids[j - 1] <= docids[j]);
    }
}

proof fn lemma_positions_climb(positions: Seq<u32>, i: int, j: int)
    requires
        0 <= i <= j < positions.len(),
        forall|k: int| 0 < k < positions.len() ==> positions[k - 1] <= #[trigger] positions[k],
    ensures
        positions[i] <= positions[j],
    decreases j - i,
{
    if i < j {
        lemma_positions_climb(positions, i, j - 1);
        assert(positions[j - 1] <= positions[j]);
    }
}

/// A block is seen by its documents and term frequencies; blocks are joined and cut by both.
pub proof fn law_block_view(block: DocPostingBlock, a: BlockView, b: BlockView, n: int)
    ensures
        block@.docids == block.docids@,
        block@.term_frequencies == block.term_frequencies@,
        a.plus(b).docids == a.docids + b.docids,
        a.plus(b).term_frequencies == a.term_frequencies + b.term_frequencies,
        a.take(n).docids == a.docids.take(n),
        a.take(n).term_frequencies == a.term_frequencies.take(n),
        a.skip(n).docids == a.docids.skip(n),
        a.skip(n).term_frequencies == a.term_frequencies.skip(n),
{
}

/// The bytes of a block: the number of its documents, the step from each document to the next,
/// and its term frequencies, which a field that records documents alone leaves out.
pub proof fn law_block_bytes(block: BlockView, steps: Seq<u64>, frequencies: Seq<u64>)
    requires
        block.docids.len() >= 1,
        forall|i: int, j: int|
            0 <= i <= j < block.docids.len() ==> block.docids[i] <= block.docids[j],
        steps.len() + 1 == block.docids.len(),
        forall|i: int|
            0 <= i < steps.len() ==> #[trigger] steps[i] == block.docids[i + 1] - block.docids[i],
        frequencies.len() == block.term_frequencies.len(),
        forall|i: int|
            0 <= i < frequencies.len() ==> #[trigger] frequencies[i] == block.term_frequencies[i],
    ensures
        block.spec_encode(TokenFieldFeatures::Doc) == leb128(block.docids.len()) + leb128_all(
            steps,
        ),
        block.spec_encode(TokenFieldFeatures::WithTermFrequency) == leb128(block.docids.len())
            + leb128_all(steps) + leb128_all(frequencies),
        block.spec_encode(TokenFieldFeatures::WithPositions) == leb128(block.docids.len())
            + leb128_all(steps) + leb128_all(frequencies),
{
    assert(deltas(block.docids) =~= steps);
    assert(widened(block.term_frequencies) =~= frequencies);
}

/// Each sum is the one before it and the step between them.
pub proof fn law_running_sums(first: nat, steps: Seq<u64>)
    ensures
        running_sums(first, steps).len() == steps.len() + 1,
        running_sums(first, steps)[0] == first,
        forall|i: int|
            0 <= i < steps.len() ==> #[trigger] running_sums(first, steps)[i + 1] == running_sums(
                first,
                steps,
            )[i] + steps[i],
    decreases steps.len(),
{
    if steps.len() > 0 {
        let front = steps.drop_last();
        law_running_sums(first, front);
        assert forall|i: int| 0 <= i < steps.len() implies #[trigger] running_sums(first, steps)[i
            + 1] == running_sums(first, steps)[i] + steps[i] by {
            if i < front.len() {
                assert(running_sums(first, front)[i + 1] == running_sums(first, front)[i]
                    + front[i]);
            }
        }
    }
}

/// A block that is read has the document of its key and then one more for each step; each has the
/// low 32 bits of the term frequency that follows, or one in a field that records documents
/// alone. It is read only if all its documents fit.
pub proof fn law_block_read(
    key: Seq<u8>,
    first: u64,
    docids: Seq<u64>,
    steps: Seq<u64>,
    frequencies: Seq<u64>,
    rest: Seq<u8>,
)
    requires
        spec_key_docid(key) == Some(first),
        steps.len() < usize::MAX,
        docids.len() == steps.len() + 1,
        docids[0] == first,
        forall|i: int|
            0 <= i < steps.len() ==> docids[i + 1] == #[trigger] steps[i] + docids[i],
        frequencies.len() == docids.len(),
    ensures
        BlockView::spec_decode(
            key,
            leb128(docids.len()) + leb128_all(steps) + rest,
            TokenFieldFeatures::Doc,
        ) matches Some(b) && b.docids == docids && b.term_frequencies.len() == docids.len() && (
        forall|i: int| 0 <= i < docids.len() ==> #[trigger] b.term_frequencies[i] == 1),
        forall|features: TokenFieldFeatures|
            !(features is Doc) ==> {
                let read = #[trigger] BlockView::spec_decode(
                    key,
                    leb128(docids.len()) + leb128_all(steps) + leb128_all(frequencies) + rest,
                    features,
                );
                &&& read is Some
                &&& read.unwrap().docids == docids
                &&& read.unwrap().term_frequencies.len() == docids.len()
                &&& forall|i: int|
                    0 <= i < docids.len() ==> #[trigger] read.unwrap().term_frequencies[i]
                        == frequencies[i] as u32
            },
{
    reveal(BlockView::spec_decode);
    let n = docids.len();
    let tail = leb128_all(frequencies) + rest;
    lemma_leb128_round_trip(n as u64, leb128_all(steps) + rest);
    lemma_leb128_round_trip(n as u64, leb128_all(steps) + tail);
    lemma_leb128_all_round_trip(steps, rest);
    lemma_leb128_all_round_trip(steps, tail);
    lemma_leb128_all_round_trip(frequencies, rest);
    assert(leb128(n) + leb128_all(steps) + rest =~= leb128(n) + (leb128_all(steps) + rest));
    assert(leb128(n) + leb128_all(steps) + leb128_all(frequencies) + rest =~= leb128(n) + (
    leb128_all(steps) + tail));
    law_running_sums(first as nat, steps);
    let sums = running_sums(first as nat, steps);
    assert forall|i: int| 0 <= i < n implies sums[i] == #[trigger] docids[i] by {
        lemma_sums_are(first as nat, steps, docids, i);
    }
    assert(sums.map_values(|d: nat| d as u64) =~= docids);
}

proof fn lemma_sums_are(first: nat, steps: Seq<u64>, docids: Seq<u64>, i: int)
    requires
        docids.len() == steps.len() + 1,
        docids[0] == first,
        forall|k: int|
            0 <= k < steps.len() ==> docids[k + 1] == #[trigger] steps[k] + docids[k],
        0 <= i < docids.len(),
    ensures
        running_sums(first, steps)[i] == docids[i],
    decreases i,
{
    law_running_sums(first, steps);
    if i > 0 {
        lemma_sums_are(first, steps, docids, i - 1);
        assert(running_sums(first, steps)[i - 1 + 1] == running_sums(first, steps)[i - 1]
            + steps[i - 1]);
        assert(docids[i - 1 + 1] == steps[i - 1] + docids[i - 1]);
    }
}

/// There is no block under a key that ends with no document, in bytes without a count, or where
/// the last document would not fit.
pub proof fn law_block_refused(
    key: Seq<u8>,
    value: Seq<u8>,
    features: TokenFieldFeatures,
    count: u64,
    steps: Seq<u64>,
    rest: Seq<u8>,
)
    requires
        1 <= count <= usize::MAX,
        steps.len() + 1 == count,
    ensures
        spec_key_docid(key) is None ==> BlockView::spec_decode(key, value, features) is None,
        leb128_read(value) is None ==> BlockView::spec_decode(key, value, features) is None,
        spec_key_docid(key) matches Some(first) && running_sums(first as nat, steps).last()
            > u64::MAX ==> BlockView::spec_decode(
            key,
            leb128(count as nat) + leb128_all(steps) + rest,
            features,
        ) is None,
{
    reveal(BlockView::spec_decode);
    lemma_leb128_round_trip(count, leb128_all(steps) + rest);
    lemma_leb128_all_round_trip(steps, rest);
    assert(leb128(count as nat) + leb128_all(steps) + rest =~= leb128(count as nat) + (leb128_all(
        steps,
    ) + rest));
}

/// A block that counts no document still has the one of its key, without a term frequency.
pub proof fn law_empty_block_read(key: Seq<u8>, features: TokenFieldFeatures, rest: Seq<u8>)
    ensures
        spec_key_docid(key) matches Some(first) ==> BlockView::spec_decode(
            key,
            seq![0u8] + rest,
            features,
        ) == Some(BlockView { docids: seq![first], term_frequencies: seq![] }),
{
    reveal(BlockView::spec_decode);
    lemma_leb128_round_trip(0, rest);
    assert(leb128(0) =~= seq![0u8]);
    if let Some(first) = spec_key_docid(key) {
        assert(running_sums(first as nat, seq![]) =~= seq![first as nat]);
        let docids = running_sums(first as nat, seq![]).map_values(|d: nat| d as u64);
        assert(docids =~= seq![first]);
        assert(Seq::new(0, |i: int| 1u32) =~= seq![]);
        assert(leb128_read_n(rest, 0) == Some((Seq::<u64>::empty(), rest)));
        assert(narrowed(seq![]) =~= seq![]);
    }
}

/// The keys of a field: its name, the token, and the document in eight bytes, with a colon
/// between them.
pub proof fn law_keys(name: Seq<u8>, token: Seq<u8>, docid: DocId)
    ensures
        spec_stats_key(name, token) == name + seq![58u8] + token,
        spec_pl_key(name, token, docid) == name + seq![58u8] + token + seq![58u8] + be_bytes(docid),
        spec_pospl_key(name, docid, token) == be_bytes(docid) + seq![58u8] + name + seq![58u8]
            + token,
{
}

/// The document of a key is in its last eight bytes, behind a colon; a shorter key than can hold
/// a field, a token and a document has none.
pub proof fn law_key_docid(front: Seq<u8>, docid: DocId, key: Seq<u8>)
    ensures
        front.len() >= 3 ==> spec_key_docid(front + seq![58u8] + be_bytes(docid)) == Some(docid),
        key.len() < 12 ==> spec_key_docid(key) is None,
        key.len() >= 12 && key[key.len() - 9] != 58 ==> spec_key_docid(key) is None,
{
    let k = front + seq![58u8] + be_bytes(docid);
    lemma_be_bytes(docid);
    assert(k.skip(k.len() - 8) =~= be_bytes(docid));
    if front.len() >= 3 {
        assert(k[k.len() - 9] == 58);
    }
}

/// The keyspaces of a field: index, field and section with dots between them.
pub proof fn law_keyspace_names(index: Seq<char>, name: Seq<char>)
    ensures
        spec_keyspace_name(index, name, Section::Stats) == index + seq!['.'] + name + seq![
            '.',
            's',
            't',
            'a',
            't',
            's',
        ],
        spec_keyspace_name(index, name, Section::DocPl) == index + seq!['.'] + name + seq![
            '.',
            'd',
            'o',
            'c',
            'p',
            'l',
        ],
        spec_keyspace_name(index, name, Section::PosPl) == index + seq!['.'] + name + seq![
            '.',
            'p',
            'o',
            's',
            'p',
            'l',
        ],
{
    reveal_strlit(".");
    reveal_strlit("stats");
    reveal_strlit("docpl");
    reveal_strlit("pospl");
    assert("."@ =~= seq!['.']);
}

} // verus!
