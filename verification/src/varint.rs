//! Unsigned LEB128 numbers: what they are on the wire, and the calls that write and read them.
use vstd::prelude::*;

verus! {

/// The unsigned LEB128 encoding of `v`: seven bits per byte, low bits first, with the top bit set
/// on every byte but the last.
pub open spec fn leb128(v: nat) -> Seq<u8>
    decreases v,
{
    if v < 128 {
        seq![v as u8]
    } else {
        seq![(v % 128 + 128) as u8] + leb128(v / 128)
    }
}

/// The number at the front of `s` and how many bytes it takes, or `None` if `s` ends first.
pub open spec fn leb128_prefix(s: Seq<u8>) -> Option<(nat, nat)>
    decreases s.len(),
{
    if s.len() == 0 {
        None
    } else if s[0] < 128 {
        Some((s[0] as nat, 1nat))
    } else {
        match leb128_prefix(s.skip(1)) {
            Some((v, n)) => Some(((s[0] - 128) as nat + 128 * v, n + 1)),
            None => None,
        }
    }
}

/// A `u64` read from the front of `s` and the bytes after it. `None` if `s` ends within the
/// number, if the number takes more than ten bytes, or if it does not fit.
pub open spec fn leb128_read(s: Seq<u8>) -> Option<(u64, Seq<u8>)> {
    match leb128_prefix(s) {
        Some((v, n)) => if n <= 10 && v <= u64::MAX {
            Some((v as u64, s.skip(n as int)))
        } else {
            None
        },
        None => None,
    }
}

/// Calls `leb128::write::unsigned` on a `Vec`, a writer that takes every byte: appends the
/// encoding of `val`.
#[verifier::external_body]
pub(crate) fn write_unsigned(out: &mut Vec<u8>, val: u64)
    ensures
        final(out)@ == old(out)@ + leb128(val as nat),
{
    leb128::write::unsigned(out, val).unwrap();
}

/// Calls `leb128::read::unsigned` on a byte slice: the number at its front and the bytes that
/// were not read, or `None` on either of its errors (the bytes end early, or the number
/// overflows).
#[verifier::external_body]
pub(crate) fn read_unsigned<'a>(bytes: &'a [u8]) -> (r: Option<(u64, &'a [u8])>)
    ensures
        match r {
            Some((v, rest)) => leb128_read(bytes@) == Some((v, rest@)),
            None => leb128_read(bytes@) is None,
        },
{
    let mut rest: &'a [u8] = bytes;
    match leb128::read::unsigned(&mut rest) {
        Ok(v) => Some((v, rest)),
        Err(_) => None,
    }
}

spec fn pow128(k: nat) -> nat
    decreases k,
{
    if k == 0 {
        1
    } else {
        128 * pow128((k - 1) as nat)
    }
}

proof fn lemma_len_below(v: nat, k: nat)
    requires
        k >= 1,
        v < pow128(k),
    ensures
        1 <= leb128(v).len() <= k,
    decreases k,
{
    if v >= 128 {
        assert(pow128(1) == 128) by {
            reveal_with_fuel(pow128, 2);
        }
        lemma_len_below(v / 128, (k - 1) as nat);
    }
}

/// The encoding of a `u64` takes one to ten bytes.
pub proof fn lemma_leb128_len(v: u64)
    ensures
        1 <= leb128(v as nat).len() <= 10,
{
    reveal_with_fuel(pow128, 11);
    lemma_len_below(v as nat, 10);
}

proof fn lemma_prefix_of_encoding(v: nat, rest: Seq<u8>)
    ensures
        leb128_prefix(leb128(v) + rest) == Some((v, leb128(v).len())),
    decreases v,
{
    let s = leb128(v) + rest;
    if v >= 128 {
        lemma_prefix_of_encoding(v / 128, rest);
        assert(s.skip(1) =~= leb128(v / 128) + rest);
    }
}

/// Reading gives back what was written, and leaves what follows.
pub proof fn lemma_leb128_round_trip(v: u64, rest: Seq<u8>)
    ensures
        leb128_read(leb128(v as nat) + rest) == Some((v, rest)),
{
    lemma_prefix_of_encoding(v as nat, rest);
    lemma_leb128_len(v);
    assert((leb128(v as nat) + rest).skip(leb128(v as nat).len() as int) =~= rest);
}

/// The encodings of the numbers in `vs`, one after the other.
pub open spec fn leb128_all(vs: Seq<u64>) -> Seq<u8>
    decreases vs.len(),
{
    if vs.len() == 0 {
        seq![]
    } else {
        leb128_all(vs.drop_last()) + leb128(vs.last() as nat)
    }
}

/// `n` numbers read from the front of `s` and the bytes after them, or `None` if one of the reads
/// fails.
pub open spec fn leb128_read_n(s: Seq<u8>, n: nat) -> Option<(Seq<u64>, Seq<u8>)>
    decreases n,
{
    if n == 0 {
        Some((seq![], s))
    } else {
        match leb128_read_n(s, (n - 1) as nat) {
            Some((vs, rest)) => match leb128_read(rest) {
                Some((v, rest)) => Some((vs.push(v), rest)),
                None => None,
            },
            None => None,
        }
    }
}

/// One more number at the end of a list is one more encoding at the end of the bytes.
pub proof fn lemma_leb128_all_push(vs: Seq<u64>, v: u64)
    ensures
        leb128_all(vs.push(v)) == leb128_all(vs) + leb128(v as nat),
{
    assert(vs.push(v).drop_last() =~= vs);
}

/// Reading a list of numbers gives back what was written, and leaves what follows.
pub proof fn lemma_leb128_all_round_trip(vs: Seq<u64>, rest: Seq<u8>)
    ensures
        leb128_read_n(leb128_all(vs) + rest, vs.len()) == Some((vs, rest)),
    decreases vs.len(),
{
    if vs.len() == 0 {
        assert(leb128_all(vs) + rest =~= rest);
        assert(vs =~= seq![]);
    } else {
        let tail = leb128(vs.last() as nat) + rest;
        lemma_leb128_all_round_trip(vs.drop_last(), tail);
        lemma_leb128_round_trip(vs.last(), rest);
        assert(leb128_all(vs) + rest =~= leb128_all(vs.drop_last()) + tail);
        assert(vs.drop_last().push(vs.last()) =~= vs);
    }
}

/// Fewer numbers can be read wherever more can, and they are the same numbers.
pub(crate) proof fn lemma_leb128_read_fewer(s: Seq<u8>, m: nat, n: nat)
    requires
        m <= n,
    ensures
        leb128_read_n(s, n) matches Some((vs, _)) ==> vs.len() == n && (leb128_read_n(
            s,
            m,
        ) matches Some((us, _)) && us == vs.take(m as int)),
    decreases n,
{
    if m < n {
        lemma_leb128_read_fewer(s, m, (n - 1) as nat);
        if let Some((vs, _)) = leb128_read_n(s, n) {
            let us = leb128_read_n(s, (n - 1) as nat).unwrap().0;
            assert(us.take(m as int) =~= vs.take(m as int));
        }
    } else {
        if n > 0 {
            lemma_leb128_read_fewer(s, (m - 1) as nat, (n - 1) as nat);
        }
        if let Some((vs, _)) = leb128_read_n(s, n) {
            assert(vs.take(m as int) =~= vs);
        }
    }
}

/// One more number at the front of a list is one more encoding at the front of the bytes.
pub proof fn lemma_leb128_all_front(v: u64, vs: Seq<u64>)
    ensures
        leb128_all(seq![v] + vs) == leb128(v as nat) + leb128_all(vs),
    decreases vs.len(),
{
    let all = seq![v] + vs;
    if vs.len() == 0 {
        assert(all.drop_last() =~= seq![]);
        assert(leb128_all(all.drop_last()) =~= seq![]);
        assert(leb128_all(vs) =~= seq![]);
        assert(leb128_all(all) =~= leb128(v as nat) + leb128_all(vs));
    } else {
        lemma_leb128_all_front(v, vs.drop_last());
        assert(all.drop_last() =~= seq![v] + vs.drop_last());
        assert(leb128_all(all) =~= leb128(v as nat) + leb128_all(vs));
    }
}

proof fn lemma_prefix_len(s: Seq<u8>)
    ensures
        leb128_prefix(s) matches Some((_, n)) ==> 1 <= n <= s.len(),
    decreases s.len(),
{
    if s.len() > 0 {
        lemma_prefix_len(s.skip(1));
    }
}

/// A read takes at least one byte.
pub proof fn lemma_leb128_read_shorter(s: Seq<u8>)
    ensures
        leb128_read(s) matches Some((_, rest)) ==> rest.len() < s.len(),
{
    lemma_prefix_len(s);
}

} // verus!
