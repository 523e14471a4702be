//! Numbers of a fixed width in the byte order of the machine that wrote them.
use crate::bytes::{
    be_digits, be_value, lemma_be_digits_len, lemma_be_value_bound, lemma_be_value_of_digits, pow256,
};
use vstd::prelude::*;

verus! {

/// The order of the bytes of a number.
#[derive(Debug, Copy, Clone, PartialEq, Eq, Structural)]
pub enum ByteOrder {
    /// Low byte first.
    Little,
    /// High byte first.
    Big,
}

/// The number that `s` writes.
pub open spec fn word(order: ByteOrder, s: Seq<u8>) -> nat {
    match order {
        ByteOrder::Little => be_value(s.reverse()),
        ByteOrder::Big => be_value(s),
    }
}

/// `v` in `n` bytes.
pub open spec fn word_bytes(order: ByteOrder, v: nat, n: nat) -> Seq<u8> {
    match order {
        ByteOrder::Little => be_digits(v, n).reverse(),
        ByteOrder::Big => be_digits(v, n),
    }
}

/// The signed number that four bytes write.
pub open spec fn int32(order: ByteOrder, s: Seq<u8>) -> i32 {
    word(order, s) as u32 as i32
}

/// The signed number that eight bytes write.
pub open spec fn int64(order: ByteOrder, s: Seq<u8>) -> i64 {
    word(order, s) as u64 as i64
}

/// The four bytes of a signed number.
pub open spec fn int32_bytes(order: ByteOrder, v: i32) -> Seq<u8> {
    word_bytes(order, v as u32 as nat, 4)
}

/// The eight bytes of a signed number.
pub open spec fn int64_bytes(order: ByteOrder, v: i64) -> Seq<u8> {
    word_bytes(order, v as u64 as nat, 8)
}

/// `i32::from_ne_bytes`: reads four bytes in the order of this machine, which is one of the two.
#[verifier::external_body]
fn native_i32(bytes: [u8; 4]) -> (r: i32)
    ensures
        r == int32(ByteOrder::Little, bytes@) || r == int32(ByteOrder::Big, bytes@),
{
    i32::from_ne_bytes(bytes)
}

/// The byte order of this machine, as [`order_of`] finds it from a read of [`probe_bytes`]. Which
/// of the two it is depends on the machine alone, so that nothing is said of it here.
pub(crate) fn native_order() -> (r: ByteOrder) {
    order_of(native_i32(probe()))
}

/// Four bytes that read as different numbers in the two orders.
pub open spec fn probe_bytes() -> Seq<u8> {
    seq![1, 0, 0, 0]
}

/// The bytes whose read tells the byte order.
fn probe() -> (r: [u8; 4])
    ensures
        r@ == probe_bytes(),
{
    let r: [u8; 4] = [1, 0, 0, 0];
    assert(r@ =~= probe_bytes());
    r
}

/// The byte order of a machine on which [`probe_bytes`] read as `probe`.
pub fn order_of(probe: i32) -> (r: ByteOrder)
    ensures
        r is Little <==> probe == 1,
        forall|order: ByteOrder| probe == #[trigger] int32(order, probe_bytes()) ==> r == order,
{
    proof {
        lemma_probe();
    }
    if probe == 1 {
        ByteOrder::Little
    } else {
        ByteOrder::Big
    }
}

proof fn lemma_probe()
    ensures
        int32(ByteOrder::Little, probe_bytes()) == 1,
        int32(ByteOrder::Big, probe_bytes()) == 0x0100_0000,
{
    reveal_with_fuel(be_value, 5);
    let s = probe_bytes();
    assert(s.reverse() =~= seq![0u8, 0, 0, 1]);
    assert(seq![0u8, 0, 0, 1].drop_last() =~= seq![0u8, 0, 0]);
    assert(seq![0u8, 0, 0].drop_last() =~= seq![0u8, 0]);
    assert(seq![0u8, 0].drop_last() =~= seq![0u8]);
    assert(s.drop_last() =~= seq![1u8, 0, 0]);
    assert(seq![1u8, 0, 0].drop_last() =~= seq![1u8, 0]);
    assert(seq![1u8, 0].drop_last() =~= seq![1u8]);
}

/// Reads the `n` bytes from `from` on.
fn read_word(order: ByteOrder, s: &[u8], from: usize, n: usize) -> (v: u64)
    requires
        n <= 8,
        from + n <= s.len(),
    ensures
        v == word(order, s@.subrange(from as int, from + n)),
        v < pow256(n as nat),
{
    let ghost bytes = s@.subrange(from as int, from + n);
    let ghost high_first = match order {
        ByteOrder::Little => bytes.reverse(),
        ByteOrder::Big => bytes,
    };
    let mut v: u64 = 0;
    let mut i: usize = 0;
    while i < n
        invariant
            i <= n <= 8,
            from + n <= s.len(),
            bytes == s@.subrange(from as int, from + n),
            high_first == (match order {
                ByteOrder::Little => bytes.reverse(),
                ByteOrder::Big => bytes,
            }),
            v == be_value(high_first.take(i as int)),
        decreases n - i,
    {
        proof {
            let t = high_first.take(i + 1);
            assert(t.drop_last() =~= high_first.take(i as int));
            lemma_be_value_bound(t);
            reveal_with_fuel(pow256, 9);
        }
        let byte: u8 = match order {
            ByteOrder::Little => s[from + (n - 1 - i)],
            ByteOrder::Big => s[from + i],
        };
        assert(byte == high_first[i as int]);
        v = v * 256 + byte as u64;
        i = i + 1;
    }
    proof {
        assert(high_first.take(n as int) =~= high_first);
        lemma_be_value_bound(high_first);
    }
    v
}

/// Reads the four bytes from `from` on.
pub fn read_i32(order: ByteOrder, s: &[u8], from: usize) -> (v: i32)
    requires
        from + 4 <= s.len(),
    ensures
        v == int32(order, s@.subrange(from as int, from + 4)),
{
    let w: u64 = read_word(order, s, from, 4);
    proof {
        reveal_with_fuel(pow256, 5);
    }
    w as u32 as i32
}

/// Reads the eight bytes from `from` on.
pub fn read_i64(order: ByteOrder, s: &[u8], from: usize) -> (v: i64)
    requires
        from + 8 <= s.len(),
    ensures
        v == int64(order, s@.subrange(from as int, from + 8)),
{
    let w: u64 = read_word(order, s, from, 8);
    w as i64
}

proof fn lemma_word_round_trip(order: ByteOrder, v: nat, n: nat)
    requires
        v < pow256(n),
    ensures
        word_bytes(order, v, n).len() == n,
        word(order, word_bytes(order, v, n)) == v,
{
    lemma_be_digits_len(v, n);
    lemma_be_value_of_digits(v, n);
    assert(be_digits(v, n).reverse().reverse() =~= be_digits(v, n));
}

/// Reading gives back the number that was written.
pub proof fn lemma_int32_round_trip(order: ByteOrder, v: i32)
    ensures
        int32_bytes(order, v).len() == 4,
        int32(order, int32_bytes(order, v)) == v,
{
    reveal_with_fuel(pow256, 5);
    lemma_word_round_trip(order, v as u32 as nat, 4);
    assert(v as u32 as i32 == v) by (bit_vector);
}

/// Reading gives back the number that was written.
pub proof fn lemma_int64_round_trip(order: ByteOrder, v: i64)
    ensures
        int64_bytes(order, v).len() == 8,
        int64(order, int64_bytes(order, v)) == v,
{
    reveal_with_fuel(pow256, 9);
    lemma_word_round_trip(order, v as u64 as nat, 8);
    assert(v as u64 as i64 == v) by (bit_vector);
}

} // verus!
