//! Byte strings: their order as keys, and big-endian numbers inside them.
use vstd::prelude::*;

verus! {

/// `a` comes before `b` in the order in which the store sorts its keys: byte by byte, a proper
/// prefix first.
#[verifier::opaque]
pub open spec fn bytes_less(a: Seq<u8>, b: Seq<u8>) -> bool
    decreases a.len(),
{
    if b.len() == 0 {
        false
    } else if a.len() == 0 {
        true
    } else if a[0] != b[0] {
        a[0] < b[0]
    } else {
        bytes_less(a.skip(1), b.skip(1))
    }
}

/// `a` does not come after `b`.
pub open spec fn bytes_at_most(a: Seq<u8>, b: Seq<u8>) -> bool {
    !bytes_less(b, a)
}

/// `s` begins with `p`.
pub open spec fn begins_with(s: Seq<u8>, p: Seq<u8>) -> bool {
    p.len() <= s.len() && s.take(p.len() as int) == p
}

/// The number that `s` writes in base 256, high byte first.
pub open spec fn be_value(s: Seq<u8>) -> nat
    decreases s.len(),
{
    if s.len() == 0 {
        0
    } else {
        be_value(s.drop_last()) * 256 + s.last() as nat
    }
}

/// The low `n` base-256 digits of `v`, high byte first.
pub open spec fn be_digits(v: nat, n: nat) -> Seq<u8>
    decreases n,
{
    if n == 0 {
        seq![]
    } else {
        be_digits(v / 256, (n - 1) as nat).push((v % 256) as u8)
    }
}

/// The eight bytes of `v`, high byte first.
pub open spec fn be_bytes(v: u64) -> Seq<u8> {
    be_digits(v as nat, 8)
}

fn push_be_digits(out: &mut Vec<u8>, v: u64, n: usize)
    ensures
        final(out)@ == old(out)@ + be_digits(v as nat, n as nat),
    decreases n,
{
    if n > 0 {
        push_be_digits(out, v / 256, n - 1);
        out.push((v % 256) as u8);
    }
    assert(out@ =~= old(out)@ + be_digits(v as nat, n as nat));
}

/// Appends the eight bytes of `v`, high byte first.
pub fn push_be(out: &mut Vec<u8>, v: u64)
    ensures
        final(out)@ == old(out)@ + be_bytes(v),
{
    push_be_digits(out, v, 8);
}

/// 256 to the power of `k`.
pub open spec fn pow256(k: nat) -> nat
    decreases k,
{
    if k == 0 {
        1
    } else {
        256 * pow256((k - 1) as nat)
    }
}

/// A number is less than what its bytes can hold.
pub proof fn lemma_be_value_bound(s: Seq<u8>)
    ensures
        be_value(s) < pow256(s.len()),
    decreases s.len(),
{
    if s.len() > 0 {
        lemma_be_value_bound(s.drop_last());
    }
}

/// Reads the eight bytes from `from` on as a number, high byte first.
pub fn read_be(s: &[u8], from: usize) -> (v: u64)
    requires
        from + 8 <= s.len(),
    ensures
        v == be_value(s@.subrange(from as int, from + 8)),
{
    let mut v: u64 = 0;
    let mut i: usize = 0;
    while i < 8
        invariant
            i <= 8,
            from + 8 <= s.len(),
            v == be_value(s@.subrange(from as int, from + i)),
        decreases 8 - i,
    {
        proof {
            let t = s@.subrange(from as int, from + i + 1);
            assert(t.drop_last() =~= s@.subrange(from as int, from + i));
            lemma_be_value_bound(t);
            reveal_with_fuel(pow256, 9);
        }
        v = v * 256 + s[from + i] as u64;
        i = i + 1;
    }
    v
}

/// A number is written with as many bytes as were asked for.
pub proof fn lemma_be_digits_len(v: nat, n: nat)
    ensures
        be_digits(v, n).len() == n,
    decreases n,
{
    if n > 0 {
        lemma_be_digits_len(v / 256, (n - 1) as nat);
    }
}

/// Reading as many bytes as a number takes gives the number back.
pub proof fn lemma_be_value_of_digits(v: nat, n: nat)
    requires
        v < pow256(n),
    ensures
        be_value(be_digits(v, n)) == v,
    decreases n,
{
    if n > 0 {
        lemma_be_value_of_digits(v / 256, (n - 1) as nat);
        assert(be_digits(v, n).drop_last() =~= be_digits(v / 256, (n - 1) as nat));
    }
}

/// Eight bytes hold every `u64`, and reading them gives the number back.
pub proof fn lemma_be_bytes(v: u64)
    ensures
        be_bytes(v).len() == 8,
        be_value(be_bytes(v)) == v,
{
    reveal_with_fuel(pow256, 9);
    lemma_be_digits_len(v as nat, 8);
    lemma_be_value_of_digits(v as nat, 8);
}

/// No byte string comes before itself.
pub proof fn lemma_less_irreflexive(a: Seq<u8>)
    ensures
        !bytes_less(a, a),
    decreases a.len(),
{
    reveal(bytes_less);
    if a.len() > 0 {
        lemma_less_irreflexive(a.skip(1));
    }
}

/// The order is transitive.
pub proof fn lemma_less_transitive(a: Seq<u8>, b: Seq<u8>, c: Seq<u8>)
    requires
        bytes_less(a, b),
        bytes_less(b, c),
    ensures
        bytes_less(a, c),
    decreases a.len(),
{
    reveal(bytes_less);
    if a.len() > 0 && a[0] == b[0] && b[0] == c[0] {
        lemma_less_transitive(a.skip(1), b.skip(1), c.skip(1));
    }
}

/// Two byte strings of which neither comes before the other are the same.
pub proof fn lemma_less_total(a: Seq<u8>, b: Seq<u8>)
    ensures
        bytes_less(a, b) || bytes_less(b, a) || a == b,
    decreases a.len(),
{
    reveal(bytes_less);
    if a.len() > 0 && b.len() > 0 {
        if a[0] == b[0] {
            lemma_less_total(a.skip(1), b.skip(1));
            if a.skip(1) == b.skip(1) {
                assert(a =~= seq![a[0]] + a.skip(1));
                assert(b =~= seq![b[0]] + b.skip(1));
            }
        }
    } else if a.len() == 0 && b.len() == 0 {
        assert(a =~= b);
    }
}

/// Of two different byte strings only one comes before the other.
pub proof fn lemma_less_asymmetric(a: Seq<u8>, b: Seq<u8>)
    requires
        bytes_less(a, b),
    ensures
        !bytes_less(b, a),
{
    if bytes_less(b, a) {
        lemma_less_transitive(a, b, a);
        lemma_less_irreflexive(a);
    }
}

/// The order of keys is transitive.
pub proof fn lemma_at_most_transitive(a: Seq<u8>, b: Seq<u8>, c: Seq<u8>)
    requires
        bytes_at_most(a, b),
        bytes_at_most(b, c),
    ensures
        bytes_at_most(a, c),
{
    if bytes_less(c, a) {
        lemma_less_total(b, c);
        if bytes_less(b, c) {
            lemma_less_transitive(b, c, a);
        }
    }
}

/// A common front does not matter for the order.
pub proof fn lemma_less_common_front(p: Seq<u8>, a: Seq<u8>, b: Seq<u8>)
    ensures
        bytes_less(p + a, p + b) == bytes_less(a, b),
    decreases p.len(),
{
    reveal(bytes_less);
    if p.len() > 0 {
        lemma_less_common_front(p.skip(1), a, b);
        assert((p + a).skip(1) =~= p.skip(1) + a);
        assert((p + b).skip(1) =~= p.skip(1) + b);
    } else {
        assert(p + a =~= a);
        assert(p + b =~= b);
    }
}

/// What lies between two byte strings with a common front has that front too.
pub proof fn lemma_between_has_front(p: Seq<u8>, a: Seq<u8>, k: Seq<u8>, b: Seq<u8>)
    requires
        bytes_at_most(p + a, k),
        bytes_at_most(k, p + b),
    ensures
        begins_with(k, p),
    decreases p.len(),
{
    reveal(bytes_less);
    if p.len() == 0 {
        assert(k.take(0) =~= p);
    } else {
        assert((p + a).skip(1) =~= p.skip(1) + a);
        assert((p + b).skip(1) =~= p.skip(1) + b);
        lemma_between_has_front(p.skip(1), a, k.skip(1), b);
        let n = p.len() as int;
        assert(k.take(n) =~= p) by {
            assert forall|i: int| 0 <= i < n implies k[i] == p[i] by {
                if i > 0 {
                    assert(k.skip(1).take(n - 1)[i - 1] == p.skip(1)[i - 1]);
                }
            }
        }
    }
}

proof fn lemma_be_value_front(s: Seq<u8>)
    requires
        s.len() > 0,
    ensures
        be_value(s) == s[0] as nat * pow256((s.len() - 1) as nat) + be_value(s.skip(1)),
    decreases s.len(),
{
    if s.len() == 1 {
        assert(s.drop_last() =~= seq![]);
        assert(s.skip(1) =~= seq![]);
        assert(be_value(s.skip(1)) == 0);
        assert(be_value(s.drop_last()) == 0);
        assert(s[0] as nat * 1 == s[0]);
        assert(pow256(0) == 1);
    } else {
        lemma_be_value_front(s.drop_last());
        assert(s.skip(1).drop_last() =~= s.drop_last().skip(1));
        let (x, w) = (s[0] as nat, pow256((s.len() - 2) as nat));
        let inner = be_value(s.drop_last().skip(1));
        assert((x * w + inner) * 256 == x * (256 * w) + inner * 256) by (nonlinear_arith);
        assert(s.skip(1).last() == s.last());
    }
}

/// Byte strings of one length are ordered as the numbers that they write.
pub proof fn lemma_order_is_value_order(a: Seq<u8>, b: Seq<u8>)
    requires
        a.len() == b.len(),
    ensures
        bytes_less(a, b) == (be_value(a) < be_value(b)),
    decreases a.len(),
{
    reveal(bytes_less);
    if a.len() > 0 {
        lemma_be_value_front(a);
        lemma_be_value_front(b);
        lemma_be_value_bound(a.skip(1));
        lemma_be_value_bound(b.skip(1));
        lemma_order_is_value_order(a.skip(1), b.skip(1));
        let w = pow256((a.len() - 1) as nat);
        let (x, y) = (a[0] as nat, b[0] as nat);
        if x < y {
            assert(x * w + w <= y * w) by (nonlinear_arith)
                requires
                    x + 1 <= y,
            ;
        } else if y < x {
            assert(y * w + w <= x * w) by (nonlinear_arith)
                requires
                    y + 1 <= x,
            ;
        }
    }
}

/// Keys that differ only in the document number at their end are ordered by that number.
pub proof fn lemma_numbered_keys_order(p: Seq<u8>, a: u64, b: u64)
    ensures
        bytes_less(p + be_bytes(a), p + be_bytes(b)) == (a < b),
{
    lemma_less_common_front(p, be_bytes(a), be_bytes(b));
    lemma_be_bytes(a);
    lemma_be_bytes(b);
    lemma_order_is_value_order(be_bytes(a), be_bytes(b));
}

/// Compares two byte strings in key order.
pub fn is_less(a: &[u8], b: &[u8]) -> (r: bool)
    ensures
        r == bytes_less(a@, b@),
{
    proof {
        reveal(bytes_less);
    }
    let mut i: usize = 0;
    assert(a@.skip(0) =~= a@);
    assert(b@.skip(0) =~= b@);
    while i < a.len() && i < b.len()
        invariant
            i <= a@.len(),
            i <= b@.len(),
            bytes_less(a@, b@) == bytes_less(a@.skip(i as int), b@.skip(i as int)),
        decreases a@.len() - i,
    {
        proof {
            reveal(bytes_less);
        }
        if a[i] != b[i] {
            return a[i] < b[i];
        }
        assert(a@.skip(i as int).skip(1) =~= a@.skip(i + 1));
        assert(b@.skip(i as int).skip(1) =~= b@.skip(i + 1));
        i = i + 1;
    }
    i < b.len()
}

} // verus!
