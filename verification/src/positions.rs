//! The positions of a token within one document.
use crate::varint::{
    leb128_all, leb128_read, lemma_leb128_all_front, lemma_leb128_all_push,
    lemma_leb128_read_shorter, lemma_leb128_round_trip, read_unsigned, write_unsigned,
};
use vstd::prelude::*;

verus! {

/// Type for in-document position identifiers.
pub type PosId = u32;

/// No position comes before an earlier one.
pub open spec fn positions_ascend(positions: Seq<u32>) -> bool {
    forall|i: int, j: int| 0 <= i <= j < positions.len() ==> positions[i] <= positions[j]
}

/// The steps from `prev` to the first position and from each position to the next.
pub open spec fn position_steps(prev: u32, positions: Seq<u32>) -> Seq<u64> {
    Seq::new(
        positions.len(),
        |i: int|
            (positions[i] - (if i == 0 {
                prev
            } else {
                positions[i - 1]
            })) as u64,
    )
}

/// The positions that the numbers at the front of `s` lead to from `prev`, up to the first byte
/// at which no number begins. `None` if a position would not fit in 32 bits.
pub open spec fn positions_from(prev: u32, s: Seq<u8>) -> Option<Seq<u32>>
    decreases s.len(),
{
    proof {
        lemma_leb128_read_shorter(s);
    }
    match leb128_read(s) {
        Some((step, rest)) => if prev + (step as u32) > u32::MAX {
            None
        } else {
            let pos = (prev + (step as u32)) as u32;
            match positions_from(pos, rest) {
                Some(more) => Some(seq![pos] + more),
                None => None,
            }
        },
        None => Some(seq![]),
    }
}

/// Encode a single document's sorted position list as delta-compressed LEB128.
pub fn encode_positions(positions: &[u32]) -> (value: Vec<u8>)
    requires
        positions_ascend(positions@),
    ensures
        value@ == leb128_all(position_steps(0, positions@)),
{
    let mut value: Vec<u8> = Vec::new();
    let mut prev: u32 = 0;
    let mut i: usize = 0;
    let ghost steps = position_steps(0, positions@);
    assert(steps.take(0) =~= seq![]);
    while i < positions.len()
        invariant
            i <= positions@.len(),
            positions_ascend(positions@),
            steps == position_steps(0, positions@),
            prev == (if i == 0 { 0 } else { positions@[i - 1] }),
            value@ == leb128_all(steps.take(i as int)),
        decreases positions@.len() - i,
    {
        let pos: u32 = positions[i];
        let step: u64 = (pos - prev) as u64;
        write_unsigned(&mut value, step);
        proof {
            lemma_leb128_all_push(steps.take(i as int), step);
            assert(steps.take(i + 1) =~= steps.take(i as int).push(step));
        }
        prev = pos;
        i = i + 1;
    }
    assert(steps.take(i as int) =~= steps);
    value
}

/// Decode a single document's position list produced by `encode_positions`, and append it to
/// `out`. Returns false, with `out` as it was, if a position does not fit in 32 bits.
pub fn decode_positions(value: &[u8], out: &mut Vec<PosId>) -> (ok: bool)
    ensures
        match positions_from(0, value@) {
            Some(ps) => ok && final(out)@ == old(out)@ + ps,
            None => !ok && final(out)@ == old(out)@,
        },
{
    let had: usize = out.len();
    let mut rest: &[u8] = value;
    let mut prev: u32 = 0;
    let ghost mut done: Seq<u32> = seq![];
    assert(out@ =~= old(out)@ + done);
    proof {
        if let Some(more) = positions_from(0, value@) {
            assert(done + more =~= more);
        }
    }
    loop
        invariant
            had == old(out)@.len(),
            out@ == old(out)@ + done,
            match positions_from(prev, rest@) {
                Some(more) => positions_from(0, value@) == Some(done + more),
                None => positions_from(0, value@) is None,
            },
        decreases rest@.len(),
    {
        proof {
            lemma_leb128_read_shorter(rest@);
        }
        let (delta, after) = match read_unsigned(rest) {
            Some(p) => p,
            None => {
                assert(done + seq![] =~= done);
                return true;
            },
        };
        #[verifier::truncate]
        let step: u32 = delta as u32;
        let pos: u32 = match prev.checked_add(step) {
            Some(p) => p,
            None => {
                out.truncate(had);
                assert(out@ =~= old(out)@);
                return false;
            },
        };
        out.push(pos);
        proof {
            let more = positions_from(pos, after@);
            if more is Some {
                assert(done + (seq![pos] + more.unwrap()) =~= done.push(pos) + more.unwrap());
            }
            done = done.push(pos);
            assert(out@ =~= old(out)@ + done);
        }
        prev = pos;
        rest = after;
    }
}

proof fn lemma_positions_round_trip_from(prev: u32, positions: Seq<u32>)
    requires
        positions_ascend(positions),
        positions.len() > 0 ==> prev <= positions[0],
    ensures
        positions_from(prev, leb128_all(position_steps(prev, positions))) == Some(positions),
    decreases positions.len(),
{
    let steps = position_steps(prev, positions);
    if positions.len() == 0 {
        assert(steps =~= seq![]);
        assert(positions =~= seq![]);
    } else {
        let pos = positions[0];
        let rest = positions.skip(1);
        let step = (pos - prev) as u64;
        assert(steps =~= seq![step] + position_steps(pos, rest));
        lemma_leb128_all_front(step, position_steps(pos, rest));
        lemma_leb128_round_trip(step, leb128_all(position_steps(pos, rest)));
        lemma_positions_round_trip_from(pos, rest);
        assert(seq![pos] + rest =~= positions);
    }
}

/// Decoding gives back the ascending positions that were encoded.
pub proof fn lemma_positions_round_trip(positions: Seq<u32>)
    requires
        positions_ascend(positions),
    ensures
        positions_from(0, leb128_all(position_steps(0, positions))) == Some(positions),
{
    lemma_positions_round_trip_from(0, positions);
}

} // verus!
