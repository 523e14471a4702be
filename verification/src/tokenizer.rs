//! Texts cut into the tokens that are indexed.
use crate::field::SEPARATOR;
use tantivy::tokenizer::{SimpleTokenizer, TokenStream, Tokenizer};
use vstd::prelude::*;
use vstd::slice::slice_to_vec;
use vstd::utf8::{char_u32_cast, encode_scalar, encode_utf8};

verus! {

/// What `char::is_alphanumeric` says of a character.
pub uninterp spec fn alphanumeric(c: char) -> bool;

/// The longest runs of alphanumeric characters, in the order of the text: such a character goes on
/// with the run of the one before it, or else begins a run.
pub open spec fn runs(text: Seq<char>) -> Seq<Seq<char>>
    decreases text.len(),
{
    if text.len() == 0 {
        seq![]
    } else {
        let front = runs(text.drop_last());
        if !alphanumeric(text.last()) {
            front
        } else if text.len() >= 2 && alphanumeric(text[text.len() - 2]) {
            front.drop_last().push(front.last().push(text.last()))
        } else {
            front.push(seq![text.last()])
        }
    }
}

/// `spans` tells where the runs `rs` stand in a text: each is longest, they stand in order, and no
/// alphanumeric character is left out.
spec fn stand_at(text: Seq<char>, rs: Seq<Seq<char>>, spans: Seq<(int, int)>) -> bool {
    &&& spans.len() == rs.len()
    &&& forall|i: int| 0 <= i < spans.len() ==> is_longest(text, rs[i], #[trigger] spans[i])
    &&& forall|i: int, j: int|
        0 <= i < j < spans.len() ==> (#[trigger] spans[i]).1 < (#[trigger] spans[j]).0
    &&& forall|c: int|
        0 <= c < text.len() && alphanumeric(#[trigger] text[c]) ==> lies_in(spans, c)
}

spec fn is_longest(text: Seq<char>, run: Seq<char>, span: (int, int)) -> bool {
    &&& 0 <= span.0 < span.1 <= text.len()
    &&& run == text.subrange(span.0, span.1)
    &&& span.0 > 0 ==> !alphanumeric(text[span.0 - 1])
    &&& span.1 < text.len() ==> !alphanumeric(text[span.1])
    &&& forall|c: int| span.0 <= c < span.1 ==> alphanumeric(#[trigger] text[c])
}

spec fn lies_in(spans: Seq<(int, int)>, c: int) -> bool {
    exists|i: int| 0 <= i < spans.len() && (#[trigger] spans[i]).0 <= c < spans[i].1
}

/// A longest run stays so in a longer text that does not go on with it.
proof fn lemma_stays_longest(text: Seq<char>, run: Seq<char>, span: (int, int))
    requires
        text.len() > 0,
        is_longest(text.drop_last(), run, span),
        span.1 == text.len() - 1 ==> !alphanumeric(text.last()),
    ensures
        is_longest(text, run, span),
{
    let front = text.drop_last();
    assert(front.subrange(span.0, span.1) =~= text.subrange(span.0, span.1));
    assert forall|c: int| span.0 <= c < span.1 implies alphanumeric(#[trigger] text[c]) by {
        assert(front[c] == text[c]);
    }
    if span.0 > 0 {
        assert(front[span.0 - 1] == text[span.0 - 1]);
    }
    if span.1 < front.len() {
        assert(front[span.1] == text[span.1]);
    }
}

/// A character that is not alphanumeric leaves the runs as they are.
proof fn lemma_runs_stay(text: Seq<char>, rs: Seq<Seq<char>>, spans: Seq<(int, int)>)
    requires
        text.len() > 0,
        stand_at(text.drop_last(), rs, spans),
        !alphanumeric(text.last()),
    ensures
        stand_at(text, rs, spans),
{
    assert forall|i: int| 0 <= i < spans.len() implies is_longest(
        text,
        rs[i],
        #[trigger] spans[i],
    ) by {
        lemma_stays_longest(text, rs[i], spans[i]);
    }
    assert forall|c: int| 0 <= c < text.len() && alphanumeric(#[trigger] text[c]) implies lies_in(
        spans,
        c,
    ) by {
        assert(text.drop_last()[c] == text[c]);
    }
}

/// An alphanumeric character behind one that is not begins a run.
proof fn lemma_runs_begin(text: Seq<char>, rs: Seq<Seq<char>>, spans: Seq<(int, int)>)
    requires
        text.len() > 0,
        stand_at(text.drop_last(), rs, spans),
        alphanumeric(text.last()),
        text.len() >= 2 ==> !alphanumeric(text[text.len() - 2]),
    ensures
        stand_at(
            text,
            rs.push(seq![text.last()]),
            spans.push((text.len() - 1, text.len() as int)),
        ),
{
    let front = text.drop_last();
    let n = text.len() - 1;
    let more = rs.push(seq![text.last()]);
    let all = spans.push((n, n + 1));
    assert forall|i: int| 0 <= i < spans.len() implies (#[trigger] spans[i]).1 < n by {
        assert(is_longest(front, rs[i], spans[i]));
        if spans[i].1 == n {
            assert(alphanumeric(front[n - 1]));
        }
    }
    assert forall|i: int| 0 <= i < all.len() implies is_longest(text, more[i], #[trigger] all[i]) by {
        if i < spans.len() {
            assert(all[i] == spans[i]);
            lemma_stays_longest(text, rs[i], spans[i]);
        } else {
            assert(text.subrange(n, n + 1) =~= seq![text.last()]);
        }
    }
    assert forall|c: int| 0 <= c < text.len() && alphanumeric(#[trigger] text[c]) implies lies_in(
        all,
        c,
    ) by {
        if c < n {
            assert(front[c] == text[c]);
            let i = choose|i: int|
                0 <= i < spans.len() && (#[trigger] spans[i]).0 <= c < spans[i].1;
            assert(all[i] == spans[i]);
        } else {
            assert(all[spans.len() as int] == (n, n + 1));
        }
    }
}

/// An alphanumeric character behind another goes on with its run.
proof fn lemma_runs_go_on(text: Seq<char>, rs: Seq<Seq<char>>, spans: Seq<(int, int)>)
    requires
        text.len() >= 2,
        stand_at(text.drop_last(), rs, spans),
        alphanumeric(text.last()),
        alphanumeric(text[text.len() - 2]),
    ensures
        spans.len() > 0,
        stand_at(
            text,
            rs.drop_last().push(rs.last().push(text.last())),
            spans.drop_last().push((spans.last().0, text.len() as int)),
        ),
{
    let front = text.drop_last();
    let n = text.len() - 1;
    let m = spans.len() - 1;
    assert(front[n - 1] == text[n - 1]);
    assert(lies_in(spans, n - 1));
    let k = choose|k: int| 0 <= k < spans.len() && (#[trigger] spans[k]).0 <= n - 1 < spans[k].1;
    assert(is_longest(front, rs[k], spans[k]));
    assert(is_longest(front, rs[m], spans[m]));
    assert(k == m) by {
        if k < m {
            assert(spans[k].1 < spans[m].0);
        }
    }
    assert(spans[m].1 == n);
    let more = rs.drop_last().push(rs.last().push(text.last()));
    let all = spans.drop_last().push((spans[m].0, n + 1));
    assert forall|i: int| 0 <= i < all.len() implies is_longest(text, more[i], #[trigger] all[i]) by {
        if i < m {
            assert(all[i] == spans[i]);
            assert(spans[i].1 < spans[m].0);
            lemma_stays_longest(text, rs[i], spans[i]);
        } else {
            let from = spans[m].0;
            assert(text.subrange(from, n + 1) =~= front.subrange(from, n).push(text.last()));
            if from > 0 {
                assert(front[from - 1] == text[from - 1]);
            }
            assert forall|c: int| from <= c < n + 1 implies alphanumeric(#[trigger] text[c]) by {
                if c < n {
                    assert(front[c] == text[c]);
                }
            }
        }
    }
    assert forall|i: int, j: int| 0 <= i < j < all.len() implies (#[trigger] all[i]).1 < (
    #[trigger] all[j]).0 by {
        assert(all[i] == spans[i]);
        assert(spans[i].1 < spans[j].0);
    }
    assert forall|c: int| 0 <= c < text.len() && alphanumeric(#[trigger] text[c]) implies lies_in(
        all,
        c,
    ) by {
        if c < n {
            assert(front[c] == text[c]);
            let i = choose|i: int|
                0 <= i < spans.len() && (#[trigger] spans[i]).0 <= c < spans[i].1;
            assert(all[i].0 <= c < all[i].1);
        } else {
            assert(all[m] == (spans[m].0, n + 1));
        }
    }
}

proof fn lemma_runs_stand(text: Seq<char>) -> (spans: Seq<(int, int)>)
    ensures
        stand_at(text, runs(text), spans),
    decreases text.len(),
{
    if text.len() == 0 {
        Seq::empty()
    } else {
        let front = text.drop_last();
        let before = lemma_runs_stand(front);
        if !alphanumeric(text.last()) {
            lemma_runs_stay(text, runs(front), before);
            before
        } else if text.len() >= 2 && alphanumeric(text[text.len() - 2]) {
            lemma_runs_go_on(text, runs(front), before);
            before.drop_last().push((before.last().0, text.len() as int))
        } else {
            lemma_runs_begin(text, runs(front), before);
            before.push((text.len() - 1, text.len() as int))
        }
    }
}

/// The runs of a text are whole: `spans` tells where each stands. Its characters are all
/// alphanumeric, there is none directly before it and none directly behind it, the spans stand in
/// order, and every alphanumeric character of the text lies in one of them.
pub proof fn law_runs_are_whole(text: Seq<char>) -> (spans: Seq<(int, int)>)
    ensures
        spans.len() == runs(text).len(),
        forall|i: int|
            0 <= i < spans.len() ==> {
                let (from, to) = #[trigger] spans[i];
                &&& 0 <= from < to <= text.len()
                &&& runs(text)[i] == text.subrange(from, to)
                &&& from > 0 ==> !alphanumeric(text[from - 1])
                &&& to < text.len() ==> !alphanumeric(text[to])
            },
        forall|i: int, c: int|
            0 <= i < spans.len() && (#[trigger] spans[i]).0 <= c < spans[i].1 ==> alphanumeric(
                #[trigger] text[c],
            ),
        forall|i: int, j: int| 0 <= i < j < spans.len() ==> (#[trigger] spans[i]).1 < (
        #[trigger] spans[j]).0,
        forall|c: int|
            0 <= c < text.len() && alphanumeric(#[trigger] text[c]) ==> exists|i: int|
                0 <= i < spans.len() && (#[trigger] spans[i]).0 <= c < spans[i].1,
{
    let spans = lemma_runs_stand(text);
    assert forall|i: int| 0 <= i < spans.len() implies {
        let (from, to) = #[trigger] spans[i];
        &&& 0 <= from < to <= text.len()
        &&& runs(text)[i] == text.subrange(from, to)
        &&& from > 0 ==> !alphanumeric(text[from - 1])
        &&& to < text.len() ==> !alphanumeric(text[to])
    } by {
        assert(is_longest(text, runs(text)[i], spans[i]));
    }
    assert forall|i: int, c: int|
        0 <= i < spans.len() && (#[trigger] spans[i]).0 <= c < spans[i].1 implies alphanumeric(
        #[trigger] text[c],
    ) by {
        assert(is_longest(text, runs(text)[i], spans[i]));
    }
    assert forall|c: int| 0 <= c < text.len() && alphanumeric(#[trigger] text[c]) implies exists|
        i: int,
    |
        0 <= i < spans.len() && (#[trigger] spans[i]).0 <= c < spans[i].1 by {
        assert(lies_in(spans, c));
    }
    spans
}

/// There are no more runs than characters, and one at the end of a text that ends in one.
pub proof fn lemma_runs_len(text: Seq<char>)
    ensures
        runs(text).len() <= text.len(),
        text.len() > 0 && alphanumeric(text.last()) ==> runs(text).len() > 0,
    decreases text.len(),
{
    if text.len() > 0 {
        lemma_runs_len(text.drop_last());
    }
}

/// tantivy's `SimpleTokenizer`: its token stream over a text gives the longest runs of characters
/// that `char::is_alphanumeric` accepts, numbered from zero. A colon is not among them.
#[verifier::external_body]
fn simple_tokens(text: &str) -> (r: Vec<(usize, String)>)
    ensures
        r@.len() == runs(text@).len(),
        forall|i: int|
            0 <= i < r@.len() ==> (#[trigger] r@[i]).0 == i && r@[i].1@ == runs(text@)[i],
        forall|i: int, j: int|
            0 <= i < r@.len() && 0 <= j < r@[i].1@.len() ==> alphanumeric(#[trigger] r@[i].1@[j])
                && r@[i].1@[j] != ':',
{
    let mut tokenizer = SimpleTokenizer::default();
    let mut tokens = Vec::new();
    tokenizer.token_stream(text).process(
        &mut |token| tokens.push((token.position, token.text.clone())),
    );
    tokens
}

/// Tokens with their positions as the index records them: the text as bytes, and the low 32 bits
/// of the position.
pub fn number_tokens(tokens: Vec<(usize, String)>) -> (r: Vec<(u32, Vec<u8>)>)
    ensures
        r@.len() == tokens@.len(),
        forall|i: int|
            0 <= i < r@.len() ==> (#[trigger] r@[i]).0 == tokens@[i].0 as u32 && r@[i].1@
                == encode_utf8(tokens@[i].1@),
{
    let mut r: Vec<(u32, Vec<u8>)> = Vec::new();
    let mut i: usize = 0;
    while i < tokens.len()
        invariant
            i <= tokens@.len(),
            r@.len() == i,
            forall|j: int|
                0 <= j < i ==> (#[trigger] r@[j]).0 == tokens@[j].0 as u32 && r@[j].1@
                    == encode_utf8(tokens@[j].1@),
        decreases tokens@.len() - i,
    {
        #[verifier::truncate]
        let position: u32 = tokens[i].0 as u32;
        let bytes: Vec<u8> = slice_to_vec(tokens[i].1.as_str().as_bytes());
        r.push((position, bytes));
        i = i + 1;
    }
    r
}

/// A character other than a colon has no byte in UTF-8 that is one.
proof fn lemma_no_separator_in_scalar(c: u32)
    requires
        c != 58,
    ensures
        !encode_scalar(c).contains(SEPARATOR),
{
    assert(c <= 0x7F && c != 58 ==> (c & 0x7F) as u8 != 58) by (bit_vector);
    assert(0xC0 | ((c >> 6) & 0x1F) as u8 != 58) by (bit_vector);
    assert(0xE0 | ((c >> 12) & 0x0F) as u8 != 58) by (bit_vector);
    assert(0xF0 | ((c >> 18) & 0x7) as u8 != 58) by (bit_vector);
    assert(0x80 | (c & 0x3F) as u8 != 58) by (bit_vector);
    assert(0x80 | ((c >> 6) & 0x3F) as u8 != 58) by (bit_vector);
    assert(0x80 | ((c >> 12) & 0x3F) as u8 != 58) by (bit_vector);
}

/// A text without a colon has no such byte in UTF-8.
pub proof fn lemma_no_separator(text: Seq<char>)
    requires
        !text.contains(':'),
    ensures
        !encode_utf8(text).contains(SEPARATOR),
    decreases text.len(),
{
    if text.len() > 0 {
        let rest = text.drop_first();
        assert(!rest.contains(':')) by {
            assert forall|i: int| 0 <= i < rest.len() implies rest[i] != ':' by {
                assert(rest[i] == text[i + 1]);
            }
        }
        assert(text[0] != ':');
        char_u32_cast(text[0], text[0] as u32);
        assert(text[0] as u32 != 58);
        lemma_no_separator_in_scalar(text[0] as u32);
        lemma_no_separator(rest);
        assert forall|i: int| 0 <= i < encode_utf8(text).len() implies encode_utf8(text)[i]
            != SEPARATOR by {
            let first = encode_scalar(text[0] as u32);
            if i < first.len() {
                assert(encode_utf8(text)[i] == first[i]);
            } else {
                assert(encode_utf8(text)[i] == encode_utf8(rest)[i - first.len()]);
            }
        }
    }
}

/// The tokens of a text with their positions. None of them contains the byte that separates the
/// parts of a key.
pub fn tokenize(text: &str) -> (r: Vec<(u32, Vec<u8>)>)
    ensures
        r@.len() == runs(text@).len(),
        forall|i: int|
            0 <= i < r@.len() ==> (#[trigger] r@[i]).0 == i as usize as u32 && r@[i].1@
                == encode_utf8(runs(text@)[i]),
        forall|i: int| 0 <= i < r@.len() ==> !(#[trigger] r@[i]).1@.contains(SEPARATOR),
{
    let tokens = simple_tokens(text);
    let r = number_tokens(tokens);
    proof {
        assert forall|i: int| 0 <= i < r@.len() implies !(#[trigger] r@[i]).1@.contains(
            SEPARATOR,
        ) by {
            lemma_no_separator(tokens@[i].1@);
        }
    }
    r
}

} // verus!
