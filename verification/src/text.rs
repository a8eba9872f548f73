//! Character-level helpers shared by the mesh file grammars: whitespace
//! splitting, keyword comparison, decimal integers.
use vstd::prelude::*;

verus! {

/// Characters with the Unicode `White_Space` property.
pub open spec fn is_white_space(c: char) -> bool {
    let u = c as u32;
    ||| 0x09 <= u <= 0x0d
    ||| u == 0x20
    ||| u == 0x85
    ||| u == 0xa0
    ||| u == 0x1680
    ||| 0x2000 <= u <= 0x200a
    ||| u == 0x2028
    ||| u == 0x2029
    ||| u == 0x202f
    ||| u == 0x205f
    ||| u == 0x3000
}

/// Whether `c` has the Unicode `White_Space` property, as
/// `char::is_whitespace` tells.
fn char_is_whitespace(c: char) -> (r: bool)
    ensures
        r == is_white_space(c),
{
    let u = c as u32;
    (0x09 <= u && u <= 0x0d) || u == 0x20 || u == 0x85 || u == 0xa0 || u == 0x1680 || (0x2000 <= u && u
        <= 0x200a) || u == 0x2028 || u == 0x2029 || u == 0x202f || u == 0x205f || u == 0x3000
}

/// `(start, end)` delimits a word of `text`: a maximal run of characters
/// that are not whitespace.
pub open spec fn is_word_at(text: Seq<char>, start: int, end: int) -> bool {
    &&& 0 <= start < end <= text.len()
    &&& forall|i: int| start <= i < end ==> !is_white_space(#[trigger] text[i])
    &&& (start == 0 || is_white_space(text[start - 1]))
    &&& (end == text.len() || is_white_space(text[end]))
}

/// `spans` lists, from left to right, every word of `text`.
pub open spec fn is_word_split(text: Seq<char>, spans: Seq<(usize, usize)>) -> bool {
    &&& forall|k: int| 0 <= k < spans.len() ==> is_word_at(text, #[trigger] spans[k].0 as int, spans[k].1 as int)
    &&& forall|k: int, l: int| #![trigger spans[k], spans[l]] 0 <= k < l < spans.len() ==> spans[k].1 < spans[l].0
    &&& forall|i: int|
        0 <= i < text.len() && !is_white_space(#[trigger] text[i]) ==> exists|k: int| #![trigger spans[k]]
            0 <= k < spans.len() && spans[k].0 <= i < spans[k].1
}

/// The words of `text` that `spans` delimits.
pub open spec fn words_of(text: Seq<char>, spans: Seq<(usize, usize)>) -> Seq<Seq<char>> {
    spans.map_values(|s: (usize, usize)| text.subrange(s.0 as int, s.1 as int))
}

/// Split `text` on whitespace: the start and end index of each maximal run
/// of non-whitespace characters, from left to right.
pub fn split_whitespace(text: &[char]) -> (spans: Vec<(usize, usize)>)
    ensures
        is_word_split(text@, spans@),
{
    let n = text.len();
    let mut spans: Vec<(usize, usize)> = Vec::new();
    let mut i: usize = 0;
    while i < n
        invariant
            n == text@.len(),
            i <= n,
            forall|k: int| 0 <= k < spans.len() ==> is_word_at(text@, #[trigger] spans@[k].0 as int, spans@[k].1 as int),
            forall|k: int, l: int| #![trigger spans@[k], spans@[l]] 0 <= k < l < spans.len() ==> spans@[k].1 < spans@[l].0,
            forall|k: int| 0 <= k < spans.len() ==> #[trigger] spans@[k].1 <= i,
            i == 0 || i == n || is_white_space(text@[i - 1]) || (spans.len() > 0 && spans@[spans.len() - 1].1 == i),
            i < n && spans.len() > 0 ==> spans@[spans.len() - 1].1 < i || is_white_space(text@[i as int]),
            forall|j: int|
                0 <= j < i && !is_white_space(#[trigger] text@[j]) ==> exists|k: int| #![trigger spans@[k]]
                    0 <= k < spans.len() && spans@[k].0 <= j < spans@[k].1,
        decreases n - i,
    {
        if char_is_whitespace(text[i]) {
            i = i + 1;
        } else {
            let start = i;
            assert(start == 0 || is_white_space(text@[start - 1]));
            while i < n && !char_is_whitespace(text[i])
                invariant
                    n == text@.len(),
                    start <= i <= n,
                    start < n,
                    !is_white_space(text@[start as int]),
                    forall|j: int| start <= j < i ==> !is_white_space(#[trigger] text@[j]),
                decreases n - i,
            {
                i = i + 1;
            }
            assert(is_word_at(text@, start as int, i as int));
            let ghost prev = spans@;
            spans.push((start, i));
            assert forall|j: int|
                0 <= j < i && !is_white_space(#[trigger] text@[j]) implies exists|k: int| #![trigger spans@[k]]
                    0 <= k < spans.len() && spans@[k].0 <= j < spans@[k].1 by {
                if j >= start {
                    assert(spans@[spans.len() - 1] == (start, i));
                } else {
                    let k = choose|k: int| #![trigger prev[k]] 0 <= k < prev.len() && prev[k].0 <= j < prev[k].1;
                    assert(spans@[k] == prev[k]);
                }
            }
        }
    }
    spans
}

/// Whether the word that `span` delimits in `text` is `kw`.
pub fn word_is(text: &[char], span: (usize, usize), kw: &[char]) -> (r: bool)
    requires
        span.0 <= span.1 <= text@.len(),
    ensures
        r == (text@.subrange(span.0 as int, span.1 as int) == kw@),
{
    let (start, end) = span;
    if end - start != kw.len() {
        assert(text@.subrange(start as int, end as int).len() != kw@.len());
        return false;
    }
    let mut i: usize = 0;
    while i < kw.len()
        invariant
            span == (start, end),
            start + kw@.len() == end,
            end <= text@.len(),
            i <= kw@.len(),
            forall|j: int| 0 <= j < i ==> text@[start + j] == kw@[j],
        decreases kw@.len() - i,
    {
        if text[start + i] != kw[i] {
            assert(text@.subrange(start as int, end as int)[i as int] == text@[start + i]);
            assert(text@.subrange(start as int, end as int)[i as int] != kw@[i as int]);
            return false;
        }
        i = i + 1;
    }
    assert(text@.subrange(start as int, end as int) =~= kw@);
    true
}

/// The ASCII digits `'0'..='9'`.
pub open spec fn is_ascii_digit(c: char) -> bool {
    48 <= (c as u32) <= 57
}

/// The value of a string of ASCII digits read in base 10.
pub open spec fn digits_value(s: Seq<char>) -> int
    decreases s.len(),
{
    if s.len() == 0 {
        0
    } else {
        digits_value(s.drop_last()) * 10 + ((s.last() as u32) - 48)
    }
}

/// `s` without its leading `+` or `-`, if it has one.
pub open spec fn unsigned_part(s: Seq<char>) -> Seq<char> {
    if s.len() > 0 && (s[0] == '-' || s[0] == '+') {
        s.skip(1)
    } else {
        s
    }
}

/// Every character of `s` is an ASCII digit.
pub open spec fn all_ascii_digits(s: Seq<char>) -> bool {
    forall|i: int| 0 <= i < s.len() ==> is_ascii_digit(#[trigger] s[i])
}

/// The integer that `s` writes in base 10 with an optional leading `+` or
/// `-`, if `s` has that form.
pub open spec fn decimal_integer(s: Seq<char>) -> Option<int> {
    let digits = unsigned_part(s);
    if digits.len() > 0 && all_ascii_digits(digits) {
        Some(
            if s[0] == '-' {
                -digits_value(digits)
            } else {
                digits_value(digits)
            },
        )
    } else {
        None
    }
}

/// What `str::parse::<isize>` gives for `s`: the value it writes, when that
/// is a base 10 integer that fits in `isize`.
pub open spec fn isize_of(s: Seq<char>) -> Option<isize> {
    match decimal_integer(s) {
        Some(v) => if isize::MIN <= v <= isize::MAX {
            Some(v as isize)
        } else {
            None
        },
        None => None,
    }
}

proof fn lemma_digits_value_prefix(s: Seq<char>, k: int)
    requires
        0 <= k <= s.len(),
        forall|i: int| 0 <= i < s.len() ==> is_ascii_digit(#[trigger] s[i]),
    ensures
        digits_value(s.take(k)) <= digits_value(s),
        0 <= digits_value(s.take(k)),
    decreases s.len(),
{
    if s.len() == 0 {
        assert(s.take(k) =~= s);
    } else if k == s.len() {
        assert(s.take(k) =~= s);
        lemma_digits_value_prefix(s.drop_last(), 0);
    } else {
        lemma_digits_value_prefix(s.drop_last(), k);
        assert(s.drop_last().take(k) =~= s.take(k));
        lemma_digits_value_prefix(s.drop_last(), s.len() - 1);
        assert(s.drop_last().take(s.len() - 1) =~= s.drop_last());
    }
}

/// Read `word` as a base 10 `isize` with an optional sign, as
/// `str::parse::<isize>` does; `None` where that parse fails.
pub fn parse_isize(word: &[char]) -> (r: Option<isize>)
    ensures
        r == isize_of(word@),
{
    let n = word.len();
    let negative = n > 0 && word[0] == '-';
    let start: usize = if n > 0 && (word[0] == '-' || word[0] == '+') { 1 } else { 0 };
    let ghost digits = unsigned_part(word@);
    assert(digits =~= word@.skip(start as int));
    if start == n {
        return None;
    }
    let bound: u64 = (isize::MAX as u64) + 1;
    let mut acc: u64 = 0;
    let mut i: usize = start;
    while i < n
        invariant
            start <= i <= n,
            n == word@.len(),
            digits =~= word@.skip(start as int),
            digits == unsigned_part(word@),
            bound == isize::MAX + 1,
            acc <= bound,
            forall|j: int| start <= j < i ==> is_ascii_digit(#[trigger] word@[j]),
            acc == digits_value(word@.subrange(start as int, i as int)),
        decreases n - i,
    {
        let cu: u32 = word[i] as u32;
        if !(48 <= cu && cu <= 57) {
            assert(digits[i - start] == word@[i as int]);
            assert(!is_ascii_digit(digits[i - start]));
            assert(!all_ascii_digits(digits));
            return None;
        }
        let d: u64 = (cu - 48) as u64;
        assert(word@.subrange(start as int, i + 1).drop_last() =~= word@.subrange(start as int, i as int));
        if acc > (bound - d) / 10 {
            proof {
                assert(acc * 10 + d > bound) by (nonlinear_arith)
                    requires acc > (bound - d) / 10, d <= 9, bound >= 10;
                assert forall|j: int| 0 <= j < (i + 1 - start) implies is_ascii_digit(#[trigger] digits.take(i + 1 - start)[j]) by {
                    assert(digits.take(i + 1 - start)[j] == word@[start + j]);
                }
                assert(digits.take(i + 1 - start) =~= word@.subrange(start as int, i + 1));
                if all_ascii_digits(digits) {
                    lemma_digits_value_prefix(digits, i + 1 - start);
                }
            }
            return None;
        }
        acc = acc * 10 + d;
        i = i + 1;
    }
    assert(word@.subrange(start as int, n as int) =~= digits);
    if negative {
        let v: i128 = -(acc as i128);
        Some(v as isize)
    } else if acc <= isize::MAX as u64 {
        Some(acc as isize)
    } else {
        None
    }
}

/// The base 10 digits of `n`, most significant first, as ASCII bytes.
pub open spec fn decimal_digits(n: nat) -> Seq<u8>
    decreases n,
{
    if n < 10 {
        seq![(48 + n) as u8]
    } else {
        decimal_digits(n / 10).push((48 + n % 10) as u8)
    }
}

/// The number that a string of ASCII digit bytes writes in base 10, read
/// from left to right.
pub open spec fn decimal_value(s: Seq<u8>) -> int
    decreases s.len(),
{
    if s.len() == 0 {
        0
    } else {
        decimal_value(s.drop_last()) * 10 + (s.last() - 48)
    }
}

/// The digits written for `n` read back as `n`: they are ASCII digits, at
/// least one, their base 10 value is `n`, and they start with `0` only when
/// `n` is 0, which is written as the single digit `0`.
pub proof fn lemma_decimal_digits_read_back(n: nat)
    ensures
        decimal_digits(n).len() >= 1,
        forall|k: int| 0 <= k < decimal_digits(n).len() ==> 48 <= #[trigger] decimal_digits(n)[k] <= 57,
        decimal_value(decimal_digits(n)) == n,
        n > 0 ==> decimal_digits(n)[0] != 48u8,
        n == 0 ==> decimal_digits(n) == seq![48u8],
    decreases n,
{
    if n >= 10 {
        let q = n / 10;
        lemma_decimal_digits_read_back(q);
        let s = decimal_digits(n);
        assert(s.drop_last() =~= decimal_digits(q));
        assert(s[0] == decimal_digits(q)[0]);
        assert(q * 10 + n % 10 == n);
        assert(s.last() == 48 + n % 10);
        assert(decimal_value(s) == decimal_value(s.drop_last()) * 10 + (s.last() - 48));
    } else {
        let s = decimal_digits(n);
        assert(s.last() == 48 + n);
        assert(s.drop_last() =~= Seq::<u8>::empty());
        assert(decimal_value(s) == decimal_value(s.drop_last()) * 10 + (s.last() - 48));
    }
}

/// Append the base 10 digits of `n` to `out`.
pub fn push_decimal(out: &mut Vec<u8>, n: u32)
    ensures
        final(out)@ == old(out)@ + decimal_digits(n as nat),
        final(out)@.len() > old(out)@.len(),
        decimal_value(final(out)@.skip(old(out)@.len() as int)) == n,
        n > 0 ==> final(out)@[old(out)@.len() as int] != 48u8,
    decreases n,
{
    let ghost o = out@;
    if n >= 10 {
        push_decimal(out, n / 10);
    }
    out.push((48 + n % 10) as u8);
    proof {
        lemma_decimal_digits_read_back(n as nat);
        assert(out@.skip(o.len() as int) =~= decimal_digits(n as nat));
        assert(out@[o.len() as int] == decimal_digits(n as nat)[0]);
    }
}

/// The spans all lie inside `text`, in order.
pub open spec fn spans_within(text: Seq<char>, spans: Seq<(usize, usize)>) -> bool {
    forall|k: int| 0 <= k < spans.len() ==> #[trigger] spans[k].0 <= spans[k].1 <= text.len()
}

/// Whether there is an `i`-th word and it is `kw`.
pub fn word_at_is(text: &[char], spans: &Vec<(usize, usize)>, i: usize, kw: &[char]) -> (r: bool)
    requires
        spans_within(text@, spans@),
    ensures
        r == (i < spans@.len() && words_of(text@, spans@)[i as int] == kw@),
{
    if i >= spans.len() {
        return false;
    }
    let span = spans[i];
    assert(spans@[i as int].0 <= spans@[i as int].1 <= text@.len());
    word_is(text, span, kw)
}

} // verus!
