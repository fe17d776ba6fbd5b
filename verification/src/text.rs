//! Text primitives: the few operations of `str` and `String` that the rest of
//! the crate relies on, with their meaning over `Seq<char>`, and the small
//! formatting routines built from them.

use vstd::prelude::*;

verus! {

/// The Unicode `White_Space` property, as `char::is_whitespace` decides it.
pub uninterp spec fn white_space(c: char) -> bool;

/// The lowercase form of a text, as `str::to_lowercase` computes it.
pub uninterp spec fn lowercase(s: Seq<char>) -> Seq<char>;

/// Number of leading characters of `s` that are whitespace.
pub open spec fn leading_space(s: Seq<char>) -> nat
    decreases s.len(),
{
    if s.len() > 0 && white_space(s[0]) {
        1 + leading_space(s.skip(1))
    } else {
        0
    }
}

/// Number of trailing characters of `s` that are whitespace.
pub open spec fn trailing_space(s: Seq<char>) -> nat
    decreases s.len(),
{
    if s.len() > 0 && white_space(s.last()) {
        1 + trailing_space(s.drop_last())
    } else {
        0
    }
}

/// `s` without its leading and trailing whitespace.
pub open spec fn trimmed(s: Seq<char>) -> Seq<char> {
    let start = leading_space(s);
    if start == s.len() {
        Seq::empty()
    } else {
        s.subrange(start as int, s.len() - trailing_space(s))
    }
}

/// `char::is_whitespace`: whether `c` has the `White_Space` property. The
/// answer is named by [`white_space`]; which characters have the property is
/// not claimed.
#[verifier::external_body]
pub(crate) fn is_whitespace(c: char) -> (r: bool)
    ensures
        r == white_space(c),
{
    c.is_whitespace()
}

/// The characters of `s`, in order.
pub fn chars_of(s: &str) -> (v: Vec<char>)
    ensures
        v@ == s@,
{
    let mut v: Vec<char> = Vec::new();
    for c in it: s.chars()
        invariant
            it.seq() == s@,
            v@ == it.seq().take(it.index() as int),
    {
        v.push(c);
    }
    v
}

/// `str::to_lowercase`: the result is named by [`lowercase`]; nothing else is
/// claimed of it.
#[verifier::external_body]
pub(crate) fn to_lowercase(s: &str) -> (r: String)
    ensures
        r@ == lowercase(s@),
{
    s.to_lowercase()
}

/// `str == str`: true exactly when both hold the same characters.
#[verifier::external_body]
pub(crate) fn str_eq(a: &str, b: &str) -> (r: bool)
    ensures
        r == (a@ == b@),
{
    a == b
}

/// `String::push`: appends one character.
#[verifier::external_body]
pub(crate) fn push_char(s: &mut String, c: char)
    ensures
        final(s)@ == old(s)@.push(c),
{
    s.push(c)
}

/// The text made of the characters `v[from..to]`.
pub fn text_of(v: &Vec<char>, from: usize, to: usize) -> (r: String)
    requires
        from <= to <= v@.len(),
    ensures
        r@ == v@.subrange(from as int, to as int),
{
    let mut r = String::new();
    let mut i: usize = from;
    while i < to
        invariant
            from <= i <= to <= v@.len(),
            r@ == v@.subrange(from as int, i as int),
        decreases to - i,
    {
        push_char(&mut r, v[i]);
        i += 1;
        assert(r@ =~= v@.subrange(from as int, i as int));
    }
    r
}

/// Leading whitespace ends at the first character that is not whitespace.
pub proof fn lemma_leading_space(s: Seq<char>, n: nat)
    requires
        n <= s.len(),
        forall|k: int| 0 <= k < n ==> white_space(#[trigger] s[k]),
        n == s.len() || !white_space(s[n as int]),
    ensures
        leading_space(s) == n,
    decreases n,
{
    if n > 0 {
        let rest = s.skip(1);
        assert forall|k: int| 0 <= k < n - 1 implies white_space(#[trigger] rest[k]) by {
            assert(rest[k] == s[k + 1]);
        }
        lemma_leading_space(rest, (n - 1) as nat);
    }
}

/// Trailing whitespace begins after the last character that is not whitespace.
pub proof fn lemma_trailing_space(s: Seq<char>, n: nat)
    requires
        n <= s.len(),
        forall|k: int| s.len() - n <= k < s.len() ==> white_space(#[trigger] s[k]),
        n == s.len() || !white_space(s[s.len() - n - 1]),
    ensures
        trailing_space(s) == n,
    decreases n,
{
    if n > 0 {
        let rest = s.drop_last();
        assert forall|k: int| rest.len() - (n - 1) <= k < rest.len() implies white_space(
            #[trigger] rest[k],
        ) by {
            assert(rest[k] == s[k]);
        }
        lemma_trailing_space(rest, (n - 1) as nat);
    }
}

/// `s` without its leading and trailing whitespace.
pub fn trim(s: &str) -> (r: String)
    ensures
        r@ == trimmed(s@),
{
    let v = chars_of(s);
    let n = v.len();
    let mut start: usize = 0;
    while start < n && is_whitespace(v[start])
        invariant
            start <= n == v@.len(),
            forall|k: int| 0 <= k < start ==> white_space(#[trigger] v@[k]),
        decreases n - start,
    {
        start += 1;
    }
    proof {
        lemma_leading_space(v@, start as nat);
    }
    if start == n {
        return String::new();
    }
    let mut end: usize = n;
    while end > start && is_whitespace(v[end - 1])
        invariant
            start < n == v@.len(),
            start <= end <= n,
            !white_space(v@[start as int]),
            forall|k: int| end <= k < n ==> white_space(#[trigger] v@[k]),
        decreases end,
    {
        end -= 1;
    }
    proof {
        lemma_trailing_space(v@, (n - end) as nat);
    }
    text_of(&v, start, end)
}

/// The character that writes the decimal digit `d`.
pub open spec fn digit_char(d: nat) -> char {
    if d == 0 {
        '0'
    } else if d == 1 {
        '1'
    } else if d == 2 {
        '2'
    } else if d == 3 {
        '3'
    } else if d == 4 {
        '4'
    } else if d == 5 {
        '5'
    } else if d == 6 {
        '6'
    } else if d == 7 {
        '7'
    } else if d == 8 {
        '8'
    } else {
        '9'
    }
}

/// The decimal numeral of `n`, without leading zeros.
pub open spec fn decimal(n: nat) -> Seq<char>
    decreases n,
{
    if n < 10 {
        seq![digit_char(n)]
    } else {
        decimal(n / 10).push(digit_char(n % 10))
    }
}

fn digit(d: usize) -> (c: char)
    requires
        d < 10,
    ensures
        c == digit_char(d as nat),
{
    if d == 0 {
        '0'
    } else if d == 1 {
        '1'
    } else if d == 2 {
        '2'
    } else if d == 3 {
        '3'
    } else if d == 4 {
        '4'
    } else if d == 5 {
        '5'
    } else if d == 6 {
        '6'
    } else if d == 7 {
        '7'
    } else if d == 8 {
        '8'
    } else {
        '9'
    }
}

/// Appends the decimal numeral of `n` to `out`.
pub fn push_decimal(out: &mut String, n: usize)
    ensures
        final(out)@ == old(out)@ + decimal(n as nat),
    decreases n,
{
    if n < 10 {
        push_char(out, digit(n));
        assert(out@ =~= old(out)@ + decimal(n as nat));
    } else {
        push_decimal(out, n / 10);
        push_char(out, digit(n % 10));
        assert(out@ =~= old(out)@ + decimal(n as nat));
    }
}

/// Whether `text`, in lowercase, is `lowered`.
pub fn lowers_to(text: &str, lowered: &String) -> (r: bool)
    ensures
        r == (lowercase(text@) == lowered@),
{
    let lower = to_lowercase(text);
    lower == *lowered
}

/// Whether one of `texts`, in lowercase, is `lowered`.
pub open spec fn some_lowers_to(texts: Seq<Seq<char>>, lowered: Seq<char>) -> bool {
    exists|k: int| 0 <= k < texts.len() && lowercase(#[trigger] texts[k]) == lowered
}

/// Whether one of `texts`, in lowercase, is `lowered`.
pub fn any_lowers_to(texts: &Vec<String>, lowered: &String) -> (r: bool)
    ensures
        r == some_lowers_to(texts.deep_view(), lowered@),
{
    let mut k: usize = 0;
    while k < texts.len()
        invariant
            k <= texts.len(),
            forall|j: int| 0 <= j < k ==> lowercase(#[trigger] texts.deep_view()[j]) != lowered@,
        decreases texts.len() - k,
    {
        assert(texts.deep_view()[k as int] == texts[k as int]@);
        if lowers_to(texts[k].as_str(), lowered) {
            return true;
        }
        k += 1;
    }
    false
}

} // verus!
