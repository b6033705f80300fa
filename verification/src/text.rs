//! Text helpers shared by the transcript functions: characters of a string,
//! white space, trimming, joining and decimal numbers.

use vstd::prelude::*;
use vstd::string::*;

verus! {

/// Whether `c` has the Unicode property White_Space.
pub open spec fn is_white_space(c: char) -> bool {
    let n = c as u32;
    ||| 0x09 <= n <= 0x0d
    ||| n == 0x20
    ||| n == 0x85
    ||| n == 0xa0
    ||| n == 0x1680
    ||| 0x2000 <= n <= 0x200a
    ||| n == 0x2028
    ||| n == 0x2029
    ||| n == 0x202f
    ||| n == 0x205f
    ||| n == 0x3000
}

/// `s` without its leading white space.
pub open spec fn trim_start_spec(s: Seq<char>) -> Seq<char>
    decreases s.len(),
{
    if s.len() > 0 && is_white_space(s.first()) {
        trim_start_spec(s.drop_first())
    } else {
        s
    }
}

/// `s` without its trailing white space.
pub open spec fn trim_end_spec(s: Seq<char>) -> Seq<char>
    decreases s.len(),
{
    if s.len() > 0 && is_white_space(s.last()) {
        trim_end_spec(s.drop_last())
    } else {
        s
    }
}

/// `s` without leading and trailing white space.
pub open spec fn trim_spec(s: Seq<char>) -> Seq<char> {
    trim_end_spec(trim_start_spec(s))
}

/// The character sequences that a list of strings stands for.
pub open spec fn views(parts: Seq<String>) -> Seq<Seq<char>> {
    Seq::new(parts.len(), |i: int| parts[i]@)
}

/// The parts in order, with `sep` between each two neighbours.
pub open spec fn join_spec(parts: Seq<Seq<char>>, sep: Seq<char>) -> Seq<char>
    decreases parts.len(),
{
    if parts.len() == 0 {
        Seq::empty()
    } else if parts.len() == 1 {
        parts[0]
    } else {
        join_spec(parts.drop_last(), sep) + sep + parts.last()
    }
}

/// The character of the decimal digit `d`.
pub open spec fn digit_char(d: int) -> char {
    (48 + d) as char
}

/// Decimal digits of a natural number, most significant first, no leading zero.
pub open spec fn decimal_digits(n: nat) -> Seq<char>
    decreases n,
{
    if n < 10 {
        seq![digit_char(n as int)]
    } else {
        decimal_digits(n / 10).push(digit_char((n % 10) as int))
    }
}

/// Decimal form of an integer, with a minus sign before a negative one.
pub open spec fn decimal_spec(n: int) -> Seq<char> {
    if n < 0 {
        seq!['-'] + decimal_digits((-n) as nat)
    } else {
        decimal_digits(n as nat)
    }
}

/// Appends one character to a string.
///
/// Stands for `String::push`, which the standard library documents as
/// appending the given character to the end of the string.
#[verifier::external_body]
pub(crate) fn push_char(s: &mut String, c: char)
    ensures
        final(s)@ == old(s)@.push(c),
{
    s.push(c)
}

/// The characters of `s`, in order.
pub fn chars_of(s: &str) -> (v: Vec<char>)
    ensures
        v@ == s@,
{
    let mut v: Vec<char> = Vec::new();
    for c in it: s.chars()
        invariant
            v@ == it.seq().take(it.index() as int),
    {
        v.push(c);
    }
    v
}

/// The string made of `chars[start..end]`.
pub fn string_of(chars: &Vec<char>, start: usize, end: usize) -> (s: String)
    requires
        start <= end <= chars.len(),
    ensures
        s@ == chars@.subrange(start as int, end as int),
{
    let mut s = String::new();
    let mut i: usize = start;
    while i < end
        invariant
            start <= i <= end <= chars.len(),
            s@ == chars@.subrange(start as int, i as int),
        decreases end - i,
    {
        push_char(&mut s, chars[i]);
        i = i + 1;
        assert(s@ =~= chars@.subrange(start as int, i as int));
    }
    s
}

/// Whether `c` is white space.
pub fn is_whitespace(c: char) -> (b: bool)
    ensures
        b == is_white_space(c),
{
    let n: u32 = c as u32;
    (0x09 <= n && n <= 0x0d) || n == 0x20 || n == 0x85 || n == 0xa0 || n == 0x1680 || (0x2000 <= n
        && n <= 0x200a) || n == 0x2028 || n == 0x2029 || n == 0x202f || n == 0x205f || n == 0x3000
}

/// Trimming the start of `s[start..]` where `s[start]` is white space skips it.
proof fn lemma_trim_start_step(s: Seq<char>, start: int)
    requires
        0 <= start < s.len(),
        is_white_space(s[start]),
    ensures
        trim_start_spec(s.subrange(start, s.len() as int)) == trim_start_spec(
            s.subrange(start + 1, s.len() as int),
        ),
{
    let sub = s.subrange(start, s.len() as int);
    assert(sub.drop_first() =~= s.subrange(start + 1, s.len() as int));
}

/// Trimming the end of `s[start..end]` where `s[end - 1]` is white space drops it.
proof fn lemma_trim_end_step(s: Seq<char>, start: int, end: int)
    requires
        0 <= start < end <= s.len(),
        is_white_space(s[end - 1]),
    ensures
        trim_end_spec(s.subrange(start, end)) == trim_end_spec(s.subrange(start, end - 1)),
{
    let sub = s.subrange(start, end);
    assert(sub.drop_last() =~= s.subrange(start, end - 1));
}

/// Trimming nothing leaves nothing.
pub proof fn lemma_trim_of_empty()
    ensures
        trim_spec(Seq::<char>::empty()).len() == 0,
{
}

/// Where the trailing white space of `chars[start..end]` begins:
/// `chars[start..bound]` is `chars[start..end]` without it.
pub fn trim_end_bound(chars: &Vec<char>, start: usize, end: usize) -> (bound: usize)
    requires
        start <= end <= chars.len(),
    ensures
        start <= bound <= end,
        chars@.subrange(start as int, bound as int) == trim_end_spec(
            chars@.subrange(start as int, end as int),
        ),
{
    let mut bound: usize = end;
    while start < bound && is_whitespace(chars[bound - 1])
        invariant
            start <= bound <= end <= chars.len(),
            trim_end_spec(chars@.subrange(start as int, end as int)) == trim_end_spec(
                chars@.subrange(start as int, bound as int),
            ),
        decreases bound - start,
    {
        proof {
            lemma_trim_end_step(chars@, start as int, bound as int);
        }
        bound = bound - 1;
    }
    assert(trim_end_spec(chars@.subrange(start as int, bound as int)) == chars@.subrange(
        start as int,
        bound as int,
    )) by {
        let sub = chars@.subrange(start as int, bound as int);
        if start < bound {
            assert(sub.last() == chars@[bound - 1]);
        }
    }
    bound
}

/// Bounds of the trimmed part of `chars`: `chars[start..end]` is `chars`
/// without leading and trailing white space.
pub fn trim_bounds(chars: &Vec<char>) -> (bounds: (usize, usize))
    ensures
        bounds.0 <= bounds.1 <= chars.len(),
        chars@.subrange(bounds.0 as int, bounds.1 as int) == trim_spec(chars@),
{
    let len: usize = chars.len();
    let mut start: usize = 0;
    assert(chars@.subrange(0, len as int) =~= chars@);
    while start < len && is_whitespace(chars[start])
        invariant
            start <= len,
            len == chars.len(),
            trim_start_spec(chars@) == trim_start_spec(chars@.subrange(start as int, len as int)),
        decreases len - start,
    {
        proof {
            lemma_trim_start_step(chars@, start as int);
        }
        start = start + 1;
    }
    assert(trim_start_spec(chars@) == chars@.subrange(start as int, len as int)) by {
        let sub = chars@.subrange(start as int, len as int);
        if start < len {
            assert(sub.first() == chars@[start as int]);
        }
    }
    let end = trim_end_bound(chars, start, len);
    (start, end)
}

/// `s` without its trailing white space.
pub fn trim_end(s: &str) -> (t: String)
    ensures
        t@ == trim_end_spec(s@),
{
    let chars = chars_of(s);
    assert(chars@.subrange(0, chars.len() as int) =~= chars@);
    let end = trim_end_bound(&chars, 0, chars.len());
    string_of(&chars, 0, end)
}

/// `s` without leading and trailing white space.
pub fn trim(s: &str) -> (t: String)
    ensures
        t@ == trim_spec(s@),
{
    let chars = chars_of(s);
    let (start, end) = trim_bounds(&chars);
    string_of(&chars, start, end)
}

/// Joins `parts` in order with `sep` between each two neighbours.
pub fn join(parts: &Vec<String>, sep: &str) -> (joined: String)
    ensures
        joined@ == join_spec(views(parts@), sep@),
{
    let mut joined = String::new();
    let mut i: usize = 0;
    while i < parts.len()
        invariant
            i <= parts.len(),
            joined@ == join_spec(views(parts@).take(i as int), sep@),
        decreases parts.len() - i,
    {
        let ghost before = views(parts@).take(i as int);
        let ghost after = views(parts@).take(i + 1);
        proof {
            assert(after.drop_last() =~= before);
            assert(after.last() == parts@[i as int]@);
        }
        if i > 0 {
            joined.append(sep);
        }
        joined.append(parts[i].as_str());
        proof {
            if i == 0 {
                assert(joined@ =~= after[0]);
            }
        }
        i = i + 1;
    }
    assert(views(parts@).take(parts.len() as int) =~= views(parts@));
    joined
}

/// Decimal digits of `magnitude`, appended to `s`.
fn push_decimal_digits(s: &mut String, magnitude: u128)
    ensures
        final(s)@ == old(s)@ + decimal_digits(magnitude as nat),
{
    // Least significant digit first.
    let mut digits: Vec<char> = Vec::new();
    let mut rest: u128 = magnitude;
    while rest >= 10
        invariant
            rest <= magnitude,
            decimal_digits(magnitude as nat) == decimal_digits(rest as nat) + digits@.reverse(),
        decreases rest,
    {
        let d: u8 = (rest % 10) as u8;
        let c: char = (48u8 + d) as char;
        let ghost old_digits = digits@;
        digits.push(c);
        proof {
            assert(digits@.reverse() =~= seq![c] + old_digits.reverse());
            assert(decimal_digits(rest as nat) =~= decimal_digits((rest / 10) as nat) + seq![c]);
        }
        rest = rest / 10;
    }
    let last: char = (48u8 + rest as u8) as char;
    push_char(s, last);
    let ghost prefix = s@;
    let mut k: usize = digits.len();
    while k > 0
        invariant
            k <= digits.len(),
            s@ == prefix + digits@.reverse().take(digits.len() - k),
        decreases k,
    {
        k = k - 1;
        push_char(s, digits[k]);
        proof {
            let r = digits@.reverse();
            assert(r[digits.len() - 1 - k] == digits@[k as int]);
            assert(s@ =~= prefix + r.take(digits.len() - k));
        }
    }
    proof {
        assert(digits@.reverse().take(digits.len() as int) =~= digits@.reverse());
        assert(decimal_digits(rest as nat) =~= seq![last]);
        assert(s@ =~= old(s)@ + decimal_digits(magnitude as nat));
    }
}

/// Decimal form of `n`.
pub fn decimal(n: i64) -> (s: String)
    ensures
        s@ == decimal_spec(n as int),
{
    let mut s = String::new();
    if n < 0 {
        push_char(&mut s, '-');
        let magnitude: u128 = (-(n as i128)) as u128;
        push_decimal_digits(&mut s, magnitude);
    } else {
        push_decimal_digits(&mut s, n as u128);
    }
    s
}

/// Decimal form of `n`.
pub fn decimal_unsigned(n: u128) -> (s: String)
    ensures
        s@ == decimal_spec(n as int),
{
    let mut s = String::new();
    push_decimal_digits(&mut s, n);
    s
}

/// The lower-case form of a text, as the standard library's Unicode tables
/// give it.
pub uninterp spec fn lowercase_of(s: Seq<char>) -> Seq<char>;

/// The upper-case form of a character, which may be several characters, as
/// the standard library's Unicode tables give it.
pub uninterp spec fn uppercase_of(c: char) -> Seq<char>;

/// The lower-case form of `s`.
///
/// Stands for `str::to_lowercase`. The standard library documents the
/// result as the lower-case equivalent of the string by the Unicode
/// property `Lowercase`; it depends on the characters of `s` alone.
#[verifier::external_body]
pub(crate) fn to_lowercase(s: &str) -> (lowered: String)
    ensures
        lowered@ == lowercase_of(s@),
{
    s.to_lowercase()
}

/// The upper-case form of `c`.
///
/// Stands for `char::to_uppercase`, whose characters are gathered in a
/// string. The standard library documents them as the upper-case mapping
/// of the character by the Unicode tables; they depend on `c` alone.
#[verifier::external_body]
pub(crate) fn to_uppercase(c: char) -> (upper: String)
    ensures
        upper@ == uppercase_of(c),
{
    c.to_uppercase().collect()
}

} // verus!
