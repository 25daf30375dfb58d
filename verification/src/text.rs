//! Small tools for text: comparing, writing numbers and reading them.

use vstd::prelude::*;
use vstd::string::StrSliceExecFns;

verus! {

/// `String::push` of the standard library appends one character to the
/// text and changes nothing else of it.
pub assume_specification[ String::push ](s: &mut String, c: char)
    ensures
        final(s)@ == old(s)@.push(c),
;

/// Tells whether two texts hold the same characters.
pub fn text_eq(a: &str, b: &str) -> (same: bool)
    ensures
        same == (a@ == b@),
{
    let n = a.unicode_len();
    if b.unicode_len() != n {
        return false;
    }
    let mut i: usize = 0;
    while i < n
        invariant
            i <= n,
            a@.len() == n,
            b@.len() == n,
            forall|k: int| 0 <= k < i ==> a@[k] == b@[k],
        decreases n - i,
    {
        if a.get_char(i) != b.get_char(i) {
            return false;
        }
        i = i + 1;
    }
    assert(a@ =~= b@);
    true
}

/// The character that writes a digit.
pub open spec fn digit_char(d: int) -> char {
    ((48 + d) as u8) as char
}

/// The decimal text of a number, without leading zeros.
pub open spec fn decimal(n: nat) -> Seq<char>
    decreases n,
{
    if n < 10 {
        seq![digit_char(n as int)]
    } else {
        decimal(n / 10).push(digit_char((n % 10) as int))
    }
}

/// Returns the decimal text of a number.
pub fn decimal_text(n: u64) -> (text: String)
    ensures
        text@ == decimal(n as nat),
    decreases n,
{
    if n < 10 {
        let mut text = String::new();
        text.push((48u8 + n as u8) as char);
        text
    } else {
        let mut text = decimal_text(n / 10);
        text.push((48u8 + (n % 10) as u8) as char);
        text
    }
}

/// The character is a decimal digit.
pub open spec fn is_digit(c: char) -> bool {
    '0' <= c && c <= '9'
}

/// Every character of the text is a decimal digit.
pub open spec fn all_digits(s: Seq<char>) -> bool {
    forall|i: int| 0 <= i < s.len() ==> is_digit(#[trigger] s[i])
}

/// The number that a text of digits writes.
pub open spec fn digits_value(s: Seq<char>) -> nat
    decreases s.len(),
{
    if s.len() == 0 {
        0
    } else {
        digits_value(s.drop_last()) * 10 + (s.last() as int - 48) as nat
    }
}

/// The number that a text writes in decimal: digits, at least one, with an
/// optional `+` before them, and a value that fits 32 bits. Any other text
/// writes no number.
pub open spec fn number_of(s: Seq<char>) -> Option<u32> {
    let digits = if s.len() > 0 && s[0] == '+' {
        s.drop_first()
    } else {
        s
    };
    if digits.len() > 0 && all_digits(digits) && digits_value(digits) <= u32::MAX {
        Some(digits_value(digits) as u32)
    } else {
        None
    }
}

proof fn lemma_digits_value_grows(s: Seq<char>, k: int)
    requires
        0 <= k <= s.len(),
        all_digits(s),
    ensures
        digits_value(s.take(k)) <= digits_value(s),
    decreases s.len() - k,
{
    if k == s.len() {
        assert(s.take(k) =~= s);
    } else {
        lemma_digits_value_grows(s, k + 1);
        assert(s.take(k + 1).drop_last() =~= s.take(k));
    }
}

/// Reads a decimal number.
pub fn parse_number(s: &str) -> (value: Option<u32>)
    ensures
        value == number_of(s@),
{
    let n = s.unicode_len();
    let start: usize = if n > 0 && s.get_char(0) == '+' {
        1
    } else {
        0
    };
    let ghost digits = if start == 1 {
        s@.drop_first()
    } else {
        s@
    };
    if start >= n {
        return None;
    }
    let mut acc: u64 = 0;
    let mut i: usize = start;
    while i < n
        invariant
            start <= i <= n,
            start <= 1,
            s@.len() == n,
            digits == if s@.len() > 0 && s@[0] == '+' {
                s@.drop_first()
            } else {
                s@
            },
            digits.len() == n - start,
            forall|k: int| 0 <= k < digits.len() ==> digits[k] == s@[k + start],
            forall|k: int| 0 <= k < i - start ==> is_digit(#[trigger] digits[k]),
            acc == digits_value(digits.take(i - start)),
            acc <= u32::MAX,
        decreases n - i,
    {
        let c = s.get_char(i);
        if c < '0' || c > '9' {
            assert(!is_digit(digits[i - start]));
            return None;
        }
        let d: u64 = (c as u32 - 48) as u64;
        proof {
            assert(digits.take(i - start + 1).drop_last() =~= digits.take(i - start));
        }
        acc = acc * 10 + d;
        if acc > 0xFFFF_FFFF {
            proof {
                if all_digits(digits) {
                    lemma_digits_value_grows(digits, i - start + 1);
                }
            }
            return None;
        }
        i = i + 1;
    }
    proof {
        assert(digits.take(n - start) =~= digits);
    }
    Some(acc as u32)
}

/// The character is white space.
pub open spec fn is_space(c: char) -> bool {
    let n = c as int;
    ||| 9 <= n <= 13
    ||| n == 0x20
    ||| n == 0x85
    ||| n == 0xA0
    ||| n == 0x1680
    ||| 0x2000 <= n <= 0x200A
    ||| n == 0x2028
    ||| n == 0x2029
    ||| n == 0x202F
    ||| n == 0x205F
    ||| n == 0x3000
}

/// The character is one to strip: a NUL character where `nul` is set, and
/// white space otherwise.
pub open spec fn ignorable(c: char, nul: bool) -> bool {
    if nul {
        c as int == 0
    } else {
        is_space(c)
    }
}

/// The text without the characters to strip at its start.
pub open spec fn strip_front(s: Seq<char>, nul: bool) -> Seq<char>
    decreases s.len(),
{
    if s.len() > 0 && ignorable(s[0], nul) {
        strip_front(s.drop_first(), nul)
    } else {
        s
    }
}

/// The text without the characters to strip at its end.
pub open spec fn strip_back(s: Seq<char>, nul: bool) -> Seq<char>
    decreases s.len(),
{
    if s.len() > 0 && ignorable(s.last(), nul) {
        strip_back(s.drop_last(), nul)
    } else {
        s
    }
}

/// The text without the characters to strip at both ends.
pub open spec fn stripped(s: Seq<char>, nul: bool) -> Seq<char> {
    strip_back(strip_front(s, nul), nul)
}

proof fn lemma_strip_front(s: Seq<char>, nul: bool, i: int)
    requires
        0 <= i <= s.len(),
        forall|k: int| 0 <= k < i ==> ignorable(#[trigger] s[k], nul),
        i == s.len() || !ignorable(s[i], nul),
    ensures
        strip_front(s, nul) == s.subrange(i, s.len() as int),
    decreases i,
{
    if i > 0 {
        let rest = s.drop_first();
        assert forall|k: int| 0 <= k < i - 1 implies ignorable(#[trigger] rest[k], nul) by {}
        lemma_strip_front(rest, nul, i - 1);
    }
}

proof fn lemma_strip_back(s: Seq<char>, nul: bool, j: int)
    requires
        0 <= j <= s.len(),
        forall|k: int| j <= k < s.len() ==> ignorable(#[trigger] s[k], nul),
        j == 0 || !ignorable(s[j - 1], nul),
    ensures
        strip_back(s, nul) == s.subrange(0, j),
    decreases s.len() - j,
{
    if j < s.len() {
        let rest = s.drop_last();
        lemma_strip_back(rest, nul, j);
    }
}

/// Tells whether a character is white space.
fn space(c: char) -> (yes: bool)
    ensures
        yes == is_space(c),
{
    let n: u32 = c as u32;
    (9 <= n && n <= 13) || n == 0x20 || n == 0x85 || n == 0xA0 || n == 0x1680 || (0x2000 <= n && n
        <= 0x200A) || n == 0x2028 || n == 0x2029 || n == 0x202F || n == 0x205F || n == 0x3000
}

/// Tells whether a character is one to strip.
fn strips(c: char, nul: bool) -> (yes: bool)
    ensures
        yes == ignorable(c, nul),
{
    if nul {
        c as u32 == 0
    } else {
        space(c)
    }
}

/// Returns the text without the characters to strip at both ends.
pub fn strip<'a>(s: &'a str, nul: bool) -> (inner: &'a str)
    ensures
        inner@ == stripped(s@, nul),
{
    let n = s.unicode_len();
    let mut i: usize = 0;
    while i < n && strips(s.get_char(i), nul)
        invariant
            i <= n,
            n == s@.len(),
            forall|k: int| 0 <= k < i ==> ignorable(#[trigger] s@[k], nul),
        decreases n - i,
    {
        i = i + 1;
    }
    let mut j: usize = n;
    while j > i && strips(s.get_char(j - 1), nul)
        invariant
            i <= j <= n,
            n == s@.len(),
            forall|k: int| j <= k < n ==> ignorable(#[trigger] s@[k], nul),
        decreases j,
    {
        j = j - 1;
    }
    proof {
        lemma_strip_front(s@, nul, i as int);
        let front = s@.subrange(i as int, n as int);
        assert forall|k: int| j - i <= k < front.len() implies ignorable(
            #[trigger] front[k],
            nul,
        ) by {}
        lemma_strip_back(front, nul, j - i);
    }
    s.substring_char(i, j)
}

} // verus!
