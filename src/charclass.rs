//! Character classes and scanning over a sequence of characters.
use vstd::prelude::*;

verus! {

/// The classes of characters that the parsers skip over or collect.
#[derive(Clone, Copy, PartialEq, Eq, Structural, Debug)]
pub enum CharClass {
    /// Spaces, tabs, carriage returns and newlines.
    Space,
    /// Whitespace or `;`, which separate statements.
    Separator,
    /// Decimal digits.
    Digit,
    /// ASCII letters, digits and `_`.
    IdentChar,
    /// Any character but a double quote.
    TextChar,
}

pub open spec fn is_ws(c: char) -> bool {
    c == ' ' || c == '\t' || c == '\n' || c == '\r'
}

pub open spec fn is_digit(c: char) -> bool {
    '0' <= c && c <= '9'
}

pub open spec fn is_ident_start(c: char) -> bool {
    ('a' <= c && c <= 'z') || ('A' <= c && c <= 'Z') || c == '_'
}

pub open spec fn is_ident_char(c: char) -> bool {
    is_ident_start(c) || is_digit(c)
}

pub open spec fn in_class(k: CharClass, c: char) -> bool {
    match k {
        CharClass::Space => is_ws(c),
        CharClass::Separator => is_ws(c) || c == ';',
        CharClass::Digit => is_digit(c),
        CharClass::IdentChar => is_ident_char(c),
        CharClass::TextChar => c != '"',
    }
}

/// The first position at or after `i` whose character is not in class `k`
/// (or the end of `s`).
pub open spec fn scan(s: Seq<char>, i: int, k: CharClass) -> int
    decreases s.len() - i,
{
    if 0 <= i < s.len() && in_class(k, s[i]) {
        scan(s, i + 1, k)
    } else {
        i
    }
}

/// The position after the whitespace that starts at `i`.
pub open spec fn skip_ws(s: Seq<char>, i: int) -> int {
    scan(s, i, CharClass::Space)
}

/// Everything that `scan` passes over is in the class, and it stops at the
/// end or at a character outside it.
pub proof fn lemma_scan(s: Seq<char>, i: int, k: CharClass)
    requires
        0 <= i <= s.len(),
    ensures
        i <= scan(s, i, k) <= s.len(),
        forall|m: int| i <= m < scan(s, i, k) ==> in_class(k, #[trigger] s[m]),
        scan(s, i, k) < s.len() ==> !in_class(k, s[scan(s, i, k)]),
    decreases s.len() - i,
{
    if i < s.len() && in_class(k, s[i]) {
        lemma_scan(s, i + 1, k);
    }
}

pub fn char_in_class(k: CharClass, c: char) -> (r: bool)
    ensures
        r == in_class(k, c),
{
    let ws = c == ' ' || c == '\t' || c == '\n' || c == '\r';
    let digit = '0' <= c && c <= '9';
    match k {
        CharClass::Space => ws,
        CharClass::Separator => ws || c == ';',
        CharClass::Digit => digit,
        CharClass::IdentChar => ('a' <= c && c <= 'z') || ('A' <= c && c <= 'Z') || c == '_'
            || digit,
        CharClass::TextChar => c != '"',
    }
}

/// Returns the first position at or after `i` whose character is not in
/// class `k`.
pub fn scan_class(s: &Vec<char>, i: usize, k: CharClass) -> (r: usize)
    requires
        i <= s@.len(),
    ensures
        r == scan(s@, i as int, k),
        i <= r <= s@.len(),
{
    let mut j = i;
    while j < s.len() && char_in_class(k, s[j])
        invariant
            i <= j <= s@.len(),
            scan(s@, i as int, k) == scan(s@, j as int, k),
        decreases s@.len() - j,
    {
        j = j + 1;
    }
    j
}

/// The characters of `s`, in order.
pub fn chars_of(s: &str) -> (r: Vec<char>)
    ensures
        r@ == s@,
{
    let n = s.unicode_len();
    let mut out: Vec<char> = Vec::new();
    let mut i: usize = 0;
    while i < n
        invariant
            n == s@.len(),
            i <= n,
            out@ == s@.subrange(0, i as int),
        decreases n - i,
    {
        let c = s.get_char(i);
        out.push(c);
        i = i + 1;
        assert(out@ =~= s@.subrange(0, i as int));
    }
    assert(out@ =~= s@);
    out
}

/// Returns `s[from..to]` as an owned string.
pub fn substring(s: &str, from: usize, to: usize) -> (r: String)
    requires
        from <= to <= s@.len(),
    ensures
        r@ == s@.subrange(from as int, to as int),
{
    s.substring_char(from, to).to_owned()
}

} // verus!
