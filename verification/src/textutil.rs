//! Character-level helpers shared by the parsers and the layout code.

use vstd::prelude::*;

verus! {

/// The character sequences of a list of strings.
pub open spec fn strs(v: Seq<String>) -> Seq<Seq<char>> {
    v.map_values(|s: String| s@)
}

/// ASCII whitespace as `char::is_ascii_whitespace` defines it: space, tab,
/// line feed, form feed and carriage return.
pub open spec fn ascii_ws(c: char) -> bool {
    c == ' ' || c == '\t' || c == '\n' || c == '\x0C' || c == '\r'
}

pub fn is_ascii_ws(c: char) -> (r: bool)
    ensures
        r == ascii_ws(c),
{
    c == ' ' || c == '\t' || c == '\n' || c == '\x0C' || c == '\r'
}

pub open spec fn ascii_digit(c: char) -> bool {
    '0' <= c && c <= '9'
}

pub fn is_ascii_digit(c: char) -> (r: bool)
    ensures
        r == ascii_digit(c),
{
    '0' <= c && c <= '9'
}

/// Character-wise equality of two character vectors.
pub fn chars_eq(a: &Vec<char>, b: &Vec<char>) -> (r: bool)
    ensures
        r == (a@ == b@),
{
    if a.len() != b.len() {
        return false;
    }
    let mut i: usize = 0;
    while i < a.len()
        invariant
            i <= a@.len(),
            a@.len() == b@.len(),
            forall|k: int| 0 <= k < i ==> a@[k] == b@[k],
        decreases a.len() - i,
    {
        if a[i] != b[i] {
            return false;
        }
        i += 1;
    }
    proof {
        assert(a@ =~= b@);
    }
    true
}

/// Equality of two string slices.
pub fn str_eq(a: &str, b: &str) -> (r: bool)
    ensures
        r == (a@ == b@),
{
    let x = crate::unicode::chars_of(a);
    let y = crate::unicode::chars_of(b);
    chars_eq(&x, &y)
}

/// An owned copy of a string slice.
pub fn owned(a: &str) -> (r: String)
    ensures
        r@ == a@,
{
    a.to_owned()
}

/// `n` spaces.
pub open spec fn spaces(n: nat) -> Seq<char> {
    Seq::new(n, |i: int| ' ')
}

/// `n` copies of `c`.
pub open spec fn repeat(c: char, n: nat) -> Seq<char> {
    Seq::new(n, |i: int| c)
}

/// Appends `n` copies of `c`.
pub fn push_repeat(s: &mut String, c: char, n: usize)
    ensures
        final(s)@ == old(s)@ + repeat(c, n as nat),
{
    let mut i: usize = 0;
    while i < n
        invariant
            i <= n,
            s@ == old(s)@ + repeat(c, i as nat),
        decreases n - i,
    {
        crate::unicode::push_char(s, c);
        i += 1;
        proof {
            assert(s@ =~= old(s)@ + repeat(c, i as nat));
        }
    }
}

/// Concatenation of a list of character sequences with `sep` between them
/// (`<[String]>::join`).
pub open spec fn join(parts: Seq<Seq<char>>, sep: Seq<char>) -> Seq<char>
    decreases parts.len(),
{
    if parts.len() == 0 {
        Seq::empty()
    } else if parts.len() == 1 {
        parts[0]
    } else {
        join(parts.drop_last(), sep) + sep + parts.last()
    }
}

/// Joins strings with a separator.
pub fn join_strings(parts: &Vec<String>, sep: &str) -> (r: String)
    ensures
        r@ == join(strs(parts@), sep@),
{
    let mut out = String::new();
    let mut i: usize = 0;
    while i < parts.len()
        invariant
            i <= parts@.len(),
            out@ == join(strs(parts@).subrange(0, i as int), sep@),
        decreases parts.len() - i,
    {
        proof {
            let p = strs(parts@).subrange(0, i + 1);
            assert(p.drop_last() =~= strs(parts@).subrange(0, i as int));
            assert(p.last() == parts@[i as int]@);
        }
        if i > 0 {
            crate::unicode::push_str(&mut out, sep);
        }
        crate::unicode::push_str(&mut out, parts[i].as_str());
        i += 1;
        proof {
            if i == 1 {
                assert(out@ =~= join(strs(parts@).subrange(0, i as int), sep@));
            }
        }
    }
    proof {
        assert(strs(parts@).subrange(0, parts@.len() as int) =~= strs(parts@));
    }
    out
}

/// Decimal digits of a natural number, most significant first.
pub open spec fn digits(n: nat) -> Seq<char>
    decreases n,
{
    if n < 10 {
        seq![(('0' as u32) + n) as char]
    } else {
        digits(n / 10) + seq![(('0' as u32) + (n % 10)) as char]
    }
}

/// The decimal form of an integer (what `{}` prints for `i64`).
pub open spec fn decimal(n: int) -> Seq<char> {
    if n < 0 {
        seq!['-'] + digits((-n) as nat)
    } else {
        digits(n as nat)
    }
}

fn digit_char(d: u64) -> (r: char)
    requires
        d < 10,
    ensures
        r == (('0' as u32) + d) as char,
{
    match d {
        0 => '0',
        1 => '1',
        2 => '2',
        3 => '3',
        4 => '4',
        5 => '5',
        6 => '6',
        7 => '7',
        8 => '8',
        _ => '9',
    }
}

/// Decimal digits of `n`.
pub fn u64_digits(n: u64) -> (r: String)
    ensures
        r@ == digits(n as nat),
    decreases n,
{
    if n < 10 {
        let mut s = String::new();
        crate::unicode::push_char(&mut s, digit_char(n));
        proof {
            assert(s@ =~= digits(n as nat));
        }
        s
    } else {
        let mut s = u64_digits(n / 10);
        crate::unicode::push_char(&mut s, digit_char(n % 10));
        proof {
            assert(s@ =~= digits(n as nat));
        }
        s
    }
}

/// The decimal form of an `i64` (`i64::to_string`).
pub fn i64_decimal(n: i64) -> (r: String)
    ensures
        r@ == decimal(n as int),
{
    if n < 0 {
        let m: u64 = if n == i64::MIN { 9223372036854775808u64 } else { (-n) as u64 };
        let d = u64_digits(m);
        let mut s = String::new();
        crate::unicode::push_char(&mut s, '-');
        crate::unicode::push_str(&mut s, d.as_str());
        proof {
            assert(s@ =~= decimal(n as int));
        }
        s
    } else {
        u64_digits(n as u64)
    }
}

/// `s` padded with spaces on the right to at least `n` characters (`{:<n}`).
pub open spec fn pad_right(s: Seq<char>, n: nat) -> Seq<char> {
    if s.len() >= n {
        s
    } else {
        s + spaces((n - s.len()) as nat)
    }
}

pub fn push_padded(out: &mut String, s: &str, n: usize)
    ensures
        final(out)@ == old(out)@ + pad_right(s@, n as nat),
{
    let cs = crate::unicode::chars_of(s);
    crate::unicode::push_str(out, s);
    if cs.len() < n {
        push_repeat(out, ' ', n - cs.len());
        proof {
            assert(repeat(' ', (n - cs@.len()) as nat) =~= spaces((n - s@.len()) as nat));
        }
    }
}

} // verus!
