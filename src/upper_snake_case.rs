//! Names in upper snake case (`SOME_NAME_1`), as environment variables use them.
use vstd::prelude::*;

use crate::text::{is_digit, push_char};

verus! {

/// An ASCII capital letter.
pub open spec fn is_upper(c: char) -> bool {
    'A' <= c && c <= 'Z'
}

/// An ASCII small letter.
pub open spec fn is_lower(c: char) -> bool {
    'a' <= c && c <= 'z'
}

/// The capital of the ASCII small letter `c`.
pub open spec fn upper_of(c: char) -> char {
    ((c as u32) - 32) as char
}

/// The capital hexadecimal digit of `d`, for `d < 16`.
pub open spec fn hex_digit(d: int) -> char {
    if d < 10 {
        (('0' as u32) + d) as char
    } else {
        (('A' as u32) + d - 10) as char
    }
}

/// The capital hexadecimal digits of `n`, at least four of them.
pub open spec fn hex4(n: int) -> Seq<char>
    decreases n,
{
    if n < 0x10000 {
        seq![hex_digit(n / 0x1000), hex_digit((n / 0x100) % 16), hex_digit((n / 0x10) % 16), hex_digit(n % 16)]
    } else {
        hex4(n / 16).push(hex_digit(n % 16))
    }
}

/// One step of the conversion: the output so far and the previous
/// character kept, then the character `ch` at position `i`.
pub open spec fn snake_step(out: Seq<char>, prev: char, i: int, ch: char) -> (Seq<char>, char) {
    if (ch as u32) > 127 {
        (out + seq!['U', '_'] + hex4(ch as u32 as int), '_')
    } else if ch == '_' || ch == '-' || ch == ' ' {
        (if prev != '_' { out.push('_') } else { out }, '_')
    } else if is_upper(ch) {
        ((if i > 0 && prev != '_' && !is_upper(prev) { out.push('_') } else { out }).push(ch), ch)
    } else if is_lower(ch) {
        (out.push(upper_of(ch)), ch)
    } else if is_digit(ch) {
        ((if !is_digit(prev) && prev != '_' { out.push('_') } else { out }).push(ch), ch)
    } else {
        (out, prev)
    }
}

/// The conversion of the first `n` characters of `s`.
pub open spec fn snake_scan(s: Seq<char>, n: int) -> (Seq<char>, char)
    decreases n,
{
    if n <= 0 {
        (Seq::empty(), '_')
    } else {
        let (out, prev) = snake_scan(s, n - 1);
        snake_step(out, prev, n - 1, s[n - 1])
    }
}

/// `s` in upper snake case: words split at separators (`_`, `-`, space), at
/// a capital after a small letter or digit, and before a digit run; small
/// letters made capital; other ASCII characters dropped; each non-ASCII
/// character written `U_` and its code in at least four capital hex digits;
/// no trailing underscore.
pub open spec fn upper_snake(s: Seq<char>) -> Seq<char> {
    let out = snake_scan(s, s.len() as int).0;
    if out.len() > 0 && out.last() == '_' {
        out.drop_last()
    } else {
        out
    }
}

/// The capital hexadecimal digit of `d`.
fn hex_char(d: u32) -> (r: char)
    requires
        d < 16,
    ensures
        r == hex_digit(d as int),
{
    if d < 10 {
        (('0' as u32 + d) as u8) as char
    } else {
        (('A' as u32 + d - 10) as u8) as char
    }
}

/// Appends the capital hexadecimal digits of `n`, at least four of them.
fn push_hex(out: &mut Vec<char>, n: u32)
    ensures
        final(out)@ == old(out)@ + hex4(n as int),
    decreases n,
{
    if n < 0x10000 {
        out.push(hex_char(n / 0x1000));
        out.push(hex_char((n / 0x100) % 16));
        out.push(hex_char((n / 0x10) % 16));
        out.push(hex_char(n % 16));
        proof {
            assert(final(out)@ =~= old(out)@ + hex4(n as int));
        }
    } else {
        push_hex(out, n / 16);
        out.push(hex_char(n % 16));
        proof {
            assert(final(out)@ =~= old(out)@ + hex4(n as int));
        }
    }
}

/// A string holding the characters of `v`.
pub fn string_of(v: &Vec<char>) -> (r: String)
    ensures
        r@ == v@,
{
    let mut r = String::new();
    let mut i: usize = 0;
    while i < v.len()
        invariant
            i <= v@.len(),
            r@ == v@.subrange(0, i as int),
        decreases v@.len() - i,
    {
        push_char(&mut r, v[i]);
        proof {
            assert(r@ =~= v@.subrange(0, i + 1));
        }
        i += 1;
    }
    proof {
        assert(v@.subrange(0, i as int) == v@);
    }
    r
}

/// `input` in upper snake case, as `upper_snake` says.
pub fn to_upper_snake_case(input: &str) -> (r: String)
    ensures
        r@ == upper_snake(input@),
{
    let ghost s = input@;
    let len = input.unicode_len();
    let mut out: Vec<char> = Vec::new();
    let mut prev: char = '_';
    let mut i: usize = 0;
    while i < len
        invariant
            len == s.len(),
            s == input@,
            i <= len,
            (out@, prev) == snake_scan(s, i as int),
        decreases len - i,
    {
        let ch = input.get_char(i);
        let ghost before = out@;
        if (ch as u32) > 127 {
            out.push('U');
            out.push('_');
            push_hex(&mut out, ch as u32);
            prev = '_';
            proof {
                assert(out@ =~= before + seq!['U', '_'] + hex4(ch as u32 as int));
            }
        } else if ch == '_' || ch == '-' || ch == ' ' {
            if prev != '_' {
                out.push('_');
            }
            prev = '_';
        } else if 'A' <= ch && ch <= 'Z' {
            if i > 0 && prev != '_' && !('A' <= prev && prev <= 'Z') {
                out.push('_');
            }
            out.push(ch);
            prev = ch;
        } else if 'a' <= ch && ch <= 'z' {
            out.push((((ch as u32) - 32) as u8) as char);
            prev = ch;
        } else if '0' <= ch && ch <= '9' {
            if !('0' <= prev && prev <= '9') && prev != '_' {
                out.push('_');
            }
            out.push(ch);
            prev = ch;
        }
        i += 1;
    }
    if out.len() > 0 && out[out.len() - 1] == '_' {
        out.pop();
    }
    string_of(&out)
}

} // verus!
