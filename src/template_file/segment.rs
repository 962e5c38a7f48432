//! Key segments of the template language: a quoted string with escapes, or
//! a run of alphanumeric characters, underscores and hyphens.
use vstd::prelude::*;

use crate::text::{alphanumeric, is_alphanumeric, push_char};

verus! {

/// Why no segment could be read.
#[derive(Debug, PartialEq, Eq, Structural)]
pub enum ParseSegmentError {
    UnclosedQuote,
    NoSegment,
}

/// A character of an unquoted segment.
pub open spec fn is_word_char(c: char) -> bool {
    alphanumeric(c) || c == '_' || c == '-'
}

/// A character that opens a quoted segment.
pub open spec fn is_quote(c: char) -> bool {
    c == '"' || c == '\''
}

/// The number of segment characters in a row in `s` from position `i`.
pub open spec fn word_run(s: Seq<char>, i: int) -> int
    decreases s.len() - i,
{
    if 0 <= i < s.len() && is_word_char(s[i]) {
        1 + word_run(s, i + 1)
    } else {
        0
    }
}

/// What the escape of `c` stands for inside a string quoted by `q`: the
/// backslash, the quote, a newline, a carriage return or a tab; any other
/// character keeps its backslash.
pub open spec fn escape_of(c: char, q: char) -> Seq<char> {
    if c == '\\' {
        seq!['\\']
    } else if c == q {
        seq![q]
    } else if c == 'n' {
        seq!['\n']
    } else if c == 'r' {
        seq!['\r']
    } else if c == 't' {
        seq!['\t']
    } else {
        seq!['\\', c]
    }
}

/// The content of a string quoted by `q` whose body starts at position `i`
/// of `s`, with the position just past the closing quote; `None` when the
/// quote is not closed.
pub open spec fn scan_quoted(s: Seq<char>, q: char, i: int) -> Option<(Seq<char>, int)>
    decreases s.len() - i,
{
    if i < 0 || i >= s.len() {
        None
    } else if s[i] == '\\' {
        if i + 1 >= s.len() {
            None
        } else {
            match scan_quoted(s, q, i + 2) {
                Some((t, e)) => Some((escape_of(s[i + 1], q) + t, e)),
                None => None,
            }
        }
    } else if s[i] == q {
        Some((Seq::empty(), i + 1))
    } else {
        match scan_quoted(s, q, i + 1) {
            Some((t, e)) => Some((seq![s[i]] + t, e)),
            None => None,
        }
    }
}

/// The segment at the start of `s` and the position where it ends.
pub open spec fn segment_of(s: Seq<char>) -> Result<(Seq<char>, int), ParseSegmentError> {
    if s.len() == 0 {
        Ok((Seq::empty(), 0))
    } else if is_quote(s[0]) {
        match scan_quoted(s, s[0], 1) {
            Some((t, e)) => Ok((t, e)),
            None => Err(ParseSegmentError::UnclosedQuote),
        }
    } else if is_word_char(s[0]) {
        Ok((s.subrange(0, word_run(s, 0)), word_run(s, 0)))
    } else {
        Err(ParseSegmentError::NoSegment)
    }
}

pub proof fn lemma_word_run_bounds(s: Seq<char>, i: int)
    requires
        0 <= i <= s.len(),
    ensures
        0 <= word_run(s, i) <= s.len() - i,
        forall|k: int| i <= k < i + word_run(s, i) ==> is_word_char(#[trigger] s[k]),
        i + word_run(s, i) < s.len() ==> !is_word_char(s[i + word_run(s, i)]),
    decreases s.len() - i,
{
    if i < s.len() && is_word_char(s[i]) {
        lemma_word_run_bounds(s, i + 1);
    }
}

pub proof fn lemma_scan_end(s: Seq<char>, q: char, i: int)
    requires
        scan_quoted(s, q, i) is Some,
    ensures
        ({
            let (t, e) = scan_quoted(s, q, i)->0;
            i < e <= s.len()
        }),
    decreases s.len() - i,
{
    if s[i] == '\\' {
        lemma_scan_end(s, q, i + 2);
    } else if s[i] != q {
        lemma_scan_end(s, q, i + 1);
    }
}

/// Reads the segment at the start of `input`: a string quoted by `"` or `'`
/// (with its escapes decoded), or else the longest run of alphanumeric
/// characters, underscores and hyphens. Returns the segment and the rest of
/// `input`; an empty input gives an empty segment.
pub fn parse_segment(input: &str) -> (r: Result<(String, &str), ParseSegmentError>)
    ensures
        match (r, segment_of(input@)) {
            (Ok((seg, rest)), Ok((t, e))) => seg@ == t && 0 <= e <= input@.len() && rest@ == input@.subrange(e, input@.len() as int),
            (Err(a), Err(b)) => a == b,
            _ => false,
        },
{
    let ghost s = input@;
    let len = input.unicode_len();
    let mut result = String::new();
    if len == 0 {
        proof {
            assert(s.subrange(0, 0) =~= s);
        }
        return Ok((result, input));
    }
    let first = input.get_char(0);
    if first == '"' || first == '\'' {
        let q = first;
        let mut i: usize = 1;
        while i < len
            invariant
                len == s.len(),
                s == input@,
                q == s[0],
                s.len() > 0,
                is_quote(s[0]),
                1 <= i,
                scan_quoted(s, q, 1) == match scan_quoted(s, q, i as int) {
                    Some((t, e)) => Some((result@ + t, e)),
                    None => None,
                },
            decreases len - i,
        {
            let c = input.get_char(i);
            if c == '\\' {
                if i + 1 >= len {
                    proof {
                        assert(scan_quoted(s, q, i as int) is None);
                    }
                    return Err(ParseSegmentError::UnclosedQuote);
                }
                let ghost acc = result@;
                let e = input.get_char(i + 1);
                if e == '\\' {
                    push_char(&mut result, '\\');
                } else if e == q {
                    push_char(&mut result, q);
                } else if e == 'n' {
                    push_char(&mut result, '\n');
                } else if e == 'r' {
                    push_char(&mut result, '\r');
                } else if e == 't' {
                    push_char(&mut result, '\t');
                } else {
                    push_char(&mut result, '\\');
                    push_char(&mut result, e);
                }
                proof {
                    assert(result@ =~= acc + escape_of(e, q));
                    assert forall|t: Seq<char>| acc + (escape_of(e, q) + t) == result@ + t by {
                        assert(acc + (escape_of(e, q) + t) =~= result@ + t);
                    }
                }
                i = i + 2;
            } else if c == q {
                proof {
                    assert(result@ + Seq::<char>::empty() =~= result@);
                }
                return Ok((result, input.substring_char(i + 1, len)));
            } else {
                let ghost acc = result@;
                push_char(&mut result, c);
                proof {
                    assert forall|t: Seq<char>| acc + (seq![c] + t) == result@ + t by {
                        assert(acc + (seq![c] + t) =~= result@ + t);
                    }
                }
                i = i + 1;
            }
        }
        return Err(ParseSegmentError::UnclosedQuote);
    }
    if !(is_alphanumeric(first) || first == '_' || first == '-') {
        return Err(ParseSegmentError::NoSegment);
    }
    proof {
        lemma_word_run_bounds(s, 0);
    }
    let ghost run = word_run(s, 0);
    let mut i: usize = 0;
    while i < len
        invariant
            len == s.len(),
            s == input@,
            0 <= run <= s.len(),
            forall|k: int| 0 <= k < run ==> is_word_char(#[trigger] s[k]),
            run < s.len() ==> !is_word_char(s[run]),
            s.len() > 0,
            !is_quote(s[0]),
            is_word_char(s[0]),
            run == word_run(s, 0),
            i <= run,
            result@ == s.subrange(0, i as int),
        decreases len - i,
    {
        let c = input.get_char(i);
        if !(is_alphanumeric(c) || c == '_' || c == '-') {
            return Ok((result, input.substring_char(i, len)));
        }
        push_char(&mut result, c);
        proof {
            assert(result@ =~= s.subrange(0, i + 1));
        }
        i += 1;
    }
    Ok((result, input.substring_char(i, len)))
}

} // verus!
