//! The template language of copied files: `{{ name.key[0]["a b"] }}` is
//! replaced by the value it designates; `\{{` writes `{{` and `\\` before
//! `{{` writes one backslash.
pub mod integer;
pub mod segment;

use vstd::prelude::*;

use crate::template_file::integer::{integer_digits, magnitude_limit, negative, parse_integer, sign_len};
use crate::template_file::segment::{parse_segment, segment_of, ParseSegmentError};
use crate::ancestor_mapping::position_of_key;
use crate::template_file::integer::lemma_digit_run_bounds;
use crate::template_file::segment::{lemma_scan_end, lemma_word_run_bounds};
use crate::text::{digits_value, is_whitespace, push_char, whitespace};
use crate::json_text::{json_text, json_text_of};
use crate::value::{doc_of, doc_wf, json_of, lemma_doc_of, value_wf, Document, Json, JsonValue};

verus! {

/// Why a template could not be rendered.
#[derive(Debug)]
pub enum TemplateError {
    VariableError(VariableError),
    SyntaxError(String),
}

/// Why a variable could not be rendered.
#[derive(Debug)]
pub enum VariableError {
    MissingVariable(String),
    KeyNotFound(String),
    IndexOutOfBounds(usize, usize),
    InvalidType(String, String),
}

/// One step from a value into one of its parts.
pub enum Modifier {
    Index(u64),
    Key(String),
}

/// A variable: a name followed by steps into its value.
pub struct Variable {
    pub base: String,
    pub modifiers: Vec<Modifier>,
}

/// The model of a step.
pub enum Step {
    Index(int),
    Key(Seq<char>),
}

/// The model of a modifier.
pub open spec fn step_of(m: Modifier) -> Step {
    match m {
        Modifier::Index(i) => Step::Index(i as int),
        Modifier::Key(k) => Step::Key(k@),
    }
}

/// The first character of `s` and the rest.
pub open spec fn first_of(s: Seq<char>) -> Option<(char, Seq<char>)> {
    if s.len() > 0 {
        Some((s[0], s.subrange(1, s.len() as int)))
    } else {
        None
    }
}

/// The number of whitespace characters in a row in `s` from position `i`.
pub open spec fn ws_run(s: Seq<char>, i: int) -> int
    decreases s.len() - i,
{
    if 0 <= i < s.len() && whitespace(s[i]) {
        1 + ws_run(s, i + 1)
    } else {
        0
    }
}

/// `s` without its leading whitespace.
pub open spec fn strip_ws(s: Seq<char>) -> Seq<char> {
    s.subrange(ws_run(s, 0), s.len() as int)
}

/// A key segment as the template language reads it, with the rest of `s`.
pub open spec fn segment_step(s: Seq<char>) -> Result<(Seq<char>, Seq<char>), Seq<char>> {
    match segment_of(s) {
        Ok((t, e)) => Ok((t, s.subrange(e, s.len() as int))),
        Err(ParseSegmentError::UnclosedQuote) => Err("Unclosed quote"@),
        Err(ParseSegmentError::NoSegment) => Err("Missing segment"@),
    }
}

/// The access inside brackets: an integer index, or else a key segment.
pub open spec fn access_step(s: Seq<char>) -> Result<(Step, Seq<char>), Seq<char>> {
    let ds = integer_digits(s);
    let v = digits_value(ds);
    if ds.len() > 0 && v <= magnitude_limit(s) {
        if negative(s) && v != 0 {
            Err("Negative index"@)
        } else {
            Ok((Step::Index(v), s.subrange(sign_len(s) + ds.len(), s.len() as int)))
        }
    } else {
        match segment_step(s) {
            Ok((t, r)) => Ok((Step::Key(t), r)),
            Err(m) => Err(m),
        }
    }
}

/// One step: `.segment` or `[access]`.
pub open spec fn modifier_step(s: Seq<char>) -> Result<(Step, Seq<char>), Seq<char>> {
    match first_of(s) {
        Some(('.', r)) => match segment_step(r) {
            Ok((t, r2)) => Ok((Step::Key(t), r2)),
            Err(m) => Err(m),
        },
        Some(('[', r)) => match access_step(r) {
            Ok((st, r2)) => match first_of(r2) {
                Some((c, r3)) => if c == ']' {
                    Ok((st, r3))
                } else {
                    Err("Unexpected character: "@.push(c))
                },
                None => Err("Unexpected EOF"@),
            },
            Err(m) => Err(m),
        },
        Some((c, _)) => Err("Unexpected character: "@.push(c)),
        None => Err("Unexpected EOF"@),
    }
}

/// The steps at the start of `s`, as many as follow one another, and the rest.
pub open spec fn modifiers_step(s: Seq<char>) -> (Seq<Step>, Seq<char>)
    decreases s.len(),
{
    match modifier_step(s) {
        Ok((st, r)) => if r.len() < s.len() {
            let (more, r2) = modifiers_step(r);
            (seq![st] + more, r2)
        } else {
            (Seq::empty(), s)
        },
        Err(_) => (Seq::empty(), s),
    }
}

/// A message, as an owned string.
fn message(s: &str) -> (r: String)
    ensures
        r@ == s@,
{
    s.to_owned()
}

/// Splits the first character off `span`.
fn take_first(span: &str) -> (r: Option<(char, &str)>)
    ensures
        match (r, first_of(span@)) {
            (Some((c, rest)), Some((c2, rest2))) => c == c2 && rest@ == rest2,
            (None, None) => true,
            _ => false,
        },
{
    let len = span.unicode_len();
    if len == 0 {
        None
    } else {
        Some((span.get_char(0), span.substring_char(1, len)))
    }
}

proof fn lemma_ws_run_bounds(s: Seq<char>, i: int)
    requires
        0 <= i <= s.len(),
    ensures
        0 <= ws_run(s, i) <= s.len() - i,
        forall|k: int| i <= k < i + ws_run(s, i) ==> whitespace(#[trigger] s[k]),
        i + ws_run(s, i) < s.len() ==> !whitespace(s[i + ws_run(s, i)]),
    decreases s.len() - i,
{
    if i < s.len() && whitespace(s[i]) {
        lemma_ws_run_bounds(s, i + 1);
    }
}

/// `span` without its leading whitespace.
fn strip_whitespace_left(span: &str) -> (r: &str)
    ensures
        r@ == strip_ws(span@),
{
    let len = span.unicode_len();
    proof {
        lemma_ws_run_bounds(span@, 0);
    }
    let mut i: usize = 0;
    while i < len && is_whitespace(span.get_char(i))
        invariant
            len == span@.len(),
            0 <= ws_run(span@, 0) <= len,
            forall|k: int| 0 <= k < ws_run(span@, 0) ==> whitespace(#[trigger] span@[k]),
            ws_run(span@, 0) < len ==> !whitespace(span@[ws_run(span@, 0)]),
            i <= ws_run(span@, 0),
        decreases len - i,
    {
        i += 1;
    }
    span.substring_char(i, len)
}

/// A key segment, with the template language's messages for its errors.
fn parse_segment_template(input: &str) -> (r: Result<(String, &str), TemplateError>)
    ensures
        match (r, segment_step(input@)) {
            (Ok((t, rest)), Ok((t2, rest2))) => t@ == t2 && rest@ == rest2,
            (Err(TemplateError::SyntaxError(m)), Err(m2)) => m@ == m2,
            _ => false,
        },
{
    match parse_segment(input) {
        Ok((t, rest)) => Ok((t, rest)),
        Err(ParseSegmentError::UnclosedQuote) => Err(TemplateError::SyntaxError(message("Unclosed quote"))),
        Err(ParseSegmentError::NoSegment) => Err(TemplateError::SyntaxError(message("Missing segment"))),
    }
}

/// The access inside brackets: a non-negative integer index, or else a key.
fn parse_access(input: &str) -> (r: Result<(Modifier, &str), TemplateError>)
    ensures
        match (r, access_step(input@)) {
            (Ok((m, rest)), Ok((st, rest2))) => step_of(m) == st && rest@ == rest2,
            (Err(TemplateError::SyntaxError(m)), Err(m2)) => m@ == m2,
            _ => false,
        },
{
    let parsed = parse_integer(input);
    proof {
        let ds = integer_digits(input@);
        let v = digits_value(ds);
        match parsed {
            Ok((n, rest)) => {
                assert(ds.len() > 0 && v <= magnitude_limit(input@));
                assert(n == (if negative(input@) { -v } else { v }));
                assert(v >= 0) by {
                    crate::template_file::integer::lemma_digits_nonneg_of(input@);
                }
            },
            Err(_) => {},
        }
    }
    match parsed {
        Ok((index, rest)) => {
            if index < 0 {
                Err(TemplateError::SyntaxError(message("Negative index")))
            } else {
                Ok((Modifier::Index(index as u64), rest))
            }
        },
        Err(_) => match parse_segment_template(input) {
            Ok((t, rest)) => Ok((Modifier::Key(t), rest)),
            Err(e) => Err(e),
        },
    }
}

/// "Unexpected character: " and `c`.
fn unexpected(c: char) -> (r: TemplateError)
    ensures
        r matches TemplateError::SyntaxError(m) && m@ == "Unexpected character: "@.push(c),
{
    let mut m = message("Unexpected character: ");
    push_char(&mut m, c);
    TemplateError::SyntaxError(m)
}

/// One step: `.segment` or `[access]`.
fn parse_modifier(input: &str) -> (r: Result<(Modifier, &str), TemplateError>)
    ensures
        match (r, modifier_step(input@)) {
            (Ok((m, rest)), Ok((st, rest2))) => step_of(m) == st && rest@ == rest2,
            (Err(TemplateError::SyntaxError(m)), Err(m2)) => m@ == m2,
            _ => false,
        },
{
    match take_first(input) {
        Some((c, rest)) => {
            if c == '.' {
                match parse_segment_template(rest) {
                    Ok((t, rest)) => Ok((Modifier::Key(t), rest)),
                    Err(e) => Err(e),
                }
            } else if c == '[' {
                match parse_access(rest) {
                    Ok((m, rest)) => match take_first(rest) {
                        Some((c2, rest2)) => {
                            if c2 == ']' {
                                Ok((m, rest2))
                            } else {
                                Err(unexpected(c2))
                            }
                        },
                        None => Err(TemplateError::SyntaxError(message("Unexpected EOF"))),
                    },
                    Err(e) => Err(e),
                }
            } else {
                Err(unexpected(c))
            }
        },
        None => Err(TemplateError::SyntaxError(message("Unexpected EOF"))),
    }
}

/// A variable at the start of `s`: its name, its steps, and the rest.
pub open spec fn variable_step(s: Seq<char>) -> Result<(Seq<char>, Seq<Step>, Seq<char>), Seq<char>> {
    match segment_step(s) {
        Ok((t, r)) => {
            let (steps, r2) = modifiers_step(r);
            Ok((t, steps, r2))
        },
        Err(m) => Err(m),
    }
}

/// The model of a variable error.
pub enum VarFault {
    MissingVariable(Seq<char>),
    KeyNotFound(Seq<char>),
    IndexOutOfBounds(int, int),
    InvalidType(Seq<char>, Seq<char>),
}

/// The model of a template error.
pub enum TemplateFault {
    Variable(VarFault),
    Syntax(Seq<char>),
}

/// The name of the kind of a value.
pub open spec fn kind_name(j: Json) -> Seq<char> {
    match j {
        Json::Str(_) => "string"@,
        Json::Number(_) => "number"@,
        Json::Bool(_) => "boolean"@,
        Json::Array(_) => "array"@,
        Json::Object(_) => "object"@,
        Json::Null => "null"@,
    }
}

/// The part of `j` that `steps` lead to.
pub open spec fn navigate(j: Json, steps: Seq<Step>) -> Result<Json, VarFault>
    decreases steps.len(),
{
    if steps.len() == 0 {
        Ok(j)
    } else {
        let next = match steps[0] {
            Step::Index(i) => match j {
                Json::Array(items) => if i < items.len() {
                    Ok(items[i])
                } else {
                    Err(VarFault::IndexOutOfBounds(i, items.len() as int))
                },
                _ => Err(VarFault::InvalidType("array"@, kind_name(j))),
            },
            Step::Key(k) => match j {
                Json::Object(m) => if m.contains_key(k) {
                    Ok(m[k])
                } else {
                    Err(VarFault::KeyNotFound(k))
                },
                _ => Err(VarFault::InvalidType("object"@, kind_name(j))),
            },
        };
        match next {
            Ok(p) => navigate(p, steps.subrange(1, steps.len() as int)),
            Err(e) => Err(e),
        }
    }
}


/// The text a value is rendered as: a string as it is, a number as its
/// decimal text, `true`, `false`, `null`, and arrays and objects as JSON.
pub open spec fn text_of(j: Json) -> Seq<char> {
    match j {
        Json::Str(s) => s,
        Json::Number(n) => n,
        Json::Bool(b) => if b {
            "true"@
        } else {
            "false"@
        },
        Json::Null => "null"@,
        _ => json_text(j),
    }
}

/// The rendering of the variable `base` followed by `steps`.
pub open spec fn render_var(base: Seq<char>, steps: Seq<Step>, vars: Map<Seq<char>, Json>) -> Result<Seq<char>, VarFault> {
    if vars.contains_key(base) {
        match navigate(vars[base], steps) {
            Ok(j) => Ok(text_of(j)),
            Err(e) => Err(e),
        }
    } else {
        Err(VarFault::MissingVariable(base))
    }
}

/// Whether the exec variable error `e` is the fault `f`.
pub open spec fn variable_error_is(e: VariableError, f: VarFault) -> bool {
    match (e, f) {
        (VariableError::MissingVariable(a), VarFault::MissingVariable(b)) => a@ == b,
        (VariableError::KeyNotFound(a), VarFault::KeyNotFound(b)) => a@ == b,
        (VariableError::IndexOutOfBounds(a, b), VarFault::IndexOutOfBounds(c, d)) => a == c as usize && b as int == d,
        (VariableError::InvalidType(a, b), VarFault::InvalidType(c, d)) => a@ == c && b@ == d,
        _ => false,
    }
}

/// Whether the exec template error `e` is the fault `f`.
pub open spec fn template_error_is(e: TemplateError, f: TemplateFault) -> bool {
    match (e, f) {
        (TemplateError::VariableError(a), TemplateFault::Variable(b)) => variable_error_is(a, b),
        (TemplateError::SyntaxError(a), TemplateFault::Syntax(b)) => a@ == b,
        _ => false,
    }
}

/// The steps of a list of modifiers.
pub open spec fn steps_of(ms: Seq<Modifier>) -> Seq<Step> {
    ms.map_values(|m: Modifier| step_of(m))
}

proof fn lemma_segment_step_shrinks(s: Seq<char>)
    ensures
        segment_step(s) matches Ok((t, r)) ==> r.len() <= s.len(),
{
    if s.len() > 0 {
        if s[0] == '"' || s[0] == '\'' {
            if scan_quoted_some(s) {
                lemma_scan_end(s, s[0], 1);
            }
        } else {
            lemma_word_run_bounds(s, 0);
        }
    }
}

/// Whether the quoted string at the start of `s` is closed.
pub open spec fn scan_quoted_some(s: Seq<char>) -> bool {
    crate::template_file::segment::scan_quoted(s, s[0], 1) is Some
}

proof fn lemma_access_step_shrinks(s: Seq<char>)
    ensures
        access_step(s) matches Ok((st, r)) ==> r.len() <= s.len(),
{
    lemma_digit_run_bounds(s, sign_len(s));
    lemma_segment_step_shrinks(s);
}

proof fn lemma_modifier_step_shrinks(s: Seq<char>)
    ensures
        modifier_step(s) matches Ok((st, r)) ==> r.len() < s.len(),
{
    if s.len() > 0 {
        let r = s.subrange(1, s.len() as int);
        lemma_segment_step_shrinks(r);
        lemma_access_step_shrinks(r);
        if let Ok((st, r2)) = access_step(r) {
            if r2.len() > 0 {
                assert(r2.subrange(1, r2.len() as int).len() < r2.len());
            }
        }
    }
}

proof fn lemma_modifiers_step_shrinks(s: Seq<char>)
    ensures
        modifiers_step(s).1.len() <= s.len(),
    decreases s.len(),
{
    if let Ok((st, r)) = modifier_step(s) {
        if r.len() < s.len() {
            lemma_modifiers_step_shrinks(r);
        }
    }
}

/// The steps that follow one another at the start of `input`, and the rest.
fn parse_modifiers(input: &str) -> (r: Result<(Vec<Modifier>, &str), TemplateError>)
    ensures
        match r {
            Ok((ms, rest)) => steps_of(ms@) == modifiers_step(input@).0 && rest@ == modifiers_step(input@).1,
            Err(_) => false,
        },
{
    let mut modifiers: Vec<Modifier> = Vec::new();
    let mut span = input;
    loop
        invariant
            steps_of(modifiers@) + modifiers_step(span@).0 == modifiers_step(input@).0,
            modifiers_step(span@).1 == modifiers_step(input@).1,
        decreases span@.len(),
    {
        let ghost before = modifiers@;
        match parse_modifier(span) {
            Ok((m, rest)) => {
                proof {
                    lemma_modifier_step_shrinks(span@);
                    let (more, r2) = modifiers_step(rest@);
                    assert(modifiers_step(span@) == (seq![step_of(m)] + more, r2));
                }
                modifiers.push(m);
                proof {
                    assert(steps_of(modifiers@) =~= steps_of(before).push(step_of(m)));
                    assert(steps_of(modifiers@) + modifiers_step(rest@).0 =~= steps_of(before) + (seq![step_of(m)] + modifiers_step(rest@).0));
                }
                span = rest;
            },
            Err(_) => {
                proof {
                    assert(steps_of(modifiers@) + Seq::<Step>::empty() =~= steps_of(modifiers@));
                }
                return Ok((modifiers, span));
            },
        }
    }
}

/// A variable at the start of `input`: its name and its steps.
fn parse_variable(input: &str) -> (r: Result<(Variable, &str), TemplateError>)
    ensures
        match (r, variable_step(input@)) {
            (Ok((v, rest)), Ok((base, steps, rest2))) => v.base@ == base && steps_of(v.modifiers@) == steps && rest@ == rest2,
            (Err(TemplateError::SyntaxError(m)), Err(m2)) => m@ == m2,
            _ => false,
        },
{
    let (segment, rest) = match parse_segment_template(input) {
        Ok(p) => p,
        Err(e) => {
            return Err(e);
        },
    };
    let (modifiers, rest) = match parse_modifiers(rest) {
        Ok(p) => p,
        Err(e) => {
            return Err(e);
        },
    };
    Ok((Variable { base: segment, modifiers }, rest))
}

/// The name of the kind of `value`.
pub fn value_type(value: &JsonValue) -> (r: String)
    ensures
        r@ == kind_name(json_of(*value)),
{
    match value {
        JsonValue::String(_) => message("string"),
        JsonValue::Number(_) => message("number"),
        JsonValue::Bool(_) => message("boolean"),
        JsonValue::Array(_) => message("array"),
        JsonValue::Object(_) => message("object"),
        JsonValue::Null => message("null"),
    }
}

/// The text that `variable` designates in `variables`.
fn render_variable(variable: &Variable, variables: &Document) -> (r: Result<String, VariableError>)
    requires
        doc_wf(variables@),
    ensures
        match (r, render_var(variable.base@, steps_of(variable.modifiers@), doc_of(variables@))) {
            (Ok(t), Ok(t2)) => t@ == t2,
            (Err(e), Err(f)) => variable_error_is(e, f),
            _ => false,
        },
{
    proof {
        lemma_doc_of(variables@);
    }
    let i = match position_of_key(variables, &variable.base) {
        Some(i) => i,
        None => {
            return Err(VariableError::MissingVariable(variable.base.clone()));
        },
    };
    let ghost steps = steps_of(variable.modifiers@);
    let mut value: &JsonValue = &variables[i].1;
    proof {
        assert(steps.subrange(0, steps.len() as int) == steps);
        assert(doc_of(variables@)[variable.base@] == json_of(variables@[i as int].1));
        assert(value_wf(variables@[i as int].1));
    }
    let mut k: usize = 0;
    while k < variable.modifiers.len()
        invariant
            k <= variable.modifiers@.len(),
            steps == steps_of(variable.modifiers@),
            value_wf(*value),
            render_var(variable.base@, steps, doc_of(variables@)) == match navigate(json_of(*value), steps.subrange(k as int, steps.len() as int)) {
                Ok(j) => Ok(text_of(j)),
                Err(e) => Err(e),
            },
        decreases variable.modifiers@.len() - k,
    {
        let ghost rest = steps.subrange(k as int, steps.len() as int);
        proof {
            assert(rest[0] == step_of(variable.modifiers@[k as int]));
            assert(rest.subrange(1, rest.len() as int) =~= steps.subrange(k + 1, steps.len() as int));
        }
        match &variable.modifiers[k] {
            Modifier::Index(index) => match value {
                JsonValue::Array(items) => {
                    if *index < items.len() as u64 {
                        proof {
                            crate::value::lemma_wf_item(*value, *index as int);
                        }
                        value = &items[*index as usize];
                    } else {
                        return Err(VariableError::IndexOutOfBounds(#[verifier::truncate] (*index as usize), items.len()));
                    }
                },
                _ => {
                    return Err(VariableError::InvalidType(message("array"), value_type(value)));
                },
            },
            Modifier::Key(key) => match value {
                JsonValue::Object(entries) => {
                    proof {
                        lemma_doc_of(entries@);
                    }
                    match position_of_key(entries, key) {
                        Some(j) => {
                            value = &entries[j].1;
                        },
                        None => {
                            return Err(VariableError::KeyNotFound(key.clone()));
                        },
                    }
                },
                _ => {
                    return Err(VariableError::InvalidType(message("object"), value_type(value)));
                },
            },
        }
        k += 1;
    }
    proof {
        assert(steps.subrange(k as int, steps.len() as int) =~= Seq::<Step>::empty());
    }
    match value {
        JsonValue::String(s) => Ok(s.clone()),
        JsonValue::Number(n) => Ok(n.clone()),
        JsonValue::Bool(b) => Ok(if *b { message("true") } else { message("false") }),
        JsonValue::Null => Ok(message("null")),
        _ => Ok(json_text_of(value)),
    }
}

/// Where the renderer stands after the characters read so far.
pub enum RenderState {
    Text,
    Brace,
    Escape,
    DoubleEscape,
    EscapeBrace1,
    VariableEnd1,
    VariableEnd2,
}

/// `p` written before what `r` renders.
pub open spec fn prepend(p: Seq<char>, r: Result<Seq<char>, TemplateFault>) -> Result<Seq<char>, TemplateFault> {
    match r {
        Ok(t) => Ok(p + t),
        Err(e) => Err(e),
    }
}

/// What is written when the input ends in state `st`: a pending brace or
/// backslash is written as it is; an open variable is an error.
pub open spec fn finish(st: RenderState) -> Result<Seq<char>, TemplateFault> {
    match st {
        RenderState::Text => Ok(Seq::empty()),
        RenderState::Brace => Ok(seq!['{']),
        RenderState::Escape => Ok(seq!['\\']),
        RenderState::DoubleEscape => Ok(seq!['\\', '\\']),
        RenderState::EscapeBrace1 => Ok(seq!['\\', '{']),
        _ => Err(TemplateFault::Syntax("Unclosed variable"@)),
    }
}

/// What the rest `s` of a template renders to from state `st`.
pub open spec fn render_from(s: Seq<char>, st: RenderState, vars: Map<Seq<char>, Json>) -> Result<Seq<char>, TemplateFault>
    decreases s.len(),
{
    if s.len() == 0 {
        finish(st)
    } else {
        let c = s[0];
        let r = s.subrange(1, s.len() as int);
        match st {
            RenderState::Text => if c == '{' {
                render_from(r, RenderState::Brace, vars)
            } else if c == '\\' {
                render_from(r, RenderState::Escape, vars)
            } else {
                prepend(seq![c], render_from(r, RenderState::Text, vars))
            },
            RenderState::Brace => if c == '{' {
                match variable_step(strip_ws(r)) {
                    Err(m) => Err(TemplateFault::Syntax(m)),
                    Ok((base, steps, r2)) => match render_var(base, steps, vars) {
                        Err(e) => Err(TemplateFault::Variable(e)),
                        Ok(text) => if r2.len() < s.len() {
                            prepend(text, render_from(r2, RenderState::VariableEnd1, vars))
                        } else {
                            Err(TemplateFault::Syntax(Seq::empty()))
                        },
                    },
                }
            } else if c == '\\' {
                prepend(seq!['{'], render_from(r, RenderState::Escape, vars))
            } else {
                prepend(seq!['{', c], render_from(r, RenderState::Text, vars))
            },
            RenderState::Escape => if c == '{' {
                render_from(r, RenderState::EscapeBrace1, vars)
            } else if c == '\\' {
                render_from(r, RenderState::DoubleEscape, vars)
            } else {
                prepend(seq!['\\', c], render_from(r, RenderState::Text, vars))
            },
            RenderState::DoubleEscape => if c == '{' {
                prepend(seq!['\\'], render_from(r, RenderState::Brace, vars))
            } else {
                prepend(seq!['\\', '\\', c], render_from(r, RenderState::Text, vars))
            },
            RenderState::EscapeBrace1 => if c == '{' {
                prepend(seq!['{', '{'], render_from(r, RenderState::Text, vars))
            } else {
                prepend(seq!['\\', '{', c], render_from(r, RenderState::Text, vars))
            },
            RenderState::VariableEnd1 => if c == '}' {
                render_from(r, RenderState::VariableEnd2, vars)
            } else if whitespace(c) {
                render_from(r, RenderState::VariableEnd1, vars)
            } else {
                Err(TemplateFault::Syntax("Unexpected character: "@.push(c)))
            },
            RenderState::VariableEnd2 => if c == '}' {
                render_from(r, RenderState::Text, vars)
            } else if whitespace(c) {
                render_from(r, RenderState::VariableEnd2, vars)
            } else {
                Err(TemplateFault::Syntax("Unexpected character: "@.push(c)))
            },
        }
    }
}

proof fn lemma_prepend(out: Seq<char>, p: Seq<char>, x: Result<Seq<char>, TemplateFault>)
    ensures
        prepend(out, prepend(p, x)) == prepend(out + p, x),
{
    if let Ok(t) = x {
        assert(out + (p + t) =~= (out + p) + t);
    }
}

proof fn lemma_variable_step_shrinks(s: Seq<char>)
    ensures
        variable_step(s) matches Ok((b, st, r)) ==> r.len() <= s.len(),
{
    lemma_segment_step_shrinks(s);
    if let Ok((t, r)) = segment_step(s) {
        lemma_modifiers_step_shrinks(r);
    }
}

/// Appends the characters of `t` to `out`.
fn push_all(out: &mut String, t: &String)
    ensures
        final(out)@ == old(out)@ + t@,
{
    out.append(t.as_str());
}

/// Renders the template `content` with `variables`: each `{{ variable }}`
/// is replaced by the text of the value it designates, `\{{` writes `{{`,
/// and a backslash before `{` or before another backslash escapes it.
pub fn template_file(content: &str, variables: &Document) -> (r: Result<String, TemplateError>)
    requires
        doc_wf(variables@),
    ensures
        match (r, render_from(content@, RenderState::Text, doc_of(variables@))) {
            (Ok(t), Ok(t2)) => t@ == t2,
            (Err(e), Err(f)) => template_error_is(e, f),
            _ => false,
        },
{
    let ghost vars = doc_of(variables@);
    let mut state = RenderState::Text;
    let mut output = String::new();
    let mut input = content;
    proof {
        assert(Seq::<char>::empty() + content@ =~= content@);
        lemma_prepend_empty(render_from(content@, RenderState::Text, vars));
    }
    loop
        invariant
            doc_wf(variables@),
            vars == doc_of(variables@),
            render_from(content@, RenderState::Text, vars) == prepend(output@, render_from(input@, state, vars)),
        ensures
            input@.len() == 0,
            render_from(content@, RenderState::Text, vars) == prepend(output@, render_from(input@, state, vars)),
        decreases input@.len(),
    {
        let ghost s = input@;
        let ghost before = output@;
        let (c, rest) = match take_first(input) {
            Some(p) => p,
            None => {
                break;
            },
        };
        proof {
            assert(s.len() > 0 && c == s[0] && rest@ == s.subrange(1, s.len() as int));
        }
        input = rest;
        match state {
            RenderState::Text => {
                if c == '{' {
                    state = RenderState::Brace;
                } else if c == '\\' {
                    state = RenderState::Escape;
                } else {
                    push_char(&mut output, c);
                    proof {
                        assert(output@ =~= before + seq![c]);
                        lemma_prepend(before, seq![c], render_from(rest@, RenderState::Text, vars));
                    }
                }
            },
            RenderState::Brace => {
                if c == '{' {
                    let stripped = strip_whitespace_left(input);
                    let (var, after) = match parse_variable(stripped) {
                        Ok(p) => p,
                        Err(e) => {
                            return Err(e);
                        },
                    };
                    let text = match render_variable(&var, variables) {
                        Ok(t) => t,
                        Err(e) => {
                            return Err(TemplateError::VariableError(e));
                        },
                    };
                    proof {
                        lemma_ws_run_bounds(rest@, 0);
                        lemma_variable_step_shrinks(strip_ws(rest@));
                        lemma_prepend(before, text@, render_from(after@, RenderState::VariableEnd1, vars));
                    }
                    input = after;
                    push_all(&mut output, &text);
                    state = RenderState::VariableEnd1;
                } else if c == '\\' {
                    push_char(&mut output, '{');
                    proof {
                        assert(output@ =~= before + seq!['{']);
                        lemma_prepend(before, seq!['{'], render_from(rest@, RenderState::Escape, vars));
                    }
                    state = RenderState::Escape;
                } else {
                    push_char(&mut output, '{');
                    push_char(&mut output, c);
                    proof {
                        assert(output@ =~= before + seq!['{', c]);
                        lemma_prepend(before, seq!['{', c], render_from(rest@, RenderState::Text, vars));
                    }
                    state = RenderState::Text;
                }
            },
            RenderState::Escape => {
                if c == '{' {
                    state = RenderState::EscapeBrace1;
                } else if c == '\\' {
                    state = RenderState::DoubleEscape;
                } else {
                    push_char(&mut output, '\\');
                    push_char(&mut output, c);
                    proof {
                        assert(output@ =~= before + seq!['\\', c]);
                        lemma_prepend(before, seq!['\\', c], render_from(rest@, RenderState::Text, vars));
                    }
                    state = RenderState::Text;
                }
            },
            RenderState::DoubleEscape => {
                if c == '{' {
                    push_char(&mut output, '\\');
                    proof {
                        assert(output@ =~= before + seq!['\\']);
                        lemma_prepend(before, seq!['\\'], render_from(rest@, RenderState::Brace, vars));
                    }
                    state = RenderState::Brace;
                } else {
                    push_char(&mut output, '\\');
                    push_char(&mut output, '\\');
                    push_char(&mut output, c);
                    proof {
                        assert(output@ =~= before + seq!['\\', '\\', c]);
                        lemma_prepend(before, seq!['\\', '\\', c], render_from(rest@, RenderState::Text, vars));
                    }
                    state = RenderState::Text;
                }
            },
            RenderState::EscapeBrace1 => {
                if c == '{' {
                    push_char(&mut output, '{');
                    push_char(&mut output, '{');
                    proof {
                        assert(output@ =~= before + seq!['{', '{']);
                        lemma_prepend(before, seq!['{', '{'], render_from(rest@, RenderState::Text, vars));
                    }
                } else {
                    push_char(&mut output, '\\');
                    push_char(&mut output, '{');
                    push_char(&mut output, c);
                    proof {
                        assert(output@ =~= before + seq!['\\', '{', c]);
                        lemma_prepend(before, seq!['\\', '{', c], render_from(rest@, RenderState::Text, vars));
                    }
                }
                state = RenderState::Text;
            },
            RenderState::VariableEnd1 => {
                if c == '}' {
                    state = RenderState::VariableEnd2;
                } else if !is_whitespace(c) {
                    return Err(unexpected(c));
                }
            },
            RenderState::VariableEnd2 => {
                if c == '}' {
                    state = RenderState::Text;
                } else if !is_whitespace(c) {
                    return Err(unexpected(c));
                }
            },
        }
    }
    let ghost before = output@;
    match state {
        RenderState::Text => {
            proof {
                assert(before + Seq::<char>::empty() =~= before);
            }
            Ok(output)
        },
        RenderState::Brace => {
            push_char(&mut output, '{');
            proof {
                assert(output@ =~= before + seq!['{']);
            }
            Ok(output)
        },
        RenderState::Escape => {
            push_char(&mut output, '\\');
            proof {
                assert(output@ =~= before + seq!['\\']);
            }
            Ok(output)
        },
        RenderState::DoubleEscape => {
            push_char(&mut output, '\\');
            push_char(&mut output, '\\');
            proof {
                assert(output@ =~= before + seq!['\\', '\\']);
            }
            Ok(output)
        },
        RenderState::EscapeBrace1 => {
            push_char(&mut output, '\\');
            push_char(&mut output, '{');
            proof {
                assert(output@ =~= before + seq!['\\', '{']);
            }
            Ok(output)
        },
        _ => Err(TemplateError::SyntaxError(message("Unclosed variable"))),
    }
}

proof fn lemma_prepend_empty(x: Result<Seq<char>, TemplateFault>)
    ensures
        prepend(Seq::empty(), x) == x,
{
    if let Ok(t) = x {
        assert(Seq::<char>::empty() + t =~= t);
    }
}

} // verus!
