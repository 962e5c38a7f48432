//! Checks made while the declaration tree is read.
use vstd::prelude::*;

use crate::text::push_char;

verus! {

/// A variables file whose extension is neither `json` nor `jsonc`.
pub struct InvalidExtension {
    pub file_name: String,
    pub extension: String,
}

/// Whether `a` and `b` hold the same characters.
pub fn str_equal(a: &str, b: &str) -> (r: bool)
    ensures
        r == (a@ == b@),
{
    let n = a.unicode_len();
    if n != b.unicode_len() {
        return false;
    }
    let mut i: usize = 0;
    while i < n
        invariant
            n == a@.len(),
            n == b@.len(),
            i <= n,
            forall|k: int| 0 <= k < i ==> a@[k] == b@[k],
        decreases n - i,
    {
        if a.get_char(i) != b.get_char(i) {
            return false;
        }
        i += 1;
    }
    proof {
        assert(a@ =~= b@);
    }
    true
}

/// Accepts the extensions `json` and `jsonc` of a variables file.
pub fn validate_json_extension(ext: &str, file_name: &str) -> (r: Result<(), InvalidExtension>)
    ensures
        r is Ok <==> (ext@ == "json"@ || ext@ == "jsonc"@),
        match r {
            Err(e) => e.file_name@ == file_name@ && e.extension@ == ext@,
            Ok(()) => true,
        },
{
    if str_equal(ext, "json") || str_equal(ext, "jsonc") {
        Ok(())
    } else {
        Err(InvalidExtension { file_name: file_name.to_owned(), extension: ext.to_owned() })
    }
}

/// The parts of `s` between dots, in order (one part when there is no dot).
pub open spec fn dot_parts(s: Seq<char>) -> Seq<Seq<char>>
    decreases s.len(),
{
    if s.len() == 0 {
        seq![Seq::empty()]
    } else {
        let init = dot_parts(s.drop_last());
        if s.last() == '.' {
            init.push(Seq::empty())
        } else {
            init.update(init.len() - 1, init.last().push(s.last()))
        }
    }
}

proof fn lemma_dot_parts_nonempty(s: Seq<char>)
    ensures
        dot_parts(s).len() >= 1,
    decreases s.len(),
{
    if s.len() > 0 {
        lemma_dot_parts_nonempty(s.drop_last());
    }
}

/// The parts of `name` between dots.
fn split_dots(name: &str) -> (r: Vec<String>)
    ensures
        r@.len() == dot_parts(name@).len(),
        forall|i: int| 0 <= i < r@.len() ==> #[trigger] r@[i]@ == dot_parts(name@)[i],
{
    let len = name.unicode_len();
    let mut parts: Vec<String> = Vec::new();
    let mut cur = String::new();
    let mut i: usize = 0;
    proof {
        assert(name@.subrange(0, 0) =~= Seq::<char>::empty());
    }
    while i < len
        invariant
            len == name@.len(),
            i <= len,
            dot_parts(name@.subrange(0, i as int)).len() == parts@.len() + 1,
            forall|k: int| 0 <= k < parts@.len() ==> #[trigger] parts@[k]@ == dot_parts(name@.subrange(0, i as int))[k],
            cur@ == dot_parts(name@.subrange(0, i as int)).last(),
        decreases len - i,
    {
        let c = name.get_char(i);
        let ghost pre = name@.subrange(0, i as int);
        let ghost before = parts@;
        proof {
            assert(name@.subrange(0, i + 1).drop_last() == pre);
            assert(name@.subrange(0, i + 1).last() == c);
            lemma_dot_parts_nonempty(pre);
        }
        if c == '.' {
            parts.push(cur);
            cur = String::new();
            proof {
                assert forall|k: int| 0 <= k < parts@.len() implies #[trigger] parts@[k]@ == dot_parts(name@.subrange(0, i + 1))[k] by {
                    if k < before.len() {
                        assert(parts@[k] == before[k]);
                    }
                }
            }
        } else {
            push_char(&mut cur, c);
        }
        i += 1;
    }
    proof {
        assert(name@.subrange(0, i as int) == name@);
    }
    parts.push(cur);
    parts
}

/// What a file of a configuration directory is, by its name.
pub enum FileKind {
    /// `_space.<ext>`: the declaration of the directory's space.
    Space,
    /// `_env.<ext>`: a variables document.
    Variables,
    /// `_<prefix>.env.<ext>`: a variables document placed under the key `prefix`.
    PrefixedVariables(String),
    /// `_schema.<ext>`: a schema for the variables.
    Schema,
    /// Any other file: copied as it is (`_forenv.*` once per environment).
    Rest,
}

/// Why a file name was refused.
pub enum FileNameError {
    InvalidExtension(InvalidExtension),
    InvalidName(String),
}

/// `s` without its leading underscores.
pub open spec fn trim_underscores(s: Seq<char>) -> Seq<char>
    decreases s.len(),
{
    if s.len() > 0 && s[0] == '_' {
        trim_underscores(s.subrange(1, s.len() as int))
    } else {
        s
    }
}

/// A JSON extension.
pub open spec fn json_ext(e: Seq<char>) -> bool {
    e == "json"@ || e == "jsonc"@
}

/// What a file named `name` is: `Ok(0)` a space declaration, `Ok(1)` a
/// variables document, `Ok(2)` a prefixed variables document, `Ok(3)` a
/// schema, `Ok(4)` a file to copy; `Err(true)` a bad extension, `Err(false)`
/// a name of no known form.
pub open spec fn kind_of(name: Seq<char>) -> Result<int, bool> {
    let p = dot_parts(name);
    if name.len() > 0 && name[0] == '_' {
        if p.len() == 2 && p[0] == "_space"@ {
            if json_ext(p[1]) { Ok(0) } else { Err(true) }
        } else if p.len() == 2 && p[0] == "_env"@ {
            if json_ext(p[1]) { Ok(1) } else { Err(true) }
        } else if p.len() == 3 && p[0].len() > 0 && p[0][0] == '_' && p[1] == "env"@ {
            if json_ext(p[2]) { Ok(2) } else { Err(true) }
        } else if p.len() == 2 && p[0] == "_schema"@ {
            if json_ext(p[1]) { Ok(3) } else { Err(true) }
        } else if p[0] == "_forenv"@ {
            Ok(4)
        } else {
            Err(false)
        }
    } else {
        Ok(4)
    }
}

/// The kind of a file, by its name; a prefixed variables file carries its
/// prefix without the leading underscores.
pub fn classify_file_name(file_name: &str) -> (r: Result<FileKind, FileNameError>)
    ensures
        match (r, kind_of(file_name@)) {
            (Ok(FileKind::Space), Ok(k)) => k == 0,
            (Ok(FileKind::Variables), Ok(k)) => k == 1,
            (Ok(FileKind::PrefixedVariables(prefix)), Ok(k)) => k == 2 && prefix@ == trim_underscores(dot_parts(file_name@)[0]),
            (Ok(FileKind::Schema), Ok(k)) => k == 3,
            (Ok(FileKind::Rest), Ok(k)) => k == 4,
            (Err(FileNameError::InvalidExtension(e)), Err(b)) => b && e.file_name@ == file_name@,
            (Err(FileNameError::InvalidName(n)), Err(b)) => !b && n@ == file_name@,
            _ => false,
        },
{
    let len = file_name.unicode_len();
    if len == 0 || file_name.get_char(0) != '_' {
        return Ok(FileKind::Rest);
    }
    let parts = split_dots(file_name);
    proof {
        lemma_dot_parts_nonempty(file_name@);
    }
    let n = parts.len();
    if n == 2 && str_equal(parts[0].as_str(), "_space") {
        return match validate_json_extension(parts[1].as_str(), file_name) {
            Ok(()) => Ok(FileKind::Space),
            Err(e) => Err(FileNameError::InvalidExtension(e)),
        };
    }
    if n == 2 && str_equal(parts[0].as_str(), "_env") {
        return match validate_json_extension(parts[1].as_str(), file_name) {
            Ok(()) => Ok(FileKind::Variables),
            Err(e) => Err(FileNameError::InvalidExtension(e)),
        };
    }
    if n == 3 && parts[0].as_str().unicode_len() > 0 && parts[0].as_str().get_char(0) == '_' && str_equal(parts[1].as_str(), "env") {
        return match validate_json_extension(parts[2].as_str(), file_name) {
            Ok(()) => Ok(FileKind::PrefixedVariables(trim_leading_underscores(parts[0].as_str()))),
            Err(e) => Err(FileNameError::InvalidExtension(e)),
        };
    }
    if n == 2 && str_equal(parts[0].as_str(), "_schema") {
        return match validate_json_extension(parts[1].as_str(), file_name) {
            Ok(()) => Ok(FileKind::Schema),
            Err(e) => Err(FileNameError::InvalidExtension(e)),
        };
    }
    if str_equal(parts[0].as_str(), "_forenv") {
        return Ok(FileKind::Rest);
    }
    Err(FileNameError::InvalidName(file_name.to_owned()))
}

/// `s` without its leading underscores.
fn trim_leading_underscores(s: &str) -> (r: String)
    ensures
        r@ == trim_underscores(s@),
{
    let len = s.unicode_len();
    let mut i: usize = 0;
    proof {
        assert(s@.subrange(0, len as int) == s@);
    }
    while i < len && s.get_char(i) == '_'
        invariant
            len == s@.len(),
            i <= len,
            trim_underscores(s@) == trim_underscores(s@.subrange(i as int, len as int)),
        decreases len - i,
    {
        proof {
            let t = s@.subrange(i as int, len as int);
            assert(t.subrange(1, t.len() as int) =~= s@.subrange(i + 1, len as int));
        }
        i += 1;
    }
    s.substring_char(i, len).to_owned()
}

} // verus!
