//! Names of environment variables.
use vstd::prelude::*;

use crate::upper_snake_case::{string_of, to_upper_snake_case, upper_snake};

verus! {

/// `t` with every `{}` replaced by `name`, from left to right.
pub open spec fn fill_placeholders(t: Seq<char>, name: Seq<char>) -> Seq<char>
    decreases t.len(),
{
    if t.len() == 0 {
        Seq::empty()
    } else if t.len() >= 2 && t[0] == '{' && t[1] == '}' {
        name + fill_placeholders(t.subrange(2, t.len() as int), name)
    } else {
        seq![t[0]] + fill_placeholders(t.subrange(1, t.len() as int), name)
    }
}

/// The variable name from the template `tmpl`: each `{}` in it replaced by
/// `name` in upper snake case.
pub fn generate_env_variable_name(name: &str, tmpl: &str) -> (r: String)
    ensures
        r@ == fill_placeholders(tmpl@, upper_snake(name@)),
{
    let name = to_upper_snake_case(name);
    let ghost t = tmpl@;
    let ghost nm = name@;
    let len = tmpl.unicode_len();
    let mut out: Vec<char> = Vec::new();
    let mut i: usize = 0;
    proof {
        assert(t.subrange(0, len as int) == t);
    }
    while i < len
        invariant
            len == t.len(),
            t == tmpl@,
            nm == name@,
            i <= len,
            out@ + fill_placeholders(t.subrange(i as int, len as int), nm) == fill_placeholders(t, nm),
        decreases len - i,
    {
        let ghost rest = t.subrange(i as int, len as int);
        let ghost before = out@;
        let c = tmpl.get_char(i);
        if c == '{' && i + 1 < len && tmpl.get_char(i + 1) == '}' {
            let name_len = name.as_str().unicode_len();
            let mut k: usize = 0;
            while k < name_len
                invariant
                    name_len == nm.len(),
                    nm == name@,
                    k <= name_len,
                    out@ == before + nm.subrange(0, k as int),
                decreases name_len - k,
            {
                out.push(name.as_str().get_char(k));
                proof {
                    assert(out@ =~= before + nm.subrange(0, k + 1));
                }
                k += 1;
            }
            proof {
                assert(nm.subrange(0, k as int) == nm);
                assert(rest.subrange(2, rest.len() as int) =~= t.subrange(i + 2, len as int));
                assert(before + (nm + fill_placeholders(t.subrange(i + 2, len as int), nm))
                    =~= out@ + fill_placeholders(t.subrange(i + 2, len as int), nm));
            }
            i = i + 2;
        } else {
            out.push(c);
            proof {
                assert(rest.subrange(1, rest.len() as int) =~= t.subrange(i + 1, len as int));
                assert(before + (seq![c] + fill_placeholders(t.subrange(i + 1, len as int), nm))
                    =~= out@ + fill_placeholders(t.subrange(i + 1, len as int), nm));
            }
            i = i + 1;
        }
    }
    proof {
        assert(t.subrange(i as int, len as int) =~= Seq::<char>::empty());
        assert(out@ + Seq::<char>::empty() =~= out@);
    }
    string_of(&out)
}

} // verus!
