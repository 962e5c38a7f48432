//! Where a space's directory of the configuration tree is written out.
use vstd::prelude::*;

use crate::text::push_char;

verus! {

/// Why a path could not be mapped.
pub enum MapPathError {
    /// The root has no parent: it is `/` or holds no `/`.
    RootHasNoParent,
    /// The path is not the root nor under it.
    NotWithinRoot,
}

/// The position of the last `/` among the first `n` characters of `s`, or -1.
pub open spec fn last_slash(s: Seq<char>, n: int) -> int
    decreases n,
{
    if n <= 0 {
        -1
    } else if s[n - 1] == '/' {
        n - 1
    } else {
        last_slash(s, n - 1)
    }
}

proof fn lemma_last_slash(s: Seq<char>, n: int)
    requires
        0 <= n <= s.len(),
    ensures
        -1 <= last_slash(s, n) < n,
        last_slash(s, n) >= 0 ==> s[last_slash(s, n)] == '/',
    decreases n,
{
    if n > 0 && s[n - 1] != '/' {
        lemma_last_slash(s, n - 1);
    }
}

/// `path` is `root` or lies under it.
pub open spec fn within(root: Seq<char>, path: Seq<char>) -> bool {
    root.is_prefix_of(path) && (path.len() == root.len() || path[root.len() as int] == '/')
}

/// `root` has a parent directory: it holds a `/` and is not `/` itself.
pub open spec fn has_parent(root: Seq<char>) -> bool {
    last_slash(root, root.len() as int) >= 0 && root.len() > 1
}

/// `p`, which lies under `root`, with `root` replaced by its parent: the text
/// before the last `/` of `root` (`/` itself for a root directly under `/`),
/// followed by the rest of `p`.
pub open spec fn mapped(root: Seq<char>, p: Seq<char>) -> Seq<char> {
    let cut = last_slash(root, root.len() as int);
    let rel = p.subrange(root.len() as int, p.len() as int);
    if cut == 0 && rel.len() == 0 {
        seq!['/']
    } else {
        root.subrange(0, cut) + rel
    }
}

/// Maps a path of the configuration tree, both given in canonical form, to
/// the project tree: the tree's root directory is replaced by its parent, so
/// `/p/weaveconfig/app` becomes `/p/app` and `/w/a` becomes `/a`.
pub fn map_path(weaveconfig_root: &str, path: &str) -> (r: Result<String, MapPathError>)
    ensures
        ({
            let root = weaveconfig_root@;
            let p = path@;
            match r {
                Ok(m) => has_parent(root) && within(root, p) && m@ == mapped(root, p),
                Err(MapPathError::RootHasNoParent) => !has_parent(root),
                Err(MapPathError::NotWithinRoot) => has_parent(root) && !within(root, p),
            }
        }),
{
    let ghost root = weaveconfig_root@;
    let ghost p = path@;
    let rlen = weaveconfig_root.unicode_len();
    let plen = path.unicode_len();
    proof {
        lemma_last_slash(root, rlen as int);
    }
    let mut cut: usize = rlen;
    while cut > 0 && weaveconfig_root.get_char(cut - 1) != '/'
        invariant
            rlen == root.len(),
            root == weaveconfig_root@,
            cut <= rlen,
            last_slash(root, rlen as int) == last_slash(root, cut as int),
        decreases cut,
    {
        cut -= 1;
    }
    proof {
        if cut > 0 {
            assert(last_slash(root, cut as int) == cut - 1);
        }
    }
    if cut == 0 || rlen == 1 {
        return Err(MapPathError::RootHasNoParent);
    }
    let cut = cut - 1;
    proof {
        assert(last_slash(root, rlen as int) == cut);
    }
    if plen < rlen {
        proof {
            assert(!root.is_prefix_of(p));
        }
        return Err(MapPathError::NotWithinRoot);
    }
    let mut i: usize = 0;
    while i < rlen
        invariant
            rlen == root.len(),
            plen == p.len(),
            root == weaveconfig_root@,
            p == path@,
            last_slash(root, rlen as int) == cut,
            cut >= 0,
            rlen > 1,
            rlen <= plen,
            i <= rlen,
            forall|k: int| 0 <= k < i ==> root[k] == p[k],
        decreases rlen - i,
    {
        if weaveconfig_root.get_char(i) != path.get_char(i) {
            proof {
                if root.is_prefix_of(p) {
                    assert(p.subrange(0, root.len() as int)[i as int] == p[i as int]);
                }
            }
            return Err(MapPathError::NotWithinRoot);
        }
        i += 1;
    }
    if plen > rlen && path.get_char(rlen) != '/' {
        proof {
            assert(p[root.len() as int] != '/');
            assert(!within(root, p));
        }
        return Err(MapPathError::NotWithinRoot);
    }
    proof {
        assert(root.is_prefix_of(p)) by {
            assert(p.subrange(0, root.len() as int) =~= root);
        }
    }
    let mut out = String::new();
    let mut k: usize = 0;
    while k < cut
        invariant
            k <= cut,
            cut < rlen,
            rlen == root.len(),
            root == weaveconfig_root@,
            out@ == root.subrange(0, k as int),
        decreases cut - k,
    {
        push_char(&mut out, weaveconfig_root.get_char(k));
        proof {
            assert(out@ =~= root.subrange(0, k + 1));
        }
        k += 1;
    }
    let mut k: usize = rlen;
    while k < plen
        invariant
            rlen <= k <= plen,
            plen == p.len(),
            p == path@,
            out@ == root.subrange(0, cut as int) + p.subrange(rlen as int, k as int),
        decreases plen - k,
    {
        push_char(&mut out, path.get_char(k));
        proof {
            assert(out@ =~= root.subrange(0, cut as int) + p.subrange(rlen as int, k + 1));
        }
        k += 1;
    }
    if cut == 0 && plen == rlen {
        push_char(&mut out, '/');
        proof {
            assert(out@ =~= seq!['/']);
        }
    }
    Ok(out)
}

} // verus!
