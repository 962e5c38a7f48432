//! Resolution of every space of a graph into its final variables document.
//!
//! A space's document is its own declared variables, then its parent's
//! resolved document and each dependency's resolved document merged in, with
//! environment names translated across each edge; every declared
//! environment ends up with at least an empty block.
use vstd::prelude::*;

use crate::ancestor_mapping::{ancestors_of, AncestorMapping};
use crate::space_graph::{contains_str, CopyTree, GenerateSpace, Space, SpaceGraph};
use crate::ancestor_mapping::{lists_map, lists_set, position_of, position_of_key};
use crate::space_graph::{copy_model, items_model, ToCopy};
use crate::ancestor_mapping::copy_strings;
use crate::value::clone_document;
use crate::value::{
    clone_value, doc_of, doc_wf, json_of, key_path, keys_before, leaf_conflict, lemma_doc_of, located, merge_docs,
    merge_map_consume,
    Document, Json, MergeConflict, JsonValue,
};

verus! {

broadcast use vstd::std_specs::vec::group_vec_axioms;

/// The resolution of one space.
pub struct ResolvedSpace {
    pub variables: Document,
    /// Maps the environments of the configuration root onto this space's.
    pub root_mapping: AncestorMapping,
    pub environments: Vec<String>,
    pub path: String,
    pub files_to_copy: CopyTree,
    pub generate: GenerateSpace,
}

/// Why a resolution failed.
pub enum ResolveError {
    /// A dependency or parent names no space of the graph.
    SpaceNotFound(String),
    /// A dependency or parent chain came back to a space still in progress.
    CyclicDependency(String),
    /// Merging `source` (a dependency or the parent) into `space` conflicted.
    MergeConflict { space: String, source: String, conflict: MergeConflict },
}

/// Resolved spaces by name, in the order they were resolved.
pub type ResolvedTable = Vec<(String, ResolvedSpace)>;

/// Every environment that the parent mapping of `s` sends an ancestor to is
/// one that `s` declares.
pub open spec fn targets_declared(s: Space) -> bool {
    forall|a: Seq<char>| #[trigger] s.parent_mapping@.contains_key(a) ==> contains_str(s.environments@, s.parent_mapping@[a])
}

/// Names are unique, mappings and declared documents well formed, and
/// mappings send ancestors to declared environments only.
pub open spec fn graph_wf(g: Seq<Space>) -> bool {
    &&& forall|i: int, j: int| 0 <= i < j < g.len() ==> g[i].name@ != g[j].name@
    &&& forall|i: int| 0 <= i < g.len() ==> (#[trigger] g[i]).parent_mapping.wf()
    &&& forall|i: int| 0 <= i < g.len() ==> targets_declared(#[trigger] g[i])
    &&& forall|i: int| 0 <= i < g.len() ==> match (#[trigger] g[i]).variables {
        Some(v) => doc_wf(v@),
        None => true,
    }
}

/// Some space of `g` is named `n`.
pub open spec fn has_space(g: Seq<Space>, n: Seq<char>) -> bool {
    exists|i: int| 0 <= i < g.len() && #[trigger] g[i].name@ == n
}

/// The space of `g` named `n`.
pub open spec fn space_of(g: Seq<Space>, n: Seq<char>) -> Space {
    g[choose|i: int| 0 <= i < g.len() && #[trigger] g[i].name@ == n]
}

/// Some entry of `t` is named `n`.
pub open spec fn has_entry(t: Seq<(String, ResolvedSpace)>, n: Seq<char>) -> bool {
    exists|i: int| 0 <= i < t.len() && #[trigger] t[i].0@ == n
}

/// Some entry of `t` before position `k` is named `n`.
pub open spec fn has_entry_before(t: Seq<(String, ResolvedSpace)>, k: int, n: Seq<char>) -> bool {
    exists|i: int| 0 <= i < k && i < t.len() && #[trigger] t[i].0@ == n
}

/// The entry of `t` named `n`.
pub open spec fn entry_of(t: Seq<(String, ResolvedSpace)>, n: Seq<char>) -> ResolvedSpace {
    t[choose|i: int| 0 <= i < t.len() && #[trigger] t[i].0@ == n].1
}

/// The parent's root mapping composed with a space's own parent mapping:
/// each root environment reaches the space environment that its parent
/// environment is mapped to.
pub open spec fn compose(parent_root: Map<Seq<char>, Seq<char>>, own: Map<Seq<char>, Seq<char>>) -> Map<
    Seq<char>,
    Seq<char>,
> {
    Map::new(
        |a: Seq<char>| parent_root.contains_key(a) && own.contains_key(parent_root[a]),
        |a: Seq<char>| own[parent_root[a]],
    )
}

/// The entries of `src` whose keys `keep` accepts.
pub open spec fn passed(src: Map<Seq<char>, Json>, keep: spec_fn(Seq<char>) -> bool) -> Map<Seq<char>, Json> {
    Map::new(|k: Seq<char>| src.contains_key(k) && keep(k), |k: Seq<char>| src[k])
}

/// The blocks of `src` that go to the local environment `l`: one for each
/// source environment, in order, that `link` joins to `l`.
pub open spec fn blocks_for(
    l: Seq<char>,
    srcs: Seq<String>,
    link: spec_fn(Seq<char>, Seq<char>) -> bool,
    src: Map<Seq<char>, Json>,
) -> Seq<(Seq<char>, Json)>
    decreases srcs.len(),
{
    if srcs.len() == 0 {
        Seq::empty()
    } else {
        let d = srcs.last()@;
        blocks_for(l, srcs.drop_last(), link, src) + if link(l, d) && src.contains_key(d) {
            seq![(l, src[d])]
        } else {
            Seq::empty()
        }
    }
}

/// The blocks of `src` for each local environment, in order.
pub open spec fn contributions(
    locals: Seq<String>,
    srcs: Seq<String>,
    link: spec_fn(Seq<char>, Seq<char>) -> bool,
    src: Map<Seq<char>, Json>,
) -> Seq<(Seq<char>, Json)>
    decreases locals.len(),
{
    if locals.len() == 0 {
        Seq::empty()
    } else {
        contributions(locals.drop_last(), srcs, link, src) + blocks_for(locals.last()@, srcs, link, src)
    }
}

/// Merges each block in turn into the document under its key.
pub open spec fn fold_merge(w: Option<Map<Seq<char>, Json>>, cs: Seq<(Seq<char>, Json)>) -> Option<
    Map<Seq<char>, Json>,
>
    decreases cs.len(),
{
    if cs.len() == 0 {
        w
    } else {
        match fold_merge(w, cs.drop_last()) {
            Some(m) => merge_docs(m, map![cs.last().0 => cs.last().1]),
            None => None,
        }
    }
}

/// Merges a source document into `w` across one edge: the keys that `keep`
/// accepts go over as they are, then each block that `link` translates.
pub open spec fn apply_edge(
    w: Option<Map<Seq<char>, Json>>,
    locals: Seq<String>,
    srcs: Seq<String>,
    link: spec_fn(Seq<char>, Seq<char>) -> bool,
    keep: spec_fn(Seq<char>) -> bool,
    src: Map<Seq<char>, Json>,
) -> Option<Map<Seq<char>, Json>> {
    match w {
        Some(m) => fold_merge(merge_docs(m, passed(src, keep)), contributions(locals, srcs, link, src)),
        None => None,
    }
}

/// Across the parent edge a parent environment goes to the local environment
/// that the space's parent mapping sends it to.
pub open spec fn parent_link(pm: Map<Seq<char>, Seq<char>>) -> spec_fn(Seq<char>, Seq<char>) -> bool {
    |l: Seq<char>, p: Seq<char>| pm.contains_key(p) && pm[p] == l
}

/// Across the parent edge the keys that are no mapped parent environment go
/// over as they are.
pub open spec fn parent_keep(pm: Map<Seq<char>, Seq<char>>, penvs: Seq<String>) -> spec_fn(Seq<char>) -> bool {
    |k: Seq<char>| !(contains_str(penvs, k) && pm.contains_key(k))
}

/// Across a dependency edge an environment of the dependency goes to each
/// local environment that shares a root environment with it.
pub open spec fn dep_link(root: Map<Seq<char>, Seq<char>>, dep_root: Map<Seq<char>, Seq<char>>) -> spec_fn(
    Seq<char>,
    Seq<char>,
) -> bool {
    |l: Seq<char>, d: Seq<char>| exists|a: Seq<char>| #[trigger] ancestors_of(root, l).contains(a) && ancestors_of(dep_root, d).contains(a)
}

/// Across a dependency edge the keys that are no environment of the
/// dependency go over as they are; unmatched environments are dropped.
pub open spec fn dep_keep(denvs: Seq<String>) -> spec_fn(Seq<char>) -> bool {
    |k: Seq<char>| !contains_str(denvs, k)
}

/// `w` with an empty block for each of `envs` that it lacks.
pub open spec fn fill(w: Map<Seq<char>, Json>, envs: Seq<String>) -> Map<Seq<char>, Json> {
    Map::new(
        |k: Seq<char>| w.contains_key(k) || contains_str(envs, k),
        |k: Seq<char>| if w.contains_key(k) { w[k] } else { Json::Object(Map::empty()) },
    )
}

/// The declared variables of a space; empty when it declares none.
pub open spec fn own_doc(s: Space) -> Map<Seq<char>, Json> {
    match s.variables {
        Some(v) => doc_of(v@),
        None => Map::empty(),
    }
}

/// The root mapping of `s`, given its parent's resolution.
pub open spec fn resolved_root(s: Space, parent: Option<ResolvedSpace>) -> Map<Seq<char>, Seq<char>> {
    match parent {
        Some(p) => compose(p.root_mapping@, s.parent_mapping@),
        None => s.parent_mapping@,
    }
}

/// `w` with the first `n` dependencies of `s` merged in.
pub open spec fn deps_merged(
    w: Option<Map<Seq<char>, Json>>,
    s: Space,
    root: Map<Seq<char>, Seq<char>>,
    deps: Seq<ResolvedSpace>,
    n: int,
) -> Option<Map<Seq<char>, Json>>
    decreases n,
{
    if n <= 0 {
        w
    } else {
        let d = deps[n - 1];
        apply_edge(
            deps_merged(w, s, root, deps, n - 1),
            s.environments@,
            d.environments@,
            dep_link(root, d.root_mapping@),
            dep_keep(d.environments@),
            doc_of(d.variables@),
        )
    }
}

/// The own document of `s` with its parent's resolution merged in.
pub open spec fn with_parent(s: Space, parent: Option<ResolvedSpace>) -> Option<Map<Seq<char>, Json>> {
    match parent {
        Some(p) => apply_edge(
            Some(own_doc(s)),
            s.environments@,
            p.environments@,
            parent_link(s.parent_mapping@),
            parent_keep(s.parent_mapping@, p.environments@),
            doc_of(p.variables@),
        ),
        None => Some(own_doc(s)),
    }
}

/// The resolved document of `s` given the resolutions of its parent and of
/// its dependencies (in declaration order); `None` on a merge conflict.
pub open spec fn resolved_doc(s: Space, parent: Option<ResolvedSpace>, deps: Seq<ResolvedSpace>) -> Option<
    Map<Seq<char>, Json>,
> {
    match deps_merged(with_parent(s, parent), s, resolved_root(s, parent), deps, deps.len() as int) {
        Some(m) => Some(fill(m, s.environments@)),
        None => None,
    }
}

/// The resolutions in `t` of the parent of `s`.
pub open spec fn parent_entry(t: Seq<(String, ResolvedSpace)>, s: Space) -> Option<ResolvedSpace> {
    match s.parent_space {
        Some(p) => Some(entry_of(t, p@)),
        None => None,
    }
}

/// The resolutions in `t` of the dependencies of `s`, in order.
pub open spec fn dep_entries(t: Seq<(String, ResolvedSpace)>, s: Space) -> Seq<ResolvedSpace> {
    Seq::new(s.dependencies@.len(), |k: int| entry_of(t, s.dependencies@[k]@))
}

/// The parent and the dependencies of `s` all have entries in `t` before
/// position `k`.
pub open spec fn sources_before(t: Seq<(String, ResolvedSpace)>, k: int, s: Space) -> bool {
    &&& match s.parent_space {
        Some(p) => has_entry_before(t, k, p@),
        None => true,
    }
    &&& forall|x: int| 0 <= x < s.dependencies@.len() ==> has_entry_before(t, k, #[trigger] s.dependencies@[x]@)
}

/// Entry `i` of `t` is the resolution of the space of `g` it names, from
/// the entries of its sources, all of which come before it.
pub open spec fn entry_ok(g: Seq<Space>, t: Seq<(String, ResolvedSpace)>, i: int) -> bool {
    let n = t[i].0@;
    let r = t[i].1;
    let s = space_of(g, n);
    &&& has_space(g, n)
    &&& r.root_mapping.wf()
    &&& doc_wf(r.variables@)
    &&& r.environments@ == s.environments@
    &&& r.path@ == s.path@
    &&& copy_model(r.files_to_copy) == copy_model(s.files_to_copy)
    &&& r.generate == s.generate
    &&& sources_before(t, i, s)
    &&& r.root_mapping@ == resolved_root(s, parent_entry(t, s))
    &&& resolved_doc(s, parent_entry(t, s), dep_entries(t, s)) == Some(doc_of(r.variables@))
}

/// Every entry of `t` is a resolution as `entry_ok` says, each name once.
pub open spec fn table_ok(g: Seq<Space>, t: Seq<(String, ResolvedSpace)>) -> bool {
    &&& forall|i: int, j: int| 0 <= i < j < t.len() ==> t[i].0@ != t[j].0@
    &&& forall|i: int| 0 <= i < t.len() ==> #[trigger] entry_ok(g, t, i)
}

/// A failed merge stays failed whatever is merged after it.
proof fn lemma_fold_none(w: Option<Map<Seq<char>, Json>>, cs: Seq<(Seq<char>, Json)>, n: int)
    requires
        0 <= n <= cs.len(),
        fold_merge(w, cs.subrange(0, n)) is None,
    ensures
        fold_merge(w, cs) is None,
    decreases cs.len() - n,
{
    if n < cs.len() {
        assert(cs.subrange(0, n + 1).drop_last() == cs.subrange(0, n));
        lemma_fold_none(w, cs, n + 1);
    } else {
        assert(cs.subrange(0, n) == cs);
    }
}

/// The blocks for a prefix of the sources come first.
proof fn lemma_blocks_prefix(
    l: Seq<char>,
    srcs: Seq<String>,
    n: int,
    link: spec_fn(Seq<char>, Seq<char>) -> bool,
    src: Map<Seq<char>, Json>,
)
    requires
        0 <= n <= srcs.len(),
    ensures
        blocks_for(l, srcs.subrange(0, n), link, src).len() <= blocks_for(l, srcs, link, src).len(),
        blocks_for(l, srcs, link, src).subrange(0, blocks_for(l, srcs.subrange(0, n), link, src).len() as int)
            == blocks_for(l, srcs.subrange(0, n), link, src),
    decreases srcs.len() - n,
{
    if n < srcs.len() {
        lemma_blocks_prefix(l, srcs, n + 1, link, src);
        assert(srcs.subrange(0, n + 1).drop_last() == srcs.subrange(0, n));
        let a = blocks_for(l, srcs.subrange(0, n), link, src);
        let b = blocks_for(l, srcs.subrange(0, n + 1), link, src);
        let c = blocks_for(l, srcs, link, src);
        assert(b.subrange(0, a.len() as int) == a);
        assert(c.subrange(0, a.len() as int) =~= b.subrange(0, a.len() as int));
    } else {
        assert(srcs.subrange(0, n) == srcs);
    }
}

/// The contributions for a prefix of the local environments come first.
proof fn lemma_contributions_prefix(
    locals: Seq<String>,
    n: int,
    srcs: Seq<String>,
    link: spec_fn(Seq<char>, Seq<char>) -> bool,
    src: Map<Seq<char>, Json>,
)
    requires
        0 <= n <= locals.len(),
    ensures
        contributions(locals.subrange(0, n), srcs, link, src).len() <= contributions(locals, srcs, link, src).len(),
        contributions(locals, srcs, link, src).subrange(0, contributions(locals.subrange(0, n), srcs, link, src).len() as int)
            == contributions(locals.subrange(0, n), srcs, link, src),
    decreases locals.len() - n,
{
    if n < locals.len() {
        lemma_contributions_prefix(locals, n + 1, srcs, link, src);
        assert(locals.subrange(0, n + 1).drop_last() == locals.subrange(0, n));
        let a = contributions(locals.subrange(0, n), srcs, link, src);
        let b = contributions(locals.subrange(0, n + 1), srcs, link, src);
        let c = contributions(locals, srcs, link, src);
        assert(b.subrange(0, a.len() as int) == a);
        assert(c.subrange(0, a.len() as int) =~= b.subrange(0, a.len() as int));
    } else {
        assert(locals.subrange(0, n) == locals);
    }
}

/// The value `y`, met at `path` when merging `src` across an edge, lies in
/// `src`: under the first key of `path` when that key goes over as it is,
/// or under a source environment that `link` joins to it; the rest of
/// `path` leads there to `y`.
pub open spec fn incoming_from(
    src: Map<Seq<char>, Json>,
    link: spec_fn(Seq<char>, Seq<char>) -> bool,
    keep: spec_fn(Seq<char>) -> bool,
    path: Seq<Seq<char>>,
    y: Json,
) -> bool {
    path.len() > 0 && exists|d: Seq<char>|
        #[trigger] src.contains_key(d) && ((d == path[0] && keep(d)) || link(path[0], d))
            && located(src[d], path.subrange(1, path.len() as int), y)
}

/// Merges `block` into `w` under `key`.
fn merge_block(w: &mut Document, key: &String, block: &JsonValue) -> (r: Result<(), MergeConflict>)
    requires
        doc_wf(old(w)@),
        crate::value::value_wf(*block),
    ensures
        match r {
            Ok(()) => merge_docs(doc_of(old(w)@), map![key@ => json_of(*block)]) == Some(doc_of(final(w)@))
                && doc_wf(final(w)@),
            Err(c) => merge_docs(doc_of(old(w)@), map![key@ => json_of(*block)]) is None && c.path@.len() > 0
                && located(Json::Object(map![key@ => json_of(*block)]), key_path(c.path@), json_of(c.incoming))
                && leaf_conflict(json_of(c.existing), json_of(c.incoming)),
        },
{
    let mut single: Document = Vec::new();
    single.push((key.clone(), clone_value(block)));
    proof {
        assert(single@.drop_last() =~= Seq::<(String, JsonValue)>::empty());
        assert(doc_of(single@.drop_last()) == Map::<Seq<char>, Json>::empty());
        assert(doc_of(single@) =~= map![key@ => json_of(*block)]);
    }
    merge_map_consume(w, single)
}

/// Merges the document `src` into `w` across one edge: first the entries
/// that `keeps` marks, as they are; then, for each local environment and
/// each source environment that `links` joins to it, the source's block
/// under the local name.
fn apply_edge_exec(
    w: &mut Document,
    locals: &Vec<String>,
    srcs: &Vec<String>,
    links: &Vec<Vec<bool>>,
    keeps: &Vec<bool>,
    src: &Document,
    Ghost(link): Ghost<spec_fn(Seq<char>, Seq<char>) -> bool>,
    Ghost(keep): Ghost<spec_fn(Seq<char>) -> bool>,
) -> (r: Result<(), MergeConflict>)
    requires
        doc_wf(old(w)@),
        doc_wf(src@),
        links@.len() == locals@.len(),
        forall|i: int| 0 <= i < locals@.len() ==> (#[trigger] links@[i])@.len() == srcs@.len(),
        forall|i: int, j: int| 0 <= i < locals@.len() && 0 <= j < srcs@.len()
            ==> #[trigger] links@[i]@[j] == link(locals@[i]@, srcs@[j]@),
        keeps@.len() == src@.len(),
        forall|e: int| 0 <= e < src@.len() ==> #[trigger] keeps@[e] == keep(src@[e].0@),
    ensures
        match r {
            Ok(()) => apply_edge(Some(doc_of(old(w)@)), locals@, srcs@, link, keep, doc_of(src@))
                == Some(doc_of(final(w)@)) && doc_wf(final(w)@),
            Err(c) => apply_edge(Some(doc_of(old(w)@)), locals@, srcs@, link, keep, doc_of(src@)) is None
                && leaf_conflict(json_of(c.existing), json_of(c.incoming))
                && incoming_from(doc_of(src@), link, keep, key_path(c.path@), json_of(c.incoming)),
        },
{
    let ghost w0 = doc_of(w@);
    let ghost sd = doc_of(src@);
    proof {
        lemma_doc_of(src@);
    }
    let mut kept: Document = Vec::new();
    let mut e: usize = 0;
    while e < src.len()
        invariant
            e <= src@.len(),
            doc_wf(src@),
            sd == doc_of(src@),
            keeps@.len() == src@.len(),
            forall|x: int| 0 <= x < src@.len() ==> #[trigger] keeps@[x] == keep(src@[x].0@),
            doc_wf(kept@),
            forall|x: int| 0 <= x < kept@.len() ==> keys_before(src@, e as int).contains(#[trigger] kept@[x].0@),
            doc_of(kept@) == passed(sd, keep).restrict(keys_before(src@, e as int)),
        decreases src@.len() - e,
    {
        proof {
            lemma_doc_of(src@);
            lemma_doc_of(kept@);
        }
        let ghost k = src@[e as int].0@;
        let ghost before = kept@;
        proof {
            assert(keys_before(src@, e + 1) =~= keys_before(src@, e as int).insert(k)) by {
                assert forall|q: Seq<char>| keys_before(src@, e + 1).contains(q) implies keys_before(src@, e as int).insert(k).contains(q) by {
                    let x = choose|x: int| 0 <= x < e + 1 && #[trigger] src@[x].0@ == q;
                    if x < e {
                        assert(keys_before(src@, e as int).contains(q));
                    }
                }
                assert forall|q: Seq<char>| keys_before(src@, e as int).insert(k).contains(q) implies keys_before(src@, e + 1).contains(q) by {
                    if q == k {
                        assert(src@[e as int].0@ == q);
                    } else {
                        let x = choose|x: int| 0 <= x < e && #[trigger] src@[x].0@ == q;
                    }
                }
            }
            assert(!keys_before(src@, e as int).contains(k)) by {
                if keys_before(src@, e as int).contains(k) {
                    let x = choose|x: int| 0 <= x < e && #[trigger] src@[x].0@ == k;
                }
            }
        }
        if keeps[e] {
            kept.push((src[e].0.clone(), clone_value(&src[e].1)));
            proof {
                assert(kept@.drop_last() == before);
                assert(sd[k] == json_of(src@[e as int].1));
                assert(doc_of(kept@) =~= passed(sd, keep).restrict(keys_before(src@, e + 1)));
                assert forall|x: int, y: int| 0 <= x < y < kept@.len() implies kept@[x].0@ != kept@[y].0@ by {
                    if y == kept@.len() - 1 {
                        assert(keys_before(src@, e as int).contains(kept@[x].0@));
                    }
                }
                assert forall|x: int| 0 <= x < kept@.len() implies keys_before(src@, e + 1).contains(#[trigger] kept@[x].0@) by {
                    if x < before.len() {
                        assert(keys_before(src@, e as int).contains(before[x].0@));
                    }
                }
                assert forall|x: int| 0 <= x < kept@.len() implies crate::value::value_wf(#[trigger] kept@[x].1) by {
                    if x < before.len() {
                        assert(kept@[x] == before[x]);
                    }
                }
            }
        } else {
            proof {
                assert(doc_of(kept@) =~= passed(sd, keep).restrict(keys_before(src@, e + 1)));
                assert forall|x: int| 0 <= x < kept@.len() implies keys_before(src@, e + 1).contains(#[trigger] kept@[x].0@) by {
                    assert(keys_before(src@, e as int).contains(kept@[x].0@));
                }
            }
        }
        e += 1;
    }
    proof {
        assert(passed(sd, keep).restrict(keys_before(src@, e as int)) =~= passed(sd, keep)) by {
            assert forall|q: Seq<char>| #[trigger] passed(sd, keep).contains_key(q) implies keys_before(src@, e as int).contains(q) by {
                let x = choose|x: int| 0 <= x < src@.len() && #[trigger] src@[x].0@ == q;
            }
        }
    }
    match merge_map_consume(w, kept) {
        Ok(()) => {},
        Err(c) => {
            proof {
                let kp = key_path(c.path@);
                let k0 = kp[0];
                assert(passed(sd, keep).contains_key(k0));
                assert(sd.contains_key(k0) && keep(k0));
                assert(located(sd[k0], kp.subrange(1, kp.len() as int), json_of(c.incoming)));
                lemma_fold_none(None, contributions(locals@, srcs@, link, sd), 0);
                assert(contributions(locals@, srcs@, link, sd).subrange(0, 0) =~= Seq::<(Seq<char>, Json)>::empty());
            }
            return Err(c);
        },
    }
    let ghost w1 = doc_of(w@);
    let ghost full = contributions(locals@, srcs@, link, sd);
    let mut i: usize = 0;
    while i < locals.len()
        invariant
            i <= locals@.len(),
            doc_wf(w@),
            doc_wf(src@),
            sd == doc_of(src@),
            full == contributions(locals@, srcs@, link, sd),
            merge_docs(w0, passed(sd, keep)) == Some(w1),
            w0 == doc_of(old(w)@),
            links@.len() == locals@.len(),
            forall|x: int| 0 <= x < locals@.len() ==> (#[trigger] links@[x])@.len() == srcs@.len(),
            forall|x: int, y: int| 0 <= x < locals@.len() && 0 <= y < srcs@.len()
                ==> #[trigger] links@[x]@[y] == link(locals@[x]@, srcs@[y]@),
            fold_merge(Some(w1), contributions(locals@.subrange(0, i as int), srcs@, link, sd)) == Some(doc_of(w@)),
        decreases locals@.len() - i,
    {
        let ghost l = locals@[i as int]@;
        let ghost done = contributions(locals@.subrange(0, i as int), srcs@, link, sd);
        proof {
            assert(locals@.subrange(0, i + 1).drop_last() == locals@.subrange(0, i as int));
            assert(srcs@.subrange(0, 0) =~= Seq::<String>::empty());
            assert(done + blocks_for(l, srcs@.subrange(0, 0), link, sd) =~= done);
        }
        let mut j: usize = 0;
        while j < srcs.len()
            invariant
                i < locals@.len(),
                j <= srcs@.len(),
                l == locals@[i as int]@,
                doc_wf(w@),
                doc_wf(src@),
                sd == doc_of(src@),
                full == contributions(locals@, srcs@, link, sd),
                merge_docs(w0, passed(sd, keep)) == Some(w1),
                w0 == doc_of(old(w)@),
                done == contributions(locals@.subrange(0, i as int), srcs@, link, sd),
                locals@.subrange(0, i + 1).drop_last() == locals@.subrange(0, i as int),
                links@.len() == locals@.len(),
                forall|x: int| 0 <= x < locals@.len() ==> (#[trigger] links@[x])@.len() == srcs@.len(),
                forall|x: int, y: int| 0 <= x < locals@.len() && 0 <= y < srcs@.len()
                    ==> #[trigger] links@[x]@[y] == link(locals@[x]@, srcs@[y]@),
                fold_merge(Some(w1), done + blocks_for(l, srcs@.subrange(0, j as int), link, sd)) == Some(doc_of(w@)),
            decreases srcs@.len() - j,
        {
            let ghost d = srcs@[j as int]@;
            let ghost cs = done + blocks_for(l, srcs@.subrange(0, j as int), link, sd);
            proof {
                assert(srcs@.subrange(0, j + 1).drop_last() == srcs@.subrange(0, j as int));
                assert(srcs@.subrange(0, j + 1).last() == srcs@[j as int]);
                lemma_doc_of(src@);
            }
            if links[i][j] {
                match position_of_key(src, &srcs[j]) {
                    Some(x) => {
                        let ghost item = (l, sd[d]);
                        proof {
                            assert(sd[d] == json_of(src@[x as int].1));
                            assert(done + blocks_for(l, srcs@.subrange(0, j + 1), link, sd) =~= cs.push(item));
                            assert(cs.push(item).drop_last() == cs);
                        }
                        match merge_block(w, &locals[i], &src[x].1) {
                            Ok(()) => {},
                            Err(c) => {
                                proof {
                                    let kp = key_path(c.path@);
                                    assert(kp[0] == l);
                                    assert(sd.contains_key(d) && link(l, d));
                                    assert(located(sd[d], kp.subrange(1, kp.len() as int), json_of(c.incoming)));
                                    let pre = cs.push(item);
                                    assert(fold_merge(Some(w1), pre) is None);
                                    lemma_blocks_prefix(l, srcs@, j + 1, link, sd);
                                    lemma_contributions_prefix(locals@, i + 1, srcs@, link, sd);
                                    let b = blocks_for(l, srcs@, link, sd);
                                    let bj = blocks_for(l, srcs@.subrange(0, j + 1), link, sd);
                                    let ci = contributions(locals@.subrange(0, i + 1), srcs@, link, sd);
                                    assert(ci == done + b);
                                    assert(full.subrange(0, pre.len() as int) =~= pre) by {
                                        assert(full.subrange(0, ci.len() as int) == ci);
                                        assert(b.subrange(0, bj.len() as int) == bj);
                                        assert forall|z: int| 0 <= z < pre.len() implies full[z] == pre[z] by {
                                            assert(full[z] == full.subrange(0, ci.len() as int)[z]);
                                            if z >= done.len() {
                                                assert(ci[z] == b[z - done.len()]);
                                                assert(b[z - done.len()] == b.subrange(0, bj.len() as int)[z - done.len()]);
                                            }
                                        }
                                    }
                                    lemma_fold_none(Some(w1), full, pre.len() as int);
                                }
                                return Err(c);
                            },
                        }
                    },
                    None => {
                        proof {
                            assert(!sd.contains_key(d));
                            assert(done + blocks_for(l, srcs@.subrange(0, j + 1), link, sd) =~= cs);
                        }
                    },
                }
            } else {
                proof {
                    assert(done + blocks_for(l, srcs@.subrange(0, j + 1), link, sd) =~= cs);
                }
            }
            j += 1;
        }
        proof {
            assert(srcs@.subrange(0, j as int) == srcs@);
            assert(locals@.subrange(0, i + 1).last() == locals@[i as int]);
            assert(contributions(locals@.subrange(0, i + 1), srcs@, link, sd) == done + blocks_for(l, srcs@, link, sd));
        }
        i += 1;
    }
    proof {
        assert(locals@.subrange(0, i as int) == locals@);
    }
    Ok(())
}

/// The parent's root mapping composed with a space's own parent mapping.
fn compose_root_mapping(parent_root: &AncestorMapping, own: &AncestorMapping) -> (m: AncestorMapping)
    requires
        parent_root.wf(),
        own.wf(),
    ensures
        m.wf(),
        m@ == compose(parent_root@, own@),
{
    let pairs = parent_root.list_ancestor_to_space();
    let ghost pr = parent_root@;
    let mut m = AncestorMapping::new();
    let mut i: usize = 0;
    while i < pairs.len()
        invariant
            i <= pairs@.len(),
            m.wf(),
            lists_map(pairs@, pr),
            own.wf(),
            pr == parent_root@,
            forall|a: Seq<char>| #[trigger] m@.contains_key(a) <==> exists|x: int|
                0 <= x < i && #[trigger] pairs@[x].0@ == a && own@.contains_key(pairs@[x].1@),
            forall|a: Seq<char>| #[trigger] m@.contains_key(a) ==> m@[a] == own@[pr[a]],
        decreases pairs@.len() - i,
    {
        let ghost before = m@;
        let a = &pairs[i].0;
        match own.get_space(&pairs[i].1) {
            Some(l) => {
                proof {
                    if before.contains_key(a@) {
                        let x = choose|x: int| 0 <= x < i && #[trigger] pairs@[x].0@ == a@ && own@.contains_key(pairs@[x].1@);
                        assert(pairs@[x].0@ != pairs@[i as int].0@);
                    }
                }
                let added = m.add_mapping(a.clone(), l.clone());
                proof {
                    assert(added is Ok);
                    assert forall|b: Seq<char>| #[trigger] m@.contains_key(b) <==> exists|x: int|
                        0 <= x < i + 1 && #[trigger] pairs@[x].0@ == b && own@.contains_key(pairs@[x].1@) by {
                        if b == a@ {
                            assert(pairs@[i as int].0@ == b);
                        } else if exists|x: int| 0 <= x < i + 1 && #[trigger] pairs@[x].0@ == b && own@.contains_key(pairs@[x].1@) {
                            let x = choose|x: int| 0 <= x < i + 1 && #[trigger] pairs@[x].0@ == b && own@.contains_key(pairs@[x].1@);
                            assert(x < i);
                        }
                    }
                }
            },
            None => {
                proof {
                    assert forall|b: Seq<char>| #[trigger] m@.contains_key(b) <==> exists|x: int|
                        0 <= x < i + 1 && #[trigger] pairs@[x].0@ == b && own@.contains_key(pairs@[x].1@) by {
                        if exists|x: int| 0 <= x < i + 1 && #[trigger] pairs@[x].0@ == b && own@.contains_key(pairs@[x].1@) {
                            let x = choose|x: int| 0 <= x < i + 1 && #[trigger] pairs@[x].0@ == b && own@.contains_key(pairs@[x].1@);
                            assert(x < i);
                        }
                    }
                }
            },
        }
        i += 1;
    }
    proof {
        assert forall|a: Seq<char>| #[trigger] m@.contains_key(a) <==> compose(pr, own@).contains_key(a) by {
            if pr.contains_key(a) && own@.contains_key(pr[a]) {
                let x = choose|x: int| 0 <= x < pairs@.len() && #[trigger] pairs@[x].0@ == a;
            }
        }
        assert(m@ =~= compose(pr, own@));
    }
    m
}

/// Merges the parent's resolved document into `w`.
fn merge_parent(w: &mut Document, s: &Space, p: &ResolvedSpace) -> (r: Result<(), MergeConflict>)
    requires
        doc_wf(old(w)@),
        s.parent_mapping.wf(),
        doc_wf(p.variables@),
    ensures
        match r {
            Ok(()) => with_parent_from(doc_of(old(w)@), *s, *p) == Some(doc_of(final(w)@)) && doc_wf(final(w)@),
            Err(c) => with_parent_from(doc_of(old(w)@), *s, *p) is None && leaf_conflict(json_of(c.existing), json_of(c.incoming))
                && incoming_from(doc_of(p.variables@), parent_link(s.parent_mapping@), parent_keep(s.parent_mapping@, p.environments@),
                    key_path(c.path@), json_of(c.incoming)),
        },
{
    let ghost pm = s.parent_mapping@;
    let mut links: Vec<Vec<bool>> = Vec::new();
    let mut i: usize = 0;
    while i < s.environments.len()
        invariant
            i <= s.environments@.len(),
            s.parent_mapping.wf(),
            pm == s.parent_mapping@,
            links@.len() == i,
            forall|x: int| 0 <= x < i ==> (#[trigger] links@[x])@.len() == p.environments@.len(),
            forall|x: int, y: int| 0 <= x < i && 0 <= y < p.environments@.len()
                ==> #[trigger] links@[x]@[y] == parent_link(pm)(s.environments@[x]@, p.environments@[y]@),
        decreases s.environments@.len() - i,
    {
        let mut row: Vec<bool> = Vec::new();
        let mut j: usize = 0;
        while j < p.environments.len()
            invariant
                j <= p.environments@.len(),
                i < s.environments@.len(),
                s.parent_mapping.wf(),
                pm == s.parent_mapping@,
                row@.len() == j,
                forall|y: int| 0 <= y < j ==> #[trigger] row@[y] == parent_link(pm)(s.environments@[i as int]@, p.environments@[y]@),
            decreases p.environments@.len() - j,
        {
            let joined = match s.parent_mapping.get_space(&p.environments[j]) {
                Some(x) => *x == s.environments[i],
                None => false,
            };
            row.push(joined);
            j += 1;
        }
        links.push(row);
        i += 1;
    }
    let mut keeps: Vec<bool> = Vec::new();
    let mut e: usize = 0;
    while e < p.variables.len()
        invariant
            e <= p.variables@.len(),
            s.parent_mapping.wf(),
            pm == s.parent_mapping@,
            keeps@.len() == e,
            forall|x: int| 0 <= x < e ==> #[trigger] keeps@[x] == parent_keep(pm, p.environments@)(p.variables@[x].0@),
        decreases p.variables@.len() - e,
    {
        let k = &p.variables[e].0;
        let found = position_of(&p.environments, k);
        let mapped = found.is_some() && s.parent_mapping.contains_ancestor(k);
        proof {
            if found.is_none() && contains_str(p.environments@, k@) {
                let y = choose|y: int| 0 <= y < p.environments@.len() && #[trigger] p.environments@[y]@ == k@;
            }
        }
        keeps.push(!mapped);
        e += 1;
    }
    apply_edge_exec(
        w,
        &s.environments,
        &p.environments,
        &links,
        &keeps,
        &p.variables,
        Ghost(parent_link(pm)),
        Ghost(parent_keep(pm, p.environments@)),
    )
}

/// `w` with the parent's resolution merged in across the parent edge.
pub open spec fn with_parent_from(w: Map<Seq<char>, Json>, s: Space, p: ResolvedSpace) -> Option<Map<Seq<char>, Json>> {
    apply_edge(
        Some(w),
        s.environments@,
        p.environments@,
        parent_link(s.parent_mapping@),
        parent_keep(s.parent_mapping@, p.environments@),
        doc_of(p.variables@),
    )
}

/// `w` with a dependency's resolution merged in across a dependency edge.
pub open spec fn with_dep_from(
    w: Map<Seq<char>, Json>,
    s: Space,
    root: Map<Seq<char>, Seq<char>>,
    d: ResolvedSpace,
) -> Option<Map<Seq<char>, Json>> {
    apply_edge(
        Some(w),
        s.environments@,
        d.environments@,
        dep_link(root, d.root_mapping@),
        dep_keep(d.environments@),
        doc_of(d.variables@),
    )
}

/// Merges a dependency's resolved document into `w`.
fn merge_dependency(w: &mut Document, s: &Space, root: &AncestorMapping, d: &ResolvedSpace) -> (r: Result<(), MergeConflict>)
    requires
        doc_wf(old(w)@),
        root.wf(),
        d.root_mapping.wf(),
        doc_wf(d.variables@),
    ensures
        match r {
            Ok(()) => with_dep_from(doc_of(old(w)@), *s, root@, *d) == Some(doc_of(final(w)@)) && doc_wf(final(w)@),
            Err(c) => with_dep_from(doc_of(old(w)@), *s, root@, *d) is None && leaf_conflict(json_of(c.existing), json_of(c.incoming))
                && incoming_from(doc_of(d.variables@), dep_link(root@, d.root_mapping@), dep_keep(d.environments@),
                    key_path(c.path@), json_of(c.incoming)),
        },
{
    let ghost link = dep_link(root@, d.root_mapping@);
    let mut links: Vec<Vec<bool>> = Vec::new();
    let mut i: usize = 0;
    while i < s.environments.len()
        invariant
            i <= s.environments@.len(),
            root.wf(),
            d.root_mapping.wf(),
            link == dep_link(root@, d.root_mapping@),
            links@.len() == i,
            forall|x: int| 0 <= x < i ==> (#[trigger] links@[x])@.len() == d.environments@.len(),
            forall|x: int, y: int| 0 <= x < i && 0 <= y < d.environments@.len()
                ==> #[trigger] links@[x]@[y] == link(s.environments@[x]@, d.environments@[y]@),
        decreases s.environments@.len() - i,
    {
        let mut row: Vec<bool> = Vec::new();
        let mut j: usize = 0;
        while j < d.environments.len()
            invariant
                j <= d.environments@.len(),
                i < s.environments@.len(),
                root.wf(),
                d.root_mapping.wf(),
                link == dep_link(root@, d.root_mapping@),
                row@.len() == j,
                forall|y: int| 0 <= y < j ==> #[trigger] row@[y] == link(s.environments@[i as int]@, d.environments@[y]@),
            decreases d.environments@.len() - j,
        {
            let l = &s.environments[i];
            let ancestors = d.root_mapping.get_ancestors(&d.environments[j]);
            let ghost want = ancestors_of(d.root_mapping@, d.environments@[j as int]@);
            let mut joined = false;
            let mut x: usize = 0;
            while x < ancestors.len()
                invariant
                    x <= ancestors@.len(),
                    root.wf(),
                    lists_set(ancestors@, want),
                    joined <==> exists|y: int| 0 <= y < x && #[trigger] ancestors_of(root@, l@).contains(ancestors@[y]@),
                decreases ancestors@.len() - x,
            {
                match root.get_space(&ancestors[x]) {
                    Some(t) => {
                        if *t == *l {
                            joined = true;
                            proof {
                                assert(ancestors_of(root@, l@).contains(ancestors@[x as int]@));
                            }
                        }
                    },
                    None => {},
                }
                proof {
                    if joined {
                        assert(exists|y: int| 0 <= y < x + 1 && #[trigger] ancestors_of(root@, l@).contains(ancestors@[y]@)) by {
                            if !(exists|y: int| 0 <= y < x && #[trigger] ancestors_of(root@, l@).contains(ancestors@[y]@)) {
                                assert(ancestors_of(root@, l@).contains(ancestors@[x as int]@));
                            }
                        }
                    } else {
                        assert(!ancestors_of(root@, l@).contains(ancestors@[x as int]@));
                    }
                }
                x += 1;
            }
            proof {
                let de = d.environments@[j as int]@;
                if joined {
                    let y = choose|y: int| 0 <= y < x && #[trigger] ancestors_of(root@, l@).contains(ancestors@[y]@);
                    assert(want.contains(ancestors@[y]@));
                } else {
                    if link(l@, de) {
                        let a = choose|a: Seq<char>| #[trigger] ancestors_of(root@, l@).contains(a) && ancestors_of(d.root_mapping@, de).contains(a);
                        let y = choose|y: int| 0 <= y < ancestors@.len() && #[trigger] ancestors@[y]@ == a;
                    }
                }
            }
            row.push(joined);
            j += 1;
        }
        links.push(row);
        i += 1;
    }
    let mut keeps: Vec<bool> = Vec::new();
    let mut e: usize = 0;
    while e < d.variables.len()
        invariant
            e <= d.variables@.len(),
            keeps@.len() == e,
            forall|x: int| 0 <= x < e ==> #[trigger] keeps@[x] == dep_keep(d.environments@)(d.variables@[x].0@),
        decreases d.variables@.len() - e,
    {
        let found = position_of(&d.environments, &d.variables[e].0);
        proof {
            if found.is_none() && contains_str(d.environments@, d.variables@[e as int].0@) {
                let y = choose|y: int| 0 <= y < d.environments@.len() && #[trigger] d.environments@[y]@ == d.variables@[e as int].0@;
            }
        }
        keeps.push(found.is_none());
        e += 1;
    }
    apply_edge_exec(
        w,
        &s.environments,
        &d.environments,
        &links,
        &keeps,
        &d.variables,
        Ghost(link),
        Ghost(dep_keep(d.environments@)),
    )
}

/// `deps_merged` reads only the first `n` resolutions.
proof fn lemma_deps_merged_same(
    w: Option<Map<Seq<char>, Json>>,
    s: Space,
    root: Map<Seq<char>, Seq<char>>,
    d1: Seq<ResolvedSpace>,
    d2: Seq<ResolvedSpace>,
    n: int,
)
    requires
        forall|k: int| 0 <= k < n ==> d1[k] == d2[k],
    ensures
        deps_merged(w, s, root, d1, n) == deps_merged(w, s, root, d2, n),
    decreases n,
{
    if n > 0 {
        lemma_deps_merged_same(w, s, root, d1, d2, n - 1);
    }
}

/// Once `deps_merged` fails it stays failed.
proof fn lemma_deps_merged_none(
    w: Option<Map<Seq<char>, Json>>,
    s: Space,
    root: Map<Seq<char>, Seq<char>>,
    deps: Seq<ResolvedSpace>,
    k: int,
    n: int,
)
    requires
        0 <= k <= n,
        deps_merged(w, s, root, deps, k) is None,
    ensures
        deps_merged(w, s, root, deps, n) is None,
    decreases n - k,
{
    if k < n {
        lemma_deps_merged_none(w, s, root, deps, k, n - 1);
    }
}

/// `t1` begins with `t0` and names each entry once.
pub open spec fn table_extends(t0: Seq<(String, ResolvedSpace)>, t1: Seq<(String, ResolvedSpace)>) -> bool {
    &&& t1.len() >= t0.len()
    &&& t1.subrange(0, t0.len() as int) == t0
    &&& forall|i: int, j: int| 0 <= i < j < t1.len() ==> t1[i].0@ != t1[j].0@
}

/// Extending a table keeps the entries it had.
proof fn lemma_entry_of_extend(t0: Seq<(String, ResolvedSpace)>, t1: Seq<(String, ResolvedSpace)>, n: Seq<char>)
    requires
        table_extends(t0, t1),
        has_entry(t0, n),
    ensures
        has_entry(t1, n),
        entry_of(t1, n) == entry_of(t0, n),
{
    let i = choose|i: int| 0 <= i < t0.len() && #[trigger] t0[i].0@ == n;
    assert(t1[i] == t0[i]);
    let j = choose|j: int| 0 <= j < t1.len() && #[trigger] t1[j].0@ == n;
    assert(i == j);
}

/// Extending a table keeps its entries well resolved.
proof fn lemma_table_extend(g: Seq<Space>, t0: Seq<(String, ResolvedSpace)>, t1: Seq<(String, ResolvedSpace)>)
    requires
        table_ok(g, t0),
        table_extends(t0, t1),
    ensures
        forall|i: int| 0 <= i < t0.len() ==> #[trigger] entry_ok(g, t1, i),
{
    assert forall|i: int| 0 <= i < t0.len() implies #[trigger] entry_ok(g, t1, i) by {
        assert(entry_ok(g, t0, i));
        assert(t1[i] == t0[i]);
        let sp = space_of(g, t0[i].0@);
        assert forall|n: Seq<char>| #[trigger] has_entry_before(t0, i, n) implies has_entry_before(t1, i, n)
            && has_entry(t0, n) && entry_of(t1, n) == entry_of(t0, n) by {
            let x = choose|x: int| 0 <= x < i && x < t0.len() && #[trigger] t0[x].0@ == n;
            assert(t1[x] == t0[x]);
            lemma_entry_of_extend(t0, t1, n);
        }
        if let Some(p) = sp.parent_space {
            assert(has_entry_before(t0, i, p@));
        }
        assert(dep_entries(t1, sp) =~= dep_entries(t0, sp)) by {
            assert forall|k: int| 0 <= k < sp.dependencies@.len() implies dep_entries(t1, sp)[k] == dep_entries(t0, sp)[k] by {
                assert(has_entry_before(t0, i, sp.dependencies@[k]@));
            }
        }
    }
}

/// The names on the stack are distinct spaces of `g` with no entry yet.
pub open spec fn stack_ok(g: Seq<Space>, stack: Seq<String>, t: Seq<(String, ResolvedSpace)>) -> bool {
    &&& forall|i: int, j: int| 0 <= i < j < stack.len() ==> stack[i]@ != stack[j]@
    &&& forall|i: int| 0 <= i < stack.len() ==> has_space(g, #[trigger] stack[i]@)
    &&& forall|i: int| 0 <= i < stack.len() ==> !has_entry(t, #[trigger] stack[i]@)
}

/// A stack of distinct space names is no longer than the graph.
proof fn lemma_stack_bound(g: Seq<Space>, stack: Seq<String>)
    requires
        forall|i: int, j: int| 0 <= i < j < stack.len() ==> stack[i]@ != stack[j]@,
        forall|i: int| 0 <= i < stack.len() ==> has_space(g, #[trigger] stack[i]@),
    ensures
        stack.len() <= g.len(),
{
    let a = stack.map_values(|s: String| s@);
    let b = g.map_values(|s: Space| s.name@);
    assert(a.no_duplicates()) by {
        assert forall|i: int, j: int| 0 <= i < a.len() && 0 <= j < a.len() && i != j implies a[i] != a[j] by {
            if i < j {
                assert(stack[i]@ != stack[j]@);
            } else {
                assert(stack[j]@ != stack[i]@);
            }
        }
    }
    a.unique_seq_to_set();
    b.lemma_cardinality_of_set();
    assert(a.to_set().subset_of(b.to_set())) by {
        assert forall|n: Seq<char>| a.to_set().contains(n) implies b.to_set().contains(n) by {
            assert(a.contains(n));
            let i = choose|i: int| 0 <= i < a.len() && a[i] == n;
            assert(has_space(g, stack[i]@));
            let j = choose|j: int| 0 <= j < g.len() && #[trigger] g[j].name@ == stack[i]@;
            assert(b[j] == n);
        }
    }
    vstd::seq_lib::seq_to_set_is_finite(b);
    vstd::set_lib::lemma_len_subset(a.to_set(), b.to_set());
}

/// Index of the space of `g` named `name`.
fn find_space(g: &SpaceGraph, name: &String) -> (r: Option<usize>)
    ensures
        match r {
            Some(i) => i < g@.len() && g@[i as int].name@ == name@,
            None => !has_space(g@, name@),
        },
{
    let mut i: usize = 0;
    while i < g.len()
        invariant
            i <= g@.len(),
            forall|j: int| 0 <= j < i ==> g@[j].name@ != name@,
        decreases g@.len() - i,
    {
        if g[i].name == *name {
            return Some(i);
        }
        i += 1;
    }
    None
}

/// A copy of a copy tree.
fn clone_copy_tree(t: &CopyTree) -> (r: CopyTree)
    ensures
        copy_model(r) == copy_model(*t),
    decreases t,
{
    let mut items: Vec<ToCopy> = Vec::new();
    let mut i: usize = 0;
    while i < t.to_copy.len()
        invariant
            i <= t.to_copy@.len(),
            items_model(items@) == items_model(t.to_copy@.subrange(0, i as int)),
        decreases t.to_copy@.len() - i,
    {
        let ghost before = items@;
        proof {
            assert(t.to_copy@.subrange(0, i + 1).drop_last() == t.to_copy@.subrange(0, i as int));
            assert(decreases_to!(t.to_copy => t.to_copy[i as int]));
        }
        let item = match &t.to_copy[i] {
            ToCopy::File(p) => ToCopy::File(p.clone()),
            ToCopy::Directory { path, subtree } => ToCopy::Directory { path: path.clone(), subtree: clone_copy_tree(subtree) },
        };
        items.push(item);
        proof {
            assert(items@.drop_last() == before);
        }
        i += 1;
    }
    proof {
        assert(t.to_copy@.subrange(0, i as int) == t.to_copy@);
    }
    CopyTree { to_copy: items }
}

/// Adds an empty block for each of `envs` that `w` lacks.
fn fill_environments(w: &mut Document, envs: &Vec<String>)
    requires
        doc_wf(old(w)@),
    ensures
        doc_wf(final(w)@),
        doc_of(final(w)@) == fill(doc_of(old(w)@), envs@),
{
    let ghost merged = doc_of(w@);
    proof {
        assert(envs@.subrange(0, 0) =~= Seq::<String>::empty());
        assert(fill(merged, envs@.subrange(0, 0)) =~= merged);
    }
    let mut e: usize = 0;
    while e < envs.len()
        invariant
            e <= envs@.len(),
            doc_wf(w@),
            merged == doc_of(old(w)@),
            doc_of(w@) == fill(merged, envs@.subrange(0, e as int)),
        decreases envs@.len() - e,
    {
        let ghost before = w@;
        let ghost env = envs@[e as int]@;
        proof {
            lemma_doc_of(w@);
            assert forall|q: Seq<char>| contains_str(envs@.subrange(0, e + 1), q)
                <==> contains_str(envs@.subrange(0, e as int), q) || q == env by {
                if contains_str(envs@.subrange(0, e + 1), q) && q != env {
                    let x = choose|x: int| 0 <= x < e + 1 && #[trigger] envs@.subrange(0, e + 1)[x]@ == q;
                    assert(envs@.subrange(0, e as int)[x]@ == q);
                }
                if contains_str(envs@.subrange(0, e as int), q) {
                    let x = choose|x: int| 0 <= x < e && #[trigger] envs@.subrange(0, e as int)[x]@ == q;
                    assert(envs@.subrange(0, e + 1)[x]@ == q);
                }
                if q == env {
                    assert(envs@.subrange(0, e + 1)[e as int]@ == q);
                }
            }
        }
        if position_of_key(w, &envs[e]).is_none() {
            let block: Document = Vec::new();
            proof {
                assert(block@ =~= Seq::<(String, JsonValue)>::empty());
                assert(doc_of(block@) == Map::<Seq<char>, Json>::empty());
            }
            let empty = JsonValue::Object(block);
            proof {
                assert(json_of(empty) == Json::Object(Map::empty()));
            }
            w.push((envs[e].clone(), empty));
            proof {
                assert(w@.drop_last() == before);
                assert(!doc_of(before).contains_key(env)) by {
                    if doc_of(before).contains_key(env) {
                        let x = choose|x: int| 0 <= x < before.len() && #[trigger] before[x].0@ == env;
                    }
                }
                assert(doc_of(w@) =~= fill(merged, envs@.subrange(0, e + 1)));
                assert forall|x: int, y: int| 0 <= x < y < w@.len() implies w@[x].0@ != w@[y].0@ by {
                    if y == w@.len() - 1 {
                        assert(w@[x] == before[x]);
                    }
                }
                assert forall|x: int| 0 <= x < w@.len() implies crate::value::value_wf(#[trigger] w@[x].1) by {
                    if x < before.len() {
                        assert(w@[x] == before[x]);
                    }
                }
            }
        } else {
            proof {
                assert(doc_of(w@).contains_key(env));
                assert(doc_of(w@) =~= fill(merged, envs@.subrange(0, e + 1)));
            }
        }
        e += 1;
    }
    proof {
        assert(envs@.subrange(0, e as int) == envs@);
    }
}

/// Popping the top of a stack keeps the rest of it well formed.
proof fn lemma_stack_pop(g: Seq<Space>, v0: Seq<String>, name: String, t: Seq<(String, ResolvedSpace)>)
    requires
        stack_ok(g, v0.push(name), t),
    ensures
        stack_ok(g, v0, t),
        !has_entry(t, name@),
        forall|i: int| 0 <= i < v0.len() ==> v0[i]@ != name@,
{
    let v = v0.push(name);
    assert(v[v0.len() as int] == name);
    assert forall|i: int| 0 <= i < v0.len() implies has_space(g, #[trigger] v0[i]@) && !has_entry(t, v0[i]@) && v0[i]@ != name@ by {
        assert(v[i] == v0[i]);
    }
    assert forall|i: int, j: int| 0 <= i < j < v0.len() implies v0[i]@ != v0[j]@ by {
        assert(v[i] == v0[i] && v[j] == v0[j]);
    }
}

/// `s` names `n` as its parent or as a dependency.
pub open spec fn refers_to(s: Space, n: Seq<char>) -> bool {
    (s.parent_space matches Some(p) && p@ == n) || contains_str(s.dependencies@, n)
}

/// Some space of `g` names `n` as its parent or as a dependency.
pub open spec fn referenced(g: Seq<Space>, n: Seq<char>) -> bool {
    exists|x: Seq<char>| #[trigger] edge(g, x, n)
}

/// The space named `a` has `b` as its parent or as a dependency.
pub open spec fn edge(g: Seq<Space>, a: Seq<char>, b: Seq<char>) -> bool {
    has_space(g, a) && refers_to(space_of(g, a), b)
}

/// `p` is a chain of names, each the parent or a dependency of the one before.
pub open spec fn is_path(g: Seq<Space>, p: Seq<Seq<char>>) -> bool {
    p.len() >= 1 && forall|i: int| 0 <= i < p.len() - 1 ==> edge(g, #[trigger] p[i], p[i + 1])
}

/// `b` is `a`, or is read by `a` through a chain of parents and dependencies.
pub open spec fn reaches(g: Seq<Space>, a: Seq<char>, b: Seq<char>) -> bool {
    exists|p: Seq<Seq<char>>| #[trigger] is_path(g, p) && p[0] == a && p.last() == b
}

/// `b` is read by `a` through a chain of at least one parent or dependency.
pub open spec fn reaches_plus(g: Seq<Space>, a: Seq<char>, b: Seq<char>) -> bool {
    exists|p: Seq<Seq<char>>| #[trigger] is_path(g, p) && p.len() >= 2 && p[0] == a && p.last() == b
}

/// `n` reads itself through a chain of parents and dependencies.
pub open spec fn on_cycle(g: Seq<Space>, n: Seq<char>) -> bool {
    reaches_plus(g, n, n)
}

proof fn lemma_reaches_self(g: Seq<Space>, a: Seq<char>)
    ensures
        reaches(g, a, a),
{
    assert(is_path(g, seq![a]));
}

proof fn lemma_edge_then_reaches(g: Seq<Space>, a: Seq<char>, b: Seq<char>, c: Seq<char>)
    requires
        edge(g, a, b),
        reaches(g, b, c),
    ensures
        reaches(g, a, c),
        reaches_plus(g, a, c),
{
    let p = choose|p: Seq<Seq<char>>| #[trigger] is_path(g, p) && p[0] == b && p.last() == c;
    let q = seq![a] + p;
    assert forall|i: int| 0 <= i < q.len() - 1 implies edge(g, #[trigger] q[i], q[i + 1]) by {
        if i > 0 {
            assert(q[i] == p[i - 1] && q[i + 1] == p[i]);
        }
    }
    assert(is_path(g, q));
}

proof fn lemma_reaches_plus_then_edge(g: Seq<Space>, a: Seq<char>, b: Seq<char>, c: Seq<char>)
    requires
        reaches_plus(g, a, b),
        edge(g, b, c),
    ensures
        reaches_plus(g, a, c),
{
    let p = choose|p: Seq<Seq<char>>| #[trigger] is_path(g, p) && p.len() >= 2 && p[0] == a && p.last() == b;
    let q = p.push(c);
    assert forall|i: int| 0 <= i < q.len() - 1 implies edge(g, #[trigger] q[i], q[i + 1]) by {
        if i < p.len() - 1 {
            assert(q[i] == p[i] && q[i + 1] == p[i + 1]);
        }
    }
    assert(is_path(g, q));
}

proof fn lemma_edge_plus(g: Seq<Space>, a: Seq<char>, b: Seq<char>)
    requires
        edge(g, a, b),
    ensures
        reaches_plus(g, a, b),
{
    lemma_reaches_self(g, b);
    lemma_edge_then_reaches(g, a, b, b);
}

/// Every name on the stack reads `name` through at least one edge.
pub open spec fn stack_reaches(g: Seq<Space>, stack: Seq<String>, name: Seq<char>) -> bool {
    forall|i: int| 0 <= i < stack.len() ==> reaches_plus(g, #[trigger] stack[i]@, name)
}

proof fn lemma_stack_reaches(g: Seq<Space>, v0: Seq<String>, name: String, d: Seq<char>)
    requires
        stack_reaches(g, v0, name@),
        edge(g, name@, d),
    ensures
        stack_reaches(g, v0.push(name), d),
{
    let v = v0.push(name);
    assert forall|i: int| 0 <= i < v.len() implies reaches_plus(g, #[trigger] v[i]@, d) by {
        if i < v0.len() {
            assert(v[i] == v0[i]);
            lemma_reaches_plus_then_edge(g, v0[i]@, name@, d);
        } else {
            lemma_edge_plus(g, name@, d);
        }
    }
}

/// The parent and every dependency of `s` have entries in `t`.
pub open spec fn sources_in(t: Seq<(String, ResolvedSpace)>, s: Space) -> bool {
    &&& match s.parent_space {
        Some(p) => has_entry(t, p@),
        None => true,
    }
    &&& forall|x: int| 0 <= x < s.dependencies@.len() ==> has_entry(t, #[trigger] s.dependencies@[x]@)
}

/// Where a conflict met while merging the source `source` into `s` lies:
/// its two values do not merge, and the incoming one lies in the source's
/// resolved document along the conflict's path, across the parent edge or
/// a dependency edge.
pub open spec fn conflict_from(t: Seq<(String, ResolvedSpace)>, s: Space, source: Seq<char>, c: MergeConflict) -> bool {
    let e = entry_of(t, source);
    let path = key_path(c.path@);
    let y = json_of(c.incoming);
    &&& leaf_conflict(json_of(c.existing), y)
    &&& ((s.parent_space matches Some(p) && p@ == source && incoming_from(
        doc_of(e.variables@),
        parent_link(s.parent_mapping@),
        parent_keep(s.parent_mapping@, e.environments@),
        path,
        y,
    )) || (contains_str(s.dependencies@, source) && incoming_from(
        doc_of(e.variables@),
        dep_link(resolved_root(s, parent_entry(t, s)), e.root_mapping@),
        dep_keep(e.environments@),
        path,
        y,
    )))
}

/// What an error says of the graph and of the table at the time: a missing
/// space is missing, a cyclic space reads itself, and a conflicting space
/// has all its sources resolved and no solution.
pub open spec fn error_ok(g: Seq<Space>, t: Seq<(String, ResolvedSpace)>, e: ResolveError) -> bool {
    match e {
        ResolveError::SpaceNotFound(n) => !has_space(g, n@),
        ResolveError::CyclicDependency(n) => on_cycle(g, n@),
        ResolveError::MergeConflict { space, source, conflict } => {
            let s = space_of(g, space@);
            &&& has_space(g, space@)
            &&& sources_in(t, s)
            &&& refers_to(s, source@)
            &&& resolved_doc(s, parent_entry(t, s), dep_entries(t, s)) is None
            &&& conflict_from(t, s, source@, conflict)
        },
    }
}

/// The fault an error names lies within what resolving `name` reads: the
/// missing space is `name` or read by a space that `name` reaches; the
/// cyclic space and the conflicting space are reached by `name`.
pub open spec fn local_to(g: Seq<Space>, name: Seq<char>, e: ResolveError) -> bool {
    match e {
        ResolveError::SpaceNotFound(n) => n@ == name || exists|x: Seq<char>| #[trigger] reaches(g, name, x) && edge(g, x, n@),
        ResolveError::CyclicDependency(n) => reaches(g, name, n@),
        ResolveError::MergeConflict { space, .. } => reaches(g, name, space@),
    }
}

proof fn lemma_local_transfer(g: Seq<Space>, name: Seq<char>, d: Seq<char>, e: ResolveError)
    requires
        edge(g, name, d),
        local_to(g, d, e),
    ensures
        local_to(g, name, e),
{
    lemma_reaches_self(g, name);
    match e {
        ResolveError::SpaceNotFound(n) => {
            if n@ == d {
                assert(reaches(g, name, name) && edge(g, name, n@));
            } else {
                let x = choose|x: Seq<char>| #[trigger] reaches(g, d, x) && edge(g, x, n@);
                lemma_edge_then_reaches(g, name, d, x);
            }
        },
        ResolveError::CyclicDependency(n) => {
            lemma_edge_then_reaches(g, name, d, n@);
        },
        ResolveError::MergeConflict { space, .. } => {
            lemma_edge_then_reaches(g, name, d, space@);
        },
    }
}

/// The resolution of the space `space`, named `name`, from the entries of
/// its sources in `resolved`; the table is not changed.
fn compute_entry(name: &String, space: &Space, resolved: &ResolvedTable, Ghost(g): Ghost<Seq<Space>>) -> (r: Result<
    ResolvedSpace,
    ResolveError,
>)
    requires
        graph_wf(g),
        table_ok(g, resolved@),
        has_space(g, name@),
        space_of(g, name@) == *space,
        space.parent_mapping.wf(),
        match space.variables {
            Some(v) => doc_wf(v@),
            None => true,
        },
        sources_in(resolved@, *space),
    ensures
        match r {
            Ok(e) => {
                &&& e.root_mapping.wf()
                &&& doc_wf(e.variables@)
                &&& e.environments@ == space.environments@
                &&& e.path@ == space.path@
                &&& copy_model(e.files_to_copy) == copy_model(space.files_to_copy)
                &&& e.generate == space.generate
                &&& e.root_mapping@ == resolved_root(*space, parent_entry(resolved@, *space))
                &&& resolved_doc(*space, parent_entry(resolved@, *space), dep_entries(resolved@, *space))
                    == Some(doc_of(e.variables@))
            },
            Err(ResolveError::MergeConflict { space: n, source, conflict }) => n@ == name@ && refers_to(*space, source@)
                && resolved_doc(*space, parent_entry(resolved@, *space), dep_entries(resolved@, *space)) is None
                && conflict_from(resolved@, *space, source@, conflict),
            Err(_) => false,
        },
{
    let ghost t = resolved@;
    let mut variables: Document = match &space.variables {
        Some(v) => clone_document(v),
        None => Vec::new(),
    };
    proof {
        assert(doc_of(variables@) == own_doc(*space));
    }
    let root_mapping: AncestorMapping = match &space.parent_space {
        Some(p) => {
            let pi = position_of_key(resolved, p).unwrap();
            proof {
                assert(entry_ok(g, t, pi as int));
                let x = choose|x: int| 0 <= x < t.len() && #[trigger] t[x].0@ == p@;
                assert(x == pi);
                assert(t[pi as int].1 == entry_of(t, p@));
            }
            match merge_parent(&mut variables, space, &resolved[pi].1) {
                Ok(()) => {},
                Err(c) => {
                    proof {
                        lemma_deps_merged_none(
                            None,
                            *space,
                            resolved_root(*space, parent_entry(t, *space)),
                            dep_entries(t, *space),
                            0,
                            space.dependencies@.len() as int,
                        );
                    }
                    return Err(ResolveError::MergeConflict { space: name.clone(), source: p.clone(), conflict: c });
                },
            }
            compose_root_mapping(&resolved[pi].1.root_mapping, &space.parent_mapping)
        },
        None => space.parent_mapping.clone(),
    };
    let mut k: usize = 0;
    while k < space.dependencies.len()
        invariant
            k <= space.dependencies@.len(),
            t == resolved@,
            graph_wf(g),
            table_ok(g, t),
            sources_in(t, *space),
            root_mapping.wf(),
            root_mapping@ == resolved_root(*space, parent_entry(t, *space)),
            doc_wf(variables@),
            deps_merged(with_parent(*space, parent_entry(t, *space)), *space, root_mapping@, dep_entries(t, *space), k as int)
                == Some(doc_of(variables@)),
        decreases space.dependencies@.len() - k,
    {
        let dep = &space.dependencies[k];
        proof {
            assert(has_entry(t, space.dependencies@[k as int]@));
        }
        let di = position_of_key(resolved, dep).unwrap();
        proof {
            assert(entry_ok(g, t, di as int));
            let x = choose|x: int| 0 <= x < t.len() && #[trigger] t[x].0@ == dep@;
            assert(x == di);
            assert(dep_entries(t, *space)[k as int] == t[di as int].1);
        }
        match merge_dependency(&mut variables, space, &root_mapping, &resolved[di].1) {
            Ok(()) => {},
            Err(c) => {
                proof {
                    lemma_deps_merged_none(
                        with_parent(*space, parent_entry(t, *space)),
                        *space,
                        root_mapping@,
                        dep_entries(t, *space),
                        k + 1,
                        space.dependencies@.len() as int,
                    );
                    assert(refers_to(*space, dep@)) by {
                        assert(space.dependencies@[k as int]@ == dep@);
                    }
                }
                return Err(ResolveError::MergeConflict { space: name.clone(), source: dep.clone(), conflict: c });
            },
        }
        k += 1;
    }
    fill_environments(&mut variables, &space.environments);
    Ok(ResolvedSpace {
        variables,
        root_mapping,
        environments: copy_strings(&space.environments),
        path: space.path.clone(),
        files_to_copy: clone_copy_tree(&space.files_to_copy),
        generate: GenerateSpace { generate: space.generate.generate, typescript: space.generate.typescript },
    })
}

/// Resolves the space `name`, after the spaces it reads from, into
/// `resolved`; `visiting` holds the spaces whose resolution is in progress,
/// each of which reads `name`. A space already in `resolved` is left as it
/// is; a space in progress is a cycle. Otherwise its parent and then its
/// dependencies are resolved, and its own entry is added. An error names a
/// fault within what `name` reads (`local_to`), as `error_ok` says; so on
/// a part of the graph with no missing space, no cycle and no conflicting
/// merge, resolution succeeds.
pub fn resolve_space(
    name: &String,
    visiting: &mut Vec<String>,
    resolved: &mut ResolvedTable,
    space_graph: &SpaceGraph,
) -> (r: Result<(), ResolveError>)
    requires
        graph_wf(space_graph@),
        table_ok(space_graph@, old(resolved)@),
        stack_ok(space_graph@, old(visiting)@, old(resolved)@),
        stack_reaches(space_graph@, old(visiting)@, name@),
    ensures
        final(visiting)@ == old(visiting)@,
        table_ok(space_graph@, final(resolved)@),
        table_extends(old(resolved)@, final(resolved)@),
        stack_ok(space_graph@, old(visiting)@, final(resolved)@),
        match r {
            Ok(()) => has_entry(final(resolved)@, name@),
            Err(e) => error_ok(space_graph@, final(resolved)@, e) && local_to(space_graph@, name@, e),
        },
        has_entry(old(resolved)@, name@) ==> r is Ok && final(resolved)@ == old(resolved)@,
        !has_entry(old(resolved)@, name@) && (exists|i: int| 0 <= i < old(visiting)@.len() && #[trigger] old(visiting)@[i]@ == name@)
            ==> (r matches Err(ResolveError::CyclicDependency(n)) && n@ == name@) && final(resolved)@ == old(resolved)@,
    decreases space_graph@.len() - old(visiting)@.len(),
{
    let ghost g = space_graph@;
    let ghost t0 = resolved@;
    let ghost v0 = visiting@;
    proof {
        assert(t0.subrange(0, t0.len() as int) == t0);
        lemma_reaches_self(g, name@);
        if exists|i: int| 0 <= i < v0.len() && #[trigger] v0[i]@ == name@ {
            let i = choose|i: int| 0 <= i < v0.len() && #[trigger] v0[i]@ == name@;
            assert(has_space(g, v0[i]@));
        }
        if has_entry(t0, name@) {
            let i = choose|i: int| 0 <= i < t0.len() && #[trigger] t0[i].0@ == name@;
            assert(entry_ok(g, t0, i));
        }
    }
    let si = match find_space(space_graph, name) {
        Some(i) => i,
        None => {
            return Err(ResolveError::SpaceNotFound(name.clone()));
        },
    };
    if position_of_key(resolved, name).is_some() {
        return Ok(());
    }
    match position_of(visiting, name) {
        Some(x) => {
            proof {
                assert(reaches_plus(g, v0[x as int]@, name@));
            }
            return Err(ResolveError::CyclicDependency(name.clone()));
        },
        None => {},
    }
    let space = &space_graph[si];
    proof {
        let j = choose|j: int| 0 <= j < g.len() && #[trigger] g[j].name@ == name@;
        assert(j == si);
        assert(space_of(g, name@) == *space);
        assert(space.parent_mapping.wf());
        lemma_stack_bound(g, v0.push(*name));
    }
    visiting.push(name.clone());
    proof {
        assert(stack_ok(g, visiting@, resolved@)) by {
            assert forall|i: int| 0 <= i < visiting@.len() implies !has_entry(resolved@, #[trigger] visiting@[i]@) by {
                if i < v0.len() {
                    assert(visiting@[i] == v0[i]);
                }
            }
        }
    }
    if let Some(p) = &space.parent_space {
        proof {
            assert(edge(g, name@, p@));
            lemma_stack_reaches(g, v0, *name, p@);
        }
        match resolve_space(p, visiting, resolved, space_graph) {
            Ok(()) => {},
            Err(e) => {
                visiting.pop();
                proof {
                    lemma_stack_pop(g, v0, *name, resolved@);
                    lemma_local_transfer(g, name@, p@, e);
                }
                return Err(e);
            },
        }
    }
    proof {
        lemma_stack_pop(g, v0, *name, resolved@);
    }
    let mut k: usize = 0;
    while k < space.dependencies.len()
        invariant
            k <= space.dependencies@.len(),
            g == space_graph@,
            si < g.len(),
            g[si as int] == *space,
            graph_wf(g),
            space == space_of(g, name@),
            has_space(g, name@),
            table_ok(g, resolved@),
            table_extends(t0, resolved@),
            visiting@ == v0.push(*name),
            v0 == old(visiting)@,
            t0 == old(resolved)@,
            v0.len() < g.len(),
            stack_ok(g, visiting@, resolved@),
            stack_reaches(g, v0, name@),
            !has_entry(resolved@, name@),
            space.parent_space is Some ==> has_entry(resolved@, space.parent_space->0@),
            forall|x: int| 0 <= x < k ==> has_entry(resolved@, #[trigger] space.dependencies@[x]@),
        decreases space.dependencies@.len() - k,
    {
        let dep = &space.dependencies[k];
        let ghost tb = resolved@;
        proof {
            assert(edge(g, name@, dep@)) by {
                assert(space.dependencies@[k as int]@ == dep@);
            }
            lemma_stack_reaches(g, v0, *name, dep@);
        }
        match resolve_space(dep, visiting, resolved, space_graph) {
            Ok(()) => {},
            Err(e) => {
                visiting.pop();
                proof {
                    lemma_stack_pop(g, v0, *name, resolved@);
                    lemma_local_transfer(g, name@, dep@, e);
                    assert(table_extends(t0, resolved@)) by {
                        assert(resolved@.subrange(0, t0.len() as int) =~= tb.subrange(0, t0.len() as int));
                    }
                }
                return Err(e);
            },
        }
        proof {
            lemma_stack_pop(g, v0, *name, resolved@);
            assert(table_extends(t0, resolved@)) by {
                assert(resolved@.subrange(0, t0.len() as int) =~= tb.subrange(0, t0.len() as int));
            }
            if space.parent_space is Some {
                lemma_entry_of_extend(tb, resolved@, space.parent_space->0@);
            }
            assert forall|x: int| 0 <= x < k + 1 implies has_entry(resolved@, #[trigger] space.dependencies@[x]@) by {
                if x < k {
                    lemma_entry_of_extend(tb, resolved@, space.dependencies@[x]@);
                }
            }
        }
        k += 1;
    }
    visiting.pop();
    proof {
        assert(sources_in(resolved@, *space));
        assert(match space.variables {
            Some(v) => doc_wf(v@),
            None => true,
        });
    }
    let entry = match compute_entry(name, space, resolved, Ghost(g)) {
        Ok(e) => e,
        Err(e) => {
            proof {
                lemma_stack_pop(g, v0, *name, resolved@);
            }
            return Err(e);
        },
    };
    let ghost tp = resolved@;
    resolved.push((name.clone(), entry));
    proof {
        lemma_stack_pop(g, v0, *name, tp);
        let t = resolved@;
        let idx = tp.len() as int;
        assert(t.subrange(0, idx) == tp);
        assert(table_extends(tp, t)) by {
            assert forall|i: int, j: int| 0 <= i < j < t.len() implies t[i].0@ != t[j].0@ by {
                if j == idx {
                    assert(t[i] == tp[i]);
                }
            }
        }
        lemma_table_extend(g, tp, t);
        if space.parent_space is Some {
            let p = space.parent_space->0;
            lemma_entry_of_extend(tp, t, p@);
            let x = choose|x: int| 0 <= x < tp.len() && #[trigger] tp[x].0@ == p@;
            assert(t[x] == tp[x]);
        }
        assert(parent_entry(t, *space) == parent_entry(tp, *space));
        assert(dep_entries(t, *space) =~= dep_entries(tp, *space)) by {
            assert forall|x: int| 0 <= x < space.dependencies@.len() implies dep_entries(t, *space)[x] == dep_entries(tp, *space)[x] by {
                lemma_entry_of_extend(tp, t, space.dependencies@[x]@);
            }
        }
        assert forall|x: int| 0 <= x < space.dependencies@.len() implies has_entry_before(t, idx, #[trigger] space.dependencies@[x]@) by {
            let y = choose|y: int| 0 <= y < tp.len() && #[trigger] tp[y].0@ == space.dependencies@[x]@;
            assert(t[y] == tp[y]);
        }
        assert(t[idx].0@ == name@);
        assert(entry_ok(g, t, idx));
        assert(table_ok(g, t));
        assert(table_extends(t0, t)) by {
            assert(t.subrange(0, t0.len() as int) =~= tp.subrange(0, t0.len() as int));
        }
        assert(has_entry(t, name@));
        assert(stack_ok(g, v0, t)) by {
            assert forall|i: int| 0 <= i < v0.len() implies !has_entry(t, #[trigger] v0[i]@) by {
                if has_entry(t, v0[i]@) {
                    let y = choose|y: int| 0 <= y < t.len() && #[trigger] t[y].0@ == v0[i]@;
                    if y < idx {
                        assert(t[y] == tp[y]);
                    }
                }
            }
        }
    }
    Ok(())
}

/// Resolves every space of the graph, in graph order, and returns the
/// table of resolutions; stops at the first error, which names a missing
/// space that some space refers to, a space on a cycle, or a space whose
/// resolved sources do not merge.
pub fn resolve_spaces(space_graph: SpaceGraph) -> (r: Result<ResolvedTable, ResolveError>)
    requires
        graph_wf(space_graph@),
    ensures
        match r {
            Ok(t) => table_ok(space_graph@, t@) && forall|i: int|
                0 <= i < space_graph@.len() ==> has_entry(t@, #[trigger] space_graph@[i].name@),
            Err(e) => exists|t: Seq<(String, ResolvedSpace)>| table_ok(space_graph@, t) && #[trigger] reportable(space_graph@, t, e),
        },
{
    let ghost g = space_graph@;
    let mut resolved: ResolvedTable = Vec::new();
    let mut visiting: Vec<String> = Vec::new();
    let mut i: usize = 0;
    while i < space_graph.len()
        invariant
            i <= g.len(),
            g == space_graph@,
            graph_wf(g),
            table_ok(g, resolved@),
            visiting@ == Seq::<String>::empty(),
            forall|j: int| 0 <= j < i ==> has_entry(resolved@, #[trigger] g[j].name@),
        decreases g.len() - i,
    {
        let ghost before = resolved@;
        match resolve_space(&space_graph[i].name, &mut visiting, &mut resolved, &space_graph) {
            Ok(()) => {},
            Err(e) => {
                proof {
                    if e is SpaceNotFound {
                        let n = e->SpaceNotFound_0;
                        assert(has_space(g, g[i as int].name@));
                        let x = choose|x: Seq<char>| #[trigger] reaches(g, g[i as int].name@, x) && edge(g, x, n@);
                        assert(edge(g, x, n@));
                        assert(referenced(g, n@));
                    }
                    assert(reportable(g, resolved@, e));
                }
                return Err(e);
            },
        }
        proof {
            assert forall|j: int| 0 <= j < i + 1 implies has_entry(resolved@, #[trigger] g[j].name@) by {
                if j < i {
                    lemma_entry_of_extend(before, resolved@, g[j].name@);
                }
            }
        }
        i += 1;
    }
    Ok(resolved)
}

/// What the resolution of a space reads of another resolution.
pub open spec fn same_resolution(r1: ResolvedSpace, r2: ResolvedSpace) -> bool {
    &&& doc_of(r1.variables@) == doc_of(r2.variables@)
    &&& r1.root_mapping@ == r2.root_mapping@
    &&& r1.environments@ == r2.environments@
}

/// `resolved_doc` reads its sources only through `same_resolution`.
proof fn lemma_resolved_doc_congruent(
    s: Space,
    p1: Option<ResolvedSpace>,
    p2: Option<ResolvedSpace>,
    d1: Seq<ResolvedSpace>,
    d2: Seq<ResolvedSpace>,
)
    requires
        p1 is Some <==> p2 is Some,
        p1 is Some ==> same_resolution(p1->0, p2->0),
        d1.len() == d2.len(),
        forall|k: int| 0 <= k < d1.len() ==> same_resolution(#[trigger] d1[k], d2[k]),
    ensures
        resolved_root(s, p1) == resolved_root(s, p2),
        resolved_doc(s, p1, d1) == resolved_doc(s, p2, d2),
{
    let root = resolved_root(s, p1);
    let w = with_parent(s, p1);
    assert(w == with_parent(s, p2));
    lemma_deps_merged_congruent(w, s, root, d1, d2, d1.len() as int);
}

proof fn lemma_deps_merged_congruent(
    w: Option<Map<Seq<char>, Json>>,
    s: Space,
    root: Map<Seq<char>, Seq<char>>,
    d1: Seq<ResolvedSpace>,
    d2: Seq<ResolvedSpace>,
    n: int,
)
    requires
        n <= d1.len(),
        d1.len() == d2.len(),
        forall|k: int| 0 <= k < d1.len() ==> same_resolution(#[trigger] d1[k], d2[k]),
    ensures
        deps_merged(w, s, root, d1, n) == deps_merged(w, s, root, d2, n),
    decreases n,
{
    if n > 0 {
        lemma_deps_merged_congruent(w, s, root, d1, d2, n - 1);
        assert(same_resolution(d1[n - 1], d2[n - 1]));
    }
}

/// Index in `t` of the entry named `n`.
proof fn lemma_entry_index(t: Seq<(String, ResolvedSpace)>, n: Seq<char>) -> (i: int)
    requires
        has_entry(t, n),
        forall|x: int, y: int| 0 <= x < y < t.len() ==> t[x].0@ != t[y].0@,
    ensures
        0 <= i < t.len(),
        t[i].0@ == n,
        entry_of(t, n) == t[i].1,
        forall|k: int| has_entry_before(t, k, n) ==> i < k,
{
    let i = choose|i: int| 0 <= i < t.len() && #[trigger] t[i].0@ == n;
    assert forall|k: int| has_entry_before(t, k, n) implies i < k by {
        let x = choose|x: int| 0 <= x < k && x < t.len() && #[trigger] t[x].0@ == n;
        assert(x == i);
    }
    i
}

/// Entry `i` of `t1` and the entry of the same space in `t2` resolve alike.
proof fn lemma_tables_agree(g: Seq<Space>, t1: Seq<(String, ResolvedSpace)>, t2: Seq<(String, ResolvedSpace)>, i: int)
    requires
        table_ok(g, t1),
        table_ok(g, t2),
        0 <= i < t1.len(),
        has_entry(t2, t1[i].0@),
    ensures
        same_resolution(t1[i].1, entry_of(t2, t1[i].0@)),
    decreases i,
{
    let n = t1[i].0@;
    let s = space_of(g, n);
    let i2 = lemma_entry_index(t2, n);
    assert(entry_ok(g, t1, i));
    assert(entry_ok(g, t2, i2));
    let pe1 = parent_entry(t1, s);
    let pe2 = parent_entry(t2, s);
    if s.parent_space is Some {
        let p = s.parent_space->0@;
        let ip = lemma_entry_index(t1, p);
        assert(has_entry_before(t2, i2, p));
        let x = choose|x: int| 0 <= x < i2 && x < t2.len() && #[trigger] t2[x].0@ == p;
        lemma_tables_agree(g, t1, t2, ip);
    }
    let d1 = dep_entries(t1, s);
    let d2 = dep_entries(t2, s);
    assert forall|k: int| 0 <= k < d1.len() implies same_resolution(#[trigger] d1[k], d2[k]) by {
        let dn = s.dependencies@[k]@;
        assert(has_entry_before(t1, i, dn));
        let ik = lemma_entry_index(t1, dn);
        assert(has_entry_before(t2, i2, dn));
        let x = choose|x: int| 0 <= x < i2 && x < t2.len() && #[trigger] t2[x].0@ == dn;
        lemma_tables_agree(g, t1, t2, ik);
    }
    lemma_resolved_doc_congruent(s, pe1, pe2, d1, d2);
}

/// Resolution is deterministic: two well-resolved tables of one graph,
/// such as those of two runs of `resolve_spaces`, give every space they
/// both hold the same document, root mapping and environments.
pub proof fn resolution_deterministic(
    g: Seq<Space>,
    t1: Seq<(String, ResolvedSpace)>,
    t2: Seq<(String, ResolvedSpace)>,
    n: Seq<char>,
)
    requires
        table_ok(g, t1),
        table_ok(g, t2),
        has_entry(t1, n),
        has_entry(t2, n),
    ensures
        same_resolution(entry_of(t1, n), entry_of(t2, n)),
{
    let i = lemma_entry_index(t1, n);
    lemma_tables_agree(g, t1, t2, i);
}

/// Two spaces that depend on each other are never resolved: no
/// well-resolved table holds either, so `resolve_spaces` on a graph holding
/// them fails.
pub proof fn mutual_dependency_unresolvable(
    g: Seq<Space>,
    t: Seq<(String, ResolvedSpace)>,
    a: Seq<char>,
    b: Seq<char>,
)
    requires
        graph_wf(g),
        table_ok(g, t),
        has_space(g, a),
        has_space(g, b),
        contains_str(space_of(g, a).dependencies@, b),
        contains_str(space_of(g, b).dependencies@, a),
    ensures
        !has_entry(t, a),
        !has_entry(t, b),
{
    let sa = space_of(g, a);
    let sb = space_of(g, b);
    let xa = choose|x: int| 0 <= x < sa.dependencies@.len() && #[trigger] sa.dependencies@[x]@ == b;
    let xb = choose|x: int| 0 <= x < sb.dependencies@.len() && #[trigger] sb.dependencies@[x]@ == a;
    if has_entry(t, a) || has_entry(t, b) {
        if has_entry(t, a) {
            let ia = lemma_entry_index(t, a);
            assert(entry_ok(g, t, ia));
            assert(has_entry_before(t, ia, b));
        }
        let ib = lemma_entry_index(t, b);
        assert(entry_ok(g, t, ib));
        assert(has_entry_before(t, ib, a));
        let ia = lemma_entry_index(t, a);
        assert(ia < ib);
        assert(entry_ok(g, t, ia));
        assert(has_entry_before(t, ia, b));
        assert(ib < ia);
    }
}

/// Every space of `g` has an entry in `t`.
pub open spec fn complete(g: Seq<Space>, t: Seq<(String, ResolvedSpace)>) -> bool {
    forall|i: int| 0 <= i < g.len() ==> has_entry(t, #[trigger] g[i].name@)
}

/// The position of the entry named `n` in `t`.
pub open spec fn entry_pos(t: Seq<(String, ResolvedSpace)>, n: Seq<char>) -> int {
    choose|i: int| 0 <= i < t.len() && #[trigger] t[i].0@ == n
}

/// A space with an entry reads only spaces with earlier entries.
proof fn lemma_edge_descends(g: Seq<Space>, t: Seq<(String, ResolvedSpace)>, a: Seq<char>, b: Seq<char>)
    requires
        table_ok(g, t),
        has_entry(t, a),
        edge(g, a, b),
    ensures
        has_entry(t, b),
        0 <= entry_pos(t, b) < entry_pos(t, a),
{
    let ia = entry_pos(t, a);
    assert(0 <= ia < t.len() && t[ia].0@ == a);
    assert(entry_ok(g, t, ia));
    let s = space_of(g, a);
    if s.parent_space is Some && s.parent_space->0@ == b {
        assert(has_entry_before(t, ia, b));
    } else {
        let x = choose|x: int| 0 <= x < s.dependencies@.len() && #[trigger] s.dependencies@[x]@ == b;
        assert(has_entry_before(t, ia, b));
    }
    let y = choose|y: int| 0 <= y < ia && y < t.len() && #[trigger] t[y].0@ == b;
    let ib = entry_pos(t, b);
    assert(t[ib].0@ == b);
    assert(ib == y);
}

/// Along a chain from a space with an entry, entries come ever earlier.
proof fn lemma_path_descends(g: Seq<Space>, t: Seq<(String, ResolvedSpace)>, p: Seq<Seq<char>>, i: int)
    requires
        table_ok(g, t),
        is_path(g, p),
        has_entry(t, p[0]),
        1 <= i < p.len(),
    ensures
        has_entry(t, p[i]),
        entry_pos(t, p[i]) < entry_pos(t, p[0]),
    decreases i,
{
    assert(edge(g, p[i - 1], p[i]));
    if i == 1 {
        lemma_edge_descends(g, t, p[0], p[1]);
    } else {
        lemma_path_descends(g, t, p, i - 1);
        lemma_edge_descends(g, t, p[i - 1], p[i]);
    }
}

/// A name some space of `g` has an entry for in a complete table.
proof fn lemma_complete_has(g: Seq<Space>, t: Seq<(String, ResolvedSpace)>, n: Seq<char>)
    requires
        complete(g, t),
        has_space(g, n),
    ensures
        has_entry(t, n),
{
    let j = choose|j: int| 0 <= j < g.len() && #[trigger] g[j].name@ == n;
    assert(has_entry(t, g[j].name@));
}

/// An error as `resolve_spaces` may report it about the table `t`.
pub open spec fn reportable(g: Seq<Space>, t: Seq<(String, ResolvedSpace)>, e: ResolveError) -> bool {
    error_ok(g, t, e) && (e matches ResolveError::SpaceNotFound(n) ==> referenced(g, n@))
}

/// Whether resolution succeeds depends on the graph alone: when one run of
/// `resolve_spaces` returns a table (`t1`, complete and well resolved), no
/// run can report an error about any well-resolved table `t2`, since a
/// resolved graph has no cycle, no missing space that a space refers to,
/// and no conflicting merge.
pub proof fn resolution_outcome_deterministic(
    g: Seq<Space>,
    t1: Seq<(String, ResolvedSpace)>,
    t2: Seq<(String, ResolvedSpace)>,
    e: ResolveError,
)
    requires
        graph_wf(g),
        table_ok(g, t1),
        complete(g, t1),
        table_ok(g, t2),
    ensures
        !reportable(g, t2, e),
{
    if !reportable(g, t2, e) {
        return;
    }
    match e {
        ResolveError::SpaceNotFound(n) => {
            let x = choose|x: Seq<char>| #[trigger] edge(g, x, n@);
            lemma_complete_has(g, t1, x);
            lemma_edge_descends(g, t1, x, n@);
            let i = entry_pos(t1, n@);
            assert(entry_ok(g, t1, i));
        },
        ResolveError::CyclicDependency(n) => {
            let p = choose|p: Seq<Seq<char>>| #[trigger] is_path(g, p) && p.len() >= 2 && p[0] == n@ && p.last() == n@;
            assert(edge(g, p[0], p[1]));
            lemma_complete_has(g, t1, n@);
            lemma_path_descends(g, t1, p, p.len() - 1);
        },
        ResolveError::MergeConflict { space, source, conflict } => {
            let s = space_of(g, space@);
            lemma_complete_has(g, t1, space@);
            let i = lemma_entry_index(t1, space@);
            assert(entry_ok(g, t1, i));
            let pe1 = parent_entry(t1, s);
            let pe2 = parent_entry(t2, s);
            if s.parent_space is Some {
                let pn = s.parent_space->0@;
                assert(has_entry_before(t1, i, pn));
                let ip = lemma_entry_index(t1, pn);
                lemma_tables_agree(g, t1, t2, ip);
            }
            let d1 = dep_entries(t1, s);
            let d2 = dep_entries(t2, s);
            assert forall|k: int| 0 <= k < d1.len() implies same_resolution(#[trigger] d1[k], d2[k]) by {
                let dn = s.dependencies@[k]@;
                assert(has_entry_before(t1, i, dn));
                assert(has_entry(t2, dn));
                let ik = lemma_entry_index(t1, dn);
                lemma_tables_agree(g, t1, t2, ik);
            }
            lemma_resolved_doc_congruent(s, pe1, pe2, d1, d2);
        },
    }
}

/// Whether the parent mapping of `s` sends ancestors to declared
/// environments only.
pub fn mapping_targets_declared(s: &Space) -> (r: bool)
    requires
        s.parent_mapping.wf(),
    ensures
        r == targets_declared(*s),
{
    let pairs = s.parent_mapping.list_ancestor_to_space();
    let mut i: usize = 0;
    while i < pairs.len()
        invariant
            i <= pairs@.len(),
            lists_map(pairs@, s.parent_mapping@),
            forall|x: int| 0 <= x < i ==> contains_str(s.environments@, #[trigger] pairs@[x].1@),
        decreases pairs@.len() - i,
    {
        match position_of(&s.environments, &pairs[i].1) {
            Some(_) => {},
            None => {
                proof {
                    let a = pairs@[i as int].0@;
                    assert(s.parent_mapping@.contains_key(a));
                    if contains_str(s.environments@, s.parent_mapping@[a]) {
                        let y = choose|y: int| 0 <= y < s.environments@.len() && #[trigger] s.environments@[y]@ == s.parent_mapping@[a];
                    }
                }
                return false;
            },
        }
        i += 1;
    }
    proof {
        assert forall|a: Seq<char>| #[trigger] s.parent_mapping@.contains_key(a) implies contains_str(s.environments@, s.parent_mapping@[a]) by {
            let x = choose|x: int| 0 <= x < pairs@.len() && #[trigger] pairs@[x].0@ == a;
        }
    }
    true
}

/// Names are unique in `g` and every mapping sends ancestors to declared
/// environments: what `graph_wf` asks beyond what `create_space_graph`
/// gives.
pub open spec fn graph_ready(g: Seq<Space>) -> bool {
    &&& forall|i: int, j: int| 0 <= i < j < g.len() ==> g[i].name@ != g[j].name@
    &&& forall|i: int| 0 <= i < g.len() ==> targets_declared(#[trigger] g[i])
}

/// Whether `graph_ready` holds of a graph whose mappings are well formed.
pub fn check_graph(space_graph: &SpaceGraph) -> (r: bool)
    requires
        forall|i: int| 0 <= i < space_graph@.len() ==> (#[trigger] space_graph@[i]).parent_mapping.wf(),
    ensures
        r == graph_ready(space_graph@),
{
    let mut i: usize = 0;
    while i < space_graph.len()
        invariant
            i <= space_graph@.len(),
            forall|k: int| 0 <= k < space_graph@.len() ==> (#[trigger] space_graph@[k]).parent_mapping.wf(),
            forall|x: int, y: int| 0 <= x < y < i ==> space_graph@[x].name@ != space_graph@[y].name@,
            forall|x: int| 0 <= x < i ==> targets_declared(#[trigger] space_graph@[x]),
        decreases space_graph@.len() - i,
    {
        if !mapping_targets_declared(&space_graph[i]) {
            proof {
                assert(!targets_declared(space_graph@[i as int]));
            }
            return false;
        }
        let mut j: usize = 0;
        while j < i
            invariant
                j <= i,
                i < space_graph@.len(),
                forall|y: int| 0 <= y < j ==> space_graph@[y].name@ != space_graph@[i as int].name@,
            decreases i - j,
        {
            if space_graph[j].name == space_graph[i].name {
                proof {
                    assert(space_graph@[j as int].name@ == space_graph@[i as int].name@);
                    assert(!(forall|x: int, y: int| 0 <= x < y < space_graph@.len() ==> space_graph@[x].name@ != space_graph@[y].name@));
                }
                return false;
            }
            j += 1;
        }
        i += 1;
    }
    true
}

/// In a graph as `graph_wf` asks, the root mapping of a space sends every
/// root environment it maps to an environment the space declares; so a
/// block that a parent or a dependency passes along a mapping always lands
/// under a declared environment, and none is dropped for want of one.
pub proof fn root_targets_declared(g: Seq<Space>, s: Space, parent: Option<ResolvedSpace>, a: Seq<char>)
    requires
        graph_wf(g),
        exists|i: int| 0 <= i < g.len() && #[trigger] g[i] == s,
        resolved_root(s, parent).contains_key(a),
    ensures
        contains_str(s.environments@, resolved_root(s, parent)[a]),
{
    let i = choose|i: int| 0 <= i < g.len() && #[trigger] g[i] == s;
    assert(targets_declared(g[i]));
    if let Some(p) = parent {
        let pr = p.root_mapping@;
        assert(s.parent_mapping@.contains_key(pr[a]));
    } else {
        assert(s.parent_mapping@.contains_key(a));
    }
}

proof fn lemma_reaches_then_edge(g: Seq<Space>, a: Seq<char>, b: Seq<char>, c: Seq<char>)
    requires
        reaches(g, a, b),
        edge(g, b, c),
    ensures
        reaches(g, a, c),
{
    let p = choose|p: Seq<Seq<char>>| #[trigger] is_path(g, p) && p[0] == a && p.last() == b;
    let q = p.push(c);
    assert forall|i: int| 0 <= i < q.len() - 1 implies edge(g, #[trigger] q[i], q[i + 1]) by {
        if i < p.len() - 1 {
            assert(q[i] == p[i] && q[i + 1] == p[i + 1]);
        }
    }
    assert(is_path(g, q));
}

/// Every space that `c` reaches is a space of `g`, and none of them reads
/// itself.
pub open spec fn clean_closure(g: Seq<Space>, c: Seq<char>) -> bool {
    forall|x: Seq<char>| #[trigger] reaches(g, c, x) ==> has_space(g, x) && !on_cycle(g, x)
}

/// A space whose closure has no missing space and no cycle is unaffected
/// by faults elsewhere in the graph: resolving it (`resolve_space`, whose
/// errors are `error_ok` and `local_to` it) can fail only by a conflicting
/// merge at a space it reaches, and so succeeds when no such merge
/// conflicts, whatever cycles or missing spaces other spaces have.
pub proof fn clean_closure_fails_only_by_conflict(
    g: Seq<Space>,
    t: Seq<(String, ResolvedSpace)>,
    c: Seq<char>,
    e: ResolveError,
)
    requires
        clean_closure(g, c),
        error_ok(g, t, e),
        local_to(g, c, e),
    ensures
        e is MergeConflict,
{
    lemma_reaches_self(g, c);
    match e {
        ResolveError::SpaceNotFound(n) => {
            if n@ != c {
                let x = choose|x: Seq<char>| #[trigger] reaches(g, c, x) && edge(g, x, n@);
                lemma_reaches_then_edge(g, c, x, n@);
            }
            assert(reaches(g, c, n@));
        },
        ResolveError::CyclicDependency(n) => {
            assert(reaches(g, c, n@));
        },
        _ => {},
    }
}

} // verus!
