//! The declaration tree and its flattening into a graph of spaces.
use vstd::prelude::*;

use crate::ancestor_mapping::{
    declared_at, listed, ancestors_distinct, AncestorMapping, RootMappingError,
};
use crate::value::{doc_of, doc_wf, clone_document, Document};
use crate::ancestor_mapping::copy_strings;

verus! {

broadcast use vstd::std_specs::vec::group_vec_axioms;

/// The `generate` field of a declaration: a toggle or an object of options.
pub enum GenerateSchema {
    ShouldGenerate(bool),
    Generate(GenerateObjectSchema),
}

/// The options of generation.
pub struct GenerateObjectSchema {
    pub typescript: bool,
}

/// The declaration of a space, as read from its directory.
pub struct SpaceSchema {
    pub name: String,
    pub dependencies: Option<Vec<String>>,
    /// For each environment of this space, the environments of the parent
    /// space that feed it.
    pub space_to_parent_mapping: Option<Vec<(String, Vec<String>)>>,
    pub environments: Option<Vec<String>>,
    pub generate: Option<GenerateSchema>,
}

/// A declared space with its variables document.
pub struct SpaceNode {
    pub info: SpaceSchema,
    pub variables: Option<Document>,
}

/// A directory of the configuration tree.
pub struct Directory {
    pub directories: Vec<Directory>,
    pub path: String,
    pub parent_directory: Option<String>,
    pub space: Option<SpaceNode>,
    pub rest_to_copy: Vec<String>,
}

/// Whether and what to generate for a space.
pub struct GenerateSpace {
    pub generate: bool,
    pub typescript: bool,
}

/// Files and directories to copy, as a tree.
pub struct CopyTree {
    pub to_copy: Vec<ToCopy>,
}

/// One file, or one directory with its own tree.
pub enum ToCopy {
    File(String),
    Directory { path: String, subtree: CopyTree },
}

/// A node of the space graph.
pub struct Space {
    pub name: String,
    pub path: String,
    pub dependencies: Vec<String>,
    /// Maps the environments of the parent space onto this space's.
    pub parent_mapping: AncestorMapping,
    pub environments: Vec<String>,
    pub variables: Option<Document>,
    pub files_to_copy: CopyTree,
    pub parent_space: Option<String>,
    pub generate: GenerateSpace,
}

/// The spaces of a configuration tree.
pub type SpaceGraph = Vec<Space>;

/// A declaration found in the tree, with its directory and the name of the
/// nearest enclosing declared space.
pub struct Decl {
    pub node: SpaceNode,
    pub path: String,
    pub parent: Option<Seq<char>>,
    pub copy: Seq<CopyItem>,
}

/// The declarations of the tree under `d`, in depth-first pre-order;
/// `parent` is the nearest declared space enclosing `d`.
pub open spec fn decls(d: Directory, parent: Option<Seq<char>>) -> Seq<Decl>
    decreases d,
{
    own_decl(d, parent) + decls_in(d.directories@, inner_parent(d, parent))
}

/// The declaration of `d` itself, if it has one.
pub open spec fn own_decl(d: Directory, parent: Option<Seq<char>>) -> Seq<Decl> {
    match d.space {
        Some(s) => seq![Decl { node: s, path: d.path, parent, copy: copy_of(d) }],
        None => Seq::empty(),
    }
}

/// The nearest declared space enclosing the subdirectories of `d`.
pub open spec fn inner_parent(d: Directory, parent: Option<Seq<char>>) -> Option<Seq<char>> {
    match d.space {
        Some(s) => Some(s.info.name@),
        None => parent,
    }
}

/// The declarations under each of `ds`, one after the other.
pub open spec fn decls_in(ds: Seq<Directory>, parent: Option<Seq<char>>) -> Seq<Decl>
    decreases ds,
{
    if ds.len() == 0 {
        Seq::empty()
    } else {
        decls_in(ds.drop_last(), parent) + decls(ds.last(), parent)
    }
}

/// One item to copy, as a mathematical value.
pub enum CopyItem {
    File(Seq<char>),
    Dir(Seq<char>, Seq<CopyItem>),
}

/// The model of a copy tree.
pub open spec fn copy_model(t: CopyTree) -> Seq<CopyItem>
    decreases t,
{
    items_model(t.to_copy@)
}

/// The model of a list of items to copy.
pub open spec fn items_model(v: Seq<ToCopy>) -> Seq<CopyItem>
    decreases v,
{
    if v.len() == 0 {
        Seq::empty()
    } else {
        items_model(v.drop_last()).push(
            match v.last() {
                ToCopy::File(p) => CopyItem::File(p@),
                ToCopy::Directory { path, subtree } => CopyItem::Dir(path@, copy_model(subtree)),
            },
        )
    }
}

/// What to copy for `d`: its own files, then each subdirectory that declares
/// no space, with what to copy for it.
pub open spec fn copy_of(d: Directory) -> Seq<CopyItem>
    decreases d,
{
    d.rest_to_copy@.map_values(|p: String| CopyItem::File(p@)) + copy_of_dirs(d.directories@)
}

/// The subdirectories among `ds` that declare no space, with what to copy for each.
pub open spec fn copy_of_dirs(ds: Seq<Directory>) -> Seq<CopyItem>
    decreases ds,
{
    if ds.len() == 0 {
        Seq::empty()
    } else {
        copy_of_dirs(ds.drop_last()) + if ds.last().space is None {
            seq![CopyItem::Dir(ds.last().path@, copy_of(ds.last()))]
        } else {
            Seq::empty()
        }
    }
}

/// The generation settings a declaration asks for: everything by default.
pub open spec fn generate_of(g: Option<GenerateSchema>) -> (bool, bool) {
    match g {
        Some(GenerateSchema::Generate(o)) => (true, o.typescript),
        Some(GenerateSchema::ShouldGenerate(b)) => (b, true),
        None => (true, true),
    }
}

/// Some element of `v` has the view `s`.
pub open spec fn contains_str(v: Seq<String>, s: Seq<char>) -> bool {
    exists|i: int| 0 <= i < v.len() && #[trigger] v[i]@ == s
}

/// The mapping a declaration asks for, when it is well formed: its explicit
/// mapping, or else each of its environments mapped to itself.
pub open spec fn mapping_matches(m: AncestorMapping, info: SpaceSchema) -> bool {
    m.wf() && match info.space_to_parent_mapping {
        Some(p) => (forall|a: Seq<char>| #[trigger] m@.contains_key(a) <==> listed(p@, a))
            && forall|i: int, k: int| #[trigger] declared_at(p@, i, k) ==> m@[p@[i].1@[k]@] == p@[i].0@,
        None => m@ == Map::new(
            |a: Seq<char>| contains_str(env_list(info.environments), a),
            |a: Seq<char>| a,
        ),
    }
}

/// The environments a declaration lists; none when absent.
pub open spec fn env_list(e: Option<Vec<String>>) -> Seq<String> {
    match e {
        Some(v) => v@,
        None => Seq::empty(),
    }
}

/// A declaration whose explicit mapping, if any, lists no ancestor twice.
pub open spec fn decl_ok(d: Decl) -> bool {
    match d.node.info.space_to_parent_mapping {
        Some(p) => ancestors_distinct(p@),
        None => true,
    }
}

/// `s` is the graph node built from the declaration `d`.
pub open spec fn space_matches(s: Space, d: Decl) -> bool {
    &&& s.name@ == d.node.info.name@
    &&& s.path@ == d.path@
    &&& s.dependencies@ == env_list(d.node.info.dependencies)
    &&& s.environments@ == env_list(d.node.info.environments)
    &&& match (s.variables, d.node.variables) {
        (Some(a), Some(b)) => doc_of(a@) == doc_of(b@) && doc_wf(a@),
        (None, None) => true,
        _ => false,
    }
    &&& copy_model(s.files_to_copy) == d.copy
    &&& match s.parent_space {
        Some(p) => d.parent == Some(p@),
        None => d.parent is None,
    }
    &&& mapping_matches(s.parent_mapping, d.node.info)
    &&& (s.generate.generate, s.generate.typescript) == generate_of(d.node.info.generate)
}

/// Each of `spaces` is built from the declaration at the same position.
pub open spec fn spaces_match(spaces: Seq<Space>, ds: Seq<Decl>) -> bool {
    spaces.len() == ds.len() && forall|i: int| 0 <= i < ds.len() ==> space_matches(#[trigger] spaces[i], ds[i])
}

/// Every variables document declared in the tree is well formed.
pub open spec fn tree_wf(d: Directory) -> bool
    decreases d,
{
    &&& match d.space {
        Some(s) => match s.variables {
            Some(v) => doc_wf(v@),
            None => true,
        },
        None => true,
    }
    &&& forall|i: int| 0 <= i < d.directories@.len() ==> tree_wf(#[trigger] d.directories@[i])
}

/// A child of a directory is smaller than it, and inherits well-formedness.
proof fn lemma_child(d: Directory, i: int)
    requires
        0 <= i < d.directories@.len(),
    ensures
        decreases_to!(d => d.directories@[i]),
        tree_wf(d) ==> tree_wf(d.directories@[i]),
{
    assert(decreases_to!(d.directories => d.directories[i]));
}

/// Each environment mapped to itself.
fn identity_mapping(envs: &Vec<String>) -> (m: AncestorMapping)
    ensures
        m.wf(),
        m@ == Map::new(|a: Seq<char>| contains_str(envs@, a), |a: Seq<char>| a),
{
    let mut m = AncestorMapping::new();
    let mut i: usize = 0;
    while i < envs.len()
        invariant
            i <= envs@.len(),
            m.wf(),
            m@ == Map::new(|a: Seq<char>| contains_str(envs@.subrange(0, i as int), a), |a: Seq<char>| a),
        decreases envs@.len() - i,
    {
        let ghost before = m@;
        let _ = m.add_mapping(envs[i].clone(), envs[i].clone());
        proof {
            let e = envs@[i as int]@;
            assert forall|a: Seq<char>| contains_str(envs@.subrange(0, i + 1), a)
                <==> contains_str(envs@.subrange(0, i as int), a) || a == e by {
                if contains_str(envs@.subrange(0, i + 1), a) && a != e {
                    let x = choose|x: int| 0 <= x < i + 1 && #[trigger] envs@.subrange(0, i + 1)[x]@ == a;
                    assert(envs@.subrange(0, i as int)[x]@ == a);
                }
                if contains_str(envs@.subrange(0, i as int), a) {
                    let x = choose|x: int| 0 <= x < i && #[trigger] envs@.subrange(0, i as int)[x]@ == a;
                    assert(envs@.subrange(0, i + 1)[x]@ == a);
                }
                if a == e {
                    assert(envs@.subrange(0, i + 1)[i as int]@ == a);
                }
            }
            assert(m@ =~= Map::new(|a: Seq<char>| contains_str(envs@.subrange(0, i + 1), a), |a: Seq<char>| a));
        }
        i += 1;
    }
    proof {
        assert(envs@.subrange(0, i as int) == envs@);
    }
    m
}

/// What to copy for `dir`: its own files, then each subdirectory that
/// declares no space, with its own tree. Subdirectories that declare a space
/// belong to that space.
fn resolve_files_to_copy(dir: &Directory) -> (r: CopyTree)
    ensures
        copy_model(r) == copy_of(*dir),
    decreases dir,
{
    let mut files: Vec<ToCopy> = Vec::new();
    let mut i: usize = 0;
    while i < dir.rest_to_copy.len()
        invariant
            i <= dir.rest_to_copy@.len(),
            items_model(files@) == dir.rest_to_copy@.subrange(0, i as int).map_values(|p: String| CopyItem::File(p@)),
        decreases dir.rest_to_copy@.len() - i,
    {
        let ghost before = files@;
        files.push(ToCopy::File(dir.rest_to_copy[i].clone()));
        proof {
            assert(files@.drop_last() == before);
            assert(items_model(files@) =~= dir.rest_to_copy@.subrange(0, i + 1).map_values(|p: String| CopyItem::File(p@)));
        }
        i += 1;
    }
    let ghost own = dir.rest_to_copy@.map_values(|p: String| CopyItem::File(p@));
    proof {
        assert(dir.rest_to_copy@.subrange(0, i as int) == dir.rest_to_copy@);
        assert(dir.directories@.subrange(0, 0) =~= Seq::<Directory>::empty());
        assert(own + copy_of_dirs(dir.directories@.subrange(0, 0)) =~= own);
    }
    let mut j: usize = 0;
    while j < dir.directories.len()
        invariant
            j <= dir.directories@.len(),
            own == dir.rest_to_copy@.map_values(|p: String| CopyItem::File(p@)),
            items_model(files@) == own + copy_of_dirs(dir.directories@.subrange(0, j as int)),
        decreases dir.directories@.len() - j,
    {
        let ghost before = files@;
        let ghost ds1 = dir.directories@.subrange(0, j + 1);
        proof {
            assert(ds1.drop_last() == dir.directories@.subrange(0, j as int));
            assert(ds1.last() == dir.directories@[j as int]);
        }
        let entry = &dir.directories[j];
        if entry.space.is_none() {
            proof {
                lemma_child(*dir, j as int);
            }
            let subtree = resolve_files_to_copy(entry);
            files.push(ToCopy::Directory { path: entry.path.clone(), subtree });
            proof {
                assert(files@.drop_last() == before);
                assert(items_model(files@) =~= own + copy_of_dirs(ds1));
            }
        } else {
            proof {
                assert(copy_of_dirs(ds1) =~= copy_of_dirs(dir.directories@.subrange(0, j as int)));
            }
        }
        j += 1;
    }
    proof {
        assert(dir.directories@.subrange(0, j as int) == dir.directories@);
    }
    CopyTree { to_copy: files }
}

/// The view of an optional name.
pub open spec fn opt_view(o: Option<String>) -> Option<Seq<char>> {
    match o {
        Some(s) => Some(s@),
        None => None,
    }
}

/// A copy of a list of buckets, equal in every view.
fn copy_buckets(m: &Vec<(String, Vec<String>)>) -> (r: Vec<(String, Vec<String>)>)
    ensures
        r@.len() == m@.len(),
        forall|i: int| #![trigger r@[i]] #![trigger m@[i]] 0 <= i < m@.len() ==> r@[i].0@ == m@[i].0@ && r@[i].1@ == m@[i].1@,
{
    let mut r: Vec<(String, Vec<String>)> = Vec::new();
    let mut i: usize = 0;
    while i < m.len()
        invariant
            i <= m@.len(),
            r@.len() == i,
            forall|x: int| #![trigger r@[x]] #![trigger m@[x]] 0 <= x < i ==> r@[x].0@ == m@[x].0@ && r@[x].1@ == m@[x].1@,
        decreases m@.len() - i,
    {
        r.push((m[i].0.clone(), copy_strings(&m[i].1)));
        i += 1;
    }
    r
}

/// A copy of a list of names.
fn copy_names(v: &Option<Vec<String>>) -> (r: Vec<String>)
    ensures
        r@ == env_list(*v),
{
    match v {
        Some(v) => copy_strings(v),
        None => Vec::new(),
    }
}

/// Adds the spaces declared under `dir` to `space_graph`, in pre-order;
/// `closest_parent_space` is the nearest declared space enclosing `dir`.
fn add_to_spaces_graph(dir: &Directory, space_graph: &mut SpaceGraph, closest_parent_space: &Option<String>) -> (r: Result<
    (),
    RootMappingError,
>)
    requires
        tree_wf(*dir),
    ensures
        match r {
            Ok(()) => {
                let ds = decls(*dir, opt_view(*closest_parent_space));
                &&& final(space_graph)@.len() >= old(space_graph)@.len()
                &&& final(space_graph)@.subrange(0, old(space_graph)@.len() as int) == old(space_graph)@
                &&& spaces_match(final(space_graph)@.subrange(old(space_graph)@.len() as int, final(space_graph)@.len() as int), ds)
                &&& forall|i: int| 0 <= i < ds.len() ==> decl_ok(#[trigger] ds[i])
            },
            Err(_) => exists|i: int| 0 <= i < decls(*dir, opt_view(*closest_parent_space)).len()
                && !decl_ok(#[trigger] decls(*dir, opt_view(*closest_parent_space))[i]),
        },
    decreases dir,
{
    let ghost parent = opt_view(*closest_parent_space);
    let ghost ds = decls(*dir, parent);
    let ghost start = space_graph@;
    let inner: Option<String> = match &dir.space {
        Some(node) => Some(node.info.name.clone()),
        None => closest_parent_space.clone(),
    };
    let ghost own: Seq<Decl> = own_decl(*dir, parent);
    proof {
        assert(opt_view(inner) == inner_parent(*dir, parent));
    }
    if let Some(node) = &dir.space {
        let info = &node.info;
        let environments = copy_names(&info.environments);
        let parent_mapping = match &info.space_to_parent_mapping {
            Some(m) => {
                let buckets = copy_buckets(m);
                let ghost bv = buckets@;
                proof {
                    assert forall|a: Seq<char>| listed(bv, a) <==> listed(m@, a) by {
                        if listed(bv, a) {
                            let (x, y) = choose|x: int, y: int| #[trigger] declared_at(bv, x, y) && bv[x].1@[y]@ == a;
                            assert(declared_at(m@, x, y));
                        }
                        if listed(m@, a) {
                            let (x, y) = choose|x: int, y: int| #[trigger] declared_at(m@, x, y) && m@[x].1@[y]@ == a;
                            assert(declared_at(bv, x, y));
                        }
                    }
                    assert forall|x: int, y: int| declared_at(bv, x, y) <==> #[trigger] declared_at(m@, x, y) by {}
                }
                match AncestorMapping::from_space_to_ancestors(buckets) {
                    Ok(mapping) => mapping,
                    Err(e) => {
                        proof {
                            assert(!ancestors_distinct(m@)) by {
                                if ancestors_distinct(m@) {
                                    assert forall|i1: int, k1: int, i2: int, k2: int|
                                        #[trigger] declared_at(bv, i1, k1) && #[trigger] declared_at(bv, i2, k2) && (i1, k1) != (i2, k2)
                                        implies bv[i1].1@[k1]@ != bv[i2].1@[k2]@ by {
                                        assert(declared_at(m@, i1, k1) && declared_at(m@, i2, k2));
                                    }
                                }
                            }
                            assert(ds[0] == own[0]);
                            assert(!decl_ok(ds[0]));
                        }
                        return Err(e);
                    },
                }
            },
            None => identity_mapping(&environments),
        };
        let generate = match &info.generate {
            Some(GenerateSchema::Generate(g)) => GenerateSpace { generate: true, typescript: g.typescript },
            Some(GenerateSchema::ShouldGenerate(g)) => GenerateSpace { generate: *g, typescript: true },
            None => GenerateSpace { generate: true, typescript: true },
        };
        let variables = match &node.variables {
            Some(v) => Some(clone_document(v)),
            None => None,
        };
        let space = Space {
            name: info.name.clone(),
            path: dir.path.clone(),
            dependencies: copy_names(&info.dependencies),
            parent_mapping,
            environments,
            variables,
            files_to_copy: resolve_files_to_copy(dir),
            parent_space: closest_parent_space.clone(),
            generate,
        };
        space_graph.push(space);
        proof {
            assert(space_matches(space_graph@.last(), own[0]));
            assert(decl_ok(own[0]));
        }
    }
    proof {
        assert(space_graph@.subrange(0, start.len() as int) == start);
        assert(spaces_match(space_graph@.subrange(start.len() as int, space_graph@.len() as int), own));
        assert(own + decls_in(dir.directories@.subrange(0, 0), opt_view(inner)) =~= own);
    }
    let mut k: usize = 0;
    while k < dir.directories.len()
        invariant
            k <= dir.directories@.len(),
            tree_wf(*dir),
            ds == decls(*dir, parent),
            parent == opt_view(*closest_parent_space),
            ds == own + decls_in(dir.directories@, opt_view(inner)),
            space_graph@.len() >= start.len(),
            space_graph@.subrange(0, start.len() as int) == start,
            spaces_match(space_graph@.subrange(start.len() as int, space_graph@.len() as int),
                own + decls_in(dir.directories@.subrange(0, k as int), opt_view(inner))),
            forall|i: int| 0 <= i < own.len() + decls_in(dir.directories@.subrange(0, k as int), opt_view(inner)).len()
                ==> decl_ok(#[trigger] (own + decls_in(dir.directories@.subrange(0, k as int), opt_view(inner)))[i]),
        decreases dir.directories@.len() - k,
    {
        let ghost before = space_graph@;
        let ghost done = own + decls_in(dir.directories@.subrange(0, k as int), opt_view(inner));
        let ghost ds1 = dir.directories@.subrange(0, k + 1);
        proof {
            lemma_child(*dir, k as int);
            assert(ds1.drop_last() == dir.directories@.subrange(0, k as int));
            assert(ds1.last() == dir.directories@[k as int]);
            assert(own + decls_in(ds1, opt_view(inner)) =~= done + decls(dir.directories@[k as int], opt_view(inner)));
        }
        match add_to_spaces_graph(&dir.directories[k], space_graph, &inner) {
            Ok(()) => {
                proof {
                    let child = decls(dir.directories@[k as int], opt_view(inner));
                    let all = done + child;
                    let tail = space_graph@.subrange(start.len() as int, space_graph@.len() as int);
                    assert(space_graph@.subrange(0, start.len() as int) =~= start) by {
                        assert(space_graph@.subrange(0, before.len() as int) == before);
                    }
                    assert forall|i: int| 0 <= i < all.len() implies space_matches(#[trigger] tail[i], all[i]) by {
                        if i < done.len() {
                            assert(tail[i] == before.subrange(start.len() as int, before.len() as int)[i]);
                        } else {
                            assert(tail[i] == space_graph@.subrange(before.len() as int, space_graph@.len() as int)[i - done.len()]);
                        }
                    }
                    assert forall|i: int| 0 <= i < all.len() implies decl_ok(#[trigger] all[i]) by {
                        if i >= done.len() {
                            assert(all[i] == child[i - done.len()]);
                        }
                    }
                }
            },
            Err(e) => {
                proof {
                    let child = decls(dir.directories@[k as int], opt_view(inner));
                    let x = choose|x: int| 0 <= x < child.len() && !decl_ok(#[trigger] child[x]);
                    assert(ds == own + decls_in(dir.directories@, opt_view(inner)));
                    lemma_decls_in_prefix(dir.directories@, k as int + 1, opt_view(inner));
                    assert((own + decls_in(ds1, opt_view(inner)))[done.len() + x] == child[x]);
                    assert(ds[done.len() + x] == child[x]);
                    assert(!decl_ok(decls(*dir, opt_view(*closest_parent_space))[done.len() + x]));
                    assert(done.len() + x < (own + decls_in(ds1, opt_view(inner))).len());
                }
                return Err(e);
            },
        }
        k += 1;
    }
    proof {
        assert(dir.directories@.subrange(0, k as int) == dir.directories@);
    }
    Ok(())
}

/// The declarations under a prefix of the children come first.
proof fn lemma_decls_in_prefix(ds: Seq<Directory>, n: int, parent: Option<Seq<char>>)
    requires
        0 <= n <= ds.len(),
    ensures
        decls_in(ds.subrange(0, n), parent).len() <= decls_in(ds, parent).len(),
        forall|i: int| 0 <= i < decls_in(ds.subrange(0, n), parent).len()
            ==> #[trigger] decls_in(ds, parent)[i] == decls_in(ds.subrange(0, n), parent)[i],
    decreases ds.len() - n,
{
    if n < ds.len() {
        lemma_decls_in_prefix(ds, n + 1, parent);
        let s1 = ds.subrange(0, n + 1);
        assert(s1.drop_last() == ds.subrange(0, n));
    } else {
        assert(ds.subrange(0, n) == ds);
    }
}

/// Flattens the declaration tree into the graph of its spaces, in
/// depth-first pre-order. Each space's parent is the nearest enclosing
/// declared space; its mapping is the declared one, or else each of its
/// environments mapped to itself. Fails when a declared mapping lists an
/// ancestor twice.
pub fn create_space_graph(root_directory: Directory) -> (r: Result<SpaceGraph, RootMappingError>)
    requires
        tree_wf(root_directory),
    ensures
        match r {
            Ok(g) => spaces_match(g@, decls(root_directory, None)) && forall|i: int|
                0 <= i < decls(root_directory, None).len() ==> decl_ok(#[trigger] decls(root_directory, None)[i]),
            Err(_) => exists|i: int| 0 <= i < decls(root_directory, None).len()
                && !decl_ok(#[trigger] decls(root_directory, None)[i]),
        },
{
    let mut space_graph: SpaceGraph = Vec::new();
    let none: Option<String> = None;
    match add_to_spaces_graph(&root_directory, &mut space_graph, &none) {
        Ok(()) => {
            proof {
                assert(space_graph@.subrange(0, space_graph@.len() as int) == space_graph@);
            }
            Ok(space_graph)
        },
        Err(e) => Err(e),
    }
}

/// What `std::path::Path::file_name` gives for the path `p`: its final
/// component when that is a normal name, nothing when the path ends in `..`
/// or is a root or empty.
pub uninterp spec fn file_name_of(p: Seq<char>) -> Option<Seq<char>>;

/// Relies on `std::path::Path::file_name`: the final normal component of the
/// path `p`, as text (a component of a `str` is valid text).
#[verifier::external_body]
fn file_name<'a>(p: &'a str) -> (r: Option<&'a str>)
    ensures
        match r {
            Some(s) => file_name_of(p@) == Some(s@),
            None => file_name_of(p@) is None,
        },
{
    std::path::Path::new(p).file_name().and_then(|n| n.to_str())
}

/// A path whose final component cannot name a file.
pub struct NoFileName;

impl ToCopy {
    /// The path of the item.
    pub open spec fn path_of(&self) -> String {
        match self {
            ToCopy::File(p) => *p,
            ToCopy::Directory { path, .. } => *path,
        }
    }

    /// The file name of the item: the final component of its path, as
    /// `Path::file_name` reads it.
    pub fn last_segment(&self) -> (r: Result<&str, NoFileName>)
        ensures
            match r {
                Ok(name) => file_name_of(self.path_of()@) == Some(name@),
                Err(_) => file_name_of(self.path_of()@) is None,
            },
    {
        let path = match self {
            ToCopy::File(p) => p,
            ToCopy::Directory { path, .. } => path,
        };
        match file_name(path.as_str()) {
            Some(name) => Ok(name),
            None => Err(NoFileName),
        }
    }
}

} // verus!
