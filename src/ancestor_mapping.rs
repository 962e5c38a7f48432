//! A bidirectional relation between the environments of an enclosing
//! context ("ancestors") and the environments of one space.
use vstd::prelude::*;

verus! {

/// The error of inserting an ancestor that is already mapped.
#[derive(Debug)]
pub enum RootMappingError {
    DuplicateAncestor(String),
}

/// The ancestors that `m` sends to the space environment `s`.
pub open spec fn ancestors_of(m: Map<Seq<char>, Seq<char>>, s: Seq<char>) -> Set<Seq<char>> {
    Set::new(|a: Seq<char>| m.contains_key(a) && m[a] == s)
}

/// The inverse of an ancestor map: each space environment that some ancestor
/// reaches, with the set of ancestors that reach it.
pub open spec fn inverse(m: Map<Seq<char>, Seq<char>>) -> Map<Seq<char>, Set<Seq<char>>> {
    Map::new(|s: Seq<char>| m.values().contains(s), |s: Seq<char>| ancestors_of(m, s))
}

/// `p` lists every entry of `m` exactly once.
pub open spec fn lists_map(p: Seq<(String, String)>, m: Map<Seq<char>, Seq<char>>) -> bool {
    &&& forall|i: int, j: int| 0 <= i < j < p.len() ==> p[i].0@ != p[j].0@
    &&& forall|i: int|
        0 <= i < p.len() ==> m.contains_key(#[trigger] p[i].0@) && m[p[i].0@] == p[i].1@
    &&& forall|a: Seq<char>| m.contains_key(a) ==> exists|i: int| 0 <= i < p.len() && #[trigger] p[i].0@ == a
}

/// `b` lists every element of `s` exactly once.
pub open spec fn lists_set(b: Seq<String>, s: Set<Seq<char>>) -> bool {
    &&& forall|i: int, j: int| 0 <= i < j < b.len() ==> b[i]@ != b[j]@
    &&& forall|i: int| 0 <= i < b.len() ==> s.contains(#[trigger] b[i]@)
    &&& forall|a: Seq<char>| s.contains(a) ==> exists|i: int| 0 <= i < b.len() && #[trigger] b[i]@ == a
}

/// `p` lists the inverse of `m`: one non-empty bucket per space environment
/// that `m` reaches, holding exactly the ancestors that reach it.
pub open spec fn lists_inverse(p: Seq<(String, Vec<String>)>, m: Map<Seq<char>, Seq<char>>) -> bool {
    &&& forall|i: int, j: int| 0 <= i < j < p.len() ==> p[i].0@ != p[j].0@
    &&& forall|i: int|
        0 <= i < p.len() ==> m.values().contains(#[trigger] p[i].0@) && p[i].1@.len() > 0
            && lists_set(p[i].1@, ancestors_of(m, p[i].0@))
    &&& forall|s: Seq<char>|
        m.values().contains(s) ==> exists|i: int| 0 <= i < p.len() && #[trigger] p[i].0@ == s
}

/// A mapping between ancestor environments and space environments.
///
/// Each ancestor environment is mapped to at most one space environment; a
/// space environment may be fed by several ancestors. Both directions are
/// stored, and they are kept exact inverses of each other.
pub struct AncestorMapping {
    space_to_ancestor: Vec<(String, Vec<String>)>,
    ancestor_to_space: Vec<(String, String)>,
    entries: Ghost<Map<Seq<char>, Seq<char>>>,
}

impl View for AncestorMapping {
    type V = Map<Seq<char>, Seq<char>>;

    /// The partial function from ancestor environment to space environment.
    closed spec fn view(&self) -> Map<Seq<char>, Seq<char>> {
        self.entries@
    }
}

impl Clone for AncestorMapping {
    /// A mapping with the same entries.
    fn clone(&self) -> (r: Self)
        ensures
            r.wf(),
            self.wf() ==> r@ == self@,
    {
        let mut r = AncestorMapping::new();
        let mut i: usize = 0;
        while i < self.ancestor_to_space.len()
            invariant
                r.wf(),
                i <= self.ancestor_to_space@.len(),
                self.wf() ==> forall|a: Seq<char>| #[trigger] r@.contains_key(a) <==> exists|x: int|
                    0 <= x < i && #[trigger] self.ancestor_to_space@[x].0@ == a,
                self.wf() ==> forall|x: int| 0 <= x < i ==> #[trigger] r@[self.ancestor_to_space@[x].0@]
                    == self.ancestor_to_space@[x].1@,
            decreases self.ancestor_to_space@.len() - i,
        {
            let ghost before = r@;
            let added = r.add_mapping(self.ancestor_to_space[i].0.clone(), self.ancestor_to_space[i].1.clone());
            proof {
                if self.wf() {
                    let a = self.ancestor_to_space@[i as int].0@;
                    if before.contains_key(a) {
                        let x = choose|x: int| 0 <= x < i && #[trigger] self.ancestor_to_space@[x].0@ == a;
                        assert(false);
                    }
                    assert forall|b: Seq<char>| #[trigger] r@.contains_key(b) <==> exists|x: int|
                        0 <= x < i + 1 && #[trigger] self.ancestor_to_space@[x].0@ == b by {
                        if b == a {
                            assert(self.ancestor_to_space@[i as int].0@ == b);
                        } else if exists|x: int| 0 <= x < i + 1 && #[trigger] self.ancestor_to_space@[x].0@ == b {
                            let x = choose|x: int| 0 <= x < i + 1 && #[trigger] self.ancestor_to_space@[x].0@ == b;
                            assert(x < i);
                        }
                    }
                    assert forall|x: int| 0 <= x < i + 1 implies #[trigger] r@[self.ancestor_to_space@[x].0@]
                        == self.ancestor_to_space@[x].1@ by {
                        if x < i {
                            assert(self.ancestor_to_space@[x].0@ != a);
                        }
                    }
                }
            }
            i += 1;
        }
        proof {
            if self.wf() {
                assert forall|a: Seq<char>| #[trigger] self@.contains_key(a) implies r@.contains_key(a) by {
                    let x = choose|x: int| 0 <= x < self.ancestor_to_space@.len() && #[trigger] self.ancestor_to_space@[x].0@ == a;
                }
                assert(r@ =~= self@);
            }
        }
        r
    }
}

/// Index of the entry whose key is `k`, if any.
pub(crate) fn position_of_key<T>(v: &Vec<(String, T)>, k: &String) -> (r: Option<usize>)
    ensures
        match r {
            Some(i) => i < v@.len() && v@[i as int].0@ == k@,
            None => forall|i: int| 0 <= i < v@.len() ==> v@[i].0@ != k@,
        },
{
    let mut i: usize = 0;
    while i < v.len()
        invariant
            i <= v@.len(),
            forall|j: int| 0 <= j < i ==> v@[j].0@ != k@,
        decreases v@.len() - i,
    {
        if v[i].0 == *k {
            return Some(i);
        }
        i += 1;
    }
    None
}

/// Index of `k` in `v`, if any.
pub(crate) fn position_of(v: &Vec<String>, k: &String) -> (r: Option<usize>)
    ensures
        match r {
            Some(i) => i < v@.len() && v@[i as int]@ == k@,
            None => forall|i: int| 0 <= i < v@.len() ==> v@[i]@ != k@,
        },
{
    let mut i: usize = 0;
    while i < v.len()
        invariant
            i <= v@.len(),
            forall|j: int| 0 <= j < i ==> v@[j]@ != k@,
        decreases v@.len() - i,
    {
        if v[i] == *k {
            return Some(i);
        }
        i += 1;
    }
    None
}

impl AncestorMapping {
    /// Both stored directions agree with the view.
    pub closed spec fn wf(&self) -> bool {
        &&& lists_map(self.ancestor_to_space@, self@)
        &&& lists_inverse(self.space_to_ancestor@, self@)
    }

    /// The space-to-ancestors direction, as sets.
    pub open spec fn space_view(&self) -> Map<Seq<char>, Set<Seq<char>>> {
        inverse(self@)
    }

    /// Creates an empty mapping.
    pub fn new() -> (r: Self)
        ensures
            r.wf(),
            r@ == Map::<Seq<char>, Seq<char>>::empty(),
    {
        AncestorMapping {
            space_to_ancestor: Vec::new(),
            ancestor_to_space: Vec::new(),
            entries: Ghost(Map::empty()),
        }
    }

    /// Maps `ancestor` to `space`; fails, changing nothing, when `ancestor`
    /// is already mapped.
    pub fn add_mapping(&mut self, ancestor: String, space: String) -> (r: Result<(), RootMappingError>)
        requires
            old(self).wf(),
        ensures
            final(self).wf(),
            match r {
                Ok(()) => !old(self)@.contains_key(ancestor@) && final(self)@ == old(self)@.insert(
                    ancestor@,
                    space@,
                ),
                Err(RootMappingError::DuplicateAncestor(a)) => old(self)@.contains_key(ancestor@)
                    && a@ == ancestor@ && *final(self) == *old(self),
            },
    {
        if position_of_key(&self.ancestor_to_space, &ancestor).is_some() {
            return Err(RootMappingError::DuplicateAncestor(ancestor));
        }
        let ghost m0 = self@;
        let ghost m1 = m0.insert(ancestor@, space@);
        let ghost a2s0 = self.ancestor_to_space@;
        let ghost s2a0 = self.space_to_ancestor@;
        self.ancestor_to_space.push((ancestor.clone(), space.clone()));
        let ghost jj: int;
        match position_of_key(&self.space_to_ancestor, &space) {
            Some(j) => {
                let mut bucket = copy_strings(&self.space_to_ancestor[j].1);
                let ghost b0 = bucket@;
                bucket.push(ancestor);
                self.space_to_ancestor.set(j, (space, bucket));
                proof {
                    jj = j as int;
                    assert(lists_set(bucket@, ancestors_of(m1, s2a0[jj].0@))) by {
                        assert forall|a: Seq<char>| ancestors_of(m1, s2a0[jj].0@).contains(a) implies exists|i: int|
                            0 <= i < bucket@.len() && #[trigger] bucket@[i]@ == a by {
                            if a != ancestor@ {
                                assert(ancestors_of(m0, s2a0[jj].0@).contains(a));
                                let i = choose|i: int| 0 <= i < b0.len() && #[trigger] b0[i]@ == a;
                                assert(bucket@[i]@ == a);
                            } else {
                                assert(bucket@[b0.len() as int]@ == a);
                            }
                        }
                    }
                }
            },
            None => {
                let mut bucket: Vec<String> = Vec::new();
                bucket.push(ancestor);
                self.space_to_ancestor.push((space, bucket));
                proof {
                    jj = s2a0.len() as int;
                    assert(ancestors_of(m0, space@) =~= Set::empty()) by {
                        assert forall|a: Seq<char>| !ancestors_of(m0, space@).contains(a) by {
                            if m0.contains_key(a) && m0[a] == space@ {
                                assert(m0.values().contains(space@));
                            }
                        }
                    }
                    assert(lists_set(bucket@, ancestors_of(m1, space@))) by {
                        assert forall|a: Seq<char>| ancestors_of(m1, space@).contains(a) implies exists|i: int|
                            0 <= i < bucket@.len() && #[trigger] bucket@[i]@ == a by {
                            assert(!ancestors_of(m0, space@).contains(a));
                            assert(bucket@[0]@ == a);
                        }
                    }
                }
            },
        }
        self.entries = Ghost(m1);
        proof {
            let p = self.ancestor_to_space@;
            assert forall|a: Seq<char>| m1.contains_key(a) implies exists|i: int|
                0 <= i < p.len() && #[trigger] p[i].0@ == a by {
                if a != ancestor@ {
                    let i = choose|i: int| 0 <= i < a2s0.len() && #[trigger] a2s0[i].0@ == a;
                    assert(p[i].0@ == a);
                } else {
                    assert(p[a2s0.len() as int].0@ == a);
                }
            }
            let q = self.space_to_ancestor@;
            assert(m1.values().contains(space@)) by {
                assert(m1.contains_key(ancestor@));
            }
            assert forall|i: int| 0 <= i < q.len() && i != jj implies q[i] == s2a0[i]
                && ancestors_of(m1, q[i].0@) == ancestors_of(m0, q[i].0@) && m1.values().contains(q[i].0@) by {
                assert(ancestors_of(m1, q[i].0@) =~= ancestors_of(m0, q[i].0@));
                let a = choose|a: Seq<char>| m0.contains_key(a) && m0[a] == s2a0[i].0@;
                assert(m1.contains_key(a) && m1[a] == s2a0[i].0@);
            }
            assert forall|t: Seq<char>| m1.values().contains(t) implies exists|i: int|
                0 <= i < q.len() && #[trigger] q[i].0@ == t by {
                if t == space@ {
                    assert(q[jj].0@ == t);
                } else {
                    let a = choose|a: Seq<char>| m1.contains_key(a) && m1[a] == t;
                    assert(m0.values().contains(t)) by {
                        assert(m0.contains_key(a) && m0[a] == t);
                    }
                    let i = choose|i: int| 0 <= i < s2a0.len() && #[trigger] s2a0[i].0@ == t;
                    assert(q[i].0@ == t);
                }
            }
        }
        Ok(())
    }

    /// The space environment that `ancestor` is mapped to.
    pub fn get_space(&self, ancestor: &String) -> (r: Option<&String>)
        requires
            self.wf(),
        ensures
            match r {
                Some(s) => self@.contains_key(ancestor@) && self@[ancestor@] == s@,
                None => !self@.contains_key(ancestor@),
            },
    {
        match position_of_key(&self.ancestor_to_space, ancestor) {
            Some(i) => Some(&self.ancestor_to_space[i].1),
            None => None,
        }
    }

    /// Whether `ancestor` is mapped.
    pub fn contains_ancestor(&self, ancestor: &String) -> (r: bool)
        requires
            self.wf(),
        ensures
            r == self@.contains_key(ancestor@),
    {
        position_of_key(&self.ancestor_to_space, ancestor).is_some()
    }

    /// Whether some ancestor is mapped to `space`.
    pub fn contains_space(&self, space: &String) -> (r: bool)
        requires
            self.wf(),
        ensures
            r == self.space_view().contains_key(space@),
    {
        let r = position_of_key(&self.space_to_ancestor, space);
        proof {
            if r.is_none() && self@.values().contains(space@) {
                let i = choose|i: int|
                    0 <= i < self.space_to_ancestor@.len() && #[trigger] self.space_to_ancestor@[i].0@ == space@;
            }
        }
        r.is_some()
    }

    /// The ancestors mapped to `space`, each once; empty when there are none.
    pub fn get_ancestors(&self, space: &String) -> (r: Vec<String>)
        requires
            self.wf(),
        ensures
            lists_set(r@, ancestors_of(self@, space@)),
    {
        match position_of_key(&self.space_to_ancestor, space) {
            Some(j) => copy_strings(&self.space_to_ancestor[j].1),
            None => {
                proof {
                    assert(ancestors_of(self@, space@) =~= Set::empty()) by {
                        assert forall|a: Seq<char>| !ancestors_of(self@, space@).contains(a) by {
                            if self@.contains_key(a) && self@[a] == space@ {
                                assert(self@.values().contains(space@));
                                let i = choose|i: int|
                                    0 <= i < self.space_to_ancestor@.len()
                                        && #[trigger] self.space_to_ancestor@[i].0@ == space@;
                            }
                        }
                    }
                }
                Vec::new()
            },
        }
    }

    /// Every (ancestor, space) pair, each ancestor once.
    pub fn list_ancestor_to_space(&self) -> (r: &Vec<(String, String)>)
        requires
            self.wf(),
        ensures
            lists_map(r@, self@),
    {
        &self.ancestor_to_space
    }

    /// Every space with its non-empty set of ancestors, each space once.
    pub fn list_space_to_ancestor(&self) -> (r: &Vec<(String, Vec<String>)>)
        requires
            self.wf(),
        ensures
            lists_inverse(r@, self@),
    {
        &self.space_to_ancestor
    }

    /// Removes the mapping of `ancestor`, pruning the space's bucket when it
    /// empties; returns whether there was one.
    pub fn remove_mapping_by_ancestor(&mut self, ancestor: &String) -> (r: bool)
        requires
            old(self).wf(),
        ensures
            final(self).wf(),
            r == old(self)@.contains_key(ancestor@),
            final(self)@ == old(self)@.remove(ancestor@),
    {
        let ghost m0 = self@;
        let ghost m1 = m0.remove(ancestor@);
        let ghost a2s0 = self.ancestor_to_space@;
        let ghost s2a0 = self.space_to_ancestor@;
        match position_of_key(&self.ancestor_to_space, ancestor) {
            None => {
                proof {
                    if m0.contains_key(ancestor@) {
                        let i = choose|i: int| 0 <= i < a2s0.len() && #[trigger] a2s0[i].0@ == ancestor@;
                    }
                    assert(m1 =~= m0);
                }
                false
            },
            Some(i) => {
                let (_, space) = self.ancestor_to_space.remove(i);
                proof {
                    assert(m0.values().contains(space@)) by {
                        assert(m0.contains_key(ancestor@) && m0[ancestor@] == space@);
                    }
                }
                let j = position_of_key(&self.space_to_ancestor, &space).unwrap();
                let mut bucket = copy_strings(&self.space_to_ancestor[j].1);
                let ghost b0 = bucket@;
                proof {
                    assert(ancestors_of(m0, space@).contains(ancestor@));
                }
                let k = position_of(&bucket, ancestor).unwrap();
                bucket.remove(k);
                let ghost emptied = bucket.len() == 0;
                if bucket.len() == 0 {
                    self.space_to_ancestor.remove(j);
                } else {
                    self.space_to_ancestor.set(j, (space, bucket));
                }
                self.entries = Ghost(m1);
                proof {
                    let p = self.ancestor_to_space@;
                    assert forall|x: int, y: int| 0 <= x < y < p.len() implies p[x].0@ != p[y].0@ by {
                        let ox = if x < i { x } else { x + 1 };
                        let oy = if y < i { y } else { y + 1 };
                        assert(p[x] == a2s0[ox] && p[y] == a2s0[oy]);
                    }
                    assert forall|x: int| 0 <= x < p.len() implies m1.contains_key(#[trigger] p[x].0@)
                        && m1[p[x].0@] == p[x].1@ by {
                        let ox = if x < i { x } else { x + 1 };
                        assert(p[x] == a2s0[ox]);
                    }
                    assert forall|a: Seq<char>| m1.contains_key(a) implies exists|x: int|
                        0 <= x < p.len() && #[trigger] p[x].0@ == a by {
                        let ox = choose|ox: int| 0 <= ox < a2s0.len() && #[trigger] a2s0[ox].0@ == a;
                        let x = if ox < i { ox } else { ox - 1 };
                        assert(p[x] == a2s0[ox]);
                    }
                    let sp = space@;
                    let q = self.space_to_ancestor@;
                    assert(ancestors_of(m1, sp) =~= ancestors_of(m0, sp).remove(ancestor@));
                    assert(lists_set(bucket@, ancestors_of(m1, sp))) by {
                        assert forall|x: int, y: int| 0 <= x < y < bucket@.len() implies bucket@[x]@ != bucket@[y]@ by {
                            let ox = if x < k { x } else { x + 1 };
                            let oy = if y < k { y } else { y + 1 };
                            assert(bucket@[x] == b0[ox] && bucket@[y] == b0[oy]);
                        }
                        assert forall|x: int| 0 <= x < bucket@.len() implies ancestors_of(m1, sp).contains(#[trigger] bucket@[x]@) by {
                            let ox = if x < k { x } else { x + 1 };
                            assert(bucket@[x] == b0[ox]);
                        }
                        assert forall|a: Seq<char>| ancestors_of(m1, sp).contains(a) implies exists|x: int|
                            0 <= x < bucket@.len() && #[trigger] bucket@[x]@ == a by {
                            let ox = choose|ox: int| 0 <= ox < b0.len() && #[trigger] b0[ox]@ == a;
                            let x = if ox < k { ox } else { ox - 1 };
                            assert(bucket@[x] == b0[ox]);
                        }
                    }
                    assert forall|t: Seq<char>| t != sp implies #[trigger] ancestors_of(m1, t) == ancestors_of(m0, t) by {
                        assert(ancestors_of(m1, t) =~= ancestors_of(m0, t));
                    }
                    assert forall|t: Seq<char>| t != sp && m0.values().contains(t) implies #[trigger] m1.values().contains(t) by {
                        let a = choose|a: Seq<char>| m0.contains_key(a) && m0[a] == t;
                        assert(m1.contains_key(a) && m1[a] == t);
                    }
                    assert forall|t: Seq<char>| #[trigger] m1.values().contains(t) implies m0.values().contains(t) by {
                        let a = choose|a: Seq<char>| m1.contains_key(a) && m1[a] == t;
                        assert(m0.contains_key(a) && m0[a] == t);
                    }
                    if emptied {
                        assert(!m1.values().contains(sp)) by {
                            if m1.values().contains(sp) {
                                let a = choose|a: Seq<char>| m1.contains_key(a) && m1[a] == sp;
                                assert(ancestors_of(m1, sp).contains(a));
                            }
                        }
                        assert forall|x: int, y: int| 0 <= x < y < q.len() implies q[x].0@ != q[y].0@ by {
                            let ox = if x < j { x } else { x + 1 };
                            let oy = if y < j { y } else { y + 1 };
                            assert(q[x] == s2a0[ox] && q[y] == s2a0[oy]);
                        }
                        assert forall|x: int| 0 <= x < q.len() implies m1.values().contains(#[trigger] q[x].0@)
                            && q[x].1@.len() > 0 && lists_set(q[x].1@, ancestors_of(m1, q[x].0@)) by {
                            let ox = if x < j { x } else { x + 1 };
                            assert(q[x] == s2a0[ox]);
                        }
                        assert forall|t: Seq<char>| m1.values().contains(t) implies exists|x: int|
                            0 <= x < q.len() && #[trigger] q[x].0@ == t by {
                            let ox = choose|ox: int| 0 <= ox < s2a0.len() && #[trigger] s2a0[ox].0@ == t;
                            let x = if ox < j { ox } else { ox - 1 };
                            assert(q[x] == s2a0[ox]);
                        }
                    } else {
                        assert(m1.values().contains(sp)) by {
                            let a = bucket@[0]@;
                            assert(ancestors_of(m1, sp).contains(a));
                        }
                        assert forall|x: int| 0 <= x < q.len() implies m1.values().contains(#[trigger] q[x].0@)
                            && q[x].1@.len() > 0 && lists_set(q[x].1@, ancestors_of(m1, q[x].0@)) by {
                            if x != j {
                                assert(q[x] == s2a0[x]);
                            }
                        }
                        assert forall|t: Seq<char>| m1.values().contains(t) implies exists|x: int|
                            0 <= x < q.len() && #[trigger] q[x].0@ == t by {
                            if t == sp {
                                assert(q[j as int].0@ == t);
                            } else {
                                let x = choose|x: int| 0 <= x < s2a0.len() && #[trigger] s2a0[x].0@ == t;
                                assert(q[x].0@ == t);
                            }
                        }
                    }
                }
                true
            },
        }
    }

    /// Removes every mapping into `space`; returns whether there was one.
    pub fn remove_mapping_by_space(&mut self, space: &String) -> (r: bool)
        requires
            old(self).wf(),
        ensures
            final(self).wf(),
            r == old(self).space_view().contains_key(space@),
            final(self)@ == old(self)@.remove_keys(ancestors_of(old(self)@, space@)),
    {
        let ghost m0 = self@;
        let ancestors = self.get_ancestors(space);
        let mut k: usize = 0;
        while k < ancestors.len()
            invariant
                self.wf(),
                k <= ancestors@.len(),
                lists_set(ancestors@, ancestors_of(m0, space@)),
                forall|a: Seq<char>|
                    #[trigger] self@.contains_key(a) <==> m0.contains_key(a) && !listed_before(ancestors@, k as int, a),
                forall|a: Seq<char>| #[trigger] self@.contains_key(a) ==> self@[a] == m0[a],
            decreases ancestors@.len() - k,
        {
            let ghost before = self@;
            self.remove_mapping_by_ancestor(&ancestors[k]);
            proof {
                assert forall|a: Seq<char>| listed_before(ancestors@, k + 1, a)
                    <==> listed_before(ancestors@, k as int, a) || a == ancestors@[k as int]@ by {
                    if listed_before(ancestors@, k + 1, a) && a != ancestors@[k as int]@ {
                        let x = choose|x: int| 0 <= x < k + 1 && #[trigger] ancestors@[x]@ == a;
                        assert(x < k);
                    }
                    if a == ancestors@[k as int]@ {
                        assert(0 <= k < k + 1 && ancestors@[k as int]@ == a);
                    }
                }
            }
            k += 1;
        }
        proof {
            assert(self@ =~= m0.remove_keys(ancestors_of(m0, space@))) by {
                assert forall|a: Seq<char>| listed_before(ancestors@, k as int, a)
                    <==> #[trigger] ancestors_of(m0, space@).contains(a) by {
                    if ancestors_of(m0, space@).contains(a) {
                        let x = choose|x: int| 0 <= x < ancestors@.len() && #[trigger] ancestors@[x]@ == a;
                    }
                }
            }
            if ancestors@.len() > 0 {
                assert(ancestors_of(m0, space@).contains(ancestors@[0]@));
                assert(m0.values().contains(space@)) by {
                    assert(m0.contains_key(ancestors@[0]@));
                }
            } else {
                if m0.values().contains(space@) {
                    let a = choose|a: Seq<char>| m0.contains_key(a) && m0[a] == space@;
                    assert(ancestors_of(m0, space@).contains(a));
                }
            }
        }
        ancestors.len() > 0
    }

    /// Maps the already mapped `ancestor` to `new_space` instead, returning the
    /// space it was mapped to; does nothing and returns `None` when `ancestor`
    /// is not mapped.
    pub fn replace_mapping(&mut self, ancestor: String, new_space: String) -> (r: Option<String>)
        requires
            old(self).wf(),
        ensures
            final(self).wf(),
            match r {
                Some(prev) => old(self)@.contains_key(ancestor@) && prev@ == old(self)@[ancestor@]
                    && final(self)@ == old(self)@.insert(ancestor@, new_space@),
                None => !old(self)@.contains_key(ancestor@) && final(self)@ == old(self)@,
            },
    {
        let previous = match self.get_space(&ancestor) {
            Some(s) => s.clone(),
            None => {
                return None;
            },
        };
        self.remove_mapping_by_ancestor(&ancestor);
        let added = self.add_mapping(ancestor, new_space);
        proof {
            assert(added is Ok);
            assert(self@ =~= old(self)@.insert(ancestor@, new_space@));
        }
        Some(previous)
    }

    /// Builds a mapping from a list of space environments, each with the
    /// ancestors that feed it; fails on the first ancestor listed twice.
    pub fn from_space_to_ancestors(space_to_ancestors: Vec<(String, Vec<String>)>) -> (r: Result<
        Self,
        RootMappingError,
    >)
        ensures
            r is Ok <==> ancestors_distinct(space_to_ancestors@),
            match r {
                Ok(m) => m.wf() && (forall|a: Seq<char>| #[trigger] m@.contains_key(a) <==> listed(space_to_ancestors@, a))
                    && forall|i: int, k: int|
                        #[trigger] declared_at(space_to_ancestors@, i, k)
                            ==> m@[space_to_ancestors@[i].1@[k]@] == space_to_ancestors@[i].0@,
                Err(RootMappingError::DuplicateAncestor(a)) => exists|i1: int, k1: int, i2: int, k2: int|
                    #[trigger] declared_at(space_to_ancestors@, i1, k1) && #[trigger] declared_at(space_to_ancestors@, i2, k2)
                        && (i1, k1) != (i2, k2) && space_to_ancestors@[i1].1@[k1]@ == a@
                        && space_to_ancestors@[i2].1@[k2]@ == a@,
            },
    {
        let mut mapping = AncestorMapping::new();
        let mut i: usize = 0;
        while i < space_to_ancestors.len()
            invariant
                mapping.wf(),
                i <= space_to_ancestors@.len(),
                distinct_before(space_to_ancestors@, i as int, 0),
                forall|a: Seq<char>| #[trigger] mapping@.contains_key(a) <==> listed_before_at(space_to_ancestors@, i as int, 0, a),
                forall|x: int, y: int| #[trigger] declared_at(space_to_ancestors@, x, y) && x < i
                    ==> mapping@[space_to_ancestors@[x].1@[y]@] == space_to_ancestors@[x].0@,
            decreases space_to_ancestors@.len() - i,
        {
            let space = &space_to_ancestors[i].0;
            let ancestors = &space_to_ancestors[i].1;
            let mut k: usize = 0;
            while k < ancestors.len()
                invariant
                    mapping.wf(),
                    i < space_to_ancestors@.len(),
                    k <= ancestors@.len(),
                    ancestors == space_to_ancestors@[i as int].1,
                    space == space_to_ancestors@[i as int].0,
                    distinct_before(space_to_ancestors@, i as int, k as int),
                    forall|a: Seq<char>| #[trigger] mapping@.contains_key(a) <==> listed_before_at(space_to_ancestors@, i as int, k as int, a),
                    forall|x: int, y: int| #[trigger] declared_at(space_to_ancestors@, x, y) && (x < i || (x == i && y < k))
                        ==> mapping@[space_to_ancestors@[x].1@[y]@] == space_to_ancestors@[x].0@,
                decreases ancestors@.len() - k,
            {
                let ghost before = mapping@;
                let ghost a = ancestors@[k as int]@;
                proof {
                    assert(declared_at(space_to_ancestors@, i as int, k as int));
                }
                match mapping.add_mapping(ancestors[k].clone(), space.clone()) {
                    Ok(()) => {
                        proof {
                            assert forall|i1: int, k1: int, i2: int, k2: int|
                                #[trigger] declared_at(space_to_ancestors@, i1, k1) && #[trigger] declared_at(space_to_ancestors@, i2, k2)
                                    && (i1 < i || (i1 == i && k1 < k + 1)) && (i2 < i || (i2 == i && k2 < k + 1))
                                    && (i1, k1) != (i2, k2) implies space_to_ancestors@[i1].1@[k1]@ != space_to_ancestors@[i2].1@[k2]@ by {
                                if i1 == i && k1 == k && space_to_ancestors@[i2].1@[k2]@ == a {
                                    assert(listed_before_at(space_to_ancestors@, i as int, k as int, a));
                                } else if i2 == i && k2 == k && space_to_ancestors@[i1].1@[k1]@ == a {
                                    assert(listed_before_at(space_to_ancestors@, i as int, k as int, a));
                                }
                            }
                            assert forall|b: Seq<char>| #[trigger] mapping@.contains_key(b)
                                <==> listed_before_at(space_to_ancestors@, i as int, k + 1, b) by {
                                if listed_before_at(space_to_ancestors@, i as int, k + 1, b) && b != a {
                                    let (x, y) = choose|x: int, y: int| #[trigger] declared_at(space_to_ancestors@, x, y)
                                        && (x < i || (x == i && y < k + 1)) && space_to_ancestors@[x].1@[y]@ == b;
                                    assert(listed_before_at(space_to_ancestors@, i as int, k as int, b));
                                }
                            }
                            assert forall|x: int, y: int| #[trigger] declared_at(space_to_ancestors@, x, y) && (x < i || (x == i && y < k + 1))
                                implies mapping@[space_to_ancestors@[x].1@[y]@] == space_to_ancestors@[x].0@ by {
                                if !(x == i && y == k) && space_to_ancestors@[x].1@[y]@ == a {
                                    assert(listed_before_at(space_to_ancestors@, i as int, k as int, a));
                                }
                            }
                        }
                    },
                    Err(e) => {
                        proof {
                            assert(listed(space_to_ancestors@, a));
                            let (x, y) = choose|x: int, y: int| #[trigger] declared_at(space_to_ancestors@, x, y)
                                && (x < i || (x == i && y < k)) && space_to_ancestors@[x].1@[y]@ == a;
                            assert(!ancestors_distinct(space_to_ancestors@)) by {
                                assert(declared_at(space_to_ancestors@, x, y) && declared_at(space_to_ancestors@, i as int, k as int));
                            }
                            assert(declared_at(space_to_ancestors@, x, y) && declared_at(space_to_ancestors@, i as int, k as int)
                                && (x, y) != (i as int, k as int));
                        }
                        return Err(e);
                    },
                }
                k += 1;
            }
            proof {
                assert forall|b: Seq<char>| listed_before_at(space_to_ancestors@, i as int, k as int, b)
                    <==> listed_before_at(space_to_ancestors@, i + 1, 0, b) by {
                    if listed_before_at(space_to_ancestors@, i + 1, 0, b) {
                        let (x, y) = choose|x: int, y: int| #[trigger] declared_at(space_to_ancestors@, x, y)
                            && (x < i + 1 || (x == i + 1 && y < 0)) && space_to_ancestors@[x].1@[y]@ == b;
                        assert(declared_at(space_to_ancestors@, x, y) && (x < i || (x == i && y < k)));
                    }
                }
            }
            i += 1;
        }
        proof {
            assert forall|b: Seq<char>| #[trigger] listed(space_to_ancestors@, b) <==> listed_before_at(space_to_ancestors@, i as int, 0, b) by {
                if listed(space_to_ancestors@, b) {
                    let (x, y) = choose|x: int, y: int| #[trigger] declared_at(space_to_ancestors@, x, y) && space_to_ancestors@[x].1@[y]@ == b;
                    assert(declared_at(space_to_ancestors@, x, y) && (x < i || (x == i && y < 0)));
                }
            }
        }
        Ok(mapping)
    }

    /// Removes every mapping.
    pub fn clear(&mut self)
        ensures
            final(self).wf(),
            final(self)@ == Map::<Seq<char>, Seq<char>>::empty(),
    {
        self.space_to_ancestor.clear();
        self.ancestor_to_space.clear();
        self.entries = Ghost(Map::empty());
    }
}

/// Bucket `i` of `p` has a position `k`.
pub open spec fn declared_at(p: Seq<(String, Vec<String>)>, i: int, k: int) -> bool {
    0 <= i < p.len() && 0 <= k < p[i].1@.len()
}

/// Some bucket of `p` lists `a`.
pub open spec fn listed(p: Seq<(String, Vec<String>)>, a: Seq<char>) -> bool {
    exists|i: int, k: int| #[trigger] declared_at(p, i, k) && p[i].1@[k]@ == a
}

/// Some position before bucket `i`, position `k` of `p` lists `a`.
pub open spec fn listed_before_at(p: Seq<(String, Vec<String>)>, i: int, k: int, a: Seq<char>) -> bool {
    exists|x: int, y: int| #[trigger] declared_at(p, x, y) && (x < i || (x == i && y < k)) && p[x].1@[y]@ == a
}

/// No two positions before bucket `i`, position `k` of `p` list the same ancestor.
pub open spec fn distinct_before(p: Seq<(String, Vec<String>)>, i: int, k: int) -> bool {
    forall|i1: int, k1: int, i2: int, k2: int|
        #[trigger] declared_at(p, i1, k1) && #[trigger] declared_at(p, i2, k2)
            && (i1 < i || (i1 == i && k1 < k)) && (i2 < i || (i2 == i && k2 < k))
            && (i1, k1) != (i2, k2) ==> p[i1].1@[k1]@ != p[i2].1@[k2]@
}

/// No ancestor is listed twice in `p`, in one bucket or in two.
pub open spec fn ancestors_distinct(p: Seq<(String, Vec<String>)>) -> bool {
    forall|i1: int, k1: int, i2: int, k2: int|
        #[trigger] declared_at(p, i1, k1) && #[trigger] declared_at(p, i2, k2) && (i1, k1) != (i2, k2)
            ==> p[i1].1@[k1]@ != p[i2].1@[k2]@
}

/// Some of the first `k` elements of `b` has the view `a`.
pub open spec fn listed_before(b: Seq<String>, k: int, a: Seq<char>) -> bool {
    exists|x: int| 0 <= x < k && #[trigger] b[x]@ == a
}

/// A copy of `v`.
pub(crate) fn copy_strings(v: &Vec<String>) -> (r: Vec<String>)
    ensures
        r@ == v@,
{
    let mut r: Vec<String> = Vec::new();
    let mut i: usize = 0;
    while i < v.len()
        invariant
            i <= v@.len(),
            r@ == v@.subrange(0, i as int),
        decreases v@.len() - i,
    {
        r.push(v[i].clone());
        i += 1;
    }
    assert(r@ =~= v@);
    r
}

/// The view after mapping each ancestor of `pairs` to its space in turn,
/// as `add_mapping` does when it succeeds.
pub open spec fn after_adds(m: Map<Seq<char>, Seq<char>>, pairs: Seq<(Seq<char>, Seq<char>)>) -> Map<Seq<char>, Seq<char>>
    decreases pairs.len(),
{
    if pairs.len() == 0 {
        m
    } else {
        after_adds(m, pairs.drop_last()).insert(pairs.last().0, pairs.last().1)
    }
}

/// A mapping is functional: after adding pairs with distinct ancestors, each
/// ancestor is mapped to the space it was last given, and every other
/// ancestor keeps its mapping. (A duplicate ancestor is refused by
/// `add_mapping` with `DuplicateAncestor`, leaving the mapping unchanged.)
pub proof fn added_mappings_are_functional(m: Map<Seq<char>, Seq<char>>, pairs: Seq<(Seq<char>, Seq<char>)>, a: Seq<char>)
    requires
        forall|i: int, j: int| 0 <= i < j < pairs.len() ==> pairs[i].0 != pairs[j].0,
    ensures
        forall|i: int| 0 <= i < pairs.len() ==> after_adds(m, pairs).contains_key(#[trigger] pairs[i].0)
            && after_adds(m, pairs)[pairs[i].0] == pairs[i].1,
        (forall|i: int| 0 <= i < pairs.len() ==> pairs[i].0 != a) ==> (after_adds(m, pairs).contains_key(a)
            == m.contains_key(a) && (m.contains_key(a) ==> after_adds(m, pairs)[a] == m[a])),
    decreases pairs.len(),
{
    if pairs.len() > 0 {
        added_mappings_are_functional(m, pairs.drop_last(), a);
        let d = pairs.drop_last();
        assert forall|i: int| 0 <= i < pairs.len() implies after_adds(m, pairs).contains_key(#[trigger] pairs[i].0)
            && after_adds(m, pairs)[pairs[i].0] == pairs[i].1 by {
            if i < pairs.len() - 1 {
                assert(d[i] == pairs[i]);
            }
        }
        if forall|i: int| 0 <= i < pairs.len() ==> pairs[i].0 != a {
            assert forall|i: int| 0 <= i < d.len() implies d[i].0 != a by {
                assert(d[i] == pairs[i]);
            }
            assert(pairs[pairs.len() - 1].0 != a);
        }
    }
}

/// The two directions of a mapping are exact inverses: `get_space(a)` is
/// `Some(s)` exactly when `get_ancestors(s)` holds `a`; and no space is
/// listed with an empty set of ancestors.
pub proof fn mapping_directions_inverse(m: &AncestorMapping, a: Seq<char>, s: Seq<char>)
    requires
        m.wf(),
    ensures
        (m@.contains_key(a) && m@[a] == s) <==> ancestors_of(m@, s).contains(a),
        (m@.contains_key(a) && m@[a] == s) <==> (m.space_view().contains_key(s) && m.space_view()[s].contains(a)),
        m.space_view().contains_key(s) ==> m.space_view()[s].len() > 0,
{
    if m.space_view().contains_key(s) {
        let b = choose|b: Seq<char>| m@.contains_key(b) && m@[b] == s;
        assert(ancestors_of(m@, s).contains(b));
        assert(ancestors_of(m@, s) =~= ancestors_of(m@, s).remove(b).insert(b));
        assert(ancestors_of(m@, s).finite()) by {
            assert(ancestors_of(m@, s).subset_of(m@.dom()));
            assert(m@.dom().finite()) by {
                m.lemma_finite();
            }
            vstd::set_lib::lemma_len_subset(ancestors_of(m@, s), m@.dom());
        }
    }
    if m@.contains_key(a) && m@[a] == s {
        assert(m@.values().contains(s));
    }
}

impl AncestorMapping {
    /// The mapping has finitely many entries.
    proof fn lemma_finite(&self)
        requires
            self.wf(),
        ensures
            self@.dom().finite(),
    {
        let keys = self.ancestor_to_space@.map_values(|p: (String, String)| p.0@);
        vstd::seq_lib::seq_to_set_is_finite(keys);
        assert(self@.dom().subset_of(keys.to_set())) by {
            assert forall|a: Seq<char>| self@.dom().contains(a) implies keys.to_set().contains(a) by {
                let i = choose|i: int| 0 <= i < self.ancestor_to_space@.len() && #[trigger] self.ancestor_to_space@[i].0@ == a;
                assert(keys[i] == a);
            }
        }
        vstd::set_lib::lemma_len_subset(self@.dom(), keys.to_set());
    }
}

} // verus!
