//! The bone hierarchy of an imported model: which scene nodes become bones,
//! which bone is each bone's parent, and how the bone tree is listed.

use vstd::prelude::*;
use crate::bone_order::{bone_ancestor, bone_rooted, lemma_bone_ancestor_step, parents_in_range};
use crate::text::str_eq;

verus! {

/// A scene node's name and the name of its parent node, if any.
#[derive(Debug)]
pub struct NodeParent {
    pub name: String,
    pub parent: Option<String>,
}

/// The parent names of the scene's nodes, by node name. A later record for a
/// name replaces an earlier one.
#[derive(Debug)]
pub struct NodeHierarchy {
    pub records: Vec<NodeParent>,
}

/// The view of an optional name.
pub open spec fn opt_view(o: Option<String>) -> Option<Seq<char>> {
    match o {
        Some(s) => Some(s@),
        None => None,
    }
}

/// The latest record for `name`, as the parent it gives.
pub open spec fn lookup_parent(records: Seq<NodeParent>, name: Seq<char>) -> Option<
    Option<Seq<char>>,
>
    decreases records.len(),
{
    if records.len() == 0 {
        None
    } else if records.last().name@ == name {
        Some(opt_view(records.last().parent))
    } else {
        lookup_parent(records.drop_last(), name)
    }
}

/// The parent name of the node `name`, or `None` for a root or an unknown name.
pub open spec fn parent_of(records: Seq<NodeParent>, name: Seq<char>) -> Option<Seq<char>> {
    match lookup_parent(records, name) {
        Some(p) => p,
        None => None,
    }
}

/// The `k`-th ancestor of `name` (itself for `k == 0`), following parent names.
pub open spec fn ancestor(records: Seq<NodeParent>, name: Seq<char>, k: nat) -> Option<Seq<char>>
    decreases k,
{
    if k == 0 {
        Some(name)
    } else {
        match ancestor(records, name, (k - 1) as nat) {
            Some(a) => parent_of(records, a),
            None => None,
        }
    }
}

impl NodeHierarchy {
    /// An empty hierarchy.
    pub fn new() -> (r: Self)
        ensures
            r.records@ == Seq::<NodeParent>::empty(),
    {
        NodeHierarchy { records: Vec::new() }
    }

    /// Record the parent of the node `name`.
    pub fn record(&mut self, name: String, parent: Option<String>)
        ensures
            final(self).records@ == old(self).records@.push(NodeParent { name, parent }),
    {
        self.records.push(NodeParent { name, parent });
    }

    /// The parent name of the node `name`.
    pub fn parent_of(&self, name: &str) -> (r: Option<String>)
        ensures
            opt_view(r) == parent_of(self.records@, name@),
    {
        let mut i: usize = self.records.len();
        proof {
            assert(self.records@.take(i as int) =~= self.records@);
        }
        while i > 0
            invariant
                i <= self.records@.len(),
                lookup_parent(self.records@, name@) == lookup_parent(
                    self.records@.take(i as int),
                    name@,
                ),
            decreases i,
        {
            proof {
                assert(self.records@.take(i as int).drop_last() =~= self.records@.take(i - 1));
                assert(self.records@.take(i as int).last() == self.records@[i - 1]);
            }
            if str_eq(self.records[i - 1].name.as_str(), name) {
                return match &self.records[i - 1].parent {
                    Some(p) => Some(p.clone()),
                    None => None,
                };
            }
            i -= 1;
        }
        None
    }
}

/// The bones of a skeleton by name; a bone's index is its position. No name
/// occurs twice.
#[derive(Debug)]
pub struct BoneRegistry {
    pub names: Vec<String>,
}

/// The names of a list of strings, as character sequences.
pub open spec fn name_views(v: Seq<String>) -> Seq<Seq<char>> {
    v.map_values(|s: String| s@)
}

impl BoneRegistry {
    /// No bone name occurs twice.
    pub open spec fn wf(&self) -> bool {
        name_views(self.names@).no_duplicates()
    }

    /// The bone names, as character sequences.
    pub open spec fn spec_names(&self) -> Seq<Seq<char>> {
        name_views(self.names@)
    }

    /// An empty registry.
    pub fn new() -> (r: Self)
        ensures
            r.wf(),
            r.spec_names() == Seq::<Seq<char>>::empty(),
    {
        let r = BoneRegistry { names: Vec::new() };
        proof {
            assert(r.spec_names() =~= Seq::<Seq<char>>::empty());
        }
        r
    }

    /// The index of the bone called `name`.
    pub fn lookup(&self, name: &str) -> (r: Option<usize>)
        ensures
            match r {
                Some(i) => i < self.names@.len() && self.spec_names()[i as int] == name@ && forall|
                    j: int,
                | 0 <= j < i ==> self.spec_names()[j] != name@,
                None => !self.spec_names().contains(name@),
            },
    {
        let mut i: usize = 0;
        while i < self.names.len()
            invariant
                i <= self.names@.len(),
                forall|j: int| 0 <= j < i ==> self.names@[j]@ != name@,
            decreases self.names@.len() - i,
        {
            if str_eq(self.names[i].as_str(), name) {
                return Some(i);
            }
            i += 1;
        }
        proof {
            if self.spec_names().contains(name@) {
                let j = choose|j: int|
                    0 <= j < self.spec_names().len() && self.spec_names()[j] == name@;
                assert(self.names@[j]@ == name@);
            }
        }
        None
    }

    /// The index of the bone called `name`, adding it at the end when it is new.
    pub fn register(&mut self, name: String) -> (r: usize)
        requires
            old(self).wf(),
        ensures
            final(self).wf(),
            old(self).spec_names().contains(name@) ==> final(self).spec_names() == old(
                self,
            ).spec_names() && old(self).spec_names()[r as int] == name@,
            !old(self).spec_names().contains(name@) ==> final(self).spec_names() == old(
                self,
            ).spec_names().push(name@) && r == old(self).names@.len(),
    {
        match self.lookup(name.as_str()) {
            Some(i) => i,
            None => {
                let n: usize = self.names.len();
                let ghost before = self.spec_names();
                self.names.push(name);
                proof {
                    assert(self.spec_names() =~= before.push(name@));
                    assert forall|a: int, b: int|
                        0 <= a < b < self.spec_names().len() implies self.spec_names()[a]
                        != self.spec_names()[b] by {
                        if b == before.len() {
                            assert(before.contains(before[a]));
                        }
                    }
                }
                n
            },
        }
    }
}

/// Whether the walk up from a node stops at its `k`-th ancestor: there is no
/// such ancestor, or it is a bone.
pub open spec fn stops_at(records: Seq<NodeParent>, bones: Seq<Seq<char>>, name: Seq<char>, k: nat) -> bool {
    match ancestor(records, name, k) {
        None => true,
        Some(a) => bones.contains(a),
    }
}

/// The walk up from `name` ends: some ancestor level does not exist.
pub open spec fn walk_ends(records: Seq<NodeParent>, name: Seq<char>) -> bool {
    exists|k: nat| #[trigger] ancestor(records, name, k) is None
}

/// `k` is the nearest ancestor level (at least 1) where the walk stops.
pub open spec fn is_first_stop(
    records: Seq<NodeParent>,
    bones: Seq<Seq<char>>,
    name: Seq<char>,
    k: nat,
) -> bool {
    &&& k >= 1
    &&& stops_at(records, bones, name, k)
    &&& forall|j: nat| 1 <= j < k ==> !#[trigger] stops_at(records, bones, name, j)
}

/// The nearest ancestor level (at least 1) where the walk up from `name` stops.
pub open spec fn first_stop(records: Seq<NodeParent>, bones: Seq<Seq<char>>, name: Seq<char>) -> nat {
    choose|k: nat| is_first_stop(records, bones, name, k)
}

/// The index of the nearest ancestor of `name` that is a bone, if the walk
/// meets one before the top of the hierarchy.
pub open spec fn spec_parent_bone(
    records: Seq<NodeParent>,
    bones: Seq<Seq<char>>,
    name: Seq<char>,
) -> Option<int> {
    match ancestor(records, name, first_stop(records, bones, name)) {
        Some(a) => Some(bones.index_of(a)),
        None => None,
    }
}

/// The ancestors the walk passes before it stops, nearest first.
pub open spec fn passed_ancestors(
    records: Seq<NodeParent>,
    bones: Seq<Seq<char>>,
    name: Seq<char>,
) -> Seq<Seq<char>> {
    Seq::new(
        (first_stop(records, bones, name) - 1) as nat,
        |i: int| ancestor(records, name, (i + 1) as nat)->0,
    )
}

/// Once the walk has left the hierarchy it stays out.
pub proof fn lemma_ancestor_none_stays(records: Seq<NodeParent>, name: Seq<char>, j: nat, k: nat)
    requires
        j <= k,
        ancestor(records, name, j) is None,
    ensures
        ancestor(records, name, k) is None,
    decreases k - j,
{
    if j < k {
        lemma_ancestor_none_stays(records, name, j, (k - 1) as nat);
    }
}

/// Equal ancestors have equal ancestors further up.
pub proof fn lemma_ancestor_shift(records: Seq<NodeParent>, name: Seq<char>, i: nat, j: nat, t: nat)
    requires
        ancestor(records, name, i) == ancestor(records, name, j),
    ensures
        ancestor(records, name, i + t) == ancestor(records, name, j + t),
    decreases t,
{
    if t > 0 {
        lemma_ancestor_shift(records, name, i, j, (t - 1) as nat);
        assert(ancestor(records, name, i + t) == match ancestor(
            records,
            name,
            (i + t - 1) as nat,
        ) {
            Some(a) => parent_of(records, a),
            None => None,
        });
    }
}

/// When the walk ends, there is a first stop, and it is unique.
pub proof fn lemma_first_stop(records: Seq<NodeParent>, bones: Seq<Seq<char>>, name: Seq<char>, k: nat)
    requires
        is_first_stop(records, bones, name, k),
    ensures
        first_stop(records, bones, name) == k,
{
    let c = first_stop(records, bones, name);
    assert(is_first_stop(records, bones, name, c));
    if c < k {
        assert(stops_at(records, bones, name, c));
    } else if c > k {
        assert(!stops_at(records, bones, name, k));
    }
}

/// The ancestors passed before the first stop are all different.
pub proof fn lemma_passed_distinct(
    records: Seq<NodeParent>,
    bones: Seq<Seq<char>>,
    name: Seq<char>,
    s: nat,
    i: nat,
    j: nat,
)
    requires
        is_first_stop(records, bones, name, s),
        1 <= i < j < s,
    ensures
        ancestor(records, name, i) != ancestor(records, name, j),
{
    if ancestor(records, name, i) == ancestor(records, name, j) {
        let t = (s - j) as nat;
        lemma_ancestor_shift(records, name, i, j, t);
        assert(ancestor(records, name, i + t) == ancestor(records, name, s));
        assert(!stops_at(records, bones, name, i + t));
    }
}

/// Walks up from `bone_name` to the first ancestor that is a bone or to the
/// top; returns the level reached, and the names passed on the way when asked.
fn walk_up(bone_name: &str, hierarchy: &NodeHierarchy, bones: &BoneRegistry, collect: bool) -> (r: (
    Option<usize>,
    Vec<String>,
))
    requires
        walk_ends(hierarchy.records@, bone_name@),
    ensures
        ({
            let s = first_stop(hierarchy.records@, bones.spec_names(), bone_name@);
            &&& is_first_stop(hierarchy.records@, bones.spec_names(), bone_name@, s)
            &&& match r.0 {
                Some(i) => ancestor(hierarchy.records@, bone_name@, s) matches Some(a) && i
                    < bones.names@.len() && bones.spec_names()[i as int] == a,
                None => ancestor(hierarchy.records@, bone_name@, s) is None,
            }
            &&& collect ==> name_views(r.1@) == passed_ancestors(
                hierarchy.records@,
                bones.spec_names(),
                bone_name@,
            )
        }),
{
    let ghost recs = hierarchy.records@;
    let ghost bs = bones.spec_names();
    let ghost name = bone_name@;
    let ghost end = choose|k: nat| #[trigger] ancestor(recs, name, k) is None;
    let ghost mut level: nat = 1;
    let mut passed: Vec<String> = Vec::new();
    let mut current = hierarchy.parent_of(bone_name);
    proof {
        assert(ancestor(recs, name, 0) == Some(name));
        assert(ancestor(recs, name, 1) == parent_of(recs, name));
    }
    loop
        invariant
            recs == hierarchy.records@,
            bs == bones.spec_names(),
            name == bone_name@,
            ancestor(recs, name, end) is None,
            level >= 1,
            opt_view(current) == ancestor(recs, name, level),
            forall|j: nat| 1 <= j < level ==> !#[trigger] stops_at(recs, bs, name, j),
            collect ==> name_views(passed@) == Seq::new(
                (level - 1) as nat,
                |i: int| ancestor(recs, name, (i + 1) as nat)->0,
            ),
        decreases end - level,
    {
        match current {
            None => {
                proof {
                    assert(is_first_stop(recs, bs, name, level));
                    lemma_first_stop(recs, bs, name, level);
                    if collect {
                        assert(name_views(passed@) =~= passed_ancestors(recs, bs, name));
                    }
                }
                return (None, passed);
            },
            Some(p) => {
                proof {
                    if level >= end {
                        lemma_ancestor_none_stays(recs, name, end, level);
                    }
                }
                match bones.lookup(p.as_str()) {
                    Some(i) => {
                        proof {
                            assert(is_first_stop(recs, bs, name, level));
                            lemma_first_stop(recs, bs, name, level);
                            if collect {
                                assert(name_views(passed@) =~= passed_ancestors(recs, bs, name));
                            }
                        }
                        return (Some(i), passed);
                    },
                    None => {
                        let next = hierarchy.parent_of(p.as_str());
                        proof {
                            assert(!stops_at(recs, bs, name, level));
                            assert(ancestor(recs, name, level + 1) == parent_of(recs, p@));
                        }
                        if collect {
                            let ghost before = passed@;
                            passed.push(p);
                            proof {
                                let target = Seq::new(
                                    level as nat,
                                    |i: int| ancestor(recs, name, (i + 1) as nat)->0,
                                );
                                assert forall|i: int| 0 <= i < level implies name_views(
                                    passed@,
                                )[i] == #[trigger] target[i] by {
                                    if i < level - 1 {
                                        assert(passed@[i] == before[i]);
                                        assert(name_views(before)[i] == before[i]@);
                                    }
                                }
                                assert(name_views(passed@) =~= target);
                            }
                        }
                        current = next;
                        proof {
                            level = level + 1;
                        }
                    },
                }
            },
        }
    }
}

/// The index of the nearest ancestor of the node `bone_name` that is a bone.
/// The walk up the hierarchy must end (it does for any tree of nodes).
pub fn find_parent_bone_index(bone_name: &str, hierarchy: &NodeHierarchy, bones: &BoneRegistry) -> (r:
    Option<usize>)
    requires
        bones.wf(),
        walk_ends(hierarchy.records@, bone_name@),
    ensures
        match spec_parent_bone(hierarchy.records@, bones.spec_names(), bone_name@) {
            Some(i) => r == Some(i as usize),
            None => r is None,
        },
{
    let (found, _unused) = walk_up(bone_name, hierarchy, bones, false);
    proof {
        let s = first_stop(hierarchy.records@, bones.spec_names(), bone_name@);
        if let Some(i) = found {
            let a = bones.spec_names()[i as int];
            assert(bones.spec_names().contains(a));
            assert(bones.spec_names().index_of(a) == i) by {
                let k = bones.spec_names().index_of(a);
                assert(bones.spec_names()[k] == a);
            }
        }
    }
    found
}

/// Add the ancestors of the node `bone_name` that lie between it and its
/// nearest bone ancestor (or the top) as bones, the topmost first. Returns the
/// added names in the order they were added.
pub fn ensure_ancestor_bones(bone_name: &str, hierarchy: &NodeHierarchy, bones: &mut BoneRegistry) -> (r:
    Vec<String>)
    requires
        old(bones).wf(),
        walk_ends(hierarchy.records@, bone_name@),
    ensures
        final(bones).wf(),
        name_views(r@) == passed_ancestors(
            hierarchy.records@,
            old(bones).spec_names(),
            bone_name@,
        ).reverse(),
        final(bones).spec_names() == old(bones).spec_names() + name_views(r@),
        parent_is_bone_or_root(hierarchy.records@, final(bones).spec_names(), bone_name@),
{
    let ghost recs = hierarchy.records@;
    let ghost bs = bones.spec_names();
    let ghost name = bone_name@;
    let (_stop, chain) = walk_up(bone_name, hierarchy, bones, true);
    let ghost s = first_stop(recs, bs, name);
    let ghost chain_v = name_views(chain@);
    proof {
        assert forall|a: int, b: int| 0 <= a < b < chain_v.len() implies chain_v[a] != chain_v[b] by {
            lemma_passed_distinct(recs, bs, name, s, (a + 1) as nat, (b + 1) as nat);
            assert(!stops_at(recs, bs, name, (a + 1) as nat));
            assert(!stops_at(recs, bs, name, (b + 1) as nat));
        }
        assert forall|a: int| 0 <= a < chain_v.len() implies !bs.contains(chain_v[a]) by {
            assert(!stops_at(recs, bs, name, (a + 1) as nat));
        }
    }
    let mut added: Vec<String> = Vec::new();
    let mut k: usize = chain.len();
    while k > 0
        invariant
            k <= chain@.len(),
            chain_v == name_views(chain@),
            bs + name_views(added@) == bones.spec_names(),
            name_views(added@) == chain_v.subrange(k as int, chain_v.len() as int).reverse(),
            bones.wf(),
            forall|a: int, b: int| 0 <= a < b < chain_v.len() ==> chain_v[a] != chain_v[b],
            forall|a: int| 0 <= a < chain_v.len() ==> !bs.contains(#[trigger] chain_v[a]),
        decreases k,
    {
        let n = chain[k - 1].clone();
        proof {
            assert(n@ == chain_v[k - 1]);
            assert(!bs.contains(chain_v[k - 1]));
            assert(!bones.spec_names().contains(n@)) by {
                if bones.spec_names().contains(n@) {
                    let q = choose|q: int|
                        0 <= q < bones.spec_names().len() && bones.spec_names()[q] == n@;
                    if q < bs.len() {
                        assert((bs + name_views(added@))[q] == bs[q]);
                        assert(bs.contains(bs[q]));
                    } else {
                        let m = q - bs.len();
                        assert((bs + name_views(added@))[q] == name_views(added@)[m]);
                        assert(chain_v.subrange(k as int, chain_v.len() as int).reverse()[m]
                            == chain_v[chain_v.len() - 1 - m]);
                    }
                }
            }
        }
        let ghost added_before = added@;
        let _idx = bones.register(n);
        added.push(chain[k - 1].clone());
        proof {
            let target = chain_v.subrange(k - 1, chain_v.len() as int).reverse();
            let prev = chain_v.subrange(k as int, chain_v.len() as int).reverse();
            assert forall|i: int| 0 <= i < added@.len() implies name_views(added@)[i]
                == #[trigger] target[i] by {
                if i < added@.len() - 1 {
                    assert(added@[i] == added_before[i]);
                    assert(name_views(added_before)[i] == prev[i]);
                }
            }
            assert(name_views(added@) =~= target);
            assert(bs + name_views(added@) =~= bones.spec_names());
        }
        k -= 1;
    }
    proof {
        assert(chain_v.subrange(0, chain_v.len() as int) =~= chain_v);
        law_ancestors_make_parent_direct(recs, bs, name);
    }
    added
}

/// Whether a bone's parent index names a bone of a skeleton of `n` bones.
pub open spec fn has_listed_parent(parent: Option<usize>, n: nat) -> bool {
    match parent {
        Some(p) => p < n,
        None => false,
    }
}

/// The bones below `i` whose parent is `p`, in index order.
pub open spec fn children_of(parents: Seq<Option<usize>>, p: usize, i: nat) -> Seq<usize>
    decreases i,
{
    if i == 0 {
        Seq::empty()
    } else {
        let k = (i - 1) as nat;
        children_of(parents, p, k) + if parents[k as int] == Some(p) {
            seq![k as usize]
        } else {
            Seq::empty()
        }
    }
}

/// The bones below `i` without a parent among the bones, in index order.
pub open spec fn roots_of(parents: Seq<Option<usize>>, i: nat) -> Seq<usize>
    decreases i,
{
    if i == 0 {
        Seq::empty()
    } else {
        let k = (i - 1) as nat;
        roots_of(parents, k) + if !has_listed_parent(parents[k as int], parents.len()) {
            seq![k as usize]
        } else {
            Seq::empty()
        }
    }
}

/// The children of every bone and the root bones of a skeleton given by each
/// bone's parent index, all in index order. A parent index outside the
/// skeleton makes the bone a root.
pub fn bone_children_and_roots(parents: &Vec<Option<usize>>) -> (r: (Vec<Vec<usize>>, Vec<usize>))
    ensures
        r.0@.len() == parents@.len(),
        forall|p: int|
            0 <= p < parents@.len() ==> #[trigger] r.0@[p]@ == children_of(
                parents@,
                p as usize,
                parents@.len(),
            ),
        r.1@ == roots_of(parents@, parents@.len()),
{
    let n: usize = parents.len();
    let mut children: Vec<Vec<usize>> = Vec::new();
    let mut j: usize = 0;
    while j < n
        invariant
            j <= n,
            n == parents@.len(),
            children@.len() == j,
            forall|p: int| 0 <= p < j ==> (#[trigger] children@[p])@ == Seq::<usize>::empty(),
        decreases n - j,
    {
        children.push(Vec::new());
        j += 1;
    }
    let mut roots: Vec<usize> = Vec::new();
    let mut i: usize = 0;
    while i < n
        invariant
            i <= n,
            n == parents@.len(),
            children@.len() == n,
            forall|p: int|
                0 <= p < n ==> (#[trigger] children@[p])@ == children_of(
                    parents@,
                    p as usize,
                    i as nat,
                ),
            roots@ == roots_of(parents@, i as nat),
        decreases n - i,
    {
        let ghost before = children@;
        match parents[i] {
            Some(p) => {
                if p < n {
                    children[p].push(i);
                } else {
                    roots.push(i);
                }
            },
            None => {
                roots.push(i);
            },
        }
        proof {
            assert forall|q: int| 0 <= q < n implies (#[trigger] children@[q])@ == children_of(
                parents@,
                q as usize,
                (i + 1) as nat,
            ) by {
                if parents@[i as int] != Some(q as usize) {
                    assert(children@[q] == before[q]);
                    assert(children_of(parents@, q as usize, (i + 1) as nat) =~= children_of(
                        parents@,
                        q as usize,
                        i as nat,
                    ));
                }
            }
            assert(roots@ =~= roots_of(parents@, (i + 1) as nat));
        }
        i += 1;
    }
    (children, roots)
}

/// Each element is smaller than the ones after it.
pub open spec fn increasing(s: Seq<usize>) -> bool {
    forall|a: int, b: int| 0 <= a < b < s.len() ==> #[trigger] s[a] < #[trigger] s[b]
}

/// The members of `children_of` are the bones below `m` with parent `p`, in
/// increasing order.
proof fn lemma_children_of_members(parents: Seq<Option<usize>>, p: usize, m: nat)
    requires
        m <= parents.len(),
        parents.len() <= usize::MAX,
    ensures
        increasing(children_of(parents, p, m)),
        forall|k: usize|
            #[trigger] children_of(parents, p, m).contains(k) <==> (k < m && parents[k as int]
                == Some(p)),
    decreases m,
{
    if m > 0 {
        let k = (m - 1) as nat;
        lemma_children_of_members(parents, p, k);
        let prev = children_of(parents, p, k);
        let tail = if parents[k as int] == Some(p) {
            seq![k as usize]
        } else {
            Seq::<usize>::empty()
        };
        let c = children_of(parents, p, m);
        assert(c == prev + tail);
        assert(k < usize::MAX);
        assert((k as usize) as int == k as int);
        assert forall|a: int, b: int| 0 <= a < b < c.len() implies #[trigger] c[a] < #[trigger] c[b] by {
            assert(a < prev.len());
            assert(c[a] == prev[a]);
            if b >= prev.len() {
                assert(prev.contains(prev[a]));
                assert(c[b] == k as usize);
            } else {
                assert(c[b] == prev[b]);
            }
        }
        assert forall|x: usize| c.contains(x) <==> (x < m && parents[x as int] == Some(p)) by {
            if c.contains(x) {
                let j = choose|j: int| 0 <= j < c.len() && c[j] == x;
                if j < prev.len() {
                    assert(prev.contains(x));
                }
            }
            if x < m && parents[x as int] == Some(p) {
                if x < k {
                    assert(prev.contains(x));
                    let j = choose|j: int| 0 <= j < prev.len() && prev[j] == x;
                    assert(c[j] == x);
                } else {
                    assert(c[prev.len() as int] == x);
                }
            }
        }
    }
}

/// The members of `roots_of` are the bones below `m` without a listed parent,
/// in increasing order.
proof fn lemma_roots_of_members(parents: Seq<Option<usize>>, m: nat)
    requires
        m <= parents.len(),
        parents.len() <= usize::MAX,
    ensures
        increasing(roots_of(parents, m)),
        forall|k: usize|
            #[trigger] roots_of(parents, m).contains(k) <==> (k < m && !has_listed_parent(
                parents[k as int],
                parents.len(),
            )),
    decreases m,
{
    if m > 0 {
        let k = (m - 1) as nat;
        lemma_roots_of_members(parents, k);
        let prev = roots_of(parents, k);
        let tail = if !has_listed_parent(parents[k as int], parents.len()) {
            seq![k as usize]
        } else {
            Seq::<usize>::empty()
        };
        let c = roots_of(parents, m);
        assert(c == prev + tail);
        assert(k < usize::MAX);
        assert((k as usize) as int == k as int);
        assert forall|a: int, b: int| 0 <= a < b < c.len() implies #[trigger] c[a] < #[trigger] c[b] by {
            assert(a < prev.len());
            assert(c[a] == prev[a]);
            if b >= prev.len() {
                assert(prev.contains(prev[a]));
                assert(c[b] == k as usize);
            } else {
                assert(c[b] == prev[b]);
            }
        }
        assert forall|x: usize|
            c.contains(x) <==> (x < m && !has_listed_parent(parents[x as int], parents.len())) by {
            if c.contains(x) {
                let j = choose|j: int| 0 <= j < c.len() && c[j] == x;
                if j < prev.len() {
                    assert(prev.contains(x));
                }
            }
            if x < m && !has_listed_parent(parents[x as int], parents.len()) {
                if x < k {
                    assert(prev.contains(x));
                    let j = choose|j: int| 0 <= j < prev.len() && prev[j] == x;
                    assert(c[j] == x);
                } else {
                    assert(c[prev.len() as int] == x);
                }
            }
        }
    }
}

/// The bone tree lists every bone exactly once: as a root when its parent
/// index names no bone of the skeleton, otherwise under that parent and no
/// other bone. No list holds a bone twice.
pub proof fn law_each_bone_listed_once(parents: Seq<Option<usize>>, i: usize, p: usize)
    requires
        i < parents.len(),
        parents.len() <= usize::MAX,
    ensures
        roots_of(parents, parents.len()).no_duplicates(),
        children_of(parents, p, parents.len()).no_duplicates(),
        roots_of(parents, parents.len()).contains(i) <==> !has_listed_parent(
            parents[i as int],
            parents.len(),
        ),
        children_of(parents, p, parents.len()).contains(i) <==> parents[i as int] == Some(p),
{
    lemma_roots_of_members(parents, parents.len());
    lemma_children_of_members(parents, p, parents.len());
}

/// One bone as the skeleton view draws it: from its parent's joint to its
/// own, highlighted when either end is the selected bone.
#[derive(PartialEq, Eq, Structural, Clone, Copy, Debug)]
pub struct BoneSegment {
    pub bone: usize,
    pub parent: usize,
    pub highlighted: bool,
}

/// The segments of the bones below `i` that have a parent, when both have a
/// rest transform (`transforms` of them exist), in bone order.
pub open spec fn spec_bone_segments(
    parents: Seq<Option<usize>>,
    transforms: nat,
    selected: Option<usize>,
    i: nat,
) -> Seq<BoneSegment>
    decreases i,
{
    if i == 0 {
        Seq::empty()
    } else {
        let k = (i - 1) as nat;
        spec_bone_segments(parents, transforms, selected, k) + match parents[k as int] {
            Some(p) => if k < transforms && p < transforms {
                seq![
                    BoneSegment {
                        bone: k as usize,
                        parent: p,
                        highlighted: selected == Some(k as usize) || selected == Some(p),
                    },
                ]
            } else {
                Seq::empty()
            },
            None => Seq::empty(),
        }
    }
}

/// The bone segments the skeleton view draws, given each bone's parent index,
/// how many bones have a rest transform, and the selected bone.
pub fn bone_segments(parents: &Vec<Option<usize>>, transforms: usize, selected: Option<usize>) -> (r:
    Vec<BoneSegment>)
    ensures
        r@ == spec_bone_segments(parents@, transforms as nat, selected, parents@.len()),
{
    let mut segments: Vec<BoneSegment> = Vec::new();
    let mut i: usize = 0;
    while i < parents.len()
        invariant
            i <= parents@.len(),
            segments@ == spec_bone_segments(parents@, transforms as nat, selected, i as nat),
        decreases parents@.len() - i,
    {
        match parents[i] {
            Some(p) => {
                if i < transforms && p < transforms {
                    let highlighted = match selected {
                        Some(s) => s == i || s == p,
                        None => false,
                    };
                    segments.push(BoneSegment { bone: i, parent: p, highlighted });
                }
            },
            None => {},
        }
        proof {
            assert(segments@ =~= spec_bone_segments(
                parents@,
                transforms as nat,
                selected,
                (i + 1) as nat,
            ));
        }
        i += 1;
    }
    segments
}

/// For each bone, whether some animation track is named after it.
pub fn animated_bone_flags(bones: &BoneRegistry, track_names: &Vec<String>) -> (r: Vec<bool>)
    ensures
        r@.len() == bones.names@.len(),
        forall|i: int|
            0 <= i < r@.len() ==> #[trigger] r@[i] == name_views(track_names@).contains(
                bones.spec_names()[i],
            ),
{
    let mut flags: Vec<bool> = Vec::new();
    let mut i: usize = 0;
    while i < bones.names.len()
        invariant
            i <= bones.names@.len(),
            flags@.len() == i,
            forall|k: int|
                0 <= k < i ==> #[trigger] flags@[k] == name_views(track_names@).contains(
                    bones.spec_names()[k],
                ),
        decreases bones.names@.len() - i,
    {
        let mut found = false;
        let mut t: usize = 0;
        while t < track_names.len()
            invariant
                i < bones.names@.len(),
                t <= track_names@.len(),
                found == exists|q: int|
                    0 <= q < t && #[trigger] track_names@[q]@ == bones.names@[i as int]@,
            decreases track_names@.len() - t,
        {
            if str_eq(track_names[t].as_str(), bones.names[i].as_str()) {
                found = true;
            }
            t += 1;
        }
        proof {
            let tv = name_views(track_names@);
            let target = bones.spec_names()[i as int];
            if found {
                let q = choose|q: int|
                    0 <= q < track_names@.len() && #[trigger] track_names@[q]@
                        == bones.names@[i as int]@;
                assert(tv[q] == target);
            } else if tv.contains(target) {
                let q = choose|q: int| 0 <= q < tv.len() && tv[q] == target;
                assert(track_names@[q]@ == bones.names@[i as int]@);
            }
        }
        flags.push(found);
        i += 1;
    }
    flags
}

/// Searching up from level `j`, the walk finds a first stop at or below `k`.
proof fn lemma_first_stop_search(
    records: Seq<NodeParent>,
    bones: Seq<Seq<char>>,
    name: Seq<char>,
    j: nat,
    k: nat,
)
    requires
        1 <= j <= k,
        stops_at(records, bones, name, k),
        forall|i: nat| 1 <= i < j ==> !#[trigger] stops_at(records, bones, name, i),
    ensures
        is_first_stop(records, bones, name, first_stop(records, bones, name)),
    decreases k - j,
{
    if stops_at(records, bones, name, j) {
        lemma_first_stop(records, bones, name, j);
    } else {
        lemma_first_stop_search(records, bones, name, j + 1, k);
    }
}

/// When the walk up from `name` ends, it has a first stop.
pub proof fn lemma_first_stop_exists(records: Seq<NodeParent>, bones: Seq<Seq<char>>, name: Seq<char>)
    requires
        walk_ends(records, name),
    ensures
        is_first_stop(records, bones, name, first_stop(records, bones, name)),
{
    let k = choose|k: nat| #[trigger] ancestor(records, name, k) is None;
    assert(ancestor(records, name, 0) == Some(name));
    assert(k >= 1);
    lemma_first_stop_search(records, bones, name, 1, k);
}

/// The walk up from `name` stops at its parent node: it has none, or the
/// parent node is a bone.
pub open spec fn parent_is_bone_or_root(
    records: Seq<NodeParent>,
    bones: Seq<Seq<char>>,
    name: Seq<char>,
) -> bool {
    match parent_of(records, name) {
        Some(pn) => bones.contains(pn),
        None => true,
    }
}

/// The parent bone of `name` when it is the bone of its parent node (or it
/// has no parent node).
pub open spec fn direct_parent_bone(
    records: Seq<NodeParent>,
    bones: Seq<Seq<char>>,
    name: Seq<char>,
) -> Option<int> {
    match parent_of(records, name) {
        Some(pn) => Some(bones.index_of(pn)),
        None => None,
    }
}

/// When a node's parent node is a bone, that bone is its parent bone; a node
/// without a parent node has no parent bone.
pub proof fn law_parent_bone_is_parent_node(
    records: Seq<NodeParent>,
    bones: Seq<Seq<char>>,
    name: Seq<char>,
)
    requires
        parent_is_bone_or_root(records, bones, name),
    ensures
        spec_parent_bone(records, bones, name) == direct_parent_bone(records, bones, name),
{
    assert(ancestor(records, name, 0) == Some(name));
    assert(ancestor(records, name, 1) == parent_of(records, name));
    assert(is_first_stop(records, bones, name, 1));
    lemma_first_stop(records, bones, name, 1);
}

/// Once the ancestors between a node and its nearest bone ancestor have been
/// added as bones, the node's parent bone is the bone of its own parent node
/// (and a node without a parent has no parent bone).
pub proof fn law_ancestors_make_parent_direct(
    records: Seq<NodeParent>,
    bones: Seq<Seq<char>>,
    name: Seq<char>,
)
    requires
        walk_ends(records, name),
    ensures
        ({
            let grown = bones + passed_ancestors(records, bones, name).reverse();
            &&& parent_is_bone_or_root(records, grown, name)
            &&& spec_parent_bone(records, grown, name) == direct_parent_bone(records, grown, name)
        }),
{
    let chain = passed_ancestors(records, bones, name);
    let grown = bones + chain.reverse();
    lemma_first_stop_exists(records, bones, name);
    let s = first_stop(records, bones, name);
    assert(ancestor(records, name, 0) == Some(name));
    assert(ancestor(records, name, 1) == parent_of(records, name));
    match parent_of(records, name) {
        None => {},
        Some(pn) => {
            if s == 1 {
                assert(bones.contains(pn));
                let i = choose|i: int| 0 <= i < bones.len() && bones[i] == pn;
                assert(grown[i] == pn);
            } else {
                assert(!stops_at(records, bones, name, 1));
                assert(chain[0] == pn);
                let last = chain.len() - 1;
                assert(chain.reverse()[last] == chain[0]);
                assert(grown[bones.len() + last] == pn);
            }
            assert(grown.contains(pn));
        },
    }
    law_parent_bone_is_parent_node(records, grown, name);
}

/// Walking up from an ancestor continues the walk from the node.
pub proof fn lemma_ancestor_compose(records: Seq<NodeParent>, name: Seq<char>, k: nat, j: nat)
    requires
        ancestor(records, name, k) is Some,
    ensures
        ancestor(records, ancestor(records, name, k)->0, j) == ancestor(records, name, k + j),
    decreases j,
{
    if j > 0 {
        lemma_ancestor_compose(records, name, k, (j - 1) as nat);
        assert(ancestor(records, name, k + j) == match ancestor(
            records,
            name,
            (k + j - 1) as nat,
        ) {
            Some(a) => parent_of(records, a),
            None => None,
        });
    }
}

/// The walk up from an ancestor of a node whose walk ends ends too.
pub proof fn lemma_ancestor_walk_ends(records: Seq<NodeParent>, name: Seq<char>, k: nat)
    requires
        walk_ends(records, name),
        ancestor(records, name, k) is Some,
    ensures
        walk_ends(records, ancestor(records, name, k)->0),
{
    let e = choose|e: nat| #[trigger] ancestor(records, name, e) is None;
    if e <= k {
        lemma_ancestor_none_stays(records, name, e, k);
    }
    let t = (e - k) as nat;
    lemma_ancestor_compose(records, name, k, t);
    assert(ancestor(records, ancestor(records, name, k)->0, t) is None);
}

/// Every name's walk up the hierarchy ends.
pub open spec fn all_walks_end(records: Seq<NodeParent>, names: Seq<Seq<char>>) -> bool {
    forall|i: int| 0 <= i < names.len() ==> walk_ends(records, #[trigger] names[i])
}

/// The bone names after the ancestors of the first `i` of `names` have been
/// added in turn, each time those between the bone and its nearest bone
/// ancestor, topmost first.
pub open spec fn completed_names(
    records: Seq<NodeParent>,
    names: Seq<Seq<char>>,
    i: nat,
) -> Seq<Seq<char>>
    decreases i,
{
    if i == 0 {
        names
    } else {
        let prev = completed_names(records, names, (i - 1) as nat);
        prev + passed_ancestors(records, prev, names[i - 1]).reverse()
    }
}

/// The names added by `ensure_ancestor_bones` are ancestors whose walks end.
proof fn lemma_passed_walks_end(
    records: Seq<NodeParent>,
    bones: Seq<Seq<char>>,
    name: Seq<char>,
)
    requires
        walk_ends(records, name),
        all_walks_end(records, bones),
    ensures
        all_walks_end(records, bones + passed_ancestors(records, bones, name).reverse()),
{
    let chain = passed_ancestors(records, bones, name);
    let grown = bones + chain.reverse();
    lemma_first_stop_exists(records, bones, name);
    assert forall|i: int| 0 <= i < grown.len() implies walk_ends(records, #[trigger] grown[i]) by {
        if i >= bones.len() {
            let m = chain.len() - 1 - (i - bones.len());
            assert(grown[i] == chain[m]);
            assert(!stops_at(records, bones, name, (m + 1) as nat));
            lemma_ancestor_walk_ends(records, name, (m + 1) as nat);
        } else {
            assert(grown[i] == bones[i]);
        }
    }
}

/// Add, for each bone in turn, the ancestor nodes between it and its nearest
/// bone ancestor (or the top) as bones, so that afterwards every bone that
/// was registered before the call has its parent node as parent bone, or none.
pub fn complete_skeleton(hierarchy: &NodeHierarchy, bones: &mut BoneRegistry)
    requires
        old(bones).wf(),
        all_walks_end(hierarchy.records@, old(bones).spec_names()),
    ensures
        final(bones).wf(),
        final(bones).spec_names() == completed_names(
            hierarchy.records@,
            old(bones).spec_names(),
            old(bones).spec_names().len(),
        ),
        all_walks_end(hierarchy.records@, final(bones).spec_names()),
        forall|i: int|
            0 <= i < old(bones).spec_names().len() ==> parent_is_bone_or_root(
                hierarchy.records@,
                final(bones).spec_names(),
                #[trigger] old(bones).spec_names()[i],
            ),
        forall|i: int|
            0 <= i < old(bones).spec_names().len() ==> spec_parent_bone(
                hierarchy.records@,
                final(bones).spec_names(),
                #[trigger] old(bones).spec_names()[i],
            ) == direct_parent_bone(
                hierarchy.records@,
                final(bones).spec_names(),
                old(bones).spec_names()[i],
            ),
{
    let ghost recs = hierarchy.records@;
    let ghost orig = bones.spec_names();
    let n: usize = bones.names.len();
    let mut i: usize = 0;
    while i < n
        invariant
            recs == hierarchy.records@,
            n == orig.len(),
            i <= n,
            bones.wf(),
            bones.spec_names() == completed_names(recs, orig, i as nat),
            orig.len() <= bones.spec_names().len(),
            forall|j: int| 0 <= j < orig.len() ==> #[trigger] bones.spec_names()[j] == orig[j],
            all_walks_end(recs, bones.spec_names()),
            forall|j: int|
                0 <= j < i ==> parent_is_bone_or_root(
                    recs,
                    bones.spec_names(),
                    #[trigger] orig[j],
                ),
        decreases n - i,
    {
        let name = bones.names[i].clone();
        let ghost cur = bones.spec_names();
        proof {
            assert(bones.spec_names()[i as int] == bones.names@[i as int]@);
            assert(name@ == orig[i as int]);
            assert(walk_ends(recs, cur[i as int]));
            lemma_passed_walks_end(recs, cur, name@);
        }
        let _added = ensure_ancestor_bones(name.as_str(), hierarchy, bones);
        proof {
            law_ancestors_make_parent_direct(recs, cur, name@);
            let grown = cur + passed_ancestors(recs, cur, name@).reverse();
            assert(bones.spec_names() == grown);
            assert forall|j: int| 0 <= j < orig.len() implies #[trigger] bones.spec_names()[j]
                == orig[j] by {
                assert(grown[j] == cur[j]);
            }
            assert forall|j: int| 0 <= j < i + 1 implies parent_is_bone_or_root(
                recs,
                bones.spec_names(),
                #[trigger] orig[j],
            ) by {
                if j < i {
                    assert(parent_is_bone_or_root(recs, cur, orig[j]));
                    match parent_of(recs, orig[j]) {
                        Some(pn) => {
                            let q = choose|q: int| 0 <= q < cur.len() && cur[q] == pn;
                            assert(grown[q] == pn);
                        },
                        None => {},
                    }
                }
            }
        }
        i += 1;
    }
    proof {
        assert forall|j: int| 0 <= j < orig.len() implies spec_parent_bone(
            recs,
            bones.spec_names(),
            #[trigger] orig[j],
        ) == direct_parent_bone(recs, bones.spec_names(), orig[j]) by {
            law_parent_bone_is_parent_node(recs, bones.spec_names(), orig[j]);
        }
    }
}

/// A bone index as `usize`.
pub open spec fn index_option(o: Option<int>) -> Option<usize> {
    match o {
        Some(i) => Some(i as usize),
        None => None,
    }
}

/// The parent bone of bone `j`, as an index into `bones`.
pub open spec fn parent_bone_index(
    records: Seq<NodeParent>,
    bones: Seq<Seq<char>>,
    j: int,
) -> Option<usize> {
    index_option(spec_parent_bone(records, bones, bones[j]))
}

/// A parent bone, where there is one, is a bone: its index is in range, and it
/// names the nearest bone ancestor, met `first_stop` levels up.
pub proof fn lemma_parent_bone_in_range(records: Seq<NodeParent>, bones: Seq<Seq<char>>, j: int)
    requires
        0 <= j < bones.len() <= usize::MAX,
        walk_ends(records, bones[j]),
    ensures
        is_first_stop(records, bones, bones[j], first_stop(records, bones, bones[j])),
        match parent_bone_index(records, bones, j) {
            Some(p) => {
                &&& p < bones.len()
                &&& ancestor(records, bones[j], first_stop(records, bones, bones[j])) == Some(
                    bones[p as int],
                )
            },
            None => ancestor(records, bones[j], first_stop(records, bones, bones[j])) is None,
        },
{
    lemma_first_stop_exists(records, bones, bones[j]);
    let f = first_stop(records, bones, bones[j]);
    match ancestor(records, bones[j], f) {
        Some(a) => {
            assert(bones.contains(a));
            let p = bones.index_of(a);
            assert(0 <= p < bones.len() && bones[p] == a);
        },
        None => {},
    }
}

/// Following parent bones up from any bone reaches a root: each step goes up
/// at least one level of a node walk that ends, so the bone walk ends too.
pub proof fn lemma_parent_bones_rooted(
    records: Seq<NodeParent>,
    bones: Seq<Seq<char>>,
    parents: Seq<Option<usize>>,
    i: usize,
    k: nat,
)
    requires
        bones.len() <= usize::MAX,
        parents.len() == bones.len(),
        forall|j: int| 0 <= j < parents.len() ==> #[trigger] parents[j] == parent_bone_index(records, bones, j),
        all_walks_end(records, bones),
        i < bones.len(),
        ancestor(records, bones[i as int], k) is None,
    ensures
        bone_rooted(parents, i),
    decreases k,
{
    assert(walk_ends(records, bones[i as int]));
    lemma_parent_bone_in_range(records, bones, i as int);
    let f = first_stop(records, bones, bones[i as int]);
    assert(parents[i as int] == parent_bone_index(records, bones, i as int));
    match parents[i as int] {
        None => {
            assert(bone_ancestor(parents, i, 0) == Some(i));
            assert(bone_ancestor(parents, i, 1) is None);
        },
        Some(p) => {
            if k <= f {
                lemma_ancestor_none_stays(records, bones[i as int], k, f);
            }
            let t = (k - f) as nat;
            lemma_ancestor_compose(records, bones[i as int], f, t);
            assert(ancestor(records, bones[p as int], t) is None);
            lemma_parent_bones_rooted(records, bones, parents, p, t);
            let m = choose|m: nat| #[trigger] bone_ancestor(parents, p, m) is None;
            lemma_bone_ancestor_step(parents, i, p, m);
            assert(bone_ancestor(parents, i, m + 1) is None);
        },
    }
}

/// The parent bone index of every bone, in bone order. Every parent index
/// names a bone, and following parents up from any bone reaches a root.
pub fn bone_parents(hierarchy: &NodeHierarchy, bones: &BoneRegistry) -> (r: Vec<Option<usize>>)
    requires
        bones.wf(),
        all_walks_end(hierarchy.records@, bones.spec_names()),
    ensures
        r@.len() == bones.spec_names().len(),
        forall|i: int|
            0 <= i < r@.len() ==> #[trigger] r@[i] == index_option(
                spec_parent_bone(hierarchy.records@, bones.spec_names(), bones.spec_names()[i]),
            ),
        parents_in_range(r@),
        forall|i: usize| i < r@.len() ==> bone_rooted(r@, i),
{
    let mut parents: Vec<Option<usize>> = Vec::new();
    let mut i: usize = 0;
    while i < bones.names.len()
        invariant
            i <= bones.names@.len(),
            bones.wf(),
            all_walks_end(hierarchy.records@, bones.spec_names()),
            parents@.len() == i,
            forall|k: int|
                0 <= k < i ==> #[trigger] parents@[k] == index_option(
                    spec_parent_bone(
                        hierarchy.records@,
                        bones.spec_names(),
                        bones.spec_names()[k],
                    ),
                ),
        decreases bones.names@.len() - i,
    {
        proof {
            assert(walk_ends(hierarchy.records@, bones.spec_names()[i as int]));
        }
        let p = find_parent_bone_index(bones.names[i].as_str(), hierarchy, bones);
        parents.push(p);
        i += 1;
    }
    proof {
        let records = hierarchy.records@;
        let names = bones.spec_names();
        assert forall|j: int| 0 <= j < parents@.len() implies #[trigger] parents@[j]
            == parent_bone_index(records, names, j) by {}
        assert forall|j: int| 0 <= j < parents@.len() implies match #[trigger] parents@[j] {
            Some(p) => p < parents@.len(),
            None => true,
        } by {
            assert(walk_ends(records, names[j]));
            lemma_parent_bone_in_range(records, names, j);
        }
        assert forall|j: usize| j < parents@.len() implies bone_rooted(parents@, j) by {
            assert(walk_ends(records, names[j as int]));
            let k = choose|k: nat| #[trigger] ancestor(records, names[j as int], k) is None;
            lemma_parent_bones_rooted(records, names, parents@, j, k);
        }
    }
    parents
}

/// Whether the walk up from `name` reaches the top within `limit` steps.
pub open spec fn walk_ends_within(records: Seq<NodeParent>, name: Seq<char>, limit: nat) -> bool {
    exists|k: nat| k <= limit && #[trigger] ancestor(records, name, k) is None
}

/// Whether the walk up from `name` reaches the top within `limit` steps;
/// when it does, the walk ends.
pub fn walk_reaches_top(hierarchy: &NodeHierarchy, name: &str, limit: usize) -> (r: bool)
    ensures
        r == walk_ends_within(hierarchy.records@, name@, limit as nat),
        r ==> walk_ends(hierarchy.records@, name@),
{
    let ghost recs = hierarchy.records@;
    let mut current = hierarchy.parent_of(name);
    let mut steps: usize = 0;
    proof {
        assert(ancestor(recs, name@, 0) == Some(name@));
        assert(ancestor(recs, name@, 1) == parent_of(recs, name@));
    }
    while steps < limit
        invariant
            recs == hierarchy.records@,
            steps <= limit,
            opt_view(current) == ancestor(recs, name@, (steps + 1) as nat),
            forall|k: nat| k <= steps ==> #[trigger] ancestor(recs, name@, k) is Some,
        decreases limit - steps,
    {
        match current {
            None => {
                proof {
                    assert(ancestor(recs, name@, (steps + 1) as nat) is None);
                }
                return true;
            },
            Some(p) => {
                let next = hierarchy.parent_of(p.as_str());
                proof {
                    assert(ancestor(recs, name@, (steps + 2) as nat) == parent_of(recs, p@));
                    assert forall|k: nat| k <= steps + 1 implies #[trigger] ancestor(
                        recs,
                        name@,
                        k,
                    ) is Some by {
                        if k == steps + 1 {
                            assert(opt_view(current) is Some);
                        }
                    }
                }
                current = next;
                steps += 1;
            },
        }
    }
    proof {
        assert forall|k: nat| k <= limit implies !(#[trigger] ancestor(recs, name@, k) is None) by {}
    }
    false
}

} // verus!
