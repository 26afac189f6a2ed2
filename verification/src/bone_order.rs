//! The order in which bone transforms are computed: every bone after its
//! parent, found by a depth-first walk that visits a bone's parent first.

use vstd::prelude::*;

verus! {

/// Every parent index names a bone.
pub open spec fn parents_in_range(parents: Seq<Option<usize>>) -> bool {
    forall|i: int|
        0 <= i < parents.len() ==> match #[trigger] parents[i] {
            Some(p) => p < parents.len(),
            None => true,
        }
}

/// The `k`-th ancestor of bone `i` (itself for `k == 0`).
pub open spec fn bone_ancestor(parents: Seq<Option<usize>>, i: usize, k: nat) -> Option<usize>
    decreases k,
{
    if k == 0 {
        Some(i)
    } else {
        match bone_ancestor(parents, i, (k - 1) as nat) {
            Some(a) => if a < parents.len() {
                parents[a as int]
            } else {
                None
            },
            None => None,
        }
    }
}

/// One step up from bone `i`, whose parent is `p`, then `m` more: the same as
/// `m` steps up from `p`.
pub proof fn lemma_bone_ancestor_step(parents: Seq<Option<usize>>, i: usize, p: usize, m: nat)
    requires
        i < parents.len(),
        parents[i as int] == Some(p),
    ensures
        bone_ancestor(parents, i, m + 1) == bone_ancestor(parents, p, m),
    decreases m,
{
    if m > 0 {
        lemma_bone_ancestor_step(parents, i, p, (m - 1) as nat);
        assert(bone_ancestor(parents, i, m + 1) == match bone_ancestor(parents, i, m) {
            Some(a) => if a < parents.len() {
                parents[a as int]
            } else {
                None
            },
            None => None,
        });
    } else {
        assert(bone_ancestor(parents, i, 0) == Some(i));
    }
}

/// The walk up from bone `i` reaches a root.
pub open spec fn bone_rooted(parents: Seq<Option<usize>>, i: usize) -> bool {
    exists|k: nat| #[trigger] bone_ancestor(parents, i, k) is None
}

/// The walk up from bone `i` stops at level `k`: above the top, or at a bone
/// already listed.
pub open spec fn order_stop(parents: Seq<Option<usize>>, listed: Seq<usize>, i: usize, k: nat) -> bool {
    match bone_ancestor(parents, i, k) {
        None => true,
        Some(a) => listed.contains(a),
    }
}

/// `k` is the first level where the walk up from bone `i` stops.
pub open spec fn is_order_stop(
    parents: Seq<Option<usize>>,
    listed: Seq<usize>,
    i: usize,
    k: nat,
) -> bool {
    &&& order_stop(parents, listed, i, k)
    &&& forall|j: nat| j < k ==> !#[trigger] order_stop(parents, listed, i, j)
}

/// The first level where the walk up from bone `i` stops.
pub open spec fn first_order_stop(parents: Seq<Option<usize>>, listed: Seq<usize>, i: usize) -> nat {
    choose|k: nat| is_order_stop(parents, listed, i, k)
}

/// Bone `i` and its ancestors that are not listed yet, topmost first.
pub open spec fn unlisted_chain(parents: Seq<Option<usize>>, listed: Seq<usize>, i: usize) -> Seq<
    usize,
> {
    let s = first_order_stop(parents, listed, i);
    Seq::new(s, |j: int| bone_ancestor(parents, i, (s - 1 - j) as nat)->0)
}

/// The update order after the first `m` bones have been visited in turn.
pub open spec fn update_order(parents: Seq<Option<usize>>, m: nat) -> Seq<usize>
    decreases m,
{
    if m == 0 {
        Seq::empty()
    } else {
        let prev = update_order(parents, (m - 1) as nat);
        prev + unlisted_chain(parents, prev, (m - 1) as usize)
    }
}

/// Two levels with the same ancestor give the same ancestors further up.
proof fn lemma_bone_ancestor_shift(parents: Seq<Option<usize>>, i: usize, a: nat, b: nat, t: nat)
    requires
        bone_ancestor(parents, i, a) == bone_ancestor(parents, i, b),
    ensures
        bone_ancestor(parents, i, a + t) == bone_ancestor(parents, i, b + t),
    decreases t,
{
    if t > 0 {
        lemma_bone_ancestor_shift(parents, i, a, b, (t - 1) as nat);
        assert(bone_ancestor(parents, i, a + t) == match bone_ancestor(
            parents,
            i,
            (a + t - 1) as nat,
        ) {
            Some(x) => if x < parents.len() {
                parents[x as int]
            } else {
                None
            },
            None => None,
        });
    }
}

/// The first stop is unique.
proof fn lemma_order_stop_unique(
    parents: Seq<Option<usize>>,
    listed: Seq<usize>,
    i: usize,
    k: nat,
)
    requires
        is_order_stop(parents, listed, i, k),
    ensures
        first_order_stop(parents, listed, i) == k,
{
    let c = first_order_stop(parents, listed, i);
    assert(is_order_stop(parents, listed, i, c));
    if c < k {
        assert(order_stop(parents, listed, i, c));
    } else if c > k {
        assert(!order_stop(parents, listed, i, k));
    }
}

/// Every ancestor of a bone is a bone.
proof fn lemma_bone_ancestor_in_range(parents: Seq<Option<usize>>, i: usize, k: nat)
    requires
        parents_in_range(parents),
        i < parents.len(),
    ensures
        bone_ancestor(parents, i, k) matches Some(a) ==> a < parents.len(),
    decreases k,
{
    if k > 0 {
        lemma_bone_ancestor_in_range(parents, i, (k - 1) as nat);
        if let Some(a) = bone_ancestor(parents, i, (k - 1) as nat) {
            assert(match parents[a as int] {
                Some(p) => p < parents.len(),
                None => true,
            });
        }
    }
}

/// The bones passed before the walk stops are all different.
proof fn lemma_chain_distinct(
    parents: Seq<Option<usize>>,
    listed: Seq<usize>,
    i: usize,
    s: nat,
    a: nat,
    b: nat,
)
    requires
        is_order_stop(parents, listed, i, s),
        a < b < s,
    ensures
        bone_ancestor(parents, i, a) != bone_ancestor(parents, i, b),
{
    if bone_ancestor(parents, i, a) == bone_ancestor(parents, i, b) {
        let t = (s - b) as nat;
        lemma_bone_ancestor_shift(parents, i, a, b, t);
        assert(bone_ancestor(parents, i, a + t) == bone_ancestor(parents, i, s));
        assert(!order_stop(parents, listed, i, a + t));
    }
}

/// The order in which bone transforms are computed: for each bone in turn,
/// its ancestors not yet listed, topmost first, then the bone itself. Every
/// parent index must name a bone and every walk up must reach a root.
pub fn bone_update_order(parents: &Vec<Option<usize>>) -> (r: Vec<usize>)
    requires
        parents_in_range(parents@),
        forall|i: usize| i < parents@.len() ==> bone_rooted(parents@, i),
    ensures
        r@ == update_order(parents@, parents@.len()),
        r@.no_duplicates(),
        forall|b: usize| b < parents@.len() ==> r@.contains(b),
        forall|x: int| 0 <= x < r@.len() ==> #[trigger] r@[x] < parents@.len(),
        forall|x: int|
            0 <= x < r@.len() ==> match parents@[#[trigger] r@[x] as int] {
                Some(p) => exists|y: int| 0 <= y < x && r@[y] == p,
                None => true,
            },
{
    let n: usize = parents.len();
    let mut visited: Vec<bool> = Vec::new();
    let mut v: usize = 0;
    while v < n
        invariant
            v <= n,
            visited@.len() == v,
            forall|a: int| 0 <= a < v ==> !visited@[a],
        decreases n - v,
    {
        visited.push(false);
        v += 1;
    }
    let mut order: Vec<usize> = Vec::new();
    let mut i: usize = 0;
    while i < n
        invariant
            n == parents@.len(),
            parents_in_range(parents@),
            forall|b: usize| b < parents@.len() ==> bone_rooted(parents@, b),
            i <= n,
            visited@.len() == n,
            order@ == update_order(parents@, i as nat),
            forall|a: usize| a < n ==> (visited@[a as int] <==> order@.contains(a)),
            order@.no_duplicates(),
            forall|b: usize| b < i ==> order@.contains(b),
            forall|x: int| 0 <= x < order@.len() ==> #[trigger] order@[x] < n,
            forall|x: int|
                0 <= x < order@.len() ==> match parents@[#[trigger] order@[x] as int] {
                    Some(p) => exists|y: int| 0 <= y < x && order@[y] == p,
                    None => true,
                },
        decreases n - i,
    {
        let ghost listed = order@;
        let ghost end = choose|k: nat| #[trigger] bone_ancestor(parents@, i, k) is None;
        proof {
            assert(bone_rooted(parents@, i));
        }
        let mut chain: Vec<usize> = Vec::new();
        let mut cur: Option<usize> = Some(i);
        let ghost mut level: nat = 0;
        loop
            invariant_except_break
                n == parents@.len(),
                parents_in_range(parents@),
                i < n,
                visited@.len() == n,
                order@ == listed,
                forall|a: usize| a < n ==> (visited@[a as int] <==> listed.contains(a)),
                bone_ancestor(parents@, i, end) is None,
                cur == bone_ancestor(parents@, i, level),
                chain@ == Seq::new(level, |j: int| bone_ancestor(parents@, i, j as nat)->0),
                forall|j: nat| j < level ==> !#[trigger] order_stop(parents@, listed, i, j),
            ensures
                n == parents@.len(),
                visited@.len() == n,
                order@ == listed,
                forall|a: usize| a < n ==> (visited@[a as int] <==> listed.contains(a)),
                is_order_stop(parents@, listed, i, level),
                chain@ == Seq::new(level, |j: int| bone_ancestor(parents@, i, j as nat)->0),
            decreases end - level,
        {
            proof {
                lemma_bone_ancestor_in_range(parents@, i, level);
                if level >= end && cur is Some {
                    lemma_bone_none_stays(parents@, i, end, level);
                }
            }
            match cur {
                None => {
                    break;
                },
                Some(a) => {
                    if visited[a] {
                        break;
                    }
                    let ghost before = chain@;
                    chain.push(a);
                    proof {
                        assert(chain@ =~= Seq::new(
                            (level + 1) as nat,
                            |j: int| bone_ancestor(parents@, i, j as nat)->0,
                        )) by {
                            assert forall|j: int| 0 <= j < level + 1 implies chain@[j]
                                == bone_ancestor(parents@, i, j as nat)->0 by {
                                if j < level {
                                    assert(chain@[j] == before[j]);
                                }
                            }
                        }
                        assert(bone_ancestor(parents@, i, level + 1) == parents@[a as int]);
                    }
                    cur = parents[a];
                    proof {
                        level = level + 1;
                    }
                },
            }
        }
        proof {
            lemma_order_stop_unique(parents@, listed, i, level);
            let s = level;
            assert(unlisted_chain(parents@, listed, i) =~= Seq::new(
                s,
                |j: int| bone_ancestor(parents@, i, (s - 1 - j) as nat)->0,
            ));
            assert(update_order(parents@, (i + 1) as nat) == listed + unlisted_chain(
                parents@,
                listed,
                i,
            ));
        }
        let ghost chain_v = chain@;
        proof {
            assert(forall|b: usize| b < i ==> listed.contains(b));
            assert forall|x: int| 0 <= x < chain_v.len() implies #[trigger] chain_v[x] < n by {
                lemma_bone_ancestor_in_range(parents@, i, x as nat);
                assert(!order_stop(parents@, listed, i, x as nat));
            }
            assert(chain_v.subrange(chain_v.len() as int, chain_v.len() as int).reverse()
                =~= Seq::<usize>::empty());
            assert(order@ =~= listed + chain_v.subrange(
                chain_v.len() as int,
                chain_v.len() as int,
            ).reverse());
        }
        let mut k: usize = chain.len();
        while k > 0
            invariant
                n == parents@.len(),
                parents_in_range(parents@),
                i < n,
                k <= chain@.len(),
                chain@ == chain_v,
                visited@.len() == n,
                forall|x: int| 0 <= x < chain_v.len() ==> #[trigger] chain_v[x] < n,
                order@ == listed + chain_v.subrange(k as int, chain_v.len() as int).reverse(),
                forall|a: usize|
                    a < n ==> (visited@[a as int] <==> order@.contains(a)),
                is_order_stop(parents@, listed, i, chain_v.len() as nat),
                chain_v == Seq::new(
                    chain_v.len() as nat,
                    |j: int| bone_ancestor(parents@, i, j as nat)->0,
                ),
                listed.no_duplicates(),
                forall|x: int| 0 <= x < listed.len() ==> #[trigger] listed[x] < n,
                forall|x: int|
                    0 <= x < listed.len() ==> match parents@[#[trigger] listed[x] as int] {
                        Some(p) => exists|y: int| 0 <= y < x && listed[y] == p,
                        None => true,
                    },
                order@.no_duplicates(),
                forall|x: int| 0 <= x < order@.len() ==> #[trigger] order@[x] < n,
                forall|x: int|
                    0 <= x < order@.len() ==> match parents@[#[trigger] order@[x] as int] {
                        Some(p) => exists|y: int| 0 <= y < x && order@[y] == p,
                        None => true,
                    },
                k < chain_v.len() ==> order@.last() == chain_v[k as int],
                forall|b: usize| b < i ==> listed.contains(b),
            decreases k,
        {
            let a = chain[k - 1];
            let ghost before = order@;
            proof {
                let sl = chain_v.len() as nat;
                let km = (k - 1) as nat;
                assert(chain_v[km as int] == bone_ancestor(parents@, i, km)->0);
                assert(!order_stop(parents@, listed, i, km));
                assert(!listed.contains(a));
                let sub = chain_v.subrange(k as int, chain_v.len() as int);
                assert forall|q: int| 0 <= q < before.len() implies before[q] != a by {
                    if q >= listed.len() {
                        let t = q - listed.len();
                        let m = chain_v.len() - 1 - t;
                        assert(before[q] == sub.reverse()[t]);
                        assert(sub.reverse()[t] == sub[sub.len() - 1 - t]);
                        assert(before[q] == chain_v[m]);
                        assert(!order_stop(parents@, listed, i, m as nat));
                        lemma_chain_distinct(parents@, listed, i, sl, km, m as nat);
                    } else {
                        assert(before[q] == listed[q]);
                        assert(listed[q] != a);
                    }
                }
            }
            visited.set(a, true);
            order.push(a);
            proof {
                let sl = chain_v.len() as nat;
                let km = (k - 1) as nat;
                assert(bone_ancestor(parents@, i, km + 1) == parents@[a as int]);
                assert forall|x: int, y: int| 0 <= x < y < order@.len() implies order@[x]
                    != order@[y] by {
                    if y == before.len() {
                        assert(order@[x] == before[x]);
                    } else {
                        assert(order@[x] == before[x] && order@[y] == before[y]);
                    }
                }
                assert forall|x: int| 0 <= x < order@.len() implies match parents@[
                    #[trigger] order@[x] as int
                ] {
                    Some(p) => exists|y: int| 0 <= y < x && order@[y] == p,
                    None => true,
                } by {
                    if x < before.len() {
                        assert(order@[x] == before[x]);
                        match parents@[before[x] as int] {
                            Some(p) => {
                                let y = choose|y: int| 0 <= y < x && before[y] == p;
                                assert(order@[y] == p);
                            },
                            None => {},
                        }
                    } else {
                        assert(order@[x] == a);
                        if k < chain_v.len() {
                            assert(!order_stop(parents@, listed, i, k as nat));
                            assert(bone_ancestor(parents@, i, km + 1) == Some(chain_v[k as int]));
                            assert(order@[x - 1] == chain_v[k as int]);
                        } else {
                            assert(order_stop(parents@, listed, i, sl));
                            match parents@[a as int] {
                                Some(p) => {
                                    assert(listed.contains(p));
                                    let y = choose|y: int| 0 <= y < listed.len() && listed[y] == p;
                                    assert(order@[y] == p);
                                },
                                None => {},
                            }
                        }
                    }
                }
            }
            proof {
                assert(chain_v.subrange(k - 1, chain_v.len() as int).reverse() =~= chain_v.subrange(
                    k as int,
                    chain_v.len() as int,
                ).reverse().push(a));
                assert(order@ =~= listed + chain_v.subrange(k - 1, chain_v.len() as int).reverse());
                assert forall|b: usize| b < n implies (visited@[b as int] <==> order@.contains(b)) by {
                    if b != a {
                        if order@.contains(b) {
                            let q = choose|q: int| 0 <= q < order@.len() && order@[q] == b;
                            assert(before[q] == b);
                        }
                        if before.contains(b) {
                            let q = choose|q: int| 0 <= q < before.len() && before[q] == b;
                            assert(order@[q] == b);
                        }
                    } else {
                        assert(order@[before.len() as int] == a);
                    }
                }
            }
            k -= 1;
        }
        proof {
            assert(chain_v.subrange(0, chain_v.len() as int) =~= chain_v);
            assert(unlisted_chain(parents@, listed, i) =~= chain_v.reverse());
            assert(order@ == listed + chain_v.reverse());
            assert forall|b: usize| b < i + 1 implies order@.contains(b) by {
                if b < i {
                    assert(listed.contains(b));
                    let q = choose|q: int| 0 <= q < listed.len() && listed[q] == b;
                    assert(order@[q] == b);
                } else if chain_v.len() == 0 {
                    assert(order_stop(parents@, listed, i, 0));
                    let q = choose|q: int| 0 <= q < listed.len() && listed[q] == b;
                    assert(order@[q] == b);
                } else {
                    assert(chain_v[0] == i);
                    let q = listed.len() + chain_v.len() - 1;
                    assert(order@[q] == chain_v.reverse()[chain_v.len() - 1]);
                }
            }
        }
        i += 1;
    }
    order
}

/// The walk up from bone `i` reaches a root within `limit` steps.
pub open spec fn bone_rooted_within(parents: Seq<Option<usize>>, i: usize, limit: nat) -> bool {
    exists|k: nat| k <= limit && #[trigger] bone_ancestor(parents, i, k) is None
}

/// Whether every parent index names a bone and every bone's walk up reaches
/// a root within as many steps as there are bones; when it holds, the bones
/// can be put in update order.
pub fn bone_parents_well_formed(parents: &Vec<Option<usize>>) -> (r: bool)
    ensures
        r == (parents_in_range(parents@) && forall|i: usize|
            i < parents@.len() ==> bone_rooted_within(parents@, i, parents@.len() as nat)),
        r ==> forall|i: usize| i < parents@.len() ==> bone_rooted(parents@, i),
{
    let n: usize = parents.len();
    let mut j: usize = 0;
    while j < n
        invariant
            j <= n,
            n == parents@.len(),
            forall|q: int|
                0 <= q < j ==> match #[trigger] parents@[q] {
                    Some(p) => p < n,
                    None => true,
                },
        decreases n - j,
    {
        match parents[j] {
            Some(p) => {
                if p >= n {
                    proof {
                        assert(!parents_in_range(parents@)) by {
                            assert(match parents@[j as int] {
                                Some(p) => p >= n,
                                None => false,
                            });
                        }
                    }
                    return false;
                }
            },
            None => {},
        }
        j += 1;
    }
    let mut i: usize = 0;
    while i < n
        invariant
            i <= n,
            n == parents@.len(),
            parents_in_range(parents@),
            forall|b: usize| b < i ==> bone_rooted_within(parents@, b, n as nat),
        decreases n - i,
    {
        let mut cur: Option<usize> = Some(i);
        let mut steps: usize = 0;
        proof {
            assert(bone_ancestor(parents@, i, 0) == Some(i));
        }
        while steps < n && cur.is_some()
            invariant
                i < n,
                n == parents@.len(),
                parents_in_range(parents@),
                steps <= n,
                cur == bone_ancestor(parents@, i, steps as nat),
                forall|k: nat| k < steps ==> #[trigger] bone_ancestor(parents@, i, k) is Some,
            decreases n - steps,
        {
            proof {
                lemma_bone_ancestor_in_range(parents@, i, steps as nat);
            }
            let a = cur.unwrap();
            cur = parents[a];
            proof {
                assert(bone_ancestor(parents@, i, (steps + 1) as nat) == parents@[a as int]);
            }
            steps += 1;
        }
        if cur.is_some() {
            proof {
                assert forall|k: nat| k <= n implies !(#[trigger] bone_ancestor(
                    parents@,
                    i,
                    k,
                ) is None) by {
                    if k == n {
                        assert(cur is Some);
                    }
                }
                assert(!bone_rooted_within(parents@, i, n as nat));
            }
            return false;
        }
        proof {
            assert(bone_ancestor(parents@, i, steps as nat) is None);
        }
        i += 1;
    }
    proof {
        assert forall|b: usize| b < n implies bone_rooted(parents@, b) by {
            assert(bone_rooted_within(parents@, b, n as nat));
            let k = choose|k: nat| k <= n && #[trigger] bone_ancestor(parents@, b, k) is None;
            assert(bone_ancestor(parents@, b, k) is None);
        }
    }
    true
}

/// Once the walk has left the skeleton it stays out.
proof fn lemma_bone_none_stays(parents: Seq<Option<usize>>, i: usize, j: nat, k: nat)
    requires
        j <= k,
        bone_ancestor(parents, i, j) is None,
    ensures
        bone_ancestor(parents, i, k) is None,
    decreases k - j,
{
    if j < k {
        lemma_bone_none_stays(parents, i, j, (k - 1) as nat);
    }
}

} // verus!
