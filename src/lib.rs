//! A van Emde Boas tree: an ordered set of integers drawn from `[0, universe)`,
//! with membership, insertion, deletion, minimum, maximum and successor queries.
//!
//! Each node over a universe larger than two splits its domain into `s` clusters
//! of `s` values each, where `s` is the least power of two with `s * s` at least
//! the universe; a summary node over `[0, s)` records which clusters are
//! non-empty. The smallest element of a node lives only in its `min` cache and
//! is never stored in a cluster.

use vstd::prelude::*;
use vstd::pervasive::VecAdditionalExecFns;

pub mod laws;

verus! {

broadcast use vstd::std_specs::vec::group_vec_axioms;

/// What construction and the mutators report on input they cannot take.
#[derive(Debug, Clone, Copy, PartialEq, Eq, Structural)]
pub enum VebError {
    /// The universe asked for holds fewer than two values.
    InvalidUniverse,
    /// The universe asked for exceeds the addressable index range.
    UniverseTooLarge,
    /// A value lies outside `[0, universe)`.
    OutOfRange,
}

/// The value that `minimum` and `maximum` report for an empty set.
pub const ABSENT: i64 = -1;

/// A node over `[0, universe)`. Above a universe of two it owns a summary node and
/// `sqrt_universe` cluster slots, each empty or holding a node over `[0, sqrt_universe)`;
/// `min` and `max` are `ABSENT` exactly when the node holds nothing.
pub struct VEBTree {
    children: Vec<Option<Box<VEBTree>>>,
    summary: Option<Box<VEBTree>>,
    min: i64,
    max: i64,
    universe: i64,
    sqrt_universe: i64,
}

/// `m` is the least element of `s`.
pub open spec fn is_least(s: Set<int>, m: int) -> bool {
    s.contains(m) && forall|e: int| #[trigger] s.contains(e) ==> m <= e
}

/// `m` is the greatest element of `s`.
pub open spec fn is_greatest(s: Set<int>, m: int) -> bool {
    s.contains(m) && forall|e: int| #[trigger] s.contains(e) ==> e <= m
}

/// `v` is the least element of `s` strictly greater than `x`.
pub open spec fn is_successor(s: Set<int>, x: int, v: int) -> bool {
    s.contains(v) && x < v && forall|e: int| #[trigger] s.contains(e) && x < e ==> v <= e
}

/// What `find_next(x)` answers on the set `s`.
pub open spec fn successor_answer(s: Set<int>, x: int, r: Option<i64>) -> bool {
    match r {
        Some(v) => is_successor(s, x, v as int),
        None => forall|e: int| #[trigger] s.contains(e) ==> e <= x,
    }
}

/// What `minimum()` answers on the set `s`.
pub open spec fn minimum_answer(s: Set<int>, r: i64) -> bool {
    if s.is_empty() { r == ABSENT } else { is_least(s, r as int) }
}

/// What `maximum()` answers on the set `s`.
pub open spec fn maximum_answer(s: Set<int>, r: i64) -> bool {
    if s.is_empty() { r == ABSENT } else { is_greatest(s, r as int) }
}

/// `n` is a power of two.
pub open spec fn is_pow2(n: int) -> bool
    decreases n,
{
    if n <= 0 {
        false
    } else if n == 1 {
        true
    } else {
        n % 2 == 0 && is_pow2(n / 2)
    }
}

/// A value is rebuilt from its quotient and remainder.
proof fn lemma_split(x: int, s: int)
    requires
        0 <= x,
        0 < s,
    ensures
        x == (x / s) * s + x % s,
        0 <= x % s < s,
        0 <= x / s,
{
    vstd::arithmetic::div_mod::lemma_fundamental_div_mod(x, s);
}

/// A (quotient, remainder) pair is recovered from the value it builds.
proof fn lemma_join(i: int, j: int, s: int)
    requires
        0 <= i,
        0 <= j < s,
    ensures
        (i * s + j) / s == i,
        (i * s + j) % s == j,
        0 <= i * s + j,
{
    vstd::arithmetic::div_mod::lemma_fundamental_div_mod_converse(i * s + j, s, i, j);
    assert(0 <= i * s) by (nonlinear_arith)
        requires
            0 <= i,
            0 < s,
    ;
}

/// Below `s * s`, the quotient by `s` is a valid cluster index.
proof fn lemma_high_bound(x: int, s: int)
    requires
        0 <= x < s * s,
        0 < s,
    ensures
        x / s < s,
{
    lemma_split(x, s);
    assert(x / s < s) by (nonlinear_arith)
        requires
            x == (x / s) * s + x % s,
            0 <= x % s,
            x < s * s,
            0 < s,
    ;
}

/// Values split into (cluster, offset) pairs order lexicographically.
proof fn lemma_lex(i: int, j: int, k: int, l: int, s: int)
    requires
        0 <= j < s,
        0 <= l < s,
    ensures
        i < k ==> i * s + j < k * s + l,
        i == k && j < l ==> i * s + j < k * s + l,
{
    if i < k {
        assert(i * s + s <= k * s) by (nonlinear_arith)
            requires
                i < k,
                0 < s,
        ;
    }
}

impl VEBTree {
    /// The universe that this node was built over.
    pub closed spec fn spec_universe(&self) -> int {
        self.universe as int
    }

    /// Whether `x` is an element of the set that this node holds.
    pub closed spec fn holds(&self, x: int) -> bool
        decreases self,
    {
        if self.min < 0 {
            false
        } else if x == self.min || x == self.max {
            true
        } else if self.universe <= 2 || x < 0 || self.sqrt_universe <= 0 {
            false
        } else if x / (self.sqrt_universe as int) < self.children.len() {
            match self.children@[x / (self.sqrt_universe as int)] {
                Some(c) => c.holds(x % (self.sqrt_universe as int)),
                None => false,
            }
        } else {
            false
        }
    }

    /// The structural invariant of a node and of all nodes below it.
    pub closed spec fn wf(&self) -> bool
        decreases self,
    {
        &&& 2 <= self.universe <= isize::MAX
        &&& -1 <= self.min <= self.max < self.universe
        &&& (self.min == -1) == (self.max == -1)
        &&& if self.universe == 2 {
            &&& self.children.len() == 0
            &&& self.summary is None
        } else {
            let s = self.sqrt_universe as int;
            &&& 2 <= s < self.universe <= s * s
            &&& is_pow2(s)
            &&& (s / 2) * (s / 2) < self.universe
            &&& self.children.len() == s
            &&& self.summary is Some
            &&& self.summary.unwrap().wf()
            &&& self.summary.unwrap().universe == s
            &&& forall|i: int|
                0 <= i < s ==> (#[trigger] self.children@[i] is Some
                    <==> self.summary.unwrap().holds(i))
            &&& forall|i: int|
                0 <= i < s && #[trigger] self.children@[i] is Some ==> {
                    &&& self.children@[i].unwrap().wf()
                    &&& self.children@[i].unwrap().universe == s
                    &&& self.children@[i].unwrap().min >= 0
                }
            &&& forall|i: int, j: int|
                0 <= i < s && self.children@[i] is Some && #[trigger] self.children@[i].unwrap().holds(j)
                    ==> self.min < i * s + j <= self.max && i * s + j < self.universe
            &&& self.min == self.max ==> forall|i: int| 0 <= i < s ==> #[trigger] self.children@[i] is None
            &&& self.min < self.max ==> {
                &&& self.children@[(self.max as int) / s] is Some
                &&& self.children@[(self.max as int) / s].unwrap().holds((self.max as int) % s)
            }
        }
    }
}

impl VEBTree {
    /// Every element of a well-formed tree lies in `[0, universe)`.
    pub proof fn lemma_elements_in_universe(&self)
        requires
            self.wf(),
        ensures
            forall|x: int| #[trigger] self@.contains(x) ==> 0 <= x < self.spec_universe(),
    {
        self.lemma_bounds();
    }

    /// Every element lies between the cached minimum and maximum, and both are elements.
    proof fn lemma_bounds(&self)
        requires
            self.wf(),
        ensures
            forall|x: int| #[trigger] self.holds(x) ==> self.min <= x <= self.max && 0 <= x < self.universe,
            self.min >= 0 ==> self.holds(self.min as int) && self.holds(self.max as int),
            self.min < 0 ==> self@ == Set::<int>::empty(),
            self.min >= 0 ==> is_least(self@, self.min as int) && is_greatest(self@, self.max as int),
    {
        assert forall|x: int| #[trigger] self.holds(x) implies self.min <= x <= self.max && 0 <= x < self.universe by {
            if x != self.min && x != self.max {
                let s = self.sqrt_universe as int;
                lemma_split(x, s);
                assert(self.children@[x / s].unwrap().holds(x % s));
            }
        }
        if self.min < 0 {
            assert(self@ =~= Set::<int>::empty());
        }
    }

    /// An element other than the cached minimum sits in the cluster that its high part names.
    proof fn lemma_member_in_cluster(&self, e: int)
        requires
            self.wf(),
            self.universe > 2,
            self.holds(e),
            e != self.min,
        ensures
            0 <= e / (self.sqrt_universe as int) < self.sqrt_universe,
            0 <= e % (self.sqrt_universe as int) < self.sqrt_universe,
            e == (e / (self.sqrt_universe as int)) * self.sqrt_universe + e % (self.sqrt_universe as int),
            self.children@[e / (self.sqrt_universe as int)] is Some,
            self.children@[e / (self.sqrt_universe as int)].unwrap().holds(e % (self.sqrt_universe as int)),
    {
        self.lemma_bounds();
        lemma_split(e, self.sqrt_universe as int);
        lemma_high_bound(e, self.sqrt_universe as int);
    }

    /// A value held by a cluster, rebuilt from its cluster index and offset, is an element.
    proof fn lemma_cluster_member(&self, k: int, l: int)
        requires
            self.wf(),
            self.universe > 2,
            0 <= k < self.sqrt_universe,
            self.children@[k] is Some,
            self.children@[k].unwrap().holds(l),
        ensures
            self.holds(k * self.sqrt_universe + l),
            self.min < k * self.sqrt_universe + l <= self.max,
            0 <= l < self.sqrt_universe,
    {
        let s = self.sqrt_universe as int;
        self.children@[k].unwrap().lemma_bounds();
        lemma_join(k, l, s);
        assert(self.min >= 0);
    }

    /// How a node over a universe above two changes when `insert_value(x)` pushes `v`
    /// into its cluster `v / s`.
    closed spec fn insert_step(o: VEBTree, n: VEBTree, x: int, v: int) -> bool {
        let s = o.sqrt_universe as int;
        let i = v / s;
        let j = v % s;
        &&& o.wf()
        &&& o.universe > 2
        &&& o.min >= 0
        &&& 0 <= x < o.universe
        &&& x != o.min
        &&& x != o.max
        &&& n.universe == o.universe
        &&& n.sqrt_universe == o.sqrt_universe
        &&& n.min == (if x < o.min { x } else { o.min as int })
        &&& v == (if x < o.min { o.min as int } else { x })
        &&& n.max == (if v > o.max { v } else { o.max as int })
        &&& n.children@ == o.children@.update(i, n.children@[i])
        &&& n.children@[i] is Some
        &&& n.children@[i].unwrap().wf()
        &&& n.children@[i].unwrap().universe == s
        &&& n.children@[i].unwrap()@ == (if o.children@[i] is Some {
            o.children@[i].unwrap()@
        } else {
            Set::<int>::empty()
        }).insert(j)
        &&& n.summary is Some
        &&& n.summary.unwrap().wf()
        &&& n.summary.unwrap().universe == s
        &&& n.summary.unwrap()@ == o.summary.unwrap()@.insert(i)
    }

    /// An insertion step keeps the invariant.
    proof fn lemma_insert_wf(o: VEBTree, n: VEBTree, x: int, v: int)
        requires
            VEBTree::insert_step(o, n, x, v),
        ensures
            n.wf(),
    {
        let s = o.sqrt_universe as int;
        let i = v / s;
        let j = v % s;
        o.lemma_bounds();
        lemma_split(v, s);
        lemma_high_bound(v, s);
        let c = n.children@[i].unwrap();
        c.lemma_bounds();
        assert(c@.contains(j));
        assert forall|k: int| 0 <= k < s implies (#[trigger] n.children@[k] is Some
            <==> n.summary.unwrap().holds(k)) by {
            assert(n.summary.unwrap()@.contains(k) == n.summary.unwrap().holds(k));
            assert(o.summary.unwrap()@.contains(k) == o.summary.unwrap().holds(k));
        }
        assert forall|k: int| 0 <= k < s && #[trigger] n.children@[k] is Some implies {
            &&& n.children@[k].unwrap().wf()
            &&& n.children@[k].unwrap().universe == s
            &&& n.children@[k].unwrap().min >= 0
        } by {
            if k == i {
                assert(c@.contains(j));
            }
        }
        assert forall|k: int, l: int|
            0 <= k < s && n.children@[k] is Some && #[trigger] n.children@[k].unwrap().holds(l)
            implies n.min < k * s + l <= n.max && k * s + l < n.universe by {
            if k == i {
                assert(c@.contains(l));
                if l != j {
                    assert(o.children@[i].unwrap()@.contains(l));
                }
            }
        }
        if n.max == v {
            assert(n.children@[(n.max as int) / s].unwrap().holds((n.max as int) % s));
        } else {
            let km = (o.max as int) / s;
            let lm = (o.max as int) % s;
            o.lemma_member_in_cluster(o.max as int);
            if km == i {
                assert(o.children@[i].unwrap()@.contains(lm));
                assert(c@.contains(lm));
            }
        }
    }

    /// An insertion step adds exactly `x` to the elements.
    proof fn lemma_insert_view(o: VEBTree, n: VEBTree, x: int, v: int)
        requires
            VEBTree::insert_step(o, n, x, v),
            n.wf(),
        ensures
            n@ == o@.insert(x),
    {
        let s = o.sqrt_universe as int;
        let i = v / s;
        let j = v % s;
        o.lemma_bounds();
        n.lemma_bounds();
        lemma_split(v, s);
        lemma_high_bound(v, s);
        let c = n.children@[i].unwrap();
        assert forall|y: int| n.holds(y) <==> o.holds(y) || y == x by {
            if n.holds(y) && y != n.min {
                n.lemma_member_in_cluster(y);
                let k = y / s;
                let l = y % s;
                if k == i {
                    assert(c@.contains(l));
                    if l != j {
                        assert(o.children@[i].unwrap()@.contains(l));
                        o.lemma_cluster_member(k, l);
                    }
                } else {
                    o.lemma_cluster_member(k, l);
                }
            }
            if y == v {
                assert(c@.contains(j));
                n.lemma_cluster_member(i, j);
            }
            if o.holds(y) && y != o.min && y != v {
                o.lemma_member_in_cluster(y);
                let k = y / s;
                let l = y % s;
                if k == i {
                    assert(o.children@[i].unwrap()@.contains(l));
                    assert(c@.contains(l));
                }
                n.lemma_cluster_member(k, l);
            }
        }
        assert(n@ =~= o@.insert(x));
    }

    /// How a node over a universe above two with at least two elements changes when
    /// `delete_value(x)` removes `v` from its cluster `v / s`: `v` is `x`, or the least
    /// element above the minimum when `x` is the minimum.
    closed spec fn delete_step(o: VEBTree, n: VEBTree, x: int, v: int) -> bool {
        let s = o.sqrt_universe as int;
        let k = n.summary.unwrap().max as int;
        &&& VEBTree::delete_clusters_step(o, n, x, v)
        &&& n.max == (if v == o.max {
            if n.summary.unwrap().min < 0 { n.min as int } else { k * s + n.children@[k].unwrap().max }
        } else {
            o.max as int
        })
    }

    /// The part of `delete_step` that concerns the clusters and the summary.
    closed spec fn delete_clusters_step(o: VEBTree, n: VEBTree, x: int, v: int) -> bool {
        let s = o.sqrt_universe as int;
        let i = v / s;
        let j = v % s;
        let c0 = o.summary.unwrap().min as int;
        let k = n.summary.unwrap().max as int;
        &&& o.wf()
        &&& o.universe > 2
        &&& o.min < o.max
        &&& o.holds(x)
        &&& n.universe == o.universe
        &&& n.sqrt_universe == o.sqrt_universe
        &&& v == (if x == o.min { c0 * s + o.children@[c0].unwrap().min } else { x })
        &&& n.min == (if x == o.min { v } else { o.min as int })
        &&& 0 <= i < s
        &&& n.children@ == o.children@.update(i, n.children@[i])
        &&& if o.children@[i].unwrap()@.remove(j).is_empty() {
            &&& n.children@[i] is None
            &&& n.summary.unwrap()@ == o.summary.unwrap()@.remove(i)
        } else {
            &&& n.children@[i] is Some
            &&& n.children@[i].unwrap()@ == o.children@[i].unwrap()@.remove(j)
            &&& n.summary.unwrap()@ == o.summary.unwrap()@
        }
        &&& n.children@[i] is Some ==> n.children@[i].unwrap().wf() && n.children@[i].unwrap().universe == s
        &&& n.summary is Some
        &&& n.summary.unwrap().wf()
        &&& n.summary.unwrap().universe == s
    }

    /// The value that `delete_value` takes out of a cluster is an element held there,
    /// and when `x` is the minimum it is the least of the other elements.
    proof fn lemma_delete_target(o: VEBTree, x: int, v: int)
        requires
            o.wf(),
            o.universe > 2,
            o.min < o.max,
            o.holds(x),
            v == (if x == o.min {
                (o.summary.unwrap().min as int) * o.sqrt_universe + o.children@[o.summary.unwrap().min as int].unwrap().min
            } else {
                x
            }),
        ensures
            o.holds(v),
            v != o.min,
            0 <= v / (o.sqrt_universe as int) < o.sqrt_universe,
            o.children@[v / (o.sqrt_universe as int)] is Some,
            o.children@[v / (o.sqrt_universe as int)].unwrap().holds(v % (o.sqrt_universe as int)),
            x == o.min ==> forall|e: int| #[trigger] o.holds(e) && e != o.min ==> v <= e,
    {
        let s = o.sqrt_universe as int;
        o.lemma_bounds();
        let sm = o.summary.unwrap();
        sm.lemma_bounds();
        o.lemma_member_in_cluster(o.max as int);
        assert(sm.holds((o.max as int) / s));
        if x == o.min {
            let c0 = sm.min as int;
            assert(o.children@[c0] is Some);
            let c = o.children@[c0].unwrap();
            c.lemma_bounds();
            o.lemma_cluster_member(c0, c.min as int);
            lemma_join(c0, c.min as int, s);
            assert forall|e: int| #[trigger] o.holds(e) && e != o.min implies v <= e by {
                o.lemma_member_in_cluster(e);
                let k = e / s;
                let l = e % s;
                assert(sm.holds(k));
                lemma_lex(c0, c.min as int, k, l, s);
                if k == c0 {
                    assert(c.holds(l));
                }
            }
        } else {
            o.lemma_member_in_cluster(x);
        }
    }

    /// The facts about a node's clusters and summary that rebuilding its maximum relies on.
    closed spec fn clusters_ok(&self) -> bool {
        let s = self.sqrt_universe as int;
        &&& self.universe > 2
        &&& self.min >= 0
        &&& 2 <= s
        &&& self.children.len() == s
        &&& self.summary is Some
        &&& self.summary.unwrap().wf()
        &&& self.summary.unwrap().universe == s
        &&& forall|k: int| 0 <= k < s ==> (#[trigger] self.children@[k] is Some
            <==> self.summary.unwrap().holds(k))
        &&& forall|k: int| 0 <= k < s && #[trigger] self.children@[k] is Some ==> {
            &&& self.children@[k].unwrap().wf()
            &&& self.children@[k].unwrap().universe == s
            &&& self.children@[k].unwrap().min >= 0
        }
        &&& forall|k: int, l: int|
            0 <= k < s && self.children@[k] is Some && #[trigger] self.children@[k].unwrap().holds(l)
            ==> k * s + l < self.universe
    }

    /// After a deletion step the clusters and summary agree, and every value left in a
    /// cluster was an element other than `v`, above the new minimum.
    proof fn lemma_delete_clusters(o: VEBTree, n: VEBTree, x: int, v: int)
        requires
            VEBTree::delete_clusters_step(o, n, x, v),
        ensures
            n.clusters_ok(),
            forall|k: int, l: int|
                0 <= k < o.sqrt_universe && n.children@[k] is Some && #[trigger] n.children@[k].unwrap().holds(l)
                ==> o.holds(k * o.sqrt_universe + l) && k * o.sqrt_universe + l != v
                    && n.min < k * o.sqrt_universe + l,
    {
        let s = o.sqrt_universe as int;
        let i = v / s;
        let j = v % s;
        VEBTree::lemma_delete_target(o, x, v);
        o.lemma_bounds();
        lemma_split(v, s);
        let oc = o.children@[i].unwrap();
        let osm = o.summary.unwrap();
        let nsm = n.summary.unwrap();
        if n.children@[i] is Some {
            n.children@[i].unwrap().lemma_bounds();
            assert(!oc@.remove(j).is_empty());
        }
        assert forall|k: int| 0 <= k < s implies (#[trigger] n.children@[k] is Some
            <==> nsm.holds(k)) by {
            assert(nsm@.contains(k) == nsm.holds(k));
            assert(osm@.contains(k) == osm.holds(k));
        }
        assert forall|k: int| 0 <= k < s && #[trigger] n.children@[k] is Some implies {
            &&& n.children@[k].unwrap().wf()
            &&& n.children@[k].unwrap().universe == s
            &&& n.children@[k].unwrap().min >= 0
        } by {
            if k == i {
                let e = choose|e: int| oc@.remove(j).contains(e);
                assert(n.children@[i].unwrap()@.contains(e));
            }
        }
        assert forall|k: int, l: int|
            0 <= k < s && n.children@[k] is Some && #[trigger] n.children@[k].unwrap().holds(l)
            implies o.holds(k * s + l) && k * s + l != v && n.min < k * s + l && k * s + l < n.universe by {
            if k == i {
                assert(n.children@[i].unwrap()@.contains(l));
                assert(oc@.contains(l));
            }
            o.lemma_cluster_member(k, l);
            lemma_join(k, l, s);
        }
    }

    /// A deletion step keeps the invariant.
    proof fn lemma_delete_wf(o: VEBTree, n: VEBTree, x: int, v: int)
        requires
            VEBTree::delete_step(o, n, x, v),
        ensures
            n.wf(),
    {
        let s = o.sqrt_universe as int;
        let i = v / s;
        let j = v % s;
        VEBTree::lemma_delete_target(o, x, v);
        VEBTree::lemma_delete_clusters(o, n, x, v);
        o.lemma_bounds();
        lemma_split(v, s);
        let oc = o.children@[i].unwrap();
        let nsm = n.summary.unwrap();
        nsm.lemma_bounds();
        let k = nsm.max as int;
        if v == o.max && nsm.min >= 0 {
            assert(n.children@[k] is Some);
            let ck = n.children@[k].unwrap();
            ck.lemma_bounds();
            assert(ck.holds(ck.max as int));
            lemma_join(k, ck.max as int, s);
        }
        assert forall|k2: int, l: int|
            0 <= k2 < s && n.children@[k2] is Some && #[trigger] n.children@[k2].unwrap().holds(l)
            implies k2 * s + l <= n.max by {
            if v == o.max {
                assert(nsm@.contains(k2));
                let ck = n.children@[k].unwrap();
                n.children@[k2].unwrap().lemma_bounds();
                ck.lemma_bounds();
                lemma_lex(k2, l, k, ck.max as int, s);
            } else {
                assert(o.holds(k2 * s + l));
            }
        }
        if v != o.max {
            let km = (o.max as int) / s;
            let lm = (o.max as int) % s;
            o.lemma_member_in_cluster(o.max as int);
            if km == i {
                assert(oc@.remove(j).contains(lm));
                assert(n.children@[i].unwrap()@.contains(lm));
            }
        } else if nsm.min < 0 {
            assert forall|k2: int| 0 <= k2 < s implies #[trigger] n.children@[k2] is None by {
                assert(!nsm@.contains(k2));
            }
        }
    }

    /// A deletion step removes exactly `x` from the elements.
    proof fn lemma_delete_view(o: VEBTree, n: VEBTree, x: int, v: int)
        requires
            VEBTree::delete_step(o, n, x, v),
            n.wf(),
        ensures
            n@ == o@.remove(x),
    {
        let s = o.sqrt_universe as int;
        let i = v / s;
        let j = v % s;
        VEBTree::lemma_delete_target(o, x, v);
        o.lemma_bounds();
        lemma_split(v, s);
        n.lemma_bounds();
        let oc = o.children@[i].unwrap();
        assert forall|y: int| n.holds(y) <==> o.holds(y) && y != x by {
            if n.holds(y) && y != n.min {
                n.lemma_member_in_cluster(y);
                let k = y / s;
                let l = y % s;
                if k == i {
                    assert(n.children@[i].unwrap()@.contains(l));
                    assert(oc@.contains(l));
                }
                o.lemma_cluster_member(k, l);
            }
            if o.holds(y) && y != x && y != o.min && y != v {
                o.lemma_member_in_cluster(y);
                let k = y / s;
                let l = y % s;
                if k == i {
                    assert(oc@.remove(j).contains(l));
                    assert(n.children@[i].unwrap()@.contains(l));
                }
                n.lemma_cluster_member(k, l);
            }
        }
        assert(n@ =~= o@.remove(x));
    }
}

impl VEBTree {
    /// `a` is a copy of `b`: the same universe, caches and elements, and well formed
    /// whenever `b` is.
    pub closed spec fn copy_of(a: VEBTree, b: VEBTree) -> bool {
        &&& a.universe == b.universe
        &&& a.sqrt_universe == b.sqrt_universe
        &&& a.min == b.min
        &&& a.max == b.max
        &&& a@ == b@
        &&& b.wf() ==> a.wf()
    }

    /// Two cluster slots are both empty, or hold copies.
    closed spec fn slot_copy(a: Option<Box<VEBTree>>, b: Option<Box<VEBTree>>) -> bool {
        &&& (a is Some) == (b is Some)
        &&& b is Some ==> VEBTree::copy_of(*a.unwrap(), *b.unwrap())
    }

    /// A node whose fields and slots are copies of another's is a copy of it.
    proof fn lemma_copy(a: VEBTree, b: VEBTree)
        requires
            a.universe == b.universe,
            a.sqrt_universe == b.sqrt_universe,
            a.min == b.min,
            a.max == b.max,
            a.children.len() == b.children.len(),
            forall|i: int| 0 <= i < b.children.len() ==> VEBTree::slot_copy(#[trigger] a.children@[i], b.children@[i]),
            VEBTree::slot_copy(a.summary, b.summary),
        ensures
            VEBTree::copy_of(a, b),
    {
        let s = b.sqrt_universe as int;
        assert forall|x: int| a.holds(x) == b.holds(x) by {
            if b.min >= 0 && x != b.min && x != b.max && b.universe > 2 && x >= 0 && s > 0 && x / s < b.children.len() {
                assert(VEBTree::slot_copy(a.children@[x / s], b.children@[x / s]));
                if b.children@[x / s] is Some {
                    assert(a.children@[x / s].unwrap()@.contains(x % s) == b.children@[x / s].unwrap()@.contains(x % s));
                }
            }
        }
        assert(a@ =~= b@);
        if b.wf() && b.universe > 2 {
            let sa = a.summary.unwrap();
            let sb = b.summary.unwrap();
            assert forall|i: int| 0 <= i < s implies (#[trigger] a.children@[i] is Some <==> sa.holds(i)) by {
                assert(VEBTree::slot_copy(a.children@[i], b.children@[i]));
                assert(sa@.contains(i) == sb@.contains(i));
            }
            assert forall|i: int| 0 <= i < s && #[trigger] a.children@[i] is Some implies {
                &&& a.children@[i].unwrap().wf()
                &&& a.children@[i].unwrap().universe == s
                &&& a.children@[i].unwrap().min >= 0
            } by {
                assert(VEBTree::slot_copy(a.children@[i], b.children@[i]));
            }
            assert forall|i: int, j: int| 0 <= i < s && a.children@[i] is Some
                && #[trigger] a.children@[i].unwrap().holds(j)
                implies a.min < i * s + j <= a.max && i * s + j < a.universe by {
                assert(VEBTree::slot_copy(a.children@[i], b.children@[i]));
                assert(a.children@[i].unwrap()@.contains(j) == b.children@[i].unwrap()@.contains(j));
            }
            if a.min == a.max {
                assert forall|i: int| 0 <= i < s implies #[trigger] a.children@[i] is None by {
                    assert(VEBTree::slot_copy(a.children@[i], b.children@[i]));
                }
            }
            if a.min < a.max {
                let km = (a.max as int) / s;
                let lm = (a.max as int) % s;
                lemma_split(a.max as int, s);
                lemma_high_bound(a.max as int, s);
                assert(VEBTree::slot_copy(a.children@[km], b.children@[km]));
                assert(a.children@[km].unwrap()@.contains(lm) == b.children@[km].unwrap()@.contains(lm));
            }
        }
    }
}

impl Clone for VEBTree {
    /// A deep copy: the copy owns clusters and a summary of its own, holding the same
    /// elements as these.
    fn clone(&self) -> (r: Self)
        ensures
            VEBTree::copy_of(r, *self),
            r@ == self@,
            r.spec_universe() == self.spec_universe(),
            self.wf() ==> r.wf(),
        decreases self,
    {
        let mut children: Vec<Option<Box<VEBTree>>> = Vec::new();
        let mut i: usize = 0;
        while i < self.children.len()
            invariant
                i <= self.children.len(),
                children.len() == i,
                forall|k: int| 0 <= k < i ==> VEBTree::slot_copy(#[trigger] children@[k], self.children@[k]),
            decreases self.children.len() - i,
        {
            let slot = match &self.children[i] {
                Some(c) => {
                    proof { assert(decreases_to!(self => self.children@[i as int])); }
                    Some(Box::new((**c).clone()))
                },
                None => None,
            };
            children.push(slot);
            i = i + 1;
        }
        let summary = match &self.summary {
            Some(sm) => Some(Box::new((**sm).clone())),
            None => None,
        };
        let r = VEBTree {
            children,
            summary,
            min: self.min,
            max: self.max,
            universe: self.universe,
            sqrt_universe: self.sqrt_universe,
        };
        proof { VEBTree::lemma_copy(r, *self); }
        r
    }
}

impl VEBTree {
    /// What `find_subtree(x)` answers: the least element whose cluster comes after the
    /// cluster of `x`, or `None` when there is no such element.
    closed spec fn later_cluster_answer(&self, x: int, r: Option<i64>) -> bool {
        let s = self.sqrt_universe as int;
        match r {
            Some(v) => {
                &&& self@.contains(v as int)
                &&& (v as int) / s > x / s
                &&& forall|e: int| #[trigger] self@.contains(e) && e / s > x / s ==> v <= e
            },
            None => forall|e: int| #[trigger] self@.contains(e) ==> e / s <= x / s,
        }
    }

    /// When the cluster of `x` holds nothing above `x`, the least element of a later
    /// cluster is the successor of `x`.
    proof fn lemma_later_cluster_is_successor(&self, x: int, r: Option<i64>)
        requires
            self.wf(),
            self.universe > 2,
            self.min >= 0,
            self.min <= x < self.universe,
            self.children@[x / (self.sqrt_universe as int)] is None
                || x % (self.sqrt_universe as int) >= self.children@[x / (self.sqrt_universe as int)].unwrap().max,
            self.later_cluster_answer(x, r),
        ensures
            successor_answer(self@, x, r),
    {
        let s = self.sqrt_universe as int;
        let i = x / s;
        let j = x % s;
        self.lemma_bounds();
        lemma_split(x, s);
        assert forall|e: int| #[trigger] self@.contains(e) && x < e implies e / s > i by {
            vstd::arithmetic::div_mod::lemma_div_is_ordered(x, e, s);
            if e / s == i {
                self.lemma_member_in_cluster(e);
                let l = e % s;
                self.children@[i].unwrap().lemma_bounds();
                lemma_lex(i, l, i, j, s);
            }
        }
        if r is Some {
            let v = r.unwrap() as int;
            if v <= x {
                vstd::arithmetic::div_mod::lemma_div_is_ordered(v, x, s);
            }
        }
    }
}

impl View for VEBTree {
    type V = Set<int>;

    closed spec fn view(&self) -> Set<int> {
        Set::new(|x: int| self.holds(x))
    }
}

impl VEBTree {
    /// The index of the cluster that holds `x`.
    fn high(&self, x: i64) -> (r: i64)
        requires
            0 < self.sqrt_universe,
            0 <= x,
        ensures
            r == x / self.sqrt_universe,
    {
        x / self.sqrt_universe
    }

    /// The position of `x` within its cluster.
    fn low(&self, x: i64) -> (r: i64)
        requires
            0 < self.sqrt_universe,
            0 <= x,
        ensures
            r == x % self.sqrt_universe,
    {
        x % self.sqrt_universe
    }

    /// The value at position `j` of cluster `i`.
    fn index(&self, i: i64, j: i64) -> (r: i64)
        requires
            0 < self.sqrt_universe,
            0 <= i,
            0 <= j < self.sqrt_universe,
            i * self.sqrt_universe + j <= i64::MAX,
        ensures
            r == i * self.sqrt_universe + j,
            r / self.sqrt_universe == i,
            r % self.sqrt_universe == j,
    {
        proof {
            lemma_join(i as int, j as int, self.sqrt_universe as int);
            assert(0 <= i * self.sqrt_universe) by (nonlinear_arith)
                requires
                    0 <= i,
                    0 < self.sqrt_universe,
            ;
        }
        i * self.sqrt_universe + j
    }

    /// An empty node over `[0, universe)`.
    fn empty_node(universe: i64) -> (t: VEBTree)
        requires
            2 <= universe <= isize::MAX,
        ensures
            t.wf(),
            t.universe == universe,
            t.min == -1,
            t@ == Set::<int>::empty(),
        decreases universe,
    {
        if universe == 2 {
            let t = VEBTree {
                children: Vec::new(),
                summary: None,
                min: -1,
                max: -1,
                universe,
                sqrt_universe: 1,
            };
            proof { t.lemma_bounds(); }
            return t;
        }
        let mut h: i64 = 1;
        let mut s: i64 = 2;
        while s <= (universe - 1) / s
            invariant
                3 <= universe,
                1 <= h,
                s == 2 * h,
                s <= 0x2_0000_0000,
                is_pow2(h as int),
                h == 1 || h * h < universe,
            decreases universe - h,
        {
            proof { lemma_split(universe - 1, s as int); }
            assert(s * s < universe) by (nonlinear_arith)
                requires
                    s <= ((universe - 1) as int) / (s as int),
                    (universe - 1) as int == (((universe - 1) as int) / (s as int)) * s + ((universe - 1) as int) % (s as int),
                    0 <= ((universe - 1) as int) % (s as int),
                    0 < s,
            ;
            assert(s < 0x1_0000_0000 && s < universe) by (nonlinear_arith)
                requires
                    s * s < universe,
                    universe <= i64::MAX,
                    2 <= s,
            ;
            h = s;
            s = s * 2;
            assert(is_pow2(h as int));
        }
        assert(is_pow2(s as int));
        assert((s / 2) * (s / 2) < universe) by (nonlinear_arith)
            requires
                s == 2 * h,
                1 <= h,
                h == 1 || h * h < universe,
                3 <= universe,
        ;
        proof { lemma_split(universe - 1, s as int); }
        assert(universe <= s * s) by (nonlinear_arith)
            requires
                s > ((universe - 1) as int) / (s as int),
                (universe - 1) as int == (((universe - 1) as int) / (s as int)) * s + ((universe - 1) as int) % (s as int),
                ((universe - 1) as int) % (s as int) < s,
                0 < s,
        ;
        assert(s < universe) by (nonlinear_arith)
            requires
                s == 2 * h,
                1 <= h,
                h == 1 || h * h < universe,
                3 <= universe,
        ;
        assert(s as usize == s);
        let summary = VEBTree::empty_node(s);
        let mut children: Vec<Option<Box<VEBTree>>> = Vec::new();
        while children.len() < s as usize
            invariant
                2 <= s < universe,
                children.len() <= s,
                forall|i: int| 0 <= i < children.len() ==> #[trigger] children@[i] is None,
            decreases s - children.len(),
        {
            children.push(None);
        }
        let t = VEBTree { children, summary: Some(Box::new(summary)), min: -1, max: -1, universe, sqrt_universe: s };
        proof {
            summary.lemma_bounds();
            t.lemma_bounds();
        }
        t
    }

    /// A tree over `[0, universe)` holding no element.
    pub fn new(universe: i64) -> (r: Result<VEBTree, VebError>)
        ensures
            universe <= 1 <==> r == Err::<VEBTree, VebError>(VebError::InvalidUniverse),
            (universe > 1 && universe > isize::MAX) <==> r == Err::<VEBTree, VebError>(VebError::UniverseTooLarge),
            (1 < universe <= isize::MAX) <==> r is Ok,
            r is Ok ==> r.unwrap().wf() && r.unwrap().spec_universe() == universe
                && r.unwrap()@ == Set::<int>::empty(),
    {
        if universe <= 1 {
            Err(VebError::InvalidUniverse)
        } else if universe as i128 > isize::MAX as i128 {
            Err(VebError::UniverseTooLarge)
        } else {
            Ok(VEBTree::empty_node(universe))
        }
    }

    /// The least element, or `ABSENT` on an empty set.
    pub fn minimum(&self) -> (r: i64)
        requires
            self.wf(),
        ensures
            minimum_answer(self@, r),
            r == ABSENT <==> self@.is_empty(),
    {
        proof { self.lemma_bounds(); }
        self.min
    }

    /// The greatest element, or `ABSENT` on an empty set.
    pub fn maximum(&self) -> (r: i64)
        requires
            self.wf(),
        ensures
            maximum_answer(self@, r),
            r == ABSENT <==> self@.is_empty(),
    {
        proof { self.lemma_bounds(); }
        self.max
    }

    /// The size of the domain `[0, universe)` fixed at construction.
    pub fn universe(&self) -> (r: i64)
        ensures
            r == self.spec_universe(),
    {
        self.universe
    }

    /// Whether `x` is an element; `false` for any `x` outside the universe.
    pub fn has(&self, x: i64) -> (r: bool)
        requires
            self.wf(),
        ensures
            r == self@.contains(x as int),
            (x < 0 || x >= self.spec_universe()) ==> !r,
        decreases self.spec_universe(),
    {
        proof { self.lemma_bounds(); }
        if x < 0 || x >= self.universe || self.min < 0 {
            false
        } else if x == self.min || x == self.max {
            true
        } else if self.universe == 2 {
            false
        } else {
            let i = self.high(x);
            proof {
                lemma_split(x as int, self.sqrt_universe as int);
                lemma_high_bound(x as int, self.sqrt_universe as int);
            }
            match &self.children[i as usize] {
                Some(c) => {
                    assert(self.children@[i as int] is Some);
                    c.has(self.low(x))
                },
                None => false,
            }
        }
    }

    /// The least element strictly greater than `x`, or `None` when no element exceeds `x`.
    pub fn find_next(&self, x: i64) -> (r: Option<i64>)
        requires
            self.wf(),
        ensures
            successor_answer(self@, x as int, r),
            x >= self.spec_universe() - 1 ==> r is None,
        decreases self.spec_universe(), 1int,
    {
        proof { self.lemma_bounds(); }
        if self.min < 0 || x >= self.max {
            return None;
        }
        if x < self.min {
            return Some(self.min);
        }
        if self.universe == 2 {
            return Some(self.max);
        }
        let ghost s = self.sqrt_universe as int;
        let i = self.high(x);
        let j = self.low(x);
        proof {
            lemma_split(x as int, s);
            lemma_high_bound(x as int, s);
        }
        let hit = match &self.children[i as usize] {
            Some(c) => j < c.max,
            None => false,
        };
        if !hit {
            let r = self.find_subtree(x);
            proof {
                assert(self.children@[i as int] is None || j >= self.children@[i as int].unwrap().max);
                self.lemma_later_cluster_is_successor(x as int, r);
            }
            return r;
        }
        let c = match &self.children[i as usize] {
            Some(c) => c,
            None => return None,
        };
        proof {
            assert(self.children@[i as int] is Some);
            c.lemma_bounds();
        }
        let w = match c.find_next(j) {
            Some(w) => w,
            None => {
                proof { assert(c@.contains(c.max as int)); }
                return None;
            },
        };
        proof {
            self.lemma_cluster_member(i as int, w as int);
            assert forall|e: int| #[trigger] self@.contains(e) && x < e implies i * s + w <= e by {
                self.lemma_member_in_cluster(e);
                let k = e / s;
                let l = e % s;
                lemma_lex(i as int, j as int, k, l, s);
                lemma_lex(k, l, i as int, j as int, s);
                lemma_lex(i as int, w as int, k, l, s);
                if k == i {
                    assert(c@.contains(l));
                }
            }
        }
        Some(self.index(i, w))
    }

    /// The least element in a cluster after the one that `x` falls in, or `None` when every
    /// element lies in that cluster or an earlier one.
    fn find_subtree(&self, x: i64) -> (r: Option<i64>)
        requires
            self.wf(),
            self.universe > 2,
            self.min >= 0,
            self.min <= x < self.universe,
        ensures
            self.later_cluster_answer(x as int, r),
        decreases self.spec_universe(), 0int,
    {
        proof { self.lemma_bounds(); }
        let ghost s = self.sqrt_universe as int;
        let i = self.high(x);
        proof {
            lemma_split(x as int, s);
            lemma_high_bound(x as int, s);
            vstd::arithmetic::div_mod::lemma_div_is_ordered(self.min as int, x as int, s);
        }
        let sm = match &self.summary {
            Some(sm) => sm,
            None => return None,
        };
        let k = match sm.find_next(i) {
            Some(k) => k,
            None => {
                proof {
                    assert forall|e: int| #[trigger] self@.contains(e) implies e / s <= i by {
                        if e != self.min {
                            self.lemma_member_in_cluster(e);
                            assert(sm@.contains(e / s));
                        }
                    }
                }
                return None;
            },
        };
        proof {
            assert(sm@.contains(k as int));
            sm.lemma_bounds();
            assert(self.children@[k as int] is Some);
        }
        let ck = match &self.children[k as usize] {
            Some(ck) => ck,
            None => return None,
        };
        let m = ck.min;
        proof {
            assert(self.children@[k as int] is Some);
            ck.lemma_bounds();
            self.lemma_cluster_member(k as int, m as int);
            lemma_join(k as int, m as int, s);
            assert forall|e: int| #[trigger] self@.contains(e) && e / s > i implies k * s + m <= e by {
                self.lemma_member_in_cluster(e);
                let k2 = e / s;
                let l = e % s;
                lemma_lex(k as int, m as int, k2, l, s);
                assert(sm@.contains(k2));
                if k2 == k {
                    assert(ck@.contains(l));
                }
            }
        }
        Some(self.index(k, m))
    }

    /// Makes an empty node hold `x` alone, in its cached minimum and maximum.
    fn empty_insert(&mut self, x: i64)
        ensures
            final(self).min == x,
            final(self).max == x,
            final(self).universe == old(self).universe,
            final(self).sqrt_universe == old(self).sqrt_universe,
            final(self).children == old(self).children,
            final(self).summary == old(self).summary,
    {
        self.min = x;
        self.max = x;
    }

    /// Adds `x`, which lies in the node's universe, to the node.
    fn insert_value(&mut self, x: i64)
        requires
            old(self).wf(),
            0 <= x < old(self).universe,
        ensures
            final(self).wf(),
            final(self).universe == old(self).universe,
            final(self)@ == old(self)@.insert(x as int),
        decreases old(self).spec_universe(),
    {
        let ghost o: VEBTree = *self;
        proof { o.lemma_bounds(); }
        if self.min < 0 {
            self.empty_insert(x);
            proof {
                assert(self.wf());
                assert(self@ =~= o@.insert(x as int));
            }
            return;
        }
        if x == self.min || x == self.max {
            proof { assert(self@ =~= o@.insert(x as int)); }
            return;
        }
        let mut v = x;
        if v < self.min {
            v = self.min;
            self.min = x;
        }
        if self.universe > 2 {
            let ghost s = self.sqrt_universe as int;
            let i = self.high(v);
            let j = self.low(v);
            proof {
                lemma_split(v as int, s);
                lemma_high_bound(v as int, s);
            }
            let mut slot: Option<Box<VEBTree>> = None;
            self.children.set_and_swap(i as usize, &mut slot);
            let ghost oc = slot;
            let mut c = match slot {
                Some(c) => c,
                None => {
                    let mut sm: Option<Box<VEBTree>> = None;
                    std::mem::swap(&mut self.summary, &mut sm);
                    let mut smb = sm.unwrap();
                    smb.insert_value(i);
                    self.summary = Some(smb);
                    Box::new(VEBTree::empty_node(self.sqrt_universe))
                },
            };
            proof { assert(o.children@[i as int] is Some ==> c.wf() && c.universe == s); }
            c.insert_value(j);
            self.children.set(i as usize, Some(c));
            if v > self.max {
                self.max = v;
            }
            proof {
                assert(self.summary.unwrap()@ =~= o.summary.unwrap()@.insert(i as int)) by {
                    if oc is Some {
                        assert(o.summary.unwrap()@.contains(i as int));
                    }
                }
                assert(self.children@[i as int].unwrap()@ =~= (if o.children@[i as int] is Some {
                    o.children@[i as int].unwrap()@
                } else {
                    Set::<int>::empty()
                }).insert(j as int)) by {
                    if oc is None {
                        assert(Set::<int>::empty().insert(j as int) =~= c@);
                    }
                }
                assert(self.children@ =~= o.children@.update(i as int, self.children@[i as int]));
                VEBTree::lemma_insert_wf(o, *self, x as int, v as int);
                VEBTree::lemma_insert_view(o, *self, x as int, v as int);
            }
        } else {
            if v > self.max {
                self.max = v;
            }
            proof {
                assert(self.wf());
                assert(self@ =~= o@.insert(x as int));
            }
        }
    }

    /// Adds `x` to the set; a value outside the universe is refused and the set is left as it was.
    pub fn insert(&mut self, x: i64) -> (r: Result<(), VebError>)
        requires
            old(self).wf(),
        ensures
            final(self).wf(),
            final(self).spec_universe() == old(self).spec_universe(),
            (x < 0 || x >= old(self).spec_universe()) <==> r == Err::<(), VebError>(VebError::OutOfRange),
            (0 <= x < old(self).spec_universe()) <==> r is Ok,
            r is Ok ==> final(self)@ == old(self)@.insert(x as int),
            r is Err ==> final(self)@ == old(self)@,
    {
        if x < 0 || x >= self.universe {
            return Err(VebError::OutOfRange);
        }
        self.insert_value(x);
        Ok(())
    }

    /// Removes `x`, which lies in the node's universe, from the node; nothing changes when
    /// `x` is not an element.
    fn delete_value(&mut self, x: i64)
        requires
            old(self).wf(),
            0 <= x < old(self).universe,
        ensures
            final(self).wf(),
            final(self).universe == old(self).universe,
            final(self)@ == old(self)@.remove(x as int),
        decreases old(self).spec_universe(),
    {
        let ghost o: VEBTree = *self;
        proof { o.lemma_bounds(); }
        if !self.has(x) {
            proof { assert(self@ =~= o@.remove(x as int)); }
            return;
        }
        if self.min == self.max {
            self.min = -1;
            self.max = -1;
            proof {
                assert(self.wf());
                assert(self@ =~= o@.remove(x as int));
            }
            return;
        }
        if self.universe == 2 {
            let other: i64 = if x == 0 { 1 } else { 0 };
            self.min = other;
            self.max = other;
            proof {
                assert(self.wf());
                assert(self@ =~= o@.remove(x as int));
            }
            return;
        }
        let ghost s = self.sqrt_universe as int;
        proof {
            o.summary.unwrap().lemma_bounds();
            o.lemma_member_in_cluster(o.max as int);
            assert(o.summary.unwrap().holds((o.max as int) / s));
        }
        let mut v = x;
        if x == self.min {
            let c0 = match &self.summary {
                Some(sm) => sm.min,
                None => 0,
            };
            proof { assert(self.children@[c0 as int] is Some); }
            let m = match &self.children[c0 as usize] {
                Some(c) => c.min,
                None => 0,
            };
            proof {
                self.children@[c0 as int].unwrap().lemma_bounds();
                o.lemma_cluster_member(c0 as int, m as int);
            }
            v = self.index(c0, m);
            self.min = v;
        }
        proof { VEBTree::lemma_delete_target(o, x as int, v as int); }
        let i = self.high(v);
        let j = self.low(v);
        let mut slot: Option<Box<VEBTree>> = None;
        self.children.set_and_swap(i as usize, &mut slot);
        let mut c = slot.unwrap();
        proof { lemma_split(v as int, s); }
        c.delete_value(j);
        if c.min < 0 {
            proof {
                c.lemma_bounds();
                assert(o.children@[i as int].unwrap()@.remove(j as int) =~= c@);
            }
            let mut sm: Option<Box<VEBTree>> = None;
            std::mem::swap(&mut self.summary, &mut sm);
            let mut smb = sm.unwrap();
            smb.delete_value(i);
            self.summary = Some(smb);
        } else {
            proof {
                c.lemma_bounds();
                assert(c@.contains(c.min as int));
            }
            self.children.set(i as usize, Some(c));
        }
        proof {
            assert(self.children@ =~= o.children@.update(i as int, self.children@[i as int]));
            VEBTree::lemma_delete_clusters(o, *self, x as int, v as int);
        }
        if v == self.max {
            self.max = self.last_element();
        }
        proof {
            VEBTree::lemma_delete_wf(o, *self, x as int, v as int);
            VEBTree::lemma_delete_view(o, *self, x as int, v as int);
        }
    }

    /// The greatest value held in the clusters, rebuilt from the summary's maximum, or the
    /// minimum when every cluster is empty.
    fn last_element(&self) -> (r: i64)
        requires
            self.clusters_ok(),
        ensures
            r == (if self.summary.unwrap().min < 0 {
                self.min as int
            } else {
                (self.summary.unwrap().max as int) * self.sqrt_universe
                    + self.children@[self.summary.unwrap().max as int].unwrap().max
            }),
    {
        let sm = match &self.summary {
            Some(sm) => sm,
            None => return self.min,
        };
        if sm.min < 0 {
            return self.min;
        }
        let k = sm.max;
        proof {
            sm.lemma_bounds();
            assert(self.children@[k as int] is Some);
        }
        let cm = match &self.children[k as usize] {
            Some(ck) => ck.max,
            None => return self.min,
        };
        proof {
            self.children@[k as int].unwrap().lemma_bounds();
            assert(self.children@[k as int].unwrap().holds(cm as int));
        }
        self.index(k, cm)
    }

    /// Removes `x` from the set; a value outside the universe is refused, and removing a
    /// value that is not an element changes nothing.
    pub fn delete(&mut self, x: i64) -> (r: Result<(), VebError>)
        requires
            old(self).wf(),
        ensures
            final(self).wf(),
            final(self).spec_universe() == old(self).spec_universe(),
            (x < 0 || x >= old(self).spec_universe()) <==> r == Err::<(), VebError>(VebError::OutOfRange),
            (0 <= x < old(self).spec_universe()) <==> r is Ok,
            r is Ok ==> final(self)@ == old(self)@.remove(x as int),
            r is Err ==> final(self)@ == old(self)@,
    {
        if x < 0 || x >= self.universe {
            return Err(VebError::OutOfRange);
        }
        self.delete_value(x);
        Ok(())
    }
}

} // verus!
