//! Near-duplicate index: a metric tree over the distinct hash values of a
//! run, searchable for all stored values within a Hamming-distance radius
//! of a query.
//!
//! The tree is keyed by the Hamming distance: every value in the subtree a
//! node reaches through an edge labelled `k` lies at distance exactly `k`
//! from that node's own value. A radius search therefore needs to descend
//! an edge only when the label is within the radius of the query's distance
//! to the node — the triangle inequality guarantees nothing else can match.
//! Every distinct hash value is inserted once; records sharing a value are
//! resolved against the search result afterwards, so bit-identical hashes
//! never occupy two slots of the index.

use crate::hashing::hash_dist;
use crate::hashing::hash_dist_exec;
use crate::hashing::lemma_hash_dist_symmetric;
use crate::hashing::lemma_hash_dist_zero;
use crate::hashing::lemma_hash_dist_triangle;
use crate::hashing::within;
use vstd::prelude::*;

verus! {

/// Equality of two byte vectors, reflected to their views.
pub fn bytes_eq(a: &Vec<u8>, b: &Vec<u8>) -> (r: bool)
    ensures
        r == (a@ == b@),
{
    let r = a == b;
    proof {
        if r {
            assert(a@ =~= b@);
        } else {
            if a@ == b@ {
                assert(forall|i: int| 0 <= i < a@.len() ==> a@[i] == b@[i]);
                assert(false);
            }
        }
    }
    r
}

/// The views of a list of byte vectors.
pub open spec fn views_of(l: Seq<Vec<u8>>) -> Seq<Seq<u8>> {
    l.map_values(|x: Vec<u8>| x@)
}

/// Whether a list of byte vectors holds a given value.
pub open spec fn holds_value(l: Seq<Vec<u8>>, v: Seq<u8>) -> bool {
    views_of(l).contains(v)
}

struct BkNode {
    key: Vec<u8>,
    children: Vec<(u128, Box<BkNode>)>,
}

/// The hash values a node's tree holds: its own and its subtrees'.
spec fn node_keys(n: BkNode) -> Set<Seq<u8>>
    decreases n,
{
    kids_keys(n.children@).insert(n.key@)
}

spec fn kids_keys(cs: Seq<(u128, Box<BkNode>)>) -> Set<Seq<u8>>
    decreases cs,
{
    if cs.len() == 0 {
        Set::empty()
    } else {
        node_keys(*cs[0].1).union(kids_keys(cs.drop_first()))
    }
}

/// The metric-tree edge property: everything reached through an edge lies
/// at exactly the edge's distance from the parent's value.
spec fn edge_ok(pk: Seq<u8>, c: (u128, Box<BkNode>)) -> bool {
    forall|x: Seq<u8>| node_keys(*c.1).contains(x) ==> hash_dist(pk, x) == c.0
}

spec fn node_wf(n: BkNode) -> bool
    decreases n,
{
    kids_wf(n.key@, n.children@)
}

spec fn kids_wf(pk: Seq<u8>, cs: Seq<(u128, Box<BkNode>)>) -> bool
    decreases cs,
{
    if cs.len() == 0 {
        true
    } else {
        edge_ok(pk, cs[0]) && node_wf(*cs[0].1) && kids_wf(pk, cs.drop_first())
    }
}

/// What a subtree list holds is what some child holds.
proof fn lemma_kids_keys_char(cs: Seq<(u128, Box<BkNode>)>)
    ensures
        forall|x: Seq<u8>| #[trigger]
            kids_keys(cs).contains(x) <==> exists|i: int|
                0 <= i < cs.len() && node_keys(*#[trigger] cs[i].1).contains(x),
    decreases cs,
{
    if cs.len() > 0 {
        lemma_kids_keys_char(cs.drop_first());
        let rest = cs.drop_first();
        assert(forall|i: int| 0 <= i < rest.len() ==> #[trigger] rest[i] == cs[i + 1]);
        assert forall|x: Seq<u8>| #[trigger] kids_keys(cs).contains(x) implies exists|i: int|
            0 <= i < cs.len() && node_keys(*#[trigger] cs[i].1).contains(x) by {
            if node_keys(*cs[0].1).contains(x) {
                assert(0 <= 0 < cs.len() && node_keys(*cs[0].1).contains(x));
            } else {
                assert(kids_keys(rest).contains(x));
                let i = choose|i: int|
                    0 <= i < rest.len() && node_keys(*#[trigger] rest[i].1).contains(x);
                assert(node_keys(*cs[i + 1].1).contains(x));
            }
        }
        assert forall|x: Seq<u8>|
            (exists|i: int|
                0 <= i < cs.len() && node_keys(*#[trigger] cs[i].1).contains(
                    x,
                )) implies #[trigger] kids_keys(cs).contains(x) by {
            let i = choose|i: int| 0 <= i < cs.len() && node_keys(*#[trigger] cs[i].1).contains(x);
            if i == 0 {
                assert(node_keys(*cs[0].1).contains(x));
            } else {
                assert(node_keys(*rest[i - 1].1).contains(x));
                assert(kids_keys(rest).contains(x));
            }
        }
    }
}

/// A subtree list is well-formed exactly when each child is, with its edge
/// property — an order-free reading of the definition.
proof fn lemma_kids_wf_char(pk: Seq<u8>, cs: Seq<(u128, Box<BkNode>)>)
    ensures
        kids_wf(pk, cs) <==> forall|i: int|
            0 <= i < cs.len() ==> edge_ok(pk, #[trigger] cs[i]) && node_wf(*cs[i].1),
    decreases cs,
{
    if cs.len() > 0 {
        lemma_kids_wf_char(pk, cs.drop_first());
        let rest = cs.drop_first();
        assert(forall|i: int| 0 <= i < rest.len() ==> #[trigger] rest[i] == cs[i + 1]);
        if kids_wf(pk, cs) {
            assert forall|i: int| 0 <= i < cs.len() implies edge_ok(pk, #[trigger] cs[i])
                && node_wf(*cs[i].1) by {
                if i > 0 {
                    assert(rest[i - 1] == cs[i]);
                }
            }
        } else {
            if forall|i: int| 0 <= i < cs.len() ==> edge_ok(pk, #[trigger] cs[i]) && node_wf(
                *cs[i].1,
            ) {
                assert(edge_ok(pk, cs[0]) && node_wf(*cs[0].1));
                assert forall|i: int| 0 <= i < rest.len() implies edge_ok(
                    pk,
                    #[trigger] rest[i],
                ) && node_wf(*rest[i].1) by {
                    assert(rest[i] == cs[i + 1]);
                }
                assert(kids_wf(pk, rest));
                assert(false);
            }
        }
    }
}

/// Inserts a hash value into a subtree, descending the edge labelled with
/// the value's distance to each node on the way and attaching a leaf where
/// that edge is missing. The node's own value stays; the tree gains
/// exactly the inserted value.
#[verifier::loop_isolation(false)]
fn node_insert(n: Box<BkNode>, h: &Vec<u8>) -> (r: Box<BkNode>)
    requires
        node_wf(*n),
    ensures
        node_wf(*r),
        r.key == n.key,
        node_keys(*r) == node_keys(*n).insert(h@),
    decreases *n,
{
    let mut n = n;
    let ghost orig = *n;
    let k: u128 = hash_dist_exec(&n.key, h);
    let m: usize = n.children.len();
    let mut i: usize = 0;
    while i < m
        invariant
            0 <= i <= m,
            n == orig,
            forall|j: int| 0 <= j < i ==> (#[trigger] n.children@[j]).0 != k,
        decreases m - i,
    {
        if n.children[i].0 == k {
            break ;
        }
        i = i + 1;
    }
    proof {
        lemma_kids_wf_char(orig.key@, orig.children@);
        lemma_kids_keys_char(orig.children@);
    }
    if i < m {
        let (edge, child) = n.children.swap_remove(i);
        let ghost childv = *child;
        let child2 = node_insert(child, h);
        n.children.push((edge, child2));
        proof {
            let newcs = n.children@;
            let oldcs = orig.children@;
            let ll = oldcs.len() as int;
            // after the swap-removal and the push back, every slot holds an
            // old child — the last one moved into the freed slot — or the
            // freshly grown one at the end
            assert(newcs.len() == ll);
            assert(newcs.last() == (edge, child2));
            assert(forall|j: int|
                0 <= j < ll - 1 && j != i ==> #[trigger] newcs[j] == oldcs[j]);
            assert(i < ll - 1 ==> newcs[i as int] == oldcs[ll - 1]);
            assert(edge == k);
            assert forall|j: int| 0 <= j < newcs.len() implies edge_ok(
                n.key@,
                #[trigger] newcs[j],
            ) && node_wf(*newcs[j].1) by {
                if j == ll - 1 {
                    assert(node_keys(*child2) == node_keys(childv).insert(h@));
                    assert(hash_dist(orig.key@, h@) == k);
                    assert forall|x: Seq<u8>| node_keys(*child2).contains(x) implies hash_dist(
                        n.key@,
                        x,
                    ) == edge by {
                        if x != h@ {
                            assert(node_keys(childv).contains(x));
                            assert(edge_ok(orig.key@, oldcs[i as int]));
                        }
                    }
                } else if j == i {
                    assert(newcs[j] == oldcs[ll - 1]);
                } else {
                    assert(newcs[j] == oldcs[j]);
                }
            }
            lemma_kids_wf_char(n.key@, newcs);
            lemma_kids_keys_char(newcs);
            assert forall|x: Seq<u8>| #[trigger] node_keys(*n).contains(x) implies node_keys(
                orig,
            ).insert(h@).contains(x) by {
                if x != n.key@ {
                    assert(kids_keys(newcs).contains(x));
                    let j = choose|j: int|
                        0 <= j < newcs.len() && node_keys(*#[trigger] newcs[j].1).contains(x);
                    assert(newcs[ll - 1].1 == child2);
                    if j == ll - 1 {
                        if x != h@ {
                            assert(node_keys(childv).contains(x));
                            assert(node_keys(*oldcs[i as int].1).contains(x));
                            assert(kids_keys(oldcs).contains(x));
                        }
                    } else if j == i {
                        assert(node_keys(*oldcs[ll - 1].1).contains(x));
                        assert(kids_keys(oldcs).contains(x));
                    } else {
                        assert(node_keys(*oldcs[j].1).contains(x));
                        assert(kids_keys(oldcs).contains(x));
                    }
                }
            }
            assert forall|x: Seq<u8>| node_keys(orig).insert(h@).contains(x) implies #[trigger] node_keys(
                *n,
            ).contains(x) by {
                if x == h@ {
                    assert(node_keys(*child2).contains(x));
                    assert(node_keys(*newcs[ll - 1].1).contains(x));
                    assert(kids_keys(newcs).contains(x));
                } else if x != orig.key@ {
                    assert(kids_keys(oldcs).contains(x));
                    let j = choose|j: int|
                        0 <= j < oldcs.len() && node_keys(*#[trigger] oldcs[j].1).contains(x);
                    if j == i {
                        assert(node_keys(*child2).contains(x));
                        assert(node_keys(*newcs[ll - 1].1).contains(x));
                    } else if j == ll - 1 {
                        if i < ll - 1 {
                            assert(node_keys(*newcs[i as int].1).contains(x));
                        } else {
                            // the removed slot was the last one, so j == i
                            assert(false);
                        }
                    } else {
                        assert(newcs[j] == oldcs[j]);
                        assert(node_keys(*newcs[j].1).contains(x));
                    }
                    assert(kids_keys(newcs).contains(x));
                }
            }
            assert(node_keys(*n) =~= node_keys(orig).insert(h@));
        }
        n
    } else {
        let leaf = BkNode { key: vstd::slice::slice_to_vec(h.as_slice()), children: Vec::new() };
        proof {
            assert(kids_keys(leaf.children@) =~= Set::<Seq<u8>>::empty());
            assert(node_keys(leaf) =~= Set::<Seq<u8>>::empty().insert(h@));
            assert(kids_wf(leaf.key@, leaf.children@));
        }
        n.children.push((k, Box::new(leaf)));
        proof {
            let newcs = n.children@;
            let oldcs = orig.children@;
            assert forall|j: int| 0 <= j < newcs.len() implies edge_ok(
                n.key@,
                #[trigger] newcs[j],
            ) && node_wf(*newcs[j].1) by {
                if j < newcs.len() - 1 {
                    assert(newcs[j] == oldcs[j]);
                } else {
                    assert(hash_dist(orig.key@, h@) == k);
                    assert forall|x: Seq<u8>| node_keys(*newcs[j].1).contains(x) implies hash_dist(
                        n.key@,
                        x,
                    ) == k by {
                        assert(x == h@);
                    }
                }
            }
            lemma_kids_wf_char(n.key@, newcs);
            lemma_kids_keys_char(newcs);
            assert forall|x: Seq<u8>| #[trigger] node_keys(*n).contains(x) implies node_keys(
                orig,
            ).insert(h@).contains(x) by {
                if x != n.key@ {
                    assert(kids_keys(newcs).contains(x));
                    let j = choose|j: int|
                        0 <= j < newcs.len() && node_keys(*#[trigger] newcs[j].1).contains(x);
                    if j < newcs.len() - 1 {
                        assert(newcs[j] == oldcs[j]);
                        assert(kids_keys(oldcs).contains(x));
                    } else {
                        assert(x == h@);
                    }
                }
            }
            assert forall|x: Seq<u8>| node_keys(orig).insert(h@).contains(x) implies #[trigger] node_keys(
                *n,
            ).contains(x) by {
                if x == h@ {
                    assert(node_keys(*newcs[newcs.len() - 1].1).contains(x));
                    assert(kids_keys(newcs).contains(x));
                } else if x != orig.key@ {
                    assert(kids_keys(oldcs).contains(x));
                    let j = choose|j: int|
                        0 <= j < oldcs.len() && node_keys(*#[trigger] oldcs[j].1).contains(x);
                    assert(newcs[j] == oldcs[j]);
                    assert(node_keys(*newcs[j].1).contains(x));
                    assert(kids_keys(newcs).contains(x));
                }
            }
            assert(node_keys(*n) =~= node_keys(orig).insert(h@));
        }
        n
    }
}

/// Decides whether a subtree holds a value: a zero distance to the node's
/// own value is a find, and otherwise only children under the edge
/// labelled with the value's distance can hold it.
#[verifier::loop_isolation(false)]
fn node_has(n: &BkNode, h: &Vec<u8>) -> (r: bool)
    requires
        node_wf(*n),
    ensures
        r == node_keys(*n).contains(h@),
    decreases *n,
{
    proof {
        lemma_kids_wf_char(n.key@, n.children@);
        lemma_kids_keys_char(n.children@);
        lemma_hash_dist_zero(n.key@, h@);
    }
    let k: u128 = hash_dist_exec(&n.key, h);
    if k == 0 {
        return true;
    }
    let m: usize = n.children.len();
    let mut i: usize = 0;
    while i < m
        invariant
            0 <= i <= m,
            forall|j: int|
                0 <= j < i ==> !node_keys(*(#[trigger] n.children@[j]).1).contains(h@),
        decreases m - i,
    {
        if n.children[i].0 == k {
            if node_has(&n.children[i].1, h) {
                proof {
                    assert(node_keys(*n.children@[i as int].1).contains(h@));
                    assert(kids_keys(n.children@).contains(h@));
                }
                return true;
            }
        } else {
            proof {
                if node_keys(*n.children@[i as int].1).contains(h@) {
                    assert(edge_ok(n.key@, n.children@[i as int]));
                    assert(false);
                }
            }
        }
        i = i + 1;
    }
    proof {
        if node_keys(*n).contains(h@) {
            assert(kids_keys(n.children@).contains(h@));
        }
    }
    false
}

/// Searches a subtree for every value within the inclusive threshold of
/// the query, descending an edge only when its label lies within the
/// threshold of the query's distance to the node: by the triangle
/// inequality and the edge property, everything else is out of range.
#[verifier::loop_isolation(false)]
fn node_search(n: &BkNode, q: &Vec<u8>, threshold: u32, out: &mut Vec<Vec<u8>>)
    requires
        node_wf(*n),
    ensures
        forall|v: Seq<u8>| #[trigger]
            holds_value(final(out)@, v) <==> (holds_value(old(out)@, v) || (node_keys(*n).contains(
                v,
            ) && within(v, q@, threshold as int))),
    decreases *n,
{
    proof {
        lemma_kids_wf_char(n.key@, n.children@);
        lemma_kids_keys_char(n.children@);
    }
    let d: u128 = hash_dist_exec(&n.key, q);
    if d <= threshold as u128 {
        let ghost pre = out@;
        out.push(vstd::slice::slice_to_vec(n.key.as_slice()));
        proof {
            lemma_hash_dist_symmetric(n.key@, q@);
            assert(views_of(out@) =~= views_of(pre).push(n.key@));
            assert forall|v: Seq<u8>| #[trigger] holds_value(out@, v) implies (holds_value(pre, v)
                || v == n.key@) by {
                let j = choose|j: int|
                    0 <= j < views_of(out@).len() && views_of(out@)[j] == v;
                if j < views_of(pre).len() {
                    assert(views_of(pre)[j] == v);
                }
            }
            assert(holds_value(out@, n.key@)) by {
                assert(views_of(out@).last() == n.key@);
            }
            assert forall|v: Seq<u8>| holds_value(pre, v) implies #[trigger] holds_value(
                out@,
                v,
            ) by {
                let j = choose|j: int| 0 <= j < views_of(pre).len() && views_of(pre)[j] == v;
                assert(views_of(out@)[j] == v);
            }
        }
    } else {
        proof {
            lemma_hash_dist_symmetric(n.key@, q@);
        }
    }
    let ghost mid = out@;
    let m: usize = n.children.len();
    let mut i: usize = 0;
    while i < m
        invariant
            0 <= i <= m,
            forall|v: Seq<u8>| #[trigger]
                holds_value(out@, v) <==> (holds_value(mid, v) || (exists|j: int|
                    0 <= j < i && node_keys(*(#[trigger] n.children@[j]).1).contains(v) && within(
                        v,
                        q@,
                        threshold as int,
                    ))),
        decreases m - i,
    {
        let ghost pre = out@;
        let k: u128 = n.children[i].0;
        let gap: u128 = if d >= k {
            d - k
        } else {
            k - d
        };
        if gap <= threshold as u128 {
            node_search(&n.children[i].1, q, threshold, out);
        } else {
            proof {
                assert forall|x: Seq<u8>|
                    node_keys(*n.children@[i as int].1).contains(x) implies !within(
                    x,
                    q@,
                    threshold as int,
                ) by {
                    assert(edge_ok(n.key@, n.children@[i as int]));
                    assert(hash_dist(n.key@, x) == k);
                    // the query can reach this subtree neither from below
                    // nor from above the edge label
                    lemma_hash_dist_triangle(n.key@, x, q@);
                    lemma_hash_dist_triangle(n.key@, q@, x);
                    lemma_hash_dist_symmetric(q@, x);
                }
            }
        }
        proof {
            assert forall|v: Seq<u8>| #[trigger]
                holds_value(out@, v) implies (holds_value(mid, v) || (exists|j: int|
                    0 <= j < i + 1 && node_keys(*(#[trigger] n.children@[j]).1).contains(v)
                        && within(v, q@, threshold as int))) by {
                if !holds_value(mid, v) {
                    if holds_value(pre, v) {
                        let j = choose|j: int|
                            0 <= j < i && node_keys(
                                *(#[trigger] n.children@[j]).1,
                            ).contains(v) && within(v, q@, threshold as int);
                        assert(0 <= j < i + 1 && node_keys(*n.children@[j].1).contains(v)
                            && within(v, q@, threshold as int));
                    } else {
                        assert(node_keys(*n.children@[i as int].1).contains(v) && within(
                            v,
                            q@,
                            threshold as int,
                        ));
                    }
                }
            }
            assert forall|v: Seq<u8>|
                (holds_value(mid, v) || (exists|j: int|
                    0 <= j < i + 1 && node_keys(*(#[trigger] n.children@[j]).1).contains(v)
                        && within(v, q@, threshold as int))) implies #[trigger] holds_value(
                out@,
                v,
            ) by {
                if holds_value(mid, v) {
                    assert(holds_value(pre, v));
                } else {
                    let j = choose|j: int|
                        0 <= j < i + 1 && node_keys(
                            *(#[trigger] n.children@[j]).1,
                        ).contains(v) && within(v, q@, threshold as int);
                    if j < i {
                        assert(holds_value(pre, v));
                    }
                }
            }
        }
        i = i + 1;
    }
    proof {
        assert forall|v: Seq<u8>| #[trigger] holds_value(out@, v) implies (holds_value(
            old(out)@,
            v,
        ) || (node_keys(*n).contains(v) && within(v, q@, threshold as int))) by {
            if !holds_value(old(out)@, v) && !(v == n.key@ && within(v, q@, threshold as int)) {
                let j = choose|j: int|
                    0 <= j < m && node_keys(*(#[trigger] n.children@[j]).1).contains(v) && within(
                        v,
                        q@,
                        threshold as int,
                    );
                assert(kids_keys(n.children@).contains(v));
            }
        }
        assert forall|v: Seq<u8>|
            (holds_value(old(out)@, v) || (node_keys(*n).contains(v) && within(
                v,
                q@,
                threshold as int,
            ))) implies #[trigger] holds_value(out@, v) by {
            if !holds_value(old(out)@, v) {
                if v == n.key@ {
                    assert(holds_value(mid, v));
                } else {
                    assert(kids_keys(n.children@).contains(v));
                }
            }
        }
    }
}

/// The index over the distinct hash values seen so far.
pub struct MetricIndex {
    root: Option<Box<BkNode>>,
}

impl MetricIndex {
    /// The stored hash values.
    pub closed spec fn key_set(self) -> Set<Seq<u8>> {
        match self.root {
            None => Set::empty(),
            Some(r) => node_keys(*r),
        }
    }

    /// Whether the index holds a hash value.
    pub open spec fn has(self, v: Seq<u8>) -> bool {
        self.key_set().contains(v)
    }

    /// Well-formedness: the metric-tree edge property holds everywhere.
    pub closed spec fn wf(self) -> bool {
        match self.root {
            None => true,
            Some(r) => node_wf(*r),
        }
    }

    /// An empty index.
    pub fn new() -> (idx: MetricIndex)
        ensures
            idx.wf(),
            forall|v: Seq<u8>| !idx.has(v),
    {
        MetricIndex { root: None }
    }

    /// Decides whether the index holds a hash value.
    pub fn contains_value(&self, h: &Vec<u8>) -> (r: bool)
        requires
            self.wf(),
        ensures
            r == self.has(h@),
    {
        match &self.root {
            None => false,
            Some(r) => node_has(r, h),
        }
    }

    /// Inserts a hash value; a value already present is not stored again.
    pub fn insert(&mut self, h: &Vec<u8>)
        requires
            old(self).wf(),
        ensures
            final(self).wf(),
            final(self).has(h@),
            forall|v: Seq<u8>| #[trigger] final(self).has(v) <==> (old(self).has(v) || v == h@),
    {
        if self.contains_value(h) {
            return ;
        }
        let mut tmp: Option<Box<BkNode>> = None;
        core::mem::swap(&mut tmp, &mut self.root);
        match tmp {
            None => {
                let leaf = BkNode {
                    key: vstd::slice::slice_to_vec(h.as_slice()),
                    children: Vec::new(),
                };
                proof {
                    assert(kids_keys(leaf.children@) =~= Set::<Seq<u8>>::empty());
                    assert(kids_wf(leaf.key@, leaf.children@));
                }
                self.root = Some(Box::new(leaf));
                proof {
                    assert(self.key_set() =~= Set::<Seq<u8>>::empty().insert(h@));
                }
            },
            Some(r) => {
                let r2 = node_insert(r, h);
                self.root = Some(r2);
            },
        }
    }

    /// Searches for every stored value within the inclusive threshold of
    /// the query hash.
    pub fn search(&self, q: &Vec<u8>, threshold: u32) -> (m: Vec<Vec<u8>>)
        requires
            self.wf(),
        ensures
            forall|v: Seq<u8>| #[trigger]
                holds_value(m@, v) <==> (self.has(v) && within(v, q@, threshold as int)),
    {
        let mut out: Vec<Vec<u8>> = Vec::new();
        proof {
            assert(forall|v: Seq<u8>| !holds_value(out@, v));
        }
        match &self.root {
            None => {
            },
            Some(r) => {
                node_search(r, q, threshold, &mut out);
            },
        }
        out
    }
}

} // verus!
