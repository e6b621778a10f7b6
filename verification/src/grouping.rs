//! Single-linkage grouping of records by hash similarity.
//!
//! Records are walked in input order. A record not yet taken by an earlier
//! group seeds a new one and gathers every record still free whose hash lies
//! within the threshold of the seed's hash. Groups of one are discarded.
//! Membership is decided against the seed alone, so grouping is
//! seed-order-dependent single linkage, not exhaustive pairwise clustering;
//! that makes results deterministic for a fixed input order.

use crate::folder::DuplicateGroup;
use crate::folder::ImageInfo;
use crate::folder::ImageWithHash;
use crate::hashing::lemma_hash_dist_self;
use crate::hashing::lemma_hash_dist_symmetric;
use crate::hashing::within;
use crate::index::holds_value;
use crate::index::views_of;
use crate::index::MetricIndex;
use vstd::prelude::*;
use vstd::set_lib::lemma_int_range;
use vstd::set_lib::lemma_len_subset;
use vstd::set_lib::set_int_range;

verus! {

/// The seeds among the first `n` records: a record seeds a group exactly
/// when no earlier seed lies within the threshold of it.
pub open spec fn seeds_upto(hs: Seq<Seq<u8>>, t: int, n: int) -> Set<int>
    decreases n,
{
    if n <= 0 {
        Set::empty()
    } else {
        let prev = seeds_upto(hs, t, n - 1);
        if exists|s: int| prev.contains(s) && within(hs[s], hs[n - 1], t) {
            prev
        } else {
            prev.insert(n - 1)
        }
    }
}

/// The seeds of the whole run.
pub open spec fn seeds(hs: Seq<Seq<u8>>, t: int) -> Set<int> {
    seeds_upto(hs, t, hs.len() as int)
}

/// Whether record `i` seeds a group.
pub open spec fn is_seed(hs: Seq<Seq<u8>>, t: int, i: int) -> bool {
    seeds_upto(hs, t, i + 1).contains(i)
}

/// Seeds among the first `n` records are indices below `n`, and the set of
/// them is finite and only grows with `n`.
pub proof fn lemma_seeds_upto_basics(hs: Seq<Seq<u8>>, t: int, n: int)
    ensures
        forall|s: int| seeds_upto(hs, t, n).contains(s) ==> 0 <= s < n,
        seeds_upto(hs, t, n).finite(),
        seeds_upto(hs, t, n).len() <= if n >= 0 {
            n
        } else {
            0
        },
    decreases n,
{
    broadcast use vstd::set::group_set_axioms;

    if n > 0 {
        lemma_seeds_upto_basics(hs, t, n - 1);
    }
}

/// Membership in the seed set is settled by the prefix that ends at the
/// record itself: later records change nothing about it.
pub proof fn lemma_seed_stable(hs: Seq<Seq<u8>>, t: int, i: int, n: int)
    requires
        i < n,
    ensures
        seeds_upto(hs, t, n).contains(i) <==> is_seed(hs, t, i),
    decreases n - i,
{
    if n > i + 1 {
        lemma_seed_stable(hs, t, i, n - 1);
        lemma_seeds_upto_basics(hs, t, n - 1);
    }
}

/// A record seeds a group exactly when no earlier seed lies within the
/// threshold of it.
pub proof fn lemma_seed_characterization(hs: Seq<Seq<u8>>, t: int, i: int)
    requires
        0 <= i,
    ensures
        is_seed(hs, t, i) <==> !(exists|s: int|
            0 <= s < i && is_seed(hs, t, s) && within(hs[s], hs[i], t)),
{
    broadcast use vstd::set::group_set_axioms;

    lemma_seeds_upto_basics(hs, t, i);
    let prev = seeds_upto(hs, t, i);
    assert forall|s: int| prev.contains(s) implies (0 <= s < i && is_seed(hs, t, s)) by {
        lemma_seed_stable(hs, t, s, i);
    }
    if exists|s: int| prev.contains(s) && within(hs[s], hs[i], t) {
        assert(seeds_upto(hs, t, i + 1) == prev);
        assert(!prev.contains(i));
        let s = choose|s: int| prev.contains(s) && within(hs[s], hs[i], t);
        assert(0 <= s < i && is_seed(hs, t, s) && within(hs[s], hs[i], t));
    } else {
        assert(seeds_upto(hs, t, i + 1) == prev.insert(i));
        if exists|s: int| 0 <= s < i && is_seed(hs, t, s) && within(hs[s], hs[i], t) {
            let s = choose|s: int| 0 <= s < i && is_seed(hs, t, s) && within(hs[s], hs[i], t);
            lemma_seed_stable(hs, t, s, i);
            assert(prev.contains(s) && within(hs[s], hs[i], t));
        }
    }
}

/// Search for the owner of record `j`: the first seed, from `k` on, whose
/// hash lies within the threshold of record `j`'s hash.
pub open spec fn owner_from(hs: Seq<Seq<u8>>, t: int, j: int, k: int) -> int
    decreases j - k,
{
    if k >= j {
        j
    } else if is_seed(hs, t, k) && within(hs[k], hs[j], t) {
        k
    } else {
        owner_from(hs, t, j, k + 1)
    }
}

/// The group a record belongs to, named by the seed that first takes it:
/// the least seed within the threshold of the record's hash.
pub open spec fn owner(hs: Seq<Seq<u8>>, t: int, j: int) -> int {
    owner_from(hs, t, j, 0)
}

proof fn lemma_owner_from_props(hs: Seq<Seq<u8>>, t: int, j: int, k: int)
    requires
        0 <= k <= j < hs.len(),
        t >= 0,
    ensures
        k <= owner_from(hs, t, j, k) <= j,
        is_seed(hs, t, owner_from(hs, t, j, k)) || owner_from(hs, t, j, k) == j,
        owner_from(hs, t, j, k) < j ==> is_seed(hs, t, owner_from(hs, t, j, k)) && within(
            hs[owner_from(hs, t, j, k)],
            hs[j],
            t,
        ),
        forall|s: int|
            k <= s < owner_from(hs, t, j, k) ==> !(is_seed(hs, t, s) && within(hs[s], hs[j], t)),
    decreases j - k,
{
    if k < j && !(is_seed(hs, t, k) && within(hs[k], hs[j], t)) {
        lemma_owner_from_props(hs, t, j, k + 1);
    }
}

/// The owner of a record is the least seed whose hash lies within the
/// threshold of the record's hash; every record of a run has one, and a
/// record is a seed exactly when it owns itself.
pub proof fn lemma_owner_characterization(hs: Seq<Seq<u8>>, t: int, j: int)
    requires
        0 <= j < hs.len(),
        t >= 0,
    ensures
        0 <= owner(hs, t, j) <= j,
        is_seed(hs, t, owner(hs, t, j)),
        within(hs[owner(hs, t, j)], hs[j], t),
        forall|s: int| 0 <= s < owner(hs, t, j) ==> !(is_seed(hs, t, s) && within(hs[s], hs[j], t)),
        is_seed(hs, t, j) <==> owner(hs, t, j) == j,
{
    lemma_owner_from_props(hs, t, j, 0);
    lemma_hash_dist_self(hs[j]);
    lemma_seed_characterization(hs, t, j);
    let o = owner(hs, t, j);
    if o == j {
        assert(is_seed(hs, t, j));
    }
}

/// A seed within the threshold of record `j` bounds `j`'s owner from above.
pub proof fn lemma_owner_le(hs: Seq<Seq<u8>>, t: int, j: int, s: int)
    requires
        0 <= j < hs.len(),
        0 <= s <= j,
        t >= 0,
        is_seed(hs, t, s),
        within(hs[s], hs[j], t),
    ensures
        owner(hs, t, j) <= s,
{
    lemma_owner_characterization(hs, t, j);
    if owner(hs, t, j) > s {
        assert(!(is_seed(hs, t, s) && within(hs[s], hs[j], t)));
    }
}

/// The members among the first `n` records of the group seeded by `s`, in
/// input order.
pub open spec fn member_indices_upto(hs: Seq<Seq<u8>>, t: int, s: int, n: int) -> Seq<int>
    decreases n,
{
    if n <= 0 {
        Seq::empty()
    } else if owner(hs, t, n - 1) == s {
        member_indices_upto(hs, t, s, n - 1).push(n - 1)
    } else {
        member_indices_upto(hs, t, s, n - 1)
    }
}

/// The members of the group seeded by `s`, in input order.
pub open spec fn member_indices(hs: Seq<Seq<u8>>, t: int, s: int) -> Seq<int> {
    member_indices_upto(hs, t, s, hs.len() as int)
}

/// Member lists hold indices below `n` owned by the seed, in strictly
/// increasing order, and hold every such index.
pub proof fn lemma_member_indices_upto_props(hs: Seq<Seq<u8>>, t: int, s: int, n: int)
    ensures
        forall|k: int|
            0 <= k < member_indices_upto(hs, t, s, n).len() ==> 0 <= #[trigger] member_indices_upto(
                hs,
                t,
                s,
                n,
            )[k] < n && owner(hs, t, member_indices_upto(hs, t, s, n)[k]) == s,
        forall|k1: int, k2: int|
            0 <= k1 < k2 < member_indices_upto(hs, t, s, n).len() ==> member_indices_upto(
                hs,
                t,
                s,
                n,
            )[k1] < member_indices_upto(hs, t, s, n)[k2],
        forall|j: int|
            0 <= j < n && owner(hs, t, j) == s ==> member_indices_upto(hs, t, s, n).contains(j),
    decreases n,
{
    if n > 0 {
        lemma_member_indices_upto_props(hs, t, s, n - 1);
        let prev = member_indices_upto(hs, t, s, n - 1);
        let cur = member_indices_upto(hs, t, s, n);
        assert forall|j: int| 0 <= j < n && owner(hs, t, j) == s implies cur.contains(j) by {
            if j < n - 1 {
                assert(prev.contains(j));
                let k = choose|k: int| 0 <= k < prev.len() && prev[k] == j;
                assert(cur[k] == j);
            } else {
                assert(cur.last() == j);
            }
        }
    }
}

/// The seeds among the first `n` records that produce an emitted group:
/// those owning at least two records, in input order.
pub open spec fn group_seeds_upto(hs: Seq<Seq<u8>>, t: int, n: int) -> Seq<int>
    decreases n,
{
    if n <= 0 {
        Seq::empty()
    } else if is_seed(hs, t, n - 1) && member_indices(hs, t, n - 1).len() >= 2 {
        group_seeds_upto(hs, t, n - 1).push(n - 1)
    } else {
        group_seeds_upto(hs, t, n - 1)
    }
}

/// The seeds that produce an emitted group, in input order.
pub open spec fn group_seeds(hs: Seq<Seq<u8>>, t: int) -> Seq<int> {
    group_seeds_upto(hs, t, hs.len() as int)
}

/// Total count of surplus copies: every record except one per group,
/// singletons counting nothing — which is the record count less the number
/// of seeds.
pub open spec fn total_duplicates_model(hs: Seq<Seq<u8>>, t: int) -> int {
    hs.len() - seeds(hs, t).len()
}

/// Group seed lists hold seed indices below `n` owning at least two
/// records, in strictly increasing order.
pub proof fn lemma_group_seeds_upto_props(hs: Seq<Seq<u8>>, t: int, n: int)
    ensures
        forall|g: int|
            0 <= g < group_seeds_upto(hs, t, n).len() ==> {
                let s = #[trigger] group_seeds_upto(hs, t, n)[g];
                0 <= s < n && is_seed(hs, t, s) && member_indices(hs, t, s).len() >= 2
            },
        forall|g1: int, g2: int|
            0 <= g1 < g2 < group_seeds_upto(hs, t, n).len() ==> group_seeds_upto(hs, t, n)[g1]
                < group_seeds_upto(hs, t, n)[g2],
    decreases n,
{
    if n > 0 {
        lemma_group_seeds_upto_props(hs, t, n - 1);
        let prev = group_seeds_upto(hs, t, n - 1);
        let cur = group_seeds_upto(hs, t, n);
        if is_seed(hs, t, n - 1) && member_indices(hs, t, n - 1).len() >= 2 {
            assert(cur == prev.push(n - 1));
            assert forall|g: int| 0 <= g < cur.len() implies {
                let s = #[trigger] cur[g];
                0 <= s < n && is_seed(hs, t, s) && member_indices(hs, t, s).len() >= 2
            } by {
                if g < prev.len() {
                    assert(cur[g] == prev[g]);
                } else {
                    assert(cur[g] == n - 1);
                }
            }
            assert forall|g1: int, g2: int| 0 <= g1 < g2 < cur.len() implies cur[g1]
                < cur[g2] by {
                if g2 < prev.len() {
                    assert(cur[g1] == prev[g1] && cur[g2] == prev[g2]);
                } else {
                    assert(cur[g1] == prev[g1] && cur[g2] == n - 1);
                }
            }
        } else {
            assert(cur == prev);
        }
    }
}

/// Grouping invariant: every emitted group has at least two members; within
/// a group no record index repeats; and no record index is shared by two
/// groups — every record is owned by exactly one seed.
pub proof fn lemma_grouping_invariant(hs: Seq<Seq<u8>>, t: int)
    requires
        t >= 0,
    ensures
        forall|g: int|
            0 <= g < group_seeds(hs, t).len() ==> member_indices(
                hs,
                t,
                #[trigger] group_seeds(hs, t)[g],
            ).len() >= 2,
        forall|g: int, k1: int, k2: int|
            #![trigger member_indices(hs, t, group_seeds(hs, t)[g])[k1], member_indices(hs, t, group_seeds(hs, t)[g])[k2]]
            0 <= g < group_seeds(hs, t).len() && 0 <= k1 < k2 < member_indices(
                hs,
                t,
                group_seeds(hs, t)[g],
            ).len() ==> member_indices(hs, t, group_seeds(hs, t)[g])[k1] != member_indices(
                hs,
                t,
                group_seeds(hs, t)[g],
            )[k2],
        forall|g1: int, g2: int, k1: int, k2: int|
            #![trigger member_indices(hs, t, group_seeds(hs, t)[g1])[k1], member_indices(hs, t, group_seeds(hs, t)[g2])[k2]]
            (0 <= g1 < g2 < group_seeds(hs, t).len() && 0 <= k1 < member_indices(
                hs,
                t,
                group_seeds(hs, t)[g1],
            ).len() && 0 <= k2 < member_indices(hs, t, group_seeds(hs, t)[g2]).len())
                ==> member_indices(hs, t, group_seeds(hs, t)[g1])[k1] != member_indices(
                hs,
                t,
                group_seeds(hs, t)[g2],
            )[k2],
{
    let n = hs.len() as int;
    lemma_group_seeds_upto_props(hs, t, n);
    let gs = group_seeds(hs, t);
    assert forall|g: int, k1: int, k2: int|
        #![trigger member_indices(hs, t, gs[g])[k1], member_indices(hs, t, gs[g])[k2]]
        0 <= g < gs.len() && 0 <= k1 < k2 < member_indices(hs, t, gs[g]).len() implies member_indices(
        hs,
        t,
        gs[g],
    )[k1] != member_indices(hs, t, gs[g])[k2] by {
        lemma_member_indices_upto_props(hs, t, gs[g], n);
    }
    assert forall|g1: int, g2: int, k1: int, k2: int|
        #![trigger member_indices(hs, t, gs[g1])[k1], member_indices(hs, t, gs[g2])[k2]]
        (0 <= g1 < g2 < gs.len() && 0 <= k1 < member_indices(hs, t, gs[g1]).len() && 0 <= k2
            < member_indices(hs, t, gs[g2]).len()) implies member_indices(hs, t, gs[g1])[k1]
        != member_indices(hs, t, gs[g2])[k2] by {
        if 0 <= g1 < g2 < gs.len() {
            let s1 = gs[g1];
            let s2 = gs[g2];
            lemma_member_indices_upto_props(hs, t, s1, n);
            lemma_member_indices_upto_props(hs, t, s2, n);
            if 0 <= k1 < member_indices(hs, t, s1).len() && 0 <= k2 < member_indices(
                hs,
                t,
                s2,
            ).len() {
                assert(owner(hs, t, member_indices(hs, t, s1)[k1]) == s1);
                assert(owner(hs, t, member_indices(hs, t, s2)[k2]) == s2);
            }
        }
    }
}

/// Threshold monotonicity: loosening the threshold never lowers the count
/// of surplus copies, provided similarity at the looser threshold is
/// transitive over the run's hashes. (Without transitivity a looser
/// threshold can let an early seed absorb a record that would itself have
/// seeded a larger group, and the count can drop.)
pub proof fn lemma_threshold_monotonic(hs: Seq<Seq<u8>>, t1: int, t2: int)
    requires
        0 <= t1 <= t2,
        forall|a: int, b: int, c: int|
            0 <= a < hs.len() && 0 <= b < hs.len() && 0 <= c < hs.len() && within(
                hs[a],
                hs[b],
                t2,
            ) && within(hs[b], hs[c], t2) ==> within(hs[a], hs[c], t2),
    ensures
        total_duplicates_model(hs, t1) <= total_duplicates_model(hs, t2),
{
    let n = hs.len() as int;
    let s2 = seeds(hs, t2);
    let s1 = seeds(hs, t1);
    lemma_seeds_upto_basics(hs, t1, n);
    lemma_seeds_upto_basics(hs, t2, n);
    let f = |s: int| owner(hs, t1, s);
    let img = s2.map(f);
    assert forall|x1: int, x2: int|
        s2.contains(x1) && s2.contains(x2) && #[trigger] f(x1) == #[trigger] f(x2) implies x1
        == x2 by {
        if x1 != x2 {
            let lo = if x1 < x2 {
                x1
            } else {
                x2
            };
            let hi = if x1 < x2 {
                x2
            } else {
                x1
            };
            let o = f(lo);
            lemma_seed_stable(hs, t2, lo, n);
            lemma_seed_stable(hs, t2, hi, n);
            lemma_owner_characterization(hs, t1, lo);
            lemma_owner_characterization(hs, t1, hi);
            assert(within(hs[o], hs[lo], t1) && within(hs[o], hs[hi], t1));
            assert(within(hs[o], hs[lo], t2) && within(hs[o], hs[hi], t2));
            lemma_hash_dist_symmetric(hs[o], hs[lo]);
            assert(within(hs[lo], hs[o], t2));
            assert(within(hs[lo], hs[hi], t2));
            lemma_seed_characterization(hs, t2, hi);
            assert(is_seed(hs, t2, lo) && within(hs[lo], hs[hi], t2));
            assert(!is_seed(hs, t2, hi));
            assert(false);
        }
    }
    vstd::set_lib::lemma_map_size(s2, img, f);
    assert forall|y: int| img.contains(y) implies s1.contains(y) by {
        let x = choose|x: int| s2.contains(x) && f(x) == y;
        lemma_owner_characterization(hs, t1, x);
        lemma_seed_stable(hs, t1, y, n);
    }
    vstd::set_lib::lemma_len_subset(img, s1);
}

/// The hash values of a record list, in record order.
pub open spec fn hashes_of(records: Seq<ImageWithHash>) -> Seq<Seq<u8>> {
    records.map_values(|r: ImageWithHash| r.hash@)
}

/// The records among the first `n` that share the exact hash value `v`,
/// in input order.
pub open spec fn sharers_upto(hs: Seq<Seq<u8>>, v: Seq<u8>, n: int) -> Seq<int>
    decreases n,
{
    if n <= 0 {
        Seq::empty()
    } else if hs[n - 1] == v {
        sharers_upto(hs, v, n - 1).push(n - 1)
    } else {
        sharers_upto(hs, v, n - 1)
    }
}

/// Sharer lists hold exactly the indices below `n` carrying the value, in
/// strictly increasing order.
pub proof fn lemma_sharers_upto_props(hs: Seq<Seq<u8>>, v: Seq<u8>, n: int)
    ensures
        forall|k: int|
            0 <= k < sharers_upto(hs, v, n).len() ==> 0 <= #[trigger] sharers_upto(hs, v, n)[k]
                < n && hs[sharers_upto(hs, v, n)[k]] == v,
        forall|k1: int, k2: int|
            0 <= k1 < k2 < sharers_upto(hs, v, n).len() ==> sharers_upto(hs, v, n)[k1]
                < sharers_upto(hs, v, n)[k2],
        forall|j: int| 0 <= j < n && hs[j] == v ==> sharers_upto(hs, v, n).contains(j),
    decreases n,
{
    if n > 0 {
        lemma_sharers_upto_props(hs, v, n - 1);
        let prev = sharers_upto(hs, v, n - 1);
        let cur = sharers_upto(hs, v, n);
        assert forall|j: int| 0 <= j < n && hs[j] == v implies cur.contains(j) by {
            if j < n - 1 {
                assert(prev.contains(j));
                let k = choose|k: int| 0 <= k < prev.len() && prev[k] == j;
                assert(cur[k] == j);
            } else {
                assert(cur.last() == j);
            }
        }
    }
}

/// The side table of a run: for each distinct hash value, the records
/// that carry exactly that value, so a matched value resolves to its
/// records without a pass over the whole record list.
struct SideTable {
    entries: Vec<(Vec<u8>, Vec<usize>)>,
}

/// The integer view of an index list.
pub open spec fn idx_view(s: Seq<usize>) -> Seq<int> {
    s.map_values(|u: usize| u as int)
}

/// Whether a table's entry list has an entry for a hash value.
spec fn table_has(entries: Seq<(Vec<u8>, Vec<usize>)>, v: Seq<u8>) -> bool {
    exists|a: int| 0 <= a < entries.len() && (#[trigger] entries[a]).0@ == v
}

impl SideTable {
    /// Well-formedness against the run's hashes: each distinct value
    /// appears once, carries exactly its sharers in input order, and
    /// every value of the run has its entry.
    spec fn wf(self, hs: Seq<Seq<u8>>) -> bool {
        &&& forall|a: int, b: int|
            0 <= a < b < self.entries@.len() ==> (#[trigger] self.entries@[a]).0@ != (
            #[trigger] self.entries@[b]).0@
        &&& forall|a: int|
            0 <= a < self.entries@.len() ==> idx_view((#[trigger] self.entries@[a]).1@)
                == sharers_upto(hs, self.entries@[a].0@, hs.len() as int)
        &&& forall|j: int| 0 <= j < hs.len() ==> table_has(self.entries@, #[trigger] hs[j])
    }
}

/// Builds the side table of a record list.
#[verifier::loop_isolation(false)]
fn build_side_table(records: &Vec<ImageWithHash>) -> (t: SideTable)
    ensures
        t.wf(hashes_of(records@)),
{
    let ghost hs = hashes_of(records@);
    let n: usize = records.len();
    let mut t = SideTable { entries: Vec::new() };
    let mut j: usize = 0;
    while j < n
        invariant
            0 <= j <= n,
            forall|a: int, b: int|
                0 <= a < b < t.entries@.len() ==> (#[trigger] t.entries@[a]).0@ != (
                #[trigger] t.entries@[b]).0@,
            forall|a: int|
                0 <= a < t.entries@.len() ==> idx_view((#[trigger] t.entries@[a]).1@)
                    == sharers_upto(hs, t.entries@[a].0@, j as int),
            forall|j2: int| 0 <= j2 < j ==> table_has(t.entries@, #[trigger] hs[j2]),
        decreases n - j,
    {
        let ghost pre = t.entries@;
        let m: usize = t.entries.len();
        let mut a: usize = 0;
        while a < m
            invariant
                0 <= a <= m,
                m == t.entries@.len(),
                t.entries@ == pre,
                forall|b: int| 0 <= b < a ==> (#[trigger] t.entries@[b]).0@ != hs[j as int],
            decreases m - a,
        {
            if crate::index::bytes_eq(&t.entries[a].0, &records[j].hash) {
                break ;
            }
            a = a + 1;
        }
        proof {
            assert(records@[j as int].hash@ == hs[j as int]);
        }
        if a < m {
            let ghost oldowners = t.entries@[a as int].1@;
            t.entries[a].1.push(j);
            proof {
                assert(t.entries@[a as int].1@ =~= oldowners.push(j));
                assert(idx_view(t.entries@[a as int].1@) =~= idx_view(oldowners).push(j as int));
                assert forall|b: int|
                    0 <= b < t.entries@.len() implies idx_view((#[trigger] t.entries@[b]).1@)
                    == sharers_upto(hs, t.entries@[b].0@, j + 1) by {
                    if b == a {
                        assert(t.entries@[b].0@ == hs[j as int]);
                    } else {
                        assert(t.entries@[b] == pre[b]);
                        assert(t.entries@[b].0@ != hs[j as int]);
                    }
                }
                assert forall|j2: int| 0 <= j2 < j + 1 implies table_has(
                    t.entries@,
                    #[trigger] hs[j2],
                ) by {
                    if j2 < j {
                        let b = choose|b: int|
                            0 <= b < pre.len() && (#[trigger] pre[b]).0@ == hs[j2];
                        assert((t.entries@[b]).0@ == hs[j2]);
                    } else {
                        assert((t.entries@[a as int]).0@ == hs[j2]);
                    }
                }
            }
        } else {
            let hv = vstd::slice::slice_to_vec(records[j].hash.as_slice());
            let mut owners: Vec<usize> = Vec::new();
            owners.push(j);
            t.entries.push((hv, owners));
            proof {
                let cur = t.entries@;
                assert(cur[cur.len() - 1].0@ == hs[j as int]);
                assert(cur[cur.len() - 1].1@ =~= seq![j]);
                // no earlier record carries this value, or the scan would
                // have found its entry
                assert forall|j2: int| 0 <= j2 < j implies hs[j2] != hs[j as int] by {
                    if hs[j2] == hs[j as int] {
                        assert(table_has(pre, hs[j2]));
                        let b = choose|b: int|
                            0 <= b < pre.len() && (#[trigger] pre[b]).0@ == hs[j2];
                        assert(b < m);
                    }
                }
                lemma_sharers_upto_props(hs, hs[j as int], j as int);
                assert(sharers_upto(hs, hs[j as int], j as int) =~= Seq::<int>::empty()) by {
                    if sharers_upto(hs, hs[j as int], j as int).len() > 0 {
                        assert(hs[sharers_upto(hs, hs[j as int], j as int)[0]] == hs[j as int]);
                    }
                }
                assert(idx_view(cur[cur.len() - 1].1@) =~= sharers_upto(hs, hs[j as int], j + 1));
                assert forall|b: int|
                    0 <= b < cur.len() implies idx_view((#[trigger] cur[b]).1@) == sharers_upto(
                    hs,
                    cur[b].0@,
                    j + 1,
                ) by {
                    if b < cur.len() - 1 {
                        assert(cur[b] == pre[b]);
                        assert(cur[b].0@ != hs[j as int]);
                    }
                }
                assert forall|j2: int| 0 <= j2 < j + 1 implies table_has(
                    cur,
                    #[trigger] hs[j2],
                ) by {
                    if j2 < j {
                        let b = choose|b: int|
                            0 <= b < pre.len() && (#[trigger] pre[b]).0@ == hs[j2];
                        assert((cur[b]).0@ == hs[j2]);
                    } else {
                        assert((cur[cur.len() - 1]).0@ == hs[j2]);
                    }
                }
            }
        }
        j = j + 1;
    }
    proof {
        assert(hs.len() == n);
    }
    t
}

/// Inserts a fresh index into a strictly increasing list, keeping it
/// strictly increasing.
#[verifier::loop_isolation(false)]
fn insert_sorted(v: &mut Vec<usize>, x: usize)
    requires
        forall|a: int, b: int| 0 <= a < b < old(v)@.len() ==> old(v)@[a] < old(v)@[b],
        forall|a: int| 0 <= a < old(v)@.len() ==> old(v)@[a] != x,
    ensures
        final(v)@.len() == old(v)@.len() + 1,
        forall|a: int, b: int| 0 <= a < b < final(v)@.len() ==> final(v)@[a] < final(v)@[b],
        forall|y: usize| final(v)@.contains(y) <==> (old(v)@.contains(y) || y == x),
{
    let ghost pre = v@;
    let n: usize = v.len();
    let mut p: usize = 0;
    while p < n
        invariant
            0 <= p <= n,
            v@ == pre,
            n == pre.len(),
            forall|a: int| 0 <= a < p ==> pre[a] < x,
        decreases n - p,
    {
        if v[p] > x {
            break ;
        }
        p = p + 1;
    }
    v.insert(p, x);
    proof {
        pre.insert_ensures(p as int, x);
        assert(forall|a: int| p <= a < pre.len() ==> pre[a] > x);
        assert forall|a: int, b: int| 0 <= a < b < v@.len() implies v@[a] < v@[b] by {
            if b < p {
            } else if a < p && b == p {
            } else if a < p {
                assert(v@[b] == pre[b - 1]);
            } else if a == p {
                assert(v@[b] == pre[b - 1]);
            } else {
                assert(v@[a] == pre[a - 1] && v@[b] == pre[b - 1]);
            }
        }
        assert forall|y: usize| v@.contains(y) implies (pre.contains(y) || y == x) by {
            let k = choose|k: int| 0 <= k < v@.len() && v@[k] == y;
            if k < p {
                assert(pre[k] == y);
            } else if k > p {
                assert(pre[k - 1] == y);
            }
        }
        assert forall|y: usize| (pre.contains(y) || y == x) implies v@.contains(y) by {
            if pre.contains(y) {
                let k = choose|k: int| 0 <= k < pre.len() && pre[k] == y;
                if k < p {
                    assert(v@[k] == y);
                } else {
                    assert(v@[k + 1] == y);
                }
            } else {
                assert(v@[p as int] == y);
            }
        }
    }
}

/// Two strictly increasing integer lists with the same members are the
/// same list.
proof fn lemma_increasing_same_members_equal(a: Seq<int>, b: Seq<int>)
    requires
        forall|i: int, j: int| 0 <= i < j < a.len() ==> a[i] < a[j],
        forall|i: int, j: int| 0 <= i < j < b.len() ==> b[i] < b[j],
        forall|x: int| a.contains(x) <==> b.contains(x),
    ensures
        a == b,
    decreases a.len(),
{
    if a.len() == 0 {
        if b.len() > 0 {
            assert(b.contains(b[0]));
            assert(a.contains(b[0]));
            assert(false);
        }
        assert(a =~= b);
    } else {
        assert(a.contains(a[0]));
        assert(b.contains(a[0]));
        let kb = choose|k: int| 0 <= k < b.len() && b[k] == a[0];
        assert(b.contains(b[0]));
        assert(a.contains(b[0]));
        let ka = choose|k: int| 0 <= k < a.len() && a[k] == b[0];
        assert(a[0] == b[0]) by {
            if a[0] < b[0] {
                if kb > 0 {
                    assert(b[0] < b[kb]);
                }
                assert(false);
            } else if b[0] < a[0] {
                if ka > 0 {
                    assert(a[0] < a[ka]);
                }
                assert(false);
            }
        }
        let at = a.drop_first();
        let bt = b.drop_first();
        assert(forall|k: int| 0 <= k < at.len() ==> #[trigger] at[k] == a[k + 1]);
        assert(forall|k: int| 0 <= k < bt.len() ==> #[trigger] bt[k] == b[k + 1]);
        assert forall|x: int| at.contains(x) implies bt.contains(x) by {
            let k = choose|k: int| 0 <= k < at.len() && at[k] == x;
            assert(a.contains(x));
            assert(x > a[0]);
            let k2 = choose|k2: int| 0 <= k2 < b.len() && b[k2] == x;
            assert(k2 > 0);
            assert(bt[k2 - 1] == x);
        }
        assert forall|x: int| bt.contains(x) implies at.contains(x) by {
            let k = choose|k: int| 0 <= k < bt.len() && bt[k] == x;
            assert(b.contains(x));
            assert(x > b[0]);
            let k2 = choose|k2: int| 0 <= k2 < a.len() && a[k2] == x;
            assert(k2 > 0);
            assert(at[k2 - 1] == x);
        }
        lemma_increasing_same_members_equal(at, bt);
        assert forall|i: int| 0 <= i < a.len() implies a[i] == b[i] by {
            if i > 0 {
                assert(at[i - 1] == bt[i - 1]);
            }
        }
        assert(a.len() == b.len());
        assert(a =~= b);
    }
}

/// Whether an emitted group carries exactly the records owned by seed `s`,
/// in input order.
pub open spec fn group_matches(
    records: Seq<ImageWithHash>,
    t: int,
    group: DuplicateGroup,
    s: int,
) -> bool {
    let mids = member_indices(hashes_of(records), t, s);
    &&& group.images@.len() == mids.len()
    &&& forall|k: int|
        0 <= k < mids.len() ==> #[trigger] group.images@[k] == records[mids[k]].info
}

/// The surplus copies a list of groups reports: each group counts its
/// members except one.
pub open spec fn surplus_sum(groups: Seq<DuplicateGroup>) -> int
    decreases groups.len(),
{
    if groups.len() == 0 {
        0
    } else {
        surplus_sum(groups.drop_last()) + groups.last().images@.len() - 1
    }
}

/// What grouping yields: one group per seed that owns at least two records,
/// in seed order, each carrying its members in input order, together with
/// the count of surplus copies — the sum over the groups of their size less
/// one, which equals the record count less the number of seeds.
pub open spec fn grouping_post(
    records: Seq<ImageWithHash>,
    t: int,
    groups: Seq<DuplicateGroup>,
    total: int,
) -> bool {
    let hs = hashes_of(records);
    let gs = group_seeds(hs, t);
    &&& groups.len() == gs.len()
    &&& forall|g: int| 0 <= g < gs.len() ==> group_matches(records, t, #[trigger] groups[g], gs[g])
    &&& total == surplus_sum(groups)
    &&& total == total_duplicates_model(hs, t)
}

/// The indices marked true in a visited map.
pub open spec fn visited_set(v: Seq<bool>) -> Set<int> {
    Set::new(|j: int| 0 <= j < v.len() && v[j])
}

proof fn lemma_visited_set_bound(v: Seq<bool>)
    ensures
        visited_set(v).finite(),
        visited_set(v).len() <= v.len(),
{
    lemma_int_range(0, v.len() as int);
    assert(visited_set(v).subset_of(set_int_range(0, v.len() as int)));
    lemma_len_subset(visited_set(v), set_int_range(0, v.len() as int));
}

/// Partitions hashed records into duplicate groups: records are walked in
/// input order; an unvisited record seeds a group, the index is searched
/// for every distinct hash value within the threshold of the seed's hash,
/// and each matched value pulls its sharers from the side table — every
/// unvisited record among them joins the group, kept in input order.
/// Groups that stay singletons are discarded. Returns the groups and the
/// total count of surplus copies.
#[verifier::loop_isolation(false)]
pub fn group_duplicates(records: &Vec<ImageWithHash>, threshold: u32) -> (r: (
    Vec<DuplicateGroup>,
    usize,
))
    ensures
        grouping_post(records@, threshold as int, r.0@, r.1 as int),
{
    broadcast use vstd::set::group_set_axioms;

    let ghost hs = hashes_of(records@);
    let ghost t = threshold as int;
    let n: usize = records.len();

    let mut index = MetricIndex::new();
    let mut i: usize = 0;
    while i < n
        invariant
            0 <= i <= n,
            index.wf(),
            forall|v: Seq<u8>| #[trigger]
                index.has(v) <==> exists|j: int| 0 <= j < i && hs[j] == v,
        decreases n - i,
    {
        let ghost pre = index;
        index.insert(&records[i].hash);
        proof {
            assert(records@[i as int].hash@ == hs[i as int]);
            assert forall|v: Seq<u8>| #[trigger] index.has(v) implies exists|j: int|
                0 <= j < i + 1 && hs[j] == v by {
                if pre.has(v) {
                    let j = choose|j: int| 0 <= j < i && hs[j] == v;
                    assert(0 <= j < i + 1 && hs[j] == v);
                } else {
                    assert(hs[i as int] == v);
                }
            }
            assert forall|v: Seq<u8>| (exists|j: int| 0 <= j < i + 1 && hs[j] == v) implies #[trigger] index.has(
                v,
            ) by {
                let j = choose|j: int| 0 <= j < i + 1 && hs[j] == v;
                if j < i {
                    assert(pre.has(v));
                }
            }
        }
        i = i + 1;
    }

    let table = build_side_table(records);

    let mut visited: Vec<bool> = Vec::new();
    let mut k: usize = 0;
    while k < n
        invariant
            0 <= k <= n,
            visited@.len() == k,
            forall|j: int| 0 <= j < k ==> !visited@[j],
        decreases n - k,
    {
        visited.push(false);
        k = k + 1;
    }

    let mut groups: Vec<DuplicateGroup> = Vec::new();
    let mut total: usize = 0;
    let ghost mut vcnt: int = 0;
    let ghost mut scnt: int = 0;
    proof {
        assert(visited_set(visited@) =~= Set::<int>::empty());
        assert(seeds_upto(hs, t, 0) =~= Set::<int>::empty());
        assert forall|j: int| 0 <= j < n implies !(owner(hs, t, j) < 0) by {
            lemma_owner_characterization(hs, t, j);
        }
    }
    i = 0;
    while i < n
        invariant
            0 <= i <= n,
            visited@.len() == n,
            forall|j: int| 0 <= j < n ==> (visited@[j] <==> owner(hs, t, j) < i),
            vcnt == visited_set(visited@).len(),
            visited_set(visited@).finite(),
            vcnt <= n,
            scnt == seeds_upto(hs, t, i as int).len(),
            total == vcnt - scnt,
            total == surplus_sum(groups@),
            groups@.len() == group_seeds_upto(hs, t, i as int).len(),
            forall|g: int|
                0 <= g < groups@.len() ==> group_matches(
                    records@,
                    t,
                    #[trigger] groups@[g],
                    group_seeds_upto(hs, t, i as int)[g],
                ),
        decreases n - i,
    {
        if !visited[i] {
            proof {
                lemma_owner_characterization(hs, t, i as int);
                assert(owner(hs, t, i as int) == i as int);
                assert(is_seed(hs, t, i as int));
            }
            let m = index.search(&records[i].hash, threshold);
            let ghost pre_vcnt = vcnt;
            // gather the group through the side table: each matched value
            // resolves to exactly the records sharing it
            let mut mids: Vec<usize> = Vec::new();
            let mm: usize = m.len();
            let mut vi: usize = 0;
            while vi < mm
                invariant
                    0 <= vi <= mm,
                    visited@.len() == n,
                    forall|r: int|
                        0 <= r < n ==> (visited@[r] <==> (owner(hs, t, r) < i as int || (owner(
                            hs,
                            t,
                            r,
                        ) == i as int && exists|w: int|
                            0 <= w < vi && hs[r] == #[trigger] views_of(m@)[w]))),
                    forall|a: int, b: int| 0 <= a < b < mids@.len() ==> mids@[a] < mids@[b],
                    forall|ru: usize| #[trigger]
                        mids@.contains(ru) <==> (ru < n && owner(hs, t, ru as int) == i as int
                            && exists|w: int|
                            0 <= w < vi && hs[ru as int] == #[trigger] views_of(m@)[w]),
                    vcnt == visited_set(visited@).len(),
                    visited_set(visited@).finite(),
                    vcnt == pre_vcnt + mids@.len(),
                    vcnt <= n,
                decreases mm - vi,
            {
                let ghost v = views_of(m@)[vi as int];
                proof {
                    assert(m@[vi as int]@ == v);
                    assert(holds_value(m@, v));
                    let j0 = choose|j0: int| 0 <= j0 < n && hs[j0] == v;
                    assert(table_has(table.entries@, hs[j0]));
                }
                let me: usize = table.entries.len();
                let mut a: usize = 0;
                while a < me
                    invariant
                        0 <= a <= me,
                        me == table.entries@.len(),
                        forall|b: int| 0 <= b < a ==> (#[trigger] table.entries@[b]).0@ != v,
                    decreases me - a,
                {
                    if crate::index::bytes_eq(&table.entries[a].0, &m[vi]) {
                        break ;
                    }
                    a = a + 1;
                }
                proof {
                    if a >= me {
                        let b = choose|b: int|
                            0 <= b < table.entries@.len() && (#[trigger] table.entries@[b]).0@
                                == v;
                        assert(false);
                    }
                    assert(table.entries@[a as int].0@ == v);
                    assert(idx_view(table.entries@[a as int].1@) == sharers_upto(
                        hs,
                        v,
                        hs.len() as int,
                    ));
                    lemma_sharers_upto_props(hs, v, n as int);
                }
                let ghost os = idx_view(table.entries@[a as int].1@);
                let oc: usize = table.entries[a].1.len();
                let mut k: usize = 0;
                while k < oc
                    invariant
                        0 <= k <= oc,
                        a < table.entries@.len(),
                        oc == table.entries@[a as int].1@.len(),
                        os == idx_view(table.entries@[a as int].1@),
                        visited@.len() == n,
                        forall|r: int|
                            0 <= r < n ==> (visited@[r] <==> (owner(hs, t, r) < i as int || (
                            owner(hs, t, r) == i as int && ((exists|w: int|
                                0 <= w < vi && hs[r] == #[trigger] views_of(m@)[w]) || (
                            exists|k2: int| 0 <= k2 < k && #[trigger] os[k2] == r))))),
                        forall|a2: int, b2: int|
                            0 <= a2 < b2 < mids@.len() ==> mids@[a2] < mids@[b2],
                        forall|ru: usize| #[trigger]
                            mids@.contains(ru) <==> (ru < n && owner(hs, t, ru as int) == i as int
                                && ((exists|w: int|
                                0 <= w < vi && hs[ru as int] == #[trigger] views_of(m@)[w]) || (
                            exists|k2: int| 0 <= k2 < k && #[trigger] os[k2] == ru as int))),
                        vcnt == visited_set(visited@).len(),
                        visited_set(visited@).finite(),
                        vcnt == pre_vcnt + mids@.len(),
                        vcnt <= n,
                    decreases oc - k,
                {
                    let j: usize = table.entries[a].1[k];
                    proof {
                        assert(os[k as int] == j as int);
                        assert(0 <= j < n && hs[j as int] == v);
                    }
                    if !visited[j] {
                        proof {
                            assert(within(v, hs[i as int], t));
                            assert(within(hs[j as int], hs[i as int], t));
                            lemma_hash_dist_symmetric(hs[i as int], hs[j as int]);
                            lemma_owner_characterization(hs, t, j as int);
                            if (j as int) < i as int {
                                assert(owner(hs, t, j as int) <= j as int);
                                assert(false);
                            }
                            lemma_owner_le(hs, t, j as int, i as int);
                            assert(owner(hs, t, j as int) == i as int);
                            assert(!mids@.contains(j));
                            assert forall|a2: int| 0 <= a2 < mids@.len() implies mids@[a2]
                                != j by {
                                if mids@[a2] == j {
                                    assert(mids@.contains(j));
                                }
                            }
                        }
                        let ghost prev_visited = visited@;
                        let ghost prev_mids = mids@;
                        visited[j] = true;
                        insert_sorted(&mut mids, j);
                        proof {
                            assert(visited_set(visited@) =~= visited_set(prev_visited).insert(
                                j as int,
                            ));
                            assert(!visited_set(prev_visited).contains(j as int));
                            vcnt = vcnt + 1;
                            lemma_visited_set_bound(visited@);
                            assert forall|r: int|
                                0 <= r < n implies (visited@[r] <==> (owner(hs, t, r) < i as int
                                || (owner(hs, t, r) == i as int && ((exists|w: int|
                                0 <= w < vi && hs[r] == #[trigger] views_of(m@)[w]) || (
                            exists|k2: int| 0 <= k2 < k + 1 && #[trigger] os[k2] == r))))) by {
                                if r == j as int {
                                    assert(os[k as int] == r);
                                } else {
                                    assert(visited@[r] == prev_visited[r]);
                                }
                            }
                            assert forall|ru: usize| #[trigger]
                                mids@.contains(ru) implies (ru < n && owner(hs, t, ru as int)
                                == i as int && ((exists|w: int|
                                0 <= w < vi && hs[ru as int] == #[trigger] views_of(m@)[w]) || (
                            exists|k2: int| 0 <= k2 < k + 1 && #[trigger] os[k2] == ru as int))) by {
                                if ru == j {
                                    assert(os[k as int] == ru as int);
                                } else {
                                    assert(prev_mids.contains(ru));
                                }
                            }
                            assert forall|ru: usize|
                                (ru < n && owner(hs, t, ru as int) == i as int && ((exists|w: int|
                                0 <= w < vi && hs[ru as int] == #[trigger] views_of(m@)[w]) || (
                            exists|k2: int|
                                0 <= k2 < k + 1 && #[trigger] os[k2]
                                    == ru as int))) implies #[trigger] mids@.contains(ru) by {
                                if ru != j {
                                    assert(prev_mids.contains(ru));
                                }
                            }
                        }
                    } else {
                        proof {
                            assert forall|r: int|
                                0 <= r < n implies (visited@[r] <==> (owner(hs, t, r) < i as int
                                || (owner(hs, t, r) == i as int && ((exists|w: int|
                                0 <= w < vi && hs[r] == #[trigger] views_of(m@)[w]) || (
                            exists|k2: int| 0 <= k2 < k + 1 && #[trigger] os[k2] == r))))) by {
                                if r == j as int {
                                    assert(visited@[r]);
                                }
                            }
                            assert forall|ru: usize|
                                (ru < n && owner(hs, t, ru as int) == i as int && ((exists|w: int|
                                0 <= w < vi && hs[ru as int] == #[trigger] views_of(m@)[w]) || (
                            exists|k2: int|
                                0 <= k2 < k + 1 && #[trigger] os[k2]
                                    == ru as int))) implies #[trigger] mids@.contains(ru) by {
                                if ru == j {
                                    assert(visited@[j as int]);
                                }
                            }
                        }
                    }
                    k = k + 1;
                }
                proof {
                    // a record carries this value exactly when it sits in
                    // this sharer list, which closes the value's wave
                    assert forall|r: int|
                        0 <= r < n implies (visited@[r] <==> (owner(hs, t, r) < i as int || (
                    owner(hs, t, r) == i as int && exists|w: int|
                        0 <= w < vi + 1 && hs[r] == #[trigger] views_of(m@)[w]))) by {
                        if owner(hs, t, r) == i as int {
                            if hs[r] == v {
                                assert(sharers_upto(hs, v, n as int).contains(r));
                                let k2 = choose|k2: int| 0 <= k2 < os.len() && os[k2] == r;
                                assert(os[k2] == r);
                            }
                            if exists|k2: int| 0 <= k2 < oc && #[trigger] os[k2] == r {
                                let k2 = choose|k2: int| 0 <= k2 < oc && #[trigger] os[k2] == r;
                                assert(hs[r] == v);
                                assert(views_of(m@)[vi as int] == v);
                            }
                        }
                    }
                    assert forall|ru: usize| #[trigger]
                        mids@.contains(ru) <==> (ru < n && owner(hs, t, ru as int) == i as int
                            && exists|w: int|
                            0 <= w < vi + 1 && hs[ru as int] == #[trigger] views_of(m@)[w]) by {
                        if ru < n && owner(hs, t, ru as int) == i as int {
                            if hs[ru as int] == v {
                                assert(sharers_upto(hs, v, n as int).contains(ru as int));
                                let k2 = choose|k2: int|
                                    0 <= k2 < os.len() && os[k2] == ru as int;
                                assert(os[k2] == ru as int);
                            }
                            if exists|k2: int| 0 <= k2 < oc && #[trigger] os[k2] == ru as int {
                                let k2 = choose|k2: int|
                                    0 <= k2 < oc && #[trigger] os[k2] == ru as int;
                                assert(hs[ru as int] == v);
                                assert(views_of(m@)[vi as int] == v);
                            }
                        }
                    }
                }
                vi = vi + 1;
            }
            proof {
                // after the last wave: matched exactly the records within
                // the threshold of the seed
                assert forall|r: int|
                    0 <= r < n implies (visited@[r] <==> (owner(hs, t, r) < i as int || owner(
                    hs,
                    t,
                    r,
                ) == i as int)) by {
                    if owner(hs, t, r) == i as int && !visited@[r] {
                        lemma_owner_characterization(hs, t, r);
                        lemma_hash_dist_symmetric(hs[r], hs[i as int]);
                        assert(exists|j2: int| 0 <= j2 < n && hs[j2] == hs[r]);
                        assert(holds_value(m@, hs[r]));
                        let w = choose|w: int|
                            0 <= w < views_of(m@).len() && views_of(m@)[w] == hs[r];
                        assert(views_of(m@)[w] == hs[r]);
                        assert(false);
                    }
                }
                assert forall|ru: usize| #[trigger]
                    mids@.contains(ru) <==> (ru < n && owner(hs, t, ru as int) == i as int) by {
                    if ru < n && owner(hs, t, ru as int) == i as int {
                        lemma_owner_characterization(hs, t, ru as int);
                        lemma_hash_dist_symmetric(hs[ru as int], hs[i as int]);
                        assert(exists|j2: int| 0 <= j2 < n && hs[j2] == hs[ru as int]);
                        assert(holds_value(m@, hs[ru as int]));
                        let w = choose|w: int|
                            0 <= w < views_of(m@).len() && views_of(m@)[w] == hs[ru as int];
                        assert(views_of(m@)[w] == hs[ru as int]);
                    }
                }
                // a strictly increasing list with exactly the members of
                // the seed's group is that member list
                lemma_member_indices_upto_props(hs, t, i as int, n as int);
                assert forall|a2: int, b2: int|
                    0 <= a2 < b2 < idx_view(mids@).len() implies idx_view(mids@)[a2] < idx_view(
                    mids@,
                )[b2] by {
                    assert(mids@[a2] < mids@[b2]);
                }
                assert forall|x: int| #[trigger]
                    idx_view(mids@).contains(x) implies member_indices(hs, t, i as int).contains(
                    x,
                ) by {
                    let a2 = choose|a2: int|
                        0 <= a2 < idx_view(mids@).len() && idx_view(mids@)[a2] == x;
                    assert(mids@.contains(mids@[a2]));
                    assert(member_indices_upto(hs, t, i as int, n as int).contains(x));
                }
                assert forall|x: int| #[trigger]
                    member_indices(hs, t, i as int).contains(x) implies idx_view(
                    mids@,
                ).contains(x) by {
                    let a2 = choose|a2: int|
                        0 <= a2 < member_indices(hs, t, i as int).len() && member_indices(
                            hs,
                            t,
                            i as int,
                        )[a2] == x;
                    assert(0 <= x < n && owner(hs, t, x) == i as int);
                    assert(mids@.contains(x as usize));
                    let a3 = choose|a3: int| 0 <= a3 < mids@.len() && mids@[a3] == x as usize;
                    assert(idx_view(mids@)[a3] == x);
                }
                lemma_increasing_same_members_equal(
                    idx_view(mids@),
                    member_indices(hs, t, i as int),
                );
            }
            let mlen: usize = mids.len();
            let mut imgs: Vec<ImageInfo> = Vec::new();
            let mut k2: usize = 0;
            while k2 < mlen
                invariant
                    0 <= k2 <= mlen,
                    mlen == mids@.len(),
                    idx_view(mids@) == member_indices(hs, t, i as int),
                    imgs@.len() == k2,
                    forall|q: int|
                        0 <= q < k2 ==> #[trigger] imgs@[q] == records@[idx_view(mids@)[q]].info,
                decreases mlen - k2,
            {
                proof {
                    lemma_member_indices_upto_props(hs, t, i as int, n as int);
                    assert(member_indices(hs, t, i as int)[k2 as int] == mids@[k2 as int] as int);
                    assert(0 <= mids@[k2 as int] < n);
                }
                imgs.push(records[mids[k2]].info.clone());
                k2 = k2 + 1;
            }
            proof {
                assert(member_indices_upto(hs, t, i as int, n as int) == member_indices(
                    hs,
                    t,
                    i as int,
                ));
                assert(imgs@.len() == member_indices(hs, t, i as int).len());
                lemma_member_indices_upto_props(hs, t, i as int, n as int);
                assert(member_indices(hs, t, i as int).contains(i as int));
                assert(imgs@.len() >= 1);
                // the seed set gains exactly this seed
                lemma_seeds_upto_basics(hs, t, i as int);
                lemma_seed_characterization(hs, t, i as int);
                assert forall|s: int| seeds_upto(hs, t, i as int).contains(s) implies !within(
                    hs[s],
                    hs[i as int],
                    t,
                ) by {
                    lemma_seed_stable(hs, t, s, i as int);
                }
                assert(seeds_upto(hs, t, i as int + 1) == seeds_upto(hs, t, i as int).insert(
                    i as int,
                ));
                assert(!seeds_upto(hs, t, i as int).contains(i as int));
                scnt = scnt + 1;
            }
            let glen: usize = imgs.len();
            if glen > 1 {
                let ghost pre_groups = groups@;
                groups.push(DuplicateGroup { images: imgs });
                total = total + (glen - 1);
                proof {
                    assert(group_seeds_upto(hs, t, i as int + 1) == group_seeds_upto(
                        hs,
                        t,
                        i as int,
                    ).push(i as int));
                    assert(groups@.drop_last() =~= pre_groups);
                    assert(groups@.last().images@.len() == glen);
                }
            } else {
                proof {
                    assert(member_indices(hs, t, i as int).len() == 1);
                    assert(group_seeds_upto(hs, t, i as int + 1) == group_seeds_upto(
                        hs,
                        t,
                        i as int,
                    ));
                }
            }
        } else {
            proof {
                lemma_owner_characterization(hs, t, i as int);
                let o = owner(hs, t, i as int);
                assert(o < i as int);
                assert(is_seed(hs, t, o) && within(hs[o], hs[i as int], t));
                assert(!is_seed(hs, t, i as int));
                // the seed set is unchanged
                lemma_seed_stable(hs, t, o, i as int);
                assert(seeds_upto(hs, t, i as int).contains(o));
                assert(seeds_upto(hs, t, i as int + 1) == seeds_upto(hs, t, i as int));
                // no record is owned by a non-seed
                assert forall|j: int| 0 <= j < n implies (visited@[j] <==> owner(hs, t, j) < i
                    + 1) by {
                    lemma_owner_characterization(hs, t, j);
                }
                assert(group_seeds_upto(hs, t, i as int + 1) == group_seeds_upto(hs, t, i as int));
            }
        }
        i = i + 1;
    }
    proof {
        assert forall|j: int| 0 <= j < n implies visited@[j] by {
            lemma_owner_characterization(hs, t, j);
        }
        assert(visited_set(visited@) =~= set_int_range(0, n as int));
        lemma_int_range(0, n as int);
        assert(vcnt == n);
        assert(group_seeds_upto(hs, t, n as int) == group_seeds(hs, t));
        assert(total == total_duplicates_model(hs, t));
    }
    (groups, total)
}

} // verus!
