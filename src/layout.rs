//! Proportional layout: each node's share of a one-dimensional extent, nested
//! under its parent's share, in integer units.

use vstd::prelude::*;
use crate::process::MyProcess;
use crate::sums::{sum_to, lemma_sum_congruent, lemma_sum_monotone, lemma_sum_single};
use crate::sorted::{sort_desc, sorted_desc, lemma_sorted_desc_from};

verus! {

/// One positioned band of the proportional diagram. Along the partitioned
/// axis it spans `offset .. offset + total_extent`: first the part of its
/// children (`children_extent`), then its own part (`own_extent`).
#[derive(Clone, Copy, Debug, PartialEq, Eq, Structural)]
pub struct Region {
    /// Index of the node in `Layout::nodes`; the number of nodes for the root.
    pub node: usize,
    pub pid: usize,
    /// Index of the region of the parent; the root is its own parent.
    pub parent_region: usize,
    pub offset: u64,
    pub total_extent: u64,
    pub own_extent: u64,
    pub children_extent: u64,
    /// Band index: 0 for the root, one more for each level below it.
    pub depth: usize,
}

/// The nodes, in descending order of total, and one region per laid-out node.
pub struct Layout {
    pub nodes: Vec<MyProcess>,
    pub regions: Vec<Region>,
}

/// `a * part / whole`, rounded down; 0 for an empty whole.
pub open spec fn share(a: int, part: int, whole: int) -> int {
    if whole <= 0 {
        0
    } else {
        a * part / whole
    }
}

pub open spec fn child_total_at(t: Seq<MyProcess>, pid: usize) -> spec_fn(int) -> int {
    |i: int|
        if t[i].parent == pid {
            t[i].total_int()
        } else {
            0
        }
}

/// The totals of the children of `pid`.
pub open spec fn children_total(t: Seq<MyProcess>, pid: usize) -> int {
    sum_to(child_total_at(t, pid), t.len() as int)
}

pub open spec fn sibling_extent_at(rs: Seq<Region>, p: int) -> spec_fn(int) -> int {
    |q: int|
        if 1 <= q && rs[q].parent_region == p {
            rs[q].total_extent as int
        } else {
            0
        }
}

/// The extents of the regions before `r` whose parent region is `p`.
pub open spec fn siblings_before(rs: Seq<Region>, p: int, r: int) -> int {
    sum_to(sibling_extent_at(rs, p), r)
}

pub open spec fn root_region(n: usize, capacity: u64) -> Region {
    Region {
        node: n,
        pid: 0,
        parent_region: 0,
        offset: 0,
        total_extent: capacity,
        own_extent: 0,
        children_extent: capacity,
        depth: 0,
    }
}

/// Region `r` is the share of its parent region that its node's total takes
/// among the totals of its siblings, placed after its earlier siblings.
pub open spec fn region_ok(t: Seq<MyProcess>, rs: Seq<Region>, r: int) -> bool {
    let p = rs[r].parent_region as int;
    let node = t[rs[r].node as int];
    let a = rs[p].children_extent as int;
    let s = children_total(t, rs[p].pid);
    &&& 0 <= p < r
    &&& rs[r].node < t.len()
    &&& rs[p].depth < t.len()
    &&& node.parent == rs[p].pid
    &&& rs[r].pid == node.pid
    &&& rs[r].total_extent == share(a, node.total_int(), s)
    &&& rs[r].own_extent == share(a, node.memory as int, s)
    &&& rs[r].children_extent == rs[r].total_extent - rs[r].own_extent
    &&& rs[r].depth == rs[p].depth + 1
    &&& rs[r].offset == rs[p].offset + siblings_before(rs, p, r)
}

proof fn lemma_floor_add(u: int, v: int, s: int)
    requires
        s > 0,
        u >= 0,
        v >= 0,
    ensures
        u / s + v / s <= (u + v) / s,
{
    vstd::arithmetic::div_mod::lemma_fundamental_div_mod(u, s);
    vstd::arithmetic::div_mod::lemma_fundamental_div_mod(v, s);
    vstd::arithmetic::div_mod::lemma_mod_pos_bound(u, s);
    vstd::arithmetic::div_mod::lemma_mod_pos_bound(v, s);
    let q = u / s + v / s;
    vstd::arithmetic::mul::lemma_mul_is_distributive_add(s, u / s, v / s);
    assert(s * q <= u + v);
    vstd::arithmetic::div_mod::lemma_div_is_ordered(s * q, u + v, s);
    vstd::arithmetic::div_mod::lemma_div_multiples_vanish(q, s);
}

proof fn lemma_share_bounds(a: int, x: int, y: int, s: int)
    requires
        a >= 0,
        0 <= x <= y <= s,
        s > 0,
    ensures
        0 <= a * x / s <= a * y / s <= a,
{
    assert(0 <= a * x <= a * y <= a * s) by (nonlinear_arith)
        requires
            a >= 0,
            0 <= x <= y <= s,
    ;
    vstd::arithmetic::div_mod::lemma_div_is_ordered(a * x, a * y, s);
    vstd::arithmetic::div_mod::lemma_div_is_ordered(a * y, a * s, s);
    vstd::arithmetic::div_mod::lemma_div_multiples_vanish(a, s);
    assert(a * s == s * a) by (nonlinear_arith);
    vstd::arithmetic::div_mod::lemma_div_pos_is_pos(a * x, s);
}

proof fn lemma_push_region(t: Seq<MyProcess>, rs: Seq<Region>, x: Region)
    ensures
        forall|p: int, r: int| 0 <= r <= rs.len() ==> #[trigger] siblings_before(rs.push(x), p, r) == siblings_before(rs, p, r),
        forall|r: int| 0 <= r < rs.len() && region_ok(t, rs, r) ==> #[trigger] region_ok(t, rs.push(x), r),
{
    let rs2 = rs.push(x);
    assert forall|p: int, r: int| 0 <= r <= rs.len() implies #[trigger] siblings_before(rs2, p, r) == siblings_before(rs, p, r) by {
        lemma_sum_congruent(sibling_extent_at(rs2, p), sibling_extent_at(rs, p), r);
    }
    assert forall|r: int| 0 <= r < rs.len() && region_ok(t, rs, r) implies #[trigger] region_ok(t, rs2, r) by {
        let p = rs[r].parent_region as int;
        lemma_sum_congruent(sibling_extent_at(rs2, p), sibling_extent_at(rs, p), r);
    }
}


pub open spec fn totals_fit(t: Seq<MyProcess>) -> bool {
    forall|i: int| 0 <= i < t.len() ==> #[trigger] t[i].total_int() <= u64::MAX
}

/// The regions fit in the capacity and each region's parts fit in it.
pub open spec fn regions_fit(rs: Seq<Region>, capacity: u64) -> bool {
    forall|r: int|
        0 <= r < rs.len() ==> (#[trigger] rs[r]).offset + rs[r].total_extent <= capacity
            && rs[r].children_extent <= rs[r].total_extent
}

/// No region's children take more than its children part.
pub open spec fn children_fit(rs: Seq<Region>) -> bool {
    forall|p: int| 0 <= p < rs.len() ==> #[trigger] siblings_before(rs, p, rs.len() as int) <= rs[p].children_extent
}

/// Regions come grouped by parent region, and siblings in the order of their nodes.
pub open spec fn regions_ordered(rs: Seq<Region>) -> bool {
    forall|q: int, r: int|
        1 <= q < r < rs.len() ==> (#[trigger] rs[q]).parent_region <= (#[trigger] rs[r]).parent_region && (
        rs[q].parent_region == rs[r].parent_region ==> rs[q].node < rs[r].node)
}

/// Every child node of region `p` has a region under `p`.
pub open spec fn expanded(t: Seq<MyProcess>, rs: Seq<Region>, p: int) -> bool {
    forall|i: int|
        0 <= i < t.len() && #[trigger] t[i].parent == rs[p].pid ==> exists|r: int|
            1 <= r < rs.len() && rs[r].parent_region == p && #[trigger] rs[r].node == i
}

fn children_total_exec(t: &Vec<MyProcess>, pid: usize) -> (s: u128)
    requires
        totals_fit(t@),
    ensures
        s == children_total(t@, pid),
{
    let n = t.len();
    let mut s: u128 = 0;
    let mut i: usize = 0;
    while i < n
        invariant
            n == t@.len(),
            totals_fit(t@),
            i <= n,
            s == sum_to(child_total_at(t@, pid), i as int),
            s <= i * 0xFFFF_FFFF_FFFF_FFFFu128,
        decreases n - i,
    {
        proof {
            assert(t@[i as int].total_int() <= u64::MAX);
            assert((i + 1) * 0xFFFF_FFFF_FFFF_FFFFu128 <= 0xFFFF_FFFF_FFFF_FFFFu128 * 0xFFFF_FFFF_FFFF_FFFFu128) by (nonlinear_arith)
                requires
                    i + 1 <= 0xFFFF_FFFF_FFFF_FFFFu128,
            ;
        }
        if t[i].parent == pid {
            s = s + (t[i].memory as u128 + t[i].children_memory as u128);
        }
        i = i + 1;
    }
    s
}

/// Lays out the children of region `p` after the last region.
fn expand(t: &Vec<MyProcess>, rs: &mut Vec<Region>, p: usize, capacity: u64)
    requires
        totals_fit(t@),
        p < old(rs)@.len(),
        old(rs)@[p as int].depth < t@.len(),
        old(rs)@[p as int].depth + 1 <= usize::MAX,
        forall|r: int| 1 <= r < old(rs)@.len() ==> (#[trigger] old(rs)@[r]).parent_region < p,
        forall|r: int| 1 <= r < old(rs)@.len() ==> region_ok(t@, old(rs)@, r),
        regions_fit(old(rs)@, capacity),
        children_fit(old(rs)@),
        regions_ordered(old(rs)@),
    ensures
        final(rs)@.len() >= old(rs)@.len(),
        final(rs)@.subrange(0, old(rs)@.len() as int) == old(rs)@,
        forall|r: int| old(rs)@.len() <= r < final(rs)@.len() ==> (#[trigger] final(rs)@[r]).parent_region == p
            && final(rs)@[r].depth == old(rs)@[p as int].depth + 1,
        forall|r: int| 1 <= r < final(rs)@.len() ==> region_ok(t@, final(rs)@, r),
        regions_fit(final(rs)@, capacity),
        children_fit(final(rs)@),
        regions_ordered(final(rs)@),
        expanded(t@, final(rs)@, p as int),
        forall|q: int| 0 <= q < old(rs)@.len() && expanded(t@, old(rs)@, q) ==> expanded(t@, final(rs)@, q),
{
    let ghost old_rs = rs@;
    let ghost old_len = rs@.len();
    let n = t.len();
    let pid = rs[p].pid;
    let a = rs[p].children_extent;
    let base = rs[p].offset;
    let depth = rs[p].depth + 1;
    let s = children_total_exec(t, pid);
    let mut cursor: u64 = base;
    let mut i: usize = 0;
    proof {
        lemma_sum_single(sibling_extent_at(rs@, p as int), -1, rs@.len() as int);
    }
    while i < n
        invariant
            n == t@.len(),
            totals_fit(t@),
            p < old_len,
            old_len <= rs@.len(),
            rs@.subrange(0, old_len as int) == old_rs,
            pid == rs@[p as int].pid,
            a == rs@[p as int].children_extent,
            base == rs@[p as int].offset,
            depth == rs@[p as int].depth + 1,
            rs@[p as int].depth < n,
            s == children_total(t@, pid),
            i <= n,
            forall|r: int| 1 <= r < old_len ==> (#[trigger] rs@[r]).parent_region < p,
            forall|r: int| old_len <= r < rs@.len() ==> (#[trigger] rs@[r]).parent_region == p
                && rs@[r].depth == depth && rs@[r].node < i,
            forall|r: int| 1 <= r < rs@.len() ==> region_ok(t@, rs@, r),
            regions_fit(rs@, capacity),
            regions_ordered(rs@),
            forall|q: int| 0 <= q < rs@.len() && q != p ==> #[trigger] siblings_before(rs@, q, rs@.len() as int) <= rs@[q].children_extent,
            cursor == base + siblings_before(rs@, p as int, rs@.len() as int),
            s > 0 ==> cursor - base <= (a as int) * sum_to(child_total_at(t@, pid), i as int) / (s as int),
            s == 0 ==> cursor == base,
            base + a <= capacity,
            forall|k: int| 0 <= k < i && #[trigger] t@[k].parent == pid ==> exists|r: int|
                old_len <= r < rs@.len() && rs@[r].node == k,
            forall|q: int| 0 <= q < old_len && expanded(t@, old_rs, q) ==> expanded(t@, rs@, q),
        decreases n - i,
    {
        if t[i].parent == pid {
            proof {
                assert(t@[i as int].total_int() <= u64::MAX);
            }
            let total: u64 = t[i].memory + t[i].children_memory;
            let ghost acc = sum_to(child_total_at(t@, pid), i as int);
            proof {
                assert(forall|k: int| 0 <= k < n ==> 0 <= #[trigger] child_total_at(t@, pid)(k));
                lemma_sum_monotone(child_total_at(t@, pid), i + 1, n as int);
                lemma_sum_monotone(child_total_at(t@, pid), i as int, n as int);
                lemma_sum_monotone(child_total_at(t@, pid), 0, i as int);
                assert(acc >= 0);
                assert(acc + total <= s);
                if s > 0 {
                    lemma_share_bounds(a as int, t@[i as int].memory as int, total as int, s as int);
                    lemma_share_bounds(a as int, acc + total, s as int, s as int);
                    lemma_floor_add(a * acc, a * total, s as int);
                    vstd::arithmetic::mul::lemma_mul_is_distributive_add(a as int, acc, total as int);
                    lemma_share_bounds(a as int, acc, acc + total, s as int);
                    assert((a as u128) * (total as u128) <= 0xFFFF_FFFF_FFFF_FFFFu128 * 0xFFFF_FFFF_FFFF_FFFFu128) by (nonlinear_arith)
                        requires
                            a <= 0xFFFF_FFFF_FFFF_FFFFu64,
                            total <= 0xFFFF_FFFF_FFFF_FFFFu64,
                    ;
                    assert((a as u128) * (t@[i as int].memory as u128) <= 0xFFFF_FFFF_FFFF_FFFFu128 * 0xFFFF_FFFF_FFFF_FFFFu128) by (nonlinear_arith)
                        requires
                            a <= 0xFFFF_FFFF_FFFF_FFFFu64,
                            t@[i as int].memory <= 0xFFFF_FFFF_FFFF_FFFFu64,
                    ;
                }
            }
            let ext: u64 = if s == 0 {
                0
            } else {
                ((a as u128) * (total as u128) / s) as u64
            };
            let own: u64 = if s == 0 {
                0
            } else {
                ((a as u128) * (t[i].memory as u128) / s) as u64
            };
            let region = Region {
                node: i,
                pid: t[i].pid,
                parent_region: p,
                offset: cursor,
                total_extent: ext,
                own_extent: own,
                children_extent: ext - own,
                depth: depth,
            };
            let ghost before = rs@;
            proof {
                lemma_push_region(t@, before, region);
            }
            rs.push(region);
            proof {
                let len = rs@.len() as int;
                assert(rs@ == before.push(region));
                assert(siblings_before(before.push(region), p as int, len - 1) == siblings_before(before, p as int, len - 1));
                assert(siblings_before(rs@, p as int, len) == siblings_before(before, p as int, len - 1) + ext);
                assert forall|q: int| 0 <= q < len && q != p implies #[trigger] siblings_before(rs@, q, len) <= rs@[q].children_extent by {
                    if q == len - 1 {
                        assert forall|r: int| 0 <= r < len && r != -1 implies #[trigger] sibling_extent_at(rs@, q)(r) == 0 by {
                            if 1 <= r {
                                assert(rs@[r].parent_region <= p);
                            }
                        }
                        lemma_sum_single(sibling_extent_at(rs@, q), -1, len);
                    } else {
                        assert(siblings_before(before.push(region), q, len - 1) == siblings_before(before, q, len - 1));
                        assert(siblings_before(rs@, q, len) == siblings_before(before, q, len - 1));
                        assert(rs@[q] == before[q]);
                    }
                }
                assert(region_ok(t@, rs@, len - 1));
                assert(rs@.subrange(0, old_len as int) == old_rs);
                assert forall|q: int| 0 <= q < old_len && expanded(t@, old_rs, q) implies expanded(t@, rs@, q) by {
                    assert forall|k: int| 0 <= k < t@.len() && #[trigger] t@[k].parent == rs@[q].pid implies exists|r: int|
                        1 <= r < rs@.len() && rs@[r].parent_region == q && #[trigger] rs@[r].node == k by {
                        assert(expanded(t@, before, q));
                        let r = choose|r: int| 1 <= r < before.len() && before[r].parent_region == q && #[trigger] before[r].node == k;
                        assert(rs@[r] == before[r]);
                    }
                }
                assert forall|k: int| 0 <= k <= i && #[trigger] t@[k].parent == pid implies exists|r: int|
                    old_len <= r < rs@.len() && rs@[r].node == k by {
                    if k == i {
                        assert(rs@[len - 1].node == k);
                    } else {
                        let r = choose|r: int| old_len <= r < before.len() && before[r].node == k;
                        assert(rs@[r] == before[r]);
                    }
                }
            }
            cursor = cursor + ext;
        }
        i = i + 1;
    }
    proof {
        if s > 0 {
            assert(sum_to(child_total_at(t@, pid), n as int) == s);
            lemma_share_bounds(a as int, s as int, s as int, s as int);
        }
        assert(children_fit(rs@));
    }
}


/// Partitions `capacity` among the process tree: the root's children share
/// it in proportion to their totals, and each node's children share its
/// children part the same way, heaviest first. Regions are listed band by
/// band; the nodes below the band of depth `nodes.len()` are left out.
pub fn layout(procs: &Vec<MyProcess>, capacity: u64) -> (r: Layout)
    requires
        totals_fit(procs@),
    ensures
        r.nodes@ == sorted_desc(5, procs@),
        r.regions@.len() >= 1,
        r.regions@[0] == root_region(procs@.len() as usize, capacity),
        forall|k: int| 1 <= k < r.regions@.len() ==> region_ok(r.nodes@, r.regions@, k),
        regions_ordered(r.regions@),
        regions_fit(r.regions@, capacity),
        children_fit(r.regions@),
        forall|p: int|
            0 <= p < r.regions@.len() && (#[trigger] r.regions@[p]).depth < r.nodes@.len() ==> expanded(
                r.nodes@,
                r.regions@,
                p,
            ),
{
    let mut copy: Vec<MyProcess> = Vec::new();
    let mut i: usize = 0;
    while i < procs.len()
        invariant
            i <= procs@.len(),
            copy@ == procs@.subrange(0, i as int),
        decreases procs@.len() - i,
    {
        copy.push(procs[i].copied());
        proof {
            assert(procs@.subrange(0, i + 1) == procs@.subrange(0, i as int).push(procs@[i as int]));
        }
        i = i + 1;
    }
    proof {
        assert(procs@.subrange(0, procs@.len() as int) == procs@);
    }
    let t = sort_desc(5, copy);
    proof {
        assert forall|k: int| 0 <= k < t@.len() implies #[trigger] t@[k].total_int() <= u64::MAX by {
            lemma_sorted_desc_from(5, procs@, k);
        }
        crate::sorted::lemma_sorted_desc_permutes(5, procs@);
        vstd::seq_lib::to_multiset_len(procs@);
        vstd::seq_lib::to_multiset_len(t@);
    }
    let n = t.len();
    let mut rs: Vec<Region> = Vec::new();
    rs.push(Region {
        node: n,
        pid: 0,
        parent_region: 0,
        offset: 0,
        total_extent: capacity,
        own_extent: 0,
        children_extent: capacity,
        depth: 0,
    });
    proof {
        lemma_sum_single(sibling_extent_at(rs@, 0), -1, 1);
    }
    let mut level: usize = 0;
    let mut start: usize = 0;
    let mut end: usize = 1;
    while level < n
        invariant
            n == t@.len(),
            totals_fit(t@),
            1 <= end == rs@.len(),
            start <= end,
            level <= n,
            rs@[0] == root_region(n, capacity),
            forall|q: int| start <= q < end ==> (#[trigger] rs@[q]).depth == level,
            forall|q: int| 0 <= q < start ==> (#[trigger] rs@[q]).depth < level,
            forall|q: int| 0 <= q < start ==> expanded(t@, rs@, q),
            forall|k: int| 1 <= k < rs@.len() ==> (#[trigger] rs@[k]).parent_region < start,
            forall|k: int| 1 <= k < rs@.len() ==> region_ok(t@, rs@, k),
            regions_fit(rs@, capacity),
            children_fit(rs@),
            regions_ordered(rs@),
        decreases n - level,
    {
        let mut p: usize = start;
        while p < end
            invariant
                n == t@.len(),
                totals_fit(t@),
                1 <= end <= rs@.len(),
                start <= p <= end,
                level < n,
                rs@[0] == root_region(n, capacity),
                forall|q: int| start <= q < end ==> (#[trigger] rs@[q]).depth == level,
                forall|q: int| end <= q < rs@.len() ==> (#[trigger] rs@[q]).depth == level + 1,
                forall|q: int| 0 <= q < start ==> (#[trigger] rs@[q]).depth < level,
                forall|q: int| 0 <= q < p ==> expanded(t@, rs@, q),
                forall|k: int| 1 <= k < rs@.len() ==> (#[trigger] rs@[k]).parent_region < p,
                forall|k: int| 1 <= k < rs@.len() ==> region_ok(t@, rs@, k),
                regions_fit(rs@, capacity),
                children_fit(rs@),
                regions_ordered(rs@),
            decreases end - p,
        {
            let ghost before = rs@;
            expand(&t, &mut rs, p, capacity);
            proof {
                assert forall|q: int| 0 <= q < rs@.len() && q < before.len() implies #[trigger] rs@[q] == before[q] by {
                    assert(rs@.subrange(0, before.len() as int)[q] == rs@[q]);
                }
            }
            p = p + 1;
        }
        start = end;
        end = rs.len();
        level = level + 1;
    }
    Layout { nodes: t, regions: rs }
}

} // verus!
