//! Reconstruction of the process tree from a flat, possibly inconsistent snapshot:
//! identifier repair, cycle breaking, depths and memory roll-up.

use vstd::prelude::*;
use vstd::set_lib::*;
use vstd::relations::injective_on;
use crate::process::MyProcess;
use crate::sums::{sum_to, lemma_sum_bounded, lemma_sum_monotone, lemma_sum_congruent, lemma_sum_add, lemma_sum_single, col_sums, row_sums, lemma_sum_swap};

verus! {

/// The sentinel that bounds every walk up a parent chain.
pub const MAX_DEPTH: usize = 1000;

pub open spec fn has_pid(s: Seq<MyProcess>, p: usize) -> bool {
    exists|i: int| 0 <= i < s.len() && s[i].pid == p
}

pub open spec fn unique_pids(s: Seq<MyProcess>) -> bool {
    forall|i: int, j: int| 0 <= i < s.len() && 0 <= j < s.len() && i != j ==> s[i].pid != s[j].pid
}

pub open spec fn no_zero_pid(s: Seq<MyProcess>) -> bool {
    forall|i: int| 0 <= i < s.len() ==> s[i].pid != 0
}

/// Every parent reference is the root or names a node of the set.
pub open spec fn parents_resolved(s: Seq<MyProcess>) -> bool {
    forall|i: int| 0 <= i < s.len() ==> s[i].parent == 0 || has_pid(s, s[i].parent)
}

/// A node set keyed by identifier: distinct, non-zero identifiers.
pub open spec fn keyed(s: Seq<MyProcess>) -> bool {
    unique_pids(s) && no_zero_pid(s)
}

/// The parent of identifier `p`; the root for an identifier that names no node.
pub open spec fn parent_of(s: Seq<MyProcess>, p: usize) -> usize {
    if has_pid(s, p) {
        s[choose|i: int| 0 <= i < s.len() && s[i].pid == p].parent
    } else {
        0
    }
}

/// The identifier reached from `p` after `k` steps up the parent chain.
pub open spec fn ancestor(s: Seq<MyProcess>, p: usize, k: nat) -> usize
    decreases k,
{
    if k == 0 {
        p
    } else {
        parent_of(s, ancestor(s, p, (k - 1) as nat))
    }
}

/// The chain from `p` reaches the root within `k` steps.
pub open spec fn reaches_root(s: Seq<MyProcess>, p: usize, k: nat) -> bool {
    ancestor(s, p, k) == 0
}

/// `p` lies on a cycle of the parent relation.
pub open spec fn on_cycle(s: Seq<MyProcess>, p: usize) -> bool {
    exists|k: nat| 1 <= k <= s.len() && ancestor(s, p, k) == p
}

/// `p` lies on a cycle and is the lowest identifier on it: the node whose
/// parent is cut to break that cycle.
pub open spec fn cut_point(s: Seq<MyProcess>, p: usize) -> bool {
    p != 0 && on_cycle(s, p) && forall|k: nat| k < s.len() ==> p <= #[trigger] ancestor(s, p, k)
}

pub proof fn lemma_parent_of_index(s: Seq<MyProcess>, i: int)
    requires
        unique_pids(s),
        0 <= i < s.len(),
    ensures
        has_pid(s, s[i].pid),
        parent_of(s, s[i].pid) == s[i].parent,
{
    assert(has_pid(s, s[i].pid));
}

/// Index of the node with identifier `p`, if there is one.
pub fn find_index(v: &Vec<MyProcess>, p: usize) -> (r: Option<usize>)
    ensures
        match r {
            Some(i) => i < v@.len() && v@[i as int].pid == p,
            None => !has_pid(v@, p),
        },
{
    let mut i: usize = 0;
    while i < v.len()
        invariant
            i <= v@.len(),
            forall|j: int| 0 <= j < i ==> v@[j].pid != p,
        decreases v@.len() - i,
    {
        if v[i].pid == p {
            return Some(i);
        }
        i = i + 1;
    }
    None
}

/// The parent of identifier `p`, or 0 where no node has that identifier.
pub fn parent_lookup(v: &Vec<MyProcess>, p: usize) -> (r: usize)
    requires
        unique_pids(v@),
    ensures
        r == parent_of(v@, p),
{
    match find_index(v, p) {
        Some(i) => {
            proof {
                lemma_parent_of_index(v@, i as int);
            }
            v[i].parent
        },
        None => 0,
    }
}


/// Same length and the same identifier at every position.
pub open spec fn same_pids(a: Seq<MyProcess>, b: Seq<MyProcess>) -> bool {
    a.len() == b.len() && forall|i: int| 0 <= i < a.len() ==> a[i].pid == b[i].pid
}

pub proof fn lemma_same_pids(a: Seq<MyProcess>, b: Seq<MyProcess>)
    requires
        same_pids(a, b),
    ensures
        forall|p: usize| has_pid(a, p) == has_pid(b, p),
        unique_pids(a) == unique_pids(b),
        no_zero_pid(a) == no_zero_pid(b),
{
    assert forall|p: usize| has_pid(a, p) == has_pid(b, p) by {
        if has_pid(a, p) {
            let i = choose|i: int| 0 <= i < a.len() && a[i].pid == p;
            assert(b[i].pid == p);
        }
        if has_pid(b, p) {
            let i = choose|i: int| 0 <= i < b.len() && b[i].pid == p;
            assert(a[i].pid == p);
        }
    }
}

/// Record `i` survives normalisation: its identifier is not the root's and
/// no later record carries the same identifier.
pub open spec fn kept(s: Seq<MyProcess>, i: int) -> bool {
    s[i].pid != 0 && forall|j: int| i < j < s.len() ==> s[j].pid != s[i].pid
}

/// The records among the first `k` that survive normalisation, in order.
pub open spec fn kept_prefix(s: Seq<MyProcess>, k: int) -> Seq<MyProcess>
    decreases k,
{
    if k <= 0 {
        seq![]
    } else if kept(s, k - 1) {
        kept_prefix(s, k - 1).push(s[k - 1])
    } else {
        kept_prefix(s, k - 1)
    }
}

/// Drops records with identifier 0 and, of records that share an identifier,
/// keeps the last one.
pub fn normalize(records: &Vec<MyProcess>) -> (r: Vec<MyProcess>)
    ensures
        r@ == kept_prefix(records@, records@.len() as int),
        keyed(r@),
{
    let mut out: Vec<MyProcess> = Vec::new();
    let n = records.len();
    let mut i: usize = 0;
    while i < n
        invariant
            n == records@.len(),
            i <= n,
            out@ == kept_prefix(records@, i as int),
            keyed(out@),
            forall|a: int, j: int|
                0 <= a < out@.len() && i <= j < n ==> #[trigger] records@[j].pid != #[trigger] out@[a].pid,
        decreases n - i,
    {
        let pid = records[i].pid;
        let mut keep = pid != 0;
        let mut j: usize = i + 1;
        while j < n
            invariant
                n == records@.len(),
                i < j <= n,
                pid == records@[i as int].pid,
                keep == (pid != 0 && forall|m: int| i < m < j ==> records@[m].pid != pid),
            decreases n - j,
        {
            if records[j].pid == pid {
                keep = false;
            }
            j = j + 1;
        }
        if keep {
            out.push(records[i].copied());
        }
        i = i + 1;
    }
    out
}

/// Rewrites to the root every parent reference that names no node.
pub fn repair_parents(v: &mut Vec<MyProcess>)
    requires
        keyed(old(v)@),
    ensures
        final(v)@.len() == old(v)@.len(),
        forall|i: int|
            0 <= i < old(v)@.len() ==> #[trigger] final(v)@[i] == (MyProcess {
                parent: if has_pid(old(v)@, old(v)@[i].parent) {
                    old(v)@[i].parent
                } else {
                    0
                },
                ..old(v)@[i]
            }),
{
    let ghost orig = v@;
    let n = v.len();
    let mut i: usize = 0;
    while i < n
        invariant
            n == v@.len(),
            i <= n,
            same_pids(orig, v@),
            forall|j: int| i <= j < n ==> v@[j] == orig[j],
            forall|j: int|
                0 <= j < i ==> #[trigger] v@[j] == (MyProcess {
                    parent: if has_pid(orig, orig[j].parent) {
                        orig[j].parent
                    } else {
                        0
                    },
                    ..orig[j]
                }),
        decreases n - i,
    {
        proof {
            lemma_same_pids(orig, v@);
        }
        let found = find_index(v, v[i].parent);
        if found.is_none() {
            let mut p = v[i].copied();
            p.parent = 0;
            v.set(i, p);
        }
        i = i + 1;
    }
}


pub proof fn lemma_ancestor_compose(s: Seq<MyProcess>, p: usize, a: nat, b: nat)
    ensures
        ancestor(s, p, a + b) == ancestor(s, ancestor(s, p, a), b),
    decreases b,
{
    if b > 0 {
        lemma_ancestor_compose(s, p, a, (b - 1) as nat);
        assert((a + b - 1) as nat == a + (b - 1) as nat);
    }
}

pub proof fn lemma_root_stays(s: Seq<MyProcess>, k: nat)
    requires
        no_zero_pid(s),
    ensures
        ancestor(s, 0, k) == 0,
    decreases k,
{
    if k > 0 {
        lemma_root_stays(s, (k - 1) as nat);
    }
}

/// Once the chain reaches the root it stays there.
pub proof fn lemma_root_after(s: Seq<MyProcess>, p: usize, k: nat, m: nat)
    requires
        no_zero_pid(s),
        ancestor(s, p, k) == 0,
        k <= m,
    ensures
        ancestor(s, p, m) == 0,
{
    lemma_ancestor_compose(s, p, k, (m - k) as nat);
    lemma_root_stays(s, (m - k) as nat);
}

/// Whether `x` is the node cut to break the cycle it lies on.
pub fn is_cut_point(v: &Vec<MyProcess>, x: usize) -> (r: bool)
    requires
        keyed(v@),
    ensures
        r == cut_point(v@, x),
{
    if x == 0 {
        return false;
    }
    let n = v.len();
    let mut k: usize = 0;
    let mut cur = x;
    let mut found = false;
    let mut lowest = true;
    while k < n
        invariant
            n == v@.len(),
            keyed(v@),
            x != 0,
            k <= n,
            cur == ancestor(v@, x, k as nat),
            found == exists|j: nat| 1 <= j <= k && #[trigger] ancestor(v@, x, j) == x,
            lowest == forall|j: nat| j < k ==> x <= #[trigger] ancestor(v@, x, j),
        decreases n - k,
    {
        lowest = lowest && x <= cur;
        cur = parent_lookup(v, cur);
        k = k + 1;
        proof {
            assert(cur == ancestor(v@, x, k as nat));
            if found {
                let j = choose|j: nat| 1 <= j <= k - 1 && #[trigger] ancestor(v@, x, j) == x;
                assert(1 <= j <= k);
            }
            if !found && cur != x {
                assert forall|j: nat| 1 <= j <= k implies #[trigger] ancestor(v@, x, j) != x by {
                    if j < k {
                    }
                }
            }
        }
        found = found || cur == x;
        if cur == 0 && !found {
            proof {
                assert forall|j: nat| 1 <= j <= n implies #[trigger] ancestor(v@, x, j) != x by {
                    if j >= k {
                        lemma_root_after(v@, x, k as nat, j);
                    }
                }
            }
            return false;
        }
    }
    found && lowest
}

/// Sets to the root the parent of every cut point: the lowest identifier of
/// each cycle of the parent relation.
pub fn break_cycles(v: &mut Vec<MyProcess>)
    requires
        keyed(old(v)@),
    ensures
        final(v)@.len() == old(v)@.len(),
        forall|i: int|
            0 <= i < old(v)@.len() ==> #[trigger] final(v)@[i] == (MyProcess {
                parent: if cut_point(old(v)@, old(v)@[i].pid) {
                    0
                } else {
                    old(v)@[i].parent
                },
                ..old(v)@[i]
            }),
{
    let n = v.len();
    let mut cuts: Vec<bool> = Vec::new();
    let mut i: usize = 0;
    while i < n
        invariant
            n == v@.len(),
            keyed(v@),
            i <= n,
            cuts@.len() == i,
            forall|j: int| 0 <= j < i ==> cuts@[j] == cut_point(v@, v@[j].pid),
        decreases n - i,
    {
        let c = is_cut_point(v, v[i].pid);
        cuts.push(c);
        i = i + 1;
    }
    let ghost orig = v@;
    let mut i: usize = 0;
    while i < n
        invariant
            n == v@.len(),
            n == cuts@.len(),
            orig.len() == n,
            i <= n,
            forall|j: int| 0 <= j < n ==> cuts@[j] == cut_point(orig, orig[j].pid),
            forall|j: int| i <= j < n ==> v@[j] == orig[j],
            forall|j: int|
                0 <= j < i ==> #[trigger] v@[j] == (MyProcess {
                    parent: if cut_point(orig, orig[j].pid) {
                        0
                    } else {
                        orig[j].parent
                    },
                    ..orig[j]
                }),
        decreases n - i,
    {
        if cuts[i] {
            let mut p = v[i].copied();
            p.parent = 0;
            v.set(i, p);
        }
        i = i + 1;
    }
}


/// `after` is `before` with the parent of every cut point set to the root.
pub open spec fn cycles_broken(before: Seq<MyProcess>, after: Seq<MyProcess>) -> bool {
    &&& same_pids(before, after)
    &&& forall|i: int|
        0 <= i < before.len() ==> #[trigger] after[i].parent == if cut_point(before, before[i].pid) {
            0
        } else {
            before[i].parent
        }
}

/// Every node of the set reaches the root within `k` steps.
pub open spec fn all_reach_root(s: Seq<MyProcess>, k: nat) -> bool {
    forall|i: int| 0 <= i < s.len() ==> #[trigger] reaches_root(s, s[i].pid, k)
}

proof fn lemma_pigeonhole(f: spec_fn(int) -> int, n: int)
    requires
        n >= 0,
        forall|i: int| 0 <= i <= n ==> 0 <= #[trigger] f(i) < n,
    ensures
        exists|a: int, b: int| 0 <= a < b <= n && #[trigger] f(a) == #[trigger] f(b),
{
    if !(exists|a: int, b: int| 0 <= a < b <= n && #[trigger] f(a) == #[trigger] f(b)) {
        let dom = set_int_range(0, n + 1);
        let img = dom.map(f);
        lemma_int_range(0, n + 1);
        lemma_int_range(0, n);
        assert(injective_on(f, dom)) by {
            assert forall|a: int, b: int| dom.contains(a) && dom.contains(b) && f(a) == f(b) implies a == b by {
                if a < b {
                    assert(0 <= a < b <= n && f(a) == f(b));
                } else if b < a {
                    assert(0 <= b < a <= n && f(b) == f(a));
                }
            }
        }
        lemma_map_size(dom, img, f);
        assert(img.subset_of(set_int_range(0, n)));
        lemma_len_subset(img, set_int_range(0, n));
    }
}

proof fn lemma_periodic(s: Seq<MyProcess>, y: usize, l: nat, k: nat)
    requires
        l >= 1,
        ancestor(s, y, l) == y,
    ensures
        ancestor(s, y, k) == ancestor(s, y, k % l),
    decreases k,
{
    if k >= l {
        lemma_ancestor_compose(s, y, l, (k - l) as nat);
        lemma_periodic(s, y, l, (k - l) as nat);
        assert((k - l) as nat % l == k % l) by (nonlinear_arith)
            requires
                k >= l,
                l >= 1,
        {
            vstd::arithmetic::div_mod::lemma_mod_sub_multiples_vanish(k as int, l as int);
        }
        assert(l + (k - l) as nat == k);
    } else {
        vstd::arithmetic::div_mod::lemma_small_mod(k, l);
    }
}

proof fn lemma_lowest_on_walk(s: Seq<MyProcess>, y: usize, l: nat) -> (t: nat)
    requires
        l >= 1,
    ensures
        t < l,
        forall|j: nat| j < l ==> ancestor(s, y, t) <= #[trigger] ancestor(s, y, j),
    decreases l,
{
    if l == 1 {
        0
    } else {
        let t0 = lemma_lowest_on_walk(s, y, (l - 1) as nat);
        if ancestor(s, y, (l - 1) as nat) < ancestor(s, y, t0) {
            (l - 1) as nat
        } else {
            t0
        }
    }
}

pub proof fn lemma_parent_after_break(before: Seq<MyProcess>, after: Seq<MyProcess>, p: usize)
    requires
        keyed(before),
        cycles_broken(before, after),
    ensures
        parent_of(after, p) == if cut_point(before, p) {
            0
        } else {
            parent_of(before, p)
        },
{
    lemma_same_pids(before, after);
    if has_pid(after, p) {
        let i = choose|i: int| 0 <= i < after.len() && after[i].pid == p;
        lemma_parent_of_index(before, i);
        lemma_parent_of_index(after, i);
    } else {
        if cut_point(before, p) {
            assert(!has_pid(before, p));
            assert(ancestor(before, p, 0) == p);
            assert(ancestor(before, p, 1) == 0);
            lemma_root_after(before, p, 1, cycle_length(before, p));
        }
    }
}

spec fn cycle_length(s: Seq<MyProcess>, p: usize) -> nat {
    choose|k: nat| 1 <= k <= s.len() && ancestor(s, p, k) == p
}

proof fn lemma_resolved_step(s: Seq<MyProcess>, p: usize)
    requires
        keyed(s),
        parents_resolved(s),
        has_pid(s, p),
    ensures
        parent_of(s, p) == 0 || has_pid(s, parent_of(s, p)),
{
    let i = choose|i: int| 0 <= i < s.len() && s[i].pid == p;
    lemma_parent_of_index(s, i);
}

proof fn lemma_break_keeps_resolved(before: Seq<MyProcess>, after: Seq<MyProcess>)
    requires
        keyed(before),
        parents_resolved(before),
        cycles_broken(before, after),
    ensures
        keyed(after),
        parents_resolved(after),
{
    lemma_same_pids(before, after);
    assert forall|i: int| 0 <= i < after.len() implies after[i].parent == 0 || has_pid(
        after,
        after[i].parent,
    ) by {
        assert(after[i].parent == before[i].parent || after[i].parent == 0);
    }
}

/// Along a cycle of `after`, every step is a step of `before` and no node is a cut point.
proof fn lemma_cycle_survives(before: Seq<MyProcess>, after: Seq<MyProcess>, y: usize, l: nat, j: nat)
    requires
        keyed(before),
        cycles_broken(before, after),
        y != 0,
        ancestor(after, y, l) == y,
        j <= l,
    ensures
        ancestor(after, y, j) == ancestor(before, y, j),
        j < l ==> !cut_point(before, ancestor(before, y, j)),
    decreases j,
{
    lemma_same_pids(before, after);
    if j > 0 {
        lemma_cycle_survives(before, after, y, l, (j - 1) as nat);
        let z = ancestor(after, y, (j - 1) as nat);
        lemma_parent_after_break(before, after, z);
    }
    if j < l {
        let z = ancestor(after, y, j);
        lemma_parent_after_break(before, after, z);
        if cut_point(before, z) {
            assert(ancestor(after, y, j + 1) == 0);
            lemma_root_after(after, y, j + 1, l);
        }
    }
}

/// After the cut points lose their parents, the chain from every node
/// reaches the root within as many steps as there are nodes.
#[verifier::rlimit(40)]
pub proof fn lemma_broken_reaches_root(before: Seq<MyProcess>, after: Seq<MyProcess>, x: usize)
    requires
        keyed(before),
        parents_resolved(before),
        cycles_broken(before, after),
        has_pid(after, x),
    ensures
        reaches_root(after, x, after.len()),
{
    let n = after.len();
    lemma_break_keeps_resolved(before, after);
    if ancestor(after, x, n) != 0 {
        assert forall|k: nat| k <= n implies #[trigger] has_pid(after, ancestor(after, x, k)) by {
            lemma_walk_in_set(after, x, k, n);
        }
        let f = |k: int| choose|i: int| 0 <= i < after.len() && after[i].pid == ancestor(after, x, k as nat);
        assert forall|k: int| 0 <= k <= n implies 0 <= #[trigger] f(k) < n && after[f(k)].pid == ancestor(after, x, k as nat) by {
            assert(has_pid(after, ancestor(after, x, k as nat)));
        }
        lemma_pigeonhole(f, n as int);
        let (a, b) = choose|a: int, b: int| 0 <= a < b <= n && #[trigger] f(a) == #[trigger] f(b);
        let y = ancestor(after, x, a as nat);
        let l = (b - a) as nat;
        lemma_ancestor_compose(after, x, a as nat, l);
        assert(a as nat + l == b as nat);
        assert(ancestor(after, y, l) == y);
        assert(has_pid(after, y));
        assert(y != 0);
        lemma_cycle_survives(before, after, y, l, l);
        let t = lemma_lowest_on_walk(before, y, l);
        let m = ancestor(before, y, t);
        lemma_cycle_survives(before, after, y, l, t);
        lemma_ancestor_compose(after, x, a as nat, t);
        assert(has_pid(after, ancestor(after, x, (a + t) as nat)));
        assert(m != 0);
        lemma_ancestor_compose(before, y, t, l);
        lemma_ancestor_compose(before, y, l, t);
        assert(ancestor(before, m, l) == m);
        assert forall|k: nat| k < before.len() implies m <= #[trigger] ancestor(before, m, k) by {
            lemma_ancestor_compose(before, y, t, k);
            lemma_periodic(before, y, l, t + k);
            assert((t + k) % l < l) by (nonlinear_arith)
                requires
                    l >= 1,
            {
            }
        }
        assert(on_cycle(before, m));
        assert(cut_point(before, m));
    }
}

proof fn lemma_walk_in_set(s: Seq<MyProcess>, x: usize, k: nat, n: nat)
    requires
        keyed(s),
        parents_resolved(s),
        has_pid(s, x),
        ancestor(s, x, n) != 0,
        k <= n,
    ensures
        has_pid(s, ancestor(s, x, k)),
    decreases k,
{
    if k > 0 {
        lemma_walk_in_set(s, x, (k - 1) as nat, n);
        lemma_resolved_step(s, ancestor(s, x, (k - 1) as nat));
        if ancestor(s, x, k) == 0 {
            lemma_root_after(s, x, k, n);
        }
    }
}


/// `a` lies strictly above `y` on its parent chain.
pub open spec fn is_proper_ancestor(s: Seq<MyProcess>, a: usize, y: usize) -> bool {
    exists|k: nat| 1 <= k <= s.len() && #[trigger] ancestor(s, y, k) == a
}

pub open spec fn memory_at(s: Seq<MyProcess>) -> spec_fn(int) -> int {
    |i: int| s[i].memory as int
}

/// Memory of every node of the set.
pub open spec fn sum_memory(s: Seq<MyProcess>) -> int {
    sum_to(memory_at(s), s.len() as int)
}

pub open spec fn below_at(s: Seq<MyProcess>, a: usize) -> spec_fn(int) -> int {
    |i: int|
        if is_proper_ancestor(s, a, s[i].pid) {
            s[i].memory as int
        } else {
            0
        }
}

/// Memory of all nodes that lie below `a`.
pub open spec fn descendant_memory(s: Seq<MyProcess>, a: usize) -> int {
    sum_to(below_at(s, a), s.len() as int)
}

/// Number of steps from `p` to the root, when the root is reached within
/// the sentinel; 0 otherwise.
pub open spec fn depth_matches(s: Seq<MyProcess>, p: usize, d: nat) -> bool {
    if reaches_root(s, p, MAX_DEPTH as nat) {
        ancestor(s, p, d) == 0 && forall|k: nat| k < d ==> #[trigger] ancestor(s, p, k) != 0
    } else {
        d == 0
    }
}

/// For each node, the index of its parent, or the length of the set for the root.
fn parent_indices(v: &Vec<MyProcess>) -> (r: Vec<usize>)
    requires
        keyed(v@),
        parents_resolved(v@),
    ensures
        r@.len() == v@.len(),
        forall|i: int|
            0 <= i < v@.len() ==> {
                let j = #[trigger] r@[i];
                (j == v@.len() && v@[i].parent == 0) || (j < v@.len() && v@[j as int].pid
                    == v@[i].parent)
            },
{
    let n = v.len();
    let mut r: Vec<usize> = Vec::new();
    let mut i: usize = 0;
    while i < n
        invariant
            n == v@.len(),
            keyed(v@),
            parents_resolved(v@),
            i <= n,
            r@.len() == i,
            forall|k: int|
                0 <= k < i ==> {
                    let j = #[trigger] r@[k];
                    (j == n && v@[k].parent == 0) || (j < n && v@[j as int].pid == v@[k].parent)
                },
        decreases n - i,
    {
        let par = v[i].parent;
        if par == 0 {
            r.push(n);
        } else {
            match find_index(v, par) {
                Some(j) => r.push(j),
                None => {
                    r.push(n);
                },
            }
        }
        i = i + 1;
    }
    r
}

proof fn lemma_index_step(s: Seq<MyProcess>, pidx: Seq<usize>, c: int)
    requires
        keyed(s),
        pidx.len() == s.len(),
        0 <= c < s.len(),
        forall|i: int|
            0 <= i < s.len() ==> {
                let j = #[trigger] pidx[i];
                (j == s.len() && s[i].parent == 0) || (j < s.len() && s[j as int].pid
                    == s[i].parent)
            },
    ensures
        pidx[c] == s.len() ==> parent_of(s, s[c].pid) == 0,
        pidx[c] < s.len() ==> parent_of(s, s[c].pid) == s[pidx[c] as int].pid,
{
    lemma_parent_of_index(s, c);
    let j = pidx[c];
}

/// Whether node `a` lies strictly above node `y`.
fn is_above(v: &Vec<MyProcess>, pidx: &Vec<usize>, a: usize, y: usize) -> (r: bool)
    requires
        keyed(v@),
        pidx@.len() == v@.len(),
        a < v@.len(),
        y < v@.len(),
        forall|i: int|
            0 <= i < v@.len() ==> {
                let j = #[trigger] pidx@[i];
                (j == v@.len() && v@[i].parent == 0) || (j < v@.len() && v@[j as int].pid
                    == v@[i].parent)
            },
    ensures
        r == is_proper_ancestor(v@, v@[a as int].pid, v@[y as int].pid),
{
    let n = v.len();
    let ghost target = v@[a as int].pid;
    let ghost start = v@[y as int].pid;
    proof {
        lemma_index_step(v@, pidx@, y as int);
        assert(ancestor(v@, start, 0) == start);
    }
    let mut cur = pidx[y];
    let mut k: usize = 0;
    while k < n
        invariant
            n == v@.len(),
            keyed(v@),
            pidx@.len() == n,
            a < n,
            y < n,
            target == v@[a as int].pid,
            start == v@[y as int].pid,
            k <= n,
            cur <= n,
            forall|i: int|
                0 <= i < v@.len() ==> {
                    let j = #[trigger] pidx@[i];
                    (j == v@.len() && v@[i].parent == 0) || (j < v@.len() && v@[j as int].pid
                        == v@[i].parent)
                },
            cur == n ==> ancestor(v@, start, (k + 1) as nat) == 0,
            cur < n ==> v@[cur as int].pid == ancestor(v@, start, (k + 1) as nat),
            forall|j: nat| 1 <= j <= k ==> #[trigger] ancestor(v@, start, j) != target,
        decreases n - k,
    {
        if cur == n {
            proof {
                assert(target != 0);
                assert forall|j: nat| 1 <= j <= n implies #[trigger] ancestor(v@, start, j) != target by {
                    if j > k {
                        lemma_root_after(v@, start, (k + 1) as nat, j);
                    }
                }
            }
            return false;
        }
        if cur == a {
            assert(ancestor(v@, start, (k + 1) as nat) == target);
            return true;
        }
        proof {
            lemma_index_step(v@, pidx@, cur as int);
        }
        cur = pidx[cur];
        k = k + 1;
    }
    false
}

/// Steps from node `x` to the root, or 0 beyond the sentinel.
fn depth_of_index(v: &Vec<MyProcess>, pidx: &Vec<usize>, x: usize) -> (d: usize)
    requires
        keyed(v@),
        pidx@.len() == v@.len(),
        x < v@.len(),
        forall|i: int|
            0 <= i < v@.len() ==> {
                let j = #[trigger] pidx@[i];
                (j == v@.len() && v@[i].parent == 0) || (j < v@.len() && v@[j as int].pid
                    == v@[i].parent)
            },
    ensures
        depth_matches(v@, v@[x as int].pid, d as nat),
{
    let n = v.len();
    let ghost start = v@[x as int].pid;
    let mut cur = x;
    let mut d: usize = 0;
    while cur < n
        invariant
            n == v@.len(),
            keyed(v@),
            pidx@.len() == n,
            x < n,
            start == v@[x as int].pid,
            d <= MAX_DEPTH,
            cur <= n,
            forall|i: int|
                0 <= i < v@.len() ==> {
                    let j = #[trigger] pidx@[i];
                    (j == v@.len() && v@[i].parent == 0) || (j < v@.len() && v@[j as int].pid
                        == v@[i].parent)
                },
            cur == n ==> ancestor(v@, start, d as nat) == 0,
            cur < n ==> v@[cur as int].pid == ancestor(v@, start, d as nat),
            forall|k: nat| k < d ==> #[trigger] ancestor(v@, start, k) != 0,
        decreases MAX_DEPTH - d,
    {
        if d == MAX_DEPTH {
            proof {
                if reaches_root(v@, start, MAX_DEPTH as nat) {
                    assert(v@[cur as int].pid != 0);
                    assert(ancestor(v@, start, d as nat) != 0);
                }
            }
            return 0;
        }
        proof {
            lemma_index_step(v@, pidx@, cur as int);
            assert(v@[cur as int].pid != 0);
            assert(ancestor(v@, start, d as nat) != 0);
        }
        cur = pidx[cur];
        d = d + 1;
    }
    proof {
        lemma_root_after(v@, start, d as nat, MAX_DEPTH as nat);
    }
    d
}


/// Two node sets with the same identifiers and parents at every position.
pub open spec fn same_links(a: Seq<MyProcess>, b: Seq<MyProcess>) -> bool {
    same_pids(a, b) && forall|i: int| 0 <= i < a.len() ==> #[trigger] a[i].parent == b[i].parent
}

pub proof fn lemma_same_links(a: Seq<MyProcess>, b: Seq<MyProcess>)
    requires
        keyed(a),
        same_links(a, b),
    ensures
        keyed(b),
        parents_resolved(a) ==> parents_resolved(b),
        forall|p: usize| #[trigger] parent_of(a, p) == parent_of(b, p),
        forall|p: usize, k: nat| #[trigger] ancestor(a, p, k) == ancestor(b, p, k),
{
    lemma_same_pids(a, b);
    assert forall|p: usize| #[trigger] parent_of(a, p) == parent_of(b, p) by {
        if has_pid(a, p) {
            let i = choose|i: int| 0 <= i < a.len() && a[i].pid == p;
            lemma_parent_of_index(a, i);
            lemma_parent_of_index(b, i);
        }
    }
    assert forall|p: usize, k: nat| #[trigger] ancestor(a, p, k) == ancestor(b, p, k) by {
        lemma_same_ancestor(a, b, p, k);
    }
}

proof fn lemma_same_ancestor(a: Seq<MyProcess>, b: Seq<MyProcess>, p: usize, k: nat)
    requires
        forall|q: usize| #[trigger] parent_of(a, q) == parent_of(b, q),
    ensures
        ancestor(a, p, k) == ancestor(b, p, k),
    decreases k,
{
    if k > 0 {
        lemma_same_ancestor(a, b, p, (k - 1) as nat);
    }
}

/// Sets the depth of every node.
fn compute_depths(v: &mut Vec<MyProcess>)
    requires
        keyed(old(v)@),
        parents_resolved(old(v)@),
    ensures
        final(v)@.len() == old(v)@.len(),
        forall|i: int|
            0 <= i < old(v)@.len() ==> #[trigger] final(v)@[i] == (MyProcess {
                depth: final(v)@[i].depth,
                ..old(v)@[i]
            }) && depth_matches(old(v)@, old(v)@[i].pid, final(v)@[i].depth as nat),
{
    let n = v.len();
    let pidx = parent_indices(v);
    let mut depths: Vec<usize> = Vec::new();
    let mut i: usize = 0;
    while i < n
        invariant
            n == v@.len(),
            keyed(v@),
            pidx@.len() == n,
            forall|k: int|
                0 <= k < n ==> {
                    let j = #[trigger] pidx@[k];
                    (j == n && v@[k].parent == 0) || (j < n && v@[j as int].pid == v@[k].parent)
                },
            i <= n,
            depths@.len() == i,
            forall|j: int| 0 <= j < i ==> depth_matches(v@, v@[j].pid, #[trigger] depths@[j] as nat),
        decreases n - i,
    {
        let d = depth_of_index(v, &pidx, i);
        depths.push(d);
        i = i + 1;
    }
    let ghost orig = v@;
    let mut i: usize = 0;
    while i < n
        invariant
            n == v@.len(),
            n == depths@.len(),
            orig.len() == n,
            i <= n,
            forall|j: int| 0 <= j < n ==> depth_matches(orig, orig[j].pid, #[trigger] depths@[j] as nat),
            forall|j: int| i <= j < n ==> v@[j] == orig[j],
            forall|j: int|
                0 <= j < i ==> #[trigger] v@[j] == (MyProcess { depth: depths@[j], ..orig[j] }),
        decreases n - i,
    {
        let mut p = v[i].copied();
        p.depth = depths[i];
        v.set(i, p);
        i = i + 1;
    }
}

/// Sets on every node the memory of all nodes below it.
fn update_children_usage(v: &mut Vec<MyProcess>)
    requires
        keyed(old(v)@),
        parents_resolved(old(v)@),
        sum_memory(old(v)@) <= u64::MAX,
    ensures
        final(v)@.len() == old(v)@.len(),
        forall|i: int|
            0 <= i < old(v)@.len() ==> #[trigger] final(v)@[i] == (MyProcess {
                children_memory: final(v)@[i].children_memory,
                ..old(v)@[i]
            }) && final(v)@[i].children_memory == descendant_memory(old(v)@, old(v)@[i].pid),
{
    let n = v.len();
    let pidx = parent_indices(v);
    let mut sums: Vec<u64> = Vec::new();
    let mut i: usize = 0;
    while i < n
        invariant
            n == v@.len(),
            keyed(v@),
            sum_memory(v@) <= u64::MAX,
            pidx@.len() == n,
            forall|k: int|
                0 <= k < n ==> {
                    let j = #[trigger] pidx@[k];
                    (j == n && v@[k].parent == 0) || (j < n && v@[j as int].pid == v@[k].parent)
                },
            i <= n,
            sums@.len() == i,
            forall|j: int| 0 <= j < i ==> #[trigger] sums@[j] == descendant_memory(v@, v@[j].pid),
        decreases n - i,
    {
        let ghost a = v@[i as int].pid;
        let mut total: u64 = 0;
        let mut y: usize = 0;
        while y < n
            invariant
                n == v@.len(),
                keyed(v@),
                sum_memory(v@) <= u64::MAX,
                pidx@.len() == n,
                forall|k: int|
                    0 <= k < n ==> {
                        let j = #[trigger] pidx@[k];
                        (j == n && v@[k].parent == 0) || (j < n && v@[j as int].pid
                            == v@[k].parent)
                    },
                i < n,
                a == v@[i as int].pid,
                y <= n,
                total == sum_to(below_at(v@, a), y as int),
            decreases n - y,
        {
            proof {
                lemma_sum_bounded(below_at(v@, a), memory_at(v@), (y + 1) as int);
                lemma_sum_monotone(memory_at(v@), (y + 1) as int, n as int);
            }
            if is_above(v, &pidx, i, y) {
                total = total + v[y].memory;
            }
            y = y + 1;
        }
        sums.push(total);
        i = i + 1;
    }
    let ghost orig = v@;
    let mut i: usize = 0;
    while i < n
        invariant
            n == v@.len(),
            n == sums@.len(),
            orig.len() == n,
            i <= n,
            forall|j: int| 0 <= j < n ==> #[trigger] sums@[j] == descendant_memory(orig, orig[j].pid),
            forall|j: int| i <= j < n ==> v@[j] == orig[j],
            forall|j: int|
                0 <= j < i ==> #[trigger] v@[j] == (MyProcess { children_memory: sums@[j], ..orig[j] }),
        decreases n - i,
    {
        let mut p = v[i].copied();
        p.children_memory = sums[i];
        v.set(i, p);
        i = i + 1;
    }
}


/// Every parent reference that names no node rewritten to the root.
pub open spec fn repaired(s: Seq<MyProcess>) -> Seq<MyProcess> {
    Seq::new(
        s.len(),
        |i: int|
            MyProcess {
                parent: if has_pid(s, s[i].parent) {
                    s[i].parent
                } else {
                    0
                },
                ..s[i]
            },
    )
}

/// The parent of every cut point rewritten to the root.
pub open spec fn broken(s: Seq<MyProcess>) -> Seq<MyProcess> {
    Seq::new(
        s.len(),
        |i: int|
            MyProcess {
                parent: if cut_point(s, s[i].pid) {
                    0
                } else {
                    s[i].parent
                },
                ..s[i]
            },
    )
}

/// The node set, with its parent links final, that the records give.
pub open spec fn linked(records: Seq<MyProcess>) -> Seq<MyProcess> {
    broken(repaired(kept_prefix(records, records.len() as int)))
}

/// A node set whose links form a forest under the root and whose depths and
/// children memory are those of those links.
pub open spec fn is_hierarchy(s: Seq<MyProcess>) -> bool {
    &&& keyed(s)
    &&& parents_resolved(s)
    &&& all_reach_root(s, s.len())
    &&& forall|i: int|
        0 <= i < s.len() ==> depth_matches(s, s[i].pid, #[trigger] s[i].depth as nat)
            && s[i].children_memory == descendant_memory(s, s[i].pid)
}

pub proof fn lemma_kept_prefix_memory(s: Seq<MyProcess>, k: int)
    requires
        0 <= k <= s.len(),
    ensures
        sum_memory(kept_prefix(s, k)) <= sum_to(memory_at(s), k),
    decreases k,
{
    if k > 0 {
        lemma_kept_prefix_memory(s, k - 1);
        let q = kept_prefix(s, k - 1);
        if kept(s, k - 1) {
            let q2 = q.push(s[k - 1]);
            lemma_sum_congruent(memory_at(q2), memory_at(q), q.len() as int);
        }
    }
}

proof fn lemma_descendants_same_links(a: Seq<MyProcess>, b: Seq<MyProcess>, p: usize)
    requires
        keyed(a),
        same_links(a, b),
        forall|i: int| 0 <= i < a.len() ==> #[trigger] a[i].memory == b[i].memory,
    ensures
        descendant_memory(a, p) == descendant_memory(b, p),
{
    lemma_same_links(a, b);
    assert forall|i: int| 0 <= i < a.len() implies #[trigger] below_at(a, p)(i) == below_at(b, p)(i) by {
        if is_proper_ancestor(a, p, a[i].pid) {
            let k = choose|k: nat| 1 <= k <= a.len() && #[trigger] ancestor(a, a[i].pid, k) == p;
            assert(ancestor(b, b[i].pid, k) == p);
        }
        if is_proper_ancestor(b, p, b[i].pid) {
            let k = choose|k: nat| 1 <= k <= b.len() && #[trigger] ancestor(b, b[i].pid, k) == p;
            assert(ancestor(a, a[i].pid, k) == p);
        }
    }
    lemma_sum_congruent(below_at(a, p), below_at(b, p), a.len() as int);
}

proof fn lemma_depth_same_links(a: Seq<MyProcess>, b: Seq<MyProcess>, p: usize, d: nat)
    requires
        keyed(a),
        same_links(a, b),
        depth_matches(a, p, d),
    ensures
        depth_matches(b, p, d),
{
    lemma_same_links(a, b);
    assert(reaches_root(a, p, MAX_DEPTH as nat) == reaches_root(b, p, MAX_DEPTH as nat));
    if reaches_root(a, p, MAX_DEPTH as nat) {
        assert(ancestor(b, p, d) == 0);
        assert forall|k: nat| k < d implies #[trigger] ancestor(b, p, k) != 0 by {
            assert(ancestor(a, p, k) != 0);
        }
    }
}

/// Builds the node set of one snapshot: drops identifier 0 and duplicate
/// identifiers (the last record wins), rewrites dangling parents to the
/// root, cuts every cycle at its lowest identifier, then sets each node's
/// depth and the memory of its descendants.
pub fn build_hierarchy(records: &Vec<MyProcess>) -> (r: Vec<MyProcess>)
    requires
        sum_memory(records@) <= u64::MAX,
    ensures
        is_hierarchy(r@),
        r@.len() <= MAX_DEPTH ==> all_reach_root(r@, MAX_DEPTH as nat),
        root_total(r@) == sum_memory(r@),
        r@.len() == linked(records@).len(),
        forall|i: int|
            0 <= i < r@.len() ==> #[trigger] r@[i] == (MyProcess {
                depth: r@[i].depth,
                children_memory: r@[i].children_memory,
                ..linked(records@)[i]
            }),
{
    let mut v = normalize(records);
    let ghost s0 = v@;
    proof {
        lemma_kept_prefix_memory(records@, records@.len() as int);
    }
    repair_parents(&mut v);
    let ghost s1 = v@;
    proof {
        assert(s1 == repaired(s0));
        assert(same_pids(s0, s1));
        lemma_same_pids(s0, s1);
        assert forall|i: int| 0 <= i < s1.len() implies s1[i].parent == 0 || has_pid(s1, s1[i].parent) by {
        }
        lemma_sum_congruent(memory_at(s0), memory_at(s1), s0.len() as int);
    }
    break_cycles(&mut v);
    let ghost s2 = v@;
    proof {
        assert(s2 == broken(s1));
        assert(cycles_broken(s1, s2));
        lemma_break_keeps_resolved(s1, s2);
        lemma_sum_congruent(memory_at(s1), memory_at(s2), s1.len() as int);
        assert forall|i: int| 0 <= i < s2.len() implies #[trigger] reaches_root(s2, s2[i].pid, s2.len()) by {
            lemma_broken_reaches_root(s1, s2, s2[i].pid);
        }
    }
    compute_depths(&mut v);
    let ghost s3 = v@;
    proof {
        assert(same_links(s2, s3));
        lemma_same_links(s2, s3);
        lemma_sum_congruent(memory_at(s2), memory_at(s3), s2.len() as int);
    }
    update_children_usage(&mut v);
    proof {
        let s4 = v@;
        assert(same_links(s3, s4));
        assert(same_links(s2, s4));
        lemma_same_links(s3, s4);
        lemma_same_links(s2, s4);
        assert forall|i: int| 0 <= i < s4.len() implies depth_matches(s4, s4[i].pid, #[trigger] s4[i].depth as nat)
            && s4[i].children_memory == descendant_memory(s4, s4[i].pid) by {
            assert(depth_matches(s2, s2[i].pid, s3[i].depth as nat));
            assert(s4[i].depth == s3[i].depth);
            lemma_depth_same_links(s2, s4, s4[i].pid, s4[i].depth as nat);
            lemma_descendants_same_links(s3, s4, s4[i].pid);
        }
        assert forall|i: int| 0 <= i < s4.len() implies #[trigger] reaches_root(s4, s4[i].pid, s4.len()) by {
            assert(reaches_root(s2, s2[i].pid, s2.len()));
        }
        if s4.len() <= MAX_DEPTH {
            assert forall|i: int| 0 <= i < s4.len() implies #[trigger] reaches_root(s4, s4[i].pid, MAX_DEPTH as nat) by {
                assert(reaches_root(s4, s4[i].pid, s4.len()));
                lemma_root_after(s4, s4[i].pid, s4.len(), MAX_DEPTH as nat);
            }
        }
        lemma_conservation(s4);
    }
    v
}


pub open spec fn top_total_at(s: Seq<MyProcess>) -> spec_fn(int) -> int {
    |i: int|
        if s[i].parent == 0 {
            s[i].memory + s[i].children_memory
        } else {
            0
        }
}

/// Total of the synthetic root: the totals of the nodes directly under it.
pub open spec fn root_total(s: Seq<MyProcess>) -> int {
    sum_to(top_total_at(s), s.len() as int)
}

proof fn lemma_first_root(s: Seq<MyProcess>, p: usize, n: nat) -> (d: nat)
    requires
        no_zero_pid(s),
        ancestor(s, p, n) == 0,
    ensures
        d <= n,
        ancestor(s, p, d) == 0,
        forall|k: nat| k < d ==> #[trigger] ancestor(s, p, k) != 0,
    decreases n,
{
    if n == 0 {
        0
    } else if ancestor(s, p, (n - 1) as nat) == 0 {
        lemma_first_root(s, p, (n - 1) as nat)
    } else {
        assert forall|k: nat| k < n implies #[trigger] ancestor(s, p, k) != 0 by {
            if ancestor(s, p, k) == 0 {
                lemma_root_after(s, p, k, (n - 1) as nat);
            }
        }
        n
    }
}


spec fn owner_share(s: Seq<MyProcess>) -> spec_fn(int, int) -> int {
    |t: int, y: int|
        if s[t].parent == 0 && (t == y || is_proper_ancestor(s, s[t].pid, s[y].pid)) {
            s[y].memory as int
        } else {
            0
        }
}

proof fn lemma_nonzero_walk_in_set(s: Seq<MyProcess>, x: usize, k: nat)
    requires
        keyed(s),
        parents_resolved(s),
        has_pid(s, x),
        ancestor(s, x, k) != 0,
    ensures
        has_pid(s, ancestor(s, x, k)),
    decreases k,
{
    if k > 0 {
        let prev = ancestor(s, x, (k - 1) as nat);
        if prev == 0 {
            lemma_root_after(s, x, (k - 1) as nat, k);
        } else {
            lemma_nonzero_walk_in_set(s, x, (k - 1) as nat);
            lemma_resolved_step(s, prev);
        }
    }
}

proof fn lemma_not_own_ancestor(s: Seq<MyProcess>, i: int)
    requires
        is_hierarchy(s),
        0 <= i < s.len(),
    ensures
        !is_proper_ancestor(s, s[i].pid, s[i].pid),
{
    let p = s[i].pid;
    assert(reaches_root(s, p, s.len()));
    let d = lemma_first_root(s, p, s.len());
    if is_proper_ancestor(s, p, p) {
        let k = choose|k: nat| 1 <= k <= s.len() && #[trigger] ancestor(s, p, k) == p;
        if d <= k {
            lemma_root_after(s, p, d, k);
        } else {
            lemma_periodic(s, p, k, d);
            assert(d % k < k) by (nonlinear_arith)
                requires
                    k >= 1,
            {
            }
            assert(ancestor(s, p, d % k) != 0);
        }
    }
}

proof fn lemma_row(s: Seq<MyProcess>, t: int)
    requires
        is_hierarchy(s),
        0 <= t < s.len(),
    ensures
        row_sums(owner_share(s), s.len() as int)(t) == top_total_at(s)(t),
{
    let n = s.len() as int;
    let g = owner_share(s);
    let f = |y: int| g(t, y);
    if s[t].parent != 0 {
        lemma_sum_single(f, -1, n);
    } else {
        let single = |y: int|
            if y == t {
                s[y].memory as int
            } else {
                0
            };
        lemma_not_own_ancestor(s, t);
        assert forall|y: int| 0 <= y < n implies #[trigger] f(y) == single(y) + below_at(s, s[t].pid)(y) by {
            if y == t {
                assert(!is_proper_ancestor(s, s[t].pid, s[y].pid));
            }
        }
        lemma_sum_add(single, below_at(s, s[t].pid), f, n);
        lemma_sum_single(single, t, n);
        let dep = s[t].depth;
        assert(s[t].children_memory == descendant_memory(s, s[t].pid));
    }
    assert(row_sums(g, n)(t) == sum_to(f, n));
}

proof fn lemma_col(s: Seq<MyProcess>, y: int)
    requires
        is_hierarchy(s),
        0 <= y < s.len(),
    ensures
        col_sums(owner_share(s), s.len() as int)(y) == s[y].memory,
{
    let n = s.len() as int;
    let g = owner_share(s);
    let f = |t: int| g(t, y);
    let p = s[y].pid;
    assert(reaches_root(s, p, s.len()));
    let d = lemma_first_root(s, p, s.len());
    assert(ancestor(s, p, 0) == p);
    assert(d >= 1);
    let q = ancestor(s, p, (d - 1) as nat);
    lemma_nonzero_walk_in_set(s, p, (d - 1) as nat);
    let t0 = choose|i: int| 0 <= i < s.len() && s[i].pid == q;
    lemma_parent_of_index(s, t0);
    lemma_parent_of_index(s, y);
    assert(s[t0].parent == 0);
    if d == 1 {
        assert(t0 == y);
    } else {
        assert(is_proper_ancestor(s, q, p)) by {
            assert(ancestor(s, p, (d - 1) as nat) == q);
        }
    }
    assert(f(t0) == s[y].memory);
    assert forall|t: int| 0 <= t < n && t != t0 implies #[trigger] f(t) == 0 by {
        if s[t].parent == 0 {
            lemma_parent_of_index(s, t);
            if t == y {
                assert(ancestor(s, p, 1) == 0);
            }
            if is_proper_ancestor(s, s[t].pid, p) {
                let k = choose|k: nat| 1 <= k <= s.len() && #[trigger] ancestor(s, p, k) == s[t].pid;
                assert(ancestor(s, p, k + 1) == 0);
                if k >= d {
                    lemma_root_after(s, p, d, k);
                }
                if k + 1 < d {
                    assert(ancestor(s, p, (k + 1) as nat) != 0);
                }
            }
        }
    }
    lemma_sum_single(f, t0, n);
}

/// Conservation: the total of the synthetic root, summed over the nodes
/// directly under it, is the memory of the whole node set.
pub proof fn lemma_conservation(s: Seq<MyProcess>)
    requires
        is_hierarchy(s),
    ensures
        root_total(s) == sum_memory(s),
{
    let n = s.len() as int;
    let g = owner_share(s);
    assert forall|t: int| 0 <= t < n implies #[trigger] top_total_at(s)(t) == row_sums(g, n)(t) by {
        lemma_row(s, t);
    }
    lemma_sum_congruent(top_total_at(s), row_sums(g, n), n);
    lemma_sum_swap(g, n, n);
    assert forall|y: int| 0 <= y < n implies #[trigger] col_sums(g, n)(y) == memory_at(s)(y) by {
        lemma_col(s, y);
    }
    lemma_sum_congruent(col_sums(g, n), memory_at(s), n);
}


proof fn lemma_kept_all(s: Seq<MyProcess>, k: int)
    requires
        keyed(s),
        0 <= k <= s.len(),
    ensures
        kept_prefix(s, k) == s.subrange(0, k),
    decreases k,
{
    if k > 0 {
        lemma_kept_all(s, k - 1);
        assert(kept(s, k - 1));
        assert(s.subrange(0, k) == s.subrange(0, k - 1).push(s[k - 1]));
    } else {
        assert(s.subrange(0, 0) =~= Seq::<MyProcess>::empty());
    }
}

/// A hierarchy has no cycle, so no node of it is a cut point.
pub proof fn lemma_hierarchy_has_no_cut(s: Seq<MyProcess>, p: usize)
    requires
        is_hierarchy(s),
    ensures
        !cut_point(s, p),
{
    if cut_point(s, p) {
        let k = choose|k: nat| 1 <= k <= s.len() && ancestor(s, p, k) == p;
        if has_pid(s, p) {
            let i = choose|i: int| 0 <= i < s.len() && s[i].pid == p;
            lemma_not_own_ancestor(s, i);
            assert(is_proper_ancestor(s, p, p));
        } else {
            assert(ancestor(s, p, 0) == p);
            assert(ancestor(s, p, 1) == 0);
            lemma_root_after(s, p, 1, k);
        }
    }
}

/// Cycle breaking is idempotent: building again from a built node set keeps
/// every node and every parent link as they are.
pub proof fn lemma_rebuild_keeps_links(s: Seq<MyProcess>)
    requires
        is_hierarchy(s),
    ensures
        linked(s) == s,
{
    lemma_kept_all(s, s.len() as int);
    assert(s.subrange(0, s.len() as int) == s);
    assert(repaired(s) =~= s);
    assert forall|i: int| 0 <= i < s.len() implies !cut_point(s, #[trigger] s[i].pid) by {
        lemma_hierarchy_has_no_cut(s, s[i].pid);
    }
    assert(broken(s) =~= s);
}

/// A node whose declared parent names no node of the set ends up with the
/// root as its parent.
pub proof fn lemma_dangling_parent_to_root(records: Seq<MyProcess>, i: int)
    requires
        0 <= i < kept_prefix(records, records.len() as int).len(),
        !has_pid(
            kept_prefix(records, records.len() as int),
            kept_prefix(records, records.len() as int)[i].parent,
        ),
    ensures
        linked(records)[i].parent == 0,
{
}

pub open spec fn child_total_under(s: Seq<MyProcess>, x: usize) -> spec_fn(int) -> int {
    |i: int|
        if s[i].parent == x {
            s[i].memory + s[i].children_memory
        } else {
            0
        }
}

/// Totals of the nodes directly under `x`.
pub open spec fn children_totals(s: Seq<MyProcess>, x: usize) -> int {
    sum_to(child_total_under(s, x), s.len() as int)
}

spec fn share_under(s: Seq<MyProcess>, x: usize) -> spec_fn(int, int) -> int {
    |t: int, y: int|
        if s[t].parent == x && (t == y || is_proper_ancestor(s, s[t].pid, s[y].pid)) {
            s[y].memory as int
        } else {
            0
        }
}

proof fn lemma_first_hit(s: Seq<MyProcess>, y: usize, x: usize, k: nat) -> (d: nat)
    requires
        1 <= k,
        ancestor(s, y, k) == x,
    ensures
        1 <= d <= k,
        ancestor(s, y, d) == x,
        forall|j: nat| 1 <= j < d ==> #[trigger] ancestor(s, y, j) != x,
    decreases k,
{
    if exists|j: nat| 1 <= j < k && #[trigger] ancestor(s, y, j) == x {
        let j = choose|j: nat| 1 <= j < k && #[trigger] ancestor(s, y, j) == x;
        lemma_first_hit(s, y, x, j)
    } else {
        k
    }
}

/// In a hierarchy a node appears at most once on a parent chain.
proof fn lemma_chain_no_repeat(s: Seq<MyProcess>, y: usize, a: nat, b: nat)
    requires
        is_hierarchy(s),
        has_pid(s, y),
        a < b <= s.len() + 1,
        b - a <= s.len(),
        ancestor(s, y, a) != 0,
    ensures
        ancestor(s, y, a) != ancestor(s, y, b),
{
    if ancestor(s, y, a) == ancestor(s, y, b) {
        let z = ancestor(s, y, a);
        lemma_nonzero_walk_in_set(s, y, a);
        let i = choose|i: int| 0 <= i < s.len() && s[i].pid == z;
        lemma_ancestor_compose(s, y, a, (b - a) as nat);
        assert(a + (b - a) as nat == b);
        assert(ancestor(s, z, (b - a) as nat) == z);
        lemma_not_own_ancestor(s, i);
        assert(is_proper_ancestor(s, z, z));
    }
}

proof fn lemma_under_row(s: Seq<MyProcess>, x: usize, t: int)
    requires
        is_hierarchy(s),
        0 <= t < s.len(),
    ensures
        row_sums(share_under(s, x), s.len() as int)(t) == child_total_under(s, x)(t),
{
    let n = s.len() as int;
    let g = share_under(s, x);
    let f = |y: int| g(t, y);
    if s[t].parent != x {
        lemma_sum_single(f, -1, n);
    } else {
        let single = |y: int|
            if y == t {
                s[y].memory as int
            } else {
                0
            };
        lemma_not_own_ancestor(s, t);
        assert forall|y: int| 0 <= y < n implies #[trigger] f(y) == single(y) + below_at(s, s[t].pid)(y) by {
            if y == t {
                assert(!is_proper_ancestor(s, s[t].pid, s[y].pid));
            }
        }
        lemma_sum_add(single, below_at(s, s[t].pid), f, n);
        lemma_sum_single(single, t, n);
        let dep = s[t].depth;
        assert(s[t].children_memory == descendant_memory(s, s[t].pid));
    }
    assert(row_sums(g, n)(t) == sum_to(f, n));
}

proof fn lemma_under_col(s: Seq<MyProcess>, x: usize, y: int)
    requires
        is_hierarchy(s),
        0 <= y < s.len(),
    ensures
        col_sums(share_under(s, x), s.len() as int)(y) == below_at(s, x)(y),
{
    let n = s.len() as int;
    let g = share_under(s, x);
    let f = |t: int| g(t, y);
    let p = s[y].pid;
    assert(has_pid(s, p));
    assert(reaches_root(s, p, s.len()));
    if is_proper_ancestor(s, x, p) {
        let k0 = choose|k: nat| 1 <= k <= s.len() && #[trigger] ancestor(s, p, k) == x;
        let d = lemma_first_hit(s, p, x, k0);
        let c = ancestor(s, p, (d - 1) as nat);
        if c == 0 {
            lemma_root_after(s, p, (d - 1) as nat, d);
            if x == 0 {
                if d >= 2 {
                    assert(ancestor(s, p, (d - 1) as nat) != x);
                }
                assert(ancestor(s, p, 0) == p);
            }
        }
        assert(c != 0);
        lemma_nonzero_walk_in_set(s, p, (d - 1) as nat);
        let t0 = choose|i: int| 0 <= i < s.len() && s[i].pid == c;
        lemma_parent_of_index(s, t0);
        assert(s[t0].parent == x);
        if d == 1 {
            assert(ancestor(s, p, 0) == p);
            assert(t0 == y);
        } else {
            assert(is_proper_ancestor(s, c, p)) by {
                assert(ancestor(s, p, (d - 1) as nat) == c);
            }
        }
        assert forall|t: int| 0 <= t < n && t != t0 implies #[trigger] f(t) == 0 by {
            if s[t].parent == x {
                lemma_parent_of_index(s, t);
                let kk: nat = if t == y {
                    assert(ancestor(s, p, 0) == p);
                    0
                } else if is_proper_ancestor(s, s[t].pid, p) {
                    choose|k: nat| 1 <= k <= s.len() && #[trigger] ancestor(s, p, k) == s[t].pid
                } else {
                    0
                };
                if t == y || is_proper_ancestor(s, s[t].pid, p) {
                    assert(ancestor(s, p, kk) == s[t].pid);
                    assert(ancestor(s, p, kk + 1) == x);
                    assert(kk + 1 >= d);
                    if kk + 1 > d {
                        if x == 0 {
                            lemma_root_after(s, p, d, kk);
                        } else {
                            lemma_chain_no_repeat(s, p, d, kk + 1);
                        }
                    }
                    assert(s[t].pid == c);
                }
            }
        }
        lemma_sum_single(f, t0, n);
    } else {
        assert forall|t: int| 0 <= t < n implies #[trigger] f(t) == 0 by {
            if s[t].parent == x && (t == y || is_proper_ancestor(s, s[t].pid, p)) {
                lemma_parent_of_index(s, t);
                let kk: nat = if t == y {
                    assert(ancestor(s, p, 0) == p);
                    0
                } else {
                    choose|k: nat| 1 <= k <= s.len() && #[trigger] ancestor(s, p, k) == s[t].pid
                };
                assert(ancestor(s, p, kk) == s[t].pid);
                assert(ancestor(s, p, kk + 1) == x);
                if kk + 1 > s.len() {
                    assert(ancestor(s, p, kk) == 0);
                }
                assert(is_proper_ancestor(s, x, p));
            }
        }
        lemma_sum_single(f, -1, n);
    }
}

/// Roll-up: the memory below a node is the sum, over the nodes directly
/// under it, of their own memory and the memory below them. The root is the
/// identifier 0.
pub proof fn lemma_children_memory_rolls_up(s: Seq<MyProcess>, x: usize)
    requires
        is_hierarchy(s),
    ensures
        descendant_memory(s, x) == children_totals(s, x),
{
    let n = s.len() as int;
    let g = share_under(s, x);
    assert forall|t: int| 0 <= t < n implies #[trigger] child_total_under(s, x)(t) == row_sums(g, n)(t) by {
        lemma_under_row(s, x, t);
    }
    lemma_sum_congruent(child_total_under(s, x), row_sums(g, n), n);
    lemma_sum_swap(g, n, n);
    assert forall|y: int| 0 <= y < n implies #[trigger] col_sums(g, n)(y) == below_at(s, x)(y) by {
        lemma_under_col(s, x, y);
    }
    lemma_sum_congruent(col_sums(g, n), below_at(s, x), n);
}

} // verus!
