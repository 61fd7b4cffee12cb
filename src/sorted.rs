//! The process table: column sorts, the tree view with its glyphs, filtering
//! and the display cells of each row.

use vstd::prelude::*;
use crate::process::MyProcess;
use crate::text::{contains_seq, lower_of, lex_less, lowercase, text_contains, text_less, lemma_lex_irreflexive, lemma_lex_transitive};
use crate::helpers::{decimal, dec, fixed1, nice_size, nice_size_text};
use vstd::string::*;
use vstd::multiset::Multiset;

verus! {

/// Direction of the table order; `Tree` is the tree view, unsorted by any column.
#[derive(PartialEq, Eq, Structural, Debug, Clone, Copy)]
pub enum SortType {
    Ascending,
    Descending,
    Tree,
}

/// `a` comes strictly before `b` when column `col` is sorted descending:
/// command, name, pid, own memory, children memory, total memory, cpu.
pub open spec fn precedes(col: usize, a: MyProcess, b: MyProcess) -> bool {
    if col == 0 {
        lex_less(lower_of(b.command@), lower_of(a.command@))
    } else if col == 1 {
        lex_less(lower_of(b.name@), lower_of(a.name@))
    } else if col == 2 {
        a.pid > b.pid
    } else if col == 3 {
        a.memory > b.memory
    } else if col == 4 {
        a.children_memory > b.children_memory
    } else if col == 5 {
        a.total_int() > b.total_int()
    } else {
        a.cpu > b.cpu
    }
}

/// The first row of `s[0..=k]` that no row of `s[0..=k]` comes strictly before.
pub open spec fn leader(col: usize, s: Seq<MyProcess>, k: int) -> int
    decreases k,
{
    if k <= 0 {
        0
    } else {
        let b = leader(col, s, k - 1);
        if precedes(col, s[k], s[b]) {
            k
        } else {
            b
        }
    }
}

/// `s` in descending order of column `col`; equal rows keep their order.
pub open spec fn sorted_desc(col: usize, s: Seq<MyProcess>) -> Seq<MyProcess>
    decreases s.len(),
{
    if s.len() == 0 {
        seq![]
    } else {
        let m = leader(col, s, s.len() - 1);
        if 0 <= m < s.len() {
            seq![s[m]] + sorted_desc(col, s.remove(m))
        } else {
            seq![]
        }
    }
}

pub open spec fn reversed(s: Seq<MyProcess>) -> Seq<MyProcess> {
    Seq::new(s.len(), |i: int| s[s.len() - 1 - i])
}

proof fn lemma_leader_range(col: usize, s: Seq<MyProcess>, k: int)
    ensures
        0 <= leader(col, s, k) <= if k < 0 {
            0
        } else {
            k
        },
    decreases k,
{
    if k > 0 {
        lemma_leader_range(col, s, k - 1);
    }
}

fn precedes_exec(col: usize, a: &MyProcess, b: &MyProcess) -> (r: bool)
    ensures
        r == precedes(col, *a, *b),
{
    if col == 0 {
        let la = lowercase(a.command.as_str());
        let lb = lowercase(b.command.as_str());
        text_less(lb.as_str(), la.as_str())
    } else if col == 1 {
        let la = lowercase(a.name.as_str());
        let lb = lowercase(b.name.as_str());
        text_less(lb.as_str(), la.as_str())
    } else if col == 2 {
        a.pid > b.pid
    } else if col == 3 {
        a.memory > b.memory
    } else if col == 4 {
        a.children_memory > b.children_memory
    } else if col == 5 {
        (a.memory as u128 + a.children_memory as u128) > (b.memory as u128
            + b.children_memory as u128)
    } else {
        a.cpu > b.cpu
    }
}

/// Sorts descending by column `col`, keeping the order of equal rows.
pub fn sort_desc(col: usize, v: Vec<MyProcess>) -> (r: Vec<MyProcess>)
    ensures
        r@ == sorted_desc(col, v@),
        ordered_desc(col, r@),
        r@.to_multiset() == v@.to_multiset(),
{
    proof {
        lemma_sorted_desc_ordered(col, v@);
        lemma_sorted_desc_permutes(col, v@);
    }
    let ghost orig = v@;
    let mut rest = v;
    let mut out: Vec<MyProcess> = Vec::new();
    while rest.len() > 0
        invariant
            out@ + sorted_desc(col, rest@) == sorted_desc(col, orig),
        decreases rest@.len(),
    {
        let mut b: usize = 0;
        let mut k: usize = 1;
        while k < rest.len()
            invariant
                1 <= k <= rest@.len(),
                b == leader(col, rest@, k - 1),
            decreases rest@.len() - k,
        {
            proof {
                lemma_leader_range(col, rest@, k - 1);
            }
            if precedes_exec(col, &rest[k], &rest[b]) {
                b = k;
            }
            k = k + 1;
        }
        proof {
            lemma_leader_range(col, rest@, rest@.len() - 1);
            assert(sorted_desc(col, rest@) == seq![rest@[b as int]] + sorted_desc(col, rest@.remove(b as int)));
        }
        let x = rest.remove(b);
        proof {
            assert(out@.push(x) + sorted_desc(col, rest@) == out@ + (seq![x] + sorted_desc(col, rest@)));
        }
        out.push(x);
    }
    proof {
        assert(sorted_desc(col, rest@) == Seq::<MyProcess>::empty());
        assert(out@ + Seq::<MyProcess>::empty() == out@);
    }
    out
}

proof fn lemma_precedes_order(col: usize, a: MyProcess, b: MyProcess, c: MyProcess)
    ensures
        !precedes(col, a, a),
        precedes(col, a, b) && precedes(col, b, c) ==> precedes(col, a, c),
{
    if col == 0 {
        lemma_lex_irreflexive(lower_of(a.command@));
        if precedes(col, a, b) && precedes(col, b, c) {
            lemma_lex_transitive(lower_of(c.command@), lower_of(b.command@), lower_of(a.command@));
        }
    } else if col == 1 {
        lemma_lex_irreflexive(lower_of(a.name@));
        if precedes(col, a, b) && precedes(col, b, c) {
            lemma_lex_transitive(lower_of(c.name@), lower_of(b.name@), lower_of(a.name@));
        }
    }
}

/// No row of `s[0..=k]` comes strictly before its leader.
proof fn lemma_leader_first(col: usize, s: Seq<MyProcess>, k: int)
    requires
        0 <= k < s.len(),
    ensures
        forall|j: int| 0 <= j <= k ==> !precedes(col, #[trigger] s[j], s[leader(col, s, k)]),
    decreases k,
{
    lemma_leader_range(col, s, k);
    if k > 0 {
        lemma_leader_first(col, s, k - 1);
        let b = leader(col, s, k - 1);
        lemma_leader_range(col, s, k - 1);
        if precedes(col, s[k], s[b]) {
            assert forall|j: int| 0 <= j <= k implies !precedes(col, #[trigger] s[j], s[k]) by {
                lemma_precedes_order(col, s[j], s[k], s[b]);
            }
        }
    } else {
        lemma_precedes_order(col, s[0], s[0], s[0]);
    }
}

/// No row of the sorted sequence comes strictly before an earlier one.
pub open spec fn ordered_desc(col: usize, s: Seq<MyProcess>) -> bool {
    forall|i: int, j: int| 0 <= i < j < s.len() ==> !precedes(col, #[trigger] s[j], #[trigger] s[i])
}

/// The sort yields rows in descending order of the column.
pub proof fn lemma_sorted_desc_ordered(col: usize, s: Seq<MyProcess>)
    ensures
        ordered_desc(col, sorted_desc(col, s)),
    decreases s.len(),
{
    if s.len() > 0 {
        let m = leader(col, s, s.len() - 1);
        lemma_leader_range(col, s, s.len() - 1);
        let rest = s.remove(m);
        lemma_sorted_desc_ordered(col, rest);
        lemma_leader_first(col, s, s.len() - 1);
        let out = sorted_desc(col, s);
        assert forall|i: int, j: int| 0 <= i < j < out.len() implies !precedes(col, #[trigger] out[j], #[trigger] out[i]) by {
            if i == 0 {
                lemma_sorted_desc_from(col, rest, j - 1);
                let x = sorted_desc(col, rest)[j - 1];
                let q = choose|q: int| 0 <= q < rest.len() && rest[q] == x;
                if q < m {
                    assert(rest[q] == s[q]);
                } else {
                    assert(rest[q] == s[q + 1]);
                }
            } else {
                assert(out[i] == sorted_desc(col, rest)[i - 1]);
                assert(out[j] == sorted_desc(col, rest)[j - 1]);
            }
        }
    }
}

/// The sort keeps every row, as often as it occurs.
pub proof fn lemma_sorted_desc_permutes(col: usize, s: Seq<MyProcess>)
    ensures
        sorted_desc(col, s).to_multiset() == s.to_multiset(),
    decreases s.len(),
{
    broadcast use vstd::multiset::group_multiset_axioms;
    if s.len() > 0 {
        let m = leader(col, s, s.len() - 1);
        lemma_leader_range(col, s, s.len() - 1);
        lemma_sorted_desc_permutes(col, s.remove(m));
        vstd::seq_lib::lemma_multiset_commutative(seq![s[m]], sorted_desc(col, s.remove(m)));
        vstd::seq_lib::to_multiset_remove(s, m);
        assert(seq![s[m]].to_multiset() =~= Multiset::empty().insert(s[m])) by {
            vstd::seq_lib::to_multiset_build(Seq::<MyProcess>::empty(), s[m]);
            assert(Seq::<MyProcess>::empty().push(s[m]) == seq![s[m]]);
            assert(Seq::<MyProcess>::empty().to_multiset() =~= Multiset::empty()) by {
                vstd::seq_lib::to_multiset_len(Seq::<MyProcess>::empty());
            }
        }
        vstd::seq_lib::to_multiset_contains(s, s[m]);
        assert(s.to_multiset().remove(s[m]).insert(s[m]) =~= s.to_multiset());
        assert(sorted_desc(col, s).to_multiset() =~= s.to_multiset());
    } else {
        assert(s =~= sorted_desc(col, s));
    }
}

pub proof fn lemma_sorted_desc_from(col: usize, s: Seq<MyProcess>, i: int)
    requires
        0 <= i < sorted_desc(col, s).len(),
    ensures
        s.contains(sorted_desc(col, s)[i]),
{
    lemma_sorted_desc_permutes(col, s);
    vstd::seq_lib::to_multiset_contains(sorted_desc(col, s), sorted_desc(col, s)[i]);
    vstd::seq_lib::to_multiset_contains(s, sorted_desc(col, s)[i]);
    assert(sorted_desc(col, s).contains(sorted_desc(col, s)[i]));
}

/// The rows in reverse order.
pub fn reverse_rows(v: Vec<MyProcess>) -> (r: Vec<MyProcess>)
    ensures
        r@ == reversed(v@),
{
    let n = v.len();
    let mut v = v;
    let ghost orig = v@;
    let mut out: Vec<MyProcess> = Vec::new();
    while v.len() > 0
        invariant
            n == orig.len(),
            v@ == orig.subrange(0, v@.len() as int),
            out@.len() == n - v@.len(),
            forall|i: int| 0 <= i < out@.len() ==> out@[i] == orig[n - 1 - i],
        decreases v@.len(),
    {
        let x = v.pop().unwrap();
        out.push(x);
    }
    proof {
        assert(out@ =~= reversed(orig));
    }
    out
}


/// Depth-first order of the nodes under `pid`, as (index, level) pairs: each
/// child in the order of `t`, followed by its own subtree. Levels stop at the
/// number of nodes, which no chain of a forest exceeds.
pub open spec fn dfs(t: Seq<MyProcess>, pid: usize, level: int) -> Seq<(usize, usize)>
    decreases t.len() - level, t.len() + 1,
{
    if level < 0 || level >= t.len() {
        seq![]
    } else {
        dfs_from(t, pid, level, 0)
    }
}

/// The part of `dfs(t, pid, level)` that comes from the children at index `i` or later.
pub open spec fn dfs_from(t: Seq<MyProcess>, pid: usize, level: int, i: int) -> Seq<(usize, usize)>
    decreases t.len() - level, t.len() - i,
{
    if level < 0 || level >= t.len() || i < 0 || i >= t.len() {
        seq![]
    } else if t[i].parent == pid {
        seq![(i as usize, level as usize)] + dfs(t, t[i].pid, level + 1) + dfs_from(t, pid, level, i + 1)
    } else {
        dfs_from(t, pid, level, i + 1)
    }
}

/// The children of `pid` and their subtrees in depth-first order, with
/// their level below `pid`'s children.
fn children_of(pid: usize, procs: &Vec<MyProcess>, level: usize) -> (r: Vec<(usize, usize)>)
    ensures
        r@ == dfs(procs@, pid, level as int),
        forall|k: int| 0 <= k < r@.len() ==> (#[trigger] r@[k]).0 < procs@.len() && r@[k].1 < procs@.len(),
    decreases procs@.len() - level,
{
    let n = procs.len();
    let mut out: Vec<(usize, usize)> = Vec::new();
    if level >= n {
        return out;
    }
    let mut i: usize = 0;
    while i < n
        invariant
            n == procs@.len(),
            level < n,
            i <= n,
            out@ + dfs_from(procs@, pid, level as int, i as int) == dfs(procs@, pid, level as int),
            forall|k: int| 0 <= k < out@.len() ==> (#[trigger] out@[k]).0 < n && out@[k].1 < n,
        decreases n - i,
    {
        if procs[i].parent == pid {
            let sub = children_of(procs[i].pid, procs, level + 1);
            let ghost before = out@;
            out.push((i, level));
            let mut k: usize = 0;
            while k < sub.len()
                invariant
                    n == procs@.len(),
                    level < n,
                    i < n,
                    k <= sub@.len(),
                    out@ == before.push((i, level)) + sub@.subrange(0, k as int),
                    forall|j: int| 0 <= j < sub@.len() ==> (#[trigger] sub@[j]).0 < n && sub@[j].1 < n,
                    forall|j: int| 0 <= j < out@.len() ==> (#[trigger] out@[j]).0 < n && out@[j].1 < n,
                decreases sub@.len() - k,
            {
                out.push(sub[k]);
                proof {
                    assert(sub@.subrange(0, k + 1) == sub@.subrange(0, k as int).push(sub@[k as int]));
                }
                k = k + 1;
            }
            proof {
                assert(sub@.subrange(0, sub@.len() as int) == sub@);
                assert(dfs_from(procs@, pid, level as int, i as int) == seq![(i, level)] + sub@ + dfs_from(procs@, pid, level as int, i + 1));
                assert(out@ + dfs_from(procs@, pid, level as int, i + 1) == before + dfs_from(procs@, pid, level as int, i as int));
            }
        }
        i = i + 1;
    }
    proof {
        assert(out@ + Seq::<(usize, usize)>::empty() == out@);
    }
    out
}


/// Row `i` has a later sibling: a later row at its level comes before any
/// row at a shallower level.
pub open spec fn later_sibling(lv: Seq<usize>, i: int) -> bool {
    exists|k: int|
        i < k < lv.len() && #[trigger] lv[k] == lv[i] && forall|m: int| i < m < k ==> #[trigger] lv[m] > lv[i]
}

/// The last row at or before `i` whose level is `j`, or -1.
pub open spec fn last_at(lv: Seq<usize>, i: int, j: int) -> int
    decreases i + 1,
{
    if i < 0 {
        -1
    } else if lv[i] == j {
        i
    } else {
        last_at(lv, i - 1, j)
    }
}

/// At row `i`, level `j` still has a sibling to come.
pub open spec fn pending(lv: Seq<usize>, i: int, j: int) -> bool {
    let a = last_at(lv, i, j);
    a >= 0 && later_sibling(lv, a)
}

/// The glyph of row `i` at level `j` (1-based).
pub open spec fn glyph(lv: Seq<usize>, i: int, j: int) -> char {
    if pending(lv, i, j) {
        if j == lv[i] {
            '├'
        } else {
            '│'
        }
    } else if j == lv[i] {
        '└'
    } else {
        ' '
    }
}

/// The glyphs that precede the command of row `i`: one per level above it.
pub open spec fn tree_prefix(lv: Seq<usize>, i: int) -> Seq<char> {
    Seq::new(lv[i] as nat, |k: int| glyph(lv, i, k + 1))
}

pub open spec fn levels(d: Seq<(usize, usize)>) -> Seq<usize> {
    Seq::new(d.len(), |k: int| d[k].1)
}

/// `out` is the tree view of `s`: rows ordered by descending total (ties in
/// the order of `s`) and laid out depth-first from the root, each command
/// prefixed with its glyphs.
pub open spec fn tree_arranged(s: Seq<MyProcess>, out: Seq<MyProcess>) -> bool {
    let t = sorted_desc(5, s);
    let d = dfs(t, 0, 0);
    &&& out.len() == d.len()
    &&& forall|r: int| 0 <= r < d.len() ==> (#[trigger] d[r]).0 < t.len()
    &&& forall|r: int|
        0 <= r < out.len() ==> #[trigger] out[r] == (MyProcess { command: out[r].command, ..t[d[r].0 as int] })
            && out[r].command@ == tree_prefix(levels(d), r) + t[d[r].0 as int].command@
}

fn has_later_sibling(lv: &Vec<usize>, i: usize) -> (r: bool)
    requires
        i < lv@.len(),
    ensures
        r == later_sibling(lv@, i as int),
{
    let n = lv.len();
    let l = lv[i];
    let mut j: usize = i + 1;
    while j < n
        invariant
            n == lv@.len(),
            i < n,
            l == lv@[i as int],
            i < j <= n,
            forall|m: int| i < m < j ==> #[trigger] lv@[m] > l,
        decreases n - j,
    {
        if lv[j] == l {
            return true;
        }
        if lv[j] < l {
            proof {
                assert forall|k: int| i < k < lv@.len() && #[trigger] lv@[k] == lv@[i as int] implies !(forall|m: int| i < m < k ==> #[trigger] lv@[m] > lv@[i as int]) by {
                    assert(k > j);
                    assert(!(lv@[j as int] > l));
                }
            }
            return false;
        }
        j = j + 1;
    }
    false
}

fn glyph_str(pend: bool, deepest: bool) -> (r: &'static str)
    ensures
        r@ == seq![if pend {
            if deepest {
                '├'
            } else {
                '│'
            }
        } else if deepest {
            '└'
        } else {
            ' '
        }],
{
    proof {
        reveal_strlit("├");
        reveal_strlit("│");
        reveal_strlit("└");
        reveal_strlit(" ");
    }
    if pend {
        if deepest {
            "├"
        } else {
            "│"
        }
    } else if deepest {
        "└"
    } else {
        " "
    }
}

/// Rearranges the rows into the tree view.
fn sort_by_command_with_tree(procs: &mut Vec<MyProcess>)
    ensures
        tree_arranged(old(procs)@, final(procs)@),
{
    let ghost s = procs@;
    let mut taken: Vec<MyProcess> = Vec::new();
    std::mem::swap(procs, &mut taken);
    let t = sort_desc(5, taken);
    let ordered = children_of(0, &t, 0);
    let m = ordered.len();
    let n = t.len();
    let mut lv: Vec<usize> = Vec::new();
    let mut k: usize = 0;
    while k < m
        invariant
            m == ordered@.len(),
            k <= m,
            lv@.len() == k,
            forall|j: int| 0 <= j < k ==> #[trigger] lv@[j] == ordered@[j].1,
        decreases m - k,
    {
        lv.push(ordered[k].1);
        k = k + 1;
    }
    proof {
        assert(lv@ =~= levels(ordered@));
    }
    let mut later: Vec<bool> = Vec::new();
    let mut k: usize = 0;
    while k < n
        invariant
            k <= n,
            later@.len() == k,
            forall|j: int| 0 <= j < k ==> !#[trigger] later@[j],
        decreases n - k,
    {
        later.push(false);
        k = k + 1;
    }
    let mut result: Vec<MyProcess> = Vec::new();
    let mut i: usize = 0;
    while i < m
        invariant
            m == ordered@.len(),
            n == t@.len(),
            t@ == sorted_desc(5, s),
            ordered@ == dfs(t@, 0, 0),
            lv@ == levels(ordered@),
            forall|k: int| 0 <= k < m ==> (#[trigger] ordered@[k]).0 < n && ordered@[k].1 < n,
            later@.len() == n,
            i <= m,
            forall|j: int| 0 <= j < n ==> #[trigger] later@[j] == pending(lv@, i - 1, j),
            result@.len() == i,
            forall|r: int|
                0 <= r < i ==> #[trigger] result@[r] == (MyProcess {
                    command: result@[r].command,
                    ..t@[ordered@[r].0 as int]
                }) && result@[r].command@ == tree_prefix(lv@, r) + t@[ordered@[r].0 as int].command@,
        decreases m - i,
    {
        let l = lv[i];
        let has = has_later_sibling(&lv, i);
        proof {
            assert forall|j: int| 0 <= j < n && j != l implies pending(lv@, i as int, j) == pending(lv@, i - 1, j) by {
                assert(last_at(lv@, i as int, j) == last_at(lv@, i - 1, j));
            }
            assert(last_at(lv@, i as int, l as int) == i);
        }
        later.set(l, has);
        let mut sym = String::new();
        let mut j: usize = 1;
        while j <= l
            invariant
                n == later@.len(),
                l < n,
                l == lv@[i as int],
                i < lv@.len(),
                1 <= j <= l + 1,
                forall|q: int| 0 <= q < n ==> #[trigger] later@[q] == pending(lv@, i as int, q),
                sym@ == Seq::new((j - 1) as nat, |k: int| glyph(lv@, i as int, k + 1)),
            decreases l + 1 - j,
        {
            let g = glyph_str(later[j], j == l);
            sym.append(g);
            proof {
                assert(sym@ =~= Seq::new(j as nat, |k: int| glyph(lv@, i as int, k + 1)));
            }
            j = j + 1;
        }
        let mut row = t[ordered[i].0].copied();
        sym.append(row.command.as_str());
        row.command = sym;
        result.push(row);
        proof {
            assert forall|r: int| 0 <= r <= i implies #[trigger] result@[r] == (MyProcess {
                command: result@[r].command,
                ..t@[ordered@[r].0 as int]
            }) && result@[r].command@ == tree_prefix(lv@, r) + t@[ordered@[r].0 as int].command@ by {
                if r == i {
                    assert(tree_prefix(lv@, r) =~= Seq::new(l as nat, |k: int| glyph(lv@, i as int, k + 1)));
                }
            }
        }
        i = i + 1;
    }
    *procs = result;
}


/// `out` is `s` as the view shows it for column `col` and direction `ty`.
pub open spec fn arranged(col: usize, ty: SortType, s: Seq<MyProcess>, out: Seq<MyProcess>) -> bool {
    match ty {
        SortType::Descending => out == sorted_desc(col, s),
        SortType::Ascending => out == reversed(sorted_desc(col, s)),
        SortType::Tree => tree_arranged(sorted_desc(col, s), out),
    }
}

/// A row is shown: it has memory unless zero rows are hidden, and the filter
/// is empty or occurs, ignoring case, in its name or its command.
pub open spec fn visible(hidezeros: bool, filter: Seq<char>, p: MyProcess) -> bool {
    &&& (!hidezeros || p.memory != 0)
    &&& (filter.len() == 0 || contains_seq(lower_of(p.name@), lower_of(filter)) || contains_seq(
        lower_of(p.command@),
        lower_of(filter),
    ))
}

pub open spec fn shown(hidezeros: bool, filter: Seq<char>) -> spec_fn(MyProcess) -> bool {
    |p: MyProcess| visible(hidezeros, filter, p)
}

/// The display cells of a row: command, name, pid, own, children and total
/// memory, cpu.
pub open spec fn row_cells(p: MyProcess) -> Seq<Seq<char>> {
    seq![
        p.command@,
        p.name@,
        dec(p.pid as nat),
        nice_size_text(p.memory as nat, false),
        nice_size_text(p.children_memory as nat, false),
        nice_size_text(p.total_int() as nat, false),
        fixed1(p.cpu as nat, false) + seq!['%'],
    ]
}

/// Filtering the rows a second time with the same settings changes nothing.
pub proof fn lemma_filter_idempotent(s: Seq<MyProcess>, hidezeros: bool, filter: Seq<char>)
    ensures
        s.filter(shown(hidezeros, filter)).filter(shown(hidezeros, filter)) == s.filter(
            shown(hidezeros, filter),
        ),
    decreases s.len(),
{
    reveal(Seq::filter);
    let f = shown(hidezeros, filter);
    if s.len() > 0 {
        lemma_filter_idempotent(s.drop_last(), hidezeros, filter);
        let a = s.drop_last().filter(f);
        if f(s.last()) {
            assert(a.push(s.last()).drop_last() == a);
        }
    }
}

/// The rows of the process table and the order and filter they are shown in.
pub struct SortedProcesses {
    pub sort_col: usize,
    pub sort_type: SortType,
    pub hidezeros: bool,
    pub filter: String,
    pub procs: Vec<MyProcess>,
}

impl SortedProcesses {
    /// The rows in the order of the view, before filtering.
    pub open spec fn stored(&self) -> Seq<MyProcess> {
        self.procs@
    }

    pub open spec fn filter_text(&self) -> Seq<char> {
        self.filter@
    }

    /// Every stored row has a total that fits in 64 bits.
    pub open spec fn totals_fit(&self) -> bool {
        forall|i: int| 0 <= i < self.stored().len() ==> #[trigger] self.stored()[i].total_int() <= u64::MAX
    }

    pub fn new() -> (r: Self)
        ensures
            r.sort_col == 0,
            r.sort_type == SortType::Tree,
            r.hidezeros,
            r.stored().len() == 0,
            r.filter_text().len() == 0,
    {
        SortedProcesses {
            sort_col: 0,
            sort_type: SortType::Tree,
            hidezeros: true,
            filter: String::new(),
            procs: Vec::new(),
        }
    }

    /// Replaces the rows by a copy of `procs` in the order of the view.
    pub fn update(&mut self, procs: &[MyProcess])
        requires
            old(self).sort_col <= 6,
        ensures
            arranged(old(self).sort_col, old(self).sort_type, procs@, final(self).stored()),
            final(self).sort_col == old(self).sort_col,
            final(self).sort_type == old(self).sort_type,
            final(self).hidezeros == old(self).hidezeros,
            final(self).filter_text() == old(self).filter_text(),
            (forall|i: int| 0 <= i < procs@.len() ==> #[trigger] procs@[i].total_int() <= u64::MAX)
                ==> final(self).totals_fit(),
    {
        let mut copy: Vec<MyProcess> = Vec::new();
        let mut i: usize = 0;
        while i < procs.len()
            invariant
                i <= procs@.len(),
                copy@ == procs@.subrange(0, i as int),
            decreases procs@.len() - i,
        {
            copy.push(procs[i].copied());
            proof {
                assert(procs@.subrange(0, i + 1) == procs@.subrange(0, i as int).push(procs@[i as int]));
            }
            i = i + 1;
        }
        proof {
            assert(procs@.subrange(0, procs@.len() as int) == procs@);
        }
        self.procs = copy;
        self.sort();
        proof {
            if forall|i: int| 0 <= i < procs@.len() ==> #[trigger] procs@[i].total_int() <= u64::MAX {
                let desc = sorted_desc(self.sort_col, procs@);
                assert forall|i: int| 0 <= i < desc.len() implies #[trigger] desc[i].total_int() <= u64::MAX by {
                    lemma_sorted_desc_from(self.sort_col, procs@, i);
                }
                let t = sorted_desc(5, desc);
                assert forall|i: int| 0 <= i < t.len() implies #[trigger] t[i].total_int() <= u64::MAX by {
                    lemma_sorted_desc_from(5, desc, i);
                }
                let out = self.procs@;
                assert forall|i: int| 0 <= i < out.len() implies #[trigger] out[i].total_int() <= u64::MAX by {
                    match self.sort_type {
                        SortType::Descending => {},
                        SortType::Ascending => {
                            assert(out[i] == desc[desc.len() - 1 - i]);
                        },
                        SortType::Tree => {
                            let d = dfs(t, 0, 0);
                            assert(d[i].0 < t.len());
                            assert(out[i].total_int() == t[d[i].0 as int].total_int());
                        },
                    }
                }
            }
        }
    }

    fn sort(&mut self)
        requires
            old(self).sort_col <= 6,
        ensures
            arranged(old(self).sort_col, old(self).sort_type, old(self).procs@, final(self).procs@),
            final(self).sort_col == old(self).sort_col,
            final(self).sort_type == old(self).sort_type,
            final(self).hidezeros == old(self).hidezeros,
            final(self).filter == old(self).filter,
    {
        let mut taken: Vec<MyProcess> = Vec::new();
        std::mem::swap(&mut self.procs, &mut taken);
        let desc = sort_desc(self.sort_col, taken);
        match self.sort_type {
            SortType::Descending => {
                self.procs = desc;
            },
            SortType::Ascending => {
                self.procs = reverse_rows(desc);
            },
            SortType::Tree => {
                let mut rows = desc;
                sort_by_command_with_tree(&mut rows);
                self.procs = rows;
            },
        }
    }

    /// Steps the direction: the command column goes tree, ascending,
    /// descending, tree; other columns go to descending, then alternate.
    pub fn sort_cycle(&mut self)
        ensures
            final(self).sort_type == if old(self).sort_col == 0 {
                match old(self).sort_type {
                    SortType::Tree => SortType::Ascending,
                    SortType::Ascending => SortType::Descending,
                    SortType::Descending => SortType::Tree,
                }
            } else {
                match old(self).sort_type {
                    SortType::Tree => SortType::Descending,
                    SortType::Ascending => SortType::Descending,
                    SortType::Descending => SortType::Ascending,
                }
            },
            final(self).sort_col == old(self).sort_col,
            final(self).hidezeros == old(self).hidezeros,
            final(self).stored() == old(self).stored(),
            final(self).filter_text() == old(self).filter_text(),
    {
        self.sort_type = if self.sort_col == 0 {
            match self.sort_type {
                SortType::Tree => SortType::Ascending,
                SortType::Ascending => SortType::Descending,
                SortType::Descending => SortType::Tree,
            }
        } else {
            match self.sort_type {
                SortType::Tree => SortType::Descending,
                SortType::Ascending => SortType::Descending,
                SortType::Descending => SortType::Ascending,
            }
        };
    }

    /// Sets the text that shown rows must contain.
    pub fn set_filter(&mut self, filter: String)
        ensures
            final(self).filter_text() == filter@,
            final(self).sort_col == old(self).sort_col,
            final(self).sort_type == old(self).sort_type,
            final(self).hidezeros == old(self).hidezeros,
            final(self).stored() == old(self).stored(),
    {
        self.filter = filter;
    }

    /// The shown rows, as display cells, in the order of the view.
    pub fn procs(&self) -> (r: Vec<Vec<String>>)
        requires
            self.totals_fit(),
        ensures
            r@.len() == self.stored().filter(shown(self.hidezeros, self.filter_text())).len(),
            forall|k: int|
                0 <= k < r@.len() ==> (#[trigger] r@[k])@.len() == 7 && forall|c: int|
                    0 <= c < 7 ==> (#[trigger] r@[k]@[c])@ == row_cells(
                        self.stored().filter(shown(self.hidezeros, self.filter_text()))[k],
                    )[c],
    {
        let ghost f = shown(self.hidezeros, self.filter@);
        let lower_filter = lowercase(self.filter.as_str());
        let no_filter = self.filter.as_str().unicode_len() == 0;
        let mut out: Vec<Vec<String>> = Vec::new();
        let mut i: usize = 0;
        while i < self.procs.len()
            invariant
                i <= self.procs@.len(),
                f == shown(self.hidezeros, self.filter@),
                lower_filter@ == lower_of(self.filter@),
                no_filter == (self.filter@.len() == 0),
                self.totals_fit(),
                out@.len() == self.procs@.subrange(0, i as int).filter(f).len(),
                forall|k: int|
                    0 <= k < out@.len() ==> (#[trigger] out@[k])@.len() == 7 && forall|c: int|
                        0 <= c < 7 ==> (#[trigger] out@[k]@[c])@ == row_cells(
                            self.procs@.subrange(0, i as int).filter(f)[k],
                        )[c],
            decreases self.procs@.len() - i,
        {
            let p = &self.procs[i];
            let show = (!self.hidezeros || p.memory != 0) && (no_filter || text_contains(
                lowercase(p.name.as_str()).as_str(),
                lower_filter.as_str(),
            ) || text_contains(lowercase(p.command.as_str()).as_str(), lower_filter.as_str()));
            proof {
                reveal(Seq::filter);
                assert(self.procs@.subrange(0, i + 1).drop_last() == self.procs@.subrange(0, i as int));
                assert(show == f(self.procs@[i as int]));
            }
            if show {
                proof {
                    assert(self.stored()[i as int].total_int() <= u64::MAX);
                }
                let row = row_strings(p);
                out.push(row);
            }
            i = i + 1;
        }
        proof {
            assert(self.procs@.subrange(0, self.procs@.len() as int) == self.procs@);
        }
        out
    }
}

fn cpu_text(cpu: u64) -> (r: String)
    ensures
        r@ == fixed1(cpu as nat, false) + seq!['%'],
{
    proof {
        reveal_strlit(".");
        reveal_strlit("%");
    }
    let mut s = decimal(cpu / 10);
    s.append(".");
    s.append(decimal(cpu % 10).as_str());
    s.append("%");
    s
}

fn row_strings(p: &MyProcess) -> (r: Vec<String>)
    requires
        p.total_int() <= u64::MAX,
    ensures
        r@.len() == 7,
        forall|c: int| 0 <= c < 7 ==> (#[trigger] r@[c])@ == row_cells(*p)[c],
{
    let mut r: Vec<String> = Vec::new();
    r.push(p.command.clone());
    r.push(p.name.clone());
    r.push(decimal(p.pid as u64));
    r.push(nice_size(p.memory));
    r.push(nice_size(p.children_memory));
    r.push(nice_size(p.total()));
    r.push(cpu_text(p.cpu));
    r
}


/// The pids of the first `k` rows in descending order of column `col`.
pub fn top_pids(procs: &[MyProcess], col: usize, k: usize) -> (r: Vec<usize>)
    ensures
        r@ == sorted_desc(col, procs@).take(
            if k <= procs@.len() {
                k as int
            } else {
                procs@.len() as int
            },
        ).map_values(|p: MyProcess| p.pid),
{
    let mut copy: Vec<MyProcess> = Vec::new();
    let mut i: usize = 0;
    while i < procs.len()
        invariant
            i <= procs@.len(),
            copy@ == procs@.subrange(0, i as int),
        decreases procs@.len() - i,
    {
        copy.push(procs[i].copied());
        proof {
            assert(procs@.subrange(0, i + 1) == procs@.subrange(0, i as int).push(procs@[i as int]));
        }
        i = i + 1;
    }
    proof {
        assert(procs@.subrange(0, procs@.len() as int) == procs@);
    }
    let sorted = sort_desc(col, copy);
    proof {
        lemma_sorted_desc_permutes(col, procs@);
        vstd::seq_lib::to_multiset_len(procs@);
        vstd::seq_lib::to_multiset_len(sorted@);
    }
    let m = if k <= sorted.len() {
        k
    } else {
        sorted.len()
    };
    let mut out: Vec<usize> = Vec::new();
    let mut j: usize = 0;
    while j < m
        invariant
            m <= sorted@.len(),
            j <= m,
            out@ == sorted@.take(j as int).map_values(|p: MyProcess| p.pid),
        decreases m - j,
    {
        out.push(sorted[j].pid);
        proof {
            assert(sorted@.take(j + 1) == sorted@.take(j as int).push(sorted@[j as int]));
            assert(sorted@.take(j + 1).map_values(|p: MyProcess| p.pid) =~= sorted@.take(j as int).map_values(|p: MyProcess| p.pid).push(sorted@[j as int].pid));
        }
        j = j + 1;
    }
    out
}

} // verus!
