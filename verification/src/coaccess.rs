use vstd::prelude::*;

use crate::fixlog::{lnfix, spec_lnfix, LOG_SCALE};
use vstd::arithmetic::div_mod::lemma_div_pos_is_pos;

verus! {

/// The window starting at `s` holds `p`: some of the `w` consecutive
/// history entries from `s` equals `p`. Repeats inside one window count
/// once, which this formulation gives for free.
pub open spec fn spec_win_has(h: Seq<Seq<char>>, w: int, s: int, p: Seq<char>) -> bool {
    exists|i: int| s <= i < s + w && 0 <= i < h.len() && h[i] == p
}

/// How many of the first `n` windows hold `p` (the marginal count).
pub open spec fn spec_marginal(h: Seq<Seq<char>>, w: int, p: Seq<char>, n: int) -> int
    decreases n,
{
    if n <= 0 {
        0
    } else {
        spec_marginal(h, w, p, n - 1) + if spec_win_has(h, w, n - 1, p) {
            1int
        } else {
            0int
        }
    }
}

/// How many of the first `n` windows hold both `p` and `q` (the joint count).
pub open spec fn spec_joint(h: Seq<Seq<char>>, w: int, p: Seq<char>, q: Seq<char>, n: int) -> int
    decreases n,
{
    if n <= 0 {
        0
    } else {
        spec_joint(h, w, p, q, n - 1) + if spec_win_has(h, w, n - 1, p) && spec_win_has(
            h,
            w,
            n - 1,
            q,
        ) {
            1int
        } else {
            0int
        }
    }
}

pub proof fn lemma_marginal_bounds(h: Seq<Seq<char>>, w: int, p: Seq<char>, n: int)
    ensures
        0 <= spec_marginal(h, w, p, n) <= if n >= 0 {
            n
        } else {
            0
        },
    decreases n,
{
    if n > 0 {
        lemma_marginal_bounds(h, w, p, n - 1);
    }
}

pub proof fn lemma_joint_le_marginal(h: Seq<Seq<char>>, w: int, p: Seq<char>, q: Seq<char>, n: int)
    ensures
        0 <= spec_joint(h, w, p, q, n),
        spec_joint(h, w, p, q, n) <= spec_marginal(h, w, p, n),
        spec_joint(h, w, p, q, n) <= spec_marginal(h, w, q, n),
    decreases n,
{
    if n > 0 {
        lemma_joint_le_marginal(h, w, p, q, n - 1);
    }
}

/// The joint count does not depend on the order of the pair.
pub proof fn lemma_joint_symmetric(h: Seq<Seq<char>>, w: int, p: Seq<char>, q: Seq<char>, n: int)
    ensures
        spec_joint(h, w, p, q, n) == spec_joint(h, w, q, p, n),
    decreases n,
{
    if n > 0 {
        lemma_joint_symmetric(h, w, p, q, n - 1);
    }
}

/// The association score of a pair, from its joint count `j`, the two
/// marginal counts `a` and `b`, and the number of windows `t`: the
/// normalized pointwise mutual information
/// `ln(j*t/(a*b)) / ln(t/j)`, in fixed point scaled by `LOG_SCALE` and
/// clamped to `[0, LOG_SCALE]`. A pair seen in every window has the maximal
/// score, the degenerate case where the normalizer would vanish.
pub open spec fn spec_pair_score(j: int, a: int, b: int, t: int) -> int {
    if j == t {
        LOG_SCALE as int
    } else {
        let num = spec_lnfix(j as nat) + spec_lnfix(t as nat) - spec_lnfix(a as nat) - spec_lnfix(
            b as nat,
        );
        let den = spec_lnfix(t as nat) - spec_lnfix(j as nat);
        if num > 0 && den > 0 {
            let s = num * (LOG_SCALE as int) / den;
            if s > LOG_SCALE as int {
                LOG_SCALE as int
            } else {
                s
            }
        } else {
            0
        }
    }
}

/// Computes `spec_pair_score` on machine integers.
pub fn pair_score(j: u64, a: u64, b: u64, t: u64) -> (r: i64)
    requires
        1 <= j,
        j <= a <= t,
        j <= b <= t,
    ensures
        r == spec_pair_score(j as int, a as int, b as int, t as int),
        0 <= r <= LOG_SCALE as i64,
{
    if j == t {
        LOG_SCALE as i64
    } else {
        let lj = lnfix(j) as i64;
        let la = lnfix(a) as i64;
        let lb = lnfix(b) as i64;
        let lt = lnfix(t) as i64;
        let num: i64 = lj + lt - la - lb;
        let den: i64 = lt - lj;
        if num > 0 && den > 0 {
            let nu: u64 = num as u64;
            let de: u64 = den as u64;
            let s: u64 = nu * LOG_SCALE / de;
            proof {
                lemma_div_pos_is_pos((nu * LOG_SCALE) as int, de as int);
                assert(s == num * (LOG_SCALE as int) / (den as int));
            }
            if s > LOG_SCALE {
                LOG_SCALE as i64
            } else {
                s as i64
            }
        } else {
            0
        }
    }
}

/// The distinct paths of `h` in order of first appearance.
pub open spec fn spec_intern(h: Seq<Seq<char>>) -> Seq<Seq<char>>
    decreases h.len(),
{
    if h.len() == 0 {
        Seq::<Seq<char>>::empty()
    } else {
        let pre = spec_intern(h.drop_last());
        if pre.contains(h.last()) {
            pre
        } else {
            pre.push(h.last())
        }
    }
}

pub proof fn lemma_intern_contains(h: Seq<Seq<char>>, p: Seq<char>)
    ensures
        spec_intern(h).contains(p) <==> h.contains(p),
    decreases h.len(),
{
    if h.len() > 0 {
        lemma_intern_contains(h.drop_last(), p);
        let pre = spec_intern(h.drop_last());
        if h.contains(p) {
            let i = choose|i: int| 0 <= i < h.len() && h[i] == p;
            if i < h.len() - 1 {
                assert(h.drop_last()[i] == p);
                assert(h.drop_last().contains(p));
            }
        }
        if pre.contains(p) || (h.last() == p && !pre.contains(h.last())) {
            assert(spec_intern(h).contains(p)) by {
                if pre.contains(p) {
                    let i = choose|i: int| 0 <= i < pre.len() && pre[i] == p;
                    assert(spec_intern(h)[i] == p);
                } else {
                    assert(spec_intern(h).last() == p);
                }
            }
        }
        if h.drop_last().contains(p) {
            let i = choose|i: int| 0 <= i < h.len() - 1 && h.drop_last()[i] == p;
            assert(h[i] == p);
        }
    }
}

pub proof fn lemma_intern_distinct(h: Seq<Seq<char>>)
    ensures
        forall|i: int, j: int|
            0 <= i < j < spec_intern(h).len() ==> spec_intern(h)[i] != spec_intern(h)[j],
    decreases h.len(),
{
    if h.len() > 0 {
        lemma_intern_distinct(h.drop_last());
        let pre = spec_intern(h.drop_last());
        if !pre.contains(h.last()) {
            assert forall|i: int, j: int|
                0 <= i < j < spec_intern(h).len() implies spec_intern(h)[i] != spec_intern(
                h,
            )[j] by {
                if j < pre.len() {
                } else {
                    assert(spec_intern(h)[j] == h.last());
                    assert(spec_intern(h)[i] == pre[i]);
                    if pre[i] == h.last() {
                        assert(pre.contains(h.last()));
                    }
                }
            }
        }
    }
}

/// One undirected edge as seen from one endpoint.
pub struct CoAccessEdge {
    pub neighbor: String,
    pub score: i64,
}

/// A symmetric weighted graph of statistical association between paths.
/// `nodes` holds every distinct path of the history, and `adj[k]` the
/// adjacency of `nodes[k]` as `(node index, score)` pairs, strongest first.
pub struct CoAccessGraph {
    pub nodes: Vec<String>,
    pub adj: Vec<Vec<(usize, i64)>>,
    pub window_size: usize,
}

/// `e1` comes strictly before `e2` in an adjacency row: a higher score, or
/// an equal score and a smaller node index. A strict total order on entries
/// with distinct indices, so a sorted row is unique.
pub open spec fn spec_entry_before(e1: (usize, i64), e2: (usize, i64)) -> bool {
    e1.1 > e2.1 || (e1.1 == e2.1 && e1.0 < e2.0)
}

/// The score stored for neighbor index `b`, or 0 when the row has no entry
/// for `b`.
pub open spec fn seq_lookup(s: Seq<(usize, i64)>, b: int) -> int
    decreases s.len(),
{
    if s.len() == 0 {
        0
    } else if s[0].0 == b {
        s[0].1 as int
    } else {
        seq_lookup(s.drop_first(), b)
    }
}

/// Whether the row has an entry for neighbor index `b`.
pub open spec fn spec_has_nb(s: Seq<(usize, i64)>, b: int) -> bool {
    exists|x: int| 0 <= x < s.len() && s[x].0 == b
}

pub proof fn lemma_lookup_of_entry(s: Seq<(usize, i64)>, x: int)
    requires
        0 <= x < s.len(),
        forall|u: int, v: int| 0 <= u < v < s.len() ==> s[u].0 != s[v].0,
    ensures
        seq_lookup(s, s[x].0 as int) == s[x].1 as int,
    decreases s.len(),
{
    if x == 0 {
    } else {
        assert(s[0].0 != s[x].0);
        assert(s.drop_first()[x - 1] == s[x]);
        lemma_lookup_of_entry(s.drop_first(), x - 1);
    }
}

pub proof fn lemma_lookup_absent(s: Seq<(usize, i64)>, b: int)
    requires
        !spec_has_nb(s, b),
    ensures
        seq_lookup(s, b) == 0,
    decreases s.len(),
{
    if s.len() > 0 {
        assert(s[0].0 != b);
        assert(forall|x: int|
            0 <= x < s.drop_first().len() ==> s.drop_first()[x] == s[x + 1]);
        lemma_lookup_absent(s.drop_first(), b);
    }
}

pub proof fn lemma_lookup_membership(s: Seq<(usize, i64)>, b: int)
    requires
        seq_lookup(s, b) != 0,
    ensures
        exists|x: int|
            0 <= x < s.len() && s[x].0 == b && s[x].1 as int == seq_lookup(s, b),
    decreases s.len(),
{
    if s.len() > 0 {
        if s[0].0 == b {
            assert(s[0].0 == b && s[0].1 as int == seq_lookup(s, b));
        } else {
            lemma_lookup_membership(s.drop_first(), b);
            let x = choose|x: int|
                0 <= x < s.drop_first().len() && s.drop_first()[x].0 == b && s.drop_first()[x].1
                    as int == seq_lookup(s.drop_first(), b);
            assert(s[x + 1].0 == b && s[x + 1].1 as int == seq_lookup(s, b));
        }
    }
}

impl CoAccessGraph {
    /// The node paths, as sequences of characters.
    pub open spec fn nodes_view(self) -> Seq<Seq<char>> {
        self.nodes.deep_view()
    }

    /// Structural well-formedness: one adjacency row per node, distinct
    /// nodes, and rows whose entries point at other nodes, carry scores in
    /// `(0, LOG_SCALE]`, mention each neighbor at most once, and are
    /// strictly ordered, strongest first.
    pub open spec fn wf(self) -> bool {
        &&& self.adj.len() == self.nodes.len()
        &&& forall|i: int, j: int|
            0 <= i < j < self.nodes_view().len() ==> self.nodes_view()[i] != self.nodes_view()[j]
        &&& forall|k: int, x: int|
            0 <= k < self.adj.len() && 0 <= x < self.adj[k].len() ==> {
                let e = #[trigger] self.adj[k]@[x];
                0 < e.1 <= LOG_SCALE as i64 && (e.0 as int) < self.nodes.len() && e.0 as int != k
            }
        &&& forall|k: int, x: int, y: int|
            0 <= k < self.adj.len() && 0 <= x < y < self.adj[k].len() ==> self.adj[k]@[x].0
                != self.adj[k]@[y].0
        &&& forall|k: int, x: int, y: int|
            0 <= k < self.adj.len() && 0 <= x < y < self.adj[k].len() ==> spec_entry_before(
                self.adj[k]@[x],
                self.adj[k]@[y],
            )
    }

    /// The score the graph built from history `h` with window size `w`
    /// associates with the pair `(p, q)`: the pair score of the counts when
    /// the pair was seen together at least once and scored above zero, and
    /// 0 (no edge) otherwise.
    pub open spec fn spec_edge_score(h: Seq<Seq<char>>, w: int, p: Seq<char>, q: Seq<char>) -> int {
        if h.len() < w || w < 2 || p == q {
            0
        } else {
            let t = h.len() - w + 1;
            let j = spec_joint(h, w, p, q, t);
            if j > 0 {
                let s = spec_pair_score(
                    j,
                    spec_marginal(h, w, p, t),
                    spec_marginal(h, w, q, t),
                    t,
                );
                if s > 0 {
                    s
                } else {
                    0
                }
            } else {
                0
            }
        }
    }

    /// The graph is exactly the one the history determines: its nodes are
    /// the distinct paths of `h` in first-appearance order (none, for a
    /// degenerate window), and every stored score is the pair score of the
    /// counts. With `wf`, this pins the graph completely.
    pub open spec fn matches_history(self, h: Seq<Seq<char>>, w: int) -> bool {
        &&& self.window_size == w
        &&& self.wf()
        &&& self.nodes_view() == if h.len() < w || w < 2 {
            Seq::<Seq<char>>::empty()
        } else {
            spec_intern(h)
        }
        &&& forall|a: int, b: int|
            0 <= a < self.nodes.len() && 0 <= b < self.nodes.len() ==> seq_lookup(
                self.adj[a]@,
                b,
            ) == Self::spec_edge_score(h, w, self.nodes_view()[a], self.nodes_view()[b])
    }

    /// The index of the node whose path is `p`, or -1 when absent.
    pub open spec fn spec_node_index(nv: Seq<Seq<char>>, p: Seq<char>) -> int
        decreases nv.len(),
    {
        if nv.len() == 0 {
            -1
        } else if nv[0] == p {
            0
        } else {
            let r = Self::spec_node_index(nv.drop_first(), p);
            if r < 0 {
                -1
            } else {
                1 + r
            }
        }
    }

    /// The score the graph holds for the ordered pair of paths, `None`
    /// where either path is absent or no edge is stored.
    pub open spec fn spec_score_for(self, p: Seq<char>, q: Seq<char>) -> Option<int> {
        let ia = Self::spec_node_index(self.nodes_view(), p);
        let ib = Self::spec_node_index(self.nodes_view(), q);
        if ia >= 0 && ib >= 0 && seq_lookup(self.adj[ia]@, ib) != 0 {
            Some(seq_lookup(self.adj[ia]@, ib))
        } else {
            None
        }
    }
}

proof fn lemma_lookup_insert(s: Seq<(usize, i64)>, i: int, e: (usize, i64))
    requires
        0 <= i <= s.len(),
        forall|x: int| 0 <= x < s.len() ==> (#[trigger] s[x]).0 != e.0,
    ensures
        seq_lookup(s.insert(i, e), e.0 as int) == e.1 as int,
        forall|b: int| b != e.0 as int ==> seq_lookup(s.insert(i, e), b) == seq_lookup(s, b),
    decreases s.len(),
{
    let s2 = s.insert(i, e);
    if i == 0 {
        assert(s2[0] == e);
        assert(s2.drop_first() =~= s);
        assert(seq_lookup(s2, e.0 as int) == e.1 as int);
        assert forall|b: int| b != e.0 as int implies seq_lookup(s2, b) == seq_lookup(s, b) by {
            assert(seq_lookup(s2, b) == seq_lookup(s2.drop_first(), b));
        }
    } else {
        assert(s2[0] == s[0]);
        assert(s2.drop_first() =~= s.drop_first().insert(i - 1, e));
        assert(forall|x: int|
            0 <= x < s.drop_first().len() ==> (#[trigger] s.drop_first()[x]).0 != e.0) by {
            assert(forall|x: int|
                0 <= x < s.drop_first().len() ==> s.drop_first()[x] == s[x + 1]);
        }
        lemma_lookup_insert(s.drop_first(), i - 1, e);
        assert(s[0].0 != e.0);
        assert(seq_lookup(s2, e.0 as int) == seq_lookup(s2.drop_first(), e.0 as int));
        assert forall|b: int| b != e.0 as int implies seq_lookup(s2, b) == seq_lookup(s, b) by {
            if s[0].0 == b {
                assert(seq_lookup(s2, b) == s2[0].1 as int);
                assert(seq_lookup(s, b) == s[0].1 as int);
            } else {
                assert(seq_lookup(s2, b) == seq_lookup(s2.drop_first(), b));
                assert(seq_lookup(s, b) == seq_lookup(s.drop_first(), b));
            }
        }
    }
}

/// Put one new entry into a strictly ordered adjacency row, keeping the
/// order. The row must not already mention the neighbor.
pub(crate) fn insert_sorted(row: &mut Vec<(usize, i64)>, nb: usize, sc: i64)
    requires
        forall|x: int, y: int|
            0 <= x < y < old(row).len() ==> (#[trigger] old(row)@[x]).0
                != (#[trigger] old(row)@[y]).0,
        forall|x: int, y: int|
            0 <= x < y < old(row).len() ==> spec_entry_before(old(row)@[x], old(row)@[y]),
        forall|x: int| 0 <= x < old(row).len() ==> (#[trigger] old(row)@[x]).0 != nb,
    ensures
        final(row).len() == old(row).len() + 1,
        forall|x: int, y: int|
            0 <= x < y < final(row).len() ==> (#[trigger] final(row)@[x]).0
                != (#[trigger] final(row)@[y]).0,
        forall|x: int, y: int|
            0 <= x < y < final(row).len() ==> spec_entry_before(final(row)@[x], final(row)@[y]),
        seq_lookup(final(row)@, nb as int) == sc as int,
        forall|b: int| b != nb as int ==> seq_lookup(final(row)@, b) == seq_lookup(old(row)@, b),
        forall|x: int|
            0 <= x < final(row).len() ==> old(row)@.contains(#[trigger] final(row)@[x])
                || final(row)@[x] == (nb, sc),
{
    let e = (nb, sc);
    let mut i: usize = 0;
    while i < row.len() && (row[i].1 > sc || (row[i].1 == sc && row[i].0 < nb))
        invariant
            0 <= i <= row.len(),
            forall|x: int| 0 <= x < i ==> spec_entry_before(#[trigger] row@[x], (nb, sc)),
        decreases row.len() - i,
    {
        i = i + 1;
    }
    proof {
        if i < row.len() {
            assert(!spec_entry_before(row@[i as int], (nb, sc)));
            assert(row@[i as int].0 != nb);
            assert(spec_entry_before((nb, sc), row@[i as int]));
        }
        lemma_lookup_insert(row@, i as int, e);
    }
    let ghost oldrow = row@;
    row.insert(i, e);
    proof {
        assert(row@ == oldrow.insert(i as int, e));
        assert forall|x: int, y: int|
            0 <= x < y < row@.len() implies spec_entry_before(row@[x], row@[y]) && row@[x].0
            != row@[y].0 by {
            let iv = i as int;
            if y < iv {
                assert(row@[x] == oldrow[x] && row@[y] == oldrow[y]);
            } else if x < iv && y == iv {
                assert(row@[x] == oldrow[x] && row@[y] == e);
            } else if x < iv && y > iv {
                assert(row@[x] == oldrow[x] && row@[y] == oldrow[y - 1]);
            } else if x == iv {
                assert(row@[x] == e && row@[y] == oldrow[y - 1]);
                assert(iv <= y - 1 < oldrow.len());
                if y - 1 > iv {
                    assert(spec_entry_before(oldrow[iv], oldrow[y - 1]));
                }
                assert(spec_entry_before(e, oldrow[iv]));
            } else {
                assert(row@[x] == oldrow[x - 1] && row@[y] == oldrow[y - 1]);
            }
        }
        assert forall|x: int|
            0 <= x < row@.len() implies oldrow.contains(#[trigger] row@[x]) || row@[x] == (
            nb,
            sc,
        ) by {
            let iv = i as int;
            if x < iv {
                assert(row@[x] == oldrow[x]);
            } else if x == iv {
            } else {
                assert(row@[x] == oldrow[x - 1]);
            }
        }
    }
}

/// The first position of `p` among the node names, if present.
pub(crate) fn find_node(names: &Vec<String>, p: &String) -> (r: Option<usize>)
    ensures
        match r {
            Some(i) => i < names.len() && names.deep_view()[i as int] == p@,
            None => !names.deep_view().contains(p@),
        },
{
    let mut f: usize = 0;
    while f < names.len()
        invariant
            f <= names.len(),
            forall|k: int| 0 <= k < f ==> names.deep_view()[k] != p@,
        decreases names.len() - f,
    {
        if names[f] == *p {
            return Some(f);
        }
        f = f + 1;
    }
    None
}

/// An unordered pair `{a, b}` has been handled once the outer scoring loop
/// has passed its smaller index, or stands at it with the inner loop past
/// its larger index.
pub open spec fn spec_pair_done(a: int, b: int, lo: int, hi: int) -> bool {
    let mn = if a < b {
        a
    } else {
        b
    };
    let mx = if a < b {
        b
    } else {
        a
    };
    mn < lo || (mn == lo && mx < hi)
}

impl CoAccessGraph {
    /// Build the co-access graph from the full history: slide a window of
    /// `window_size` entries over it, count in how many windows each path
    /// and each pair of paths occurs (repeats inside one window count
    /// once), score every co-occurring pair, and keep the positive edges,
    /// sorted strongest first. A history shorter than the window, or a
    /// window under 2, gives a graph with no edges.
    pub fn build(history: &Vec<String>, window_size: usize) -> (g: CoAccessGraph)
        ensures
            g.matches_history(history.deep_view(), window_size as int),
    {
        let ghost h = history.deep_view();
        let ghost w = window_size as int;
        if history.len() < window_size || window_size < 2 {
            let g = CoAccessGraph { nodes: Vec::new(), adj: Vec::new(), window_size };
            proof {
                assert(g.nodes_view() =~= Seq::<Seq<char>>::empty());
            }
            return g;
        }
        // Intern each history entry to a node index.
        let mut names: Vec<String> = Vec::new();
        let mut ids: Vec<usize> = Vec::new();
        let mut idx: usize = 0;
        proof {
            assert(h.take(0) =~= Seq::<Seq<char>>::empty());
        }
        while idx < history.len()
            invariant
                idx <= history.len(),
                h == history.deep_view(),
                names.deep_view() == spec_intern(h.take(idx as int)),
                ids.len() == idx,
                forall|k: int|
                    0 <= k < idx ==> (#[trigger] ids@[k]) < names.len() && names.deep_view()[ids@[k]
                        as int] == h[k],
                forall|i: int, j: int|
                    0 <= i < j < names.len() ==> names.deep_view()[i] != names.deep_view()[j],
            decreases history.len() - idx,
        {
            let ghost prefix = h.take(idx as int);
            proof {
                assert(h.take(idx + 1).drop_last() =~= prefix);
                assert(h.take(idx + 1).last() == h[idx as int]);
            }
            match find_node(&names, &history[idx]) {
                Some(i) => {
                    proof {
                        assert(names.deep_view().contains(h[idx as int]));
                    }
                    ids.push(i);
                },
                None => {
                    let ghost oldnames = names.deep_view();
                    names.push(history[idx].clone());
                    ids.push(names.len() - 1);
                    proof {
                        assert(names.deep_view() =~= oldnames.push(h[idx as int]));
                        assert forall|i: int, j: int|
                            0 <= i < j < names.len() implies names.deep_view()[i]
                            != names.deep_view()[j] by {
                            if j == names.len() - 1 {
                                if oldnames[i] == h[idx as int] {
                                    assert(oldnames.contains(h[idx as int]));
                                }
                            }
                        }
                    }
                },
            }
            idx = idx + 1;
        }
        proof {
            assert(h.take(history.len() as int) =~= h);
        }
        let ghost nv = names.deep_view();
        let d = names.len();
        let t_windows = history.len() - window_size + 1;
        let ghost t = t_windows as int;

        // Tally, for every node and every pair, the windows that hold it.
        let mut marg: Vec<u64> = Vec::new();
        let mut z: usize = 0;
        while z < d
            invariant
                marg.len() == z <= d,
                forall|x: int| 0 <= x < z ==> marg@[x] == 0,
            decreases d - z,
        {
            marg.push(0);
            z = z + 1;
        }
        let mut joint: Vec<Vec<u64>> = Vec::new();
        let mut zr: usize = 0;
        while zr < d
            invariant
                joint.len() == zr <= d,
                forall|x: int| 0 <= x < zr ==> (#[trigger] joint@[x])@.len() == d,
                forall|x: int, y: int|
                    0 <= x < zr && 0 <= y < d ==> (#[trigger] joint@[x]@[y]) == 0,
            decreases d - zr,
        {
            let mut rowz: Vec<u64> = Vec::new();
            let mut zc: usize = 0;
            while zc < d
                invariant
                    rowz.len() == zc <= d,
                    forall|y: int| 0 <= y < zc ==> rowz@[y] == 0,
                decreases d - zc,
            {
                rowz.push(0);
                zc = zc + 1;
            }
            joint.push(rowz);
            zr = zr + 1;
        }
        proof {
            assert(forall|i: int| 0 <= i < d ==> spec_marginal(h, w, nv[i], 0) == 0);
        }
        let mut s: usize = 0;
        while s < t_windows
            invariant
                s <= t_windows,
                t_windows == h.len() - w + 1,
                2 <= w <= h.len(),
                w == window_size as int,
                h.len() == history.len(),
                h == history.deep_view(),
                d == names.len(),
                nv == names.deep_view(),
                ids.len() == h.len(),
                forall|k: int|
                    0 <= k < ids.len() ==> (#[trigger] ids@[k]) < d && nv[ids@[k] as int] == h[k],
                forall|i: int, j: int| 0 <= i < j < d ==> nv[i] != nv[j],
                marg.len() == d,
                joint.len() == d,
                forall|x: int| 0 <= x < d ==> (#[trigger] joint@[x])@.len() == d,
                forall|i: int|
                    0 <= i < d ==> (#[trigger] marg@[i]) as int == spec_marginal(
                        h,
                        w,
                        nv[i],
                        s as int,
                    ),
                forall|lo: int, hi: int|
                    0 <= lo < d && 0 <= hi < d ==> (#[trigger] joint@[lo]@[hi]) as int == if lo
                        < hi {
                        spec_joint(h, w, nv[lo], nv[hi], s as int)
                    } else {
                        0
                    },
            decreases t_windows - s,
        {
            // Which nodes this window holds.
            let mut inw: Vec<bool> = Vec::new();
            let mut zb: usize = 0;
            while zb < d
                invariant
                    inw.len() == zb <= d,
                    forall|x: int| 0 <= x < zb ==> !(#[trigger] inw@[x]),
                decreases d - zb,
            {
                inw.push(false);
                zb = zb + 1;
            }
            let mut k: usize = s;
            while k < s + window_size
                invariant
                    s <= k <= s + window_size <= h.len(),
                    window_size as int == w,
                    inw.len() == d,
                    ids.len() == h.len(),
                    forall|q: int|
                        0 <= q < ids.len() ==> (#[trigger] ids@[q]) < d,
                    forall|id: int|
                        0 <= id < d ==> ((#[trigger] inw@[id]) <==> exists|i: int|
                            s <= i < k && ids@[i] == id),
                decreases s + window_size - k,
            {
                let id = ids[k];
                inw[id] = true;
                proof {
                    assert forall|id2: int|
                        0 <= id2 < d implies ((#[trigger] inw@[id2]) <==> exists|i: int|
                        s <= i < k + 1 && ids@[i] == id2) by {
                        if id2 == id as int {
                            assert(ids@[k as int] == id2);
                        } else {
                            if exists|i: int| s <= i < k + 1 && ids@[i] == id2 {
                                let i = choose|i: int| s <= i < k + 1 && ids@[i] == id2;
                                assert(i < k);
                            }
                        }
                    }
                }
                k = k + 1;
            }
            proof {
                assert forall|id: int|
                    0 <= id < d implies ((#[trigger] inw@[id]) <==> spec_win_has(
                    h,
                    w,
                    s as int,
                    nv[id],
                )) by {
                    if inw@[id] {
                        let i = choose|i: int| s <= i < s + window_size && ids@[i] == id;
                        assert(h[i] == nv[id]);
                    }
                    if spec_win_has(h, w, s as int, nv[id]) {
                        let i = choose|i: int|
                            s <= i < s as int + w && 0 <= i < h.len() && h[i] == nv[id];
                        assert(nv[ids@[i] as int] == h[i]);
                        if ids@[i] as int != id {
                            assert(nv[ids@[i] as int] != nv[id]);
                        }
                        assert(ids@[i] == id);
                    }
                }
            }
            // Marginal tallies.
            let mut i: usize = 0;
            while i < d
                invariant
                    i <= d,
                    marg.len() == d,
                    inw.len() == d,
                    forall|id: int|
                        0 <= id < d ==> ((#[trigger] inw@[id]) <==> spec_win_has(
                            h,
                            w,
                            s as int,
                            nv[id],
                        )),
                    forall|x: int|
                        0 <= x < i ==> (#[trigger] marg@[x]) as int == spec_marginal(
                            h,
                            w,
                            nv[x],
                            s + 1,
                        ),
                    forall|x: int|
                        i <= x < d ==> (#[trigger] marg@[x]) as int == spec_marginal(
                            h,
                            w,
                            nv[x],
                            s as int,
                        ),
                    s < t_windows,
                    t_windows <= u64::MAX,
                decreases d - i,
            {
                proof {
                    lemma_marginal_bounds(h, w, nv[i as int], s as int);
                }
                if inw[i] {
                    marg[i] = marg[i] + 1;
                }
                i = i + 1;
            }
            // Joint tallies, for each pair of smaller and larger index.
            let mut lo: usize = 0;
            while lo < d
                invariant
                    lo <= d,
                    joint.len() == d,
                    inw.len() == d,
                    forall|x: int| 0 <= x < d ==> (#[trigger] joint@[x])@.len() == d,
                    forall|id: int|
                        0 <= id < d ==> ((#[trigger] inw@[id]) <==> spec_win_has(
                            h,
                            w,
                            s as int,
                            nv[id],
                        )),
                    forall|a: int, b: int|
                        0 <= a < d && 0 <= b < d ==> (#[trigger] joint@[a]@[b]) as int == if a
                            < b {
                            spec_joint(h, w, nv[a], nv[b], if a < lo {
                                s + 1
                            } else {
                                s as int
                            })
                        } else {
                            0
                        },
                    s < t_windows,
                    t_windows <= u64::MAX,
                decreases d - lo,
            {
                let mut hi: usize = lo + 1;
                while hi < d
                    invariant
                        lo < hi <= d || (lo + 1 > d && hi == lo + 1),
                        lo < d,
                        joint.len() == d,
                        inw.len() == d,
                        forall|x: int| 0 <= x < d ==> (#[trigger] joint@[x])@.len() == d,
                        forall|id: int|
                            0 <= id < d ==> ((#[trigger] inw@[id]) <==> spec_win_has(
                                h,
                                w,
                                s as int,
                                nv[id],
                            )),
                        forall|a: int, b: int|
                            0 <= a < d && 0 <= b < d ==> (#[trigger] joint@[a]@[b]) as int == if a
                                < b {
                                spec_joint(h, w, nv[a], nv[b], if a < lo || (a == lo && b < hi) {
                                    s + 1
                                } else {
                                    s as int
                                })
                            } else {
                                0
                            },
                        s < t_windows,
                        t_windows <= u64::MAX,
                    decreases d - hi,
                {
                    proof {
                        lemma_joint_le_marginal(h, w, nv[lo as int], nv[hi as int], s as int);
                        lemma_marginal_bounds(h, w, nv[lo as int], s as int);
                    }
                    if inw[lo] && inw[hi] {
                        joint[lo][hi] = joint[lo][hi] + 1;
                    }
                    hi = hi + 1;
                }
                lo = lo + 1;
            }
            s = s + 1;
        }
        // Score every co-occurring pair and keep the positive edges.
        let mut adj: Vec<Vec<(usize, i64)>> = Vec::new();
        let mut za: usize = 0;
        while za < d
            invariant
                adj.len() == za <= d,
                forall|x: int| 0 <= x < za ==> (#[trigger] adj@[x])@.len() == 0,
            decreases d - za,
        {
            adj.push(Vec::new());
            za = za + 1;
        }
        proof {
            assert forall|a: int, b: int|
                0 <= a < d && 0 <= b < d implies #[trigger] seq_lookup(adj@[a]@, b) == 0 by {
                assert(adj@[a]@.len() == 0);
            }
        }
        let mut lo: usize = 0;
        while lo < d
            invariant
                lo <= d,
                d == names.len(),
                nv == names.deep_view(),
                h == history.deep_view(),
                w == window_size as int,
                2 <= w <= h.len(),
                t == h.len() - w + 1,
                t_windows as int == t,
                forall|i: int, j: int| 0 <= i < j < d ==> nv[i] != nv[j],
                marg.len() == d,
                joint.len() == d,
                forall|x: int| 0 <= x < d ==> (#[trigger] joint@[x])@.len() == d,
                forall|i: int|
                    0 <= i < d ==> (#[trigger] marg@[i]) as int == spec_marginal(h, w, nv[i], t),
                forall|a: int, b: int|
                    0 <= a < d && 0 <= b < d ==> (#[trigger] joint@[a]@[b]) as int == if a < b {
                        spec_joint(h, w, nv[a], nv[b], t)
                    } else {
                        0
                    },
                adj.len() == d,
                forall|k: int, x: int|
                    0 <= k < d && 0 <= x < adj@[k]@.len() ==> {
                        let e = #[trigger] adj@[k]@[x];
                        0 < e.1 <= LOG_SCALE as i64 && (e.0 as int) < d && e.0 as int != k
                    },
                forall|k: int, x: int, y: int|
                    0 <= k < d && 0 <= x < y < adj@[k]@.len() ==> (#[trigger] adj@[k]@[x]).0
                        != (#[trigger] adj@[k]@[y]).0,
                forall|k: int, x: int, y: int|
                    0 <= k < d && 0 <= x < y < adj@[k]@.len() ==> spec_entry_before(
                        #[trigger] adj@[k]@[x],
                        #[trigger] adj@[k]@[y],
                    ),
                forall|a: int, b: int|
                    0 <= a < d && 0 <= b < d ==> #[trigger] seq_lookup(adj@[a]@, b) == if a != b
                        && spec_pair_done(a, b, lo as int, lo as int + 1) {
                        Self::spec_edge_score(h, w, nv[a], nv[b])
                    } else {
                        0
                    },
            decreases d - lo,
        {
            let mut hi: usize = lo + 1;
            while hi < d
                invariant
                    lo < d,
                    lo < hi <= d || hi == lo + 1,
                    d == names.len(),
                    nv == names.deep_view(),
                    h == history.deep_view(),
                    w == window_size as int,
                    2 <= w <= h.len(),
                    t == h.len() - w + 1,
                    t_windows as int == t,
                    forall|i: int, j: int| 0 <= i < j < d ==> nv[i] != nv[j],
                    marg.len() == d,
                    joint.len() == d,
                    forall|x: int| 0 <= x < d ==> (#[trigger] joint@[x])@.len() == d,
                    forall|i: int|
                        0 <= i < d ==> (#[trigger] marg@[i]) as int == spec_marginal(
                            h,
                            w,
                            nv[i],
                            t,
                        ),
                    forall|a: int, b: int|
                        0 <= a < d && 0 <= b < d ==> (#[trigger] joint@[a]@[b]) as int == if a
                            < b {
                            spec_joint(h, w, nv[a], nv[b], t)
                        } else {
                            0
                        },
                    adj.len() == d,
                    forall|k: int, x: int|
                        0 <= k < d && 0 <= x < adj@[k]@.len() ==> {
                            let e = #[trigger] adj@[k]@[x];
                            0 < e.1 <= LOG_SCALE as i64 && (e.0 as int) < d && e.0 as int != k
                        },
                    forall|k: int, x: int, y: int|
                        0 <= k < d && 0 <= x < y < adj@[k]@.len() ==> (#[trigger] adj@[k]@[x]).0
                            != (#[trigger] adj@[k]@[y]).0,
                    forall|k: int, x: int, y: int|
                        0 <= k < d && 0 <= x < y < adj@[k]@.len() ==> spec_entry_before(
                            #[trigger] adj@[k]@[x],
                            #[trigger] adj@[k]@[y],
                        ),
                    forall|a: int, b: int|
                        0 <= a < d && 0 <= b < d ==> #[trigger] seq_lookup(adj@[a]@, b) == if a
                            != b && spec_pair_done(a, b, lo as int, hi as int) {
                            Self::spec_edge_score(h, w, nv[a], nv[b])
                        } else {
                            0
                        },
                decreases d - hi,
            {
                let jv = joint[lo][hi];
                proof {
                    lemma_joint_le_marginal(h, w, nv[lo as int], nv[hi as int], t);
                    lemma_marginal_bounds(h, w, nv[lo as int], t);
                    lemma_marginal_bounds(h, w, nv[hi as int], t);
                }
                let ghost expected = Self::spec_edge_score(h, w, nv[lo as int], nv[hi as int]);
                let mut stored: i64 = 0;
                if jv > 0 {
                    let sc = pair_score(jv, marg[lo], marg[hi], t_windows as u64);
                    if sc > 0 {
                        stored = sc;
                    }
                }
                proof {
                    assert(stored as int == expected);
                }
                if stored > 0 {
                    proof {
                        assert(seq_lookup(adj@[lo as int]@, hi as int) == 0);
                        assert forall|x: int|
                            0 <= x < adj@[lo as int]@.len() implies (#[trigger] adj@[lo as int]@[x]).0
                            != hi by {
                            if adj@[lo as int]@[x].0 == hi {
                                lemma_lookup_of_entry(adj@[lo as int]@, x);
                            }
                        }
                    }
                    let ghost adj0 = adj@;
                    insert_sorted(&mut adj[lo], hi, stored);
                    proof {
                        assert(adj@ == adj0.update(lo as int, adj@[lo as int]));
                        assert(seq_lookup(adj@[hi as int]@, lo as int) == 0);
                        assert forall|x: int|
                            0 <= x < adj@[hi as int]@.len() implies (#[trigger] adj@[hi as int]@[x]).0
                            != lo by {
                            if adj@[hi as int]@[x].0 == lo {
                                lemma_lookup_of_entry(adj@[hi as int]@, x);
                            }
                        }
                    }
                    let ghost adj1 = adj@;
                    insert_sorted(&mut adj[hi], lo, stored);
                    proof {
                        assert(adj@ == adj1.update(hi as int, adj@[hi as int]));
                        lemma_joint_symmetric(h, w, nv[lo as int], nv[hi as int], t);
                        assert(Self::spec_edge_score(h, w, nv[hi as int], nv[lo as int])
                            == expected);
                        assert forall|a: int, b: int|
                            0 <= a < d && 0 <= b < d implies #[trigger] seq_lookup(
                            adj@[a]@,
                            b,
                        ) == if a != b && spec_pair_done(a, b, lo as int, hi as int + 1) {
                            Self::spec_edge_score(h, w, nv[a], nv[b])
                        } else {
                            0
                        } by {
                            if a == lo as int && b == hi as int {
                            } else if a == hi as int && b == lo as int {
                            } else if a == lo as int {
                                assert(seq_lookup(adj@[a]@, b) == seq_lookup(adj0[a]@, b));
                            } else if a == hi as int {
                                assert(seq_lookup(adj@[a]@, b) == seq_lookup(adj1[a]@, b));
                                assert(seq_lookup(adj1[a]@, b) == seq_lookup(adj0[a]@, b));
                            } else {
                                assert(adj@[a] == adj0[a]);
                            }
                        }
                    }
                } else {
                    proof {
                        lemma_joint_symmetric(h, w, nv[lo as int], nv[hi as int], t);
                        assert forall|a: int, b: int|
                            0 <= a < d && 0 <= b < d implies #[trigger] seq_lookup(
                            adj@[a]@,
                            b,
                        ) == if a != b && spec_pair_done(a, b, lo as int, hi as int + 1) {
                            Self::spec_edge_score(h, w, nv[a], nv[b])
                        } else {
                            0
                        } by {
                            if a == lo as int && b == hi as int {
                                assert(Self::spec_edge_score(h, w, nv[a], nv[b]) == 0);
                            } else if a == hi as int && b == lo as int {
                                assert(Self::spec_edge_score(h, w, nv[a], nv[b]) == 0);
                            }
                        }
                    }
                }
                hi = hi + 1;
            }
            proof {
                assert forall|a: int, b: int|
                    0 <= a < d && 0 <= b < d && a != b implies (#[trigger] spec_pair_done(
                    a,
                    b,
                    lo as int + 1,
                    lo as int + 2,
                ) <==> spec_pair_done(a, b, lo as int, d as int)) by {}
            }
            lo = lo + 1;
        }
        let g = CoAccessGraph { nodes: names, adj, window_size };
        proof {
            assert forall|a: int, b: int|
                0 <= a < g.nodes.len() && 0 <= b < g.nodes.len() implies #[trigger] seq_lookup(
                g.adj[a]@,
                b,
            ) == Self::spec_edge_score(h, w, g.nodes_view()[a], g.nodes_view()[b]) by {
                if a == b {
                    assert(Self::spec_edge_score(h, w, nv[a], nv[b]) == 0);
                } else {
                    assert(spec_pair_done(a, b, d as int, d as int + 1));
                }
            }
        }
        g
    }
}

pub proof fn lemma_node_index_spec(nv: Seq<Seq<char>>, p: Seq<char>)
    ensures
        nv.contains(p) ==> {
            let r = CoAccessGraph::spec_node_index(nv, p);
            0 <= r < nv.len() && nv[r] == p
        },
        !nv.contains(p) ==> CoAccessGraph::spec_node_index(nv, p) == -1,
    decreases nv.len(),
{
    if nv.len() > 0 {
        lemma_node_index_spec(nv.drop_first(), p);
        if nv[0] == p {
        } else {
            if nv.contains(p) {
                let i = choose|i: int| 0 <= i < nv.len() && nv[i] == p;
                assert(nv.drop_first()[i - 1] == p);
                assert(nv.drop_first().contains(p));
            }
            if nv.drop_first().contains(p) {
                let r = CoAccessGraph::spec_node_index(nv.drop_first(), p);
                assert(nv[1 + r] == nv.drop_first()[r]);
                assert(nv.contains(nv[1 + r]));
            }
        }
    }
}

impl CoAccessGraph {
    /// The adjacency of `path`: its neighbors with their scores, strongest
    /// first, and empty when the path has no edges or is not in the graph.
    pub fn neighbors_of(&self, path: &String) -> (r: Vec<CoAccessEdge>)
        requires
            self.wf(),
        ensures
            ({
                let ia = Self::spec_node_index(self.nodes_view(), path@);
                if ia >= 0 {
                    r@.len() == self.adj[ia]@.len() && forall|x: int|
                        0 <= x < r@.len() ==> (#[trigger] r@[x]).neighbor@ == self.nodes_view()[self.adj[ia]@[x].0 as int]
                            && r@[x].score == self.adj[ia]@[x].1
                } else {
                    r@.len() == 0
                }
            }),
            forall|x: int, y: int|
                0 <= x < y < r@.len() ==> (#[trigger] r@[x]).score >= (#[trigger] r@[y]).score,
            forall|x: int| 0 <= x < r@.len() ==> 0 < (#[trigger] r@[x]).score <= LOG_SCALE as i64,
    {
        proof {
            lemma_node_index_spec(self.nodes_view(), path@);
        }
        let found = find_node(&self.nodes, path);
        match found {
            None => Vec::new(),
            Some(i) => {
                proof {
                    assert(self.nodes_view()[i as int] == path@);
                    assert(self.nodes_view().contains(path@));
                    let r = Self::spec_node_index(self.nodes_view(), path@);
                    if r != i as int {
                        assert(self.nodes_view()[r] == self.nodes_view()[i as int]);
                    }
                }
                let row = &self.adj[i];
                let mut out: Vec<CoAccessEdge> = Vec::new();
                let mut x: usize = 0;
                while x < row.len()
                    invariant
                        x <= row.len(),
                        row == &self.adj[i as int],
                        i < self.nodes.len(),
                        self.wf(),
                        out@.len() == x,
                        forall|y: int|
                            0 <= y < x ==> (#[trigger] out@[y]).neighbor@ == self.nodes_view()[row@[y].0 as int]
                                && out@[y].score == row@[y].1,
                    decreases row.len() - x,
                {
                    let e = (row[x].0, row[x].1);
                    out.push(CoAccessEdge { neighbor: self.nodes[e.0].clone(), score: e.1 });
                    x = x + 1;
                }
                proof {
                    assert forall|u: int, v: int|
                        0 <= u < v < out@.len() implies (#[trigger] out@[u]).score
                        >= (#[trigger] out@[v]).score by {
                        assert(spec_entry_before(self.adj[i as int]@[u], self.adj[i as int]@[v]));
                    }
                }
                out
            },
        }
    }

    /// The stored score between two paths, `None` when no edge is kept for
    /// the pair.
    pub fn score_for(&self, from: &String, to: &String) -> (r: Option<i64>)
        requires
            self.wf(),
        ensures
            match r {
                Some(s) => self.spec_score_for(from@, to@) == Some(s as int),
                None => self.spec_score_for(from@, to@) is None,
            },
    {
        proof {
            lemma_node_index_spec(self.nodes_view(), from@);
            lemma_node_index_spec(self.nodes_view(), to@);
        }
        let ghost ia = Self::spec_node_index(self.nodes_view(), from@);
        let ghost ib = Self::spec_node_index(self.nodes_view(), to@);
        let found = find_node(&self.nodes, from);
        match found {
            None => None,
            Some(i) => {
                proof {
                    assert(self.nodes_view().contains(from@));
                    if ia != i as int {
                        assert(self.nodes_view()[ia] == self.nodes_view()[i as int]);
                    }
                }
                let row = &self.adj[i];
                let mut x: usize = 0;
                while x < row.len()
                    invariant
                        x <= row.len(),
                        row == &self.adj[i as int],
                        i < self.nodes.len(),
                        self.wf(),
                        ia == i as int,
                        ia == Self::spec_node_index(self.nodes_view(), from@),
                        ib == Self::spec_node_index(self.nodes_view(), to@),
                        forall|y: int| 0 <= y < x ==> self.nodes_view()[(#[trigger] row@[y]).0 as int] != to@,
                    decreases row.len() - x,
                {
                    let nb = row[x].0;
                    if self.nodes[nb] == *to {
                        proof {
                            lemma_node_index_spec(self.nodes_view(), to@);
                            assert(self.nodes_view()[nb as int] == to@);
                            assert(self.nodes_view().contains(to@));
                            if ib != nb as int {
                                assert(self.nodes_view()[ib] == self.nodes_view()[nb as int]);
                            }
                            assert(row@ == self.adj[i as int]@);
                            assert(row@[x as int] == self.adj[i as int]@[x as int]);
                            assert(0 < row@[x as int].1);
                            assert(ib == nb as int);
                            assert(row@[x as int] == self.adj[i as int]@[x as int]);
                            lemma_lookup_of_entry(row@, x as int);
                            assert(seq_lookup(self.adj[ia]@, ib) == row@[x as int].1 as int);
                        }
                        return Some(row[x].1);
                    }
                    x = x + 1;
                }
                proof {
                    lemma_node_index_spec(self.nodes_view(), to@);
                    if ib >= 0 {
                        assert(self.nodes_view()[ib] == to@);
                        assert forall|y: int|
                            0 <= y < row@.len() implies (#[trigger] row@[y]).0 != ib by {
                            if row@[y].0 == ib {
                                assert(self.nodes_view()[row@[y].0 as int] == to@);
                            }
                        }
                        assert(!spec_has_nb(row@, ib));
                        lemma_lookup_absent(row@, ib);
                    }
                }
                None
            },
        }
    }
}

/// A graph with no edges comes of a degenerate request: a history shorter
/// than the window, or a window under 2, yields no nodes and no scores.
pub proof fn lemma_degenerate_empty(g: CoAccessGraph, h: Seq<Seq<char>>, w: int)
    requires
        g.matches_history(h, w),
        h.len() < w || w < 2,
    ensures
        g.nodes.len() == 0,
        g.adj.len() == 0,
        forall|p: Seq<char>, q: Seq<char>| g.spec_score_for(p, q) is None,
{
    assert(g.nodes_view().len() == 0);
}

/// The nodes of a non-degenerate graph are exactly the distinct paths of
/// its history, each exactly once.
pub proof fn lemma_nodes_are_history_paths(g: CoAccessGraph, h: Seq<Seq<char>>, w: int)
    requires
        g.matches_history(h, w),
        2 <= w <= h.len(),
    ensures
        forall|p: Seq<char>| g.nodes_view().contains(p) <==> h.contains(p),
        forall|i: int, j: int|
            0 <= i < j < g.nodes_view().len() ==> g.nodes_view()[i] != g.nodes_view()[j],
{
    assert forall|p: Seq<char>| g.nodes_view().contains(p) <==> h.contains(p) by {
        lemma_intern_contains(h, p);
    }
    lemma_intern_distinct(h);
}

/// Edge symmetry: the graph stores the same score for a pair of paths in
/// either direction.
pub proof fn lemma_edge_symmetry(
    g: CoAccessGraph,
    h: Seq<Seq<char>>,
    w: int,
    a: Seq<char>,
    b: Seq<char>,
)
    requires
        g.matches_history(h, w),
    ensures
        g.spec_score_for(a, b) == g.spec_score_for(b, a),
{
    let nv = g.nodes_view();
    lemma_node_index_spec(nv, a);
    lemma_node_index_spec(nv, b);
    let ia = CoAccessGraph::spec_node_index(nv, a);
    let ib = CoAccessGraph::spec_node_index(nv, b);
    if ia >= 0 && ib >= 0 {
        let t = h.len() - w + 1;
        lemma_joint_symmetric(h, w, nv[ia], nv[ib], t);
        assert(seq_lookup(g.adj[ia]@, ib) == CoAccessGraph::spec_edge_score(h, w, nv[ia], nv[ib]));
        assert(seq_lookup(g.adj[ib]@, ia) == CoAccessGraph::spec_edge_score(h, w, nv[ib], nv[ia]));
        assert(CoAccessGraph::spec_edge_score(h, w, nv[ia], nv[ib])
            == CoAccessGraph::spec_edge_score(h, w, nv[ib], nv[ia]));
    }
}

/// Score bound: every score the graph hands out is strictly positive and at
/// most `LOG_SCALE`.
pub proof fn lemma_score_positive(g: CoAccessGraph, p: Seq<char>, q: Seq<char>)
    requires
        g.wf(),
    ensures
        g.spec_score_for(p, q) matches Some(s) ==> 0 < s <= LOG_SCALE as int,
{
    let nv = g.nodes_view();
    lemma_node_index_spec(nv, p);
    lemma_node_index_spec(nv, q);
    let ia = CoAccessGraph::spec_node_index(nv, p);
    let ib = CoAccessGraph::spec_node_index(nv, q);
    if ia >= 0 && ib >= 0 && seq_lookup(g.adj[ia]@, ib) != 0 {
        lemma_lookup_membership(g.adj[ia]@, ib);
    }
}

proof fn lemma_sorted_rows_equal(s1: Seq<(usize, i64)>, s2: Seq<(usize, i64)>)
    requires
        forall|x: int, y: int| 0 <= x < y < s1.len() ==> (#[trigger] s1[x]).0 != (#[trigger] s1[y]).0,
        forall|x: int, y: int| 0 <= x < y < s2.len() ==> (#[trigger] s2[x]).0 != (#[trigger] s2[y]).0,
        forall|x: int, y: int|
            0 <= x < y < s1.len() ==> spec_entry_before(#[trigger] s1[x], #[trigger] s1[y]),
        forall|x: int, y: int|
            0 <= x < y < s2.len() ==> spec_entry_before(#[trigger] s2[x], #[trigger] s2[y]),
        forall|x: int| 0 <= x < s1.len() ==> (#[trigger] s1[x]).1 != 0,
        forall|x: int| 0 <= x < s2.len() ==> (#[trigger] s2[x]).1 != 0,
        forall|b: int| #[trigger] seq_lookup(s1, b) == seq_lookup(s2, b),
    ensures
        s1 == s2,
    decreases s1.len(),
{
    if s1.len() == 0 {
        if s2.len() > 0 {
            lemma_lookup_of_entry(s2, 0);
            assert(seq_lookup(s1, s2[0].0 as int) == 0);
            assert(false);
        }
        assert(s1 =~= s2);
    } else if s2.len() == 0 {
        lemma_lookup_of_entry(s1, 0);
        assert(seq_lookup(s2, s1[0].0 as int) == 0);
        assert(false);
    } else {
        let e1 = s1[0];
        let e2 = s2[0];
        lemma_lookup_of_entry(s1, 0);
        lemma_lookup_of_entry(s2, 0);
        lemma_lookup_membership(s2, e1.0 as int);
        let x = choose|x: int|
            0 <= x < s2.len() && s2[x].0 == e1.0 && s2[x].1 as int == seq_lookup(s2, e1.0 as int);
        lemma_lookup_membership(s1, e2.0 as int);
        let y = choose|y: int|
            0 <= y < s1.len() && s1[y].0 == e2.0 && s1[y].1 as int == seq_lookup(s1, e2.0 as int);
        assert(s2[x] == e1);
        assert(s1[y] == e2);
        if x > 0 && y > 0 {
            assert(spec_entry_before(e2, s2[x]));
            assert(spec_entry_before(e1, s1[y]));
            assert(false);
        }
        assert(e1 == e2);
        let t1 = s1.drop_first();
        let t2 = s2.drop_first();
        assert(forall|x: int| 0 <= x < t1.len() ==> t1[x] == s1[x + 1]);
        assert(forall|x: int| 0 <= x < t2.len() ==> t2[x] == s2[x + 1]);
        assert forall|b: int| #[trigger] seq_lookup(t1, b) == seq_lookup(t2, b) by {
            if b == e1.0 as int {
                assert forall|u: int| 0 <= u < t1.len() implies (#[trigger] t1[u]).0 != e1.0 by {
                    assert(t1[u] == s1[u + 1]);
                }
                assert forall|u: int| 0 <= u < t2.len() implies (#[trigger] t2[u]).0 != e1.0 by {
                    assert(t2[u] == s2[u + 1]);
                }
                assert(!spec_has_nb(t1, b));
                assert(!spec_has_nb(t2, b));
                lemma_lookup_absent(t1, b);
                lemma_lookup_absent(t2, b);
            } else {
                assert(seq_lookup(s1, b) == seq_lookup(t1, b));
                assert(seq_lookup(s2, b) == seq_lookup(t2, b));
            }
        }
        lemma_sorted_rows_equal(t1, t2);
        assert forall|i: int| 0 <= i < s1.len() implies s1[i] == s2[i] by {
            if i > 0 {
                assert(s1[i] == t1[i - 1]);
                assert(s2[i] == t2[i - 1]);
            }
        }
        assert(s1 =~= s2);
    }
}

/// Determinism: one history and window size admit one graph. Any two
/// graphs that match the same history agree on their nodes, their window
/// size, and every adjacency row, entry for entry.
pub proof fn lemma_build_deterministic(
    g1: CoAccessGraph,
    g2: CoAccessGraph,
    h: Seq<Seq<char>>,
    w: int,
)
    requires
        g1.matches_history(h, w),
        g2.matches_history(h, w),
    ensures
        g1.window_size == g2.window_size,
        g1.nodes_view() == g2.nodes_view(),
        g1.adj.len() == g2.adj.len(),
        forall|k: int| 0 <= k < g1.adj.len() ==> g1.adj[k]@ == g2.adj[k]@,
{
    let d = g1.nodes.len() as int;
    assert forall|k: int| 0 <= k < g1.adj.len() implies g1.adj[k]@ == g2.adj[k]@ by {
        let s1 = g1.adj[k]@;
        let s2 = g2.adj[k]@;
        assert forall|b: int| #[trigger] seq_lookup(s1, b) == seq_lookup(s2, b) by {
            if 0 <= b < d {
                assert(seq_lookup(s1, b) == CoAccessGraph::spec_edge_score(
                    h,
                    w,
                    g1.nodes_view()[k],
                    g1.nodes_view()[b],
                ));
                assert(seq_lookup(s2, b) == CoAccessGraph::spec_edge_score(
                    h,
                    w,
                    g2.nodes_view()[k],
                    g2.nodes_view()[b],
                ));
            } else {
                assert forall|u: int| 0 <= u < s1.len() implies (#[trigger] s1[u]).0 != b by {}
                assert forall|u: int| 0 <= u < s2.len() implies (#[trigger] s2[u]).0 != b by {}
                assert(!spec_has_nb(s1, b));
                assert(!spec_has_nb(s2, b));
                lemma_lookup_absent(s1, b);
                lemma_lookup_absent(s2, b);
            }
        }
        lemma_sorted_rows_equal(s1, s2);
    }
}

} // verus!
