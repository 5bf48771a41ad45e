use vstd::prelude::*;

use crate::coaccess::{find_node, insert_sorted, seq_lookup, spec_entry_before, spec_intern};
use crate::coaccess::lemma_lookup_of_entry;

verus! {

/// An ASCII whitespace character, as trimmed from history lines.
pub open spec fn spec_is_space(c: char) -> bool {
    c == ' ' || c == '\t' || c == '\r' || c == '\n' || c == '\u{b}' || c == '\u{c}'
}

/// `s` without its leading whitespace.
pub open spec fn spec_trim_front(s: Seq<char>) -> Seq<char>
    decreases s.len(),
{
    if s.len() > 0 && spec_is_space(s[0]) {
        spec_trim_front(s.drop_first())
    } else {
        s
    }
}

/// `s` without its trailing whitespace.
pub open spec fn spec_trim_back(s: Seq<char>) -> Seq<char>
    decreases s.len(),
{
    if s.len() > 0 && spec_is_space(s.last()) {
        spec_trim_back(s.drop_last())
    } else {
        s
    }
}

/// `s` without leading and trailing whitespace.
pub open spec fn spec_trim(s: Seq<char>) -> Seq<char> {
    spec_trim_back(spec_trim_front(s))
}

/// The position of the first newline of `t`, or -1 when there is none.
pub open spec fn spec_first_nl(t: Seq<char>) -> int
    decreases t.len(),
{
    if t.len() == 0 {
        -1
    } else if t[0] == '\n' {
        0
    } else {
        let r = spec_first_nl(t.drop_first());
        if r < 0 {
            -1
        } else {
            1 + r
        }
    }
}

/// The history entries a file text holds: one entry per line, trimmed,
/// blank lines dropped.
pub open spec fn spec_parse_history(t: Seq<char>) -> Seq<Seq<char>>
    decreases t.len(),
{
    if t.len() == 0 {
        Seq::<Seq<char>>::empty()
    } else {
        let nl = spec_first_nl(t);
        if nl < 0 || nl >= t.len() {
            let line = spec_trim(t);
            if line.len() > 0 {
                seq![line]
            } else {
                Seq::<Seq<char>>::empty()
            }
        } else {
            let line = spec_trim(t.take(nl));
            let rest = spec_parse_history(t.skip(nl + 1));
            if line.len() > 0 {
                seq![line] + rest
            } else {
                rest
            }
        }
    }
}

proof fn lemma_first_nl_at(t: Seq<char>, m: int)
    requires
        0 <= m <= t.len(),
        forall|k: int| 0 <= k < m ==> t[k] != '\n',
        m == t.len() || t[m] == '\n',
    ensures
        spec_first_nl(t) == if m == t.len() {
            -1
        } else {
            m
        },
    decreases t.len(),
{
    if t.len() > 0 && t[0] != '\n' {
        assert(forall|k: int| 0 <= k < t.drop_first().len() ==> t.drop_first()[k] == t[k + 1]);
        lemma_first_nl_at(t.drop_first(), m - 1);
    }
}

/// Decides `spec_is_space`.
fn is_space(c: char) -> (b: bool)
    ensures
        b == spec_is_space(c),
{
    c == ' ' || c == '\t' || c == '\r' || c == '\n' || c == '\u{b}' || c == '\u{c}'
}

/// `s` without surrounding whitespace, as `spec_trim` gives it.
pub fn trim_str(s: &str) -> (r: &str)
    ensures
        r@ == spec_trim(s@),
{
    let len = s.unicode_len();
    let mut a: usize = 0;
    proof {
        assert(s@.skip(0) =~= s@);
    }
    while a < len && is_space(s.get_char(a))
        invariant
            0 <= a <= len,
            len == s@.len(),
            spec_trim_front(s@) == spec_trim_front(s@.skip(a as int)),
        decreases len - a,
    {
        proof {
            assert(s@.skip(a as int).drop_first() =~= s@.skip(a + 1));
            assert(s@.skip(a as int)[0] == s@[a as int]);
        }
        a = a + 1;
    }
    proof {
        if a < len {
            assert(s@.skip(a as int)[0] == s@[a as int]);
        }
        assert(spec_trim_front(s@) == s@.skip(a as int));
    }
    let ghost u = s@.skip(a as int);
    let mut b: usize = len;
    proof {
        assert(u.take(len - a) =~= u);
    }
    while b > a && is_space(s.get_char(b - 1))
        invariant
            a <= b <= len,
            len == s@.len(),
            u == s@.skip(a as int),
            spec_trim_back(u) == spec_trim_back(u.take(b - a)),
        decreases b,
    {
        proof {
            assert(u.take(b - a).drop_last() =~= u.take(b - 1 - a));
            assert(u.take(b - a).last() == s@[b - 1]);
        }
        b = b - 1;
    }
    proof {
        if b > a {
            assert(u.take(b - a).last() == s@[b - 1]);
        }
        assert(spec_trim_back(u.take(b - a)) == u.take(b - a));
    }
    let r = s.substring_char(a, b);
    proof {
        assert(r@ =~= u.take(b - a));
    }
    r
}

/// The entries of a history file text: one path per line, line ends and
/// surrounding whitespace removed, blank lines ignored, order kept.
pub fn parse_history(text: &str) -> (r: Vec<String>)
    ensures
        r.deep_view() == spec_parse_history(text@),
{
    let len = text.unicode_len();
    let mut out: Vec<String> = Vec::new();
    let mut pos: usize = 0;
    proof {
        assert(text@.skip(0) =~= text@);
    }
    while pos < len
        invariant
            0 <= pos <= len,
            len == text@.len(),
            out.deep_view() + spec_parse_history(text@.skip(pos as int)) == spec_parse_history(
                text@,
            ),
        decreases len - pos,
    {
        let ghost rest = text@.skip(pos as int);
        let mut e: usize = pos;
        while e < len && text.get_char(e) != '\n'
            invariant
                pos <= e <= len,
                len == text@.len(),
                forall|k: int| pos <= k < e ==> text@[k] != '\n',
            decreases len - e,
        {
            e = e + 1;
        }
        proof {
            assert(forall|k: int| 0 <= k < rest.len() ==> rest[k] == text@[pos + k]);
            lemma_first_nl_at(rest, e - pos);
        }
        let line = trim_str(text.substring_char(pos, e));
        proof {
            assert(text@.subrange(pos as int, e as int) =~= rest.take(e - pos));
            if e < len {
                assert(spec_first_nl(rest) == e - pos);
            } else {
                assert(spec_first_nl(rest) < 0);
                assert(rest.take(e - pos) =~= rest);
            }
        }
        let ghost oldout = out.deep_view();
        if line.unicode_len() > 0 {
            out.push(line.to_owned());
            proof {
                assert(out.deep_view() =~= oldout.push(line@));
            }
        }
        proof {
            if e < len {
                assert(rest.skip(e - pos + 1) =~= text@.skip(e + 1));
                if line@.len() > 0 {
                    assert(spec_parse_history(rest) =~= seq![line@] + spec_parse_history(
                        text@.skip(e + 1),
                    ));
                    assert(oldout.push(line@) + spec_parse_history(text@.skip(e + 1))
                        =~= oldout + spec_parse_history(rest));
                } else {
                    assert(spec_parse_history(rest) == spec_parse_history(text@.skip(e + 1)));
                }
            } else {
                if line@.len() > 0 {
                    assert(spec_parse_history(rest) =~= seq![line@]);
                    assert(oldout.push(line@) =~= oldout + spec_parse_history(rest));
                } else {
                    assert(spec_parse_history(rest) =~= Seq::<Seq<char>>::empty());
                }
                assert(text@.skip(len as int) =~= Seq::<char>::empty());
            }
            assert(oldout + spec_parse_history(rest) == out.deep_view() + spec_parse_history(
                text@.skip(if e < len {
                    e + 1
                } else {
                    len as int
                }),
            ));
        }
        pos = if e < len {
            e + 1
        } else {
            len
        };
    }
    proof {
        assert(text@.skip(len as int) =~= Seq::<char>::empty());
        assert(spec_parse_history(text@.skip(pos as int)) =~= Seq::<Seq<char>>::empty());
        assert(out.deep_view() =~= out.deep_view() + Seq::<Seq<char>>::empty());
    }
    out
}

/// The line appended to the history file for one committed path.
pub fn history_line(path: &String) -> (r: String)
    ensures
        r@ == path@ + seq!['\n'],
{
    let mut r = path.clone();
    r.append("\n");
    proof {
        reveal_strlit("\n");
        assert("\n"@ =~= seq!['\n']);
    }
    r
}

/// Keep the last `depth` entries of a chronological history, oldest first.
pub fn tail(history: &Vec<String>, depth: usize) -> (r: Vec<String>)
    ensures
        r@.len() == if depth <= history@.len() {
            depth as int
        } else {
            history@.len() as int
        },
        forall|i: int|
            0 <= i < r@.len() ==> r@[i] == history@[history@.len() - r@.len() + i],
{
    let start: usize = if depth <= history.len() {
        history.len() - depth
    } else {
        0
    };
    let mut out: Vec<String> = Vec::new();
    let mut i: usize = start;
    while i < history.len()
        invariant
            start <= i <= history@.len(),
            start == if depth <= history@.len() {
                history@.len() - depth
            } else {
                0
            },
            out@.len() == i - start,
            forall|k: int| 0 <= k < out@.len() ==> out@[k] == history@[start + k],
        decreases history@.len() - i,
    {
        out.push(history[i].clone());
        i = i + 1;
    }
    out
}

/// The visited paths, most recent first, each kept once at its most recent
/// visit: the distinct paths of the reversed history in first-appearance
/// order.
pub fn recent_unique(history: &Vec<String>) -> (r: Vec<String>)
    ensures
        r.deep_view() == spec_intern(history.deep_view().reverse()),
{
    let ghost h = history.deep_view();
    let mut out: Vec<String> = Vec::new();
    let mut i: usize = history.len();
    proof {
        assert(h.skip(history.len() as int).reverse() =~= Seq::<Seq<char>>::empty());
    }
    while i > 0
        invariant
            0 <= i <= history.len(),
            h == history.deep_view(),
            out.deep_view() == spec_intern(h.skip(i as int).reverse()),
        decreases i,
    {
        let ghost done = h.skip(i as int).reverse();
        proof {
            assert(h.skip(i - 1).reverse().drop_last() =~= done);
            assert(h.skip(i - 1).reverse().last() == h[i - 1]);
            assert(h.skip(i - 1).reverse().len() > 0);
        }
        match find_node(&out, &history[i - 1]) {
            Some(_) => {
                proof {
                    assert(out.deep_view().contains(h[i - 1]));
                }
            },
            None => {
                let ghost oldout = out.deep_view();
                out.push(history[i - 1].clone());
                proof {
                    assert(out.deep_view() =~= oldout.push(h[i - 1]));
                }
            },
        }
        i = i - 1;
    }
    proof {
        assert(h.skip(0) =~= h);
    }
    out
}

/// How many history entries equal `p`.
pub open spec fn spec_occ(h: Seq<Seq<char>>, p: Seq<char>, n: int) -> int
    decreases n,
{
    if n <= 0 {
        0
    } else {
        spec_occ(h, p, n - 1) + if h[n - 1] == p {
            1int
        } else {
            0int
        }
    }
}

pub proof fn lemma_occ_bounds(h: Seq<Seq<char>>, p: Seq<char>, n: int)
    ensures
        0 <= spec_occ(h, p, n) <= if n >= 0 {
            n
        } else {
            0
        },
    decreases n,
{
    if n > 0 {
        lemma_occ_bounds(h, p, n - 1);
    }
}

/// The visited paths ordered by how often they were visited, most frequent
/// first; each path appears once. Ties stand in first-visit order, so the
/// result is a function of the history alone.
pub fn frequent(history: &Vec<String>) -> (r: Vec<String>)
    requires
        history@.len() < 0x8000_0000_0000_0000,
    ensures
        r.deep_view().len() == spec_intern(history.deep_view()).len(),
        forall|x: int|
            0 <= x < r.deep_view().len() ==> spec_intern(history.deep_view()).contains(
                #[trigger] r.deep_view()[x],
            ),
        forall|x: int, y: int|
            0 <= x < y < r.deep_view().len() ==> r.deep_view()[x] != r.deep_view()[y],
        forall|x: int, y: int|
            0 <= x < y < r.deep_view().len() ==> spec_occ(
                history.deep_view(),
                r.deep_view()[x],
                history.deep_view().len() as int,
            ) >= spec_occ(history.deep_view(), r.deep_view()[y], history.deep_view().len() as int),
{
    let ghost h = history.deep_view();
    // Distinct paths in first-appearance order.
    let mut names: Vec<String> = Vec::new();
    let mut idx: usize = 0;
    proof {
        assert(h.take(0) =~= Seq::<Seq<char>>::empty());
    }
    while idx < history.len()
        invariant
            idx <= history.len(),
            h == history.deep_view(),
            names.deep_view() == spec_intern(h.take(idx as int)),
            forall|i: int, j: int|
                0 <= i < j < names.len() ==> names.deep_view()[i] != names.deep_view()[j],
        decreases history.len() - idx,
    {
        proof {
            assert(h.take(idx + 1).drop_last() =~= h.take(idx as int));
            assert(h.take(idx + 1).last() == h[idx as int]);
        }
        match find_node(&names, &history[idx]) {
            Some(_) => {
                proof {
                    assert(names.deep_view().contains(h[idx as int]));
                }
            },
            None => {
                let ghost oldnames = names.deep_view();
                names.push(history[idx].clone());
                proof {
                    assert(names.deep_view() =~= oldnames.push(h[idx as int]));
                    assert forall|i: int, j: int|
                        0 <= i < j < names.len() implies names.deep_view()[i]
                        != names.deep_view()[j] by {
                        if j == names.len() - 1 {
                            if oldnames[i] == h[idx as int] {
                                assert(oldnames.contains(h[idx as int]));
                            }
                        }
                    }
                }
            },
        }
        idx = idx + 1;
    }
    proof {
        assert(h.take(history.len() as int) =~= h);
    }
    let ghost nv = names.deep_view();
    let d = names.len();
    // Count the occurrences of each distinct path.
    let mut entries: Vec<(usize, i64)> = Vec::new();
    let mut i: usize = 0;
    while i < d
        invariant
            i <= d,
            d == names.len(),
            nv == names.deep_view(),
            h == history.deep_view(),
            h.len() == history.len() < 0x8000_0000_0000_0000,
            nv == spec_intern(h),
            forall|a: int, b: int| 0 <= a < b < d ==> nv[a] != nv[b],
            entries@.len() == i,
            forall|x: int, y: int|
                0 <= x < y < entries@.len() ==> (#[trigger] entries@[x]).0
                    != (#[trigger] entries@[y]).0,
            forall|x: int, y: int|
                0 <= x < y < entries@.len() ==> spec_entry_before(entries@[x], entries@[y]),
            forall|b: int|
                #[trigger] seq_lookup(entries@, b) == if 0 <= b < i {
                    spec_occ(h, nv[b], h.len() as int)
                } else {
                    0
                },
            forall|x: int|
                0 <= x < entries@.len() ==> (#[trigger] entries@[x]).0 < i,
        decreases d - i,
    {
        let mut c: u64 = 0;
        let mut k: usize = 0;
        while k < history.len()
            invariant
                k <= history.len(),
                h == history.deep_view(),
                h.len() == history.len() < 0x8000_0000_0000_0000,
                i < d,
                d == names.len(),
                nv == names.deep_view(),
                c as int == spec_occ(h, nv[i as int], k as int),
            decreases history.len() - k,
        {
            proof {
                lemma_occ_bounds(h, nv[i as int], k as int);
            }
            if history[k] == names[i] {
                c = c + 1;
            }
            k = k + 1;
        }
        proof {
            lemma_occ_bounds(h, nv[i as int], h.len() as int);
            assert(seq_lookup(entries@, i as int) == 0);
            assert forall|x: int|
                0 <= x < entries@.len() implies (#[trigger] entries@[x]).0 != i by {}
        }
        insert_sorted(&mut entries, i, c as i64);
        proof {
            assert forall|b: int|
                #[trigger] seq_lookup(entries@, b) == if 0 <= b < i + 1 {
                    spec_occ(h, nv[b], h.len() as int)
                } else {
                    0
                } by {}
            assert forall|x: int|
                0 <= x < entries@.len() implies (#[trigger] entries@[x]).0 < i + 1 by {
                if entries@[x].0 != i {
                    lemma_lookup_of_entry(entries@, x);
                }
            }
        }
        i = i + 1;
    }
    // Read the names off in score order.
    let mut out: Vec<String> = Vec::new();
    let mut x: usize = 0;
    proof {
        assert forall|u: int|
            0 <= u < d implies (#[trigger] entries@[u]).1 as int == spec_occ(
            h,
            nv[entries@[u].0 as int],
            h.len() as int,
        ) by {
            lemma_lookup_of_entry(entries@, u);
            assert(seq_lookup(entries@, entries@[u].0 as int) == entries@[u].1 as int);
        }
    }
    while x < d
        invariant
            x <= d,
            d == names.len(),
            nv == names.deep_view(),
            h == history.deep_view(),
            nv == spec_intern(h),
            entries@.len() == d,
            forall|u: int, v: int|
                0 <= u < v < d ==> (#[trigger] entries@[u]).0 != (#[trigger] entries@[v]).0,
            forall|u: int, v: int|
                0 <= u < v < d ==> spec_entry_before(entries@[u], entries@[v]),
            forall|u: int| 0 <= u < d ==> (#[trigger] entries@[u]).0 < d,
            forall|u: int|
                0 <= u < d ==> (#[trigger] entries@[u]).1 as int == spec_occ(
                    h,
                    nv[entries@[u].0 as int],
                    h.len() as int,
                ),
            forall|a: int, b: int| 0 <= a < b < d ==> nv[a] != nv[b],
            out.deep_view().len() == x,
            forall|u: int|
                0 <= u < x ==> (#[trigger] out.deep_view()[u]) == nv[entries@[u].0 as int],
        decreases d - x,
    {
        let e0 = entries[x].0;
        let ghost oldout = out.deep_view();
        out.push(names[e0].clone());
        proof {
            assert(out.deep_view() =~= oldout.push(nv[e0 as int]));
        }
        x = x + 1;
    }
    proof {
        assert forall|u: int|
            0 <= u < d implies spec_intern(h).contains(#[trigger] out.deep_view()[u]) by {
            assert(out.deep_view()[u] == nv[entries@[u].0 as int]);
        }
        assert forall|u: int, v: int|
            0 <= u < v < d implies out.deep_view()[u] != out.deep_view()[v] by {
            assert(entries@[u].0 != entries@[v].0);
        }
        assert forall|u: int, v: int|
            0 <= u < v < d implies spec_occ(h, out.deep_view()[u], h.len() as int) >= spec_occ(
            h,
            out.deep_view()[v],
            h.len() as int,
        ) by {
            assert(spec_entry_before(entries@[u], entries@[v]));
        }
    }
    out
}

} // verus!
