use vstd::prelude::*;

use vstd::multiset::Multiset;

verus! {

/// The sort key of one character: its code point, with ASCII capitals
/// folded to their lower-case forms.
pub open spec fn spec_fold_val(c: char) -> int {
    if 65 <= c as int <= 90 {
        c as int + 32
    } else {
        c as int
    }
}

/// Case-folded lexicographic order on paths: the order directory listings
/// are presented in. Children of one directory share its prefix, so this
/// orders them by their names.
pub open spec fn spec_le_folded(a: Seq<char>, b: Seq<char>) -> bool
    decreases a.len(),
{
    if a.len() == 0 {
        true
    } else if b.len() == 0 {
        false
    } else {
        let x = spec_fold_val(a[0]);
        let y = spec_fold_val(b[0]);
        x < y || (x == y && spec_le_folded(a.drop_first(), b.drop_first()))
    }
}

pub proof fn lemma_le_folded_total(a: Seq<char>, b: Seq<char>)
    ensures
        spec_le_folded(a, b) || spec_le_folded(b, a),
    decreases a.len(),
{
    if a.len() > 0 && b.len() > 0 {
        lemma_le_folded_total(a.drop_first(), b.drop_first());
    }
}

pub proof fn lemma_le_folded_trans(a: Seq<char>, b: Seq<char>, c: Seq<char>)
    requires
        spec_le_folded(a, b),
        spec_le_folded(b, c),
    ensures
        spec_le_folded(a, c),
    decreases a.len(),
{
    if a.len() > 0 && b.len() > 0 && c.len() > 0 {
        if spec_fold_val(a[0]) == spec_fold_val(b[0]) && spec_fold_val(b[0]) == spec_fold_val(
            c[0],
        ) {
            lemma_le_folded_trans(a.drop_first(), b.drop_first(), c.drop_first());
        }
    }
}

fn fold_val(c: char) -> (r: u32)
    ensures
        r as int == spec_fold_val(c),
{
    let v = c as u32;
    if 65 <= v && v <= 90 {
        v + 32
    } else {
        v
    }
}

/// Decides `spec_le_folded`.
fn le_folded(a: &str, b: &str) -> (r: bool)
    ensures
        r == spec_le_folded(a@, b@),
{
    let alen = a.unicode_len();
    let blen = b.unicode_len();
    let mut i: usize = 0;
    proof {
        assert(a@.skip(0) =~= a@);
        assert(b@.skip(0) =~= b@);
    }
    while i < alen && i < blen
        invariant
            i <= alen,
            i <= blen,
            alen == a@.len(),
            blen == b@.len(),
            spec_le_folded(a@, b@) == spec_le_folded(a@.skip(i as int), b@.skip(i as int)),
        decreases alen - i,
    {
        let x = fold_val(a.get_char(i));
        let y = fold_val(b.get_char(i));
        proof {
            assert(a@.skip(i as int)[0] == a@[i as int]);
            assert(b@.skip(i as int)[0] == b@[i as int]);
            assert(a@.skip(i as int).drop_first() =~= a@.skip(i + 1));
            assert(b@.skip(i as int).drop_first() =~= b@.skip(i + 1));
        }
        if x < y {
            return true;
        }
        if x > y {
            return false;
        }
        i = i + 1;
    }
    proof {
        if i >= alen {
            assert(a@.skip(i as int) =~= Seq::<char>::empty());
        } else {
            assert(b@.skip(i as int) =~= Seq::<char>::empty());
            assert(a@.skip(i as int).len() > 0);
        }
    }
    i >= alen
}

/// Sort paths into case-folded lexicographic order. The result is a
/// rearrangement of the input: the same multiset of paths, in order.
pub fn sort_paths_folded(paths: Vec<String>) -> (r: Vec<String>)
    ensures
        r.deep_view().to_multiset() == paths.deep_view().to_multiset(),
        r@.len() == paths@.len(),
        forall|x: int, y: int|
            0 <= x < y < r@.len() ==> spec_le_folded(r.deep_view()[x], r.deep_view()[y]),
{
    broadcast use vstd::seq_lib::group_to_multiset_ensures;

    let mut rest = paths;
    let mut out: Vec<String> = Vec::new();
    proof {
        assert(out.deep_view().to_multiset().add(rest.deep_view().to_multiset())
            =~= paths.deep_view().to_multiset());
    }
    while rest.len() > 0
        invariant
            out.deep_view().to_multiset().add(rest.deep_view().to_multiset())
                == paths.deep_view().to_multiset(),
            out@.len() + rest@.len() == paths@.len(),
            forall|x: int, y: int|
                0 <= x < y < out@.len() ==> spec_le_folded(out.deep_view()[x], out.deep_view()[y]),
            forall|x: int, y: int|
                0 <= x < out@.len() && 0 <= y < rest@.len() ==> spec_le_folded(
                    out.deep_view()[x],
                    rest.deep_view()[y],
                ),
        decreases rest@.len(),
    {
        let mut mi: usize = 0;
        let mut x: usize = 1;
        proof {
            lemma_le_folded_total(rest.deep_view()[0], rest.deep_view()[0]);
        }
        while x < rest.len()
            invariant
                mi < x <= rest@.len() || (x == 1 && mi == 0),
                x <= rest@.len(),
                mi < rest@.len(),
                rest@.len() > 0,
                forall|y: int|
                    0 <= y < x ==> spec_le_folded(
                        rest.deep_view()[mi as int],
                        #[trigger] rest.deep_view()[y],
                    ),
            decreases rest@.len() - x,
        {
            proof {
                lemma_le_folded_total(rest.deep_view()[mi as int], rest.deep_view()[x as int]);
                lemma_le_folded_total(rest.deep_view()[x as int], rest.deep_view()[x as int]);
            }
            let keeps_min = le_folded(rest[mi].as_str(), rest[x].as_str());
            if !keeps_min {
                proof {
                    assert forall|y: int|
                        0 <= y < x + 1 implies spec_le_folded(
                        rest.deep_view()[x as int],
                        #[trigger] rest.deep_view()[y],
                    ) by {
                        if y < x {
                            lemma_le_folded_trans(
                                rest.deep_view()[x as int],
                                rest.deep_view()[mi as int],
                                rest.deep_view()[y],
                            );
                        }
                    }
                }
                mi = x;
            }
            x = x + 1;
        }
        let ghost oldout = out.deep_view();
        let ghost oldrest = rest.deep_view();
        let m = rest.remove(mi);
        out.push(m);
        proof {
            oldout.to_multiset_ensures();
            oldrest.to_multiset_ensures();
            assert(out.deep_view() =~= oldout.push(m@));
            assert(rest.deep_view() =~= oldrest.remove(mi as int));
            assert(oldrest.remove(mi as int).to_multiset() =~= oldrest.to_multiset().remove(
                oldrest[mi as int],
            ));
            assert(out.deep_view().to_multiset() =~= oldout.to_multiset().insert(m@));
            assert(m@ == oldrest[mi as int]);
            assert(oldrest.to_multiset().contains(m@));
            assert(out.deep_view().to_multiset().add(rest.deep_view().to_multiset())
                =~= oldout.to_multiset().add(oldrest.to_multiset()));
            assert forall|y: int|
                0 <= y < rest.deep_view().len() implies spec_le_folded(
                m@,
                #[trigger] rest.deep_view()[y],
            ) by {
                if y < mi {
                    assert(rest.deep_view()[y] == oldrest[y]);
                } else {
                    assert(rest.deep_view()[y] == oldrest[y + 1]);
                }
            }
        }
    }
    proof {
        assert(rest.deep_view().to_multiset() =~= Multiset::<Seq<char>>::empty());
        assert(out.deep_view().to_multiset() =~= out.deep_view().to_multiset().add(
            rest.deep_view().to_multiset(),
        ));
    }
    out
}

/// A breadth-first walk of the directory tree below a root, to a bounded
/// depth. The walk itself decides which directory is read next and in what
/// order children are kept; the caller only reads directories for it and
/// hands back what it found.
pub struct DirWalk {
    pub queue: Vec<(String, usize)>,
    pub result: Vec<String>,
    pub max_depth: usize,
}

impl DirWalk {
    /// A walk about to read `root`, which sits at depth zero.
    pub fn new(root: String, max_depth: usize) -> (w: DirWalk)
        ensures
            w.queue@.len() == 1,
            w.queue@[0].0 == root,
            w.queue@[0].1 == 0,
            w.result@.len() == 0,
            w.max_depth == max_depth,
    {
        let mut queue: Vec<(String, usize)> = Vec::new();
        queue.push((root, 0));
        DirWalk { queue, result: Vec::new(), max_depth }
    }

    /// The next directory to read, with its depth: the first queued entry
    /// that is still shallow enough to expand. Entries at the depth bound
    /// are discarded. `None` once the queue is exhausted.
    pub fn next_dir(&mut self) -> (r: Option<(String, usize)>)
        ensures
            match r {
                Some(item) => {
                    &&& item.1 < old(self).max_depth
                    &&& exists|i: int|
                        0 <= i < old(self).queue@.len() && old(self).queue@[i] == item && (forall|
                            k: int,
                        |
                            0 <= k < i ==> (#[trigger] old(self).queue@[k]).1
                                >= old(self).max_depth) && final(self).queue@ == old(
                            self,
                        ).queue@.skip(i + 1)
                },
                None => {
                    &&& final(self).queue@.len() == 0
                    &&& forall|k: int|
                        0 <= k < old(self).queue@.len() ==> (#[trigger] old(self).queue@[k]).1
                            >= old(self).max_depth
                },
            },
            final(self).result == old(self).result,
            final(self).max_depth == old(self).max_depth,
    {
        let ghost q0 = self.queue@;
        let mut n: usize = 0;
        while n < self.queue.len()
            invariant
                n <= self.queue@.len(),
                self.queue@ == q0,
                self.result == old(self).result,
                self.max_depth == old(self).max_depth,
                q0 == old(self).queue@,
                forall|k: int| 0 <= k < n ==> (#[trigger] q0[k]).1 >= self.max_depth,
            decreases self.queue@.len() - n,
        {
            if self.queue[n].1 < self.max_depth {
                let item = (self.queue[n].0.clone(), self.queue[n].1);
                let ghost keep = n as int;
                let mut newq: Vec<(String, usize)> = Vec::new();
                let mut j: usize = n + 1;
                while j < self.queue.len()
                    invariant
                        n < j <= self.queue@.len() || j == n + 1,
                        self.queue@ == q0,
                        keep == n as int,
                        n < q0.len(),
                        newq@.len() == j - n - 1,
                        forall|k: int| 0 <= k < newq@.len() ==> newq@[k] == q0[n + 1 + k],
                    decreases self.queue@.len() - j,
                {
                    newq.push((self.queue[j].0.clone(), self.queue[j].1));
                    j = j + 1;
                }
                proof {
                    assert(newq@ =~= q0.skip(n + 1));
                    assert(q0[n as int].0@ == item.0@);
                }
                self.queue = newq;
                proof {
                    assert(old(self).queue@[keep].0@ == item.0@);
                    assert(old(self).queue@[keep].1 == item.1);
                    assert(old(self).queue@[keep] =~= item) by {
                        assert(q0[keep].0@ == item.0@);
                    }
                }
                return Some(item);
            }
            n = n + 1;
        }
        self.queue = Vec::new();
        None
    }

    /// Take in what a directory read found: the child directories, as full
    /// paths. They are sorted into case-folded order, appended to the
    /// result, and queued one level deeper.
    pub fn deliver(&mut self, depth: usize, children: Vec<String>)
        requires
            depth < old(self).max_depth,
            old(self).result@.len() + children@.len() <= usize::MAX,
            old(self).queue@.len() + children@.len() <= usize::MAX,
        ensures
            final(self).max_depth == old(self).max_depth,
            final(self).result@.len() == old(self).result@.len() + children@.len(),
            forall|i: int|
                0 <= i < old(self).result@.len() ==> final(self).result@[i] == old(
                    self,
                ).result@[i],
            final(self).result.deep_view().skip(old(self).result@.len() as int).to_multiset()
                == children.deep_view().to_multiset(),
            forall|x: int, y: int|
                old(self).result@.len() <= x < y < final(self).result@.len()
                    ==> spec_le_folded(
                    final(self).result.deep_view()[x],
                    final(self).result.deep_view()[y],
                ),
            final(self).queue@.len() == old(self).queue@.len() + children@.len(),
            forall|i: int|
                0 <= i < old(self).queue@.len() ==> final(self).queue@[i] == old(self).queue@[i],
            forall|i: int|
                0 <= i < children@.len() ==> (#[trigger] final(self).queue@[old(
                    self,
                ).queue@.len() + i]).0 == final(self).result@[old(self).result@.len() + i]
                    && final(self).queue@[old(self).queue@.len() + i].1 == depth + 1,
    {
        let sorted = sort_paths_folded(children);
        let ghost r0 = self.result.deep_view();
        let mut k: usize = 0;
        while k < sorted.len()
            invariant
                k <= sorted@.len(),
                self.max_depth == old(self).max_depth,
                depth + 1 <= self.max_depth,
                self.result@.len() == old(self).result@.len() + k,
                self.queue@.len() == old(self).queue@.len() + k,
                r0 == old(self).result.deep_view(),
                forall|i: int|
                    0 <= i < old(self).result@.len() ==> self.result@[i] == old(self).result@[i],
                forall|i: int|
                    0 <= i < old(self).queue@.len() ==> self.queue@[i] == old(self).queue@[i],
                forall|i: int|
                    0 <= i < k ==> self.result.deep_view()[r0.len() + i]
                        == sorted.deep_view()[i],
                forall|i: int|
                    0 <= i < k ==> (#[trigger] self.queue@[old(self).queue@.len() + i]).0
                        == self.result@[old(self).result@.len() + i] && self.queue@[old(
                        self,
                    ).queue@.len() + i].1 == depth + 1,
                sorted.deep_view().to_multiset() == children.deep_view().to_multiset(),
                sorted@.len() == children@.len(),
                forall|x: int, y: int|
                    0 <= x < y < sorted@.len() ==> spec_le_folded(
                        sorted.deep_view()[x],
                        sorted.deep_view()[y],
                    ),
            decreases sorted@.len() - k,
        {
            let p = sorted[k].clone();
            self.queue.push((p.clone(), depth + 1));
            self.result.push(p);
            k = k + 1;
        }
        proof {
            assert(self.result.deep_view().skip(r0.len() as int) =~= sorted.deep_view());
            assert forall|x: int, y: int|
                r0.len() <= x < y < self.result@.len() implies spec_le_folded(
                self.result.deep_view()[x],
                self.result.deep_view()[y],
            ) by {
                let i = x - r0.len();
                let j = y - r0.len();
                assert(self.result.deep_view()[r0.len() as int + i] == sorted.deep_view()[i]);
                assert(self.result.deep_view()[r0.len() as int + j] == sorted.deep_view()[j]);
                assert(spec_le_folded(sorted.deep_view()[i], sorted.deep_view()[j]));
            }
        }
    }
}

} // verus!
