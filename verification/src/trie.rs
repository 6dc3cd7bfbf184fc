use vstd::prelude::*;
use vstd::multiset::Multiset;
use crate::domain::{
    ascii_chars, ascii_string, bytes_eq, bytes_le, copy_label, label_ok, Domain, DOT,
};

verus! {

/// ASCII newline, the separator between listing lines.
pub const NL: u8 = 10;

/// A reverse-label trie of blocked names. A node marked `valid` covers
/// the name ending there and every name below it; a marked node keeps
/// no children, they are subsumed.
pub struct Trie {
    children: Vec<(Vec<u8>, Trie)>,
    valid: bool,
}

/// The walk-order name a deeper label extends a prefix to.
pub open spec fn extend_name(pre: Seq<u8>, label: Seq<u8>) -> Seq<u8> {
    if pre.len() == 0 {
        label
    } else {
        pre + seq![DOT] + label
    }
}

/// All bytes of a listing line are plain ASCII.
pub open spec fn ascii_line(l: Seq<u8>) -> bool {
    forall|b: int| 0 <= b < l.len() ==> (#[trigger] l[b]) < 128
}

/// Listing lines joined with newlines.
pub open spec fn join_nl(ls: Seq<Seq<u8>>) -> Seq<u8>
    decreases ls.len(),
{
    if ls.len() == 0 {
        Seq::<u8>::empty()
    } else {
        join_nl(ls.drop_last()) + (if ls.len() > 1 {
            seq![NL]
        } else {
            Seq::<u8>::empty()
        }) + ls.last()
    }
}

proof fn lemma_join_nl_ascii(ls: Seq<Seq<u8>>)
    requires
        forall|i: int| 0 <= i < ls.len() ==> ascii_line(#[trigger] ls[i]),
    ensures
        ascii_line(join_nl(ls)),
    decreases ls.len(),
{
    if ls.len() > 0 {
        lemma_join_nl_ascii(ls.drop_last());
        assert(ascii_line(ls.last()));
        assert forall|b: int| 0 <= b < join_nl(ls).len() implies (#[trigger] join_nl(ls)[b])
            < 128 by {
            let pre = join_nl(ls.drop_last());
            if b >= join_nl(ls).len() - ls.last().len() {
                assert(join_nl(ls)[b] == ls.last()[b - (join_nl(ls).len() - ls.last().len())]);
            } else if b < pre.len() {
                assert(join_nl(ls)[b] == pre[b]);
            }
        }
    }
}

proof fn lemma_lines_ascii(t: Trie, pre: Seq<u8>, n: int)
    requires
        t.wf(),
        ascii_line(pre),
    ensures
        forall|i: int| 0 <= i < t.lines_upto(pre, n).len() ==> ascii_line(
            #[trigger] t.lines_upto(pre, n)[i],
        ),
    decreases t, n,
{
    if n <= 0 || n > t.children@.len() {
    } else {
        lemma_lines_ascii(t, pre, n - 1);
        let label = t.children@[n - 1].0@;
        let child = t.children@[n - 1].1;
        assert(label_ok(label));
        assert forall|b: int| 0 <= b < extend_name(pre, label).len() implies (
        #[trigger] extend_name(pre, label)[b]) < 128 by {
            if pre.len() > 0 {
                if b >= pre.len() + 1 {
                    assert(extend_name(pre, label)[b] == label[b - pre.len() - 1]);
                } else if b < pre.len() {
                    assert(extend_name(pre, label)[b] == pre[b]);
                }
            }
        }
        lemma_lines_ascii(child, extend_name(pre, label), child.children@.len() as int);
        assert forall|i: int| 0 <= i < t.lines_upto(pre, n).len() implies ascii_line(
            #[trigger] t.lines_upto(pre, n)[i],
        ) by {
            let left = t.lines_upto(pre, n - 1);
            if i < left.len() {
                assert(t.lines_upto(pre, n)[i] == left[i]);
            } else {
                assert(t.lines_upto(pre, n)[i] == child.lines_upto(
                    extend_name(pre, label),
                    child.children@.len() as int,
                )[i - left.len()]);
            }
        }
    }
}

proof fn lemma_adjacent_pairwise(s: Seq<Seq<u8>>, a: int, b: int)
    requires
        forall|k: int| 0 <= k < s.len() - 1 ==> bytes_le(#[trigger] s[k], s[k + 1]),
        0 <= a <= b < s.len(),
    ensures
        bytes_le(s[a], s[b]),
    decreases b - a,
{
    if a < b {
        lemma_adjacent_pairwise(s, a, b - 1);
        crate::domain::lemma_bytes_le_trans(s[a], s[b - 1], s[b]);
    } else {
        crate::domain::lemma_bytes_le_total(s[a], s[a]);
    }
}

/// Order listing lines ascending; nothing is added or lost.
fn sort_lines(lines: Vec<Vec<u8>>) -> (r: Vec<Vec<u8>>)
    ensures
        r@.map_values(|l: Vec<u8>| l@).to_multiset() == lines@.map_values(
            |l: Vec<u8>| l@,
        ).to_multiset(),
        forall|a: int, b: int| 0 <= a < b < r@.len() ==> bytes_le(
            (#[trigger] r@[a])@,
            (#[trigger] r@[b])@,
        ),
{
    broadcast use vstd::seq_lib::group_to_multiset_ensures;
    broadcast use vstd::multiset::group_multiset_axioms;

    let ghost input = lines@.map_values(|l: Vec<u8>| l@);
    let mut work = lines;
    let mut sorted: Vec<Vec<u8>> = Vec::new();
    proof {
        sorted@.map_values(|l: Vec<u8>| l@).to_multiset_ensures();
        vstd::multiset::lemma_multiset_empty_len(
            sorted@.map_values(|l: Vec<u8>| l@).to_multiset(),
        );
        assert(sorted@.map_values(|l: Vec<u8>| l@).to_multiset().add(
            work@.map_values(|l: Vec<u8>| l@).to_multiset(),
        ) =~= input.to_multiset());
    }
    while work.len() > 0
        invariant
            forall|k: int| 0 <= k < sorted@.len() - 1 ==> bytes_le(
                (#[trigger] sorted@[k])@,
                sorted@[k + 1]@,
            ),
            sorted@.map_values(|l: Vec<u8>| l@).to_multiset().add(
                work@.map_values(|l: Vec<u8>| l@).to_multiset(),
            ) =~= input.to_multiset(),
            sorted@.len() > 0 ==> forall|k: int| 0 <= k < work@.len() ==> bytes_le(
                sorted@.last()@,
                (#[trigger] work@[k])@,
            ),
        decreases work@.len(),
    {
        broadcast use vstd::seq_lib::group_to_multiset_ensures;
        broadcast use vstd::multiset::group_multiset_axioms;

        let mut m: usize = 0;
        let mut j: usize = 1;
        proof {
            crate::domain::lemma_bytes_le_total(work@[0]@, work@[0]@);
        }
        while j < work.len()
            invariant
                m < j <= work@.len(),
                forall|k: int| 0 <= k < j ==> bytes_le(work@[m as int]@, (#[trigger] work@[k])@),
            decreases work@.len() - j,
        {
            if crate::domain::bytes_le_exec(&work[j], &work[m]) {
                proof {
                    assert forall|k: int| 0 <= k < j + 1 implies bytes_le(
                        work@[j as int]@,
                        (#[trigger] work@[k])@,
                    ) by {
                        if k < j {
                            crate::domain::lemma_bytes_le_trans(
                                work@[j as int]@,
                                work@[m as int]@,
                                work@[k]@,
                            );
                        } else {
                            crate::domain::lemma_bytes_le_total(work@[j as int]@, work@[j as int]@);
                        }
                    }
                }
                m = j;
            } else {
                proof {
                    crate::domain::lemma_bytes_le_total(work@[j as int]@, work@[m as int]@);
                }
            }
            j += 1;
        }
        let ghost pre_work = work@;
        let ghost w0 = work@.map_values(|l: Vec<u8>| l@);
        let ghost s0 = sorted@.map_values(|l: Vec<u8>| l@);
        let picked = work.remove(m);
        proof {
            w0.to_multiset_ensures();
            assert(work@.map_values(|l: Vec<u8>| l@) =~= w0.remove(m as int));
            assert(w0.remove(m as int).to_multiset() =~= w0.to_multiset().remove(picked@));
            assert(w0[m as int] == picked@);
            assert(w0.contains(picked@));
            assert(w0.to_multiset().count(picked@) > 0);
        }
        let ghost pre_sorted = sorted@;
        sorted.push(picked);
        proof {
            s0.to_multiset_ensures();
            assert(sorted@.map_values(|l: Vec<u8>| l@) =~= s0.push(picked@));
            assert(s0.push(picked@).to_multiset() =~= s0.to_multiset().insert(picked@));
            assert(sorted@.map_values(|l: Vec<u8>| l@).to_multiset().add(
                work@.map_values(|l: Vec<u8>| l@).to_multiset(),
            ) =~= input.to_multiset());
            assert forall|k: int| 0 <= k < work@.len() implies bytes_le(
                sorted@.last()@,
                (#[trigger] work@[k])@,
            ) by {
                if k < m {
                    assert(work@[k] == pre_work[k]);
                } else {
                    assert(work@[k] == pre_work[k + 1]);
                }
            }
            assert forall|k: int| 0 <= k < sorted@.len() - 1 implies bytes_le(
                (#[trigger] sorted@[k])@,
                sorted@[k + 1]@,
            ) by {
                if k < sorted@.len() - 2 {
                    assert(sorted@[k] == pre_sorted[k] && sorted@[k + 1] == pre_sorted[k + 1]);
                } else if pre_sorted.len() > 0 {
                    assert(sorted@[k] == pre_sorted.last());
                    assert(bytes_le(pre_sorted.last()@, pre_work[m as int]@));
                }
            }
        }
    }
    proof {
        broadcast use vstd::seq_lib::group_to_multiset_ensures;
        broadcast use vstd::multiset::group_multiset_axioms;

        work@.map_values(|l: Vec<u8>| l@).to_multiset_ensures();
        vstd::multiset::lemma_multiset_empty_len(
            work@.map_values(|l: Vec<u8>| l@).to_multiset(),
        );
        assert(sorted@.map_values(|l: Vec<u8>| l@).to_multiset() =~= input.to_multiset());
        assert forall|a: int, b: int| 0 <= a < b < sorted@.len() implies bytes_le(
            (#[trigger] sorted@[a])@,
            (#[trigger] sorted@[b])@,
        ) by {
            lemma_adjacent_pairwise(sorted@.map_values(|l: Vec<u8>| l@), a, b);
        }
    }
    sorted
}

/// The count and the listing agree: the trie holds as many names as
/// its listing has lines, one line per marked node.
pub proof fn lemma_count_is_line_count(t: Trie, pre: Seq<u8>)
    ensures
        t.count_spec() == t.dump_lines(pre).len(),
{
    t.lemma_counts_lines(pre, t.children@.len() as int);
}

/// The walk-order name a path below a prefix is listed under.
pub open spec fn path_name(pre: Seq<u8>, path: Seq<Seq<u8>>) -> Seq<u8>
    decreases path.len(),
{
    if path.len() == 0 {
        pre
    } else {
        path_name(extend_name(pre, path[0]), path.skip(1))
    }
}

proof fn lemma_lines_member(t: Trie, pre: Seq<u8>, n: int)
    requires
        t.wf(),
        0 <= n <= t.children@.len(),
    ensures
        forall|l: Seq<u8>| t.lines_upto(pre, n).contains(l) <==> ((t.valid && l == pre)
            || exists|i: int, path: Seq<Seq<u8>>|
            0 <= i < n && #[trigger] t.children@[i].1.marked(path) && l == path_name(
                extend_name(pre, t.children@[i].0@),
                path,
            )),
    decreases t, n,
{
    broadcast use vstd::seq_lib::group_seq_properties;

    if n == 0 {
        assert forall|l: Seq<u8>| t.lines_upto(pre, 0).contains(l) implies ((t.valid && l == pre)
            || exists|i: int, path: Seq<Seq<u8>>|
            0 <= i < 0 && #[trigger] t.children@[i].1.marked(path) && l == path_name(
                extend_name(pre, t.children@[i].0@),
                path,
            )) by {
            assert(t.valid && t.lines_upto(pre, 0)[0] == pre);
        }
    } else {
        lemma_lines_member(t, pre, n - 1);
        let child = t.children@[n - 1].1;
        let label = t.children@[n - 1].0@;
        let cpre = extend_name(pre, label);
        lemma_marked_lines_rec(child, cpre);
        let left = t.lines_upto(pre, n - 1);
        let right = child.lines_upto(cpre, child.children@.len() as int);
        assert(right == child.dump_lines(cpre));
        assert(t.lines_upto(pre, n) == left + right);
        assert forall|l: Seq<u8>| t.lines_upto(pre, n).contains(l) implies ((t.valid && l == pre)
            || exists|i: int, path: Seq<Seq<u8>>|
            0 <= i < n && #[trigger] t.children@[i].1.marked(path) && l == path_name(
                extend_name(pre, t.children@[i].0@),
                path,
            )) by {
            if left.contains(l) {
            } else {
                assert(right.contains(l));
                let path = choose|path: Seq<Seq<u8>>| child.marked(path) && l == path_name(
                    cpre,
                    path,
                );
                assert(0 <= n - 1 < n && t.children@[n - 1].1.marked(path) && l == path_name(
                    extend_name(pre, t.children@[n - 1].0@),
                    path,
                ));
            }
        }
        assert forall|l: Seq<u8>| ((t.valid && l == pre) || exists|i: int, path: Seq<Seq<u8>>|
            0 <= i < n && #[trigger] t.children@[i].1.marked(path) && l == path_name(
                extend_name(pre, t.children@[i].0@),
                path,
            )) implies t.lines_upto(pre, n).contains(l) by {
            if t.valid && l == pre {
                assert(left.contains(l));
            } else {
                let (i, path) = choose|i: int, path: Seq<Seq<u8>>|
                    0 <= i < n && #[trigger] t.children@[i].1.marked(path) && l == path_name(
                        extend_name(pre, t.children@[i].0@),
                        path,
                    );
                if i < n - 1 {
                    assert(left.contains(l));
                } else {
                    assert(child.marked(path) && l == path_name(cpre, path));
                    assert(right.contains(l));
                }
            }
        }
    }
}

/// What the listing means: a name is listed below a prefix exactly
/// when some marked path spells it.
pub proof fn lemma_marked_lines(t: Trie, pre: Seq<u8>)
    requires
        t.wf(),
    ensures
        forall|l: Seq<u8>| t.dump_lines(pre).contains(l) <==> exists|path: Seq<Seq<u8>>|
            (#[trigger] t.marked(path)) && l == path_name(pre, path),
{
    lemma_marked_lines_rec(t, pre);
}

proof fn lemma_marked_lines_rec(t: Trie, pre: Seq<u8>)
    requires
        t.wf(),
    ensures
        forall|l: Seq<u8>| t.dump_lines(pre).contains(l) <==> exists|path: Seq<Seq<u8>>|
            (#[trigger] t.marked(path)) && l == path_name(pre, path),
    decreases t, t.children@.len() + 1,
{
    lemma_lines_member(t, pre, t.children@.len() as int);
    assert forall|l: Seq<u8>| t.dump_lines(pre).contains(l) implies exists|path: Seq<Seq<u8>>|
        (#[trigger] t.marked(path)) && l == path_name(pre, path) by {
        if t.valid && l == pre {
            let path = Seq::<Seq<u8>>::empty();
            assert(t.marked(path) && l == path_name(pre, path));
        } else {
            let (i, sub) = choose|i: int, sub: Seq<Seq<u8>>|
                0 <= i < t.children@.len() && #[trigger] t.children@[i].1.marked(sub) && l
                    == path_name(extend_name(pre, t.children@[i].0@), sub);
            let path = seq![t.children@[i].0@] + sub;
            assert(path[0] == t.children@[i].0@);
            assert(path.skip(1) =~= sub);
            assert(t.marked(path));
            assert(path_name(pre, path) == path_name(extend_name(pre, path[0]), sub));
            assert(l == path_name(pre, path));
        }
    }
    assert forall|l: Seq<u8>| (exists|path: Seq<Seq<u8>>|
        (#[trigger] t.marked(path)) && l == path_name(pre, path)) implies t.dump_lines(
        pre,
    ).contains(l) by {
        let path = choose|path: Seq<Seq<u8>>| t.marked(path) && l == path_name(pre, path);
        if path.len() == 0 {
            assert(t.valid && l == pre);
        } else {
            let i = choose|i: int|
                0 <= i < t.children@.len() && (#[trigger] t.children@[i].0@) == path[0]
                    && t.children@[i].1.marked(path.skip(1));
            assert(path_name(pre, path) == path_name(
                extend_name(pre, t.children@[i].0@),
                path.skip(1),
            ));
            assert(t.children@[i].1.marked(path.skip(1)) && l == path_name(
                extend_name(pre, t.children@[i].0@),
                path.skip(1),
            ));
        }
    }
}

/// The stored names form an antichain: no marked name lies strictly
/// below another, the deeper one being subsumed at its push.
pub proof fn lemma_marked_antichain(t: Trie, p: Seq<Seq<u8>>, q: Seq<Seq<u8>>)
    requires
        t.wf(),
        t.marked(p),
        t.marked(q),
        prefix_of(p, q),
    ensures
        p == q,
    decreases t,
{
    if p.len() == 0 {
        assert(t.valid);
        assert(t.children@.len() == 0);
        if q.len() > 0 {
            let i = choose|i: int|
                0 <= i < t.children@.len() && (#[trigger] t.children@[i].0@) == q[0]
                    && t.children@[i].1.marked(q.skip(1));
            assert(false);
        }
        assert(p =~= q);
    } else {
        assert(q.len() >= p.len());
        assert(p[0] == q.take(p.len() as int)[0]);
        assert(q.take(p.len() as int)[0] == q[0]);
        let i = choose|i: int|
            0 <= i < t.children@.len() && (#[trigger] t.children@[i].0@) == p[0]
                && t.children@[i].1.marked(p.skip(1));
        let j = choose|j: int|
            0 <= j < t.children@.len() && (#[trigger] t.children@[j].0@) == q[0]
                && t.children@[j].1.marked(q.skip(1));
        assert(i == j) by {
            if i < j {
                assert((#[trigger] t.children@[i].0@) != (#[trigger] t.children@[j].0@));
            } else if j < i {
                assert((#[trigger] t.children@[j].0@) != (#[trigger] t.children@[i].0@));
            }
        }
        assert(prefix_of(p.skip(1), q.skip(1))) by {
            assert forall|k: int| 0 <= k < p.skip(1).len() implies q.skip(1).take(
                p.skip(1).len() as int,
            )[k] == p.skip(1)[k] by {
                assert(p.skip(1)[k] == p[k + 1]);
                assert(p[k + 1] == q.take(p.len() as int)[k + 1]);
                assert(q.take(p.len() as int)[k + 1] == q[k + 1]);
                assert(q[k + 1] == q.skip(1)[k]);
            }
            assert(p.skip(1) =~= q.skip(1).take(p.skip(1).len() as int));
        }
        lemma_marked_antichain(t.children@[i].1, p.skip(1), q.skip(1));
        assert(p =~= q) by {
            assert(p.skip(1) == q.skip(1));
            assert forall|k: int| 0 <= k < q.len() implies p[k] == q[k] by {
                if k > 0 {
                    assert(p[k] == p.skip(1)[k - 1]);
                    assert(q[k] == q.skip(1)[k - 1]);
                }
            }
        }
    }
}

/// `p` is a prefix of `q`.
pub open spec fn prefix_of(p: Seq<Seq<u8>>, q: Seq<Seq<u8>>) -> bool {
    p.len() <= q.len() && p == q.take(p.len() as int)
}

impl Trie {
    /// True iff some prefix of `labels` ends at a node marked valid.
    pub closed spec fn covers(self, labels: Seq<Seq<u8>>) -> bool
        decreases self,
    {
        self.valid || (labels.len() > 0 && exists|i: int|
            0 <= i < self.children@.len()
            && #[trigger] self.children@[i].0@ == labels[0]
            && self.children@[i].1.covers(labels.skip(1)))
    }

    /// Child labels distinct and of valid syntax, children well formed,
    /// and a marked node keeps no children.
    pub closed spec fn wf(self) -> bool
        decreases self,
    {
        &&& (self.valid ==> self.children@.len() == 0)
        &&& forall|i: int, j: int| 0 <= i < j < self.children@.len()
            ==> (#[trigger] self.children@[i].0@) != (#[trigger] self.children@[j].0@)
        &&& forall|i: int| 0 <= i < self.children@.len()
            ==> label_ok((#[trigger] self.children@[i]).0@)
        &&& forall|i: int| 0 <= i < self.children@.len()
            ==> (#[trigger] self.children@[i]).1.wf()
    }

    /// An empty trie: covers nothing, holds nothing, lists nothing.
    pub fn new() -> (t: Trie)
        ensures
            t.wf(),
            forall|ls: Seq<Seq<u8>>| !t.covers(ls),
            t.count_spec() == 0,
            forall|pre: Seq<u8>| #[trigger] t.dump_lines(pre) == Seq::<Seq<u8>>::empty(),
    {
        let t = Trie { children: Vec::new(), valid: false };
        proof {
            assert forall|ls: Seq<Seq<u8>>| !t.covers(ls) by {
                assert(t.children@.len() == 0);
            }
            assert forall|pre: Seq<u8>| #[trigger] t.dump_lines(pre) == Seq::<Seq<u8>>::empty()
                by {
                assert(t.lines_upto(pre, 0) =~= Seq::<Seq<u8>>::empty());
            }
        }
        t
    }

    fn find_child(&self, label: &Vec<u8>) -> (r: Option<usize>)
        ensures
            match r {
                Some(i) => i < self.children@.len() && self.children@[i as int].0@ == label@,
                None => forall|i: int| 0 <= i < self.children@.len()
                    ==> (#[trigger] self.children@[i]).0@ != label@,
            },
    {
        let mut j: usize = 0;
        while j < self.children.len()
            invariant
                j <= self.children@.len(),
                forall|i: int| 0 <= i < j ==> (#[trigger] self.children@[i]).0@ != label@,
            decreases self.children@.len() - j,
        {
            if bytes_eq(&self.children[j].0, label) {
                return Some(j);
            }
            j += 1;
        }
        None
    }

    fn contains_rec(&self, d: &Domain, idx: usize) -> (r: bool)
        requires
            self.wf(),
            idx <= d@.len(),
        ensures
            r == self.covers(d@.skip(idx as int)),
        decreases self,
    {
        if self.valid {
            return true;
        }
        if idx == d.len() {
            return false;
        }
        match self.find_child(d.label_at(idx)) {
            None => {
                proof {
                    assert(d@.skip(idx as int)[0] == d@[idx as int]);
                }
                false
            },
            Some(j) => {
                let r = self.children[j].1.contains_rec(d, idx + 1);
                proof {
                    assert(d@.skip(idx as int)[0] == d@[idx as int]);
                    assert(d@.skip(idx as int).skip(1) =~= d@.skip(idx as int + 1));
                    if r {
                        assert(self.covers(d@.skip(idx as int)));
                    } else {
                        assert forall|i: int|
                            0 <= i < self.children@.len() && #[trigger] self.children@[i].0@
                                == d@.skip(idx as int)[0] implies !self.children@[i].1.covers(
                            d@.skip(idx as int).skip(1),
                        ) by {
                            assert(self.children@[i].0@ == self.children@[j as int].0@);
                            if i < j {
                                assert((#[trigger] self.children@[i].0@) != (
                                #[trigger] self.children@[j as int].0@));
                            } else if j < i {
                                assert((#[trigger] self.children@[j as int].0@) != (
                                #[trigger] self.children@[i].0@));
                            }
                            assert(i == j);
                        }
                    }
                }
                r
            },
        }
    }

    /// True iff the trie covers this name or one of its ancestors.
    pub fn contains(&self, d: &Domain) -> (r: bool)
        requires
            self.wf(),
        ensures
            r == self.covers(d@),
    {
        let r = self.contains_rec(d, 0);
        proof {
            assert(d@.skip(0) =~= d@);
        }
        r
    }

    #[verifier::rlimit(50)]
    fn push_rec(&mut self, d: &Domain, idx: usize)
        requires
            old(self).wf(),
            d.wf(),
            idx <= d@.len(),
        ensures
            final(self).wf(),
            forall|q: Seq<Seq<u8>>| final(self).covers(q) == (old(self).covers(q) || prefix_of(
                d@.skip(idx as int),
                q,
            )),
            old(self).covers(d@.skip(idx as int)) ==> final(self).count_spec() == old(
                self,
            ).count_spec(),
        decreases d@.len() - idx,
    {
        if self.valid {
            proof {
                assert forall|q: Seq<Seq<u8>>| self.covers(q) == (self.covers(q) || prefix_of(
                    d@.skip(idx as int),
                    q,
                )) by {
                    assert(self.covers(q));
                }
            }
            return ;
        }
        if idx == d.len() {
            self.valid = true;
            self.children = Vec::new();
            proof {
                assert(d@.skip(idx as int) =~= Seq::<Seq<u8>>::empty());
                assert(!old(self).covers(d@.skip(idx as int)));
                assert forall|q: Seq<Seq<u8>>| final(self).covers(q) == (old(self).covers(q)
                    || prefix_of(d@.skip(idx as int), q)) by {
                    assert(final(self).covers(q));
                    assert(Seq::<Seq<u8>>::empty() =~= q.take(0));
                }
            }
            return ;
        }
        let j: usize = match self.find_child(d.label_at(idx)) {
            Some(j) => j,
            None => {
                let label = copy_label(d.label_at(idx));
                let ghost c0 = self.children@;
                self.children.push((label, Trie { children: Vec::new(), valid: false }));
                proof {
                    let t = self;
                    let k = c0.len() as int;
                    assert(t.children@[k].0@ == d@[idx as int]);
                    assert(t.children@[k].1.children@.len() == 0);
                    assert(!old(self).covers(d@.skip(idx as int))) by {
                        assert(!old(self).valid);
                        assert forall|i: int|
                            0 <= i < old(self).children@.len() implies (
                        #[trigger] old(self).children@[i].0@) != d@.skip(idx as int)[0] by {
                            assert(old(self).children@[i].0@ != d@[idx as int]);
                        }
                    }
                    assert forall|q: Seq<Seq<u8>>| old(self).covers(q) == t.covers(q) by {
                        if t.covers(q) && !t.valid {
                            let i = choose|i: int|
                                0 <= i < t.children@.len() && (#[trigger] t.children@[i].0@)
                                    == q[0] && t.children@[i].1.covers(q.skip(1));
                            if i < k {
                                assert(old(self).children@[i] == t.children@[i]);
                            } else {
                                assert(!t.children@[k].1.covers(q.skip(1)));
                            }
                        }
                        if old(self).covers(q) && !old(self).valid && q.len() > 0 {
                            let i = choose|i: int|
                                0 <= i < old(self).children@.len()
                                    && (#[trigger] old(self).children@[i].0@) == q[0] && old(
                                    self,
                                ).children@[i].1.covers(q.skip(1));
                            assert(t.children@[i] == old(self).children@[i]);
                        }
                    }
                }
                self.children.len() - 1
            },
        };
        let ghost mid = *self;
        let ghost child0 = self.children@[j as int].1;
        proof {
            assert(mid.children@[j as int].0@ == d@[idx as int]);
        }
        let child = &mut self.children[j].1;
        child.push_rec(d, idx + 1);
        proof {
            let t = self;
            assert(t.children@ == mid.children@.update(j as int, (mid.children@[j as int].0,
                *child)));
            assert(t.children@[j as int].1 == *child);
            assert(t.children@[j as int].0 == mid.children@[j as int].0);
            assert forall|i: int| 0 <= i < t.children@.len() && i != j
                implies #[trigger] t.children@[i] == mid.children@[i] by {}
            assert(t.wf());
            assert forall|q: Seq<Seq<u8>>| t.covers(q) == (mid.covers(q) || prefix_of(
                d@.skip(idx as int),
                q,
            )) by {
                let rest = d@.skip(idx as int);
                assert(rest[0] == d@[idx as int]);
                assert(rest.skip(1) =~= d@.skip(idx as int + 1));
                if q.len() > 0 && q[0] == d@[idx as int] {
                    assert(t.children@[j as int].1.covers(q.skip(1)) == (child0.covers(q.skip(1))
                        || prefix_of(d@.skip(idx as int + 1), q.skip(1))));
                    if prefix_of(rest, q) {
                        assert(q.skip(1).take(rest.skip(1).len() as int) =~= rest.skip(1));
                        assert(prefix_of(rest.skip(1), q.skip(1)));
                        assert(t.children@[j as int].1.covers(q.skip(1)));
                        assert(t.covers(q));
                    }
                    if prefix_of(rest.skip(1), q.skip(1)) {
                        assert forall|k: int| 0 <= k < rest.len() implies q.take(
                            rest.len() as int,
                        )[k] == rest[k] by {
                            if k > 0 {
                                assert(rest[k] == rest.skip(1)[k - 1]);
                                assert(rest.skip(1)[k - 1] == q.skip(1).take(
                                    rest.skip(1).len() as int,
                                )[k - 1]);
                                assert(q.skip(1)[k - 1] == q[k]);
                            }
                        }
                        assert(rest =~= q.take(rest.len() as int));
                        assert(prefix_of(rest, q));
                    }
                    if t.covers(q) && !t.valid {
                        let i = choose|i: int|
                            0 <= i < t.children@.len() && (#[trigger] t.children@[i].0@) == q[0]
                                && t.children@[i].1.covers(q.skip(1));
                        assert(i == j) by {
                            if i != j {
                                assert(t.children@[i].0@ == mid.children@[i].0@);
                            }
                        }
                        if child0.covers(q.skip(1)) {
                            assert(mid.covers(q));
                        }
                    }
                    if mid.covers(q) && !mid.valid {
                        let i = choose|i: int|
                            0 <= i < mid.children@.len() && (#[trigger] mid.children@[i].0@)
                                == q[0] && mid.children@[i].1.covers(q.skip(1));
                        assert(i == j) by {
                            if i != j {
                                assert(mid.children@[i].0@ == t.children@[i].0@);
                            }
                        }
                        assert(t.children@[j as int].1.covers(q.skip(1)));
                        assert(t.covers(q));
                    }
                } else {
                    assert(!prefix_of(rest, q)) by {
                        if prefix_of(rest, q) {
                            assert(q.take(rest.len() as int)[0] == q[0]);
                        }
                    }
                    if t.covers(q) && !t.valid && q.len() > 0 {
                        let i = choose|i: int|
                            0 <= i < t.children@.len() && (#[trigger] t.children@[i].0@) == q[0]
                                && t.children@[i].1.covers(q.skip(1));
                        assert(i != j);
                        assert(mid.children@[i] == t.children@[i]);
                        assert(mid.covers(q));
                    }
                    if mid.covers(q) && !mid.valid && q.len() > 0 {
                        let i = choose|i: int|
                            0 <= i < mid.children@.len() && (#[trigger] mid.children@[i].0@)
                                == q[0] && mid.children@[i].1.covers(q.skip(1));
                        assert(i != j);
                        assert(t.children@[i] == mid.children@[i]);
                        assert(t.covers(q));
                    }
                }
            }
            assert forall|q: Seq<Seq<u8>>| self.covers(q) == (old(self).covers(q) || prefix_of(
                d@.skip(idx as int),
                q,
            )) by {
                assert(self.covers(q) == (mid.covers(q) || prefix_of(d@.skip(idx as int), q)));
                assert(mid.covers(q) == old(self).covers(q));
            }
            if old(self).covers(d@.skip(idx as int)) {
                let rest = d@.skip(idx as int);
                assert(rest.skip(1) =~= d@.skip(idx as int + 1));
                assert(rest[0] == d@[idx as int]);
                assert(*old(self) == mid);
                assert(!mid.valid);
                let i0 = choose|i0: int|
                    0 <= i0 < mid.children@.len() && (#[trigger] mid.children@[i0].0@) == rest[0]
                        && mid.children@[i0].1.covers(rest.skip(1));
                assert(i0 == j) by {
                    if i0 < j {
                        assert((#[trigger] mid.children@[i0].0@) != (
                        #[trigger] mid.children@[j as int].0@));
                    } else if j < i0 {
                        assert((#[trigger] mid.children@[j as int].0@) != (
                        #[trigger] mid.children@[i0].0@));
                    }
                }
                assert(child0.covers(d@.skip(idx as int + 1)));
                assert(t.children@[j as int].1.count_spec() == child0.count_spec());
                assert forall|k: int| 0 <= k < t.children@.len() implies (
                #[trigger] t.children@[k]).1.count_spec() == mid.children@[k].1.count_spec() by {
                    if k != j {
                        assert(t.children@[k] == mid.children@[k]);
                    }
                }
                Self::lemma_count_congruence(*t, mid, t.children@.len() as int);
                assert(t.count_spec() == mid.count_spec());
            }
        }
    }

    /// Number of marked nodes among the first `n` children, plus this
    /// node's own mark when `n <= 0`.
    pub closed spec fn count_upto(self, n: int) -> nat
        decreases self, n,
    {
        if n <= 0 || n > self.children@.len() {
            if self.valid {
                1nat
            } else {
                0nat
            }
        } else {
            self.count_upto(n - 1) + self.children@[n - 1].1.count_upto(
                self.children@[n - 1].1.children@.len() as int,
            )
        }
    }

    /// Number of names the trie holds: its marked nodes.
    pub closed spec fn count_spec(self) -> nat {
        self.count_upto(self.children@.len() as int)
    }

    /// The number of marked nodes, saturating at the counter's limit.
    pub fn len(&self) -> (n: u32)
        ensures
            n as nat == if self.count_spec() > u32::MAX as nat {
                u32::MAX as nat
            } else {
                self.count_spec()
            },
        decreases *self,
    {
        let mut n: u32 = if self.valid {
            1
        } else {
            0
        };
        let mut i: usize = 0;
        while i < self.children.len()
            invariant
                i <= self.children@.len(),
                n as nat == if self.count_upto(i as int) > u32::MAX as nat {
                    u32::MAX as nat
                } else {
                    self.count_upto(i as int)
                },
            decreases self.children@.len() - i,
        {
            let c = self.children[i].1.len();
            n = n.saturating_add(c);
            i += 1;
        }
        n
    }

    /// Release spare capacity all through the trie; what it covers
    /// does not change.
    pub fn shrink(&mut self)
        requires
            old(self).wf(),
        ensures
            final(self).wf(),
            forall|q: Seq<Seq<u8>>| final(self).covers(q) == old(self).covers(q),
        decreases *old(self),
    {
        let ghost at_entry = *self;
        shrink_children(&mut self.children);
        proof {
            assert(self.wf());
            assert forall|q: Seq<Seq<u8>>| self.covers(q) == at_entry.covers(q) by {}
        }
        let mut i: usize = 0;
        while i < self.children.len()
            invariant
                i <= self.children@.len(),
                self.wf(),
                self.children@.len() == old(self).children@.len(),
                forall|k: int| i <= k < self.children@.len() ==> (#[trigger] self.children@[k]).1
                    == old(self).children@[k].1,
                forall|q: Seq<Seq<u8>>| self.covers(q) == old(self).covers(q),
            decreases self.children@.len() - i,
        {
            let ghost pre = *self;
            let child = &mut self.children[i].1;
            child.shrink();
            proof {
                assert(self.children@[i as int].0 == pre.children@[i as int].0);
                assert forall|k: int| 0 <= k < self.children@.len() && k != i
                    implies #[trigger] self.children@[k] == pre.children@[k] by {}
                assert(self.wf());
                assert forall|q: Seq<Seq<u8>>| self.covers(q) == pre.covers(q) by {
                    if self.covers(q) && !self.valid && q.len() > 0 {
                        let i0 = choose|i0: int|
                            0 <= i0 < self.children@.len() && (#[trigger] self.children@[i0].0@)
                                == q[0] && self.children@[i0].1.covers(q.skip(1));
                        assert(pre.children@[i0].1.covers(q.skip(1)));
                        assert(pre.covers(q));
                    }
                    if pre.covers(q) && !pre.valid && q.len() > 0 {
                        let i0 = choose|i0: int|
                            0 <= i0 < pre.children@.len() && (#[trigger] pre.children@[i0].0@)
                                == q[0] && pre.children@[i0].1.covers(q.skip(1));
                        assert(self.children@[i0].1.covers(q.skip(1)));
                        assert(self.covers(q));
                    }
                }
            }
            i += 1;
        }
    }

    /// The exact node this path leads to is marked: these are the
    /// names the trie stores, one per terminal.
    pub closed spec fn marked(self, path: Seq<Seq<u8>>) -> bool
        decreases self,
    {
        if path.len() == 0 {
            self.valid
        } else {
            exists|i: int|
                0 <= i < self.children@.len() && (#[trigger] self.children@[i].0@) == path[0]
                    && self.children@[i].1.marked(path.skip(1))
        }
    }

    /// The names listed under the first `n` children, in child order,
    /// after this node's own name when it is marked.
    pub closed spec fn lines_upto(self, pre: Seq<u8>, n: int) -> Seq<Seq<u8>>
        decreases self, n,
    {
        if n <= 0 || n > self.children@.len() {
            if self.valid {
                seq![pre]
            } else {
                Seq::<Seq<u8>>::empty()
            }
        } else {
            self.lines_upto(pre, n - 1) + self.children@[n - 1].1.lines_upto(
                extend_name(pre, self.children@[n - 1].0@),
                self.children@[n - 1].1.children@.len() as int,
            )
        }
    }

    /// Every name the trie holds below the prefix `pre`, written in
    /// walk order (the label nearest the root first).
    pub closed spec fn dump_lines(self, pre: Seq<u8>) -> Seq<Seq<u8>> {
        self.lines_upto(pre, self.children@.len() as int)
    }

    proof fn lemma_count_congruence(t1: Trie, t2: Trie, n: int)
        requires
            t1.valid == t2.valid,
            t1.children@.len() == t2.children@.len(),
            forall|k: int| 0 <= k < n ==> (#[trigger] t1.children@[k]).1.count_spec()
                == t2.children@[k].1.count_spec(),
        ensures
            t1.count_upto(n) == t2.count_upto(n),
        decreases n,
    {
        if !(n <= 0 || n > t1.children@.len()) {
            Self::lemma_count_congruence(t1, t2, n - 1);
        }
    }

    proof fn lemma_counts_lines(self, pre: Seq<u8>, n: int)
        ensures
            self.count_upto(n) == self.lines_upto(pre, n).len(),
        decreases self, n,
    {
        if !(n <= 0 || n > self.children@.len()) {
            self.lemma_counts_lines(pre, n - 1);
            let child = self.children@[n - 1].1;
            child.lemma_counts_lines(
                extend_name(pre, self.children@[n - 1].0@),
                child.children@.len() as int,
            );
        }
    }

    fn collect_rec(&self, pre: &Vec<u8>, out: &mut Vec<Vec<u8>>)
        requires
            self.wf(),
        ensures
            final(out)@.map_values(|l: Vec<u8>| l@) == old(out)@.map_values(|l: Vec<u8>| l@)
                + self.dump_lines(pre@),
        decreases *self,
    {
        let ghost base = out@.map_values(|l: Vec<u8>| l@);
        if self.valid {
            let line = copy_label(pre);
            out.push(line);
            proof {
                assert(out@.map_values(|l: Vec<u8>| l@) =~= base + self.dump_lines(pre@));
            }
            return ;
        }
        let mut i: usize = 0;
        proof {
            assert(out@.map_values(|l: Vec<u8>| l@) =~= base + self.lines_upto(pre@, 0));
        }
        while i < self.children.len()
            invariant
                i <= self.children@.len(),
                self.wf(),
                !self.valid,
                out@.map_values(|l: Vec<u8>| l@) =~= base + self.lines_upto(pre@, i as int),
            decreases self.children@.len() - i,
        {
            let mut next_pre: Vec<u8>;
            if pre.len() == 0 {
                next_pre = copy_label(&self.children[i].0);
            } else {
                next_pre = copy_label(pre);
                next_pre.push(DOT);
                let label = &self.children[i].0;
                let mut j: usize = 0;
                while j < label.len()
                    invariant
                        j <= label@.len(),
                        next_pre@ =~= pre@ + seq![DOT] + label@.take(j as int),
                    decreases label@.len() - j,
                {
                    next_pre.push(label[j]);
                    proof {
                        assert(next_pre@ =~= pre@ + seq![DOT] + label@.take(j as int + 1));
                    }
                    j += 1;
                }
                proof {
                    assert(label@.take(label@.len() as int) =~= label@);
                }
            }
            proof {
                assert(next_pre@ == extend_name(pre@, self.children@[i as int].0@));
            }
            let ghost mid = out@.map_values(|l: Vec<u8>| l@);
            let child = &self.children[i].1;
            child.collect_rec(&next_pre, out);
            proof {
                assert(out@.map_values(|l: Vec<u8>| l@) =~= base + self.lines_upto(
                    pre@,
                    i as int + 1,
                ));
            }
            i += 1;
        }
    }

    /// List every name the trie holds, one per line, in ascending
    /// byte order of the walk-order names.
    pub fn dump(&self) -> (r: String)
        requires
            self.wf(),
        ensures
            exists|lines: Seq<Seq<u8>>|
                {
                    &&& lines.to_multiset() == self.dump_lines(Seq::<u8>::empty()).to_multiset()
                    &&& (forall|a: int, b: int| 0 <= a < b < lines.len() ==> bytes_le(
                        #[trigger] lines[a],
                        #[trigger] lines[b],
                    ))
                    &&& r@ == ascii_chars(join_nl(lines))
                },
    {
        let empty_pre: Vec<u8> = Vec::new();
        let mut collected: Vec<Vec<u8>> = Vec::new();
        proof {
            assert(empty_pre@ =~= Seq::<u8>::empty());
        }
        self.collect_rec(&empty_pre, &mut collected);
        proof {
            assert(collected@.map_values(|l: Vec<u8>| l@) =~= self.dump_lines(Seq::<u8>::empty()));
            lemma_lines_ascii(*self, empty_pre@, self.children@.len() as int);
        }
        let ordered = sort_lines(collected);
        let ghost lines = ordered@.map_values(|l: Vec<u8>| l@);
        proof {
            assert forall|k: int| 0 <= k < lines.len() implies forall|b: int|
                0 <= b < #[trigger] lines[k].len() ==> (#[trigger] lines[k][b]) < 128 by {
                broadcast use vstd::seq_lib::group_to_multiset_ensures;

                assert(lines.contains(lines[k]));
                assert(lines.to_multiset().count(lines[k]) > 0);
                assert(self.dump_lines(Seq::<u8>::empty()).contains(lines[k]));
            }
            lemma_join_nl_ascii(lines);
        }
        let mut joined: Vec<u8> = Vec::new();
        let mut k: usize = 0;
        proof {
            assert(joined@ =~= join_nl(lines.take(0)));
        }
        while k < ordered.len()
            invariant
                k <= ordered@.len(),
                lines == ordered@.map_values(|l: Vec<u8>| l@),
                joined@ =~= join_nl(lines.take(k as int)),
            decreases ordered@.len() - k,
        {
            proof {
                assert(lines.take(k as int + 1).drop_last() =~= lines.take(k as int));
                assert(lines.take(k as int + 1).last() == lines[k as int]);
            }
            if k > 0 {
                joined.push(NL);
            }
            let line = &ordered[k];
            let mut j: usize = 0;
            while j < line.len()
                invariant
                    j <= line@.len(),
                    k < ordered@.len(),
                    lines == ordered@.map_values(|l: Vec<u8>| l@),
                    line@ == lines[k as int],
                    joined@ =~= join_nl(lines.take(k as int)) + (if k > 0 {
                        seq![NL]
                    } else {
                        Seq::<u8>::empty()
                    }) + line@.take(j as int),
                decreases line@.len() - j,
            {
                joined.push(line[j]);
                proof {
                    assert(joined@ =~= join_nl(lines.take(k as int)) + (if k > 0 {
                        seq![NL]
                    } else {
                        Seq::<u8>::empty()
                    }) + line@.take(j as int + 1));
                }
                j += 1;
            }
            proof {
                assert(line@.take(line@.len() as int) =~= line@);
                assert(joined@ =~= join_nl(lines.take(k as int + 1)));
            }
            k += 1;
        }
        proof {
            assert(lines.take(lines.len() as int) =~= lines);
            assert forall|b: int| 0 <= b < joined@.len() implies (#[trigger] joined@[b])
                < 128 by {
                assert(joined@[b] == join_nl(lines)[b]);
            }
        }
        ascii_string(&joined)
    }

    /// Mark a name as blocked: afterwards the trie covers exactly what
    /// it covered before plus this name and all its subdomains. A name
    /// the trie already covers changes nothing it holds, so a repeated
    /// push leaves the count where it was.
    pub fn push(&mut self, d: &Domain)
        requires
            old(self).wf(),
            d.wf(),
        ensures
            final(self).wf(),
            forall|q: Seq<Seq<u8>>| final(self).covers(q) == (old(self).covers(q) || prefix_of(
                d@,
                q,
            )),
            old(self).covers(d@) ==> final(self).count_spec() == old(self).count_spec(),
    {
        self.push_rec(d, 0);
        proof {
            assert(d@.skip(0) =~= d@);
        }
    }
}

/// Relies on Vec::shrink_to_fit: it only drops spare capacity and
/// never changes the contents.
#[verifier::external_body]
fn shrink_children(v: &mut Vec<(Vec<u8>, Trie)>)
    ensures
        final(v)@ == old(v)@,
{
    v.shrink_to_fit()
}

} // verus!
