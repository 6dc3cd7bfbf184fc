use vstd::prelude::*;
use crate::domain::{ascii_chars, bytes_eq, copy_label, join_dots, label_ok, Domain};
use crate::trie::prefix_of;

verus! {

/// A reverse-label rule trie. A terminal node holds a verdict, where
/// `Some(true)` allows and `Some(false)` blocks; the verdict applies
/// to the name ending there and everything below it, unless a deeper
/// terminal overrides it.
pub struct NameTrie {
    children: Vec<(Vec<u8>, NameTrie)>,
    verdict: Option<bool>,
}

/// The first child carrying this label, if any.
pub closed spec fn find_spec(s: Seq<(Vec<u8>, NameTrie)>, l: Seq<u8>) -> Option<NameTrie>
    decreases s.len(),
{
    if s.len() == 0 {
        None
    } else if s[0].0@ == l {
        Some(s[0].1)
    } else {
        find_spec(s.skip(1), l)
    }
}

impl NameTrie {
    /// The most specific terminal on the reverse-label path of
    /// `labels`: its verdict and how many labels lead to it.
    pub closed spec fn deepest_terminal(self, labels: Seq<Seq<u8>>) -> Option<(bool, int)>
        decreases labels.len(),
    {
        if labels.len() == 0 {
            None
        } else {
            match find_spec(self.children@, labels[0]) {
                None => None,
                Some(c) => match c.deepest_terminal(labels.skip(1)) {
                    Some(r) => Some((r.0, r.1 + 1)),
                    None => match c.verdict {
                        Some(v) => Some((v, 1)),
                        None => None,
                    },
                },
            }
        }
    }

    /// The verdict of the most specific terminal on the path, or none.
    pub open spec fn check_spec(self, labels: Seq<Seq<u8>>) -> Option<bool> {
        match self.deepest_terminal(labels) {
            Some(r) => Some(r.0),
            None => None,
        }
    }

    /// An insertion of verdict `v` is dropped when a strict ancestor
    /// on the path already carries a verdict of the same or higher
    /// priority; an allow outranks a block.
    pub closed spec fn shadowed(self, labels: Seq<Seq<u8>>, v: bool) -> bool
        decreases labels.len(),
    {
        if labels.len() == 0 {
            false
        } else {
            match find_spec(self.children@, labels[0]) {
                None => false,
                Some(c) => (labels.len() > 1 && match c.verdict {
                    Some(w) => w || !v,
                    None => false,
                }) || c.shadowed(labels.skip(1), v)
            }
        }
    }

    /// Child labels distinct and of valid syntax, children well formed.
    pub closed spec fn wf(self) -> bool
        decreases self,
    {
        &&& forall|i: int, j: int| 0 <= i < j < self.children@.len()
            ==> (#[trigger] self.children@[i].0@) != (#[trigger] self.children@[j].0@)
        &&& forall|i: int| 0 <= i < self.children@.len()
            ==> label_ok((#[trigger] self.children@[i]).0@)
        &&& forall|i: int| 0 <= i < self.children@.len()
            ==> (#[trigger] self.children@[i]).1.wf()
    }

    /// A trie with no rule in it: nothing resolves, nothing shadows an
    /// insertion, and the root carries no verdict.
    pub open spec fn unruled(self) -> bool {
        &&& self.verdict_spec() is None
        &&& forall|ls: Seq<Seq<u8>>| self.deepest_terminal(ls) is None
        &&& forall|ls: Seq<Seq<u8>>, v: bool| !self.shadowed(ls, v)
    }

    /// An empty rule trie: no verdict for any name.
    pub fn new() -> (t: NameTrie)
        ensures
            t.wf(),
            t.unruled(),
            t.count_spec() == 0,
            forall|ls: Seq<Seq<u8>>| t.check_spec(ls) is None,
    {
        let t = NameTrie { children: Vec::new(), verdict: None };
        proof {
            assert forall|ls: Seq<Seq<u8>>| t.deepest_terminal(ls) is None by {
                if ls.len() > 0 {
                    assert(find_spec(t.children@, ls[0]) is None);
                }
            }
            assert forall|ls: Seq<Seq<u8>>, v: bool| !t.shadowed(ls, v) by {
                if ls.len() > 0 {
                    assert(find_spec(t.children@, ls[0]) is None);
                }
            }
        }
        t
    }

    /// This node's own terminal verdict.
    pub closed spec fn verdict_spec(self) -> Option<bool> {
        self.verdict
    }

    /// Build a rule trie from `(expression, is_allow)` pairs, inserted
    /// in order; expressions that do not parse as domains are skipped.
    /// The result is the fold of `insert_effect` over the list; every
    /// inserted name resolves to some verdict, and a verdict comes
    /// only from a name at or above the one looked up.
    pub fn create(list: &Vec<(String, bool)>) -> (t: NameTrie)
        ensures
            t.wf(),
            exists|steps: Seq<NameTrie>| create_steps_ok(list@, steps, t),
            forall|q: Seq<Seq<u8>>| t.check_spec(q) is Some ==> exists|j: int|
                0 <= j < list@.len() && item_parses(#[trigger] list@[j]) && prefix_of(
                    item_labels(list@[j]),
                    q,
                ),
            forall|j: int| 0 <= j < list@.len() && item_parses(#[trigger] list@[j])
                ==> t.check_spec(item_labels(list@[j])) is Some,
            t.count_spec() <= list@.len(),
    {
        let mut t = NameTrie::new();
        let ghost mut steps: Seq<NameTrie> = seq![t];
        let mut i: usize = 0;
        while i < list.len()
            invariant
                i <= list@.len(),
                t.wf(),
                steps.len() == i + 1,
                steps[0].unruled(),
                forall|k: int| 0 <= k < i ==> (if item_parses(#[trigger] list@[k]) {
                    insert_effect(steps[k], steps[k + 1], item_labels(list@[k]), list@[k].1)
                } else {
                    steps[k + 1] == steps[k]
                }),
                steps.last() == t,
                t.count_spec() <= i,
                forall|q: Seq<Seq<u8>>| t.check_spec(q) is Some ==> exists|j: int|
                    0 <= j < i && item_parses(#[trigger] list@[j]) && prefix_of(
                        item_labels(list@[j]),
                        q,
                    ),
                forall|j: int| 0 <= j < i && item_parses(#[trigger] list@[j])
                    ==> t.check_spec(item_labels(list@[j])) is Some,
            decreases list@.len() - i,
        {
            let ghost t0 = t;
            let ghost steps0 = steps;
            match Domain::parse(list[i].0.as_str()) {
                Some(d) => {
                    proof {
                        assert(item_parses(list@[i as int]));
                        assert(d@ == item_labels(list@[i as int]));
                    }
                    t.insert(&d, list[i].1);
                    proof {
                        let lab = item_labels(list@[i as int]);
                        let v = list@[i as int].1;
                        assert(lab.take(lab.len() as int) =~= lab);
                        assert(prefix_of(lab, lab));
                        if t0.shadowed(lab, v) {
                            lemma_shadowed_terminal(t0, lab, v);
                        }
                        assert forall|q: Seq<Seq<u8>>| t.check_spec(q) is Some implies exists|
                            j: int,
                        |
                            0 <= j < i + 1 && item_parses(#[trigger] list@[j]) && prefix_of(
                                item_labels(list@[j]),
                                q,
                            ) by {
                            if t0.check_spec(q) is Some {
                                let j0 = choose|j0: int|
                                    0 <= j0 < i && item_parses(#[trigger] list@[j0]) && prefix_of(
                                        item_labels(list@[j0]),
                                        q,
                                    );
                                assert(0 <= j0 < i + 1 && item_parses(list@[j0]) && prefix_of(
                                    item_labels(list@[j0]),
                                    q,
                                ));
                            } else {
                                assert(!t0.shadowed(lab, v) && prefix_of(lab, q));
                                assert(item_parses(list@[i as int]));
                            }
                        }
                        assert forall|j: int| 0 <= j < i + 1 && item_parses(#[trigger] list@[j])
                            implies t.check_spec(item_labels(list@[j])) is Some by {
                            if j < i {
                                assert(t0.check_spec(item_labels(list@[j])) is Some);
                            } else {
                                if t0.shadowed(lab, v) {
                                    assert(t0.deepest_terminal(lab) is Some);
                                } else {
                                    assert(t.deepest_terminal(lab) == Some((v, lab.len() as int)));
                                }
                            }
                        }
                    }
                },
                None => {
                    proof {
                        assert(!item_parses(list@[i as int]));
                    }
                },
            }
            proof {
                steps = steps.push(t);
                assert forall|k: int| 0 <= k < i + 1 implies (if item_parses(
                    #[trigger] list@[k],
                ) {
                    insert_effect(steps[k], steps[k + 1], item_labels(list@[k]), list@[k].1)
                } else {
                    steps[k + 1] == steps[k]
                }) by {
                    if k < i {
                        assert(steps[k] == steps0[k]);
                        assert(steps[k + 1] == steps0[k + 1]);
                    } else {
                        assert(steps[k] == steps0[k]);
                        assert(steps0[k] == t0);
                        assert(steps[k + 1] == t);
                    }
                }
                assert(steps[0] == steps0[0]);
            }
            i += 1;
        }
        proof {
            assert(exists|st: Seq<NameTrie>| create_steps_ok(list@, st, t)) by {
                assert(create_steps_ok(list@, steps, t));
            }
        }
        t
    }

    /// Number of terminals among the first `n` children, plus this
    /// node's own terminal when `n <= 0`.
    pub closed spec fn count_upto(self, n: int) -> nat
        decreases self, n,
    {
        if n <= 0 || n > self.children@.len() {
            if self.verdict is Some {
                1nat
            } else {
                0nat
            }
        } else {
            self.count_upto(n - 1) + self.children@[n - 1].1.count_upto(
                self.children@[n - 1].1.children@.len() as int,
            )
        }
    }

    /// Number of rules the trie holds: its terminal nodes.
    pub closed spec fn count_spec(self) -> nat {
        self.count_upto(self.children@.len() as int)
    }

    proof fn lemma_count_prefix_eq(t1: NameTrie, t2: NameTrie, n: int)
        requires
            t1.verdict_spec() == t2.verdict_spec(),
            n <= t1.children@.len(),
            n <= t2.children@.len(),
            forall|k: int| 0 <= k < n ==> (#[trigger] t1.children@[k]) == t2.children@[k],
        ensures
            t1.count_upto(n) == t2.count_upto(n),
        decreases n,
    {
        if n > 0 {
            Self::lemma_count_prefix_eq(t1, t2, n - 1);
        }
    }

    proof fn lemma_count_update_bound(t1: NameTrie, t2: NameTrie, j: int, n: int)
        requires
            t1.verdict_spec() == t2.verdict_spec(),
            t1.children@.len() == t2.children@.len(),
            0 <= j < t1.children@.len(),
            forall|k: int| 0 <= k < t1.children@.len() && k != j ==> (#[trigger] t1.children@[k])
                == t2.children@[k],
            t1.children@[j].0 == t2.children@[j].0,
            t1.children@[j].1.count_spec() <= t2.children@[j].1.count_spec() + 1,
        ensures
            t1.count_upto(n) <= t2.count_upto(n) + (if j < n {
                1int
            } else {
                0int
            }),
        decreases n,
    {
        if !(n <= 0 || n > t1.children@.len()) {
            Self::lemma_count_update_bound(t1, t2, j, n - 1);
        }
    }

    /// The number of terminal nodes, saturating at the counter's limit.
    pub fn count(&self) -> (n: usize)
        ensures
            n as nat == if self.count_spec() > usize::MAX as nat {
                usize::MAX as nat
            } else {
                self.count_spec()
            },
        decreases *self,
    {
        let mut n: usize = match self.verdict {
            Some(_) => 1,
            None => 0,
        };
        let mut i: usize = 0;
        while i < self.children.len()
            invariant
                i <= self.children@.len(),
                n as nat == if self.count_upto(i as int) > usize::MAX as nat {
                    usize::MAX as nat
                } else {
                    self.count_upto(i as int)
                },
            decreases self.children@.len() - i,
        {
            let c = self.children[i].1.count();
            n = n.saturating_add(c);
            i += 1;
        }
        n
    }

    fn check_rec(&self, d: &Domain, idx: usize) -> (r: Option<(bool, usize)>)
        requires
            self.wf(),
            idx <= d@.len(),
        ensures
            match r {
                Some(p) => self.deepest_terminal(d@.skip(idx as int)) == Some(
                    (p.0, p.1 as int),
                ) && idx + p.1 <= d@.len() && p.1 >= 1,
                None => self.deepest_terminal(d@.skip(idx as int)) is None,
            },
        decreases d@.len() - idx,
    {
        let ghost rest = d@.skip(idx as int);
        if idx == d.len() {
            proof {
                assert(rest.len() == 0);
            }
            return None;
        }
        proof {
            assert(rest[0] == d@[idx as int]);
            assert(rest.skip(1) =~= d@.skip(idx as int + 1));
        }
        match self.find_child(d.label_at(idx)) {
            None => None,
            Some(j) => {
                let c = &self.children[j].1;
                let sub = c.check_rec(d, idx + 1);
                match sub {
                    Some(p) => Some((p.0, p.1 + 1)),
                    None => match c.verdict {
                        Some(v) => Some((v, 1)),
                        None => None,
                    },
                }
            },
        }
    }

    /// Look a name up: the verdict of the most specific terminal on
    /// its reverse-label path, with the matched name as the reason.
    pub fn check(&self, d: &Domain) -> (r: Option<(bool, String)>)
        requires
            self.wf(),
            d.wf(),
        ensures
            match (r, self.deepest_terminal(d@)) {
                (Some(p), Some(t)) => p.0 == t.0 && p.1@ == ascii_chars(
                    join_dots(d@.take(t.1).reverse()),
                ),
                (None, None) => true,
                _ => false,
            },
    {
        proof {
            assert(d@.skip(0) =~= d@);
        }
        match self.check_rec(d, 0) {
            None => None,
            Some(p) => Some((p.0, d.display_upto(p.1))),
        }
    }

    #[verifier::rlimit(100)]
    fn insert_rec(&mut self, d: &Domain, idx: usize, v: bool)
        requires
            old(self).wf(),
            d.wf(),
            idx <= d@.len(),
        ensures
            final(self).wf(),
            insert_effect(*old(self), *final(self), d@.skip(idx as int), v),
            final(self).count_spec() <= old(self).count_spec() + 1,
        decreases d@.len() - idx,
    {
        let ghost rest = d@.skip(idx as int);
        if idx == d.len() {
            self.verdict = Some(v);
            self.children = Vec::new();
            proof {
                assert(rest.len() == 0);
                assert forall|q: Seq<Seq<u8>>| self.deepest_terminal(q) is None by {
                    if q.len() > 0 {
                        lemma_find_none(self.children@, q[0]);
                    }
                }
                assert(self.count_spec() == 1);
            }
            return ;
        }
        proof {
            assert(rest[0] == d@[idx as int]);
            assert(rest.skip(1) =~= d@.skip(idx as int + 1));
            assert(rest.len() == d@.len() - idx);
        }
        let j: usize = match self.find_child(d.label_at(idx)) {
            Some(j) => j,
            None => {
                let label = copy_label(d.label_at(idx));
                let ghost pre = *self;
                self.children.push((label, NameTrie { children: Vec::new(), verdict: None }));
                proof {
                    let t = self;
                    let k = pre.children@.len() as int;
                    let pair = t.children@[k];
                    let fresh = t.children@[k].1;
                    assert(t.children@ == pre.children@.push(pair));
                    assert(t.children@[k].0@ == rest[0]);
                    assert(fresh.verdict_spec() is None);
                    assert(fresh.children@.len() == 0);
                    assert(fresh.wf());
                    assert(label_ok(d@[idx as int]));
                    assert forall|a: int, b: int| 0 <= a < b < t.children@.len() implies (
                    #[trigger] t.children@[a].0@) != (#[trigger] t.children@[b].0@) by {
                        if b < k {
                            assert(t.children@[a] == pre.children@[a]);
                            assert(t.children@[b] == pre.children@[b]);
                        } else {
                            assert(t.children@[a] == pre.children@[a]);
                            assert(pre.children@[a].0@ != d@[idx as int]);
                        }
                    }
                    assert(t.wf());
                    assert forall|q: Seq<Seq<u8>>| t.deepest_terminal(q)
                        == pre.deepest_terminal(q) by {
                        if q.len() > 0 {
                            if q[0] == rest[0] {
                                lemma_find_push_new(pre.children@, pair);
                                assert(find_spec(t.children@, q[0]) == Some(fresh));
                                lemma_find_none(pre.children@, q[0]);
                                if q.skip(1).len() > 0 {
                                    lemma_find_none(fresh.children@, q.skip(1)[0]);
                                }
                                assert(fresh.deepest_terminal(q.skip(1)) is None);
                                assert(t.deepest_terminal(q) is None);
                                assert(pre.deepest_terminal(q) is None);
                            } else {
                                lemma_find_push(pre.children@, pair, q[0]);
                                assert(find_spec(t.children@, q[0]) == find_spec(
                                    pre.children@,
                                    q[0],
                                ));
                            }
                        }
                    }
                    assert forall|q: Seq<Seq<u8>>, w: bool| t.shadowed(q, w) == pre.shadowed(
                        q,
                        w,
                    ) by {
                        if q.len() > 0 {
                            if q[0] == rest[0] {
                                lemma_find_push_new(pre.children@, pair);
                                assert(find_spec(t.children@, q[0]) == Some(fresh));
                                lemma_find_none(pre.children@, q[0]);
                                if q.skip(1).len() > 0 {
                                    lemma_find_none(fresh.children@, q.skip(1)[0]);
                                }
                                assert(!fresh.shadowed(q.skip(1), w));
                                assert(!t.shadowed(q, w));
                                assert(!pre.shadowed(q, w));
                            } else {
                                lemma_find_push(pre.children@, pair, q[0]);
                                assert(find_spec(t.children@, q[0]) == find_spec(
                                    pre.children@,
                                    q[0],
                                ));
                            }
                        }
                    }
                    assert(t.count_spec() == pre.count_spec()) by {
                        assert(fresh.count_spec() == 0);
                        Self::lemma_count_prefix_eq(*t, pre, k);
                        assert(t.count_upto(k + 1) == t.count_upto(k) + fresh.count_upto(
                            fresh.children@.len() as int,
                        ));
                    }
                }
                self.children.len() - 1
            },
        };
        let ghost mid = *self;
        proof {
            assert(mid.children@[j as int].0@ == rest[0]);
            lemma_find_at(mid.children@, j as int);
            assert forall|q: Seq<Seq<u8>>| mid.deepest_terminal(q) == old(
                self,
            ).deepest_terminal(q) by {}
            assert forall|q: Seq<Seq<u8>>, w: bool| mid.shadowed(q, w) == old(self).shadowed(
                q,
                w,
            ) by {}
            assert(mid.verdict_spec() == old(self).verdict_spec());
        }
        if idx + 1 < d.len() {
            let cv = self.children[j].1.verdict;
            match cv {
                Some(w) => {
                    if w || !v {
                        proof {
                            assert(*self == *old(self));
                            assert(old(self).shadowed(rest, v));
                        }
                        return ;
                    }
                },
                None => {},
            }
        }
        let ghost cpre = mid.children@[j as int].1;
        let child = &mut self.children[j].1;
        child.insert_rec(d, idx + 1, v);
        proof {
            let t = *self;
            let cpost = *child;
            let rest1 = rest.skip(1);
            assert(t.children@ == mid.children@.update(j as int, (mid.children@[j as int].0,
                cpost)));
            assert(t.children@[j as int].1 == cpost);
            assert(t.children@[j as int].0 == mid.children@[j as int].0);
            assert forall|i: int| 0 <= i < t.children@.len() && i != j
                implies #[trigger] t.children@[i] == mid.children@[i] by {}
            assert(t.wf());
            lemma_find_at(t.children@, j as int);
            assert(find_spec(t.children@, rest[0]) == Some(cpost));
            lemma_prefix_unfold(rest, rest);

            let shadowed_here = rest.len() > 1 && (cpre.verdict_spec() matches Some(w) && (w
                || !v));
            assert(!shadowed_here);
            assert(mid.shadowed(rest, v) == cpre.shadowed(rest1, v));
            assert(mid.shadowed(rest, v) == old(self).shadowed(rest, v));
            assert(mid.verdict_spec() == old(self).verdict_spec());
            assert(t.verdict_spec() == mid.verdict_spec());

            assert forall|q: Seq<Seq<u8>>| t.deepest_terminal(q) == (if !old(self).shadowed(
                rest,
                v,
            ) && prefix_of(rest, q) {
                Some((v, rest.len() as int))
            } else {
                old(self).deepest_terminal(q)
            }) by {
                lemma_prefix_unfold(rest, q);
                if q.len() == 0 {
                } else if q[0] == rest[0] {
                    let q1 = q.skip(1);
                    assert(find_spec(mid.children@, q[0]) == Some(cpre));
                    assert(find_spec(t.children@, q[0]) == Some(cpost));
                    if cpre.shadowed(rest1, v) {
                        assert(cpost.deepest_terminal(q1) == cpre.deepest_terminal(q1));
                        assert(cpost.verdict_spec() == cpre.verdict_spec());
                        assert(old(self).shadowed(rest, v));
                        assert(t.deepest_terminal(q) == mid.deepest_terminal(q));
                        assert(mid.deepest_terminal(q) == old(self).deepest_terminal(q));
                    } else if rest1.len() == 0 {
                        assert(cpost.verdict_spec() == Some(v));
                        assert(cpost.deepest_terminal(q1) is None);
                        assert(rest1 =~= q1.take(0));
                        assert(prefix_of(rest1, q1));
                        assert(t.deepest_terminal(q) == Some((v, 1int)));
                    } else {
                        assert(cpost.verdict_spec() == cpre.verdict_spec());
                        assert(!old(self).shadowed(rest, v));
                        assert(cpost.deepest_terminal(q1) == (if prefix_of(rest1, q1) {
                            Some((v, rest1.len() as int))
                        } else {
                            cpre.deepest_terminal(q1)
                        }));
                        if prefix_of(rest1, q1) {
                            assert(t.deepest_terminal(q) == Some((v, rest.len() as int)));
                        } else {
                            assert(t.deepest_terminal(q) == mid.deepest_terminal(q));
                        }
                    }
                } else {
                    assert(!prefix_of(rest, q));
                    lemma_find_update(mid.children@, j as int, cpost, q[0]);
                    assert(find_spec(t.children@, q[0]) == find_spec(mid.children@, q[0]));
                    assert(t.deepest_terminal(q) == mid.deepest_terminal(q));
                    assert(mid.deepest_terminal(q) == old(self).deepest_terminal(q));
                }
            }
            if old(self).shadowed(rest, v) {
                assert forall|q: Seq<Seq<u8>>| self.deepest_terminal(q) == old(
                    self,
                ).deepest_terminal(q) by {
                    assert(self.deepest_terminal(q) == (if !old(self).shadowed(rest, v)
                        && prefix_of(rest, q) {
                        Some((v, rest.len() as int))
                    } else {
                        old(self).deepest_terminal(q)
                    }));
                }
            } else {
                assert forall|q: Seq<Seq<u8>>| self.deepest_terminal(q) == (if prefix_of(
                    rest,
                    q,
                ) {
                    Some((v, rest.len() as int))
                } else {
                    old(self).deepest_terminal(q)
                }) by {
                    assert(self.deepest_terminal(q) == (if !old(self).shadowed(rest, v)
                        && prefix_of(rest, q) {
                        Some((v, rest.len() as int))
                    } else {
                        old(self).deepest_terminal(q)
                    }));
                }
            }
            assert(insert_effect(*old(self), *self, rest, v));
            assert(self.count_spec() <= old(self).count_spec() + 1) by {
                assert(t.children@[j as int].1.count_spec() <= cpre.count_spec() + 1);
                Self::lemma_count_update_bound(t, mid, j as int, t.children@.len() as int);
                assert(t.count_spec() <= mid.count_spec() + 1);
                assert(mid.count_spec() == old(self).count_spec());
            }
        }
    }

    /// Add one rule to the trie, by the subsumption rule stated in
    /// `insert_effect`.
    pub fn insert(&mut self, d: &Domain, is_allow: bool)
        requires
            old(self).wf(),
            d.wf(),
        ensures
            final(self).wf(),
            insert_effect(*old(self), *final(self), d@, is_allow),
            final(self).count_spec() <= old(self).count_spec() + 1,
    {
        self.insert_rec(d, 0, is_allow);
        proof {
            assert(d@.skip(0) =~= d@);
        }
    }

    fn find_child(&self, label: &Vec<u8>) -> (r: Option<usize>)
        ensures
            match r {
                Some(i) => i < self.children@.len() && self.children@[i as int].0@ == label@
                    && find_spec(self.children@, label@) == Some(self.children@[i as int].1),
                None => find_spec(self.children@, label@) is None && forall|i: int|
                    0 <= i < self.children@.len() ==> (#[trigger] self.children@[i].0@)
                        != label@,
            },
    {
        let mut j: usize = 0;
        proof {
            assert(self.children@.skip(0) =~= self.children@);
        }
        while j < self.children.len()
            invariant
                j <= self.children@.len(),
                find_spec(self.children@, label@) == find_spec(
                    self.children@.skip(j as int),
                    label@,
                ),
                forall|i: int| 0 <= i < j ==> (#[trigger] self.children@[i].0@) != label@,
            decreases self.children@.len() - j,
        {
            proof {
                assert(self.children@.skip(j as int)[0] == self.children@[j as int]);
            }
            if bytes_eq(&self.children[j].0, label) {
                return Some(j);
            }
            proof {
                assert(self.children@.skip(j as int).skip(1) =~= self.children@.skip(
                    j as int + 1,
                ));
            }
            j += 1;
        }
        None
    }
}

/// A rule expression that parses as a domain name.
pub open spec fn item_parses(item: (String, bool)) -> bool {
    crate::domain::valid_domain_bytes(vstd::utf8::encode_utf8(item.0@))
}

/// The reverse-label form of a rule expression.
pub open spec fn item_labels(item: (String, bool)) -> Seq<Seq<u8>> {
    crate::domain::domain_labels_of(vstd::utf8::encode_utf8(item.0@)).reverse()
}

/// Wherever an insertion is shadowed, some terminal already stands on
/// the path, so the name still resolves.
proof fn lemma_shadowed_terminal(t: NameTrie, labels: Seq<Seq<u8>>, v: bool)
    requires
        t.shadowed(labels, v),
    ensures
        t.deepest_terminal(labels) is Some,
    decreases labels.len(),
{
    if labels.len() > 0 {
        match find_spec(t.children@, labels[0]) {
            None => {},
            Some(c) => {
                if c.shadowed(labels.skip(1), v) {
                    lemma_shadowed_terminal(c, labels.skip(1), v);
                }
            },
        }
    }
}

/// Shadowing, stated over lookups: a shadowed insertion always has a
/// terminal on the strict-prefix path, and for a block insertion any
/// terminal there shadows. With this, a caller can settle `shadowed`
/// from `deepest_terminal` facts alone for block insertions, and
/// refute it for any insertion when the strict-prefix path is bare.
pub proof fn lemma_shadowed_terminals(t: NameTrie, labels: Seq<Seq<u8>>, v: bool)
    requires
        labels.len() >= 1,
    ensures
        t.shadowed(labels, v) ==> t.deepest_terminal(labels.take(labels.len() - 1)) is Some,
        !v ==> t.shadowed(labels, v) == (t.deepest_terminal(labels.take(labels.len() - 1))
            is Some),
    decreases labels.len(),
{
    let p = labels.take(labels.len() - 1);
    if labels.len() == 1 {
        assert(p.len() == 0);
        assert(t.deepest_terminal(p) is None);
        match find_spec(t.children@, labels[0]) {
            None => {},
            Some(c) => {
                assert(labels.skip(1).len() == 0);
                assert(!c.shadowed(labels.skip(1), v));
            },
        }
        assert(!t.shadowed(labels, v));
    } else {
        assert(p.len() >= 1);
        assert(p[0] == labels[0]);
        match find_spec(t.children@, labels[0]) {
            None => {
                assert(!t.shadowed(labels, v));
                assert(t.deepest_terminal(p) is None);
            },
            Some(c) => {
                let rest = labels.skip(1);
                lemma_shadowed_terminals(c, rest, v);
                assert(p.skip(1) =~= rest.take(rest.len() - 1));
                assert(t.shadowed(labels, v) == ((labels.len() > 1 && (c.verdict_spec()
                    matches Some(u) && (u || !v))) || c.shadowed(rest, v)));
                if t.shadowed(labels, v) {
                    if c.shadowed(rest, v) {
                        assert(c.deepest_terminal(rest.take(rest.len() - 1)) is Some);
                        assert(t.deepest_terminal(p) is Some);
                    } else {
                        assert(c.verdict_spec() is Some);
                        assert(t.deepest_terminal(p) is Some);
                    }
                }
                if !v && t.deepest_terminal(p) is Some {
                    if c.deepest_terminal(p.skip(1)) is Some {
                        assert(c.shadowed(rest, v));
                    } else {
                        assert(c.verdict_spec() is Some);
                    }
                    assert(t.shadowed(labels, v));
                }
            },
        }
    }
}

/// The fold `create` performs: a run of tries that starts with an
/// unruled one and advances by one insertion per parsed item, items
/// that do not parse leaving the trie as it stands.
pub open spec fn create_steps_ok(
    list: Seq<(String, bool)>,
    steps: Seq<NameTrie>,
    t: NameTrie,
) -> bool {
    &&& steps.len() == list.len() + 1
    &&& steps[0].unruled()
    &&& forall|k: int| 0 <= k < list.len() ==> (if item_parses(#[trigger] list[k]) {
        insert_effect(steps[k], steps[k + 1], item_labels(list[k]), list[k].1)
    } else {
        steps[k + 1] == steps[k]
    })
    &&& steps.last() == t
}

/// What one insertion does, stated over lookups: a shadowed insertion
/// changes nothing; otherwise every name at or below the inserted one
/// now resolves to the new terminal, and nothing else moves.
pub open spec fn insert_effect(pre: NameTrie, post: NameTrie, labels: Seq<Seq<u8>>, v: bool) -> bool {
    if pre.shadowed(labels, v) {
        post.verdict_spec() == pre.verdict_spec() && forall|q: Seq<Seq<u8>>|
            post.deepest_terminal(q) == pre.deepest_terminal(q)
    } else if labels.len() == 0 {
        post.verdict_spec() == Some(v) && forall|q: Seq<Seq<u8>>| post.deepest_terminal(q) is None
    } else {
        post.verdict_spec() == pre.verdict_spec() && forall|q: Seq<Seq<u8>>|
            post.deepest_terminal(q) == if prefix_of(labels, q) {
                Some((v, labels.len() as int))
            } else {
                pre.deepest_terminal(q)
            }
    }
}

proof fn lemma_prefix_unfold(p: Seq<Seq<u8>>, q: Seq<Seq<u8>>)
    requires
        p.len() >= 1,
    ensures
        prefix_of(p, q) <==> (q.len() >= 1 && q[0] == p[0] && prefix_of(p.skip(1), q.skip(1))),
{
    if q.len() >= 1 {
        if prefix_of(p, q) {
            assert(p[0] == q.take(p.len() as int)[0]);
            assert forall|k: int| 0 <= k < p.skip(1).len() implies q.skip(1).take(
                p.skip(1).len() as int,
            )[k] == p.skip(1)[k] by {
                assert(p.skip(1)[k] == p[k + 1]);
                assert(p[k + 1] == q.take(p.len() as int)[k + 1]);
                assert(q.take(p.len() as int)[k + 1] == q[k + 1]);
                assert(q[k + 1] == q.skip(1)[k]);
            }
            assert(p.skip(1) =~= q.skip(1).take(p.skip(1).len() as int));
        }
        if q[0] == p[0] && prefix_of(p.skip(1), q.skip(1)) {
            assert forall|k: int| 0 <= k < p.len() implies q.take(p.len() as int)[k] == p[k] by {
                if k > 0 {
                    assert(p[k] == p.skip(1)[k - 1]);
                    assert(p.skip(1)[k - 1] == q.skip(1).take(p.skip(1).len() as int)[k - 1]);
                    assert(q.skip(1).take(p.skip(1).len() as int)[k - 1] == q.skip(1)[k - 1]);
                    assert(q.skip(1)[k - 1] == q[k]);
                }
            }
            assert(p =~= q.take(p.len() as int));
        }
    }
}

proof fn lemma_find_at(s: Seq<(Vec<u8>, NameTrie)>, j: int)
    requires
        0 <= j < s.len(),
        forall|a: int, b: int| 0 <= a < b < s.len() ==> (#[trigger] s[a].0@) != (
        #[trigger] s[b].0@),
        s[j].0@ == s[j].0@,
    ensures
        find_spec(s, s[j].0@) == Some(s[j].1),
    decreases s.len(),
{
    if j > 0 {
        assert(s[0].0@ != s[j].0@);
        assert(s.skip(1)[j - 1] == s[j]);
        lemma_find_at(s.skip(1), j - 1);
    }
}

proof fn lemma_find_none(s: Seq<(Vec<u8>, NameTrie)>, l: Seq<u8>)
    requires
        forall|i: int| 0 <= i < s.len() ==> (#[trigger] s[i].0@) != l,
    ensures
        find_spec(s, l) is None,
    decreases s.len(),
{
    if s.len() > 0 {
        assert forall|i: int| 0 <= i < s.skip(1).len() implies (#[trigger] s.skip(1)[i].0@)
            != l by {
            assert(s.skip(1)[i] == s[i + 1]);
        }
        lemma_find_none(s.skip(1), l);
    }
}

proof fn lemma_find_update(s: Seq<(Vec<u8>, NameTrie)>, j: int, c: NameTrie, l: Seq<u8>)
    requires
        0 <= j < s.len(),
        l != s[j].0@,
    ensures
        find_spec(s.update(j, (s[j].0, c)), l) == find_spec(s, l),
    decreases s.len(),
{
    let s2 = s.update(j, (s[j].0, c));
    assert(s2.len() == s.len());
    if s.len() > 0 {
        if j == 0 {
            assert(s2[0].0 == s[0].0);
            assert(s2.skip(1) =~= s.skip(1));
        } else {
            assert(s2[0] == s[0]);
            assert(s2.skip(1) =~= s.skip(1).update(j - 1, (s.skip(1)[j - 1].0, c)));
            if s[0].0@ != l {
                lemma_find_update(s.skip(1), j - 1, c, l);
            }
        }
    }
}

proof fn lemma_find_push(s: Seq<(Vec<u8>, NameTrie)>, pair: (Vec<u8>, NameTrie), l: Seq<u8>)
    requires
        l != pair.0@,
    ensures
        find_spec(s.push(pair), l) == find_spec(s, l),
    decreases s.len(),
{
    if s.len() == 0 {
        assert(s.push(pair)[0] == pair);
        assert(s.push(pair).skip(1) =~= Seq::<(Vec<u8>, NameTrie)>::empty());
        assert(find_spec(s.push(pair), l) == find_spec(s.push(pair).skip(1), l));
        assert(find_spec(s.push(pair).skip(1), l) is None);
        assert(find_spec(s, l) is None);
    } else {
        assert(s.push(pair)[0] == s[0]);
        assert(s.push(pair).skip(1) =~= s.skip(1).push(pair));
        lemma_find_push(s.skip(1), pair, l);
        if s[0].0@ == l {
            assert(find_spec(s.push(pair), l) == Some(s[0].1));
            assert(find_spec(s, l) == Some(s[0].1));
        } else {
            assert(find_spec(s.push(pair), l) == find_spec(s.skip(1).push(pair), l));
            assert(find_spec(s, l) == find_spec(s.skip(1), l));
        }
    }
}

proof fn lemma_find_push_new(s: Seq<(Vec<u8>, NameTrie)>, pair: (Vec<u8>, NameTrie))
    requires
        forall|i: int| 0 <= i < s.len() ==> (#[trigger] s[i].0@) != pair.0@,
    ensures
        find_spec(s.push(pair), pair.0@) == Some(pair.1),
    decreases s.len(),
{
    if s.len() == 0 {
        assert(s.push(pair)[0] == pair);
    } else {
        assert(s.push(pair)[0] == s[0]);
        assert(s.push(pair).skip(1) =~= s.skip(1).push(pair));
        assert forall|i: int| 0 <= i < s.skip(1).len() implies (#[trigger] s.skip(1)[i].0@)
            != pair.0@ by {
            assert(s.skip(1)[i] == s[i + 1]);
        }
        lemma_find_push_new(s.skip(1), pair);
    }
}

} // verus!
