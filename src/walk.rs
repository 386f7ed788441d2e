//! The explicit-stack walk over the selection tree of non-repetitive picking.

use vstd::prelude::*;

verus! {

/// One move of a [`Walker`]: the indexes taken off the path, topmost first,
/// then the index put on it.
pub struct Move {
    pub popped: Vec<usize>,
    pub pushed: usize,
}

/// Depth-first walk over the selection tree of non-repetitive picking.
///
/// A node of the tree is a path: a sequence of distinct indexes, none of them
/// fixed in advance, of length `1..=depth`. Nodes are visited in preorder,
/// children in ascending index order, with an explicit stack holding the path.
pub struct Walker {
    depth: usize,
    stack: Vec<usize>,
    picked: Vec<bool>,
    fixed: Ghost<Seq<bool>>,
}

/// Index `i` can extend the path `p`.
pub open spec fn is_free(fixed: Seq<bool>, p: Seq<usize>, i: usize) -> bool {
    i < fixed.len() && !fixed[i as int] && !p.contains(i)
}

/// The path `p` has a child in the tree.
pub open spec fn can_descend(fixed: Seq<bool>, depth: nat, p: Seq<usize>) -> bool {
    p.len() < depth && exists|i: usize| is_free(fixed, p, i)
}

/// The node at level `l` of `p` has a next sibling.
pub open spec fn has_sibling(fixed: Seq<bool>, p: Seq<usize>, l: int) -> bool {
    exists|i: usize| p[l] < i && #[trigger] is_free(fixed, p.take(l), i)
}

/// The move that pops `popped` (topmost first) off the path `p` and pushes
/// `pushed` leads to `next`, the node after `p` in preorder.
pub open spec fn advances(
    fixed: Seq<bool>,
    depth: nat,
    p: Seq<usize>,
    popped: Seq<usize>,
    pushed: usize,
    next: Seq<usize>,
) -> bool {
    let m = popped.len();
    let q = p.take(p.len() - m);
    &&& m <= p.len()
    &&& forall|j: int| 0 <= j < m ==> popped[j] == p[p.len() - 1 - j]
    &&& next == q.push(pushed)
    &&& is_free(fixed, q, pushed)
    &&& m == 0 ==> can_descend(fixed, depth, p) && forall|i: usize|
        i < pushed ==> !is_free(fixed, p, i)
    &&& m > 0 ==> {
        &&& !can_descend(fixed, depth, p)
        &&& p[q.len() as int] < pushed
        &&& forall|i: usize| p[q.len() as int] < i < pushed ==> !is_free(fixed, q, i)
        &&& forall|l: int| q.len() < l < p.len() ==> !has_sibling(fixed, p, l)
    }
}

/// The path `p` is the last node in preorder: it has neither a child nor a
/// next sibling at any level.
pub open spec fn finished(fixed: Seq<bool>, depth: nat, p: Seq<usize>) -> bool {
    &&& !can_descend(fixed, depth, p)
    &&& forall|l: int| 0 <= l < p.len() ==> !has_sibling(fixed, p, l)
}

/// The walk is deterministic: from a given node, the move to the next node,
/// and so the next node itself, are unique.
pub proof fn lemma_next_node_unique(
    fixed: Seq<bool>,
    depth: nat,
    p: Seq<usize>,
    popped_a: Seq<usize>,
    pushed_a: usize,
    next_a: Seq<usize>,
    popped_b: Seq<usize>,
    pushed_b: usize,
    next_b: Seq<usize>,
)
    requires
        advances(fixed, depth, p, popped_a, pushed_a, next_a),
        advances(fixed, depth, p, popped_b, pushed_b, next_b),
    ensures
        popped_a == popped_b,
        pushed_a == pushed_b,
        next_a == next_b,
{
    lemma_same_depth(fixed, depth, p, popped_a, pushed_a, next_a, popped_b, pushed_b, next_b);
    lemma_same_depth(fixed, depth, p, popped_b, pushed_b, next_b, popped_a, pushed_a, next_a);
    let m = popped_a.len();
    let q = p.take(p.len() - m);
    assert(m == 0 ==> q == p);
    if pushed_a < pushed_b {
        if m == 0 {
            assert(!is_free(fixed, p, pushed_a));
        } else {
            assert(!is_free(fixed, q, pushed_a));
        }
    }
    if pushed_b < pushed_a {
        if m == 0 {
            assert(!is_free(fixed, p, pushed_b));
        } else {
            assert(!is_free(fixed, q, pushed_b));
        }
    }
    assert(popped_a =~= popped_b);
}

proof fn lemma_same_depth(
    fixed: Seq<bool>,
    depth: nat,
    p: Seq<usize>,
    popped_a: Seq<usize>,
    pushed_a: usize,
    next_a: Seq<usize>,
    popped_b: Seq<usize>,
    pushed_b: usize,
    next_b: Seq<usize>,
)
    requires
        advances(fixed, depth, p, popped_a, pushed_a, next_a),
        advances(fixed, depth, p, popped_b, pushed_b, next_b),
    ensures
        popped_a.len() <= popped_b.len(),
{
    let ma = popped_a.len();
    let mb = popped_b.len();
    if ma > mb {
        let l = p.len() - mb;
        let qb = p.take(l);
        assert(is_free(fixed, qb, pushed_b));
        if mb > 0 {
            assert(p.take(l as int) == qb);
            assert(has_sibling(fixed, p, l as int));
        }
    }
}

/// A walk that has ended has no next node.
pub proof fn lemma_finished_has_no_next(
    fixed: Seq<bool>,
    depth: nat,
    p: Seq<usize>,
    popped: Seq<usize>,
    pushed: usize,
    next: Seq<usize>,
)
    requires
        finished(fixed, depth, p),
    ensures
        !advances(fixed, depth, p, popped, pushed, next),
{
    if advances(fixed, depth, p, popped, pushed, next) {
        let m = popped.len();
        if m > 0 {
            let l = p.len() - m;
            assert(is_free(fixed, p.take(l as int), pushed));
            assert(has_sibling(fixed, p, l as int));
        }
    }
}

/// A path from the root: distinct indexes, none fixed, at most `depth` of them.
pub open spec fn is_path(fixed: Seq<bool>, depth: nat, p: Seq<usize>) -> bool {
    &&& p.len() <= depth
    &&& p.no_duplicates()
    &&& forall|j: int| 0 <= j < p.len() ==> #[trigger] p[j] < fixed.len() && !fixed[p[j] as int]
}

/// A node of the tree: a path other than the root.
pub open spec fn is_node(fixed: Seq<bool>, depth: nat, p: Seq<usize>) -> bool {
    is_path(fixed, depth, p) && p.len() >= 1
}

/// `a` comes before `b` in preorder: it is a proper prefix of `b`, or at the
/// first position where they differ its index is the smaller.
pub open spec fn precedes(a: Seq<usize>, b: Seq<usize>) -> bool {
    ||| a.len() < b.len() && b.take(a.len() as int) == a
    ||| exists|j: int| 0 <= j < a.len() && j < b.len() && a.take(j) == b.take(j) && a[j] < b[j]
}

/// An index of `r` after its prefix `r.take(j)` is free for that prefix.
proof fn lemma_node_index_free(fixed: Seq<bool>, depth: nat, r: Seq<usize>, j: int)
    requires
        is_path(fixed, depth, r),
        0 <= j < r.len(),
    ensures
        is_free(fixed, r.take(j), r[j]),
{
    if r.take(j).contains(r[j]) {
        let k = choose|k: int| 0 <= k < r.take(j).len() && r.take(j)[k] == r[j];
        assert(r[k] == r[j]);
    }
}

/// Each step of the walk moves forward in preorder, to a node.
pub proof fn lemma_step_moves_forward(
    fixed: Seq<bool>,
    depth: nat,
    p: Seq<usize>,
    popped: Seq<usize>,
    pushed: usize,
    next: Seq<usize>,
)
    requires
        is_path(fixed, depth, p),
        advances(fixed, depth, p, popped, pushed, next),
    ensures
        precedes(p, next),
        is_node(fixed, depth, next),
{
    let m = popped.len();
    let q = p.take(p.len() - m);
    if m == 0 {
        assert(q == p);
        assert(next.take(p.len() as int) == p);
    } else {
        let l = q.len() as int;
        assert(p.take(l) == next.take(l));
        assert(p[l] < next[l]);
    }
    assert forall|j: int| 0 <= j < next.len() implies #[trigger] next[j] < fixed.len()
        && !fixed[next[j] as int] by {
        if j < q.len() {
            assert(next[j] == p[j]);
        }
    }
    assert(next.no_duplicates()) by {
        assert forall|a: int, b: int| 0 <= a < b < next.len() implies next[a] != next[b] by {
            if b < q.len() {
                assert(next[a] == p[a] && next[b] == p[b]);
            } else {
                assert(next[a] == q[a]);
            }
        }
    }
}

/// The walk skips no node: no node lies strictly between a path and the node
/// that the walk moves to next.
pub proof fn lemma_step_skips_nothing(
    fixed: Seq<bool>,
    depth: nat,
    p: Seq<usize>,
    popped: Seq<usize>,
    pushed: usize,
    next: Seq<usize>,
    r: Seq<usize>,
)
    requires
        is_path(fixed, depth, p),
        advances(fixed, depth, p, popped, pushed, next),
        is_node(fixed, depth, r),
        precedes(p, r),
    ensures
        r == next || precedes(next, r),
{
    let m = popped.len();
    let lq = p.len() - m;
    let q = p.take(lq);
    if p.len() < r.len() && r.take(p.len() as int) == p {
        // r extends p: r's next index is a child of p
        lemma_node_index_free(fixed, depth, r, p.len() as int);
        let x = r[p.len() as int];
        assert(can_descend(fixed, depth, p));
        assert(m == 0);
        assert(q == p);
        if x == pushed {
            assert(r.take(next.len() as int) == next);
            if r.len() == next.len() {
                assert(r == next);
            }
        } else {
            assert(x > pushed);
            assert(next.take(p.len() as int) == r.take(p.len() as int));
        }
    } else {
        let j = choose|j: int| 0 <= j < p.len() && j < r.len() && p.take(j) == r.take(j) && p[j] < r[j];
        if j < lq {
            assert(next.take(j) == p.take(j));
            assert(next[j] == p[j]);
        } else if j == lq {
            assert(m > 0);
            lemma_node_index_free(fixed, depth, r, j);
            assert(r.take(j) == q);
            let x = r[j];
            if x == pushed {
                assert(r.take(next.len() as int) == next);
                if r.len() == next.len() {
                    assert(r == next);
                }
            } else {
                assert(x > pushed);
                assert(next.take(j) == r.take(j));
            }
        } else {
            lemma_node_index_free(fixed, depth, r, j);
            assert(r.take(j) == p.take(j));
            assert(has_sibling(fixed, p, j));
        }
    }
}

/// Where the walk ends, no node comes after the path.
pub proof fn lemma_finished_is_last(fixed: Seq<bool>, depth: nat, p: Seq<usize>, r: Seq<usize>)
    requires
        is_path(fixed, depth, p),
        finished(fixed, depth, p),
        is_node(fixed, depth, r),
    ensures
        !precedes(p, r),
{
    if precedes(p, r) {
        if p.len() < r.len() && r.take(p.len() as int) == p {
            lemma_node_index_free(fixed, depth, r, p.len() as int);
            assert(can_descend(fixed, depth, p));
        } else {
            let j = choose|j: int|
                0 <= j < p.len() && j < r.len() && p.take(j) == r.take(j) && p[j] < r[j];
            lemma_node_index_free(fixed, depth, r, j);
            assert(r.take(j) == p.take(j));
            assert(has_sibling(fixed, p, j));
        }
    }
}

impl Walker {
    /// The table size.
    pub closed spec fn len(&self) -> nat {
        self.picked@.len()
    }

    /// The largest length of a path.
    pub closed spec fn depth(&self) -> nat {
        self.depth as nat
    }

    /// The flags of the indexes fixed in advance.
    pub closed spec fn fixed(&self) -> Seq<bool> {
        self.fixed@
    }

    /// The current path, root first.
    pub closed spec fn path(&self) -> Seq<usize> {
        self.stack@
    }

    pub closed spec fn wf(&self) -> bool {
        &&& self.fixed@.len() == self.picked@.len()
        &&& self.stack@.len() <= self.depth
        &&& self.stack@.no_duplicates()
        &&& forall|j: int|
            0 <= j < self.stack@.len() ==> #[trigger] self.stack@[j] < self.picked@.len()
                && !self.fixed@[self.stack@[j] as int]
        &&& forall|i: usize|
            i < self.picked@.len() ==> #[trigger] self.picked@[i as int] == (self.fixed@[i as int]
                || self.stack@.contains(i))
    }

    /// Starts a walk with the indexes flagged in `picked` fixed in advance.
    /// They count against `amount`: paths are at most `amount` minus their
    /// number long (none, if they are more than `amount`).
    pub fn new(picked: Vec<bool>, amount: usize) -> (r: Walker)
        ensures
            r.wf(),
            r.fixed() == picked@,
            r.depth() == if count_true(picked@) <= amount {
                amount - count_true(picked@)
            } else {
                0
            },
            r.path() == Seq::<usize>::empty(),
    {
        let mut depth: usize = amount;
        let mut over = false;
        let mut i: usize = 0;
        while i < picked.len()
            invariant
                i <= picked@.len(),
                over ==> count_true(picked@) > amount,
                !over ==> count_true(picked@.take(i as int)) <= amount && depth == amount
                    - count_true(picked@.take(i as int)),
            decreases picked@.len() - i,
        {
            proof {
                assert(picked@.take(i + 1).drop_last() == picked@.take(i as int));
                lemma_count_true_prefix_le(picked@, i + 1);
            }
            if picked[i] && !over {
                if depth == 0 {
                    over = true;
                } else {
                    depth = depth - 1;
                }
            }
            i = i + 1;
        }
        proof {
            assert(picked@.take(i as int) == picked@);
        }
        if over {
            depth = 0;
        }
        let ghost fixed = picked@;
        Walker { depth, stack: Vec::new(), picked, fixed: Ghost(fixed) }
    }

    /// Starts the walk of the branch of the tree whose first pick is `first`,
    /// among `amount` picks in all.
    pub fn branch(table_len: usize, first: usize, amount: usize) -> (r: Walker)
        requires
            first < table_len,
            amount >= 1,
        ensures
            r.wf(),
            r.fixed().len() == table_len,
            forall|i: int| 0 <= i < table_len ==> #[trigger] r.fixed()[i] == (i == first),
            r.depth() == amount - 1,
            r.path() == Seq::<usize>::empty(),
    {
        let mut picked: Vec<bool> = Vec::new();
        let mut i: usize = 0;
        while i < table_len
            invariant
                i <= table_len,
                first < table_len,
                picked@.len() == i,
                forall|j: int| 0 <= j < i ==> #[trigger] picked@[j] == (j == first),
            decreases table_len - i,
        {
            picked.push(i == first);
            i = i + 1;
        }
        let ghost fixed = picked@;
        Walker { depth: amount - 1, stack: Vec::new(), picked, fixed: Ghost(fixed) }
    }

    /// The least index at or after `from` that is neither fixed nor on the path.
    fn next_free(&self, from: usize) -> (r: Option<usize>)
        requires
            self.wf(),
        ensures
            match r {
                Some(i) => from <= i && is_free(self.fixed(), self.path(), i) && forall|j: usize|
                    from <= j < i ==> !is_free(self.fixed(), self.path(), j),
                None => forall|j: usize| from <= j ==> !is_free(self.fixed(), self.path(), j),
            },
    {
        let mut i = from;
        while i < self.picked.len()
            invariant
                self.wf(),
                from <= i,
                forall|j: usize| from <= j < i ==> !is_free(self.fixed(), self.path(), j),
            decreases self.picked@.len() - i,
        {
            if !self.picked[i] {
                return Some(i);
            }
            i = i + 1;
        }
        None
    }

    /// Advances the walk to the next node in preorder, and returns the move
    /// that leads there; returns `None` once every node has been visited,
    /// with the path emptied.
    pub fn step(&mut self) -> (r: Option<Move>)
        requires
            old(self).wf(),
        ensures
            final(self).wf(),
            final(self).fixed() == old(self).fixed(),
            final(self).depth() == old(self).depth(),
            is_path(final(self).fixed(), final(self).depth(), final(self).path()),
            match r {
                Some(mv) => advances(
                    old(self).fixed(),
                    old(self).depth(),
                    old(self).path(),
                    mv.popped@,
                    mv.pushed,
                    final(self).path(),
                ),
                None => finished(old(self).fixed(), old(self).depth(), old(self).path())
                    && final(self).path() == Seq::<usize>::empty(),
            },
    {
        let ghost p = self.stack@;
        let ghost fixed = self.fixed@;
        if self.stack.len() < self.depth {
            match self.next_free(0) {
                Some(i) => {
                    self.push(i);
                    let popped: Vec<usize> = Vec::new();
                    assert(p.take(p.len() - popped@.len()) == p);
                    return Some(Move { popped, pushed: i });
                },
                None => {
                    assert forall|j: usize| !is_free(fixed, p, j) by {
                        assert(0 <= j);
                        assert(!is_free(self.fixed(), self.path(), j));
                    }
                    assert(!can_descend(fixed, self.depth as nat, p));
                },
            }
        }
        assert(!can_descend(fixed, self.depth as nat, p));
        let mut popped: Vec<usize> = Vec::new();
        while self.stack.len() > 0
            invariant
                self.wf(),
                self.fixed@ == fixed,
                fixed == old(self).fixed@,
                p == old(self).stack@,
                !can_descend(fixed, self.depth as nat, p),
                self.depth == old(self).depth,
                popped@.len() <= p.len(),
                self.stack@ == p.take(p.len() - popped@.len()),
                forall|j: int| 0 <= j < popped@.len() ==> popped@[j] == p[p.len() - 1 - j],
                forall|l: int|
                    p.len() - popped@.len() <= l < p.len() ==> !has_sibling(fixed, p, l),
            decreases self.stack@.len(),
        {
            let top = self.pop();
            popped.push(top);
            assert(top == p[p.len() - popped@.len()]);
            assert(old(self).stack@.contains(top));
            assert(top < self.picked@.len());
            let n = self.picked.len();
            assert(top < n);
            let ghost l = self.stack@.len() as int;
            assert(self.stack@ == p.take(l));
            match self.next_free(top + 1) {
                Some(i) => {
                    self.push(i);
                    return Some(Move { popped, pushed: i });
                },
                None => {
                    assert(!has_sibling(fixed, p, l));
                },
            }
        }
        None
    }

    fn push(&mut self, i: usize)
        requires
            old(self).wf(),
            old(self).path().len() < old(self).depth(),
            is_free(old(self).fixed(), old(self).path(), i),
        ensures
            final(self).wf(),
            final(self).fixed() == old(self).fixed(),
            final(self).depth() == old(self).depth(),
            final(self).path() == old(self).path().push(i),
    {
        proof {
            assert forall|x: usize| #[trigger] self.stack@.push(i).contains(x) <==> (
            self.stack@.contains(x) || x == i) by {
                if self.stack@.push(i).contains(x) {
                    let j = choose|j: int|
                        0 <= j < self.stack@.push(i).len() && self.stack@.push(i)[j] == x;
                    if j < self.stack@.len() {
                        assert(self.stack@[j] == x);
                    }
                }
                if self.stack@.contains(x) {
                    let j = choose|j: int| 0 <= j < self.stack@.len() && self.stack@[j] == x;
                    assert(self.stack@.push(i)[j] == x);
                }
                if x == i {
                    assert(self.stack@.push(i)[self.stack@.len() as int] == x);
                }
            }
        }
        let ghost s0 = self.stack@;
        self.stack.push(i);
        self.picked.set(i, true);
        proof {
            assert(self.stack@ == s0.push(i));
            assert forall|j: int| 0 <= j < self.stack@.len() implies #[trigger] self.stack@[j]
                < self.picked@.len() && !self.fixed@[self.stack@[j] as int] by {
                if j < s0.len() {
                    assert(self.stack@[j] == s0[j]);
                }
            }
            assert forall|x: usize| x < self.picked@.len() implies #[trigger] self.picked@[x as int]
                == (self.fixed@[x as int] || self.stack@.contains(x)) by {
                assert(self.stack@.contains(x) <==> (s0.contains(x) || x == i));
            }
        }
    }

    fn pop(&mut self) -> (top: usize)
        requires
            old(self).wf(),
            old(self).path().len() > 0,
        ensures
            final(self).wf(),
            final(self).fixed() == old(self).fixed(),
            final(self).depth() == old(self).depth(),
            final(self).path() == old(self).path().drop_last(),
            top == old(self).path().last(),
    {
        let ghost s = self.stack@;
        let top = self.stack.pop().unwrap();
        proof {
            assert(s == self.stack@.push(top));
            assert forall|x: usize| #[trigger] s.contains(x) <==> (self.stack@.contains(x) || x
                == top) by {
                if s.contains(x) {
                    let j = choose|j: int| 0 <= j < s.len() && s[j] == x;
                    if j < self.stack@.len() {
                        assert(self.stack@[j] == x);
                    }
                }
                if self.stack@.contains(x) {
                    let j = choose|j: int| 0 <= j < self.stack@.len() && self.stack@[j] == x;
                    assert(s[j] == x);
                }
                if x == top {
                    assert(s[s.len() - 1] == x);
                }
            }
            assert(!self.stack@.contains(top)) by {
                if self.stack@.contains(top) {
                    let j = choose|j: int| 0 <= j < self.stack@.len() && self.stack@[j] == top;
                    assert(s[j] == s[s.len() - 1]);
                }
            }
        }
        self.picked.set(top, false);
        proof {
            assert forall|j: int| 0 <= j < self.stack@.len() implies #[trigger] self.stack@[j]
                < self.picked@.len() && !self.fixed@[self.stack@[j] as int] by {
                assert(self.stack@[j] == s[j]);
            }
            assert forall|x: usize| x < self.picked@.len() implies #[trigger] self.picked@[x as int]
                == (self.fixed@[x as int] || self.stack@.contains(x)) by {
                assert(s.contains(x) <==> (self.stack@.contains(x) || x == top));
            }
        }
        top
    }
}

/// The number of flags set in `s`.
pub open spec fn count_true(s: Seq<bool>) -> nat
    decreases s.len(),
{
    if s.len() == 0 {
        0
    } else {
        count_true(s.drop_last()) + if s.last() {
            1nat
        } else {
            0nat
        }
    }
}

proof fn lemma_count_true_prefix_le(s: Seq<bool>, n: int)
    requires
        0 <= n <= s.len(),
    ensures
        count_true(s.take(n)) <= count_true(s),
    decreases s.len(),
{
    if n < s.len() {
        assert(s.drop_last().take(n) == s.take(n));
        lemma_count_true_prefix_le(s.drop_last(), n);
    } else {
        assert(s.take(n) == s);
    }
}

} // verus!
