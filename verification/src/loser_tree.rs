//! A loser tree: a tournament over the leaves of a complete binary tree that
//! keeps, at every inner node, the loser of the match played there, and at the
//! root the overall winner. After the winner's value has changed, replaying
//! the matches on its path to the root restores the tournament.

use vstd::prelude::*;

verus! {

/// A value that takes part in a tournament. The value with the smaller rank
/// wins a match.
pub trait Ranked {
    /// The position of the value in the order that the tournament goes by.
    spec fn rank(&self) -> nat;

    /// Whether `self` comes strictly before `other`.
    fn less(&self, other: &Self) -> (b: bool)
        ensures
            b == (self.rank() < other.rank()),
    ;
}

/// Leaf `a` wins against leaf `b`: its value has the smaller rank, or the same
/// rank and `a` is not the later leaf.
pub open spec fn beats<T: Ranked>(values: Seq<T>, a: int, b: int) -> bool {
    values[a].rank() < values[b].rank() || (values[a].rank() == values[b].rank() && a <= b)
}

/// Leaf `w` wins against every leaf.
pub open spec fn is_min<T: Ranked>(values: Seq<T>, w: int) -> bool {
    &&& 0 <= w < values.len()
    &&& forall|i: int| 0 <= i < values.len() ==> beats(values, w, i)
}

/// The leaf that wins the tournament among the leaves under `node`. With `n`
/// leaves, the inner nodes are `1..n`, the children of node `k` are `2k` and
/// `2k + 1`, and node `n + i` is leaf `i`.
spec fn contender<T: Ranked>(values: Seq<T>, node: int) -> int
    decreases 2 * values.len() - node,
{
    let n = values.len() as int;
    if node >= n || node <= 0 {
        node - n
    } else {
        let l = contender(values, 2 * node);
        let r = contender(values, 2 * node + 1);
        if beats(values, l, r) {
            l
        } else {
            r
        }
    }
}

/// The leaf that loses the match played at the inner node `node`.
spec fn loser_at<T: Ranked>(values: Seq<T>, node: int) -> int {
    let l = contender(values, 2 * node);
    let r = contender(values, 2 * node + 1);
    if beats(values, l, r) {
        r
    } else {
        l
    }
}

/// Node `m` lies in the subtree under `node`.
spec fn under(m: int, node: int) -> bool
    decreases m,
{
    m == node || (m > node && node >= 1 && under(m / 2, node))
}

/// What lies under a child of a node lies under the node, and is not the
/// node itself.
proof fn lemma_under_child(m: int, node: int)
    requires
        node >= 1,
        under(m, 2 * node) || under(m, 2 * node + 1),
    ensures
        under(m, node),
        m != node,
    decreases m,
{
    if m == 2 * node || m == 2 * node + 1 {
        assert(under(m / 2, node));
    } else {
        lemma_under_child(m / 2, node);
    }
}

/// What lies under a node, and is not the node itself, lies under exactly
/// one of its two children.
proof fn lemma_under_parent(m: int, node: int)
    requires
        node >= 1,
        under(m, node),
        m != node,
    ensures
        under(m, 2 * node) != under(m, 2 * node + 1),
    decreases m,
{
    if m / 2 == node {
        assert(m == 2 * node || m == 2 * node + 1);
        if m == 2 * node {
            assert(!under(m, 2 * node + 1));
        } else {
            assert(under(m / 2, 2 * node) == (m / 2 == 2 * node));
        }
    } else {
        lemma_under_parent(m / 2, node);
        assert(m != 2 * node && m != 2 * node + 1);
        assert(m / 2 >= 2 * node ==> m > 2 * node + 1);
    }
}

/// Of two nodes above a third, the lower one lies under the higher one.
proof fn lemma_under_chain(m: int, node: int, k: int)
    requires
        under(m, node),
        under(m, k),
        k <= node,
    ensures
        under(node, k),
        k != node ==> k <= node / 2,
    decreases m,
{
    if m != node {
        lemma_under_chain(m / 2, node, k);
    }
    if k != node {
        assert(under(node / 2, k));
    }
}

/// Every node lies under the root.
proof fn lemma_under_root(m: int)
    requires
        m >= 1,
    ensures
        under(m, 1),
    decreases m,
{
    if m > 1 {
        lemma_under_root(m / 2);
    }
}

/// The winner under a node is one of the leaves under it.
proof fn lemma_contender_under<T: Ranked>(values: Seq<T>, node: int)
    requires
        1 <= node < 2 * values.len(),
    ensures
        0 <= contender(values, node) < values.len(),
        under(values.len() + contender(values, node), node),
    decreases 2 * values.len() - node,
{
    let n = values.len() as int;
    if node < n {
        lemma_contender_under(values, 2 * node);
        lemma_contender_under(values, 2 * node + 1);
        lemma_under_child(n + contender(values, node), node);
    }
}

/// Winning is a total order on the leaves.
proof fn lemma_beats_order<T: Ranked>(values: Seq<T>, a: int, b: int, c: int)
    ensures
        beats(values, a, b) || beats(values, b, a),
        beats(values, a, b) && beats(values, b, c) ==> beats(values, a, c),
        beats(values, a, b) && beats(values, b, a) ==> a == b,
{
}

/// The winner under a node wins against the winner under every node below.
proof fn lemma_contender_wins<T: Ranked>(values: Seq<T>, node: int, m: int)
    requires
        1 <= node,
        m < 2 * values.len(),
        under(m, node),
    ensures
        beats(values, contender(values, node), contender(values, m)),
    decreases m,
{
    if m != node {
        let parent = m / 2;
        lemma_contender_wins(values, node, parent);
        assert(m == 2 * parent || m == 2 * parent + 1);
        lemma_beats_order(
            values,
            contender(values, 2 * parent),
            contender(values, 2 * parent + 1),
            0,
        );
        lemma_beats_order(
            values,
            contender(values, node),
            contender(values, parent),
            contender(values, m),
        );
    }
}

/// The winner under a node depends only on the values of the leaves under it.
proof fn lemma_contender_local<T: Ranked>(a: Seq<T>, b: Seq<T>, changed: int, node: int)
    requires
        a.len() == b.len(),
        1 <= node < 2 * a.len(),
        forall|i: int| 0 <= i < a.len() && i != changed ==> a[i] == b[i],
        !under(a.len() + changed, node),
    ensures
        contender(a, node) == contender(b, node),
    decreases 2 * a.len() - node,
{
    let n = a.len() as int;
    if node < n {
        if under(n + changed, 2 * node) || under(n + changed, 2 * node + 1) {
            lemma_under_child(n + changed, node);
        }
        lemma_contender_local(a, b, changed, 2 * node);
        lemma_contender_local(a, b, changed, 2 * node + 1);
        lemma_contender_under(a, 2 * node);
        lemma_contender_under(a, 2 * node + 1);
        let l = contender(a, 2 * node);
        let r = contender(a, 2 * node + 1);
        if l == changed {
            lemma_under_child(n + l, node);
        }
        if r == changed {
            lemma_under_child(n + r, node);
        }
    }
}

/// Every node of the tree records the outcome of its match.
spec fn sifted<T: Ranked>(losers: Seq<usize>, values: Seq<T>) -> bool {
    let n = values.len() as int;
    &&& losers.len() == n
    &&& n > 0 ==> losers[0] as int == contender(values, 1)
    &&& forall|k: int| 1 <= k < n ==> #[trigger] losers[k] as int == loser_at(values, k)
}

/// Every node records the outcome of its match as far as that does not depend
/// on the value of the leaf recorded as the winner: a node on that leaf's path
/// to the root records the winner of its other subtree.
spec fn replayable<T: Ranked>(losers: Seq<usize>, values: Seq<T>) -> bool {
    let n = values.len() as int;
    let leaf = n + losers[0];
    &&& n > 0
    &&& losers.len() == n
    &&& losers[0] < n
    &&& forall|k: int|
        1 <= k < n ==> if under(leaf, k) {
            &&& under(leaf, 2 * k) ==> #[trigger] losers[k] as int == contender(values, 2 * k + 1)
            &&& under(leaf, 2 * k + 1) ==> losers[k] as int == contender(values, 2 * k)
        } else {
            losers[k] as int == loser_at(values, k)
        }
}

/// In a sifted tree the recorded winner wins against every leaf.
proof fn lemma_sifted_top_is_min<T: Ranked>(losers: Seq<usize>, values: Seq<T>)
    requires
        sifted(losers, values),
        values.len() > 0,
    ensures
        is_min(values, losers[0] as int),
{
    let n = values.len() as int;
    lemma_contender_under(values, 1);
    assert forall|i: int| 0 <= i < n implies beats(values, losers[0] as int, i) by {
        lemma_under_root(n + i);
        lemma_contender_wins(values, 1, n + i);
    }
}

/// The overall winner is the winner under every node on its path to the root.
proof fn lemma_top_wins_on_path<T: Ranked>(losers: Seq<usize>, values: Seq<T>, k: int)
    requires
        sifted(losers, values),
        values.len() > 0,
        1 <= k < 2 * values.len(),
        under(values.len() + losers[0], k),
    ensures
        contender(values, k) == losers[0],
{
    let n = values.len() as int;
    let w = losers[0] as int;
    lemma_sifted_top_is_min(losers, values);
    lemma_contender_under(values, k);
    lemma_contender_wins(values, k, n + w);
    lemma_beats_order(values, contender(values, k), w, 0);
}

/// A sifted tree stays replayable whatever value its winning leaf is given.
proof fn lemma_replayable_after_update<T: Ranked>(losers: Seq<usize>, before: Seq<T>, value: T)
    requires
        sifted(losers, before),
        before.len() > 0,
    ensures
        replayable(losers, before.update(losers[0] as int, value)),
{
    let n = before.len() as int;
    let w = losers[0] as int;
    let after = before.update(w, value);
    lemma_contender_under(before, 1);
    assert forall|k: int| 1 <= k < n implies if under(n + w, k) {
        &&& under(n + w, 2 * k) ==> #[trigger] losers[k] as int == contender(after, 2 * k + 1)
        &&& under(n + w, 2 * k + 1) ==> losers[k] as int == contender(after, 2 * k)
    } else {
        losers[k] as int == loser_at(after, k)
    } by {
        let l = contender(before, 2 * k);
        let r = contender(before, 2 * k + 1);
        lemma_contender_under(before, 2 * k);
        lemma_contender_under(before, 2 * k + 1);
        if under(n + w, k) {
            lemma_under_parent(n + w, k);
            if under(n + w, 2 * k) {
                lemma_top_wins_on_path(losers, before, 2 * k);
                lemma_sifted_top_is_min(losers, before);
                lemma_contender_local(before, after, w, 2 * k + 1);
            } else {
                lemma_top_wins_on_path(losers, before, 2 * k + 1);
                lemma_sifted_top_is_min(losers, before);
                lemma_beats_order(before, l, r, 0);
                lemma_contender_local(before, after, w, 2 * k);
            }
        } else {
            if under(n + w, 2 * k) || under(n + w, 2 * k + 1) {
                lemma_under_child(n + w, k);
            }
            lemma_contender_local(before, after, w, 2 * k);
            lemma_contender_local(before, after, w, 2 * k + 1);
            if l == w {
                lemma_under_child(n + l, k);
            }
            if r == w {
                lemma_under_child(n + r, k);
            }
        }
    }
}

/// A tournament tree over the values of its leaves. `peek` gives the value
/// that comes first; among values of equal rank the earliest leaf comes first.
pub struct LoserTree<T> {
    losers: Vec<usize>,
    values: Vec<T>,
}

impl<T: Ranked> View for LoserTree<T> {
    type V = Seq<T>;

    closed spec fn view(&self) -> Seq<T> {
        self.values@
    }
}

/// Whether leaf `a` wins against leaf `b`.
fn leaf_beats<T: Ranked>(values: &Vec<T>, a: usize, b: usize) -> (r: bool)
    requires
        a < values.len(),
        b < values.len(),
    ensures
        r == beats(values@, a as int, b as int),
{
    if values[a].less(&values[b]) {
        true
    } else if values[b].less(&values[a]) {
        false
    } else {
        a <= b
    }
}

impl<T: Ranked> LoserTree<T> {
    /// The leaf recorded as the overall winner.
    pub closed spec fn top(&self) -> int {
        self.losers@[0] as int
    }

    /// Every node records the outcome of its match.
    pub closed spec fn wf(&self) -> bool {
        sifted(self.losers@, self.values@)
    }

    /// The state between a change of the winning leaf's value and the replay
    /// of its matches: every node records an outcome that does not depend on
    /// that value.
    pub closed spec fn adjustable(&self) -> bool {
        replayable(self.losers@, self.values@)
    }

    /// In a well-formed tree the recorded winner wins against every leaf.
    pub proof fn lemma_top_is_min(&self)
        requires
            self.wf(),
            self@.len() > 0,
        ensures
            is_min(self@, self.top()),
    {
        lemma_sifted_top_is_min(self.losers@, self.values@);
    }

    /// Plays the tournament among `values`.
    pub fn new(values: Vec<T>) -> (tree: LoserTree<T>)
        ensures
            tree@ == values@,
            tree.wf(),
    {
        let n: usize = values.len();
        let mut losers: Vec<usize> = Vec::with_capacity(n);
        let mut winners: Vec<usize> = Vec::with_capacity(n);
        let mut i: usize = 0;
        while i < n
            invariant
                i <= n,
                losers@.len() == i,
                winners@.len() == i,
            decreases n - i,
        {
            losers.push(0);
            winners.push(0);
            i += 1;
        }
        let mut k: usize = n;
        while k > 1
            invariant
                n == values.len(),
                losers@.len() == n,
                winners@.len() == n,
                k <= n,
                n > 0 ==> k >= 1,
                forall|m: int| k <= m < n ==> #[trigger] winners@[m] as int == contender(values@, m),
                forall|m: int| k <= m < n ==> #[trigger] losers@[m] as int == loser_at(values@, m),
            decreases k,
        {
            k -= 1;
            let left: usize;
            let right: usize;
            if k >= n - k {
                left = k - (n - k);
                right = left + 1;
            } else {
                left = winners[2 * k];
                right = if 2 * k + 1 < n {
                    winners[2 * k + 1]
                } else {
                    0
                };
            }
            proof {
                lemma_contender_under(values@, 2 * k);
                lemma_contender_under(values@, 2 * k + 1);
                assert(left == contender(values@, 2 * k));
                assert(right == contender(values@, 2 * k + 1));
            }
            if leaf_beats(&values, left, right) {
                winners.set(k, left);
                losers.set(k, right);
            } else {
                winners.set(k, right);
                losers.set(k, left);
            }
        }
        if n > 0 {
            let w: usize = if n > 1 {
                winners[1]
            } else {
                0
            };
            losers.set(0, w);
        }
        proof {
            assert forall|m: int| 1 <= m < n implies #[trigger] losers@[m] as int == loser_at(
                values@,
                m,
            ) by {}
        }
        LoserTree { losers, values }
    }

    /// The number of leaves.
    pub fn len(&self) -> (n: usize)
        ensures
            n == self@.len(),
    {
        self.values.len()
    }

    /// The leaf whose value comes first.
    pub fn top_index(&self) -> (w: usize)
        requires
            self.wf(),
            self@.len() > 0,
        ensures
            w == self.top(),
            is_min(self@, w as int),
    {
        proof {
            self.lemma_top_is_min();
        }
        self.losers[0]
    }

    /// The value that comes first.
    pub fn peek(&self) -> (value: &T)
        requires
            self.wf(),
            self@.len() > 0,
        ensures
            is_min(self@, self.top()),
            *value == self@[self.top()],
    {
        proof {
            self.lemma_top_is_min();
        }
        &self.values[self.losers[0]]
    }

    /// The value that comes first, to be changed in place. The tree is
    /// adjustable afterwards, whatever the value was changed to, and `adjust`
    /// makes it well-formed again.
    pub fn peek_mut(&mut self) -> (value: &mut T)
        requires
            old(self).wf(),
            old(self)@.len() > 0,
        ensures
            is_min(old(self)@, old(self).top()),
            *value == old(self)@[old(self).top()],
            final(self)@ == old(self)@.update(old(self).top(), *final(value)),
            final(self).top() == old(self).top(),
            final(self).adjustable(),
    {
        proof {
            self.lemma_top_is_min();
        }
        let w: usize = self.losers[0];
        let value = &mut self.values[w];
        proof {
            lemma_replayable_after_update(old(self).losers@, old(self).values@, *final(value));
        }
        value
    }

    /// Replays the matches on the path from the leaf `top()` to the root.
    pub fn adjust(&mut self)
        requires
            old(self).adjustable(),
        ensures
            final(self)@ == old(self)@,
            final(self).wf(),
    {
        let n: usize = self.values.len();
        let top: usize = self.losers[0];
        let mut winner: usize = top;
        let mut node: usize = n / 2 + top / 2 + (n % 2 + top % 2) / 2;
        let ghost leaf: int = n + top;
        let ghost child: int = leaf;
        proof {
            assert(node as int == leaf / 2);
            assert forall|k: int| 1 <= k < n && under(leaf, k) implies k <= node by {
                lemma_under_chain(leaf, leaf, k);
            }
        }
        while node != 0
            invariant
                n == self.values@.len(),
                self.values@ == old(self).values@,
                self.losers@.len() == n,
                n > 0,
                top < n,
                leaf == n + top,
                0 <= node < n,
                1 <= child < 2 * n,
                child / 2 == node,
                under(leaf, child),
                winner < n,
                winner as int == contender(self.values@, child),
                forall|k: int|
                    1 <= k < n ==> if under(leaf, k) && k <= node {
                        &&& under(leaf, 2 * k) ==> #[trigger] self.losers@[k] as int == contender(
                            self.values@,
                            2 * k + 1,
                        )
                        &&& under(leaf, 2 * k + 1) ==> self.losers@[k] as int == contender(
                            self.values@,
                            2 * k,
                        )
                    } else {
                        self.losers@[k] as int == loser_at(self.values@, k)
                    },
            decreases node,
        {
            let challenger: usize = self.losers[node];
            proof {
                lemma_under_child(leaf, node as int);
                lemma_under_parent(leaf, node as int);
                lemma_contender_under(self.values@, 2 * node);
                lemma_contender_under(self.values@, 2 * node + 1);
                lemma_beats_order(self.values@, winner as int, challenger as int, 0);
                if winner == challenger {
                    if child == 2 * node {
                        lemma_under_child(n + winner, node as int);
                        lemma_under_parent(n + winner, node as int);
                    } else {
                        lemma_under_child(n + winner, node as int);
                        lemma_under_parent(n + winner, node as int);
                    }
                }
            }
            let ghost before = self.losers@;
            if leaf_beats(&self.values, challenger, winner) {
                self.losers.set(node, winner);
                winner = challenger;
            }
            proof {
                assert(self.losers@[node as int] as int == loser_at(self.values@, node as int));
                assert(winner as int == contender(self.values@, node as int));
                assert forall|k: int| 1 <= k < n && under(leaf, k) && k <= node && k
                    != node implies k <= node / 2 by {
                    lemma_under_chain(leaf, node as int, k);
                }
                assert forall|k: int| 1 <= k < n && k != node implies self.losers@[k]
                    == before[k] by {}
                child = node as int;
            }
            node = node / 2;
        }
        self.losers.set(0, winner);
        proof {
            assert forall|k: int| 1 <= k < n implies #[trigger] self.losers@[k] as int == loser_at(
                self.values@,
                k,
            ) by {}
        }
    }
}

} // verus!
