use std::collections::VecDeque;
use vstd::prelude::*;

verus! {

/// How two child nodes of a Merkle tree combine into their parent.
pub trait Merge {
    type Item: Copy;

    /// The value of a parent whose children are `left` and `right`.
    spec fn spec_merge(left: Self::Item, right: Self::Item) -> Self::Item;

    fn merge(left: &Self::Item, right: &Self::Item) -> (r: Self::Item)
        ensures
            r == Self::spec_merge(*left, *right),
    ;
}

/// Index of the other child of the parent of node `i` (`i >= 1`).
pub open spec fn sibling_of(i: usize) -> usize {
    if i % 2 == 1 {
        (i + 1) as usize
    } else {
        (i - 1) as usize
    }
}

/// Index of the parent of node `i` (`i >= 1`).
pub open spec fn parent_of(i: usize) -> usize {
    ((i - 1) / 2) as usize
}

/// Odd indices are left children.
pub open spec fn is_left_of(i: usize) -> bool {
    i % 2 == 1
}

pub fn sibling(i: usize) -> (r: usize)
    requires
        0 < i < usize::MAX,
    ensures
        r == sibling_of(i),
{
    let j: usize = i + 1;
    let x: usize = j ^ 1usize;
    assert(j & 1 == 0 ==> j ^ 1 == j + 1) by (bit_vector);
    assert(j & 1 == 1 ==> j ^ 1 == j - 1) by (bit_vector);
    assert(j & 1 == 0 || j & 1 == 1) by (bit_vector);
    assert(j & 1 == j % 2) by (bit_vector);
    x - 1
}

pub fn parent(i: usize) -> (r: usize)
    requires
        0 < i,
    ensures
        r == parent_of(i),
{
    let k: usize = i - 1;
    assert(k >> 1 == k / 2) by (bit_vector);
    k >> 1
}

pub fn is_left(i: usize) -> (r: bool)
    ensures
        r == is_left_of(i),
{
    assert(i & 1 == i % 2) by (bit_vector);
    i & 1 == 1
}


/// Value of node `i` of the array tree over `leaves`: leaves sit at
/// `n - 1 .. 2n - 1`, every other node merges its children `2i + 1` and `2i + 2`.
pub open spec fn merkle_node<M: Merge>(leaves: Seq<M::Item>, i: nat) -> M::Item
    decreases 2 * leaves.len() - i,
{
    if i + 1 >= leaves.len() {
        leaves[i - (leaves.len() - 1)]
    } else {
        M::spec_merge(merkle_node::<M>(leaves, 2 * i + 1), merkle_node::<M>(leaves, 2 * i + 2))
    }
}

/// All `2n - 1` nodes of the tree over `leaves`, or none when there is no leaf.
pub open spec fn merkle_nodes<M: Merge>(leaves: Seq<M::Item>) -> Seq<M::Item> {
    if leaves.len() == 0 {
        Seq::empty()
    } else {
        Seq::new((2 * leaves.len() - 1) as nat, |i: int| merkle_node::<M>(leaves, i as nat))
    }
}

/// Root of the tree over `leaves`, absent when there is no leaf.
pub open spec fn merkle_root<M: Merge>(leaves: Seq<M::Item>) -> Option<M::Item> {
    if leaves.len() == 0 {
        None
    } else {
        Some(merkle_node::<M>(leaves, 0))
    }
}

/// Every inner node of `nodes` is the merge of its two children.
pub open spec fn is_merkle_layout<M: Merge>(nodes: Seq<M::Item>) -> bool {
    &&& nodes.len() == 0 || nodes.len() % 2 == 1
    &&& forall|p: int|
        0 <= p < (nodes.len() - 1) / 2 ==> #[trigger] nodes[p] == M::spec_merge(
            nodes[2 * p + 1],
            nodes[2 * p + 2],
        )
}

/// A complete binary Merkle tree kept as a flat array of nodes.
pub struct Tree<M: Merge> {
    nodes: Vec<M::Item>,
}

impl<M: Merge> View for Tree<M> {
    type V = Seq<M::Item>;

    closed spec fn view(&self) -> Seq<M::Item> {
        self.nodes@
    }
}

impl<M: Merge> Tree<M> {
    pub closed spec fn well_formed(&self) -> bool {
        is_merkle_layout::<M>(self.nodes@) && self.nodes@.len() < usize::MAX
    }

    /// Builds the tree over `leaves`; empty when there is no leaf.
    pub fn new(leaves: &[M::Item]) -> (r: Tree<M>)
        requires
            leaves@.len() <= usize::MAX / 2,
        ensures
            r@ == merkle_nodes::<M>(leaves@),
            r.well_formed(),
    {
        let n = leaves.len();
        if n == 0 {
            let r = Tree { nodes: Vec::new() };
            assert(r@ =~= merkle_nodes::<M>(leaves@));
            return r;
        }
        let mut nodes: Vec<M::Item> = Vec::new();
        // inner positions are filled with a placeholder, then overwritten below
        let mut k: usize = 0;
        while k < n - 1
            invariant
                k <= n - 1,
                n == leaves@.len(),
                nodes@.len() == k,
            decreases n - 1 - k,
        {
            nodes.push(leaves[0]);
            k = k + 1;
        }
        let mut k: usize = 0;
        while k < n
            invariant
                k <= n,
                n == leaves@.len(),
                nodes@.len() == n - 1 + k,
                forall|j: int| 0 <= j < k ==> nodes@[n - 1 + j] == leaves@[j],
            decreases n - k,
        {
            nodes.push(leaves[k]);
            k = k + 1;
        }
        let mut i: usize = n - 1;
        while i > 0
            invariant
                i <= n - 1,
                n == leaves@.len(),
                n <= usize::MAX / 2,
                nodes@.len() == 2 * n - 1,
                forall|j: int| n - 1 <= j < 2 * n - 1 ==> nodes@[j] == merkle_node::<M>(leaves@, j as nat),
                forall|j: int| i <= j < n - 1 ==> nodes@[j] == merkle_node::<M>(leaves@, j as nat),
            decreases i,
        {
            i = i - 1;
            let v = M::merge(&nodes[2 * i + 1], &nodes[2 * i + 2]);
            nodes.set(i, v);
        }
        let r = Tree { nodes };
        assert(r@ =~= merkle_nodes::<M>(leaves@));
        assert forall|p: int| 0 <= p < (r@.len() - 1) / 2 implies #[trigger] r@[p] == M::spec_merge(
            r@[2 * p + 1],
            r@[2 * p + 2],
        ) by {
            assert(r@[p] == merkle_node::<M>(leaves@, p as nat));
        }
        r
    }

    /// The root node, absent for an empty tree.
    pub fn root(&self) -> (r: Option<M::Item>)
        ensures
            r == (if self@.len() == 0 { None } else { Some(self@[0]) }),
    {
        if self.nodes.len() == 0 {
            None
        } else {
            Some(self.nodes[0])
        }
    }

    /// Root of the tree over `leaves`, absent when there is no leaf.
    pub fn build_root(leaves: &[M::Item]) -> (r: Option<M::Item>)
        requires
            leaves@.len() <= usize::MAX / 2,
        ensures
            r == merkle_root::<M>(leaves@),
    {
        let t = Tree::<M>::new(leaves);
        t.root()
    }
}


/// Sum over a work queue of `index + 1`: every step of the proof walk lowers it.
pub open spec fn queue_weight<T>(q: Seq<(usize, T)>) -> nat
    decreases q.len(),
{
    if q.len() == 0 {
        0
    } else {
        queue_weight(q.drop_last()) + q.last().0 as nat + 1
    }
}

proof fn lemma_queue_weight_front<T>(q: Seq<(usize, T)>)
    requires
        q.len() > 0,
    ensures
        queue_weight(q) == queue_weight(q.drop_first()) + q[0].0 + 1,
    decreases q.len(),
{
    if q.len() > 1 {
        lemma_queue_weight_front(q.drop_last());
        assert(q.drop_last().drop_first() =~= q.drop_first().drop_last());
    } else {
        assert(q.drop_last() =~= Seq::<(usize, T)>::empty());
        assert(q.drop_first() =~= Seq::<(usize, T)>::empty());
    }
}

proof fn lemma_queue_weight_push<T>(q: Seq<(usize, T)>, x: (usize, T))
    ensures
        queue_weight(q.push(x)) == queue_weight(q) + x.0 + 1,
{
    assert(q.push(x).drop_last() =~= q);
}

/// The value of a parent, from a node at index `i` and the node beside it.
pub open spec fn combine<M: Merge>(i: usize, node: M::Item, sibling: M::Item) -> M::Item {
    if is_left_of(i) {
        M::spec_merge(node, sibling)
    } else {
        M::spec_merge(sibling, node)
    }
}

/// The walk that recomputes a root: take the front node; at the root succeed
/// only when nothing is left over; else pair it with the next queued node when
/// that is its sibling, or with the next lemma, and queue the parent.
pub open spec fn run_root<M: Merge>(queue: Seq<(usize, M::Item)>, lemmas: Seq<M::Item>) -> Option<
    M::Item,
>
    decreases queue_weight(queue),
    via run_root_decreases::<M>
{
    if queue.len() == 0 {
        None
    } else {
        let i = queue[0].0;
        let node = queue[0].1;
        let rest = queue.drop_first();
        if i == 0 {
            if lemmas.len() == 0 && rest.len() == 0 {
                Some(node)
            } else {
                None
            }
        } else if rest.len() > 0 && rest[0].0 == sibling_of(i) {
            run_root::<M>(
                rest.drop_first().push((parent_of(i), combine::<M>(i, node, rest[0].1))),
                lemmas,
            )
        } else if lemmas.len() > 0 {
            run_root::<M>(
                rest.push((parent_of(i), combine::<M>(i, node, lemmas[0]))),
                lemmas.drop_first(),
            )
        } else {
            run_root::<M>(rest, lemmas)
        }
    }
}

#[via_fn]
proof fn run_root_decreases<M: Merge>(queue: Seq<(usize, M::Item)>, lemmas: Seq<M::Item>) {
    if queue.len() > 0 {
        let i = queue[0].0;
        let rest = queue.drop_first();
        lemma_queue_weight_front(queue);
        if i != 0 {
            if rest.len() > 0 {
                lemma_queue_weight_front(rest);
                lemma_queue_weight_push(rest.drop_first(), (parent_of(i), combine::<M>(i, queue[0].1, rest[0].1)));
            }
            if lemmas.len() > 0 {
                lemma_queue_weight_push(rest, (parent_of(i), combine::<M>(i, queue[0].1, lemmas[0])));
            }
        }
    }
}

/// Queue of proved leaves at their node positions, highest index first.
pub open spec fn leaf_queue<M: Merge>(leaves: Seq<(usize, M::Item)>, count: usize) -> Seq<
    (usize, M::Item),
> {
    Seq::new(
        leaves.len(),
        |j: int| (((count - 1) + leaves[leaves.len() - 1 - j].0) as usize, leaves[leaves.len() - 1 - j].1),
    )
}

/// The root that a proof establishes, if it is valid.
pub open spec fn proof_root<M: Merge>(
    leaves: Seq<(usize, M::Item)>,
    lemmas: Seq<M::Item>,
    count: usize,
) -> Option<M::Item> {
    if count == 0 || count > usize::MAX / 2 + 1 || exists|k: int|
        0 <= k < leaves.len() && #[trigger] leaves[k].0 >= count {
        None
    } else {
        run_root::<M>(leaf_queue::<M>(leaves, count), lemmas)
    }
}

/// A proof that some leaves belong to a Merkle tree.
/// For the leaves `[T0, T5]` of a tree over six leaves whose nodes are
/// `[B0, B1, B2, B3, B4, T0, T1, T2, T3, T4, T5]`, the lemmas are `[T4, T1, B3]`.
pub struct Proof<M: Merge> {
    /// proved leaves with their positions, ascending by position
    pub leaves: Vec<(usize, M::Item)>,
    /// sibling nodes that cannot be computed from the leaves, in the order the walk uses them
    pub lemmas: Vec<M::Item>,
    /// number of leaves of the tree
    pub leaves_count: usize,
}

impl<M: Merge> Proof<M> {
    /// Recomputes the root, or `None` where the proof is empty or invalid
    /// (a count of leaves whose tree would not fit in memory is invalid).
    pub fn root(&self) -> (r: Option<M::Item>)
        ensures
            r == proof_root::<M>(self.leaves@, self.lemmas@, self.leaves_count),
    {
        let n = self.leaves_count;
        if n == 0 || n > usize::MAX / 2 + 1 {
            return None;
        }
        let mut k: usize = 0;
        while k < self.leaves.len()
            invariant
                k <= self.leaves@.len(),
                n == self.leaves_count,
                forall|j: int| 0 <= j < k ==> self.leaves@[j].0 < n,
            decreases self.leaves@.len() - k,
        {
            if self.leaves[k].0 >= n {
                assert(self.leaves@[k as int].0 >= n);
                return None;
            }
            k = k + 1;
        }
        let ghost init = leaf_queue::<M>(self.leaves@, n);
        let len = self.leaves.len();
        let mut queue: VecDeque<(usize, M::Item)> = VecDeque::new();
        let mut k: usize = 0;
        while k < len
            invariant
                k <= len,
                len == self.leaves@.len(),
                n == self.leaves_count,
                n <= usize::MAX / 2 + 1,
                forall|j: int| 0 <= j < len ==> self.leaves@[j].0 < n,
                init == leaf_queue::<M>(self.leaves@, n),
                queue@ == init.take(k as int),
            decreases len - k,
        {
            let leaf = self.leaves[len - 1 - k];
            queue.push_back((n - 1 + leaf.0, leaf.1));
            k = k + 1;
            assert(queue@ =~= init.take(k as int));
        }
        assert(queue@ =~= init);
        assert(self.lemmas@.skip(0) =~= self.lemmas@);
        let mut used: usize = 0;
        while queue.len() > 0
            invariant
                n <= usize::MAX / 2 + 1,
                n == self.leaves_count,
                forall|j: int| 0 <= j < self.leaves@.len() ==> self.leaves@[j].0 < n,
                init == leaf_queue::<M>(self.leaves@, n),
                used <= self.lemmas@.len(),
                forall|j: int| 0 <= j < queue@.len() ==> #[trigger] queue@[j].0 <= 2 * n - 2,
                run_root::<M>(queue@, self.lemmas@.skip(used as int)) == run_root::<M>(
                    init,
                    self.lemmas@,
                ),
            decreases queue_weight(queue@),
        {
            let ghost q0 = queue@;
            let ghost rest_lemmas = self.lemmas@.skip(used as int);
            proof {
                lemma_queue_weight_front(q0);
            }
            let (index, node) = queue.pop_front().unwrap();
            assert(queue@ =~= q0.drop_first());
            if index == 0 {
                assert(rest_lemmas.len() == self.lemmas@.len() - used);
                if used == self.lemmas.len() && queue.len() == 0 {
                    return Some(node);
                } else {
                    return None;
                }
            }
            let sib = sibling(index);
            let mut other: Option<M::Item> = None;
            if queue.len() > 0 && queue[0].0 == sib {
                proof {
                    lemma_queue_weight_front(queue@);
                }
                let front = queue.pop_front().unwrap();
                other = Some(front.1);
            } else if used < self.lemmas.len() {
                other = Some(self.lemmas[used]);
                used = used + 1;
                assert(self.lemmas@.skip(used as int) =~= rest_lemmas.drop_first());
            }
            if let Some(s) = other {
                let up = if is_left(index) {
                    M::merge(&node, &s)
                } else {
                    M::merge(&s, &node)
                };
                let p = parent(index);
                proof {
                    lemma_queue_weight_push(queue@, (p, up));
                }
                queue.push_back((p, up));
            }
        }
        None
    }
}


/// Sum over a queue of node indices of `index + 1`.
pub open spec fn index_weight(q: Seq<usize>) -> nat
    decreases q.len(),
{
    if q.len() == 0 {
        0
    } else {
        index_weight(q.drop_last()) + q.last() as nat + 1
    }
}

proof fn lemma_index_weight_front(q: Seq<usize>)
    requires
        q.len() > 0,
    ensures
        index_weight(q) == index_weight(q.drop_first()) + q[0] + 1,
    decreases q.len(),
{
    if q.len() > 1 {
        lemma_index_weight_front(q.drop_last());
        assert(q.drop_last().drop_first() =~= q.drop_first().drop_last());
    } else {
        assert(q.drop_last() =~= Seq::<usize>::empty());
        assert(q.drop_first() =~= Seq::<usize>::empty());
    }
}

proof fn lemma_index_weight_push(q: Seq<usize>, x: usize)
    ensures
        index_weight(q.push(x)) == index_weight(q) + x + 1,
{
    assert(q.push(x).drop_last() =~= q);
}

/// The lemmas that a proof for the queued node indices needs, in the order
/// in which the walk of `run_root` consumes them.
pub open spec fn run_lemmas<T>(nodes: Seq<T>, queue: Seq<usize>) -> Seq<T>
    decreases index_weight(queue),
    via run_lemmas_decreases::<T>
{
    if queue.len() == 0 {
        Seq::empty()
    } else {
        let i = queue[0];
        let rest = queue.drop_first();
        if i == 0 {
            Seq::empty()
        } else if rest.len() > 0 && rest[0] == sibling_of(i) {
            run_lemmas(nodes, rest.drop_first().push(parent_of(i)))
        } else {
            seq![nodes[sibling_of(i) as int]] + run_lemmas(nodes, rest.push(parent_of(i)))
        }
    }
}

#[via_fn]
proof fn run_lemmas_decreases<T>(nodes: Seq<T>, queue: Seq<usize>) {
    if queue.len() > 0 {
        let i = queue[0];
        let rest = queue.drop_first();
        lemma_index_weight_front(queue);
        if i != 0 {
            if rest.len() > 0 {
                lemma_index_weight_front(rest);
                lemma_index_weight_push(rest.drop_first(), parent_of(i));
            }
            lemma_index_weight_push(rest, parent_of(i));
        }
    }
}

/// Node positions of the leaves at `indexes` in a tree of `count` leaves, highest first.
pub open spec fn index_queue(indexes: Seq<usize>, count: usize) -> Seq<usize> {
    Seq::new(indexes.len(), |j: int| ((count - 1) + indexes[indexes.len() - 1 - j]) as usize)
}

/// Number of leaves of a tree with `nodes`.
pub open spec fn leaves_count_of<T>(nodes: Seq<T>) -> usize {
    (nodes.len() / 2 + 1) as usize
}

/// The leaves at `indexes` with their values, as a proof lists them.
pub open spec fn proof_leaves<T>(nodes: Seq<T>, indexes: Seq<usize>) -> Seq<(usize, T)> {
    Seq::new(
        indexes.len(),
        |j: int| (indexes[j], nodes[leaves_count_of(nodes) - 1 + indexes[j]]),
    )
}

/// A proof for `indexes` is refused on an empty tree, on no index, and on an
/// index past the last leaf.
pub open spec fn proof_refused<T>(nodes: Seq<T>, indexes: Seq<usize>) -> bool {
    nodes.len() == 0 || indexes.len() == 0 || exists|k: int|
        0 <= k < indexes.len() && #[trigger] indexes[k] >= leaves_count_of(nodes)
}

impl<M: Merge> Tree<M> {
    /// A proof that the leaves at `leaf_indexes` (ascending) belong to this tree,
    /// or `None` when the tree is empty, no index is given, or an index is past the last leaf.
    pub fn get_proof(&self, leaf_indexes: &[usize]) -> (r: Option<Proof<M>>)
        requires
            self.well_formed(),
        ensures
            r is None <==> proof_refused(self@, leaf_indexes@),
            r matches Some(p) ==> {
                let n = leaves_count_of(self@);
                &&& p.leaves_count == n
                &&& p.leaves@ == proof_leaves(self@, leaf_indexes@)
                &&& p.lemmas@ == run_lemmas(self@, index_queue(leaf_indexes@, n))
            },
    {
        let size = self.nodes.len();
        assert(size >> 1 == size / 2) by (bit_vector);
        let leaves_count = (size >> 1) + 1;
        if self.nodes.len() == 0 || leaf_indexes.len() == 0 {
            return None;
        }
        let mut k: usize = 0;
        let mut leaves: Vec<(usize, M::Item)> = Vec::new();
        while k < leaf_indexes.len()
            invariant
                k <= leaf_indexes@.len(),
                leaves_count == leaves_count_of(self@),
                self@.len() % 2 == 1,
                self@.len() < usize::MAX,
                self@ == self.nodes@,
                forall|j: int| 0 <= j < k ==> leaf_indexes@[j] < leaves_count,
                leaves@ == Seq::new(
                    k as nat,
                    |j: int| (leaf_indexes@[j], self@[leaves_count - 1 + leaf_indexes@[j]]),
                ),
            decreases leaf_indexes@.len() - k,
        {
            let index = leaf_indexes[k];
            if index >= leaves_count {
                assert(leaf_indexes@[k as int] >= leaves_count);
                return None;
            }
            leaves.push((index, self.nodes[leaves_count - 1 + index]));
            k = k + 1;
            assert(leaves@ =~= Seq::new(
                k as nat,
                |j: int| (leaf_indexes@[j], self@[leaves_count - 1 + leaf_indexes@[j]]),
            ));
        }
        let len = leaf_indexes.len();
        let ghost init = index_queue(leaf_indexes@, leaves_count);
        let mut queue: VecDeque<usize> = VecDeque::new();
        let mut k: usize = 0;
        while k < len
            invariant
                k <= len,
                len == leaf_indexes@.len(),
                self@.len() < usize::MAX,
                leaves_count == leaves_count_of(self@),
                forall|j: int| 0 <= j < len ==> leaf_indexes@[j] < leaves_count,
                init == index_queue(leaf_indexes@, leaves_count),
                queue@ == init.take(k as int),
            decreases len - k,
        {
            queue.push_back(leaves_count - 1 + leaf_indexes[len - 1 - k]);
            k = k + 1;
            assert(queue@ =~= init.take(k as int));
        }
        assert(queue@ =~= init);
        let mut lemmas: Vec<M::Item> = Vec::new();
        assert(lemmas@ + run_lemmas(self@, queue@) =~= run_lemmas(self@, init));
        while queue.len() > 0
            invariant_except_break
                lemmas@ + run_lemmas(self@, queue@) == run_lemmas(self@, init),
            invariant
                self@ == self.nodes@,
                self@.len() % 2 == 1,
                self@.len() < usize::MAX,
                leaves_count == leaves_count_of(self@),
                forall|j: int| 0 <= j < queue@.len() ==> #[trigger] queue@[j] < self@.len(),
            ensures
                lemmas@ == run_lemmas(self@, init),
            decreases index_weight(queue@),
        {
            let ghost q0 = queue@;
            proof {
                lemma_index_weight_front(q0);
            }
            let index = queue.pop_front().unwrap();
            assert(queue@ =~= q0.drop_first());
            if index == 0 {
                assert(lemmas@ =~= lemmas@ + run_lemmas(self@, q0));
                break;
            }
            let sib = sibling(index);
            if queue.len() > 0 && queue[0] == sib {
                proof {
                    lemma_index_weight_front(queue@);
                }
                queue.pop_front();
            } else {
                let ghost before = lemmas@;
                lemmas.push(self.nodes[sib]);
                assert(lemmas@ + run_lemmas(self@, queue@.push(parent_of(index))) =~= before + (
                seq![self@[sib as int]] + run_lemmas(self@, queue@.push(parent_of(index)))));
            }
            let p = parent(index);
            proof {
                lemma_index_weight_push(queue@, p);
            }
            queue.push_back(p);
        }
        Some(Proof { leaves, lemmas, leaves_count })
    }
}


/// The queued node indices paired with their node values.
pub open spec fn with_values<T>(nodes: Seq<T>, q: Seq<usize>) -> Seq<(usize, T)> {
    Seq::new(q.len(), |j: int| (q[j], nodes[q[j] as int]))
}

/// A walk queue as the proof walk keeps it: strictly descending, inside the
/// tree, and no index more than twice the smallest one.
pub open spec fn walk_queue<T>(nodes: Seq<T>, q: Seq<usize>) -> bool {
    &&& q.len() > 0
    &&& forall|a: int, b: int| 0 <= a < b < q.len() ==> q[a] > q[b]
    &&& forall|a: int| 0 <= a < q.len() ==> #[trigger] q[a] < nodes.len()
    &&& q[0] <= 2 * q.last()
}

proof fn lemma_merkle_nodes_layout<M: Merge>(leaves: Seq<M::Item>)
    ensures
        is_merkle_layout::<M>(merkle_nodes::<M>(leaves)),
{
    let nodes = merkle_nodes::<M>(leaves);
    assert forall|p: int| 0 <= p < (nodes.len() - 1) / 2 implies #[trigger] nodes[p] == M::spec_merge(
        nodes[2 * p + 1],
        nodes[2 * p + 2],
    ) by {
        assert(nodes[p] == merkle_node::<M>(leaves, p as nat));
    }
}

proof fn lemma_combine_parent<M: Merge>(nodes: Seq<M::Item>, i: usize)
    requires
        is_merkle_layout::<M>(nodes),
        nodes.len() < usize::MAX,
        0 < i < nodes.len(),
    ensures
        sibling_of(i) < nodes.len(),
        parent_of(i) < i,
        combine::<M>(i, nodes[i as int], nodes[sibling_of(i) as int]) == nodes[parent_of(i) as int],
{
    let p = parent_of(i) as int;
    assert(p < (nodes.len() - 1) / 2);
    assert(nodes[p] == M::spec_merge(nodes[2 * p + 1], nodes[2 * p + 2]));
    if i % 2 == 1 {
        assert(i == 2 * p + 1);
        assert(sibling_of(i) == 2 * p + 2);
    } else {
        assert(i == 2 * p + 2);
        assert(sibling_of(i) == 2 * p + 1);
    }
}

proof fn lemma_walk<M: Merge>(nodes: Seq<M::Item>, q: Seq<usize>)
    requires
        is_merkle_layout::<M>(nodes),
        nodes.len() < usize::MAX,
        walk_queue(nodes, q),
    ensures
        run_root::<M>(with_values(nodes, q), run_lemmas(nodes, q)) == Some(nodes[0]),
    decreases index_weight(q),
{
    let vq = with_values(nodes, q);
    let lemmas = run_lemmas(nodes, q);
    let i = q[0];
    let rest = q.drop_first();
    lemma_index_weight_front(q);
    assert(vq.drop_first() =~= with_values(nodes, rest));
    if i == 0 {
        if rest.len() > 0 {
            assert(q[0] > q[1]);
        }
        assert(lemmas.len() == 0);
    } else {
        lemma_combine_parent::<M>(nodes, i);
        let p = parent_of(i);
        let sib = sibling_of(i);
        if rest.len() > 0 && rest[0] == sib {
            let q2 = rest.drop_first().push(p);
            lemma_index_weight_front(rest);
            lemma_index_weight_push(rest.drop_first(), p);
            assert(with_values(nodes, rest).drop_first().push((p, combine::<M>(i, nodes[i as int], nodes[sib as int]))) =~= with_values(nodes, q2));
            assert(walk_queue(nodes, q2)) by {
                if q2.len() > 1 {
                    assert(q2.last() == p);
                    assert(q[q.len() - 1] == q2[q2.len() - 2]);
                    assert(q2[0] == q[2]);
                }
            }
            lemma_walk::<M>(nodes, q2);
        } else {
            let q2 = rest.push(p);
            lemma_index_weight_push(rest, p);
            assert(lemmas[0] == nodes[sib as int]);
            assert(lemmas.drop_first() =~= run_lemmas(nodes, q2));
            assert(with_values(nodes, rest).push((p, combine::<M>(i, nodes[i as int], nodes[sib as int]))) =~= with_values(nodes, q2));
            assert(walk_queue(nodes, q2)) by {
                if q2.len() > 1 {
                    assert(q2.last() == p);
                    assert(q[q.len() - 1] == q2[q2.len() - 2]);
                    assert(q2[0] == q[1]);
                    assert(q[1] < i);
                }
            }
            lemma_walk::<M>(nodes, q2);
        }
    }
}


/// `indexes` is a non-empty strictly ascending list of leaf positions below `count`.
pub open spec fn valid_indexes(indexes: Seq<usize>, count: nat) -> bool {
    &&& indexes.len() > 0
    &&& forall|a: int, b: int| 0 <= a < b < indexes.len() ==> indexes[a] < indexes[b]
    &&& forall|a: int| 0 <= a < indexes.len() ==> #[trigger] indexes[a] < count
}

proof fn lemma_proof_walk<M: Merge>(leaves: Seq<M::Item>, indexes: Seq<usize>)
    requires
        0 < leaves.len() <= usize::MAX / 2,
        valid_indexes(indexes, leaves.len()),
    ensures
        leaves_count_of(merkle_nodes::<M>(leaves)) == leaves.len(),
        !proof_refused(merkle_nodes::<M>(leaves), indexes),
        is_merkle_layout::<M>(merkle_nodes::<M>(leaves)),
        merkle_nodes::<M>(leaves).len() < usize::MAX,
        walk_queue(merkle_nodes::<M>(leaves), index_queue(indexes, leaves.len() as usize)),
        forall|lemmas: Seq<M::Item>|
            #[trigger] proof_root::<M>(
                proof_leaves(merkle_nodes::<M>(leaves), indexes),
                lemmas,
                leaves.len() as usize,
            ) == run_root::<M>(
                with_values(merkle_nodes::<M>(leaves), index_queue(indexes, leaves.len() as usize)),
                lemmas,
            ),
{
    let nodes = merkle_nodes::<M>(leaves);
    let n = leaves.len() as usize;
    let q = index_queue(indexes, n);
    let pl = proof_leaves(nodes, indexes);
    lemma_merkle_nodes_layout::<M>(leaves);
    assert(leaves_count_of(nodes) == n);
    assert(indexes[0] < n);
    assert(!(exists|k: int| 0 <= k < pl.len() && #[trigger] pl[k].0 >= n));
    assert(leaf_queue::<M>(pl, n) =~= with_values(nodes, q));
    assert(walk_queue(nodes, q)) by {
        assert forall|a: int, b: int| 0 <= a < b < q.len() implies q[a] > q[b] by {
            assert(indexes[q.len() - 1 - b] < indexes[q.len() - 1 - a]);
        }
        assert(q[0] == n - 1 + indexes[indexes.len() - 1]);
        assert(q.last() == n - 1 + indexes[0]);
    }
}

/// A proof that `Tree::get_proof` makes for valid indexes recomputes, with
/// `Proof::root`, the root of the tree.
pub proof fn lemma_proof_root_is_tree_root<M: Merge>(leaves: Seq<M::Item>, indexes: Seq<usize>)
    requires
        0 < leaves.len() <= usize::MAX / 2,
        valid_indexes(indexes, leaves.len()),
    ensures
        !proof_refused(merkle_nodes::<M>(leaves), indexes),
        leaves_count_of(merkle_nodes::<M>(leaves)) == leaves.len(),
        proof_root::<M>(
            proof_leaves(merkle_nodes::<M>(leaves), indexes),
            run_lemmas(merkle_nodes::<M>(leaves), index_queue(indexes, leaves.len() as usize)),
            leaves.len() as usize,
        ) == merkle_root::<M>(leaves),
{
    let nodes = merkle_nodes::<M>(leaves);
    let q = index_queue(indexes, leaves.len() as usize);
    lemma_proof_walk::<M>(leaves, indexes);
    lemma_walk::<M>(nodes, q);
    assert(proof_root::<M>(proof_leaves(nodes, indexes), run_lemmas(nodes, q), leaves.len() as usize)
        == run_root::<M>(with_values(nodes, q), run_lemmas(nodes, q)));
    assert(nodes[0] == merkle_node::<M>(leaves, 0));
}

/// A proof over no leaves has no root, whatever it holds.
pub proof fn lemma_no_leaves_no_root<M: Merge>(leaves: Seq<(usize, M::Item)>, lemmas: Seq<M::Item>)
    ensures
        proof_root::<M>(leaves, lemmas, 0) is None,
{
}


/// Number of leaves below node `x` of the array tree over `n` leaves.
pub open spec fn leaves_below(n: nat, x: nat) -> nat
    decreases 2 * n - x,
{
    if x + 1 >= n {
        1
    } else {
        leaves_below(n, 2 * x + 1) + leaves_below(n, 2 * x + 2)
    }
}

/// Sum of `leaves_below` over the nodes `a .. b`.
pub open spec fn leaves_in_range(n: nat, a: nat, b: nat) -> nat
    decreases b - a,
{
    if b <= a {
        0
    } else {
        leaves_in_range(n, a, (b - 1) as nat) + leaves_below(n, (b - 1) as nat)
    }
}

proof fn lemma_leaves_below_positive(n: nat, x: nat)
    ensures
        leaves_below(n, x) >= 1,
    decreases 2 * n - x,
{
    if x + 1 < n {
        lemma_leaves_below_positive(n, 2 * x + 1);
    }
}

proof fn lemma_range_split(n: nat, a: nat, b: nat, c: nat)
    requires
        a <= b <= c,
    ensures
        leaves_in_range(n, a, c) == leaves_in_range(n, a, b) + leaves_in_range(n, b, c),
    decreases c - b,
{
    if b < c {
        lemma_range_split(n, a, b, (c - 1) as nat);
    }
}

proof fn lemma_range_of_leaves(n: nat, a: nat, b: nat)
    requires
        n >= 1,
        n - 1 <= a <= b,
    ensures
        leaves_in_range(n, a, b) == b - a,
    decreases b - a,
{
    if a < b {
        lemma_range_of_leaves(n, a, (b - 1) as nat);
    }
}

/// The band of nodes `m ..= 2m` covers every leaf once.
proof fn lemma_band(n: nat, m: nat)
    requires
        n >= 1,
        m <= n - 1,
    ensures
        leaves_in_range(n, m, 2 * m + 1) == n,
    decreases n - 1 - m,
{
    if m == n - 1 {
        lemma_range_of_leaves(n, m, 2 * m + 1);
    } else {
        let k = m + 1;
        lemma_band(n, k);
        lemma_range_split(n, m, k, 2 * m + 1);
        lemma_range_split(n, k, 2 * m + 1, 2 * k + 1);
        assert(leaves_in_range(n, m, m) == 0);
        assert(leaves_in_range(n, m, k) == leaves_below(n, m));
        assert(leaves_in_range(n, 2 * m + 1, 2 * m + 1) == 0);
        assert(leaves_in_range(n, 2 * m + 1, 2 * m + 2) == leaves_below(n, 2 * m + 1));
        assert(leaves_in_range(n, 2 * m + 1, 2 * m + 3) == leaves_below(n, 2 * m + 1) + leaves_below(
            n,
            2 * m + 2,
        ));
        assert(leaves_below(n, m) == leaves_below(n, 2 * m + 1) + leaves_below(n, 2 * m + 2));
    }
}

/// The root covers every leaf.
proof fn lemma_root_covers(n: nat)
    requires
        n >= 1,
    ensures
        leaves_below(n, 0) == n,
{
    lemma_band(n, 0);
    assert(leaves_in_range(n, 0, 0) == 0);
}

/// Sum of `leaves_below` over the nodes of a queue.
pub open spec fn queue_cover<T>(n: nat, q: Seq<(usize, T)>) -> nat
    decreases q.len(),
{
    if q.len() == 0 {
        0
    } else {
        queue_cover(n, q.drop_last()) + leaves_below(n, q.last().0 as nat)
    }
}

proof fn lemma_queue_cover_front<T>(n: nat, q: Seq<(usize, T)>)
    requires
        q.len() > 0,
    ensures
        queue_cover(n, q) == queue_cover(n, q.drop_first()) + leaves_below(n, q[0].0 as nat),
    decreases q.len(),
{
    if q.len() > 1 {
        lemma_queue_cover_front(n, q.drop_last());
        assert(q.drop_last().drop_first() =~= q.drop_first().drop_last());
    } else {
        assert(q.drop_first() =~= Seq::<(usize, T)>::empty());
        assert(q.drop_last() =~= Seq::<(usize, T)>::empty());
    }
}

proof fn lemma_queue_cover_push<T>(n: nat, q: Seq<(usize, T)>, x: (usize, T))
    ensures
        queue_cover(n, q.push(x)) == queue_cover(n, q) + leaves_below(n, x.0 as nat),
{
    assert(q.push(x).drop_last() =~= q);
}

/// Without lemmas a walk reaches the root only from nodes that together cover
/// every leaf at least once.
proof fn lemma_no_lemmas_need_cover<M: Merge>(n: nat, queue: Seq<(usize, M::Item)>)
    requires
        n >= 1,
        2 * n - 1 < usize::MAX,
        forall|j: int| 0 <= j < queue.len() ==> #[trigger] queue[j].0 < 2 * n - 1,
        run_root::<M>(queue, Seq::empty()) is Some,
    ensures
        queue_cover(n, queue) >= n,
    decreases queue_weight(queue),
{
    let i = queue[0].0;
    let rest = queue.drop_first();
    lemma_queue_weight_front(queue);
    lemma_queue_cover_front(n, queue);
    if i == 0 {
        lemma_root_covers(n);
    } else if rest.len() > 0 && rest[0].0 == sibling_of(i) {
        let p = parent_of(i);
        let q2 = rest.drop_first().push((p, combine::<M>(i, queue[0].1, rest[0].1)));
        lemma_queue_weight_front(rest);
        lemma_queue_weight_push(rest.drop_first(), (p, combine::<M>(i, queue[0].1, rest[0].1)));
        lemma_queue_cover_front(n, rest);
        lemma_queue_cover_push(n, rest.drop_first(), (p, combine::<M>(i, queue[0].1, rest[0].1)));
        assert(p < n - 1);
        if i % 2 == 1 {
            assert(i == 2 * p + 1);
        } else {
            assert(i == 2 * p + 2);
        }
        assert(leaves_below(n, p as nat) == leaves_below(n, i as nat) + leaves_below(n, sibling_of(i) as nat));
        lemma_no_lemmas_need_cover::<M>(n, q2);
    } else {
        lemma_leaves_below_positive(n, i as nat);
        lemma_no_lemmas_need_cover::<M>(n, rest);
    }
}

/// The nodes of a walk queue and the lemmas that it still needs cover at most every leaf.
proof fn lemma_walk_cover<M: Merge>(nodes: Seq<M::Item>, q: Seq<usize>, vq: Seq<(usize, M::Item)>)
    requires
        is_merkle_layout::<M>(nodes),
        nodes.len() < usize::MAX,
        walk_queue(nodes, q),
        vq.len() == q.len(),
        forall|j: int| 0 <= j < q.len() ==> #[trigger] vq[j].0 == q[j],
    ensures
        queue_cover(leaves_count_of(nodes) as nat, vq) + run_lemmas(nodes, q).len() <= leaves_count_of(
            nodes,
        ),
    decreases index_weight(q),
{
    let n = leaves_count_of(nodes) as nat;
    let i = q[0];
    let rest = q.drop_first();
    lemma_index_weight_front(q);
    lemma_queue_cover_front(n, vq);
    if i == 0 {
        if rest.len() > 0 {
            assert(q[0] > q[1]);
        }
        lemma_root_covers(n);
        assert(vq.drop_first().len() == 0);
    } else {
        lemma_combine_parent::<M>(nodes, i);
        let p = parent_of(i);
        let sib = sibling_of(i);
        assert(p < n - 1);
        if i % 2 == 1 {
            assert(i == 2 * p + 1);
        } else {
            assert(i == 2 * p + 2);
        }
        assert(leaves_below(n, p as nat) == leaves_below(n, i as nat) + leaves_below(n, sib as nat));
        let x = (p, vq[0].1);
        if rest.len() > 0 && rest[0] == sib {
            let q2 = rest.drop_first().push(p);
            let vq2 = vq.drop_first().drop_first().push(x);
            lemma_index_weight_front(rest);
            lemma_index_weight_push(rest.drop_first(), p);
            lemma_queue_cover_front(n, vq.drop_first());
            lemma_queue_cover_push(n, vq.drop_first().drop_first(), x);
            assert(walk_queue(nodes, q2)) by {
                if q2.len() > 1 {
                    assert(q2.last() == p);
                    assert(q[q.len() - 1] == q2[q2.len() - 2]);
                    assert(q2[0] == q[2]);
                }
            }
            lemma_walk_cover::<M>(nodes, q2, vq2);
        } else {
            let q2 = rest.push(p);
            let vq2 = vq.drop_first().push(x);
            lemma_index_weight_push(rest, p);
            lemma_queue_cover_push(n, vq.drop_first(), x);
            lemma_leaves_below_positive(n, sib as nat);
            assert(walk_queue(nodes, q2)) by {
                if q2.len() > 1 {
                    assert(q2.last() == p);
                    assert(q[q.len() - 1] == q2[q2.len() - 2]);
                    assert(q2[0] == q[1]);
                    assert(q[1] < i);
                }
            }
            lemma_walk_cover::<M>(nodes, q2, vq2);
        }
    }
}


proof fn lemma_walk_short<M: Merge>(
    nodes: Seq<M::Item>,
    q: Seq<usize>,
    vq: Seq<(usize, M::Item)>,
    lemmas: Seq<M::Item>,
)
    requires
        is_merkle_layout::<M>(nodes),
        nodes.len() < usize::MAX,
        walk_queue(nodes, q),
        vq.len() == q.len(),
        forall|j: int| 0 <= j < q.len() ==> #[trigger] vq[j].0 == q[j],
        lemmas.len() < run_lemmas(nodes, q).len(),
    ensures
        run_root::<M>(vq, lemmas) is None,
    decreases index_weight(q),
{
    let n = leaves_count_of(nodes) as nat;
    let i = q[0];
    let rest = q.drop_first();
    let vrest = vq.drop_first();
    lemma_index_weight_front(q);
    assert(vq[0].0 == i);
    assert(vrest.len() == rest.len());
    assert(forall|j: int| 0 <= j < rest.len() ==> vrest[j].0 == #[trigger] rest[j]);
    if i == 0 {
        assert(run_lemmas(nodes, q).len() == 0);
    } else {
        lemma_combine_parent::<M>(nodes, i);
        let p = parent_of(i);
        let sib = sibling_of(i);
        if rest.len() > 0 && rest[0] == sib {
            assert(vrest[0].0 == sib);
            let q2 = rest.drop_first().push(p);
            let vq2 = vrest.drop_first().push((p, combine::<M>(i, vq[0].1, vrest[0].1)));
            lemma_index_weight_front(rest);
            lemma_index_weight_push(rest.drop_first(), p);
            assert(walk_queue(nodes, q2)) by {
                if q2.len() > 1 {
                    assert(q2.last() == p);
                    assert(q[q.len() - 1] == q2[q2.len() - 2]);
                    assert(q2[0] == q[2]);
                }
            }
            assert(run_lemmas(nodes, q) == run_lemmas(nodes, q2));
            assert(run_root::<M>(vq, lemmas) == run_root::<M>(vq2, lemmas));
            lemma_walk_short::<M>(nodes, q2, vq2, lemmas);
        } else {
            let q2 = rest.push(p);
            assert(run_lemmas(nodes, q) == seq![nodes[sib as int]] + run_lemmas(nodes, q2));
            lemma_index_weight_push(rest, p);
            assert(walk_queue(nodes, q2)) by {
                if q2.len() > 1 {
                    assert(q2.last() == p);
                    assert(q[q.len() - 1] == q2[q2.len() - 2]);
                    assert(q2[0] == q[1]);
                    assert(q[1] < i);
                }
            }
            if lemmas.len() > 0 {
                let vq2 = vrest.push((p, combine::<M>(i, vq[0].1, lemmas[0])));
                assert(run_root::<M>(vq, lemmas) == run_root::<M>(vq2, lemmas.drop_first()));
                lemma_walk_short::<M>(nodes, q2, vq2, lemmas.drop_first());
            } else {
                lemma_walk_cover::<M>(nodes, q, vq);
                lemma_queue_cover_front(n, vq);
                lemma_leaves_below_positive(n, i as nat);
                assert(lemmas =~= Seq::<M::Item>::empty());
                assert(run_root::<M>(vq, lemmas) == run_root::<M>(vrest, Seq::empty()));
                if run_root::<M>(vrest, Seq::empty()) is Some {
                    lemma_no_lemmas_need_cover::<M>(n, vrest);
                }
            }
        }
    }
}

/// A proof that lacks any of the lemmas that `Tree::get_proof` gives for valid
/// indexes (fewer lemmas, whatever their values) has no root.
pub proof fn lemma_missing_lemmas_give_no_root<M: Merge>(
    leaves: Seq<M::Item>,
    indexes: Seq<usize>,
    lemmas: Seq<M::Item>,
)
    requires
        0 < leaves.len() <= usize::MAX / 2,
        valid_indexes(indexes, leaves.len()),
        lemmas.len() < run_lemmas(merkle_nodes::<M>(leaves), index_queue(indexes, leaves.len() as usize)).len(),
    ensures
        proof_root::<M>(
            proof_leaves(merkle_nodes::<M>(leaves), indexes),
            lemmas,
            leaves.len() as usize,
        ) is None,
{
    let nodes = merkle_nodes::<M>(leaves);
    let q = index_queue(indexes, leaves.len() as usize);
    lemma_proof_walk::<M>(leaves, indexes);
    assert(proof_root::<M>(proof_leaves(nodes, indexes), lemmas, leaves.len() as usize)
        == run_root::<M>(with_values(nodes, q), lemmas));
    lemma_walk_short::<M>(nodes, q, with_values(nodes, q), lemmas);
}


proof fn lemma_walk_long<M: Merge>(
    nodes: Seq<M::Item>,
    q: Seq<usize>,
    vq: Seq<(usize, M::Item)>,
    lemmas: Seq<M::Item>,
)
    requires
        is_merkle_layout::<M>(nodes),
        nodes.len() < usize::MAX,
        walk_queue(nodes, q),
        vq.len() == q.len(),
        forall|j: int| 0 <= j < q.len() ==> #[trigger] vq[j].0 == q[j],
        lemmas.len() > run_lemmas(nodes, q).len(),
    ensures
        run_root::<M>(vq, lemmas) is None,
    decreases index_weight(q),
{
    let i = q[0];
    let rest = q.drop_first();
    let vrest = vq.drop_first();
    lemma_index_weight_front(q);
    assert(vq[0].0 == i);
    assert(vrest.len() == rest.len());
    assert(forall|j: int| 0 <= j < rest.len() ==> vrest[j].0 == #[trigger] rest[j]);
    if i != 0 {
        lemma_combine_parent::<M>(nodes, i);
        let p = parent_of(i);
        let sib = sibling_of(i);
        if rest.len() > 0 && rest[0] == sib {
            assert(vrest[0].0 == sib);
            let q2 = rest.drop_first().push(p);
            let vq2 = vrest.drop_first().push((p, combine::<M>(i, vq[0].1, vrest[0].1)));
            lemma_index_weight_front(rest);
            lemma_index_weight_push(rest.drop_first(), p);
            assert(walk_queue(nodes, q2)) by {
                if q2.len() > 1 {
                    assert(q2.last() == p);
                    assert(q[q.len() - 1] == q2[q2.len() - 2]);
                    assert(q2[0] == q[2]);
                }
            }
            assert(run_lemmas(nodes, q) == run_lemmas(nodes, q2));
            assert(run_root::<M>(vq, lemmas) == run_root::<M>(vq2, lemmas));
            lemma_walk_long::<M>(nodes, q2, vq2, lemmas);
        } else {
            let q2 = rest.push(p);
            assert(run_lemmas(nodes, q) == seq![nodes[sib as int]] + run_lemmas(nodes, q2));
            lemma_index_weight_push(rest, p);
            assert(walk_queue(nodes, q2)) by {
                if q2.len() > 1 {
                    assert(q2.last() == p);
                    assert(q[q.len() - 1] == q2[q2.len() - 2]);
                    assert(q2[0] == q[1]);
                    assert(q[1] < i);
                }
            }
            let vq2 = vrest.push((p, combine::<M>(i, vq[0].1, lemmas[0])));
            assert(run_root::<M>(vq, lemmas) == run_root::<M>(vq2, lemmas.drop_first()));
            lemma_walk_long::<M>(nodes, q2, vq2, lemmas.drop_first());
        }
    } else if rest.len() > 0 {
        assert(q[0] > q[1]);
    }
}

/// A proof that holds more lemmas than `Tree::get_proof` gives for valid
/// indexes (an extra one anywhere, whatever the values) has no root.
pub proof fn lemma_extra_lemmas_give_no_root<M: Merge>(
    leaves: Seq<M::Item>,
    indexes: Seq<usize>,
    lemmas: Seq<M::Item>,
)
    requires
        0 < leaves.len() <= usize::MAX / 2,
        valid_indexes(indexes, leaves.len()),
        lemmas.len() > run_lemmas(merkle_nodes::<M>(leaves), index_queue(indexes, leaves.len() as usize)).len(),
    ensures
        proof_root::<M>(
            proof_leaves(merkle_nodes::<M>(leaves), indexes),
            lemmas,
            leaves.len() as usize,
        ) is None,
{
    let nodes = merkle_nodes::<M>(leaves);
    let q = index_queue(indexes, leaves.len() as usize);
    lemma_proof_walk::<M>(leaves, indexes);
    assert(proof_root::<M>(proof_leaves(nodes, indexes), lemmas, leaves.len() as usize)
        == run_root::<M>(with_values(nodes, q), lemmas));
    lemma_walk_long::<M>(nodes, q, with_values(nodes, q), lemmas);
}

} // verus!
