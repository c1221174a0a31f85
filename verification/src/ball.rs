//! The recursive tree cell: a leaf holding one key/value pair, or a branch
//! holding a bounding ball over two non-empty children.

use vstd::prelude::*;
use vstd::seq_lib::lemma_multiset_commutative;
use crate::metric::{HasMeasurableDiff, MAX_DIFF};

verus! {

/// A node of the ball tree: either a single stored pair, or a bounding ball
/// (centre key, radius, leaf count) over two children.
pub enum Ball<K, V> {
    Leaf { key: K, val: V },
    Branch {
        key: K,
        radius: u64,
        size: u32,
        left: Box<Ball<K, V>>,
        right: Box<Ball<K, V>>,
    },
}

impl<K, V> Ball<K, V> {
    /// Number of leaves in this subtree, as a mathematical function.
    pub open spec fn size_spec(self) -> int
        decreases self,
    {
        match self {
            Ball::Leaf { .. } => 1,
            Ball::Branch { left, right, .. } => left.size_spec() + right.size_spec(),
        }
    }

    /// The key/value pairs stored at the leaves, left to right.
    pub open spec fn pairs(self) -> Seq<(K, V)>
        decreases self,
    {
        match self {
            Ball::Leaf { key, val } => seq![(key, val)],
            Ball::Branch { left, right, .. } => left.pairs() + right.pairs(),
        }
    }

    /// The centre of this node's bounding ball; a leaf's centre is its key.
    pub open spec fn key_spec(self) -> K {
        match self {
            Ball::Leaf { key, .. } => key,
            Ball::Branch { key, .. } => key,
        }
    }

    /// The radius of this node's bounding ball; a leaf's radius is zero.
    pub open spec fn radius_spec(self) -> u64 {
        match self {
            Ball::Leaf { .. } => 0,
            Ball::Branch { radius, .. } => radius,
        }
    }

    /// Well-formedness: every branch's stored size is the sum of its
    /// children's leaf counts, and every radius is small enough that merging
    /// two well-formed balls cannot overflow `u64` arithmetic.
    pub open spec fn wf(self) -> bool
        decreases self,
    {
        match self {
            Ball::Leaf { .. } => true,
            Ball::Branch { radius, size, left, right, .. } => {
                &&& size as int == left.size_spec() + right.size_spec()
                &&& radius as int <= (2 * (size as int) - 1) * (MAX_DIFF as int)
                &&& left.wf()
                &&& right.wf()
            },
        }
    }

    /// A well-formed ball holds at least one leaf, its pair sequence has one
    /// entry per leaf, and its radius is bounded by its leaf count.
    pub proof fn lemma_wf_bounds(self)
        requires
            self.wf(),
        ensures
            self.size_spec() >= 1,
            self.pairs().len() == self.size_spec(),
            self.radius_spec() as int <= (2 * self.size_spec() - 1) * (MAX_DIFF as int),
        decreases self,
    {
        match self {
            Ball::Leaf { .. } => {},
            Ball::Branch { left, right, .. } => {
                left.lemma_wf_bounds();
                right.lemma_wf_bounds();
            },
        }
    }

    /// Creates a leaf node holding one pair.
    pub fn new(key: K, val: V) -> (b: Self)
        ensures
            b == (Ball::Leaf { key, val }),
    {
        Ball::Leaf { key, val }
    }

    /// The centre key of this node's bounding ball.
    pub fn key(&self) -> (k: &K)
        ensures
            *k == self.key_spec(),
    {
        match self {
            Ball::Leaf { key, .. } => key,
            Ball::Branch { key, .. } => key,
        }
    }

    /// The centre key and radius of this node's bounding ball.
    pub(crate) fn get_key_and_radius(&self) -> (r: (&K, u64))
        ensures
            *r.0 == self.key_spec(),
            r.1 == self.radius_spec(),
    {
        match self {
            Ball::Leaf { key, .. } => (key, 0),
            Ball::Branch { key, radius, .. } => (key, *radius),
        }
    }

    /// The number of leaves in this subtree.
    pub(crate) fn size(&self) -> (s: u32)
        requires
            self.wf(),
        ensures
            s as int == self.size_spec(),
    {
        match self {
            Ball::Leaf { .. } => 1,
            Ball::Branch { size, .. } => *size,
        }
    }

    /// Collects every stored pair of this subtree, left to right.
    pub(crate) fn flatten_node(&self) -> (r: Vec<(&K, &V)>)
        ensures
            deref_pairs(r@) == self.pairs(),
        decreases self,
    {
        match self {
            Ball::Leaf { key, val } => {
                let mut r: Vec<(&K, &V)> = Vec::new();
                r.push((key, val));
                proof {
                    assert(deref_pairs(r@) =~= self.pairs());
                }
                r
            },
            Ball::Branch { left, right, .. } => {
                let mut r = left.flatten_node();
                let mut r2 = right.flatten_node();
                let ghost r_seq = r@;
                let ghost r2_seq = r2@;
                r.append(&mut r2);
                proof {
                    assert(deref_pairs(r@) =~= deref_pairs(r_seq) + deref_pairs(r2_seq));
                }
                r
            },
        }
    }

    /// Whether this node is a leaf.
    pub(crate) fn is_leaf(&self) -> (b: bool)
        ensures
            b == (self is Leaf),
    {
        match self {
            Ball::Leaf { .. } => true,
            Ball::Branch { .. } => false,
        }
    }
}

impl<K: HasMeasurableDiff, V> Ball<K, V> {
    /// The candidate pairs a nearest-neighbour traversal of this subtree
    /// selects, before sorting: a leaf offers its pair; a branch follows the
    /// child whose centre is nearer to the query, taking that whole subtree
    /// plus the remainder of the quota from the farther child once the
    /// nearer one alone cannot fill it.
    pub open spec fn search_spec(self, q: K, limit: int) -> Seq<(K, V)>
        decreases self,
    {
        match self {
            Ball::Leaf { key, val } => seq![(key, val)],
            Ball::Branch { left, right, .. } => {
                let go_left = left.key_spec().diff_spec(q) <= right.key_spec().diff_spec(q);
                let closest = if go_left { left } else { right };
                let furthest = if go_left { right } else { left };
                if closest.size_spec() < limit {
                    closest.search_spec(q, closest.size_spec()) + furthest.search_spec(
                        q,
                        limit - closest.size_spec(),
                    )
                } else {
                    closest.search_spec(q, limit)
                }
            },
        }
    }

    /// The containment property: every branch's bounding ball reaches every
    /// key stored below it. Incremental construction maintains this only as
    /// far as the metric capability's midpoint earns it, so it is checked,
    /// not assumed.
    pub open spec fn covers_descendants(self) -> bool
        decreases self,
    {
        match self {
            Ball::Leaf { .. } => true,
            Ball::Branch { key, radius, left, right, .. } => {
                &&& (forall|i: int|
                    0 <= i < left.pairs().len() ==> key.diff_spec(
                        (#[trigger] left.pairs()[i]).0,
                    ) <= radius)
                &&& (forall|i: int|
                    0 <= i < right.pairs().len() ==> key.diff_spec(
                        (#[trigger] right.pairs()[i]).0,
                    ) <= radius)
                &&& left.covers_descendants()
                &&& right.covers_descendants()
            },
        }
    }

    /// Local ball coverage: each branch's radius reaches past each child's
    /// whole ball, that is, past the child's centre by the child's radius.
    pub open spec fn locally_covering(self) -> bool
        decreases self,
    {
        match self {
            Ball::Leaf { .. } => true,
            Ball::Branch { key, radius, left, right, .. } => {
                &&& key.diff_spec(left.key_spec()) + left.radius_spec() <= radius
                &&& key.diff_spec(right.key_spec()) + right.radius_spec() <= radius
                &&& left.locally_covering()
                &&& right.locally_covering()
            },
        }
    }

    /// The containment law: when the metric satisfies the triangle
    /// inequality, a tree whose every branch locally covers its children's
    /// balls contains every stored key in every enclosing ball. Incremental
    /// construction earns local coverage only as far as the midpoint
    /// operation balances each merged ball, and a rounded metric can miss
    /// the triangle inequality by its rounding, so this stands as a
    /// conditional law, not an unconditional invariant.
    pub proof fn lemma_containment(self)
        requires
            forall|x: K, y: K, z: K|
                #![trigger x.diff_spec(y), y.diff_spec(z)]
                x.diff_spec(z) <= x.diff_spec(y) + y.diff_spec(z),
            self.locally_covering(),
        ensures
            self.covers_descendants(),
            forall|i: int|
                0 <= i < self.pairs().len() ==> self.key_spec().diff_spec(
                    (#[trigger] self.pairs()[i]).0,
                ) <= self.radius_spec(),
        decreases self,
    {
        match self {
            Ball::Leaf { key, .. } => {
                HasMeasurableDiff::diff_identity(key);
                assert(self.pairs()[0].0 == key);
            },
            Ball::Branch { key, radius, left, right, .. } => {
                left.lemma_containment();
                right.lemma_containment();
                assert forall|i: int| 0 <= i < self.pairs().len() implies key.diff_spec(
                    (#[trigger] self.pairs()[i]).0,
                ) <= radius by {
                    let k = self.pairs()[i].0;
                    if i < left.pairs().len() {
                        assert(k == left.pairs()[i].0);
                        assert(key.diff_spec(k) <= key.diff_spec(left.key_spec())
                            + left.key_spec().diff_spec(k));
                    } else {
                        assert(k == right.pairs()[i - left.pairs().len()].0);
                        assert(key.diff_spec(k) <= key.diff_spec(right.key_spec())
                            + right.key_spec().diff_spec(k));
                    }
                }
            },
        }
    }

    /// The bounding-ball merge property: when the metric satisfies the
    /// triangle inequality, each input ball covers its own contents, and the
    /// merged ball's radius reaches past each input ball, the merged ball
    /// covers every key of both inputs. The radius the merge records reaches
    /// past the first input's ball by construction; how far it reaches past
    /// the second is what the capability's midpoint earns.
    pub proof fn lemma_merge_covers(b1: Self, b2: Self, b: Self)
        requires
            forall|x: K, y: K, z: K|
                #![trigger x.diff_spec(y), y.diff_spec(z)]
                x.diff_spec(z) <= x.diff_spec(y) + y.diff_spec(z),
            b is Branch,
            *b->left == b1,
            *b->right == b2,
            forall|i: int|
                0 <= i < b1.pairs().len() ==> b1.key_spec().diff_spec(
                    (#[trigger] b1.pairs()[i]).0,
                ) <= b1.radius_spec(),
            forall|i: int|
                0 <= i < b2.pairs().len() ==> b2.key_spec().diff_spec(
                    (#[trigger] b2.pairs()[i]).0,
                ) <= b2.radius_spec(),
            b.key_spec().diff_spec(b1.key_spec()) + b1.radius_spec() <= b.radius_spec(),
            b.key_spec().diff_spec(b2.key_spec()) + b2.radius_spec() <= b.radius_spec(),
        ensures
            forall|i: int|
                0 <= i < b.pairs().len() ==> b.key_spec().diff_spec(
                    (#[trigger] b.pairs()[i]).0,
                ) <= b.radius_spec(),
    {
        assert(b.pairs() == b1.pairs() + b2.pairs());
        assert forall|i: int| 0 <= i < b.pairs().len() implies b.key_spec().diff_spec(
            (#[trigger] b.pairs()[i]).0,
        ) <= b.radius_spec() by {
            let k = b.pairs()[i].0;
            if i < b1.pairs().len() {
                assert(k == b1.pairs()[i].0);
                assert(b.key_spec().diff_spec(k) <= b.key_spec().diff_spec(b1.key_spec())
                    + b1.key_spec().diff_spec(k));
            } else {
                assert(k == b2.pairs()[i - b1.pairs().len()].0);
                assert(b.key_spec().diff_spec(k) <= b.key_spec().diff_spec(b2.key_spec())
                    + b2.key_spec().diff_spec(k));
            }
        }
    }

    /// Decides the containment property by walking the tree and measuring
    /// every stored key against every enclosing ball.
    pub fn check_containment(&self) -> (ok: bool)
        ensures
            ok == self.covers_descendants(),
        decreases self,
    {
        match self {
            Ball::Leaf { .. } => true,
            Ball::Branch { key, radius, left, right, .. } => {
                let left_pairs = left.flatten_node();
                if !all_within(key, *radius, &left_pairs) {
                    return false;
                }
                let right_pairs = right.flatten_node();
                if !all_within(key, *radius, &right_pairs) {
                    return false;
                }
                left.check_containment() && right.check_containment()
            },
        }
    }
}

/// Decides whether every key of the list lies within `radius` of `key`.
fn all_within<K: HasMeasurableDiff, V>(key: &K, radius: u64, list: &Vec<(&K, &V)>) -> (ok: bool)
    ensures
        ok == (forall|i: int|
            0 <= i < deref_pairs(list@).len() ==> (*key).diff_spec(
                (#[trigger] deref_pairs(list@)[i]).0,
            ) <= radius),
{
    let mut i: usize = 0;
    while i < list.len()
        invariant
            i <= list@.len(),
            forall|t: int|
                0 <= t < i ==> (*key).diff_spec((#[trigger] deref_pairs(list@)[t]).0) <= radius,
        decreases list@.len() - i,
    {
        let p = list[i];
        let d = key.difference(p.0);
        if d > radius {
            proof {
                assert(deref_pairs(list@)[i as int].0 == *p.0);
            }
            return false;
        }
        i = i + 1;
    }
    true
}

/// The sequence of pairs behind a sequence of borrowed pairs.
pub open spec fn deref_pairs<K, V>(s: Seq<(&K, &V)>) -> Seq<(K, V)> {
    Seq::new(s.len(), |i: int| (*s[i].0, *s[i].1))
}

impl<K: HasMeasurableDiff + Sync, V: Sync> Ball<K, V> {
    /// Collects up to `limit` candidate pairs for a nearest-neighbour query:
    /// descends toward the child whose centre is nearer to the search key;
    /// once the nearer child alone is too small to fill the quota, searches
    /// both children concurrently — the whole nearer subtree plus the
    /// remainder of the quota from the farther one — and concatenates.
    pub(crate) fn nn_search_node(&self, search_key: &K, limit: u32) -> (r: Vec<(&K, &V)>)
        requires
            self.wf(),
            limit >= 1,
        ensures
            r@.len() == vstd::math::min(limit as int, self.size_spec()),
            deref_pairs(r@).to_multiset().subset_of(self.pairs().to_multiset()),
            deref_pairs(r@) == self.search_spec(*search_key, limit as int),
        decreases self,
    {
        match self {
            Ball::Leaf { key, val } => {
                let mut r: Vec<(&K, &V)> = Vec::new();
                r.push((key, val));
                proof {
                    broadcast use vstd::seq_lib::group_to_multiset_ensures;

                    assert(deref_pairs(r@) =~= self.pairs());
                    assert(deref_pairs(r@) =~= self.search_spec(*search_key, limit as int));
                }
                r
            },
            Ball::Branch { left, right, .. } => {
                proof {
                    left.lemma_wf_bounds();
                    right.lemma_wf_bounds();
                }
                let go_left = left.key().difference(search_key) <= right.key().difference(
                    search_key,
                );
                let (closest, furthest) = if go_left { (left, right) } else { (right, left) };
                let closest_size = closest.size();
                if closest_size < limit {
                    let (mut r1, mut r2) = join_search(
                        closest,
                        closest_size,
                        furthest,
                        limit - closest_size,
                        search_key,
                    );
                    let ghost r1_seq = r1@;
                    let ghost r2_seq = r2@;
                    r1.append(&mut r2);
                    proof {
                        broadcast use vstd::multiset::group_multiset_axioms;

                        assert(deref_pairs(r1@) =~= deref_pairs(r1_seq) + deref_pairs(r2_seq));
                        lemma_multiset_commutative(deref_pairs(r1_seq), deref_pairs(r2_seq));
                        lemma_multiset_commutative(closest.pairs(), furthest.pairs());
                        lemma_multiset_commutative(left.pairs(), right.pairs());
                        if !go_left {
                            assert(closest.pairs().to_multiset().add(furthest.pairs().to_multiset())
                                =~= left.pairs().to_multiset().add(right.pairs().to_multiset()));
                        }
                        assert(deref_pairs(r1@) == self.search_spec(*search_key, limit as int));
                    }
                    r1
                } else {
                    let res = closest.nn_search_node(search_key, limit);
                    proof {
                        broadcast use vstd::multiset::group_multiset_axioms;

                        lemma_multiset_commutative(left.pairs(), right.pairs());
                        assert(deref_pairs(res@) == self.search_spec(*search_key, limit as int));
                    }
                    res
                }
            },
        }
    }
}

/// Relies on `rayon::join`: it runs the two closures, potentially in
/// parallel, and returns the pair of their results; each closure here is one
/// call of the verified [`Ball::nn_search_node`], whose contract gives each
/// component's length and membership bounds and its exact candidate
/// sequence.
#[verifier::external_body]
fn join_search<'a, K: HasMeasurableDiff + Sync, V: Sync>(
    a: &'a Ball<K, V>,
    a_limit: u32,
    b: &'a Ball<K, V>,
    b_limit: u32,
    search_key: &K,
) -> (r: (Vec<(&'a K, &'a V)>, Vec<(&'a K, &'a V)>))
    requires
        a.wf(),
        b.wf(),
        a_limit >= 1,
        b_limit >= 1,
    ensures
        r.0@.len() == vstd::math::min(a_limit as int, a.size_spec()),
        deref_pairs(r.0@).to_multiset().subset_of(a.pairs().to_multiset()),
        deref_pairs(r.0@) == a.search_spec(*search_key, a_limit as int),
        r.1@.len() == vstd::math::min(b_limit as int, b.size_spec()),
        deref_pairs(r.1@).to_multiset().subset_of(b.pairs().to_multiset()),
        deref_pairs(r.1@) == b.search_spec(*search_key, b_limit as int),
{
    rayon::join(
        || a.nn_search_node(search_key, a_limit),
        || b.nn_search_node(search_key, b_limit),
    )
}

/// Merges two non-empty nodes into a branch: the new centre is the metric
/// capability's midpoint of the two bounding balls, and the new radius is the
/// distance from the first ball's centre to that midpoint plus the first
/// ball's radius. Both inputs become the children of the new branch.
pub fn bounding_ball<K: HasMeasurableDiff, V>(b1: Ball<K, V>, b2: Ball<K, V>) -> (b: Ball<K, V>)
    requires
        b1.wf(),
        b2.wf(),
        b1.size_spec() + b2.size_spec() <= u32::MAX,
    ensures
        b.wf(),
        b is Branch,
        *b->left == b1,
        *b->right == b2,
        b.size_spec() == b1.size_spec() + b2.size_spec(),
        b.pairs() == b1.pairs() + b2.pairs(),
        b.radius_spec() as int == b1.key_spec().diff_spec(b.key_spec()) + b1.radius_spec(),
{
    proof {
        b1.lemma_wf_bounds();
        b2.lemma_wf_bounds();
    }
    let (b1_key, b1_rad) = b1.get_key_and_radius();
    let (b2_key, b2_rad) = b2.get_key_and_radius();
    let midpoint = b1_key.midpoint(b2_key, b1_rad, b2_rad);
    let radius = b1_key.difference(&midpoint) + b1_rad;
    let size = b1.size() + b2.size();
    Ball::Branch {
        key: midpoint,
        radius,
        size,
        left: Box::new(b1),
        right: Box::new(b2),
    }
}

} // verus!
