//! The owning container: an optional root node and a running element count,
//! with incremental insertion.

use vstd::prelude::*;
use vstd::multiset::Multiset;
use vstd::seq_lib::lemma_multiset_commutative;
use crate::ball::{Ball, bounding_ball, deref_pairs};
use crate::metric::HasMeasurableDiff;

verus! {

/// Whether the pairs of `s` stand in non-decreasing order of distance to the
/// query key `q`.
pub open spec fn sorted_by_diff<K: HasMeasurableDiff, V>(s: Seq<(K, V)>, q: K) -> bool {
    forall|i: int, j: int|
        0 <= i <= j < s.len() ==> #[trigger] s[i].0.diff_spec(q) <= #[trigger] s[j].0.diff_spec(q)
}

/// An online ball tree over keys `K` with payloads `V`.
pub struct BallTree<K, V> {
    root: Option<Box<Ball<K, V>>>,
    size: u32,
}

impl<K, V> BallTree<K, V> {
    /// The multiset of key/value pairs stored in the tree.
    pub closed spec fn contents(self) -> Multiset<(K, V)> {
        match self.root {
            None => Multiset::empty(),
            Some(root) => root.pairs().to_multiset(),
        }
    }

    /// Well-formedness: the root subtree is well-formed and the running count
    /// mirrors its leaf count (zero for an empty tree).
    pub closed spec fn wf(self) -> bool {
        match self.root {
            None => self.size == 0,
            Some(root) => root.wf() && self.size as int == root.size_spec(),
        }
    }

    /// Creates an empty tree.
    pub fn new() -> (tree: Self)
        ensures
            tree.wf(),
            tree.contents() == Multiset::<(K, V)>::empty(),
    {
        BallTree { root: None, size: 0 }
    }

    /// The number of pairs stored in the tree.
    pub fn size(&self) -> (s: u32)
        requires
            self.wf(),
        ensures
            s as int == self.contents().len(),
    {
        proof {
            vstd::seq_lib::to_multiset_len(self.pairs_of_root());
            if self.root is Some {
                self.root.unwrap().lemma_wf_bounds();
            }
        }
        self.size
    }

    /// The root's pair sequence (empty for an empty tree).
    spec fn pairs_of_root(self) -> Seq<(K, V)> {
        match self.root {
            None => Seq::empty(),
            Some(root) => root.pairs(),
        }
    }

    /// The root node of the tree, if any.
    pub closed spec fn root_spec(self) -> Option<Ball<K, V>> {
        match self.root {
            None => None,
            Some(root) => Some(*root),
        }
    }

    /// Dumps every stored pair: the result holds exactly the contents of the
    /// tree, one entry per `push`, with no pair lost or duplicated.
    pub fn flatten(&self) -> (all: Vec<(&K, &V)>)
        requires
            self.wf(),
        ensures
            all@.len() == self.contents().len(),
            deref_pairs(all@).to_multiset() == self.contents(),
    {
        proof {
            vstd::seq_lib::to_multiset_len(self.pairs_of_root());
        }
        match &self.root {
            None => {
                let all: Vec<(&K, &V)> = Vec::new();
                proof {
                    assert(deref_pairs(all@) =~= Seq::empty());
                    lemma_empty_to_multiset(deref_pairs(all@));
                }
                all
            },
            Some(root) => root.flatten_node(),
        }
    }
}

impl<K: HasMeasurableDiff, V> BallTree<K, V> {
    /// Inserts one pair. A first pair becomes the root leaf; a pair outside
    /// the root's bounding ball becomes a sibling of the whole old tree under
    /// a new root (the one operation that grows the tree's depth from the
    /// top, and the tree's response to a root that is a lone leaf); any other
    /// pair descends toward the child whose ball holds it (or the nearer
    /// child if neither does) and is absorbed there as the sibling of the
    /// subtree it stopped at, leaving the root's centre and radius as they
    /// were.
    pub fn push(&mut self, key: K, value: V)
        requires
            old(self).wf(),
            old(self).contents().len() < u32::MAX,
        ensures
            final(self).wf(),
            final(self).contents() == old(self).contents().insert((key, value)),
            final(self).contents().len() == old(self).contents().len() + 1,
            old(self).root_spec() is None ==> final(self).root_spec() == Some(
                Ball::Leaf { key, val: value },
            ),
            (match old(self).root_spec() {
                Some(r) => (r is Leaf || r.key_spec().diff_spec(key) > r.radius_spec())
                    ==> (match final(self).root_spec() {
                    Some(nr) => nr is Branch && *nr->left == (Ball::Leaf { key, val: value })
                        && *nr->right == r && nr.radius_spec() as int == key.diff_spec(
                        nr.key_spec(),
                    ),
                    None => false,
                }),
                None => true,
            }),
            (match old(self).root_spec() {
                Some(r) => (r is Branch && r.key_spec().diff_spec(key) <= r.radius_spec())
                    ==> (match final(self).root_spec() {
                    Some(nr) => nr is Branch && nr.key_spec() == r.key_spec()
                        && nr.radius_spec() == r.radius_spec(),
                    None => false,
                }),
                None => true,
            }),
    {
        proof {
            broadcast use vstd::multiset::group_multiset_axioms;

            vstd::seq_lib::to_multiset_len(old(self).pairs_of_root());
            if old(self).root is Some {
                old(self).root.unwrap().lemma_wf_bounds();
            }
        }
        match self.root.take() {
            None => {
                self.root = Some(Box::new(Ball::new(key, value)));
                self.size = 1;
                proof {
                    lemma_singleton_multiset(key, value);
                }
            },
            Some(root_ball) => {
                let ghost old_pairs = root_ball.pairs();
                let outside_root: bool = {
                    let (root_key, root_rad) = root_ball.get_key_and_radius();
                    root_key.difference(&key) > root_rad
                };
                let new_root = if outside_root || root_ball.is_leaf() {
                    let leaf = Ball::new(key, value);
                    proof {
                        lemma_singleton_multiset(key, value);
                        lemma_multiset_commutative(leaf.pairs(), old_pairs);
                        assert(old_pairs.to_multiset().insert((key, value)) =~= leaf
                            .pairs()
                            .to_multiset()
                            .add(old_pairs.to_multiset()));
                    }
                    bounding_ball(leaf, *root_ball)
                } else {
                    insert_into(*root_ball, key, value)
                };
                self.size = self.size + 1;
                self.root = Some(Box::new(new_root));
            },
        }
    }
}

impl<K: HasMeasurableDiff, V> BallTree<K, V> {
    /// The containment property over the whole tree: every bounding ball
    /// reaches every key stored below it (trivially true when empty).
    pub closed spec fn containment_spec(self) -> bool {
        match self.root {
            None => true,
            Some(root) => root.covers_descendants(),
        }
    }

    /// Decides the containment property by measuring every stored key
    /// against every ball that encloses it.
    pub fn check_containment(&self) -> (ok: bool)
        ensures
            ok == self.containment_spec(),
    {
        match &self.root {
            None => true,
            Some(root) => root.check_containment(),
        }
    }
}

impl<K: HasMeasurableDiff + Sync, V: Sync> BallTree<K, V> {
    /// Returns up to `limit` stored pairs as nearest-neighbour candidates for
    /// `search_key`, sorted by non-decreasing true distance to it. The result
    /// holds exactly `limit` pairs when the tree has that many, every pair it
    /// holds otherwise, and nothing for an empty tree or a zero limit.
    pub fn nn_search(&self, search_key: &K, limit: u32) -> (results: Vec<(&K, &V)>)
        requires
            self.wf(),
        ensures
            results@.len() == vstd::math::min(limit as int, self.contents().len() as int),
            deref_pairs(results@).to_multiset().subset_of(self.contents()),
            sorted_by_diff(deref_pairs(results@), *search_key),
            (match self.root_spec() {
                Some(r) => limit >= 1 ==> deref_pairs(results@).to_multiset() == r.search_spec(
                    *search_key,
                    limit as int,
                ).to_multiset(),
                None => true,
            }),
    {
        proof {
            vstd::seq_lib::to_multiset_len(self.pairs_of_root());
            if self.root is Some {
                self.root.unwrap().lemma_wf_bounds();
            }
        }
        match &self.root {
            None => {
                let results: Vec<(&K, &V)> = Vec::new();
                proof {
                    broadcast use vstd::multiset::group_multiset_axioms;

                    assert(deref_pairs(results@) =~= Seq::empty());
                    lemma_empty_to_multiset(deref_pairs(results@));
                }
                results
            },
            Some(root_node) => {
                if limit == 0 {
                    let results: Vec<(&K, &V)> = Vec::new();
                    proof {
                        broadcast use vstd::multiset::group_multiset_axioms;

                        assert(deref_pairs(results@) =~= Seq::empty());
                        lemma_empty_to_multiset(deref_pairs(results@));
                    }
                    results
                } else {
                    let candidates = root_node.nn_search_node(search_key, limit);
                    sort_by_distance(candidates, search_key)
                }
            },
        }
    }
}

/// A sequence with no entries converts to the empty multiset.
proof fn lemma_empty_to_multiset<A>(s: Seq<A>)
    requires
        s.len() == 0,
    ensures
        s.to_multiset() == Multiset::<A>::empty(),
{
    broadcast use vstd::seq_lib::group_to_multiset_ensures;

    vstd::multiset::lemma_multiset_empty_len(s.to_multiset());
    assert(s.to_multiset() =~= Multiset::empty());
}

impl<K: HasMeasurableDiff, V> BallTree<K, V> {
    /// Builds a tree by pushing every given pair in turn (no smarter bulk
    /// construction): the result stores exactly the given pairs.
    pub fn load(items: Vec<(K, V)>) -> (tree: BallTree<K, V>)
        requires
            items@.len() <= u32::MAX,
        ensures
            tree.wf(),
            tree.contents() == items@.to_multiset(),
    {
        let ghost items_seq = items@;
        let mut items = items;
        let mut tree = BallTree::new();
        proof {
            broadcast use vstd::multiset::group_multiset_axioms;
            broadcast use vstd::seq_lib::group_to_multiset_ensures;
        }
        while items.len() > 0
            invariant
                items_seq.len() <= u32::MAX,
                tree.wf(),
                tree.contents().len() + items@.len() == items_seq.len(),
                tree.contents().add(items@.to_multiset()) == items_seq.to_multiset(),
            decreases items@.len(),
        {
            let ghost items_before = items@;
            let pair = items.pop().unwrap();
            let (key, value) = pair;
            proof {
                broadcast use vstd::multiset::group_multiset_axioms;
                broadcast use vstd::seq_lib::group_to_multiset_ensures;

                assert(items_before =~= items@.push((key, value)));
            }
            tree.push(key, value);
            proof {
                broadcast use vstd::multiset::group_multiset_axioms;

                assert(tree.contents().add(items@.to_multiset()) =~= items_seq.to_multiset());
            }
        }
        proof {
            broadcast use vstd::multiset::group_multiset_axioms;

            lemma_empty_to_multiset(items@);
            assert(tree.contents() =~= items_seq.to_multiset());
        }
        tree
    }
}

/// Sorts candidate pairs by non-decreasing distance to the search key,
/// keeping exactly the pairs it was given: repeatedly moves the earliest
/// closest remaining pair to the output.
fn sort_by_distance<'a, K: HasMeasurableDiff, V>(
    input: Vec<(&'a K, &'a V)>,
    search_key: &K,
) -> (out: Vec<(&'a K, &'a V)>)
    ensures
        out@.len() == input@.len(),
        deref_pairs(out@).to_multiset() == deref_pairs(input@).to_multiset(),
        sorted_by_diff(deref_pairs(out@), *search_key),
{
    let ghost input_seq = input@;
    let mut rest = input;
    let mut out: Vec<(&K, &V)> = Vec::new();
    proof {
        broadcast use vstd::multiset::group_multiset_axioms;

        assert(deref_pairs(out@) =~= Seq::empty());
        lemma_empty_to_multiset(deref_pairs(out@));
        assert(deref_pairs(out@).to_multiset().add(deref_pairs(rest@).to_multiset())
            =~= deref_pairs(input_seq).to_multiset());
    }
    while rest.len() > 0
        invariant
            out@.len() + rest@.len() == input_seq.len(),
            deref_pairs(out@).to_multiset().add(deref_pairs(rest@).to_multiset())
                == deref_pairs(input_seq).to_multiset(),
            sorted_by_diff(deref_pairs(out@), *search_key),
            forall|i: int, j: int|
                0 <= i < out@.len() && 0 <= j < rest@.len() ==> #[trigger] (*out@[i].0).diff_spec(
                    *search_key,
                ) <= #[trigger] (*rest@[j].0).diff_spec(*search_key),
        decreases rest@.len(),
    {
        let mut m: usize = 0;
        let mut best: u64 = rest[0].0.difference(search_key);
        let mut k: usize = 1;
        while k < rest.len()
            invariant
                0 < rest@.len(),
                m < k,
                k <= rest@.len(),
                best == (*rest@[m as int].0).diff_spec(*search_key),
                forall|t: int|
                    0 <= t < k ==> best <= #[trigger] (*rest@[t].0).diff_spec(*search_key),
            decreases rest@.len() - k,
        {
            let d = rest[k].0.difference(search_key);
            if d < best {
                m = k;
                best = d;
            }
            k = k + 1;
        }
        let ghost rest_before = rest@;
        let ghost out_before = out@;
        let picked = rest.remove(m);
        out.push(picked);
        proof {
            broadcast use vstd::multiset::group_multiset_axioms;
            broadcast use vstd::seq_lib::group_to_multiset_ensures;

            let p = (*picked.0, *picked.1);
            assert(deref_pairs(rest@) =~= deref_pairs(rest_before).remove(m as int));
            assert(deref_pairs(out@) =~= deref_pairs(out_before).push(p));
            assert(deref_pairs(rest_before)[m as int] == p);
            assert(deref_pairs(rest_before).contains(p));
            assert(deref_pairs(out@).to_multiset().add(deref_pairs(rest@).to_multiset())
                =~= deref_pairs(out_before).to_multiset().add(
                deref_pairs(rest_before).to_multiset(),
            ));
            assert forall|j: int| 0 <= j < rest@.len() implies best <= #[trigger] (*rest@[
                j
            ].0).diff_spec(*search_key) by {
                assert(rest@[j] == if j < m as int {
                    rest_before[j]
                } else {
                    rest_before[j + 1]
                });
            }
        }
    }
    proof {
        broadcast use vstd::multiset::group_multiset_axioms;

        assert(deref_pairs(rest@) =~= Seq::empty());
        lemma_empty_to_multiset(deref_pairs(rest@));
        assert(deref_pairs(out@).to_multiset() =~= deref_pairs(input_seq).to_multiset());
    }
    out
}

/// Absorbs one pair into a well-formed subtree, returning the rebuilt
/// subtree: at a leaf the pair joins it under a new branch; at a branch the
/// pair is absorbed as the sibling of the chosen child if it lies outside
/// both children's balls (or the chosen child is a leaf), and otherwise
/// descends into the chosen child.
fn insert_into<K: HasMeasurableDiff, V>(node: Ball<K, V>, key: K, val: V) -> (res: Ball<K, V>)
    requires
        node.wf(),
        node.size_spec() < u32::MAX,
    ensures
        res.wf(),
        res.size_spec() == node.size_spec() + 1,
        res.pairs().to_multiset() == node.pairs().to_multiset().insert((key, val)),
        node is Branch ==> res is Branch && res.key_spec() == node.key_spec()
            && res.radius_spec() == node.radius_spec(),
    decreases node,
{
    match node {
        leaf_node @ Ball::Leaf { .. } => {
            let ghost old_pairs = leaf_node.pairs();
            let leaf = Ball::new(key, val);
            proof {
                lemma_absorb_multiset(old_pairs, key, val);
            }
            bounding_ball(leaf_node, leaf)
        },
        Ball::Branch { key: ckey, radius, size, left, right } => {
            proof {
                left.lemma_wf_bounds();
                right.lemma_wf_bounds();
            }
            let (go_left, outside_both) = {
                let (left_key, left_rad) = left.get_key_and_radius();
                let (right_key, right_rad) = right.get_key_and_radius();
                let left_diff = left_key.difference(&key);
                let right_diff = right_key.difference(&key);
                let outside_both = left_diff > left_rad && right_diff > right_rad;
                let go_left = left_diff <= (if outside_both { right_diff } else { left_rad });
                (go_left, outside_both)
            };
            let ghost left_pairs = left.pairs();
            let ghost right_pairs = right.pairs();
            if go_left {
                let new_left = if outside_both || left.is_leaf() {
                    proof {
                        lemma_absorb_multiset(left_pairs, key, val);
                    }
                    bounding_ball(*left, Ball::new(key, val))
                } else {
                    insert_into(*left, key, val)
                };
                let res = Ball::Branch {
                    key: ckey,
                    radius,
                    size: size + 1,
                    left: Box::new(new_left),
                    right,
                };
                proof {
                    lemma_multiset_commutative(left_pairs, right_pairs);
                    lemma_multiset_commutative(res->left.pairs(), right_pairs);
                    assert(res.pairs().to_multiset() =~= (left_pairs + right_pairs)
                        .to_multiset()
                        .insert((key, val)));
                }
                res
            } else {
                let new_right = if outside_both || right.is_leaf() {
                    proof {
                        lemma_absorb_multiset(right_pairs, key, val);
                    }
                    bounding_ball(*right, Ball::new(key, val))
                } else {
                    insert_into(*right, key, val)
                };
                let res = Ball::Branch {
                    key: ckey,
                    radius,
                    size: size + 1,
                    left,
                    right: Box::new(new_right),
                };
                proof {
                    lemma_multiset_commutative(left_pairs, right_pairs);
                    lemma_multiset_commutative(left_pairs, res->right.pairs());
                    assert(res.pairs().to_multiset() =~= (left_pairs + right_pairs)
                        .to_multiset()
                        .insert((key, val)));
                }
                res
            }
        },
    }
}

/// The one-pair sequence converts to the one-pair multiset.
proof fn lemma_singleton_multiset<K, V>(key: K, val: V)
    ensures
        seq![(key, val)].to_multiset() == Multiset::<(K, V)>::empty().insert((key, val)),
{
    broadcast use vstd::seq_lib::group_to_multiset_ensures;

    assert(seq![(key, val)] =~= Seq::<(K, V)>::empty().push((key, val)));
    assert(Seq::<(K, V)>::empty().to_multiset() =~= Multiset::<(K, V)>::empty());
}

/// Appending a one-pair sequence inserts that pair into the multiset.
proof fn lemma_absorb_multiset<K, V>(s: Seq<(K, V)>, key: K, val: V)
    ensures
        (s + seq![(key, val)]).to_multiset() == s.to_multiset().insert((key, val)),
{
    broadcast use vstd::seq_lib::group_to_multiset_ensures;

    assert(s + seq![(key, val)] =~= s.push((key, val)));
}

} // verus!
