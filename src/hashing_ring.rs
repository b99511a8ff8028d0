use vstd::prelude::*;

use std::collections::HashMap;

use crate::bisect::{ascending, bisect_right, is_right_insertion_point, lemma_ascending_split, less};
use crate::digest::{gen_key, hash_digest, hash_val, placement_coordinate, ring_coordinate, seed_key};
use crate::node::WithWeightInfo;

verus! {

broadcast use vstd::std_specs::hash::group_hash_axioms;

/// The interleave count of a ring built without one.
pub const DEFAULT_INTERLEAVE_COUNT: usize = 40;

/// The sum of the weights of `nodes`.
pub open spec fn total_weight_of<T: WithWeightInfo>(nodes: Seq<T>) -> nat
    decreases nodes.len(),
{
    if nodes.len() == 0 {
        0
    } else {
        total_weight_of(nodes.drop_last()) + nodes.last().spec_weight() as nat
    }
}

/// The number of placement seeds of a node of weight `weight`, among
/// `node_count` nodes of total weight `total`:
/// `floor(interleave * node_count * weight / total)`, and none when the
/// total weight is zero.
pub open spec fn placement_count(interleave: nat, node_count: nat, weight: nat, total: nat) -> nat {
    if total == 0 {
        0
    } else {
        interleave * node_count * weight / total
    }
}

/// The three placements, as (coordinate, owner) pairs, that seed `j` of the
/// node with index `index` and name `name` yields.
pub open spec fn seed_placements(name: Seq<char>, index: usize, j: nat) -> Seq<(u32, usize)> {
    Seq::new(3, |k: int| (placement_coordinate(name, j, k) as u32, index))
}

/// The placements of one node, seed by seed: those of seeds `0 .. count`.
pub open spec fn node_placements(name: Seq<char>, index: usize, count: nat) -> Seq<(u32, usize)>
    decreases count,
{
    if count == 0 {
        Seq::empty()
    } else {
        node_placements(name, index, (count - 1) as nat) + seed_placements(
            name,
            index,
            (count - 1) as nat,
        )
    }
}

/// The placements of `nodes` in the order in which the ring is built: node by
/// node, each with its share of `interleave * node_count` seeds.
pub open spec fn ring_placements<T: WithWeightInfo>(
    nodes: Seq<T>,
    interleave: nat,
    node_count: nat,
    total: nat,
) -> Seq<(u32, usize)>
    decreases nodes.len(),
{
    if nodes.len() == 0 {
        Seq::empty()
    } else {
        let i = nodes.len() - 1;
        ring_placements(nodes.drop_last(), interleave, node_count, total) + node_placements(
            nodes[i].spec_name(),
            i as usize,
            placement_count(interleave, node_count, nodes[i].spec_weight() as nat, total),
        )
    }
}

/// The owner of each coordinate once `ps` have been recorded in order: a
/// later placement at a coordinate replaces an earlier one.
pub open spec fn owner_map(ps: Seq<(u32, usize)>) -> Map<u32, usize>
    decreases ps.len(),
{
    if ps.len() == 0 {
        Map::empty()
    } else {
        owner_map(ps.drop_last()).insert(ps.last().0, ps.last().1)
    }
}

/// The coordinates of the placements `ps`, in their order.
pub open spec fn coordinates_of(ps: Seq<(u32, usize)>) -> Seq<u32> {
    ps.map_values(|p: (u32, usize)| p.0)
}

/// The number of leading elements of `s` that are at most `c`: in an
/// ascending sequence, the index of the first element greater than `c`.
pub open spec fn insertion_point(s: Seq<u32>, c: u32) -> int
    decreases s.len(),
{
    if s.len() == 0 {
        0
    } else if s.last() <= c {
        s.len() as int
    } else {
        insertion_point(s.drop_last(), c)
    }
}

/// The slot of the ring that serves coordinate `c`: the first coordinate
/// greater than `c`, or the first of all when none is.
pub open spec fn ring_slot(s: Seq<u32>, c: u32) -> int {
    if insertion_point(s, c) == s.len() {
        0
    } else {
        insertion_point(s, c)
    }
}

proof fn lemma_total_weight_prefix<T: WithWeightInfo>(nodes: Seq<T>, i: int)
    requires
        0 <= i <= nodes.len(),
    ensures
        total_weight_of(nodes.subrange(0, i)) <= total_weight_of(nodes),
    decreases nodes.len(),
{
    if i < nodes.len() {
        assert(nodes.drop_last().subrange(0, i) =~= nodes.subrange(0, i));
        lemma_total_weight_prefix(nodes.drop_last(), i);
    } else {
        assert(nodes.subrange(0, i) =~= nodes);
    }
}

proof fn lemma_owner_map(ps: Seq<(u32, usize)>, bound: usize)
    requires
        forall|t: int| 0 <= t < ps.len() ==> (#[trigger] ps[t]).1 < bound,
    ensures
        forall|t: int| 0 <= t < ps.len() ==> owner_map(ps).contains_key(#[trigger] ps[t].0),
        forall|c: u32| owner_map(ps).contains_key(c) ==> #[trigger] owner_map(ps)[c] < bound,
    decreases ps.len(),
{
    if ps.len() > 0 {
        let rest = ps.drop_last();
        assert forall|t: int| 0 <= t < rest.len() implies (#[trigger] rest[t]).1 < bound by {
            assert(rest[t] == ps[t]);
        }
        lemma_owner_map(rest, bound);
        assert forall|t: int| 0 <= t < ps.len() implies owner_map(ps).contains_key(
            #[trigger] ps[t].0,
        ) by {
            if t < rest.len() {
                assert(rest[t] == ps[t]);
            }
        }
        assert(ps.last().1 < bound);
        assert forall|c: u32| owner_map(ps).contains_key(c) implies #[trigger] owner_map(ps)[c]
            < bound by {
            if c != ps.last().0 {
                assert(owner_map(rest).contains_key(c));
            }
        }
    }
}

proof fn lemma_insertion_point(s: Seq<u32>, c: u32)
    requires
        ascending(s),
    ensures
        is_right_insertion_point(s, c, 0, s.len() as int, insertion_point(s, c)),
    decreases s.len(),
{
    if s.len() > 0 {
        let rest = s.drop_last();
        assert(ascending(rest));
        lemma_insertion_point(rest, c);
        if s.last() <= c {
            assert forall|j: int| 0 <= j < s.len() implies !less(c, #[trigger] s[j]) by {
                assert(s[j] <= s.last());
            }
        } else {
            assert forall|j: int| insertion_point(s, c) <= j < s.len() implies less(
                c,
                #[trigger] s[j],
            ) by {
                if j < rest.len() {
                    assert(rest[j] == s[j]);
                }
            }
            assert forall|j: int| 0 <= j < insertion_point(s, c) implies !less(
                c,
                #[trigger] s[j],
            ) by {
                assert(rest[j] == s[j]);
            }
        }
    }
}

proof fn lemma_insertion_point_unique(s: Seq<u32>, c: u32, p: int, q: int)
    requires
        is_right_insertion_point(s, c, 0, s.len() as int, p),
        is_right_insertion_point(s, c, 0, s.len() as int, q),
    ensures
        p == q,
{
    if p < q {
        assert(less(c, s[p]));
    } else if q < p {
        assert(less(c, s[q]));
    }
}

/// A node's placements are three per seed, all owned by that node.
pub proof fn lemma_node_placements(name: Seq<char>, index: usize, count: nat)
    ensures
        node_placements(name, index, count).len() == 3 * count,
        forall|t: int|
            0 <= t < 3 * count ==> (#[trigger] node_placements(name, index, count)[t]).1 == index,
    decreases count,
{
    if count > 0 {
        lemma_node_placements(name, index, (count - 1) as nat);
    }
}

/// Placement counts follow the weights: for weights `w1` and `w2`, the
/// counts `p1` and `p2` satisfy `p1 / w1 - 1 / w2 < p2 / w2 < p1 / w1 + 1 / w1`,
/// so they are in the ratio `w1 : w2` up to the rounding of the division.
pub proof fn lemma_weight_proportionality(
    interleave: nat,
    node_count: nat,
    total: nat,
    w1: nat,
    w2: nat,
)
    requires
        total > 0,
        w1 > 0,
        w2 > 0,
    ensures
        ({
            let p1 = placement_count(interleave, node_count, w1, total) as int;
            let p2 = placement_count(interleave, node_count, w2, total) as int;
            &&& -(w2 as int) < p1 * w2 - p2 * w1
            &&& p1 * w2 - p2 * w1 < w1
        }),
{
    let m = (interleave * node_count) as int;
    let t = total as int;
    let p1 = placement_count(interleave, node_count, w1, total) as int;
    let p2 = placement_count(interleave, node_count, w2, total) as int;
    assert(p1 == m * w1 / t);
    assert(p2 == m * w2 / t);
    assert(p1 * t <= m * w1 < (p1 + 1) * t) by (nonlinear_arith)
        requires
            p1 == m * w1 / t,
            t > 0,
    ;
    assert(p2 * t <= m * w2 < (p2 + 1) * t) by (nonlinear_arith)
        requires
            p2 == m * w2 / t,
            t > 0,
    ;
    let w1i = w1 as int;
    let w2i = w2 as int;
    assert(p1 * t * w2i <= m * w1i * w2i) by (nonlinear_arith)
        requires
            p1 * t <= m * w1i,
            w2i > 0,
    ;
    assert(m * w2i * w1i < (p2 + 1) * t * w1i) by (nonlinear_arith)
        requires
            m * w2i < (p2 + 1) * t,
            w1i > 0,
    ;
    assert(p2 * t * w1i <= m * w2i * w1i) by (nonlinear_arith)
        requires
            p2 * t <= m * w2i,
            w1i > 0,
    ;
    assert(m * w1i * w2i < (p1 + 1) * t * w2i) by (nonlinear_arith)
        requires
            m * w1i < (p1 + 1) * t,
            w2i > 0,
    ;
    assert((p1 * w2 - p2 * w1) * t < w1 * t) by (nonlinear_arith)
        requires
            p1 * t * w2i <= m * w1i * w2i,
            m * w2i * w1i < (p2 + 1) * t * w1i,
            w1i == w1,
            w2i == w2,
    ;
    assert((p2 * w1 - p1 * w2) * t < w2 * t) by (nonlinear_arith)
        requires
            p2 * t * w1i <= m * w2i * w1i,
            m * w1i * w2i < (p1 + 1) * t * w2i,
            w1i == w1,
            w2i == w2,
    ;
    assert(p1 * w2 - p2 * w1 < w1) by (nonlinear_arith)
        requires
            (p1 * w2 - p2 * w1) * t < w1 * t,
            t > 0,
    ;
    assert(p2 * w1 - p1 * w2 < w2) by (nonlinear_arith)
        requires
            (p2 * w1 - p1 * w2) * t < w2 * t,
            t > 0,
    ;
}

proof fn lemma_ring_placements_nonempty<T: WithWeightInfo>(
    nodes: Seq<T>,
    interleave: nat,
    node_count: nat,
    total: nat,
    i: int,
)
    requires
        0 <= i < nodes.len(),
        placement_count(interleave, node_count, nodes[i].spec_weight() as nat, total) > 0,
    ensures
        ring_placements(nodes, interleave, node_count, total).len() > 0,
    decreases nodes.len(),
{
    let last = nodes.len() - 1;
    lemma_node_placements(
        nodes[last].spec_name(),
        last as usize,
        placement_count(interleave, node_count, nodes[last].spec_weight() as nat, total),
    );
    if i < last {
        assert(nodes.drop_last()[i] == nodes[i]);
        lemma_ring_placements_nonempty(nodes.drop_last(), interleave, node_count, total, i);
    }
}

/// A ring in which some node gets a seed has placements, so that every key
/// resolves to a node (see `ConsistentHashing::get_node`).
pub proof fn lemma_coverage<T: WithWeightInfo>(nodes: Seq<T>, interleave: nat, i: int)
    requires
        0 <= i < nodes.len(),
        placement_count(
            interleave,
            nodes.len(),
            nodes[i].spec_weight() as nat,
            total_weight_of(nodes),
        ) > 0,
    ensures
        ring_placements(nodes, interleave, nodes.len(), total_weight_of(nodes)).len() > 0,
        coordinates_of(ring_placements(nodes, interleave, nodes.len(), total_weight_of(nodes))).len()
            > 0,
{
    lemma_ring_placements_nonempty(nodes, interleave, nodes.len(), total_weight_of(nodes), i);
}

/// Relies on slice::sort, reached through `Vec`: afterwards the vector is
/// ascending and holds the same elements as before.
#[verifier::external_body]
fn sort_coordinates(v: &mut Vec<u32>)
    ensures
        ascending(final(v)@),
        final(v)@.to_multiset() == old(v)@.to_multiset(),
{
    v.sort();
}

/// The interleave count that a setting asks for.
pub open spec fn interleave_of(setting: Option<usize>) -> usize {
    match setting {
        Some(count) => count,
        None => DEFAULT_INTERLEAVE_COUNT,
    }
}

/// A consistent-hashing ring over nodes of type `T`, immutable once built.
pub struct ConsistentHashing<T: WithWeightInfo + Clone> {
    /// The owner of each coordinate, as an index into `real_nodes`.
    hashing_ring: HashMap<u32, usize>,
    /// The registered nodes, in the order they were given.
    real_nodes: Vec<T>,
    /// Every placement's coordinate, ascending.
    sorted_keys: Vec<u32>,
    interleave_count: usize,
    total_weight: usize,
    /// The placements in the order in which they were made.
    placements: Ghost<Seq<(u32, usize)>>,
}

impl<T: WithWeightInfo + Clone> ConsistentHashing<T> {
    /// The registered nodes.
    pub closed spec fn spec_nodes(&self) -> Seq<T> {
        self.real_nodes@
    }

    /// The coordinates of all placements, as searched.
    pub closed spec fn spec_coordinates(&self) -> Seq<u32> {
        self.sorted_keys@
    }

    /// The owner of each coordinate, as an index into the registered nodes.
    pub closed spec fn spec_owners(&self) -> Map<u32, usize> {
        self.hashing_ring@
    }

    /// The placements in the order in which they were made.
    pub closed spec fn spec_placements(&self) -> Seq<(u32, usize)> {
        self.placements@
    }

    pub closed spec fn spec_interleave_count(&self) -> usize {
        self.interleave_count
    }

    pub closed spec fn spec_total_weight(&self) -> usize {
        self.total_weight
    }

    /// The coordinates are ascending and are those of the placements; each
    /// coordinate's owner is that of its last placement, and is a
    /// registered node.
    pub closed spec fn wf(&self) -> bool {
        &&& ascending(self.sorted_keys@)
        &&& self.sorted_keys@.to_multiset() == coordinates_of(self.placements@).to_multiset()
        &&& self.hashing_ring@ == owner_map(self.placements@)
        &&& forall|t: int|
            0 <= t < self.placements@.len() ==> (#[trigger] self.placements@[t]).1
                < self.real_nodes@.len()
        &&& forall|x: int|
            0 <= x < self.sorted_keys@.len() ==> {
                &&& self.hashing_ring@.contains_key(#[trigger] self.sorted_keys@[x])
                &&& self.hashing_ring@[self.sorted_keys@[x]] < self.real_nodes@.len()
            }
    }

    /// The slot of the coordinate sequence that serves coordinate `c`, if
    /// the ring has any placement.
    pub open spec fn slot_of(&self, c: u32) -> Option<usize> {
        if self.spec_coordinates().len() == 0 {
            None
        } else {
            Some(ring_slot(self.spec_coordinates(), c) as usize)
        }
    }

    /// The index of the node that serves coordinate `c` on a ring with
    /// placements.
    pub open spec fn owner_of(&self, c: u32) -> usize {
        self.spec_owners()[self.spec_coordinates()[ring_slot(self.spec_coordinates(), c)]]
    }

    /// The node that a key resolves to, if the ring has any placement.
    pub open spec fn located(&self, key: Seq<char>) -> Option<T> {
        if self.spec_coordinates().len() == 0 {
            None
        } else {
            Some(self.spec_nodes()[self.owner_of(ring_coordinate(key) as u32) as int])
        }
    }

    /// Builds the ring of `real_nodes`, with `interleave_count_setting`
    /// placement seeds per node before weighting (40 if none is given).
    pub fn new(real_nodes: &Vec<T>, interleave_count_setting: Option<usize>) -> (r: Self)
        requires
            total_weight_of(real_nodes@) <= usize::MAX,
            interleave_of(interleave_count_setting) * real_nodes@.len() <= usize::MAX,
        ensures
            r.wf(),
            r.spec_interleave_count() == interleave_of(interleave_count_setting),
            r.spec_total_weight() == total_weight_of(real_nodes@),
            r.spec_nodes().len() == real_nodes@.len(),
            forall|i: int|
                0 <= i < real_nodes@.len() ==> cloned::<T>(real_nodes@[i], #[trigger] r.spec_nodes()[i]),
            r.spec_placements() == ring_placements(
                real_nodes@,
                interleave_of(interleave_count_setting) as nat,
                real_nodes@.len(),
                total_weight_of(real_nodes@),
            ),
            r.spec_owners() == owner_map(r.spec_placements()),
            ascending(r.spec_coordinates()),
            r.spec_coordinates().to_multiset() == coordinates_of(r.spec_placements()).to_multiset(),
    {
        let interleave_count: usize = match interleave_count_setting {
            Some(count) => count,
            None => DEFAULT_INTERLEAVE_COUNT,
        };
        let mut new_consistent_hashing = ConsistentHashing {
            hashing_ring: HashMap::new(),
            real_nodes: Vec::new(),
            sorted_keys: Vec::new(),
            interleave_count,
            total_weight: 0,
            placements: Ghost(Seq::empty()),
        };
        new_consistent_hashing.generate_hashing_ring(real_nodes);
        new_consistent_hashing
    }

    /// The coordinates of all placements, ascending.
    pub fn sorted_keys(&self) -> (r: &Vec<u32>)
        ensures
            r@ == self.spec_coordinates(),
    {
        &self.sorted_keys
    }

    /// The slot of the coordinate sequence that serves `coordinate`: the
    /// first coordinate greater than it, or the first of all when none is.
    /// `None` when the ring has no placement.
    pub fn get_coordinate_pos(&self, coordinate: u32) -> (r: Option<usize>)
        requires
            self.wf(),
        ensures
            r == self.slot_of(coordinate),
            r matches Some(pos) ==> pos < self.spec_coordinates().len() && pos as int == ring_slot(
                self.spec_coordinates(),
                coordinate,
            ),
    {
        if self.sorted_keys.len() == 0 {
            return None;
        }
        proof {
            lemma_ascending_split(self.sorted_keys@, coordinate);
            lemma_insertion_point(self.sorted_keys@, coordinate);
        }
        let pos: usize = bisect_right(&self.sorted_keys, coordinate, None, None);
        proof {
            lemma_insertion_point_unique(
                self.sorted_keys@,
                coordinate,
                pos as int,
                insertion_point(self.sorted_keys@, coordinate),
            );
        }
        if pos == self.sorted_keys.len() {
            Some(0)
        } else {
            Some(pos)
        }
    }

    /// The slot of the coordinate sequence that serves `string_key`, if the
    /// ring has any placement.
    pub fn get_node_pos(&self, string_key: &String) -> (r: Option<usize>)
        requires
            self.wf(),
        ensures
            r == self.slot_of(ring_coordinate(string_key@) as u32),
    {
        let key: u32 = gen_key(string_key);
        self.get_coordinate_pos(key)
    }

    /// The node that serves `coordinate`: the owner of the first placement
    /// at or after it, going round the ring. `None` exactly when the ring
    /// has no placement.
    pub fn get_node_for_coordinate(&self, coordinate: u32) -> (r: Option<&T>)
        requires
            self.wf(),
        ensures
            r is None <==> self.spec_coordinates().len() == 0,
            r is Some ==> self.owner_of(coordinate) < self.spec_nodes().len(),
            r matches Some(node) ==> *node == self.spec_nodes()[self.owner_of(coordinate) as int],
    {
        proof {
            lemma_insertion_point(self.sorted_keys@, coordinate);
        }
        match self.get_coordinate_pos(coordinate) {
            Some(pos) => {
                let c: u32 = self.sorted_keys[pos];
                match self.hashing_ring.get(&c) {
                    Some(owner) => {
                        Some(&self.real_nodes[*owner])
                    },
                    None => None,
                }
            },
            None => None,
        }
    }

    /// The node that `string_key` resolves to. `None` exactly when the ring
    /// has no placement: otherwise some node always serves the key, as the
    /// ring wraps round.
    pub fn get_node(&self, string_key: &String) -> (r: Option<&T>)
        requires
            self.wf(),
        ensures
            r is None <==> self.located(string_key@) is None,
            self.spec_coordinates().len() > 0 ==> r is Some,
            r is Some ==> self.owner_of(ring_coordinate(string_key@) as u32)
                < self.spec_nodes().len(),
            r matches Some(node) ==> self.located(string_key@) == Some(*node),
    {
        let key: u32 = gen_key(string_key);
        self.get_node_for_coordinate(key)
    }

    /// Lookups are deterministic: two results that the contract of
    /// `get_node` admits for one ring and one key are the same node.
    pub proof fn lemma_locate_deterministic(&self, key: Seq<char>, r1: Option<T>, r2: Option<T>)
        requires
            r1 is None <==> self.located(key) is None,
            r1 matches Some(node) ==> self.located(key) == Some(node),
            r2 is None <==> self.located(key) is None,
            r2 matches Some(node) ==> self.located(key) == Some(node),
        ensures
            r1 == r2,
    {
    }

    fn generate_hashing_ring(&mut self, real_nodes: &Vec<T>)
        requires
            old(self).real_nodes@.len() == 0,
            old(self).sorted_keys@.len() == 0,
            old(self).hashing_ring@ == Map::<u32, usize>::empty(),
            old(self).placements@.len() == 0,
            total_weight_of(real_nodes@) <= usize::MAX,
            old(self).interleave_count * real_nodes@.len() <= usize::MAX,
        ensures
            final(self).wf(),
            final(self).interleave_count == old(self).interleave_count,
            final(self).total_weight == total_weight_of(real_nodes@),
            final(self).real_nodes@.len() == real_nodes@.len(),
            forall|i: int|
                0 <= i < real_nodes@.len() ==> cloned::<T>(
                    real_nodes@[i],
                    #[trigger] final(self).real_nodes@[i],
                ),
            final(self).placements@ == ring_placements(
                real_nodes@,
                old(self).interleave_count as nat,
                real_nodes@.len(),
                total_weight_of(real_nodes@),
            ),
    {
        let nodes_num: usize = real_nodes.len();
        let mut total_weight: usize = 0;
        let mut i: usize = 0;
        while i < nodes_num
            invariant
                i <= nodes_num,
                nodes_num == real_nodes@.len(),
                total_weight == total_weight_of(real_nodes@.subrange(0, i as int)),
                total_weight_of(real_nodes@) <= usize::MAX,
            decreases nodes_num - i,
        {
            proof {
                assert(real_nodes@.subrange(0, i + 1).drop_last() =~= real_nodes@.subrange(0, i as int));
                lemma_total_weight_prefix(real_nodes@, i + 1);
            }
            total_weight = total_weight + real_nodes[i].get_weight();
            i = i + 1;
        }
        assert(real_nodes@.subrange(0, nodes_num as int) =~= real_nodes@);
        self.total_weight = total_weight;

        let ghost interleave: nat = self.interleave_count as nat;
        let ghost n: nat = nodes_num as nat;
        let ghost total: nat = total_weight as nat;
        assert(ring_placements(real_nodes@.subrange(0, 0), interleave, n, total) =~= Seq::<
            (u32, usize),
        >::empty());
        assert(self.placements@ =~= Seq::<(u32, usize)>::empty());
        let mut i: usize = 0;
        while i < nodes_num
            invariant
                i <= nodes_num,
                nodes_num == real_nodes@.len(),
                total == total_weight_of(real_nodes@),
                total_weight == total,
                interleave == self.interleave_count,
                n == nodes_num,
                self.interleave_count == old(self).interleave_count,
                self.interleave_count * nodes_num <= usize::MAX,
                self.total_weight == total_weight,
                self.real_nodes@.len() == i,
                forall|t: int|
                    0 <= t < i ==> cloned::<T>(real_nodes@[t], #[trigger] self.real_nodes@[t]),
                self.placements@ == ring_placements(
                    real_nodes@.subrange(0, i as int),
                    interleave,
                    n,
                    total,
                ),
                self.hashing_ring@ == owner_map(self.placements@),
                self.sorted_keys@ == coordinates_of(self.placements@),
                forall|t: int| 0 <= t < self.placements@.len() ==> (#[trigger] self.placements@[t]).1 < i,
            decreases nodes_num - i,
        {
            let node_entity: &T = &real_nodes[i];
            let name: String = node_entity.to_string();
            let weight: usize = node_entity.get_weight();
            proof {
                assert(real_nodes@.subrange(0, i + 1).drop_last() =~= real_nodes@.subrange(0, i as int));
                lemma_total_weight_prefix(real_nodes@, i + 1);
            }
            let factor: usize = if total_weight == 0 {
                0
            } else {
                let m: u128 = self.interleave_count as u128 * nodes_num as u128;
                assert((m as int) * (weight as int) <= 0xffff_ffff_ffff_ffff * 0xffff_ffff_ffff_ffff) by (nonlinear_arith)
                    requires
                        m <= 0xffff_ffff_ffff_ffff,
                        weight <= 0xffff_ffff_ffff_ffff,
                ;
                let f: u128 = m * weight as u128 / total_weight as u128;
                assert(f <= m) by (nonlinear_arith)
                    requires
                        f as int == (m as int) * (weight as int) / (total_weight as int),
                        weight <= total_weight,
                        total_weight > 0,
                ;
                f as usize
            };
            assert(factor == placement_count(interleave, n, weight as nat, total));
            self.real_nodes.push(node_entity.clone());

            let ghost base: Seq<(u32, usize)> = self.placements@;
            let ghost registered: Seq<T> = self.real_nodes@;
            let mut j: usize = 0;
            while j < factor
                invariant
                    self.interleave_count == old(self).interleave_count,
                    self.total_weight == total_weight,
                    self.real_nodes@ == registered,
                    j <= factor,
                    i < nodes_num,
                    name@ == real_nodes@[i as int].spec_name(),
                    self.placements@ == base + node_placements(name@, i, j as nat),
                    self.hashing_ring@ == owner_map(self.placements@),
                    self.sorted_keys@ == coordinates_of(self.placements@),
                    forall|t: int|
                        0 <= t < self.placements@.len() ==> (#[trigger] self.placements@[t]).1 <= i,
                decreases factor - j,
            {
                let b_key: [u8; 16] = hash_digest(&seed_key(&name, j));
                let ghost seed_base: Seq<(u32, usize)> = self.placements@;
                let mut k: usize = 0;
                while k < 3
                    invariant
                        self.interleave_count == old(self).interleave_count,
                        self.total_weight == total_weight,
                        self.real_nodes@ == registered,
                        k <= 3,
                        b_key@ == crate::digest::md5_of(crate::digest::seed(name@, j as nat)),
                        self.placements@ == seed_base + seed_placements(name@, i, j as nat).take(k as int),
                        self.hashing_ring@ == owner_map(self.placements@),
                        self.sorted_keys@ == coordinates_of(self.placements@),
                        forall|t: int|
                            0 <= t < self.placements@.len() ==> (#[trigger] self.placements@[t]).1 <= i,
                    decreases 3 - k,
                {
                    let key: u32 = hash_val(&b_key, k);
                    let ghost before: Seq<(u32, usize)> = self.placements@;
                    self.hashing_ring.insert(key, i);
                    self.sorted_keys.push(key);
                    self.placements = Ghost(self.placements@.push((key, i)));
                    proof {
                        assert(self.placements@.drop_last() =~= before);
                        assert(coordinates_of(self.placements@) =~= coordinates_of(before).push(key));
                        assert(self.placements@ =~= seed_base + seed_placements(name@, i, j as nat).take(k + 1));
                    }
                    k = k + 1;
                }
                proof {
                    assert(seed_placements(name@, i, j as nat).take(3) =~= seed_placements(name@, i, j as nat));
                    assert(self.placements@ =~= base + node_placements(name@, i, (j + 1) as nat));
                }
                j = j + 1;
            }
            proof {
                assert(real_nodes@.subrange(0, i + 1).last() == real_nodes@[i as int]);
            }
            i = i + 1;
        }
        assert(real_nodes@.subrange(0, nodes_num as int) =~= real_nodes@);
        let ghost unsorted: Seq<u32> = self.sorted_keys@;
        sort_coordinates(&mut self.sorted_keys);
        proof {
            let ps = self.placements@;
            lemma_owner_map(ps, self.real_nodes@.len() as usize);
            broadcast use vstd::seq_lib::group_to_multiset_ensures;
            assert forall|x: int| 0 <= x < self.sorted_keys@.len() implies {
                &&& self.hashing_ring@.contains_key(#[trigger] self.sorted_keys@[x])
                &&& self.hashing_ring@[self.sorted_keys@[x]] < self.real_nodes@.len()
            } by {
                let c = self.sorted_keys@[x];
                assert(self.sorted_keys@.contains(c));
                assert(self.sorted_keys@.to_multiset().count(c) > 0);
                assert(unsorted.to_multiset().count(c) > 0);
                assert(unsorted.contains(c));
                let t = choose|t: int| 0 <= t < unsorted.len() && unsorted[t] == c;
                assert(ps[t].0 == c);
            }
        }
    }
}

} // verus!
