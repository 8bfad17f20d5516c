//! The orders in which the engine visits the vertices.

use rand::Rng;
use std::collections::HashMap;
use vstd::prelude::*;
use vstd::seq_lib::*;
use crate::distance::{distance, distances};
use crate::listing::lists;
use crate::pg::{Game, Node, Vertex};
use crate::sorting::{ascending, sort_pairs};

verus! {

broadcast use {
    vstd::multiset::group_multiset_axioms,
    vstd::seq_lib::group_to_multiset_ensures,
    vstd::std_specs::hash::group_hash_axioms,
};

/// An order in which to visit the vertices of a game, fixed when the strategy
/// is made.
pub trait Strategy {
    /// The identifiers of the vertices in the order of the visit.
    spec fn order(&self) -> Seq<u32>;

    /// The identifiers of the vertices in the order of the visit.
    fn vertices(&self) -> (r: Vec<u32>)
        ensures
            r@ == self.order(),
    ;
}

/// Along `order` the key never goes down.
pub open spec fn ascends(order: Seq<u32>, key: spec_fn(u32) -> int) -> bool {
    forall|i: int, j: int| 0 <= i <= j < order.len() ==> key(order[i]) <= key(order[j])
}

/// `pairs` names each element of `dom` once, each beside its key.
pub open spec fn keyed(pairs: Seq<(u64, u32)>, dom: Set<u32>, key: spec_fn(u32) -> int) -> bool {
    &&& forall|j: int|
        0 <= j < pairs.len() ==> dom.contains((#[trigger] pairs[j]).1) && pairs[j].0 == key(
            pairs[j].1,
        )
    &&& forall|i: int, j: int| 0 <= i < j < pairs.len() ==> pairs[i].1 != pairs[j].1
    &&& forall|id: u32|
        dom.contains(id) ==> exists|j: int| 0 <= j < pairs.len() && (#[trigger] pairs[j]).1 == id
}

/// A rearrangement of keyed pairs is keyed.
proof fn lemma_keyed_rearranged(
    p: Seq<(u64, u32)>,
    q: Seq<(u64, u32)>,
    dom: Set<u32>,
    key: spec_fn(u32) -> int,
)
    requires
        keyed(p, dom, key),
        q.to_multiset() == p.to_multiset(),
    ensures
        keyed(q, dom, key),
{
    assert(p.no_duplicates());
    p.lemma_multiset_has_no_duplicates();
    q.lemma_multiset_has_no_duplicates_conv();
    assert forall|j: int| 0 <= j < q.len() implies dom.contains((#[trigger] q[j]).1) && q[j].0
        == key(q[j].1) by {
        assert(q.contains(q[j]));
        to_multiset_contains(q, q[j]);
        to_multiset_contains(p, q[j]);
        assert(p.contains(q[j]));
        let i = choose|i: int| 0 <= i < p.len() && p[i] == q[j];
        assert(dom.contains(p[i].1));
    }
    assert forall|i: int, j: int| 0 <= i < j < q.len() implies q[i].1 != q[j].1 by {
        let _ = q[i];
        let _ = q[j];
        if q[i].1 == q[j].1 {
            assert(q[i] == q[j]);
        }
    }
    assert forall|id: u32| dom.contains(id) implies exists|j: int|
        0 <= j < q.len() && (#[trigger] q[j]).1 == id by {
        let i = choose|i: int| 0 <= i < p.len() && (#[trigger] p[i]).1 == id;
        assert(p.contains(p[i]));
        to_multiset_contains(q, p[i]);
        to_multiset_contains(p, p[i]);
        assert(q.contains(p[i]));
        let j = choose|j: int| 0 <= j < q.len() && q[j] == p[i];
        assert(q[j].1 == id);
    }
}

/// A rearrangement of a list that names each element of `dom` once does so too.
proof fn lemma_lists_rearranged(p: Seq<u32>, q: Seq<u32>, dom: Set<u32>)
    requires
        lists(p, dom),
        q.to_multiset() == p.to_multiset(),
    ensures
        lists(q, dom),
{
    p.lemma_multiset_has_no_duplicates();
    q.lemma_multiset_has_no_duplicates_conv();
    assert forall|id: u32| q.to_set().contains(id) <==> dom.contains(id) by {
        to_multiset_contains(q, id);
        to_multiset_contains(p, id);
        assert(q.contains(id) <==> p.contains(id));
        assert(p.to_set().contains(id) <==> p.contains(id));
    }
    assert(q.to_set() =~= dom);
}

/// The identifiers of `pairs` in ascending order of their keys.
fn order_of_pairs(
    pairs: Vec<(u64, u32)>,
    Ghost(dom): Ghost<Set<u32>>,
    Ghost(key): Ghost<spec_fn(u32) -> int>,
) -> (r: Vec<u32>)
    requires
        keyed(pairs@, dom, key),
    ensures
        lists(r@, dom),
        ascends(r@, key),
{
    let sorted: Vec<(u64, u32)> = sort_pairs(pairs);
    proof {
        lemma_keyed_rearranged(pairs@, sorted@, dom, key);
    }
    let mut r: Vec<u32> = Vec::new();
    let mut k: usize = 0;
    while k < sorted.len()
        invariant
            k <= sorted@.len(),
            r@.len() == k,
            forall|x: int| 0 <= x < k ==> r@[x] == (#[trigger] sorted@[x]).1,
        decreases sorted@.len() - k,
    {
        r.push(sorted[k].1);
        k = k + 1;
    }
    proof {
        assert forall|i: int, j: int| 0 <= i < r@.len() && 0 <= j < r@.len() && i != j implies r@[i]
            != r@[j] by {
            let _ = sorted@[i];
            let _ = sorted@[j];
        }
        assert forall|id: u32| r@.to_set().contains(id) <==> dom.contains(id) by {
            if r@.to_set().contains(id) {
                let x = choose|x: int| 0 <= x < r@.len() && r@[x] == id;
                assert(dom.contains(sorted@[x].1));
            }
            if dom.contains(id) {
                let j = choose|j: int| 0 <= j < sorted@.len() && (#[trigger] sorted@[j]).1 == id;
                assert(r@[j] == id);
            }
        }
        assert(r@.to_set() =~= dom);
        assert forall|i: int, j: int| 0 <= i <= j < r@.len() implies key(r@[i]) <= key(r@[j]) by {
            let _ = sorted@[i];
            let _ = sorted@[j];
        }
    }
    r
}

/// What a strategy sorts the vertices by.
enum Key {
    /// The position in the input.
    Input,
    /// The priority.
    Priority,
    /// The number of successors.
    Successor,
}

/// The key of `node` under `which`.
spec fn key_of(node: Vertex, which: Key) -> int {
    match which {
        Key::Input => node.count as int,
        Key::Priority => node.prio as int,
        Key::Successor => node.succ.len() as int,
    }
}

/// The vertices of `game` in ascending order of the key `which`.
fn order_by(game: &Game, which: Key) -> (r: Vec<u32>)
    ensures
        lists(r@, game@.dom()),
        ascends(r@, |id: u32| key_of(game@[id], which)),
{
    let nodes: Vec<&Node> = game.nodes();
    let ghost key = |id: u32| key_of(game@[id], which);
    let mut pairs: Vec<(u64, u32)> = Vec::new();
    let mut k: usize = 0;
    while k < nodes.len()
        invariant
            k <= nodes@.len(),
            pairs@.len() == k,
            forall|j: int|
                0 <= j < nodes@.len() ==> game@.contains_key(nodes@[j].id) && (#[trigger] nodes@[j])@
                    == game@[nodes@[j].id],
            forall|x: int|
                0 <= x < k ==> (#[trigger] pairs@[x]).1 == nodes@[x].id && pairs@[x].0 == key_of(
                    nodes@[x]@,
                    which,
                ),
        decreases nodes@.len() - k,
    {
        let node: &Node = nodes[k];
        let value: u64 = match which {
            Key::Input => node.count as u64,
            Key::Priority => node.prio as u64,
            Key::Successor => node.succ.len() as u64,
        };
        pairs.push((value, node.id));
        k = k + 1;
    }
    proof {
        assert forall|j: int| 0 <= j < pairs@.len() implies game@.dom().contains(
            (#[trigger] pairs@[j]).1,
        ) && pairs@[j].0 == key(pairs@[j].1) by {
            let _ = nodes@[j];
        }
        assert forall|id: u32| game@.dom().contains(id) implies exists|j: int|
            0 <= j < pairs@.len() && (#[trigger] pairs@[j]).1 == id by {
            let j = choose|j: int| 0 <= j < nodes@.len() && #[trigger] nodes@[j].id == id;
            assert(pairs@[j].1 == id);
        }
    }
    order_of_pairs(pairs, Ghost(game@.dom()), Ghost(key))
}

/// A copy of `v`.
fn copy_of(v: &Vec<u32>) -> (r: Vec<u32>)
    ensures
        r@ == v@,
{
    let mut r: Vec<u32> = Vec::new();
    let mut k: usize = 0;
    while k < v.len()
        invariant
            k <= v@.len(),
            r@ == v@.take(k as int),
        decreases v@.len() - k,
    {
        r.push(v[k]);
        k = k + 1;
        assert(r@ == v@.take(k as int));
    }
    assert(v@.take(k as int) == v@);
    r
}

/// `rand::Rng::shuffle` on the thread-local generator of `rand::thread_rng`:
/// the elements of `ids` in another order. The order depends on chance; the
/// contract claims only that nothing is lost, added or doubled. The generator
/// panics where the system has no entropy to seed it with.
#[verifier::external_body]
fn shuffle(ids: Vec<u32>) -> (r: Vec<u32>)
    ensures
        r@.to_multiset() == ids@.to_multiset(),
{
    let mut v = ids;
    rand::thread_rng().shuffle(&mut v);
    v
}

/// The vertices in the order of the input.
pub struct InputStrategy {
    order: Vec<u32>,
}

impl InputStrategy {
    /// The vertices of `game` in ascending order of their position in the input.
    pub fn new(game: &Game) -> (s: InputStrategy)
        ensures
            lists(s.order(), game@.dom()),
            ascends(s.order(), |id: u32| game@[id].count as int),
    {
        let order: Vec<u32> = order_by(game, Key::Input);
        proof {
            assert forall|i: int, j: int| 0 <= i <= j < order@.len() implies game@[order@[i]].count
                <= game@[order@[j]].count by {
                assert(key_of(game@[order@[i]], Key::Input) <= key_of(
                    game@[order@[j]],
                    Key::Input,
                ));
            }
        }
        InputStrategy { order }
    }
}

impl Strategy for InputStrategy {
    closed spec fn order(&self) -> Seq<u32> {
        self.order@
    }

    fn vertices(&self) -> (r: Vec<u32>) {
        copy_of(&self.order)
    }
}

/// The vertices in an order that chance picks once.
pub struct RandomStrategy {
    order: Vec<u32>,
}

impl RandomStrategy {
    /// The vertices of `game` in an order that chance picks.
    pub fn new(game: &Game) -> (s: RandomStrategy)
        ensures
            lists(s.order(), game@.dom()),
    {
        proof {
            use_type_invariant(game);
        }
        let ids: Vec<u32> = copy_of(game.ids());
        let order: Vec<u32> = shuffle(ids);
        proof {
            lemma_lists_rearranged(game.listing(), order@, game@.dom());
        }
        RandomStrategy { order }
    }
}

impl Strategy for RandomStrategy {
    closed spec fn order(&self) -> Seq<u32> {
        self.order@
    }

    fn vertices(&self) -> (r: Vec<u32>) {
        copy_of(&self.order)
    }
}

/// The vertices in ascending order of their priority.
pub struct PriorityStrategy {
    order: Vec<u32>,
}

impl PriorityStrategy {
    /// The vertices of `game` in ascending order of their priority.
    pub fn new(game: &Game) -> (s: PriorityStrategy)
        ensures
            lists(s.order(), game@.dom()),
            ascends(s.order(), |id: u32| game@[id].prio as int),
    {
        let order: Vec<u32> = order_by(game, Key::Priority);
        proof {
            assert forall|i: int, j: int| 0 <= i <= j < order@.len() implies game@[order@[i]].prio
                <= game@[order@[j]].prio by {
                assert(key_of(game@[order@[i]], Key::Priority) <= key_of(
                    game@[order@[j]],
                    Key::Priority,
                ));
            }
        }
        PriorityStrategy { order }
    }
}

impl Strategy for PriorityStrategy {
    closed spec fn order(&self) -> Seq<u32> {
        self.order@
    }

    fn vertices(&self) -> (r: Vec<u32>) {
        copy_of(&self.order)
    }
}

/// The vertices in ascending order of the number of their successors.
pub struct SuccessorStrategy {
    order: Vec<u32>,
}

impl SuccessorStrategy {
    /// The vertices of `game` in ascending order of the number of their
    /// successors.
    pub fn new(game: &Game) -> (s: SuccessorStrategy)
        ensures
            lists(s.order(), game@.dom()),
            ascends(s.order(), |id: u32| game@[id].succ.len() as int),
    {
        let order: Vec<u32> = order_by(game, Key::Successor);
        proof {
            assert forall|i: int, j: int| 0 <= i <= j < order@.len() implies game@[order@[i]].succ.len()
                <= game@[order@[j]].succ.len() by {
                assert(key_of(game@[order@[i]], Key::Successor) <= key_of(
                    game@[order@[j]],
                    Key::Successor,
                ));
            }
        }
        SuccessorStrategy { order }
    }
}

impl Strategy for SuccessorStrategy {
    closed spec fn order(&self) -> Seq<u32> {
        self.order@
    }

    fn vertices(&self) -> (r: Vec<u32>) {
        copy_of(&self.order)
    }
}

/// The vertices in ascending order of their distance from a self-loop that
/// ends the play; those from which no such loop can be reached come last.
pub struct SelfLoopStrategy {
    order: Vec<u32>,
}

impl SelfLoopStrategy {
    /// The vertices of `game` in ascending order of their distance.
    pub fn new(game: &Game) -> (s: SelfLoopStrategy)
        ensures
            lists(s.order(), game@.dom()),
            ascends(s.order(), |id: u32| distance(game@, id)),
    {
        proof {
            use_type_invariant(game);
        }
        let dist: HashMap<u32, u32> = distances(game);
        let ids: &Vec<u32> = game.ids();
        let ghost key = |id: u32| distance(game@, id);
        let mut pairs: Vec<(u64, u32)> = Vec::new();
        let mut k: usize = 0;
        while k < ids.len()
            invariant
                k <= ids@.len(),
                pairs@.len() == k,
                ids@ == game.listing(),
                game.wf(),
                dist@.dom() == game@.dom(),
                forall|id: u32| #[trigger]
                    game@.contains_key(id) ==> dist@[id] == distance(game@, id),
                forall|x: int|
                    0 <= x < k ==> (#[trigger] pairs@[x]).1 == ids@[x] && pairs@[x].0 == distance(
                        game@,
                        ids@[x],
                    ),
            decreases ids@.len() - k,
        {
            let id: u32 = ids[k];
            assert(ids@.to_set().contains(ids@[k as int]));
            let far: u32 = *dist.get(&id).unwrap();
            pairs.push((far as u64, id));
            k = k + 1;
        }
        proof {
            assert forall|j: int| 0 <= j < pairs@.len() implies game@.dom().contains(
                (#[trigger] pairs@[j]).1,
            ) && pairs@[j].0 == key(pairs@[j].1) by {
                assert(ids@.to_set().contains(ids@[j]));
            }
            assert forall|i: int, j: int| 0 <= i < j < pairs@.len() implies pairs@[i].1
                != pairs@[j].1 by {
                let _ = pairs@[i];
                let _ = pairs@[j];
            }
            assert forall|id: u32| game@.dom().contains(id) implies exists|j: int|
                0 <= j < pairs@.len() && (#[trigger] pairs@[j]).1 == id by {
                assert(ids@.to_set().contains(id));
                let j = choose|j: int| 0 <= j < ids@.len() && ids@[j] == id;
                assert(pairs@[j].1 == id);
            }
        }
        let order: Vec<u32> = order_of_pairs(pairs, Ghost(game@.dom()), Ghost(key));
        SelfLoopStrategy { order }
    }
}

impl Strategy for SelfLoopStrategy {
    closed spec fn order(&self) -> Seq<u32> {
        self.order@
    }

    fn vertices(&self) -> (r: Vec<u32>) {
        copy_of(&self.order)
    }
}

} // verus!
