//! How far a vertex is from a self-loop that ends the play: the length of the
//! shortest path along the edges to a vertex that has a self-loop and either
//! no other edge or the parity of its owner.

use std::collections::HashMap;
use vstd::prelude::*;
use vstd::std_specs::hash::*;
use crate::listing::lists;
use crate::pg::{Game, Node, Owner, Vertex};
use crate::reverse::{reversed_edges, turned};

verus! {

broadcast use vstd::std_specs::hash::group_hash_axioms;

/// A vertex at which a play can stay for good: it is its own successor, and
/// either it has no other successor or its priority has the parity of its
/// owner.
pub open spec fn anchored(node: Vertex) -> bool {
    &&& node.succ.contains(node.id)
    &&& (node.succ.len() == 1 || (node.prio % 2 == 0 && node.owner == Owner::Even) || (node.prio
        % 2 == 1 && node.owner == Owner::Odd))
}

/// Some path of `k` edges leads from `v` to an anchored vertex.
pub open spec fn reaches(g: Map<u32, Vertex>, v: u32, k: nat) -> bool
    decreases k,
{
    g.contains_key(v) && if k == 0 {
        anchored(g[v])
    } else {
        exists|w: u32| #[trigger] g[v].succ.contains(w) && reaches(g, w, (k - 1) as nat)
    }
}

/// `k` is the length of a shortest path from `v` to an anchored vertex.
pub open spec fn nearest(g: Map<u32, Vertex>, v: u32, k: nat) -> bool {
    reaches(g, v, k) && forall|j: nat| j < k ==> !reaches(g, v, j)
}

/// The length of a shortest path from `v` to an anchored vertex, and the
/// greatest number that 32 bits hold where there is no such path.
pub open spec fn distance(g: Map<u32, Vertex>, v: u32) -> int {
    if exists|k: nat| nearest(g, v, k) {
        (choose|k: nat| nearest(g, v, k)) as int
    } else {
        u32::MAX as int
    }
}

/// The length of a shortest path is the distance.
proof fn lemma_distance(g: Map<u32, Vertex>, v: u32, k: nat)
    requires
        nearest(g, v, k),
    ensures
        distance(g, v) == k,
{
    let c = choose|c: nat| nearest(g, v, c);
    assert(nearest(g, v, c));
    if c < k {
        assert(!reaches(g, v, c));
    }
    if k < c {
        assert(!reaches(g, v, k));
    }
}

/// Whether `node` is anchored.
pub fn is_anchored(node: &Node) -> (r: bool)
    ensures
        r == anchored(node@),
{
    if !node.succ.contains(&node.id) {
        return false;
    }
    if node.succ.len() == 1 {
        return true;
    }
    let even_prio: bool = node.prio % 2 == 0;
    match node.owner {
        Owner::Even => even_prio,
        Owner::Odd => !even_prio,
    }
}

/// What holds while the search runs: `queue` holds the vertices that have a
/// distance, each once and in the order in which they got it, and those
/// before `head` have handed their distance on to the vertices that have an
/// edge to them.
pub open spec fn searching(
    g: Map<u32, Vertex>,
    dist: Map<u32, u32>,
    queue: Seq<u32>,
    head: int,
) -> bool {
    &&& dist.dom() == g.dom()
    &&& 0 <= head <= queue.len()
    &&& queue.no_duplicates()
    &&& forall|v: u32| #[trigger] g.contains_key(v) ==> (dist[v] != u32::MAX <==> queue.contains(v))
    &&& forall|j: int|
        0 <= j < queue.len() ==> g.contains_key(#[trigger] queue[j]) && dist[queue[j]] <= j
    &&& forall|i: int, j: int|
        #![trigger queue[i], queue[j]]
        0 <= i <= j < queue.len() ==> dist[queue[i]] <= dist[queue[j]]
    &&& head < queue.len() ==> dist[queue[queue.len() - 1]] <= dist[queue[head]] + 1
    &&& forall|v: u32| #[trigger]
        g.contains_key(v) && dist[v] != u32::MAX ==> reaches(g, v, dist[v] as nat)
    &&& forall|j: int, u: u32|
        0 <= j < head && g.contains_key(u) && #[trigger] g[u].succ.contains(queue[j]) ==> dist[u]
            != u32::MAX && dist[u] <= dist[queue[j]] + 1
    &&& forall|v: u32| #[trigger] g.contains_key(v) && anchored(g[v]) ==> dist[v] == 0
}

/// The queue holds no more vertices than the game has.
proof fn lemma_queue_length(g: Map<u32, Vertex>, queue: Seq<u32>)
    requires
        g.dom().finite(),
        queue.no_duplicates(),
        forall|j: int| 0 <= j < queue.len() ==> g.contains_key(#[trigger] queue[j]),
    ensures
        queue.len() <= g.dom().len(),
{
    queue.unique_seq_to_set();
    assert(queue.to_set().subset_of(g.dom())) by {
        assert forall|v: u32| queue.to_set().contains(v) implies g.dom().contains(v) by {
            let j = choose|j: int| 0 <= j < queue.len() && queue[j] == v;
            assert(g.contains_key(queue[j]));
        }
    }
    vstd::set_lib::lemma_len_subset(queue.to_set(), g.dom());
}

/// A vertex with a distance lies no more than one further than the vertex at
/// the head of the queue.
proof fn lemma_near_head(g: Map<u32, Vertex>, dist: Map<u32, u32>, queue: Seq<u32>, head: int, u: u32)
    requires
        searching(g, dist, queue, head),
        head < queue.len(),
        g.contains_key(u),
        dist[u] != u32::MAX,
    ensures
        dist[u] <= dist[queue[head]] + 1,
{
    let i = choose|i: int| 0 <= i < queue.len() && queue[i] == u;
    let last: int = queue.len() - 1;
    if i <= head {
        assert(dist[queue[i]] <= dist[queue[head]]);
    } else {
        assert(dist[queue[i]] <= dist[queue[last]]);
    }
}

/// A vertex without a distance that has an edge to the vertex at the head of
/// the queue joins the queue one further than the head.
proof fn lemma_joins(g: Map<u32, Vertex>, dist: Map<u32, u32>, queue: Seq<u32>, head: int, u: u32)
    requires
        searching(g, dist, queue, head),
        head < queue.len(),
        g.contains_key(u),
        dist[u] == u32::MAX,
        g[u].succ.contains(queue[head]),
        dist[queue[head]] + 1 < u32::MAX,
    ensures
        searching(
            g,
            dist.insert(u, (dist[queue[head]] + 1) as u32),
            queue.push(u),
            head,
        ),
{
    let x = queue[head];
    let d: int = dist[x] as int;
    let after = dist.insert(u, (d + 1) as u32);
    let longer = queue.push(u);
    let last: int = queue.len() - 1;
    assert(!queue.contains(u));
    assert(after.dom() =~= g.dom());
    assert(g.contains_key(x));
    assert(x != u);
    assert forall|i: int, j: int| 0 <= i < longer.len() && 0 <= j < longer.len() && i
        != j implies longer[i] != longer[j] by {
        if i < queue.len() {
            assert(queue.contains(queue[i]));
        }
        if j < queue.len() {
            assert(queue.contains(queue[j]));
        }
    }
    assert forall|v: u32| #[trigger] g.contains_key(v) implies (after[v] != u32::MAX
        <==> longer.contains(v)) by {
        if v == u {
            assert(longer[queue.len() as int] == u);
        } else {
            if queue.contains(v) {
                let j = choose|j: int| 0 <= j < queue.len() && queue[j] == v;
                assert(longer[j] == v);
            }
            if longer.contains(v) {
                let j = choose|j: int| 0 <= j < longer.len() && longer[j] == v;
                assert(queue[j] == v);
            }
        }
    }
    assert forall|j: int| 0 <= j < longer.len() implies g.contains_key(#[trigger] longer[j])
        && after[longer[j]] <= j by {
        if j < queue.len() {
            assert(queue.contains(queue[j]));
            assert(queue[j] != u);
        } else {
            assert(dist[queue[head]] <= head);
        }
    }
    assert forall|i: int, j: int|
        #![trigger longer[i], longer[j]]
        0 <= i <= j < longer.len() implies after[longer[i]] <= after[longer[j]] by {
        if i < queue.len() {
            assert(queue.contains(queue[i]));
            assert(dist[queue[i]] <= dist[queue[last]]);
        }
        if j < queue.len() {
            assert(queue.contains(queue[j]));
            assert(dist[queue[i]] <= dist[queue[j]]);
        }
    }
    assert(after[longer[longer.len() - 1]] <= after[longer[head]] + 1);
    assert forall|v: u32| #[trigger] g.contains_key(v) && after[v] != u32::MAX implies reaches(
        g,
        v,
        after[v] as nat,
    ) by {
        if v == u {
            assert(reaches(g, x, d as nat));
            assert(g[u].succ.contains(x) && reaches(g, x, ((d + 1) - 1) as nat));
        }
    }
    assert forall|j: int, w: u32|
        0 <= j < head && g.contains_key(w) && #[trigger] g[w].succ.contains(
            longer[j],
        ) implies after[w] != u32::MAX && after[w] <= after[longer[j]] + 1 by {
        assert(longer[j] == queue[j]);
        assert(g[w].succ.contains(queue[j]));
        assert(queue.contains(queue[j]));
    }
    assert forall|v: u32| #[trigger] g.contains_key(v) && anchored(g[v]) implies after[v] == 0 by {}
}

/// Once every vertex that has an edge to the head of the queue has a
/// distance, the head has handed its distance on.
proof fn lemma_advance(g: Map<u32, Vertex>, dist: Map<u32, u32>, queue: Seq<u32>, head: int)
    requires
        searching(g, dist, queue, head),
        head < queue.len(),
        forall|u: u32|
            g.contains_key(u) && #[trigger] g[u].succ.contains(queue[head]) ==> dist[u]
                != u32::MAX,
    ensures
        searching(g, dist, queue, head + 1),
{
    let last: int = queue.len() - 1;
    if head + 1 < queue.len() {
        assert(dist[queue[head]] <= dist[queue[head + 1]]);
    }
    assert forall|j: int, u: u32|
        0 <= j < head + 1 && g.contains_key(u) && #[trigger] g[u].succ.contains(
            queue[j],
        ) implies dist[u] != u32::MAX && dist[u] <= dist[queue[j]] + 1 by {
        if j == head {
            lemma_near_head(g, dist, queue, head, u);
        }
    }
}

/// Once the queue is worked through, whatever reaches an anchored vertex
/// along `k` edges has a distance of no more than `k`.
proof fn lemma_found(g: Map<u32, Vertex>, dist: Map<u32, u32>, queue: Seq<u32>, v: u32, k: nat)
    requires
        searching(g, dist, queue, queue.len() as int),
        reaches(g, v, k),
    ensures
        dist[v] != u32::MAX,
        dist[v] <= k,
    decreases k,
{
    if k > 0 {
        let w = choose|w: u32| #[trigger] g[v].succ.contains(w) && reaches(g, w, (k - 1) as nat);
        lemma_found(g, dist, queue, w, (k - 1) as nat);
        assert(g.contains_key(w));
        let j = choose|j: int| 0 <= j < queue.len() && queue[j] == w;
        assert(g[v].succ.contains(queue[j]));
    }
}

/// The distance of every vertex of `game`: a search from the anchored
/// vertices backwards along the edges, one layer of vertices after the other.
pub fn distances(game: &Game) -> (dist: HashMap<u32, u32>)
    ensures
        dist@.dom() == game@.dom(),
        forall|id: u32| #[trigger] game@.contains_key(id) ==> dist@[id] == distance(game@, id),
{
    proof {
        use_type_invariant(game);
    }
    let reversed: HashMap<u32, Vec<u32>> = reversed_edges(game);
    let ids: &Vec<u32> = game.ids();
    let n: usize = ids.len();
    let ghost g = game@;
    let mut dist: HashMap<u32, u32> = HashMap::new();
    let mut queue: Vec<u32> = Vec::new();
    let mut k: usize = 0;
    while k < n
        invariant
            k <= n,
            n == ids@.len(),
            game.wf(),
            g == game@,
            lists(ids@, g.dom()),
            dist@.dom() == ids@.take(k as int).to_set(),
            queue@.no_duplicates(),
            forall|v: u32| #[trigger] dist@.contains_key(v) ==> (dist@[v] != u32::MAX
                <==> queue@.contains(v)),
            forall|v: u32| #[trigger]
                dist@.contains_key(v) ==> (if anchored(g[v]) {
                    dist@[v] == 0
                } else {
                    dist@[v] == u32::MAX
                }),
            forall|j: int| 0 <= j < queue@.len() ==> dist@.contains_key(#[trigger] queue@[j]),
        decreases n - k,
    {
        let id: u32 = ids[k];
        assert(ids@.to_set().contains(ids@[k as int]));
        let node: &Node = game.node(&id).unwrap();
        proof {
            assert(ids@.take(k + 1) == ids@.take(k as int).push(id));
            ids@.take(k as int).lemma_push_to_set_commute(id);
            assert(!dist@.contains_key(id)) by {
                if ids@.take(k as int).to_set().contains(id) {
                    let j = choose|j: int| 0 <= j < k && ids@.take(k as int)[j] == id;
                    assert(ids@[j] == ids@[k as int]);
                }
            }
        }
        let ghost before = queue@;
        if is_anchored(node) {
            dist.insert(id, 0);
            queue.push(id);
            proof {
                assert(!before.contains(id)) by {
                    if before.contains(id) {
                        let j = choose|j: int| 0 <= j < before.len() && before[j] == id;
                        assert(dist@.contains_key(before[j]));
                    }
                }
                assert forall|v: u32| before.contains(v) implies queue@.contains(v) by {
                    let j = choose|j: int| 0 <= j < before.len() && before[j] == v;
                    assert(queue@[j] == v);
                }
                assert(queue@[before.len() as int] == id);
                assert forall|v: u32| queue@.contains(v) implies before.contains(v) || v == id by {
                    let j = choose|j: int| 0 <= j < queue@.len() && queue@[j] == v;
                    if j < before.len() {
                        assert(before[j] == v);
                    }
                }
            }
        } else {
            dist.insert(id, u32::MAX);
            proof {
                assert(!before.contains(id)) by {
                    if before.contains(id) {
                        let j = choose|j: int| 0 <= j < before.len() && before[j] == id;
                        assert(dist@.contains_key(before[j]));
                    }
                }
            }
        }
        k = k + 1;
    }
    proof {
        assert(ids@.take(k as int) == ids@);
        assert(dist@.dom() =~= g.dom());
        assert forall|j: int| 0 <= j < queue@.len() implies g.contains_key(#[trigger] queue@[j])
            && dist@[queue@[j]] <= j by {
            assert(queue@.contains(queue@[j]));
        }
        assert forall|i: int, j: int|
            #![trigger queue@[i], queue@[j]]
            0 <= i <= j < queue@.len() implies dist@[queue@[i]] <= dist@[queue@[j]] by {
            assert(queue@.contains(queue@[i]));
            assert(queue@.contains(queue@[j]));
        }
        if queue@.len() > 0 {
            assert(queue@.contains(queue@[queue@.len() - 1]));
            assert(queue@.contains(queue@[0]));
        }
        assert(searching(g, dist@, queue@, 0));
        ids@.unique_seq_to_set();
    }
    let mut head: usize = 0;
    while head < queue.len()
        invariant
            game.wf(),
            g == game@,
            turned(g, reversed@),
            searching(g, dist@, queue@, head as int),
            g.dom().finite(),
            g.dom().len() <= u32::MAX,
        decreases g.dom().len() - head,
    {
        proof {
            lemma_queue_length(g, queue@);
        }
        let x: u32 = queue[head];
        let d: u32 = *dist.get(&x).unwrap();
        let preds: &Vec<u32> = reversed.get(&x).unwrap();
        let mut p: usize = 0;
        while p < preds.len()
            invariant
                p <= preds@.len(),
                game.wf(),
                g == game@,
                turned(g, reversed@),
                preds@ == reversed@[x]@,
                searching(g, dist@, queue@, head as int),
                g.dom().finite(),
                g.dom().len() <= u32::MAX,
                head < queue@.len(),
                x == queue@[head as int],
                d == dist@[x],
                forall|q: int| 0 <= q < p ==> dist@[#[trigger] preds@[q]] != u32::MAX,
            decreases preds@.len() - p,
        {
            let u: u32 = preds[p];
            proof {
                assert(reversed@[x]@.contains(preds@[p as int]));
                assert(g.contains_key(u) && g[u].succ.contains(x));
                lemma_queue_length(g, queue@);
            }
            let far: u32 = *dist.get(&u).unwrap();
            let ghost before = dist@;
            proof {
                if far != u32::MAX {
                    lemma_near_head(g, dist@, queue@, head as int, u);
                } else {
                    assert(!queue@.contains(u));
                    let longer = queue@.push(u);
                    assert forall|i: int, j: int| 0 <= i < longer.len() && 0 <= j < longer.len()
                        && i != j implies longer[i] != longer[j] by {
                        if i < queue@.len() {
                            assert(queue@.contains(queue@[i]));
                        }
                        if j < queue@.len() {
                            assert(queue@.contains(queue@[j]));
                        }
                    }
                    lemma_queue_length(g, longer);
                    assert(d + 1 < u32::MAX);
                    lemma_joins(g, dist@, queue@, head as int, u);
                }
            }
            if far > d + 1 {
                dist.insert(u, d + 1);
                queue.push(u);
            }
            proof {
                assert forall|q: int| 0 <= q < p + 1 implies dist@[#[trigger] preds@[q]]
                    != u32::MAX by {
                    if q < p {
                        assert(before[preds@[q]] != u32::MAX);
                    }
                }
            }
            p = p + 1;
        }
        proof {
            assert forall|u: u32|
                g.contains_key(u) && #[trigger] g[u].succ.contains(queue@[head as int]) implies dist@[u]
                != u32::MAX by {
                assert(reversed@[x]@.contains(u));
                let q = choose|q: int| 0 <= q < preds@.len() && preds@[q] == u;
                assert(dist@[preds@[q]] != u32::MAX);
            }
            lemma_advance(g, dist@, queue@, head as int);
            lemma_queue_length(g, queue@);
        }
        head = head + 1;
    }
    proof {
        assert forall|id: u32| #[trigger] game@.contains_key(id) implies dist@[id] == distance(
            game@,
            id,
        ) by {
            if dist@[id] != u32::MAX {
                let k: nat = dist@[id] as nat;
                assert forall|j: nat| j < k implies !reaches(g, id, j) by {
                    if reaches(g, id, j) {
                        lemma_found(g, dist@, queue@, id, j);
                    }
                }
                lemma_distance(g, id, k);
            } else {
                assert forall|k: nat| !nearest(g, id, k) by {
                    if reaches(g, id, k) {
                        lemma_found(g, dist@, queue@, id, k);
                    }
                }
            }
        }
    }
    dist
}

} // verus!
