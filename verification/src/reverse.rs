//! The edges of a game turned round: for each vertex the vertices that it
//! succeeds.

use std::collections::HashMap;
use vstd::prelude::*;
use vstd::std_specs::hash::*;
use crate::listing::{lists, member_list};
use crate::pg::{Game, Node, Vertex};

verus! {

broadcast use vstd::std_specs::hash::group_hash_axioms;

/// `rev` lists under each vertex of `g` the vertices that have an edge to it
/// and nothing else.
pub open spec fn turned(g: Map<u32, Vertex>, rev: Map<u32, Vec<u32>>) -> bool {
    &&& rev.dom() == g.dom()
    &&& forall|w: u32, u: u32|
        #![trigger rev[w]@.contains(u)]
        #![trigger g[u].succ.contains(w)]
        g.contains_key(w) ==> (rev[w]@.contains(u) <==> g.contains_key(u) && g[u].succ.contains(w))
}

/// `rev` lists the edges of the first `j` vertices of `ids`, and of the
/// vertex after them those to the first `k` of `succ`.
spec fn turned_so_far(
    g: Map<u32, Vertex>,
    rev: Map<u32, Vec<u32>>,
    ids: Seq<u32>,
    j: int,
    succ: Seq<u32>,
    k: int,
) -> bool {
    &&& rev.dom() == g.dom()
    &&& forall|w: u32, u: u32|
        #![trigger rev[w]@.contains(u)]
        g.contains_key(w) ==> (rev[w]@.contains(u) <==> ((exists|x: int|
            0 <= x < j && ids[x] == u && g[u].succ.contains(w)) || (j < ids.len() && u == ids[j]
            && exists|y: int| 0 <= y < k && succ[y] == w)))
}

/// For each vertex of `game` the vertices that have an edge to it.
pub fn reversed_edges(game: &Game) -> (rev: HashMap<u32, Vec<u32>>)
    ensures
        turned(game@, rev@),
{
    proof {
        use_type_invariant(game);
    }
    let ids: &Vec<u32> = game.ids();
    let ghost g = game@;
    let mut rev: HashMap<u32, Vec<u32>> = HashMap::new();
    let mut i: usize = 0;
    while i < ids.len()
        invariant
            i <= ids@.len(),
            rev@.dom() == ids@.take(i as int).to_set(),
            forall|w: u32| #[trigger] rev@.contains_key(w) ==> rev@[w]@.len() == 0,
        decreases ids@.len() - i,
    {
        rev.insert(ids[i], Vec::new());
        proof {
            assert(ids@.take(i + 1) == ids@.take(i as int).push(ids@[i as int]));
            ids@.take(i as int).lemma_push_to_set_commute(ids@[i as int]);
        }
        i = i + 1;
    }
    assert(ids@.take(i as int) == ids@);
    let mut j: usize = 0;
    assert(turned_so_far(g, rev@, ids@, 0, Seq::empty(), 0));
    while j < ids.len()
        invariant
            j <= ids@.len(),
            game.wf(),
            g == game@,
            lists(ids@, g.dom()),
            turned_so_far(g, rev@, ids@, j as int, Seq::empty(), 0),
        decreases ids@.len() - j,
    {
        let u: u32 = ids[j];
        assert(ids@.to_set().contains(ids@[j as int]));
        let node: &Node = game.node(&u).unwrap();
        let succ: Vec<u32> = member_list(&node.succ);
        let mut k: usize = 0;
        while k < succ.len()
            invariant
                k <= succ@.len(),
                j < ids@.len(),
                u == ids@[j as int],
                game.wf(),
                g == game@,
                g.contains_key(u),
                lists(ids@, g.dom()),
                lists(succ@, g[u].succ),
                turned_so_far(g, rev@, ids@, j as int, succ@, k as int),
            decreases succ@.len() - k,
        {
            let w: u32 = succ[k];
            assert(succ@.to_set().contains(succ@[k as int]));
            assert(g.contains_key(w));
            let ghost before = rev@;
            let mut list: Vec<u32> = rev.remove(&w).unwrap();
            let ghost old_list = list@;
            list.push(u);
            rev.insert(w, list);
            proof {
                assert(rev@.dom() =~= g.dom());
                assert forall|w2: u32, u2: u32|
                    #![trigger rev@[w2]@.contains(u2)]
                    g.contains_key(w2) implies (rev@[w2]@.contains(u2) <==> ((exists|x: int|
                    0 <= x < j && ids@[x] == u2 && g[u2].succ.contains(w2)) || (j < ids@.len()
                    && u2 == ids@[j as int] && exists|y: int|
                    0 <= y < k + 1 && succ@[y] == w2))) by {
                    if w2 == w {
                        assert(rev@[w]@ == old_list.push(u));
                        assert(old_list == before[w]@);
                        if old_list.push(u).contains(u2) {
                            let z = choose|z: int|
                                0 <= z < old_list.push(u).len() && old_list.push(u)[z] == u2;
                            if z < old_list.len() {
                                assert(old_list[z] == u2);
                                assert(before[w]@.contains(u2));
                            } else {
                                assert(u2 == u);
                                assert(succ@[k as int] == w);
                            }
                        }
                        if before[w]@.contains(u2) {
                            let z = choose|z: int| 0 <= z < old_list.len() && old_list[z] == u2;
                            assert(old_list.push(u)[z] == u2);
                        }
                        if u2 == u {
                            assert(old_list.push(u)[old_list.len() as int] == u);
                        }
                    } else {
                        assert(rev@[w2] == before[w2]);
                        if u2 == u && (exists|y: int| 0 <= y < k + 1 && succ@[y] == w2) {
                            let y = choose|y: int| 0 <= y < k + 1 && succ@[y] == w2;
                            assert(y < k);
                        }
                    }
                }
            }
            k = k + 1;
        }
        proof {
            assert forall|w: u32, u2: u32|
                #![trigger rev@[w]@.contains(u2)]
                g.contains_key(w) implies (rev@[w]@.contains(u2) <==> ((exists|x: int|
                0 <= x < j + 1 && ids@[x] == u2 && g[u2].succ.contains(w)) || (j + 1 < ids@.len()
                && u2 == ids@[j + 1] && exists|y: int|
                0 <= y < 0 && Seq::<u32>::empty()[y] == w))) by {
                if rev@[w]@.contains(u2) {
                    if u2 == u && (exists|y: int| 0 <= y < succ@.len() && succ@[y] == w) {
                        let y = choose|y: int| 0 <= y < succ@.len() && succ@[y] == w;
                        assert(succ@.to_set().contains(succ@[y]));
                        assert(ids@[j as int] == u2 && g[u2].succ.contains(w));
                    }
                }
                if exists|x: int| 0 <= x < j + 1 && ids@[x] == u2 && g[u2].succ.contains(w) {
                    let x = choose|x: int|
                        0 <= x < j + 1 && ids@[x] == u2 && g[u2].succ.contains(w);
                    if x == j {
                        assert(succ@.to_set().contains(w));
                        let y = choose|y: int| 0 <= y < succ@.len() && succ@[y] == w;
                        assert(succ@[y] == w);
                    }
                }
            }
        }
        j = j + 1;
    }
    proof {
        assert forall|w: u32, u: u32|
            #![trigger rev@[w]@.contains(u)]
            #![trigger g[u].succ.contains(w)]
            g.contains_key(w) implies (rev@[w]@.contains(u) <==> g.contains_key(u)
            && g[u].succ.contains(w)) by {
            if g.contains_key(u) && g[u].succ.contains(w) {
                assert(ids@.to_set().contains(u));
                let x = choose|x: int| 0 <= x < ids@.len() && ids@[x] == u;
                assert(ids@[x] == u);
            }
            if rev@[w]@.contains(u) {
                let x = choose|x: int| 0 <= x < j && ids@[x] == u && g[u].succ.contains(w);
                assert(ids@.to_set().contains(ids@[x]));
            }
        }
    }
    rev
}

} // verus!
