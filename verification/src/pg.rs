//! The game model and the values that the engine assigns to its vertices.

use std::collections::{HashMap, HashSet};
use vstd::prelude::*;
use vstd::std_specs::hash::*;
use vstd::std_specs::iter::IteratorSpec;
use vstd::string::*;
use crate::lattice::{
    at, eq_upto, fits, greater_value, gt_upto, lemma_split, lemma_split_beyond,
    lemma_successor, lemma_successor_of_bound, raised, room, same_value, span, split,
    successor, value_eq, value_fits, value_ge, value_gt, value_inc, value_le, value_lt,
    within, zeros, Value,
};
use crate::listing::{key_list, lists, member_list};

verus! {

broadcast use {vstd::std_specs::hash::group_hash_axioms, vstd::string::group_string_axioms};

/// The player that moves at a vertex.
#[derive(Debug, Clone, Copy, PartialEq, Eq, Structural)]
pub enum Owner {
    Even,
    Odd,
}

/// The owner that `word` names: `0` is `Even`, `1` is `Odd`.
pub open spec fn owner_of(word: Seq<char>) -> Option<Owner> {
    if word == seq!['0'] {
        Some(Owner::Even)
    } else if word == seq!['1'] {
        Some(Owner::Odd)
    } else {
        None
    }
}

/// What `Owner::parse` says of a text that names no owner.
pub open spec fn owner_complaint(s: Seq<char>) -> Seq<char> {
    "The string '"@ + s + "' cannot be parsed as the type Owner."@
}

impl Owner {
    /// The owner that `s` names: `0` is `Even`, `1` is `Odd`; any other text
    /// names none.
    pub fn parse(s: &str) -> (r: Result<Owner, String>)
        ensures
            match r {
                Ok(owner) => owner_of(s@) == Some(owner),
                Err(e) => owner_of(s@) is None && e@ == owner_complaint(s@),
            },
    {
        let chars: Vec<char> = crate::text::chars_of(s);
        assert(seq!['0'].len() == 1 && seq!['1'].len() == 1);
        if chars.len() == 1 && chars[0] == '0' {
            assert(s@ =~= seq!['0']);
            return Ok(Owner::Even);
        }
        if chars.len() == 1 && chars[0] == '1' {
            assert(s@ =~= seq!['1']);
            assert(seq!['1'][0] != seq!['0'][0]);
            return Ok(Owner::Odd);
        }
        proof {
            if chars@.len() == 1 {
                assert(seq!['0'][0] == '0' && seq!['1'][0] == '1');
            }
        }
        let mut e: String = String::from_str("The string '");
        e.append(s);
        e.append("' cannot be parsed as the type Owner.");
        Err(e)
    }
}

impl core::str::FromStr for Owner {
    type Err = String;

    /// The owner that `s` names: `0` is `Even`, `1` is `Odd`; any other text
    /// names none and is answered with a complaint that quotes it.
    fn from_str(s: &str) -> (r: Result<Owner, String>)
        ensures
            match r {
                Ok(owner) => owner_of(s@) == Some(owner),
                Err(e) => owner_of(s@) is None && e@ == owner_complaint(s@),
            },
    {
        Owner::parse(s)
    }
}

/// A sequence of counters, one for each priority from 0 up to the highest of
/// a game. Only the counters at odd positions are ever compared.
#[derive(Debug)]
pub struct Measure(pub Vec<u32>);

impl View for Measure {
    type V = Seq<u32>;

    open spec fn view(&self) -> Seq<u32> {
        self.0@
    }
}

impl Clone for Measure {
    /// A measure with the same counters.
    fn clone(&self) -> (r: Self)
        ensures
            r@ == self@,
    {
        let mut v: Vec<u32> = Vec::new();
        let mut k: usize = 0;
        while k < self.0.len()
            invariant
                k <= self.0.len(),
                v@ == self.0@.take(k as int),
            decreases self.0.len() - k,
        {
            v.push(self.0[k]);
            k = k + 1;
            assert(v@ == self.0@.take(k as int));
        }
        assert(self.0@.take(k as int) == self.0@);
        Measure(v)
    }
}

impl Measure {
    /// The number of counters.
    pub fn length(&self) -> (n: usize)
        ensures
            n == self@.len(),
    {
        self.0.len()
    }

    /// The counter at position `i`, where the measure has one.
    fn get_value(&self, i: usize) -> (r: Option<u32>)
        ensures
            r == if i < self@.len() {
                Some(self@[i as int])
            } else {
                None
            },
    {
        if i < self.length() {
            Some(self.0[i])
        } else {
            None
        }
    }

    /// The counter at position `i`, or 0 where the measure has none.
    fn get_value_or_zero(&self, i: usize) -> (r: u32)
        ensures
            r == at(self@, i as int),
    {
        match self.get_value(i) {
            Some(v) => v,
            None => 0,
        }
    }

    /// The last odd position that a comparison up to `i` has to look at: no
    /// position beyond both measures holds anything.
    fn last_odd(&self, other: &Measure, i: usize) -> (k: usize)
        ensures
            k <= i,
            k == 0 || k % 2 == 1,
            split(self@, other@, i as int) == split(self@, other@, k as int),
    {
        let longer: usize = if self.length() >= other.length() {
            self.length()
        } else {
            other.length()
        };
        let mut k: usize = if i < longer {
            i
        } else {
            proof {
                lemma_split_beyond(self@, other@, i as int, longer as int);
            }
            longer
        };
        if k % 2 == 0 && k > 0 {
            k = k - 1;
        }
        k
    }

    /// Whether this measure and `other` agree at every odd position up to `i`.
    pub fn eq(&self, other: &Measure, i: usize) -> (r: bool)
        ensures
            r == eq_upto(self@, other@, i as int),
    {
        let mut k: usize = self.last_odd(other, i);
        proof {
            lemma_split(self@, other@, i as int);
        }
        while k > 0
            invariant
                k == 0 || k % 2 == 1,
                split(self@, other@, i as int) == split(self@, other@, k as int),
                (split(self@, other@, i as int) == 0) == eq_upto(self@, other@, i as int),
            decreases k,
        {
            if self.get_value_or_zero(k) != other.get_value_or_zero(k) {
                return false;
            }
            proof {
                assert(split(self@, other@, k as int) == split(self@, other@, k - 1));
                assert(k >= 2 ==> split(self@, other@, k - 1) == split(self@, other@, k - 2));
            }
            k = k - 1;
            if k > 0 {
                k = k - 1;
            }
        }
        true
    }

    /// Whether, scanning the odd positions from `i` down to 1, the first
    /// position at which this measure and `other` differ holds the larger
    /// counter here.
    pub fn gt(&self, other: &Measure, i: usize) -> (r: bool)
        ensures
            r == gt_upto(self@, other@, i as int),
    {
        let mut k: usize = self.last_odd(other, i);
        while k > 0
            invariant
                k == 0 || k % 2 == 1,
                split(self@, other@, i as int) == split(self@, other@, k as int),
            decreases k,
        {
            let here: u32 = self.get_value_or_zero(k);
            let there: u32 = other.get_value_or_zero(k);
            if here != there {
                return here > there;
            }
            proof {
                assert(split(self@, other@, k as int) == split(self@, other@, k - 1));
                assert(k >= 2 ==> split(self@, other@, k - 1) == split(self@, other@, k - 2));
            }
            k = k - 1;
            if k > 0 {
                k = k - 1;
            }
        }
        false
    }

    /// The index of the last position of the longer of the two measures,
    /// and 0 where both are empty.
    fn full_index(&self, other: &Measure) -> (i: usize)
        ensures
            split(self@, other@, i as int) == split(self@, other@, span(self@, other@)),
    {
        let longer: usize = if self.length() >= other.length() {
            self.length()
        } else {
            other.length()
        };
        if longer == 0 {
            0
        } else {
            longer - 1
        }
    }

    /// Whether this measure and `other` agree at every odd position.
    pub fn same(&self, other: &Measure) -> (r: bool)
        ensures
            r == eq_upto(self@, other@, span(self@, other@)),
    {
        let i: usize = self.full_index(other);
        proof {
            lemma_split(self@, other@, i as int);
            lemma_split(self@, other@, span(self@, other@));
        }
        self.eq(other, i)
    }

    /// Whether this measure is greater than `other`, compared over all
    /// positions.
    pub fn exceeds(&self, other: &Measure) -> (r: bool)
        ensures
            r == gt_upto(self@, other@, span(self@, other@)),
    {
        let i: usize = self.full_index(other);
        self.gt(other, i)
    }

    /// The step from `self` to the next measure under `max`: the highest odd
    /// position that lies below `max` goes up by one and the odd positions
    /// below it go to 0; where no odd position lies below `max`, the step
    /// reaches `Top`. On a measure within `max` the step reaches `Top` only
    /// from a measure that equals `max`, and every other step reaches a
    /// greater measure within `max`.
    pub fn successor(&self, max: &Measure) -> (r: MeasureT)
        ensures
            r@ == successor(self@, max@),
            eq_upto(self@, max@, span(self@, max@)) ==> r@ is Top,
            within(self@, max@) ==> match r@ {
                Value::Top => eq_upto(self@, max@, self@.len() - 1),
                Value::Measure(x) => fits(x, max@) && gt_upto(x, self@, self@.len() - 1),
            },
    {
        proof {
            if eq_upto(self@, max@, span(self@, max@)) {
                lemma_successor_of_bound(self@, max@);
            }
            if within(self@, max@) {
                lemma_successor(self@, max@);
            }
        }
        let n: usize = self.length();
        if n < 2 {
            return MeasureT::Top;
        }
        let mut k: usize = n - 1;
        if k % 2 == 0 {
            k = k - 1;
        }
        while k > 0
            invariant
                k < n,
                n == self@.len(),
                k == 0 || k % 2 == 1,
                room(self@, max@, n - 1) == room(self@, max@, k as int),
            decreases k,
        {
            let here: u32 = self.0[k];
            if here < max.get_value_or_zero(k) {
                let mut next: Measure = self.clone();
                next.0.set(k, here + 1);
                let mut j: usize = 1;
                while j < k
                    invariant
                        j % 2 == 1,
                        k % 2 == 1,
                        j <= k < n,
                        next@.len() == n,
                        self@.len() == n,
                        here == self@[k as int],
                        here < u32::MAX,
                        forall|x: int|
                            0 <= x < n ==> next@[x] == if x == k {
                                (here + 1) as u32
                            } else if x < j && x % 2 == 1 {
                                0u32
                            } else {
                                self@[x]
                            },
                    decreases k - j,
                {
                    next.0.set(j, 0);
                    j = j + 2;
                }
                assert(next@ =~= raised(self@, k as int));
                proof {
                    if eq_upto(self@, max@, span(self@, max@)) {
                        lemma_successor_of_bound(self@, max@);
                    }
                    if within(self@, max@) {
                        lemma_successor(self@, max@);
                    }
                }
                return MeasureT::Measure(next);
            }
            proof {
                assert(room(self@, max@, k as int) == room(self@, max@, k - 1));
                assert(k >= 2 ==> room(self@, max@, k - 1) == room(self@, max@, k - 2));
            }
            k = k - 1;
            if k > 0 {
                k = k - 1;
            }
        }
        proof {
            if within(self@, max@) {
                lemma_successor(self@, max@);
            }
        }
        MeasureT::Top
    }
}

/// A measure, or the value `Top` that is greater than every measure.
#[derive(Debug)]
pub enum MeasureT {
    /// The value that is greater than any measure.
    Top,
    /// A measure.
    Measure(Measure),
}

impl View for MeasureT {
    type V = Value;

    open spec fn view(&self) -> Value {
        match self {
            MeasureT::Top => Value::Top,
            MeasureT::Measure(m) => Value::Measure(m@),
        }
    }
}

impl Clone for MeasureT {
    /// The same value.
    fn clone(&self) -> (r: Self)
        ensures
            r@ == self@,
    {
        match self {
            MeasureT::Top => MeasureT::Top,
            MeasureT::Measure(m) => MeasureT::Measure(m.clone()),
        }
    }
}

impl MeasureT {
    /// Whether both are `Top`, or both are measures that agree at every odd
    /// position.
    pub fn same(&self, other: &MeasureT) -> (r: bool)
        ensures
            r == same_value(self@, other@),
    {
        match (self, other) {
            (MeasureT::Top, MeasureT::Top) => true,
            (MeasureT::Top, _) => false,
            (_, MeasureT::Top) => false,
            (MeasureT::Measure(a), MeasureT::Measure(b)) => a.same(b),
        }
    }

    /// Whether this value is greater than `other`, compared over all
    /// positions.
    pub fn exceeds(&self, other: &MeasureT) -> (r: bool)
        ensures
            r == greater_value(self@, other@),
    {
        match (self, other) {
            (MeasureT::Top, MeasureT::Top) => false,
            (MeasureT::Top, _) => true,
            (_, MeasureT::Top) => false,
            (MeasureT::Measure(a), MeasureT::Measure(b)) => a.exceeds(b),
        }
    }

    /// Whether both are `Top`, or both are measures that agree at every odd
    /// position up to `i`.
    pub fn eq(&self, other: &MeasureT, i: usize) -> (r: bool)
        ensures
            r == value_eq(self@, other@, i as int),
    {
        match (self, other) {
            (MeasureT::Top, MeasureT::Top) => true,
            (MeasureT::Top, _) => false,
            (_, MeasureT::Top) => false,
            (MeasureT::Measure(a), MeasureT::Measure(b)) => a.eq(b, i),
        }
    }

    /// Whether this value is greater than `other` up to `i`: `Top` is greater
    /// than every measure and not greater than itself.
    pub fn gt(&self, other: &MeasureT, i: usize) -> (r: bool)
        ensures
            r == value_gt(self@, other@, i as int),
    {
        match (self, other) {
            (MeasureT::Top, MeasureT::Top) => false,
            (MeasureT::Top, _) => true,
            (_, MeasureT::Top) => false,
            (MeasureT::Measure(a), MeasureT::Measure(b)) => a.gt(b, i),
        }
    }

    /// Whether this value is greater than `other` up to `i`, or equal to it.
    pub fn ge(&self, other: &MeasureT, i: usize) -> (r: bool)
        ensures
            r == value_ge(self@, other@, i as int),
    {
        self.gt(other, i) || self.eq(other, i)
    }

    /// Whether this value is neither greater than `other` up to `i` nor equal
    /// to it.
    pub fn lt(&self, other: &MeasureT, i: usize) -> (r: bool)
        ensures
            r == value_lt(self@, other@, i as int),
    {
        !self.ge(other, i)
    }

    /// Whether this value is not greater than `other` up to `i`.
    pub fn le(&self, other: &MeasureT, i: usize) -> (r: bool)
        ensures
            r == value_le(self@, other@, i as int),
    {
        !self.gt(other, i)
    }
}

/// A vertex: its identifier, its position in the input, its priority, the
/// player that owns it, the identifiers of its successors and a name to show.
#[derive(Debug)]
pub struct Node {
    pub id: u32,
    pub count: usize,
    pub prio: u32,
    pub owner: Owner,
    pub succ: HashSet<u32>,
    pub name: Option<String>,
}

/// What is wrong with the structure of a game, or with a question put to one.
#[derive(Debug, Clone, Copy, PartialEq, Eq, Structural)]
pub enum GameError {
    /// A vertex is filed under a key that is not its identifier.
    Misfiled { key: u32, id: u32 },
    /// A vertex has no successor.
    NoSuccessor { id: u32 },
    /// A successor of a vertex is no vertex of the game.
    UnknownSuccessor { id: u32, successor: u32 },
    /// The game has more vertices, or a higher priority, than can be counted.
    TooLarge,
    /// No vertex of the game has this identifier.
    UnknownVertex { id: u32 },
}

/// What a vertex is: its identifier, its position in the input, its
/// priority, the player that owns it, the identifiers of its successors and
/// the name to show.
pub struct Vertex {
    pub id: u32,
    pub count: usize,
    pub prio: u32,
    pub owner: Owner,
    pub succ: Set<u32>,
    pub name: Option<Seq<char>>,
}

impl View for Node {
    type V = Vertex;

    open spec fn view(&self) -> Vertex {
        Vertex {
            id: self.id,
            count: self.count,
            prio: self.prio,
            owner: self.owner,
            succ: self.succ@,
            name: match self.name {
                Some(s) => Some(s@),
                None => None,
            },
        }
    }
}

/// The vertices that the nodes of `m` are.
pub open spec fn views(m: Map<u32, Node>) -> Map<u32, Vertex> {
    m.map_values(|n: Node| n@)
}

/// Every vertex is filed under its own identifier.
pub open spec fn filed(g: Map<u32, Vertex>) -> bool {
    forall|key: u32| #[trigger] g.contains_key(key) ==> g[key].id == key
}

/// Every vertex has a successor.
pub open spec fn total(g: Map<u32, Vertex>) -> bool {
    forall|id: u32| #[trigger] g.contains_key(id) ==> g[id].succ.len() > 0
}

/// Every successor of a vertex is a vertex.
pub open spec fn closed(g: Map<u32, Vertex>) -> bool {
    forall|id: u32, w: u32|
        g.contains_key(id) && #[trigger] g[id].succ.contains(w) ==> g.contains_key(w)
}

/// The structure that the engine relies on.
pub open spec fn sound(g: Map<u32, Vertex>) -> bool {
    filed(g) && total(g) && closed(g)
}

/// `top` is the highest priority of a vertex, and 0 where there is no vertex.
pub open spec fn highest_priority(g: Map<u32, Vertex>, top: u32) -> bool {
    &&& forall|id: u32| #[trigger] g.contains_key(id) ==> g[id].prio <= top
    &&& (top == 0 || exists|id: u32| #[trigger] g.contains_key(id) && g[id].prio == top)
}

/// The number of vertices that have priority `p`.
pub open spec fn priority_count(g: Map<u32, Vertex>, p: int) -> nat {
    g.dom().filter(|id: u32| g[id].prio == p).len()
}

/// The greatest measure of a game with highest priority `top`: at each odd
/// position the number of vertices of that priority, 0 at the even ones.
pub open spec fn bound_of(g: Map<u32, Vertex>, top: u32) -> Seq<u32> {
    Seq::new(
        (top + 1) as nat,
        |k: int|
            if k % 2 == 1 {
                priority_count(g, k) as u32
            } else {
                0u32
            },
    )
}

/// The number of identifiers in `s` whose vertex has priority `p`.
pub open spec fn tally(g: Map<u32, Vertex>, s: Seq<u32>, p: int) -> nat
    decreases s.len(),
{
    if s.len() == 0 {
        0
    } else {
        tally(g, s.drop_last(), p) + if g[s.last()].prio == p {
            1nat
        } else {
            0nat
        }
    }
}

/// Counting along a list that names each vertex once counts the vertices.
pub proof fn lemma_tally(g: Map<u32, Vertex>, s: Seq<u32>, p: int)
    requires
        s.no_duplicates(),
    ensures
        tally(g, s, p) == s.to_set().filter(|id: u32| g[id].prio == p).len(),
        tally(g, s, p) <= s.len(),
    decreases s.len(),
{
    let pred = |id: u32| g[id].prio == p;
    vstd::seq_lib::seq_to_set_is_finite(s);
    if s.len() == 0 {
        assert(s.to_set().filter(pred) =~= Set::<u32>::empty());
    } else {
        let t = s.drop_last();
        let x = s.last();
        lemma_tally(g, t, p);
        vstd::seq_lib::seq_to_set_is_finite(t);
        assert(!t.to_set().contains(x)) by {
            if t.to_set().contains(x) {
                let j = choose|j: int| 0 <= j < t.len() && t[j] == x;
                assert(s[j] == s[s.len() - 1]);
            }
        }
        assert(s.to_set() =~= t.to_set().insert(x)) by {
            assert forall|y: u32| s.to_set().contains(y) implies t.to_set().insert(x).contains(
                y,
            ) by {
                let j = choose|j: int| 0 <= j < s.len() && s[j] == y;
                if j < s.len() - 1 {
                    assert(t[j] == y);
                }
            }
            assert forall|y: u32| t.to_set().insert(x).contains(y) implies s.to_set().contains(
                y,
            ) by {
                if y == x {
                    assert(s[s.len() - 1] == y);
                } else {
                    let j = choose|j: int| 0 <= j < t.len() && t[j] == y;
                    assert(s[j] == y);
                }
            }
        }
        if pred(x) {
            assert(s.to_set().filter(pred) =~= t.to_set().filter(pred).insert(x));
        } else {
            assert(s.to_set().filter(pred) =~= t.to_set().filter(pred));
        }
    }
}

/// The game is small enough for the counters of the machine: it has no more
/// vertices than 32 bits can count, and no priority beyond the positions
/// that a vector can have.
pub open spec fn countable(g: Map<u32, Vertex>) -> bool {
    &&& g.dom().len() <= u32::MAX
    &&& forall|id: u32| #[trigger] g.contains_key(id) ==> g[id].prio < usize::MAX
}

/// What the error `e` says of the vertices `g`. Each kind of flaw is
/// reported only where the ones before it are absent.
pub open spec fn flawed(g: Map<u32, Vertex>, e: GameError) -> bool {
    match e {
        GameError::Misfiled { key, id } => g.contains_key(key) && g[key].id == id && id != key,
        GameError::NoSuccessor { id } => filed(g) && g.contains_key(id) && g[id].succ.len() == 0,
        GameError::UnknownSuccessor { id, successor } => {
            &&& filed(g)
            &&& total(g)
            &&& g.contains_key(id)
            &&& g[id].succ.contains(successor)
            &&& !g.contains_key(successor)
        },
        GameError::TooLarge => sound(g) && !countable(g),
        GameError::UnknownVertex { .. } => false,
    }
}

/// The vertices of `vs` by identifier: where two share an identifier, the
/// one that comes first stays.
pub open spec fn gathered(vs: Seq<Vertex>) -> Map<u32, Vertex>
    decreases vs.len(),
{
    if vs.len() == 0 {
        Map::empty()
    } else {
        gathered(vs.drop_first()).insert(vs[0].id, vs[0])
    }
}

/// The vertices that the nodes of `s` are.
pub open spec fn node_views(s: Seq<Node>) -> Seq<Vertex> {
    s.map_values(|n: Node| n@)
}

/// A parity game: its vertices by identifier, with the highest priority and
/// the greatest measure, both worked out once when the game is made.
#[derive(Debug)]
pub struct Game {
    id_to_node: HashMap<u32, Node>,
    ids: Vec<u32>,
    max_prio: u32,
    max_measure: Measure,
}

impl View for Game {
    type V = Map<u32, Vertex>;

    closed spec fn view(&self) -> Map<u32, Vertex> {
        views(self.id_to_node@)
    }
}

/// A vector of `n` zeros.
fn zeroed(n: usize) -> (v: Vec<u32>)
    ensures
        v@ == zeros(n as nat),
{
    let mut v: Vec<u32> = Vec::new();
    while v.len() < n
        invariant
            v@.len() <= n,
            forall|k: int| 0 <= k < v@.len() ==> v@[k] == 0,
        decreases n - v@.len(),
    {
        v.push(0);
    }
    assert(v@ =~= zeros(n as nat));
    v
}

/// A successor of `node` that is no key of `map`, where there is one.
fn unknown_successor(node: &Node, map: &HashMap<u32, Node>) -> (r: Option<u32>)
    ensures
        match r {
            Some(w) => node.succ@.contains(w) && !map@.contains_key(w),
            None => forall|w: u32| node.succ@.contains(w) ==> map@.contains_key(w),
        },
{
    for w in it: node.succ.iter()
        invariant
            it.seq() == spec_hash_keys_iter(&node.succ).remaining(),
            forall|j: int| 0 <= j < it.index() ==> map@.contains_key(*it.seq()[j]),
    {
        assert(it.seq().unref()[it.index()] == *w);
        assert(it.seq().unref().to_set().contains(*w));
        if !map.contains_key(w) {
            return Some(*w);
        }
    }
    proof {
        let seen = spec_hash_keys_iter(&node.succ).remaining();
        assert forall|w: u32| node.succ@.contains(w) implies map@.contains_key(w) by {
            assert(seen.unref().to_set().contains(w));
            let j = choose|j: int| 0 <= j < seen.unref().len() && seen.unref()[j] == w;
            assert(*seen[j] == w);
        }
    }
    None
}

impl Game {
    /// The highest priority of a vertex.
    pub closed spec fn top(&self) -> u32 {
        self.max_prio
    }

    /// The greatest measure of the game.
    pub closed spec fn bound(&self) -> Seq<u32> {
        self.max_measure@
    }

    /// The identifiers of the vertices, each once, in the order in which the
    /// game walks over its vertices.
    pub closed spec fn listing(&self) -> Seq<u32> {
        self.ids@
    }

    /// What holds of every game.
    #[verifier::type_invariant]
    pub open spec fn wf(&self) -> bool {
        &&& sound(self@)
        &&& lists(self.listing(), self@.dom())
        &&& self.listing().len() <= u32::MAX
        &&& self.top() < usize::MAX
        &&& highest_priority(self@, self.top())
        &&& self.bound() == bound_of(self@, self.top())
    }

    /// The value that the engine starts from at every vertex.
    pub open spec fn zero(&self) -> Value {
        Value::Measure(zeros((self.top() + 1) as nat))
    }

    /// The assignment that the engine starts from.
    pub open spec fn bottom(&self) -> Map<u32, Value> {
        Map::new(|id: u32| self@.contains_key(id), |id: u32| self.zero())
    }

    /// The highest priority among the vertices listed in `ids`.
    fn _max_prio(id_to_node: &HashMap<u32, Node>, ids: &Vec<u32>) -> (top: u32)
        requires
            lists(ids@, views(id_to_node@).dom()),
        ensures
            highest_priority(views(id_to_node@), top),
    {
        let ghost g = views(id_to_node@);
        let mut top: u32 = 0;
        let mut j: usize = 0;
        while j < ids.len()
            invariant
                g == views(id_to_node@),
                j <= ids@.len(),
                lists(ids@, g.dom()),
                forall|x: int| 0 <= x < j ==> g[ids@[x]].prio <= top,
                top == 0 || exists|id: u32| #[trigger]
                    g.contains_key(id) && g[id].prio == top,
            decreases ids@.len() - j,
        {
            assert(ids@.to_set().contains(ids@[j as int]));
            let node: &Node = id_to_node.get(&ids[j]).unwrap();
            if node.prio > top {
                top = node.prio;
            }
            j = j + 1;
        }
        proof {
            assert forall|id: u32| #[trigger] g.contains_key(id) implies g[id].prio
                <= top by {
                assert(ids@.to_set().contains(id));
                let x = choose|x: int| 0 <= x < ids@.len() && ids@[x] == id;
                assert(g[ids@[x]].prio <= top);
            }
        }
        top
    }

    /// The greatest measure: each odd position holds the number of vertices
    /// of that priority.
    fn _max_measure(id_to_node: &HashMap<u32, Node>, ids: &Vec<u32>, max_prio: u32) -> (r: Measure)
        requires
            lists(ids@, views(id_to_node@).dom()),
            ids@.len() <= u32::MAX,
            max_prio < usize::MAX,
            highest_priority(views(id_to_node@), max_prio),
        ensures
            r@ == bound_of(views(id_to_node@), max_prio),
    {
        let ghost g = views(id_to_node@);
        let mut measure: Vec<u32> = zeroed(max_prio as usize + 1);
        let mut j: usize = 0;
        while j < ids.len()
            invariant
                g == views(id_to_node@),
                j <= ids@.len(),
                lists(ids@, g.dom()),
                ids@.len() <= u32::MAX,
                highest_priority(g, max_prio),
                measure@.len() == max_prio + 1,
                forall|k: int|
                    0 <= k <= max_prio ==> #[trigger] measure@[k] == if k % 2 == 1 {
                        tally(g, ids@.take(j as int), k)
                    } else {
                        0nat
                    },
            decreases ids@.len() - j,
        {
            assert(ids@.to_set().contains(ids@[j as int]));
            let node: &Node = id_to_node.get(&ids[j]).unwrap();
            let p: usize = node.prio as usize;
            proof {
                assert(ids@.take(j + 1).drop_last() == ids@.take(j as int));
                assert(ids@.take(j + 1).last() == ids@[j as int]);
                lemma_tally(g, ids@.take(j as int), p as int);
            }
            if p % 2 == 1 {
                let old_count: u32 = measure[p];
                measure.set(p, old_count + 1);
            }
            j = j + 1;
        }
        proof {
            assert(ids@.take(j as int) == ids@);
            assert forall|k: int| 0 <= k <= max_prio implies #[trigger] measure@[k] == bound_of(
                g,
                max_prio,
            )[k] by {
                lemma_tally(g, ids@, k);
            }
            assert(measure@ =~= bound_of(g, max_prio));
        }
        Measure(measure)
    }

    /// Makes a game of the vertices in `id_to_node`, or says what is wrong
    /// with them. A vertex filed under another key than its identifier is
    /// reported before a vertex without successors, that one before a
    /// successor that is no vertex, and that one before a game that is too
    /// large to count.
    pub fn new(id_to_node: HashMap<u32, Node>) -> (r: Result<Game, GameError>)
        ensures
            match r {
                Ok(game) => game@ == views(id_to_node@) && game.wf(),
                Err(e) => flawed(views(id_to_node@), e),
            },
            r is Ok <==> sound(views(id_to_node@)) && countable(views(id_to_node@)),
    {
        let ghost g = views(id_to_node@);
        let ids: Vec<u32> = key_list(&id_to_node);
        assert(g.dom() =~= id_to_node@.dom());
        let mut misfiled: Option<(u32, u32)> = None;
        let mut lonely: Option<u32> = None;
        let mut dangling: Option<(u32, u32)> = None;
        let mut j: usize = 0;
        while j < ids.len()
            invariant
                g == views(id_to_node@),
                j <= ids@.len(),
                lists(ids@, g.dom()),
                match misfiled {
                    Some((key, id)) => g.contains_key(key) && g[key].id == id
                        && id != key,
                    None => forall|x: int| 0 <= x < j ==> g[ids@[x]].id == ids@[x],
                },
                match lonely {
                    Some(id) => g.contains_key(id) && g[id].succ.len() == 0,
                    None => forall|x: int| 0 <= x < j ==> g[ids@[x]].succ.len() > 0,
                },
                match dangling {
                    Some((id, w)) => g.contains_key(id) && g[id].succ.contains(
                        w,
                    ) && !g.contains_key(w),
                    None => forall|x: int, w: u32|
                        0 <= x < j && #[trigger] g[ids@[x]].succ.contains(w)
                            ==> g.contains_key(w),
                },
            decreases ids@.len() - j,
        {
            let key: u32 = ids[j];
            assert(ids@.to_set().contains(ids@[j as int]));
            let node: &Node = id_to_node.get(&key).unwrap();
            if misfiled.is_none() && node.id != key {
                misfiled = Some((key, node.id));
            }
            if lonely.is_none() && node.succ.len() == 0 {
                lonely = Some(key);
            }
            if dangling.is_none() {
                match unknown_successor(node, &id_to_node) {
                    Some(w) => {
                        dangling = Some((key, w));
                    },
                    None => {},
                }
            }
            j = j + 1;
        }
        proof {
            assert forall|id: u32| #[trigger] g.contains_key(id) implies exists|x: int|
                0 <= x < ids@.len() && ids@[x] == id by {
                assert(ids@.to_set().contains(id));
            }
        }
        if let Some((key, id)) = misfiled {
            return Err(GameError::Misfiled { key, id });
        }
        proof {
            assert forall|key: u32| #[trigger] g.contains_key(key) implies g[key].id
                == key by {
                let x = choose|x: int| 0 <= x < ids@.len() && ids@[x] == key;
                assert(g[ids@[x]].id == ids@[x]);
            }
        }
        if let Some(id) = lonely {
            return Err(GameError::NoSuccessor { id });
        }
        proof {
            assert forall|id: u32| #[trigger] g.contains_key(id) implies g[id].succ.len()
                > 0 by {
                let x = choose|x: int| 0 <= x < ids@.len() && ids@[x] == id;
                assert(g[ids@[x]].succ.len() > 0);
            }
        }
        if let Some((id, successor)) = dangling {
            return Err(GameError::UnknownSuccessor { id, successor });
        }
        proof {
            assert forall|id: u32, w: u32|
                g.contains_key(id) && #[trigger] g[id].succ.contains(
                    w,
                ) implies g.contains_key(w) by {
                let x = choose|x: int| 0 <= x < ids@.len() && ids@[x] == id;
                assert(g[ids@[x]].succ.contains(w));
            }
        }
        if ids.len() > u32::MAX as usize {
            return Err(GameError::TooLarge);
        }
        let max_prio: u32 = Game::_max_prio(&id_to_node, &ids);
        if max_prio as usize == usize::MAX {
            return Err(GameError::TooLarge);
        }
        let max_measure: Measure = Game::_max_measure(&id_to_node, &ids, max_prio);
        Ok(Game { id_to_node, ids, max_prio, max_measure })
    }

    /// Makes a game of the vertices in `nodes`, of which the first stays
    /// where two share an identifier, or says what is wrong with them.
    pub fn from_nodes(nodes: Vec<Node>) -> (r: Result<Game, GameError>)
        ensures
            match r {
                Ok(game) => game@ == gathered(node_views(nodes@)) && game.wf(),
                Err(e) => flawed(gathered(node_views(nodes@)), e),
            },
            r is Ok <==> sound(gathered(node_views(nodes@))) && countable(
                gathered(node_views(nodes@)),
            ),
    {
        let ghost all = node_views(nodes@);
        let mut nodes = nodes;
        let mut map: HashMap<u32, Node> = HashMap::new();
        assert(all.skip(all.len() as int) =~= Seq::<Vertex>::empty());
        assert(views(map@) =~= gathered(all.skip(all.len() as int)));
        while nodes.len() > 0
            invariant
                nodes@.len() <= all.len(),
                node_views(nodes@) == all.take(nodes@.len() as int),
                views(map@) == gathered(all.skip(nodes@.len() as int)),
            decreases nodes@.len(),
        {
            let ghost k: int = nodes@.len() - 1;
            let ghost before = nodes@;
            let node: Node = nodes.pop().unwrap();
            proof {
                assert(node@ == node_views(before)[k]);
                assert(node@ == all[k]);
                assert(all.skip(k).drop_first() == all.skip(k + 1));
                assert(node_views(nodes@) =~= all.take(k));
                assert(views(map@.insert(node.id, node)) =~= views(map@).insert(node.id, node@));
            }
            map.insert(node.id, node);
        }
        assert(all.skip(0) == all);
        Game::new(map)
    }

    /// The vertex with identifier `id`.
    pub fn node(&self, id: &u32) -> (r: Result<&Node, GameError>)
        ensures
            match r {
                Ok(node) => self@.contains_key(*id) && node@ == self@[*id] && node.id == *id,
                Err(e) => !self@.contains_key(*id) && e == (GameError::UnknownVertex { id: *id }),
            },
    {
        proof {
            use_type_invariant(self);
        }
        match self.id_to_node.get(id) {
            Some(node) => Ok(node),
            None => Err(GameError::UnknownVertex { id: *id }),
        }
    }

    /// The vertices, each once, in no order that means anything.
    pub fn nodes(&self) -> (r: Vec<&Node>)
        ensures
            r@.len() == self@.dom().len(),
            forall|j: int|
                0 <= j < r@.len() ==> self@.contains_key(r@[j].id) && (#[trigger] r@[j])@
                    == self@[r@[j].id],
            forall|i: int, j: int| 0 <= i < j < r@.len() ==> r@[i].id != r@[j].id,
            forall|id: u32|
                self@.contains_key(id) ==> exists|j: int| 0 <= j < r@.len() && #[trigger] r@[j].id == id,
    {
        proof {
            use_type_invariant(self);
            vstd::seq_lib::seq_to_set_is_finite(self.ids@);
            self.ids@.unique_seq_to_set();
        }
        let mut r: Vec<&Node> = Vec::new();
        let mut j: usize = 0;
        while j < self.ids.len()
            invariant
                j <= self.ids@.len(),
                self.wf(),
                r@.len() == j,
                forall|x: int|
                    0 <= x < j ==> self@.contains_key(self.ids@[x]) && (#[trigger] r@[x])@
                        == self@[self.ids@[x]] && r@[x].id == self.ids@[x],
            decreases self.ids@.len() - j,
        {
            assert(self.ids@.to_set().contains(self.ids@[j as int]));
            let node: &Node = self.id_to_node.get(&self.ids[j]).unwrap();
            r.push(node);
            j = j + 1;
        }
        proof {
            assert forall|id: u32| self@.contains_key(id) implies exists|j: int|
                0 <= j < r@.len() && #[trigger] r@[j].id == id by {
                assert(self.ids@.to_set().contains(id));
                let x = choose|x: int| 0 <= x < self.ids@.len() && self.ids@[x] == id;
                assert(r@[x].id == id);
            }
        }
        r
    }

    /// The identifiers of the vertices, each once.
    pub fn ids(&self) -> (r: &Vec<u32>)
        ensures
            r@ == self.listing(),
            lists(r@, self@.dom()),
    {
        proof {
            use_type_invariant(self);
        }
        &self.ids
    }

    /// The all-zero measure of the game: one counter for each priority from 0
    /// up to the highest.
    pub fn new_measure(&self) -> (r: MeasureT)
        ensures
            r@ == self.zero(),
            r@ == Value::Measure(zeros((self.top() + 1) as nat)),
    {
        proof {
            use_type_invariant(self);
        }
        let d: usize = self.max_prio() as usize + 1;
        MeasureT::Measure(Measure(zeroed(d)))
    }

    /// The assignment that gives every vertex the all-zero measure.
    pub fn new_progress(&self) -> (r: Progress)
        ensures
            r@ == self.bottom(),
            r@.dom() == self@.dom(),
            forall|id: u32| #[trigger] r@.contains_key(id) ==> value_fits(r@[id], self.bound()),
    {
        proof {
            use_type_invariant(self);
            assert(within(zeros((self.top() + 1) as nat), self.bound()));
            assert(self.bottom().dom() =~= self@.dom());
        }
        let mut m: HashMap<u32, MeasureT> = HashMap::new();
        let mut j: usize = 0;
        while j < self.ids.len()
            invariant
                j <= self.ids@.len(),
                self.wf(),
                m@.dom() == self.ids@.take(j as int).to_set(),
                forall|id: u32| #[trigger] m@.contains_key(id) ==> m@[id]@ == self.zero(),
            decreases self.ids@.len() - j,
        {
            let fresh: MeasureT = self.new_measure();
            m.insert(self.ids[j], fresh);
            proof {
                assert(self.ids@.take(j + 1) == self.ids@.take(j as int).push(self.ids@[j as int]));
                assert(self.ids@.take(j + 1).to_set() =~= self.ids@.take(j as int).to_set().insert(
                    self.ids@[j as int],
                )) by {
                    vstd::seq_lib::seq_to_set_is_finite(self.ids@.take(j as int));
                    self.ids@.take(j as int).lemma_push_to_set_commute(self.ids@[j as int]);
                }
            }
            j = j + 1;
        }
        let r = Progress(m);
        proof {
            assert(self.ids@.take(j as int) == self.ids@);
            assert(r@ =~= self.bottom());
        }
        r
    }

    /// The highest priority of a vertex of the game, or 0 where the game has
    /// no vertex.
    pub fn max_prio(&self) -> (r: u32)
        ensures
            r == self.top(),
            highest_priority(self@, r),
    {
        proof {
            use_type_invariant(self);
        }
        self.max_prio
    }

    /// The greatest measure of the game.
    pub fn max_measure(&self) -> (r: &Measure)
        ensures
            r@ == self.bound(),
            r@ == bound_of(self@, self.top()),
    {
        proof {
            use_type_invariant(self);
        }
        &self.max_measure
    }
}

impl MeasureT {
    /// The step to the next value: `Top` stays `Top`, the measure that equals
    /// the greatest measure of `game` goes to `Top`, and any other measure
    /// goes up by one at the highest odd position that still lies below the
    /// greatest measure, with every odd position below that one set to 0.
    pub fn inc(&self, game: &Game) -> (r: MeasureT)
        ensures
            r@ == value_inc(self@, game.bound()),
            self@ is Top ==> r@ is Top,
            match (self@, r@) {
                (Value::Measure(m), Value::Top) => within(m, game.bound()) ==> eq_upto(
                    m,
                    game.bound(),
                    game.top() as int,
                ),
                (Value::Measure(m), Value::Measure(x)) => within(m, game.bound()) ==> fits(
                    x,
                    game.bound(),
                ) && gt_upto(x, m, game.top() as int),
                (Value::Top, _) => true,
            },
    {
        proof {
            use_type_invariant(game);
        }
        match self {
            MeasureT::Top => MeasureT::Top,
            MeasureT::Measure(m) => m.successor(game.max_measure()),
        }
    }
}

/// What the engine holds of each vertex.
#[derive(Debug)]
pub struct Progress(pub HashMap<u32, MeasureT>);

impl View for Progress {
    type V = Map<u32, Value>;

    open spec fn view(&self) -> Map<u32, Value> {
        self.0@.map_values(|m: MeasureT| m@)
    }
}

/// The vertices that `owner` wins under the assignment `p`: for `Odd` those
/// whose value is `Top`, for `Even` all the others.
pub open spec fn winning(p: Map<u32, Value>, owner: Owner) -> Set<u32> {
    Set::new(|id: u32| p.contains_key(id) && ((p[id] is Top) <==> owner == Owner::Odd))
}

/// Every vertex is won by exactly one player: the two winning sets are
/// disjoint and together hold every vertex.
pub proof fn lemma_winning_sets_partition(p: Map<u32, Value>)
    ensures
        winning(p, Owner::Even).union(winning(p, Owner::Odd)) == p.dom(),
        winning(p, Owner::Even).disjoint(winning(p, Owner::Odd)),
{
    assert(winning(p, Owner::Even).union(winning(p, Owner::Odd)) =~= p.dom());
}

impl Progress {
    /// The identifiers of the vertices that the assignment speaks of.
    pub fn nodes(&self) -> (r: HashSet<u32>)
        ensures
            r@ == self@.dom(),
    {
        let ids: Vec<u32> = key_list(&self.0);
        let mut r: HashSet<u32> = HashSet::new();
        let mut j: usize = 0;
        while j < ids.len()
            invariant
                j <= ids@.len(),
                r@ == ids@.take(j as int).to_set(),
            decreases ids@.len() - j,
        {
            r.insert(ids[j]);
            proof {
                assert(ids@.take(j + 1) == ids@.take(j as int).push(ids@[j as int]));
                ids@.take(j as int).lemma_push_to_set_commute(ids@[j as int]);
            }
            j = j + 1;
        }
        proof {
            assert(ids@.take(j as int) == ids@);
            assert(r@ =~= self@.dom());
        }
        r
    }

    /// The value of the vertex `node_id`.
    pub fn measure(&self, node_id: &u32) -> (r: &MeasureT)
        requires
            self@.contains_key(*node_id),
        ensures
            r@ == self@[*node_id],
    {
        self.0.get(node_id).unwrap()
    }

    /// The vertices that `owner` wins.
    pub fn winning_set(&self, owner: Owner) -> (r: HashSet<u32>)
        ensures
            r@ == winning(self@, owner),
    {
        let ids: Vec<u32> = key_list(&self.0);
        let mut r: HashSet<u32> = HashSet::new();
        let mut j: usize = 0;
        while j < ids.len()
            invariant
                j <= ids@.len(),
                lists(ids@, self.0@.dom()),
                forall|id: u32|
                    r@.contains(id) <==> ids@.take(j as int).contains(id) && winning(
                        self@,
                        owner,
                    ).contains(id),
            decreases ids@.len() - j,
        {
            let id: u32 = ids[j];
            assert(ids@.to_set().contains(ids@[j as int]));
            let top: bool = match self.0.get(&id).unwrap() {
                MeasureT::Top => true,
                MeasureT::Measure(_) => false,
            };
            let wanted: bool = match owner {
                Owner::Even => !top,
                Owner::Odd => top,
            };
            if wanted {
                r.insert(id);
            }
            proof {
                assert(ids@.take(j + 1) == ids@.take(j as int).push(ids@[j as int]));
                assert forall|x: u32| ids@.take(j + 1).contains(x) <==> ids@.take(j as int).contains(
                    x,
                ) || x == id by {
                    if ids@.take(j as int).contains(x) {
                        let i = choose|i: int| 0 <= i < j && ids@.take(j as int)[i] == x;
                        assert(ids@.take(j + 1)[i] == x);
                    }
                    if x == id {
                        assert(ids@.take(j + 1)[j as int] == x);
                    }
                }
            }
            j = j + 1;
        }
        proof {
            assert(ids@.take(j as int) == ids@);
            assert forall|id: u32| r@.contains(id) <==> winning(self@, owner).contains(id) by {
                if winning(self@, owner).contains(id) {
                    assert(ids@.to_set().contains(id));
                }
            }
            assert(r@ =~= winning(self@, owner));
        }
        r
    }
}

/// Whether the two sets hold the same identifiers.
pub fn same_set(a: &HashSet<u32>, b: &HashSet<u32>) -> (r: bool)
    ensures
        r == (a@ == b@),
{
    let left: Vec<u32> = member_list(a);
    let mut j: usize = 0;
    while j < left.len()
        invariant
            j <= left@.len(),
            lists(left@, a@),
            forall|x: int| 0 <= x < j ==> b@.contains(left@[x]),
        decreases left@.len() - j,
    {
        if !b.contains(&left[j]) {
            assert(a@.contains(left@[j as int])) by {
                assert(left@.to_set().contains(left@[j as int]));
            }
            return false;
        }
        j = j + 1;
    }
    let right: Vec<u32> = member_list(b);
    let mut k: usize = 0;
    while k < right.len()
        invariant
            k <= right@.len(),
            lists(right@, b@),
            forall|x: int| 0 <= x < k ==> a@.contains(right@[x]),
        decreases right@.len() - k,
    {
        if !a.contains(&right[k]) {
            assert(b@.contains(right@[k as int])) by {
                assert(right@.to_set().contains(right@[k as int]));
            }
            return false;
        }
        k = k + 1;
    }
    proof {
        assert forall|w: u32| a@.contains(w) <==> b@.contains(w) by {
            if a@.contains(w) {
                assert(left@.to_set().contains(w));
            }
            if b@.contains(w) {
                assert(right@.to_set().contains(w));
            }
        }
        assert(a@ =~= b@);
    }
    true
}

/// The two maps hold the same game: the same identifiers, and under each the
/// same priority, the same owner and the same successors. Names and
/// positions in the input are for show and do not count.
pub open spec fn same_graph(g: Map<u32, Vertex>, h: Map<u32, Vertex>) -> bool {
    &&& g.dom() == h.dom()
    &&& forall|id: u32| #[trigger]
        g.contains_key(id) ==> g[id].prio == h[id].prio && g[id].owner == h[id].owner
            && g[id].succ == h[id].succ
}

/// The two assignments speak of the same vertices and give each the same value.
pub open spec fn same_progress(p: Map<u32, Value>, q: Map<u32, Value>) -> bool {
    &&& p.dom() == q.dom()
    &&& forall|id: u32| #[trigger] p.contains_key(id) ==> same_value(p[id], q[id])
}

impl Game {
    /// Whether every vertex of this game is a vertex of `other` with the
    /// same priority, owner and successors.
    fn within_game(&self, other: &Game) -> (r: bool)
        ensures
            r == forall|id: u32| #[trigger]
                self@.contains_key(id) ==> other@.contains_key(id) && self@[id].prio
                    == other@[id].prio && self@[id].owner == other@[id].owner && self@[id].succ
                    == other@[id].succ,
    {
        proof {
            use_type_invariant(self);
            use_type_invariant(other);
        }
        let mut j: usize = 0;
        while j < self.ids.len()
            invariant
                j <= self.ids@.len(),
                self.wf(),
                forall|x: int|
                    0 <= x < j ==> {
                        let id = #[trigger] self.ids@[x];
                        other@.contains_key(id) && self@[id].prio == other@[id].prio
                            && self@[id].owner == other@[id].owner && self@[id].succ
                            == other@[id].succ
                    },
            decreases self.ids@.len() - j,
        {
            let id: u32 = self.ids[j];
            assert(self.ids@.to_set().contains(self.ids@[j as int]));
            let mine: &Node = self.id_to_node.get(&id).unwrap();
            let same: bool = match other.id_to_node.get(&id) {
                None => false,
                Some(theirs) => {
                    let owners: bool = match (mine.owner, theirs.owner) {
                        (Owner::Even, Owner::Even) => true,
                        (Owner::Odd, Owner::Odd) => true,
                        _ => false,
                    };
                    mine.prio == theirs.prio && owners && same_set(&mine.succ, &theirs.succ)
                },
            };
            if !same {
                assert(self@.contains_key(id));
                return false;
            }
            j = j + 1;
        }
        proof {
            assert forall|id: u32| #[trigger] self@.contains_key(id) implies other@.contains_key(
                id,
            ) && self@[id].prio == other@[id].prio && self@[id].owner == other@[id].owner
                && self@[id].succ == other@[id].succ by {
                assert(self.ids@.to_set().contains(id));
                let x = choose|x: int| 0 <= x < self.ids@.len() && self.ids@[x] == id;
                let _ = self.ids@[x];
            }
        }
        true
    }

    /// Whether this game and `other` are the same graph.
    pub fn same(&self, other: &Game) -> (r: bool)
        ensures
            r == same_graph(self@, other@),
    {
        let r: bool = self.within_game(other) && other.within_game(self);
        proof {
            if r {
                assert(self@.dom() =~= other@.dom());
            }
        }
        r
    }
}

impl Progress {
    /// Whether every vertex of this assignment has the same value in `other`.
    fn within_progress(&self, other: &Progress) -> (r: bool)
        ensures
            r == forall|id: u32| #[trigger]
                self@.contains_key(id) ==> other@.contains_key(id) && same_value(
                    self@[id],
                    other@[id],
                ),
    {
        let ids: Vec<u32> = key_list(&self.0);
        let mut j: usize = 0;
        while j < ids.len()
            invariant
                j <= ids@.len(),
                lists(ids@, self.0@.dom()),
                forall|x: int|
                    0 <= x < j ==> other@.contains_key(#[trigger] ids@[x]) && same_value(
                        self@[ids@[x]],
                        other@[ids@[x]],
                    ),
            decreases ids@.len() - j,
        {
            let id: u32 = ids[j];
            assert(ids@.to_set().contains(ids@[j as int]));
            let mine: &MeasureT = self.0.get(&id).unwrap();
            let same: bool = match other.0.get(&id) {
                None => false,
                Some(theirs) => mine.same(theirs),
            };
            if !same {
                assert(self@.contains_key(id));
                return false;
            }
            j = j + 1;
        }
        proof {
            assert forall|id: u32| #[trigger] self@.contains_key(id) implies other@.contains_key(
                id,
            ) && same_value(self@[id], other@[id]) by {
                assert(ids@.to_set().contains(id));
                let x = choose|x: int| 0 <= x < ids@.len() && ids@[x] == id;
                let _ = ids@[x];
            }
        }
        true
    }

    /// Whether this assignment and `other` speak of the same vertices and
    /// give each the same value.
    pub fn same(&self, other: &Progress) -> (r: bool)
        ensures
            r == same_progress(self@, other@),
    {
        let r: bool = self.within_progress(other) && other.within_progress(self);
        proof {
            if r {
                assert(self@.dom() =~= other@.dom());
            }
            if same_progress(self@, other@) {
                assert forall|id: u32| #[trigger] other@.contains_key(id) implies self@.contains_key(
                    id,
                ) && same_value(other@[id], self@[id]) by {
                    assert(self@.contains_key(id));
                    match (self@[id], other@[id]) {
                        (Value::Measure(x), Value::Measure(y)) => {
                            crate::lattice::lemma_trichotomy(x, y, span(x, y));
                            assert(span(x, y) == span(y, x));
                        },
                        _ => {},
                    }
                }
            }
        }
        r
    }
}

} // verus!
