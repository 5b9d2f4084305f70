//! A hash set of arcs. Each arc is stored as one 64-bit code, its origin in the
//! high half and its target in the low half.

use crate::graph::Edge;
use std::collections::HashSet;
use vstd::prelude::*;
use vstd::std_specs::iter::IteratorSpec;

verus! {

/// The code under which an arc is stored.
pub open spec fn arc_code(e: Edge) -> u64 {
    (e.from as u64 * 0x1_0000_0000 + e.to as u64) as u64
}

/// The arc that a code stands for.
pub open spec fn code_arc(c: u64) -> Edge {
    Edge { from: (c / 0x1_0000_0000) as u32, to: (c % 0x1_0000_0000) as u32 }
}

/// Codes and arcs correspond one to one.
pub proof fn lemma_code_round_trip(e: Edge, c: u64)
    ensures
        code_arc(arc_code(e)) == e,
        arc_code(code_arc(c)) == c,
{
}

/// The arcs of `edges` that do not touch `node`.
pub open spec fn arcs_avoiding(edges: Set<Edge>, node: u32) -> Set<Edge> {
    edges.filter(|e: Edge| e.from != node && e.to != node)
}

fn encode(e: Edge) -> (c: u64)
    ensures
        c == arc_code(e),
{
    (e.from as u64) * 0x1_0000_0000 + (e.to as u64)
}

fn decode(c: u64) -> (e: Edge)
    ensures
        e == code_arc(c),
{
    Edge { from: (c / 0x1_0000_0000) as u32, to: (c % 0x1_0000_0000) as u32 }
}

/// The members of a hash set, each once, in the order the set yields them.
pub fn hash_set_to_vec<K: Copy>(s: &HashSet<K>) -> (v: Vec<K>)
    requires
        vstd::std_specs::hash::obeys_key_model::<K>(),
    ensures
        v@.no_duplicates(),
        v@.to_set() == s@,
{
    broadcast use vstd::std_specs::hash::group_hash_axioms;

    let mut v: Vec<K> = Vec::new();
    let ghost members = vstd::std_specs::hash::spec_hash_keys_iter(s).remaining().unref();
    for x in it: s.iter()
        invariant
            it.seq().unref() == members,
            v@ == members.take(it.index()),
    {
        v.push(*x);
        assert(v@ =~= members.take(it.index() + 1));
    }
    assert(v@ =~= members);
    v
}

/// A finite set of arcs.
pub struct EdgeSet {
    codes: HashSet<u64>,
}

impl View for EdgeSet {
    type V = Set<Edge>;

    closed spec fn view(&self) -> Set<Edge> {
        Set::new(|e: Edge| self.codes@.contains(arc_code(e)))
    }
}

impl EdgeSet {
    /// The view is the image of the stored codes, so it is finite and as large
    /// as the code set.
    proof fn lemma_image(&self)
        ensures
            self@.finite(),
            self@.len() == self.codes@.len(),
    {
        broadcast use vstd::set_lib::full_set_properties;

        vstd::set_lib::lemma_len_subset(self.codes@, Set::<u64>::full());
        let f = |c: u64| code_arc(c);
        assert forall|c1: u64, c2: u64|
            self.codes@.contains(c1) && self.codes@.contains(c2) && f(c1) == f(c2) implies c1
            == c2 by {
            lemma_code_round_trip(code_arc(c1), c1);
            lemma_code_round_trip(code_arc(c2), c2);
        }
        assert forall|e: Edge| self@.contains(e) <==> self.codes@.map(f).contains(e) by {
            lemma_code_round_trip(e, arc_code(e));
            if self.codes@.map(f).contains(e) {
                let c = choose|c: u64| self.codes@.contains(c) && f(c) == e;
                lemma_code_round_trip(e, c);
            }
            if self@.contains(e) {
                assert(self.codes@.contains(arc_code(e)) && f(arc_code(e)) == e);
            }
        }
        assert(self.codes@.map(f) =~= self@);
        vstd::set_lib::lemma_map_size(self.codes@, self@, f);
    }

    /// The empty arc set.
    pub fn new() -> (s: Self)
        ensures
            s@ == Set::<Edge>::empty(),
    {
        let s = EdgeSet { codes: HashSet::new() };
        assert(s@ =~= Set::<Edge>::empty());
        s
    }

    /// Adds `edge`; returns whether it was absent before.
    pub fn insert(&mut self, edge: Edge) -> (fresh: bool)
        ensures
            final(self)@ == old(self)@.insert(edge),
            fresh == !old(self)@.contains(edge),
    {
        broadcast use vstd::std_specs::hash::group_hash_axioms;

        let fresh = self.codes.insert(encode(edge));
        proof {
            assert forall|e: Edge| self@.contains(e) <==> old(self)@.insert(edge).contains(e) by {
                lemma_code_round_trip(e, 0);
                lemma_code_round_trip(edge, 0);
            }
            assert(self@ =~= old(self)@.insert(edge));
        }
        fresh
    }

    /// Whether `edge` is a member.
    pub fn contains(&self, edge: &Edge) -> (found: bool)
        ensures
            found == self@.contains(*edge),
    {
        broadcast use vstd::std_specs::hash::group_hash_axioms;

        let code = encode(*edge);
        self.codes.contains(&code)
    }

    /// The number of arcs.
    pub fn len(&self) -> (n: usize)
        ensures
            self@.finite(),
            n == self@.len(),
    {
        broadcast use vstd::std_specs::hash::group_hash_axioms;

        proof {
            self.lemma_image();
        }
        self.codes.len()
    }

    /// Whether the set holds no arc.
    pub fn is_empty(&self) -> (empty: bool)
        ensures
            empty == (self@ == Set::<Edge>::empty()),
    {
        broadcast use vstd::std_specs::hash::group_hash_axioms;

        let empty = self.codes.len() == 0;
        proof {
            self.lemma_image();
            if empty {
                assert(self@ =~= Set::<Edge>::empty());
            } else {
                assert(self@.len() != 0);
            }
        }
        empty
    }

    /// The arcs, each once, in no particular order.
    pub fn to_vec(&self) -> (arcs: Vec<Edge>)
        ensures
            arcs@.no_duplicates(),
            arcs@.to_set() == self@,
    {
        broadcast use vstd::std_specs::hash::group_hash_axioms;

        let codes = hash_set_to_vec(&self.codes);
        let mut arcs: Vec<Edge> = Vec::new();
        let mut i: usize = 0;
        while i < codes.len()
            invariant
                i <= codes.len(),
                arcs@.len() == i,
                forall|k: int| 0 <= k < i ==> #[trigger] arcs@[k] == code_arc(codes@[k]),
            decreases codes.len() - i,
        {
            arcs.push(decode(codes[i]));
            i += 1;
        }
        proof {
            assert forall|a: int, b: int|
                0 <= a < arcs@.len() && 0 <= b < arcs@.len() && a != b implies arcs@[a]
                != arcs@[b] by {
                lemma_code_round_trip(arcs@[a], codes@[a]);
                lemma_code_round_trip(arcs@[b], codes@[b]);
            }
            assert forall|e: Edge| arcs@.to_set().contains(e) <==> self@.contains(e) by {
                if arcs@.to_set().contains(e) {
                    let k = choose|k: int| 0 <= k < arcs@.len() && arcs@[k] == e;
                    lemma_code_round_trip(e, codes@[k]);
                    assert(codes@.to_set().contains(codes@[k]));
                }
                if self@.contains(e) {
                    assert(codes@.to_set().contains(arc_code(e)));
                    let k = choose|k: int| 0 <= k < codes@.len() && codes@[k] == arc_code(e);
                    lemma_code_round_trip(e, codes@[k]);
                    assert(arcs@[k] == e);
                }
            }
            assert(arcs@.to_set() =~= self@);
        }
        arcs
    }

    /// A copy without the arcs that leave or enter `node`.
    pub fn without_node(&self, node: u32) -> (kept: Self)
        ensures
            kept@ == arcs_avoiding(self@, node),
    {
        broadcast use vstd::std_specs::hash::group_hash_axioms;

        let codes = hash_set_to_vec(&self.codes);
        let mut kept = EdgeSet { codes: HashSet::new() };
        let mut i: usize = 0;
        while i < codes.len()
            invariant
                i <= codes.len(),
                forall|c: u64|
                    kept.codes@.contains(c) <==> codes@.take(i as int).contains(c) && code_arc(
                        c,
                    ).from != node && code_arc(c).to != node,
            decreases codes.len() - i,
        {
            let arc = decode(codes[i]);
            if arc.from != node && arc.to != node {
                kept.codes.insert(codes[i]);
            }
            proof {
                assert forall|c: u64|
                    kept.codes@.contains(c) <==> codes@.take(i + 1).contains(c) && code_arc(
                        c,
                    ).from != node && code_arc(c).to != node by {
                    crate::facts::lemma_take_next_contains(codes@, i as int, c);
                }
            }
            i += 1;
        }
        proof {
            assert(codes@.take(i as int) =~= codes@);
            assert forall|e: Edge| kept@.contains(e) <==> arcs_avoiding(self@, node).contains(
                e,
            ) by {
                lemma_code_round_trip(e, 0);
                if self@.contains(e) {
                    assert(codes@.to_set().contains(arc_code(e)));
                }
                if codes@.contains(arc_code(e)) {
                    assert(codes@.to_set().contains(arc_code(e)));
                }
            }
            assert(kept@ =~= arcs_avoiding(self@, node));
        }
        kept
    }
}

} // verus!
