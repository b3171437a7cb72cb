//! The graph exporter: the acquaintance relation rendered as a directed
//! graph, one node per person id and one edge a -> b for every acknowledged
//! id b of a that names a party member. The graph itself is petgraph's;
//! its contents are named and tracked through trusted wrappers.

use vstd::prelude::*;
use vstd::multiset::Multiset;

use crate::clique::unique_ids;
use crate::person::Person;

verus! {

/// Declares petgraph's Graph so that it can stand in signatures; the value
/// is opaque, its contents are reached only through the names below.
#[verifier::external_type_specification]
#[verifier::external_body]
#[verifier::reject_recursive_types(N)]
#[verifier::reject_recursive_types(E)]
#[verifier::reject_recursive_types(Ty)]
#[verifier::reject_recursive_types(Ix)]
pub struct ExGraph<N, E, Ty, Ix>(petgraph::graph::Graph<N, E, Ty, Ix>);

/// Declares petgraph's Directed edge-type marker.
#[verifier::external_type_specification]
#[verifier::external_body]
pub struct ExDirected(petgraph::Directed);

/// The node weights of the graph, in insertion order.
pub uninterp spec fn digraph_nodes(g: petgraph::graph::DiGraph<usize, ()>) -> Seq<usize>;

/// The edges of the graph, as pairs of node positions.
pub uninterp spec fn digraph_edges(g: petgraph::graph::DiGraph<usize, ()>) -> Multiset<
    (usize, usize),
>;

/// Relies on petgraph's Graph::new: a graph with no nodes and no edges.
#[verifier::external_body]
fn digraph_new() -> (g: petgraph::graph::DiGraph<usize, ()>)
    ensures
        digraph_nodes(g) == Seq::<usize>::empty(),
        digraph_edges(g) == Multiset::<(usize, usize)>::empty(),
{
    petgraph::graph::DiGraph::new()
}

/// Relies on petgraph's Graph::add_node: appends one node with the given
/// weight and returns its index, the previous node count; edges unchanged.
/// Panics only at the index type's node limit, ruled out here.
#[verifier::external_body]
fn digraph_add_node(g: &mut petgraph::graph::DiGraph<usize, ()>, w: usize) -> (r: usize)
    requires
        digraph_nodes(*old(g)).len() < 0xFFFF_FFFFusize,
    ensures
        digraph_nodes(*final(g)) == digraph_nodes(*old(g)).push(w),
        digraph_edges(*final(g)) == digraph_edges(*old(g)),
        r == digraph_nodes(*old(g)).len(),
{
    g.add_node(w).index()
}

/// Relies on petgraph's Graph::add_edge: appends one directed edge between
/// two existing nodes, given here by position; nodes unchanged. Panics on a
/// position out of bounds or at the edge limit, both ruled out here.
#[verifier::external_body]
fn digraph_add_edge(g: &mut petgraph::graph::DiGraph<usize, ()>, a: usize, b: usize)
    requires
        a < digraph_nodes(*old(g)).len(),
        b < digraph_nodes(*old(g)).len(),
        digraph_edges(*old(g)).len() < 0xFFFF_FFFFusize,
    ensures
        digraph_nodes(*final(g)) == digraph_nodes(*old(g)),
        digraph_edges(*final(g)) == digraph_edges(*old(g)).insert((a, b)),
{
    g.add_edge(
        petgraph::graph::NodeIndex::new(a),
        petgraph::graph::NodeIndex::new(b),
        (),
    );
}

/// Whether some person of the sequence carries the given id.
pub open spec fn seq_has_id(s: Seq<Person>, id: usize) -> bool {
    exists|j: int| 0 <= j < s.len() && (#[trigger] s[j]).id == id
}

/// The position of a person with the given id.
pub open spec fn pos_of(s: Seq<Person>, id: usize) -> int {
    choose|j: int| 0 <= j < s.len() && (#[trigger] s[j]).id == id
}

/// The edges contributed by the first c acknowledged ids of the person at
/// position i: one edge to each acknowledged id that names a party member.
pub open spec fn person_edges(s: Seq<Person>, i: usize, c: int) -> Multiset<(usize, usize)>
    decreases c,
{
    if c <= 0 {
        Multiset::<(usize, usize)>::empty()
    } else {
        let k = s[i as int].known_people@[c - 1];
        let rest = person_edges(s, i, c - 1);
        if seq_has_id(s, k) {
            rest.insert((i, pos_of(s, k) as usize))
        } else {
            rest
        }
    }
}

/// All edges contributed by the first a persons.
pub open spec fn party_edges_upto(s: Seq<Person>, a: int) -> Multiset<(usize, usize)>
    decreases a,
{
    if a <= 0 {
        Multiset::<(usize, usize)>::empty()
    } else {
        party_edges_upto(s, a - 1).add(
            person_edges(s, (a - 1) as usize, s[a - 1].known_people@.len() as int),
        )
    }
}

/// All edges of the acquaintance graph of the party.
pub open spec fn party_edges(s: Seq<Person>) -> Multiset<(usize, usize)> {
    party_edges_upto(s, s.len() as int)
}

/// A person's edge multiset only grows with the count of ids considered.
proof fn lemma_person_edges_len_mono(s: Seq<Person>, i: usize, c1: int, c2: int)
    requires
        0 <= c1 <= c2,
    ensures
        person_edges(s, i, c1).len() <= person_edges(s, i, c2).len(),
    decreases c2 - c1,
{
    if c1 < c2 {
        lemma_person_edges_len_mono(s, i, c1, c2 - 1);
    }
}

/// The edge multiset only grows with the count of persons considered.
proof fn lemma_upto_len_mono(s: Seq<Person>, a1: int, a2: int)
    requires
        0 <= a1 <= a2,
    ensures
        party_edges_upto(s, a1).len() <= party_edges_upto(s, a2).len(),
    decreases a2 - a1,
{
    if a1 < a2 {
        lemma_upto_len_mono(s, a1, a2 - 1);
    }
}

/// Linear scan for the position of a person with the given id.
#[verifier::loop_isolation(false)]
fn position_of_id(v: &Vec<Person>, id: usize) -> (r: Option<usize>)
    ensures
        match r {
            Some(q) => q < v@.len() && v@[q as int].id == id,
            None => forall|w: int| 0 <= w < v@.len() ==> (#[trigger] v@[w]).id != id,
        },
{
    let mut i: usize = 0;
    while i < v.len()
        invariant
            i <= v@.len(),
            forall|w: int| 0 <= w < i ==> (#[trigger] v@[w]).id != id,
        decreases v@.len() - i,
    {
        if v[i].id == id {
            return Some(i);
        }
        i += 1;
    }
    None
}

/// Render the acquaintance relation of the party as a directed graph: one
/// node per person, labelled with its id in party order, and one directed
/// edge a -> b for every acknowledged id of a naming a party member.
#[verifier::loop_isolation(false)]
pub fn clique2digraph(clique: &Vec<Person>) -> (g: petgraph::graph::DiGraph<usize, ()>)
    requires
        unique_ids(clique@),
        clique@.len() < 0xFFFF_FFFFusize,
        party_edges(clique@).len() < 0xFFFF_FFFFusize,
    ensures
        digraph_nodes(g) == clique@.map_values(|p: Person| p.id),
        digraph_edges(g) == party_edges(clique@),
{
    let ghost s = clique@;
    let ghost ids = s.map_values(|p: Person| p.id);
    let mut g = digraph_new();
    let mut i: usize = 0;
    while i < clique.len()
        invariant
            i <= s.len(),
            digraph_nodes(g) == ids.take(i as int),
            digraph_edges(g) == Multiset::<(usize, usize)>::empty(),
        decreases s.len() - i,
    {
        let _ = digraph_add_node(&mut g, clique[i].id);
        proof {
            assert(ids.take(i + 1) =~= ids.take(i as int).push(ids[i as int]));
            assert(ids[i as int] == s[i as int].id);
        }
        i += 1;
    }
    proof {
        assert(ids.take(s.len() as int) == ids);
    }
    let mut a: usize = 0;
    while a < clique.len()
        invariant
            a <= s.len(),
            digraph_nodes(g) == ids,
            digraph_edges(g) == party_edges_upto(s, a as int),
        decreases s.len() - a,
    {
        let mut c: usize = 0;
        while c < clique[a].known_people.len()
            invariant
                a < s.len(),
                c <= s[a as int].known_people@.len(),
                digraph_nodes(g) == ids,
                digraph_edges(g) == party_edges_upto(s, a as int).add(
                    person_edges(s, a, c as int),
                ),
            decreases s[a as int].known_people@.len() - c,
        {
            let k = clique[a].known_people[c];
            let ghost full = s[a as int].known_people@.len() as int;
            proof {
                assert(k == s[a as int].known_people@[c as int]);
            }
            match position_of_id(clique, k) {
                Some(b) => {
                    proof {
                        assert(seq_has_id(s, k));
                        assert(pos_of(s, k) == b as int) by {
                            let j = pos_of(s, k);
                            assert(0 <= j < s.len() && s[j].id == k);
                            if j < b as int {
                                assert(s[j].id != s[b as int].id);
                            } else if j > b as int {
                                assert(s[b as int].id != s[j].id);
                            }
                        }
                        assert(person_edges(s, a, c + 1) == person_edges(s, a, c as int).insert(
                            (a, b),
                        ));
                        // the edges so far stay below the total edge count
                        lemma_person_edges_len_mono(s, a, c + 1, full);
                        lemma_upto_len_mono(s, a as int + 1, s.len() as int);
                        assert(party_edges_upto(s, a as int + 1) == party_edges_upto(
                            s,
                            a as int,
                        ).add(person_edges(s, a, full)));
                        assert(digraph_edges(g).len() < party_edges(s).len());
                    }
                    digraph_add_edge(&mut g, a, b);
                },
                None => {
                    proof {
                        assert(!seq_has_id(s, k));
                        assert(person_edges(s, a, c + 1) == person_edges(s, a, c as int));
                    }
                },
            }
            c += 1;
        }
        proof {
            assert(party_edges_upto(s, a as int + 1) == party_edges_upto(s, a as int).add(
                person_edges(s, a, s[a as int].known_people@.len() as int),
            ));
        }
        a += 1;
    }
    proof {
        assert(digraph_edges(g) == party_edges(s));
    }
    g
}

} // verus!
