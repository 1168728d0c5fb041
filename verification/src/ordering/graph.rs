//! The dependency graph of a set of units, and what a start order means on it.

use crate::ordering::{Dependencies, DependenciesView};
use vstd::prelude::*;

verus! {

/// The dependencies of each unit, by name.
pub type UnitGraph = Map<Seq<char>, DependenciesView>;

/// The graph that a table of units describes.
pub open spec fn unit_graph(table: Map<Seq<char>, Dependencies>) -> UnitGraph {
    Map::new(|n: Seq<char>| table.contains_key(n), |n: Seq<char>| table[n]@)
}

/// Unit `x` names `y` in its list of units to start before.
pub open spec fn lists_before(g: UnitGraph, x: Seq<char>, y: Seq<char>) -> bool {
    g.contains_key(x) && g[x].before.contains(y)
}

/// Unit `x` names `y` in its list of units to start after.
pub open spec fn lists_after(g: UnitGraph, x: Seq<char>, y: Seq<char>) -> bool {
    g.contains_key(x) && g[x].after.contains(y)
}

/// One of the two units asks that `x` start before `y`.
pub open spec fn must_precede(g: UnitGraph, x: Seq<char>, y: Seq<char>) -> bool {
    lists_before(g, x, y) || lists_after(g, y, x)
}

/// The element behind position `i` of a closed walk.
pub open spec fn next_in(c: Seq<Seq<char>>, i: int) -> Seq<char> {
    if i + 1 < c.len() {
        c[i + 1]
    } else {
        c[0]
    }
}

/// A closed walk along the lists of units to start before.
pub open spec fn is_before_cycle(g: UnitGraph, c: Seq<Seq<char>>) -> bool {
    &&& c.len() > 0
    &&& forall|i: int| 0 <= i < c.len() ==> lists_before(g, c[i], #[trigger] next_in(c, i))
}

/// A closed walk through units along start-order demands, whichever unit made them.
pub open spec fn is_cycle(g: UnitGraph, c: Seq<Seq<char>>) -> bool {
    &&& c.len() > 0
    &&& forall|i: int| 0 <= i < c.len() ==> g.contains_key(#[trigger] c[i])
    &&& forall|i: int| 0 <= i < c.len() ==> must_precede(g, c[i], #[trigger] next_in(c, i))
}

/// No closed walk exists along the lists of units to start before.
pub open spec fn before_acyclic(g: UnitGraph) -> bool {
    forall|c: Seq<Seq<char>>| !is_before_cycle(g, c)
}

/// No closed walk exists along start-order demands: the graph is a DAG.
pub open spec fn acyclic(g: UnitGraph) -> bool {
    forall|c: Seq<Seq<char>>| !is_cycle(g, c)
}

/// A set of names that holds each unit whose `after` list it holds, and with each unit the
/// units on its `before` list. Only names of units have to be in it.
pub open spec fn settles(g: UnitGraph, s: Set<Seq<char>>) -> bool {
    &&& forall|x: Seq<char>| #[trigger]
        g.contains_key(x) && (forall|d: Seq<char>| #[trigger]
            g[x].after.contains(d) ==> s.contains(d)) ==> s.contains(x)
    &&& forall|x: Seq<char>, y: Seq<char>|
        s.contains(x) && #[trigger] lists_before(g, x, y) && g.contains_key(y) ==> s.contains(y)
}

/// The unit belongs to the least set that `settles` describes: one gets to it from the units
/// that wait for none, by way of units whose `after` units are all reached and of `before`
/// lists of units that are reached.
#[verifier::opaque]
pub open spec fn resolvable(g: UnitGraph, x: Seq<char>) -> bool {
    forall|s: Set<Seq<char>>| #[trigger] settles(g, s) ==> s.contains(x)
}

/// Every unit of the graph is resolvable.
pub open spec fn all_resolvable(g: UnitGraph) -> bool {
    forall|x: Seq<char>| g.contains_key(x) ==> resolvable(g, x)
}

/// What the search along `before` lists accepts: every unit is resolvable, and no cycle runs
/// along the lists of units to start before.
pub open spec fn accepted(g: UnitGraph) -> bool {
    all_resolvable(g) && before_acyclic(g)
}

/// Every demand on an `after` list also stands on the `before` list of the unit it names.
pub open spec fn mirrored(g: UnitGraph) -> bool {
    forall|x: Seq<char>, y: Seq<char>| #[trigger] lists_after(g, x, y) ==> lists_before(g, y, x)
}

/// A list of all units of a graph, each once, in which every unit comes behind the units that
/// must precede it.
pub open spec fn is_start_order(g: UnitGraph, order: Seq<Seq<char>>) -> bool {
    &&& order.no_duplicates()
    &&& order.to_set() == g.dom()
    &&& forall|i: int, j: int|
        0 <= i < order.len() && 0 <= j < order.len() && #[trigger] must_precede(
            g,
            order[i],
            order[j],
        ) ==> i < j
}

/// Both lists of every unit name units of the graph only.
pub open spec fn self_contained(g: UnitGraph) -> bool {
    &&& forall|x: Seq<char>, y: Seq<char>| #[trigger] lists_before(g, x, y) ==> g.contains_key(y)
    &&& forall|x: Seq<char>, y: Seq<char>| #[trigger] lists_after(g, x, y) ==> g.contains_key(y)
}

} // verus!
