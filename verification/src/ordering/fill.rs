//! Recording every dependency with both units that it concerns.

use crate::name_map::NameMap;
use crate::names::{holds_name, lemma_push_to_set, Name};
use crate::ordering::graph::{lists_after, lists_before, must_precede, unit_graph, UnitGraph};
use crate::ordering::{Dependencies, SanityCheckError, UnitId};
use crate::text::strictly_sorted;
use vstd::prelude::*;

verus! {

/// The graph `h` records the demands of `g` with both units: on the `before` list of the unit
/// that starts earlier and on the `after` list of the one that starts later. All lists are in
/// order, with each name once.
pub open spec fn is_filled(g: UnitGraph, h: UnitGraph) -> bool {
    &&& h.dom() == g.dom()
    &&& forall|x: Seq<char>| #[trigger]
        h.contains_key(x) ==> strictly_sorted(h[x].before) && strictly_sorted(h[x].after)
    &&& forall|x: Seq<char>, y: Seq<char>| #[trigger]
        lists_before(h, x, y) <==> g.contains_key(x) && must_precede(g, x, y)
    &&& forall|x: Seq<char>, y: Seq<char>| #[trigger]
        lists_after(h, x, y) <==> g.contains_key(x) && must_precede(g, y, x)
}

/// The dependencies of a unit after those that the first `k` units of the walk state about it
/// have been added.
spec fn adds_first(
    g: UnitGraph,
    order: Seq<Seq<char>>,
    k: int,
    x: Seq<char>,
    before: Seq<Seq<char>>,
    after: Seq<Seq<char>>,
) -> bool {
    &&& forall|y: Seq<char>| #[trigger]
        before.to_set().contains(y) <==> g[x].before.contains(y) || exists|m: int|
            0 <= m < k && #[trigger] order[m] == y && lists_after(g, y, x)
    &&& forall|y: Seq<char>| #[trigger]
        after.to_set().contains(y) <==> g[x].after.contains(y) || exists|m: int|
            0 <= m < k && #[trigger] order[m] == y && lists_before(g, y, x)
}

/// The dependencies of the unit at a position of the walk, with what other units state about it.
fn filled_dependencies(
    unit_table: &NameMap<UnitId, Dependencies>,
    at: usize,
) -> (deps: Dependencies)
    requires
        at < unit_table.order().len(),
    ensures
        strictly_sorted(deps@.before),
        strictly_sorted(deps@.after),
        forall|y: Seq<char>| #[trigger]
            deps@.before.contains(y) <==> must_precede(
                unit_graph(unit_table@),
                unit_table.order()[at as int],
                y,
            ),
        forall|y: Seq<char>| #[trigger]
            deps@.after.contains(y) <==> must_precede(
                unit_graph(unit_table@),
                y,
                unit_table.order()[at as int],
            ),
{
    let ghost g = unit_graph(unit_table@);
    let ghost order = unit_table.order();
    let ghost x = order[at as int];
    let id = unit_table.key_at(at);
    let mut deps = unit_table.value_at(at).clone();
    let total: usize = unit_table.len();
    let mut k: usize = 0;
    while k < total
        invariant
            0 <= k <= total,
            total == order.len(),
            order == unit_table.order(),
            g == unit_graph(unit_table@),
            id@ == x,
            adds_first(g, order, k as int, x, deps@.before, deps@.after),
        decreases total - k,
    {
        let ghost before = deps@.before;
        let ghost after = deps@.after;
        let other = unit_table.key_at(k);
        let stated = unit_table.value_at(k);
        proof {
            assert(g.contains_key(other@));
            assert(g[other@] == stated@);
        }
        if holds_name(&stated.after, id.as_text()) {
            deps.before.push(other.clone());
            proof {
                assert(deps@.before =~= before.push(other@));
                lemma_push_to_set(before, other@);
            }
        }
        if holds_name(&stated.before, id.as_text()) {
            deps.after.push(other.clone());
            proof {
                assert(deps@.after =~= after.push(other@));
                lemma_push_to_set(after, other@);
            }
        }
        proof {
            assert forall|y: Seq<char>| #[trigger] deps@.before.to_set().contains(y) <==> g[x].before.contains(
                y,
            ) || exists|m: int|
                0 <= m < k + 1 && #[trigger] order[m] == y && lists_after(g, y, x) by {
                assert(deps@.before.to_set().contains(y) <==> before.to_set().contains(y) || (y
                    == order[k as int] && lists_after(g, y, x)));
            }
            assert forall|y: Seq<char>| #[trigger] deps@.after.to_set().contains(y) <==> g[x].after.contains(
                y,
            ) || exists|m: int|
                0 <= m < k + 1 && #[trigger] order[m] == y && lists_before(g, y, x) by {
                assert(deps@.after.to_set().contains(y) <==> after.to_set().contains(y) || (y
                    == order[k as int] && lists_before(g, y, x)));
            }
        }
        k += 1;
    }
    let ghost raw = deps@;
    deps.dedup();
    proof {
        unit_table.lemma_order();
        assert forall|y: Seq<char>| #[trigger] deps@.before.contains(y) <==> must_precede(g, x, y) by {
            assert(deps@.before.to_set().contains(y) <==> raw.before.to_set().contains(y));
            if lists_after(g, y, x) {
                assert(unit_table@.contains_key(y));
                let m = choose|m: int| 0 <= m < order.len() && order[m] == y;
                assert(order[m] == y && lists_after(g, y, x));
            }
        }
        assert forall|y: Seq<char>| #[trigger] deps@.after.contains(y) <==> must_precede(g, y, x) by {
            assert(deps@.after.to_set().contains(y) <==> raw.after.to_set().contains(y));
            if lists_before(g, y, x) {
                assert(unit_table@.contains_key(y));
                let m = choose|m: int| 0 <= m < order.len() && order[m] == y;
                assert(order[m] == y && lists_before(g, y, x));
            }
        }
    }
    deps
}

/// A table with the reverse of every dependency added, so that both units concerned record it.
pub(crate) fn filled_table(unit_table: &NameMap<UnitId, Dependencies>) -> (filled: NameMap<
    UnitId,
    Dependencies,
>)
    ensures
        is_filled(unit_graph(unit_table@), unit_graph(filled@)),
        filled.order() == unit_table.order(),
{
    let ghost g = unit_graph(unit_table@);
    let ghost order = unit_table.order();
    let total: usize = unit_table.len();
    let mut filled: NameMap<UnitId, Dependencies> = NameMap::new();
    let mut i: usize = 0;
    proof {
        assert(order.take(0) =~= Seq::<Seq<char>>::empty());
    }
    while i < total
        invariant
            0 <= i <= total,
            total == order.len(),
            order == unit_table.order(),
            order.no_duplicates(),
            g == unit_graph(unit_table@),
            filled.order() == order.take(i as int),
            forall|x: Seq<char>| #[trigger]
                filled@.contains_key(x) <==> order.take(i as int).contains(x),
            forall|x: Seq<char>| #[trigger]
                filled@.contains_key(x) ==> strictly_sorted(filled@[x]@.before) && strictly_sorted(
                    filled@[x]@.after,
                ),
            forall|x: Seq<char>, y: Seq<char>|
                filled@.contains_key(x) ==> (#[trigger] filled@[x]@.before.contains(y)
                    <==> must_precede(g, x, y)),
            forall|x: Seq<char>, y: Seq<char>|
                filled@.contains_key(x) ==> (#[trigger] filled@[x]@.after.contains(y)
                    <==> must_precede(g, y, x)),
        decreases total - i,
    {
        let deps = filled_dependencies(unit_table, i);
        let ghost so_far = order.take(i as int);
        let ghost x = order[i as int];
        proof {
            assert(!so_far.contains(x));
            assert(order.take(i + 1) =~= so_far.push(x));
            lemma_push_to_set(so_far, x);
            assert forall|n: Seq<char>| order.take(i + 1).contains(n) <==> so_far.contains(n) || n
                == x by {
                assert(so_far.push(x).to_set().contains(n) <==> so_far.push(x).contains(n));
                assert(so_far.to_set().contains(n) <==> so_far.contains(n));
            }
        }
        filled.insert(unit_table.key_at(i).clone(), deps);
        i += 1;
    }
    proof {
        assert(order.take(total as int) =~= order);
        unit_table.lemma_order();
        let h = unit_graph(filled@);
        assert forall|x: Seq<char>| h.dom().contains(x) <==> g.dom().contains(x) by {
            assert(filled@.contains_key(x) <==> order.contains(x));
            assert(unit_table@.contains_key(x) <==> order.contains(x));
        }
        assert(h.dom() =~= g.dom());
        assert forall|x: Seq<char>, y: Seq<char>| #[trigger]
            lists_before(h, x, y) <==> g.contains_key(x) && must_precede(g, x, y) by {
            assert(h.dom().contains(x) <==> g.dom().contains(x));
            if filled@.contains_key(x) {
                assert(filled@[x]@.before.contains(y) <==> must_precede(g, x, y));
            }
        }
        assert forall|x: Seq<char>, y: Seq<char>| #[trigger]
            lists_after(h, x, y) <==> g.contains_key(x) && must_precede(g, y, x) by {
            assert(h.dom().contains(x) <==> g.dom().contains(x));
            if filled@.contains_key(x) {
                assert(filled@[x]@.after.contains(y) <==> must_precede(g, y, x));
            }
        }
        assert forall|x: Seq<char>| #[trigger] h.contains_key(x) implies strictly_sorted(
            h[x].before,
        ) && strictly_sorted(h[x].after) by {
            assert(filled@.contains_key(x));
        }
    }
    filled
}

/// Adds the reverse of every dependency, so that both units concerned record it.
pub fn fill_dependencies(unit_table: &mut NameMap<UnitId, Dependencies>) -> (result: Result<
    (),
    SanityCheckError,
>)
    ensures
        result is Ok,
        is_filled(unit_graph(old(unit_table)@), unit_graph(final(unit_table)@)),
        final(unit_table).order() == old(unit_table).order(),
{
    let filled = filled_table(unit_table);
    *unit_table = filled;
    Ok(())
}

} // verus!
