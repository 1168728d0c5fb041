//! What holds of dependency graphs and of the check as a whole.

use crate::ordering::graph::{accepted, acyclic, all_resolvable, before_acyclic};
use crate::ordering::graph::{is_before_cycle, is_cycle, is_start_order};
use crate::ordering::graph::{lists_after, lists_before, mirrored, must_precede, next_in};
use crate::ordering::graph::{resolvable, self_contained, settles, unit_graph, UnitGraph};
use crate::names::law_sorted_names_unique;
use crate::ordering::fill::is_filled;
use crate::ordering::sanity::{circle_names, is_check_report};
use crate::ordering::search::{awaits_missing, done_after, found_in, in_reach};
use crate::ordering::search::{is_circle_report, is_met, is_outcome, leads_round};
use crate::ordering::search::{lemma_before_cycle_is_cycle, lemma_course_of_units};
use crate::ordering::search::{lemma_cycle_leads, lemma_cycles_are_met, lemma_found_are_cycles};
use crate::ordering::search::{lemma_found_are_separate, lemma_leads_step, lemma_reach_from};
use crate::ordering::search::{lemma_reach_quiet, lemma_reach_step, lemma_resolvable_by};
use crate::ordering::search::{lemma_waiting_are_found, SearchTurn};
use crate::ordering::start::{are_rounds, covers, is_needed, is_round, is_startable, joined};
use crate::ordering::start::{startable_among, wanted_by};
use crate::ordering::{Dependencies, UnitId};
use vstd::prelude::*;

verus! {

/// A closed walk along a relation.
spec fn is_closed_walk(r: spec_fn(Seq<char>, Seq<char>) -> bool, c: Seq<Seq<char>>) -> bool {
    &&& c.len() > 0
    &&& forall|i: int| 0 <= i < c.len() ==> r(c[i], #[trigger] next_in(c, i))
}

/// A walk of a given length through a set, along a relation.
spec fn is_walk(
    r: spec_fn(Seq<char>, Seq<char>) -> bool,
    within: Set<Seq<char>>,
    w: Seq<Seq<char>>,
) -> bool {
    &&& forall|i: int| 0 <= i < w.len() ==> within.contains(#[trigger] w[i])
    &&& forall|i: int| 0 <= i < w.len() - 1 ==> r(w[i], #[trigger] next_in(w, i))
}

proof fn lemma_walk_exists(
    r: spec_fn(Seq<char>, Seq<char>) -> bool,
    within: Set<Seq<char>>,
    start: Seq<char>,
    n: nat,
) -> (w: Seq<Seq<char>>)
    requires
        within.contains(start),
        n > 0,
        forall|x: Seq<char>| #[trigger]
            within.contains(x) ==> exists|y: Seq<char>| within.contains(y) && #[trigger] r(x, y),
    ensures
        w.len() == n,
        is_walk(r, within, w),
    decreases n,
{
    if n == 1 {
        seq![start]
    } else {
        let v = lemma_walk_exists(r, within, start, (n - 1) as nat);
        assert(within.contains(v.last()));
        let y = choose|y: Seq<char>| within.contains(y) && #[trigger] r(v.last(), y);
        let w = v.push(y);
        assert forall|i: int| 0 <= i < w.len() - 1 implies r(w[i], #[trigger] next_in(w, i)) by {
            if i < v.len() - 1 {
                assert(r(v[i], next_in(v, i)));
                assert(next_in(v, i) == next_in(w, i));
            }
        }
        w
    }
}

/// Where every member of a finite set leads to another member, there is a closed walk.
proof fn lemma_closed_walk_exists(
    r: spec_fn(Seq<char>, Seq<char>) -> bool,
    within: Set<Seq<char>>,
    start: Seq<char>,
) -> (c: Seq<Seq<char>>)
    requires
        within.finite(),
        within.contains(start),
        forall|x: Seq<char>| #[trigger]
            within.contains(x) ==> exists|y: Seq<char>| within.contains(y) && #[trigger] r(x, y),
    ensures
        is_closed_walk(r, c),
        forall|i: int| 0 <= i < c.len() ==> within.contains(#[trigger] c[i]),
{
    let w = lemma_walk_exists(r, within, start, within.len() + 1);
    if w.no_duplicates() {
        w.unique_seq_to_set();
        assert(w.to_set().subset_of(within));
        vstd::set_lib::lemma_len_subset(w.to_set(), within);
    }
    let (i, j) = choose|i: int, j: int| 0 <= i < j < w.len() && w[i] == w[j];
    assert(0 <= i < j < w.len() && w[i] == w[j]) by {
        let (a, b) = choose|a: int, b: int|
            0 <= a < w.len() && 0 <= b < w.len() && a != b && w[a] == w[b];
        if a < b {
            assert(0 <= a < b < w.len() && w[a] == w[b]);
        } else {
            assert(0 <= b < a < w.len() && w[b] == w[a]);
        }
    }
    let c = w.subrange(i, j);
    assert forall|k: int| 0 <= k < c.len() implies r(c[k], #[trigger] next_in(c, k)) by {
        assert(r(w[k + i], next_in(w, k + i)));
    }
    c
}

/// A closed walk backwards is a closed walk along the converse relation.
proof fn lemma_reverse_walk(
    r: spec_fn(Seq<char>, Seq<char>) -> bool,
    s: spec_fn(Seq<char>, Seq<char>) -> bool,
    c: Seq<Seq<char>>,
)
    requires
        is_closed_walk(r, c),
        forall|x: Seq<char>, y: Seq<char>| #[trigger] r(x, y) ==> s(y, x),
    ensures
        is_closed_walk(s, c.reverse()),
{
    let b = c.reverse();
    let n = c.len() as int;
    assert forall|i: int| 0 <= i < b.len() implies s(b[i], #[trigger] next_in(b, i)) by {
        assert(b[i] == c[n - 1 - i]);
        if i + 1 < n {
            assert(r(c[n - 2 - i], next_in(c, n - 2 - i)));
        } else {
            assert(b[0] == c[n - 1]);
            assert(r(c[n - 1], next_in(c, n - 1)));
        }
    }
}

proof fn lemma_dag_has_no_before_cycle(g: UnitGraph)
    requires
        acyclic(g),
    ensures
        before_acyclic(g),
{
    assert forall|c: Seq<Seq<char>>| !is_before_cycle(g, c) by {
        if is_before_cycle(g, c) {
            lemma_before_cycle_is_cycle(g, c);
        }
    }
}

/// A graph without cycles whose lists name only its own units is accepted.
pub proof fn law_acyclic_accepted(g: UnitGraph)
    requires
        g.dom().finite(),
        self_contained(g),
        acyclic(g),
    ensures
        accepted(g),
{
    lemma_dag_has_no_before_cycle(g);
    let left = g.dom().filter(|x: Seq<char>| !resolvable(g, x));
    if !all_resolvable(g) {
        let start = choose|x: Seq<char>| g.contains_key(x) && !resolvable(g, x);
        let waits = |x: Seq<char>, y: Seq<char>| lists_after(g, x, y);
        let precedes = |x: Seq<char>, y: Seq<char>| must_precede(g, x, y);
        assert(left.contains(start));
        assert forall|x: Seq<char>| #[trigger] left.contains(x) implies exists|y: Seq<char>|
            left.contains(y) && #[trigger] waits(x, y) by {
            if forall|d: Seq<char>| #[trigger] g[x].after.contains(d) ==> resolvable(g, d) {
                lemma_resolvable_by(g, x);
            }
            let d = choose|d: Seq<char>| #[trigger] g[x].after.contains(d) && !resolvable(g, d);
            assert(lists_after(g, x, d));
            assert(left.contains(d) && waits(x, d));
        }
        let c = lemma_closed_walk_exists(waits, left, start);
        lemma_reverse_walk(waits, precedes, c);
        let b = c.reverse();
        assert forall|i: int| 0 <= i < b.len() implies must_precede(
            g,
            b[i],
            #[trigger] next_in(b, i),
        ) by {
            assert(precedes(b[i], next_in(b, i)));
        }
        assert forall|i: int| 0 <= i < b.len() implies g.contains_key(#[trigger] b[i]) by {
            assert(left.contains(c[c.len() - 1 - i]));
        }
        assert(is_cycle(g, b));
    }
}

/// A graph without cycles has a start order.
pub proof fn law_acyclic_has_start_order(g: UnitGraph)
    requires
        g.dom().finite(),
        acyclic(g),
    ensures
        exists|order: Seq<Seq<char>>| is_start_order(g, order),
{
    let order = lemma_order_within(g, g.dom());
    assert(is_start_order(g, order));
}

proof fn lemma_order_within(g: UnitGraph, within: Set<Seq<char>>) -> (order: Seq<Seq<char>>)
    requires
        within.finite(),
        within.subset_of(g.dom()),
        acyclic(g),
    ensures
        order.no_duplicates(),
        order.to_set() == within,
        forall|i: int, j: int|
            0 <= i < order.len() && 0 <= j < order.len() && #[trigger] must_precede(
                g,
                order[i],
                order[j],
            ) ==> i < j,
    decreases within.len(),
{
    if within.len() == 0 {
        let order = Seq::<Seq<char>>::empty();
        assert(order.to_set() =~= within);
        order
    } else {
        let follows = |x: Seq<char>, y: Seq<char>| must_precede(g, y, x);
        let precedes = |x: Seq<char>, y: Seq<char>| must_precede(g, x, y);
        if forall|x: Seq<char>| #[trigger]
            within.contains(x) ==> exists|y: Seq<char>|
                within.contains(y) && #[trigger] follows(x, y) {
            let c = lemma_closed_walk_exists(follows, within, within.choose());
            lemma_reverse_walk(follows, precedes, c);
            let b = c.reverse();
            assert forall|i: int| 0 <= i < b.len() implies must_precede(
                g,
                b[i],
                #[trigger] next_in(b, i),
            ) by {
                assert(precedes(b[i], next_in(b, i)));
            }
            assert forall|i: int| 0 <= i < b.len() implies g.contains_key(#[trigger] b[i]) by {
                assert(within.contains(c[c.len() - 1 - i]));
            }
            assert(is_cycle(g, b));
        }
        let x = choose|x: Seq<char>| #[trigger]
            within.contains(x) && !(exists|y: Seq<char>|
                within.contains(y) && #[trigger] follows(x, y));
        let rest = lemma_order_within(g, within.remove(x));
        let order = seq![x] + rest;
        assert forall|i: int| 0 <= i < rest.len() implies within.contains(#[trigger] rest[i])
            && rest[i] != x by {
            assert(rest.to_set().contains(rest[i]));
        }
        assert forall|i: int, j: int|
            0 <= i < order.len() && 0 <= j < order.len() && i != j implies order[i] != order[j] by {
            if i > 0 {
                assert(order[i] == rest[i - 1]);
            }
            if j > 0 {
                assert(order[j] == rest[j - 1]);
            }
        }
        assert forall|n: Seq<char>| order.to_set().contains(n) <==> within.contains(n) by {
            if order.contains(n) {
                let i = choose|i: int| 0 <= i < order.len() && order[i] == n;
                if i > 0 {
                    assert(rest[i - 1] == n);
                }
            }
            if within.contains(n) && n != x {
                assert(rest.to_set().contains(n));
                let i = choose|i: int| 0 <= i < rest.len() && rest[i] == n;
                assert(order[i + 1] == n);
            }
            assert(order[0] == x);
        }
        assert(order.to_set() =~= within);
        assert forall|i: int, j: int|
            0 <= i < order.len() && 0 <= j < order.len() && #[trigger] must_precede(
                g,
                order[i],
                order[j],
            ) implies i < j by {
            if j == 0 {
                assert(follows(x, order[i]));
                if i > 0 {
                    assert(within.contains(rest[i - 1]));
                }
                assert(within.contains(order[i]));
            } else if i > 0 {
                assert(must_precede(g, rest[i - 1], rest[j - 1]));
            }
        }
        order
    }
}

/// A graph that has a start order has no cycle.
pub proof fn law_start_order_excludes_cycles(g: UnitGraph, order: Seq<Seq<char>>)
    requires
        is_start_order(g, order),
    ensures
        acyclic(g),
{
    assert forall|c: Seq<Seq<char>>| !is_cycle(g, c) by {
        if is_cycle(g, c) {
            lemma_order_ascends(g, order, c, c.len() - 1);
            lemma_order_step(g, order, c, c.len() - 1);
        }
    }
}

proof fn lemma_order_step(g: UnitGraph, order: Seq<Seq<char>>, c: Seq<Seq<char>>, i: int)
    requires
        is_start_order(g, order),
        is_cycle(g, c),
        0 <= i < c.len(),
    ensures
        order.index_of(c[i]) < order.index_of(next_in(c, i)),
{
    assert(must_precede(g, c[i], next_in(c, i)));
    assert(order.to_set().contains(c[i]));
    assert(order.to_set().contains(next_in(c, i)));
    let p = order.index_of(c[i]);
    let q = order.index_of(next_in(c, i));
    assert(order.contains(c[i]) && order.contains(next_in(c, i)));
    assert(must_precede(g, order[p], order[q]));
}

proof fn lemma_order_ascends(g: UnitGraph, order: Seq<Seq<char>>, c: Seq<Seq<char>>, i: int)
    requires
        is_start_order(g, order),
        is_cycle(g, c),
        0 <= i < c.len(),
    ensures
        order.index_of(c[0]) + i <= order.index_of(c[i]),
    decreases i,
{
    if i > 0 {
        lemma_order_ascends(g, order, c, i - 1);
        lemma_order_step(g, order, c, i - 1);
        assert(next_in(c, i - 1) == c[i]);
    }
}

/// Filling a graph keeps its demands as they are.
pub proof fn law_fill_keeps_demands(g: UnitGraph, h: UnitGraph)
    requires
        is_filled(g, h),
    ensures
        forall|x: Seq<char>, y: Seq<char>| #[trigger]
            must_precede(h, x, y) <==> must_precede(g, x, y),
        acyclic(h) <==> acyclic(g),
{
    assert forall|x: Seq<char>, y: Seq<char>| #[trigger] must_precede(h, x, y) <==> must_precede(
        g,
        x,
        y,
    ) by {
        assert(lists_before(h, x, y) <==> g.contains_key(x) && must_precede(g, x, y));
        assert(lists_after(h, y, x) <==> g.contains_key(y) && must_precede(g, x, y));
    }
    assert forall|c: Seq<Seq<char>>| is_cycle(h, c) <==> is_cycle(g, c) by {
        assert forall|i: int| 0 <= i < c.len() implies (must_precede(
            h,
            c[i],
            #[trigger] next_in(c, i),
        ) <==> must_precede(g, c[i], next_in(c, i))) by {}
    }
    if acyclic(g) {
        assert forall|c: Seq<Seq<char>>| !is_cycle(h, c) by {
            assert(is_cycle(h, c) <==> is_cycle(g, c));
        }
    }
    if acyclic(h) {
        assert forall|c: Seq<Seq<char>>| !is_cycle(g, c) by {
            assert(is_cycle(h, c) <==> is_cycle(g, c));
        }
    }
}

/// In a filled graph every demand between units of the graph stands with both of them.
pub proof fn law_fill_records_both_ways(g: UnitGraph, h: UnitGraph)
    requires
        is_filled(g, h),
    ensures
        forall|x: Seq<char>, y: Seq<char>|
            h.contains_key(x) && h.contains_key(y) ==> (#[trigger] lists_before(h, x, y)
                <==> #[trigger] lists_after(h, y, x)),
        self_contained(g) ==> self_contained(h) && mirrored(h),
{
    assert forall|x: Seq<char>, y: Seq<char>|
        h.contains_key(x) && h.contains_key(y) implies (#[trigger] lists_before(h, x, y)
        <==> #[trigger] lists_after(h, y, x)) by {
        assert(g.dom().contains(x) && g.dom().contains(y));
    }
    if self_contained(g) {
        assert forall|x: Seq<char>, y: Seq<char>| #[trigger] lists_before(h, x, y) implies h.contains_key(
            y,
        ) by {
            assert(must_precede(g, x, y));
            assert(g.dom().contains(y));
        }
        assert forall|x: Seq<char>, y: Seq<char>| #[trigger] lists_after(h, x, y) implies h.contains_key(
            y,
        ) && lists_before(h, y, x) by {
            assert(must_precede(g, y, x));
            assert(g.dom().contains(y));
        }
    }
}

/// A unit that waits for something unknown is only reached through the `before` list of
/// another unit.
proof fn lemma_reached_through_before(g: UnitGraph, x: Seq<char>, d: Seq<char>)
    requires
        resolvable(g, x),
        lists_after(g, x, d),
        !g.contains_key(d),
    ensures
        exists|y: Seq<char>| #[trigger] lists_before(g, y, x),
{
    let s = g.dom().remove(x);
    if forall|y: Seq<char>| !#[trigger] lists_before(g, y, x) {
        assert(g[x].after.contains(d) && !s.contains(d));
        assert(settles(g, s));
        reveal(resolvable);
        assert(s.contains(x));
    }
}

/// Of a graph that the search along `before` lists accepts, the same search finds the cycles
/// once the graph is filled.
pub proof fn law_filled_check_finds_cycles(g: UnitGraph, h: UnitGraph)
    requires
        g.dom().finite(),
        accepted(g),
        is_filled(g, h),
    ensures
        accepted(h) <==> acyclic(g),
{
    law_fill_keeps_demands(g, h);
    if acyclic(g) {
        lemma_filled_dag_accepted(g, h);
    }
    if accepted(h) {
        assert forall|c: Seq<Seq<char>>| !is_cycle(g, c) by {
            if is_cycle(g, c) {
                assert forall|i: int| 0 <= i < c.len() implies lists_before(
                    h,
                    c[i],
                    #[trigger] next_in(c, i),
                ) by {
                    let p = if i == 0 {
                        c.len() - 1
                    } else {
                        i - 1
                    };
                    assert(next_in(c, p) == c[i]);
                    assert(must_precede(g, c[p], next_in(c, p)));
                    assert(must_precede(g, c[i], next_in(c, i)));
                    assert(g.contains_key(c[i]));
                }
                assert(is_before_cycle(h, c));
            }
        }
    }
}

proof fn lemma_filled_dag_accepted(g: UnitGraph, h: UnitGraph)
    requires
        g.dom().finite(),
        accepted(g),
        acyclic(g),
        is_filled(g, h),
    ensures
        accepted(h),
{
    law_fill_keeps_demands(g, h);
    lemma_dag_has_no_before_cycle(h);
    let left = h.dom().filter(|x: Seq<char>| !resolvable(h, x));
    if !all_resolvable(h) {
        let start = choose|x: Seq<char>| h.contains_key(x) && !resolvable(h, x);
        assert(left.contains(start));
        let behind = |x: Seq<char>, y: Seq<char>| must_precede(g, y, x);
        let precedes = |x: Seq<char>, y: Seq<char>| must_precede(g, x, y);
        assert forall|x: Seq<char>| #[trigger] left.contains(x) implies exists|y: Seq<char>|
            left.contains(y) && #[trigger] behind(x, y) by {
            assert(h.dom().contains(x) && g.dom().contains(x));
            if forall|d: Seq<char>| #[trigger] h[x].after.contains(d) ==> resolvable(h, d) {
                lemma_resolvable_by(h, x);
            }
            let d = choose|d: Seq<char>| #[trigger] h[x].after.contains(d) && !resolvable(h, d);
            assert(lists_after(h, x, d));
            assert(must_precede(g, d, x));
            if g.contains_key(d) {
                assert(h.dom().contains(d));
                assert(left.contains(d) && behind(x, d));
            } else {
                assert(lists_after(g, x, d));
                assert(resolvable(g, x));
                lemma_reached_through_before(g, x, d);
                let y = choose|y: Seq<char>| #[trigger] lists_before(g, y, x);
                assert(must_precede(g, y, x));
                assert(g.dom().contains(y) && h.dom().contains(y));
                assert(lists_before(h, y, x));
                if resolvable(h, y) {
                    lemma_resolvable_by(h, x);
                }
                assert(left.contains(y) && behind(x, y));
            }
        }
        let c = lemma_closed_walk_exists(behind, left, start);
        lemma_reverse_walk(behind, precedes, c);
        let b = c.reverse();
        assert forall|i: int| 0 <= i < b.len() implies must_precede(
            g,
            b[i],
            #[trigger] next_in(b, i),
        ) by {
            assert(precedes(b[i], next_in(b, i)));
        }
        assert(is_cycle(g, b));
    }
}

/// Each circle in a report of the check is a cycle, if the lists name only units of the graph.
pub proof fn law_reported_circle_is_cycle(g: UnitGraph, circles: Seq<Seq<Seq<char>>>, j: int)
    requires
        self_contained(g),
        is_check_report(g, circles),
        0 <= j < circles.len(),
    ensures
        is_cycle(g, circles[j]),
{
    if accepted(g) {
        let h = choose|h: UnitGraph| #[trigger] is_filled(g, h) && is_circle_report(h, circles);
        law_fill_keeps_demands(g, h);
        law_fill_records_both_ways(g, h);
        lemma_circle_is_cycle(h, circles, j);
        let c = circles[j];
        assert forall|i: int| 0 <= i < c.len() implies must_precede(
            g,
            c[i],
            #[trigger] next_in(c, i),
        ) by {
            assert(must_precede(h, c[i], next_in(c, i)));
        }
        assert forall|i: int| 0 <= i < c.len() implies g.contains_key(#[trigger] c[i]) by {
            assert(h.dom().contains(c[i]));
        }
    } else {
        lemma_circle_is_cycle(g, circles, j);
    }
}

proof fn lemma_circle_is_cycle(g: UnitGraph, circles: Seq<Seq<Seq<char>>>, j: int)
    requires
        self_contained(g),
        is_circle_report(g, circles),
        0 <= j < circles.len(),
    ensures
        is_cycle(g, circles[j]),
{
    let turns = choose|turns: Seq<SearchTurn>| #[trigger] is_outcome(g, turns, circles);
    lemma_found_are_cycles(g, turns);
    if circles != found_in(turns) {
        assert(!awaits_missing(g, done_after(turns)));
    }
    assert(is_cycle(g, found_in(turns)[j]));
}

/// Groups of units: there are some, none is empty, all hold units only, and no unit is named
/// twice.
pub open spec fn are_unit_groups(g: UnitGraph, circles: Seq<Seq<Seq<char>>>) -> bool {
    &&& circles.len() > 0
    &&& forall|j: int|
        0 <= j < circles.len() ==> (#[trigger] circles[j]).len() > 0 && circles[j].no_duplicates()
    &&& forall|j: int, x: Seq<char>|
        0 <= j < circles.len() && #[trigger] circles[j].contains(x) ==> g.contains_key(x)
    &&& forall|j: int, k: int, x: Seq<char>|
        0 <= j < k < circles.len() && #[trigger] circles[j].contains(x)
            ==> !#[trigger] circles[k].contains(x)
}

/// A report of the check consists of groups that are not empty and hold units only, no unit
/// twice.
pub proof fn law_report_names_each_unit_once(g: UnitGraph, circles: Seq<Seq<Seq<char>>>)
    requires
        is_check_report(g, circles),
    ensures
        are_unit_groups(g, circles),
{
    if accepted(g) {
        let h = choose|h: UnitGraph| #[trigger] is_filled(g, h) && is_circle_report(h, circles);
        lemma_report_of_units(h, circles);
        assert forall|j: int, x: Seq<char>|
            0 <= j < circles.len() && #[trigger] circles[j].contains(x) implies g.contains_key(x) by {
            assert(h.dom().contains(x));
        }
    } else {
        lemma_report_of_units(g, circles);
    }
}

proof fn lemma_report_of_units(g: UnitGraph, circles: Seq<Seq<Seq<char>>>)
    requires
        is_circle_report(g, circles),
    ensures
        are_unit_groups(g, circles),
{
    let turns = choose|turns: Seq<SearchTurn>| #[trigger] is_outcome(g, turns, circles);
    let found = found_in(turns);
    let done = done_after(turns);
    lemma_found_are_separate(g, turns);
    lemma_found_are_cycles(g, turns);
    lemma_course_of_units(g, turns);
    assert forall|m: int| 0 <= m < found.len() implies found[m] == #[trigger] circles[m] by {
        if circles != found {
            assert(circles.drop_last()[m] == circles[m]);
        }
    }
    assert forall|j: int| 0 <= j < circles.len() implies (#[trigger] circles[j]).len() > 0
        && circles[j].no_duplicates() by {
        if j < found.len() {
            assert(is_cycle(g, found[j]));
        } else {
            let x = choose|x: Seq<char>| #[trigger] g.contains_key(x) && !done.contains(x);
            assert(circles[j].contains(x));
        }
    }
    assert forall|j: int, x: Seq<char>|
        0 <= j < circles.len() && #[trigger] circles[j].contains(x) implies g.contains_key(x) by {
        if j < found.len() {
            assert(found[j].contains(x));
            assert(done.contains(x));
        }
    }
    assert forall|j: int, k: int, x: Seq<char>|
        0 <= j < k < circles.len() && #[trigger] circles[j].contains(x) implies
        !#[trigger] circles[k].contains(x) by {
        assert(found[j].contains(x));
        assert(done.contains(x));
        if k < found.len() {
            assert(found[k] == circles[k]);
        }
    }
}

/// Every cycle along `before` lists runs into one of the groups in a report of the check.
pub proof fn law_report_meets_before_cycles(
    g: UnitGraph,
    circles: Seq<Seq<Seq<char>>>,
    c: Seq<Seq<char>>,
)
    requires
        is_check_report(g, circles),
        is_before_cycle(g, c),
    ensures
        is_met(circles, c),
{
    assert(!accepted(g));
    lemma_report_meets(g, circles, c);
}

proof fn lemma_report_meets(g: UnitGraph, circles: Seq<Seq<Seq<char>>>, c: Seq<Seq<char>>)
    requires
        is_circle_report(g, circles),
        is_before_cycle(g, c),
    ensures
        is_met(circles, c),
{
    let turns = choose|turns: Seq<SearchTurn>| #[trigger] is_outcome(g, turns, circles);
    lemma_cycles_are_met(g, turns, c);
    let found = found_in(turns);
    let done = done_after(turns);
    if is_met(found, c) {
        let (j, i) = choose|j: int, i: int|
            0 <= j < found.len() && 0 <= i < c.len() && #[trigger] found[j].contains(
                #[trigger] c[i],
            );
        assert(circles[j].contains(c[i])) by {
            if circles != found {
                assert(circles.drop_last()[j] == circles[j]);
            }
        }
    } else {
        assert(lists_before(g, c[0], next_in(c, 0)));
        assert(g.contains_key(c[0]) && !done.contains(c[0]));
        assert(circles[circles.len() - 1].contains(c[0]));
    }
}

/// Units that stand on no `before` list, and of which each waits for another of them or for a
/// name that belongs to no unit: one of them is in a report of the check.
proof fn lemma_report_meets_waiting(
    g: UnitGraph,
    circles: Seq<Seq<Seq<char>>>,
    s: Set<Seq<char>>,
    x: Seq<char>,
)
    requires
        is_check_report(g, circles),
        s.contains(x),
        forall|y: Seq<char>, z: Seq<char>| s.contains(y) ==> !#[trigger] lists_before(g, z, y),
        forall|y: Seq<char>| #[trigger]
            s.contains(y) ==> exists|d: Seq<char>| #[trigger]
                lists_after(g, y, d) && (s.contains(d) || !g.contains_key(d)),
    ensures
        exists|j: int, y: Seq<char>|
            0 <= j < circles.len() && s.contains(y) && #[trigger] circles[j].contains(y),
{
    let rest = g.dom().difference(s);
    assert(g.contains_key(x));
    if resolvable(g, x) {
        assert forall|y: Seq<char>| #[trigger]
            g.contains_key(y) && (forall|d: Seq<char>| #[trigger]
                g[y].after.contains(d) ==> rest.contains(d)) implies rest.contains(y) by {
            if s.contains(y) {
                let d = choose|d: Seq<char>| #[trigger]
                    lists_after(g, y, d) && (s.contains(d) || !g.contains_key(d));
                assert(g[y].after.contains(d));
                assert(rest.contains(d));
            }
        }
        assert(settles(g, rest));
        reveal(resolvable);
        assert(rest.contains(x));
    }
    assert(!accepted(g));
    let turns = choose|turns: Seq<SearchTurn>| #[trigger] is_outcome(g, turns, circles);
    let found = found_in(turns);
    let done = done_after(turns);
    lemma_waiting_are_found(g, turns, s);
    if exists|j: int, y: Seq<char>|
        0 <= j < found.len() && s.contains(y) && #[trigger] found[j].contains(y) {
        let (j, y) = choose|j: int, y: Seq<char>|
            0 <= j < found.len() && s.contains(y) && #[trigger] found[j].contains(y);
        if circles != found {
            assert(circles.drop_last()[j] == circles[j]);
        }
        assert(circles[j].contains(y));
    } else {
        assert(!done.contains(x));
        assert(circles[circles.len() - 1].contains(x));
    }
}

/// A cycle along `after` lists runs into one of the groups in a report of the check, if none of
/// its units stands on a `before` list.
#[verifier::spinoff_prover]
pub proof fn law_report_meets_after_cycles(
    g: UnitGraph,
    circles: Seq<Seq<Seq<char>>>,
    c: Seq<Seq<char>>,
)
    requires
        is_check_report(g, circles),
        c.len() > 0,
        forall|i: int, j: int|
            0 <= i < c.len() && j == (i + 1) % (c.len() as int) ==> lists_after(
                g,
                #[trigger] c[j],
                #[trigger] c[i],
            ),
        forall|i: int, z: Seq<char>|
            0 <= i < c.len() ==> !#[trigger] lists_before(g, z, c[i]),
    ensures
        is_met(circles, c),
{
    let s = c.to_set();
    let n = c.len() as int;
    assert forall|y: Seq<char>, z: Seq<char>| s.contains(y) implies !#[trigger] lists_before(
        g,
        z,
        y,
    ) by {
        let i = choose|i: int| 0 <= i < c.len() && c[i] == y;
        assert(!lists_before(g, z, c[i]));
    }
    assert forall|y: Seq<char>| #[trigger] s.contains(y) implies exists|d: Seq<char>| #[trigger]
        lists_after(g, y, d) && (s.contains(d) || !g.contains_key(d)) by {
        let i = choose|i: int| 0 <= i < c.len() && c[i] == y;
        let p = if i == 0 {
            n - 1
        } else {
            i - 1
        };
        lemma_next_in_turn(c, p);
        assert(next_in(c, p) == c[i]);
        let d = c[p];
        let q = (p + 1) % n;
        assert(c[q] == y);
        assert(lists_after(g, c[q], d));
        assert(c.contains(d));
        assert(lists_after(g, y, d) && s.contains(d));
    }
    assert(s.contains(c[0]));
    lemma_report_meets_waiting(g, circles, s, c[0]);
    let (j, y) = choose|j: int, y: Seq<char>|
        0 <= j < circles.len() && s.contains(y) && #[trigger] circles[j].contains(y);
    let i = choose|i: int| 0 <= i < c.len() && c[i] == y;
    assert(circles[j].contains(c[i]));
}

/// A unit that waits for a name that belongs to no unit, and stands on no `before` list, is in
/// one of the groups in a report of the check.
pub proof fn law_report_holds_those_who_await_missing(
    g: UnitGraph,
    circles: Seq<Seq<Seq<char>>>,
    x: Seq<char>,
    k: int,
)
    requires
        is_check_report(g, circles),
        g.contains_key(x),
        0 <= k < g[x].after.len(),
        !g.contains_key(g[x].after[k]),
        forall|z: Seq<char>| !#[trigger] lists_before(g, z, x),
    ensures
        exists|j: int| 0 <= j < circles.len() && (#[trigger] circles[j]).contains(x),
{
    let s = Set::<Seq<char>>::empty().insert(x);
    assert(lists_after(g, x, g[x].after[k]));
    assert forall|y: Seq<char>| #[trigger] s.contains(y) implies exists|d: Seq<char>| #[trigger]
        lists_after(g, y, d) && (s.contains(d) || !g.contains_key(d)) by {
        assert(lists_after(g, y, g[x].after[k]));
    }
    lemma_report_meets_waiting(g, circles, s, x);
    let (j, y) = choose|j: int, y: Seq<char>|
        0 <= j < circles.len() && s.contains(y) && #[trigger] circles[j].contains(y);
    assert(circles[j].contains(x));
}

/// Where the lists as they stand are accepted, every cycle runs into one of the circles reported.
pub proof fn law_second_search_meets_all_cycles(
    g: UnitGraph,
    circles: Seq<Seq<Seq<char>>>,
    c: Seq<Seq<char>>,
)
    requires
        accepted(g),
        is_check_report(g, circles),
        is_cycle(g, c),
    ensures
        is_met(circles, c),
{
    let h = choose|h: UnitGraph| #[trigger] is_filled(g, h) && is_circle_report(h, circles);
    assert forall|i: int| 0 <= i < c.len() implies lists_before(h, c[i], #[trigger] next_in(c, i)) by {
        assert(must_precede(g, c[i], next_in(c, i)));
        assert(g.contains_key(c[i]));
    }
    assert(is_before_cycle(h, c));
    lemma_report_meets(h, circles, c);
}

/// A unit leads into a cycle exactly if it is in reach of one, both by way of units that are not
/// to be avoided.
pub proof fn law_leads_round_iff_cycle_in_reach(
    g: UnitGraph,
    avoid: Set<Seq<char>>,
    x: Seq<char>,
)
    requires
        g.dom().finite(),
    ensures
        leads_round(g, avoid, x) <==> exists|c: Seq<Seq<char>>|
            #[trigger] is_before_cycle(g, c) && in_reach(g, avoid, x, c[0]) && forall|i: int|
                0 <= i < c.len() ==> !avoid.contains(#[trigger] c[i]),
{
    if leads_round(g, avoid, x) {
        let follows = |a: Seq<char>, b: Seq<char>| lists_before(g, a, b);
        let ring = g.dom().filter(
            |y: Seq<char>| leads_round(g, avoid, y) && in_reach(g, avoid, x, y),
        );
        lemma_leads_step(g, avoid, x);
        lemma_reach_from(g, avoid, x, x);
        assert(ring.contains(x));
        assert forall|a: Seq<char>| #[trigger] ring.contains(a) implies exists|b: Seq<char>|
            ring.contains(b) && #[trigger] follows(a, b) by {
            lemma_leads_step(g, avoid, a);
            let b = choose|b: Seq<char>| #[trigger]
                lists_before(g, a, b) && leads_round(g, avoid, b);
            lemma_leads_step(g, avoid, b);
            lemma_reach_step(g, avoid, x, a, b);
            assert(ring.contains(b) && follows(a, b));
        }
        let c = lemma_closed_walk_exists(follows, ring, x);
        assert forall|i: int| 0 <= i < c.len() implies lists_before(
            g,
            c[i],
            #[trigger] next_in(c, i),
        ) by {
            assert(follows(c[i], next_in(c, i)));
        }
        assert(is_before_cycle(g, c));
        assert(ring.contains(c[0]));
        assert forall|i: int| 0 <= i < c.len() implies !avoid.contains(#[trigger] c[i]) by {
            assert(ring.contains(c[i]));
            lemma_leads_step(g, avoid, c[i]);
        }
    }
    if exists|c: Seq<Seq<char>>|
        #[trigger] is_before_cycle(g, c) && in_reach(g, avoid, x, c[0]) && forall|i: int|
            0 <= i < c.len() ==> !avoid.contains(#[trigger] c[i]) {
        let c = choose|c: Seq<Seq<char>>|
            #[trigger] is_before_cycle(g, c) && in_reach(g, avoid, x, c[0]) && forall|i: int|
                0 <= i < c.len() ==> !avoid.contains(#[trigger] c[i]);
        assert(c.contains(c[0]));
        lemma_cycle_leads(g, avoid, c, c[0]);
        if !leads_round(g, avoid, x) {
            lemma_reach_quiet(g, avoid, x, c[0]);
        }
    }
}

/// A graph whose lists name only its own units passes the check exactly if it has a start order.
pub proof fn law_valid_iff_start_order(g: UnitGraph)
    requires
        g.dom().finite(),
        self_contained(g),
    ensures
        accepted(g) && acyclic(g) <==> exists|order: Seq<Seq<char>>| is_start_order(g, order),
{
    if acyclic(g) {
        law_acyclic_accepted(g);
        law_acyclic_has_start_order(g);
    }
    if exists|order: Seq<Seq<char>>| is_start_order(g, order) {
        let order = choose|order: Seq<Seq<char>>| is_start_order(g, order);
        law_start_order_excludes_cycles(g, order);
        law_acyclic_accepted(g);
    }
}

/// A graph whose lists name only its own units passes the check exactly if it does once it is
/// filled.
pub proof fn law_fill_keeps_verdict(g: UnitGraph, h: UnitGraph)
    requires
        g.dom().finite(),
        self_contained(g),
        is_filled(g, h),
    ensures
        accepted(g) && acyclic(g) <==> accepted(h) && acyclic(h),
{
    law_fill_keeps_demands(g, h);
    law_fill_records_both_ways(g, h);
    if acyclic(g) {
        law_acyclic_accepted(g);
        law_acyclic_accepted(h);
    }
}

/// Filling a filled graph changes nothing.
pub proof fn law_fill_idempotent(g: UnitGraph, h: UnitGraph, k: UnitGraph)
    requires
        is_filled(g, h),
        is_filled(h, k),
    ensures
        k == h,
{
    law_fill_keeps_demands(g, h);
    assert forall|x: Seq<char>| #[trigger] h.dom().contains(x) implies k[x] == h[x] by {
        assert(h.contains_key(x) && k.contains_key(x) && g.contains_key(x)) by {
            assert(k.dom().contains(x) && g.dom().contains(x));
        }
        assert forall|y: Seq<char>| k[x].before.to_set().contains(y) <==> h[x].before.to_set().contains(
            y,
        ) by {
            assert(lists_before(k, x, y) <==> must_precede(h, x, y));
            assert(lists_before(h, x, y) <==> must_precede(g, x, y));
            assert(must_precede(h, x, y) <==> must_precede(g, x, y));
        }
        assert forall|y: Seq<char>| k[x].after.to_set().contains(y) <==> h[x].after.to_set().contains(
            y,
        ) by {
            assert(lists_after(k, x, y) <==> must_precede(h, y, x));
            assert(lists_after(h, x, y) <==> must_precede(g, y, x));
            assert(must_precede(h, y, x) <==> must_precede(g, y, x));
        }
        assert(k[x].before.to_set() =~= h[x].before.to_set());
        assert(k[x].after.to_set() =~= h[x].after.to_set());
        law_sorted_names_unique(k[x].before, h[x].before);
        law_sorted_names_unique(k[x].after, h[x].after);
    }
    assert(k =~= h);
}

/// What is startable stays startable when more has been started.
pub proof fn law_startable_monotone(
    g: UnitGraph,
    started: Map<Seq<char>, bool>,
    more: Map<Seq<char>, bool>,
    x: Seq<char>,
)
    requires
        is_startable(g, started, x),
        forall|d: Seq<char>| #[trigger]
            started.contains_key(d) && started[d] ==> more.contains_key(d) && more[d],
    ensures
        is_startable(g, more, x),
{
    assert forall|d: Seq<char>| #[trigger] g[x].after.contains(d) implies more.contains_key(d)
        && more[d] by {
        assert(started.contains_key(d) && started[d]);
    }
}

/// Started one after the other in a start order, each unit is startable when its turn comes, and
/// all units that must precede it have been started.
pub proof fn law_start_order_is_startable(
    g: UnitGraph,
    order: Seq<Seq<char>>,
    started: Map<Seq<char>, bool>,
    turn: int,
)
    requires
        self_contained(g),
        is_start_order(g, order),
        0 <= turn < order.len(),
        forall|i: int|
            0 <= i < turn ==> started.contains_key(#[trigger] order[i]) && started[order[i]],
    ensures
        is_startable(g, started, order[turn]),
        forall|d: Seq<char>| #[trigger]
            must_precede(g, d, order[turn]) ==> started.contains_key(d) && started[d],
{
    let x = order[turn];
    assert(order.to_set().contains(x));
    assert forall|d: Seq<char>| #[trigger] must_precede(g, d, x) implies started.contains_key(d)
        && started[d] by {
        assert(lists_before(g, d, x) || lists_after(g, x, d));
        assert(order.to_set().contains(d));
        let i = choose|i: int| 0 <= i < order.len() && order[i] == d;
        assert(must_precede(g, order[i], order[turn]));
    }
    assert forall|d: Seq<char>| #[trigger] g[x].after.contains(d) implies started.contains_key(d)
        && started[d] by {
        assert(lists_after(g, x, d));
        assert(must_precede(g, d, x));
    }
}

/// Without cycles a start never gets stuck: as long as some unit has not been started, one of
/// those is startable, and all units that must precede it have been started.
pub proof fn law_start_never_stuck(g: UnitGraph, started: Map<Seq<char>, bool>, x: Seq<char>)
    requires
        g.dom().finite(),
        self_contained(g),
        acyclic(g),
        g.contains_key(x),
        !(started.contains_key(x) && started[x]),
    ensures
        exists|y: Seq<char>|
            !(started.contains_key(y) && started[y]) && #[trigger] is_startable(g, started, y) && (
            forall|d: Seq<char>| #[trigger]
                must_precede(g, d, y) ==> started.contains_key(d) && started[d]),
{
    law_acyclic_has_start_order(g);
    let order = choose|order: Seq<Seq<char>>| is_start_order(g, order);
    assert(order.to_set().contains(x));
    let at = choose|at: int| 0 <= at < order.len() && order[at] == x;
    let turn = lemma_first_not_started(order, started, at);
    law_start_order_is_startable(g, order, started, turn);
}

proof fn lemma_first_not_started(
    order: Seq<Seq<char>>,
    started: Map<Seq<char>, bool>,
    at: int,
) -> (turn: int)
    requires
        0 <= at < order.len(),
        !(started.contains_key(order[at]) && started[order[at]]),
    ensures
        0 <= turn < order.len(),
        !(started.contains_key(order[turn]) && started[order[turn]]),
        forall|i: int|
            0 <= i < turn ==> started.contains_key(#[trigger] order[i]) && started[order[i]],
    decreases at,
{
    if forall|i: int|
        0 <= i < at ==> started.contains_key(#[trigger] order[i]) && started[order[i]] {
        at
    } else {
        let i = choose|i: int|
            0 <= i < at && !(started.contains_key(#[trigger] order[i]) && started[order[i]]);
        lemma_first_not_started(order, started, i)
    }
}

/// A list that holds all that it needs is left as it is by another collection.
pub proof fn law_collect_idempotent(
    g: UnitGraph,
    ids: Seq<Seq<char>>,
    rounds: Seq<Seq<Seq<char>>>,
)
    requires
        is_round(g, ids, Seq::empty()),
        are_rounds(g, ids, rounds),
    ensures
        ids + joined(rounds) == ids,
{
    if rounds.len() > 0 {
        assert(rounds[0].len() > 0);
        assert(rounds.take(0) =~= Seq::<Seq<Seq<char>>>::empty());
        assert(ids + joined(rounds.take(0)) =~= ids);
        assert(rounds[0].to_set().contains(rounds[0][0]));
        assert(Seq::<Seq<char>>::empty().to_set().contains(rounds[0][0]));
    }
    assert(ids + joined(rounds) =~= ids);
}

/// What a list needs includes, with each unit, all that the unit waits for.
pub proof fn law_needed_closed(
    g: UnitGraph,
    ids: Seq<Seq<char>>,
    x: Seq<char>,
    d: Seq<char>,
)
    requires
        is_needed(g, ids, x),
        lists_after(g, x, d),
    ensures
        is_needed(g, ids, d),
{
}

/// The graph of a table has a unit for each entry, with the names on both lists of the entry,
/// position by position.
pub proof fn law_graph_states_the_table(table: Map<Seq<char>, Dependencies>, x: Seq<char>)
    ensures
        unit_graph(table).contains_key(x) <==> table.contains_key(x),
        table.contains_key(x) ==> {
            &&& unit_graph(table)[x].before.len() == table[x].before@.len()
            &&& unit_graph(table)[x].after.len() == table[x].after@.len()
            &&& forall|i: int|
                0 <= i < table[x].before@.len() ==> #[trigger] unit_graph(table)[x].before[i]
                    == table[x].before@[i].name@
            &&& forall|i: int|
                0 <= i < table[x].after@.len() ==> #[trigger] unit_graph(table)[x].after[i]
                    == table[x].after@[i].name@
        },
{
}

/// A unit names another on one of its lists exactly if the name stands at some position of that
/// list, and a unit must precede another exactly if one of them says so.
pub proof fn law_demands_stand_on_the_lists(g: UnitGraph, x: Seq<char>, y: Seq<char>)
    ensures
        lists_before(g, x, y) <==> g.contains_key(x) && exists|i: int|
            0 <= i < g[x].before.len() && #[trigger] g[x].before[i] == y,
        lists_after(g, x, y) <==> g.contains_key(x) && exists|i: int|
            0 <= i < g[x].after.len() && #[trigger] g[x].after[i] == y,
        must_precede(g, x, y) <==> (g.contains_key(x) && exists|i: int|
            0 <= i < g[x].before.len() && #[trigger] g[x].before[i] == y) || (g.contains_key(y)
            && exists|i: int| 0 <= i < g[y].after.len() && #[trigger] g[y].after[i] == x),
{
}

proof fn lemma_next_in_turn(c: Seq<Seq<char>>, i: int)
    requires
        0 <= i < c.len(),
    ensures
        next_in(c, i) == c[(i + 1) % (c.len() as int)],
{
    let n = c.len() as int;
    if i + 1 < n {
        assert((i + 1) % n == i + 1) by (nonlinear_arith)
            requires
                0 <= i + 1 < n,
        ;
    } else {
        assert((i + 1) % n == 0) by (nonlinear_arith)
            requires
                i + 1 == n,
                n > 0,
        ;
    }
}

/// A cycle is a list of units, not empty, in which each must precede the next, and the last one
/// the first. A cycle along `before` lists is one in which each names the next on that list.
pub proof fn law_cycle_goes_round(g: UnitGraph, c: Seq<Seq<char>>)
    ensures
        is_cycle(g, c) <==> c.len() > 0 && (forall|i: int|
            0 <= i < c.len() ==> g.contains_key(#[trigger] c[i])) && (forall|i: int, j: int|
            0 <= i < c.len() && j == (i + 1) % (c.len() as int) ==> must_precede(
                g,
                #[trigger] c[i],
                #[trigger] c[j],
            )),
        is_before_cycle(g, c) <==> c.len() > 0 && forall|i: int, j: int|
            0 <= i < c.len() && j == (i + 1) % (c.len() as int) ==> lists_before(
                g,
                #[trigger] c[i],
                #[trigger] c[j],
            ),
{
    let n = c.len() as int;
    assert forall|i: int| 0 <= i < c.len() implies #[trigger] next_in(c, i) == c[(i + 1) % n] by {
        lemma_next_in_turn(c, i);
    }
    if is_cycle(g, c) {
        assert forall|i: int, j: int| 0 <= i < c.len() && j == (i + 1) % n implies must_precede(
            g,
            #[trigger] c[i],
            #[trigger] c[j],
        ) by {
            assert(must_precede(g, c[i], next_in(c, i)));
        }
    }
    if is_before_cycle(g, c) {
        assert forall|i: int, j: int| 0 <= i < c.len() && j == (i + 1) % n implies lists_before(
            g,
            #[trigger] c[i],
            #[trigger] c[j],
        ) by {
            assert(lists_before(g, c[i], next_in(c, i)));
        }
    }
}

/// A start order lists the units, each once. A unit comes ahead of all those on its `before`
/// list that are listed, and behind all those on its `after` list that are.
pub proof fn law_start_order_keeps_the_lists(g: UnitGraph, order: Seq<Seq<char>>)
    ensures
        is_start_order(g, order) <==> {
            &&& order.no_duplicates()
            &&& forall|n: Seq<char>| #[trigger] order.contains(n) <==> g.contains_key(n)
            &&& forall|x: Seq<char>, k: int|
                g.contains_key(x) && 0 <= k < g[x].before.len() && g.contains_key(g[x].before[k])
                    ==> order.index_of(x) < order.index_of(#[trigger] g[x].before[k])
            &&& forall|x: Seq<char>, k: int|
                g.contains_key(x) && 0 <= k < g[x].after.len() && g.contains_key(g[x].after[k])
                    ==> order.index_of(#[trigger] g[x].after[k]) < order.index_of(x)
        },
{
    if is_start_order(g, order) {
        assert forall|n: Seq<char>| #[trigger] order.contains(n) <==> g.contains_key(n) by {
            assert(order.to_set().contains(n) <==> g.dom().contains(n));
        }
        assert forall|x: Seq<char>, k: int|
            g.contains_key(x) && 0 <= k < g[x].before.len() && g.contains_key(
                g[x].before[k],
            ) implies order.index_of(x) < order.index_of(#[trigger] g[x].before[k]) by {
            assert(order.contains(x) && order.contains(g[x].before[k]));
            assert(must_precede(
                g,
                order[order.index_of(x)],
                order[order.index_of(g[x].before[k])],
            ));
        }
        assert forall|x: Seq<char>, k: int|
            g.contains_key(x) && 0 <= k < g[x].after.len() && g.contains_key(
                g[x].after[k],
            ) implies order.index_of(#[trigger] g[x].after[k]) < order.index_of(x) by {
            assert(order.contains(x) && order.contains(g[x].after[k]));
            assert(must_precede(
                g,
                order[order.index_of(g[x].after[k])],
                order[order.index_of(x)],
            ));
        }
    }
    if {
        &&& order.no_duplicates()
        &&& forall|n: Seq<char>| #[trigger] order.contains(n) <==> g.contains_key(n)
        &&& forall|x: Seq<char>, k: int|
            g.contains_key(x) && 0 <= k < g[x].before.len() && g.contains_key(g[x].before[k])
                ==> order.index_of(x) < order.index_of(#[trigger] g[x].before[k])
        &&& forall|x: Seq<char>, k: int|
            g.contains_key(x) && 0 <= k < g[x].after.len() && g.contains_key(g[x].after[k])
                ==> order.index_of(#[trigger] g[x].after[k]) < order.index_of(x)
    } {
        assert(order.to_set() =~= g.dom());
        assert forall|i: int, j: int|
            0 <= i < order.len() && 0 <= j < order.len() && #[trigger] must_precede(
                g,
                order[i],
                order[j],
            ) implies i < j by {
            let x = order[i];
            let y = order[j];
            assert(order.contains(x) && order.contains(y));
            assert(order.index_of(x) == i && order.index_of(y) == j);
            if lists_before(g, x, y) {
                let k = choose|k: int| 0 <= k < g[x].before.len() && g[x].before[k] == y;
                assert(order.index_of(x) < order.index_of(g[x].before[k]));
            } else {
                let k = choose|k: int| 0 <= k < g[y].after.len() && g[y].after[k] == x;
                assert(order.index_of(g[y].after[k]) < order.index_of(y));
            }
        }
    }
}

/// A unit is resolvable if all the units on its `after` list are, and so is a unit on the
/// `before` list of one that is.
pub proof fn law_resolvable_closed(g: UnitGraph, x: Seq<char>, k: int)
    ensures
        g.contains_key(x) && (forall|i: int|
            0 <= i < g[x].after.len() ==> resolvable(g, #[trigger] g[x].after[i])) ==> resolvable(
            g,
            x,
        ),
        g.contains_key(x) && resolvable(g, x) && 0 <= k < g[x].before.len() && g.contains_key(
            g[x].before[k],
        ) ==> resolvable(g, g[x].before[k]),
{
    reveal(resolvable);
    if g.contains_key(x) && forall|i: int|
        0 <= i < g[x].after.len() ==> resolvable(g, #[trigger] g[x].after[i]) {
        assert forall|s: Set<Seq<char>>| #[trigger] settles(g, s) implies s.contains(x) by {
            assert forall|d: Seq<char>| #[trigger] g[x].after.contains(d) implies s.contains(d) by {
                let i = choose|i: int| 0 <= i < g[x].after.len() && g[x].after[i] == d;
                assert(resolvable(g, g[x].after[i]));
            }
        }
    }
    if g.contains_key(x) && resolvable(g, x) && 0 <= k < g[x].before.len() && g.contains_key(
        g[x].before[k],
    ) {
        let y = g[x].before[k];
        assert(lists_before(g, x, y));
        assert forall|s: Set<Seq<char>>| #[trigger] settles(g, s) implies s.contains(y) by {
            assert(s.contains(x));
        }
    }
}

/// No more is resolvable than that: a set that holds each unit whose `after` list it holds, and
/// with each unit the units on its `before` list, holds all that is resolvable.
pub proof fn law_resolvable_least(g: UnitGraph, s: Set<Seq<char>>, x: Seq<char>)
    requires
        resolvable(g, x),
        forall|y: Seq<char>| #[trigger]
            g.contains_key(y) && (forall|i: int|
                0 <= i < g[y].after.len() ==> s.contains(#[trigger] g[y].after[i])) ==> s.contains(y),
        forall|y: Seq<char>, i: int|
            g.contains_key(y) && s.contains(y) && 0 <= i < g[y].before.len() && g.contains_key(
                g[y].before[i],
            ) ==> s.contains(#[trigger] g[y].before[i]),
    ensures
        s.contains(x),
{
    reveal(resolvable);
    assert forall|y: Seq<char>| #[trigger]
        g.contains_key(y) && (forall|d: Seq<char>| #[trigger]
            g[y].after.contains(d) ==> s.contains(d)) implies s.contains(y) by {
        assert forall|i: int| 0 <= i < g[y].after.len() implies s.contains(
            #[trigger] g[y].after[i],
        ) by {
            assert(g[y].after.contains(g[y].after[i]));
        }
    }
    assert forall|y: Seq<char>, z: Seq<char>|
        s.contains(y) && #[trigger] lists_before(g, y, z) && g.contains_key(z) implies s.contains(
        z,
    ) by {
        let i = choose|i: int| 0 <= i < g[y].before.len() && g[y].before[i] == z;
        assert(s.contains(g[y].before[i]));
    }
    assert(settles(g, s));
}

/// The check accepts a graph exactly if every unit is resolvable and no cycle runs along
/// `before` lists.
pub proof fn law_accepted_means(g: UnitGraph)
    ensures
        accepted(g) ==> forall|x: Seq<char>| #[trigger] g.contains_key(x) ==> resolvable(g, x),
        accepted(g) ==> forall|c: Seq<Seq<char>>| !#[trigger] is_before_cycle(g, c),
        !accepted(g) ==> (exists|x: Seq<char>| #[trigger] g.contains_key(x) && !resolvable(g, x))
            || (exists|c: Seq<Seq<char>>| #[trigger] is_before_cycle(g, c)),
{
    if accepted(g) {
        assert forall|c: Seq<Seq<char>>| !#[trigger] is_before_cycle(g, c) by {}
    }
}

/// A filled graph has the same units. On the `before` list of a unit stand, in order and once
/// each, the names that stood there and the units that had it on their `after` list; and on its
/// `after` list the names that stood there and the units that had it on their `before` list.
pub proof fn law_filled_lists_state_all_demands(
    g: UnitGraph,
    h: UnitGraph,
    x: Seq<char>,
    y: Seq<char>,
)
    requires
        is_filled(g, h),
    ensures
        h.contains_key(x) <==> g.contains_key(x),
        h.contains_key(x) ==> {
            &&& forall|i: int, j: int|
                0 <= i < j < h[x].before.len() ==> crate::text::precedes(
                    #[trigger] h[x].before[i],
                    #[trigger] h[x].before[j],
                )
            &&& forall|i: int, j: int|
                0 <= i < j < h[x].after.len() ==> crate::text::precedes(
                    #[trigger] h[x].after[i],
                    #[trigger] h[x].after[j],
                )
        },
        g.contains_key(x) ==> (h[x].before.contains(y) <==> g[x].before.contains(y) || (
        g.contains_key(y) && g[y].after.contains(x))),
        g.contains_key(x) ==> (h[x].after.contains(y) <==> g[x].after.contains(y) || (
        g.contains_key(y) && g[y].before.contains(x))),
{
    assert(h.dom().contains(x) <==> g.dom().contains(x));
    assert(lists_before(h, x, y) <==> g.contains_key(x) && must_precede(g, x, y));
    assert(lists_after(h, x, y) <==> g.contains_key(x) && must_precede(g, y, x));
}

/// The startable units of a list hold exactly the listed units of the graph for which every name
/// on the `after` list has been started. The `before` list does not matter.
pub proof fn law_startable_when_all_awaited_started(
    g: UnitGraph,
    started: Map<Seq<char>, bool>,
    ids: Seq<Seq<char>>,
    x: Seq<char>,
)
    ensures
        startable_among(g, started, ids).contains(x) <==> {
            &&& ids.contains(x)
            &&& g.contains_key(x)
            &&& forall|k: int|
                0 <= k < g[x].after.len() ==> started.contains_key(#[trigger] g[x].after[k])
                    && started[g[x].after[k]]
        },
    decreases ids.len(),
{
    reveal(Seq::filter);
    if ids.len() > 0 {
        let init = ids.drop_last();
        let last = ids.last();
        let part = startable_among(g, started, init);
        law_startable_when_all_awaited_started(g, started, init, x);
        assert(ids =~= init.push(last));
        crate::names::lemma_push_to_set(init, last);
        crate::names::lemma_push_to_set(part, last);
        assert(ids.to_set().contains(x) <==> init.to_set().contains(x) || x == last);
        assert(part.push(last).to_set().contains(x) <==> part.to_set().contains(x) || x == last);
        if x == last {
            assert forall|d: Seq<char>| #[trigger]
                g[x].after.contains(d) implies exists|k: int|
                0 <= k < g[x].after.len() && #[trigger] g[x].after[k] == d by {}
            if is_startable(g, started, x) {
                assert forall|k: int| 0 <= k < g[x].after.len() implies started.contains_key(
                    #[trigger] g[x].after[k],
                ) && started[g[x].after[k]] by {
                    assert(g[x].after.contains(g[x].after[k]));
                }
            }
        }
    }
}

/// Startable units are found part by part: those of two lists, one behind the other, are those of
/// each. Of a list of one name there is that one or none.
pub proof fn law_startable_part_by_part(
    g: UnitGraph,
    started: Map<Seq<char>, bool>,
    a: Seq<Seq<char>>,
    b: Seq<Seq<char>>,
    one: Seq<char>,
)
    ensures
        startable_among(g, started, a + b) == startable_among(g, started, a) + startable_among(
            g,
            started,
            b,
        ),
        startable_among(g, started, seq![one]).len() <= 1,
    decreases b.len(),
{
    reveal(Seq::filter);
    let single = seq![one];
    assert(single.drop_last() =~= Seq::<Seq<char>>::empty());
    assert(startable_among(g, started, single.drop_last()) =~= Seq::<Seq<char>>::empty());
    if b.len() == 0 {
        assert(a + b =~= a);
    } else {
        assert((a + b).drop_last() =~= a + b.drop_last());
        law_startable_part_by_part(g, started, a, b.drop_last(), one);
    }
    assert(startable_among(g, started, a + b) =~= startable_among(g, started, a)
        + startable_among(g, started, b));
}

/// A round of collecting adds exactly the names that stand on the `after` list of a listed unit
/// and are not listed, in order.
pub proof fn law_round_adds_what_is_awaited(
    g: UnitGraph,
    ids: Seq<Seq<char>>,
    more: Seq<Seq<char>>,
    d: Seq<char>,
)
    requires
        is_round(g, ids, more),
    ensures
        more.contains(d) <==> !ids.contains(d) && exists|i: int, k: int|
            0 <= i < ids.len() && g.contains_key(ids[i]) && 0 <= k < g[ids[i]].after.len()
                && #[trigger] g[ids[i]].after[k] == d,
        forall|i: int, j: int|
            0 <= i < j < more.len() ==> crate::text::precedes(
                #[trigger] more[i],
                #[trigger] more[j],
            ),
{
    let wanted = wanted_by(g, ids, ids.len() as int);
    assert(more.to_set().contains(d) <==> wanted.contains(d));
    if wanted.contains(d) {
        let i = choose|i: int| 0 <= i < ids.len() && lists_after(g, #[trigger] ids[i], d);
        let k = choose|k: int| 0 <= k < g[ids[i]].after.len() && g[ids[i]].after[k] == d;
        assert(g[ids[i]].after[k] == d);
    }
    if !ids.contains(d) && exists|i: int, k: int|
        0 <= i < ids.len() && g.contains_key(ids[i]) && 0 <= k < g[ids[i]].after.len()
            && #[trigger] g[ids[i]].after[k] == d {
        let (i, k) = choose|i: int, k: int|
            0 <= i < ids.len() && g.contains_key(ids[i]) && 0 <= k < g[ids[i]].after.len()
                && #[trigger] g[ids[i]].after[k] == d;
        assert(lists_after(g, ids[i], d));
    }
}

/// Rounds stand one behind the other, and each is a round upon the list with the rounds ahead of
/// it.
pub proof fn law_rounds_follow_each_other(
    g: UnitGraph,
    ids: Seq<Seq<char>>,
    rounds: Seq<Seq<Seq<char>>>,
    last: Seq<Seq<char>>,
)
    ensures
        joined(Seq::empty()) == Seq::<Seq<char>>::empty(),
        joined(rounds.push(last)) == joined(rounds) + last,
        are_rounds(g, ids, Seq::empty()),
        are_rounds(g, ids, rounds.push(last)) <==> are_rounds(g, ids, rounds) && last.len() > 0
            && is_round(g, ids + joined(rounds), last),
{
    let more = rounds.push(last);
    assert(more.drop_last() =~= rounds);
    assert(more.take(rounds.len() as int) =~= rounds);
    assert forall|k: int| 0 <= k < rounds.len() implies #[trigger] more.take(k) =~= rounds.take(
        k,
    ) by {}
    if are_rounds(g, ids, more) {
        assert forall|k: int| 0 <= k < rounds.len() implies (#[trigger] rounds[k]).len() > 0
            && is_round(g, ids + joined(rounds.take(k)), rounds[k]) by {
            assert(more[k] == rounds[k]);
            assert(more.take(k) =~= rounds.take(k));
        }
        assert(more[rounds.len() as int] == last);
    }
    if are_rounds(g, ids, rounds) && last.len() > 0 && is_round(g, ids + joined(rounds), last) {
        assert forall|k: int| 0 <= k < more.len() implies (#[trigger] more[k]).len() > 0
            && is_round(g, ids + joined(more.take(k)), more[k]) by {
            if k < rounds.len() {
                assert(more[k] == rounds[k]);
                assert(more.take(k) =~= rounds.take(k));
            }
        }
    }
}

/// What a list needs is the least that holds the listed names and, with each unit, the names on
/// its `after` list.
pub proof fn law_needed_least(
    g: UnitGraph,
    ids: Seq<Seq<char>>,
    s: Set<Seq<char>>,
    x: Seq<char>,
    i: int,
)
    ensures
        0 <= i < ids.len() ==> is_needed(g, ids, ids[i]),
        is_needed(g, ids, x) && (forall|k: int|
            0 <= k < ids.len() ==> s.contains(#[trigger] ids[k])) && (forall|y: Seq<char>, k: int|
            g.contains_key(y) && s.contains(y) && 0 <= k < g[y].after.len() ==> s.contains(
                #[trigger] g[y].after[k],
            )) ==> s.contains(x),
        is_needed(g, ids, x) && g.contains_key(x) && 0 <= i < g[x].after.len() ==> is_needed(
            g,
            ids,
            g[x].after[i],
        ),
{
    if is_needed(g, ids, x) && (forall|k: int|
        0 <= k < ids.len() ==> s.contains(#[trigger] ids[k])) && (forall|y: Seq<char>, k: int|
        g.contains_key(y) && s.contains(y) && 0 <= k < g[y].after.len() ==> s.contains(
            #[trigger] g[y].after[k],
        )) {
        assert forall|y: Seq<char>, d: Seq<char>|
            s.contains(y) && #[trigger] lists_after(g, y, d) implies s.contains(d) by {
            let k = choose|k: int| 0 <= k < g[y].after.len() && g[y].after[k] == d;
            assert(s.contains(g[y].after[k]));
        }
        assert(covers(g, ids, s));
    }
    if is_needed(g, ids, x) && g.contains_key(x) && 0 <= i < g[x].after.len() {
        assert(lists_after(g, x, g[x].after[i]));
        law_needed_closed(g, ids, x, g[x].after[i]);
    }
}

/// A name that collecting has added to a list stands nowhere ahead of its place.
pub proof fn law_collected_names_are_new(
    g: UnitGraph,
    ids: Seq<Seq<char>>,
    rounds: Seq<Seq<Seq<char>>>,
    i: int,
    j: int,
)
    requires
        are_rounds(g, ids, rounds),
        0 <= i < j < (ids + joined(rounds)).len(),
        j >= ids.len(),
    ensures
        (ids + joined(rounds))[i] != (ids + joined(rounds))[j],
    decreases rounds.len(),
{
    if rounds.len() > 0 {
        let init = rounds.drop_last();
        let last = rounds.last();
        assert(init.push(last) =~= rounds);
        law_rounds_follow_each_other(g, ids, init, last);
        let listed = ids + joined(init);
        let all = listed + last;
        assert(ids + joined(rounds) =~= all);
        if j < listed.len() {
            law_collected_names_are_new(g, ids, init, i, j);
            assert(all[i] == listed[i] && all[j] == listed[j]);
        } else {
            let d = last[j - listed.len()];
            assert(all[j] == d);
            assert(last.contains(d));
            law_round_adds_what_is_awaited(g, listed, last, d);
            assert(!listed.contains(d));
            if i < listed.len() {
                assert(all[i] == listed[i]);
                assert(listed.contains(listed[i]));
            } else {
                let a = i - listed.len();
                let b = j - listed.len();
                assert(all[i] == last[a]);
                assert(crate::text::precedes(last[a], last[b]));
                crate::text::law_precedes_asymmetric(last[a], last[b]);
            }
        }
    }
}

/// The names in reported groups of units stand at their places.
pub proof fn law_reported_names_one_for_one(groups: Seq<Vec<UnitId>>, j: int, i: int)
    ensures
        circle_names(groups).len() == groups.len(),
        0 <= j < groups.len() ==> circle_names(groups)[j].len() == groups[j]@.len(),
        0 <= j < groups.len() && 0 <= i < groups[j]@.len() ==> circle_names(groups)[j][i]
            == groups[j]@[i].name@,
{
}

} // verus!
