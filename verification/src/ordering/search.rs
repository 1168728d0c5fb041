//! What a search along `before` lists comes to, and what it reports.

use crate::ordering::graph::{accepted, all_resolvable, before_acyclic, is_before_cycle};
use crate::ordering::graph::{is_cycle, lists_after, lists_before, must_precede, next_in};
use crate::ordering::graph::{resolvable, settles, UnitGraph};
use vstd::prelude::*;

verus! {

/// A unit names one of a set on its `before` list.
#[verifier::opaque]
pub open spec fn goes_on(g: UnitGraph, s: Set<Seq<char>>, x: Seq<char>) -> bool {
    exists|y: Seq<char>| s.contains(y) && #[trigger] lists_before(g, x, y)
}

/// A set of units, none of them to be avoided, in which each names one of the set on its
/// `before` list.
pub open spec fn goes_round(g: UnitGraph, avoid: Set<Seq<char>>, s: Set<Seq<char>>) -> bool {
    forall|x: Seq<char>| #[trigger]
        s.contains(x) ==> g.contains_key(x) && !avoid.contains(x) && goes_on(g, s, x)
}

/// From this unit one can follow `before` lists without end and without coming upon a unit to
/// be avoided. In a finite graph that is to say that it leads into a cycle.
#[verifier::opaque]
pub open spec fn leads_round(g: UnitGraph, avoid: Set<Seq<char>>, x: Seq<char>) -> bool {
    exists|s: Set<Seq<char>>| #[trigger] goes_round(g, avoid, s) && s.contains(x)
}

/// A set that holds, with each unit that is not to be avoided, the units on its `before` list
/// that are not to be avoided either.
pub open spec fn keeps_successors(
    g: UnitGraph,
    avoid: Set<Seq<char>>,
    s: Set<Seq<char>>,
) -> bool {
    forall|x: Seq<char>, y: Seq<char>|
        s.contains(x) && !avoid.contains(x) && #[trigger] lists_before(g, x, y) && g.contains_key(y)
            && !avoid.contains(y) ==> s.contains(y)
}

/// One gets from unit `x` to unit `y` along `before` lists, by way of units that are not to be
/// avoided; both are such units themselves.
#[verifier::opaque]
pub open spec fn in_reach(
    g: UnitGraph,
    avoid: Set<Seq<char>>,
    x: Seq<char>,
    y: Seq<char>,
) -> bool {
    &&& g.contains_key(x)
    &&& !avoid.contains(x)
    &&& forall|s: Set<Seq<char>>| #[trigger]
        keeps_successors(g, avoid, s) && s.contains(x) ==> s.contains(y)
}

/// The units done after everything in reach of a unit has been done too.
pub open spec fn after_visit(
    g: UnitGraph,
    done: Set<Seq<char>>,
    x: Seq<char>,
) -> Set<Seq<char>> {
    Set::new(|y: Seq<char>| done.contains(y) || in_reach(g, done, x, y))
}

/// The name at a position of the `before` list of a unit, and all names ahead of it, lead into
/// no cycle.
pub open spec fn stands_ahead(
    g: UnitGraph,
    avoid: Set<Seq<char>>,
    x: Seq<char>,
    k: int,
) -> bool {
    0 <= k < g[x].before.len() && forall|m: int|
        0 <= m <= k ==> !leads_round(g, avoid, #[trigger] g[x].before[m])
}

/// Name `y` is the first one on the `before` list of unit `x` that leads into a cycle.
pub open spec fn first_leading(
    g: UnitGraph,
    avoid: Set<Seq<char>>,
    x: Seq<char>,
    y: Seq<char>,
) -> bool {
    exists|k: int|
        0 <= k < g[x].before.len() && #[trigger] g[x].before[k] == y && leads_round(g, avoid, y)
            && forall|m: int| 0 <= m < k ==> !leads_round(g, avoid, #[trigger] g[x].before[m])
}

/// Where a trail that comes back to its position `p` goes on from position `i`.
pub open spec fn turn_from(t: Seq<Seq<char>>, p: int, i: int) -> Seq<char> {
    if i + 1 < t.len() {
        t[i + 1]
    } else {
        t[p]
    }
}

/// From a position on, a trail always takes the first way that leads into a cycle, until it
/// comes back to its position `p`.
pub open spec fn chases(
    g: UnitGraph,
    avoid: Set<Seq<char>>,
    t: Seq<Seq<char>>,
    from: int,
    p: int,
) -> bool {
    forall|i: int|
        from <= i < t.len() ==> first_leading(g, avoid, t[i], #[trigger] turn_from(t, p, i))
}

/// The unit is in reach of a name that stands, on the `before` list of unit `x`, ahead of all
/// names that lead into a cycle.
pub open spec fn passed_at(
    g: UnitGraph,
    avoid: Set<Seq<char>>,
    x: Seq<char>,
    y: Seq<char>,
) -> bool {
    exists|k: int| #[trigger]
        stands_ahead(g, avoid, x, k) && in_reach(g, avoid, g[x].before[k], y)
}

/// The unit has been passed on a trail, from a position of the trail on.
pub open spec fn passed(
    g: UnitGraph,
    avoid: Set<Seq<char>>,
    t: Seq<Seq<char>>,
    from: int,
    y: Seq<char>,
) -> bool {
    exists|i: int| from <= i < t.len() && passed_at(g, avoid, #[trigger] t[i], y)
}

/// The units done after a trail, followed from a position on, has closed a circle: those done
/// before, those on the circle, and those passed on the way.
pub open spec fn after_chase(
    g: UnitGraph,
    done: Set<Seq<char>>,
    t: Seq<Seq<char>>,
    from: int,
    circle: Seq<Seq<char>>,
) -> Set<Seq<char>> {
    Set::new(
        |y: Seq<char>| done.contains(y) || circle.contains(y) || passed(g, done, t, from, y),
    )
}

/// The unit is not done, but all that it waits for is.
pub open spec fn is_root(g: UnitGraph, done: Set<Seq<char>>, x: Seq<char>) -> bool {
    &&& g.contains_key(x)
    &&& !done.contains(x)
    &&& forall|d: Seq<char>| #[trigger] g[x].after.contains(d) ==> done.contains(d)
}

/// One turn of the check: the unit that the search set out from, unless no unit could be the
/// next; the circle that was found, if any; and the units that are done since.
pub struct SearchTurn {
    /// The unit that the search set out from
    pub root: Option<Seq<char>>,
    /// The circle that was found
    pub circle: Option<Seq<Seq<char>>>,
    /// The units that are done since
    pub done: Set<Seq<char>>,
}

/// The circle that a search from a unit closes: the trail that always takes the first way into a
/// cycle, from the unit on that it comes back to.
pub open spec fn closes(
    g: UnitGraph,
    done: Set<Seq<char>>,
    root: Seq<char>,
    t: Seq<Seq<char>>,
    p: int,
) -> bool {
    &&& 0 <= p < t.len()
    &&& t[0] == root
    &&& t.no_duplicates()
    &&& chases(g, done, t, 0, p)
}

/// Not all units are done, and each one that is not waits for something that is not.
pub open spec fn is_stalled(g: UnitGraph, done: Set<Seq<char>>) -> bool {
    &&& exists|x: Seq<char>| #[trigger] g.contains_key(x) && !done.contains(x)
    &&& forall|x: Seq<char>| !#[trigger] is_root(g, done, x)
}

/// One of the units that are not done waits for a name that belongs to no unit.
pub open spec fn awaits_missing(g: UnitGraph, done: Set<Seq<char>>) -> bool {
    exists|x: Seq<char>, d: Seq<char>|
        !done.contains(x) && #[trigger] lists_after(g, x, d) && !g.contains_key(d)
}

/// Name `d` is the first one on the `after` list of unit `x` that is not done.
pub open spec fn first_awaited(
    g: UnitGraph,
    done: Set<Seq<char>>,
    x: Seq<char>,
    d: Seq<char>,
) -> bool {
    exists|k: int|
        0 <= k < g[x].after.len() && #[trigger] g[x].after[k] == d && !done.contains(d) && forall|
            m: int,
        |
            0 <= m < k ==> done.contains(#[trigger] g[x].after[m])
}

/// A circle of different units that are not done, each the first thing that the next one still
/// waits for.
pub open spec fn is_waiting_circle(
    g: UnitGraph,
    done: Set<Seq<char>>,
    c: Seq<Seq<char>>,
) -> bool {
    &&& c.len() > 0
    &&& c.no_duplicates()
    &&& forall|i: int|
        0 <= i < c.len() ==> g.contains_key(#[trigger] c[i]) && !done.contains(c[i])
    &&& forall|i: int|
        0 <= i < c.len() ==> first_awaited(g, done, #[trigger] next_in(c, i), c[i])
}

/// The units done after those of a circle of waiting units have been done too.
pub open spec fn after_circle(done: Set<Seq<char>>, circle: Seq<Seq<char>>) -> Set<Seq<char>> {
    Set::new(|y: Seq<char>| done.contains(y) || circle.contains(y))
}

/// A turn of the check that follows the given units being done. If the root leads into no cycle,
/// all in its reach is done. Otherwise the first circle that the search closes is found. Where
/// there is no root, a circle of units that wait for each other is found, provided that the
/// units that are left wait for units only.
pub open spec fn is_turn(g: UnitGraph, done: Set<Seq<char>>, turn: SearchTurn) -> bool {
    match turn.root {
        Some(root) => is_root(g, done, root) && match turn.circle {
            None => !leads_round(g, done, root) && turn.done == after_visit(g, done, root),
            Some(circle) => leads_round(g, done, root) && exists|t: Seq<Seq<char>>, p: int|
                #[trigger] closes(g, done, root, t, p) && circle == t.skip(p) && turn.done
                    == after_chase(g, done, t, 0, circle),
        },
        None => {
            &&& is_stalled(g, done)
            &&& !awaits_missing(g, done)
            &&& turn.circle matches Some(circle) && is_waiting_circle(g, done, circle)
                && turn.done == after_circle(done, circle)
        },
    }
}

/// The units done after some turns.
pub open spec fn done_after(turns: Seq<SearchTurn>) -> Set<Seq<char>> {
    if turns.len() == 0 {
        Set::empty()
    } else {
        turns.last().done
    }
}

/// The circles found in some turns, in order.
pub open spec fn found_in(turns: Seq<SearchTurn>) -> Seq<Seq<Seq<char>>>
    decreases turns.len(),
{
    if turns.len() == 0 {
        Seq::empty()
    } else {
        let found = found_in(turns.drop_last());
        match turns.last().circle {
            None => found,
            Some(circle) => found.push(circle),
        }
    }
}

/// A course of the check: turns that follow one another from the start.
pub open spec fn is_course(g: UnitGraph, turns: Seq<SearchTurn>) -> bool
    decreases turns.len(),
{
    turns.len() == 0 || (is_course(g, turns.drop_last()) && is_turn(
        g,
        done_after(turns.drop_last()),
        turns.last(),
    ))
}

/// What is reported of the units that are left when none of them can be the next and one of them
/// waits for a name that belongs to no unit: all of them.
pub open spec fn is_left_group(
    g: UnitGraph,
    done: Set<Seq<char>>,
    c: Seq<Seq<char>>,
) -> bool {
    &&& is_stalled(g, done)
    &&& awaits_missing(g, done)
    &&& c.no_duplicates()
    &&& forall|x: Seq<char>| #[trigger]
        c.contains(x) <==> g.contains_key(x) && !done.contains(x)
}

/// What a course of the check reports in the end: the circles found, in order, and if it ended
/// with units left, the group of those behind them.
pub open spec fn is_outcome(
    g: UnitGraph,
    turns: Seq<SearchTurn>,
    circles: Seq<Seq<Seq<char>>>,
) -> bool {
    &&& is_course(g, turns)
    &&& if forall|x: Seq<char>| #[trigger] g.contains_key(x) ==> done_after(turns).contains(x) {
        circles == found_in(turns)
    } else {
        circles.len() > 0 && circles.drop_last() == found_in(turns) && is_left_group(
            g,
            done_after(turns),
            circles.last(),
        )
    }
}

/// What a report of circles says of a graph: it is what a course of the check found, and that
/// was something.
pub open spec fn is_circle_report(g: UnitGraph, circles: Seq<Seq<Seq<char>>>) -> bool {
    circles.len() > 0 && exists|turns: Seq<SearchTurn>| #[trigger] is_outcome(g, turns, circles)
}

/// A unit that leads into a cycle names one that does, and leads there itself if it names one.
pub proof fn lemma_leads_step(g: UnitGraph, avoid: Set<Seq<char>>, x: Seq<char>)
    ensures
        leads_round(g, avoid, x) <==> g.contains_key(x) && !avoid.contains(x) && exists|
            y: Seq<char>,
        |
            #[trigger] lists_before(g, x, y) && leads_round(g, avoid, y),
{
    reveal(leads_round);
    if leads_round(g, avoid, x) {
        let s = choose|s: Set<Seq<char>>| #[trigger] goes_round(g, avoid, s) && s.contains(x);
        assert(goes_on(g, s, x));
        reveal(goes_on);
        let y = choose|y: Seq<char>| s.contains(y) && #[trigger] lists_before(g, x, y);
        assert(lists_before(g, x, y) && leads_round(g, avoid, y));
    }
    if g.contains_key(x) && !avoid.contains(x) && exists|y: Seq<char>| #[trigger]
        lists_before(g, x, y) && leads_round(g, avoid, y) {
        let y = choose|y: Seq<char>| #[trigger] lists_before(g, x, y) && leads_round(g, avoid, y);
        let s = choose|s: Set<Seq<char>>| #[trigger] goes_round(g, avoid, s) && s.contains(y);
        let more = s.insert(x);
        assert forall|z: Seq<char>| #[trigger] more.contains(z) implies g.contains_key(z)
            && !avoid.contains(z) && goes_on(g, more, z) by {
            if s.contains(z) {
                assert(goes_on(g, s, z));
                lemma_goes_on(g, s, more, z);
            } else {
                assert(more.contains(y) && lists_before(g, z, y));
                reveal(goes_on);
            }
        }
        assert(goes_round(g, avoid, more) && more.contains(x));
    }
}

proof fn lemma_goes_on(g: UnitGraph, s: Set<Seq<char>>, more: Set<Seq<char>>, x: Seq<char>)
    requires
        goes_on(g, s, x),
        s.subset_of(more),
    ensures
        goes_on(g, more, x),
{
    reveal(goes_on);
    let y = choose|y: Seq<char>| s.contains(y) && #[trigger] lists_before(g, x, y);
    assert(more.contains(y) && lists_before(g, x, y));
}

/// The units of a cycle lead into a cycle, if none of them is to be avoided.
pub proof fn lemma_cycle_leads(
    g: UnitGraph,
    avoid: Set<Seq<char>>,
    c: Seq<Seq<char>>,
    x: Seq<char>,
)
    requires
        is_before_cycle(g, c),
        c.contains(x),
        forall|i: int| 0 <= i < c.len() ==> !avoid.contains(#[trigger] c[i]),
    ensures
        leads_round(g, avoid, x),
{
    let s = c.to_set();
    assert forall|z: Seq<char>| #[trigger] s.contains(z) implies g.contains_key(z)
        && !avoid.contains(z) && goes_on(g, s, z) by {
        let i = choose|i: int| 0 <= i < c.len() && c[i] == z;
        assert(lists_before(g, c[i], next_in(c, i)));
        assert(!avoid.contains(c[i]));
        assert(c.contains(next_in(c, i)));
        assert(s.contains(next_in(c, i)));
        reveal(goes_on);
    }
    assert(goes_round(g, avoid, s));
    assert(s.contains(x));
    assert(leads_round(g, avoid, x)) by {
        reveal(leads_round);
    }
}

/// Both ends of a reach are units, and not to be avoided.
pub proof fn lemma_reach_ends(
    g: UnitGraph,
    avoid: Set<Seq<char>>,
    x: Seq<char>,
    y: Seq<char>,
)
    requires
        in_reach(g, avoid, x, y),
    ensures
        g.contains_key(x) && !avoid.contains(x),
        g.contains_key(y) && !avoid.contains(y),
{
    reveal(in_reach);
    let s = Set::new(|z: Seq<char>| g.contains_key(z) && !avoid.contains(z));
    assert(keeps_successors(g, avoid, s) && s.contains(x));
}

/// A reach goes on along a `before` list.
pub proof fn lemma_reach_step(
    g: UnitGraph,
    avoid: Set<Seq<char>>,
    x: Seq<char>,
    y: Seq<char>,
    z: Seq<char>,
)
    requires
        in_reach(g, avoid, x, y),
        lists_before(g, y, z),
        g.contains_key(z),
        !avoid.contains(z),
    ensures
        in_reach(g, avoid, x, z),
{
    lemma_reach_ends(g, avoid, x, y);
    reveal(in_reach);
}

/// In reach of a unit are that unit and what is in reach of the names on its `before` list.
pub proof fn lemma_reach_from(
    g: UnitGraph,
    avoid: Set<Seq<char>>,
    x: Seq<char>,
    y: Seq<char>,
)
    requires
        g.contains_key(x),
        !avoid.contains(x),
    ensures
        in_reach(g, avoid, x, y) <==> y == x || exists|k: int|
            0 <= k < g[x].before.len() && in_reach(g, avoid, #[trigger] g[x].before[k], y),
{
    let list = g[x].before;
    if in_reach(g, avoid, x, y) {
        let s = Set::new(
            |z: Seq<char>|
                z == x || exists|k: int|
                    0 <= k < list.len() && in_reach(g, avoid, #[trigger] list[k], z),
        );
        assert forall|a: Seq<char>, b: Seq<char>|
            s.contains(a) && !avoid.contains(a) && #[trigger] lists_before(g, a, b)
                && g.contains_key(b) && !avoid.contains(b) implies s.contains(b) by {
            if a == x {
                let k = choose|k: int| 0 <= k < list.len() && list[k] == b;
                assert(in_reach(g, avoid, list[k], b)) by {
                    reveal(in_reach);
                }
            } else {
                let k = choose|k: int|
                    0 <= k < list.len() && in_reach(g, avoid, #[trigger] list[k], a);
                lemma_reach_step(g, avoid, list[k], a, b);
            }
        }
        assert(keeps_successors(g, avoid, s) && s.contains(x));
        reveal(in_reach);
        assert(s.contains(y));
    }
    if y == x {
        reveal(in_reach);
    } else if exists|k: int|
        0 <= k < list.len() && in_reach(g, avoid, #[trigger] list[k], y) {
        let k = choose|k: int| 0 <= k < list.len() && in_reach(g, avoid, #[trigger] list[k], y);
        assert(list.contains(list[k]));
        assert(lists_before(g, x, list[k]));
        lemma_reach_ends(g, avoid, list[k], y);
        reveal(in_reach);
    }
}

/// What is in reach of a unit that leads into no cycle leads into none either.
pub proof fn lemma_reach_quiet(
    g: UnitGraph,
    avoid: Set<Seq<char>>,
    x: Seq<char>,
    y: Seq<char>,
)
    requires
        in_reach(g, avoid, x, y),
        !leads_round(g, avoid, x),
    ensures
        !leads_round(g, avoid, y),
{
    let s = Set::new(|z: Seq<char>| !leads_round(g, avoid, z));
    assert forall|a: Seq<char>, b: Seq<char>|
        s.contains(a) && !avoid.contains(a) && #[trigger] lists_before(g, a, b) && g.contains_key(b)
            && !avoid.contains(b) implies s.contains(b) by {
        lemma_leads_step(g, avoid, a);
    }
    assert(keeps_successors(g, avoid, s) && s.contains(x));
    reveal(in_reach);
}

/// Units have been added to those to be avoided that lead into no cycle, and with each of them
/// the units on its `before` list.
pub open spec fn quietly_grown(g: UnitGraph, a: Set<Seq<char>>, b: Set<Seq<char>>) -> bool {
    &&& a.subset_of(b)
    &&& forall|x: Seq<char>| #[trigger]
        b.contains(x) && !a.contains(x) ==> !leads_round(g, a, x)
    &&& forall|x: Seq<char>, y: Seq<char>|
        b.contains(x) && !a.contains(x) && #[trigger] lists_before(g, x, y) && g.contains_key(y)
            ==> b.contains(y)
}

proof fn lemma_grown_leads(g: UnitGraph, a: Set<Seq<char>>, b: Set<Seq<char>>, x: Seq<char>)
    requires
        quietly_grown(g, a, b),
    ensures
        leads_round(g, a, x) <==> leads_round(g, b, x),
{
    if leads_round(g, a, x) {
        let s = choose|s: Set<Seq<char>>| #[trigger] goes_round(g, a, s) && s.contains(x);
        assert(goes_round(g, a, s) && s.contains(x)) by {
            reveal(leads_round);
        }
        assert forall|z: Seq<char>| #[trigger] s.contains(z) implies !b.contains(z) by {
            assert(leads_round(g, a, z)) by {
                reveal(leads_round);
            }
        }
        assert(goes_round(g, b, s));
        reveal(leads_round);
    }
    if leads_round(g, b, x) {
        reveal(leads_round);
        let s = choose|s: Set<Seq<char>>| #[trigger] goes_round(g, b, s) && s.contains(x);
        assert(goes_round(g, a, s));
    }
}

proof fn lemma_grown_reach_shrinks(
    g: UnitGraph,
    a: Set<Seq<char>>,
    b: Set<Seq<char>>,
    x: Seq<char>,
    y: Seq<char>,
)
    requires
        a.subset_of(b),
        in_reach(g, b, x, y),
    ensures
        in_reach(g, a, x, y),
{
    reveal(in_reach);
    assert forall|s: Set<Seq<char>>| #[trigger]
        keeps_successors(g, a, s) && s.contains(x) implies s.contains(y) by {
        assert(keeps_successors(g, b, s));
    }
}

proof fn lemma_grown_reach(
    g: UnitGraph,
    a: Set<Seq<char>>,
    b: Set<Seq<char>>,
    x: Seq<char>,
    y: Seq<char>,
)
    requires
        quietly_grown(g, a, b),
        in_reach(g, a, x, y),
        !b.contains(y),
    ensures
        in_reach(g, b, x, y),
{
    reveal(in_reach);
    if b.contains(x) {
        assert(keeps_successors(g, a, b));
        assert(b.contains(y));
    }
    assert forall|s: Set<Seq<char>>| #[trigger]
        keeps_successors(g, b, s) && s.contains(x) implies s.contains(y) by {
        let more = s.union(b);
        assert forall|v: Seq<char>, w: Seq<char>|
            more.contains(v) && !a.contains(v) && #[trigger] lists_before(g, v, w)
                && g.contains_key(w) && !a.contains(w) implies more.contains(w) by {
            if !b.contains(v) && !b.contains(w) {
                assert(s.contains(v));
                assert(s.contains(w));
            }
        }
        assert(keeps_successors(g, a, more) && more.contains(x));
        assert(more.contains(y));
    }
}

/// Where only such units have been added, the same units lead into a cycle as before, and the
/// same units are in reach but for those added.
pub proof fn lemma_grown(g: UnitGraph, a: Set<Seq<char>>, b: Set<Seq<char>>)
    requires
        quietly_grown(g, a, b),
    ensures
        forall|x: Seq<char>| #[trigger] leads_round(g, a, x) <==> leads_round(g, b, x),
        forall|x: Seq<char>, y: Seq<char>| #[trigger]
            in_reach(g, b, x, y) ==> in_reach(g, a, x, y),
        forall|x: Seq<char>, y: Seq<char>| #[trigger]
            in_reach(g, a, x, y) ==> b.contains(y) || in_reach(g, b, x, y),
{
    assert forall|x: Seq<char>| #[trigger] leads_round(g, a, x) <==> leads_round(g, b, x) by {
        lemma_grown_leads(g, a, b, x);
    }
    assert forall|x: Seq<char>, y: Seq<char>| #[trigger] in_reach(g, b, x, y) implies in_reach(
        g,
        a,
        x,
        y,
    ) by {
        lemma_grown_reach_shrinks(g, a, b, x, y);
    }
    assert forall|x: Seq<char>, y: Seq<char>| #[trigger] in_reach(g, a, x, y) implies b.contains(
        y,
    ) || in_reach(g, b, x, y) by {
        if !b.contains(y) {
            lemma_grown_reach(g, a, b, x, y);
        }
    }
}

/// The unit is in reach of one of the first `k` names of a list.
pub open spec fn covered(
    g: UnitGraph,
    avoid: Set<Seq<char>>,
    list: Seq<Seq<char>>,
    k: int,
    y: Seq<char>,
) -> bool {
    exists|j: int| 0 <= j < k && in_reach(g, avoid, #[trigger] list[j], y)
}

/// The units done, with those in reach of the first `k` names of a list.
pub open spec fn with_covered(
    g: UnitGraph,
    done: Set<Seq<char>>,
    list: Seq<Seq<char>>,
    k: int,
) -> Set<Seq<char>> {
    Set::new(|y: Seq<char>| done.contains(y) || covered(g, done, list, k, y))
}

/// Names that lead into no cycle can be done quietly, with all in their reach.
pub proof fn lemma_covered_grown(
    g: UnitGraph,
    done: Set<Seq<char>>,
    list: Seq<Seq<char>>,
    k: int,
)
    requires
        forall|j: int| 0 <= j < k ==> !leads_round(g, done, #[trigger] list[j]),
    ensures
        quietly_grown(g, done, with_covered(g, done, list, k)),
{
    let b = with_covered(g, done, list, k);
    assert forall|x: Seq<char>| #[trigger] b.contains(x) && !done.contains(x) implies !leads_round(
        g,
        done,
        x,
    ) by {
        let j = choose|j: int| 0 <= j < k && in_reach(g, done, #[trigger] list[j], x);
        lemma_reach_quiet(g, done, list[j], x);
    }
    assert forall|x: Seq<char>, y: Seq<char>|
        b.contains(x) && !done.contains(x) && #[trigger] lists_before(g, x, y) && g.contains_key(
            y,
        ) implies b.contains(y) by {
        let j = choose|j: int| 0 <= j < k && in_reach(g, done, #[trigger] list[j], x);
        if !done.contains(y) {
            lemma_reach_step(g, done, list[j], x, y);
            assert(covered(g, done, list, k, y));
        }
    }
}

/// After the first `k` names of a list, the next one is visited.
pub proof fn lemma_covered_next(
    g: UnitGraph,
    done: Set<Seq<char>>,
    list: Seq<Seq<char>>,
    k: int,
)
    requires
        0 <= k < list.len(),
        forall|j: int| 0 <= j < k ==> !leads_round(g, done, #[trigger] list[j]),
    ensures
        after_visit(g, with_covered(g, done, list, k), list[k]) == with_covered(
            g,
            done,
            list,
            k + 1,
        ),
        leads_round(g, with_covered(g, done, list, k), list[k]) <==> leads_round(g, done, list[k]),
{
    let b = with_covered(g, done, list, k);
    lemma_covered_grown(g, done, list, k);
    lemma_grown(g, done, b);
    assert forall|y: Seq<char>|
        after_visit(g, b, list[k]).contains(y) <==> with_covered(g, done, list, k + 1).contains(
            y,
        ) by {
        if covered(g, done, list, k, y) {
            let j = choose|j: int| 0 <= j < k && in_reach(g, done, #[trigger] list[j], y);
            assert(in_reach(g, done, list[j], y));
        }
        if in_reach(g, b, list[k], y) {
            assert(in_reach(g, done, list[k], y));
        }
        if covered(g, done, list, k + 1, y) {
            let j = choose|j: int| 0 <= j < k + 1 && in_reach(g, done, #[trigger] list[j], y);
            if j < k {
                assert(covered(g, done, list, k, y));
            }
        }
    }
    assert(after_visit(g, b, list[k]) =~= with_covered(g, done, list, k + 1));
}

/// Once all names on the `before` list of a unit are visited, only the unit itself is missing.
pub proof fn lemma_visit_last(g: UnitGraph, done: Set<Seq<char>>, x: Seq<char>)
    requires
        g.contains_key(x),
        !done.contains(x),
        forall|j: int|
            0 <= j < g[x].before.len() ==> !leads_round(g, done, #[trigger] g[x].before[j]),
    ensures
        !leads_round(g, done, x),
        with_covered(g, done, g[x].before, g[x].before.len() as int).insert(x) == after_visit(
            g,
            done,
            x,
        ),
{
    let list = g[x].before;
    let all = with_covered(g, done, list, list.len() as int).insert(x);
    lemma_leads_step(g, done, x);
    if leads_round(g, done, x) {
        let y = choose|y: Seq<char>| #[trigger] lists_before(g, x, y) && leads_round(g, done, y);
        let j = choose|j: int| 0 <= j < list.len() && list[j] == y;
        assert(!leads_round(g, done, list[j]));
    }
    assert forall|y: Seq<char>| all.contains(y) <==> after_visit(g, done, x).contains(y) by {
        lemma_reach_from(g, done, x, y);
    }
    assert(all =~= after_visit(g, done, x));
}

/// A trail that closes a circle behind the first `k` names on the `before` list of its unit at
/// position `from` has passed those names, and what was passed from the next position on.
pub proof fn lemma_chase_longer(
    g: UnitGraph,
    done: Set<Seq<char>>,
    t: Seq<Seq<char>>,
    from: int,
    p: int,
    k: int,
    circle: Seq<Seq<char>>,
)
    requires
        0 <= from < t.len(),
        0 <= k < g[t[from]].before.len(),
        g[t[from]].before[k] == turn_from(t, p, from),
        leads_round(g, done, g[t[from]].before[k]),
        forall|j: int| 0 <= j < k ==> !leads_round(g, done, #[trigger] g[t[from]].before[j]),
        chases(g, with_covered(g, done, g[t[from]].before, k), t, from + 1, p),
    ensures
        chases(g, done, t, from, p),
        after_chase(g, with_covered(g, done, g[t[from]].before, k), t, from + 1, circle)
            == after_chase(g, done, t, from, circle),
{
    let list = g[t[from]].before;
    let b = with_covered(g, done, list, k);
    lemma_covered_grown(g, done, list, k);
    lemma_grown(g, done, b);
    assert forall|i: int| from <= i < t.len() implies first_leading(
        g,
        done,
        t[i],
        #[trigger] turn_from(t, p, i),
    ) by {
        if i == from {
            assert(list[k] == turn_from(t, p, i));
        } else {
            let y = turn_from(t, p, i);
            assert(first_leading(g, b, t[i], y));
            let m = choose|m: int|
                0 <= m < g[t[i]].before.len() && #[trigger] g[t[i]].before[m] == y && leads_round(
                    g,
                    b,
                    y,
                ) && forall|n: int| 0 <= n < m ==> !leads_round(g, b, #[trigger] g[t[i]].before[n]);
            assert(g[t[i]].before[m] == y && leads_round(g, done, y));
            assert forall|n: int| 0 <= n < m implies !leads_round(
                g,
                done,
                #[trigger] g[t[i]].before[n],
            ) by {
                assert(!leads_round(g, b, g[t[i]].before[n]));
            }
        }
    }
    let less = after_chase(g, b, t, from + 1, circle);
    let more = after_chase(g, done, t, from, circle);
    assert forall|x: Seq<char>, m: int| stands_ahead(g, b, x, m) <==> stands_ahead(g, done, x, m) by {
        if stands_ahead(g, b, x, m) {
            assert forall|n: int| 0 <= n <= m implies !leads_round(
                g,
                done,
                #[trigger] g[x].before[n],
            ) by {
                assert(!leads_round(g, b, g[x].before[n]));
            }
        }
        if stands_ahead(g, done, x, m) {
            assert forall|n: int| 0 <= n <= m implies !leads_round(
                g,
                b,
                #[trigger] g[x].before[n],
            ) by {
                assert(!leads_round(g, done, g[x].before[n]));
            }
        }
    }
    assert forall|y: Seq<char>| less.contains(y) implies more.contains(y) by {
        if covered(g, done, list, k, y) {
            let j = choose|j: int| 0 <= j < k && in_reach(g, done, #[trigger] list[j], y);
            assert(stands_ahead(g, done, t[from], j));
            assert(passed_at(g, done, t[from], y));
        }
        if passed(g, b, t, from + 1, y) {
            let i = choose|i: int| from + 1 <= i < t.len() && passed_at(g, b, #[trigger] t[i], y);
            let m = choose|m: int| #[trigger]
                stands_ahead(g, b, t[i], m) && in_reach(g, b, g[t[i]].before[m], y);
            assert(stands_ahead(g, done, t[i], m));
            assert(in_reach(g, done, g[t[i]].before[m], y));
            assert(passed_at(g, done, t[i], y));
        }
    }
    assert forall|y: Seq<char>| more.contains(y) implies less.contains(y) by {
        if passed(g, done, t, from, y) {
            let i = choose|i: int| from <= i < t.len() && passed_at(g, done, #[trigger] t[i], y);
            let m = choose|m: int| #[trigger]
                stands_ahead(g, done, t[i], m) && in_reach(g, done, g[t[i]].before[m], y);
            if i == from {
                if m >= k {
                    assert(!leads_round(g, done, list[k]));
                }
                assert(in_reach(g, done, list[m], y));
                assert(covered(g, done, list, k, y));
            } else {
                assert(stands_ahead(g, b, t[i], m));
                assert(in_reach(g, done, g[t[i]].before[m], y));
                if !b.contains(y) {
                    assert(in_reach(g, b, g[t[i]].before[m], y));
                    assert(passed_at(g, b, t[i], y));
                }
            }
        }
    }
    assert(less =~= more);
}

/// A unit is resolvable if all that it waits for is, or if one is that starts before it.
pub proof fn lemma_resolvable_by(g: UnitGraph, x: Seq<char>)
    requires
        g.contains_key(x),
        (forall|d: Seq<char>| #[trigger] g[x].after.contains(d) ==> resolvable(g, d)) || (exists|
            y: Seq<char>,
        |
            #[trigger] lists_before(g, y, x) && resolvable(g, y)),
    ensures
        resolvable(g, x),
{
    reveal(resolvable);
    assert forall|s: Set<Seq<char>>| #[trigger] settles(g, s) implies s.contains(x) by {
        if forall|d: Seq<char>| #[trigger] g[x].after.contains(d) ==> resolvable(g, d) {
            assert forall|d: Seq<char>| #[trigger] g[x].after.contains(d) implies s.contains(d) by {
                assert(resolvable(g, d));
            }
        } else {
            let y = choose|y: Seq<char>| #[trigger] lists_before(g, y, x) && resolvable(g, y);
            assert(s.contains(y));
        }
    }
}

/// A search that closes a circle makes a turn.
#[verifier::spinoff_prover]
pub proof fn lemma_closing_turn(
    g: UnitGraph,
    done: Set<Seq<char>>,
    root: Seq<char>,
    t: Seq<Seq<char>>,
    p: int,
    more: Set<Seq<char>>,
)
    requires
        is_root(g, done, root),
        leads_round(g, done, root),
        closes(g, done, root, t, p),
        more == after_chase(g, done, t, 0, t.skip(p)),
    ensures
        is_turn(
            g,
            done,
            (SearchTurn { root: Some(root), circle: Some(t.skip(p)), done: more }),
        ),
{
    let circle = t.skip(p);
    let turn = SearchTurn { root: Some(root), circle: Some(circle), done: more };
    assert(closes(g, done, root, t, p) && circle == t.skip(p) && turn.done == after_chase(
        g,
        done,
        t,
        0,
        circle,
    ));
    assert(exists|u: Seq<Seq<char>>, q: int|
        #[trigger] closes(g, done, root, u, q) && circle == u.skip(q) && turn.done == after_chase(
            g,
            done,
            u,
            0,
            circle,
        ));
    assert(is_turn(g, done, turn));
}

/// A further turn makes a longer course.
pub proof fn lemma_course_push(g: UnitGraph, turns: Seq<SearchTurn>, turn: SearchTurn)
    requires
        is_course(g, turns),
        is_turn(g, done_after(turns), turn),
    ensures
        is_course(g, turns.push(turn)),
        done_after(turns.push(turn)) == turn.done,
        found_in(turns.push(turn)) == match turn.circle {
            None => found_in(turns),
            Some(circle) => found_in(turns).push(circle),
        },
{
    assert(turns.push(turn).drop_last() =~= turns);
}

/// The circle that a search closes is a cycle along `before` lists.
pub proof fn lemma_closed_is_cycle(
    g: UnitGraph,
    done: Set<Seq<char>>,
    root: Seq<char>,
    t: Seq<Seq<char>>,
    p: int,
)
    requires
        g.contains_key(root),
        closes(g, done, root, t, p),
    ensures
        is_before_cycle(g, t.skip(p)),
{
    let c = t.skip(p);
    assert forall|k: int| 0 <= k < c.len() implies lists_before(
        g,
        c[k],
        #[trigger] next_in(c, k),
    ) by {
        let i = p + k;
        let y = turn_from(t, p, i);
        assert(first_leading(g, done, t[i], y));
        if i > 0 {
            assert(first_leading(g, done, t[i - 1], turn_from(t, p, i - 1)));
            lemma_leads_step(g, done, t[i]);
        }
        let m = choose|m: int| 0 <= m < g[t[i]].before.len() && #[trigger] g[t[i]].before[m] == y;
        assert(g[t[i]].before.contains(y));
        assert(next_in(c, k) == y);
    }
}

/// A cycle along `before` lists is a cycle.
pub proof fn lemma_before_cycle_is_cycle(g: UnitGraph, c: Seq<Seq<char>>)
    requires
        is_before_cycle(g, c),
    ensures
        is_cycle(g, c),
{
    assert forall|i: int| 0 <= i < c.len() implies g.contains_key(#[trigger] c[i]) by {
        assert(lists_before(g, c[i], next_in(c, i)));
    }
    assert forall|i: int| 0 <= i < c.len() implies must_precede(
        g,
        c[i],
        #[trigger] next_in(c, i),
    ) by {
        assert(lists_before(g, c[i], next_in(c, i)));
    }
}

/// A circle of units that wait for each other is a cycle.
proof fn lemma_waiting_circle_is_cycle(
    g: UnitGraph,
    done: Set<Seq<char>>,
    c: Seq<Seq<char>>,
)
    requires
        is_waiting_circle(g, done, c),
    ensures
        is_cycle(g, c),
{
    assert forall|i: int| 0 <= i < c.len() implies must_precede(
        g,
        c[i],
        #[trigger] next_in(c, i),
    ) by {
        let x = next_in(c, i);
        assert(c.contains(x));
        assert(first_awaited(g, done, x, c[i]));
        let k = choose|k: int| 0 <= k < g[x].after.len() && #[trigger] g[x].after[k] == c[i];
        assert(g[x].after.contains(c[i]));
        assert(lists_after(g, x, c[i]));
    }
}

/// The circle found in a turn is a cycle of different units, none of which was done before; since
/// the turn they are done.
proof fn lemma_turn_circle(
    g: UnitGraph,
    done: Set<Seq<char>>,
    turn: SearchTurn,
    circle: Seq<Seq<char>>,
)
    requires
        is_turn(g, done, turn),
        turn.circle == Some(circle),
    ensures
        is_cycle(g, circle),
        circle.no_duplicates(),
        forall|x: Seq<char>| #[trigger]
            circle.contains(x) ==> !done.contains(x) && turn.done.contains(x),
        turn.root is Some ==> is_before_cycle(g, circle),
{
    match turn.root {
        Some(root) => {
            let (t, p) = choose|t: Seq<Seq<char>>, p: int|
                #[trigger] closes(g, done, root, t, p) && circle == t.skip(p) && turn.done
                    == after_chase(g, done, t, 0, circle);
            lemma_closed_is_cycle(g, done, root, t, p);
            lemma_before_cycle_is_cycle(g, circle);
            assert forall|x: Seq<char>| #[trigger] circle.contains(x) implies !done.contains(x)
                && turn.done.contains(x) by {
                let m = choose|m: int| 0 <= m < circle.len() && circle[m] == x;
                assert(t[m + p] == x);
                lemma_closing_is_open(g, done, root, t, p, m + p);
            }
        },
        None => {
            lemma_waiting_circle_is_cycle(g, done, circle);
            assert forall|x: Seq<char>| #[trigger] circle.contains(x) implies !done.contains(x)
                && turn.done.contains(x) by {
                let m = choose|m: int| 0 <= m < circle.len() && circle[m] == x;
                assert(!done.contains(circle[m]));
            }
        },
    }
}

/// Whatever a search comes to, what was done stays done, and only units get done: those done and
/// those not done go on dividing the units between them.
pub proof fn law_search_keeps_done(
    g: UnitGraph,
    done: Set<Seq<char>>,
    x: Seq<char>,
    t: Seq<Seq<char>>,
    from: int,
    circle: Seq<Seq<char>>,
)
    requires
        done.subset_of(g.dom()),
        forall|i: int| 0 <= i < circle.len() ==> g.contains_key(#[trigger] circle[i]),
    ensures
        done.subset_of(after_visit(g, done, x)),
        after_visit(g, done, x).subset_of(g.dom()),
        done.subset_of(after_chase(g, done, t, from, circle)),
        after_chase(g, done, t, from, circle).subset_of(g.dom()),
{
    assert forall|y: Seq<char>| #[trigger]
        after_visit(g, done, x).contains(y) implies g.dom().contains(y) by {
        if !done.contains(y) {
            lemma_reach_ends(g, done, x, y);
        }
    }
    assert forall|y: Seq<char>| #[trigger]
        after_chase(g, done, t, from, circle).contains(y) implies g.dom().contains(y) by {
        if circle.contains(y) {
            let m = choose|m: int| 0 <= m < circle.len() && circle[m] == y;
            assert(g.contains_key(circle[m]));
        } else if !done.contains(y) {
            lemma_passed_is_unit(g, done, t, from, y);
        }
    }
}

/// What is done stays done, and only units are ever done.
pub proof fn law_turn_keeps_done(g: UnitGraph, done: Set<Seq<char>>, turn: SearchTurn)
    requires
        is_turn(g, done, turn),
        done.subset_of(g.dom()),
    ensures
        done.subset_of(turn.done),
        turn.done.subset_of(g.dom()),
{
    match turn.circle {
        None => {
            law_search_keeps_done(g, done, turn.root->0, Seq::empty(), 0, Seq::empty());
        },
        Some(circle) => {
            lemma_turn_circle(g, done, turn, circle);
            if turn.root is Some {
                let root = turn.root->0;
                let (t, p) = choose|t: Seq<Seq<char>>, p: int|
                    #[trigger] closes(g, done, root, t, p) && circle == t.skip(p) && turn.done
                        == after_chase(g, done, t, 0, circle);
                law_search_keeps_done(g, done, root, t, 0, circle);
            } else {
                assert forall|x: Seq<char>| #[trigger] turn.done.contains(x) implies g.dom().contains(
                    x,
                ) by {
                    if circle.contains(x) {
                        let m = choose|m: int| 0 <= m < circle.len() && circle[m] == x;
                        assert(g.contains_key(circle[m]));
                    }
                }
            }
        },
    }
}

proof fn lemma_passed_is_unit(
    g: UnitGraph,
    done: Set<Seq<char>>,
    t: Seq<Seq<char>>,
    from: int,
    x: Seq<char>,
)
    requires
        passed(g, done, t, from, x),
    ensures
        g.contains_key(x),
        !done.contains(x),
{
    let i = choose|i: int| from <= i < t.len() && passed_at(g, done, #[trigger] t[i], x);
    let k = choose|k: int| #[trigger]
        stands_ahead(g, done, t[i], k) && in_reach(g, done, g[t[i]].before[k], x);
    lemma_reach_ends(g, done, g[t[i]].before[k], x);
}

/// Every circle that a course finds is a cycle.
pub proof fn lemma_found_are_cycles(g: UnitGraph, turns: Seq<SearchTurn>)
    requires
        is_course(g, turns),
    ensures
        forall|j: int|
            0 <= j < found_in(turns).len() ==> is_cycle(g, #[trigger] found_in(turns)[j]),
    decreases turns.len(),
{
    if turns.len() > 0 {
        let init = turns.drop_last();
        let turn = turns.last();
        let found = found_in(init);
        lemma_found_are_cycles(g, init);
        match turn.circle {
            None => {
                assert(found_in(turns) == found);
            },
            Some(circle) => {
                lemma_turn_circle(g, done_after(init), turn, circle);
                assert(found_in(turns) == found.push(circle));
                assert forall|j: int| 0 <= j < found_in(turns).len() implies is_cycle(
                    g,
                    #[trigger] found_in(turns)[j],
                ) by {
                    if j < found.len() {
                        assert(found_in(turns)[j] == found[j]);
                    }
                }
            },
        }
    }
}

/// Where a course has found no circle, the units done are resolvable, those on their `before`
/// lists are done too, and none of them lies on a cycle along `before` lists.
proof fn lemma_quiet_course(g: UnitGraph, turns: Seq<SearchTurn>)
    requires
        is_course(g, turns),
        found_in(turns).len() == 0,
    ensures
        forall|x: Seq<char>| #[trigger]
            done_after(turns).contains(x) ==> g.contains_key(x) && resolvable(g, x),
        forall|x: Seq<char>, y: Seq<char>|
            done_after(turns).contains(x) && #[trigger] lists_before(g, x, y) && g.contains_key(y)
                ==> done_after(turns).contains(y),
        forall|c: Seq<Seq<char>>, i: int| #[trigger]
            is_before_cycle(g, c) && 0 <= i < c.len() ==> !done_after(turns).contains(
                #[trigger] c[i],
            ),
    decreases turns.len(),
{
    if turns.len() > 0 {
        let init = turns.drop_last();
        let done = done_after(init);
        lemma_quiet_course(g, init);
        assert(turns.last().circle is None);
        let root = turns.last().root->0;
        let more = done_after(turns);
        assert forall|x: Seq<char>| #[trigger] more.contains(x) implies g.contains_key(x)
            && resolvable(g, x) by {
            if !done.contains(x) {
                lemma_resolvable_by(g, root);
                lemma_reach_ends(g, done, root, x);
                let s = Set::new(|z: Seq<char>| resolvable(g, z));
                assert forall|a: Seq<char>, b: Seq<char>|
                    s.contains(a) && !done.contains(a) && #[trigger] lists_before(g, a, b)
                        && g.contains_key(b) && !done.contains(b) implies s.contains(b) by {
                    lemma_resolvable_by(g, b);
                }
                assert(keeps_successors(g, done, s) && s.contains(root));
                reveal(in_reach);
                assert(s.contains(x));
            }
        }
        assert forall|x: Seq<char>, y: Seq<char>|
            more.contains(x) && #[trigger] lists_before(g, x, y) && g.contains_key(y) implies more.contains(
            y,
        ) by {
            if !done.contains(x) && !done.contains(y) {
                lemma_reach_step(g, done, root, x, y);
            }
        }
        assert forall|c: Seq<Seq<char>>, i: int| #[trigger]
            is_before_cycle(g, c) && 0 <= i < c.len() implies !more.contains(#[trigger] c[i]) by {
            assert forall|k: int| 0 <= k < c.len() implies !done.contains(#[trigger] c[k]) by {}
            if more.contains(c[i]) {
                assert(c.contains(c[i]));
                lemma_cycle_leads(g, done, c, c[i]);
                lemma_reach_quiet(g, done, root, c[i]);
            }
        }
    }
}

/// Where a course has found no circle and no unit can be the next, some unit is not resolvable.
proof fn lemma_stalled_refutes(g: UnitGraph, turns: Seq<SearchTurn>)
    requires
        is_course(g, turns),
        found_in(turns).len() == 0,
        is_stalled(g, done_after(turns)),
    ensures
        !accepted(g),
{
    let done = done_after(turns);
    lemma_quiet_course(g, turns);
    let x = choose|x: Seq<char>| #[trigger] g.contains_key(x) && !done.contains(x);
    assert forall|y: Seq<char>| #[trigger]
        g.contains_key(y) && (forall|d: Seq<char>| #[trigger]
            g[y].after.contains(d) ==> done.contains(d)) implies done.contains(y) by {
        assert(!is_root(g, done, y));
    }
    assert(settles(g, done));
    reveal(resolvable);
    assert(!resolvable(g, x));
}

/// A course that finds a circle shows that the graph is not accepted.
proof fn lemma_found_refutes(g: UnitGraph, turns: Seq<SearchTurn>)
    requires
        is_course(g, turns),
        found_in(turns).len() > 0,
    ensures
        !accepted(g),
    decreases turns.len(),
{
    let init = turns.drop_last();
    let turn = turns.last();
    if found_in(init).len() > 0 {
        lemma_found_refutes(g, init);
    } else {
        let circle = turn.circle->0;
        if turn.root is Some {
            lemma_turn_circle(g, done_after(init), turn, circle);
            assert(!before_acyclic(g));
        } else {
            lemma_stalled_refutes(g, init);
        }
    }
}

/// A course reports nothing exactly if the graph is accepted.
pub proof fn lemma_outcome_verdict(
    g: UnitGraph,
    turns: Seq<SearchTurn>,
    circles: Seq<Seq<Seq<char>>>,
)
    requires
        is_outcome(g, turns, circles),
    ensures
        circles.len() == 0 <==> accepted(g),
{
    let done = done_after(turns);
    if found_in(turns).len() > 0 {
        lemma_found_refutes(g, turns);
    } else if forall|x: Seq<char>| #[trigger] g.contains_key(x) ==> done.contains(x) {
        lemma_quiet_course(g, turns);
        assert forall|c: Seq<Seq<char>>| !is_before_cycle(g, c) by {
            if is_before_cycle(g, c) {
                assert(lists_before(g, c[0], next_in(c, 0)));
                assert(done.contains(c[0]));
            }
        }
        assert(all_resolvable(g));
    } else {
        lemma_stalled_refutes(g, turns);
    }
}

/// The units of a trail that closes a circle are not done.
proof fn lemma_closing_is_open(
    g: UnitGraph,
    done: Set<Seq<char>>,
    root: Seq<char>,
    t: Seq<Seq<char>>,
    p: int,
    i: int,
)
    requires
        !done.contains(root),
        closes(g, done, root, t, p),
        0 <= i < t.len(),
    ensures
        !done.contains(t[i]),
{
    if i > 0 {
        assert(first_leading(g, done, t[i - 1], turn_from(t, p, i - 1)));
        lemma_leads_step(g, done, t[i]);
    }
}

/// In the course of the check only units are ever done.
pub proof fn lemma_course_of_units(g: UnitGraph, turns: Seq<SearchTurn>)
    requires
        is_course(g, turns),
    ensures
        done_after(turns).subset_of(g.dom()),
    decreases turns.len(),
{
    if turns.len() > 0 {
        lemma_course_of_units(g, turns.drop_last());
        law_turn_keeps_done(g, done_after(turns.drop_last()), turns.last());
    }
}

/// The circles that a course finds consist of different units that are done, and no two of them
/// share a unit.
pub proof fn lemma_found_are_separate(g: UnitGraph, turns: Seq<SearchTurn>)
    requires
        is_course(g, turns),
    ensures
        forall|j: int, x: Seq<char>|
            0 <= j < found_in(turns).len() && #[trigger] found_in(turns)[j].contains(x)
                ==> done_after(turns).contains(x),
        forall|j: int|
            0 <= j < found_in(turns).len() ==> (#[trigger] found_in(turns)[j]).no_duplicates(),
        forall|j: int, k: int, x: Seq<char>|
            0 <= j < k < found_in(turns).len() && #[trigger] found_in(turns)[j].contains(x)
                ==> !#[trigger] found_in(turns)[k].contains(x),
    decreases turns.len(),
{
    if turns.len() > 0 {
        let init = turns.drop_last();
        let turn = turns.last();
        let done = done_after(init);
        let found = found_in(init);
        lemma_found_are_separate(g, init);
        match turn.circle {
            None => {
                assert(found_in(turns) == found);
                lemma_course_of_units(g, init);
                law_turn_keeps_done(g, done, turn);
                assert forall|j: int, x: Seq<char>|
                    0 <= j < found.len() && #[trigger] found[j].contains(x) implies turn.done.contains(
                    x,
                ) by {
                    assert(done.contains(x));
                }
            },
            Some(circle) => {
                let more = found_in(turns);
                assert(more == found.push(circle));
                lemma_turn_circle(g, done, turn, circle);
                lemma_course_of_units(g, init);
                law_turn_keeps_done(g, done, turn);
                assert forall|j: int, x: Seq<char>|
                    0 <= j < more.len() && #[trigger] more[j].contains(x) implies turn.done.contains(
                    x,
                ) by {
                    if j < found.len() {
                        assert(found[j].contains(x));
                        assert(done.contains(x));
                    }
                }
                assert forall|j: int|
                    0 <= j < more.len() implies (#[trigger] more[j]).no_duplicates() by {
                    if j < found.len() {
                        assert(more[j] == found[j]);
                    }
                }
                assert forall|j: int, k: int, x: Seq<char>|
                    0 <= j < k < more.len() && #[trigger] more[j].contains(x) implies
                    !#[trigger] more[k].contains(x) by {
                    assert(found[j].contains(x));
                    assert(done.contains(x));
                    if k < found.len() {
                        assert(more[k] == found[k]);
                    }
                }
            },
        }
    }
}

/// One of the listed circles holds a unit of the given walk.
pub open spec fn is_met(circles: Seq<Seq<Seq<char>>>, c: Seq<Seq<char>>) -> bool {
    exists|j: int, i: int|
        0 <= j < circles.len() && 0 <= i < c.len() && #[trigger] circles[j].contains(
            #[trigger] c[i],
        )
}

/// A cycle along `before` lists runs into a circle that a course has found, or none of its units
/// is done.
pub proof fn lemma_cycles_are_met(g: UnitGraph, turns: Seq<SearchTurn>, c: Seq<Seq<char>>)
    requires
        is_course(g, turns),
        is_before_cycle(g, c),
    ensures
        is_met(found_in(turns), c) || forall|i: int|
            0 <= i < c.len() ==> !done_after(turns).contains(#[trigger] c[i]),
    decreases turns.len(),
{
    if turns.len() > 0 {
        let init = turns.drop_last();
        let turn = turns.last();
        let done = done_after(init);
        let found = found_in(init);
        let more = found_in(turns);
        lemma_cycles_are_met(g, init, c);
        if is_met(found, c) {
            let (j, i) = choose|j: int, i: int|
                0 <= j < found.len() && 0 <= i < c.len() && #[trigger] found[j].contains(
                    #[trigger] c[i],
                );
            assert(more[j].contains(c[i]));
        } else if exists|i: int| 0 <= i < c.len() && turn.done.contains(#[trigger] c[i]) {
            let i = choose|i: int| 0 <= i < c.len() && turn.done.contains(#[trigger] c[i]);
            assert(c.contains(c[i]));
            lemma_cycle_leads(g, done, c, c[i]);
            match turn.circle {
                None => {
                    lemma_reach_quiet(g, done, turn.root->0, c[i]);
                },
                Some(circle) => {
                    if turn.root is Some {
                        let (t, p) = choose|t: Seq<Seq<char>>, p: int|
                            #[trigger] closes(g, done, turn.root->0, t, p) && circle == t.skip(p)
                                && turn.done == after_chase(g, done, t, 0, circle);
                        if passed(g, done, t, 0, c[i]) {
                            let m = choose|m: int|
                                0 <= m < t.len() && passed_at(g, done, #[trigger] t[m], c[i]);
                            let k = choose|k: int| #[trigger]
                                stands_ahead(g, done, t[m], k) && in_reach(
                                    g,
                                    done,
                                    g[t[m]].before[k],
                                    c[i],
                                );
                            lemma_reach_quiet(g, done, g[t[m]].before[k], c[i]);
                        }
                    }
                    assert(more[found.len() as int].contains(c[i]));
                },
            }
        }
    }
}

/// A name that stands on no `before` list is in reach of nothing but itself.
proof fn lemma_unlisted_reach(g: UnitGraph, avoid: Set<Seq<char>>, x: Seq<char>, y: Seq<char>)
    requires
        in_reach(g, avoid, x, y),
        forall|z: Seq<char>| !#[trigger] lists_before(g, z, y),
    ensures
        x == y,
{
    reveal(in_reach);
    let s = Set::new(|n: Seq<char>| n != y);
    assert(keeps_successors(g, avoid, s));
}

/// A unit that stands on no `before` list gets done as the root of a turn, or as part of a circle
/// of waiting units.
proof fn lemma_unlisted_turn(g: UnitGraph, done: Set<Seq<char>>, turn: SearchTurn, y: Seq<char>)
    requires
        is_turn(g, done, turn),
        !done.contains(y),
        turn.done.contains(y),
        forall|z: Seq<char>| !#[trigger] lists_before(g, z, y),
    ensures
        is_root(g, done, y) || (turn.circle matches Some(circle) && circle.contains(y)),
{
    if turn.root is Some {
        let root = turn.root->0;
        match turn.circle {
            None => {
                lemma_unlisted_reach(g, done, root, y);
            },
            Some(circle) => {
                let (t, p) = choose|t: Seq<Seq<char>>, p: int|
                    #[trigger] closes(g, done, root, t, p) && circle == t.skip(p) && turn.done
                        == after_chase(g, done, t, 0, circle);
                if !circle.contains(y) {
                    let i = choose|i: int| 0 <= i < t.len() && passed_at(g, done, #[trigger] t[i], y);
                    let k = choose|k: int| #[trigger]
                        stands_ahead(g, done, t[i], k) && in_reach(
                            g,
                            done,
                            g[t[i]].before[k],
                            y,
                        );
                    lemma_unlisted_reach(g, done, g[t[i]].before[k], y);
                    assert(first_leading(g, done, t[i], turn_from(t, p, i)));
                    if i == 0 {
                        assert(g.contains_key(t[i]));
                    } else {
                        assert(first_leading(g, done, t[i - 1], turn_from(t, p, i - 1)));
                        lemma_leads_step(g, done, t[i]);
                    }
                    assert(g[t[i]].before.contains(y));
                    assert(lists_before(g, t[i], y));
                }
            },
        }
    }
}

/// Units that stand on no `before` list, and of which each waits for another of them or for a
/// name that belongs to no unit, do not get done before one of them is found on a circle.
pub proof fn lemma_waiting_are_found(
    g: UnitGraph,
    turns: Seq<SearchTurn>,
    s: Set<Seq<char>>,
)
    requires
        is_course(g, turns),
        forall|x: Seq<char>, z: Seq<char>| s.contains(x) ==> !#[trigger] lists_before(g, z, x),
        forall|x: Seq<char>| #[trigger]
            s.contains(x) ==> exists|d: Seq<char>| #[trigger]
                lists_after(g, x, d) && (s.contains(d) || !g.contains_key(d)),
    ensures
        (exists|j: int, x: Seq<char>|
            0 <= j < found_in(turns).len() && s.contains(x) && #[trigger] found_in(
                turns,
            )[j].contains(x)) || forall|x: Seq<char>| #[trigger]
            s.contains(x) ==> !done_after(turns).contains(x),
    decreases turns.len(),
{
    if turns.len() > 0 {
        let init = turns.drop_last();
        let turn = turns.last();
        let done = done_after(init);
        let found = found_in(init);
        let more = found_in(turns);
        lemma_waiting_are_found(g, init, s);
        lemma_course_of_units(g, init);
        if exists|j: int, x: Seq<char>|
            0 <= j < found.len() && s.contains(x) && #[trigger] found[j].contains(x) {
            let (j, x) = choose|j: int, x: Seq<char>|
                0 <= j < found.len() && s.contains(x) && #[trigger] found[j].contains(x);
            assert(more[j].contains(x));
        } else if exists|x: Seq<char>| #[trigger] s.contains(x) && turn.done.contains(x) {
            let y = choose|y: Seq<char>| #[trigger] s.contains(y) && turn.done.contains(y);
            lemma_unlisted_turn(g, done, turn, y);
            if is_root(g, done, y) {
                let d = choose|d: Seq<char>| #[trigger]
                    lists_after(g, y, d) && (s.contains(d) || !g.contains_key(d));
                assert(g[y].after.contains(d));
                assert(done.contains(d));
                assert(g.dom().contains(d));
            } else {
                let circle = turn.circle->0;
                assert(more == found.push(circle));
                assert(more[found.len() as int].contains(y));
            }
        }
    }
}

/// In a turn that finds a circle along `before` lists, each unit of the circle is followed by the
/// first name on its `before` list that leads into a cycle.
pub proof fn law_circle_takes_first_way(
    g: UnitGraph,
    done: Set<Seq<char>>,
    turn: SearchTurn,
    circle: Seq<Seq<char>>,
    i: int,
)
    requires
        is_turn(g, done, turn),
        turn.root is Some,
        turn.circle == Some(circle),
        0 <= i < circle.len(),
    ensures
        exists|k: int|
            0 <= k < g[circle[i]].before.len() && #[trigger] g[circle[i]].before[k] == circle[(i
                + 1) % (circle.len() as int)] && (forall|m: int|
                0 <= m < k ==> !leads_round(g, done, #[trigger] g[circle[i]].before[m])),
{
    let root = turn.root->0;
    let (t, p) = choose|t: Seq<Seq<char>>, p: int|
        #[trigger] closes(g, done, root, t, p) && circle == t.skip(p) && turn.done == after_chase(
            g,
            done,
            t,
            0,
            circle,
        );
    let n = circle.len() as int;
    if i + 1 < n {
        assert((i + 1) % n == i + 1) by (nonlinear_arith)
            requires
                0 <= i + 1 < n,
        ;
    } else {
        assert((i + 1) % n == 0) by (nonlinear_arith)
            requires
                i + 1 == n,
                n > 0,
        ;
    }
    assert(circle[i] == t[i + p]);
    assert(first_leading(g, done, t[i + p], turn_from(t, p, i + p)));
    let y = turn_from(t, p, i + p);
    assert(y == circle[(i + 1) % n]);
    let k = choose|k: int|
        0 <= k < g[t[i + p]].before.len() && #[trigger] g[t[i + p]].before[k] == y && leads_round(
            g,
            done,
            y,
        ) && forall|m: int| 0 <= m < k ==> !leads_round(g, done, #[trigger] g[t[i + p]].before[m]);
    assert(g[circle[i]].before[k] == circle[(i + 1) % n]);
}

/// Where no unit is left that waits only for units that are done, each unit of the circle that is
/// found is the first one on the `after` list of the next that is not done.
pub proof fn law_waiting_circle_takes_first_awaited(
    g: UnitGraph,
    done: Set<Seq<char>>,
    turn: SearchTurn,
    circle: Seq<Seq<char>>,
    i: int,
)
    requires
        is_turn(g, done, turn),
        turn.root is None,
        turn.circle == Some(circle),
        0 <= i < circle.len(),
    ensures
        !done.contains(circle[i]),
        exists|k: int|
            0 <= k < g[circle[(i + 1) % (circle.len() as int)]].after.len()
                && #[trigger] g[circle[(i + 1) % (circle.len() as int)]].after[k] == circle[i] && (
            forall|m: int|
                0 <= m < k ==> done.contains(
                    #[trigger] g[circle[(i + 1) % (circle.len() as int)]].after[m],
                )),
        forall|x: Seq<char>|
            g.contains_key(x) && !done.contains(x) ==> exists|k: int|
                0 <= k < g[x].after.len() && !done.contains(#[trigger] g[x].after[k]),
{
    let n = circle.len() as int;
    if i + 1 < n {
        assert((i + 1) % n == i + 1) by (nonlinear_arith)
            requires
                0 <= i + 1 < n,
        ;
    } else {
        assert((i + 1) % n == 0) by (nonlinear_arith)
            requires
                i + 1 == n,
                n > 0,
        ;
    }
    assert(first_awaited(g, done, next_in(circle, i), circle[i]));
    let x = next_in(circle, i);
    let k = choose|k: int|
        0 <= k < g[x].after.len() && #[trigger] g[x].after[k] == circle[i] && !done.contains(
            circle[i],
        ) && forall|m: int| 0 <= m < k ==> done.contains(#[trigger] g[x].after[m]);
    assert(g[circle[(i + 1) % n]].after[k] == circle[i]);
    assert forall|x: Seq<char>| g.contains_key(x) && !done.contains(x) implies exists|k: int|
        0 <= k < g[x].after.len() && !done.contains(#[trigger] g[x].after[k]) by {
        assert(!is_root(g, done, x));
        let d = choose|d: Seq<char>| #[trigger] g[x].after.contains(d) && !done.contains(d);
        let k = choose|k: int| 0 <= k < g[x].after.len() && g[x].after[k] == d;
        assert(!done.contains(g[x].after[k]));
    }
}

/// A turn sets out from a unit that is not done and for which every name on the `after` list is.
/// If it finds no circle, it does all that is in reach of the unit, and nothing else.
pub proof fn law_turn_starts_where_nothing_is_awaited(
    g: UnitGraph,
    done: Set<Seq<char>>,
    turn: SearchTurn,
    root: Seq<char>,
    y: Seq<char>,
)
    requires
        is_turn(g, done, turn),
        turn.root == Some(root),
    ensures
        g.contains_key(root),
        !done.contains(root),
        forall|k: int| 0 <= k < g[root].after.len() ==> done.contains(#[trigger] g[root].after[k]),
        turn.circle is Some <==> leads_round(g, done, root),
        turn.circle is None ==> (turn.done.contains(y) <==> done.contains(y) || in_reach(
            g,
            done,
            root,
            y,
        )),
{
    assert forall|k: int| 0 <= k < g[root].after.len() implies done.contains(
        #[trigger] g[root].after[k],
    ) by {
        assert(g[root].after.contains(g[root].after[k]));
    }
}

/// What is in reach of a unit along `before` lists is the unit itself, with each unit the units
/// on its `before` list, and nothing beyond; what is to be avoided is not in reach.
pub proof fn law_reach_follows_the_lists(
    g: UnitGraph,
    avoid: Set<Seq<char>>,
    x: Seq<char>,
    y: Seq<char>,
    k: int,
    s: Set<Seq<char>>,
)
    ensures
        in_reach(g, avoid, x, x) <==> g.contains_key(x) && !avoid.contains(x),
        in_reach(g, avoid, x, y) ==> g.contains_key(y) && !avoid.contains(y),
        in_reach(g, avoid, x, y) && 0 <= k < g[y].before.len() && g.contains_key(g[y].before[k])
            && !avoid.contains(g[y].before[k]) ==> in_reach(g, avoid, x, g[y].before[k]),
        in_reach(g, avoid, x, y) && s.contains(x) && (forall|z: Seq<char>, i: int|
            s.contains(z) && g.contains_key(z) && 0 <= i < g[z].before.len() && g.contains_key(
                g[z].before[i],
            ) && !avoid.contains(g[z].before[i]) ==> s.contains(#[trigger] g[z].before[i]))
            ==> s.contains(y),
{
    if in_reach(g, avoid, x, y) {
        lemma_reach_ends(g, avoid, x, y);
    }
    reveal(in_reach);
    if in_reach(g, avoid, x, y) && 0 <= k < g[y].before.len() && g.contains_key(g[y].before[k])
        && !avoid.contains(g[y].before[k]) {
        let z = g[y].before[k];
        assert(lists_before(g, y, z));
        assert forall|r: Set<Seq<char>>| #[trigger]
            keeps_successors(g, avoid, r) && r.contains(x) implies r.contains(z) by {
            assert(r.contains(y));
        }
    }
    if in_reach(g, avoid, x, y) && s.contains(x) && (forall|z: Seq<char>, i: int|
        s.contains(z) && g.contains_key(z) && 0 <= i < g[z].before.len() && g.contains_key(
            g[z].before[i],
        ) && !avoid.contains(g[z].before[i]) ==> s.contains(#[trigger] g[z].before[i])) {
        assert forall|a: Seq<char>, b: Seq<char>|
            s.contains(a) && !avoid.contains(a) && #[trigger] lists_before(g, a, b)
                && g.contains_key(b) && !avoid.contains(b) implies s.contains(b) by {
            let i = choose|i: int| 0 <= i < g[a].before.len() && g[a].before[i] == b;
            assert(s.contains(g[a].before[i]));
        }
        assert(keeps_successors(g, avoid, s));
    }
}

/// A course goes on turn by turn, and what it has found are the circles of its turns.
pub proof fn law_course_goes_turn_by_turn(
    g: UnitGraph,
    turns: Seq<SearchTurn>,
    turn: SearchTurn,
)
    ensures
        is_course(g, Seq::empty()),
        done_after(Seq::empty()) == Set::<Seq<char>>::empty(),
        found_in(Seq::empty()) == Seq::<Seq<Seq<char>>>::empty(),
        is_course(g, turns.push(turn)) <==> is_course(g, turns) && is_turn(
            g,
            done_after(turns),
            turn,
        ),
        done_after(turns.push(turn)) == turn.done,
        found_in(turns.push(turn)) == match turn.circle {
            None => found_in(turns),
            Some(circle) => found_in(turns).push(circle),
        },
{
    assert(turns.push(turn).drop_last() =~= turns);
}

} // verus!
