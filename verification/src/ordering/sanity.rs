//! Cycle detection.

use crate::name_map::NameMap;
use crate::names::{duplicate_names, holds_name, names, remove_name, without, Name};
use crate::names::{lemma_distinct_fits, lemma_filter_other, lemma_push_distinct};
use crate::names::lemma_push_to_set;
use crate::ordering::fill::{filled_table, is_filled};
use crate::ordering::graph::{accepted, acyclic, is_before_cycle, lists_after, lists_before};
use crate::ordering::graph::{next_in, unit_graph, UnitGraph};
use crate::ordering::laws::law_filled_check_finds_cycles;
use crate::ordering::search::{after_chase, after_circle, after_visit, chases, closes, done_after};
use crate::ordering::search::{found_in, lemma_closing_turn};
use crate::ordering::search::{awaits_missing, first_awaited, is_circle_report, is_course};
use crate::ordering::search::{is_left_group, is_outcome, is_root, is_stalled, is_turn};
use crate::ordering::search::{is_waiting_circle, leads_round, lemma_chase_longer};
use crate::ordering::search::{lemma_course_push, lemma_covered_next, lemma_cycle_leads};
use crate::ordering::search::{lemma_leads_step, lemma_outcome_verdict, lemma_visit_last};
use crate::ordering::search::{lemma_reach_ends, lemma_reach_from, turn_from, with_covered, SearchTurn};
use crate::ordering::search::{in_reach, passed};
use crate::ordering::{Dependencies, SanityCheckError, UnitId};
use crate::text::same_text;
use vstd::prelude::*;

verus! {

/// The names in a list of groups of units, group by group.
pub open spec fn circle_names(circles: Seq<Vec<UnitId>>) -> Seq<Seq<Seq<char>>> {
    Seq::new(circles.len(), |j: int| names(circles[j]@))
}

/// What the check reports of a graph that is no valid DAG: circles in the lists as they stand,
/// or if those show none, circles in the lists once they are filled.
pub open spec fn is_check_report(g: UnitGraph, circles: Seq<Seq<Seq<char>>>) -> bool {
    if accepted(g) {
        exists|h: UnitGraph| #[trigger] is_filled(g, h) && is_circle_report(h, circles)
    } else {
        is_circle_report(g, circles)
    }
}

/// The units of the graph are divided between those done and those still open.
#[verifier::opaque]
spec fn divided(g: UnitGraph, done: Seq<Seq<char>>, open: Seq<Seq<char>>) -> bool {
    &&& done.no_duplicates()
    &&& open.no_duplicates()
    &&& forall|x: Seq<char>| #[trigger] done.contains(x) ==> g.contains_key(x)
    &&& forall|x: Seq<char>| #[trigger] open.contains(x) <==> g.contains_key(x) && !done.contains(x)
}

/// Where a walk goes on from its position `i`.
spec fn step_from(trail: Seq<Seq<char>>, next: Seq<char>, i: int) -> Seq<char> {
    if i + 1 < trail.len() {
        trail[i + 1]
    } else {
        next
    }
}

/// A walk along `before` lists through different units that are not done, up to the unit `next`.
#[verifier::opaque]
spec fn is_trail(
    g: UnitGraph,
    trail: Seq<Seq<char>>,
    next: Seq<char>,
    done: Seq<Seq<char>>,
) -> bool {
    &&& trail.no_duplicates()
    &&& forall|i: int|
        0 <= i < trail.len() ==> g.contains_key(#[trigger] trail[i]) && !done.contains(trail[i])
    &&& forall|i: int|
        0 <= i < trail.len() ==> lists_before(g, trail[i], #[trigger] step_from(trail, next, i))
}

/// A trail goes on through its next unit, if that unit is neither on the trail nor done.
proof fn lemma_trail_extend(
    g: UnitGraph,
    trail: Seq<Seq<char>>,
    next: Seq<char>,
    onward: Seq<char>,
    done: Seq<Seq<char>>,
    more: Seq<Seq<char>>,
)
    requires
        is_trail(g, trail, next, done),
        !trail.contains(next),
        forall|i: int| 0 <= i < trail.len() ==> !more.contains(#[trigger] trail[i]),
        !more.contains(next),
        lists_before(g, next, onward),
    ensures
        is_trail(g, trail.push(next), onward, more),
{
    reveal(is_trail);
    let path = trail.push(next);
    lemma_push_distinct(trail, next);
    assert forall|i: int| 0 <= i < path.len() implies g.contains_key(#[trigger] path[i])
        && !more.contains(path[i]) by {
        if i < trail.len() {
            assert(path[i] == trail[i]);
        }
    }
    assert forall|i: int| 0 <= i < path.len() implies lists_before(
        g,
        path[i],
        #[trigger] step_from(path, onward, i),
    ) by {
        if i < trail.len() {
            assert(lists_before(g, trail[i], step_from(trail, next, i)));
            assert(step_from(path, onward, i) == step_from(trail, next, i));
        }
    }
}

/// A trail stays one where fewer units are done.
proof fn lemma_trail_earlier(
    g: UnitGraph,
    trail: Seq<Seq<char>>,
    next: Seq<char>,
    done: Seq<Seq<char>>,
    less: Seq<Seq<char>>,
)
    requires
        is_trail(g, trail, next, done),
        less.to_set().subset_of(done.to_set()),
    ensures
        is_trail(g, trail, next, less),
{
    reveal(is_trail);
    assert forall|i: int| 0 <= i < trail.len() implies g.contains_key(#[trigger] trail[i])
        && !less.contains(trail[i]) by {
        if less.contains(trail[i]) {
            assert(less.to_set().contains(trail[i]));
            assert(done.to_set().contains(trail[i]));
        }
    }
}

/// The units of a trail from a position on, when the trail leads back to that position.
proof fn lemma_trail_circle(
    g: UnitGraph,
    trail: Seq<Seq<char>>,
    next: Seq<char>,
    done: Seq<Seq<char>>,
    start: int,
)
    requires
        is_trail(g, trail, next, done),
        0 <= start < trail.len(),
        trail[start] == next,
    ensures
        trail.skip(start).no_duplicates(),
        is_before_cycle(g, trail.skip(start)),
        leads_round(g, done.to_set(), next),
{
    reveal(is_trail);
    let c = trail.skip(start);
    assert forall|k: int| 0 <= k < c.len() implies lists_before(
        g,
        c[k],
        #[trigger] next_in(c, k),
    ) by {
        assert(lists_before(g, trail[k + start], step_from(trail, next, k + start)));
    }
    assert(c[0] == next);
    assert forall|i: int| 0 <= i < c.len() implies !done.to_set().contains(#[trigger] c[i]) by {
        assert(c[i] == trail[i + start]);
    }
    lemma_cycle_leads(g, done.to_set(), c, next);
}

/// A unit of a trail is no part of what is done, also when units ahead of it on the trail are
/// done in addition.
proof fn lemma_trail_open(
    g: UnitGraph,
    trail: Seq<Seq<char>>,
    next: Seq<char>,
    done: Seq<Seq<char>>,
    start: int,
    i: int,
)
    requires
        is_trail(g, trail, next, done),
        0 <= start <= i < trail.len(),
    ensures
        g.contains_key(trail[i]),
        !(done + trail.subrange(start, i)).contains(trail[i]),
{
    reveal(is_trail);
    let more = done + trail.subrange(start, i);
    assert(g.contains_key(trail[i]));
    if more.contains(trail[i]) {
        let k = choose|k: int| 0 <= k < more.len() && more[k] == trail[i];
        if k < done.len() {
            assert(done.contains(done[k]));
        } else {
            assert(more[k] == trail[k - done.len() + start]);
        }
    }
}

proof fn lemma_divided_finish(
    g: UnitGraph,
    done: Seq<Seq<char>>,
    open: Seq<Seq<char>>,
    x: Seq<char>,
)
    requires
        divided(g, done, open),
        g.contains_key(x),
        !done.contains(x),
    ensures
        divided(g, done.push(x), without(open, x)),
{
    reveal(divided);
    lemma_filter_other(open, x);
    lemma_push_distinct(done, x);
    let more = done.push(x);
    assert forall|y: Seq<char>| more.contains(y) <==> done.contains(y) || y == x by {
        lemma_push_to_set(done, x);
        assert(more.to_set().contains(y) <==> more.contains(y));
        assert(done.to_set().contains(y) <==> done.contains(y));
    }
    let rest = without(open, x);
    assert forall|y: Seq<char>| #[trigger] rest.contains(y) <==> g.contains_key(y)
        && !more.contains(y) by {
        assert(open.contains(y) <==> g.contains_key(y) && !done.contains(y));
    }
}

/// A trail that a further unit extends is no longer than the list of all units.
proof fn lemma_path_fits(
    g: UnitGraph,
    trail: Seq<Seq<char>>,
    next: Seq<char>,
    done: Seq<Seq<char>>,
    all: Seq<Seq<char>>,
)
    requires
        is_trail(g, trail, next, done),
        !trail.contains(next),
        g.contains_key(next),
        forall|x: Seq<char>| #[trigger] g.contains_key(x) ==> all.contains(x),
    ensures
        trail.push(next).len() <= all.len(),
{
    reveal(is_trail);
    let path = trail.push(next);
    lemma_push_distinct(trail, next);
    assert forall|i: int| 0 <= i < path.len() implies all.contains(#[trigger] path[i]) by {
        assert(g.contains_key(path[i]));
    }
    lemma_distinct_fits(path, all);
}

/// The first position of a name in a list.
fn position_of(list: &Vec<UnitId>, name: &str) -> (at: Option<usize>)
    ensures
        match at {
            Some(i) => {
                &&& i < list@.len()
                &&& names(list@)[i as int] == name@
                &&& forall|j: int| 0 <= j < i ==> #[trigger] names(list@)[j] != name@
            },
            None => !names(list@).contains(name@),
        },
{
    let mut i: usize = 0;
    while i < list.len()
        invariant
            0 <= i <= list@.len(),
            forall|j: int| 0 <= j < i ==> #[trigger] names(list@)[j] != name@,
        decreases list@.len() - i,
    {
        if same_text(list[i].as_text(), name) {
            return Some(i);
        }
        i += 1;
    }
    None
}

/// Moves a unit from the open ones to those done.
fn finish(finished_ids: &mut Vec<UnitId>, not_finished_ids: &mut Vec<UnitId>, id: &UnitId)
    ensures
        names(final(finished_ids)@) == names(old(finished_ids)@).push(id@),
        names(final(not_finished_ids)@) == without(names(old(not_finished_ids)@), id@),
{
    let ghost before = names(finished_ids@);
    finished_ids.push(id.clone());
    proof {
        assert(names(finished_ids@) =~= before.push(id@));
    }
    remove_name(not_finished_ids, id.as_text());
}

/// Finishes the units of a trail from a position on, and returns them: the trail leads back to
/// that position.
fn close_circle(
    id: &UnitId,
    start: usize,
    unit_table: &NameMap<UnitId, Dependencies>,
    visited_ids: &Vec<UnitId>,
    finished_ids: &mut Vec<UnitId>,
    not_finished_ids: &mut Vec<UnitId>,
) -> (circle: Vec<UnitId>)
    requires
        start < visited_ids@.len(),
        names(visited_ids@)[start as int] == id@,
        divided(
            unit_graph(unit_table@),
            names(old(finished_ids)@),
            names(old(not_finished_ids)@),
        ),
        is_trail(
            unit_graph(unit_table@),
            names(visited_ids@),
            id@,
            names(old(finished_ids)@),
        ),
    ensures
        divided(
            unit_graph(unit_table@),
            names(final(finished_ids)@),
            names(final(not_finished_ids)@),
        ),
        names(circle@) == names(visited_ids@).skip(start as int),
        names(final(finished_ids)@) == names(old(finished_ids)@) + names(circle@),
{
    let ghost g = unit_graph(unit_table@);
    let ghost done0 = names(finished_ids@);
    let ghost trail = names(visited_ids@);
    let mut circle: Vec<UnitId> = Vec::new();
    let mut i: usize = start;
    proof {
        assert(trail.subrange(start as int, start as int) =~= names(circle@));
        assert(done0 + names(circle@) =~= done0);
    }
    while i < visited_ids.len()
        invariant
            start <= i <= visited_ids@.len(),
            trail == names(visited_ids@),
            names(circle@) == trail.subrange(start as int, i as int),
            g == unit_graph(unit_table@),
            is_trail(g, trail, id@, done0),
            names(finished_ids@) == done0 + names(circle@),
            divided(g, names(finished_ids@), names(not_finished_ids@)),
        decreases visited_ids@.len() - i,
    {
        let ghost so_far = names(circle@);
        let ghost done = names(finished_ids@);
        proof {
            assert(trail[i as int] == visited_ids@[i as int]@);
            lemma_trail_open(g, trail, id@, done0, start as int, i as int);
            lemma_divided_finish(g, done, names(not_finished_ids@), trail[i as int]);
        }
        finish(finished_ids, not_finished_ids, &visited_ids[i]);
        circle.push(visited_ids[i].clone());
        proof {
            assert(names(circle@) =~= so_far.push(trail[i as int]));
            assert(trail.subrange(start as int, i + 1) =~= so_far.push(trail[i as int]));
            assert(names(finished_ids@) =~= done0 + names(circle@));
        }
        i += 1;
    }
    proof {
        assert(trail.subrange(start as int, trail.len() as int) =~= trail.skip(start as int));
    }
    circle
}

/// What a search that ran into a circle leaves behind: the trail, extended from the unit searched
/// if that is not on it already, comes back to its position `p`; the circle is its end from there
/// on; done are the circle and what was passed on the way.
spec fn is_dead_end(
    g: UnitGraph,
    id: Seq<char>,
    trail: Seq<Seq<char>>,
    done: Seq<Seq<char>>,
    last_trail: Seq<Seq<char>>,
    last_done: Seq<Seq<char>>,
    circle: Seq<Seq<char>>,
) -> bool {
    let p = last_trail.len() - circle.len();
    &&& 0 <= p < last_trail.len()
    &&& circle == last_trail.skip(p)
    &&& trail.is_prefix_of(last_trail)
    &&& is_trail(g, last_trail, last_trail[p], done)
    &&& if trail.contains(id) {
        last_trail == trail && trail[p] == id
    } else {
        trail.len() < last_trail.len() && last_trail[trail.len() as int] == id
    }
    &&& chases(g, done.to_set(), last_trail, trail.len() as int, p)
    &&& last_done.to_set() == after_chase(
        g,
        done.to_set(),
        last_trail,
        trail.len() as int,
        circle,
    )
}

/// Searches from a unit along `before` lists and finishes every unit that it comes to, deepest
/// first, or stops at the first circle that it closes and finishes the units of that circle.
/// Names on the lists that belong to no unit are passed over.
///
/// The search succeeds exactly if the unit leads into no cycle of units that are not done. Then
/// exactly what is in its reach is finished.
fn search_backedge(
    id: &UnitId,
    unit_table: &NameMap<UnitId, Dependencies>,
    visited_ids: &mut Vec<UnitId>,
    finished_ids: &mut Vec<UnitId>,
    not_finished_ids: &mut Vec<UnitId>,
) -> (result: Result<(), SanityCheckError>)
    requires
        unit_table@.contains_key(id@),
        divided(
            unit_graph(unit_table@),
            names(old(finished_ids)@),
            names(old(not_finished_ids)@),
        ),
        is_trail(
            unit_graph(unit_table@),
            names(old(visited_ids)@),
            id@,
            names(old(finished_ids)@),
        ),
    ensures
        divided(
            unit_graph(unit_table@),
            names(final(finished_ids)@),
            names(final(not_finished_ids)@),
        ),
        names(old(finished_ids)@).to_set().subset_of(names(final(finished_ids)@).to_set()),
        result is Err <==> leads_round(
            unit_graph(unit_table@),
            names(old(finished_ids)@).to_set(),
            id@,
        ),
        match result {
            Ok(()) => {
                &&& names(final(visited_ids)@) == names(old(visited_ids)@)
                &&& names(final(finished_ids)@).to_set() == after_visit(
                    unit_graph(unit_table@),
                    names(old(finished_ids)@).to_set(),
                    id@,
                )
                &&& forall|i: int|
                    0 <= i < old(visited_ids)@.len() ==> !names(final(finished_ids)@).contains(
                        #[trigger] names(old(visited_ids)@)[i],
                    )
            },
            Err(SanityCheckError::CirclesFound(circles)) => circles@.len() == 1 && is_dead_end(
                unit_graph(unit_table@),
                id@,
                names(old(visited_ids)@),
                names(old(finished_ids)@),
                names(final(visited_ids)@),
                names(final(finished_ids)@),
                names(circles@[0]@),
            ),
            Err(SanityCheckError::Generic(_)) => false,
        },
    decreases unit_table.order().len() - old(visited_ids)@.len(),
{
    let ghost g = unit_graph(unit_table@);
    let ghost done0 = names(finished_ids@);
    let ghost avoid = done0.to_set();
    let ghost trail = names(visited_ids@);
    proof {
        lemma_leads_step(g, avoid, id@);
        assert forall|i: int| 0 <= i < trail.len() implies !done0.contains(#[trigger] trail[i]) by {
            reveal(is_trail);
        }
    }
    if holds_name(finished_ids, id.as_text()) {
        proof {
            assert(avoid.contains(id@));
            assert forall|y: Seq<char>| !in_reach(g, avoid, id@, y) by {
                if in_reach(g, avoid, id@, y) {
                    lemma_reach_ends(g, avoid, id@, y);
                }
            }
            assert(after_visit(g, avoid, id@) =~= avoid);
        }
        return Ok(());
    }
    if let Some(start) = position_of(visited_ids, id.as_text()) {
        proof {
            lemma_trail_circle(g, trail, id@, done0, start as int);
        }
        let circle = close_circle(
            id,
            start,
            unit_table,
            visited_ids,
            finished_ids,
            not_finished_ids,
        );
        proof {
            lemma_closed_at_once(
                g,
                id@,
                trail,
                done0,
                names(finished_ids@),
                start as int,
                names(circle@),
            );
        }
        let mut circles: Vec<Vec<UnitId>> = Vec::new();
        circles.push(circle);
        return Err(SanityCheckError::CirclesFound(circles));
    }
    visited_ids.push(id.clone());
    let ghost path = trail.push(id@);
    proof {
        assert(names(visited_ids@) =~= path);
        unit_table.lemma_order();
        assert forall|x: Seq<char>| #[trigger] g.contains_key(x) implies unit_table.order().contains(
            x,
        ) by {
            assert(unit_table@.contains_key(x));
        }
        lemma_path_fits(g, trail, id@, done0, unit_table.order());
    }
    let unit: &Dependencies = match unit_table.get(id.as_text()) {
        Some(unit) => unit,
        None => {
            return Ok(());
        },
    };
    let ghost successors = names(unit.before@);
    let mut k: usize = 0;
    proof {
        assert(with_covered(g, avoid, successors, 0) =~= avoid);
    }
    while k < unit.before.len()
        invariant
            0 <= k <= unit.before@.len(),
            successors == names(unit.before@),
            g == unit_graph(unit_table@),
            g.contains_key(id@),
            g[id@].before == successors,
            path == trail.push(id@),
            names(visited_ids@) == path,
            path.len() <= unit_table.order().len(),
            visited_ids@.len() == old(visited_ids)@.len() + 1,
            trail == names(old(visited_ids)@),
            done0 == names(old(finished_ids)@),
            avoid == done0.to_set(),
            is_trail(g, trail, id@, done0),
            !trail.contains(id@),
            !done0.contains(id@),
            !names(finished_ids@).contains(id@),
            forall|i: int|
                0 <= i < trail.len() ==> !names(finished_ids@).contains(#[trigger] trail[i]),
            divided(g, names(finished_ids@), names(not_finished_ids@)),
            forall|j: int| 0 <= j < k ==> !leads_round(g, avoid, #[trigger] successors[j]),
            names(finished_ids@).to_set() == with_covered(g, avoid, successors, k as int),
        decreases unit.before@.len() - k,
    {
        let next_id = &unit.before[k];
        let ghost done1 = names(finished_ids@);
        proof {
            assert(successors[k as int] == next_id@);
            assert(successors.contains(next_id@));
            assert(lists_before(g, id@, next_id@));
            lemma_covered_next(g, avoid, successors, k as int);
        }
        if !unit_table.contains_key(next_id.as_text()) {
            proof {
                lemma_leads_step(g, avoid, next_id@);
                assert forall|y: Seq<char>| !in_reach(g, done1.to_set(), next_id@, y) by {
                    if in_reach(g, done1.to_set(), next_id@, y) {
                        lemma_reach_ends(g, done1.to_set(), next_id@, y);
                    }
                }
                assert(after_visit(g, done1.to_set(), next_id@) =~= done1.to_set());
            }
            k += 1;
            continue;
        }
        proof {
            lemma_trail_extend(g, trail, id@, next_id@, done0, done1);
        }
        let res = search_backedge(
            next_id,
            unit_table,
            visited_ids,
            finished_ids,
            not_finished_ids,
        );
        match res {
            Ok(()) => {
                proof {
                    let done2 = names(finished_ids@);
                    assert(path[trail.len() as int] == id@);
                    assert forall|i: int| 0 <= i < trail.len() implies !done2.contains(
                        #[trigger] trail[i],
                    ) by {
                        assert(path[i] == trail[i]);
                    }
                }
            },
            Err(SanityCheckError::CirclesFound(circles)) => {
                proof {
                    assert(leads_round(g, avoid, next_id@));
                    lemma_leads_step(g, avoid, id@);
                    lemma_dead_end_longer(
                        g,
                        id@,
                        trail,
                        done0,
                        done1,
                        names(visited_ids@),
                        names(finished_ids@),
                        names(circles@[0]@),
                        k as int,
                    );
                }
                return Err(SanityCheckError::CirclesFound(circles));
            },
            Err(SanityCheckError::Generic(text)) => {
                return Err(SanityCheckError::Generic(text));
            },
        }
        k += 1;
    }
    let ghost walked = visited_ids@;
    visited_ids.pop();
    let ghost done3 = names(finished_ids@);
    proof {
        assert forall|i: int| 0 <= i < trail.len() implies names(visited_ids@)[i] == trail[i] by {
            assert(names(walked)[i] == path[i]);
        }
        assert(names(visited_ids@) =~= trail);
        lemma_divided_finish(g, done3, names(not_finished_ids@), id@);
        lemma_visit_last(g, avoid, id@);
    }
    finish(finished_ids, not_finished_ids, id);
    proof {
        let done = names(finished_ids@);
        lemma_push_to_set(done3, id@);
        assert forall|i: int| 0 <= i < trail.len() implies !done.contains(#[trigger] trail[i]) by {
            assert(trail.contains(trail[i]));
            if done.contains(trail[i]) {
                assert(done.to_set().contains(trail[i]));
                assert(done3.to_set().contains(trail[i]));
            }
        }
    }
    Ok(())
}

/// A search for a unit that is on the trail already closes the circle at once.
proof fn lemma_closed_at_once(
    g: UnitGraph,
    id: Seq<char>,
    trail: Seq<Seq<char>>,
    done: Seq<Seq<char>>,
    last_done: Seq<Seq<char>>,
    start: int,
    circle: Seq<Seq<char>>,
)
    requires
        is_trail(g, trail, id, done),
        0 <= start < trail.len(),
        trail[start] == id,
        circle == trail.skip(start),
        last_done == done + circle,
    ensures
        is_dead_end(g, id, trail, done, trail, last_done, circle),
{
    assert(trail.contains(id));
    assert forall|y: Seq<char>| last_done.to_set().contains(y) <==> after_chase(
        g,
        done.to_set(),
        trail,
        trail.len() as int,
        circle,
    ).contains(y) by {
        assert(!passed(g, done.to_set(), trail, trail.len() as int, y));
        if done.contains(y) {
            let i = choose|i: int| 0 <= i < done.len() && done[i] == y;
            assert(last_done[i] == y);
        }
        if circle.contains(y) {
            let i = choose|i: int| 0 <= i < circle.len() && circle[i] == y;
            assert(last_done[i + done.len()] == y);
        }
        if last_done.contains(y) {
            let i = choose|i: int| 0 <= i < last_done.len() && last_done[i] == y;
            if i < done.len() {
                assert(done[i] == y);
            } else {
                assert(circle[i - done.len()] == y);
            }
        }
    }
    assert(last_done.to_set() =~= after_chase(
        g,
        done.to_set(),
        trail,
        trail.len() as int,
        circle,
    ));
    assert(trail =~= trail.subrange(0, trail.len() as int));
}

/// A circle that the search for the name at position `k` of a unit's `before` list runs into is
/// one that the search for the unit itself runs into.
proof fn lemma_dead_end_longer(
    g: UnitGraph,
    id: Seq<char>,
    trail: Seq<Seq<char>>,
    done: Seq<Seq<char>>,
    more: Seq<Seq<char>>,
    last_trail: Seq<Seq<char>>,
    last_done: Seq<Seq<char>>,
    circle: Seq<Seq<char>>,
    k: int,
)
    requires
        !trail.contains(id),
        0 <= k < g[id].before.len(),
        more.to_set() == with_covered(g, done.to_set(), g[id].before, k),
        forall|j: int|
            0 <= j < k ==> !leads_round(g, done.to_set(), #[trigger] g[id].before[j]),
        leads_round(g, done.to_set(), g[id].before[k]),
        is_dead_end(
            g,
            g[id].before[k],
            trail.push(id),
            more,
            last_trail,
            last_done,
            circle,
        ),
    ensures
        is_dead_end(g, id, trail, done, last_trail, last_done, circle),
{
    let path = trail.push(id);
    let from = trail.len() as int;
    let p = last_trail.len() - circle.len();
    let next = g[id].before[k];
    assert(path =~= last_trail.subrange(0, path.len() as int));
    assert forall|i: int| 0 <= i < path.len() implies last_trail[i] == path[i] by {
        assert(last_trail.subrange(0, path.len() as int)[i] == last_trail[i]);
    }
    assert(last_trail[from] == id);
    assert(trail =~= last_trail.subrange(0, trail.len() as int)) by {
        assert forall|i: int| 0 <= i < trail.len() implies trail[i] == last_trail[i] by {
            assert(path[i] == trail[i]);
        }
    }
    assert(turn_from(last_trail, p, from) == next);
    lemma_chase_longer(g, done.to_set(), last_trail, from, p, k, circle);
    lemma_trail_earlier(g, last_trail, last_trail[p], more, done);
}

/// The position of an open unit that waits for no unit but those done.
fn find_root(
    unit_table: &NameMap<UnitId, Dependencies>,
    finished_ids: &Vec<UnitId>,
    not_finished_ids: &Vec<UnitId>,
) -> (root: Option<usize>)
    requires
        divided(unit_graph(unit_table@), names(finished_ids@), names(not_finished_ids@)),
    ensures
        match root {
            Some(i) => i < not_finished_ids@.len() && is_root(
                unit_graph(unit_table@),
                names(finished_ids@).to_set(),
                not_finished_ids@[i as int]@,
            ),
            None => forall|x: Seq<char>|
                !#[trigger] is_root(unit_graph(unit_table@), names(finished_ids@).to_set(), x),
        },
{
    let ghost g = unit_graph(unit_table@);
    let ghost done = names(finished_ids@);
    let ghost open = names(not_finished_ids@);
    let mut i: usize = 0;
    while i < not_finished_ids.len()
        invariant
            0 <= i <= not_finished_ids@.len(),
            g == unit_graph(unit_table@),
            done == names(finished_ids@),
            open == names(not_finished_ids@),
            divided(g, done, open),
            forall|k: int| 0 <= k < i ==> !is_root(g, done.to_set(), #[trigger] open[k]),
        decreases not_finished_ids@.len() - i,
    {
        let id = &not_finished_ids[i];
        proof {
            reveal(divided);
            assert(open[i as int] == id@);
            assert(open.contains(open[i as int]));
            assert(g.contains_key(id@));
        }
        if let Some(unit) = unit_table.get(id.as_text()) {
            match missing_name(&unit.after, finished_ids) {
                None => {
                    proof {
                        assert forall|d: Seq<char>| #[trigger]
                            g[id@].after.contains(d) implies done.to_set().contains(d) by {
                            let m = choose|m: int|
                                0 <= m < g[id@].after.len() && g[id@].after[m] == d;
                            assert(done.contains(names(unit.after@)[m]));
                        }
                    }
                    return Some(i);
                },
                Some(k) => {
                    proof {
                        let d = names(unit.after@)[k as int];
                        assert(g[id@].after.contains(d) && !done.to_set().contains(d));
                    }
                },
            }
        }
        i += 1;
    }
    proof {
        assert forall|x: Seq<char>| !#[trigger] is_root(g, done.to_set(), x) by {
            if is_root(g, done.to_set(), x) {
                reveal(divided);
                assert(!done.contains(x));
                assert(open.contains(x));
                let k = choose|k: int| 0 <= k < open.len() && open[k] == x;
                assert(!is_root(g, done.to_set(), open[k]));
            }
        }
    }
    None
}

/// The position of the first unit in a list that another list does not hold.
fn missing_name(wanted: &Vec<UnitId>, held: &Vec<UnitId>) -> (at: Option<usize>)
    ensures
        match at {
            Some(i) => {
                &&& i < wanted@.len()
                &&& !names(held@).contains(names(wanted@)[i as int])
                &&& forall|k: int|
                    0 <= k < i ==> names(held@).contains(#[trigger] names(wanted@)[k])
            },
            None => forall|k: int|
                0 <= k < wanted@.len() ==> names(held@).contains(#[trigger] names(wanted@)[k]),
        },
{
    let mut i: usize = 0;
    while i < wanted.len()
        invariant
            0 <= i <= wanted@.len(),
            forall|k: int| 0 <= k < i ==> names(held@).contains(#[trigger] names(wanted@)[k]),
        decreases wanted@.len() - i,
    {
        if !holds_name(held, wanted[i].as_text()) {
            return Some(i);
        }
        i += 1;
    }
    None
}

/// The names that a table holds, in the order of its walk.
fn all_ids(unit_table: &NameMap<UnitId, Dependencies>) -> (ids: Vec<UnitId>)
    ensures
        names(ids@) == unit_table.order(),
        unit_table.order().no_duplicates(),
{
    let total: usize = unit_table.len();
    let mut ids: Vec<UnitId> = Vec::new();
    let mut i: usize = 0;
    while i < total
        invariant
            0 <= i <= total,
            total == unit_table.order().len(),
            names(ids@) == unit_table.order().take(i as int),
        decreases total - i,
    {
        let ghost so_far = names(ids@);
        ids.push(unit_table.key_at(i).clone());
        proof {
            assert(names(ids@) =~= so_far.push(unit_table.order()[i as int]));
            assert(unit_table.order().take(i + 1) =~= so_far.push(unit_table.order()[i as int]));
        }
        i += 1;
    }
    proof {
        assert(unit_table.order().take(total as int) =~= unit_table.order());
    }
    ids
}

/// Whether one of the open units waits for a name that belongs to no unit.
fn any_awaits_missing(
    unit_table: &NameMap<UnitId, Dependencies>,
    finished_ids: &Vec<UnitId>,
    not_finished_ids: &Vec<UnitId>,
) -> (missing: bool)
    requires
        divided(unit_graph(unit_table@), names(finished_ids@), names(not_finished_ids@)),
    ensures
        missing == awaits_missing(unit_graph(unit_table@), names(finished_ids@).to_set()),
{
    let ghost g = unit_graph(unit_table@);
    let ghost done = names(finished_ids@);
    let ghost open = names(not_finished_ids@);
    let mut i: usize = 0;
    while i < not_finished_ids.len()
        invariant
            0 <= i <= not_finished_ids@.len(),
            g == unit_graph(unit_table@),
            done == names(finished_ids@),
            open == names(not_finished_ids@),
            divided(g, done, open),
            forall|k: int, d: Seq<char>|
                0 <= k < i && #[trigger] lists_after(g, open[k], d) ==> g.contains_key(d),
        decreases not_finished_ids@.len() - i,
    {
        let id = &not_finished_ids[i];
        proof {
            reveal(divided);
            assert(open[i as int] == id@);
            assert(open.contains(open[i as int]));
            assert(g.contains_key(id@));
        }
        if let Some(unit) = unit_table.get(id.as_text()) {
            let mut m: usize = 0;
            while m < unit.after.len()
                invariant
                    0 <= m <= unit.after@.len(),
                    g == unit_graph(unit_table@),
                    done == names(finished_ids@),
                    g.contains_key(id@),
                    !done.contains(id@),
                    g[id@].after == names(unit.after@),
                    forall|n: int|
                        0 <= n < m ==> g.contains_key(#[trigger] names(unit.after@)[n]),
                decreases unit.after@.len() - m,
            {
                if !unit_table.contains_key(unit.after[m].as_text()) {
                    proof {
                        let d = names(unit.after@)[m as int];
                        assert(g[id@].after.contains(d));
                        assert(lists_after(g, id@, d));
                    }
                    return true;
                }
                m += 1;
            }
            proof {
                assert forall|d: Seq<char>| #[trigger] lists_after(g, open[i as int], d) implies g.contains_key(
                    d,
                ) by {
                    let n = choose|n: int| 0 <= n < g[id@].after.len() && g[id@].after[n] == d;
                    assert(g.contains_key(names(unit.after@)[n]));
                }
            }
        }
        i += 1;
    }
    proof {
        if awaits_missing(g, done.to_set()) {
            let (x, d) = choose|x: Seq<char>, d: Seq<char>|
                !done.to_set().contains(x) && #[trigger] lists_after(g, x, d) && !g.contains_key(d);
            reveal(divided);
            assert(!done.contains(x));
            assert(open.contains(x));
            let k = choose|k: int| 0 <= k < open.len() && open[k] == x;
            assert(lists_after(g, open[k], d));
        }
    }
    false
}

/// A walk through open units, each followed by the first thing that it still waits for.
spec fn is_wait(g: UnitGraph, done: Set<Seq<char>>, w: Seq<Seq<char>>, next: Seq<char>) -> bool {
    &&& w.no_duplicates()
    &&& forall|i: int|
        0 <= i < w.len() ==> g.contains_key(#[trigger] w[i]) && !done.contains(w[i])
    &&& forall|i: int|
        0 <= i < w.len() ==> first_awaited(g, done, w[i], #[trigger] step_from(w, next, i))
}

/// A circle of units that wait for each other, where every open unit waits for another one.
fn waiting_circle(
    unit_table: &NameMap<UnitId, Dependencies>,
    finished_ids: &Vec<UnitId>,
    not_finished_ids: &Vec<UnitId>,
) -> (circle: Vec<UnitId>)
    requires
        divided(unit_graph(unit_table@), names(finished_ids@), names(not_finished_ids@)),
        is_stalled(unit_graph(unit_table@), names(finished_ids@).to_set()),
        !awaits_missing(unit_graph(unit_table@), names(finished_ids@).to_set()),
        not_finished_ids@.len() > 0,
    ensures
        is_waiting_circle(
            unit_graph(unit_table@),
            names(finished_ids@).to_set(),
            names(circle@),
        ),
{
    let ghost g = unit_graph(unit_table@);
    let ghost done = names(finished_ids@).to_set();
    let ghost open = names(not_finished_ids@);
    let mut walk: Vec<UnitId> = Vec::new();
    let mut id: UnitId = not_finished_ids[0].clone();
    proof {
        reveal(divided);
        assert(open[0] == id@);
        assert(open.contains(id@));
    }
    loop
        invariant
            g == unit_graph(unit_table@),
            done == names(finished_ids@).to_set(),
            open == names(not_finished_ids@),
            divided(g, names(finished_ids@), open),
            is_stalled(g, done),
            !awaits_missing(g, done),
            g.contains_key(id@),
            !done.contains(id@),
            is_wait(g, done, names(walk@), id@),
            walk@.len() <= open.len(),
        decreases open.len() - walk@.len(),
    {
        let ghost w = names(walk@);
        if let Some(start) = position_of(&walk, id.as_text()) {
            return turned_circle(unit_table, finished_ids, &walk, &id, start);
        }
        let unit: &Dependencies = match unit_table.get(id.as_text()) {
            Some(unit) => unit,
            None => {
                proof {
                    assert(unit_table@.contains_key(id@));
                }
                return walk;
            },
        };
        let at: usize = match missing_name(&unit.after, finished_ids) {
            Some(at) => at,
            None => {
                proof {
                    assert forall|d: Seq<char>| #[trigger]
                        g[id@].after.contains(d) implies done.contains(d) by {
                        let m = choose|m: int| 0 <= m < g[id@].after.len() && g[id@].after[m] == d;
                        assert(names(finished_ids@).contains(names(unit.after@)[m]));
                    }
                    assert(is_root(g, done, id@));
                }
                return walk;
            },
        };
        let next = unit.after[at].clone();
        proof {
            let d = next@;
            assert(g[id@].after[at as int] == d);
            assert(g[id@].after.contains(d));
            assert(lists_after(g, id@, d));
            assert(first_awaited(g, done, id@, d)) by {
                assert forall|m: int| 0 <= m < at implies done.contains(
                    #[trigger] g[id@].after[m],
                ) by {
                    assert(names(finished_ids@).contains(names(unit.after@)[m]));
                }
            }
            lemma_push_distinct(w, id@);
            let path = w.push(id@);
            assert forall|i: int| 0 <= i < path.len() implies first_awaited(
                g,
                done,
                path[i],
                #[trigger] step_from(path, d, i),
            ) by {
                if i < w.len() {
                    assert(first_awaited(g, done, w[i], step_from(w, id@, i)));
                    assert(step_from(path, d, i) == step_from(w, id@, i));
                }
            }
            assert forall|i: int| 0 <= i < path.len() implies open.contains(
                #[trigger] path[i],
            ) by {
                reveal(divided);
                assert(g.contains_key(path[i]) && !done.contains(path[i])) by {
                    if i < w.len() {
                        assert(path[i] == w[i]);
                    }
                }
                assert(!names(finished_ids@).contains(path[i]));
            }
            lemma_distinct_fits(path, open);
            assert(is_wait(g, done, path, d));
        }
        walk.push(id);
        proof {
            assert(names(walk@) =~= w.push(id@));
        }
        id = next;
    }
}

/// The circle at the end of a walk that has come back to a position, in the order in which the
/// units have to start.
fn turned_circle(
    unit_table: &NameMap<UnitId, Dependencies>,
    finished_ids: &Vec<UnitId>,
    walk: &Vec<UnitId>,
    id: &UnitId,
    start: usize,
) -> (circle: Vec<UnitId>)
    requires
        start < walk@.len(),
        names(walk@)[start as int] == id@,
        is_wait(
            unit_graph(unit_table@),
            names(finished_ids@).to_set(),
            names(walk@),
            id@,
        ),
    ensures
        is_waiting_circle(
            unit_graph(unit_table@),
            names(finished_ids@).to_set(),
            names(circle@),
        ),
{
    let ghost g = unit_graph(unit_table@);
    let ghost done = names(finished_ids@).to_set();
    let ghost w = names(walk@);
    let mut circle: Vec<UnitId> = Vec::new();
    circle.push(walk[start].clone());
    let mut i: usize = walk.len();
    while i > start + 1
        invariant
            start + 1 <= i <= walk@.len(),
            w == names(walk@),
            circle@.len() == walk@.len() - i + 1,
            names(circle@)[0] == w[start as int],
            forall|k: int|
                1 <= k < circle@.len() ==> #[trigger] names(circle@)[k] == w[w.len() - k],
        decreases i,
    {
        let ghost so_far = names(circle@);
        i -= 1;
        circle.push(walk[i].clone());
        proof {
            assert(names(circle@) =~= so_far.push(w[i as int]));
        }
    }
    proof {
        let c = names(circle@);
        let n = w.len() as int;
        let at = |k: int| if k == 0 { start as int } else { n - k };
        assert forall|k: int| 0 <= k < c.len() implies #[trigger] c[k] == w[at(k)] by {}
        assert forall|a: int, b: int| 0 <= a < c.len() && 0 <= b < c.len() && a != b implies c[a]
            != c[b] by {
            assert(c[a] == w[at(a)] && c[b] == w[at(b)]);
        }
        assert forall|k: int| 0 <= k < c.len() implies first_awaited(
            g,
            done,
            #[trigger] next_in(c, k),
            c[k],
        ) by {
            let j = if k + 1 < c.len() {
                n - k - 1
            } else {
                start as int
            };
            assert(next_in(c, k) == w[j]) by {
                if k + 1 < c.len() {
                    assert(c[k + 1] == w[at(k + 1)]);
                } else {
                    assert(c[0] == w[at(0)]);
                }
            }
            assert(first_awaited(g, done, w[j], step_from(w, id@, j)));
            assert(c[k] == w[at(k)]);
            assert(step_from(w, id@, j) == c[k]);
        }
    }
    circle
}

/// Finishes the units of a circle that wait for each other.
fn finish_circle(
    unit_table: &NameMap<UnitId, Dependencies>,
    circle: &Vec<UnitId>,
    finished_ids: &mut Vec<UnitId>,
    not_finished_ids: &mut Vec<UnitId>,
)
    requires
        divided(
            unit_graph(unit_table@),
            names(old(finished_ids)@),
            names(old(not_finished_ids)@),
        ),
        is_waiting_circle(
            unit_graph(unit_table@),
            names(old(finished_ids)@).to_set(),
            names(circle@),
        ),
    ensures
        divided(
            unit_graph(unit_table@),
            names(final(finished_ids)@),
            names(final(not_finished_ids)@),
        ),
        names(final(finished_ids)@).to_set() == after_circle(
            names(old(finished_ids)@).to_set(),
            names(circle@),
        ),
{
    let ghost g = unit_graph(unit_table@);
    let ghost done0 = names(finished_ids@).to_set();
    let ghost c = names(circle@);
    let mut i: usize = 0;
    proof {
        assert(after_circle(done0, c.take(0)) =~= done0);
    }
    while i < circle.len()
        invariant
            0 <= i <= circle@.len(),
            g == unit_graph(unit_table@),
            c == names(circle@),
            is_waiting_circle(g, done0, c),
            divided(g, names(finished_ids@), names(not_finished_ids@)),
            names(finished_ids@).to_set() == after_circle(done0, c.take(i as int)),
        decreases circle@.len() - i,
    {
        let ghost done = names(finished_ids@);
        let ghost x = c[i as int];
        proof {
            assert(circle@[i as int]@ == x);
            assert(!done.contains(x)) by {
                if done.contains(x) {
                    assert(done.to_set().contains(x));
                    let m = choose|m: int| 0 <= m < c.take(i as int).len() && c.take(i as int)[m] == x;
                    assert(c[m] == c[i as int]);
                }
            }
            lemma_divided_finish(g, done, names(not_finished_ids@), x);
            lemma_push_to_set(done, x);
        }
        finish(finished_ids, not_finished_ids, &circle[i]);
        proof {
            assert(c.take(i + 1) =~= c.take(i as int).push(x));
            lemma_push_to_set(c.take(i as int), x);
            assert forall|y: Seq<char>| c.take(i + 1).contains(y) <==> c.take(i as int).contains(y)
                || y == x by {
                assert(c.take(i + 1).to_set().contains(y) <==> c.take(i + 1).contains(y));
                assert(c.take(i as int).to_set().contains(y) <==> c.take(i as int).contains(y));
            }
            let more = names(finished_ids@);
            assert(more == done.push(x));
            assert forall|y: Seq<char>| more.to_set().contains(y) <==> after_circle(
                done0,
                c.take(i + 1),
            ).contains(y) by {
                assert(more.to_set().contains(y) <==> done.to_set().contains(y) || y == x);
                assert(c.take(i + 1).contains(y) <==> c.take(i as int).contains(y) || y == x);
            }
            assert(more.to_set() =~= after_circle(done0, c.take(i + 1)));
        }
        i += 1;
    }
    proof {
        assert(c.take(i as int) =~= c);
    }
}

proof fn lemma_open_shrinks(
    g: UnitGraph,
    done: Seq<Seq<char>>,
    open: Seq<Seq<char>>,
    more: Seq<Seq<char>>,
    rest: Seq<Seq<char>>,
    x: Seq<char>,
)
    requires
        divided(g, done, open),
        divided(g, more, rest),
        done.to_set().subset_of(more.to_set()),
        open.contains(x),
        more.contains(x),
    ensures
        rest.len() < open.len(),
{
    reveal(divided);
    assert(!rest.contains(x));
    let longer = rest.push(x);
    lemma_push_distinct(rest, x);
    assert forall|i: int| 0 <= i < longer.len() implies open.contains(#[trigger] longer[i]) by {
        if i < rest.len() {
            assert(rest.contains(rest[i]));
            assert(longer[i] == rest[i]);
            if done.contains(rest[i]) {
                assert(done.to_set().contains(rest[i]));
                assert(more.to_set().contains(rest[i]));
            }
        }
    }
    lemma_distinct_fits(longer, open);
}

/// Searches the lists as they stand for circles.
///
/// Units are finished one after the other: from a unit whose `after` units are finished, the
/// search follows `before` lists and finishes what it comes to. Circles that it closes are
/// reported and finished. So are circles of units that wait for each other, when none of the
/// units that are left can be the next. If then one of them waits for a name that belongs to no
/// unit, all that are left are reported, and the search ends.
fn search_circles(unit_table: &NameMap<UnitId, Dependencies>) -> (result: Result<
    (),
    SanityCheckError,
>)
    ensures
        result is Ok <==> accepted(unit_graph(unit_table@)),
        match result {
            Ok(()) => true,
            Err(SanityCheckError::CirclesFound(circles)) => is_circle_report(
                unit_graph(unit_table@),
                circle_names(circles@),
            ),
            Err(SanityCheckError::Generic(_)) => false,
        },
{
    let ghost g = unit_graph(unit_table@);
    let mut finished_ids: Vec<UnitId> = Vec::new();
    let mut not_finished_ids: Vec<UnitId> = all_ids(unit_table);
    let mut circles: Vec<Vec<UnitId>> = Vec::new();
    let ghost mut turns: Seq<SearchTurn> = Seq::empty();
    proof {
        unit_table.lemma_order();
        reveal(divided);
        assert(names(finished_ids@).to_set() =~= Set::empty());
        assert(circle_names(circles@) =~= Seq::empty());
        assert forall|x: Seq<char>| #[trigger] g.contains_key(x) <==> names(
            not_finished_ids@,
        ).contains(x) by {
            assert(unit_table@.contains_key(x) <==> unit_table.order().contains(x));
        }
    }
    while not_finished_ids.len() > 0
        invariant
            g == unit_graph(unit_table@),
            divided(g, names(finished_ids@), names(not_finished_ids@)),
            is_course(g, turns),
            names(finished_ids@).to_set() == done_after(turns),
            circle_names(circles@) == found_in(turns),
        decreases not_finished_ids@.len(),
    {
        let ghost done = names(finished_ids@);
        let ghost open = names(not_finished_ids@);
        let ghost found = circle_names(circles@);
        proof {
            assert(open.contains(open[0]));
            assert(g.contains_key(open[0]) && !done.contains(open[0])) by {
                reveal(divided);
            }
        }
        let root_id = match find_root(unit_table, &finished_ids, &not_finished_ids) {
            Some(i) => {
                proof {
                    assert(open[i as int] == not_finished_ids@[i as int]@);
                }
                not_finished_ids[i].clone()
            },
            None => {
                if any_awaits_missing(unit_table, &finished_ids, &not_finished_ids) {
                    circles.push(duplicate_names(&not_finished_ids));
                    proof {
                        let reported = circle_names(circles@);
                        assert(reported =~= found.push(open));
                        assert(reported.drop_last() =~= found);
                        assert(is_left_group(g, done.to_set(), open)) by {
                            reveal(divided);
                        }
                        assert(!done_after(turns).contains(open[0]));
                        assert(is_outcome(g, turns, reported));
                        lemma_outcome_verdict(g, turns, reported);
                    }
                    return Err(SanityCheckError::CirclesFound(circles));
                }
                let circle = waiting_circle(unit_table, &finished_ids, &not_finished_ids);
                let ghost c = names(circle@);
                finish_circle(unit_table, &circle, &mut finished_ids, &mut not_finished_ids);
                circles.push(circle);
                proof {
                    let more = names(finished_ids@);
                    let turn = SearchTurn { root: None, circle: Some(c), done: more.to_set() };
                    assert(is_turn(g, done.to_set(), turn));
                    lemma_course_push(g, turns, turn);
                    turns = turns.push(turn);
                    assert(circle_names(circles@) =~= found.push(c));
                    assert(g.contains_key(c[0]) && !done.contains(c[0]));
                    assert(c.contains(c[0]));
                    assert(more.to_set().contains(c[0]));
                    assert(open.contains(c[0])) by {
                        reveal(divided);
                    }
                    lemma_open_shrinks(g, done, open, more, names(not_finished_ids@), c[0]);
                }
                continue;
            },
        };
        let mut visited_ids: Vec<UnitId> = Vec::new();
        proof {
            assert(open.contains(root_id@));
            reveal(is_trail);
            lemma_leads_step(g, done.to_set(), root_id@);
        }
        let searched = search_backedge(
            &root_id,
            unit_table,
            &mut visited_ids,
            &mut finished_ids,
            &mut not_finished_ids,
        );
        match searched {
            Ok(()) => {
                proof {
                    let more = names(finished_ids@);
                    let turn = SearchTurn { root: Some(root_id@), circle: None, done: more.to_set() };
                    lemma_course_push(g, turns, turn);
                    turns = turns.push(turn);
                    lemma_reach_from(g, done.to_set(), root_id@, root_id@);
                    assert(more.to_set().contains(root_id@));
                    lemma_open_shrinks(
                        g,
                        done,
                        open,
                        more,
                        names(not_finished_ids@),
                        root_id@,
                    );
                }
            },
            Err(SanityCheckError::CirclesFound(new_circles)) => {
                let mut new_circles = new_circles;
                let ghost added = new_circles@;
                circles.append(&mut new_circles);
                proof {
                    let more = names(finished_ids@);
                    let circle = names(added[0]@);
                    let t = names(visited_ids@);
                    let p = t.len() - circle.len();
                    assert(closes(g, done.to_set(), root_id@, t, p)) by {
                        reveal(is_trail);
                    }
                    let turn = SearchTurn {
                        root: Some(root_id@),
                        circle: Some(circle),
                        done: more.to_set(),
                    };
                    lemma_closing_turn(g, done.to_set(), root_id@, t, p, more.to_set());
                    lemma_course_push(g, turns, turn);
                    turns = turns.push(turn);
                    assert(circle_names(circles@) =~= found.push(circle));
                    let x = circle[0];
                    assert(circle.contains(x));
                    assert(more.to_set().contains(x));
                    assert(open.contains(x)) by {
                        reveal(is_trail);
                        reveal(divided);
                        assert(x == t[p]);
                    }
                    lemma_open_shrinks(g, done, open, more, names(not_finished_ids@), x);
                }
            },
            Err(SanityCheckError::Generic(text)) => {
                return Err(SanityCheckError::Generic(text));
            },
        }
    }
    proof {
        assert forall|x: Seq<char>| #[trigger] g.contains_key(x) implies done_after(turns).contains(
            x,
        ) by {
            reveal(divided);
            assert(!names(not_finished_ids@).contains(x));
            assert(names(finished_ids@).to_set().contains(x));
        }
        assert(is_outcome(g, turns, circle_names(circles@)));
        lemma_outcome_verdict(g, turns, circle_names(circles@));
    }
    if circles.len() == 0 {
        Ok(())
    } else {
        Err(SanityCheckError::CirclesFound(circles))
    }
}

/// Validates that the unit dependencies form a valid DAG, without cycles.
///
/// The lists are searched as they stand. A cycle can pass that search, if `before` lists and
/// `after` lists take turns in it. So where nothing is found, the search is made once more with
/// every dependency recorded by both units that it concerns. A name that belongs to no unit is
/// passed over on a `before` list, but nothing ever finishes it for a unit that waits for it.
pub fn sanity_check_dependencies(unit_table: &NameMap<UnitId, Dependencies>) -> (result: Result<
    (),
    SanityCheckError,
>)
    ensures
        result is Ok <==> accepted(unit_graph(unit_table@)) && acyclic(unit_graph(unit_table@)),
        match result {
            Ok(()) => true,
            Err(SanityCheckError::CirclesFound(circles)) => is_check_report(
                unit_graph(unit_table@),
                circle_names(circles@),
            ),
            Err(SanityCheckError::Generic(_)) => false,
        },
{
    match search_circles(unit_table) {
        Ok(()) => {},
        Err(error) => {
            return Err(error);
        },
    }
    let filled = filled_table(unit_table);
    proof {
        let g = unit_graph(unit_table@);
        unit_table.lemma_order();
        vstd::seq_lib::seq_to_set_is_finite(unit_table.order());
        assert(g.dom() =~= unit_table@.dom());
        law_filled_check_finds_cycles(g, unit_graph(filled@));
    }
    search_circles(&filled)
}

} // verus!
