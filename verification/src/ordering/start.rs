//! What has to start, and what can.

use crate::name_map::NameMap;
use crate::names::{holds_name, lemma_distinct_fits, names, sorted_names, Name};
use crate::ordering::graph::{lists_after, unit_graph, UnitGraph};
use crate::ordering::laws::{law_collected_names_are_new, law_startable_when_all_awaited_started};
use crate::ordering::{Dependencies, UnitId};
use crate::text::strictly_sorted;
use vstd::prelude::*;

verus! {

/// The names that one of the first `k` listed units waits for and that are not listed.
pub open spec fn wanted_by(g: UnitGraph, ids: Seq<Seq<char>>, k: int) -> Set<Seq<char>> {
    Set::new(
        |d: Seq<char>|
            !ids.contains(d) && exists|i: int| 0 <= i < k && lists_after(g, #[trigger] ids[i], d),
    )
}

/// One round of adding to a list: the names that listed units wait for and that are not listed
/// yet, in order.
pub open spec fn is_round(g: UnitGraph, ids: Seq<Seq<char>>, more: Seq<Seq<char>>) -> bool {
    strictly_sorted(more) && more.to_set() == wanted_by(g, ids, ids.len() as int)
}

/// The names of several rounds, one round behind the other.
pub open spec fn joined(rounds: Seq<Seq<Seq<char>>>) -> Seq<Seq<char>>
    decreases rounds.len(),
{
    if rounds.len() == 0 {
        Seq::empty()
    } else {
        joined(rounds.drop_last()) + rounds.last()
    }
}

/// Rounds of adding to a list, one upon the other, each of which adds something.
pub open spec fn are_rounds(
    g: UnitGraph,
    ids: Seq<Seq<char>>,
    rounds: Seq<Seq<Seq<char>>>,
) -> bool {
    forall|k: int|
        0 <= k < rounds.len() ==> (#[trigger] rounds[k]).len() > 0 && is_round(
            g,
            ids + joined(rounds.take(k)),
            rounds[k],
        )
}

/// A set of names that holds the listed ones, and with each unit the units that it waits for.
pub open spec fn covers(g: UnitGraph, ids: Seq<Seq<char>>, s: Set<Seq<char>>) -> bool {
    &&& forall|i: int| 0 <= i < ids.len() ==> s.contains(#[trigger] ids[i])
    &&& forall|x: Seq<char>, d: Seq<char>|
        s.contains(x) && #[trigger] lists_after(g, x, d) ==> s.contains(d)
}

/// The name is listed, or a listed unit waits for it, directly or by way of other units.
pub open spec fn is_needed(g: UnitGraph, ids: Seq<Seq<char>>, x: Seq<char>) -> bool {
    forall|s: Set<Seq<char>>| #[trigger] covers(g, ids, s) ==> s.contains(x)
}

/// All the names on the `after` lists of some units.
spec fn after_pool(g: UnitGraph, order: Seq<Seq<char>>) -> Seq<Seq<char>>
    decreases order.len(),
{
    if order.len() == 0 {
        Seq::empty()
    } else {
        after_pool(g, order.drop_last()) + g[order.last()].after
    }
}

proof fn lemma_after_pool(g: UnitGraph, order: Seq<Seq<char>>, x: Seq<char>, d: Seq<char>)
    requires
        order.contains(x),
        g[x].after.contains(d),
    ensures
        after_pool(g, order).contains(d),
    decreases order.len(),
{
    let i = choose|i: int| 0 <= i < order.len() && order[i] == x;
    let part = after_pool(g, order.drop_last());
    let tail = g[order.last()].after;
    if i == order.len() - 1 {
        let k = choose|k: int| 0 <= k < tail.len() && tail[k] == d;
        assert((part + tail)[part.len() + k] == d);
    } else {
        assert(order.drop_last()[i] == x);
        lemma_after_pool(g, order.drop_last(), x, d);
        let k = choose|k: int| 0 <= k < part.len() && part[k] == d;
        assert((part + tail)[k] == d);
    }
}

/// The names that listed units wait for and that are not listed, in order.
fn wanted_ids(
    ids: &Vec<UnitId>,
    unit_table: &NameMap<UnitId, Dependencies>,
) -> (more: Vec<UnitId>)
    ensures
        is_round(unit_graph(unit_table@), names(ids@), names(more@)),
{
    let ghost g = unit_graph(unit_table@);
    let ghost listed = names(ids@);
    let mut fresh: Vec<UnitId> = Vec::new();
    let mut i: usize = 0;
    proof {
        assert(names(fresh@).to_set() =~= wanted_by(g, listed, 0));
    }
    while i < ids.len()
        invariant
            0 <= i <= ids@.len(),
            g == unit_graph(unit_table@),
            listed == names(ids@),
            names(fresh@).to_set() == wanted_by(g, listed, i as int),
        decreases ids@.len() - i,
    {
        let ghost before = wanted_by(g, listed, i as int);
        proof {
            assert(listed[i as int] == ids@[i as int]@);
        }
        match unit_table.get(ids[i].as_text()) {
            Some(unit) => {
                let wanted = unit.start_before_this();
                let ghost ds = names(wanted@);
                proof {
                    assert(g[listed[i as int]].after == ds);
                }
                let mut k: usize = 0;
                while k < wanted.len()
                    invariant
                        0 <= k <= wanted@.len(),
                        ds == names(wanted@),
                        listed == names(ids@),
                        forall|d: Seq<char>| #[trigger]
                            names(fresh@).to_set().contains(d) <==> before.contains(d) || (
                            !listed.contains(d) && exists|m: int|
                                0 <= m < k && #[trigger] ds[m] == d),
                    decreases wanted@.len() - k,
                {
                    let ghost so_far = names(fresh@);
                    if !holds_name(ids, wanted[k].as_text()) {
                        fresh.push(wanted[k].clone());
                        proof {
                            assert(names(fresh@) =~= so_far.push(ds[k as int]));
                            crate::names::lemma_push_to_set(so_far, ds[k as int]);
                        }
                    }
                    k += 1;
                }
                proof {
                    assert forall|d: Seq<char>| names(fresh@).to_set().contains(d) <==> wanted_by(
                        g,
                        listed,
                        i + 1,
                    ).contains(d) by {
                        if wanted_by(g, listed, i + 1).contains(d) && !before.contains(d) {
                            let m = choose|m: int|
                                0 <= m < i + 1 && lists_after(g, #[trigger] listed[m], d);
                            assert(m == i);
                            assert(ds.contains(d));
                        }
                        if !listed.contains(d) && ds.contains(d) {
                            assert(lists_after(g, listed[i as int], d));
                        }
                    }
                }
            },
            None => {},
        }
        proof {
            assert(names(fresh@).to_set() =~= wanted_by(g, listed, i + 1));
        }
        i += 1;
    }
    sorted_names(&fresh)
}

/// A list that nothing is to be added to holds exactly what its beginning needs.
proof fn lemma_complete(g: UnitGraph, start: Seq<Seq<char>>, listed: Seq<Seq<char>>)
    requires
        start.is_prefix_of(listed),
        is_round(g, listed, Seq::empty()),
        forall|k: int| 0 <= k < listed.len() ==> is_needed(g, start, #[trigger] listed[k]),
    ensures
        forall|x: Seq<char>| #[trigger] listed.contains(x) <==> is_needed(g, start, x),
{
    let s = listed.to_set();
    assert forall|i: int| 0 <= i < start.len() implies s.contains(#[trigger] start[i]) by {
        assert(listed.subrange(0, start.len() as int)[i] == listed[i]);
        assert(listed.contains(listed[i]));
    }
    assert forall|x: Seq<char>, d: Seq<char>|
        s.contains(x) && #[trigger] lists_after(g, x, d) implies s.contains(d) by {
        if !listed.contains(d) {
            let i = choose|i: int| 0 <= i < listed.len() && listed[i] == x;
            assert(lists_after(g, listed[i], d));
            assert(wanted_by(g, listed, listed.len() as int).contains(d));
            assert(Seq::<Seq<char>>::empty().to_set().contains(d));
        }
    }
    assert(covers(g, start, s));
}

/// A round adds names that are new, that stand on an `after` list and that are needed.
proof fn lemma_round(
    g: UnitGraph,
    start: Seq<Seq<char>>,
    listed: Seq<Seq<char>>,
    added: Seq<Seq<char>>,
    order: Seq<Seq<char>>,
)
    requires
        forall|n: Seq<char>| #[trigger] g.contains_key(n) ==> order.contains(n),
        start.is_prefix_of(listed),
        is_round(g, listed, added),
        listed.skip(start.len() as int).no_duplicates(),
        forall|k: int|
            start.len() <= k < listed.len() ==> after_pool(g, order).contains(#[trigger] listed[k]),
        forall|k: int| 0 <= k < listed.len() ==> is_needed(g, start, #[trigger] listed[k]),
    ensures
        start.is_prefix_of(listed + added),
        (listed + added).skip(start.len() as int).no_duplicates(),
        forall|k: int|
            start.len() <= k < (listed + added).len() ==> after_pool(g, order).contains(
                #[trigger] (listed + added)[k],
            ),
        forall|k: int|
            0 <= k < (listed + added).len() ==> is_needed(g, start, #[trigger] (listed + added)[k]),
{
    let all = listed + added;
    let n = start.len() as int;
    assert(all.subrange(0, n) =~= listed.subrange(0, n));
    assert forall|k: int| 0 <= k < added.len() implies !listed.contains(#[trigger] added[k])
        && after_pool(g, order).contains(added[k]) && is_needed(g, start, added[k]) by {
        assert(added.to_set().contains(added[k]));
        assert(wanted_by(g, listed, listed.len() as int).contains(added[k]));
        let i = choose|i: int|
            0 <= i < listed.len() && lists_after(g, #[trigger] listed[i], added[k]);
        lemma_after_pool(g, order, listed[i], added[k]);
        assert(is_needed(g, start, listed[i]));
    }
    let tail = all.skip(n);
    assert forall|i: int, j: int|
        0 <= i < tail.len() && 0 <= j < tail.len() && i < j implies tail[i] != tail[j] by {
        assert(tail[i] == all[i + n] && tail[j] == all[j + n]);
        if j + n < listed.len() {
            assert(listed.skip(n)[i] == listed[i + n]);
            assert(listed.skip(n)[j] == listed[j + n]);
        } else if i + n < listed.len() {
            assert(listed.contains(listed[i + n]));
            assert(tail[j] == added[j + n - listed.len()]);
        } else {
            let a = i + n - listed.len();
            let b = j + n - listed.len();
            assert(crate::text::precedes(added[a], added[b]));
            crate::text::law_precedes_asymmetric(added[a], added[b]);
        }
    }
    assert forall|k: int| 0 <= k < all.len() implies is_needed(g, start, #[trigger] all[k]) by {
        if k < listed.len() {
            assert(all[k] == listed[k]);
        } else {
            assert(all[k] == added[k - listed.len()]);
        }
    }
    assert forall|k: int| n <= k < all.len() implies after_pool(g, order).contains(
        #[trigger] all[k],
    ) by {
        if k < listed.len() {
            assert(all[k] == listed[k]);
        } else {
            assert(all[k] == added[k - listed.len()]);
        }
    }
}

proof fn lemma_grow(
    g: UnitGraph,
    start: Seq<Seq<char>>,
    rounds: Seq<Seq<Seq<char>>>,
    added: Seq<Seq<char>>,
)
    requires
        are_rounds(g, start, rounds),
        is_round(g, start + joined(rounds), added),
        added.len() > 0,
    ensures
        are_rounds(g, start, rounds.push(added)),
        joined(rounds.push(added)) == joined(rounds) + added,
{
    let more = rounds.push(added);
    assert(more.drop_last() =~= rounds);
    assert forall|k: int| 0 <= k < more.len() implies (#[trigger] more[k]).len() > 0 && is_round(
        g,
        start + joined(more.take(k)),
        more[k],
    ) by {
        assert(more.take(k) =~= rounds.take(k));
        if k == rounds.len() {
            assert(rounds.take(k) =~= rounds);
        } else {
            assert(rounds[k].len() > 0);
        }
    }
}

proof fn lemma_fits(start: Seq<Seq<char>>, all: Seq<Seq<char>>, pool: Seq<Seq<char>>)
    requires
        start.len() <= all.len(),
        all.skip(start.len() as int).no_duplicates(),
        forall|k: int| start.len() <= k < all.len() ==> pool.contains(#[trigger] all[k]),
    ensures
        all.len() - start.len() <= pool.len(),
{
    let tail = all.skip(start.len() as int);
    assert forall|i: int| 0 <= i < tail.len() implies pool.contains(#[trigger] tail[i]) by {
        assert(tail[i] == all[i + start.len()]);
    }
    lemma_distinct_fits(tail, pool);
}

/// Adds to a list of units all that they wait for, directly or by way of other units.
///
/// What the listed units wait for comes first, then what those units wait for, and so on; within
/// such a round the names are in order.
pub fn collect_unit_start_subgraph(
    ids_to_start: &mut Vec<UnitId>,
    unit_table: &NameMap<UnitId, Dependencies>,
)
    ensures
        exists|rounds: Seq<Seq<Seq<char>>>| #[trigger]
            are_rounds(unit_graph(unit_table@), names(old(ids_to_start)@), rounds) && names(
                final(ids_to_start)@,
            ) == names(old(ids_to_start)@) + joined(rounds),
        is_round(unit_graph(unit_table@), names(final(ids_to_start)@), Seq::empty()),
        forall|x: Seq<char>| #[trigger]
            names(final(ids_to_start)@).contains(x) <==> is_needed(
                unit_graph(unit_table@),
                names(old(ids_to_start)@),
                x,
            ),
        final(ids_to_start)@.len() >= old(ids_to_start)@.len(),
        forall|i: int|
            0 <= i < old(ids_to_start)@.len() ==> (#[trigger] final(ids_to_start)@[i]).name@ == old(
                ids_to_start,
            )@[i].name@,
        forall|i: int, j: int|
            0 <= i < j < final(ids_to_start)@.len() && j >= old(ids_to_start)@.len() ==> (
            #[trigger] final(ids_to_start)@[i]).name@ != (#[trigger] final(ids_to_start)@[j]).name@,
{
    let ghost g = unit_graph(unit_table@);
    let ghost start = names(ids_to_start@);
    let ghost pool = after_pool(g, unit_table.order());
    let ghost mut rounds: Seq<Seq<Seq<char>>> = Seq::empty();
    proof {
        unit_table.lemma_order();
        assert(start.skip(start.len() as int) =~= Seq::<Seq<char>>::empty());
        assert(start + joined(rounds) =~= start);
    }
    loop
        invariant
            g == unit_graph(unit_table@),
            start == names(old(ids_to_start)@),
            pool == after_pool(g, unit_table.order()),
            forall|n: Seq<char>| #[trigger]
                unit_table@.contains_key(n) <==> unit_table.order().contains(n),
            start.is_prefix_of(names(ids_to_start@)),
            are_rounds(g, start, rounds),
            names(ids_to_start@) == start + joined(rounds),
            names(ids_to_start@).skip(start.len() as int).no_duplicates(),
            forall|k: int|
                start.len() <= k < ids_to_start@.len() ==> pool.contains(
                    #[trigger] names(ids_to_start@)[k],
                ),
            forall|k: int|
                0 <= k < ids_to_start@.len() ==> is_needed(g, start, #[trigger] names(ids_to_start@)[k]),
        decreases pool.len() - (ids_to_start@.len() - start.len()),
    {
        let ghost listed = names(ids_to_start@);
        let mut more = wanted_ids(ids_to_start, unit_table);
        let ghost added = names(more@);
        if more.len() == 0 {
            proof {
                assert(added =~= Seq::<Seq<char>>::empty());
                lemma_complete(g, start, listed);
                assert forall|i: int| 0 <= i < start.len() implies (
                #[trigger] ids_to_start@[i]).name@ == old(ids_to_start)@[i].name@ by {
                    assert(listed[i] == start[i]);
                }
                assert forall|i: int, j: int|
                    0 <= i < j < ids_to_start@.len() && j >= start.len() implies (
                #[trigger] ids_to_start@[i]).name@ != (#[trigger] ids_to_start@[j]).name@ by {
                    law_collected_names_are_new(g, start, rounds, i, j);
                    assert(listed[i] != listed[j]);
                }
            }
            return;
        }
        proof {
            lemma_round(g, start, listed, added, unit_table.order());
            lemma_fits(start, listed + added, pool);
        }
        ids_to_start.append(&mut more);
        proof {
            assert(names(ids_to_start@) =~= listed + added);
            lemma_grow(g, start, rounds, added);
            rounds = rounds.push(added);
            assert(names(ids_to_start@) =~= start + joined(rounds));
        }
    }
}

/// The unit is known, and all the units that it waits for have been started.
pub open spec fn is_startable(
    g: UnitGraph,
    started: Map<Seq<char>, bool>,
    x: Seq<char>,
) -> bool {
    &&& g.contains_key(x)
    &&& forall|d: Seq<char>| #[trigger]
        g[x].after.contains(d) ==> started.contains_key(d) && started[d]
}

/// The startable names of a list, in the list's order.
pub open spec fn startable_among(
    g: UnitGraph,
    started: Map<Seq<char>, bool>,
    ids: Seq<Seq<char>>,
) -> Seq<Seq<char>> {
    ids.filter(|x: Seq<char>| is_startable(g, started, x))
}

/// Whether all the named units have been started.
fn all_started(ids: &Vec<UnitId>, started: &NameMap<UnitId, bool>) -> (all: bool)
    ensures
        all == forall|d: Seq<char>| #[trigger]
            names(ids@).contains(d) ==> started@.contains_key(d) && started@[d],
{
    let mut i: usize = 0;
    while i < ids.len()
        invariant
            0 <= i <= ids@.len(),
            forall|k: int|
                0 <= k < i ==> started@.contains_key(#[trigger] names(ids@)[k])
                    && started@[names(ids@)[k]],
        decreases ids@.len() - i,
    {
        let up = match started.get(ids[i].as_text()) {
            Some(up) => *up,
            None => false,
        };
        if !up {
            proof {
                assert(names(ids@).contains(names(ids@)[i as int]));
            }
            return false;
        }
        i += 1;
    }
    true
}

/// The units among the listed ones that can be started, given what has been started.
pub fn find_startable_units(
    ids: &[UnitId],
    unit_table: &NameMap<UnitId, Dependencies>,
    started: &NameMap<UnitId, bool>,
) -> (startable: Vec<UnitId>)
    ensures
        names(startable@) == startable_among(unit_graph(unit_table@), started@, names(ids@)),
        forall|j: int|
            0 <= j < startable@.len() ==> unit_table@.contains_key(
                (#[trigger] startable@[j]).name@,
            ) && forall|k: int|
                0 <= k < unit_table@[startable@[j].name@].after@.len() ==> started@.contains_key(
                    (#[trigger] unit_table@[startable@[j].name@].after@[k]).name@,
                ) && started@[unit_table@[startable@[j].name@].after@[k].name@],
        forall|i: int|
            0 <= i < ids@.len() && unit_table@.contains_key((#[trigger] ids@[i]).name@) && (forall|
                k: int,
            |
                0 <= k < unit_table@[ids@[i].name@].after@.len() ==> started@.contains_key(
                    (#[trigger] unit_table@[ids@[i].name@].after@[k]).name@,
                ) && started@[unit_table@[ids@[i].name@].after@[k].name@]) ==> exists|j: int|
                0 <= j < startable@.len() && (#[trigger] startable@[j]).name@ == ids@[i].name@,
{
    let ghost g = unit_graph(unit_table@);
    let ghost listed = names(ids@);
    let mut startable: Vec<UnitId> = Vec::new();
    let mut i: usize = 0;
    proof {
        reveal(Seq::filter);
        assert(listed.take(0) =~= Seq::<Seq<char>>::empty());
        assert(names(startable@) =~= startable_among(g, started@, listed.take(0)));
    }
    while i < ids.len()
        invariant
            0 <= i <= ids@.len(),
            g == unit_graph(unit_table@),
            listed == names(ids@),
            names(startable@) == startable_among(g, started@, listed.take(i as int)),
        decreases ids@.len() - i,
    {
        let id = &ids[i];
        let ghost so_far = names(startable@);
        proof {
            reveal(Seq::filter);
            assert(listed[i as int] == id@);
            assert(listed.take(i + 1).drop_last() =~= listed.take(i as int));
        }
        let ready: bool = match unit_table.get(id.as_text()) {
            Some(unit) => {
                proof {
                    assert(g[id@].after == names(unit.after@));
                }
                all_started(&unit.after, started)
            },
            None => false,
        };
        proof {
            assert(ready == is_startable(g, started@, id@));
        }
        if ready {
            startable.push(id.clone());
            proof {
                assert(names(startable@) =~= so_far.push(id@));
            }
        }
        i += 1;
    }
    proof {
        assert(listed.take(ids@.len() as int) =~= listed);
        lemma_startable_found(ids@, unit_table@, started@, startable@);
    }
    startable
}

/// What is found startable, stated over the lists of the table themselves.
proof fn lemma_startable_found(
    ids: Seq<UnitId>,
    table: Map<Seq<char>, Dependencies>,
    started: Map<Seq<char>, bool>,
    startable: Seq<UnitId>,
)
    requires
        names(startable) == startable_among(unit_graph(table), started, names(ids)),
    ensures
        forall|j: int|
            0 <= j < startable.len() ==> table.contains_key((#[trigger] startable[j]).name@)
                && forall|k: int|
                0 <= k < table[startable[j].name@].after@.len() ==> started.contains_key(
                    (#[trigger] table[startable[j].name@].after@[k]).name@,
                ) && started[table[startable[j].name@].after@[k].name@],
        forall|i: int|
            0 <= i < ids.len() && table.contains_key((#[trigger] ids[i]).name@) && (forall|k: int|
                0 <= k < table[ids[i].name@].after@.len() ==> started.contains_key(
                    (#[trigger] table[ids[i].name@].after@[k]).name@,
                ) && started[table[ids[i].name@].after@[k].name@]) ==> exists|j: int|
                0 <= j < startable.len() && (#[trigger] startable[j]).name@ == ids[i].name@,
{
    let g = unit_graph(table);
    assert(names(startable).len() == startable.len());
    assert forall|j: int| 0 <= j < startable.len() implies table.contains_key(
        (#[trigger] startable[j]).name@,
    ) && forall|k: int|
        0 <= k < table[startable[j].name@].after@.len() ==> started.contains_key(
            (#[trigger] table[startable[j].name@].after@[k]).name@,
        ) && started[table[startable[j].name@].after@[k].name@] by {
        let x = startable[j].name@;
        law_startable_when_all_awaited_started(g, started, names(ids), x);
        assert(names(startable)[j] == x);
        assert(names(startable).contains(x));
        assert forall|k: int| 0 <= k < table[x].after@.len() implies started.contains_key(
            (#[trigger] table[x].after@[k]).name@,
        ) && started[table[x].after@[k].name@] by {
            assert(g[x].after[k] == table[x].after@[k].name@);
        }
    }
    assert forall|i: int|
        0 <= i < ids.len() && table.contains_key((#[trigger] ids[i]).name@) && (forall|k: int|
            0 <= k < table[ids[i].name@].after@.len() ==> started.contains_key(
                (#[trigger] table[ids[i].name@].after@[k]).name@,
            ) && started[table[ids[i].name@].after@[k].name@]) implies exists|j: int|
        0 <= j < startable.len() && (#[trigger] startable[j]).name@ == ids[i].name@ by {
        let x = ids[i].name@;
        law_startable_when_all_awaited_started(g, started, names(ids), x);
        assert(names(ids)[i] == x);
        assert forall|k: int| 0 <= k < g[x].after.len() implies started.contains_key(
            #[trigger] g[x].after[k],
        ) && started[g[x].after[k]] by {
            assert(g[x].after[k] == table[x].after@[k].name@);
        }
        assert(names(startable).contains(x));
        let j = choose|j: int| 0 <= j < names(startable).len() && names(startable)[j] == x;
        assert(startable[j].name@ == x);
    }
}

/// The services that should be stopped when a service fails.
///
/// An `after` entry orders starts and propagates no failure, so there are none.
pub fn propagate_failure(
    _failed_service: &str,
    _unit_table: &NameMap<UnitId, Dependencies>,
) -> (stopped: Vec<String>)
    ensures
        stopped@.len() == 0,
{
    Vec::new()
}

} // verus!
