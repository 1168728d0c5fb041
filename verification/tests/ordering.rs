use nimi::name_map::NameMap;
use nimi::ordering::{
    collect_unit_start_subgraph, fill_dependencies, find_startable_units, propagate_failure,
    sanity_check_dependencies, show_circles, Dependencies, SanityCheckError, UnitId,
};

fn ids(names: &[&str]) -> Vec<UnitId> {
    names.iter().map(|n| UnitId::new(n)).collect()
}

fn texts(ids: &[UnitId]) -> Vec<String> {
    ids.iter().map(|id| id.name.clone()).collect()
}

fn table(units: &[(&str, &[&str], &[&str])]) -> NameMap<UnitId, Dependencies> {
    let mut table = NameMap::new();
    for (name, before, after) in units {
        let deps = Dependencies { before: ids(before), after: ids(after) };
        table.insert(UnitId::new(name), deps);
    }
    table
}

fn circles(result: Result<(), SanityCheckError>) -> Vec<Vec<String>> {
    match result {
        Err(SanityCheckError::CirclesFound(circles)) => circles.iter().map(|c| texts(c)).collect(),
        other => panic!("no circles: {:?}", other),
    }
}

fn lists(table: &NameMap<UnitId, Dependencies>, name: &str) -> (Vec<String>, Vec<String>) {
    let deps = table.get(name).unwrap();
    (texts(&deps.before), texts(&deps.after))
}

#[test]
fn unit_id_equals_its_name() {
    assert!(UnitId::new("a") == UnitId::new("a"));
    assert!(UnitId::new("a") != UnitId::new("b"));
    assert!(UnitId::new("a") == *"a");
    assert!(UnitId::new("a") != *"ab");
    assert!(UnitId::new("a") == "a".to_string());
    assert!(UnitId::new("") != "a".to_string());
    assert!(UnitId::new("a").clone() == UnitId::new("a"));
}

#[test]
fn unit_ids_are_ordered_by_name() {
    assert!(UnitId::new("a") < UnitId::new("b"));
    assert!(UnitId::new("a") < UnitId::new("aa"));
}

#[test]
fn default_dependencies_are_empty() {
    let deps = Dependencies::default();
    assert!(deps.before.is_empty());
    assert!(deps.after.is_empty());
}

#[test]
fn start_before_this_is_the_after_list() {
    let deps = Dependencies { before: ids(&["x"]), after: ids(&["c", "a", "c"]) };
    assert_eq!(texts(&deps.start_before_this()), ["c", "a", "c"]);
}

#[test]
fn dedup_sorts_and_drops_repetitions() {
    let mut deps = Dependencies { before: ids(&["b", "a", "b"]), after: ids(&["é", "z", "Z", "z"]) };
    deps.dedup();
    assert_eq!(texts(&deps.before), ["a", "b"]);
    assert_eq!(texts(&deps.after), ["Z", "z", "é"]);
}

#[test]
fn dedup_order_is_that_of_the_standard_sort() {
    let words = ["", "b", "a", "ab", "aa", "A", "zz", "ä", "\u{ffff}", "\u{10000}", "a", "-", "_"];
    let mut deps = Dependencies { before: ids(&words), after: Vec::new() };
    deps.dedup();
    let mut expected: Vec<String> = words.iter().map(|w| w.to_string()).collect();
    expected.sort();
    expected.dedup();
    assert_eq!(texts(&deps.before), expected);
}

#[test]
fn remove_id_takes_out_every_occurrence() {
    let mut deps = Dependencies { before: ids(&["a", "b", "a"]), after: ids(&["a", "c", "a", "d"]) };
    deps.remove_id(&UnitId::new("a"));
    assert_eq!(texts(&deps.before), ["b"]);
    assert_eq!(texts(&deps.after), ["c", "d"]);
    deps.remove_id(&UnitId::new("x"));
    assert_eq!(texts(&deps.after), ["c", "d"]);
}

#[test]
fn comes_after_and_before_look_into_the_lists() {
    let deps = Dependencies { before: ids(&["late"]), after: ids(&["early"]) };
    assert!(deps.comes_after("early"));
    assert!(!deps.comes_after("late"));
    assert!(deps.comes_before("late"));
    assert!(!deps.comes_before("early"));
}

#[test]
fn no_units_form_a_dag() {
    assert!(sanity_check_dependencies(&table(&[])).is_ok());
}

#[test]
fn chain_of_after_lists_is_a_dag() {
    let t = table(&[("c", &[], &["b"]), ("b", &[], &["a"]), ("a", &[], &[])]);
    assert!(sanity_check_dependencies(&t).is_ok());
}

#[test]
fn chain_of_before_lists_is_a_dag() {
    let t = table(&[("a", &["b"], &[]), ("b", &["c"], &[]), ("c", &[], &[])]);
    assert!(sanity_check_dependencies(&t).is_ok());
}

#[test]
fn diamond_is_a_dag() {
    let t = table(&[
        ("top", &["left", "right"], &[]),
        ("left", &["bottom"], &["top"]),
        ("right", &[], &["top"]),
        ("bottom", &[], &["right"]),
    ]);
    assert!(sanity_check_dependencies(&t).is_ok());
}

#[test]
fn unit_before_itself_is_a_circle() {
    let t = table(&[("a", &["a"], &[])]);
    assert_eq!(circles(sanity_check_dependencies(&t)), [["a"]]);
}

#[test]
fn unit_after_itself_is_stuck() {
    let t = table(&[("a", &[], &["a"])]);
    assert_eq!(circles(sanity_check_dependencies(&t)), [["a"]]);
}

#[test]
fn cycle_of_before_lists_is_reported_in_its_order() {
    let t = table(&[("a", &["b"], &[]), ("b", &["c"], &[]), ("c", &["b"], &[])]);
    assert_eq!(circles(sanity_check_dependencies(&t)), [["b", "c"]]);
}

#[test]
fn cycle_of_after_lists_is_reported() {
    let t = table(&[("a", &[], &["b"]), ("b", &[], &["a"]), ("c", &[], &[])]);
    assert_eq!(circles(sanity_check_dependencies(&t)), [["a", "b"]]);
}

#[test]
fn unit_behind_a_cycle_is_not_reported() {
    let t = table(&[("c", &[], &["b"]), ("a", &[], &["b"]), ("b", &[], &["a"])]);
    assert_eq!(circles(sanity_check_dependencies(&t)), [["b", "a"]]);
    let t = table(&[
        ("r", &["a"], &[]),
        ("a", &["b"], &["b", "r"]),
        ("b", &["a", "c"], &["a"]),
        ("c", &[], &["b"]),
    ]);
    assert_eq!(circles(sanity_check_dependencies(&t)), [["a", "b"]]);
}

#[test]
fn every_waiting_cycle_is_reported() {
    let t = table(&[
        ("a", &[], &["b"]),
        ("b", &[], &["a"]),
        ("e", &[], &["d", "b"]),
        ("c", &[], &["d"]),
        ("d", &[], &["c"]),
    ]);
    assert_eq!(circles(sanity_check_dependencies(&t)), [["a", "b"], ["d", "c"]]);
    let t = table(&[("a", &[], &["a"]), ("b", &[], &["b"])]);
    assert_eq!(circles(sanity_check_dependencies(&t)), [["a"], ["b"]]);
}

#[test]
fn search_goes_on_behind_a_waiting_cycle() {
    let t = table(&[
        ("p", &[], &["q"]),
        ("q", &[], &["p"]),
        ("x", &["x"], &["p"]),
        ("y", &[], &["ghost"]),
    ]);
    assert_eq!(circles(sanity_check_dependencies(&t)), [["p", "q", "x", "y"]]);
    let t = table(&[("p", &[], &["q"]), ("q", &[], &["p"]), ("x", &["x"], &["p"])]);
    assert_eq!(circles(sanity_check_dependencies(&t)), [vec!["p", "q"], vec!["x"]]);
}

#[test]
fn waiting_cycle_is_reported_in_start_order() {
    let t = table(&[("a", &[], &["b"]), ("b", &[], &["c"]), ("c", &[], &["a"])]);
    assert_eq!(circles(sanity_check_dependencies(&t)), [["a", "c", "b"]]);
}

#[test]
fn cycle_begins_where_the_search_comes_upon_it() {
    let t = table(&[("r", &["a"], &[]), ("a", &["b"], &["r"]), ("b", &["a"], &["r"])]);
    assert_eq!(circles(sanity_check_dependencies(&t)), [["a", "b"]]);
}

#[test]
fn cycles_are_reported_in_the_order_of_the_search() {
    let t = table(&[("r", &["a", "b"], &[]), ("a", &["a"], &["r"]), ("b", &["b"], &["r"])]);
    assert_eq!(circles(sanity_check_dependencies(&t)), [["a"], ["b"]]);
}

#[test]
fn group_with_an_unknown_name_is_reported_whole() {
    let t = table(&[("a", &[], &["b"]), ("b", &[], &["a"]), ("c", &[], &["ghost"])]);
    assert_eq!(circles(sanity_check_dependencies(&t)), [["a", "b", "c"]]);
}

#[test]
fn each_cycle_is_reported_once() {
    let t = table(&[
        ("a", &["b"], &[]),
        ("b", &["a"], &[]),
        ("x", &["y"], &[]),
        ("y", &["x"], &[]),
        ("p", &[], &["q"]),
        ("q", &[], &["p"]),
    ]);
    assert_eq!(circles(sanity_check_dependencies(&t)), [["a", "b"], ["x", "y"], ["p", "q"]]);
}

#[test]
fn cycle_that_mixes_both_lists_is_reported() {
    let t = table(&[("a", &["b"], &["b"]), ("b", &[], &[])]);
    assert_eq!(circles(sanity_check_dependencies(&t)), [["a", "b"]]);
    let t = table(&[("r", &["x", "y"], &[]), ("x", &[], &["y"]), ("y", &[], &["x"])]);
    assert!(sanity_check_dependencies(&t).is_err());
}

#[test]
fn unit_that_waits_for_an_unknown_one_is_stuck() {
    let t = table(&[("a", &[], &["ghost"]), ("b", &[], &[])]);
    assert_eq!(circles(sanity_check_dependencies(&t)), [["a"]]);
}

#[test]
fn unknown_names_on_before_lists_are_passed_over() {
    let t = table(&[("a", &["a", "ghost"], &[])]);
    assert_eq!(circles(sanity_check_dependencies(&t)), [["a"]]);
    let t = table(&[("a", &["ghost"], &[]), ("b", &[], &["a"])]);
    assert!(sanity_check_dependencies(&t).is_ok());
}

#[test]
fn check_is_the_same_on_the_filled_table() {
    for units in [
        table(&[("a", &["b"], &["b"]), ("b", &[], &[])]),
        table(&[("a", &[], &["b"]), ("b", &[], &["a"])]),
        table(&[("a", &["b"], &[]), ("b", &[], &["a"]), ("c", &[], &["b"])]),
    ] {
        let verdict = sanity_check_dependencies(&units).is_ok();
        let mut filled = units;
        assert!(fill_dependencies(&mut filled).is_ok());
        assert_eq!(sanity_check_dependencies(&filled).is_ok(), verdict);
    }
}

#[test]
fn circle_message_shows_the_units() {
    let error = SanityCheckError::CirclesFound(vec![ids(&["a", "b"]), ids(&["c"])]);
    assert_eq!(
        error.message(),
        "Cycles found: [UnitId { name: \"a\" }, UnitId { name: \"b\" }][UnitId { name: \"c\" }]"
    );
    let group = ids(&["a", "b"]);
    assert_eq!(
        SanityCheckError::CirclesFound(vec![group]).message(),
        format!("Cycles found: {:?}", ids(&["a", "b"]))
    );
}

#[test]
fn circle_message_quotes_names() {
    let error = SanityCheckError::CirclesFound(vec![ids(&["a\"b\\c\n"])]);
    assert_eq!(error.message(), "Cycles found: [UnitId { name: \"a\\\"b\\\\c\\n\" }]");
}

#[test]
fn circle_message_takes_quoted_names_as_they_are() {
    let quoted = vec![vec!["<a>".to_string(), "<b>".to_string()], Vec::new()];
    assert_eq!(
        show_circles(&quoted),
        "Cycles found: [UnitId { name: <a> }, UnitId { name: <b> }][]"
    );
}

#[test]
fn generic_message_is_its_text() {
    assert_eq!(SanityCheckError::Generic("broken".to_string()).message(), "broken");
    assert!(
        SanityCheckError::Generic("broken".to_string())
            == SanityCheckError::Generic("broken".to_string())
    );
}

#[test]
fn collect_adds_round_after_round() {
    let t = table(&[
        ("app", &[], &["web", "db"]),
        ("web", &[], &["net"]),
        ("db", &[], &["net", "disk"]),
        ("net", &[], &["boot"]),
        ("disk", &[], &[]),
        ("boot", &[], &[]),
        ("other", &[], &["app"]),
    ]);
    let mut start = ids(&["app"]);
    collect_unit_start_subgraph(&mut start, &t);
    assert_eq!(texts(&start), ["app", "db", "web", "disk", "net", "boot"]);
    let once = texts(&start);
    collect_unit_start_subgraph(&mut start, &t);
    assert_eq!(texts(&start), once);
}

#[test]
fn collect_keeps_unknown_and_repeated_units() {
    let t = table(&[("a", &[], &["ghost", "a"])]);
    let mut start = ids(&["a", "nobody", "a"]);
    collect_unit_start_subgraph(&mut start, &t);
    assert_eq!(texts(&start), ["a", "nobody", "a", "ghost"]);
}

#[test]
fn collect_ends_on_cycles() {
    let t = table(&[("a", &[], &["b"]), ("b", &[], &["a"])]);
    let mut start = ids(&["b"]);
    collect_unit_start_subgraph(&mut start, &t);
    assert_eq!(texts(&start), ["b", "a"]);
}

#[test]
fn startable_units_have_all_they_wait_for() {
    let t = table(&[("a", &[], &[]), ("b", &[], &["a"]), ("c", &[], &["a", "b"])]);
    let mut started: NameMap<UnitId, bool> = NameMap::new();
    let all = ids(&["c", "b", "a", "ghost"]);
    assert_eq!(texts(&find_startable_units(&all, &t, &started)), ["a"]);
    started.insert(UnitId::new("a"), true);
    started.insert(UnitId::new("b"), false);
    assert_eq!(texts(&find_startable_units(&all, &t, &started)), ["b", "a"]);
    started.insert(UnitId::new("b"), true);
    assert_eq!(texts(&find_startable_units(&all, &t, &started)), ["c", "b", "a"]);
}

#[test]
fn fill_records_each_dependency_twice() {
    let mut t = table(&[("a", &["b"], &[]), ("b", &[], &[]), ("c", &[], &["b", "a", "b"])]);
    assert!(fill_dependencies(&mut t).is_ok());
    assert_eq!(lists(&t, "a"), (vec!["b".to_string(), "c".to_string()], vec![]));
    assert_eq!(lists(&t, "b"), (vec!["c".to_string()], vec!["a".to_string()]));
    assert_eq!(lists(&t, "c"), (vec![], vec!["a".to_string(), "b".to_string()]));
}

#[test]
fn fill_keeps_unknown_names_and_is_idempotent() {
    let mut t = table(&[("a", &["ghost"], &["b", "wraith"]), ("b", &[], &[])]);
    assert!(fill_dependencies(&mut t).is_ok());
    let a = (vec!["ghost".to_string()], vec!["b".to_string(), "wraith".to_string()]);
    let b = (vec!["a".to_string()], vec![]);
    assert_eq!((lists(&t, "a"), lists(&t, "b")), (a.clone(), b.clone()));
    assert_eq!(t.len(), 2);
    assert!(fill_dependencies(&mut t).is_ok());
    assert_eq!((lists(&t, "a"), lists(&t, "b")), (a, b));
}

#[test]
fn failures_are_not_propagated() {
    let t = table(&[("a", &[], &[]), ("b", &[], &["a"])]);
    assert!(propagate_failure("a", &t).is_empty());
}
