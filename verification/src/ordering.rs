//! Service dependency ordering: cycle detection, start order and start sets.

use crate::names::{duplicate_names, holds_name, names, remove_name, sorted_names, without, Name};
use crate::text::law_joined_part_by_part;
use crate::text::{join_texts, joined_text, quoted, quoted_text, same_text, strictly_sorted};
use vstd::std_specs::cmp::PartialEqSpec;
use vstd::prelude::*;

pub use crate::ordering::fill::fill_dependencies;
pub use crate::ordering::sanity::sanity_check_dependencies;
pub use crate::ordering::start::{collect_unit_start_subgraph, find_startable_units, propagate_failure};

pub mod fill;
pub mod graph;
pub mod laws;
pub mod start;
pub mod sanity;
pub mod search;

verus! {

/// Service identifier.
#[derive(Debug, Hash, PartialOrd, Ord)]
pub struct UnitId {
    /// Service name
    pub name: String,
}

impl View for UnitId {
    type V = Seq<char>;

    open spec fn view(&self) -> Seq<char> {
        self.name@
    }
}

impl UnitId {
    /// The identifier of the service of the given name.
    pub fn new(name: &str) -> (id: Self)
        ensures
            id@ == name@,
            id.name@ == name@,
    {
        UnitId { name: name.to_owned() }
    }
}

impl Clone for UnitId {
    fn clone(&self) -> (id: Self)
        ensures
            id == *self,
    {
        UnitId { name: self.name.clone() }
    }
}

impl Name for UnitId {
    fn as_text(&self) -> (text: &str) {
        self.name.as_str()
    }

    fn duplicate(&self) -> (copy: Self) {
        self.clone()
    }
}

impl PartialEq for UnitId {
    fn eq(&self, other: &UnitId) -> (same: bool) {
        self.name == other.name
    }
}

impl Eq for UnitId {

}

impl vstd::std_specs::cmp::PartialEqSpecImpl for UnitId {
    open spec fn obeys_eq_spec() -> bool {
        true
    }

    open spec fn eq_spec(&self, other: &UnitId) -> bool {
        self@ == other@
    }
}

impl PartialEq<str> for UnitId {
    fn eq(&self, other: &str) -> (same: bool) {
        same_text(self.name.as_str(), other)
    }
}

impl vstd::std_specs::cmp::PartialEqSpecImpl<str> for UnitId {
    open spec fn obeys_eq_spec() -> bool {
        true
    }

    open spec fn eq_spec(&self, other: &str) -> bool {
        self@ == other@
    }
}

impl PartialEq<String> for UnitId {
    fn eq(&self, other: &String) -> (same: bool) {
        self.name == *other
    }
}

impl vstd::std_specs::cmp::PartialEqSpecImpl<String> for UnitId {
    open spec fn obeys_eq_spec() -> bool {
        true
    }

    open spec fn eq_spec(&self, other: &String) -> bool {
        self@ == other@
    }
}

/// Service dependencies.
#[derive(Debug)]
pub struct Dependencies {
    /// Services that this service should start before
    pub before: Vec<UnitId>,
    /// Services that this service should start after
    pub after: Vec<UnitId>,
}

/// The names in the dependencies of a service, list by list.
pub struct DependenciesView {
    /// Names of the services that should start later
    pub before: Seq<Seq<char>>,
    /// Names of the services that should start earlier
    pub after: Seq<Seq<char>>,
}

impl View for Dependencies {
    type V = DependenciesView;

    open spec fn view(&self) -> DependenciesView {
        DependenciesView { before: names(self.before@), after: names(self.after@) }
    }
}

impl Clone for Dependencies {
    fn clone(&self) -> (copy: Self)
        ensures
            copy@ == self@,
    {
        Dependencies { before: duplicate_names(&self.before), after: duplicate_names(&self.after) }
    }
}

impl Default for Dependencies {
    fn default() -> (none: Self)
        ensures
            none@.before.len() == 0,
            none@.after.len() == 0,
    {
        Dependencies { before: Vec::new(), after: Vec::new() }
    }
}

impl Dependencies {
    /// The services that must start before this one.
    pub fn start_before_this(&self) -> (ids: Vec<UnitId>)
        ensures
            names(ids@) == self@.after,
            ids@.len() == self.after@.len(),
            forall|i: int|
                0 <= i < self.after@.len() ==> (#[trigger] ids@[i]).name@ == self.after@[i].name@,
    {
        duplicate_names(&self.after)
    }

    /// Puts both lists in order, with each name once.
    pub fn dedup(&mut self)
        ensures
            strictly_sorted(final(self)@.before),
            strictly_sorted(final(self)@.after),
            final(self)@.before.to_set() == old(self)@.before.to_set(),
            final(self)@.after.to_set() == old(self)@.after.to_set(),
    {
        self.before = sorted_names(&self.before);
        self.after = sorted_names(&self.after);
    }

    fn remove_from_vec(ids: &mut Vec<UnitId>, id: &UnitId)
        ensures
            names(final(ids)@) == without(names(old(ids)@), id@),
    {
        remove_name(ids, id.as_text());
    }

    /// Takes a service out of both lists.
    pub fn remove_id(&mut self, id: &UnitId)
        ensures
            final(self)@.before == without(old(self)@.before, id@),
            final(self)@.after == without(old(self)@.after, id@),
    {
        Self::remove_from_vec(&mut self.before, id);
        Self::remove_from_vec(&mut self.after, id);
    }

    /// Whether this service comes after the named one.
    pub fn comes_after(&self, name: &str) -> (listed: bool)
        ensures
            listed == self@.after.contains(name@),
            listed == exists|i: int|
                0 <= i < self.after@.len() && (#[trigger] self.after@[i]).name@ == name@,
    {
        holds_name(&self.after, name)
    }

    /// Whether this service comes before the named one.
    pub fn comes_before(&self, name: &str) -> (listed: bool)
        ensures
            listed == self@.before.contains(name@),
            listed == exists|i: int|
                0 <= i < self.before@.len() && (#[trigger] self.before@[i]).name@ == name@,
    {
        holds_name(&self.before, name)
    }
}

/// Errors from dependency validation.
#[derive(Debug, PartialEq, Eq)]
pub enum SanityCheckError {
    /// Generic error message
    Generic(String),
    /// Cycles detected in the dependency graph
    CirclesFound(Vec<Vec<UnitId>>),
}

/// The names of several groups of units, each name as `Debug` shows it.
pub open spec fn quoted_groups(groups: Seq<Vec<UnitId>>) -> Seq<Seq<Seq<char>>> {
    Seq::new(
        groups.len(),
        |j: int| Seq::new(groups[j]@.len(), |i: int| quoted_text(groups[j]@[i]@)),
    )
}

/// How a unit is shown, given its name as `Debug` shows it.
pub open spec fn unit_text(quoted_name: Seq<char>) -> Seq<char> {
    "UnitId { name: "@ + quoted_name + " }"@
}

/// How a group of units is shown.
pub open spec fn group_text(quoted_names: Seq<Seq<char>>) -> Seq<char> {
    "["@ + joined_text(
        Seq::new(quoted_names.len(), |i: int| unit_text(quoted_names[i])),
        ", "@,
    ) + "]"@
}

/// How several groups of units are shown, one directly behind the other.
pub open spec fn groups_text(groups: Seq<Seq<Seq<char>>>) -> Seq<char>
    decreases groups.len(),
{
    if groups.len() == 0 {
        Seq::empty()
    } else {
        groups_text(groups.drop_last()) + group_text(groups.last())
    }
}

/// The names in a list of lists of texts.
pub open spec fn nested_names(groups: Seq<Vec<String>>) -> Seq<Seq<Seq<char>>> {
    Seq::new(groups.len(), |j: int| names(groups[j]@))
}

fn show_group(quoted_names: &Vec<String>) -> (shown: String)
    ensures
        shown@ == group_text(names(quoted_names@)),
{
    let ghost all = names(quoted_names@);
    let ghost texts = Seq::new(all.len(), |i: int| unit_text(all[i]));
    let mut units: Vec<String> = Vec::new();
    let mut i: usize = 0;
    while i < quoted_names.len()
        invariant
            0 <= i <= quoted_names@.len(),
            all == names(quoted_names@),
            texts == Seq::new(all.len(), |i: int| unit_text(all[i])),
            names(units@) == texts.take(i as int),
        decreases quoted_names@.len() - i,
    {
        let ghost so_far = names(units@);
        let mut unit = "UnitId { name: ".to_owned();
        unit.append(quoted_names[i].as_str());
        unit.append(" }");
        units.push(unit);
        proof {
            assert(names(units@) =~= so_far.push(texts[i as int]));
            assert(texts.take(i + 1) =~= so_far.push(texts[i as int]));
        }
        i += 1;
    }
    let mut shown = "[".to_owned();
    shown.append(join_texts(&units, ", ").as_str());
    shown.append("]");
    proof {
        assert(texts.take(all.len() as int) =~= texts);
    }
    shown
}

/// The message about circles among units, given the units' names as `Debug` shows them.
pub fn show_circles(quoted: &Vec<Vec<String>>) -> (shown: String)
    ensures
        shown@ == "Cycles found: "@ + groups_text(nested_names(quoted@)),
{
    let ghost all = nested_names(quoted@);
    let mut shown = "Cycles found: ".to_owned();
    let mut i: usize = 0;
    proof {
        assert(all.take(0) =~= Seq::<Seq<Seq<char>>>::empty());
        assert(shown@ =~= "Cycles found: "@ + groups_text(all.take(0)));
    }
    while i < quoted.len()
        invariant
            0 <= i <= quoted@.len(),
            all == nested_names(quoted@),
            shown@ == "Cycles found: "@ + groups_text(all.take(i as int)),
        decreases quoted@.len() - i,
    {
        shown.append(show_group(&quoted[i]).as_str());
        proof {
            assert(all.take(i + 1).drop_last() =~= all.take(i as int));
            assert(all.take(i + 1).last() == all[i as int]);
            assert(shown@ =~= "Cycles found: "@ + groups_text(all.take(i + 1)));
        }
        i += 1;
    }
    proof {
        assert(all.take(quoted@.len() as int) =~= all);
    }
    shown
}

fn quote_names(ids: &Vec<UnitId>) -> (texts: Vec<String>)
    ensures
        names(texts@) == Seq::new(ids@.len(), |i: int| quoted_text(ids@[i]@)),
{
    let mut texts: Vec<String> = Vec::new();
    let mut i: usize = 0;
    while i < ids.len()
        invariant
            0 <= i <= ids@.len(),
            texts@.len() == i,
            forall|k: int| 0 <= k < i ==> (#[trigger] texts@[k])@ == quoted_text(ids@[k]@),
        decreases ids@.len() - i,
    {
        texts.push(quoted(ids[i].as_text()));
        i += 1;
    }
    proof {
        assert(names(texts@) =~= Seq::new(ids@.len(), |i: int| quoted_text(ids@[i]@)));
    }
    texts
}

impl SanityCheckError {
    /// What the message says.
    pub open spec fn text(self) -> Seq<char> {
        match self {
            SanityCheckError::Generic(msg) => msg@,
            SanityCheckError::CirclesFound(circles) => "Cycles found: "@ + groups_text(
                quoted_groups(circles@),
            ),
        }
    }

    /// The error as a message.
    pub fn message(&self) -> (message: String)
        ensures
            message@ == self.text(),
            *self matches SanityCheckError::Generic(msg) ==> message@ == msg@,
            *self matches SanityCheckError::CirclesFound(circles) ==> message@ == "Cycles found: "@
                + groups_text(quoted_groups(circles@)),
    {
        match self {
            SanityCheckError::Generic(msg) => msg.clone(),
            SanityCheckError::CirclesFound(circles) => {
                let mut shown: Vec<Vec<String>> = Vec::new();
                let mut i: usize = 0;
                while i < circles.len()
                    invariant
                        0 <= i <= circles@.len(),
                        shown@.len() == i,
                        forall|k: int|
                            0 <= k < i ==> names((#[trigger] shown@[k])@) == quoted_groups(
                                circles@,
                            )[k],
                    decreases circles@.len() - i,
                {
                    shown.push(quote_names(&circles[i]));
                    i += 1;
                }
                proof {
                    assert(nested_names(shown@) =~= quoted_groups(circles@));
                }
                show_circles(&shown)
            },
        }
    }
}

/// Units are the same exactly if they have the same name, and equal a text exactly if that is
/// their name.
pub proof fn law_unit_is_its_name(a: UnitId, b: UnitId, text: &str, name: String)
    ensures
        a@ == a.name@,
        a.eq_spec(&b) <==> a.name@ == b.name@,
        a.eq_spec(text) <==> a.name@ == text@,
        a.eq_spec(&name) <==> a.name@ == name@,
{
}

/// The names in lists of lists stand at their places, and those of groups of units are quoted one
/// for one.
pub proof fn law_names_are_quoted_one_for_one(
    groups: Seq<Vec<UnitId>>,
    shown: Seq<Vec<String>>,
    j: int,
    i: int,
)
    ensures
        nested_names(shown).len() == shown.len(),
        0 <= j < shown.len() ==> nested_names(shown)[j].len() == shown[j]@.len(),
        0 <= j < shown.len() && 0 <= i < shown[j]@.len() ==> nested_names(shown)[j][i]
            == shown[j]@[i]@,
        quoted_groups(groups).len() == groups.len(),
        0 <= j < groups.len() ==> quoted_groups(groups)[j].len() == groups[j]@.len(),
        0 <= j < groups.len() && 0 <= i < groups[j]@.len() ==> quoted_groups(groups)[j][i]
            == quoted_text(groups[j]@[i].name@),
{
}

/// Groups are shown one directly behind the other. A group is shown as its units in brackets,
/// with a comma and a space between each two.
pub proof fn law_groups_are_shown_part_by_part(
    before: Seq<Seq<Seq<char>>>,
    last: Seq<Seq<char>>,
    a: Seq<Seq<char>>,
    b: Seq<Seq<char>>,
    one: Seq<char>,
)
    ensures
        groups_text(Seq::empty()) == Seq::<char>::empty(),
        groups_text(before.push(last)) == groups_text(before) + group_text(last),
        group_text(Seq::empty()) == "[]"@,
        group_text(seq![one]) == "[UnitId { name: "@ + one + " }]"@,
        a.len() > 0 && b.len() > 0 ==> group_text(a + b) == group_text(a).drop_last() + ", "@
            + group_text(b).drop_first(),
{
    reveal_strlit("[");
    reveal_strlit("]");
    reveal_strlit("[]");
    reveal_strlit(", ");
    reveal_strlit("UnitId { name: ");
    reveal_strlit("[UnitId { name: ");
    reveal_strlit(" }");
    reveal_strlit(" }]");
    assert(before.push(last).drop_last() =~= before);
    let none = Seq::<Seq<char>>::empty();
    let single = seq![one];
    let ta = Seq::new(a.len(), |i: int| unit_text(a[i]));
    let tb = Seq::new(b.len(), |i: int| unit_text(b[i]));
    let both = a + b;
    let tab = Seq::new(both.len(), |i: int| unit_text(both[i]));
    law_joined_part_by_part(ta, tb, unit_text(one), ", "@);
    assert(Seq::new(none.len(), |i: int| unit_text(none[i])) =~= none);
    assert(group_text(none) =~= "[]"@);
    assert(Seq::new(single.len(), |i: int| unit_text(single[i])) =~= seq![unit_text(one)]);
    assert(group_text(single) =~= "[UnitId { name: "@ + one + " }]"@);
    assert(tab =~= ta + tb);
    assert(group_text(a).drop_last() =~= "["@ + joined_text(ta, ", "@));
    assert(group_text(b).drop_first() =~= joined_text(tb, ", "@) + "]"@);
    if a.len() > 0 && b.len() > 0 {
        assert(group_text(both) =~= group_text(a).drop_last() + ", "@ + group_text(b).drop_first());
    }
}

} // verus!
