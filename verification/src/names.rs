//! Lists of names.

use crate::text::{law_precedes_asymmetric, law_precedes_total, law_precedes_transitive};
use crate::text::{precedes, same_text, strictly_sorted, text_precedes};
use vstd::prelude::*;

verus! {

/// A value that is known by its name, and by nothing else.
pub trait Name: View<V = Seq<char>> + Sized {
    /// The name as text.
    fn as_text(&self) -> (text: &str)
        ensures
            text@ == self@,
    ;

    /// Another value with the same name.
    fn duplicate(&self) -> (copy: Self)
        ensures
            copy@ == self@,
    ;
}

impl Name for String {
    fn as_text(&self) -> (text: &str) {
        self.as_str()
    }

    fn duplicate(&self) -> (copy: Self) {
        self.clone()
    }
}

/// The names of the values in a list, in the list's order.
pub open spec fn names<K: View<V = Seq<char>>>(list: Seq<K>) -> Seq<Seq<char>> {
    Seq::new(list.len(), |i: int| list[i]@)
}

/// The names of a list are those of its values, one for one.
pub proof fn law_names_one_for_one<K: View<V = Seq<char>>>(list: Seq<K>)
    ensures
        names(list).len() == list.len(),
        forall|i: int| 0 <= i < list.len() ==> #[trigger] names(list)[i] == list[i]@,
{
}

/// Whether a list holds a value of the given name.
pub fn holds_name<K: Name>(list: &Vec<K>, name: &str) -> (held: bool)
    ensures
        held == names(list@).contains(name@),
        held == exists|i: int| 0 <= i < list@.len() && (#[trigger] list@[i])@ == name@,
{
    let mut i: usize = 0;
    while i < list.len()
        invariant
            0 <= i <= list@.len(),
            forall|j: int| 0 <= j < i ==> names(list@)[j] != name@,
        decreases list@.len() - i,
    {
        if same_text(list[i].as_text(), name) {
            proof {
                assert(names(list@)[i as int] == name@);
            }
            return true;
        }
        i += 1;
    }
    proof {
        assert forall|j: int| 0 <= j < list@.len() implies (#[trigger] list@[j])@ != name@ by {
            assert(names(list@)[j] != name@);
        }
    }
    false
}

/// A list with the same names in the same order.
pub fn duplicate_names<K: Name>(list: &Vec<K>) -> (copy: Vec<K>)
    ensures
        names(copy@) == names(list@),
        copy@.len() == list@.len(),
        forall|i: int| 0 <= i < list@.len() ==> (#[trigger] copy@[i])@ == list@[i]@,
{
    let mut copy: Vec<K> = Vec::new();
    let mut i: usize = 0;
    while i < list.len()
        invariant
            0 <= i <= list@.len(),
            names(copy@) == names(list@).take(i as int),
        decreases list@.len() - i,
    {
        let ghost so_far = names(copy@);
        copy.push(list[i].duplicate());
        proof {
            assert(names(copy@) =~= so_far.push(names(list@)[i as int]));
            assert(names(list@).take(i + 1) =~= so_far.push(names(list@)[i as int]));
        }
        i += 1;
    }
    proof {
        assert(names(list@).take(list@.len() as int) =~= names(list@));
        assert(names(copy@).len() == copy@.len());
        assert forall|i: int| 0 <= i < list@.len() implies (#[trigger] copy@[i])@ == list@[i]@ by {
            assert(names(copy@)[i] == names(list@)[i]);
        }
    }
    copy
}

/// A list of names without the given one, the others in order.
pub open spec fn without(list: Seq<Seq<char>>, name: Seq<char>) -> Seq<Seq<char>> {
    list.filter(|n: Seq<char>| n != name)
}

/// Takes every value of the given name out of a list and keeps the others in order.
pub fn remove_name<K: Name>(list: &mut Vec<K>, name: &str)
    ensures
        names(final(list)@) == without(names(old(list)@), name@),
{
    let ghost other = |n: Seq<char>| n != name@;
    let ghost before = names(list@);
    let mut kept: Vec<K> = Vec::new();
    let mut i: usize = 0;
    proof {
        assert(before.take(0) =~= Seq::<Seq<char>>::empty());
        reveal_with_fuel(Seq::filter, 1);
        assert(names(kept@) =~= before.take(0).filter(other));
    }
    while i < list.len()
        invariant
            0 <= i <= list@.len(),
            before == names(list@),
            other == (|n: Seq<char>| n != name@),
            names(kept@) == before.take(i as int).filter(other),
        decreases list@.len() - i,
    {
        proof {
            assert(before.take(i + 1).drop_last() =~= before.take(i as int));
            reveal_with_fuel(Seq::filter, 2);
        }
        let ghost kept_names = names(kept@);
        if !same_text(list[i].as_text(), name) {
            kept.push(list[i].duplicate());
            proof {
                assert(names(kept@) =~= kept_names.push(before[i as int]));
            }
        }
        i += 1;
    }
    proof {
        assert(before.take(list@.len() as int) =~= before);
    }
    *list = kept;
}

/// Two strictly sorted lists of the same names are the same list.
pub proof fn law_sorted_names_unique(s: Seq<Seq<char>>, t: Seq<Seq<char>>)
    requires
        strictly_sorted(s),
        strictly_sorted(t),
        s.to_set() == t.to_set(),
    ensures
        s == t,
    decreases s.len(),
{
    if s.len() == 0 {
        if t.len() > 0 {
            assert(t.to_set().contains(t[0]));
            assert(s.to_set().contains(t[0]));
        }
        assert(s =~= t);
    } else {
        assert(s.to_set().contains(s[0]));
        assert(t.contains(s[0]));
        let i = choose|i: int| 0 <= i < t.len() && t[i] == s[0];
        assert(t.to_set().contains(t[0]));
        assert(s.contains(t[0]));
        let j = choose|j: int| 0 <= j < s.len() && s[j] == t[0];
        if i != 0 {
            assert(precedes(t[0], t[i]));
            law_precedes_asymmetric(t[0], t[i]);
            if j != 0 {
                assert(precedes(s[0], s[j]));
            }
        }
        assert(s[0] == t[0]);
        let s1 = s.drop_first();
        let t1 = t.drop_first();
        lemma_tail_names(s);
        lemma_tail_names(t);
        assert(s1.to_set() =~= t1.to_set());
        law_sorted_names_unique(s1, t1);
        assert(s =~= seq![s[0]] + s1);
        assert(t =~= seq![t[0]] + t1);
    }
}

proof fn lemma_tail_names(s: Seq<Seq<char>>)
    requires
        strictly_sorted(s),
        s.len() > 0,
    ensures
        strictly_sorted(s.drop_first()),
        s.drop_first().to_set() == s.to_set().remove(s[0]),
{
    let tail = s.drop_first();
    assert forall|i: int, j: int| 0 <= i < j < tail.len() implies precedes(
        #[trigger] tail[i],
        #[trigger] tail[j],
    ) by {
        assert(precedes(s[i + 1], s[j + 1]));
    }
    assert forall|n: Seq<char>| tail.to_set().contains(n) <==> s.to_set().remove(s[0]).contains(
        n,
    ) by {
        if tail.contains(n) {
            let i = choose|i: int| 0 <= i < tail.len() && tail[i] == n;
            assert(s[i + 1] == n);
            assert(precedes(s[0], s[i + 1]));
            law_precedes_asymmetric(s[0], n);
        }
        if s.contains(n) && n != s[0] {
            let i = choose|i: int| 0 <= i < s.len() && s[i] == n;
            assert(tail[i - 1] == n);
        }
    }
    assert(tail.to_set() =~= s.to_set().remove(s[0]));
}

/// Puts a value at its place in a strictly sorted list, unless its name is there already.
fn insert_sorted<K: Name>(list: &mut Vec<K>, value: K)
    requires
        strictly_sorted(names(old(list)@)),
    ensures
        strictly_sorted(names(final(list)@)),
        names(final(list)@).to_set() == names(old(list)@).to_set().insert(value@),
{
    let ghost before = names(list@);
    let mut at: usize = 0;
    while at < list.len() && text_precedes(list[at].as_text(), value.as_text())
        invariant
            0 <= at <= list@.len(),
            before == names(list@),
            forall|j: int| 0 <= j < at ==> precedes(#[trigger] before[j], value@),
        decreases list@.len() - at,
    {
        proof {
            assert(before[at as int] == list@[at as int]@);
        }
        at += 1;
    }
    if at < list.len() && same_text(list[at].as_text(), value.as_text()) {
        proof {
            assert(before[at as int] == value@);
            assert(before.to_set().contains(value@));
            assert(before.to_set() =~= before.to_set().insert(value@));
        }
        return;
    }
    let ghost name = value@;
    list.insert(at, value);
    proof {
        let after = names(list@);
        assert(after =~= before.insert(at as int, name));
        assert forall|j: int| at <= j < before.len() implies precedes(name, #[trigger] before[j]) by {
            law_precedes_total(before[at as int], name);
            if j > at {
                assert(precedes(before[at as int], before[j]));
                law_precedes_transitive(name, before[at as int], before[j]);
            }
        }
        assert forall|i: int, j: int| 0 <= i < j < after.len() implies precedes(
            #[trigger] after[i],
            #[trigger] after[j],
        ) by {
            if j < at {
                assert(after[i] == before[i] && after[j] == before[j]);
            } else if j == at {
                assert(after[i] == before[i]);
            } else if i < at {
                assert(after[i] == before[i] && after[j] == before[j - 1]);
            } else if i == at {
                assert(after[j] == before[j - 1]);
            } else {
                assert(after[i] == before[i - 1] && after[j] == before[j - 1]);
            }
        }
        assert forall|n: Seq<char>| after.to_set().contains(n) <==> before.to_set().insert(
            name,
        ).contains(n) by {
            if after.contains(n) {
                let i = choose|i: int| 0 <= i < after.len() && after[i] == n;
                if i < at {
                    assert(before[i] == n);
                } else if i > at {
                    assert(before[i - 1] == n);
                }
            }
            if before.contains(n) {
                let i = choose|i: int| 0 <= i < before.len() && before[i] == n;
                if i < at {
                    assert(after[i] == n);
                } else {
                    assert(after[i + 1] == n);
                }
            }
            assert(after[at as int] == name);
        }
        assert(after.to_set() =~= before.to_set().insert(name));
    }
}

/// The names of a list, each once, in order.
pub fn sorted_names<K: Name>(list: &Vec<K>) -> (sorted: Vec<K>)
    ensures
        strictly_sorted(names(sorted@)),
        names(sorted@).to_set() == names(list@).to_set(),
{
    let mut sorted: Vec<K> = Vec::new();
    let mut i: usize = 0;
    proof {
        assert(names(sorted@).to_set() =~= names(list@).take(0).to_set());
    }
    while i < list.len()
        invariant
            0 <= i <= list@.len(),
            strictly_sorted(names(sorted@)),
            names(sorted@).to_set() == names(list@).take(i as int).to_set(),
        decreases list@.len() - i,
    {
        insert_sorted(&mut sorted, list[i].duplicate());
        proof {
            let all = names(list@);
            assert(all.take(i + 1) =~= all.take(i as int).push(all[i as int]));
            lemma_push_to_set(all.take(i as int), all[i as int]);
        }
        i += 1;
    }
    proof {
        assert(names(list@).take(list@.len() as int) =~= names(list@));
    }
    sorted
}

/// Appending an element adds it to the set of elements.
pub proof fn lemma_push_to_set<A>(s: Seq<A>, a: A)
    ensures
        s.push(a).to_set() == s.to_set().insert(a),
{
    assert forall|x: A| s.push(a).to_set().contains(x) <==> s.to_set().insert(a).contains(x) by {
        if s.push(a).contains(x) {
            let i = choose|i: int| 0 <= i < s.push(a).len() && s.push(a)[i] == x;
            if i < s.len() {
                assert(s[i] == x);
            }
        }
        if s.contains(x) {
            let i = choose|i: int| 0 <= i < s.len() && s[i] == x;
            assert(s.push(a)[i] == x);
        }
        assert(s.push(a)[s.len() as int] == a);
    }
    assert(s.push(a).to_set() =~= s.to_set().insert(a));
}

/// Appending an element that is not in a list keeps the elements of the list different.
pub proof fn lemma_push_distinct<A>(s: Seq<A>, a: A)
    requires
        s.no_duplicates(),
        !s.contains(a),
    ensures
        s.push(a).no_duplicates(),
{
    let more = s.push(a);
    assert forall|i: int, j: int| 0 <= i < more.len() && 0 <= j < more.len() && i != j implies more[i]
        != more[j] by {
        if i < s.len() {
            assert(s.contains(s[i]));
        }
        if j < s.len() {
            assert(s.contains(s[j]));
        }
    }
}

/// Removing a name from a list takes out that name and no other.
pub proof fn law_removed_name_is_gone(list: Seq<Seq<char>>, name: Seq<char>, x: Seq<char>)
    ensures
        without(list, name).contains(x) <==> list.contains(x) && x != name,
    decreases list.len(),
{
    reveal(Seq::filter);
    if list.len() > 0 {
        let init = list.drop_last();
        assert(list =~= init.push(list.last()));
        law_removed_name_is_gone(init, name, x);
        lemma_push_contains(init, list.last(), x);
        lemma_push_contains(without(init, name), list.last(), x);
    }
}

/// A name can be removed part by part: what is left of two lists, one behind the other, is what
/// is left of each. Of a list of one name the whole is left, or nothing if it is that name.
pub proof fn law_removal_part_by_part(
    a: Seq<Seq<char>>,
    b: Seq<Seq<char>>,
    one: Seq<char>,
    name: Seq<char>,
)
    ensures
        without(a + b, name) == without(a, name) + without(b, name),
        one == name ==> without(seq![one], name).len() == 0,
        one != name ==> without(seq![one], name) == seq![one],
    decreases b.len(),
{
    reveal(Seq::filter);
    let single = seq![one];
    assert(single.drop_last() =~= Seq::<Seq<char>>::empty());
    assert(without(single.drop_last(), name) =~= Seq::<Seq<char>>::empty());
    assert(one != name ==> without(single, name) =~= seq![one]);
    if b.len() == 0 {
        assert(a + b =~= a);
        assert(without(a + b, name) =~= without(a, name) + without(b, name));
    } else {
        assert((a + b).drop_last() =~= a + b.drop_last());
        law_removal_part_by_part(a, b.drop_last(), one, name);
        assert(without(a + b, name) =~= without(a, name) + without(b, name));
    }
}

/// What is left of a list without repetitions when one name is filtered out.
pub proof fn lemma_filter_other(s: Seq<Seq<char>>, name: Seq<char>)
    requires
        s.no_duplicates(),
    ensures
        without(s, name).no_duplicates(),
        forall|x: Seq<char>|
            without(s, name).contains(x) <==> s.contains(x) && x != name,
        s.contains(name) ==> without(s, name).len() == s.len() - 1,
        !s.contains(name) ==> without(s, name) == s,
    decreases s.len(),
{
    reveal(Seq::filter);
    let rest = without(s, name);
    if s.len() > 0 {
        let init = s.drop_last();
        assert(s =~= init.push(s.last()));
        lemma_filter_other(init, name);
        let part = without(init, name);
        assert(!init.contains(s.last()));
        assert forall|x: Seq<char>| rest.contains(x) <==> s.contains(x) && x != name by {
            lemma_push_contains(init, s.last(), x);
            lemma_push_contains(part, s.last(), x);
        }
        assert(!part.contains(s.last()));
        lemma_push_contains(init, s.last(), name);
        if s.last() != name {
            assert(rest == part.push(s.last()));
            lemma_push_distinct(part, s.last());
        }
        if !s.contains(name) {
            assert(rest =~= s);
        }
    } else {
        assert(rest =~= s);
    }
}

proof fn lemma_push_contains(s: Seq<Seq<char>>, a: Seq<char>, x: Seq<char>)
    ensures
        s.push(a).contains(x) <==> s.contains(x) || x == a,
{
    lemma_push_to_set(s, a);
    assert(s.push(a).to_set().contains(x) <==> s.push(a).contains(x));
    assert(s.to_set().contains(x) <==> s.contains(x));
}

/// A list without repetitions is no longer than a list that holds all its names.
pub proof fn lemma_distinct_fits(s: Seq<Seq<char>>, t: Seq<Seq<char>>)
    requires
        s.no_duplicates(),
        forall|i: int| 0 <= i < s.len() ==> t.contains(#[trigger] s[i]),
    ensures
        s.len() <= t.len(),
{
    s.unique_seq_to_set();
    t.lemma_cardinality_of_set();
    assert(s.to_set().subset_of(t.to_set()));
    vstd::seq_lib::seq_to_set_is_finite(t);
    vstd::set_lib::lemma_len_subset(s.to_set(), t.to_set());
}

} // verus!
