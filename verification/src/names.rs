//! Lists of names, and a number for each of some names.

use vstd::prelude::*;

use crate::text::{same_text, views};

verus! {

/// The names of a list that another list holds, in their order.
pub open spec fn kept(list: Seq<Seq<char>>, other: Seq<Seq<char>>) -> Seq<Seq<char>>
    decreases list.len(),
{
    if list.len() == 0 {
        Seq::empty()
    } else if other.contains(list.last()) {
        kept(list.drop_last(), other).push(list.last())
    } else {
        kept(list.drop_last(), other)
    }
}

/// The names of a list that another list does not hold, in their order.
pub open spec fn missing(list: Seq<Seq<char>>, other: Seq<Seq<char>>) -> Seq<Seq<char>>
    decreases list.len(),
{
    if list.len() == 0 {
        Seq::empty()
    } else if other.contains(list.last()) {
        missing(list.drop_last(), other)
    } else {
        missing(list.drop_last(), other).push(list.last())
    }
}

/// Every name that is kept stood in the list and stands in the other, and the other way round.
pub proof fn kept_are_in_both(list: Seq<Seq<char>>, other: Seq<Seq<char>>, name: Seq<char>)
    ensures
        kept(list, other).contains(name) == (list.contains(name) && other.contains(name)),
        missing(list, other).contains(name) == (list.contains(name) && !other.contains(name)),
    decreases list.len(),
{
    if list.len() > 0 {
        let front = list.drop_last();
        kept_are_in_both(front, other, name);
        push_contains(kept(front, other), list.last(), name);
        push_contains(missing(front, other), list.last(), name);
        push_contains(front, list.last(), name);
        assert(front.push(list.last()) =~= list);
    }
}

/// A list with one more that it did not hold, of a list that holds nothing twice, holds nothing
/// twice.
pub proof fn one_more(list: Seq<Seq<char>>, last: Seq<char>)
    requires
        list.no_duplicates(),
        !list.contains(last),
    ensures
        list.push(last).no_duplicates(),
{
    assert forall|i: int| 0 <= i < list.len() implies list[i] != last by {
        assert(list.contains(list[i]));
    }
}

/// What is kept or missing of a list that holds nothing twice holds nothing twice.
pub proof fn parted_once(list: Seq<Seq<char>>, other: Seq<Seq<char>>)
    requires
        list.no_duplicates(),
    ensures
        kept(list, other).no_duplicates(),
        missing(list, other).no_duplicates(),
    decreases list.len(),
{
    if list.len() > 0 {
        let front = list.drop_last();
        last_is_new(list);
        parted_once(front, other);
        kept_are_in_both(front, other, list.last());
        if other.contains(list.last()) {
            one_more(kept(front, other), list.last());
        } else {
            one_more(missing(front, other), list.last());
        }
    }
}

proof fn last_is_new(list: Seq<Seq<char>>)
    requires
        list.len() > 0,
        list.no_duplicates(),
    ensures
        list.drop_last().no_duplicates(),
        !list.drop_last().contains(list.last()),
{
    let front = list.drop_last();
    if front.contains(list.last()) {
        let i = choose|i: int| 0 <= i < front.len() && front[i] == list.last();
        assert(list[i] == list[list.len() - 1]);
    }
}

/// A list that holds nothing twice holds nothing twice without one of its names.
pub proof fn without_once(list: Seq<Seq<char>>, gone: Seq<char>)
    requires
        list.no_duplicates(),
    ensures
        without(list, gone).no_duplicates(),
    decreases list.len(),
{
    if list.len() > 0 {
        let front = list.drop_last();
        last_is_new(list);
        without_once(front, gone);
        without_holds_the_others(front, gone, list.last());
        if list.last() != gone {
            one_more(without(front, gone), list.last());
        }
    }
}

/// What a list holds after one more.
pub proof fn push_contains(list: Seq<Seq<char>>, last: Seq<char>, name: Seq<char>)
    ensures
        list.push(last).contains(name) == (list.contains(name) || last == name),
{
    if list.contains(name) {
        let i = choose|i: int| 0 <= i < list.len() && list[i] == name;
        assert(list.push(last)[i] == name);
    }
    if last == name {
        assert(list.push(last)[list.len() as int] == name);
    }
    if list.push(last).contains(name) {
        let i = choose|i: int| 0 <= i < list.len() + 1 && list.push(last)[i] == name;
        if i < list.len() {
            assert(list[i] == name);
        }
    }
}

/// Whether a list holds a name.
pub fn holds(list: &Vec<String>, name: &str) -> (r: bool)
    ensures
        r == views(list@).contains(name@),
{
    let ghost all = views(list@);
    let mut i: usize = 0;
    while i < list.len()
        invariant
            i <= list@.len(),
            all == views(list@),
            forall|j: int| 0 <= j < i ==> #[trigger] all[j] != name@,
        decreases list@.len() - i,
    {
        assert(all[i as int] == list@[i as int]@);
        if same_text(list[i].as_str(), name) {
            return true;
        }
        i += 1;
    }
    false
}

/// Parts a list into the names another list holds and those it does not.
pub fn part(list: &Vec<String>, other: &Vec<String>) -> (r: (Vec<String>, Vec<String>))
    ensures
        views(r.0@) == kept(views(list@), views(other@)),
        views(r.1@) == missing(views(list@), views(other@)),
{
    let ghost all = views(list@);
    let mut there: Vec<String> = Vec::new();
    let mut gone: Vec<String> = Vec::new();
    let mut i: usize = 0;
    assert(views(there@) =~= kept(all.take(0), views(other@)));
    assert(views(gone@) =~= missing(all.take(0), views(other@)));
    while i < list.len()
        invariant
            i <= list@.len(),
            all == views(list@),
            views(there@) == kept(all.take(i as int), views(other@)),
            views(gone@) == missing(all.take(i as int), views(other@)),
        decreases list@.len() - i,
    {
        assert(all[i as int] == list@[i as int]@);
        assert(all.take(i + 1).drop_last() =~= all.take(i as int));
        let ghost a = views(there@);
        let ghost b = views(gone@);
        if holds(other, list[i].as_str()) {
            there.push(list[i].clone());
            assert(views(there@) =~= a.push(all[i as int]));
        } else {
            gone.push(list[i].clone());
            assert(views(gone@) =~= b.push(all[i as int]));
        }
        i += 1;
    }
    assert(all.take(i as int) =~= all);
    (there, gone)
}

/// A list without a name.
pub open spec fn without(list: Seq<Seq<char>>, name: Seq<char>) -> Seq<Seq<char>>
    decreases list.len(),
{
    if list.len() == 0 {
        Seq::empty()
    } else if list.last() == name {
        without(list.drop_last(), name)
    } else {
        without(list.drop_last(), name).push(list.last())
    }
}

/// A list without a name holds all its other names, and not that one.
pub proof fn without_holds_the_others(list: Seq<Seq<char>>, gone: Seq<char>, name: Seq<char>)
    ensures
        without(list, gone).contains(name) == (list.contains(name) && name != gone),
    decreases list.len(),
{
    if list.len() > 0 {
        let front = list.drop_last();
        without_holds_the_others(front, gone, name);
        push_contains(without(front, gone), list.last(), name);
        push_contains(front, list.last(), name);
        assert(front.push(list.last()) =~= list);
    }
}

/// Takes a name off a list.
pub fn remove(list: &mut Vec<String>, name: &str)
    ensures
        views(final(list)@) == without(views(old(list)@), name@),
{
    let ghost all = views(list@);
    let mut rest: Vec<String> = Vec::new();
    let mut i: usize = 0;
    assert(views(rest@) =~= without(all.take(0), name@));
    while i < list.len()
        invariant
            i <= list@.len(),
            all == views(list@),
            all == views(old(list)@),
            views(rest@) == without(all.take(i as int), name@),
        decreases list@.len() - i,
    {
        assert(all[i as int] == list@[i as int]@);
        assert(all.take(i + 1).drop_last() =~= all.take(i as int));
        let ghost a = views(rest@);
        if !same_text(list[i].as_str(), name) {
            rest.push(list[i].clone());
            assert(views(rest@) =~= a.push(all[i as int]));
        }
        i += 1;
    }
    assert(all.take(i as int) =~= all);
    *list = rest;
}

/// A number for each of some names.
pub struct Tally {
    pub entries: Vec<(String, u64)>,
}

/// The number of a name.
pub open spec fn count(entries: Seq<(String, u64)>, name: Seq<char>) -> Option<u64>
    decreases entries.len(),
{
    if entries.len() == 0 {
        None
    } else if entries.last().0@ == name {
        Some(entries.last().1)
    } else {
        count(entries.drop_last(), name)
    }
}

impl Tally {
    /// The number of a name, if it has one.
    pub open spec fn of(&self, name: Seq<char>) -> Option<u64> {
        count(self.entries@, name)
    }

    pub fn new() -> (r: Self)
        ensures
            forall|n: Seq<char>| (#[trigger] r.of(n)) is None,
    {
        Tally { entries: Vec::new() }
    }

    /// The number of a name, if it has one.
    pub fn get(&self, name: &str) -> (r: Option<u64>)
        ensures
            r == self.of(name@),
    {
        let mut i: usize = self.entries.len();
        assert(self.entries@.take(i as int) =~= self.entries@);
        while i > 0
            invariant
                i <= self.entries@.len(),
                self.of(name@) == count(self.entries@.take(i as int), name@),
            decreases i,
        {
            assert(self.entries@.take(i as int).drop_last() =~= self.entries@.take(i - 1));
            if same_text(self.entries[i - 1].0.as_str(), name) {
                return Some(self.entries[i - 1].1);
            }
            i -= 1;
        }
        None
    }

    /// Forgets a name.
    pub fn remove(&mut self, name: &str)
        ensures
            forall|n: Seq<char>| #[trigger] final(self).of(n) == (if n == name@ { None } else { old(self).of(n) }),
    {
        let ghost all = self.entries@;
        let mut kept: Vec<(String, u64)> = Vec::new();
        let mut i: usize = 0;
        assert(all.take(0) =~= kept@);
        while i < self.entries.len()
            invariant
                i <= self.entries@.len(),
                self.entries@ == all,
                all == old(self).entries@,
                forall|n: Seq<char>| #[trigger] count(kept@, n)
                    == (if n == name@ { None } else { count(all.take(i as int), n) }),
            decreases self.entries@.len() - i,
        {
            let ghost before = kept@;
            assert(all.take(i + 1).drop_last() =~= all.take(i as int));
            if !same_text(self.entries[i].0.as_str(), name) {
                kept.push((self.entries[i].0.clone(), self.entries[i].1));
                assert(kept@.drop_last() =~= before);
            }
            assert forall|n: Seq<char>| #[trigger] count(kept@, n)
                == (if n == name@ { None } else { count(all.take(i + 1), n) }) by {
                assert(count(before, n) == (if n == name@ { None } else { count(all.take(i as int), n) }));
            }
            i += 1;
        }
        assert(all.take(i as int) =~= all);
        self.entries = kept;
        assert forall|n: Seq<char>| #[trigger] self.of(n) == (if n == name@ { None } else { old(self).of(n) }) by {
            assert(count(kept@, n) == (if n == name@ { None } else { count(all, n) }));
        }
    }

    /// Gives a name a number.
    pub fn insert(&mut self, name: &str, value: u64)
        ensures
            forall|n: Seq<char>| #[trigger] final(self).of(n) == (if n == name@ { Some(value) } else { old(self).of(n) }),
    {
        let ghost was = *self;
        self.remove(name);
        let ghost mid = *self;
        self.entries.push((name.to_owned(), value));
        assert(self.entries@.drop_last() =~= mid.entries@);
        assert forall|n: Seq<char>| #[trigger] self.of(n) == (if n == name@ { Some(value) } else { was.of(n) }) by {
            assert(mid.of(n) == (if n == name@ { None } else { was.of(n) }));
        }
    }

    /// Forgets every name that is not on a list.
    pub fn retain(&mut self, list: &Vec<String>)
        ensures
            forall|n: Seq<char>| #[trigger] final(self).of(n)
                == (if views(list@).contains(n) { old(self).of(n) } else { None }),
    {
        let ghost all = self.entries@;
        let mut kept: Vec<(String, u64)> = Vec::new();
        let mut i: usize = 0;
        assert(all.take(0) =~= kept@);
        while i < self.entries.len()
            invariant
                i <= self.entries@.len(),
                self.entries@ == all,
                all == old(self).entries@,
                forall|n: Seq<char>| #[trigger] count(kept@, n)
                    == (if views(list@).contains(n) { count(all.take(i as int), n) } else { None }),
            decreases self.entries@.len() - i,
        {
            let ghost before = kept@;
            assert(all.take(i + 1).drop_last() =~= all.take(i as int));
            if holds(list, self.entries[i].0.as_str()) {
                kept.push((self.entries[i].0.clone(), self.entries[i].1));
                assert(kept@.drop_last() =~= before);
            }
            assert forall|n: Seq<char>| #[trigger] count(kept@, n)
                == (if views(list@).contains(n) { count(all.take(i + 1), n) } else { None }) by {
                assert(count(before, n) == (if views(list@).contains(n) { count(all.take(i as int), n) } else { None }));
            }
            i += 1;
        }
        assert(all.take(i as int) =~= all);
        self.entries = kept;
        assert forall|n: Seq<char>| #[trigger] self.of(n)
            == (if views(list@).contains(n) { old(self).of(n) } else { None }) by {
            assert(count(kept@, n) == (if views(list@).contains(n) { count(all, n) } else { None }));
        }
    }
}

/// A list is parted name by name, and each part keeps the order.
pub proof fn parts_keep_their_order(list: Seq<Seq<char>>, other: Seq<Seq<char>>, gone: Seq<char>)
    ensures
        kept(list, other) == list.filter(|n: Seq<char>| other.contains(n)),
        missing(list, other) == list.filter(|n: Seq<char>| !other.contains(n)),
        without(list, gone) == list.filter(|n: Seq<char>| n != gone),
    decreases list.len(),
{
    reveal(Seq::filter);
    if list.len() > 0 {
        parts_keep_their_order(list.drop_last(), other, gone);
    } else {
        assert(kept(list, other) =~= list.filter(|n: Seq<char>| other.contains(n)));
        assert(missing(list, other) =~= list.filter(|n: Seq<char>| !other.contains(n)));
        assert(without(list, gone) =~= list.filter(|n: Seq<char>| n != gone));
    }
}

/// A name has the number that was entered for it last.
pub proof fn the_last_number_counts(front: Seq<(String, u64)>, e: (String, u64), back: Seq<(String, u64)>, name: Seq<char>)
    requires
        forall|k: int| 0 <= k < back.len() ==> (#[trigger] back[k]).0@ != name,
    ensures
        e.0@ == name ==> count(front + seq![e] + back, name) == Some(e.1),
        e.0@ != name ==> count(front + seq![e] + back, name) == count(front, name),
        count(Seq::empty(), name) is None,
    decreases back.len(),
{
    let s = front + seq![e] + back;
    if back.len() == 0 {
        assert(s.last() == e);
        assert(s.drop_last() =~= front);
    } else {
        assert(s.last() == back[back.len() - 1]);
        assert(s.drop_last() =~= front + seq![e] + back.drop_last());
        assert forall|k: int| 0 <= k < back.drop_last().len() implies (#[trigger] back.drop_last()[k]).0@ != name by {
            assert(back.drop_last()[k] == back[k]);
        }
        the_last_number_counts(front, e, back.drop_last(), name);
    }
}

} // verus!
