//! A table keyed by names and kept in alphabetical order.

use vstd::prelude::*;

use crate::text::{
    before, before_irreflexive, before_total, before_transitive, comes_before, same_text,
};

verus! {

/// Whether the names of `entries` are in strictly ascending order, so that none occurs twice.
pub open spec fn ascending<V>(entries: Seq<(Seq<char>, V)>) -> bool {
    forall|i: int, j: int|
        #![trigger entries[i], entries[j]]
        0 <= i < j < entries.len() ==> before(entries[i].0, entries[j].0)
}

/// The position of `name` in `entries`.
pub open spec fn position<V>(entries: Seq<(Seq<char>, V)>, name: Seq<char>) -> int {
    choose|i: int| 0 <= i < entries.len() && #[trigger] entries[i].0 == name
}

pub open spec fn holds<V>(entries: Seq<(Seq<char>, V)>, name: Seq<char>) -> bool {
    exists|i: int| 0 <= i < entries.len() && #[trigger] entries[i].0 == name
}

/// What the entries assign to each name.
pub open spec fn assignments<V>(entries: Seq<(Seq<char>, V)>) -> Map<Seq<char>, V> {
    Map::new(
        |name: Seq<char>| holds(entries, name),
        |name: Seq<char>| entries[position(entries, name)].1,
    )
}

/// A name occurs at one place only in ascending entries.
pub proof fn ascending_unique<V>(entries: Seq<(Seq<char>, V)>, i: int, j: int)
    requires
        ascending(entries),
        0 <= i < entries.len(),
        0 <= j < entries.len(),
        entries[i].0 == entries[j].0,
    ensures
        i == j,
{
    before_irreflexive(entries[i].0);
}

/// What ascending entries assign to the name of the entry at `i` is that entry's value.
pub proof fn assigned_at<V>(entries: Seq<(Seq<char>, V)>, i: int)
    requires
        ascending(entries),
        0 <= i < entries.len(),
    ensures
        assignments(entries).dom().contains(entries[i].0),
        assignments(entries)[entries[i].0] == entries[i].1,
{
    assert(holds(entries, entries[i].0));
    ascending_unique(entries, i, position(entries, entries[i].0));
}

/// `entries` with `value` assigned to `name`, at the place that belongs to the name.
pub open spec fn put<V>(entries: Seq<(Seq<char>, V)>, name: Seq<char>, value: V) -> Seq<
    (Seq<char>, V),
>
    decreases entries.len(),
{
    if entries.len() == 0 {
        seq![(name, value)]
    } else if before(entries[0].0, name) {
        seq![entries[0]] + put(entries.skip(1), name, value)
    } else if entries[0].0 == name {
        seq![(name, value)] + entries.skip(1)
    } else {
        seq![(name, value)] + entries
    }
}

/// The place that belongs to a name is the first whose name does not come before it.
proof fn put_at<V>(entries: Seq<(Seq<char>, V)>, i: int, name: Seq<char>, value: V)
    requires
        0 <= i <= entries.len(),
        forall|k: int| 0 <= k < i ==> before((#[trigger] entries[k]).0, name),
        i < entries.len() ==> !before(entries[i].0, name),
    ensures
        put(entries, name, value) == if i < entries.len() && entries[i].0 == name {
            entries.update(i, (name, value))
        } else {
            entries.insert(i, (name, value))
        },
    decreases entries.len(),
{
    if i > 0 {
        let rest = entries.skip(1);
        assert(before(entries[0].0, name));
        assert forall|k: int| 0 <= k < i - 1 implies before((#[trigger] rest[k]).0, name) by {
            assert(rest[k] == entries[k + 1]);
        }
        put_at(rest, i - 1, name, value);
        assert(entries == seq![entries[0]] + rest);
    } else if entries.len() > 0 {
        assert(entries == seq![entries[0]] + entries.skip(1));
    }
}

/// Putting a name in its place keeps the order and assigns the value to the name.
pub proof fn put_assigns<V>(entries: Seq<(Seq<char>, V)>, name: Seq<char>, value: V)
    requires
        ascending(entries),
    ensures
        ascending(put(entries, name, value)),
        assignments(put(entries, name, value)) == assignments(entries).insert(name, value),
{
    let i = place(entries, name, 0);
    place_bounds(entries, name, 0);
    put_at(entries, i, name, value);
    if i < entries.len() && entries[i].0 == name {
        replaced(entries, i, name, value);
    } else {
        inserted(entries, i, name, value);
    }
}

/// The first place, from `i` on, whose name does not come before `name`.
spec fn place<V>(entries: Seq<(Seq<char>, V)>, name: Seq<char>, i: int) -> int
    decreases entries.len() - i,
{
    if 0 <= i < entries.len() && before(entries[i].0, name) {
        place(entries, name, i + 1)
    } else {
        i
    }
}

proof fn place_bounds<V>(entries: Seq<(Seq<char>, V)>, name: Seq<char>, i: int)
    requires
        0 <= i <= entries.len(),
        forall|k: int| 0 <= k < i ==> before((#[trigger] entries[k]).0, name),
    ensures
        i <= place(entries, name, i) <= entries.len(),
        forall|k: int|
            0 <= k < place(entries, name, i) ==> before((#[trigger] entries[k]).0, name),
        place(entries, name, i) < entries.len() ==> !before(
            entries[place(entries, name, i)].0,
            name,
        ),
    decreases entries.len() - i,
{
    if i < entries.len() && before(entries[i].0, name) {
        place_bounds(entries, name, i + 1);
    }
}

/// Names with a value each, in alphabetical order.
#[derive(Debug)]
pub struct NameTable<V> {
    entries: Vec<(String, V)>,
}

impl<V> NameTable<V> {
    /// The entries in order.
    pub closed spec fn entries(self) -> Seq<(Seq<char>, V)> {
        self.entries@.map_values(|entry: (String, V)| (entry.0@, entry.1))
    }

    /// The names are in ascending order.
    #[verifier::type_invariant]
    pub open spec fn wf(self) -> bool {
        ascending(self.entries())
    }

    /// A table without names.
    pub fn new() -> (table: Self)
        ensures
            table.entries() == Seq::<(Seq<char>, V)>::empty(),
            table@ == Map::<Seq<char>, V>::empty(),
    {
        let table = NameTable { entries: Vec::new() };
        assert(table@ == Map::<Seq<char>, V>::empty());
        table
    }

    pub fn len(&self) -> (n: usize)
        ensures
            n == self.entries().len(),
    {
        self.entries.len()
    }

    pub fn is_empty(&self) -> (r: bool)
        ensures
            r == (self.entries().len() == 0),
    {
        self.entries.len() == 0
    }

    /// The name at position `i` of the alphabetical order.
    pub fn name_at(&self, i: usize) -> (name: &str)
        requires
            i < self.entries().len(),
        ensures
            name@ == self.entries()[i as int].0,
    {
        self.entries[i].0.as_str()
    }

    /// The value at position `i` of the alphabetical order.
    pub fn value_at(&self, i: usize) -> (value: &V)
        requires
            i < self.entries().len(),
        ensures
            *value == self.entries()[i as int].1,
    {
        &self.entries[i].1
    }

    /// The value of `name`.
    pub fn get(&self, name: &str) -> (r: Option<&V>)
        ensures
            match r {
                Some(value) => self@.dom().contains(name@) && *value == self@[name@],
                None => !self@.dom().contains(name@),
            },
    {
        proof {
            use_type_invariant(self);
        }
        let mut i: usize = 0;
        while i < self.entries.len()
            invariant
                i <= self.entries().len() == self.entries@.len(),
                self.wf(),
                forall|k: int| 0 <= k < i ==> (#[trigger] self.entries()[k]).0 != name@,
            decreases self.entries().len() - i,
        {
            if same_text(self.entries[i].0.as_str(), name) {
                proof {
                    assigned_at(self.entries(), i as int);
                }
                return Some(&self.entries[i].1);
            }
            i = i + 1;
        }
        None
    }

    pub fn contains_key(&self, name: &str) -> (r: bool)
        ensures
            r == self@.dom().contains(name@),
    {
        match self.get(name) {
            Some(_) => true,
            None => false,
        }
    }

    /// Adds `name` behind all the others, which come before it.
    pub fn append(&mut self, name: String, value: V)
        requires
            forall|i: int|
                0 <= i < old(self).entries().len() ==> before(
                    (#[trigger] old(self).entries()[i]).0,
                    name@,
                ),
        ensures
            final(self).entries() == old(self).entries().push((name@, value)),
    {
        proof {
            use_type_invariant(&*self);
        }
        let ghost was = self.entries();
        let ghost key = name@;
        let ghost view = |entry: (String, V)| (entry.0@, entry.1);
        let mut entries: Vec<(String, V)> = Vec::new();
        std::mem::swap(&mut entries, &mut self.entries);
        entries.push((name, value));
        assert(entries@.map_values(view) == was.push((key, value)));
        *self = NameTable { entries };
    }

    /// Assigns `value` to `name`, in place of what was assigned before.
    pub fn insert(&mut self, name: String, value: V)
        ensures
            final(self).entries() == put(old(self).entries(), name@, value),
            final(self)@ == old(self)@.insert(name@, value),
    {
        proof {
            use_type_invariant(&*self);
        }
        let ghost was = self.entries();
        let mut i: usize = 0;
        while i < self.entries.len() && comes_before(self.entries[i].0.as_str(), name.as_str())
            invariant
                *self == *old(self),
                was == self.entries(),
                i <= was.len() == self.entries@.len(),
                self.wf(),
                forall|k: int| 0 <= k < i ==> before((#[trigger] was[k]).0, name@),
            decreases was.len() - i,
        {
            i = i + 1;
        }
        let ghost key = name@;
        let ghost view = |entry: (String, V)| (entry.0@, entry.1);
        let found = i < self.entries.len() && same_text(
            self.entries[i].0.as_str(),
            name.as_str(),
        );
        let mut entries: Vec<(String, V)> = Vec::new();
        std::mem::swap(&mut entries, &mut self.entries);
        proof {
            put_at(was, i as int, key, value);
            put_assigns(was, key, value);
        }
        if found {
            entries.set(i, (name, value));
            assert(entries@.map_values(view) == was.update(i as int, (key, value)));
        } else {
            entries.insert(i, (name, value));
            assert(entries@.map_values(view) == was.insert(i as int, (key, value)));
        }
        *self = NameTable { entries };
    }

    /// The entries in order.
    pub fn into_entries(self) -> (entries: Vec<(String, V)>)
        ensures
            entries@.map_values(|entry: (String, V)| (entry.0@, entry.1)) == self.entries(),
            ascending(self.entries()),
    {
        proof {
            use_type_invariant(&self);
        }
        self.entries
    }
}

/// Replacing the value of a name keeps the order and changes what is assigned to that name alone.
pub proof fn replaced<V>(entries: Seq<(Seq<char>, V)>, i: int, name: Seq<char>, value: V)
    requires
        ascending(entries),
        0 <= i < entries.len(),
        entries[i].0 == name,
    ensures
        ascending(entries.update(i, (name, value))),
        assignments(entries.update(i, (name, value))) == assignments(entries).insert(name, value),
{
    let now = entries.update(i, (name, value));
    assert forall|other: Seq<char>| #[trigger] holds(now, other) == holds(entries, other) by {
        if holds(entries, other) {
            assert(now[position(entries, other)].0 == other);
        }
        if holds(now, other) {
            assert(entries[position(now, other)].0 == other);
        }
    }
    assigned_at(now, i);
    assert forall|other: Seq<char>| other != name && holds(entries, other) implies #[trigger] assignments(
        now,
    )[other] == assignments(entries)[other] by {
        let k = position(entries, other);
        assert(now[k] == entries[k]);
        assert(holds(now, other));
        ascending_unique(now, k, position(now, other));
    }
    assert(holds(entries, name));
    assert(assignments(now) == assignments(entries).insert(name, value));
}

/// Inserting a name where it belongs keeps the order and assigns the value to the name.
proof fn inserted<V>(entries: Seq<(Seq<char>, V)>, i: int, name: Seq<char>, value: V)
    requires
        ascending(entries),
        0 <= i <= entries.len(),
        forall|k: int| 0 <= k < i ==> before((#[trigger] entries[k]).0, name),
        i < entries.len() ==> !before(entries[i].0, name) && entries[i].0 != name,
    ensures
        ascending(entries.insert(i, (name, value))),
        assignments(entries.insert(i, (name, value))) == assignments(entries).insert(name, value),
{
    let now = entries.insert(i, (name, value));
    assert forall|k: int| i <= k < entries.len() implies before(name, (#[trigger] entries[k]).0) by {
        before_total(entries[i].0, name);
        if i < k {
            before_transitive(name, entries[i].0, entries[k].0);
        }
    }
    assert forall|a: int, b: int|
        #![trigger now[a], now[b]]
        0 <= a < b < now.len() implies before(now[a].0, now[b].0) by {
        if a < i && b < i {
            assert(now[a] == entries[a] && now[b] == entries[b]);
        } else if a < i && b > i {
            assert(now[a] == entries[a] && now[b] == entries[b - 1]);
        } else if a == i {
            assert(now[b] == entries[b - 1]);
        } else if b == i {
            assert(now[a] == entries[a]);
        } else {
            assert(now[a] == entries[a - 1] && now[b] == entries[b - 1]);
        }
    }
    assert forall|other: Seq<char>| other != name implies #[trigger] holds(now, other) == holds(
        entries,
        other,
    ) by {
        if holds(entries, other) {
            let k = position(entries, other);
            assert(now[if k < i { k } else { k + 1 }].0 == other);
        }
        if holds(now, other) {
            let k = position(now, other);
            assert(entries[if k < i { k } else { k - 1 }].0 == other);
        }
    }
    assert(now[i] == (name, value));
    assigned_at(now, i);
    assert forall|other: Seq<char>| other != name && holds(entries, other) implies #[trigger] assignments(
        now,
    )[other] == assignments(entries)[other] by {
        let k = position(entries, other);
        let m = if k < i { k } else { k + 1 };
        assert(now[m] == entries[k]);
        assert(holds(now, other));
        ascending_unique(now, m, position(now, other));
    }
    assert(assignments(now) == assignments(entries).insert(name, value));
}

impl<V> View for NameTable<V> {
    type V = Map<Seq<char>, V>;

    open spec fn view(&self) -> Map<Seq<char>, V> {
        assignments(self.entries())
    }
}

/// Names are matched exactly: a value is assigned to a name exactly when one of the entries has that
/// very name, and it is then the value of that entry.
pub proof fn names_are_matched_exactly<V>(entries: Seq<(Seq<char>, V)>, name: Seq<char>)
    requires
        ascending(entries),
    ensures
        assignments(entries).dom().contains(name) <==> exists|i: int|
            0 <= i < entries.len() && #[trigger] entries[i].0 == name,
        forall|i: int|
            0 <= i < entries.len() && #[trigger] entries[i].0 == name ==> assignments(entries)[name]
                == entries[i].1,
{
    assert forall|i: int| 0 <= i < entries.len() && #[trigger] entries[i].0 == name implies assignments(
        entries,
    )[name] == entries[i].1 by {
        assigned_at(entries, i);
    }
}

} // verus!
