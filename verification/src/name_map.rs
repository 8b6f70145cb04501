//! An insertion-ordered map keyed by names, and the association lists
//! that model it.

use vstd::prelude::*;

verus! {

/// A name, as the sequence of its characters.
pub type Name = Seq<char>;

/// Whether no name occurs twice among the keys of `entries`.
pub open spec fn distinct<T>(entries: Seq<(Name, T)>) -> bool {
    forall|i: int, j: int|
        0 <= i < j < entries.len() ==> (#[trigger] entries[i]).0 != (#[trigger] entries[j]).0
}

/// The keys of `entries`, in order.
pub open spec fn names<T>(entries: Seq<(Name, T)>) -> Seq<Name> {
    Seq::new(entries.len(), |i: int| entries[i].0)
}

/// Whether `name` is a key of `entries`.
pub open spec fn has_key<T>(entries: Seq<(Name, T)>, name: Name) -> bool {
    exists|i: int| 0 <= i < entries.len() && (#[trigger] entries[i]).0 == name
}

/// The first position at which `name` is a key of `entries`.
pub open spec fn index_of<T>(entries: Seq<(Name, T)>, name: Name) -> Option<int>
    decreases entries.len(),
{
    if entries.len() == 0 {
        None
    } else {
        match index_of(entries.drop_last(), name) {
            Some(i) => Some(i),
            None => if entries.last().0 == name {
                Some(entries.len() - 1)
            } else {
                None
            },
        }
    }
}

/// The value stored under `name`, if any.
pub open spec fn lookup<T>(entries: Seq<(Name, T)>, name: Name) -> Option<T> {
    match index_of(entries, name) {
        Some(i) => Some(entries[i].1),
        None => None,
    }
}

/// `entries` after storing `value` under `name`: an existing entry keeps
/// its place and takes the new value, a new name goes to the end.
pub open spec fn put<T>(entries: Seq<(Name, T)>, name: Name, value: T) -> Seq<(Name, T)> {
    match index_of(entries, name) {
        Some(i) => entries.update(i, (name, value)),
        None => entries.push((name, value)),
    }
}

/// `entries` after storing each entry of `more`, first to last.
pub open spec fn put_all<T>(entries: Seq<(Name, T)>, more: Seq<(Name, T)>) -> Seq<(Name, T)>
    decreases more.len(),
{
    if more.len() == 0 {
        entries
    } else {
        put(put_all(entries, more.drop_last()), more.last().0, more.last().1)
    }
}

/// What `index_of` finds: the first matching position, or that there is none.
pub proof fn lemma_index_of<T>(entries: Seq<(Name, T)>, name: Name)
    ensures
        match index_of(entries, name) {
            Some(i) => 0 <= i < entries.len() && entries[i].0 == name && forall|j: int|
                0 <= j < i ==> (#[trigger] entries[j]).0 != name,
            None => forall|j: int| 0 <= j < entries.len() ==> (#[trigger] entries[j]).0 != name,
        },
        index_of(entries, name) is Some <==> has_key(entries, name),
    decreases entries.len(),
{
    if entries.len() > 0 {
        let front = entries.drop_last();
        lemma_index_of(front, name);
        assert(forall|j: int| 0 <= j < front.len() ==> front[j] == entries[j]);
        match index_of(front, name) {
            Some(i) => {
                assert(entries[i].0 == name);
            },
            None => {
                if entries.last().0 == name {
                    assert(entries[entries.len() - 1].0 == name);
                }
            },
        }
    }
}

/// Storing an entry keeps the keys distinct, and is seen by `lookup`.
pub proof fn lemma_put<T>(entries: Seq<(Name, T)>, name: Name, value: T)
    ensures
        distinct(entries) ==> distinct(put(entries, name, value)),
        lookup(put(entries, name, value), name) == Some(value),
        forall|other: Name|
            other != name ==> #[trigger] index_of(put(entries, name, value), other) == index_of(
                entries,
                other,
            ) && lookup(put(entries, name, value), other) == lookup(entries, other),
        index_of(entries, name) is Some ==> names(put(entries, name, value)) == names(entries),
        index_of(entries, name) is None ==> names(put(entries, name, value)) == names(
            entries,
        ).push(name),
{
    let after = put(entries, name, value);
    lemma_index_of(entries, name);
    lemma_index_of(after, name);
    match index_of(entries, name) {
        Some(i) => {
            assert(after[i].0 == name);
        },
        None => {
            assert(after[entries.len() as int].0 == name);
        },
    }
    assert forall|other: Name| other != name implies #[trigger] index_of(after, other)
        == index_of(entries, other) && lookup(after, other) == lookup(entries, other) by {
        lemma_index_of(entries, other);
        lemma_index_of(after, other);
        match index_of(entries, other) {
            Some(k) => {
                assert(after[k].0 == other);
            },
            None => {},
        }
        match index_of(after, other) {
            Some(k) => {
                assert(entries[k].0 == other);
            },
            None => {},
        }
    }
}

/// The value of the last entry of `entries` that is stored under `name`.
pub open spec fn last_with<T>(entries: Seq<(Name, T)>, name: Name) -> Option<T>
    decreases entries.len(),
{
    if entries.len() == 0 {
        None
    } else if entries.last().0 == name {
        Some(entries.last().1)
    } else {
        last_with(entries.drop_last(), name)
    }
}

/// What `last_with` finds: the value at the last matching position, or
/// that there is none.
pub proof fn lemma_last_with<T>(entries: Seq<(Name, T)>, name: Name)
    ensures
        last_with(entries, name) is Some <==> has_key(entries, name),
        last_with(entries, name) is Some ==> exists|i: int|
            0 <= i < entries.len() && (#[trigger] entries[i]).0 == name && last_with(entries, name)
                == Some(entries[i].1) && forall|j: int|
                i < j < entries.len() ==> (#[trigger] entries[j]).0 != name,
    decreases entries.len(),
{
    if entries.len() > 0 {
        let front = entries.drop_last();
        let last = entries.len() - 1;
        lemma_last_with(front, name);
        if entries.last().0 == name {
            assert(entries[last].0 == name);
        } else {
            if has_key(entries, name) {
                let i = choose|i: int| 0 <= i < entries.len() && (#[trigger] entries[i]).0 == name;
                assert(front[i].0 == name);
            }
            if last_with(front, name) is Some {
                let i = choose|i: int|
                    0 <= i < front.len() && (#[trigger] front[i]).0 == name && last_with(
                        front,
                        name,
                    ) == Some(front[i].1) && forall|j: int|
                        i < j < front.len() ==> (#[trigger] front[j]).0 != name;
                assert forall|j: int| i < j < entries.len() implies (#[trigger] entries[j]).0
                    != name by {
                    if j < last {
                        assert(front[j].0 != name);
                    }
                }
            }
        }
    }
}

/// After storing `more`, a name is found exactly if it was there before or
/// is in `more`, and holds the value of its last entry in `more`, or else
/// the value it had. Distinct names stay distinct.
pub proof fn lemma_put_all<T>(entries: Seq<(Name, T)>, more: Seq<(Name, T)>, name: Name)
    ensures
        distinct(entries) ==> distinct(put_all(entries, more)),
        has_key(put_all(entries, more), name) <==> has_key(entries, name) || has_key(more, name),
        lookup(put_all(entries, more), name) == match last_with(more, name) {
            Some(value) => Some(value),
            None => lookup(entries, name),
        },
    decreases more.len(),
{
    if more.len() > 0 {
        let front = more.drop_last();
        let before = put_all(entries, front);
        let after = put_all(entries, more);
        lemma_put_all(entries, front, name);
        lemma_put(before, more.last().0, more.last().1);
        lemma_index_of(before, name);
        lemma_index_of(after, name);
        lemma_last_with(more, name);
        lemma_last_with(front, name);
    } else {
        lemma_last_with(more, name);
    }
}

/// Storing two runs of entries one after the other is storing their concatenation.
pub proof fn lemma_put_all_concat<T>(
    entries: Seq<(Name, T)>,
    first: Seq<(Name, T)>,
    second: Seq<(Name, T)>,
)
    ensures
        put_all(entries, first + second) == put_all(put_all(entries, first), second),
    decreases second.len(),
{
    if second.len() == 0 {
        assert(first + second =~= first);
    } else {
        assert((first + second).drop_last() =~= first + second.drop_last());
        lemma_put_all_concat(entries, first, second.drop_last());
    }
}

/// Storing a single entry.
pub proof fn lemma_put_all_one<T>(entries: Seq<(Name, T)>, entry: (Name, T))
    ensures
        put_all(entries, seq![entry]) == put(entries, entry.0, entry.1),
{
    let one = seq![entry];
    assert(one.drop_last() =~= Seq::<(Name, T)>::empty());
    assert(put_all(entries, one.drop_last()) == entries);
}

/// A name is among the names of `entries` exactly if it is a key.
pub proof fn lemma_names_contain<T>(entries: Seq<(Name, T)>, name: Name)
    ensures
        names(entries).to_set().contains(name) <==> has_key(entries, name),
        names(entries).contains(name) <==> has_key(entries, name),
{
    if has_key(entries, name) {
        let i = choose|i: int| 0 <= i < entries.len() && (#[trigger] entries[i]).0 == name;
        assert(names(entries)[i] == name);
    }
    if names(entries).contains(name) {
        let i = choose|i: int| 0 <= i < names(entries).len() && names(entries)[i] == name;
        assert(entries[i].0 == name);
    }
}

/// Storing entries adds at most one entry for each.
pub proof fn lemma_put_all_len<T>(entries: Seq<(Name, T)>, more: Seq<(Name, T)>)
    ensures
        entries.len() <= put_all(entries, more).len() <= entries.len() + more.len(),
    decreases more.len(),
{
    if more.len() > 0 {
        lemma_put_all_len(entries, more.drop_last());
        lemma_index_of(put_all(entries, more.drop_last()), more.last().0);
    }
}

/// The names that are met again while `more` is stored in `entries`: for
/// each entry of `more`, first to last, its name if an earlier entry of
/// `more`, or one of `entries`, has that name already.
pub open spec fn repeats<T>(entries: Seq<(Name, T)>, more: Seq<(Name, T)>) -> Seq<Name>
    decreases more.len(),
{
    if more.len() == 0 {
        Seq::empty()
    } else if has_key(put_all(entries, more.drop_last()), more.last().0) {
        repeats(entries, more.drop_last()).push(more.last().0)
    } else {
        repeats(entries, more.drop_last())
    }
}

/// The names met again while two runs of entries are stored one after the other.
pub proof fn lemma_repeats_concat<T>(
    entries: Seq<(Name, T)>,
    first: Seq<(Name, T)>,
    second: Seq<(Name, T)>,
)
    ensures
        repeats(entries, first + second) == repeats(entries, first) + repeats(
            put_all(entries, first),
            second,
        ),
    decreases second.len(),
{
    if second.len() == 0 {
        assert(first + second =~= first);
        assert(repeats(entries, first) + repeats(put_all(entries, first), second) =~= repeats(
            entries,
            first,
        ));
    } else {
        assert((first + second).drop_last() =~= first + second.drop_last());
        lemma_repeats_concat(entries, first, second.drop_last());
        lemma_put_all_concat(entries, first, second.drop_last());
        assert(repeats(entries, first + second) =~= repeats(entries, first) + repeats(
            put_all(entries, first),
            second,
        ));
    }
}

/// The name met again, if any, while a single entry is stored.
pub proof fn lemma_repeats_one<T>(entries: Seq<(Name, T)>, entry: (Name, T))
    ensures
        repeats(entries, seq![entry]) == if has_key(entries, entry.0) {
            seq![entry.0]
        } else {
            Seq::<Name>::empty()
        },
{
    let one = seq![entry];
    assert(one.drop_last() =~= Seq::<(Name, T)>::empty());
    assert(put_all(entries, one.drop_last()) == entries);
    assert(repeats(entries, one.drop_last()) =~= Seq::<Name>::empty());
    assert(repeats(entries, one) =~= if has_key(entries, entry.0) {
        seq![entry.0]
    } else {
        Seq::<Name>::empty()
    });
}

/// No name is met again exactly if no name occurs twice; the stored
/// entries are then the given entries as they are.
pub proof fn lemma_no_repeats<T>(more: Seq<(Name, T)>)
    ensures
        repeats(Seq::empty(), more).len() == 0 <==> distinct(more),
        distinct(more) ==> put_all(Seq::empty(), more) == more,
    decreases more.len(),
{
    if more.len() > 0 {
        let front = more.drop_last();
        let name = more.last().0;
        lemma_no_repeats(front);
        lemma_put_all(Seq::empty(), front, name);
        lemma_index_of(Seq::<(Name, T)>::empty(), name);
        assert(forall|i: int| 0 <= i < front.len() ==> front[i] == more[i]);
        if distinct(more) {
            assert forall|i: int, j: int| 0 <= i < j < front.len() implies (#[trigger] front[i]).0
                != (#[trigger] front[j]).0 by {
                assert(more[i].0 != more[j].0);
            }
            if has_key(front, name) {
                let i = choose|i: int| 0 <= i < front.len() && (#[trigger] front[i]).0 == name;
                assert(more[i].0 != more[more.len() - 1].0);
            }
            lemma_index_of(front, name);
            assert(put_all(Seq::empty(), more) =~= more);
        }
        if repeats(Seq::empty(), more).len() == 0 {
            assert(!has_key(front, name));
            assert forall|i: int, j: int| 0 <= i < j < more.len() implies (#[trigger] more[i]).0
                != (#[trigger] more[j]).0 by {
                if j < front.len() {
                    assert(front[i].0 != front[j].0);
                } else {
                    assert(front[i].0 != name);
                }
            }
        }
    } else {
        assert(put_all(Seq::<(Name, T)>::empty(), more) =~= more);
    }
}

/// The same entries with each value replaced by its mathematical value.
pub open spec fn deep_entries<V: DeepView>(entries: Seq<(Name, V)>) -> Seq<(Name, V::V)> {
    Seq::new(entries.len(), |i: int| (entries[i].0, entries[i].1.deep_view()))
}

/// Searching by name does not depend on what the values are.
pub proof fn lemma_same_names<S, T>(first: Seq<(Name, S)>, second: Seq<(Name, T)>, name: Name)
    requires
        names(first) == names(second),
    ensures
        index_of(first, name) == index_of(second, name),
        distinct(first) == distinct(second),
{
    lemma_index_of(first, name);
    lemma_index_of(second, name);
    assert(first.len() == names(first).len());
    assert forall|i: int| 0 <= i < first.len() implies #[trigger] first[i].0 == second[i].0 by {
        assert(names(first)[i] == names(second)[i]);
    }
    match index_of(first, name) {
        Some(i) => {
            assert(second[i].0 == name);
        },
        None => {},
    }
    match index_of(second, name) {
        Some(i) => {
            assert(first[i].0 == name);
        },
        None => {},
    }
    if distinct(first) {
        assert forall|i: int, j: int| 0 <= i < j < second.len() implies (#[trigger] second[i]).0
            != (#[trigger] second[j]).0 by {
            assert(first[i].0 != first[j].0);
        }
    }
    if distinct(second) {
        assert forall|i: int, j: int| 0 <= i < j < first.len() implies (#[trigger] first[i]).0
            != (#[trigger] first[j]).0 by {
            assert(second[i].0 != second[j].0);
        }
    }
}

/// Taking mathematical values does not change what a search finds.
pub proof fn lemma_deep_search<V: DeepView>(entries: Seq<(Name, V)>, name: Name)
    ensures
        names(deep_entries(entries)) == names(entries),
        index_of(deep_entries(entries), name) == index_of(entries, name),
        distinct(deep_entries(entries)) == distinct(entries),
        has_key(deep_entries(entries), name) == has_key(entries, name),
        lookup(deep_entries(entries), name) == match lookup(entries, name) {
            Some(v) => Some(v.deep_view()),
            None => None,
        },
{
    let deep = deep_entries(entries);
    assert(names(deep) =~= names(entries));
    lemma_same_names(deep, entries, name);
    lemma_index_of(entries, name);
    lemma_index_of(deep, name);
}

/// Taking mathematical values commutes with storing.
pub proof fn lemma_deep_put<V: DeepView>(entries: Seq<(Name, V)>, name: Name, value: V)
    ensures
        deep_entries(put(entries, name, value)) == put(
            deep_entries(entries),
            name,
            value.deep_view(),
        ),
{
    lemma_deep_search(entries, name);
    lemma_index_of(entries, name);
    assert(deep_entries(put(entries, name, value)) =~= put(
        deep_entries(entries),
        name,
        value.deep_view(),
    ));
}

/// A map from names to values that keeps the order in which names were
/// first stored. No name occurs twice.
#[derive(Debug, PartialEq)]
pub struct NameMap<V> {
    entries: Vec<(String, V)>,
}

impl<V> View for NameMap<V> {
    type V = Seq<(Name, V)>;

    /// The entries, oldest name first.
    closed spec fn view(&self) -> Seq<(Name, V)> {
        by_name(self.entries@)
    }
}

/// Stored entries with each name taken as its characters.
pub open spec fn by_name<V>(stored: Seq<(String, V)>) -> Seq<(Name, V)> {
    Seq::new(stored.len(), |i: int| (stored[i].0@, stored[i].1))
}

impl<V: DeepView> DeepView for NameMap<V> {
    type V = Seq<(Name, V::V)>;

    /// The entries with each value as its mathematical value.
    open spec fn deep_view(&self) -> Seq<(Name, V::V)> {
        deep_entries(self@)
    }
}

impl<V> NameMap<V> {
    /// What holds of every map: no name occurs twice.
    #[verifier::type_invariant]
    pub open spec fn well_formed(&self) -> bool {
        distinct(self@)
    }

    /// The entries as they are stored.
    pub closed spec fn stored(&self) -> Seq<(String, V)> {
        self.entries@
    }

    /// The stored entries are smaller than the map that holds them.
    pub proof fn lemma_stored_decreases(&self)
        ensures
            decreases_to!(self => self.stored()),
    {
    }

    /// Each value is smaller than the map that holds it.
    pub proof fn lemma_value_decreases(&self, index: int)
        requires
            0 <= index < self@.len(),
        ensures
            decreases_to!(self => self@[index].1),
    {
        assert(self@[index].1 == self.entries@[index].1);
    }

    /// The view is the stored entries, each name taken as its characters.
    pub proof fn lemma_view_of_stored(&self)
        ensures
            self@ == by_name(self.stored()),
    {
    }

    /// A map without entries.
    pub fn new() -> (map: Self)
        ensures
            map@ == Seq::<(Name, V)>::empty(),
    {
        let map = NameMap { entries: Vec::new() };
        assert(map@ =~= Seq::<(Name, V)>::empty());
        map
    }

    /// The number of entries.
    pub fn len(&self) -> (n: usize)
        ensures
            n == self@.len(),
    {
        self.entries.len()
    }

    /// Whether the map has no entry.
    pub fn is_empty(&self) -> (empty: bool)
        ensures
            empty == (self@.len() == 0),
    {
        self.entries.len() == 0
    }

    /// The name of the entry at `index`.
    pub fn name_at(&self, index: usize) -> (name: &String)
        requires
            index < self@.len(),
        ensures
            name@ == self@[index as int].0,
    {
        &self.entries[index].0
    }

    /// The value of the entry at `index`.
    pub fn value_at(&self, index: usize) -> (value: &V)
        requires
            index < self@.len(),
        ensures
            *value == self@[index as int].1,
    {
        &self.entries[index].1
    }

    /// The position of the entry stored under `name`.
    pub fn position(&self, name: &str) -> (found: Option<usize>)
        ensures
            match found {
                Some(i) => index_of(self@, name@) == Some(i as int),
                None => index_of(self@, name@) is None,
            },
    {
        let key = String::from_str(name);
        let mut i: usize = 0;
        while i < self.entries.len()
            invariant
                i <= self.entries@.len(),
                key@ == name@,
                index_of(self@.take(i as int), name@) is None,
            decreases self.entries@.len() - i,
        {
            proof {
                let next = self@.take(i + 1);
                assert(next.drop_last() =~= self@.take(i as int));
            }
            if self.entries[i].0 == key {
                proof {
                    lemma_index_of(self@, name@);
                    lemma_index_of(self@.take(i + 1), name@);
                    assert forall|j: int| 0 <= j < i implies self@[j].0 != name@ by {
                        assert(self@.take(i + 1)[j] == self@[j]);
                    }
                }
                return Some(i);
            }
            i += 1;
        }
        assert(self@.take(i as int) =~= self@);
        None
    }

    /// Whether an entry is stored under `name`.
    pub fn contains_key(&self, name: &str) -> (found: bool)
        ensures
            found == has_key(self@, name@),
    {
        proof {
            lemma_index_of(self@, name@);
        }
        self.position(name).is_some()
    }

    /// The value stored under `name`.
    pub fn get(&self, name: &str) -> (value: Option<&V>)
        ensures
            match value {
                Some(v) => lookup(self@, name@) == Some(*v),
                None => lookup(self@, name@) is None,
            },
    {
        match self.position(name) {
            Some(i) => {
                proof {
                    lemma_index_of(self@, name@);
                }
                Some(&self.entries[i].1)
            },
            None => None,
        }
    }

    /// Stores `value` under `name`. A name that is already there keeps its
    /// place and hands back the value it had.
    pub fn insert(&mut self, name: String, value: V) -> (previous: Option<V>)
        ensures
            final(self)@ == put(old(self)@, name@, value),
            previous == lookup(old(self)@, name@),
    {
        proof {
            use_type_invariant(&*self);
            lemma_index_of(self@, name@);
            lemma_put(self@, name@, value);
        }
        let found = self.position(name.as_str());
        let mut entries: Vec<(String, V)> = Vec::new();
        std::mem::swap(&mut self.entries, &mut entries);
        let previous = match found {
            Some(i) => {
                let mut entry = (name, value);
                entries.set_and_swap(i, &mut entry);
                Some(entry.1)
            },
            None => {
                entries.push((name, value));
                None
            },
        };
        assert(by_name(entries@) =~= put(old(self)@, name@, value));
        std::mem::swap(&mut self.entries, &mut entries);
        previous
    }
}

} // verus!
