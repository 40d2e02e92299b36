//! The attributes of an element: a finite map from names to values.

use vstd::prelude::*;

verus! {

/// A map from attribute names to values. Each name occurs once; a value
/// that is written for a name that is there already takes the place of the
/// earlier one.
#[derive(Debug)]
pub struct Attributes {
    entries: Vec<(String, String)>,
}

/// The index of the first entry with the given name.
pub open spec fn index_of(entries: Seq<(Seq<char>, Seq<char>)>, name: Seq<char>) -> int {
    choose|i: int| 0 <= i < entries.len() && entries[i].0 == name
}

/// Whether an entry has the given name.
pub open spec fn has_name(entries: Seq<(Seq<char>, Seq<char>)>, name: Seq<char>) -> bool {
    exists|i: int| 0 <= i < entries.len() && #[trigger] entries[i].0 == name
}

/// Whether no two entries have the same name.
pub open spec fn distinct_names(entries: Seq<(Seq<char>, Seq<char>)>) -> bool {
    forall|i: int, j: int|
        0 <= i < j < entries.len() ==> (#[trigger] entries[i]).0 != (#[trigger] entries[j]).0
}

/// The map that the entries stand for.
pub open spec fn map_of(entries: Seq<(Seq<char>, Seq<char>)>) -> Map<Seq<char>, Seq<char>> {
    Map::new(
        |name: Seq<char>| has_name(entries, name),
        |name: Seq<char>| entries[index_of(entries, name)].1,
    )
}

impl View for Attributes {
    type V = Map<Seq<char>, Seq<char>>;

    closed spec fn view(&self) -> Map<Seq<char>, Seq<char>> {
        map_of(self.entries.deep_view())
    }
}

impl DeepView for Attributes {
    type V = Map<Seq<char>, Seq<char>>;

    open spec fn deep_view(&self) -> Map<Seq<char>, Seq<char>> {
        self@
    }
}

impl Attributes {
    #[verifier::type_invariant]
    spec fn names_are_distinct(&self) -> bool {
        distinct_names(self.entries.deep_view())
    }

    /// The empty map.
    pub fn new() -> (attributes: Self)
        ensures
            attributes@ == Map::<Seq<char>, Seq<char>>::empty(),
    {
        let attributes = Attributes { entries: Vec::new() };
        attributes
    }

    /// Where the entry with the given name stands, if there is one.
    fn position(&self, name: &str) -> (found: Option<usize>)
        ensures
            match found {
                Some(i) => i < self.entries@.len() && self.entries@[i as int].0@ == name@,
                None => !has_name(self.entries.deep_view(), name@),
            },
    {
        let ghost entries = self.entries.deep_view();
        let wanted = String::from_str(name);
        let mut i: usize = 0;
        while i < self.entries.len()
            invariant
                i <= self.entries@.len(),
                entries == self.entries.deep_view(),
                wanted@ == name@,
                forall|j: int| 0 <= j < i ==> (#[trigger] entries[j]).0 != name@,
            decreases self.entries@.len() - i,
        {
            if self.entries[i].0 == wanted {
                return Some(i);
            }
            i = i + 1;
        }
        None
    }

    /// The value of the attribute with the given name, if there is one.
    pub fn get(&self, name: &str) -> (value: Option<&String>)
        ensures
            match value {
                Some(v) => self@.contains_key(name@) && self@[name@] == v@,
                None => !self@.contains_key(name@),
            },
    {
        proof {
            use_type_invariant(self);
        }
        let ghost entries = self.entries.deep_view();
        match self.position(name) {
            Some(i) => {
                proof {
                    assert(entries[i as int].0 == name@);
                }
                Some(&self.entries[i].1)
            },
            None => None,
        }
    }

    /// Whether there is an attribute with the given name.
    pub fn contains_key(&self, name: &str) -> (r: bool)
        ensures
            r == self@.contains_key(name@),
    {
        let ghost entries = self.entries.deep_view();
        match self.position(name) {
            Some(i) => {
                proof {
                    assert(entries[i as int].0 == name@);
                }
                true
            },
            None => false,
        }
    }

    /// The number of attributes.
    pub fn len(&self) -> (n: usize)
        ensures
            n == self@.len(),
            self@.dom().finite(),
    {
        proof {
            use_type_invariant(self);
            lemma_map_of_len(self.entries.deep_view());
        }
        self.entries.len()
    }

    /// Whether there is no attribute.
    pub fn is_empty(&self) -> (r: bool)
        ensures
            r == (self@ == Map::<Seq<char>, Seq<char>>::empty()),
    {
        let ghost entries = self.entries.deep_view();
        proof {
            if entries.len() > 0 {
                assert(self@.contains_key(entries[0].0));
            } else {
                assert(self@ =~= Map::<Seq<char>, Seq<char>>::empty());
            }
        }
        self.entries.len() == 0
    }

    /// The attributes as pairs of a name and a value, each name once.
    pub fn entries(&self) -> (list: &Vec<(String, String)>)
        ensures
            distinct_names(list.deep_view()),
            map_of(list.deep_view()) == self@,
    {
        proof {
            use_type_invariant(self);
        }
        &self.entries
    }

    /// Gives the attribute `name` the value `value`, whether or not it had
    /// one before.
    pub fn insert(&mut self, name: String, value: String)
        ensures
            final(self)@ == old(self)@.insert(name@, value@),
    {
        proof {
            use_type_invariant(&*self);
        }
        let ghost before = self.entries.deep_view();
        let found = self.position(name.as_str());
        let mut entries: Vec<(String, String)> = Vec::new();
        core::mem::swap(&mut self.entries, &mut entries);
        match found {
            Some(i) => {
                entries[i] = (name, value);
                proof {
                    assert(entries.deep_view() == before.update(i as int, (name@, value@)));
                    lemma_map_of_update(before, i as int, value@);
                }
            },
            None => {
                entries.push((name, value));
                proof {
                    assert(entries.deep_view() == before.push((name@, value@)));
                    lemma_map_of_push(before, name@, value@);
                }
            },
        }
        core::mem::swap(&mut self.entries, &mut entries);
    }
}

impl Clone for Attributes {
    fn clone(&self) -> (copy: Self)
        ensures
            copy@ == self@,
    {
        proof {
            use_type_invariant(self);
        }
        let mut entries: Vec<(String, String)> = Vec::new();
        let mut i: usize = 0;
        while i < self.entries.len()
            invariant
                i <= self.entries@.len(),
                entries.deep_view() == self.entries.deep_view().subrange(0, i as int),
            decreases self.entries@.len() - i,
        {
            let name = self.entries[i].0.clone();
            let value = self.entries[i].1.clone();
            entries.push((name, value));
            proof {
                assert(self.entries.deep_view().subrange(0, i + 1) == self.entries.deep_view().subrange(
                    0,
                    i as int,
                ).push(self.entries.deep_view()[i as int]));
            }
            i = i + 1;
        }
        proof {
            assert(self.entries.deep_view().subrange(0, i as int) == self.entries.deep_view());
        }
        Attributes { entries }
    }
}

impl PartialEq for Attributes {
    fn eq(&self, other: &Self) -> (r: bool) {
        proof {
            use_type_invariant(self);
            use_type_invariant(other);
            lemma_map_of_len(self.entries.deep_view());
            lemma_map_of_len(other.entries.deep_view());
        }
        if self.entries.len() != other.entries.len() {
            return false;
        }
        let ghost entries = self.entries.deep_view();
        let mut i: usize = 0;
        while i < self.entries.len()
            invariant
                i <= self.entries@.len(),
                entries == self.entries.deep_view(),
                distinct_names(entries),
                forall|j: int|
                    0 <= j < i ==> other@.contains_key((#[trigger] entries[j]).0) && other@[entries[j].0]
                        == entries[j].1,
            decreases self.entries@.len() - i,
        {
            proof {
                lemma_index_of(entries, i as int);
            }
            match other.get(self.entries[i].0.as_str()) {
                Some(value) => {
                    if *value != self.entries[i].1 {
                        return false;
                    }
                },
                None => {
                    return false;
                },
            }
            i = i + 1;
        }
        proof {
            vstd::set_lib::lemma_subset_equality(self@.dom(), other@.dom());
            assert(self@ =~= other@);
        }
        true
    }
}

impl vstd::std_specs::cmp::PartialEqSpecImpl for Attributes {
    open spec fn obeys_eq_spec() -> bool {
        true
    }

    open spec fn eq_spec(&self, other: &Self) -> bool {
        self@ == other@
    }
}

/// Among entries with distinct names, the entry with a given name is found
/// at its own index.
pub proof fn lemma_index_of(entries: Seq<(Seq<char>, Seq<char>)>, i: int)
    requires
        distinct_names(entries),
        0 <= i < entries.len(),
    ensures
        has_name(entries, entries[i].0),
        index_of(entries, entries[i].0) == i,
{
}

/// Replacing the value of an entry is an insertion under its name.
pub proof fn lemma_map_of_update(entries: Seq<(Seq<char>, Seq<char>)>, i: int, value: Seq<char>)
    requires
        distinct_names(entries),
        0 <= i < entries.len(),
    ensures
        distinct_names(entries.update(i, (entries[i].0, value))),
        map_of(entries.update(i, (entries[i].0, value))) == map_of(entries).insert(
            entries[i].0,
            value,
        ),
{
    let name = entries[i].0;
    let after = entries.update(i, (name, value));
    assert forall|n: Seq<char>| has_name(after, n) == has_name(entries, n) by {
        if has_name(entries, n) {
            let k = choose|k: int| 0 <= k < entries.len() && #[trigger] entries[k].0 == n;
            assert(after[k].0 == n);
        }
    }
}

/// Adding an entry with a new name is an insertion under that name.
pub proof fn lemma_map_of_push(
    entries: Seq<(Seq<char>, Seq<char>)>,
    name: Seq<char>,
    value: Seq<char>,
)
    requires
        distinct_names(entries),
        !has_name(entries, name),
    ensures
        distinct_names(entries.push((name, value))),
        map_of(entries.push((name, value))) == map_of(entries).insert(name, value),
{
    let after = entries.push((name, value));
    assert forall|n: Seq<char>| has_name(after, n) == (has_name(entries, n) || n == name) by {
        if has_name(entries, n) {
            let k = choose|k: int| 0 <= k < entries.len() && #[trigger] entries[k].0 == n;
            assert(after[k].0 == n);
        }
        if n == name {
            assert(after[entries.len() as int].0 == n);
        }
    }
}

/// A map of entries with distinct names has as many keys as there are
/// entries.
pub proof fn lemma_map_of_len(entries: Seq<(Seq<char>, Seq<char>)>)
    requires
        distinct_names(entries),
    ensures
        map_of(entries).dom().finite(),
        map_of(entries).len() == entries.len(),
    decreases entries.len(),
{
    if entries.len() == 0 {
        assert(map_of(entries) =~= Map::<Seq<char>, Seq<char>>::empty());
    } else {
        let init = entries.drop_last();
        let last = entries.last();
        lemma_map_of_len(init);
        lemma_map_of_push(init, last.0, last.1);
        assert(init.push((last.0, last.1)) == entries);
    }
}

} // verus!
