//! Symbol tables: ordered registries that give each name a slot.

use vstd::prelude::*;

verus! {

/// The names held by a list of strings, in order.
pub open spec fn names(items: Seq<String>) -> Seq<Seq<char>> {
    items.map_values(|s: String| s@)
}

/// The slot that a name resolves to: the latest slot registered under
/// that name, so that a later registration shadows an earlier one.
pub open spec fn lookup(table: Seq<Seq<char>>, name: Seq<char>) -> Option<int>
    decreases table.len(),
{
    if table.len() == 0 {
        None
    } else if table.last() == name {
        Some(table.len() - 1)
    } else {
        lookup(table.drop_last(), name)
    }
}

/// A name resolves to the last slot that holds it, and to none only when
/// no slot holds it.
pub proof fn lookup_finds_latest(table: Seq<Seq<char>>, name: Seq<char>)
    ensures
        match lookup(table, name) {
            Some(i) => {
                &&& 0 <= i < table.len()
                &&& table[i] == name
                &&& forall|j: int| i < j < table.len() ==> table[j] != name
            },
            None => forall|j: int| 0 <= j < table.len() ==> table[j] != name,
        },
    decreases table.len(),
{
    if table.len() > 0 && table.last() != name {
        let rest = table.drop_last();
        lookup_finds_latest(rest, name);
        assert forall|j: int| 0 <= j < rest.len() implies table[j] == rest[j] by {}
        match lookup(rest, name) {
            Some(i) => {
                assert forall|j: int| i < j < table.len() implies table[j] != name by {
                    if j < rest.len() {
                        assert(table[j] == rest[j]);
                    }
                }
            },
            None => {
                assert forall|j: int| 0 <= j < table.len() implies table[j] != name by {
                    if j < rest.len() {
                        assert(table[j] == rest[j]);
                    }
                }
            },
        }
    }
}

/// Registering a name makes it resolve to the new slot, and leaves every
/// other name where it resolved before: slots are stable and never reused.
pub proof fn registration_shadows(table: Seq<Seq<char>>, name: Seq<char>, other: Seq<char>)
    ensures
        lookup(table.push(name), name) == Some(table.len() as int),
        other != name ==> lookup(table.push(name), other) == lookup(table, other),
{
    assert(table.push(name).drop_last() =~= table);
}

/// A slot that holds the name with no later slot holding it is the one
/// that `lookup` finds.
pub proof fn lemma_lookup_is_last(table: Seq<Seq<char>>, name: Seq<char>, i: int)
    requires
        0 <= i < table.len(),
        table[i] == name,
        forall|j: int| i < j < table.len() ==> table[j] != name,
    ensures
        lookup(table, name) == Some(i),
    decreases table.len(),
{
    if table.last() != name {
        lemma_lookup_is_last(table.drop_last(), name, i);
    }
}

/// A name that no slot holds is not found.
pub proof fn lemma_lookup_absent(table: Seq<Seq<char>>, name: Seq<char>)
    requires
        forall|j: int| 0 <= j < table.len() ==> table[j] != name,
    ensures
        lookup(table, name) is None,
    decreases table.len(),
{
    if table.len() > 0 {
        lemma_lookup_absent(table.drop_last(), name);
    }
}

/// An append-only registry of names. The slot of a name is its position;
/// slots are never reused.
#[derive(Clone, Debug, PartialEq, Eq)]
pub struct Table {
    items: Vec<String>,
}

impl View for Table {
    type V = Seq<Seq<char>>;

    closed spec fn view(&self) -> Seq<Seq<char>> {
        names(self.items@)
    }
}

impl Table {
    /// An empty table.
    pub fn new() -> (t: Table)
        ensures
            t@ == Seq::<Seq<char>>::empty(),
    {
        let t = Table { items: Vec::new() };
        assert(t@ =~= Seq::<Seq<char>>::empty());
        t
    }

    /// The number of slots.
    pub fn len(&self) -> (n: usize)
        ensures
            n == self@.len(),
    {
        self.items.len()
    }

    /// Registers `name` in a fresh slot at the end, whether or not the name
    /// is already present, and returns that slot.
    pub fn insert(&mut self, name: String) -> (slot: usize)
        ensures
            final(self)@ == old(self)@.push(name@),
            slot == old(self)@.len(),
    {
        let slot: usize = self.items.len();
        self.items.push(name);
        assert(self@ =~= old(self)@.push(name@));
        slot
    }

    /// The slot that `name` resolves to, if it was registered.
    pub fn get_index(&self, name: &String) -> (slot: Option<usize>)
        ensures
            match slot {
                Some(i) => lookup(self@, name@) == Some(i as int),
                None => lookup(self@, name@) is None,
            },
    {
        let mut i: usize = self.items.len();
        while i > 0
            invariant
                i <= self.items.len(),
                forall|j: int| i <= j < self@.len() ==> self@[j] != name@,
            decreases i,
        {
            i = i - 1;
            if self.items[i] == *name {
                proof {
                    lemma_lookup_is_last(self@, name@, i as int);
                }
                return Some(i);
            }
        }
        proof {
            lemma_lookup_absent(self@, name@);
        }
        None
    }

    /// Empties the table.
    pub fn clear(&mut self)
        ensures
            final(self)@ == Seq::<Seq<char>>::empty(),
    {
        self.items.clear();
        assert(self@ =~= Seq::<Seq<char>>::empty());
    }

    /// A table with the same names in the same slots.
    pub fn duplicate(&self) -> (t: Table)
        ensures
            t@ == self@,
    {
        let mut items: Vec<String> = Vec::new();
        let mut i: usize = 0;
        while i < self.items.len()
            invariant
                i <= self.items.len(),
                items@.len() == i,
                forall|j: int| 0 <= j < i ==> items@[j]@ == self.items@[j]@,
            decreases self.items.len() - i,
        {
            items.push(self.items[i].clone());
            i = i + 1;
        }
        let t = Table { items };
        assert(t@ =~= self@);
        t
    }
}

} // verus!
