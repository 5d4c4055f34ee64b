//! A list of named values, in the order in which the names first came.
use crate::text;
use vstd::prelude::*;

verus! {

/// The index of the first entry with a name, or the length where there is none.
pub open spec fn index_of<V>(entries: Seq<(Seq<char>, V)>, name: Seq<char>) -> int
    decreases entries.len(),
{
    if entries.len() == 0 || entries[0].0 == name {
        0
    } else {
        1 + index_of(entries.skip(1), name)
    }
}

/// The value under a name.
pub open spec fn lookup<V>(entries: Seq<(Seq<char>, V)>, name: Seq<char>) -> Option<V> {
    if index_of(entries, name) < entries.len() {
        Some(entries[index_of(entries, name)].1)
    } else {
        None
    }
}

/// The entries with a value put under a name: in the place of the entry with that name, and at
/// the end where there is none.
pub open spec fn with_entry<V>(entries: Seq<(Seq<char>, V)>, name: Seq<char>, value: V) -> Seq<
    (Seq<char>, V),
> {
    let at = index_of(entries, name);
    if at < entries.len() {
        entries.update(at, (name, value))
    } else {
        entries.push((name, value))
    }
}

/// Whether no name comes twice.
pub open spec fn distinct<V>(entries: Seq<(Seq<char>, V)>) -> bool {
    forall|i: int, j: int| 0 <= i < j < entries.len() ==> entries[i].0 != entries[j].0
}

pub proof fn lemma_index_of<V>(entries: Seq<(Seq<char>, V)>, name: Seq<char>)
    ensures
        0 <= index_of(entries, name) <= entries.len(),
        forall|i: int| 0 <= i < index_of(entries, name) ==> entries[i].0 != name,
        index_of(entries, name) < entries.len() ==> entries[index_of(entries, name)].0 == name,
    decreases entries.len(),
{
    if entries.len() > 0 && entries[0].0 != name {
        lemma_index_of(entries.skip(1), name);
        assert forall|i: int| 0 <= i < index_of(entries, name) implies entries[i].0 != name by {
            if i > 0 {
                assert(entries[i] == entries.skip(1)[i - 1]);
            }
        }
    }
}

proof fn lemma_index_of_is<V>(entries: Seq<(Seq<char>, V)>, name: Seq<char>, at: int)
    requires
        0 <= at <= entries.len(),
        forall|i: int| 0 <= i < at ==> entries[i].0 != name,
        at < entries.len() ==> entries[at].0 == name,
    ensures
        index_of(entries, name) == at,
{
    lemma_index_of(entries, name);
    if index_of(entries, name) < at {
        assert(entries[index_of(entries, name)].0 != name);
    }
    if at < index_of(entries, name) {
        assert(entries[at].0 != name);
    }
}

/// Where a name stands depends on the names alone.
pub proof fn lemma_index_of_names<V, W>(
    a: Seq<(Seq<char>, V)>,
    b: Seq<(Seq<char>, W)>,
    name: Seq<char>,
)
    requires
        a.len() == b.len(),
        forall|i: int| 0 <= i < a.len() ==> (#[trigger] a[i]).0 == b[i].0,
    ensures
        index_of(a, name) == index_of(b, name),
{
    lemma_index_of(a, name);
    let at = index_of(a, name);
    assert forall|i: int| 0 <= i < at implies b[i].0 != name by {
        assert(a[i].0 != name);
    }
    lemma_index_of_is(b, name, at);
}

/// Putting a value under a name makes it the value of that name, leaves the value of every other
/// name as it was, and brings in no name twice.
pub proof fn entry_put<V>(
    entries: Seq<(Seq<char>, V)>,
    name: Seq<char>,
    value: V,
    other: Seq<char>,
)
    ensures
        lookup(with_entry(entries, name, value), name) == Some(value),
        other != name ==> lookup(with_entry(entries, name, value), other) == lookup(
            entries,
            other,
        ),
        distinct(entries) ==> distinct(with_entry(entries, name, value)),
{
    let after = with_entry(entries, name, value);
    lemma_index_of(entries, name);
    lemma_index_of(entries, other);
    let at = index_of(entries, name);
    assert forall|i: int| 0 <= i < at implies after[i].0 != name by {
        assert(after[i] == entries[i]);
    }
    lemma_index_of_is(after, name, at);
    if other != name {
        let k = index_of(entries, other);
        if k < entries.len() {
            assert forall|i: int| 0 <= i < k implies after[i].0 != other by {
                assert(entries[i].0 != other);
            }
            lemma_index_of_is(after, other, k);
        } else {
            assert forall|i: int| 0 <= i < after.len() implies after[i].0 != other by {
                if i < entries.len() {
                    assert(entries[i].0 != other);
                }
            }
            lemma_index_of_is(after, other, after.len() as int);
        }
    }
}

/// Named values.
pub struct Registry<V> {
    entries: Vec<(String, V)>,
}

impl<V> View for Registry<V> {
    type V = Seq<(Seq<char>, V)>;

    closed spec fn view(&self) -> Seq<(Seq<char>, V)> {
        Seq::new(self.entries@.len(), |i: int| (self.entries@[i].0@, self.entries@[i].1))
    }
}

impl<V> Registry<V> {
    /// No values.
    pub fn new() -> (res: Self)
        ensures
            res@.len() == 0,
    {
        Registry { entries: Vec::new() }
    }

    /// The number of values.
    pub fn len(&self) -> (res: usize)
        ensures
            res == self@.len(),
    {
        self.entries.len()
    }

    /// The name of an entry.
    pub fn name(&self, i: usize) -> (res: &str)
        requires
            i < self@.len(),
        ensures
            res@ == self@[i as int].0,
    {
        self.entries[i].0.as_str()
    }

    /// The value of an entry.
    pub fn value(&self, i: usize) -> (res: &V)
        requires
            i < self@.len(),
        ensures
            *res == self@[i as int].1,
    {
        &self.entries[i].1
    }

    fn position(&self, name: &str) -> (at: usize)
        ensures
            at == index_of(self@, name@),
            at <= self@.len(),
    {
        let mut at: usize = 0;
        while at < self.entries.len()
            invariant
                0 <= at <= self@.len(),
                forall|i: int| 0 <= i < at ==> self@[i].0 != name@,
            decreases self@.len() - at,
        {
            if text::same_text(self.entries[at].0.as_str(), name) {
                proof {
                    lemma_index_of_is(self@, name@, at as int);
                }
                return at;
            }
            at = at + 1;
        }
        proof {
            lemma_index_of_is(self@, name@, at as int);
        }
        at
    }

    /// The value under a name.
    pub fn get(&self, name: &str) -> (res: Option<&V>)
        ensures
            match res {
                Some(v) => lookup(self@, name@) == Some(*v),
                None => lookup(self@, name@) is None,
            },
    {
        let at: usize = self.position(name);
        if at < self.entries.len() {
            Some(&self.entries[at].1)
        } else {
            None
        }
    }

    /// Puts a value under a name.
    pub fn insert(&mut self, name: String, value: V)
        ensures
            final(self)@ == with_entry(old(self)@, name@, value),
    {
        let at: usize = self.position(name.as_str());
        if at < self.entries.len() {
            self.entries.set(at, (name, value));
        } else {
            self.entries.push((name, value));
        }
        assert(self@ =~= with_entry(old(self)@, name@, value));
    }
}

} // verus!
