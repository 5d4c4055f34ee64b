//! The tags of a metric point: a map from names to values that is kept in the order of the names.
use crate::text;
use vstd::prelude::*;

verus! {

/// A tag as a pair of texts.
pub type TagView = (Seq<char>, Seq<char>);

/// Whether pairs are in strictly ascending order of their names, so that no name occurs twice.
pub open spec fn ascending(entries: Seq<TagView>) -> bool {
    forall|i: int, j: int|
        0 <= i < j < entries.len() ==> text::precedes(
            (#[trigger] entries[i]).0,
            (#[trigger] entries[j]).0,
        )
}

/// The map that a list of pairs stands for.
pub open spec fn map_of(entries: Seq<TagView>) -> Map<Seq<char>, Seq<char>>
    decreases entries.len(),
{
    if entries.len() == 0 {
        Map::empty()
    } else {
        map_of(entries.drop_last()).insert(entries.last().0, entries.last().1)
    }
}

/// The pairs of a map in ascending order of their names.
pub open spec fn listing(map: Map<Seq<char>, Seq<char>>) -> Seq<TagView> {
    choose|entries: Seq<TagView>| ascending(entries) && #[trigger] map_of(entries) == map
}

/// A map from tag names to tag values.
#[derive(Debug)]
pub struct Tags {
    entries: Vec<(String, String)>,
}

impl Tags {
    /// The tags as pairs of texts, as they are listed.
    pub closed spec fn listed(&self) -> Seq<TagView> {
        Seq::new(self.entries@.len(), |i: int| (self.entries@[i].0@, self.entries@[i].1@))
    }

    /// The names are in ascending order.
    pub open spec fn wf(&self) -> bool {
        ascending(self.listed())
    }
}

impl View for Tags {
    type V = Map<Seq<char>, Seq<char>>;

    open spec fn view(&self) -> Map<Seq<char>, Seq<char>> {
        map_of(self.listed())
    }
}

impl Clone for Tags {
    fn clone(&self) -> (res: Self)
        ensures
            res.listed() == self.listed(),
            res@ == self@,
    {
        let mut entries: Vec<(String, String)> = Vec::new();
        let mut i: usize = 0;
        while i < self.entries.len()
            invariant
                0 <= i <= self.entries@.len(),
                entries@.len() == i,
                forall|j: int|
                    0 <= j < i ==> (#[trigger] entries@[j]).0@ == self.entries@[j].0@
                        && entries@[j].1@ == self.entries@[j].1@,
            decreases self.entries@.len() - i,
        {
            let name: String = self.entries[i].0.clone();
            let value: String = self.entries[i].1.clone();
            entries.push((name, value));
            i = i + 1;
        }
        let res = Tags { entries };
        assert(res.listed() =~= self.listed());
        res
    }
}

impl Tags {
    /// No tags.
    pub fn new() -> (res: Self)
        ensures
            res.wf(),
            res.listed() == Seq::<TagView>::empty(),
            res@ == Map::<Seq<char>, Seq<char>>::empty(),
    {
        let res = Tags { entries: Vec::new() };
        assert(res.listed() =~= Seq::<TagView>::empty());
        res
    }

    /// The number of tags.
    pub fn len(&self) -> (n: usize)
        ensures
            n == self.listed().len(),
    {
        self.entries.len()
    }

    /// The name of the tag at an index.
    pub fn name(&self, i: usize) -> (res: &str)
        requires
            i < self.listed().len(),
        ensures
            res@ == self.listed()[i as int].0,
    {
        self.entries[i].0.as_str()
    }

    /// The value of the tag at an index.
    pub fn value(&self, i: usize) -> (res: &str)
        requires
            i < self.listed().len(),
        ensures
            res@ == self.listed()[i as int].1,
    {
        self.entries[i].1.as_str()
    }

    /// Sets the value of a name, whether or not it had one.
    pub fn insert(&mut self, name: String, value: String)
        requires
            old(self).wf(),
        ensures
            final(self).wf(),
            final(self)@ == old(self)@.insert(name@, value@),
    {
        let ghost before = self.listed();
        let mut i: usize = 0;
        while i < self.entries.len() && text::text_precedes(
            self.entries[i].0.as_str(),
            name.as_str(),
        )
            invariant
                0 <= i <= self.entries@.len(),
                before == self.listed(),
                forall|j: int| 0 <= j < i ==> text::precedes((#[trigger] before[j]).0, name@),
            decreases self.entries@.len() - i,
        {
            assert(before[i as int].0 == self.entries@[i as int].0@);
            i = i + 1;
        }
        let ghost pair: TagView = (name@, value@);
        if i < self.entries.len() && text::same_text(self.entries[i].0.as_str(), name.as_str()) {
            assert(before[i as int].0 == name@);
            self.entries.set(i, (name, value));
            proof {
                assert(self.listed() =~= before.update(i as int, pair));
                lemma_update(before, i as int, pair);
            }
        } else {
            proof {
                if i < before.len() {
                    assert(before[i as int].0 == self.entries@[i as int].0@);
                    text::precedes_total(before[i as int].0, pair.0);
                }
            }
            self.entries.insert(i, (name, value));
            proof {
                assert(self.listed() =~= before.insert(i as int, pair));
                lemma_insert(before, i as int, pair);
            }
        }
    }
}

/// The map of distinct names holds exactly the listed pairs.
proof fn lemma_map_of(entries: Seq<TagView>)
    requires
        ascending(entries),
    ensures
        forall|i: int|
            0 <= i < entries.len() ==> map_of(entries).dom().contains((#[trigger] entries[i]).0)
                && map_of(entries)[entries[i].0] == entries[i].1,
        forall|k: Seq<char>| #[trigger]
            map_of(entries).dom().contains(k) ==> exists|i: int|
                0 <= i < entries.len() && (#[trigger] entries[i]).0 == k,
    decreases entries.len(),
{
    if entries.len() > 0 {
        let init = entries.drop_last();
        let last = entries.len() - 1;
        assert(ascending(init)) by {
            assert forall|i: int, j: int| 0 <= i < j < init.len() implies text::precedes(
                (#[trigger] init[i]).0,
                (#[trigger] init[j]).0,
            ) by {
                assert(init[i] == entries[i] && init[j] == entries[j]);
            }
        }
        lemma_map_of(init);
        assert forall|i: int| 0 <= i < entries.len() implies map_of(entries).dom().contains(
            (#[trigger] entries[i]).0,
        ) && map_of(entries)[entries[i].0] == entries[i].1 by {
            if i < last {
                assert(init[i] == entries[i]);
                assert(text::precedes(entries[i].0, entries[last].0));
                text::precedes_irreflexive(entries[i].0);
            }
        }
        assert forall|k: Seq<char>| #[trigger] map_of(entries).dom().contains(k) implies exists|
            i: int,
        | 0 <= i < entries.len() && (#[trigger] entries[i]).0 == k by {
            if k == entries[last].0 {
            } else {
                assert(map_of(init).dom().contains(k));
                let i = choose|i: int| 0 <= i < init.len() && (#[trigger] init[i]).0 == k;
                assert(entries[i] == init[i]);
            }
        }
    }
}

/// In ascending pairs a name stands at one place only.
proof fn lemma_distinct(entries: Seq<TagView>, i: int, j: int)
    requires
        ascending(entries),
        0 <= i < entries.len(),
        0 <= j < entries.len(),
        entries[i].0 == entries[j].0,
    ensures
        i == j,
{
    text::precedes_irreflexive(entries[i].0);
    if i < j {
        assert(text::precedes(entries[i].0, entries[j].0));
    }
    if j < i {
        assert(text::precedes(entries[j].0, entries[i].0));
    }
}

proof fn lemma_update(entries: Seq<TagView>, at: int, pair: TagView)
    requires
        ascending(entries),
        0 <= at < entries.len(),
        entries[at].0 == pair.0,
    ensures
        ascending(entries.update(at, pair)),
        map_of(entries.update(at, pair)) == map_of(entries).insert(pair.0, pair.1),
{
    let after = entries.update(at, pair);
    assert forall|i: int, j: int| 0 <= i < j < after.len() implies text::precedes(
        (#[trigger] after[i]).0,
        (#[trigger] after[j]).0,
    ) by {
        assert(text::precedes(entries[i].0, entries[j].0));
    }
    lemma_map_of(entries);
    lemma_map_of(after);
    assert forall|k: Seq<char>| map_of(after).dom().contains(k) <==> map_of(entries).insert(
        pair.0,
        pair.1,
    ).dom().contains(k) by {
        if map_of(after).dom().contains(k) {
            let i = choose|i: int| 0 <= i < after.len() && (#[trigger] after[i]).0 == k;
            assert(entries[i].0 == k);
        }
        if map_of(entries).dom().contains(k) {
            let i = choose|i: int| 0 <= i < entries.len() && (#[trigger] entries[i]).0 == k;
            assert(after[i].0 == k);
        }
        assert(after[at].0 == pair.0);
    }
    assert forall|k: Seq<char>| map_of(after).dom().contains(k) implies map_of(after)[k]
        == map_of(entries).insert(pair.0, pair.1)[k] by {
        let i = choose|i: int| 0 <= i < after.len() && (#[trigger] after[i]).0 == k;
        assert(entries[i].0 == k);
        if k == pair.0 {
            lemma_distinct(entries, i, at);
        }
    }
    assert(map_of(after) =~= map_of(entries).insert(pair.0, pair.1));
}

proof fn lemma_insert(entries: Seq<TagView>, at: int, pair: TagView)
    requires
        ascending(entries),
        0 <= at <= entries.len(),
        forall|j: int| 0 <= j < at ==> text::precedes((#[trigger] entries[j]).0, pair.0),
        at < entries.len() ==> text::precedes(pair.0, entries[at].0),
    ensures
        ascending(entries.insert(at, pair)),
        map_of(entries.insert(at, pair)) == map_of(entries).insert(pair.0, pair.1),
{
    let after = entries.insert(at, pair);
    assert forall|j: int| at <= j < entries.len() implies text::precedes(
        pair.0,
        (#[trigger] entries[j]).0,
    ) by {
        if j > at {
            assert(text::precedes(entries[at].0, entries[j].0));
            text::precedes_transitive(pair.0, entries[at].0, entries[j].0);
        }
    }
    assert forall|i: int, j: int| 0 <= i < j < after.len() implies text::precedes(
        (#[trigger] after[i]).0,
        (#[trigger] after[j]).0,
    ) by {
        let a = if i < at {
            i
        } else {
            i - 1
        };
        let b = if j < at {
            j
        } else {
            j - 1
        };
        if i == at {
            assert(after[j] == entries[b]);
        } else if j == at {
            assert(after[i] == entries[a]);
        } else {
            assert(after[i] == entries[a] && after[j] == entries[b]);
        }
    }
    lemma_map_of(entries);
    lemma_map_of(after);
    assert(after[at] == pair);
    assert forall|k: Seq<char>| map_of(after).dom().contains(k) <==> map_of(entries).insert(
        pair.0,
        pair.1,
    ).dom().contains(k) by {
        if map_of(after).dom().contains(k) {
            let i = choose|i: int| 0 <= i < after.len() && (#[trigger] after[i]).0 == k;
            if i < at {
                assert(entries[i].0 == k);
            } else if i > at {
                assert(entries[i - 1].0 == k);
            }
        }
        if map_of(entries).dom().contains(k) {
            let i = choose|i: int| 0 <= i < entries.len() && (#[trigger] entries[i]).0 == k;
            if i < at {
                assert(after[i].0 == k);
            } else {
                assert(after[i + 1].0 == k);
            }
        }
    }
    assert forall|k: Seq<char>| map_of(after).dom().contains(k) implies map_of(after)[k]
        == map_of(entries).insert(pair.0, pair.1)[k] by {
        let i = choose|i: int| 0 <= i < after.len() && (#[trigger] after[i]).0 == k;
        if k == pair.0 {
        } else if i < at {
            assert(entries[i].0 == k);
        } else if i > at {
            assert(entries[i - 1].0 == k);
        }
    }
    assert(map_of(after) =~= map_of(entries).insert(pair.0, pair.1));
}

/// Two ascending lists that stand for the same map are the same list: what is listed depends on
/// the map alone, not on the order in which it was filled.
pub proof fn listing_is_canonical(a: Seq<TagView>, b: Seq<TagView>)
    requires
        ascending(a),
        ascending(b),
        map_of(a) == map_of(b),
    ensures
        a == b,
    decreases a.len(),
{
    lemma_map_of(a);
    lemma_map_of(b);
    if a.len() == 0 || b.len() == 0 {
        if a.len() > 0 {
            assert(map_of(b).dom().contains(a[0].0));
        }
        if b.len() > 0 {
            assert(map_of(a).dom().contains(b[0].0));
        }
        assert(a =~= b);
    } else {
        let (m, n) = (a.len() - 1, b.len() - 1);
        assert(map_of(b).dom().contains(a[m].0));
        let i = choose|i: int| 0 <= i < b.len() && (#[trigger] b[i]).0 == a[m].0;
        assert(map_of(a).dom().contains(b[n].0));
        let j = choose|j: int| 0 <= j < a.len() && (#[trigger] a[j]).0 == b[n].0;
        if i < n && j < m {
            assert(text::precedes(b[i].0, b[n].0));
            assert(text::precedes(a[j].0, a[m].0));
            text::precedes_transitive(a[m].0, b[n].0, a[m].0);
            text::precedes_irreflexive(a[m].0);
        }
        assert(a[m].0 == b[n].0);
        assert(map_of(a)[a[m].0] == a[m].1);
        assert(map_of(b)[b[n].0] == b[n].1);
        let (x, y) = (a.drop_last(), b.drop_last());
        lemma_drop_last(a);
        lemma_drop_last(b);
        assert(map_of(x) == map_of(y));
        listing_is_canonical(x, y);
        assert(a =~= x.push(a[m]));
        assert(b =~= y.push(b[n]));
    }
}

/// Ordered tags are listed as their map says.
pub proof fn lemma_listed(tags: Tags)
    requires
        tags.wf(),
    ensures
        listing(tags@) == tags.listed(),
{
    listing_is_canonical(listing(tags@), tags.listed());
}

/// Dropping the last pair removes its name from the map.
proof fn lemma_drop_last(a: Seq<TagView>)
    requires
        ascending(a),
        a.len() > 0,
    ensures
        ascending(a.drop_last()),
        map_of(a.drop_last()) == map_of(a).remove(a.last().0),
{
    let x = a.drop_last();
    assert forall|i: int, j: int| 0 <= i < j < x.len() implies text::precedes(
        (#[trigger] x[i]).0,
        (#[trigger] x[j]).0,
    ) by {
        assert(x[i] == a[i] && x[j] == a[j]);
    }
    lemma_map_of(x);
    assert(!map_of(x).dom().contains(a.last().0)) by {
        if map_of(x).dom().contains(a.last().0) {
            let i = choose|i: int| 0 <= i < x.len() && (#[trigger] x[i]).0 == a.last().0;
            assert(a[i] == x[i]);
            lemma_distinct(a, i, a.len() - 1);
        }
    }
    assert(map_of(x) =~= map_of(a).remove(a.last().0));
}

/// No name stands in a list twice.
pub proof fn names_differ(entries: Seq<TagView>, i: int, j: int)
    requires
        ascending(entries),
        0 <= i < j < entries.len(),
    ensures
        entries[i].0 != entries[j].0,
{
    if entries[i].0 == entries[j].0 {
        lemma_distinct(entries, i, j);
    }
}

/// A list holds the names of its map, each with its value, and no others.
pub proof fn lists_hold_every_tag(entries: Seq<TagView>, name: Seq<char>)
    requires
        ascending(entries),
    ensures
        map_of(entries).dom().contains(name) <==> exists|i: int|
            0 <= i < entries.len() && (#[trigger] entries[i]).0 == name && entries[i].1 == map_of(
                entries,
            )[name],
{
    lemma_map_of(entries);
    if map_of(entries).dom().contains(name) {
        let i = choose|i: int| 0 <= i < entries.len() && (#[trigger] entries[i]).0 == name;
        assert(entries[i].1 == map_of(entries)[name]);
    }
}

} // verus!
