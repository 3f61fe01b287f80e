//! A map from names to values that keeps its names in order.

use vstd::prelude::*;
use crate::text;
use crate::text::{chars_of, comes_before, same, string_of};

verus! {

/// The value that a list of named values has for a name.
pub open spec fn lookup<V>(entries: Seq<(Seq<char>, V)>, name: Seq<char>) -> Option<V>
    decreases entries.len(),
{
    if entries.len() == 0 {
        None
    } else if entries[0].0 == name {
        Some(entries[0].1)
    } else {
        lookup(entries.skip(1), name)
    }
}

/// The list with the name's value set: in place of the value it had, or at its
/// place in the order of names.
pub open spec fn put<V>(entries: Seq<(Seq<char>, V)>, name: Seq<char>, value: V) -> Seq<
    (Seq<char>, V),
>
    decreases entries.len(),
{
    if entries.len() == 0 {
        seq![(name, value)]
    } else if entries[0].0 == name {
        entries.update(0, (name, value))
    } else if text::precedes(name, entries[0].0) {
        seq![(name, value)] + entries
    } else {
        seq![entries[0]] + put(entries.skip(1), name, value)
    }
}

/// Whether the names stand in order, no name twice.
pub open spec fn ordered<V>(entries: Seq<(Seq<char>, V)>) -> bool {
    forall|i: int, j: int|
        0 <= i < j < entries.len() ==> text::precedes(
            (#[trigger] entries[i]).0,
            (#[trigger] entries[j]).0,
        )
}

/// No text comes before itself.
pub proof fn lemma_precedes_irreflexive(a: Seq<char>)
    ensures
        !text::precedes(a, a),
    decreases a.len(),
{
    if a.len() > 0 {
        lemma_precedes_irreflexive(a.skip(1));
    }
}

/// The order of text is transitive.
pub proof fn lemma_precedes_transitive(a: Seq<char>, b: Seq<char>, c: Seq<char>)
    requires
        text::precedes(a, b),
        text::precedes(b, c),
    ensures
        text::precedes(a, c),
    decreases a.len(),
{
    if a.len() > 0 && a[0] == b[0] && b[0] == c[0] {
        lemma_precedes_transitive(a.skip(1), b.skip(1), c.skip(1));
    }
}

/// Of two different texts one comes before the other.
pub proof fn lemma_precedes_total(a: Seq<char>, b: Seq<char>)
    ensures
        a != b ==> text::precedes(a, b) || text::precedes(b, a),
        a == b ==> !text::precedes(a, b),
        text::precedes(a, b) ==> !text::precedes(b, a),
    decreases a.len(),
{
    if a.len() > 0 && b.len() > 0 && a[0] == b[0] {
        lemma_precedes_total(a.skip(1), b.skip(1));
        if a.skip(1) == b.skip(1) {
            assert(a =~= seq![a[0]] + a.skip(1));
            assert(b =~= seq![b[0]] + b.skip(1));
        }
    } else if a.len() == 0 && b.len() == 0 {
        assert(a =~= b);
    }
}

/// The place of a name in an ordered list: every name before it comes before
/// `name`, and none from it on does.
spec fn is_place<V>(entries: Seq<(Seq<char>, V)>, name: Seq<char>, at: int) -> bool {
    &&& 0 <= at <= entries.len()
    &&& forall|i: int|
        0 <= i < at ==> text::precedes((#[trigger] entries[i]).0, name)
    &&& forall|i: int|
        at <= i < entries.len() ==> !text::precedes((#[trigger] entries[i]).0, name)
}

proof fn lemma_lookup_at<V>(entries: Seq<(Seq<char>, V)>, name: Seq<char>, at: int)
    requires
        ordered(entries),
        is_place(entries, name, at),
    ensures
        lookup(entries, name) == if at < entries.len() && entries[at].0 == name {
            Some(entries[at].1)
        } else {
            None
        },
    decreases entries.len(),
{
    if entries.len() > 0 {
        let rest = entries.skip(1);
        assert forall|i: int, j: int| 0 <= i < j < rest.len() implies text::precedes(
            (#[trigger] rest[i]).0,
            (#[trigger] rest[j]).0,
        ) by {
            assert(rest[i] == entries[i + 1] && rest[j] == entries[j + 1]);
        }
        lemma_precedes_irreflexive(name);
        if at > 0 {
            assert(text::precedes(entries[0].0, name));
            lemma_lookup_at(rest, name, at - 1);
        } else if entries[0].0 != name {
            lemma_precedes_total(entries[0].0, name);
            lemma_lookup_at(rest, name, 0);
            if rest.len() > 0 && rest[0].0 == name {
                assert(text::precedes(entries[0].0, entries[1].0));
            }
        }
    }
}

proof fn lemma_put_at<V>(entries: Seq<(Seq<char>, V)>, name: Seq<char>, value: V, at: int)
    requires
        ordered(entries),
        is_place(entries, name, at),
    ensures
        put(entries, name, value) == if at < entries.len() && entries[at].0 == name {
            entries.update(at, (name, value))
        } else {
            entries.insert(at, (name, value))
        },
        ordered(put(entries, name, value)),
    decreases entries.len(),
{
    let made = put(entries, name, value);
    if entries.len() == 0 {
        assert(made =~= entries.insert(0, (name, value)));
    } else if at == 0 {
        lemma_precedes_total(entries[0].0, name);
        assert(!text::precedes(entries[0].0, name));
        if entries[0].0 == name {
            assert forall|i: int, j: int| 0 <= i < j < made.len() implies text::precedes(
                (#[trigger] made[i]).0,
                (#[trigger] made[j]).0,
            ) by {
                assert(made[i].0 == entries[i].0 && made[j].0 == entries[j].0);
            }
        } else {
            assert(made =~= entries.insert(0, (name, value)));
            assert forall|i: int, j: int| 0 <= i < j < made.len() implies text::precedes(
                (#[trigger] made[i]).0,
                (#[trigger] made[j]).0,
            ) by {
                assert(made[j] == entries[j - 1]);
                if i > 0 {
                    assert(made[i] == entries[i - 1]);
                } else if j > 1 {
                    assert(text::precedes(entries[0].0, entries[j - 1].0));
                    lemma_precedes_transitive(name, entries[0].0, entries[j - 1].0);
                }
            }
        }
    } else {
        let rest = entries.skip(1);
        assert forall|i: int, j: int| 0 <= i < j < rest.len() implies text::precedes(
            (#[trigger] rest[i]).0,
            (#[trigger] rest[j]).0,
        ) by {
            assert(rest[i] == entries[i + 1] && rest[j] == entries[j + 1]);
        }
        assert(text::precedes(entries[0].0, name));
        lemma_precedes_total(entries[0].0, name);
        lemma_put_at(rest, name, value, at - 1);
        let tail = put(rest, name, value);
        if at < entries.len() && entries[at].0 == name {
            assert(made =~= entries.update(at, (name, value)));
        } else {
            assert(made =~= entries.insert(at, (name, value)));
        }
        assert forall|i: int, j: int| 0 <= i < j < made.len() implies text::precedes(
            (#[trigger] made[i]).0,
            (#[trigger] made[j]).0,
        ) by {
            assert(made[j] == tail[j - 1]);
            if i > 0 {
                assert(made[i] == tail[i - 1]);
            } else if made[j].0 != name {
                let k = if at < entries.len() && entries[at].0 == name || j < at {
                    j
                } else {
                    j - 1
                };
                assert(made[j] == entries[k]);
                assert(text::precedes(entries[0].0, entries[k].0));
            }
        }
    }
}

/// There is a place for every name.
proof fn lemma_place<V>(entries: Seq<(Seq<char>, V)>, name: Seq<char>) -> (at: int)
    requires
        ordered(entries),
    ensures
        is_place(entries, name, at),
    decreases entries.len(),
{
    if entries.len() == 0 {
        0
    } else if text::precedes(entries.last().0, name) {
        assert forall|i: int| 0 <= i < entries.len() implies text::precedes(
            (#[trigger] entries[i]).0,
            name,
        ) by {
            if i < entries.len() - 1 {
                assert(text::precedes(entries[i].0, entries[entries.len() - 1].0));
                lemma_precedes_transitive(entries[i].0, entries[entries.len() - 1].0, name);
            }
        }
        entries.len() as int
    } else {
        let less = entries.drop_last();
        assert forall|i: int, j: int| 0 <= i < j < less.len() implies text::precedes(
            (#[trigger] less[i]).0,
            (#[trigger] less[j]).0,
        ) by {
            assert(less[i] == entries[i] && less[j] == entries[j]);
        }
        let at = lemma_place(less, name);
        assert forall|i: int| 0 <= i < at implies text::precedes(
            (#[trigger] entries[i]).0,
            name,
        ) by {
            assert(less[i] == entries[i]);
        }
        assert forall|i: int| at <= i < entries.len() implies !text::precedes(
            (#[trigger] entries[i]).0,
            name,
        ) by {
            if i < less.len() {
                assert(less[i] == entries[i]);
            }
        }
        at
    }
}

/// Setting a name's value keeps the names in order, gives that name the value
/// and leaves what every other name has.
pub proof fn law_put<V>(entries: Seq<(Seq<char>, V)>, name: Seq<char>, value: V, other: Seq<char>)
    requires
        ordered(entries),
    ensures
        ordered(put(entries, name, value)),
        lookup(put(entries, name, value), name) == Some(value),
        other != name ==> lookup(put(entries, name, value), other) == lookup(entries, other),
{
    let at = lemma_place(entries, name);
    lemma_put_at(entries, name, value, at);
    lemma_lookup_put(entries, name, value, name);
    lemma_lookup_put(entries, name, value, other);
}

proof fn lemma_lookup_put<V>(
    entries: Seq<(Seq<char>, V)>,
    name: Seq<char>,
    value: V,
    other: Seq<char>,
)
    ensures
        lookup(put(entries, name, value), other) == if other == name {
            Some(value)
        } else {
            lookup(entries, other)
        },
    decreases entries.len(),
{
    let made = put(entries, name, value);
    if entries.len() == 0 {
        assert(made.skip(1) =~= entries);
    } else if entries[0].0 == name {
        assert(made.skip(1) =~= entries.skip(1));
    } else if text::precedes(name, entries[0].0) {
        assert(made.skip(1) =~= entries);
    } else {
        lemma_lookup_put(entries.skip(1), name, value, other);
        assert(made.skip(1) =~= put(entries.skip(1), name, value));
    }
}

/// A map from names to values, in name order. **Data.**
#[derive(Debug, PartialEq, Eq)]
pub struct TextMap<V> {
    entries: Vec<(Vec<char>, V)>,
}

impl<V> View for TextMap<V> {
    type V = Seq<(Seq<char>, V)>;

    closed spec fn view(&self) -> Seq<(Seq<char>, V)> {
        self.entries@.map_values(|entry: (Vec<char>, V)| (entry.0@, entry.1))
    }
}

impl<V: Copy> Clone for TextMap<V> {
    fn clone(&self) -> (m: Self)
        ensures
            m@ == self@,
    {
        proof {
            use_type_invariant(self);
        }
        let viewed = Ghost(|entry: (Vec<char>, V)| (entry.0@, entry.1));
        let mut entries: Vec<(Vec<char>, V)> = Vec::new();
        let mut i: usize = 0;
        while i < self.entries.len()
            invariant
                i <= self.entries@.len(),
                viewed@ == (|entry: (Vec<char>, V)| (entry.0@, entry.1)),
                entries@.map_values(viewed@) == self@.take(i as int),
            decreases self.entries@.len() - i,
        {
            let ghost done = entries@;
            let entry = &self.entries[i];
            entries.push((vstd::slice::slice_to_vec(entry.0.as_slice()), entry.1));
            assert(entries@.map_values(viewed@) =~= done.map_values(viewed@).push(self@[i as int]));
            assert(self@.take(i + 1) =~= self@.take(i as int).push(self@[i as int]));
            i = i + 1;
        }
        assert(self@.take(i as int) =~= self@);
        TextMap { entries }
    }
}

impl<V> TextMap<V> {
    #[verifier::type_invariant]
    spec fn in_order(self) -> bool {
        ordered(self@)
    }

    /// The map with nothing in it. **Calculation.**
    pub fn new() -> (m: Self)
        ensures
            m@ == Seq::<(Seq<char>, V)>::empty(),
    {
        let m = TextMap { entries: Vec::new() };
        assert(m@ =~= Seq::<(Seq<char>, V)>::empty());
        m
    }

    /// The place of a name. **Calculation.**
    fn seek(&self, name: &[char]) -> (at: usize)
        ensures
            is_place(self@, name@, at as int),
    {
        proof {
            use_type_invariant(self);
        }
        let mut low: usize = 0;
        let mut high: usize = self.entries.len();
        while low < high
            invariant
                low <= high <= self.entries@.len(),
                self@.len() == self.entries@.len(),
                ordered(self@),
                forall|i: int|
                    0 <= i < low ==> text::precedes((#[trigger] self@[i]).0, name@),
                forall|i: int|
                    high <= i < self@.len() ==> !text::precedes((#[trigger] self@[i]).0, name@),
            decreases high - low,
        {
            let middle: usize = low + (high - low) / 2;
            let ghost m = middle as int;
            assert(self@[m].0 == self.entries@[m].0@);
            if comes_before(self.entries[middle].0.as_slice(), name) {
                assert forall|i: int| 0 <= i < middle + 1 implies text::precedes(
                    (#[trigger] self@[i]).0,
                    name@,
                ) by {
                    if i < m {
                        assert(text::precedes(self@[i].0, self@[m].0));
                        lemma_precedes_transitive(self@[i].0, self@[m].0, name@);
                    }
                }
                low = middle + 1;
            } else {
                assert forall|i: int| middle <= i < self@.len() implies !text::precedes(
                    (#[trigger] self@[i]).0,
                    name@,
                ) by {
                    if i > m && text::precedes(self@[i].0, name@) {
                        assert(text::precedes(self@[m].0, self@[i].0));
                        lemma_precedes_transitive(self@[m].0, self@[i].0, name@);
                    }
                }
                high = middle;
            }
        }
        low
    }

    /// The map with the name's value set. **Calculation.**
    pub fn with(self, name: &[char], value: V) -> (m: Self)
        ensures
            m@ == put(self@, name@, value),
    {
        proof {
            use_type_invariant(&self);
        }
        let at: usize = self.seek(name);
        let ghost before = self@;
        let key: Vec<char> = vstd::slice::slice_to_vec(name);
        proof {
            lemma_put_at(self@, name@, value, at as int);
        }
        let mut entries: Vec<(Vec<char>, V)> = self.entries;
        let ghost old_entries = entries@;
        let viewed = Ghost(|entry: (Vec<char>, V)| (entry.0@, entry.1));
        assert(before == old_entries.map_values(viewed@));
        if at < entries.len() && same(entries[at].0.as_slice(), name) {
            entries.set(at, (key, value));
            assert(entries@.map_values(viewed@) =~= before.update(at as int, (name@, value)));
        } else {
            entries.insert(at, (key, value));
            assert(entries@.map_values(viewed@) =~= before.insert(at as int, (name@, value)));
        }
        TextMap { entries }
    }

    /// The value of a name, given by its characters. **Calculation.**
    pub fn find(&self, name: &[char]) -> (r: Option<&V>)
        ensures
            match r {
                Some(value) => lookup(self@, name@) == Some(*value),
                None => lookup(self@, name@) is None,
            },
    {
        proof {
            use_type_invariant(self);
        }
        let at: usize = self.seek(name);
        proof {
            lemma_lookup_at(self@, name@, at as int);
            if at < self@.len() {
                assert(self@[at as int] == (self.entries@[at as int].0@, self.entries@[at as int].1));
            }
        }
        if at < self.entries.len() && same(self.entries[at].0.as_slice(), name) {
            Some(&self.entries[at].1)
        } else {
            None
        }
    }

    /// The value of a name. **Calculation.**
    pub fn get(&self, name: &str) -> (r: Option<&V>)
        ensures
            match r {
                Some(value) => lookup(self@, name@) == Some(*value),
                None => lookup(self@, name@) is None,
            },
    {
        let chars = chars_of(name);
        self.find(chars.as_slice())
    }

    /// The number of names. **Calculation.**
    pub fn len(&self) -> (n: usize)
        ensures
            n == self@.len(),
    {
        self.entries.len()
    }

    /// One name and its value. **Calculation.**
    pub fn entry(&self, i: usize) -> (r: (&[char], &V))
        requires
            i < self@.len(),
        ensures
            r.0@ == self@[i as int].0,
            *r.1 == self@[i as int].1,
    {
        (self.entries[i].0.as_slice(), &self.entries[i].1)
    }

    /// The names, in order. **Calculation.**
    pub fn keys(&self) -> (names: Vec<String>)
        ensures
            names@.len() == self@.len(),
            forall|i: int| 0 <= i < names@.len() ==> (#[trigger] names@[i])@ == self@[i].0,
            ordered(self@),
    {
        proof {
            use_type_invariant(self);
        }
        let mut names: Vec<String> = Vec::new();
        let mut i: usize = 0;
        while i < self.entries.len()
            invariant
                i <= self.entries@.len(),
                self@.len() == self.entries@.len(),
                names@.len() == i,
                forall|k: int| 0 <= k < i ==> (#[trigger] names@[k])@ == self@[k].0,
            decreases self.entries@.len() - i,
        {
            names.push(string_of(self.entries[i].0.as_slice()));
            i = i + 1;
        }
        names
    }
}

}
