//! The header multimap.

use vstd::prelude::*;
use vstd::string::*;

verus! {

broadcast use vstd::string::group_string_axioms;

/// One header name with the values recorded for it.
#[derive(Clone, Debug)]
pub struct HeaderEntry {
    pub name: String,
    pub values: Vec<String>,
}

/// A multimap from header name to the set of values of that header.
///
/// The entries are kept in the order in which their names first appeared; the
/// meaning of the value is its view, a map from name to value set.
#[derive(Clone, Debug)]
pub struct Headers {
    pub inner: Vec<HeaderEntry>,
}

/// The set of strings that `values` holds.
pub open spec fn string_set(values: Seq<String>) -> Set<Seq<char>> {
    Set::new(|v: Seq<char>| exists|j: int| 0 <= j < values.len() && (#[trigger] values[j])@ == v)
}

/// No string occurs twice in `values`.
pub open spec fn strings_distinct(values: Seq<String>) -> bool {
    forall|i: int, j: int|
        0 <= i < j < values.len() ==> (#[trigger] values[i])@ != (#[trigger] values[j])@
}

/// Whether some entry carries the name `k`.
pub open spec fn has_name(entries: Seq<HeaderEntry>, k: Seq<char>) -> bool {
    exists|i: int| 0 <= i < entries.len() && (#[trigger] entries[i]).name@ == k
}

/// The index of an entry named `k`.
pub open spec fn index_of(entries: Seq<HeaderEntry>, k: Seq<char>) -> int {
    choose|i: int| 0 <= i < entries.len() && (#[trigger] entries[i]).name@ == k
}

/// No name occurs in two entries.
pub open spec fn names_distinct(entries: Seq<HeaderEntry>) -> bool {
    forall|i: int, j: int|
        0 <= i < j < entries.len() ==> (#[trigger] entries[i]).name@ != (#[trigger] entries[j]).name@
}

/// The map that a sequence of entries stands for.
pub open spec fn entries_map(entries: Seq<HeaderEntry>) -> Map<Seq<char>, Set<Seq<char>>> {
    Map::new(
        |k: Seq<char>| has_name(entries, k),
        |k: Seq<char>| string_set(entries[index_of(entries, k)].values@),
    )
}

/// The values recorded under `name` in `m`, the empty set if there are none.
pub open spec fn values_for(m: Map<Seq<char>, Set<Seq<char>>>, name: Seq<char>) -> Set<Seq<char>> {
    if m.contains_key(name) {
        m[name]
    } else {
        Set::empty()
    }
}

/// With distinct names, the entry at `i` is the one that its name finds.
pub proof fn lemma_index_of(entries: Seq<HeaderEntry>, i: int)
    requires
        names_distinct(entries),
        0 <= i < entries.len(),
    ensures
        has_name(entries, entries[i].name@),
        index_of(entries, entries[i].name@) == i,
{
    let k = entries[i].name@;
    let j = index_of(entries, k);
    assert(0 <= j < entries.len() && entries[j].name@ == k);
    if j < i {
        assert(entries[j].name@ != entries[i].name@);
    } else if i < j {
        assert(entries[i].name@ != entries[j].name@);
    }
}

impl View for Headers {
    type V = Map<Seq<char>, Set<Seq<char>>>;

    open spec fn view(&self) -> Map<Seq<char>, Set<Seq<char>>> {
        entries_map(self.inner@)
    }
}

impl Default for Headers {
    fn default() -> (r: Headers)
        ensures
            r.wf(),
            r@ == Map::<Seq<char>, Set<Seq<char>>>::empty(),
    {
        Headers::new()
    }
}

impl Headers {
    /// Every name stands once, and every entry holds at least one value and
    /// none of them twice.
    pub open spec fn wf(&self) -> bool {
        &&& names_distinct(self.inner@)
        &&& forall|i: int|
            0 <= i < self.inner@.len() ==> (#[trigger] self.inner@[i]).values@.len() > 0
                && strings_distinct(self.inner@[i].values@)
    }

    /// The empty multimap.
    pub fn new() -> (r: Headers)
        ensures
            r.wf(),
            r@ == Map::<Seq<char>, Set<Seq<char>>>::empty(),
            r.inner@.len() == 0,
    {
        let r = Headers { inner: Vec::new() };
        assert(r@ =~= Map::<Seq<char>, Set<Seq<char>>>::empty());
        r
    }

    /// The position of the entry named `name`, or the number of entries if
    /// there is none.
    fn locate(&self, name: &String) -> (i: usize)
        ensures
            i <= self.inner@.len(),
            i < self.inner@.len() ==> self.inner@[i as int].name@ == name@,
            i == self.inner@.len() ==> !has_name(self.inner@, name@),
    {
        let mut i: usize = 0;
        while i < self.inner.len()
            invariant
                i <= self.inner@.len(),
                forall|j: int| 0 <= j < i ==> (#[trigger] self.inner@[j]).name@ != name@,
            decreases self.inner@.len() - i,
        {
            if self.inner[i].name == *name {
                return i;
            }
            i += 1;
        }
        i
    }

    /// Adds `value` to the set recorded under `name`.
    pub fn insert(&mut self, name: String, value: String)
        requires
            old(self).wf(),
        ensures
            final(self).wf(),
            final(self)@ == old(self)@.insert(
                name@,
                values_for(old(self)@, name@).insert(value@),
            ),
    {
        let i = self.locate(&name);
        let ghost before = self.inner@;
        if i == self.inner.len() {
            let mut values: Vec<String> = Vec::new();
            values.push(value);
            let entry = HeaderEntry { name, values };
            self.inner.push(entry);
            proof {
                let after = self.inner@;
                assert(after[i as int] == entry);
                assert forall|a: int, b: int| 0 <= a < b < after.len() implies (#[trigger] after[a]).name@
                    != (#[trigger] after[b]).name@ by {
                    if b == i {
                        assert(before[a].name@ != name@);
                    } else {
                        assert(after[a] == before[a] && after[b] == before[b]);
                    }
                }
                assert forall|a: int| 0 <= a < after.len() implies (#[trigger] after[a]).values@.len()
                    > 0 && strings_distinct(after[a].values@) by {
                    if a < i {
                        assert(after[a] == before[a]);
                    }
                }
                lemma_view_after_change(before, after, i as int, value@);
            }
        } else {
            let present = contains_string(&self.inner[i].values, &value);
            proof {
                lemma_index_of(before, i as int);
            }
            if !present {
                push_value(&mut self.inner, i, value);
                proof {
                    let after = self.inner@;
                    assert forall|a: int, b: int| 0 <= a < b < after.len() implies (
                    #[trigger] after[a]).name@ != (#[trigger] after[b]).name@ by {
                        assert(after[a].name@ == before[a].name@);
                        assert(after[b].name@ == before[b].name@);
                    }
                    assert forall|a: int| 0 <= a < after.len() implies (#[trigger] after[a]).values@.len()
                        > 0 && strings_distinct(after[a].values@) by {
                        if a != i {
                            assert(after[a] == before[a]);
                        } else {
                            let vs = after[a].values@;
                            let old_vs = before[a].values@;
                            assert(strings_distinct(old_vs));
                            assert forall|x: int, y: int| 0 <= x < y < vs.len() implies (
                            #[trigger] vs[x])@ != (#[trigger] vs[y])@ by {
                                assert(vs[x] == old_vs[x]);
                                if y < old_vs.len() {
                                    assert(vs[y] == old_vs[y]);
                                } else {
                                    assert(string_set(old_vs).contains(old_vs[x]@));
                                }
                            }
                        }
                    }
                    assert(after[i as int].values@.drop_last() =~= before[i as int].values@);
                    lemma_view_after_change(before, after, i as int, value@);
                }
            } else {
                proof {
                    let m = self@;
                    assert(values_for(m, name@).insert(value@) =~= m[name@]);
                    assert(m =~= m.insert(name@, values_for(m, name@).insert(value@)));
                }
            }
        }
    }

    /// The values recorded under `name`, if there are any.
    pub fn get(&self, name: &str) -> (r: Option<&Vec<String>>)
        requires
            self.wf(),
        ensures
            r is Some <==> self@.contains_key(name@),
            r matches Some(values) ==> string_set(values@) == self@[name@] && values@.len() > 0
                && strings_distinct(values@),
    {
        let key = String::from_str(name);
        let i = self.locate(&key);
        if i == self.inner.len() {
            None
        } else {
            proof {
                lemma_index_of(self.inner@, i as int);
            }
            Some(&self.inner[i].values)
        }
    }
}

/// The map that a sequence of name and value pairs stands for.
pub open spec fn pairs_map(pairs: Seq<(String, String)>) -> Map<Seq<char>, Set<Seq<char>>>
    decreases pairs.len(),
{
    if pairs.len() == 0 {
        Map::empty()
    } else {
        let m = pairs_map(pairs.drop_last());
        let (name, value) = pairs.last();
        m.insert(name@, values_for(m, name@).insert(value@))
    }
}

impl Headers {
    /// Collects pairs of name and value into a multimap.
    pub fn from_iter(pairs: Vec<(String, String)>) -> (r: Headers)
        ensures
            r.wf(),
            r@ == pairs_map(pairs@),
    {
        let mut headers = Headers::new();
        let mut i: usize = 0;
        while i < pairs.len()
            invariant
                i <= pairs@.len(),
                headers.wf(),
                headers@ == pairs_map(pairs@.take(i as int)),
            decreases pairs@.len() - i,
        {
            proof {
                assert(pairs@.take(i + 1).drop_last() =~= pairs@.take(i as int));
            }
            headers.insert(pairs[i].0.clone(), pairs[i].1.clone());
            i += 1;
        }
        proof {
            assert(pairs@.take(i as int) =~= pairs@);
        }
        headers
    }
}

/// Whether every value that `a` holds under a name, `b` holds under it too.
pub open spec fn included(
    a: Map<Seq<char>, Set<Seq<char>>>,
    b: Map<Seq<char>, Set<Seq<char>>>,
) -> bool {
    forall|k: Seq<char>| #[trigger] a.contains_key(k) ==> b.contains_key(k) && a[k].subset_of(b[k])
}

impl Headers {
    /// Whether `other` holds every value of `self` under the same name.
    pub fn is_included_in(&self, other: &Headers) -> (r: bool)
        requires
            self.wf(),
            other.wf(),
        ensures
            r == included(self@, other@),
    {
        let mut i: usize = 0;
        while i < self.inner.len()
            invariant
                self.wf(),
                other.wf(),
                i <= self.inner@.len(),
                forall|a: int|
                    0 <= a < i ==> other@.contains_key((#[trigger] self.inner@[a]).name@)
                        && string_set(self.inner@[a].values@).subset_of(
                        other@[self.inner@[a].name@],
                    ),
            decreases self.inner@.len() - i,
        {
            let entry = &self.inner[i];
            proof {
                lemma_index_of(self.inner@, i as int);
            }
            let at = other.locate(&entry.name);
            if at == other.inner.len() {
                assert(self@.contains_key(entry.name@));
                return false;
            }
            proof {
                lemma_index_of(other.inner@, at as int);
            }
            let mut j: usize = 0;
            while j < entry.values.len()
                invariant
                    j <= entry.values@.len(),
                    i < self.inner@.len(),
                    at < other.inner@.len(),
                    *entry == self.inner@[i as int],
                    has_name(self.inner@, entry.name@),
                    index_of(self.inner@, entry.name@) == i,
                    has_name(other.inner@, entry.name@),
                    index_of(other.inner@, entry.name@) == at,
                    forall|b: int|
                        0 <= b < j ==> string_set(other.inner@[at as int].values@).contains(
                            (#[trigger] entry.values@[b])@,
                        ),
                decreases entry.values@.len() - j,
            {
                if !contains_string(&other.inner[at].values, &entry.values[j]) {
                    proof {
                        let v = entry.values@[j as int]@;
                        assert(self@.contains_key(entry.name@));
                        assert(self@[entry.name@].contains(v));
                        assert(!other@[entry.name@].contains(v));
                        assert(!self@[entry.name@].subset_of(other@[entry.name@]));
                    }
                    return false;
                }
                j += 1;
            }
            proof {
                let mine = string_set(entry.values@);
                assert forall|x: Seq<char>| mine.contains(x) implies other@[entry.name@].contains(
                    x,
                ) by {
                    let b = choose|b: int|
                        0 <= b < entry.values@.len() && (#[trigger] entry.values@[b])@ == x;
                    assert(string_set(other.inner@[at as int].values@).contains(entry.values@[b]@));
                }
            }
            i += 1;
        }
        proof {
            assert forall|k: Seq<char>| #[trigger] self@.contains_key(k) implies other@.contains_key(
                k,
            ) && self@[k].subset_of(other@[k]) by {
                let a = index_of(self.inner@, k);
                assert(self.inner@[a].name@ == k);
            }
        }
        true
    }

    /// Whether the two multimaps hold the same set of values under every
    /// name, whatever the order of their entries.
    pub fn equals(&self, other: &Headers) -> (r: bool)
        requires
            self.wf(),
            other.wf(),
        ensures
            r == (self@ == other@),
    {
        let r = self.is_included_in(other) && other.is_included_in(self);
        proof {
            if r {
                assert forall|k: Seq<char>| self@.contains_key(k) implies self@[k] == other@[k] by {
                    assert(other@.contains_key(k));
                    assert(self@[k] =~= other@[k]);
                }
                assert(self@ =~= other@);
            }
        }
        r
    }

    /// Every name of a well-formed multimap has a value.
    pub proof fn lemma_no_name_without_value(&self, k: Seq<char>)
        requires
            self.wf(),
            self@.contains_key(k),
        ensures
            exists|v: Seq<char>| self@[k].contains(v),
    {
        let i = index_of(self.inner@, k);
        let values = self.inner@[i].values@;
        assert(values[0]@ == values[0]@);
        assert(self@[k].contains(values[0]@));
    }
}

/// Whether `values` holds `value`.
fn contains_string(values: &Vec<String>, value: &String) -> (r: bool)
    ensures
        r == string_set(values@).contains(value@),
{
    let mut j: usize = 0;
    while j < values.len()
        invariant
            j <= values@.len(),
            forall|k: int| 0 <= k < j ==> (#[trigger] values@[k])@ != value@,
        decreases values@.len() - j,
    {
        if values[j] == *value {
            return true;
        }
        j += 1;
    }
    false
}

/// Appends `value` to the values of the entry at `i`.
fn push_value(entries: &mut Vec<HeaderEntry>, i: usize, value: String)
    requires
        i < old(entries)@.len(),
    ensures
        final(entries)@.len() == old(entries)@.len(),
        forall|a: int| 0 <= a < old(entries)@.len() && a != i ==> final(entries)@[a] == old(entries)@[a],
        final(entries)@[i as int].name == old(entries)@[i as int].name,
        final(entries)@[i as int].values@ == old(entries)@[i as int].values@.push(value),
{
    let mut entry = entries.remove(i);
    entry.values.push(value);
    entries.insert(i, entry);
}

/// What the map becomes when the entry at `i` gains `value`, be the entry
/// new or old.
proof fn lemma_view_after_change(
    before: Seq<HeaderEntry>,
    after: Seq<HeaderEntry>,
    i: int,
    value: Seq<char>,
)
    requires
        names_distinct(before),
        names_distinct(after),
        0 <= i < after.len(),
        i < before.len() ==> after.len() == before.len(),
        i >= before.len() ==> after.len() == before.len() + 1 && i == before.len(),
        forall|a: int| 0 <= a < before.len() && a != i ==> after[a] == before[a],
        i < before.len() ==> after[i].name == before[i].name && after[i].values@.len()
            == before[i].values@.len() + 1 && after[i].values@.last()@ == value
            && after[i].values@.drop_last() == before[i].values@,
        i == before.len() ==> after[i].values@.len() == 1 && after[i].values@[0]@ == value
            && !has_name(before, after[i].name@),
    ensures
        entries_map(after) == entries_map(before).insert(
            after[i].name@,
            values_for(entries_map(before), after[i].name@).insert(value),
        ),
{
    let name = after[i].name@;
    let m0 = entries_map(before);
    let m1 = entries_map(after);
    let base = values_for(m0, name);
    let target = m0.insert(name, base.insert(value));
    lemma_index_of(after, i);
    if i < before.len() {
        lemma_index_of(before, i);
    }
    let new_vs = after[i].values@;
    assert(string_set(new_vs) =~= base.insert(value)) by {
        assert forall|v: Seq<char>| string_set(new_vs).contains(v) implies base.insert(value).contains(
            v,
        ) by {
            let j = choose|j: int| 0 <= j < new_vs.len() && (#[trigger] new_vs[j])@ == v;
            if j < new_vs.len() - 1 {
                assert(i < before.len());
                assert(new_vs.drop_last()[j] == new_vs[j]);
                assert(before[i].values@[j]@ == v);
            }
        }
        assert forall|v: Seq<char>| base.insert(value).contains(v) implies string_set(new_vs).contains(
            v,
        ) by {
            if v == value {
                assert(new_vs[new_vs.len() - 1]@ == v);
            } else {
                assert(i < before.len());
                let old_vs = before[i].values@;
                let j = choose|j: int| 0 <= j < old_vs.len() && (#[trigger] old_vs[j])@ == v;
                assert(new_vs.drop_last()[j] == new_vs[j]);
                assert(new_vs[j]@ == v);
            }
        }
    }
    assert forall|k: Seq<char>| m1.contains_key(k) <==> target.contains_key(k) by {
        if has_name(after, k) {
            let a = index_of(after, k);
            if a != i {
                assert(before[a].name@ == k);
            }
        }
        if has_name(before, k) {
            let a = index_of(before, k);
            assert(after[a].name@ == k);
        }
    }
    assert forall|k: Seq<char>| m1.contains_key(k) implies m1[k] == target[k] by {
        let a = index_of(after, k);
        if a != i {
            assert(before[a].name@ == k);
            lemma_index_of(before, a);
            assert(k != name);
        }
    }
    assert(m1 =~= target);
}

} // verus!
