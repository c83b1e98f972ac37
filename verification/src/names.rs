//! Maps from names, kept in the order of names.
//!
//! A [`NameMap`] holds its entries sorted by name, each name once. Its view is
//! a mathematical map from texts to the views of the values. Sorting gives the
//! notion of the *first* name two maps have in common, which is what
//! diagnostics about conflicts report.

use crate::text::{
    lemma_name_before_irreflexive, lemma_name_before_total, lemma_name_before_transitive,
    name_before, name_order, NameOrder,
};
use vstd::prelude::*;

verus! {

/// The first of `names` in the order of names.
pub open spec fn first_name(names: Set<Seq<char>>) -> Seq<char> {
    choose|n: Seq<char>| is_first_name(names, n)
}

/// `n` is in `names` and every other member comes after it.
pub open spec fn is_first_name(names: Set<Seq<char>>, n: Seq<char>) -> bool {
    &&& names.contains(n)
    &&& forall|m: Seq<char>| #[trigger] names.contains(m) ==> m == n || name_before(n, m)
}

pub proof fn lemma_first_name_unique(names: Set<Seq<char>>, n: Seq<char>)
    requires
        is_first_name(names, n),
    ensures
        first_name(names) == n,
{
    let m = first_name(names);
    assert(is_first_name(names, m));
    if m != n {
        lemma_name_before_transitive(n, m, n);
        lemma_name_before_irreflexive(n);
    }
}

/// A finite, non-empty set of names has a first one.
pub proof fn lemma_first_name(names: Set<Seq<char>>)
    requires
        names.finite(),
        exists|n: Seq<char>| names.contains(n),
    ensures
        is_first_name(names, first_name(names)),
    decreases names.len(),
{
    let some = choose|n: Seq<char>| names.contains(n);
    let rest = names.remove(some);
    if exists|n: Seq<char>| rest.contains(n) {
        lemma_first_name(rest);
        let first = first_name(rest);
        lemma_name_before_total(some, first);
        if name_before(some, first) {
            assert forall|m: Seq<char>| #[trigger] names.contains(m) implies m == some
                || name_before(some, m) by {
                if m != some {
                    assert(rest.contains(m));
                    if m != first {
                        lemma_name_before_transitive(some, first, m);
                    }
                }
            }
            assert(is_first_name(names, some));
        } else {
            assert forall|m: Seq<char>| #[trigger] names.contains(m) implies m == first
                || name_before(first, m) by {
                if m != some {
                    assert(rest.contains(m));
                }
            }
            assert(is_first_name(names, first));
        }
    } else {
        assert forall|m: Seq<char>| #[trigger] names.contains(m) implies m == some by {
            assert(m == some || rest.contains(m));
        }
        assert(is_first_name(names, some));
    }
}

/// A map from names to values.
#[derive(Debug)]
pub struct NameMap<V> {
    entries: Vec<(String, V)>,
}

/// Names strictly increase along `entries`.
pub closed spec fn sorted<V>(entries: Seq<(String, V)>) -> bool {
    forall|i: int, j: int|
        0 <= i < j < entries.len() ==> name_before(
            (#[trigger] entries[i]).0@,
            (#[trigger] entries[j]).0@,
        )
}

/// The map that a list of entries stands for.
pub closed spec fn entry_map<V: View>(entries: Seq<(String, V)>) -> Map<Seq<char>, V::V>
    decreases entries.len(),
{
    if entries.len() == 0 {
        Map::empty()
    } else {
        entry_map(entries.drop_last()).insert(entries.last().0@, entries.last().1@)
    }
}

impl<V: View> View for NameMap<V> {
    type V = Map<Seq<char>, V::V>;

    closed spec fn view(&self) -> Map<Seq<char>, V::V> {
        entry_map(self.entries@)
    }
}

impl<V> NameMap<V> {
    #[verifier::type_invariant]
    spec fn ordered(&self) -> bool {
        sorted(self.entries@)
    }
}

proof fn lemma_entry_map<V: View>(entries: Seq<(String, V)>)
    requires
        sorted(entries),
    ensures
        forall|i: int|
            0 <= i < entries.len() ==> entry_map(entries).contains_key((#[trigger] entries[i]).0@)
                && entry_map(entries)[entries[i].0@] == entries[i].1@,
        forall|n: Seq<char>| #[trigger]
            entry_map(entries).contains_key(n) ==> exists|i: int|
                0 <= i < entries.len() && (#[trigger] entries[i]).0@ == n,
        entry_map(entries).dom().finite(),
        entry_map(entries).dom().len() == entries.len(),
    decreases entries.len(),
{
    if entries.len() > 0 {
        let rest = entries.drop_last();
        let last = entries.last();
        assert(sorted(rest)) by {
            assert forall|i: int, j: int| 0 <= i < j < rest.len() implies name_before(
                (#[trigger] rest[i]).0@,
                (#[trigger] rest[j]).0@,
            ) by {
                assert(rest[i] == entries[i] && rest[j] == entries[j]);
            }
        }
        lemma_entry_map(rest);
        assert forall|i: int| 0 <= i < rest.len() implies (#[trigger] entries[i]).0@ != last.0@ by {
            assert(name_before(entries[i].0@, entries[entries.len() - 1].0@));
            lemma_name_before_irreflexive(last.0@);
        }
        assert(!entry_map(rest).contains_key(last.0@)) by {
            if entry_map(rest).contains_key(last.0@) {
                let i = choose|i: int| 0 <= i < rest.len() && (#[trigger] rest[i]).0@ == last.0@;
                assert(rest[i] == entries[i]);
            }
        }
        assert forall|i: int| 0 <= i < entries.len() implies entry_map(entries).contains_key(
            (#[trigger] entries[i]).0@,
        ) && entry_map(entries)[entries[i].0@] == entries[i].1@ by {
            if i < rest.len() {
                assert(rest[i] == entries[i]);
            }
        }
        assert forall|n: Seq<char>| #[trigger] entry_map(entries).contains_key(n) implies exists|
            i: int,
        | 0 <= i < entries.len() && (#[trigger] entries[i]).0@ == n by {
            if n == last.0@ {
                assert(entries[entries.len() - 1].0@ == n);
            } else {
                let i = choose|i: int| 0 <= i < rest.len() && (#[trigger] rest[i]).0@ == n;
                assert(entries[i].0@ == n);
            }
        }
    }
}

/// A sorted list stands for the map that holds its entries and nothing else.
proof fn lemma_entry_map_is<V: View>(entries: Seq<(String, V)>, map: Map<Seq<char>, V::V>)
    requires
        sorted(entries),
        forall|k: int|
            0 <= k < entries.len() ==> map.contains_key((#[trigger] entries[k]).0@)
                && map[entries[k].0@] == entries[k].1@,
        forall|n: Seq<char>| #[trigger]
            map.contains_key(n) ==> exists|k: int|
                0 <= k < entries.len() && (#[trigger] entries[k]).0@ == n,
    ensures
        entry_map(entries) == map,
{
    lemma_entry_map(entries);
    assert(entry_map(entries) =~= map);
}

/// No name is in a sorted list twice.
proof fn lemma_distinct<V: View>(entries: Seq<(String, V)>, i: int, j: int)
    requires
        sorted(entries),
        0 <= i < entries.len(),
        0 <= j < entries.len(),
        i != j,
    ensures
        entries[i].0@ != entries[j].0@,
{
    lemma_name_before_irreflexive(entries[i].0@);
    assert(name_before(entries[i].0@, entries[j].0@) || name_before(entries[j].0@, entries[i].0@));
}

/// A name that lies strictly between two neighbours is nowhere in the list.
proof fn lemma_absent<V: View>(entries: Seq<(String, V)>, at: int, name: Seq<char>)
    requires
        sorted(entries),
        0 <= at <= entries.len(),
        at > 0 ==> name_before(entries[at - 1].0@, name),
        at < entries.len() ==> name_before(name, entries[at].0@),
    ensures
        !entry_map(entries).contains_key(name),
        forall|i: int| 0 <= i < at ==> name_before((#[trigger] entries[i]).0@, name),
        forall|i: int| at <= i < entries.len() ==> name_before(name, (#[trigger] entries[i]).0@),
{
    lemma_entry_map(entries);
    assert forall|i: int| 0 <= i < at implies name_before((#[trigger] entries[i]).0@, name) by {
        if i < at - 1 {
            lemma_name_before_transitive(entries[i].0@, entries[at - 1].0@, name);
        }
    }
    assert forall|i: int| at <= i < entries.len() implies name_before(
        name,
        (#[trigger] entries[i]).0@,
    ) by {
        if i > at {
            lemma_name_before_transitive(name, entries[at].0@, entries[i].0@);
        }
    }
    if entry_map(entries).contains_key(name) {
        let i = choose|i: int| 0 <= i < entries.len() && (#[trigger] entries[i]).0@ == name;
        lemma_name_before_irreflexive(name);
    }
}

impl<V: View> NameMap<V> {
    /// The empty map.
    pub fn new() -> (r: Self)
        ensures
            r@ == Map::<Seq<char>, V::V>::empty(),
    {
        NameMap { entries: Vec::new() }
    }

    /// How many names the map holds.
    pub fn len(&self) -> (r: usize)
        ensures
            self@.dom().finite(),
            r == self@.dom().len(),
    {
        proof {
            use_type_invariant(self);
            lemma_entry_map(self.entries@);
        }
        self.entries.len()
    }

    /// Whether the map holds no name.
    pub fn is_empty(&self) -> (r: bool)
        ensures
            r == (self@ == Map::<Seq<char>, V::V>::empty()),
    {
        proof {
            use_type_invariant(self);
            lemma_entry_map(self.entries@);
            if self.entries@.len() > 0 {
                assert(self@.contains_key(self.entries@[0].0@));
            }
        }
        self.entries.len() == 0
    }

    /// Where `name` stands (`Ok`), or where it would have to be inserted (`Err`).
    fn position(&self, name: &str) -> (r: Result<usize, usize>)
        ensures
            match r {
                Ok(i) => i < self.entries@.len() && self.entries@[i as int].0@ == name@,
                Err(i) => {
                    &&& i <= self.entries@.len()
                    &&& i > 0 ==> name_before(self.entries@[i - 1].0@, name@)
                    &&& i < self.entries@.len() ==> name_before(name@, self.entries@[i as int].0@)
                },
            },
    {
        let mut i: usize = 0;
        while i < self.entries.len()
            invariant
                i <= self.entries@.len(),
                i > 0 ==> name_before(self.entries@[i - 1].0@, name@),
            decreases self.entries@.len() - i,
        {
            match name_order(self.entries[i].0.as_str(), name) {
                NameOrder::Before => {
                    i += 1;
                },
                NameOrder::Same => {
                    return Ok(i);
                },
                NameOrder::After => {
                    return Err(i);
                },
            }
        }
        Err(i)
    }

    /// Whether the map holds `name`.
    pub fn contains_key(&self, name: &str) -> (r: bool)
        ensures
            r == self@.contains_key(name@),
    {
        proof {
            use_type_invariant(self);
            lemma_entry_map(self.entries@);
        }
        match self.position(name) {
            Ok(_) => true,
            Err(i) => {
                proof {
                    lemma_absent(self.entries@, i as int, name@);
                }
                false
            },
        }
    }

    /// The value that the map holds for `name`.
    pub fn get(&self, name: &str) -> (r: Option<&V>)
        ensures
            r is Some <==> self@.contains_key(name@),
            r matches Some(v) ==> v@ == self@[name@],
    {
        proof {
            use_type_invariant(self);
            lemma_entry_map(self.entries@);
        }
        match self.position(name) {
            Ok(i) => Some(&self.entries[i].1),
            Err(i) => {
                proof {
                    lemma_absent(self.entries@, i as int, name@);
                }
                None
            },
        }
    }

    /// Bind `name` to `value`, in place of an earlier binding if there is one.
    pub fn insert(&mut self, name: String, value: V)
        ensures
            final(self)@ == old(self)@.insert(name@, value@),
    {
        proof {
            use_type_invariant(&*self);
        }
        let place = self.position(name.as_str());
        let mut entries: Vec<(String, V)> = Vec::new();
        std::mem::swap(&mut entries, &mut self.entries);
        let ghost before = entries@;
        let ghost key = name@;
        let ghost map = entry_map(before).insert(key, value@);
        proof {
            lemma_entry_map(before);
        }
        match place {
            Ok(i) => {
                entries.set(i, (name, value));
                proof {
                    assert forall|a: int, b: int| 0 <= a < b < entries@.len() implies name_before(
                        (#[trigger] entries@[a]).0@,
                        (#[trigger] entries@[b]).0@,
                    ) by {
                        assert(name_before(before[a].0@, before[b].0@));
                    }
                    assert forall|k: int| 0 <= k < entries@.len() implies map.contains_key(
                        (#[trigger] entries@[k]).0@,
                    ) && map[entries@[k].0@] == entries@[k].1@ by {
                        if k != i {
                            assert(entries@[k] == before[k]);
                            lemma_distinct(before, k, i as int);
                        }
                    }
                    assert forall|n: Seq<char>| #[trigger] map.contains_key(n) implies exists|
                        k: int,
                    |
                        0 <= k < entries@.len() && (#[trigger] entries@[k]).0@ == n by {
                        if n == key {
                            assert(entries@[i as int].0@ == n);
                        } else {
                            let k = choose|k: int|
                                0 <= k < before.len() && (#[trigger] before[k]).0@ == n;
                            assert(entries@[k].0@ == n);
                        }
                    }
                    lemma_entry_map_is(entries@, map);
                }
            },
            Err(i) => {
                proof {
                    lemma_absent(before, i as int, key);
                }
                entries.insert(i, (name, value));
                proof {
                    assert(forall|k: int|
                        0 <= k < i ==> (#[trigger] entries@[k]) == before[k]);
                    assert(forall|k: int|
                        i < k < entries@.len() ==> (#[trigger] entries@[k]) == before[k - 1]);
                    assert forall|a: int, b: int| 0 <= a < b < entries@.len() implies name_before(
                        (#[trigger] entries@[a]).0@,
                        (#[trigger] entries@[b]).0@,
                    ) by {
                        let x = if a < i { a } else { a - 1 };
                        let y = if b < i { b } else { b - 1 };
                        if a == i {
                            assert(name_before(key, before[y].0@));
                        } else if b == i {
                            assert(name_before(before[x].0@, key));
                        } else {
                            assert(name_before(before[x].0@, before[y].0@));
                        }
                    }
                    assert forall|k: int| 0 <= k < entries@.len() implies map.contains_key(
                        (#[trigger] entries@[k]).0@,
                    ) && map[entries@[k].0@] == entries@[k].1@ by {
                        if k < i {
                            assert(entry_map(before).contains_key(before[k].0@));
                        } else if k > i {
                            assert(entry_map(before).contains_key(before[k - 1].0@));
                        }
                    }
                    assert forall|n: Seq<char>| #[trigger] map.contains_key(n) implies exists|
                        k: int,
                    |
                        0 <= k < entries@.len() && (#[trigger] entries@[k]).0@ == n by {
                        if n == key {
                            assert(entries@[i as int].0@ == n);
                        } else {
                            let k = choose|k: int|
                                0 <= k < before.len() && (#[trigger] before[k]).0@ == n;
                            let m = if k < i { k } else { k + 1 };
                            assert(entries@[m].0@ == n);
                        }
                    }
                    lemma_entry_map_is(entries@, map);
                }
            },
        }
        self.entries = entries;
    }

    /// Forget `name`.
    pub fn remove(&mut self, name: &str)
        ensures
            final(self)@ == old(self)@.remove(name@),
    {
        proof {
            use_type_invariant(&*self);
        }
        let place = self.position(name);
        let mut entries: Vec<(String, V)> = Vec::new();
        std::mem::swap(&mut entries, &mut self.entries);
        let ghost before = entries@;
        proof {
            lemma_entry_map(before);
        }
        match place {
            Ok(i) => {
                let _ = entries.remove(i);
                proof {
                    assert(forall|k: int| 0 <= k < i ==> (#[trigger] entries@[k]) == before[k]);
                    assert(forall|k: int|
                        i <= k < entries@.len() ==> (#[trigger] entries@[k]) == before[k + 1]);
                    assert forall|a: int, b: int| 0 <= a < b < entries@.len() implies name_before(
                        (#[trigger] entries@[a]).0@,
                        (#[trigger] entries@[b]).0@,
                    ) by {
                        let x = if a < i { a } else { a + 1 };
                        let y = if b < i { b } else { b + 1 };
                        assert(name_before(before[x].0@, before[y].0@));
                    }
                    let map = entry_map(before).remove(name@);
                    assert forall|k: int| 0 <= k < entries@.len() implies map.contains_key(
                        (#[trigger] entries@[k]).0@,
                    ) && map[entries@[k].0@] == entries@[k].1@ by {
                        let m = if k < i { k } else { k + 1 };
                        assert(entries@[k] == before[m]);
                        lemma_distinct(before, m, i as int);
                    }
                    assert forall|n: Seq<char>| #[trigger] map.contains_key(n) implies exists|
                        k: int,
                    |
                        0 <= k < entries@.len() && (#[trigger] entries@[k]).0@ == n by {
                        let k = choose|k: int|
                            0 <= k < before.len() && (#[trigger] before[k]).0@ == n;
                        let m = if k < i { k } else { k - 1 };
                        assert(entries@[m].0@ == n);
                    }
                    lemma_entry_map_is(entries@, map);
                }
            },
            Err(i) => {
                proof {
                    lemma_absent(before, i as int, name@);
                    assert(entry_map(before) =~= entry_map(before).remove(name@));
                }
            },
        }
        self.entries = entries;
    }

    /// Add the bindings of `other` for names that `self` does not hold; a
    /// binding that is already there stays.
    pub fn keep_first(self, other: NameMap<V>) -> (r: NameMap<V>)
        ensures
            r@ == other@.union_prefer_right(self@),
    {
        proof {
            use_type_invariant(&other);
        }
        let mut r = self;
        let mut rest = other.entries;
        while rest.len() > 0
            invariant
                sorted(rest@),
                entry_map(rest@).union_prefer_right(r@) == other@.union_prefer_right(self@),
            decreases rest@.len(),
        {
            let ghost before = rest@;
            let ghost r_before = r@;
            if let Some((name, value)) = rest.pop() {
                proof {
                    assert(rest@ =~= before.drop_last());
                    assert(sorted(rest@)) by {
                        assert forall|i: int, j: int| 0 <= i < j < rest@.len() implies name_before(
                            (#[trigger] rest@[i]).0@,
                            (#[trigger] rest@[j]).0@,
                        ) by {
                            assert(rest@[i] == before[i] && rest@[j] == before[j]);
                        }
                    }
                    assert(entry_map(before) == entry_map(rest@).insert(name@, value@));
                }
                if r.contains_key(name.as_str()) {
                    proof {
                        assert(entry_map(rest@).union_prefer_right(r@) =~= entry_map(
                            before,
                        ).union_prefer_right(r_before));
                    }
                } else {
                    r.insert(name, value);
                    proof {
                        assert(entry_map(rest@).union_prefer_right(r@) =~= entry_map(
                            before,
                        ).union_prefer_right(r_before));
                    }
                }
            }
        }
        proof {
            assert(entry_map(rest@).union_prefer_right(r@) =~= r@);
        }
        r
    }

    /// Forget every name that `other` holds.
    pub fn without<W: View>(self, other: &NameMap<W>) -> (r: NameMap<V>)
        ensures
            r@ == self@.remove_keys(other@.dom()),
    {
        proof {
            use_type_invariant(other);
            lemma_entry_map(other.entries@);
        }
        let mut r = self;
        let mut i: usize = 0;
        let ghost mut gone: Set<Seq<char>> = Set::empty();
        proof {
            assert(self@.remove_keys(gone) =~= self@);
        }
        while i < other.entries.len()
            invariant
                i <= other.entries@.len(),
                r@ == self@.remove_keys(gone),
                forall|n: Seq<char>| #[trigger]
                    gone.contains(n) <==> exists|k: int|
                        0 <= k < i && (#[trigger] other.entries@[k]).0@ == n,
            decreases other.entries@.len() - i,
        {
            r.remove(other.entries[i].0.as_str());
            proof {
                let n = other.entries@[i as int].0@;
                let next = gone.insert(n);
                assert(self@.remove_keys(gone).remove(n) =~= self@.remove_keys(next));
                assert forall|m: Seq<char>| #[trigger]
                    next.contains(m) <==> exists|k: int|
                        0 <= k < i + 1 && (#[trigger] other.entries@[k]).0@ == m by {
                    if gone.contains(m) {
                        let k = choose|k: int| 0 <= k < i && (#[trigger] other.entries@[k]).0@ == m;
                        assert(0 <= k < i + 1 && other.entries@[k].0@ == m);
                    }
                    if exists|k: int| 0 <= k < i + 1 && (#[trigger] other.entries@[k]).0@ == m {
                        let k = choose|k: int|
                            0 <= k < i + 1 && (#[trigger] other.entries@[k]).0@ == m;
                        if k < i {
                            assert(gone.contains(m));
                        }
                    }
                }
                gone = next;
            }
            i += 1;
        }
        proof {
            assert(gone =~= other@.dom());
        }
        r
    }

    /// The first name, in the order of names, that both maps hold.
    pub fn first_common<W: View>(&self, other: &NameMap<W>) -> (r: Option<&str>)
        ensures
            match r {
                None => self@.dom().disjoint(other@.dom()),
                Some(n) => {
                    &&& self@.contains_key(n@)
                    &&& other@.contains_key(n@)
                    &&& n@ == first_name(self@.dom().intersect(other@.dom()))
                },
            },
    {
        proof {
            use_type_invariant(self);
            lemma_entry_map(self.entries@);
        }
        let mut i: usize = 0;
        while i < self.entries.len()
            invariant
                i <= self.entries@.len(),
                forall|k: int|
                    0 <= k < i ==> !other@.contains_key((#[trigger] self.entries@[k]).0@),
            decreases self.entries@.len() - i,
        {
            if other.contains_key(self.entries[i].0.as_str()) {
                let r = self.entries[i].0.as_str();
                proof {
                    use_type_invariant(self);
                    lemma_entry_map(self.entries@);
                    let both = self@.dom().intersect(other@.dom());
                    assert forall|m: Seq<char>| #[trigger] both.contains(m) implies m == r@
                        || name_before(r@, m) by {
                        assert(self@.contains_key(m));
                        let k = choose|k: int|
                            0 <= k < self.entries@.len() && (#[trigger] self.entries@[k]).0@ == m;
                        if k > i {
                            assert(name_before(self.entries@[i as int].0@, self.entries@[k].0@));
                        }
                    }
                    assert(is_first_name(both, r@));
                    lemma_first_name_unique(both, r@);
                }
                return Some(r);
            }
            i += 1;
        }
        proof {
            use_type_invariant(self);
            lemma_entry_map(self.entries@);
            assert forall|n: Seq<char>| self@.dom().contains(n) implies !other@.dom().contains(n) by {
                assert(self@.contains_key(n));
                let k = choose|k: int|
                    0 <= k < self.entries@.len() && (#[trigger] self.entries@[k]).0@ == n;
            }
        }
        None
    }
}

impl<V: View + Clone> NameMap<V> {
    /// A map with the same names whose values were cloned.
    pub(crate) fn copied(&self) -> (r: NameMap<V>)
        requires
            forall|v: V, c: V| #[trigger] cloned(v, c) ==> v@ == c@,
        ensures
            r@ == self@,
    {
        proof {
            use_type_invariant(self);
        }
        let mut r: NameMap<V> = NameMap::new();
        let mut i: usize = 0;
        while i < self.entries.len()
            invariant
                forall|v: V, c: V| #[trigger] cloned(v, c) ==> v@ == c@,
                i <= self.entries@.len(),
                r@ == entry_map(self.entries@.take(i as int)),
            decreases self.entries@.len() - i,
        {
            let value = self.entries[i].1.clone();
            assert(cloned(self.entries@[i as int].1, value));
            proof {
                let longer = self.entries@.take(i + 1);
                assert(longer.drop_last() =~= self.entries@.take(i as int));
                assert(longer.last() == self.entries@[i as int]);
            }
            r.insert(self.entries[i].0.clone(), value);
            i += 1;
        }
        assert(self.entries@.take(i as int) =~= self.entries@);
        r
    }
}

} // verus!
