//! Tables keyed by name.

use vstd::prelude::*;

use crate::order;
use crate::text;

verus! {

/// A table from names to values. Entries keep the order in which their names
/// first came in.
#[derive(Debug)]
pub struct NameTable<V> {
    pub names: Vec<String>,
    pub values: Vec<V>,
}

/// Whether the list holds the name.
pub open spec fn holds_name(names: Seq<String>, name: Seq<char>) -> bool {
    exists|i: int| 0 <= i < names.len() && (#[trigger] names[i])@ == name
}

/// A position of the name in the list.
pub open spec fn position_of(names: Seq<String>, name: Seq<char>) -> int {
    choose|i: int| 0 <= i < names.len() && (#[trigger] names[i])@ == name
}

impl<V> NameTable<V> {
    /// Every name has one value, and no name stands twice.
    pub open spec fn wf(&self) -> bool {
        &&& self.names@.len() == self.values@.len()
        &&& forall|i: int, j: int|
            0 <= i < j < self.names@.len() ==> (#[trigger] self.names@[i])@ != (
            #[trigger] self.names@[j])@
    }

    /// The table as a map.
    pub open spec fn view(&self) -> Map<Seq<char>, V> {
        Map::new(
            |name: Seq<char>| holds_name(self.names@, name),
            |name: Seq<char>| self.values@[position_of(self.names@, name)],
        )
    }

    /// What stands at a position is what the map holds for the name there.
    pub proof fn lemma_at(&self, i: int)
        requires
            self.wf(),
            0 <= i < self.names@.len(),
        ensures
            self.view().dom().contains(self.names@[i]@),
            self.view()[self.names@[i]@] == self.values@[i],
    {
        let name = self.names@[i]@;
        assert(holds_name(self.names@, name));
        let j = position_of(self.names@, name);
        assert(0 <= j < self.names@.len() && self.names@[j]@ == name);
        assert(i == j);
    }

    /// The table holds as many names as it lists.
    pub proof fn lemma_len(&self)
        requires
            self.wf(),
        ensures
            self.view().dom().finite(),
            self.view().dom().len() == self.names@.len(),
    {
        let keys = order::views(self.names@);
        assert(keys.no_duplicates()) by {
            assert forall|i: int, j: int| 0 <= i < keys.len() && 0 <= j < keys.len() && i
                != j implies keys[i] != keys[j] by {
                assert(keys[i] == self.names@[i]@ && keys[j] == self.names@[j]@);
            }
        }
        keys.unique_seq_to_set();
        assert forall|n: Seq<char>| #[trigger] keys.to_set().contains(n)
            <==> self.view().dom().contains(n) by {
            if keys.contains(n) {
                let i = choose|i: int| 0 <= i < keys.len() && keys[i] == n;
                assert(self.names@[i]@ == n);
            }
            if holds_name(self.names@, n) {
                let i = position_of(self.names@, n);
                assert(keys[i] == n);
            }
        }
        assert(keys.to_set() =~= self.view().dom());
        vstd::seq_lib::seq_to_set_is_finite(keys);
    }

    /// The empty table.
    pub fn new() -> (t: Self)
        ensures
            t.wf(),
            t.view() == Map::<Seq<char>, V>::empty(),
            t.names@.len() == 0,
    {
        let t: NameTable<V> = NameTable { names: Vec::new(), values: Vec::new() };
        assert(t.view() =~= Map::<Seq<char>, V>::empty());
        t
    }

    /// Where the name stands.
    pub fn find(&self, name: &str) -> (r: Option<usize>)
        requires
            self.wf(),
        ensures
            match r {
                Some(i) => i < self.names@.len() && self.names@[i as int]@ == name@
                    && self.view().dom().contains(name@) && self.view()[name@]
                    == self.values@[i as int],
                None => !self.view().dom().contains(name@),
            },
    {
        let mut i: usize = 0;
        while i < self.names.len()
            invariant
                i <= self.names@.len(),
                self.wf(),
                forall|j: int| 0 <= j < i ==> (#[trigger] self.names@[j])@ != name@,
            decreases self.names@.len() - i,
        {
            if text::same_text(self.names[i].as_str(), name) {
                proof {
                    self.lemma_at(i as int);
                }
                return Some(i);
            }
            i = i + 1;
        }
        None
    }

    /// Whether the table holds the name.
    pub fn contains(&self, name: &str) -> (r: bool)
        requires
            self.wf(),
        ensures
            r == self.view().dom().contains(name@),
    {
        self.find(name).is_some()
    }

    /// The value of the name.
    pub fn get(&self, name: &str) -> (r: Option<&V>)
        requires
            self.wf(),
        ensures
            match r {
                Some(v) => self.view().dom().contains(name@) && self.view()[name@] == *v,
                None => !self.view().dom().contains(name@),
            },
    {
        match self.find(name) {
            Some(i) => Some(&self.values[i]),
            None => None,
        }
    }

    /// Gives the name a value, in place of the one it had.
    pub fn insert(&mut self, name: String, value: V)
        requires
            old(self).wf(),
        ensures
            final(self).wf(),
            final(self).view() == old(self).view().insert(name@, value),
            old(self).view().dom().contains(name@) ==> final(self).names@ == old(self).names@,
            !old(self).view().dom().contains(name@) ==> final(self).names@ == old(self).names@.push(
                name,
            ) && final(self).values@ == old(self).values@.push(value),
    {
        let ghost before = *self;
        match self.find(name.as_str()) {
            Some(i) => {
                self.replace(i, value);
            },
            None => {
                self.names.push(name);
                self.values.push(value);
                proof {
                    assert forall|i: int, j: int| 0 <= i < j < self.names@.len() implies (
                    #[trigger] self.names@[i])@ != (#[trigger] self.names@[j])@ by {
                        if j == before.names@.len() {
                            before.lemma_at(i);
                        }
                    }
                    assert forall|n: Seq<char>| #[trigger]
                        self.view().dom().contains(n) <==> before.view().insert(
                            name@,
                            value,
                        ).dom().contains(n) by {
                        if holds_name(before.names@, n) {
                            let k = position_of(before.names@, n);
                            assert(self.names@[k]@ == n);
                        }
                        if n == name@ {
                            assert(self.names@[before.names@.len() as int]@ == n);
                        }
                        if holds_name(self.names@, n) {
                            let k = position_of(self.names@, n);
                            if k < before.names@.len() {
                                assert(before.names@[k]@ == n);
                            }
                        }
                    }
                    assert forall|n: Seq<char>| #[trigger]
                        self.view().dom().contains(n) implies self.view()[n]
                        == before.view().insert(name@, value)[n] by {
                        let k = position_of(self.names@, n);
                        assert(0 <= k < self.names@.len() && self.names@[k]@ == n);
                        self.lemma_at(k);
                        if k < before.names@.len() {
                            before.lemma_at(k);
                        }
                    }
                    assert(self.view() =~= before.view().insert(name@, value));
                }
            },
        }
    }

    /// Puts a value in place of the one at a position.
    pub fn replace(&mut self, i: usize, value: V)
        requires
            old(self).wf(),
            i < old(self).names@.len(),
        ensures
            final(self).wf(),
            final(self).names@ == old(self).names@,
            final(self).values@ == old(self).values@.update(i as int, value),
            final(self).view() == old(self).view().insert(old(self).names@[i as int]@, value),
    {
        let ghost before = *self;
        self.values.set(i, value);
        proof {
            let name = before.names@[i as int]@;
            before.lemma_at(i as int);
            assert forall|n: Seq<char>| #[trigger] self.view().dom().contains(n) implies self.view()[n]
                == before.view().insert(name, value)[n] by {
                let k = position_of(self.names@, n);
                assert(0 <= k < self.names@.len() && self.names@[k]@ == n);
            }
            assert(self.view() =~= before.view().insert(name, value));
        }
    }
}

/// Whether the list holds exactly the names of the set, in order.
pub open spec fn lists_in_order(names: Seq<Seq<char>>, set: Set<Seq<char>>) -> bool {
    &&& forall|n: Seq<char>| #[trigger] names.contains(n) <==> set.contains(n)
    &&& forall|a: int, b: int|
        0 <= a < b < names.len() ==> order::precedes(#[trigger] names[a], #[trigger] names[b])
}

/// A set of names is listed in order in one way only.
pub proof fn lemma_in_order_unique(a: Seq<Seq<char>>, b: Seq<Seq<char>>, set: Set<Seq<char>>)
    requires
        lists_in_order(a, set),
        lists_in_order(b, set),
    ensures
        a == b,
    decreases a.len(),
{
    if a.len() == 0 {
        if b.len() > 0 {
            assert(b.contains(b[0]));
            assert(a.contains(b[0]));
        }
        assert(a =~= b);
    } else {
        assert(a.contains(a.last()));
        assert(b.contains(a.last()));
        assert(b.contains(b.last()));
        assert(a.contains(b.last()));
        let i = choose|i: int| 0 <= i < b.len() && b[i] == a.last();
        let j = choose|j: int| 0 <= j < a.len() && a[j] == b.last();
        if i < b.len() - 1 && j < a.len() - 1 {
            assert(order::precedes(b[i], b[b.len() - 1]));
            assert(order::precedes(a[j], a[a.len() - 1]));
            order::lemma_precedes_total(a.last(), b.last());
        }
        assert(a.last() == b.last());
        let c = a.drop_last();
        let d = b.drop_last();
        let rest = set.remove(a.last());
        lemma_in_order_without_last(a, set);
        lemma_in_order_without_last(b, set);
        lemma_in_order_unique(c, d, rest);
        assert(a =~= c.push(a.last()));
        assert(b =~= d.push(b.last()));
    }
}

proof fn lemma_in_order_without_last(a: Seq<Seq<char>>, set: Set<Seq<char>>)
    requires
        lists_in_order(a, set),
        a.len() > 0,
    ensures
        lists_in_order(a.drop_last(), set.remove(a.last())),
{
    let c = a.drop_last();
    let rest = set.remove(a.last());
    assert forall|n: Seq<char>| #[trigger] c.contains(n) <==> rest.contains(n) by {
        if c.contains(n) {
            let k = choose|k: int| 0 <= k < c.len() && c[k] == n;
            assert(a[k] == n);
            assert(a.contains(n));
            assert(order::precedes(a[k], a[a.len() - 1]));
            order::lemma_precedes_total(n, a.last());
        }
        if rest.contains(n) {
            assert(a.contains(n));
            let k = choose|k: int| 0 <= k < a.len() && a[k] == n;
            assert(c[k] == n);
        }
    }
}

/// A set that is not empty has a last name.
proof fn lemma_last_name(set: Set<Seq<char>>) -> (last: Seq<char>)
    requires
        set.finite(),
        set.len() > 0,
    ensures
        set.contains(last),
        forall|n: Seq<char>| #[trigger]
            set.contains(n) && n != last ==> order::precedes(n, last),
    decreases set.len(),
{
    let a = set.choose();
    let rest = set.remove(a);
    if rest.len() == 0 {
        assert forall|n: Seq<char>| #[trigger] set.contains(n) && n != a implies order::precedes(
            n,
            a,
        ) by {
            assert(rest.contains(n));
        }
        a
    } else {
        let b = lemma_last_name(rest);
        order::lemma_precedes_total(a, b);
        assert(rest.contains(b));
        if order::precedes(a, b) {
            assert forall|n: Seq<char>| #[trigger] set.contains(n) && n
                != b implies order::precedes(n, b) by {
                if n != a {
                    assert(rest.contains(n));
                }
            }
            b
        } else {
            assert forall|n: Seq<char>| #[trigger] set.contains(n) && n
                != a implies order::precedes(n, a) by {
                assert(rest.contains(n));
                if n != b {
                    order::lemma_precedes_transitive(n, b, a);
                }
            }
            a
        }
    }
}

/// The names of a finite set can be listed in order.
pub proof fn lemma_in_order_exists(set: Set<Seq<char>>)
    requires
        set.finite(),
    ensures
        lists_in_order(in_order(set), set),
    decreases set.len(),
{
    if set.len() == 0 {
        let none = Seq::<Seq<char>>::empty();
        assert(lists_in_order(none, set));
    } else {
        let last = lemma_last_name(set);
        let rest = set.remove(last);
        lemma_in_order_exists(rest);
        let before = in_order(rest);
        let names = before.push(last);
        assert forall|i: int, j: int| 0 <= i < j < names.len() implies order::precedes(
            #[trigger] names[i],
            #[trigger] names[j],
        ) by {
            assert(before.contains(names[i]));
            if j == before.len() {
                assert(set.contains(names[i]));
            }
        }
        assert forall|n: Seq<char>| names.contains(n) <==> set.contains(n) by {
            if set.contains(n) && n != last {
                assert(rest.contains(n));
                assert(before.contains(n));
                let k = choose|k: int| 0 <= k < before.len() && before[k] == n;
                assert(names[k] == n);
            }
            if n == last {
                assert(names[before.len() as int] == n);
            }
            if names.contains(n) && n != last {
                assert(before.contains(n));
            }
        }
        assert(lists_in_order(names, set));
    }
}

/// The names of a set in order.
pub open spec fn in_order(set: Set<Seq<char>>) -> Seq<Seq<char>> {
    choose|names: Seq<Seq<char>>| lists_in_order(names, set)
}

/// The names of a table in order.
pub fn sorted_names<V>(t: &NameTable<V>) -> (r: Vec<String>)
    requires
        t.wf(),
    ensures
        lists_in_order(order::views(r@), t@.dom()),
        r@.len() == t.names@.len(),
{
    let sorted: Vec<usize> = order::sorted_order(&t.names);
    let ghost keys = order::views(t.names@);
    let mut r: Vec<String> = Vec::new();
    let mut k: usize = 0;
    while k < sorted.len()
        invariant
            k <= sorted@.len(),
            keys == order::views(t.names@),
            keys.len() == t.names@.len(),
            order::is_sorted_order(keys, sorted@),
            r@.len() == k,
            forall|a: int| 0 <= a < k ==> (#[trigger] r@[a])@ == keys[sorted@[a] as int],
        decreases sorted@.len() - k,
    {
        r.push(t.names[sorted[k]].clone());
        k = k + 1;
    }
    proof {
        let names = order::views(r@);
        assert forall|a: int, b: int| 0 <= a < b < names.len() implies order::precedes(
            #[trigger] names[a],
            #[trigger] names[b],
        ) by {
            let i = sorted@[a] as int;
            let j = sorted@[b] as int;
            assert(r@[a]@ == keys[i] && r@[b]@ == keys[j]);
            assert(order::goes_first(keys, i, j));
            if keys[i] == keys[j] {
                assert(t.names@[i]@ == t.names@[j]@);
            }
        }
        assert forall|n: Seq<char>| #[trigger] names.contains(n) <==> t@.dom().contains(n) by {
            if names.contains(n) {
                let a = choose|a: int| 0 <= a < names.len() && names[a] == n;
                assert(r@[a]@ == keys[sorted@[a] as int]);
                assert(t.names@[sorted@[a] as int]@ == n);
            }
            if holds_name(t.names@, n) {
                let i = position_of(t.names@, n);
                assert(t.names@[i]@ == n);
                assert(order::is_listed(sorted@, i));
                let a = choose|a: int| 0 <= a < sorted@.len() && #[trigger] sorted@[a] == i;
                assert(names[a] == r@[a]@);
                assert(names[a] == n);
            }
        }
    }
    r
}

} // verus!
