//! A small map from names to values that remembers the order in which the
//! names were first inserted; that order is the order of iteration.
use vstd::prelude::*;

verus! {

/// The entries of a map in the model: name and value, in iteration order.
pub type Entries<T> = Seq<(Seq<char>, T)>;

/// No name occurs twice.
pub open spec fn keys_distinct<T>(s: Entries<T>) -> bool {
    forall|i: int, j: int|
        0 <= i < s.len() && 0 <= j < s.len() && i != j ==> #[trigger] s[i].0 != #[trigger] s[j].0
}

pub open spec fn has_key<T>(s: Entries<T>, k: Seq<char>) -> bool {
    exists|i: int| 0 <= i < s.len() && #[trigger] s[i].0 == k
}

/// The position of `k` (meaningful when `has_key(s, k)`).
pub open spec fn key_index<T>(s: Entries<T>, k: Seq<char>) -> int {
    choose|i: int| 0 <= i < s.len() && #[trigger] s[i].0 == k
}

/// The value stored under `k`, if any.
pub open spec fn lookup<T>(s: Entries<T>, k: Seq<char>) -> Option<T> {
    if has_key(s, k) {
        Some(s[key_index(s, k)].1)
    } else {
        None
    }
}

/// The entries after storing `v` under `k`: an existing entry keeps its
/// place, a new one goes last.
pub open spec fn map_insert<T>(s: Entries<T>, k: Seq<char>, v: T) -> Entries<T> {
    if has_key(s, k) {
        s.update(key_index(s, k), (k, v))
    } else {
        s.push((k, v))
    }
}

/// The entries without the one stored under `k`.
pub open spec fn map_remove<T>(s: Entries<T>, k: Seq<char>) -> Entries<T> {
    if has_key(s, k) {
        s.remove(key_index(s, k))
    } else {
        s
    }
}

/// The entries whose names occur in `names`, in their order.
pub open spec fn keep_named<T>(s: Entries<T>, names: Seq<Seq<char>>) -> Entries<T>
    decreases s.len(),
{
    if s.len() == 0 {
        s
    } else if names.contains(s.last().0) {
        keep_named(s.drop_last(), names).push(s.last())
    } else {
        keep_named(s.drop_last(), names)
    }
}

/// The model of stored entries.
pub open spec fn entries_view<T>(v: Seq<(String, T)>) -> Entries<T> {
    v.map_values(|e: (String, T)| (e.0@, e.1))
}

/// The views of a sequence of strings.
pub open spec fn strings_view(s: Seq<String>) -> Seq<Seq<char>> {
    s.map_values(|x: String| x@)
}

/// A map from names to values, iterated in insertion order.
pub struct LanguageMap<T> {
    entries: Vec<(String, T)>,
}

impl<T> View for LanguageMap<T> {
    type V = Entries<T>;

    closed spec fn view(&self) -> Entries<T> {
        entries_view(self.entries@)
    }
}

impl<T> LanguageMap<T> {
    #[verifier::type_invariant]
    closed spec fn inv(&self) -> bool {
        keys_distinct(self@)
    }

    /// The empty map.
    pub fn new() -> (m: Self)
        ensures
            m@ == Seq::<(Seq<char>, T)>::empty(),
    {
        let m = LanguageMap { entries: Vec::new() };
        assert(m@ =~= Seq::<(Seq<char>, T)>::empty());
        m
    }

    /// The number of entries.
    pub fn len(&self) -> (n: usize)
        ensures
            n == self@.len(),
            keys_distinct(self@),
    {
        proof {
            use_type_invariant(self);
        }
        self.entries.len()
    }

    /// The name of the `i`-th entry.
    pub fn key_at(&self, i: usize) -> (k: &String)
        requires
            i < self@.len(),
        ensures
            k@ == self@[i as int].0,
    {
        &self.entries[i].0
    }

    /// The value of the `i`-th entry.
    pub fn value_at(&self, i: usize) -> (v: &T)
        requires
            i < self@.len(),
        ensures
            *v == self@[i as int].1,
    {
        &self.entries[i].1
    }

    /// The position of the entry named `key`, if there is one.
    pub fn index_of(&self, key: &String) -> (r: Option<usize>)
        ensures
            keys_distinct(self@),
            r is Some <==> has_key(self@, key@),
            r matches Some(i) ==> i == key_index(self@, key@) && i < self@.len() && self@[i as int].0
                == key@,
    {
        proof {
            use_type_invariant(self);
        }
        let mut i: usize = 0;
        while i < self.entries.len()
            invariant
                0 <= i <= self.entries.len(),
                self@.len() == self.entries.len(),
                keys_distinct(self@),
                forall|j: int| 0 <= j < i ==> self@[j].0 != key@,
            decreases self.entries.len() - i,
        {
            if self.entries[i].0 == *key {
                assert(self@[i as int].0 == key@);
                return Some(i);
            }
            i = i + 1;
        }
        None
    }

    /// The value stored under `key`, if any.
    pub fn get(&self, key: &String) -> (r: Option<&T>)
        ensures
            keys_distinct(self@),
            r matches Some(v) ==> lookup(self@, key@) == Some(*v),
            r is None ==> lookup(self@, key@) is None,
    {
        match self.index_of(key) {
            Some(i) => Some(&self.entries[i].1),
            None => None,
        }
    }

    /// Whether an entry is named `key`.
    pub fn contains_key(&self, key: &String) -> (b: bool)
        ensures
            b == has_key(self@, key@),
    {
        self.index_of(key).is_some()
    }

    /// Replaces the value of the `i`-th entry.
    pub fn set_value_at(&mut self, i: usize, value: T)
        requires
            i < old(self)@.len(),
        ensures
            final(self)@ == old(self)@.update(i as int, (old(self)@[i as int].0, value)),
    {
        proof {
            use_type_invariant(&*self);
        }
        let ghost s0 = self@;
        let key = self.entries[i].0.clone();
        let mut entries = Vec::new();
        std::mem::swap(&mut entries, &mut self.entries);
        entries.set(i, (key, value));
        proof {
            let s1 = entries_view(entries@);
            assert(s1 =~= s0.update(i as int, (s0[i as int].0, value)));
            assert(keys_distinct(s1)) by {
                assert forall|a: int, b: int|
                    0 <= a < s1.len() && 0 <= b < s1.len() && a != b implies #[trigger] s1[a].0
                    != #[trigger] s1[b].0 by {
                    assert(s1[a].0 == s0[a].0 && s1[b].0 == s0[b].0);
                }
            }
        }
        self.entries = entries;
    }

    /// Stores `value` under `key`: an existing entry keeps its place, a new
    /// one goes last.
    pub fn insert(&mut self, key: String, value: T)
        ensures
            final(self)@ == map_insert(old(self)@, key@, value),
    {
        match self.index_of(&key) {
            Some(i) => {
                self.set_value_at(i, value);
            },
            None => {
                let ghost s0 = self@;
                let ghost k = key@;
                let mut entries = Vec::new();
                std::mem::swap(&mut entries, &mut self.entries);
                entries.push((key, value));
                proof {
                    let s1 = entries_view(entries@);
                    assert(s1 =~= s0.push((k, value)));
                    assert(keys_distinct(s1)) by {
                        assert forall|a: int, b: int|
                            0 <= a < s1.len() && 0 <= b < s1.len() && a != b implies #[trigger] s1[a].0
                            != #[trigger] s1[b].0 by {
                            if a < s0.len() && b < s0.len() {
                                assert(s1[a].0 == s0[a].0 && s1[b].0 == s0[b].0);
                            } else if a < s0.len() {
                                assert(s1[a].0 == s0[a].0);
                            } else {
                                assert(s1[b].0 == s0[b].0);
                            }
                        }
                    }
                }
                self.entries = entries;
            },
        }
    }

    /// Removes the entry named `key`, if there is one; the others keep their
    /// order.
    pub fn remove(&mut self, key: &String)
        ensures
            final(self)@ == map_remove(old(self)@, key@),
    {
        match self.index_of(key) {
            Some(i) => {
                let ghost s0 = self@;
                let mut entries = Vec::new();
                std::mem::swap(&mut entries, &mut self.entries);
                entries.remove(i);
                proof {
                    let s1 = entries_view(entries@);
                    assert(s1 =~= s0.remove(i as int));
                    assert(keys_distinct(s1)) by {
                        assert forall|a: int, b: int|
                            0 <= a < s1.len() && 0 <= b < s1.len() && a != b implies #[trigger] s1[a].0
                            != #[trigger] s1[b].0 by {
                            let a0 = if a < i { a } else { a + 1 };
                            let b0 = if b < i { b } else { b + 1 };
                            assert(s1[a].0 == s0[a0].0 && s1[b].0 == s0[b0].0);
                        }
                    }
                }
                self.entries = entries;
            },
            None => {},
        }
    }

    /// Keeps the entries whose names occur in `names`, in their order.
    pub fn retain_named(&mut self, names: &Vec<String>)
        ensures
            final(self)@ == keep_named(old(self)@, strings_view(names@)),
    {
        proof {
            use_type_invariant(&*self);
        }
        let ghost s0 = self@;
        let ghost nv = strings_view(names@);
        let mut old_entries = Vec::new();
        std::mem::swap(&mut old_entries, &mut self.entries);
        let mut kept: Vec<(String, T)> = Vec::new();
        let mut rest: Vec<(String, T)> = Vec::new();
        // take the entries from the back, then restore their order
        let n = old_entries.len();
        let mut i: usize = n;
        while i > 0
            invariant
                0 <= i <= n,
                old_entries@.len() == i,
                entries_view(old_entries@) == s0.take(i as int),
                rest@.len() + i == n,
                forall|j: int| 0 <= j < rest@.len() ==> (#[trigger] rest@[j]).0@ == s0[n - 1 - j].0 && rest@[j].1 == s0[n - 1 - j].1,
                s0.len() == n,
            decreases i,
        {
            let ghost before = old_entries@;
            let ghost rest0 = rest@;
            let e = old_entries.pop().unwrap();
            proof {
                assert(entries_view(before)[i - 1] == (e.0@, e.1));
                assert(s0.take(i as int)[i - 1] == (e.0@, e.1));
                assert(old_entries@ == before.drop_last());
                assert forall|j: int| 0 <= j < i - 1 implies #[trigger] entries_view(old_entries@)[j] == s0.take(i as int - 1)[j] by {
                    assert(entries_view(before)[j] == s0.take(i as int)[j]);
                }
                assert(entries_view(old_entries@) =~= s0.take(i as int - 1));
            }
            rest.push(e);
            proof {
                assert forall|j: int| 0 <= j < rest@.len() implies (#[trigger] rest@[j]).0@ == s0[n - 1 - j].0 && rest@[j].1 == s0[n - 1 - j].1 by {
                    if j < rest0.len() {
                        assert(rest@[j] == rest0[j]);
                    } else {
                        assert(rest@[j] == e);
                    }
                }
            }
            i = i - 1;
        }
        let mut j: usize = n;
        while j > 0
            invariant
                0 <= j <= n,
                rest@.len() == j,
                forall|t: int| 0 <= t < rest@.len() ==> (#[trigger] rest@[t]).0@ == s0[n - 1 - t].0 && rest@[t].1 == s0[n - 1 - t].1,
                entries_view(kept@) == keep_named(s0.take(n - j), nv),
                s0.len() == n,
                nv == strings_view(names@),
            decreases j,
        {
            let e = rest.pop().unwrap();
            proof {
                assert(s0.take(n - j + 1).drop_last() =~= s0.take(n - j));
                assert(s0.take(n - j + 1).last() == (e.0@, e.1));
            }
            let mut found = false;
            let mut t: usize = 0;
            while t < names.len()
                invariant
                    0 <= t <= names.len(),
                    found <==> exists|u: int| 0 <= u < t && names@[u]@ == e.0@,
                    nv == strings_view(names@),
                decreases names.len() - t,
            {
                if names[t] == e.0 {
                    found = true;
                }
                t = t + 1;
            }
            proof {
                if found {
                    let u = choose|u: int| 0 <= u < t && names@[u]@ == e.0@;
                    assert(nv[u] == e.0@);
                    assert(nv.contains(e.0@));
                } else {
                    assert(!nv.contains(e.0@)) by {
                        if nv.contains(e.0@) {
                            let u = choose|u: int| 0 <= u < nv.len() && nv[u] == e.0@;
                            assert(names@[u]@ == e.0@);
                        }
                    }
                }
            }
            let ghost k0 = kept@;
            if found {
                kept.push(e);
                assert(entries_view(kept@) =~= entries_view(k0).push(s0.take(n - j + 1).last()));
            }
            j = j - 1;
        }
        proof {
            assert(s0.take(n as int) =~= s0);
            lemma_keep_named_distinct(s0, nv);
        }
        self.entries = kept;
    }
}

/// Keeping some entries keeps them distinct, and keeps exactly the entries
/// whose names are listed.
pub proof fn lemma_keep_named_distinct<T>(s: Entries<T>, names: Seq<Seq<char>>)
    requires
        keys_distinct(s),
    ensures
        keys_distinct(keep_named(s, names)),
        forall|k: Seq<char>| #[trigger] has_key(keep_named(s, names), k) <==> has_key(s, k) && names.contains(k),
        forall|k: Seq<char>| has_key(keep_named(s, names), k) ==> lookup(keep_named(s, names), k) == lookup(s, k),
    decreases s.len(),
{
    if s.len() > 0 {
        let p = s.drop_last();
        assert(keys_distinct(p));
        lemma_keep_named_distinct(p, names);
        let kp = keep_named(p, names);
        let x = s.last();
        assert(!has_key(p, x.0)) by {
            if has_key(p, x.0) {
                let i = key_index(p, x.0);
                assert(s[i].0 == s[s.len() - 1].0);
            }
        }
        assert forall|k: Seq<char>| has_key(p, k) implies lookup(s, k) == lookup(p, k) by {
            if has_key(p, k) {
                let i = key_index(p, k);
                assert(s[i].0 == k);
                assert(has_key(s, k));
                let j = key_index(s, k);
                if j != i {
                    assert(s[j].0 == s[i].0);
                }
            }
        }
        assert forall|k: Seq<char>| #[trigger] has_key(s, k) <==> has_key(p, k) || k == x.0 by {
            if has_key(s, k) {
                let i = key_index(s, k);
                if i < s.len() - 1 {
                    assert(p[i].0 == k);
                }
            }
            if has_key(p, k) {
                let i = key_index(p, k);
                assert(s[i].0 == k);
            }
            if k == x.0 {
                assert(s[s.len() - 1].0 == k);
            }
        }
        if names.contains(x.0) {
            let r = kp.push(x);
            assert(!has_key(kp, x.0));
            assert forall|a: int, b: int|
                0 <= a < r.len() && 0 <= b < r.len() && a != b implies #[trigger] r[a].0 != #[trigger] r[b].0 by {
                if a < kp.len() && b < kp.len() {
                } else if a < kp.len() {
                    if r[a].0 == r[b].0 {
                        assert(kp[a].0 == x.0);
                    }
                } else {
                    if r[a].0 == r[b].0 {
                        assert(kp[b].0 == x.0);
                    }
                }
            }
            assert forall|k: Seq<char>| #[trigger] has_key(r, k) <==> has_key(kp, k) || k == x.0 by {
                if has_key(r, k) {
                    let i = key_index(r, k);
                    if i < kp.len() {
                        assert(kp[i].0 == k);
                    }
                }
                if has_key(kp, k) {
                    let i = key_index(kp, k);
                    assert(r[i].0 == k);
                }
                if k == x.0 {
                    assert(r[r.len() - 1].0 == k);
                }
            }
            assert forall|k: Seq<char>| has_key(r, k) implies lookup(r, k) == lookup(s, k) by {
                let i = key_index(r, k);
                if k == x.0 {
                    if i < kp.len() {
                        assert(kp[i].0 == x.0);
                    }
                    let j = key_index(s, k);
                    if j < s.len() - 1 {
                        assert(p[j].0 == x.0);
                    }
                } else {
                    assert(has_key(kp, k));
                    let i2 = key_index(kp, k);
                    assert(r[i2].0 == k);
                    if i != i2 {
                        assert(r[i].0 == r[i2].0);
                    }
                    assert(lookup(kp, k) == lookup(p, k));
                }
            }
        }
    }
}

} // verus!
