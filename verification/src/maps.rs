use vstd::prelude::*;
use crate::text::str_eq;

verus! {

// Small association maps backed by vectors. The artifact format fixes an
// entry order, so these keep their entries as a sequence whose unique keys
// also present a map view.

/// The map presented by a sequence of key-value pairs, later entries winning.
pub open spec fn num_map_of<V>(s: Seq<(i32, V)>) -> Map<int, V>
    decreases s.len(),
{
    if s.len() == 0 {
        Map::empty()
    } else {
        num_map_of(s.drop_last()).insert(s.last().0 as int, s.last().1)
    }
}

/// All keys of the pair sequence are distinct.
pub open spec fn num_keys_unique<V>(s: Seq<(i32, V)>) -> bool {
    forall|i: int, j: int| 0 <= i < j < s.len() ==> s[i].0 != s[j].0
}

pub proof fn lemma_num_map_contains<V>(s: Seq<(i32, V)>, k: int)
    ensures
        num_map_of(s).contains_key(k) <==> exists|i: int| 0 <= i < s.len() && s[i].0 == k,
    decreases s.len(),
{
    if s.len() > 0 {
        let t = s.drop_last();
        lemma_num_map_contains(t, k);
        if s.last().0 == k {
            assert(s[s.len() - 1].0 == k);
        }
        if exists|i: int| 0 <= i < t.len() && t[i].0 == k {
            let i = choose|i: int| 0 <= i < t.len() && t[i].0 == k;
            assert(s[i].0 == k);
        }
        if exists|i: int| 0 <= i < s.len() && s[i].0 == k {
            let i = choose|i: int| 0 <= i < s.len() && s[i].0 == k;
            if i < s.len() - 1 {
                assert(t[i].0 == k);
            }
        }
    }
}

pub proof fn lemma_num_map_get<V>(s: Seq<(i32, V)>, j: int)
    requires
        num_keys_unique(s),
        0 <= j < s.len(),
    ensures
        num_map_of(s).contains_key(s[j].0 as int),
        num_map_of(s)[s[j].0 as int] == s[j].1,
    decreases s.len(),
{
    if j < s.len() - 1 {
        lemma_num_map_get(s.drop_last(), j);
    }
}

pub proof fn lemma_num_map_len<V>(s: Seq<(i32, V)>)
    requires
        num_keys_unique(s),
    ensures
        num_map_of(s).dom().finite(),
        num_map_of(s).dom().len() == s.len(),
    decreases s.len(),
{
    broadcast use vstd::set::axiom_set_insert_len;

    if s.len() > 0 {
        lemma_num_map_len(s.drop_last());
        lemma_num_map_contains(s.drop_last(), s.last().0 as int);
    }
}

pub proof fn lemma_num_map_update<V>(s: Seq<(i32, V)>, j: int, v: V)
    requires
        num_keys_unique(s),
        0 <= j < s.len(),
    ensures
        num_map_of(s.update(j, (s[j].0, v))) == num_map_of(s).insert(s[j].0 as int, v),
    decreases s.len(),
{
    let k = s[j].0;
    let t = s.update(j, (k, v));
    if j == s.len() - 1 {
        assert(t.drop_last() =~= s.drop_last());
        assert(num_map_of(t) =~= num_map_of(s).insert(k as int, v));
    } else {
        assert(t.drop_last() =~= s.drop_last().update(j, (k, v)));
        lemma_num_map_update(s.drop_last(), j, v);
        assert(num_map_of(t) =~= num_map_of(s).insert(k as int, v));
    }
}

/// An association map from RFC numbers to values, in insertion order.
#[derive(Debug)]
pub struct NumMap<V> {
    entries: Vec<(i32, V)>,
}

impl<V> NumMap<V> {
    /// The entries in order.
    pub closed spec fn pairs(&self) -> Seq<(i32, V)> {
        self.entries@
    }

    /// The map presented by the entries.
    pub open spec fn as_map(&self) -> Map<int, V> {
        num_map_of(self.pairs())
    }

    pub open spec fn wf(&self) -> bool {
        num_keys_unique(self.pairs())
    }

    pub open spec fn has_key(&self, k: int) -> bool {
        self.as_map().contains_key(k)
    }

    pub fn new() -> (r: Self)
        ensures
            r.pairs() == Seq::<(i32, V)>::empty(),
            r.as_map() == Map::<int, V>::empty(),
            r.wf(),
    {
        NumMap { entries: Vec::new() }
    }

    pub fn len(&self) -> (n: usize)
        ensures
            n == self.pairs().len(),
            self.wf() ==> n == self.as_map().dom().len(),
    {
        proof {
            if self.wf() {
                lemma_num_map_len(self.pairs());
            }
        }
        self.entries.len()
    }

    /// The entry at a position of the underlying order.
    pub fn entry_at(&self, i: usize) -> (r: &(i32, V))
        requires
            i < self.pairs().len(),
        ensures
            *r == self.pairs()[i as int],
            self.wf() ==> self.as_map().contains_key(self.pairs()[i as int].0 as int)
                && self.as_map()[self.pairs()[i as int].0 as int] == self.pairs()[i as int].1,
    {
        proof {
            if self.wf() {
                lemma_num_map_get(self.pairs(), i as int);
            }
        }
        &self.entries[i]
    }

    /// The position of a key among the entries, if it is there.
    fn find_idx(&self, key: i32) -> (r: Option<usize>)
        ensures
            match r {
                Some(j) => j < self.pairs().len() && self.pairs()[j as int].0 == key,
                None => forall|i: int| 0 <= i < self.pairs().len() ==> self.pairs()[i].0 != key,
            },
    {
        let n = self.entries.len();
        let mut j: usize = 0;
        while j < n
            invariant
                n == self.pairs().len(),
                j <= n,
                forall|i: int| 0 <= i < j ==> self.pairs()[i].0 != key,
            decreases n - j,
        {
            if self.entries[j].0 == key {
                return Some(j);
            }
            j += 1;
        }
        None
    }

    pub fn get(&self, key: i32) -> (r: Option<&V>)
        requires
            self.wf(),
        ensures
            match r {
                Some(v) => self.has_key(key as int) && *v == self.as_map()[key as int],
                None => !self.has_key(key as int),
            },
    {
        match self.find_idx(key) {
            Some(j) => {
                proof {
                    lemma_num_map_get(self.pairs(), j as int);
                }
                Some(&self.entries[j].1)
            },
            None => {
                proof {
                    lemma_num_map_contains(self.pairs(), key as int);
                }
                None
            },
        }
    }

    /// Insert a binding, overwriting in place when the key is present and
    /// appending otherwise.
    pub fn insert(&mut self, key: i32, value: V)
        requires
            old(self).wf(),
        ensures
            final(self).wf(),
            final(self).as_map() == old(self).as_map().insert(key as int, value),
            final(self).pairs().len() == if old(self).has_key(key as int) {
                old(self).pairs().len() as int
            } else {
                old(self).pairs().len() + 1int
            },
            !old(self).has_key(key as int) ==> final(self).pairs() == old(self).pairs().push(
                (key, value),
            ),
            old(self).has_key(key as int) ==> exists|j: int|
                0 <= j < old(self).pairs().len() && old(self).pairs()[j].0 == key
                    && final(self).pairs() == old(self).pairs().update(j, (key, value)),
    {
        match self.find_idx(key) {
            Some(j) => {
                proof {
                    lemma_num_map_get(self.pairs(), j as int);
                    lemma_num_map_update(self.pairs(), j as int, value);
                }
                self.entries.set(j, (key, value));
                proof {
                    assert(forall|i1: int, i2: int|
                        0 <= i1 < i2 < self.pairs().len() ==> self.pairs()[i1].0
                            != self.pairs()[i2].0);
                }
            },
            None => {
                proof {
                    lemma_num_map_contains(self.pairs(), key as int);
                    assert(self.pairs().push((key, value)).drop_last() =~= self.pairs());
                }
                self.entries.push((key, value));
            },
        }
    }
}

impl<V: Copy> NumMap<V> {
    /// An entry-for-entry copy.
    pub fn duplicate(&self) -> (r: Self)
        ensures
            r.pairs() == self.pairs(),
    {
        let n = self.entries.len();
        let mut out: Vec<(i32, V)> = Vec::new();
        let mut i: usize = 0;
        while i < n
            invariant
                i <= n,
                n == self.entries@.len(),
                out@ == self.entries@.take(i as int),
            decreases n - i,
        {
            out.push(self.entries[i]);
            i += 1;
            proof {
                assert(out@ =~= self.entries@.take(i as int));
            }
        }
        proof {
            assert(out@ =~= self.entries@);
        }
        NumMap { entries: out }
    }
}

/// The map presented by a sequence of string-keyed pairs, later entries
/// winning.
pub open spec fn str_map_of<V>(s: Seq<(String, V)>) -> Map<Seq<char>, V>
    decreases s.len(),
{
    if s.len() == 0 {
        Map::empty()
    } else {
        str_map_of(s.drop_last()).insert(s.last().0@, s.last().1)
    }
}

/// All keys of the pair sequence are distinct.
pub open spec fn str_keys_unique<V>(s: Seq<(String, V)>) -> bool {
    forall|i: int, j: int| 0 <= i < j < s.len() ==> s[i].0@ != s[j].0@
}

pub proof fn lemma_str_map_contains<V>(s: Seq<(String, V)>, k: Seq<char>)
    ensures
        str_map_of(s).contains_key(k) <==> exists|i: int| 0 <= i < s.len() && s[i].0@ == k,
    decreases s.len(),
{
    if s.len() > 0 {
        let t = s.drop_last();
        lemma_str_map_contains(t, k);
        if s.last().0@ == k {
            assert(s[s.len() - 1].0@ == k);
        }
        if exists|i: int| 0 <= i < t.len() && t[i].0@ == k {
            let i = choose|i: int| 0 <= i < t.len() && t[i].0@ == k;
            assert(s[i].0@ == k);
        }
        if exists|i: int| 0 <= i < s.len() && s[i].0@ == k {
            let i = choose|i: int| 0 <= i < s.len() && s[i].0@ == k;
            if i < s.len() - 1 {
                assert(t[i].0@ == k);
            }
        }
    }
}

pub proof fn lemma_str_map_get<V>(s: Seq<(String, V)>, j: int)
    requires
        str_keys_unique(s),
        0 <= j < s.len(),
    ensures
        str_map_of(s).contains_key(s[j].0@),
        str_map_of(s)[s[j].0@] == s[j].1,
    decreases s.len(),
{
    if j < s.len() - 1 {
        lemma_str_map_get(s.drop_last(), j);
    }
}

pub proof fn lemma_str_map_len<V>(s: Seq<(String, V)>)
    requires
        str_keys_unique(s),
    ensures
        str_map_of(s).dom().finite(),
        str_map_of(s).dom().len() == s.len(),
    decreases s.len(),
{
    broadcast use vstd::set::axiom_set_insert_len;

    if s.len() > 0 {
        lemma_str_map_len(s.drop_last());
        lemma_str_map_contains(s.drop_last(), s.last().0@);
    }
}

pub proof fn lemma_str_map_update<V>(s: Seq<(String, V)>, j: int, k: String, v: V)
    requires
        str_keys_unique(s),
        0 <= j < s.len(),
        s[j].0@ == k@,
    ensures
        str_map_of(s.update(j, (k, v))) == str_map_of(s).insert(k@, v),
    decreases s.len(),
{
    let t = s.update(j, (k, v));
    if j == s.len() - 1 {
        assert(t.drop_last() =~= s.drop_last());
        assert(str_map_of(t) =~= str_map_of(s).insert(k@, v));
    } else {
        assert(t.drop_last() =~= s.drop_last().update(j, (k, v)));
        lemma_str_map_update(s.drop_last(), j, k, v);
        assert(str_map_of(t) =~= str_map_of(s).insert(k@, v));
    }
}

/// An association map from terms to values, in insertion order.
#[derive(Debug)]
pub struct StrMap<V> {
    entries: Vec<(String, V)>,
}

impl<V> StrMap<V> {
    /// The entries in order.
    pub closed spec fn pairs(&self) -> Seq<(String, V)> {
        self.entries@
    }

    /// The map presented by the entries.
    pub open spec fn as_map(&self) -> Map<Seq<char>, V> {
        str_map_of(self.pairs())
    }

    pub open spec fn wf(&self) -> bool {
        str_keys_unique(self.pairs())
    }

    pub open spec fn has_key(&self, k: Seq<char>) -> bool {
        self.as_map().contains_key(k)
    }

    pub fn new() -> (r: Self)
        ensures
            r.pairs() == Seq::<(String, V)>::empty(),
            r.as_map() == Map::<Seq<char>, V>::empty(),
            r.wf(),
    {
        StrMap { entries: Vec::new() }
    }

    pub fn len(&self) -> (n: usize)
        ensures
            n == self.pairs().len(),
            self.wf() ==> n == self.as_map().dom().len(),
    {
        proof {
            if self.wf() {
                lemma_str_map_len(self.pairs());
            }
        }
        self.entries.len()
    }

    /// The entry at a position of the underlying order.
    pub fn entry_at(&self, i: usize) -> (r: &(String, V))
        requires
            i < self.pairs().len(),
        ensures
            *r == self.pairs()[i as int],
            self.wf() ==> self.as_map().contains_key(self.pairs()[i as int].0@)
                && self.as_map()[self.pairs()[i as int].0@] == self.pairs()[i as int].1,
    {
        proof {
            if self.wf() {
                lemma_str_map_get(self.pairs(), i as int);
            }
        }
        &self.entries[i]
    }

    /// The position of a key among the entries, if it is there.
    fn find_idx(&self, key: &str) -> (r: Option<usize>)
        ensures
            match r {
                Some(j) => j < self.pairs().len() && self.pairs()[j as int].0@ == key@,
                None => forall|i: int| 0 <= i < self.pairs().len() ==> self.pairs()[i].0@ != key@,
            },
    {
        let n = self.entries.len();
        let mut j: usize = 0;
        while j < n
            invariant
                n == self.pairs().len(),
                j <= n,
                forall|i: int| 0 <= i < j ==> self.pairs()[i].0@ != key@,
            decreases n - j,
        {
            if str_eq(self.entries[j].0.as_str(), key) {
                return Some(j);
            }
            j += 1;
        }
        None
    }

    pub fn get(&self, key: &str) -> (r: Option<&V>)
        requires
            self.wf(),
        ensures
            match r {
                Some(v) => self.has_key(key@) && *v == self.as_map()[key@],
                None => !self.has_key(key@),
            },
    {
        match self.find_idx(key) {
            Some(j) => {
                proof {
                    lemma_str_map_get(self.pairs(), j as int);
                }
                Some(&self.entries[j].1)
            },
            None => {
                proof {
                    lemma_str_map_contains(self.pairs(), key@);
                }
                None
            },
        }
    }

    /// Insert a binding, overwriting in place when the key is present and
    /// appending otherwise.
    pub fn insert(&mut self, key: String, value: V)
        requires
            old(self).wf(),
        ensures
            final(self).wf(),
            final(self).as_map() == old(self).as_map().insert(key@, value),
            final(self).pairs().len() == if old(self).has_key(key@) {
                old(self).pairs().len() as int
            } else {
                old(self).pairs().len() + 1int
            },
            !old(self).has_key(key@) ==> final(self).pairs() == old(self).pairs().push(
                (key, value),
            ),
            old(self).has_key(key@) ==> exists|j: int|
                0 <= j < old(self).pairs().len() && old(self).pairs()[j].0@ == key@
                    && final(self).pairs() == old(self).pairs().update(j, (key, value)),
    {
        match self.find_idx(key.as_str()) {
            Some(j) => {
                proof {
                    lemma_str_map_get(self.pairs(), j as int);
                    lemma_str_map_update(self.pairs(), j as int, key, value);
                }
                self.entries.set(j, (key, value));
                proof {
                    assert(forall|i1: int, i2: int|
                        0 <= i1 < i2 < self.pairs().len() ==> self.pairs()[i1].0@
                            != self.pairs()[i2].0@);
                }
            },
            None => {
                proof {
                    lemma_str_map_contains(self.pairs(), key@);
                    assert(self.pairs().push((key, value)).drop_last() =~= self.pairs());
                }
                self.entries.push((key, value));
            },
        }
    }
}

} // verus!
