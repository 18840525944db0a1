//! User-chosen aliases of BLE devices, keyed by device ID.
use vstd::prelude::*;

verus! {

/// Map from BLE device ID to a user-chosen alias.
pub struct DeviceAliases {
    entries: Vec<(String, String)>,
}

/// The map an association list denotes (later entries win).
pub open spec fn map_of(entries: Seq<(String, String)>) -> Map<Seq<char>, Seq<char>>
    decreases entries.len(),
{
    if entries.len() == 0 {
        Map::empty()
    } else {
        map_of(entries.drop_last()).insert(entries.last().0@, entries.last().1@)
    }
}

/// No key occurs twice.
pub open spec fn keys_unique(entries: Seq<(String, String)>) -> bool {
    forall|i: int, j: int|
        0 <= i < entries.len() && 0 <= j < entries.len() && i != j ==> #[trigger] entries[i].0@
            != #[trigger] entries[j].0@
}

proof fn lemma_map_of_domain(entries: Seq<(String, String)>, k: Seq<char>)
    requires
        keys_unique(entries),
    ensures
        map_of(entries).contains_key(k) <==> exists|i: int| 0 <= i < entries.len() && #[trigger] entries[i].0@ == k,
        forall|i: int| 0 <= i < entries.len() && #[trigger] entries[i].0@ == k ==> map_of(entries)[k] == entries[i].1@,
    decreases entries.len(),
{
    if entries.len() > 0 {
        let init = entries.drop_last();
        assert(keys_unique(init)) by {
            assert forall|i: int, j: int| 0 <= i < init.len() && 0 <= j < init.len() && i != j implies #[trigger] init[i].0@ != #[trigger] init[j].0@ by {
                assert(init[i] == entries[i] && init[j] == entries[j]);
            }
        }
        lemma_map_of_domain(init, k);
        if exists|i: int| 0 <= i < entries.len() && #[trigger] entries[i].0@ == k {
            let i = choose|i: int| 0 <= i < entries.len() && #[trigger] entries[i].0@ == k;
            if i < entries.len() - 1 {
                assert(init[i] == entries[i]);
            }
        }
        if exists|i: int| 0 <= i < init.len() && #[trigger] init[i].0@ == k {
            let i = choose|i: int| 0 <= i < init.len() && #[trigger] init[i].0@ == k;
            assert(entries[i] == init[i]);
        }
        assert forall|i: int| 0 <= i < entries.len() && #[trigger] entries[i].0@ == k implies map_of(entries)[k] == entries[i].1@ by {
            if i < entries.len() - 1 {
                assert(entries[i] == init[i]);
                assert(entries.last().0@ != k);
            }
        }
    }
}

/// Two entries with the same key and value texts.
pub open spec fn same_entry(x: (String, String), y: (String, String)) -> bool {
    x.0@ == y.0@ && x.1@ == y.1@
}

proof fn lemma_map_of_same_views(a: Seq<(String, String)>, b: Seq<(String, String)>)
    requires
        a.len() == b.len(),
        forall|j: int| 0 <= j < a.len() ==> same_entry(#[trigger] a[j], b[j]),
    ensures
        map_of(a) == map_of(b),
    decreases a.len(),
{
    if a.len() > 0 {
        assert forall|j: int| 0 <= j < a.len() - 1 implies same_entry(#[trigger] a.drop_last()[j], b.drop_last()[j]) by {
            assert(a.drop_last()[j] == a[j] && b.drop_last()[j] == b[j]);
        }
        lemma_map_of_same_views(a.drop_last(), b.drop_last());
    }
}

/// The two maps agree on key `k`.
pub open spec fn agrees_at(m1: Map<Seq<char>, Seq<char>>, m2: Map<Seq<char>, Seq<char>>, k: Seq<char>) -> bool {
    &&& m1.contains_key(k) == m2.contains_key(k)
    &&& m1.contains_key(k) ==> m1[k] == m2[k]
}

proof fn lemma_map_ext(m1: Map<Seq<char>, Seq<char>>, m2: Map<Seq<char>, Seq<char>>)
    requires
        forall|k: Seq<char>| #[trigger] agrees_at(m1, m2, k),
    ensures
        m1 == m2,
{
    assert forall|k: Seq<char>| m1.contains_key(k) == m2.contains_key(k) by {
        assert(agrees_at(m1, m2, k));
    }
    assert forall|k: Seq<char>| m1.contains_key(k) implies m1[k] == m2[k] by {
        assert(agrees_at(m1, m2, k));
    }
    assert(m1 =~= m2);
}

impl View for DeviceAliases {
    type V = Map<Seq<char>, Seq<char>>;

    closed spec fn view(&self) -> Map<Seq<char>, Seq<char>> {
        map_of(self.entries@)
    }
}

impl DeviceAliases {
    #[verifier::type_invariant]
    closed spec fn inv(self) -> bool {
        keys_unique(self.entries@)
    }

    /// No aliases.
    pub fn new() -> (a: DeviceAliases)
        ensures
            a@ == Map::<Seq<char>, Seq<char>>::empty(),
    {
        DeviceAliases { entries: Vec::new() }
    }

    /// Index of the entry for `key`, if any.
    fn position(&self, key: &String) -> (r: Option<usize>)
        ensures
            r matches Some(i) ==> i < self.entries@.len() && self.entries@[i as int].0@ == key@,
            r is None ==> forall|i: int| 0 <= i < self.entries@.len() ==> #[trigger] self.entries@[i].0@ != key@,
    {
        let mut i: usize = 0;
        while i < self.entries.len()
            invariant
                i <= self.entries@.len(),
                forall|j: int| 0 <= j < i ==> #[trigger] self.entries@[j].0@ != key@,
            decreases self.entries@.len() - i,
        {
            if self.entries[i].0 == *key {
                return Some(i);
            }
            i = i + 1;
        }
        None
    }

    /// The alias of a device.
    pub fn get(&self, device_id: &str) -> (r: Option<&str>)
        ensures
            r is Some <==> self@.contains_key(device_id@),
            r matches Some(s) ==> s@ == self@[device_id@],
    {
        proof {
            use_type_invariant(self);
            lemma_map_of_domain(self.entries@, device_id@);
        }
        let key = String::from_str(device_id);
        match self.position(&key) {
            Some(i) => Some(self.entries[i].1.as_str()),
            None => None,
        }
    }

    /// Every device with an alias, and the alias.
    pub fn pairs(&self) -> (r: Vec<(String, String)>)
        ensures
            map_of(r@) == self@,
            keys_unique(r@),
    {
        proof {
            use_type_invariant(self);
        }
        let mut r: Vec<(String, String)> = Vec::new();
        let mut i: usize = 0;
        while i < self.entries.len()
            invariant
                i <= self.entries@.len(),
                r@.len() == i,
                forall|j: int| 0 <= j < i ==> #[trigger] r@[j].0@ == self.entries@[j].0@ && r@[j].1@ == self.entries@[j].1@,
            decreases self.entries@.len() - i,
        {
            let k = String::from_str(self.entries[i].0.as_str());
            let v = String::from_str(self.entries[i].1.as_str());
            r.push((k, v));
            i = i + 1;
        }
        proof {
            assert(r@.len() == self.entries@.len());
            assert forall|j: int| 0 <= j < r@.len() implies same_entry(#[trigger] r@[j], self.entries@[j]) by {
                assert(r@[j].0@ == self.entries@[j].0@);
            }
            lemma_map_of_same_views(r@, self.entries@);
            assert(keys_unique(r@)) by {
                assert forall|a: int, b: int| 0 <= a < r@.len() && 0 <= b < r@.len() && a != b implies #[trigger] r@[a].0@ != #[trigger] r@[b].0@ by {
                    assert(r@[a].0@ == self.entries@[a].0@);
                    assert(r@[b].0@ == self.entries@[b].0@);
                }
            }
        }
        r
    }

    /// Sets the alias of a device.
    pub fn set(&mut self, device_id: &str, alias: &str)
        ensures
            final(self)@ == old(self)@.insert(device_id@, alias@),
    {
        proof {
            use_type_invariant(&*self);
        }
        let key = String::from_str(device_id);
        let value = String::from_str(alias);
        let ghost before = self.entries@;
        match self.position(&key) {
            Some(i) => {
                let mut entries: Vec<(String, String)> = Vec::new();
                std::mem::swap(&mut entries, &mut self.entries);
                let ghost e0 = entries@;
                entries.set(i, (key, value));
                proof {
                    assert(keys_unique(entries@)) by {
                        assert forall|a: int, b: int| 0 <= a < entries@.len() && 0 <= b < entries@.len() && a != b implies #[trigger] entries@[a].0@ != #[trigger] entries@[b].0@ by {
                            assert(keys_unique(e0));
                            if a != i && b != i {
                                assert(entries@[a] == e0[a] && entries@[b] == e0[b]);
                            } else if a == i {
                                assert(e0[i as int].0@ == device_id@);
                                assert(entries@[b] == e0[b]);
                            } else {
                                assert(e0[i as int].0@ == device_id@);
                                assert(entries@[a] == e0[a]);
                            }
                        }
                    }
                    assert forall|k: Seq<char>| #[trigger] agrees_at(map_of(entries@), map_of(e0).insert(device_id@, alias@), k) by {
                        lemma_map_of_domain(entries@, k);
                        lemma_map_of_domain(e0, k);
                        if k == device_id@ {
                            assert(entries@[i as int].0@ == k);
                        } else {
                            if exists|j: int| 0 <= j < e0.len() && #[trigger] e0[j].0@ == k {
                                let j = choose|j: int| 0 <= j < e0.len() && #[trigger] e0[j].0@ == k;
                                assert(entries@[j] == e0[j]);
                            }
                            if exists|j: int| 0 <= j < entries@.len() && #[trigger] entries@[j].0@ == k {
                                let j = choose|j: int| 0 <= j < entries@.len() && #[trigger] entries@[j].0@ == k;
                                assert(entries@[j] == e0[j]);
                            }
                        }
                    }
                    lemma_map_ext(map_of(entries@), map_of(e0).insert(device_id@, alias@));
                }
                self.entries = entries;
            },
            None => {
                let mut entries: Vec<(String, String)> = Vec::new();
                std::mem::swap(&mut entries, &mut self.entries);
                let ghost e0 = entries@;
                entries.push((key, value));
                proof {
                    assert(entries@.drop_last() =~= e0);
                    assert(keys_unique(entries@)) by {
                        assert forall|a: int, b: int| 0 <= a < entries@.len() && 0 <= b < entries@.len() && a != b implies #[trigger] entries@[a].0@ != #[trigger] entries@[b].0@ by {
                            assert(keys_unique(e0));
                            if a < e0.len() && b < e0.len() {
                                assert(entries@[a] == e0[a] && entries@[b] == e0[b]);
                            } else if a < e0.len() {
                                assert(entries@[a] == e0[a]);
                            } else {
                                assert(entries@[b] == e0[b]);
                            }
                        }
                    }
                }
                self.entries = entries;
            },
        }
    }

    /// Removes the alias of a device.
    pub fn remove(&mut self, device_id: &str)
        ensures
            final(self)@ == old(self)@.remove(device_id@),
    {
        proof {
            use_type_invariant(&*self);
        }
        let key = String::from_str(device_id);
        match self.position(&key) {
            Some(i) => {
                let mut entries: Vec<(String, String)> = Vec::new();
                std::mem::swap(&mut entries, &mut self.entries);
                let ghost e0 = entries@;
                let _ = entries.remove(i);
                proof {
                    assert forall|a: int| 0 <= a < entries@.len() implies #[trigger] entries@[a] == (if a < i { e0[a] } else { e0[a + 1] }) by {}
                    assert(keys_unique(entries@)) by {
                        assert forall|a: int, b: int| 0 <= a < entries@.len() && 0 <= b < entries@.len() && a != b implies #[trigger] entries@[a].0@ != #[trigger] entries@[b].0@ by {
                            assert(keys_unique(e0));
                            let a2 = if a < i { a } else { a + 1 };
                            let b2 = if b < i { b } else { b + 1 };
                            assert(entries@[a] == e0[a2] && entries@[b] == e0[b2]);
                        }
                    }
                    assert forall|k: Seq<char>| #[trigger] agrees_at(map_of(entries@), map_of(e0).remove(device_id@), k) by {
                        lemma_map_of_domain(entries@, k);
                        lemma_map_of_domain(e0, k);
                        if exists|j: int| 0 <= j < e0.len() && #[trigger] e0[j].0@ == k {
                            let j = choose|j: int| 0 <= j < e0.len() && #[trigger] e0[j].0@ == k;
                            if k != device_id@ {
                                assert(j != i);
                                let j2 = if j < i { j } else { j - 1 };
                                assert(entries@[j2] == e0[j]);
                            }
                        }
                        if exists|j: int| 0 <= j < entries@.len() && #[trigger] entries@[j].0@ == k {
                            let j = choose|j: int| 0 <= j < entries@.len() && #[trigger] entries@[j].0@ == k;
                            let j2 = if j < i { j } else { j + 1 };
                            assert(entries@[j] == e0[j2]);
                            assert(j2 != i);
                        }
                    }
                    lemma_map_ext(map_of(entries@), map_of(e0).remove(device_id@));
                }
                self.entries = entries;
            },
            None => {
                proof {
                    lemma_map_of_domain(self.entries@, device_id@);
                    assert(self@ =~= self@.remove(device_id@));
                }
            },
        }
    }
}

/// What `get` reports after `set` is the alias just set; other devices keep theirs.
pub proof fn law_alias_set_get(a: Map<Seq<char>, Seq<char>>, id: Seq<char>, alias: Seq<char>, other: Seq<char>)
    ensures
        a.insert(id, alias).contains_key(id),
        a.insert(id, alias)[id] == alias,
        other != id ==> a.insert(id, alias).contains_key(other) == a.contains_key(other),
        other != id && a.contains_key(other) ==> a.insert(id, alias)[other] == a[other],
        !a.remove(id).contains_key(id),
{
}

/// A call that changes a `DeviceAliases`: `set` or `remove`.
pub enum AliasCall {
    SetAlias { id: String, alias: String },
    RemoveAlias { id: String },
}

/// The aliases after the calls, from aliases `start`, each call acting as
/// its contract says.
pub open spec fn aliases_after(start: Map<Seq<char>, Seq<char>>, calls: Seq<AliasCall>) -> Map<Seq<char>, Seq<char>>
    decreases calls.len(),
{
    if calls.len() == 0 {
        start
    } else {
        let m = aliases_after(start, calls.drop_last());
        match calls.last() {
            AliasCall::SetAlias { id, alias } => m.insert(id@, alias@),
            AliasCall::RemoveAlias { id } => m.remove(id@),
        }
    }
}

/// The last call on device `id`: `Some(Some(alias))` for a `set`,
/// `Some(None)` for a `remove`, `None` if no call names it.
pub open spec fn last_call_on(calls: Seq<AliasCall>, id: Seq<char>) -> Option<Option<Seq<char>>>
    decreases calls.len(),
{
    if calls.len() == 0 {
        None
    } else {
        match calls.last() {
            AliasCall::SetAlias { id: k, alias } => if k@ == id {
                Some(Some(alias@))
            } else {
                last_call_on(calls.drop_last(), id)
            },
            AliasCall::RemoveAlias { id: k } => if k@ == id {
                Some(None)
            } else {
                last_call_on(calls.drop_last(), id)
            },
        }
    }
}

/// Over any sequence of `set` and `remove` calls, `get(id)` answers the
/// alias of the last `set` on `id` when that came after every `remove` on
/// it, nothing when a `remove` came last, and what it answered before when
/// no call named `id`: calls on other devices do not touch it.
pub proof fn law_alias_last_call(start: Map<Seq<char>, Seq<char>>, calls: Seq<AliasCall>, id: Seq<char>)
    ensures
        match last_call_on(calls, id) {
            Some(Some(a)) => aliases_after(start, calls).contains_key(id) && aliases_after(start, calls)[id] == a,
            Some(None) => !aliases_after(start, calls).contains_key(id),
            None => aliases_after(start, calls).contains_key(id) == start.contains_key(id) && (start.contains_key(id)
                ==> aliases_after(start, calls)[id] == start[id]),
        },
    decreases calls.len(),
{
    if calls.len() > 0 {
        law_alias_last_call(start, calls.drop_last(), id);
    }
}

} // verus!
