//! A map for a small number of entries, kept as a vector sorted by key.
use vstd::prelude::*;

verus! {

/// Whether the keys of the entries increase strictly.
pub open spec fn sorted_keys<V>(entries: Seq<(u64, V)>) -> bool {
    forall|i: int, j: int| 0 <= i < j < entries.len() ==> entries[i].0 < entries[j].0
}

/// Whether some entry has the key.
pub open spec fn has_key<V>(entries: Seq<(u64, V)>, key: u64) -> bool {
    exists|i: int| 0 <= i < entries.len() && (#[trigger] entries[i]).0 == key
}

/// The index of an entry with the key, if there is one.
pub open spec fn index_of<V>(entries: Seq<(u64, V)>, key: u64) -> int {
    choose|i: int| 0 <= i < entries.len() && (#[trigger] entries[i]).0 == key
}

/// The map that the entries stand for.
pub open spec fn as_map<V>(entries: Seq<(u64, V)>) -> Map<u64, V> {
    Map::new(|key: u64| has_key(entries, key), |key: u64| entries[index_of(entries, key)].1)
}

/// The number of entries whose key is below `key`: where an entry with that
/// key stands, or would be put.
pub open spec fn rank<V>(entries: Seq<(u64, V)>, key: u64) -> int
    decreases entries.len(),
{
    if entries.len() == 0 {
        0
    } else {
        rank(entries.drop_last(), key) + if entries.last().0 < key {
            1int
        } else {
            0int
        }
    }
}

/// In sorted entries, the rank of a key is the index that splits the smaller
/// keys from the others.
pub proof fn lemma_rank<V>(entries: Seq<(u64, V)>, key: u64, index: int)
    requires
        sorted_keys(entries),
        0 <= index <= entries.len(),
        forall|j: int| 0 <= j < index ==> (#[trigger] entries[j]).0 < key,
        forall|j: int| index <= j < entries.len() ==> (#[trigger] entries[j]).0 >= key,
    ensures
        rank(entries, key) == index,
    decreases entries.len(),
{
    if entries.len() > 0 {
        let rest = entries.drop_last();
        if index == entries.len() {
            lemma_rank(rest, key, index - 1);
        } else {
            lemma_rank(rest, key, index);
        }
    }
}

/// In sorted entries every key occurs once, so the map holds each entry's
/// value under its key.
pub proof fn lemma_as_map<V>(entries: Seq<(u64, V)>)
    requires
        sorted_keys(entries),
    ensures
        forall|i: int|
            0 <= i < entries.len() ==> as_map(entries).contains_key((#[trigger] entries[i]).0)
                && as_map(entries)[entries[i].0] == entries[i].1,
        forall|key: u64| #[trigger]
            as_map(entries).contains_key(key) ==> 0 <= rank(entries, key) < entries.len()
                && entries[rank(entries, key)] == (key, as_map(entries)[key]),
        forall|key: u64|
            !(#[trigger] as_map(entries).contains_key(key)) ==> forall|j: int|
                0 <= j < entries.len() ==> (#[trigger] entries[j]).0 != key,
{
    assert forall|i: int| 0 <= i < entries.len() implies as_map(entries).contains_key(
        (#[trigger] entries[i]).0,
    ) && as_map(entries)[entries[i].0] == entries[i].1 by {
        let k = index_of(entries, entries[i].0);
        assert(k == i);
    }
    assert forall|key: u64| #[trigger] as_map(entries).contains_key(key) implies 0 <= rank(
        entries,
        key,
    ) < entries.len() && entries[rank(entries, key)] == (key, as_map(entries)[key]) by {
        let k = index_of(entries, key);
        lemma_rank(entries, key, k);
    }
}

/// A map optimised for a small number of entries.
///
/// The entries are kept in a vector, sorted by key, and found by binary
/// search.
pub struct MiniMap<V> {
    data: Vec<(u64, V)>,
}

impl<V> View for MiniMap<V> {
    type V = Map<u64, V>;

    closed spec fn view(&self) -> Map<u64, V> {
        as_map(self.data@)
    }
}

/// Finds the key by binary search: `Ok` with its index, or `Err` with the
/// index at which it would be put.
fn search<V>(data: &Vec<(u64, V)>, key: u64) -> (r: Result<usize, usize>)
    requires
        sorted_keys(data@),
    ensures
        match r {
            Ok(i) => i < data@.len() && data@[i as int].0 == key && i == rank(data@, key),
            Err(i) => i <= data@.len() && i == rank(data@, key) && !has_key(data@, key),
        },
{
    let mut low: usize = 0;
    let mut high: usize = data.len();
    while low < high
        invariant
            0 <= low <= high <= data@.len(),
            sorted_keys(data@),
            forall|j: int| 0 <= j < low ==> (#[trigger] data@[j]).0 < key,
            forall|j: int| high <= j < data@.len() ==> (#[trigger] data@[j]).0 > key,
        decreases high - low,
    {
        let mid = low + (high - low) / 2;
        let k = data[mid].0;
        if k == key {
            proof {
                lemma_rank(data@, key, mid as int);
            }
            return Ok(mid);
        } else if k < key {
            low = mid + 1;
        } else {
            high = mid;
        }
    }
    proof {
        lemma_rank(data@, key, low as int);
    }
    Err(low)
}

impl<V> MiniMap<V> {
    /// Validity of the type: the keys increase strictly.
    pub closed spec fn wf(&self) -> bool {
        sorted_keys(self.data@)
    }

    /// The entries in the order of their keys.
    pub closed spec fn entries(&self) -> Seq<(u64, V)> {
        self.data@
    }

    /// The view is the map of the entries, which are sorted.
    pub proof fn lemma_entries(&self)
        ensures
            self@ == as_map(self.entries()),
            self.wf() == sorted_keys(self.entries()),
    {
    }

    /// Constructs a new, empty `MiniMap`.
    pub fn new() -> (r: MiniMap<V>)
        ensures
            r.wf(),
            r@ == Map::<u64, V>::empty(),
            r.entries() == Seq::<(u64, V)>::empty(),
    {
        let r = MiniMap { data: Vec::new() };
        assert(r@ =~= Map::<u64, V>::empty());
        r
    }

    /// Inserts the value at the key. Returns the value that was stored at
    /// the key before, if there was one.
    pub fn insert(&mut self, key: u64, value: V) -> (r: Option<V>)
        requires
            old(self).wf(),
        ensures
            final(self).wf(),
            final(self)@ == old(self)@.insert(key, value),
            r == (if old(self)@.contains_key(key) {
                Some(old(self)@[key])
            } else {
                None
            }),
    {
        proof {
            lemma_as_map(self.data@);
        }
        match search(&self.data, key) {
            Ok(idx) => {
                let mut entry = (key, value);
                core::mem::swap(&mut self.data[idx], &mut entry);
                proof {
                    lemma_updated(old(self).data@, idx as int, value);
                }
                Some(entry.1)
            },
            Err(idx) => {
                self.data.insert(idx, (key, value));
                proof {
                    lemma_inserted(old(self).data@, idx as int, key, value);
                }
                None
            },
        }
    }

    /// Returns a reference to the value at the key, if there is one.
    pub fn get(&self, key: &u64) -> (r: Option<&V>)
        requires
            self.wf(),
        ensures
            r == (if self@.contains_key(*key) {
                Some(&self@[*key])
            } else {
                None
            }),
    {
        proof {
            lemma_as_map(self.data@);
        }
        match search(&self.data, *key) {
            Ok(idx) => Some(&self.data[idx].1),
            Err(_) => None,
        }
    }

    /// Returns a mutable reference to the value at the key, if there is one.
    /// What is written through it is stored at the key.
    pub fn get_mut(&mut self, key: &u64) -> (r: Option<&mut V>)
        requires
            old(self).wf(),
        ensures
            final(self).wf(),
            r.is_some() == old(self)@.contains_key(*key),
            r.is_none() ==> final(self)@ == old(self)@,
            r matches Some(v) ==> *v == old(self)@[*key] && final(self)@ == old(self)@.insert(
                *key,
                *final(v),
            ),
    {
        proof {
            lemma_as_map(self.data@);
        }
        match search(&self.data, *key) {
            Ok(idx) => {
                proof {
                    lemma_value_replaced(self.data@, idx as int);
                }
                Some(&mut self.data[idx].1)
            },
            Err(_) => None,
        }
    }

    /// Gets the entry of the key in the map, for manipulation in place.
    ///
    /// What the map holds afterwards is what the entry leaves behind.
    pub fn entry(&mut self, key: u64) -> (r: Entry<'_, V>)
        requires
            old(self).wf(),
        ensures
            r.wf(),
            r.entries() == old(self).entries(),
            r.key_of() == key,
            r is Occupied == old(self)@.contains_key(key),
            final(self).entries() == (match r {
                Entry::Vacant(entry) => final(entry.data)@,
                Entry::Occupied(entry) => final(entry.data)@,
            }),
    {
        proof {
            lemma_as_map(self.data@);
        }
        match search(&self.data, key) {
            Ok(idx) => Entry::Occupied(OccupiedEntry { data: &mut self.data, index: idx }),
            Err(idx) => Entry::Vacant(
                VacantEntry { data: &mut self.data, key, insert_position: idx },
            ),
        }
    }

    /// Turns the map into the vector of its entries, in the order of their
    /// keys.
    pub fn into_inner(self) -> (r: Vec<(u64, V)>)
        ensures
            r@ == self.entries(),
            as_map(r@) == self@,
            self.wf() ==> sorted_keys(r@),
    {
        self.data
    }
}

/// A view into a single entry of a map, which is either vacant or occupied.
pub enum Entry<'a, V> {
    /// A vacant entry.
    Vacant(VacantEntry<'a, V>),
    /// An occupied entry.
    Occupied(OccupiedEntry<'a, V>),
}

/// A view into a vacant entry of a [`MiniMap`].
pub struct VacantEntry<'a, V> {
    /// The entries of the map.
    pub data: &'a mut Vec<(u64, V)>,
    /// The key that is not in the map.
    pub key: u64,
    /// Where the key belongs among the entries.
    pub insert_position: usize,
}

/// A view into an occupied entry of a [`MiniMap`].
pub struct OccupiedEntry<'a, V> {
    /// The entries of the map.
    pub data: &'a mut Vec<(u64, V)>,
    /// The index of the entry among them.
    pub index: usize,
}

impl<'a, V> VacantEntry<'a, V> {
    /// Validity: the entries are sorted, the key is not among them, and the
    /// position is where it belongs.
    pub closed spec fn wf(self) -> bool {
        &&& sorted_keys(self.data@)
        &&& !has_key(self.data@, self.key)
        &&& self.insert_position == rank(self.data@, self.key)
    }

    /// The entries of the map as they are.
    pub closed spec fn entries(self) -> Seq<(u64, V)> {
        self.data@
    }

    /// The key of the entry.
    pub closed spec fn key_of(self) -> u64 {
        self.key
    }

    /// The key of a valid vacant entry is not in the map.
    pub proof fn lemma_vacant(self)
        requires
            self.wf(),
        ensures
            !as_map(self.entries()).contains_key(self.key_of()),
            sorted_keys(self.entries()),
    {
    }

    /// Gets a reference to the key that would be used when inserting a
    /// value through the entry.
    pub fn key(&self) -> (r: &u64)
        ensures
            *r == self.key_of(),
    {
        &self.key
    }

    /// Takes ownership of the key. The map stays as it is.
    pub fn into_key(self) -> (r: u64)
        ensures
            r == self.key_of(),
            final(self.data)@ == self.entries(),
    {
        self.key
    }

    /// Sets the value of the entry and returns a mutable reference to it.
    pub fn insert(self, value: V) -> (r: &'a mut V)
        requires
            self.wf(),
        ensures
            *r == value,
            sorted_keys(final(self.data)@),
            as_map(final(self.data)@) == as_map(self.entries()).insert(
                self.key_of(),
                *final(r),
            ),
            gained_entry(
                self.entries(),
                final(self.data)@,
                rank(self.entries(), self.key_of()),
                self.key_of(),
            ),
            final(self.data)@[rank(self.entries(), self.key_of())].1 == *final(r),
    {
        proof {
            lemma_inserted(self.data@, self.insert_position as int, self.key, value);
            lemma_value_replaced(
                self.data@.insert(self.insert_position as int, (self.key, value)),
                self.insert_position as int,
            );
            lemma_as_map(self.data@);
        }
        self.data.insert(self.insert_position, (self.key, value));
        &mut self.data[self.insert_position].1
    }
}

impl<'a, V> OccupiedEntry<'a, V> {
    /// Validity: the entries are sorted and the index is among them.
    pub closed spec fn wf(self) -> bool {
        &&& sorted_keys(self.data@)
        &&& self.index < self.data@.len()
        &&& self.index == rank(self.data@, self.data@[self.index as int].0)
    }

    /// The entries of the map as they are.
    pub closed spec fn entries(self) -> Seq<(u64, V)> {
        self.data@
    }

    /// The key of the entry.
    pub closed spec fn key_of(self) -> u64 {
        self.data@[self.index as int].0
    }

    /// The value of the entry.
    pub closed spec fn value_of(self) -> V {
        self.data@[self.index as int].1
    }

    /// The entry holds its key and value in the map, at the rank of the key.
    pub proof fn lemma_holds(self)
        requires
            self.wf(),
        ensures
            as_map(self.entries()).contains_key(self.key_of()),
            as_map(self.entries())[self.key_of()] == self.value_of(),
            self.index == rank(self.entries(), self.key_of()),
            self.index < self.entries().len(),
            self.entries()[self.index as int] == (self.key_of(), self.value_of()),
            sorted_keys(self.entries()),
    {
        lemma_as_map(self.data@);
    }

    /// Gets a reference to the key in the entry.
    pub fn key(&self) -> (r: &u64)
        requires
            self.wf(),
        ensures
            *r == self.key_of(),
    {
        &self.data[self.index].0
    }

    /// Takes the key and the value out of the map.
    pub fn remove_entry(self) -> (r: (u64, V))
        requires
            self.wf(),
        ensures
            r == (self.key_of(), self.value_of()),
            sorted_keys(final(self.data)@),
            as_map(final(self.data)@) == as_map(self.entries()).remove(self.key_of()),
    {
        proof {
            lemma_removed(self.data@, self.index as int);
        }
        self.data.remove(self.index)
    }

    /// Gets a reference to the value in the entry.
    pub fn get(&self) -> (r: &V)
        requires
            self.wf(),
        ensures
            *r == self.value_of(),
    {
        &self.data[self.index].1
    }

    /// Converts the entry into a mutable reference to its value, which
    /// lives as long as the borrow of the map.
    pub fn into_mut(self) -> (r: &'a mut V)
        requires
            self.wf(),
        ensures
            *r == self.value_of(),
            sorted_keys(final(self.data)@),
            as_map(final(self.data)@) == as_map(self.entries()).insert(
                self.key_of(),
                *final(r),
            ),
            differs_in_value(self.entries(), final(self.data)@, self.index as int),
            final(self.data)@[self.index as int].1 == *final(r),
    {
        proof {
            lemma_value_replaced(self.data@, self.index as int);
        }
        &mut self.data[self.index].1
    }

    /// Gets a mutable reference to the value in the entry.
    pub fn get_mut(&mut self) -> (r: &mut V)
        requires
            old(self).wf(),
        ensures
            *r == old(self).value_of(),
            final(self).wf(),
            final(self).index == old(self).index,
            final(self).key_of() == old(self).key_of(),
            final(self).value_of() == *final(r),
            as_map(final(self).entries()) == as_map(old(self).entries()).insert(
                old(self).key_of(),
                *final(r),
            ),
            final(final(self).data)@ == final(old(self).data)@,
    {
        proof {
            lemma_value_replaced(self.data@, self.index as int);
        }
        &mut self.data[self.index].1
    }

    /// Sets the value of the entry, and returns the entry's old value.
    pub fn insert(&mut self, value: V) -> (r: V)
        requires
            old(self).wf(),
        ensures
            r == old(self).value_of(),
            final(self).wf(),
            final(self).index == old(self).index,
            final(self).key_of() == old(self).key_of(),
            final(self).value_of() == value,
            as_map(final(self).entries()) == as_map(old(self).entries()).insert(
                old(self).key_of(),
                value,
            ),
            final(final(self).data)@ == final(old(self).data)@,
    {
        proof {
            lemma_value_replaced(self.data@, self.index as int);
        }
        let mut value = value;
        core::mem::swap(&mut self.data[self.index].1, &mut value);
        value
    }

    /// Takes the value out of the entry, and returns it.
    pub fn remove(self) -> (r: V)
        requires
            self.wf(),
        ensures
            r == self.value_of(),
            sorted_keys(final(self.data)@),
            as_map(final(self.data)@) == as_map(self.entries()).remove(self.key_of()),
    {
        self.remove_entry().1
    }
}

impl<'a, V> Entry<'a, V> {
    /// Validity of the entry, vacant or occupied.
    pub open spec fn wf(self) -> bool {
        match self {
            Entry::Vacant(entry) => entry.wf(),
            Entry::Occupied(entry) => entry.wf(),
        }
    }

    /// The entries of the map as they are.
    pub open spec fn entries(self) -> Seq<(u64, V)> {
        match self {
            Entry::Vacant(entry) => entry.entries(),
            Entry::Occupied(entry) => entry.entries(),
        }
    }

    /// The key of the entry.
    pub open spec fn key_of(self) -> u64 {
        match self {
            Entry::Vacant(entry) => entry.key_of(),
            Entry::Occupied(entry) => entry.key_of(),
        }
    }

    /// The index among the entries at which the key stands, or belongs.
    pub open spec fn position(self) -> int {
        rank(self.entries(), self.key_of())
    }

    /// Whether `after` holds the entries with one value at the key, which
    /// was put in if the entry was vacant.
    pub open spec fn settled(self, after: Seq<(u64, V)>) -> bool {
        match self {
            Entry::Vacant(_) => gained_entry(self.entries(), after, self.position(), self.key_of()),
            Entry::Occupied(_) => differs_in_value(self.entries(), after, self.position()),
        }
    }

    /// The entries are sorted; an occupied entry stands at its position and
    /// holds its key there.
    pub proof fn lemma_position(self)
        requires
            self.wf(),
        ensures
            sorted_keys(self.entries()),
            0 <= self.position() <= self.entries().len(),
            self matches Entry::Occupied(entry) ==> self.position() < self.entries().len()
                && self.entries()[self.position()] == (self.key_of(), entry.value_of()),
            self is Vacant ==> !as_map(self.entries()).contains_key(self.key_of()),
    {
        match self {
            Entry::Vacant(entry) => {
                entry.lemma_vacant();
                lemma_rank_splits(entry.entries(), entry.key_of());
            },
            Entry::Occupied(entry) => {
                entry.lemma_holds();
            },
        }
    }

    /// The value at the key as `or_insert` will find it: the stored one, or
    /// else `default`.
    pub open spec fn value_or(self, default: V) -> V {
        match self {
            Entry::Vacant(_) => default,
            Entry::Occupied(entry) => entry.value_of(),
        }
    }

    /// Ensures a value is in the entry by inserting the default if it is
    /// vacant, and returns a mutable reference to the value.
    pub fn or_insert(self, default: V) -> (r: &'a mut V)
        requires
            self.wf(),
        ensures
            *r == self.value_or(default),
            self.settled((match self {
                Entry::Vacant(entry) => final(entry.data)@,
                Entry::Occupied(entry) => final(entry.data)@,
            })),
            (match self {
                Entry::Vacant(entry) => final(entry.data)@,
                Entry::Occupied(entry) => final(entry.data)@,
            })[self.position()].1 == *final(r),
            sorted_keys((match self {
                Entry::Vacant(entry) => final(entry.data)@,
                Entry::Occupied(entry) => final(entry.data)@,
            })),
            as_map((match self {
                Entry::Vacant(entry) => final(entry.data)@,
                Entry::Occupied(entry) => final(entry.data)@,
            })) == as_map(self.entries()).insert(
                self.key_of(),
                *final(r),
            ),
    {
        match self {
            Entry::Vacant(entry) => entry.insert(default),
            Entry::Occupied(entry) => entry.into_mut(),
        }
    }

    /// Ensures a value is in the entry by inserting the result of the
    /// default function if it is vacant, and returns a mutable reference to
    /// the value. The function is called only for a vacant entry.
    pub fn or_insert_with<F: FnOnce() -> V>(self, default: F) -> (r: &'a mut V)
        requires
            self.wf(),
            self is Vacant ==> call_requires(default, ()),
        ensures
            match self {
                Entry::Vacant(_) => call_ensures(default, (), *r),
                Entry::Occupied(entry) => *r == entry.value_of(),
            },
            sorted_keys((match self {
                Entry::Vacant(entry) => final(entry.data)@,
                Entry::Occupied(entry) => final(entry.data)@,
            })),
            as_map((match self {
                Entry::Vacant(entry) => final(entry.data)@,
                Entry::Occupied(entry) => final(entry.data)@,
            })) == as_map(self.entries()).insert(self.key_of(), *final(r)),
    {
        match self {
            Entry::Vacant(entry) => entry.insert(default()),
            Entry::Occupied(entry) => entry.into_mut(),
        }
    }

    /// Gives the function access to the value of an occupied entry, in
    /// place; a vacant entry is handed back as it is.
    pub fn and_modify<F: FnOnce(&mut V)>(self, f: F) -> (r: Self)
        requires
            self.wf(),
            self matches Entry::Occupied(entry) ==> forall|v: &mut V|
                *v == entry.value_of() ==> call_requires(f, (v,)),
        ensures
            r.wf(),
            r.key_of() == self.key_of(),
            r is Vacant == self is Vacant,
            self is Vacant ==> r.entries() == self.entries(),
            (match r {
                Entry::Vacant(entry) => final(entry.data)@,
                Entry::Occupied(entry) => final(entry.data)@,
            }) == (match self {
                Entry::Vacant(entry) => final(entry.data)@,
                Entry::Occupied(entry) => final(entry.data)@,
            }),
            r matches Entry::Occupied(entry) ==> as_map(r.entries()) == as_map(
                self.entries(),
            ).insert(self.key_of(), entry.value_of()),
            r matches Entry::Occupied(entry) ==> (self matches Entry::Occupied(before) ==> (
            exists|v: &mut V|
                *v == before.value_of() && *final(v) == entry.value_of() && #[trigger] call_ensures(
                    f,
                    (v,),
                    (),
                ))),
    {
        let mut this = self;
        match this {
            Entry::Vacant(_) => this,
            Entry::Occupied(ref mut entry) => {
                f(entry.get_mut());
                this
            },
        }
    }

    /// Ensures a value is in the entry by inserting the default value if it
    /// is vacant, and returns a mutable reference to the value.
    pub fn or_default(self) -> (r: &'a mut V) where V: Default
        requires
            self.wf(),
            self is Vacant ==> call_requires(V::default, ()),
        ensures
            match self {
                Entry::Vacant(_) => call_ensures(V::default, (), *r),
                Entry::Occupied(entry) => *r == entry.value_of(),
            },
            sorted_keys((match self {
                Entry::Vacant(entry) => final(entry.data)@,
                Entry::Occupied(entry) => final(entry.data)@,
            })),
            as_map((match self {
                Entry::Vacant(entry) => final(entry.data)@,
                Entry::Occupied(entry) => final(entry.data)@,
            })) == as_map(self.entries()).insert(self.key_of(), *final(r)),
    {
        self.or_insert_with(V::default)
    }

    /// Returns a reference to this entry's key.
    pub fn key(&self) -> (r: &u64)
        requires
            self.wf(),
        ensures
            *r == self.key_of(),
    {
        match self {
            Entry::Vacant(entry) => entry.key(),
            Entry::Occupied(entry) => entry.key(),
        }
    }
}

/// Taking an entry out keeps the others sorted and removes its key from the
/// map.
pub proof fn lemma_removed<V>(entries: Seq<(u64, V)>, index: int)
    requires
        sorted_keys(entries),
        0 <= index < entries.len(),
    ensures
        sorted_keys(entries.remove(index)),
        as_map(entries.remove(index)) == as_map(entries).remove(entries[index].0),
{
    let key = entries[index].0;
    let after = entries.remove(index);
    lemma_as_map(entries);
    lemma_as_map(after);
    assert forall|k: u64| as_map(after).contains_key(k) == as_map(entries).remove(
        key,
    ).contains_key(k) by {
        if has_key(after, k) {
            let i = index_of(after, k);
            if i < index {
                assert(entries[i].0 == k);
            } else {
                assert(entries[i + 1].0 == k);
            }
        }
        if has_key(entries, k) && k != key {
            let i = index_of(entries, k);
            if i < index {
                assert(after[i].0 == k);
            } else {
                assert(after[i - 1].0 == k);
            }
        }
    }
    assert forall|k: u64| as_map(after).contains_key(k) implies as_map(after)[k] == as_map(
        entries,
    ).remove(key)[k] by {
        let i = index_of(after, k);
        if i < index {
            assert(entries[i] == after[i]);
        } else {
            assert(entries[i + 1] == after[i]);
        }
    }
    assert(as_map(after) =~= as_map(entries).remove(key));
}

/// Replacing the value of an entry stores the value under the entry's key.
pub proof fn lemma_updated<V>(entries: Seq<(u64, V)>, index: int, value: V)
    requires
        sorted_keys(entries),
        0 <= index < entries.len(),
    ensures
        sorted_keys(entries.update(index, (entries[index].0, value))),
        as_map(entries.update(index, (entries[index].0, value))) == as_map(entries).insert(
            entries[index].0,
            value,
        ),
{
    let key = entries[index].0;
    let after = entries.update(index, (key, value));
    lemma_as_map(entries);
    lemma_as_map(after);
    assert forall|k: u64| as_map(after).contains_key(k) == as_map(entries).insert(
        key,
        value,
    ).contains_key(k) by {
        if has_key(after, k) {
            let i = index_of(after, k);
            assert(entries[i].0 == k);
        }
        if has_key(entries, k) {
            let i = index_of(entries, k);
            assert(after[i].0 == k);
        }
        if k == key {
            assert(after[index].0 == k);
        }
    }
    assert forall|k: u64| as_map(after).contains_key(k) implies as_map(after)[k] == as_map(
        entries,
    ).insert(key, value)[k] by {
        let i = index_of(after, k);
        if i != index {
            assert(entries[i] == after[i]);
        }
    }
    assert(as_map(after) =~= as_map(entries).insert(key, value));
}

/// Whether `after` is `before` with another value in the entry at `index`.
pub open spec fn differs_in_value<V>(
    before: Seq<(u64, V)>,
    after: Seq<(u64, V)>,
    index: int,
) -> bool {
    &&& after.len() == before.len()
    &&& 0 <= index < before.len()
    &&& after[index].0 == before[index].0
    &&& forall|j: int| 0 <= j < before.len() && j != index ==> after[j] == before[j]
}

/// Whether `after` is `before` with one more entry, put at `index` under
/// `key`.
pub open spec fn gained_entry<V>(
    before: Seq<(u64, V)>,
    after: Seq<(u64, V)>,
    index: int,
    key: u64,
) -> bool {
    &&& after.len() == before.len() + 1
    &&& 0 <= index <= before.len()
    &&& after[index].0 == key
    &&& forall|j: int| 0 <= j < index ==> after[j] == before[j]
    &&& forall|j: int| index <= j < before.len() ==> after[j + 1] == before[j]
}

/// Whatever is written into the value of an entry is stored under the
/// entry's key, and nothing else changes.
pub proof fn lemma_value_replaced<V>(entries: Seq<(u64, V)>, index: int)
    requires
        sorted_keys(entries),
        0 <= index < entries.len(),
    ensures
        forall|after: Seq<(u64, V)>|
            differs_in_value(entries, after, index) ==> sorted_keys(after) && #[trigger] as_map(
                after,
            ) == as_map(entries).insert(entries[index].0, after[index].1),
        forall|after: Seq<(u64, V)>|
            differs_in_value(entries, after, index) ==> #[trigger] rank(after, entries[index].0)
                == index,
{
    assert forall|after: Seq<(u64, V)>| differs_in_value(entries, after, index) implies sorted_keys(
        after,
    ) && #[trigger] as_map(after) == as_map(entries).insert(
        entries[index].0,
        after[index].1,
    ) by {
        assert(after =~= entries.update(index, (entries[index].0, after[index].1)));
        lemma_updated(entries, index, after[index].1);
    }
    assert forall|after: Seq<(u64, V)>| differs_in_value(entries, after, index) implies #[trigger] rank(
        after,
        entries[index].0,
    ) == index by {
        assert(after =~= entries.update(index, (entries[index].0, after[index].1)));
        lemma_updated(entries, index, after[index].1);
        lemma_rank(after, entries[index].0, index);
    }
}

/// Putting a new key at its rank keeps the entries sorted and adds the key to
/// the map.
pub proof fn lemma_inserted<V>(entries: Seq<(u64, V)>, index: int, key: u64, value: V)
    requires
        sorted_keys(entries),
        index == rank(entries, key),
        !has_key(entries, key),
    ensures
        0 <= index <= entries.len(),
        sorted_keys(entries.insert(index, (key, value))),
        as_map(entries.insert(index, (key, value))) == as_map(entries).insert(key, value),
        rank(entries.insert(index, (key, value)), key) == index,
{
    lemma_rank_splits(entries, key);
    let after = entries.insert(index, (key, value));
    assert forall|i: int, j: int| 0 <= i < j < after.len() implies after[i].0 < after[j].0 by {
        if i < index && j > index {
            assert(after[j] == entries[j - 1]);
        }
    }
    lemma_as_map(entries);
    lemma_as_map(after);
    assert forall|k: u64| as_map(after).contains_key(k) == as_map(entries).insert(
        key,
        value,
    ).contains_key(k) by {
        if has_key(after, k) && k != key {
            let i = index_of(after, k);
            if i < index {
                assert(entries[i].0 == k);
            } else {
                assert(entries[i - 1].0 == k);
            }
        }
        if has_key(entries, k) {
            let i = index_of(entries, k);
            if i < index {
                assert(after[i].0 == k);
            } else {
                assert(after[i + 1].0 == k);
            }
        }
        if k == key {
            assert(after[index].0 == k);
        }
    }
    assert forall|k: u64| as_map(after).contains_key(k) implies as_map(after)[k] == as_map(
        entries,
    ).insert(key, value)[k] by {
        let i = index_of(after, k);
        if k != key {
            if i < index {
                assert(entries[i] == after[i]);
            } else {
                assert(entries[i - 1] == after[i]);
            }
        } else {
            assert(after[index].0 == key);
        }
    }
    assert(as_map(after) =~= as_map(entries).insert(key, value));
    lemma_rank(after, key, index);
}

/// In sorted entries, the keys before the rank of `key` are below it and the
/// keys from the rank on are not.
pub proof fn lemma_rank_splits<V>(entries: Seq<(u64, V)>, key: u64)
    requires
        sorted_keys(entries),
    ensures
        0 <= rank(entries, key) <= entries.len(),
        forall|j: int| 0 <= j < rank(entries, key) ==> (#[trigger] entries[j]).0 < key,
        forall|j: int| rank(entries, key) <= j < entries.len() ==> (#[trigger] entries[j]).0 >= key,
    decreases entries.len(),
{
    if entries.len() > 0 {
        let rest = entries.drop_last();
        lemma_rank_splits(rest, key);
        assert forall|j: int| 0 <= j < rank(entries, key) implies (#[trigger] entries[j]).0
            < key by {
            if j < rest.len() {
                assert(rest[j] == entries[j]);
                if j >= rank(rest, key) {
                    assert(entries[j].0 < entries.last().0);
                }
            }
        }
        assert forall|j: int| rank(entries, key) <= j < entries.len() implies (
        #[trigger] entries[j]).0 >= key by {
            if j < rest.len() {
                assert(rest[j] == entries[j]);
            }
        }
    }
}

} // verus!
