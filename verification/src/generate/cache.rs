//! Results kept for files that have not changed since.
use vstd::prelude::*;

use crate::text::same;

verus! {

/// Results by name, each with the time at which its source was last changed.
/// The least recently used one makes room for a new one.
pub struct MtimeLru<T> {
    entries: Vec<Stamped<T>>,
    limit: usize,
}

/// A result, its name, and when its source was last changed.
pub struct Stamped<T> {
    pub key: String,
    pub mtime: Option<u64>,
    pub value: T,
}

/// A result, its name, and when its source was last changed.
pub struct StampedView<T> {
    pub key: Seq<char>,
    pub mtime: Option<u64>,
    pub value: T,
}

impl<T> View for Stamped<T> {
    type V = StampedView<T>;

    open spec fn view(&self) -> StampedView<T> {
        StampedView { key: self.key@, mtime: self.mtime, value: self.value }
    }
}

impl<T> View for MtimeLru<T> {
    type V = Seq<StampedView<T>>;

    closed spec fn view(&self) -> Seq<StampedView<T>> {
        Seq::new(self.entries@.len(), |i: int| self.entries@[i]@)
    }
}

impl<T> MtimeLru<T> {
    /// The number of results kept at most.
    pub closed spec fn limit_spec(&self) -> nat {
        self.limit as nat
    }
}

/// The place of a name, from `i` on.
pub open spec fn key_place<T>(entries: Seq<StampedView<T>>, key: Seq<char>, i: int) -> Option<int>
    decreases entries.len() - i,
{
    if i < 0 || i >= entries.len() {
        None
    } else if entries[i].key == key {
        Some(i)
    } else {
        key_place(entries, key, i + 1)
    }
}

/// The entries with one moved to the end, where the last used one stands.
pub open spec fn used<T>(entries: Seq<StampedView<T>>, i: int) -> Seq<StampedView<T>> {
    entries.remove(i).push(entries[i])
}

/// The entries with one more result: in the place of an older one of the same
/// name, else after the oldest one has made room.
pub open spec fn with_entry<T>(
    entries: Seq<StampedView<T>>,
    entry: StampedView<T>,
    limit: nat,
) -> Seq<StampedView<T>> {
    match key_place(entries, entry.key, 0) {
        Some(i) => entries.remove(i).push(entry),
        None => if entries.len() >= limit {
            entries.remove(0).push(entry)
        } else {
            entries.push(entry)
        },
    }
}

/// Whether no name stands twice and the limit is kept.
pub open spec fn is_cache<T>(entries: Seq<StampedView<T>>, limit: nat) -> bool {
    &&& 0 < limit
    &&& entries.len() <= limit
    &&& forall|i: int, j: int|
        #![trigger entries[i], entries[j]]
        0 <= i < j < entries.len() ==> entries[i].key != entries[j].key
}

proof fn lemma_key_place<T>(entries: Seq<StampedView<T>>, key: Seq<char>, i: int)
    requires
        0 <= i,
    ensures
        match key_place(entries, key, i) {
            Some(k) => i <= k < entries.len() && entries[k].key == key,
            None => forall|j: int| i <= j < entries.len() ==> (#[trigger] entries[j]).key != key,
        },
    decreases entries.len() - i,
{
    if i < entries.len() && entries[i].key != key {
        lemma_key_place(entries, key, i + 1);
    }
}

impl<T> MtimeLru<T> {
    /// A cache without results, for a number of them at most.
    pub fn new(limit: usize) -> (cache: MtimeLru<T>)
        requires
            limit > 0,
        ensures
            cache@ == Seq::<StampedView<T>>::empty(),
            cache.limit_spec() == limit,
            is_cache(cache@, cache.limit_spec()),
    {
        let cache = MtimeLru { entries: Vec::new(), limit };
        proof {
            assert(cache@ =~= Seq::<StampedView<T>>::empty());
        }
        cache
    }

    /// The number of results.
    pub fn len(&self) -> (count: usize)
        ensures
            count == self@.len(),
    {
        self.entries.len()
    }

    /// Whether there is a result under a name, whatever became of its source.
    pub fn contains_key(&self, key: &str) -> (yes: bool)
        ensures
            yes == key_place(self@, key@, 0) is Some,
    {
        self.place(key).is_some()
    }

    fn place(&self, key: &str) -> (place: Option<usize>)
        ensures
            match place {
                Some(i) => key_place(self@, key@, 0) == Some(i as int) && i < self.entries@.len(),
                None => key_place(self@, key@, 0) is None,
            },
    {
        let mut i: usize = 0;
        while i < self.entries.len()
            invariant
                i <= self.entries@.len(),
                key_place(self@, key@, 0) == key_place(self@, key@, i as int),
            decreases self.entries@.len() - i,
        {
            proof {
                assert(self@[i as int] == self.entries@[i as int]@);
            }
            if same(&self.entries[i].key, key) {
                return Some(i);
            }
            i += 1;
        }
        None
    }

    /// The result under a name, where its source has not changed since; it
    /// becomes the last used one. A result whose source has changed is dropped.
    pub fn get(&mut self, key: &str, mtime: Option<u64>) -> (found: Option<&T>)
        requires
            is_cache(old(self)@, old(self).limit_spec()),
        ensures
            is_cache(final(self)@, final(self).limit_spec()),
            final(self).limit_spec() == old(self).limit_spec(),
            match key_place(old(self)@, key@, 0) {
                Some(i) => if old(self)@[i].mtime == mtime {
                    &&& final(self)@ == used(old(self)@, i)
                    &&& found matches Some(value) && *value == old(self)@[i].value
                } else {
                    final(self)@ == old(self)@.remove(i) && found is None
                },
                None => final(self)@ == old(self)@ && found is None,
            },
    {
        let place = match self.place(key) {
            Some(place) => place,
            None => {
                return None;
            },
        };
        let ghost start = self@;
        let fresh = match (self.entries[place].mtime, mtime) {
            (Some(stored), Some(now)) => stored == now,
            (None, None) => true,
            _ => false,
        };
        let entry = self.entries.remove(place);
        proof {
            assert(self@ =~= start.remove(place as int));
        }
        if !fresh {
            return None;
        }
        let ghost middle = self@;
        self.entries.push(entry);
        proof {
            assert(self@ =~= middle.push(start[place as int]));
        }
        let last = self.entries.len() - 1;
        Some(&self.entries[last].value)
    }

    /// Keeps a result under a name.
    pub fn insert(&mut self, key: &str, mtime: Option<u64>, value: T)
        requires
            is_cache(old(self)@, old(self).limit_spec()),
        ensures
            is_cache(final(self)@, final(self).limit_spec()),
            final(self).limit_spec() == old(self).limit_spec(),
            final(self)@ == with_entry(
                old(self)@,
                (StampedView { key: key@, mtime, value }),
                old(self).limit_spec(),
            ),
    {
        let ghost start = self@;
        let ghost added = StampedView { key: key@, mtime, value };
        proof {
            lemma_key_place(start, key@, 0);
        }
        match self.place(key) {
            Some(place) => {
                self.entries.remove(place);
                proof {
                    assert(self@ =~= start.remove(place as int));
                }
            },
            None => {
                if self.entries.len() >= self.limit {
                    self.entries.remove(0);
                    proof {
                        assert(self@ =~= start.remove(0));
                    }
                }
            },
        }
        let ghost middle = self@;
        self.entries.push(Stamped { key: key.to_owned(), mtime, value });
        proof {
            assert(self@ =~= middle.push(added));
            assert(self@ =~= with_entry(start, added, self.limit_spec()));
        }
    }
}

// ---------------------------------------------------------------------------
// Laws
// ---------------------------------------------------------------------------
/// What was kept is found again while its source stays unchanged.
pub proof fn law_kept_results_are_found<T>(
    entries: Seq<StampedView<T>>,
    entry: StampedView<T>,
    limit: nat,
)
    requires
        is_cache(entries, limit),
    ensures
        key_place(with_entry(entries, entry, limit), entry.key, 0) matches Some(i) && with_entry(
            entries,
            entry,
            limit,
        )[i] == entry,
{
    let after = with_entry(entries, entry, limit);
    lemma_key_place(entries, entry.key, 0);
    lemma_key_place(after, entry.key, 0);
    assert(after.last() == entry);
    assert(after[after.len() - 1].key == entry.key);
    let i = key_place(after, entry.key, 0)->Some_0;
    if i < after.len() - 1 {
        match key_place(entries, entry.key, 0) {
            Some(k) => {
                let at = if i < k { i } else { i + 1 };
                assert(after[i] == entries[at]);
                assert(entries[at].key == entries[k].key);
                assert(at < k || k < at);
            },
            None => {
                let at = if entries.len() >= limit { i + 1 } else { i };
                assert(after[i] == entries[at]);
            },
        }
    }
}

/// Keeping one more result drops at most the least recently used one.
pub proof fn law_only_the_oldest_is_dropped<T>(
    entries: Seq<StampedView<T>>,
    entry: StampedView<T>,
    limit: nat,
    k: int,
)
    requires
        is_cache(entries, limit),
        0 < k < entries.len(),
        entries[k].key != entry.key,
    ensures
        with_entry(entries, entry, limit).contains(entries[k]),
{
    let after = with_entry(entries, entry, limit);
    lemma_key_place(entries, entry.key, 0);
    match key_place(entries, entry.key, 0) {
        Some(i) => {
            if k < i {
                assert(after[k] == entries[k]);
            } else {
                assert(after[k - 1] == entries[k]);
            }
        },
        None => {
            if entries.len() >= limit {
                assert(after[k - 1] == entries[k]);
            } else {
                assert(after[k] == entries[k]);
            }
        },
    }
}

} // verus!
