//! What is kept of the results of hooks and scripts, and for how long.
use std::sync::Arc;
use vstd::prelude::*;

use super::hook::{cache_key, result_key};
use crate::ir::{GeneratorSpec, Spec};
use crate::runtime::{copy_rows, rows, Suggestion};
use crate::text::{as_text, concat, opt_text, same, share, texts};

verus! {

/// The number of results kept at most. Results are cheap to compute again, so
/// all of them go when one more would not fit.
pub const MAX_CACHE_ENTRIES: usize = 512;

// ---------------------------------------------------------------------------
// Results by key
// ---------------------------------------------------------------------------
/// A result, its key, and when it was computed, in milliseconds.
pub struct Kept<T> {
    pub key: String,
    pub value: T,
    pub fetched_at_ms: u64,
}

/// A result, its key, and when it was computed.
pub struct KeptView<T> {
    pub key: Seq<char>,
    pub value: T,
    pub fetched_at_ms: u64,
}

impl<T> View for Kept<T> {
    type V = KeptView<T>;

    open spec fn view(&self) -> KeptView<T> {
        KeptView { key: self.key@, value: self.value, fetched_at_ms: self.fetched_at_ms }
    }
}

/// Results by key.
pub struct KeptResults<T> {
    entries: Vec<Kept<T>>,
}

impl<T> View for KeptResults<T> {
    type V = Seq<KeptView<T>>;

    closed spec fn view(&self) -> Seq<KeptView<T>> {
        Seq::new(self.entries@.len(), |i: int| self.entries@[i]@)
    }
}

/// How long a result may be used: any time where a stale one will do, else for
/// the given time, without end where none is given.
#[derive(Debug, Clone, Copy, PartialEq, Eq, Structural)]
pub struct CachePolicy {
    pub ttl_ms: Option<u64>,
    pub swr: bool,
}

impl CachePolicy {
    /// Whether a result of the given age may be used.
    pub open spec fn allows(self, age_ms: int) -> bool {
        self.swr || (self.ttl_ms matches Some(ttl) ==> age_ms <= ttl)
    }
}

/// The place of a key, from `i` on.
pub open spec fn kept_place<T>(entries: Seq<KeptView<T>>, key: Seq<char>, i: int) -> Option<int>
    decreases entries.len() - i,
{
    if i < 0 || i >= entries.len() {
        None
    } else if entries[i].key == key {
        Some(i)
    } else {
        kept_place(entries, key, i + 1)
    }
}

/// The age of a result; a clock that went back counts as none.
pub open spec fn age(now_ms: u64, fetched_at_ms: u64) -> int {
    if now_ms >= fetched_at_ms {
        now_ms - fetched_at_ms
    } else {
        0
    }
}

/// The result under a key, where the policy allows its use.
pub open spec fn usable<T>(
    entries: Seq<KeptView<T>>,
    key: Seq<char>,
    policy: CachePolicy,
    now_ms: u64,
) -> Option<T> {
    match kept_place(entries, key, 0) {
        Some(i) => if policy.allows(age(now_ms, entries[i].fetched_at_ms)) {
            Some(entries[i].value)
        } else {
            None
        },
        None => None,
    }
}

/// The results with one more under its key.
pub open spec fn with_kept<T>(entries: Seq<KeptView<T>>, entry: KeptView<T>) -> Seq<KeptView<T>> {
    match kept_place(entries, entry.key, 0) {
        Some(i) => entries.update(i, entry),
        None => if entries.len() >= MAX_CACHE_ENTRIES {
            seq![entry]
        } else {
            entries.push(entry)
        },
    }
}

impl<T> KeptResults<T> {
    /// Nothing kept yet.
    pub fn new() -> (kept: KeptResults<T>)
        ensures
            kept@ == Seq::<KeptView<T>>::empty(),
    {
        let kept = KeptResults { entries: Vec::new() };
        proof {
            assert(kept@ =~= Seq::<KeptView<T>>::empty());
        }
        kept
    }

    fn place(&self, key: &str) -> (place: Option<usize>)
        ensures
            match place {
                Some(i) => kept_place(self@, key@, 0) == Some(i as int) && i < self.entries@.len(),
                None => kept_place(self@, key@, 0) is None,
            },
    {
        let mut i: usize = 0;
        while i < self.entries.len()
            invariant
                i <= self.entries@.len(),
                kept_place(self@, key@, 0) == kept_place(self@, key@, i as int),
            decreases self.entries@.len() - i,
        {
            proof {
                assert(self@[i as int] == self.entries@[i as int]@);
            }
            if same(&self.entries[i].key, key) {
                return Some(i);
            }
            i += 1;
        }
        None
    }

    /// The result under a key, where the policy allows its use.
    pub fn get(&self, key: &str, policy: CachePolicy, now_ms: u64) -> (found: Option<&T>)
        ensures
            match found {
                Some(value) => usable(self@, key@, policy, now_ms) == Some(*value),
                None => usable(self@, key@, policy, now_ms) is None,
            },
    {
        let place = match self.place(key) {
            Some(place) => place,
            None => {
                return None;
            },
        };
        proof {
            assert(self@[place as int] == self.entries@[place as int]@);
        }
        let entry = &self.entries[place];
        if policy.swr {
            return Some(&entry.value);
        }
        let age_ms: u64 = if now_ms >= entry.fetched_at_ms {
            now_ms - entry.fetched_at_ms
        } else {
            0
        };
        match policy.ttl_ms {
            Some(ttl) => if age_ms > ttl {
                None
            } else {
                Some(&entry.value)
            },
            None => Some(&entry.value),
        }
    }

    /// Keeps a result under a key.
    pub fn put(&mut self, key: &str, value: T, now_ms: u64)
        ensures
            final(self)@ == with_kept(
                old(self)@,
                (KeptView { key: key@, value, fetched_at_ms: now_ms }),
            ),
    {
        let ghost start = self@;
        let ghost added = KeptView { key: key@, value, fetched_at_ms: now_ms };
        let entry = Kept { key: key.to_owned(), value, fetched_at_ms: now_ms };
        match self.place(key) {
            Some(place) => {
                self.entries.set(place, entry);
                proof {
                    assert(self@ =~= start.update(place as int, added));
                }
            },
            None => {
                if self.entries.len() >= MAX_CACHE_ENTRIES {
                    self.entries = Vec::new();
                    self.entries.push(entry);
                    proof {
                        assert(self@ =~= seq![added]);
                    }
                } else {
                    self.entries.push(entry);
                    proof {
                        assert(self@ =~= start.push(added));
                    }
                }
            },
        }
    }
}

// ---------------------------------------------------------------------------
// Policies
// ---------------------------------------------------------------------------
/// How the results of a generator are kept.
#[derive(Debug)]
pub struct OwnedCachePolicy {
    pub by_directory: bool,
    pub key: Option<String>,
    pub lookup: CachePolicy,
}

/// How the results of a generator are kept.
pub struct PolicyView {
    pub by_directory: bool,
    pub key: Option<Seq<char>>,
    pub lookup: CachePolicy,
}

impl View for OwnedCachePolicy {
    type V = PolicyView;

    open spec fn view(&self) -> PolicyView {
        PolicyView { by_directory: self.by_directory, key: opt_text(self.key), lookup: self.lookup }
    }
}

/// How the results of a generator are kept: not at all where neither it nor
/// the setting asks for it. A stale result always will do.
pub open spec fn policy_of(generator: GeneratorSpec, auto_cache: bool) -> Option<PolicyView> {
    let asks = generator.cache_key is Some || generator.cache_by_directory is Some
        || generator.cache_ttl_ms is Some;
    if !asks && !auto_cache {
        None
    } else {
        let ttl: Option<i64> = match generator.cache_ttl_ms {
            Some(ttl) => Some(ttl),
            None => if auto_cache {
                Some(1000)
            } else {
                None
            },
        };
        Some(
            PolicyView {
                by_directory: generator.cache_by_directory == Some(true),
                key: opt_text(generator.cache_key),
                lookup: CachePolicy {
                    ttl_ms: match ttl {
                        Some(ttl) => if ttl >= 0 {
                            Some(ttl as u64)
                        } else {
                            None
                        },
                        None => None,
                    },
                    swr: true,
                },
            },
        )
    }
}

/// Computes [`policy_of`].
pub fn owned_cache_policy(generator: &GeneratorSpec, auto_cache: bool) -> (policy: Option<
    OwnedCachePolicy,
>)
    ensures
        match policy {
            Some(policy) => policy_of(*generator, auto_cache) == Some(policy@),
            None => policy_of(*generator, auto_cache) is None,
        },
{
    let asks = generator.cache_key.is_some() || generator.cache_by_directory.is_some()
        || generator.cache_ttl_ms.is_some();
    if !asks && !auto_cache {
        return None;
    }
    let ttl: Option<i64> = match generator.cache_ttl_ms {
        Some(ttl) => Some(ttl),
        None => if auto_cache {
            Some(1000)
        } else {
            None
        },
    };
    let ttl_ms: Option<u64> = match ttl {
        Some(ttl) => if ttl >= 0 {
            Some(ttl as u64)
        } else {
            None
        },
        None => None,
    };
    let by_directory = match generator.cache_by_directory {
        Some(by_directory) => by_directory,
        None => false,
    };
    Some(
        OwnedCachePolicy {
            by_directory,
            key: generator.cache_key.clone(),
            lookup: CachePolicy { ttl_ms, swr: true },
        },
    )
}

/// The key under which a generator's result of some kind is kept.
pub open spec fn kept_key(
    kind: Seq<char>,
    policy: PolicyView,
    cwd: Seq<char>,
    tokens: Seq<Seq<char>>,
) -> Seq<char> {
    kind + ":"@ + result_key(policy.by_directory, cwd, policy.key, tokens)
}

/// Computes [`kept_key`].
pub fn key_for(kind: &str, policy: &OwnedCachePolicy, cwd: &str, tokens: &[String]) -> (key: String)
    ensures
        key@ == kept_key(kind@, policy@, cwd@, texts(tokens@)),
{
    let inner = cache_key(policy.by_directory, cwd, as_text(&policy.key), tokens);
    concat(&concat(kind, ":"), &inner)
}

// ---------------------------------------------------------------------------
// Rows and specs
// ---------------------------------------------------------------------------
/// The rows of a generator: those that were kept, where the policy allows it,
/// else the fresh ones, which are then kept. Nothing comes back where fresh
/// rows are needed and missing.
pub fn cached_suggestions(
    kept: &mut KeptResults<Vec<Suggestion>>,
    policy: Option<&OwnedCachePolicy>,
    key: &str,
    now_ms: u64,
    fresh: Option<Vec<Suggestion>>,
) -> (out: Option<Vec<Suggestion>>)
    ensures
        match policy {
            None => final(kept)@ == old(kept)@ && out == fresh,
            Some(policy) => match usable(old(kept)@, key@, policy.lookup, now_ms) {
                Some(hit) => final(kept)@ == old(kept)@ && (out matches Some(list) && rows(list@)
                    == rows(hit@)),
                None => match fresh {
                    None => final(kept)@ == old(kept)@ && out is None,
                    Some(list) => {
                        &&& final(kept)@ == with_kept(
                            old(kept)@,
                            (KeptView { key: key@, value: list, fetched_at_ms: now_ms }),
                        )
                        &&& out matches Some(copy) && rows(copy@) == rows(list@)
                    },
                },
            },
        },
{
    let policy = match policy {
        Some(policy) => policy,
        None => {
            return fresh;
        },
    };
    if let Some(hit) = kept.get(key, policy.lookup, now_ms) {
        return Some(copy_rows(hit));
    }
    match fresh {
        Some(list) => {
            let copy = copy_rows(&list);
            kept.put(key, list, now_ms);
            Some(copy)
        },
        None => None,
    }
}

/// What tells the output of a script from that of others: the command as it
/// runs, and where.
pub open spec fn script_words(command: Seq<char>, args: Seq<Seq<char>>, cwd: Seq<char>) -> Seq<
    Seq<char>,
> {
    (seq![command] + args).push(cwd)
}

/// Computes [`script_words`].
pub fn script_cache_fallback(command: &str, args: &[String], cwd: &str) -> (words: Vec<String>)
    ensures
        texts(words@) == script_words(command@, texts(args@), cwd@),
{
    let ghost all = texts(args@);
    let mut words: Vec<String> = Vec::new();
    words.push(command.to_owned());
    let mut i: usize = 0;
    proof {
        assert(texts(words@) =~= seq![command@] + all.take(0));
    }
    while i < args.len()
        invariant
            i <= args@.len(),
            all == texts(args@),
            texts(words@) == seq![command@] + all.take(i as int),
        decreases args@.len() - i,
    {
        let ghost had = words@;
        words.push(args[i].clone());
        i += 1;
        proof {
            assert(texts(words@) =~= texts(had).push(all[i - 1]));
            assert(all.take(i as int) =~= all.take(i - 1).push(all[i - 1]));
            assert(texts(words@) =~= seq![command@] + all.take(i as int));
        }
    }
    let ghost had = words@;
    words.push(cwd.to_owned());
    proof {
        assert(all.take(all.len() as int) =~= all);
        assert(texts(words@) =~= texts(had).push(cwd@));
    }
    words
}

/// The output of a script: the one that was kept, where the policy allows it,
/// else the fresh one, which is then kept. Nothing comes back where a fresh one
/// is needed and missing.
pub fn cached_script_output(
    kept: &mut KeptResults<String>,
    policy: Option<&OwnedCachePolicy>,
    key: &str,
    now_ms: u64,
    fresh: Option<String>,
) -> (out: Option<String>)
    ensures
        match policy {
            None => final(kept)@ == old(kept)@ && out == fresh,
            Some(policy) => match usable(old(kept)@, key@, policy.lookup, now_ms) {
                Some(hit) => final(kept)@ == old(kept)@ && (out matches Some(text) && text@
                    == hit@),
                None => match fresh {
                    None => final(kept)@ == old(kept)@ && out is None,
                    Some(text) => {
                        &&& final(kept)@ == with_kept(
                            old(kept)@,
                            (KeptView { key: key@, value: text, fetched_at_ms: now_ms }),
                        )
                        &&& out matches Some(copy) && copy@ == text@
                    },
                },
            },
        },
{
    let policy = match policy {
        Some(policy) => policy,
        None => {
            return fresh;
        },
    };
    if let Some(hit) = kept.get(key, policy.lookup, now_ms) {
        return Some(hit.clone());
    }
    match fresh {
        Some(text) => {
            let copy = text.clone();
            kept.put(key, text, now_ms);
            Some(copy)
        },
        None => None,
    }
}

/// The spec under a key: the one that was kept, else the fresh one, which is
/// then kept. Nothing comes back where a fresh one is needed and missing.
pub fn cached_spec(
    kept: &mut KeptResults<Arc<Spec>>,
    key: &str,
    now_ms: u64,
    fresh: Option<Arc<Spec>>,
) -> (out: Option<Arc<Spec>>)
    ensures
        match usable(old(kept)@, key@, (CachePolicy { ttl_ms: None, swr: true }), now_ms) {
            Some(hit) => final(kept)@ == old(kept)@ && out == Some(hit),
            None => match fresh {
                None => final(kept)@ == old(kept)@ && out is None,
                Some(spec) => final(kept)@ == with_kept(
                    old(kept)@,
                    (KeptView { key: key@, value: spec, fetched_at_ms: now_ms }),
                ) && out == fresh,
            },
        },
{
    let policy = CachePolicy { ttl_ms: None, swr: true };
    if let Some(hit) = kept.get(key, policy, now_ms) {
        return Some(share(hit));
    }
    match fresh {
        Some(spec) => {
            let copy = share(&spec);
            kept.put(key, spec, now_ms);
            Some(copy)
        },
        None => None,
    }
}

// ---------------------------------------------------------------------------
// Laws
// ---------------------------------------------------------------------------
proof fn lemma_kept_place<T>(entries: Seq<KeptView<T>>, key: Seq<char>, i: int)
    requires
        0 <= i,
    ensures
        match kept_place(entries, key, i) {
            Some(k) => i <= k < entries.len() && entries[k].key == key && forall|j: int|
                i <= j < k ==> (#[trigger] entries[j]).key != key,
            None => forall|j: int| i <= j < entries.len() ==> (#[trigger] entries[j]).key != key,
        },
    decreases entries.len() - i,
{
    if i < entries.len() && entries[i].key != key {
        lemma_kept_place(entries, key, i + 1);
    }
}

proof fn lemma_kept_place_is<T>(entries: Seq<KeptView<T>>, key: Seq<char>, i: int, k: int)
    requires
        0 <= i <= k < entries.len(),
        entries[k].key == key,
        forall|j: int| i <= j < k ==> (#[trigger] entries[j]).key != key,
    ensures
        kept_place(entries, key, i) == Some(k),
    decreases k - i,
{
    if i < k {
        assert(entries[i].key != key);
        lemma_kept_place_is(entries, key, i + 1, k);
    }
}

/// What was just kept is used, under every policy.
pub proof fn law_fresh_results_are_used<T>(
    entries: Seq<KeptView<T>>,
    entry: KeptView<T>,
    policy: CachePolicy,
)
    ensures
        usable(with_kept(entries, entry), entry.key, policy, entry.fetched_at_ms) == Some(
            entry.value,
        ),
{
    lemma_kept_place(entries, entry.key, 0);
    let after = with_kept(entries, entry);
    match kept_place(entries, entry.key, 0) {
        Some(i) => {
            assert forall|j: int| 0 <= j < i implies (#[trigger] after[j]).key != entry.key by {
                assert(after[j] == entries[j]);
            }
            lemma_kept_place_is(after, entry.key, 0, i);
        },
        None => {
            let last = after.len() - 1;
            assert forall|j: int| 0 <= j < last implies (#[trigger] after[j]).key != entry.key by {
                assert(after[j] == entries[j]);
            }
            lemma_kept_place_is(after, entry.key, 0, last);
        },
    }
}

/// The number of results stays within its bound.
pub proof fn law_results_stay_few<T>(entries: Seq<KeptView<T>>, entry: KeptView<T>)
    requires
        entries.len() <= MAX_CACHE_ENTRIES,
    ensures
        with_kept(entries, entry).len() <= MAX_CACHE_ENTRIES,
{
    lemma_kept_place(entries, entry.key, 0);
}

} // verus!
