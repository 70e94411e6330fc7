//! The queue engine: a flat store of priority keys and record buckets,
//! and the linear highest-key scan that recovers priority order from it.
//!
//! The store is an association list from 8-byte priority keys to
//! non-empty buckets, with no two entries for one priority and no
//! ordering among entries.  Every operation that needs the
//! highest-priority entry finds it by scanning and decoding every key.

use vstd::prelude::*;

use crate::codec::MAX_PAYLOAD_LEN;
use crate::codec::QueueError;
use crate::codec::bucket_payloads;
use crate::codec::bucket_wf;
use crate::codec::decode_front_record;
use crate::codec::decode_priority;
use crate::codec::encode_priority;
use crate::codec::encode_record;
use crate::codec::lemma_bucket_append_record;
use crate::codec::lemma_bucket_payloads_front;
use crate::codec::lemma_decode_encode;
use crate::codec::spec_decode_priority;
use crate::codec::spec_encode_record;
use crate::codec::spec_encode_priority;
use crate::order::is_max_prio;
use crate::order::lemma_max_prio_unique;
use crate::order::max_prio;
use crate::order::model_insert;
use crate::order::model_front;
use crate::order::model_pop;

verus! {

/// The priority that the key of entry `i` of a store decodes to.
pub open spec fn entry_prio(s: Seq<(Vec<u8>, Vec<u8>)>, i: int) -> u64 {
    spec_decode_priority(s[i].0@)
}

/// Whether every key of a store is exactly 8 bytes, so that the scan can
/// decode each one.
pub open spec fn store_keys_wf(s: Seq<(Vec<u8>, Vec<u8>)>) -> bool {
    forall|i: int| 0 <= i < s.len() ==> (#[trigger] s[i].0@).len() == 8
}

/// Whether a store is well formed: every key decodable, no two entries
/// for one priority, and every bucket a non-empty, well-formed
/// concatenation of records.
pub open spec fn store_wf(s: Seq<(Vec<u8>, Vec<u8>)>) -> bool {
    &&& store_keys_wf(s)
    &&& forall|i: int, j: int|
        0 <= i < s.len() && 0 <= j < s.len() && i != j ==> #[trigger] entry_prio(s, i)
            != #[trigger] entry_prio(s, j)
    &&& forall|i: int| 0 <= i < s.len() ==> bucket_wf(#[trigger] s[i].1@) && s[i].1@.len() > 0
}

/// The priorities present in a store.
pub open spec fn store_prios(s: Seq<(Vec<u8>, Vec<u8>)>) -> Set<u64> {
    Set::new(|p: u64| exists|i: int| 0 <= i < s.len() && (#[trigger] entry_prio(s, i)) == p)
}

/// The map a store stands for: each entry's decoded priority to the
/// payloads its bucket carries.
pub open spec fn store_model(s: Seq<(Vec<u8>, Vec<u8>)>) -> Map<u64, Seq<Seq<u8>>>
    decreases s.len(),
{
    if s.len() == 0 {
        Map::empty()
    } else {
        store_model(s.drop_last()).insert(
            spec_decode_priority(s.last().0@),
            bucket_payloads(s.last().1@),
        )
    }
}

/// Dropping the last entry of a well-formed store leaves it well formed.
proof fn lemma_store_wf_drop_last(s: Seq<(Vec<u8>, Vec<u8>)>)
    requires
        store_wf(s),
        s.len() > 0,
    ensures
        store_wf(s.drop_last()),
{
    let front = s.drop_last();
    assert forall|i: int| 0 <= i < front.len() implies (#[trigger] front[i].0@).len() == 8
        && bucket_wf(front[i].1@) && front[i].1@.len() > 0 by {
        assert(front[i] == s[i]);
    }
    assert forall|i: int, j: int|
        0 <= i < front.len() && 0 <= j < front.len() && i != j implies #[trigger] entry_prio(
        front,
        i,
    ) != #[trigger] entry_prio(front, j) by {
        assert(front[i] == s[i]);
        assert(front[j] == s[j]);
        assert(entry_prio(s, i) != entry_prio(s, j));
    }
}

/// The domain of a store's map is exactly the set of its priorities, and
/// it is finite.
pub proof fn lemma_store_model_dom(s: Seq<(Vec<u8>, Vec<u8>)>)
    ensures
        store_model(s).dom().finite(),
        store_model(s).dom() == store_prios(s),
    decreases s.len(),
{
    if s.len() == 0 {
        assert(store_model(s).dom() =~= store_prios(s));
    } else {
        let front = s.drop_last();
        lemma_store_model_dom(front);
        let pl = entry_prio(s, s.len() - 1);
        assert forall|p: u64| store_model(s).dom().contains(p) implies store_prios(s).contains(
            p,
        ) by {
            if p == pl {
                assert(0 <= s.len() - 1 < s.len() && entry_prio(s, s.len() - 1) == p);
            } else {
                assert(store_prios(front).contains(p));
                let i = choose|i: int| 0 <= i < front.len() && (#[trigger] entry_prio(front, i))
                    == p;
                assert(front[i] == s[i]);
                assert(entry_prio(s, i) == p);
            }
        }
        assert forall|p: u64| store_prios(s).contains(p) implies store_model(s).dom().contains(
            p,
        ) by {
            let i = choose|i: int| 0 <= i < s.len() && (#[trigger] entry_prio(s, i)) == p;
            if i < s.len() - 1 {
                assert(front[i] == s[i]);
                assert(entry_prio(front, i) == p);
                assert(store_prios(front).contains(p));
            }
        }
        assert(store_model(s).dom() =~= store_prios(s));
    }
}

/// In a store with at most one entry per priority, the map sends entry
/// `i`'s priority to entry `i`'s payloads.
pub proof fn lemma_store_model_at(s: Seq<(Vec<u8>, Vec<u8>)>, i: int)
    requires
        store_wf(s),
        0 <= i < s.len(),
    ensures
        store_model(s).dom().contains(entry_prio(s, i)),
        store_model(s)[entry_prio(s, i)] == bucket_payloads(s[i].1@),
    decreases s.len(),
{
    let front = s.drop_last();
    if i == s.len() - 1 {
        assert(s.last() == s[i]);
    } else {
        lemma_store_wf_drop_last(s);
        assert(front[i] == s[i]);
        lemma_store_model_at(front, i);
        assert(entry_prio(s, i) != entry_prio(s, s.len() - 1));
        assert(entry_prio(front, i) == entry_prio(s, i));
    }
}

/// Appending an entry to a store inserts its priority and payloads into
/// the store's map.
pub proof fn lemma_store_model_push(s: Seq<(Vec<u8>, Vec<u8>)>, x: (Vec<u8>, Vec<u8>))
    ensures
        store_model(s.push(x)) == store_model(s).insert(
            spec_decode_priority(x.0@),
            bucket_payloads(x.1@),
        ),
{
    let s2 = s.push(x);
    assert(s2.drop_last() =~= s);
    assert(s2.last() == x);
}

/// Removing entry `i` from a well-formed store removes its priority from
/// the store's map.
pub proof fn lemma_store_model_remove(s: Seq<(Vec<u8>, Vec<u8>)>, i: int)
    requires
        store_wf(s),
        0 <= i < s.len(),
    ensures
        store_model(s.remove(i)) == store_model(s).remove(entry_prio(s, i)),
    decreases s.len(),
{
    let p = entry_prio(s, i);
    let front = s.drop_last();
    lemma_store_wf_drop_last(s);
    if i == s.len() - 1 {
        assert(s.remove(i) =~= front);
        lemma_store_model_dom(front);
        if store_prios(front).contains(p) {
            let j = choose|j: int| 0 <= j < front.len() && (#[trigger] entry_prio(front, j)) == p;
            assert(front[j] == s[j]);
            assert(entry_prio(s, j) == p);
            assert(entry_prio(s, j) != entry_prio(s, i));
            assert(false);
        }
        assert(store_model(s).remove(p) =~= store_model(front));
    } else {
        let last = s.last();
        let pl = entry_prio(s, s.len() - 1);
        assert(front[i] == s[i]);
        assert(entry_prio(front, i) == p);
        assert(s.remove(i) =~= front.remove(i).push(last));
        lemma_store_model_remove(front, i);
        lemma_store_model_push(front.remove(i), last);
        assert(pl != p);
        assert(store_model(s.remove(i)) == store_model(front).remove(p).insert(
            spec_decode_priority(last.0@),
            bucket_payloads(last.1@),
        ));
        assert(spec_decode_priority(last.0@) == pl);
        assert(store_model(front).remove(p).insert(pl, bucket_payloads(last.1@)) =~= store_model(
            front,
        ).insert(pl, bucket_payloads(last.1@)).remove(p));
    }
}

/// The running maximum of the first `n` decoded keys of a store,
/// starting from 0.
pub open spec fn highest_prio_upto(s: Seq<(Vec<u8>, Vec<u8>)>, n: int) -> u64
    decreases n,
{
    if n <= 0 {
        0
    } else {
        let prev = highest_prio_upto(s, n - 1);
        if entry_prio(s, n - 1) > prev {
            entry_prio(s, n - 1)
        } else {
            prev
        }
    }
}

/// What the highest-priority scan returns: the maximum decoded priority
/// of a store, or 0 when the store is empty.
pub open spec fn highest_prio(s: Seq<(Vec<u8>, Vec<u8>)>) -> u64 {
    highest_prio_upto(s, s.len() as int)
}

/// The running maximum bounds every decoded key it has seen, and is
/// attained by one of them once it has seen any.
proof fn lemma_highest_prio_upto(s: Seq<(Vec<u8>, Vec<u8>)>, n: int)
    requires
        0 <= n <= s.len(),
    ensures
        forall|i: int| 0 <= i < n ==> #[trigger] entry_prio(s, i) <= highest_prio_upto(s, n),
        n > 0 ==> exists|i: int| 0 <= i < n && #[trigger] entry_prio(s, i) == highest_prio_upto(
            s,
            n,
        ),
    decreases n,
{
    if n > 0 {
        lemma_highest_prio_upto(s, n - 1);
        let prev = highest_prio_upto(s, n - 1);
        if entry_prio(s, n - 1) > prev {
            assert(entry_prio(s, n - 1) == highest_prio_upto(s, n));
        } else if n == 1 {
            assert(entry_prio(s, 0) == 0);
            assert(entry_prio(s, 0) == highest_prio_upto(s, n));
        }
    }
}

/// In a non-empty store, the scan's result is the highest priority
/// present.
pub proof fn lemma_highest_prio_is_max(s: Seq<(Vec<u8>, Vec<u8>)>)
    requires
        s.len() > 0,
    ensures
        is_max_prio(store_prios(s), highest_prio(s)),
        max_prio(store_prios(s)) == highest_prio(s),
{
    lemma_highest_prio_upto(s, s.len() as int);
    let h = highest_prio(s);
    let i = choose|i: int| 0 <= i < s.len() && (#[trigger] entry_prio(s, i)) == h;
    assert(store_prios(s).contains(h));
    assert forall|q: u64| store_prios(s).contains(q) implies q <= h by {
        let j = choose|j: int| 0 <= j < s.len() && (#[trigger] entry_prio(s, j)) == q;
        assert(entry_prio(s, j) <= h);
    }
    assert(is_max_prio(store_prios(s), h));
    lemma_max_prio_unique(store_prios(s), max_prio(store_prios(s)), h);
}

/// A store's map is empty exactly when the store has no entries.
pub proof fn lemma_store_model_empty(s: Seq<(Vec<u8>, Vec<u8>)>)
    ensures
        store_model(s).dom().is_empty() <==> s.len() == 0,
{
    lemma_store_model_dom(s);
    if s.len() == 0 {
        assert(store_prios(s) =~= Set::<u64>::empty());
    } else {
        assert(store_prios(s).contains(entry_prio(s, 0)));
    }
}

/// Iterates over every key in the store, decodes each, and returns the
/// encoded form of the highest priority seen, starting from 0; on an
/// empty store that is the encoded zero key.
pub fn get_highest_priority(store: &Vec<(Vec<u8>, Vec<u8>)>) -> (k: Vec<u8>)
    requires
        store_keys_wf(store@),
    ensures
        k@ == spec_encode_priority(highest_prio(store@)),
{
    let mut high: u64 = 0;
    let mut i: usize = 0;
    while i < store.len()
        invariant
            store_keys_wf(store@),
            i <= store@.len(),
            high == highest_prio_upto(store@, i as int),
        decreases store@.len() - i,
    {
        let cur: u64 = match decode_priority(&store[i].0) {
            Ok(p) => p,
            Err(_) => {
                proof {
                    assert(store@[i as int].0@.len() == 8);
                    assert(false);
                }
                0
            },
        };
        if cur > high {
            high = cur;
        }
        i = i + 1;
    }
    encode_priority(high)
}

/// Removing an entry from a well-formed store leaves it well formed,
/// with no entry left for the removed entry's priority.
proof fn lemma_store_wf_remove(s: Seq<(Vec<u8>, Vec<u8>)>, i: int)
    requires
        store_wf(s),
        0 <= i < s.len(),
    ensures
        store_wf(s.remove(i)),
        !store_prios(s.remove(i)).contains(entry_prio(s, i)),
{
    let t = s.remove(i);
    s.remove_ensures(i);
    assert forall|j: int|
        0 <= j < t.len() implies (#[trigger] t[j].0@).len() == 8 && bucket_wf(t[j].1@)
        && t[j].1@.len() > 0 by {
        if j < i {
            assert(t[j] == s[j]);
        } else {
            assert(t[j] == s[j + 1]);
        }
    }
    assert forall|j: int, k: int|
        0 <= j < t.len() && 0 <= k < t.len() && j != k implies #[trigger] entry_prio(t, j)
        != #[trigger] entry_prio(t, k) by {
        let j2 = if j < i {
            j
        } else {
            j + 1
        };
        let k2 = if k < i {
            k
        } else {
            k + 1
        };
        assert(t[j] == s[j2]);
        assert(t[k] == s[k2]);
        assert(entry_prio(s, j2) != entry_prio(s, k2));
    }
    if store_prios(t).contains(entry_prio(s, i)) {
        let j = choose|j: int| 0 <= j < t.len() && (#[trigger] entry_prio(t, j)) == entry_prio(
            s,
            i,
        );
        let j2 = if j < i {
            j
        } else {
            j + 1
        };
        assert(t[j] == s[j2]);
        assert(entry_prio(s, j2) != entry_prio(s, i));
        assert(false);
    }
}

/// Appending an entry for a priority no other entry has, with a
/// decodable key and a well-formed non-empty bucket, keeps a store well
/// formed.
proof fn lemma_store_wf_push(s: Seq<(Vec<u8>, Vec<u8>)>, x: (Vec<u8>, Vec<u8>))
    requires
        store_wf(s),
        x.0@.len() == 8,
        bucket_wf(x.1@),
        x.1@.len() > 0,
        !store_prios(s).contains(spec_decode_priority(x.0@)),
    ensures
        store_wf(s.push(x)),
{
    let t = s.push(x);
    let n = s.len() as int;
    assert forall|j: int|
        0 <= j < t.len() implies (#[trigger] t[j].0@).len() == 8 && bucket_wf(t[j].1@)
        && t[j].1@.len() > 0 by {
        if j < n {
            assert(t[j] == s[j]);
        } else {
            assert(t[j] == x);
        }
    }
    assert forall|j: int, k: int|
        0 <= j < t.len() && 0 <= k < t.len() && j != k implies #[trigger] entry_prio(t, j)
        != #[trigger] entry_prio(t, k) by {
        if j < n && k < n {
            assert(t[j] == s[j]);
            assert(t[k] == s[k]);
            assert(entry_prio(s, j) != entry_prio(s, k));
        } else if j < n {
            assert(t[j] == s[j]);
            assert(t[k] == x);
            assert(entry_prio(s, j) == entry_prio(t, j));
            if entry_prio(t, j) == entry_prio(t, k) {
                assert(store_prios(s).contains(spec_decode_priority(x.0@)));
            }
        } else {
            assert(t[k] == s[k]);
            assert(t[j] == x);
            assert(entry_prio(s, k) == entry_prio(t, k));
            if entry_prio(t, j) == entry_prio(t, k) {
                assert(store_prios(s).contains(spec_decode_priority(x.0@)));
            }
        }
    }
}

/// A queue of elements with 64-bit priorities: highest priority first,
/// first-in-first-out among elements that share a priority.
///
/// `contents` is the abstract queue every contract speaks of: a finite
/// map from each priority with pending elements to the views of those
/// elements, front of the tier first.
pub trait PriorityQueue<Element: View>: Sized {
    /// The abstract queue.
    spec fn contents(&self) -> Map<u64, Seq<Element::V>>;

    /// Whether an element is small enough to be inserted.
    spec fn insertable(element: &Element) -> bool;

    /// Creates a queue with no pending elements.
    fn new() -> (q: Self)
        ensures
            q.contents() == Map::<u64, Seq<Element::V>>::empty(),
    ;

    /// Checks whether the queue has no pending elements.
    fn is_empty(&self) -> (r: bool)
        ensures
            r <==> self.contents().dom().is_empty(),
    ;

    /// Returns the front element of the highest-priority tier, without
    /// changing the queue; `None` exactly on an empty queue.
    fn peek(&self) -> (r: Option<Element>)
        ensures
            self.contents().dom().is_empty() ==> r is None,
            !self.contents().dom().is_empty() ==> (r matches Some(x) && x@ == model_front(
                self.contents(),
            )),
    ;

    /// Adds an element at the back of its priority's tier.  Fails, and
    /// leaves the queue unchanged, exactly when the element is too large.
    fn insert(&mut self, element: Element, priority: u64) -> (r: Result<(), QueueError>)
        ensures
            Self::insertable(&element) ==> r == Ok::<(), QueueError>(()) && final (self).contents()
                == model_insert(old(self).contents(), priority, element@),
            !Self::insertable(&element) ==> r == Err::<(), QueueError>(QueueError::PayloadTooLarge)
                && final (self).contents() == old(self).contents(),
    ;

    /// Removes and returns the front element of the highest-priority
    /// tier; `None`, with the queue unchanged, exactly on an empty queue.
    fn pop(&mut self) -> (r: Option<Element>)
        ensures
            old(self).contents().dom().is_empty() ==> r is None && final (self).contents() == old(
                self,
            ).contents(),
            !old(self).contents().dom().is_empty() ==> (r matches Some(x) && x@ == model_front(
                old(self).contents(),
            ) && final (self).contents() == model_pop(old(self).contents())),
    ;
}

/// A priority queue over byte payloads, backed by a flat store of
/// encoded priority keys and length-prefixed record buckets.
///
/// The store can only ever be populated through [`PriorityQueue::insert`],
/// so every key is a well-formed 8-byte priority key and every bucket a
/// non-empty concatenation of records.
pub struct PriorityQueueImpl {
    store: Vec<(Vec<u8>, Vec<u8>)>,
}

impl PriorityQueueImpl {
    #[verifier::type_invariant]
    spec fn wf(&self) -> bool {
        store_wf(self.store@)
    }
}

/// Finds an entry whose key decodes to `p`: its index, or `None` when no
/// entry has priority `p`.
fn find_index_of_prio(store: &Vec<(Vec<u8>, Vec<u8>)>, p: u64) -> (r: Option<usize>)
    requires
        store_keys_wf(store@),
    ensures
        r matches Some(i) ==> i < store@.len() && entry_prio(store@, i as int) == p,
        r is None ==> forall|j: int| 0 <= j < store@.len() ==> #[trigger] entry_prio(store@, j)
            != p,
{
    let mut i: usize = 0;
    while i < store.len()
        invariant
            store_keys_wf(store@),
            i <= store@.len(),
            forall|j: int| 0 <= j < i ==> #[trigger] entry_prio(store@, j) != p,
        decreases store@.len() - i,
    {
        let cur: u64 = match decode_priority(&store[i].0) {
            Ok(c) => c,
            Err(_) => {
                proof {
                    assert(store@[i as int].0@.len() == 8);
                    assert(false);
                }
                0
            },
        };
        if cur == p {
            return Some(i);
        }
        i = i + 1;
    }
    None
}

impl PriorityQueue<Vec<u8>> for PriorityQueueImpl {
    /// The map the store stands for.
    closed spec fn contents(&self) -> Map<u64, Seq<Seq<u8>>> {
        store_model(self.store@)
    }

    /// A payload fits in a record exactly when its length fits in the
    /// record's single length byte.
    open spec fn insertable(element: &Vec<u8>) -> bool {
        element@.len() <= MAX_PAYLOAD_LEN
    }

    fn new() -> (q: Self) {
        PriorityQueueImpl { store: Vec::new() }
    }

    fn is_empty(&self) -> (r: bool) {
        proof {
            lemma_store_model_empty(self.store@);
        }
        self.store.len() == 0
    }

    fn peek(&self) -> (r: Option<Vec<u8>>) {
        proof {
            use_type_invariant(self);
            lemma_store_model_empty(self.store@);
        }
        if self.store.len() == 0 {
            return None;
        }
        let top_key = get_highest_priority(&self.store);
        let top_prio: u64 = match decode_priority(&top_key) {
            Ok(p) => p,
            Err(_) => {
                proof {
                    assert(false);
                }
                0
            },
        };
        proof {
            lemma_decode_encode(highest_prio(self.store@));
            lemma_highest_prio_is_max(self.store@);
            lemma_store_model_dom(self.store@);
        }
        let idx: usize = match find_index_of_prio(&self.store, top_prio) {
            Some(i) => i,
            None => {
                proof {
                    assert(store_prios(self.store@).contains(top_prio));
                    let i = choose|i: int|
                        0 <= i < self.store@.len() && (#[trigger] entry_prio(self.store@, i))
                            == top_prio;
                    assert(false);
                }
                0
            },
        };
        proof {
            lemma_store_model_at(self.store@, idx as int);
            lemma_bucket_payloads_front(self.store@[idx as int].1@);
        }
        match decode_front_record(&self.store[idx].1) {
            Ok(pr) => Some(pr.0),
            Err(_) => {
                proof {
                    assert(false);
                }
                None
            },
        }
    }

    fn insert(&mut self, element: Vec<u8>, priority: u64) -> (r: Result<(), QueueError>) {
        proof {
            use_type_invariant(&*self);
        }
        let record = match encode_record(&element) {
            Ok(rec) => rec,
            Err(e) => {
                return Err(e);
            },
        };
        let ghost m = store_model(self.store@);
        let ghost s0 = self.store@;
        let byte_key = encode_priority(priority);
        proof {
            lemma_decode_encode(priority);
            lemma_store_model_dom(s0);
        }
        let mut store: Vec<(Vec<u8>, Vec<u8>)> = Vec::new();
        std::mem::swap(&mut store, &mut self.store);
        match find_index_of_prio(&store, priority) {
            Some(i) => {
                proof {
                    lemma_store_model_remove(s0, i as int);
                    lemma_store_model_at(s0, i as int);
                    lemma_store_wf_remove(s0, i as int);
                }
                let (key, mut bucket) = store.remove(i);
                let ghost s1 = store@;
                let mut rec = record;
                proof {
                    lemma_bucket_append_record(bucket@, element@);
                }
                bucket.append(&mut rec);
                proof {
                    lemma_store_model_push(s1, (key, bucket));
                    lemma_store_wf_push(s1, (key, bucket));
                }
                store.push((key, bucket));
                proof {
                    assert(store_model(store@) =~= model_insert(m, priority, element@));
                }
                self.store = store;
                Ok(())
            },
            None => {
                proof {
                    if store_prios(s0).contains(priority) {
                        let j = choose|j: int|
                            0 <= j < s0.len() && (#[trigger] entry_prio(s0, j)) == priority;
                        assert(false);
                    }
                    lemma_bucket_append_record(Seq::<u8>::empty(), element@);
                    assert(Seq::<u8>::empty() + spec_encode_record(element@) =~= spec_encode_record(
                        element@,
                    ));
                    assert(bucket_payloads(record@) =~= seq![element@]);
                    lemma_store_model_push(s0, (byte_key, record));
                    lemma_store_wf_push(s0, (byte_key, record));
                    assert(!m.dom().contains(priority));
                    assert(store_model(s0.push((byte_key, record))) == model_insert(
                        m,
                        priority,
                        element@,
                    ));
                }
                store.push((byte_key, record));
                self.store = store;
                Ok(())
            },
        }
    }

    fn pop(&mut self) -> (r: Option<Vec<u8>>) {
        proof {
            use_type_invariant(&*self);
            lemma_store_model_empty(self.store@);
        }
        if self.store.len() == 0 {
            return None;
        }
        let ghost m = store_model(self.store@);
        let ghost s0 = self.store@;
        let top_key = get_highest_priority(&self.store);
        let top_prio: u64 = match decode_priority(&top_key) {
            Ok(p) => p,
            Err(_) => {
                proof {
                    assert(false);
                }
                0
            },
        };
        proof {
            lemma_decode_encode(highest_prio(s0));
            lemma_highest_prio_is_max(s0);
            lemma_store_model_dom(s0);
        }
        let mut store: Vec<(Vec<u8>, Vec<u8>)> = Vec::new();
        std::mem::swap(&mut store, &mut self.store);
        let idx: usize = match find_index_of_prio(&store, top_prio) {
            Some(i) => i,
            None => {
                proof {
                    assert(store_prios(s0).contains(top_prio));
                    let i = choose|i: int|
                        0 <= i < s0.len() && (#[trigger] entry_prio(s0, i)) == top_prio;
                    assert(false);
                }
                0
            },
        };
        proof {
            lemma_store_model_remove(s0, idx as int);
            lemma_store_model_at(s0, idx as int);
            lemma_store_wf_remove(s0, idx as int);
        }
        let (key, bucket) = store.remove(idx);
        let ghost s1 = store@;
        proof {
            lemma_bucket_payloads_front(bucket@);
        }
        let (payload, rest) = match decode_front_record(&bucket) {
            Ok(pr) => pr,
            Err(_) => {
                proof {
                    assert(false);
                }
                return None;
            },
        };
        proof {
            assert(bucket_wf(rest@));
            lemma_bucket_payloads_front(rest@);
            assert(max_prio(m.dom()) == top_prio);
            assert(m[top_prio] == bucket_payloads(bucket@));
            assert(payload@ == m[top_prio][0]);
        }
        if rest.len() > 0 {
            proof {
                lemma_store_model_push(s1, (key, rest));
                lemma_store_wf_push(s1, (key, rest));
                assert(bucket_payloads(rest@) == m[top_prio].skip(1));
            }
            store.push((key, rest));
            proof {
                assert(m[top_prio].len() > 1);
                assert(store_model(store@) =~= model_pop(m));
            }
        } else {
            proof {
                assert(m[top_prio].len() == 1);
                assert(store_model(store@) == model_pop(m));
            }
        }
        self.store = store;
        Some(payload)
    }
}

} // verus!
