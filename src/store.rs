//! The key-value store: string values with an optional deadline, removed
//! lazily by the first read that finds them past it.

use vstd::prelude::*;

verus! {

/// A value and the time, in milliseconds, after which it is gone.
pub struct StoredValue {
    pub value: String,
    pub deadline: Option<u64>,
}

/// What the store holds for a key: the value's text and its deadline.
pub type EntryView = (Seq<char>, Option<u64>);

/// A mapping from keys to values with optional deadlines.
pub struct Store {
    entries: Vec<(String, StoredValue)>,
    model: Ghost<Map<Seq<char>, EntryView>>,
}

/// The deadline of a value set at time `now` with an optional lifetime of
/// `px` milliseconds; a deadline past the largest time saturates there.
pub open spec fn deadline_for(now: u64, px: Option<u64>) -> Option<u64> {
    match px {
        Some(ms) => Some(
            if now + ms > u64::MAX {
                u64::MAX
            } else {
                (now + ms) as u64
            },
        ),
        None => None,
    }
}

/// An entry is past its deadline at time `now`.
pub open spec fn expired(e: EntryView, now: u64) -> bool {
    match e.1 {
        Some(d) => now > d,
        None => false,
    }
}

/// A read of `k` at time `now`: the value, if present and not expired, and
/// the mapping afterwards, from which an expired entry has been removed.
pub open spec fn lookup(m: Map<Seq<char>, EntryView>, k: Seq<char>, now: u64) -> (
    Option<Seq<char>>,
    Map<Seq<char>, EntryView>,
) {
    if !m.contains_key(k) {
        (None, m)
    } else if expired(m[k], now) {
        (None, m.remove(k))
    } else {
        (Some(m[k].0), m)
    }
}

impl View for Store {
    type V = Map<Seq<char>, EntryView>;

    closed spec fn view(&self) -> Map<Seq<char>, EntryView> {
        self.model@
    }
}

impl Store {
    /// The entries have distinct keys and are exactly what the view maps.
    pub closed spec fn wf(&self) -> bool {
        &&& forall|i: int, j: int|
            0 <= i < j < self.entries@.len() ==> self.entries@[i].0@ != self.entries@[j].0@
        &&& forall|i: int|
            0 <= i < self.entries@.len() ==> #[trigger] self.model@.contains_key(
                self.entries@[i].0@,
            ) && self.model@[self.entries@[i].0@] == (
                self.entries@[i].1.value@,
                self.entries@[i].1.deadline,
            )
        &&& forall|k: Seq<char>|
            #[trigger] self.model@.contains_key(k) ==> exists|i: int|
                0 <= i < self.entries@.len() && self.entries@[i].0@ == k
        &&& self.model@.dom().finite()
        &&& self.model@.dom().len() == self.entries@.len()
    }

    /// An empty store.
    pub fn new() -> (r: Store)
        ensures
            r.wf(),
            r@ == Map::<Seq<char>, EntryView>::empty(),
    {
        Store { entries: Vec::new(), model: Ghost(Map::empty()) }
    }

    fn find(&self, key: &String) -> (r: Option<usize>)
        requires
            self.wf(),
        ensures
            r is Some ==> r.unwrap() < self.entries@.len() && self.entries@[r.unwrap() as int].0@
                == key@,
            r is None ==> !self@.contains_key(key@),
    {
        let mut i: usize = 0;
        while i < self.entries.len()
            invariant
                self.wf(),
                i <= self.entries@.len(),
                forall|j: int| 0 <= j < i ==> self.entries@[j].0@ != key@,
            decreases self.entries@.len() - i,
        {
            if self.entries[i].0 == *key {
                return Some(i);
            }
            i = i + 1;
        }
        None
    }

    /// Stores `value` under `key` with the given deadline, replacing what
    /// was there.
    pub fn set(&mut self, key: String, value: String, deadline: Option<u64>)
        requires
            old(self).wf(),
        ensures
            final(self).wf(),
            final(self)@ == old(self)@.insert(key@, (value@, deadline)),
    {
        let ghost k = key@;
        let ghost e: EntryView = (value@, deadline);
        match self.find(&key) {
            Some(i) => {
                let ghost before = self.entries@;
                self.entries.set(i, (key, StoredValue { value, deadline }));
                self.model = Ghost(self.model@.insert(k, e));
                proof {
                    assert(self.model@.dom() == old(self).model@.dom().insert(k));
                    assert(old(self).model@.dom().contains(k));
                    assert(old(self).model@.dom().insert(k) =~= old(self).model@.dom());
                    assert forall|kk: Seq<char>| #[trigger] self.model@.contains_key(kk) implies exists|j: int|
                        0 <= j < self.entries@.len() && self.entries@[j].0@ == kk by {
                        if kk != k {
                            let j = choose|j: int| 0 <= j < before.len() && before[j].0@ == kk;
                            assert(self.entries@[j].0@ == kk);
                        } else {
                            assert(self.entries@[i as int].0@ == kk);
                        }
                    }
                }
            },
            None => {
                self.entries.push((key, StoredValue { value, deadline }));
                self.model = Ghost(self.model@.insert(k, e));
                proof {
                    let n = self.entries@.len() - 1;
                    assert(self.entries@[n].0@ == k);
                    assert forall|kk: Seq<char>| #[trigger] self.model@.contains_key(kk) implies exists|j: int|
                        0 <= j < self.entries@.len() && self.entries@[j].0@ == kk by {
                        if kk != k {
                            let j = choose|j: int| 0 <= j < old(self).entries@.len() && old(self).entries@[j].0@ == kk;
                            assert(self.entries@[j].0@ == kk);
                        } else {
                            assert(self.entries@[n].0@ == kk);
                        }
                    }
                }
            },
        }
    }
    /// Reads `key` at time `now` (milliseconds). A value past its deadline
    /// is removed and not returned.
    pub fn get(&mut self, key: &String, now: u64) -> (r: Option<String>)
        requires
            old(self).wf(),
        ensures
            final(self).wf(),
            (match r {
                Some(v) => Some(v@),
                None => None,
            }, final(self)@) == lookup(old(self)@, key@, now),
    {
        match self.find(key) {
            None => None,
            Some(i) => {
                let expired_now = match self.entries[i].1.deadline {
                    Some(d) => now > d,
                    None => false,
                };
                if expired_now {
                    let ghost k = key@;
                    let ghost before = self.entries@;
                    let _gone = self.entries.remove(i);
                    self.model = Ghost(self.model@.remove(k));
                    proof {
                        assert forall|a: int, b: int|
                            0 <= a < b < self.entries@.len() implies self.entries@[a].0@
                            != self.entries@[b].0@ by {
                            let a0 = if a < i { a } else { a + 1 };
                            let b0 = if b < i { b } else { b + 1 };
                            assert(self.entries@[a] == before[a0]);
                            assert(self.entries@[b] == before[b0]);
                        }
                        assert forall|j: int| 0 <= j < self.entries@.len() implies #[trigger] self.model@.contains_key(
                            self.entries@[j].0@,
                        ) && self.model@[self.entries@[j].0@] == (
                            self.entries@[j].1.value@,
                            self.entries@[j].1.deadline,
                        ) by {
                            let j0 = if j < i { j } else { j + 1 };
                            assert(self.entries@[j] == before[j0]);
                            if j0 < i {
                                assert(before[j0].0@ != before[i as int].0@);
                            } else {
                                assert(before[i as int].0@ != before[j0].0@);
                            }
                            assert(old(self).model@.contains_key(before[j0].0@));
                        }
                        assert forall|kk: Seq<char>| #[trigger] self.model@.contains_key(kk) implies exists|j: int|
                            0 <= j < self.entries@.len() && self.entries@[j].0@ == kk by {
                            let j0 = choose|j: int| 0 <= j < before.len() && before[j].0@ == kk;
                            assert(j0 != i);
                            let j = if j0 < i { j0 } else { j0 - 1 };
                            assert(self.entries@[j] == before[j0]);
                        }
                    }
                    None
                } else {
                    Some(self.entries[i].1.value.clone())
                }
            },
        }
    }

    /// Whether `key` has an entry, expired or not, without removing it.
    pub fn contains(&self, key: &String) -> (r: bool)
        requires
            self.wf(),
        ensures
            r == self@.contains_key(key@),
    {
        match self.find(key) {
            Some(i) => {
                proof {
                    assert(self@.contains_key(self.entries@[i as int].0@));
                }
                true
            },
            None => false,
        }
    }

    /// The number of entries, expired or not.
    pub fn len(&self) -> (r: usize)
        requires
            self.wf(),
        ensures
            r == self@.len(),
    {
        self.entries.len()
    }
}

/// A value set without a deadline is returned by every later read, at any
/// time, and such a read leaves the store as it was.
pub proof fn lemma_no_deadline_persists(
    m: Map<Seq<char>, EntryView>,
    k: Seq<char>,
    v: Seq<char>,
    now: u64,
)
    ensures
        lookup(m.insert(k, (v, None)), k, now) == (Some(v), m.insert(k, (v, None))),
{
}

/// A value set at time `t0` with a lifetime of `ms` milliseconds is
/// returned, store unchanged, up to `t0 + ms`. A read after that returns
/// nothing and removes the key, and every read after it returns nothing.
pub proof fn lemma_deadline_expires(
    m: Map<Seq<char>, EntryView>,
    k: Seq<char>,
    v: Seq<char>,
    t0: u64,
    ms: u64,
    now: u64,
    later: u64,
)
    ensures
        ({
            let m1 = m.insert(k, (v, deadline_for(t0, Some(ms))));
            &&& now <= t0 + ms ==> lookup(m1, k, now) == (Some(v), m1)
            &&& now > t0 + ms ==> {
                let (r, m2) = lookup(m1, k, now);
                &&& r is None
                &&& !m2.contains_key(k)
                &&& m2 == m1.remove(k)
                &&& lookup(m2, k, later) == (None::<Seq<char>>, m2)
            }
        }),
{
}

/// After setting `a` to `b`, a read of `a` gives `b`; after setting it to
/// `b` and then to `c`, a read gives `c`.
pub proof fn lemma_last_set_wins(
    m: Map<Seq<char>, EntryView>,
    a: Seq<char>,
    b: Seq<char>,
    c: Seq<char>,
    now: u64,
)
    ensures
        lookup(m.insert(a, (b, None)), a, now).0 == Some(b),
        lookup(m.insert(a, (b, None)).insert(a, (c, None)), a, now).0 == Some(c),
{
}

/// Two sets of one key, applied in either order, leave exactly one of the
/// two entries under the key: the one applied last.
pub proof fn lemma_racing_sets(
    m: Map<Seq<char>, EntryView>,
    k: Seq<char>,
    e1: EntryView,
    e2: EntryView,
    first_one_first: bool,
)
    ensures
        ({
            let m2 = if first_one_first {
                m.insert(k, e1).insert(k, e2)
            } else {
                m.insert(k, e2).insert(k, e1)
            };
            &&& m2.contains_key(k)
            &&& m2[k] == e1 || m2[k] == e2
            &&& m2[k] == (if first_one_first {
                e2
            } else {
                e1
            })
            &&& m2.remove(k) == m.remove(k)
        }),
{
    assert(m.insert(k, e1).insert(k, e2).remove(k) =~= m.remove(k));
    assert(m.insert(k, e2).insert(k, e1).remove(k) =~= m.remove(k));
}

} // verus!
