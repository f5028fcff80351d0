//! The sharded key-value store: keys are routed to shards by a polynomial
//! hash, and each key holds a frame with an absolute expiry in milliseconds.
use vstd::prelude::*;
use crate::frame::{RESP, Value};
use crate::cmd::NEVER;
use crate::text::{eq_bytes, scalars, scalars_from, next_scalar};

verus! {

broadcast use vstd::std_specs::vec::group_vec_axioms;

pub const HASH_MOD: u64 = 1000000007;

pub const HASH_BASE: u64 = 26;

/// The polynomial hash of a sequence of scalars, modulo `HASH_MOD`.
pub open spec fn poly_hash(cs: Seq<nat>) -> nat
    decreases cs.len(),
{
    if cs.len() == 0 {
        0
    } else {
        (poly_hash(cs.drop_last()) * HASH_BASE as nat + cs.last()) % HASH_MOD as nat
    }
}

/// The hash of a key: the polynomial hash of its Unicode scalar sequence.
pub open spec fn hash_of(s: Seq<u8>) -> nat {
    poly_hash(scalars(s))
}

/// Whether an entry with expiry `exp` is still live at time `now`: `NEVER`
/// never expires, any other expiry at the first moment not before it.
pub open spec fn live(exp: nat, now: nat) -> bool {
    exp == NEVER as nat || now < exp
}

/// What a read of `k` at time `now` reports: the frame when the entry has not expired.
pub open spec fn read(m: Map<Seq<u8>, (Value, nat)>, k: Seq<u8>, now: nat) -> Option<Value> {
    if m.contains_key(k) && live(m[k].1, now) {
        Some(m[k].0)
    } else {
        None
    }
}

/// The contents after a read of `k` at time `now`: an expired entry is gone.
pub open spec fn after_read(m: Map<Seq<u8>, (Value, nat)>, k: Seq<u8>, now: nat) -> Map<
    Seq<u8>,
    (Value, nat),
> {
    if m.contains_key(k) && live(m[k].1, now) {
        m
    } else {
        m.remove(k)
    }
}

pub open spec fn read_view(r: Option<RESP>) -> Option<Value> {
    match r {
        Some(f) => Some(f@),
        None => None,
    }
}

/// The shard that holds a key, among `n` shards.
pub open spec fn shard_of(k: Seq<u8>, n: nat) -> nat {
    hash_of(k) % n
}

/// Computes the hash of a key, decoding its Unicode scalars as it goes.
pub fn hash(s: &[u8]) -> (r: usize)
    ensures
        r == hash_of(s@),
{
    let len = s.len();
    let mut acc: u64 = 0;
    let mut i: usize = 0;
    let ghost mut done: Seq<nat> = Seq::empty();
    assert(done + scalars_from(s@, 0) =~= scalars(s@));
    while i < len
        invariant
            len == s@.len(),
            0 <= i <= len,
            done + scalars_from(s@, i as int) == scalars(s@),
            acc == poly_hash(done),
            acc < HASH_MOD,
        decreases len - i,
    {
        let (c, n) = next_scalar(s, i);
        proof {
            let rest = scalars_from(s@, i + n);
            assert(scalars_from(s@, i as int) == seq![c as nat] + rest);
            assert(done.push(c as nat).drop_last() =~= done);
            assert(done.push(c as nat) + rest =~= done + (seq![c as nat] + rest));
            done = done.push(c as nat);
        }
        acc = (acc * HASH_BASE + c as u64) % HASH_MOD;
        i = if len - i > n { i + n } else { len };
        proof {
            if i == len {
                assert(scalars_from(s@, i as int) =~= Seq::<nat>::empty());
            }
        }
    }
    assert(scalars_from(s@, len as int) =~= Seq::<nat>::empty());
    assert(done + Seq::<nat>::empty() =~= done);
    acc as usize
}

struct Entry {
    key: Vec<u8>,
    value: RESP,
    expiry: u128,
}

/// One shard: a mapping from key to (frame, absolute expiry).
pub struct Shard {
    entries: Vec<Entry>,
}

impl Shard {
    /// No key appears twice.
    pub closed spec fn wf(&self) -> bool {
        forall|i: int, j: int|
            0 <= i < j < self.entries@.len() ==> #[trigger] self.entries@[i].key@
                != #[trigger] self.entries@[j].key@
    }

    closed spec fn has(&self, k: Seq<u8>) -> bool {
        exists|i: int| 0 <= i < self.entries@.len() && #[trigger] self.entries@[i].key@ == k
    }

    closed spec fn index_of(&self, k: Seq<u8>) -> int {
        choose|i: int| 0 <= i < self.entries@.len() && #[trigger] self.entries@[i].key@ == k
    }

    proof fn lemma_entry(&self, i: int)
        requires
            self.wf(),
            0 <= i < self.entries@.len(),
        ensures
            self@.contains_key(self.entries@[i].key@),
            self@[self.entries@[i].key@] == (
                self.entries@[i].value@,
                self.entries@[i].expiry as nat,
            ),
    {
        let k = self.entries@[i].key@;
        assert(self.has(k));
        let j = self.index_of(k);
        assert(j == i) by {
            if j < i {
                assert(self.entries@[j].key@ != self.entries@[i].key@);
            } else if i < j {
                assert(self.entries@[i].key@ != self.entries@[j].key@);
            }
        }
    }

    /// An empty shard.
    pub fn new() -> (r: Shard)
        ensures
            r.wf(),
            r@ == Map::<Seq<u8>, (Value, nat)>::empty(),
    {
        let r = Shard { entries: Vec::new() };
        assert(r@ =~= Map::<Seq<u8>, (Value, nat)>::empty());
        r
    }

    fn find(&self, key: &[u8]) -> (r: Option<usize>)
        ensures
            match r {
                Some(i) => i < self.entries@.len() && self.entries@[i as int].key@ == key@,
                None => !self.has(key@),
            },
    {
        let mut i: usize = 0;
        while i < self.entries.len()
            invariant
                0 <= i <= self.entries@.len(),
                forall|m: int| 0 <= m < i ==> #[trigger] self.entries@[m].key@ != key@,
            decreases self.entries@.len() - i,
        {
            if eq_bytes(self.entries[i].key.as_slice(), key) {
                return Some(i);
            }
            i = i + 1;
        }
        None
    }

    /// Stores `value` under `key` with an absolute expiry, replacing any
    /// earlier entry of that key.
    pub fn put(&mut self, key: Vec<u8>, value: RESP, expiry: u128)
        requires
            old(self).wf(),
        ensures
            final(self).wf(),
            final(self)@ == old(self)@.insert(key@, (value@, expiry as nat)),
    {
        let ghost k = key@;
        let ghost before = *self;
        match self.find(key.as_slice()) {
            Some(i) => {
                self.entries.set(i, Entry { key, value, expiry });
                proof {
                    Shard::lemma_written(before, *self, i as int);
                }
            },
            None => {
                self.entries.push(Entry { key, value, expiry });
                proof {
                    Shard::lemma_written(before, *self, before.entries@.len() as int);
                }
            },
        }
    }

    /// Writing entry `i` (an existing entry of the same key, or a new last
    /// entry whose key was absent) keeps the keys unique and stores the entry's
    /// key with its frame and expiry, leaving every other key as it was.
    proof fn lemma_written(before: Shard, after: Shard, i: int)
        requires
            before.wf(),
            0 <= i < after.entries@.len(),
            after.entries@.len() == if i < before.entries@.len() {
                before.entries@.len()
            } else {
                before.entries@.len() + 1
            },
            i < before.entries@.len() ==> before.entries@[i].key@ == after.entries@[i].key@,
            i == before.entries@.len() ==> !before.has(after.entries@[i].key@),
            forall|j: int| 0 <= j < after.entries@.len() && j != i ==> after.entries@[j] == before.entries@[j],
        ensures
            after.wf(),
            after@ == before@.insert(
                after.entries@[i].key@,
                (after.entries@[i].value@, after.entries@[i].expiry as nat),
            ),
    {
        let k = after.entries@[i].key@;
        let v = (after.entries@[i].value@, after.entries@[i].expiry as nat);
        assert forall|a: int, b: int|
            0 <= a < b < after.entries@.len() implies #[trigger] after.entries@[a].key@
            != #[trigger] after.entries@[b].key@ by {
            if b == i && i == before.entries@.len() {
                assert(before.entries@[a].key@ != k);
            } else {
                assert(before.entries@[a].key@ != before.entries@[b].key@);
            }
        }
        assert forall|k2: Seq<u8>| #[trigger] after@.contains_key(k2) == before@.insert(
            k,
            v,
        ).contains_key(k2) && (after@.contains_key(k2) ==> after@[k2] == before@.insert(
            k,
            v,
        )[k2]) by {
            after.lemma_entry(i);
            if k2 != k {
                if before.has(k2) {
                    let j = before.index_of(k2);
                    before.lemma_entry(j);
                    after.lemma_entry(j);
                }
                if after.has(k2) {
                    let j = after.index_of(k2);
                    after.lemma_entry(j);
                    before.lemma_entry(j);
                }
            }
        }
        assert(after@ =~= before@.insert(k, v));
    }

    /// Reads `key` at time `now`: its frame when the entry has not expired.
    /// An expired entry is deleted and reported as absent.
    pub fn get(&mut self, key: &[u8], now: u128) -> (r: Option<RESP>)
        requires
            old(self).wf(),
        ensures
            final(self).wf(),
            read_view(r) == read(old(self)@, key@, now as nat),
            final(self)@ == after_read(old(self)@, key@, now as nat),
    {
        let ghost k = key@;
        let ghost before = *self;
        match self.find(key) {
            None => {
                assert(self@ =~= before@.remove(k));
                None
            },
            Some(i) => {
                proof {
                    self.lemma_entry(i as int);
                }
                if self.entries[i].expiry == NEVER || now < self.entries[i].expiry {
                    Some(self.entries[i].value.duplicate())
                } else {
                    self.entries.remove(i);
                    assert(self.wf()) by {
                        assert forall|a: int, b: int|
                            0 <= a < b < self.entries@.len() implies #[trigger] self.entries@[a].key@
                            != #[trigger] self.entries@[b].key@ by {
                            let a0 = if a < i { a } else { a + 1 };
                            let b0 = if b < i { b } else { b + 1 };
                            assert(before.entries@[a0].key@ != before.entries@[b0].key@);
                        }
                    }
                    assert forall|k2: Seq<u8>| #[trigger] self@.contains_key(k2)
                        == before@.remove(k).contains_key(k2) && (self@.contains_key(k2)
                        ==> self@[k2] == before@.remove(k)[k2]) by {
                        if self.has(k2) {
                            let j = self.index_of(k2);
                            self.lemma_entry(j);
                            let j0 = if j < i { j } else { j + 1 };
                            before.lemma_entry(j0);
                            assert(k2 != k) by {
                                if j0 < i {
                                    assert(before.entries@[j0].key@ != before.entries@[i as int].key@);
                                } else {
                                    assert(before.entries@[i as int].key@ != before.entries@[j0].key@);
                                }
                            }
                        }
                        if k2 != k && before.has(k2) {
                            let j0 = before.index_of(k2);
                            before.lemma_entry(j0);
                            assert(j0 != i);
                            let j = if j0 < i { j0 } else { j0 - 1 };
                            self.lemma_entry(j);
                        }
                    }
                    assert(self@ =~= before@.remove(k));
                    None
                }
            },
        }
    }
}

/// The store: a fixed number of shards, each key kept in the shard its hash selects.
pub struct ShardedDb {
    shards: Vec<Shard>,
}

impl ShardedDb {
    /// The number of shards.
    pub closed spec fn shard_count(&self) -> nat {
        self.shards@.len()
    }

    /// At least one shard, each well formed and holding only the keys routed to it.
    pub closed spec fn wf(&self) -> bool {
        &&& self.shards@.len() > 0
        &&& forall|i: int| 0 <= i < self.shards@.len() ==> (#[trigger] self.shards@[i]).wf()
        &&& forall|i: int, k: Seq<u8>|
            0 <= i < self.shards@.len() && #[trigger] self.shards@[i]@.contains_key(k)
                ==> shard_of(k, self.shards@.len()) == i
    }

    pub fn num_shards(&self) -> (r: usize)
        ensures
            r == self.shard_count(),
    {
        self.shards.len()
    }

    /// Stores `value` under `key` with an absolute expiry (`NEVER` for none),
    /// replacing any earlier entry of that key.
    pub fn put(&mut self, key: Vec<u8>, value: RESP, expiry: u128)
        requires
            old(self).wf(),
        ensures
            final(self).wf(),
            final(self).shard_count() == old(self).shard_count(),
            final(self)@ == old(self)@.insert(key@, (value@, expiry as nat)),
    {
        let ghost before = *self;
        let ghost k = key@;
        let ghost v = (value@, expiry as nat);
        let n = self.shards.len();
        let i = hash(key.as_slice()) % n;
        self.shards[i].put(key, value, expiry);
        assert(self.wf()) by {
            assert forall|j: int, k2: Seq<u8>|
                0 <= j < self.shards@.len() && #[trigger] self.shards@[j]@.contains_key(
                    k2,
                ) implies shard_of(k2, self.shards@.len()) == j by {
                if j != i && k2 != k {
                    assert(before.shards@[j]@.contains_key(k2));
                } else if j == i && k2 != k {
                    assert(before.shards@[j]@.contains_key(k2));
                }
            }
            assert forall|j: int| 0 <= j < self.shards@.len() implies (
            #[trigger] self.shards@[j]).wf() by {
                assert(before.shards@[j].wf());
            }
        }
        assert forall|k2: Seq<u8>| #[trigger] self@.contains_key(k2) == before@.insert(
            k,
            v,
        ).contains_key(k2) && (self@.contains_key(k2) ==> self@[k2] == before@.insert(
            k,
            v,
        )[k2]) by {}
        assert(self@ =~= before@.insert(k, v));
    }

    /// Reads `key` at time `now` (milliseconds since the epoch): its frame when
    /// the entry has not expired. An expired entry is deleted and reported absent.
    pub fn get(&mut self, key: &[u8], now: u128) -> (r: Option<RESP>)
        requires
            old(self).wf(),
        ensures
            final(self).wf(),
            final(self).shard_count() == old(self).shard_count(),
            read_view(r) == read(old(self)@, key@, now as nat),
            final(self)@ == after_read(old(self)@, key@, now as nat),
    {
        let ghost before = *self;
        let ghost k = key@;
        let n = self.shards.len();
        let i = hash(key) % n;
        let r = self.shards[i].get(key, now);
        assert(self.wf()) by {
            assert forall|j: int, k2: Seq<u8>|
                0 <= j < self.shards@.len() && #[trigger] self.shards@[j]@.contains_key(
                    k2,
                ) implies shard_of(k2, self.shards@.len()) == j by {
                assert(before.shards@[j]@.contains_key(k2));
            }
            assert forall|j: int| 0 <= j < self.shards@.len() implies (
            #[trigger] self.shards@[j]).wf() by {
                assert(before.shards@[j].wf());
            }
        }
        if r.is_some() {
            assert(self@ =~= before@);
        } else {
            assert(self@ =~= before@.remove(k));
        }
        r
    }
}

impl View for ShardedDb {
    type V = Map<Seq<u8>, (Value, nat)>;

    /// The store's contents: each key as its own shard holds it.
    closed spec fn view(&self) -> Map<Seq<u8>, (Value, nat)> {
        Map::new(
            |k: Seq<u8>| self.shards@[shard_of(k, self.shards@.len()) as int]@.contains_key(k),
            |k: Seq<u8>| self.shards@[shard_of(k, self.shards@.len()) as int]@[k],
        )
    }
}

/// A store of keys, each with a frame and an absolute expiry: one shard, or
/// the whole sharded store.
pub trait KeyValueStore: Sized {
    /// The store's invariant.
    spec fn inv(&self) -> bool;

    /// The store's contents.
    spec fn contents(&self) -> Map<Seq<u8>, (Value, nat)>;

    /// Stores `value` under `key` with an absolute expiry.
    fn put_entry(&mut self, key: Vec<u8>, value: RESP, expiry: u128)
        requires
            old(self).inv(),
        ensures
            final(self).inv(),
            final(self).contents() == old(self).contents().insert(key@, (value@, expiry as nat)),
    ;

    /// Reads `key` at time `now`, deleting it if it has expired.
    fn get_entry(&mut self, key: &[u8], now: u128) -> (r: Option<RESP>)
        requires
            old(self).inv(),
        ensures
            final(self).inv(),
            read_view(r) == read(old(self).contents(), key@, now as nat),
            final(self).contents() == after_read(old(self).contents(), key@, now as nat),
    ;
}

impl KeyValueStore for Shard {
    open spec fn inv(&self) -> bool {
        self.wf()
    }

    open spec fn contents(&self) -> Map<Seq<u8>, (Value, nat)> {
        self@
    }

    fn put_entry(&mut self, key: Vec<u8>, value: RESP, expiry: u128) {
        self.put(key, value, expiry)
    }

    fn get_entry(&mut self, key: &[u8], now: u128) -> (r: Option<RESP>) {
        self.get(key, now)
    }
}

impl KeyValueStore for ShardedDb {
    open spec fn inv(&self) -> bool {
        self.wf()
    }

    open spec fn contents(&self) -> Map<Seq<u8>, (Value, nat)> {
        self@
    }

    fn put_entry(&mut self, key: Vec<u8>, value: RESP, expiry: u128) {
        self.put(key, value, expiry)
    }

    fn get_entry(&mut self, key: &[u8], now: u128) -> (r: Option<RESP>) {
        self.get(key, now)
    }
}


/// A store of `num_shards` empty shards.
pub fn new_sharded_db(num_shards: usize) -> (r: ShardedDb)
    requires
        num_shards > 0,
    ensures
        r.wf(),
        r.shard_count() == num_shards,
        r@ == Map::<Seq<u8>, (Value, nat)>::empty(),
{
    let mut shards: Vec<Shard> = Vec::new();
    let mut i: usize = 0;
    while i < num_shards
        invariant
            0 <= i <= num_shards,
            shards@.len() == i,
            forall|j: int| 0 <= j < i ==> (#[trigger] shards@[j]).wf() && shards@[j]@ == Map::<
                Seq<u8>,
                (Value, nat),
            >::empty(),
        decreases num_shards - i,
    {
        shards.push(Shard::new());
        i = i + 1;
    }
    let r = ShardedDb { shards };
    assert(r@ =~= Map::<Seq<u8>, (Value, nat)>::empty());
    r
}

impl View for Shard {
    type V = Map<Seq<u8>, (Value, nat)>;

    closed spec fn view(&self) -> Map<Seq<u8>, (Value, nat)> {
        Map::new(
            |k: Seq<u8>| self.has(k),
            |k: Seq<u8>|
                {
                    let i = self.index_of(k);
                    (self.entries@[i].value@, self.entries@[i].expiry as nat)
                },
        )
    }
}

/// A write is seen whole: after `put(k, v, exp)`, a read of `k` while the
/// entry is live (before `exp`, or at any time when `exp` is `NEVER`) gives
/// `v` and changes nothing; a read at or after any other `exp` reports
/// "not found" and leaves the key absent.
pub proof fn lemma_store_atomicity(
    m: Map<Seq<u8>, (Value, nat)>,
    k: Seq<u8>,
    v: Value,
    exp: nat,
    now: nat,
)
    ensures
        (now < exp || exp == NEVER as nat) ==> read(m.insert(k, (v, exp)), k, now) == Some(v)
            && after_read(m.insert(k, (v, exp)), k, now) == m.insert(k, (v, exp)),
        (now >= exp && exp != NEVER as nat) ==> read(m.insert(k, (v, exp)), k, now) is None
            && !after_read(m.insert(k, (v, exp)), k, now).contains_key(k),
{
}

} // verus!
