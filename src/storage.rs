//! The key-value store, and the account records kept in it.
use vstd::prelude::*;
use vstd::rwlock::{RwLock, RwLockPredicate};
use std::sync::Arc;
use crate::crypto::Address;
use crate::rlp::{encoded_at, found, lemma_encoded_at, lemma_split, push_list, push_uint, read_item, read_uint, rlp_list, rlp_str};
use crate::uint::{U256, be_value, is_minimal, lemma_min_be_len, lemma_min_be_len_u256, lemma_min_be_value, lemma_pow256_values, lemma_u256_bound, lemma_u256_unique, min_be};

verus! {

/// Whether two byte strings are equal.
pub fn bytes_eq(a: &[u8], b: &[u8]) -> (r: bool)
    ensures
        r == (a@ == b@),
{
    if a.len() != b.len() {
        return false;
    }
    let mut i: usize = 0;
    while i < a.len()
        invariant
            i <= a@.len(),
            a@.len() == b@.len(),
            a@.subrange(0, i as int) == b@.subrange(0, i as int),
        decreases a@.len() - i,
    {
        if a[i] != b[i] {
            return false;
        }
        assert(a@.subrange(0, i + 1) =~= a@.subrange(0, i as int).push(a@[i as int]));
        assert(b@.subrange(0, i + 1) =~= b@.subrange(0, i as int).push(b@[i as int]));
        i = i + 1;
    }
    assert(a@ =~= a@.subrange(0, a@.len() as int));
    assert(b@ =~= b@.subrange(0, b@.len() as int));
    true
}

/// A fresh copy of the bytes.
pub fn copy_bytes(s: &[u8]) -> (r: Vec<u8>)
    ensures
        r@ == s@,
{
    let mut out: Vec<u8> = Vec::new();
    crate::rlp::push_all(&mut out, s);
    assert(out@ =~= s@);
    out
}

/// An in-memory key-value store of byte strings.
pub struct SimpleStorage {
    db: Vec<(Vec<u8>, Vec<u8>)>,
}

/// The sum of the balances of the account records among `entries`.
pub open spec fn sum_balances(entries: Seq<(Vec<u8>, Vec<u8>)>) -> nat
    decreases entries.len(),
{
    if entries.len() == 0 {
        0
    } else {
        sum_balances(entries.drop_last()) + account_in(entries.last().1@).balance@
    }
}

proof fn lemma_sum_update(s: Seq<(Vec<u8>, Vec<u8>)>, i: int, x: (Vec<u8>, Vec<u8>))
    requires
        0 <= i < s.len(),
    ensures
        sum_balances(s.update(i, x)) + account_in(s[i].1@).balance@ == sum_balances(s)
            + account_in(x.1@).balance@,
    decreases s.len(),
{
    let u = s.update(i, x);
    if i < s.len() - 1 {
        lemma_sum_update(s.drop_last(), i, x);
        assert(u.drop_last() =~= s.drop_last().update(i, x));
    } else {
        assert(u.drop_last() =~= s.drop_last());
    }
}

impl SimpleStorage {
    /// No key is stored twice.
    pub closed spec fn wf(&self) -> bool {
        keys_distinct(self.db@)
    }

    /// The sum of the balances of all account records held.
    pub closed spec fn total_balance(&self) -> nat {
        sum_balances(self.db@)
    }

    /// Creates an empty store.
    pub fn new() -> (r: SimpleStorage)
        ensures
            r.wf(),
            r@ == Map::<Seq<u8>, Seq<u8>>::empty(),
            r.total_balance() == 0,
    {
        let r = SimpleStorage { db: Vec::new() };
        assert(r@ =~= Map::<Seq<u8>, Seq<u8>>::empty());
        r
    }

    fn find(&self, key: &[u8]) -> (r: Option<usize>)
        ensures
            match r {
                Some(i) => i < self.db@.len() && self.db@[i as int].0@ == key@,
                None => forall|j: int| 0 <= j < self.db@.len() ==> self.db@[j].0@ != key@,
            },
    {
        let mut i: usize = 0;
        while i < self.db.len()
            invariant
                i <= self.db@.len(),
                forall|j: int| 0 <= j < i ==> self.db@[j].0@ != key@,
            decreases self.db@.len() - i,
        {
            if bytes_eq(self.db[i].0.as_slice(), key) {
                return Some(i);
            }
            i = i + 1;
        }
        None
    }

    /// Stores `value` under `key`, replacing what was there.
    pub fn put(&mut self, key: Vec<u8>, value: Vec<u8>)
        requires
            old(self).wf(),
        ensures
            final(self).wf(),
            final(self)@ == old(self)@.insert(key@, value@),
            final(self).total_balance() + balance_at(old(self)@, key@) == old(self).total_balance()
                + account_in(value@).balance@,
    {
        let ghost k = key@;
        let ghost old_db = self.db@;
        match self.find(key.as_slice()) {
            Some(i) => {
                proof {
                    lemma_sum_update(old_db, i as int, (key, value));
                    lemma_view_at(old_db, i as int);
                }
                self.db[i] = (key, value);
                proof {
                    assert(self.db@ == old_db.update(i as int, (key, value)));
                    lemma_view_update(old_db, i as int, (key, value));
                }
            },
            None => {
                proof {
                    assert(!view_of(old_db).contains_key(k));
                    assert(old_db.push((key, value)).drop_last() =~= old_db);
                }
                self.db.push((key, value));
                proof {
                    lemma_view_push(old_db, (key, value));
                }
            },
        }
    }

    /// The value stored under `key`, if any.
    pub fn get(&self, key: &[u8]) -> (r: Option<Vec<u8>>)
        requires
            self.wf(),
        ensures
            match r {
                Some(v) => self@.contains_key(key@) && v@ == self@[key@],
                None => !self@.contains_key(key@),
            },
    {
        match self.find(key) {
            Some(i) => {
                proof {
                    lemma_view_at(self.db@, i as int);
                }
                Some(copy_bytes(self.db[i].1.as_slice()))
            },
            None => None,
        }
    }
}

impl SimpleStorage {
    /// The account of `addr`; the empty account for an address never written.
    pub fn get_account(&self, addr: &Address) -> (r: Account)
        requires
            self.wf(),
        ensures
            r == account_at(self@, addr@),
    {
        match self.get(addr.as_slice()) {
            Some(v) => match Account::decode(v.as_slice()) {
                Some(a) => a,
                None => Account::empty(),
            },
            None => Account::empty(),
        }
    }

    /// Replaces the account of `addr` with `a`.
    pub fn set_account(&mut self, addr: &Address, a: Account)
        requires
            old(self).wf(),
        ensures
            final(self).wf(),
            final(self)@ == old(self)@.insert(addr@, encode_account(a)),
            account_at(final(self)@, addr@) == a,
            final(self).total_balance() + account_at(old(self)@, addr@).balance@
                == old(self).total_balance() + a.balance@,
    {
        let bytes = a.encode();
        proof {
            lemma_account_in_encoded(a);
        }
        self.put(copy_bytes(addr.as_slice()), bytes);
    }
}

/// The invariant that the lock of a shared store keeps.
pub struct StorageInvariant;

impl RwLockPredicate<SimpleStorage> for StorageInvariant {
    open spec fn inv(self, s: SimpleStorage) -> bool {
        s.wf()
    }
}

/// A store that many threads share; each operation holds its lock throughout.
#[derive(Clone)]
pub struct SharedStorage {
    inner: Arc<RwLock<SimpleStorage, StorageInvariant>>,
}

impl SharedStorage {
    pub fn new() -> (r: SharedStorage) {
        SharedStorage {
            inner: Arc::new(RwLock::new(SimpleStorage::new(), Ghost(StorageInvariant))),
        }
    }

    /// Stores `value` under `key`, with the store locked.
    pub fn put(&self, key: Vec<u8>, value: Vec<u8>) {
        let (mut db, handle) = self.inner.acquire_write();
        db.put(key, value);
        handle.release_write(db);
    }

    /// The value stored under `key` at one moment, if any.
    pub fn get(&self, key: &[u8]) -> (r: Option<Vec<u8>>) {
        let handle = self.inner.acquire_read();
        let r = handle.borrow().get(key);
        handle.release_read();
        r
    }

    /// The account of `addr` at one moment.
    pub fn get_account(&self, addr: &Address) -> (r: Account) {
        let handle = self.inner.acquire_read();
        let r = handle.borrow().get_account(addr);
        handle.release_read();
        r
    }

    /// Replaces the account of `addr`, with the store locked.
    pub fn set_account(&self, addr: &Address, a: Account) {
        let (mut db, handle) = self.inner.acquire_write();
        db.set_account(addr, a);
        handle.release_write(db);
    }

    /// Runs `f` on the store with the lock held throughout, so that no reader
    /// sees a state between two of its steps; the store becomes what `f`
    /// hands back, and the rest of what it hands back is returned.
    pub fn update<F, R>(&self, f: F) -> (r: R)
        where
            F: FnOnce(SimpleStorage) -> (SimpleStorage, R),
        requires
            forall|s: SimpleStorage| s.wf() ==> #[trigger] f.requires((s,)),
            forall|s: SimpleStorage, t: (SimpleStorage, R)|
                s.wf() && #[trigger] f.ensures((s,), t) ==> t.0.wf(),
        ensures
            exists|s: SimpleStorage, t: SimpleStorage| s.wf() && f.ensures((s,), (t, r)),
    {
        let (db, handle) = self.inner.acquire_write();
        let (db, r) = f(db);
        handle.release_write(db);
        r
    }
}

/// The map that a list of entries with distinct keys holds.
pub open spec fn view_of(db: Seq<(Vec<u8>, Vec<u8>)>) -> Map<Seq<u8>, Seq<u8>> {
    Map::new(
        |k: Seq<u8>| exists|i: int| 0 <= i < db.len() && db[i].0@ == k,
        |k: Seq<u8>| db[choose|i: int| 0 <= i < db.len() && db[i].0@ == k].1@,
    )
}

pub open spec fn keys_distinct(db: Seq<(Vec<u8>, Vec<u8>)>) -> bool {
    forall|i: int, j: int| 0 <= i < j < db.len() ==> db[i].0@ != db[j].0@
}

proof fn lemma_view_at(db: Seq<(Vec<u8>, Vec<u8>)>, i: int)
    requires
        keys_distinct(db),
        0 <= i < db.len(),
    ensures
        view_of(db).contains_key(db[i].0@),
        view_of(db)[db[i].0@] == db[i].1@,
{
    let k = db[i].0@;
    assert(exists|j: int| 0 <= j < db.len() && db[j].0@ == k);
    let j = choose|j: int| 0 <= j < db.len() && db[j].0@ == k;
    assert(j == i);
}

proof fn lemma_view_update(db: Seq<(Vec<u8>, Vec<u8>)>, i: int, x: (Vec<u8>, Vec<u8>))
    requires
        keys_distinct(db),
        0 <= i < db.len(),
        x.0@ == db[i].0@,
    ensures
        view_of(db.update(i, x)) == view_of(db).insert(x.0@, x.1@),
        keys_distinct(db.update(i, x)),
{
    let u = db.update(i, x);
    let m = view_of(db).insert(x.0@, x.1@);
    assert(keys_distinct(u));
    assert forall|k: Seq<u8>| view_of(u).contains_key(k) <==> m.contains_key(k) by {
        if view_of(u).contains_key(k) {
            let j = choose|j: int| 0 <= j < u.len() && u[j].0@ == k;
            if j != i {
                assert(db[j].0@ == k);
            }
        }
        if view_of(db).contains_key(k) {
            let j = choose|j: int| 0 <= j < db.len() && db[j].0@ == k;
            assert(u[j].0@ == k);
        }
        if k == x.0@ {
            assert(u[i].0@ == k);
        }
    }
    assert forall|k: Seq<u8>| view_of(u).contains_key(k) implies view_of(u)[k] == m[k] by {
        let j = choose|j: int| 0 <= j < u.len() && u[j].0@ == k;
        lemma_view_at(u, j);
        if j != i {
            lemma_view_at(db, j);
        }
    }
    assert(view_of(u) =~= m);
}

proof fn lemma_view_push(db: Seq<(Vec<u8>, Vec<u8>)>, x: (Vec<u8>, Vec<u8>))
    requires
        keys_distinct(db),
        !view_of(db).contains_key(x.0@),
    ensures
        view_of(db.push(x)) == view_of(db).insert(x.0@, x.1@),
        keys_distinct(db.push(x)),
{
    let u = db.push(x);
    assert forall|i: int, j: int| 0 <= i < j < u.len() implies u[i].0@ != u[j].0@ by {
        if j == db.len() {
            assert(db[i].0@ == u[i].0@);
        }
    }
    let m = view_of(db).insert(x.0@, x.1@);
    assert forall|k: Seq<u8>| view_of(u).contains_key(k) <==> m.contains_key(k) by {
        if view_of(u).contains_key(k) {
            let j = choose|j: int| 0 <= j < u.len() && u[j].0@ == k;
            if j < db.len() {
                assert(db[j].0@ == k);
            }
        }
        if view_of(db).contains_key(k) {
            let j = choose|j: int| 0 <= j < db.len() && db[j].0@ == k;
            assert(u[j].0@ == k);
        }
        if k == x.0@ {
            assert(u[db.len() as int].0@ == k);
        }
    }
    assert forall|k: Seq<u8>| view_of(u).contains_key(k) implies view_of(u)[k] == m[k] by {
        let j = choose|j: int| 0 <= j < u.len() && u[j].0@ == k;
        lemma_view_at(u, j);
        if j < db.len() {
            lemma_view_at(db, j);
        }
    }
    assert(view_of(u) =~= m);
}

impl View for SimpleStorage {
    type V = Map<Seq<u8>, Seq<u8>>;

    closed spec fn view(&self) -> Map<Seq<u8>, Seq<u8>> {
        view_of(self.db@)
    }
}

/// An account record: how many transactions it has sent, and its balance.
#[derive(Clone, Copy, Debug, PartialEq, Eq, Structural)]
pub struct Account {
    pub nonce: u64,
    pub balance: U256,
}

/// The record of an address that holds nothing.
pub open spec fn empty_account() -> Account {
    Account { nonce: 0, balance: U256 { hi: 0, lo: 0 } }
}

/// How an account record is stored: a list of its nonce and its balance.
pub open spec fn encode_account(a: Account) -> Seq<u8> {
    rlp_list(rlp_str(min_be(a.nonce as nat)) + rlp_str(min_be(a.balance@)))
}

/// The account that stored bytes hold; the empty account where they hold none.
pub open spec fn account_in(v: Seq<u8>) -> Account {
    if exists|a: Account| encode_account(a) == v {
        choose|a: Account| encode_account(a) == v
    } else {
        empty_account()
    }
}

/// The account of `addr` in the store `m`.
pub open spec fn account_at(m: Map<Seq<u8>, Seq<u8>>, addr: Seq<u8>) -> Account {
    if m.contains_key(addr) {
        account_in(m[addr])
    } else {
        empty_account()
    }
}

/// The balance that the entry under `k` counts for.
pub open spec fn balance_at(m: Map<Seq<u8>, Seq<u8>>, k: Seq<u8>) -> nat {
    if m.contains_key(k) {
        account_in(m[k]).balance@
    } else {
        0
    }
}

proof fn lemma_account_len(a: Account)
    ensures
        rlp_str(min_be(a.nonce as nat)).len() <= 9,
        rlp_str(min_be(a.balance@)).len() <= 33,
        min_be(a.nonce as nat).len() <= 8,
        min_be(a.balance@).len() <= 32,
{
    lemma_u256_bound(a.balance);
    lemma_min_be_len_u256(a.balance@);
    lemma_pow256_values();
    lemma_min_be_len(a.nonce as nat, 8);
}

/// Distinct account records are stored as distinct bytes.
pub proof fn lemma_account_encoding_injective(a: Account, b: Account)
    requires
        encode_account(a) == encode_account(b),
    ensures
        a == b,
{
    lemma_account_len(a);
    lemma_account_len(b);
    let pa = rlp_str(min_be(a.nonce as nat)) + rlp_str(min_be(a.balance@));
    let pb = rlp_str(min_be(b.nonce as nat)) + rlp_str(min_be(b.balance@));
    assert(pa =~= encode_account(a).subrange(1, encode_account(a).len() as int));
    assert(pb =~= encode_account(b).subrange(1, encode_account(b).len() as int));
    crate::rlp::lemma_str_prefix_free(
        min_be(a.nonce as nat),
        rlp_str(min_be(a.balance@)),
        min_be(b.nonce as nat),
        rlp_str(min_be(b.balance@)),
    );
    assert(rlp_str(min_be(a.balance@)) + Seq::<u8>::empty() =~= rlp_str(min_be(a.balance@)));
    assert(rlp_str(min_be(b.balance@)) + Seq::<u8>::empty() =~= rlp_str(min_be(b.balance@)));
    crate::rlp::lemma_str_prefix_free(
        min_be(a.balance@),
        Seq::<u8>::empty(),
        min_be(b.balance@),
        Seq::<u8>::empty(),
    );
    lemma_min_be_value(a.nonce as nat);
    lemma_min_be_value(b.nonce as nat);
    lemma_min_be_value(a.balance@);
    lemma_min_be_value(b.balance@);
    lemma_u256_unique(a.balance, b.balance);
}

/// The stored bytes of a record read back as that record.
pub proof fn lemma_account_in_encoded(a: Account)
    ensures
        account_in(encode_account(a)) == a,
{
    let b = choose|b: Account| encode_account(b) == encode_account(a);
    lemma_account_encoding_injective(a, b);
}

impl Account {
    /// The record of an address that holds nothing.
    pub fn empty() -> (r: Account)
        ensures
            r == empty_account(),
            r.balance@ == 0,
    {
        Account { nonce: 0, balance: U256 { hi: 0, lo: 0 } }
    }

    /// The bytes that store the record.
    pub fn encode(&self) -> (r: Vec<u8>)
        ensures
            r@ == encode_account(*self),
    {
        let mut payload: Vec<u8> = Vec::new();
        push_uint(&mut payload, &U256::from_u64(self.nonce));
        push_uint(&mut payload, &self.balance);
        proof {
            lemma_account_len(*self);
        }
        let mut out: Vec<u8> = Vec::new();
        push_list(&mut out, payload.as_slice());
        out
    }

    /// Reads the record that the bytes `v` store: `None` where they store none.
    pub fn decode(v: &[u8]) -> (r: Option<Account>)
        ensures
            r == (if exists|a: Account| encode_account(a) == v@ {
                Some(account_in(v@))
            } else {
                None
            }),
    {
        let r = Self::parse(v);
        proof {
            if let Some(a) = r {
                lemma_account_in_encoded(a);
            }
        }
        r
    }

    fn parse(v: &[u8]) -> (r: Option<Account>)
        ensures
            r matches Some(a) ==> encode_account(a) == v@,
            forall|a: Account| encode_account(a) == v@ ==> r == Some(a),
    {
        let len = v.len();
        proof {
            assert forall|a: Account| encode_account(a) == v@ implies account_fields_at(v@, a) by {
                lemma_account_fields(v@, a);
            }
        }
        let outer = match read_item(v, 0, len) {
            Ok(it) => it,
            Err(_) => {
                return None;
            },
        };
        if !outer.is_list || outer.end != len {
            return None;
        }
        let f1 = match read_item(v, outer.start, outer.end) {
            Ok(it) => it,
            Err(_) => {
                return None;
            },
        };
        let n = match read_uint(v, f1, 8) {
            Ok(x) => x,
            Err(_) => {
                return None;
            },
        };
        let f2 = match read_item(v, f1.end, outer.end) {
            Ok(it) => it,
            Err(_) => {
                return None;
            },
        };
        let balance = match read_uint(v, f2, 32) {
            Ok(x) => x,
            Err(_) => {
                return None;
            },
        };
        if f2.end != outer.end {
            return None;
        }
        proof {
            let nonce_bytes = v@.subrange(f1.start as int, f1.end as int);
            crate::uint::lemma_be_value_bound(nonce_bytes);
            lemma_pow256_values();
            crate::uint::lemma_pow256_monotonic(nonce_bytes.len(), 8);
            crate::transaction::lemma_low_half(n, 0x1_0000_0000_0000_0000);
        }
        let a = Account { nonce: n.lo as u64, balance };
        proof {
            crate::rlp::lemma_join(v@, outer.start as int, f1.end as int, f2.end as int);
            assert(v@.subrange(0, v@.len() as int) =~= v@);
            assert forall|a2: Account| encode_account(a2) == v@ implies a2 == a by {
                lemma_u256_unique(balance, a2.balance);
            }
        }
        Some(a)
    }
}

/// Where the items of an account record stored as `v` stand, and what they hold.
pub open spec fn account_fields_at(v: Seq<u8>, a: Account) -> bool {
    let p = rlp_str(min_be(a.nonce as nat)) + rlp_str(min_be(a.balance@));
    let o = found(true, p, 0);
    let n = min_be(a.nonce as nat);
    let bal = min_be(a.balance@);
    let f1 = found(false, n, o.start as int);
    let f2 = found(false, bal, o.start + rlp_str(n).len());
    &&& encoded_at(v, 0, v.len() as int, true, p)
    &&& o.end == v.len()
    &&& encoded_at(v, o.start as int, o.end as int, false, n)
    &&& encoded_at(v, o.start + rlp_str(n).len(), o.end as int, false, bal)
    &&& o.start + rlp_str(n).len() + rlp_str(bal).len() == o.end
    &&& v.subrange(f1.start as int, f1.end as int) == n
    &&& v.subrange(f2.start as int, f2.end as int) == bal
    &&& is_minimal(n) && n.len() <= 8 && be_value(n) == a.nonce as nat
    &&& is_minimal(bal) && bal.len() <= 32 && be_value(bal) == a.balance@
}

proof fn lemma_account_fields(v: Seq<u8>, a: Account)
    requires
        encode_account(a) == v,
        v.len() <= usize::MAX,
    ensures
        account_fields_at(v, a),
{
    let n = min_be(a.nonce as nat);
    let bal = min_be(a.balance@);
    let p = rlp_str(n) + rlp_str(bal);
    let o = found(true, p, 0);
    lemma_account_len(a);
    assert(v.subrange(0, v.len() as int) =~= v);
    lemma_encoded_at(v, 0, v.len() as int, true, p);
    lemma_min_be_value(a.nonce as nat);
    lemma_min_be_value(a.balance@);
    lemma_split(v, o.start as int, o.end as int, rlp_str(n), rlp_str(bal));
    lemma_encoded_at(v, o.start as int, o.end as int, false, n);
    lemma_encoded_at(v, o.start + rlp_str(n).len(), o.end as int, false, bal);
}

} // verus!
