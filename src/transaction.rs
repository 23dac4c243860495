//! Transactions: their canonical encoding, their hashes, and the recovery of
//! the address that signed one.
use vstd::prelude::*;
use crate::crypto::{Address, H256, address_from_key, address_of, keccak, keccak_of, recover_key, recovered_key};
use crate::rlp::{DecodeError, bad_header_byte, cut_at, encoded_at, found, lemma_encoded_at, lemma_split, push_list, push_str, push_uint, read_item, read_uint, rlp_list, rlp_str};
use crate::uint::{U256, be_value, is_minimal, lemma_min_be_len, lemma_min_be_len_u256, lemma_min_be_value, lemma_pow256_values, lemma_u256_bound, lemma_u256_unique, min_be, pow256, two_128};

verus! {

/// A request to move `value` to the address `to`, the sender's `nonce`-th.
#[derive(Clone, Copy, Debug, PartialEq, Eq)]
pub struct Transaction {
    pub to: Address,
    pub value: U256,
    pub nonce: u64,
}

/// A transaction with the signature `r || s` over its hash and the recovery id.
#[derive(Clone, Copy, Debug, PartialEq, Eq)]
pub struct SignedTransaction {
    pub transaction: Transaction,
    pub signature: [u8; 64],
    pub recovery_id: u8,
}

/// Why no sender can be recovered from a signed transaction.
#[derive(Clone, Copy, Debug, PartialEq, Eq, Structural)]
pub enum AuthError {
    InvalidSignature,
}

/// The items of a transaction's list: receiver, value, nonce.
pub open spec fn tx_payload(t: Transaction) -> Seq<u8> {
    rlp_str(t.to@) + rlp_str(min_be(t.value@)) + rlp_str(min_be(t.nonce as nat))
}

/// The canonical encoding of a transaction.
pub open spec fn encode_tx(t: Transaction) -> Seq<u8> {
    rlp_list(tx_payload(t))
}

/// The items of a signed transaction's list: the transaction's own encoding,
/// the signature bytes and the recovery id.
pub open spec fn signed_payload(s: SignedTransaction) -> Seq<u8> {
    encode_tx(s.transaction) + rlp_str(s.signature@) + rlp_str(min_be(s.recovery_id as nat))
}

/// The canonical encoding of a signed transaction.
pub open spec fn encode_signed(s: SignedTransaction) -> Seq<u8> {
    rlp_list(signed_payload(s))
}

/// A transaction's hash: the digest of its encoding.
pub open spec fn tx_hash_of(t: Transaction) -> Seq<u8> {
    keccak_of(encode_tx(t))
}

/// A signed transaction's identity hash: the digest of the transaction hash,
/// the signature bytes and the recovery byte.
pub open spec fn identity_of(s: SignedTransaction) -> Seq<u8> {
    keccak_of(tx_hash_of(s.transaction) + s.signature@ + seq![s.recovery_id])
}

/// The error that decoding `b` as a signed transaction owes, where the
/// input fixes one: `Truncated` for empty input or a proper beginning of an
/// encoding, `TrailingBytes` for an encoding followed by more bytes, and
/// `MalformedHeader` for a first header byte this format never uses or a
/// complete byte string where the outer list must stand.
pub open spec fn signed_decode_error(b: Seq<u8>) -> Option<DecodeError> {
    if b.len() == 0 || exists|s: SignedTransaction, n: int|
        0 <= n < encode_signed(s).len() && b == #[trigger] encode_signed(s).subrange(0, n) {
        Some(DecodeError::Truncated)
    } else if exists|s: SignedTransaction|
        b.len() > encode_signed(s).len() && #[trigger] b.subrange(0, encode_signed(s).len() as int)
            == encode_signed(s) {
        Some(DecodeError::TrailingBytes)
    } else if bad_header_byte(b[0]) || exists|p: Seq<u8>| #[trigger]
        encoded_at(b, 0, b.len() as int, false, p) {
        Some(DecodeError::MalformedHeader)
    } else {
        None
    }
}

/// The address that signed `s`, where one can be recovered.
pub open spec fn sender_of(s: SignedTransaction) -> Option<Seq<u8>> {
    if s.recovery_id > 1 {
        None
    } else {
        match recovered_key(tx_hash_of(s.transaction), s.signature@, s.recovery_id) {
            Some(k) => Some(address_of(k)),
            None => None,
        }
    }
}

proof fn lemma_tx_payload_len(t: Transaction)
    ensures
        rlp_str(t.to@).len() == 21,
        rlp_str(min_be(t.value@)).len() <= 33,
        rlp_str(min_be(t.nonce as nat)).len() <= 9,
        tx_payload(t).len() <= 63,
        encode_tx(t).len() <= 65,
{
    lemma_u256_bound(t.value);
    lemma_min_be_len_u256(t.value@);
    lemma_pow256_values();
    lemma_min_be_len(t.nonce as nat, 8);
}

proof fn lemma_signed_payload_len(s: SignedTransaction)
    ensures
        rlp_str(s.signature@).len() == 66,
        rlp_str(min_be(s.recovery_id as nat)).len() <= 2,
        signed_payload(s).len() <= 133,
{
    lemma_tx_payload_len(s.transaction);
    reveal_with_fuel(pow256, 2);
    lemma_min_be_len(s.recovery_id as nat, 1);
    lemma_min_be_value(s.recovery_id as nat);
}

/// Where the items of a transaction encoded at `pos` stand, and what they hold.
pub open spec fn tx_fields_at(b: Seq<u8>, pos: int, t: Transaction) -> bool {
    let o = found(true, tx_payload(t), pos);
    let v = min_be(t.value@);
    let n = min_be(t.nonce as nat);
    let f2 = found(false, v, o.start + 21);
    let f3 = found(false, n, o.start + 21 + rlp_str(v).len());
    &&& o.end == pos + encode_tx(t).len()
    &&& o.start + tx_payload(t).len() == o.end
    &&& encoded_at(b, o.start as int, o.end as int, false, t.to@)
    &&& encoded_at(b, o.start + 21, o.end as int, false, v)
    &&& encoded_at(b, o.start + 21 + rlp_str(v).len(), o.end as int, false, n)
    &&& o.start + 21 + rlp_str(v).len() + rlp_str(n).len() == o.end
    &&& b.subrange(o.start + 1, o.start + 21) == t.to@
    &&& b.subrange(f2.start as int, f2.end as int) == v
    &&& b.subrange(f3.start as int, f3.end as int) == n
    &&& is_minimal(v) && v.len() <= 32 && be_value(v) == t.value@
    &&& is_minimal(n) && n.len() <= 8 && be_value(n) == t.nonce as nat
}

proof fn lemma_tx_fields(b: Seq<u8>, pos: int, limit: int, t: Transaction)
    requires
        0 <= pos,
        limit <= b.len(),
        limit <= usize::MAX,
        encoded_at(b, pos, limit, true, tx_payload(t)),
    ensures
        tx_fields_at(b, pos, t),
{
    let p = tx_payload(t);
    let o = found(true, p, pos);
    let v = min_be(t.value@);
    let n = min_be(t.nonce as nat);
    lemma_tx_payload_len(t);
    lemma_encoded_at(b, pos, limit, true, p);
    lemma_min_be_value(t.value@);
    lemma_min_be_value(t.nonce as nat);
    lemma_split(b, o.start as int, o.end as int, rlp_str(t.to@) + rlp_str(v), rlp_str(n));
    lemma_split(b, o.start as int, o.start + 21 + rlp_str(v).len(), rlp_str(t.to@), rlp_str(v));
    lemma_encoded_at(b, o.start as int, o.end as int, false, t.to@);
    lemma_encoded_at(b, o.start + 21, o.end as int, false, v);
    lemma_encoded_at(b, o.start + 21 + rlp_str(v).len(), o.end as int, false, n);
}

/// Where the items of a signed transaction encoded at `pos` stand, and what
/// they hold.
pub open spec fn signed_fields_at(b: Seq<u8>, pos: int, s: SignedTransaction) -> bool {
    let o = found(true, signed_payload(s), pos);
    let e = encode_tx(s.transaction);
    let k = min_be(s.recovery_id as nat);
    let f3 = found(false, k, o.start + e.len() + 66);
    &&& o.end == pos + encode_signed(s).len()
    &&& o.start + signed_payload(s).len() == o.end
    &&& encoded_at(b, o.start as int, o.end as int, true, tx_payload(s.transaction))
    &&& encoded_at(b, o.start + e.len(), o.end as int, false, s.signature@)
    &&& encoded_at(b, o.start + e.len() + 66, o.end as int, false, k)
    &&& o.start + e.len() + 66 + rlp_str(k).len() == o.end
    &&& b.subrange(o.start + e.len() + 2, o.start + e.len() + 66) == s.signature@
    &&& b.subrange(f3.start as int, f3.end as int) == k
    &&& is_minimal(k) && k.len() <= 1 && be_value(k) == s.recovery_id as nat
}

proof fn lemma_signed_fields(b: Seq<u8>, pos: int, limit: int, s: SignedTransaction)
    requires
        0 <= pos,
        limit <= b.len(),
        limit <= usize::MAX,
        encoded_at(b, pos, limit, true, signed_payload(s)),
    ensures
        signed_fields_at(b, pos, s),
{
    let p = signed_payload(s);
    let o = found(true, p, pos);
    let e = encode_tx(s.transaction);
    let k = min_be(s.recovery_id as nat);
    lemma_signed_payload_len(s);
    lemma_encoded_at(b, pos, limit, true, p);
    lemma_min_be_value(s.recovery_id as nat);
    lemma_split(b, o.start as int, o.end as int, e + rlp_str(s.signature@), rlp_str(k));
    lemma_split(b, o.start as int, o.start + e.len() + 66, e, rlp_str(s.signature@));
    lemma_tx_payload_len(s.transaction);
    lemma_encoded_at(b, o.start + e.len(), o.end as int, false, s.signature@);
    lemma_encoded_at(b, o.start + e.len() + 66, o.end as int, false, k);
    reveal_with_fuel(pow256, 2);
    lemma_min_be_len(s.recovery_id as nat, 1);
}

/// Copies the 20 bytes from `start`.
fn read_address(b: &[u8], start: usize) -> (r: Address)
    requires
        start + 20 <= b@.len(),
    ensures
        r@ == b@.subrange(start as int, start + 20),
{
    let mut a: Address = [0u8; 20];
    let n = b.len();
    let mut i: usize = 0;
    while i < 20
        invariant
            i <= 20,
            start + 20 <= b@.len() == n,
            a@.len() == 20,
            forall|j: int| 0 <= j < i ==> a@[j] == b@[start + j],
        decreases 20 - i,
    {
        a[i] = b[start + i];
        i = i + 1;
    }
    assert(a@ =~= b@.subrange(start as int, start + 20));
    a
}

/// Copies the 64 bytes from `start`.
fn read_signature(b: &[u8], start: usize) -> (r: [u8; 64])
    requires
        start + 64 <= b@.len(),
    ensures
        r@ == b@.subrange(start as int, start + 64),
{
    let mut a = [0u8; 64];
    let n = b.len();
    let mut i: usize = 0;
    while i < 64
        invariant
            i <= 64,
            start + 64 <= b@.len() == n,
            a@.len() == 64,
            forall|j: int| 0 <= j < i ==> a@[j] == b@[start + j],
        decreases 64 - i,
    {
        a[i] = b[start + i];
        i = i + 1;
    }
    assert(a@ =~= b@.subrange(start as int, start + 64));
    a
}

/// A number below 2^128 has no high half.
pub proof fn lemma_low_half(v: U256, bound: nat)
    requires
        v@ < bound,
        bound <= two_128(),
    ensures
        v.hi == 0,
        v.lo == v@,
{
    let h = v.hi as nat;
    assert(h > 0 ==> h * two_128() >= two_128()) by (nonlinear_arith);
    assert(h == 0 ==> h * two_128() == 0);
}

/// Reads a transaction encoded at `pos` that ends by `limit`; returns it and
/// where its encoding ends.
fn parse_tx(b: &[u8], pos: usize, limit: usize) -> (r: Result<(Transaction, usize), DecodeError>)
    requires
        pos <= limit <= b@.len(),
    ensures
        r matches Ok((t, end)) ==> pos < end <= limit && b@.subrange(pos as int, end as int)
            == encode_tx(t),
        pos == limit ==> r == Err::<(Transaction, usize), DecodeError>(DecodeError::Truncated),
        pos < limit && bad_header_byte(b@[pos as int]) ==> r == Err::<(Transaction, usize), DecodeError>(
            DecodeError::MalformedHeader,
        ),
        forall|p: Seq<u8>| #[trigger]
            encoded_at(b@, pos as int, limit as int, false, p) ==> r == Err::<
                (Transaction, usize),
                DecodeError,
            >(DecodeError::MalformedHeader),
        forall|t: Transaction| #[trigger]
            encoded_at(b@, pos as int, limit as int, true, tx_payload(t)) ==> r == Ok::<
                (Transaction, usize),
                DecodeError,
            >((t, (pos + encode_tx(t).len()) as usize)),
        forall|t: Transaction| #[trigger]
            cut_at(b@, pos as int, limit as int, true, tx_payload(t)) ==> r == Err::<
                (Transaction, usize),
                DecodeError,
            >(DecodeError::Truncated),
{
    proof {
        assert forall|t: Transaction| #[trigger]
            encoded_at(b@, pos as int, limit as int, true, tx_payload(t)) implies tx_fields_at(b@, pos as int, t) by {
            lemma_tx_fields(b@, pos as int, limit as int, t);
        }
    }
    let outer = match read_item(b, pos, limit) {
        Ok(it) => it,
        Err(e) => {
            return Err(e);
        },
    };
    if !outer.is_list {
        return Err(DecodeError::MalformedHeader);
    }
    let f1 = match read_item(b, outer.start, outer.end) {
        Ok(it) => it,
        Err(e) => {
            return Err(e);
        },
    };
    if f1.is_list {
        return Err(DecodeError::MalformedHeader);
    }
    if f1.end - f1.start != 20 {
        return Err(DecodeError::InvalidField);
    }
    let to = read_address(b, f1.start);
    let f2 = match read_item(b, f1.end, outer.end) {
        Ok(it) => it,
        Err(e) => {
            return Err(e);
        },
    };
    let value = match read_uint(b, f2, 32) {
        Ok(v) => v,
        Err(e) => {
            return Err(e);
        },
    };
    let f3 = match read_item(b, f2.end, outer.end) {
        Ok(it) => it,
        Err(e) => {
            return Err(e);
        },
    };
    let n = match read_uint(b, f3, 8) {
        Ok(v) => v,
        Err(e) => {
            return Err(e);
        },
    };
    if f3.end != outer.end {
        return Err(DecodeError::MalformedHeader);
    }
    proof {
        let nonce_bytes = b@.subrange(f3.start as int, f3.end as int);
        crate::uint::lemma_be_value_bound(nonce_bytes);
        lemma_pow256_values();
        crate::uint::lemma_pow256_monotonic(nonce_bytes.len(), 8);
        lemma_low_half(n, 0x1_0000_0000_0000_0000);
    }
    let t = Transaction { to, value, nonce: n.lo as u64 };
    proof {
        let bs = b@;
        crate::rlp::lemma_join(bs, outer.start as int, f1.end as int, f2.end as int);
        crate::rlp::lemma_join(bs, outer.start as int, f2.end as int, f3.end as int);
        assert(bs.subrange(outer.start as int, f3.end as int) == tx_payload(t));
        assert forall|t2: Transaction| #[trigger]
            encoded_at(b@, pos as int, limit as int, true, tx_payload(t2)) implies t2 == t by {
            lemma_u256_unique(value, t2.value);
            assert(to@ == t2.to@);
            assert(to =~= t2.to);
        }
    }
    Ok((t, f3.end))
}

/// Reads a signed transaction encoded at `pos` that ends by `limit`; returns
/// it and where its encoding ends.
fn parse_signed(b: &[u8], pos: usize, limit: usize) -> (r: Result<(SignedTransaction, usize), DecodeError>)
    requires
        pos <= limit <= b@.len(),
    ensures
        r matches Ok((s, end)) ==> pos < end <= limit && b@.subrange(pos as int, end as int)
            == encode_signed(s),
        pos == limit ==> r == Err::<(SignedTransaction, usize), DecodeError>(DecodeError::Truncated),
        pos < limit && bad_header_byte(b@[pos as int]) ==> r == Err::<(SignedTransaction, usize), DecodeError>(
            DecodeError::MalformedHeader,
        ),
        forall|p: Seq<u8>| #[trigger]
            encoded_at(b@, pos as int, limit as int, false, p) ==> r == Err::<
                (SignedTransaction, usize),
                DecodeError,
            >(DecodeError::MalformedHeader),
        forall|s: SignedTransaction| #[trigger]
            encoded_at(b@, pos as int, limit as int, true, signed_payload(s)) ==> r == Ok::<
                (SignedTransaction, usize),
                DecodeError,
            >((s, (pos + encode_signed(s).len()) as usize)),
        forall|s: SignedTransaction| #[trigger]
            cut_at(b@, pos as int, limit as int, true, signed_payload(s)) ==> r == Err::<
                (SignedTransaction, usize),
                DecodeError,
            >(DecodeError::Truncated),
{
    proof {
        assert forall|s: SignedTransaction| #[trigger]
            encoded_at(b@, pos as int, limit as int, true, signed_payload(s)) implies signed_fields_at(
            b@,
            pos as int,
            s,
        ) by {
            lemma_signed_fields(b@, pos as int, limit as int, s);
        }
    }
    let outer = match read_item(b, pos, limit) {
        Ok(it) => it,
        Err(e) => {
            return Err(e);
        },
    };
    if !outer.is_list {
        return Err(DecodeError::MalformedHeader);
    }
    let (transaction, e1) = match parse_tx(b, outer.start, outer.end) {
        Ok(x) => x,
        Err(e) => {
            return Err(e);
        },
    };
    let f2 = match read_item(b, e1, outer.end) {
        Ok(it) => it,
        Err(e) => {
            return Err(e);
        },
    };
    if f2.is_list {
        return Err(DecodeError::MalformedHeader);
    }
    if f2.end - f2.start != 64 {
        return Err(DecodeError::InvalidField);
    }
    let signature = read_signature(b, f2.start);
    let f3 = match read_item(b, f2.end, outer.end) {
        Ok(it) => it,
        Err(e) => {
            return Err(e);
        },
    };
    let k = match read_uint(b, f3, 1) {
        Ok(v) => v,
        Err(e) => {
            return Err(e);
        },
    };
    if f3.end != outer.end {
        return Err(DecodeError::MalformedHeader);
    }
    proof {
        let id_bytes = b@.subrange(f3.start as int, f3.end as int);
        crate::uint::lemma_be_value_bound(id_bytes);
        reveal_with_fuel(pow256, 2);
        crate::uint::lemma_pow256_monotonic(id_bytes.len(), 1);
        lemma_low_half(k, 256);
    }
    let s = SignedTransaction { transaction, signature, recovery_id: k.lo as u8 };
    proof {
        let bs = b@;
        crate::rlp::lemma_join(bs, outer.start as int, e1 as int, f2.end as int);
        crate::rlp::lemma_join(bs, outer.start as int, f2.end as int, f3.end as int);
        assert(bs.subrange(outer.start as int, f3.end as int) == signed_payload(s));
        assert forall|s2: SignedTransaction| #[trigger]
            encoded_at(b@, pos as int, limit as int, true, signed_payload(s2)) implies s2 == s by {
            assert(signature@ == s2.signature@);
            assert(signature =~= s2.signature);
        }
    }
    Ok((s, f3.end))
}

/// A transaction's hash, and a signed transaction's identity hash, depend on
/// the value alone: equal values have equal hashes, whenever and wherever
/// they are computed.
pub proof fn lemma_hash_deterministic(s1: SignedTransaction, s2: SignedTransaction)
    requires
        s1 == s2,
    ensures
        tx_hash_of(s1.transaction) == tx_hash_of(s2.transaction),
        identity_of(s1) == identity_of(s2),
{
}

impl Transaction {
    /// The canonical encoding.
    pub fn encode(&self) -> (r: Vec<u8>)
        ensures
            r@ == encode_tx(*self),
    {
        let mut payload: Vec<u8> = Vec::new();
        push_str(&mut payload, self.to.as_slice());
        push_uint(&mut payload, &self.value);
        push_uint(&mut payload, &U256::from_u64(self.nonce));
        proof {
            lemma_tx_payload_len(*self);
        }
        let mut out: Vec<u8> = Vec::new();
        push_list(&mut out, payload.as_slice());
        out
    }

    /// Reads a transaction from exactly the bytes `b`.
    ///
    /// Succeeds exactly on the canonical encodings, with the transaction that
    /// was encoded.
    pub fn decode(b: &[u8]) -> (r: Result<Transaction, DecodeError>)
        ensures
            r matches Ok(t) ==> encode_tx(t) == b@,
            forall|t: Transaction| encode_tx(t) == b@ ==> r == Ok::<Transaction, DecodeError>(t),
            b@.len() == 0 ==> r == Err::<Transaction, DecodeError>(DecodeError::Truncated),
            b@.len() > 0 && bad_header_byte(b@[0]) ==> r == Err::<Transaction, DecodeError>(
                DecodeError::MalformedHeader,
            ),
            forall|p: Seq<u8>| #[trigger]
                encoded_at(b@, 0, b@.len() as int, false, p) ==> r == Err::<Transaction, DecodeError>(
                    DecodeError::MalformedHeader,
                ),
            forall|t: Transaction, n: int|
                0 <= n < encode_tx(t).len() && b@ == #[trigger] encode_tx(t).subrange(0, n) ==> r
                    == Err::<Transaction, DecodeError>(DecodeError::Truncated),
            forall|t: Transaction|
                b@.len() > encode_tx(t).len() && #[trigger] b@.subrange(0, encode_tx(t).len() as int)
                    == encode_tx(t) ==> r == Err::<Transaction, DecodeError>(
                    DecodeError::TrailingBytes,
                ),
    {
        let r = parse_tx(b, 0, b.len());
        proof {
            assert forall|t: Transaction| encode_tx(t) == b@ implies r == Ok::<
                (Transaction, usize),
                DecodeError,
            >((t, b@.len() as usize)) by {
                lemma_tx_payload_len(t);
                assert(b@.subrange(0, b@.len() as int) =~= b@);
                assert(encoded_at(b@, 0, b@.len() as int, true, tx_payload(t)));
            }
            assert forall|t: Transaction, n: int|
                0 <= n < encode_tx(t).len() && b@ == #[trigger] encode_tx(t).subrange(
                    0,
                    n,
                ) implies r == Err::<(Transaction, usize), DecodeError>(DecodeError::Truncated) by {
                lemma_tx_payload_len(t);
                assert(b@.subrange(0, b@.len() as int) =~= b@);
                assert(cut_at(b@, 0, b@.len() as int, true, tx_payload(t)));
            }
            assert forall|t: Transaction|
                b@.len() > encode_tx(t).len() && #[trigger] b@.subrange(
                    0,
                    encode_tx(t).len() as int,
                ) == encode_tx(t) implies r == Ok::<(Transaction, usize), DecodeError>(
                (t, encode_tx(t).len() as usize),
            ) by {
                lemma_tx_payload_len(t);
                assert(encoded_at(b@, 0, b@.len() as int, true, tx_payload(t)));
            }
            if b@.len() == 0 {
                assert(r is Err);
            }
        }
        match r {
            Ok((t, end)) => {
                if end != b.len() {
                    Err(DecodeError::TrailingBytes)
                } else {
                    proof {
                        assert(b@.subrange(0, b@.len() as int) =~= b@);
                    }
                    Ok(t)
                }
            },
            Err(e) => Err(e),
        }
    }

    /// The transaction's hash: the digest of its encoding.
    pub fn hash(self) -> (r: H256)
        ensures
            r@ == tx_hash_of(self),
    {
        let bytes = self.encode();
        keccak(bytes.as_slice())
    }
}

impl SignedTransaction {
    /// The canonical encoding.
    pub fn encode(&self) -> (r: Vec<u8>)
        ensures
            r@ == encode_signed(*self),
    {
        let mut payload = self.transaction.encode();
        push_str(&mut payload, self.signature.as_slice());
        push_uint(&mut payload, &U256::from_u64(self.recovery_id as u64));
        proof {
            lemma_signed_payload_len(*self);
        }
        let mut out: Vec<u8> = Vec::new();
        push_list(&mut out, payload.as_slice());
        out
    }

    /// Reads a signed transaction from exactly the bytes `b`.
    ///
    /// Succeeds exactly on the canonical encodings, with the signed
    /// transaction that was encoded.
    pub fn decode(b: &[u8]) -> (r: Result<SignedTransaction, DecodeError>)
        ensures
            r matches Ok(s) ==> encode_signed(s) == b@,
            forall|s: SignedTransaction| encode_signed(s) == b@ ==> r == Ok::<
                SignedTransaction,
                DecodeError,
            >(s),
            b@.len() == 0 ==> r == Err::<SignedTransaction, DecodeError>(DecodeError::Truncated),
            b@.len() > 0 && bad_header_byte(b@[0]) ==> r == Err::<SignedTransaction, DecodeError>(
                DecodeError::MalformedHeader,
            ),
            forall|p: Seq<u8>| #[trigger]
                encoded_at(b@, 0, b@.len() as int, false, p) ==> r == Err::<SignedTransaction, DecodeError>(
                    DecodeError::MalformedHeader,
                ),
            forall|s: SignedTransaction, n: int|
                0 <= n < encode_signed(s).len() && b@ == #[trigger] encode_signed(s).subrange(0, n)
                    ==> r == Err::<SignedTransaction, DecodeError>(DecodeError::Truncated),
            forall|s: SignedTransaction|
                b@.len() > encode_signed(s).len() && #[trigger] b@.subrange(
                    0,
                    encode_signed(s).len() as int,
                ) == encode_signed(s) ==> r == Err::<SignedTransaction, DecodeError>(
                    DecodeError::TrailingBytes,
                ),
    {
        let r = parse_signed(b, 0, b.len());
        proof {
            assert forall|s: SignedTransaction| encode_signed(s) == b@ implies r == Ok::<
                (SignedTransaction, usize),
                DecodeError,
            >((s, b@.len() as usize)) by {
                lemma_signed_payload_len(s);
                assert(b@.subrange(0, b@.len() as int) =~= b@);
                assert(encoded_at(b@, 0, b@.len() as int, true, signed_payload(s)));
            }
            assert forall|s: SignedTransaction, n: int|
                0 <= n < encode_signed(s).len() && b@ == #[trigger] encode_signed(s).subrange(
                    0,
                    n,
                ) implies r == Err::<(SignedTransaction, usize), DecodeError>(
                DecodeError::Truncated,
            ) by {
                lemma_signed_payload_len(s);
                assert(b@.subrange(0, b@.len() as int) =~= b@);
                assert(cut_at(b@, 0, b@.len() as int, true, signed_payload(s)));
            }
            assert forall|s: SignedTransaction|
                b@.len() > encode_signed(s).len() && #[trigger] b@.subrange(
                    0,
                    encode_signed(s).len() as int,
                ) == encode_signed(s) implies r == Ok::<(SignedTransaction, usize), DecodeError>(
                (s, encode_signed(s).len() as usize),
            ) by {
                lemma_signed_payload_len(s);
                assert(encoded_at(b@, 0, b@.len() as int, true, signed_payload(s)));
            }
        }
        match r {
            Ok((s, end)) => {
                if end != b.len() {
                    Err(DecodeError::TrailingBytes)
                } else {
                    proof {
                        assert(b@.subrange(0, b@.len() as int) =~= b@);
                    }
                    Ok(s)
                }
            },
            Err(e) => Err(e),
        }
    }

    /// The identity hash: the digest of the transaction hash, the signature
    /// bytes and the recovery byte.
    pub fn identity_hash(&self) -> (r: H256)
        ensures
            r@ == identity_of(*self),
    {
        let h = self.transaction.hash();
        let mut data: Vec<u8> = Vec::new();
        crate::rlp::push_all(&mut data, h.as_slice());
        crate::rlp::push_all(&mut data, self.signature.as_slice());
        data.push(self.recovery_id);
        proof {
            assert(data@ =~= tx_hash_of(self.transaction) + self.signature@ + seq![self.recovery_id]);
        }
        keccak(data.as_slice())
    }

    /// The address that signed the transaction, recovered from the signature
    /// over the transaction hash.
    ///
    /// Fails where the recovery id is neither 0 nor 1 or recovery fails.
    pub fn recover_sender(&self) -> (r: Result<Address, AuthError>)
        ensures
            r is Ok <==> sender_of(*self) is Some,
            r matches Ok(a) ==> sender_of(*self) == Some(a@),
            r matches Err(e) ==> e == AuthError::InvalidSignature,
    {
        if self.recovery_id > 1 {
            return Err(AuthError::InvalidSignature);
        }
        let h = self.transaction.hash();
        match recover_key(&h, &self.signature, self.recovery_id) {
            Some(k) => Ok(address_from_key(k.as_slice())),
            None => Err(AuthError::InvalidSignature),
        }
    }
}

} // verus!
