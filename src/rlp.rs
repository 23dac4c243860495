//! The length-prefixed wire format (RLP), restricted to payloads shorter than
//! 256 bytes: a header is one byte, or two where the payload exceeds 55 bytes.
use vstd::prelude::*;
use crate::uint::{U256, be_value, min_be, is_minimal, lemma_minimal_canonical, lemma_min_be_len_u256, lemma_u256_bound};

verus! {

/// Why a byte string is not a well-formed encoding.
#[derive(Clone, Copy, Debug, PartialEq, Eq, Structural)]
pub enum DecodeError {
    /// The input ends before an item that it announces.
    Truncated,
    /// A header byte is not the canonical one for its payload, or announces a
    /// length this format never uses, or names the wrong kind of item.
    MalformedHeader,
    /// Bytes follow the outermost item.
    TrailingBytes,
    /// A field holds a value of the wrong size or a non-minimal integer.
    InvalidField,
}

/// The encoding of a byte string.
pub open spec fn rlp_str(s: Seq<u8>) -> Seq<u8> {
    if s.len() == 1 && s[0] < 0x80 {
        s
    } else if s.len() <= 55 {
        seq![(0x80 + s.len()) as u8] + s
    } else {
        seq![0xb8u8, s.len() as u8] + s
    }
}

/// The encoding of a list whose items, already encoded, are `p`.
pub open spec fn rlp_list(p: Seq<u8>) -> Seq<u8> {
    if p.len() <= 55 {
        seq![(0xc0 + p.len()) as u8] + p
    } else {
        seq![0xf8u8, p.len() as u8] + p
    }
}

pub open spec fn rlp_item(is_list: bool, p: Seq<u8>) -> Seq<u8> {
    if is_list {
        rlp_list(p)
    } else {
        rlp_str(p)
    }
}

/// A first header byte that this format never uses: a length of length
/// above one byte.
pub open spec fn bad_header_byte(h: u8) -> bool {
    (0xb9 <= h && h < 0xc0) || h >= 0xf9
}

/// Where an item found by `read_item` keeps its payload.
#[derive(Clone, Copy, Debug, PartialEq, Eq, Structural)]
pub struct Item {
    pub is_list: bool,
    pub start: usize,
    pub end: usize,
}

/// The item that `read_item` owes when an encoding of `p` stands at `pos`.
pub open spec fn found(is_list: bool, p: Seq<u8>, pos: int) -> Item {
    let e = rlp_item(is_list, p).len() as int;
    Item { is_list, start: (pos + e - p.len()) as usize, end: (pos + e) as usize }
}

/// An encoding of `p` stands at `pos` in `b`, and ends by `limit`.
pub open spec fn encoded_at(b: Seq<u8>, pos: int, limit: int, is_list: bool, p: Seq<u8>) -> bool {
    let e = rlp_item(is_list, p).len() as int;
    &&& p.len() < 256
    &&& pos + e <= limit
    &&& b.subrange(pos, pos + e) == rlp_item(is_list, p)
}

/// The bytes from `pos` to `limit` are a proper beginning of an encoding of `p`.
pub open spec fn cut_at(b: Seq<u8>, pos: int, limit: int, is_list: bool, p: Seq<u8>) -> bool {
    let e = rlp_item(is_list, p).len() as int;
    &&& p.len() < 256
    &&& limit < pos + e
    &&& b.subrange(pos, limit) == rlp_item(is_list, p).subrange(0, limit - pos)
}

/// Appends the encoding of the byte string `s`.
pub fn push_str(out: &mut Vec<u8>, s: &[u8])
    requires
        s@.len() < 256,
    ensures
        final(out)@ == old(out)@ + rlp_str(s@),
{
    let n = s.len();
    if n == 1 && s[0] < 0x80 {
        out.push(s[0]);
    } else if n <= 55 {
        out.push((0x80 + n) as u8);
        push_all(out, s);
    } else {
        out.push(0xb8u8);
        out.push(n as u8);
        push_all(out, s);
    }
    proof {
        if n == 1 && s@[0] < 0x80 {
            assert(s@ =~= seq![s@[0]]);
        }
    }
    assert(final(out)@ =~= old(out)@ + rlp_str(s@));
}

/// Appends the encoding of a list whose items, already encoded, are `payload`.
pub fn push_list(out: &mut Vec<u8>, payload: &[u8])
    requires
        payload@.len() < 256,
    ensures
        final(out)@ == old(out)@ + rlp_list(payload@),
{
    let n = payload.len();
    if n <= 55 {
        out.push((0xc0 + n) as u8);
    } else {
        out.push(0xf8u8);
        out.push(n as u8);
    }
    push_all(out, payload);
    assert(final(out)@ =~= old(out)@ + rlp_list(payload@));
}

/// Appends every byte of `s`.
pub fn push_all(out: &mut Vec<u8>, s: &[u8])
    ensures
        final(out)@ == old(out)@ + s@,
{
    let ghost start = out@;
    let mut i: usize = 0;
    while i < s.len()
        invariant
            i <= s@.len(),
            out@ == start + s@.subrange(0, i as int),
        decreases s@.len() - i,
    {
        out.push(s[i]);
        i = i + 1;
        assert(out@ =~= start + s@.subrange(0, i as int));
    }
    assert(s@.subrange(0, s@.len() as int) =~= s@);
}

/// What the header bytes of an encoding of `p` at `pos` are.
pub proof fn lemma_encoded_at(b: Seq<u8>, pos: int, limit: int, l: bool, p: Seq<u8>)
    requires
        0 <= pos,
        limit <= b.len(),
        limit <= usize::MAX,
        encoded_at(b, pos, limit, l, p),
    ensures
        ({
            let f = found(l, p, pos);
            &&& b.subrange(f.start as int, f.end as int) == p
            &&& f.start == pos + rlp_item(l, p).len() - p.len()
            &&& f.end == pos + rlp_item(l, p).len()
        }),
        !l && p.len() == 1 && p[0] < 0x80 ==> b[pos] == p[0] && rlp_item(l, p).len() == 1,
        !(!l && p.len() == 1 && p[0] < 0x80) && p.len() <= 55 ==> {
            &&& b[pos] == (if l { 0xc0 + p.len() } else { 0x80 + p.len() })
            &&& rlp_item(l, p).len() == p.len() + 1
            &&& (!l && p.len() == 1 ==> b[pos + 1] == p[0])
        },
        p.len() > 55 ==> {
            &&& b[pos] == (if l { 0xf8u8 } else { 0xb8u8 })
            &&& b[pos + 1] == p.len()
            &&& rlp_item(l, p).len() == p.len() + 2
        },
{
    let e = rlp_item(l, p);
    let w = b.subrange(pos, pos + e.len());
    assert(w[0] == b[pos]);
    if e.len() > 1 {
        assert(w[1] == b[pos + 1]);
    }
    let f = found(l, p, pos);
    let hl = e.len() - p.len();
    assert(e.subrange(hl as int, e.len() as int) =~= p);
    assert(b.subrange(f.start as int, f.end as int) =~= w.subrange(hl as int, e.len() as int));
}

/// What the header bytes of a cut encoding of `p` at `pos` are.
pub proof fn lemma_cut_at(b: Seq<u8>, pos: int, limit: int, l: bool, p: Seq<u8>)
    requires
        0 <= pos <= limit,
        limit <= b.len(),
        cut_at(b, pos, limit, l, p),
    ensures
        pos < limit ==> !(!l && p.len() == 1 && p[0] < 0x80),
        pos < limit && p.len() <= 55 ==> {
            &&& b[pos] == (if l { 0xc0 + p.len() } else { 0x80 + p.len() })
            &&& limit < pos + 1 + p.len()
        },
        pos < limit && p.len() > 55 ==> {
            &&& b[pos] == (if l { 0xf8u8 } else { 0xb8u8 })
            &&& (pos + 1 < limit ==> b[pos + 1] == p.len())
            &&& limit < pos + 2 + p.len()
        },
{
    let e = rlp_item(l, p);
    let c = b.subrange(pos, limit);
    if pos < limit {
        assert(c[0] == b[pos]);
        if pos + 1 < limit {
            assert(c[1] == b[pos + 1]);
        }
    }
}

/// Reads the header of the item at `pos`, which must end by `limit`.
///
/// Finds exactly the canonical encodings: where one stands at `pos` it is
/// found, and what is found is one.
pub fn read_item(b: &[u8], pos: usize, limit: usize) -> (r: Result<Item, DecodeError>)
    requires
        pos <= limit <= b@.len(),
    ensures
        r matches Ok(it) ==> {
            &&& pos <= it.start <= it.end <= limit
            &&& pos < it.end
            &&& it.end - it.start < 256
            &&& b@.subrange(pos as int, it.end as int) == rlp_item(
                it.is_list,
                b@.subrange(it.start as int, it.end as int),
            )
        },
        pos == limit ==> r == Err::<Item, DecodeError>(DecodeError::Truncated),
        pos < limit && bad_header_byte(b@[pos as int]) ==> r == Err::<Item, DecodeError>(
            DecodeError::MalformedHeader,
        ),
        forall|l: bool, p: Seq<u8>| #[trigger]
            encoded_at(b@, pos as int, limit as int, l, p) ==> r == Ok::<Item, DecodeError>(found(l, p, pos as int)),
        forall|l: bool, p: Seq<u8>| #[trigger]
            cut_at(b@, pos as int, limit as int, l, p) ==> r == Err::<Item, DecodeError>(
                DecodeError::Truncated,
            ),
{
    let r = if pos >= limit {
        Err(DecodeError::Truncated)
    } else {
        let h = b[pos];
        if h < 0x80 {
            Ok(Item { is_list: false, start: pos, end: pos + 1 })
        } else if h <= 0xb7 || (0xc0 <= h && h <= 0xf7) {
            let is_list = h >= 0xc0;
            let len = if is_list {
                (h - 0xc0) as usize
            } else {
                (h - 0x80) as usize
            };
            let start = pos + 1;
            if len > limit - start {
                Err(DecodeError::Truncated)
            } else if !is_list && len == 1 && b[start] < 0x80 {
                Err(DecodeError::MalformedHeader)
            } else {
                Ok(Item { is_list, start, end: start + len })
            }
        } else if h == 0xb8 || h == 0xf8 {
            if pos + 1 >= limit {
                Err(DecodeError::Truncated)
            } else {
                let len = b[pos + 1] as usize;
                let start = pos + 2;
                if len <= 55 {
                    Err(DecodeError::MalformedHeader)
                } else if len > limit - start {
                    Err(DecodeError::Truncated)
                } else {
                    Ok(Item { is_list: h == 0xf8, start, end: start + len })
                }
            }
        } else {
            Err(DecodeError::MalformedHeader)
        }
    };
    proof {
        if let Ok(it) = r {
            let p = b@.subrange(it.start as int, it.end as int);
            assert(b@.subrange(pos as int, it.end as int) =~= rlp_item(it.is_list, p));
        }
        assert forall|l: bool, p: Seq<u8>| #[trigger]
            encoded_at(b@, pos as int, limit as int, l, p) implies r == Ok::<Item, DecodeError>(
                found(l, p, pos as int),
            ) by {
            lemma_encoded_at(b@, pos as int, limit as int, l, p);
        }
        assert forall|l: bool, p: Seq<u8>| #[trigger]
            cut_at(b@, pos as int, limit as int, l, p) implies r == Err::<Item, DecodeError>(
                DecodeError::Truncated,
            ) by {
            lemma_cut_at(b@, pos as int, limit as int, l, p);
        }
    }
    r
}

/// A stretch of `b` that is `a + c` splits where `a` ends.
pub proof fn lemma_split(b: Seq<u8>, x: int, y: int, a: Seq<u8>, c: Seq<u8>)
    requires
        0 <= x <= y <= b.len(),
        b.subrange(x, y) == a + c,
    ensures
        b.subrange(x, x + a.len()) == a,
        b.subrange(x + a.len(), y) == c,
{
    assert(b.subrange(x, y).len() == y - x);
    assert((a + c).len() == a.len() + c.len());
    assert(b.subrange(x, x + a.len()) =~= (a + c).subrange(0, a.len() as int));
    assert(b.subrange(x + a.len(), y) =~= (a + c).subrange(a.len() as int, (a + c).len() as int));
}

/// Two adjacent stretches of `b` join into one.
pub proof fn lemma_join(b: Seq<u8>, x: int, m: int, y: int)
    requires
        0 <= x <= m <= y <= b.len(),
    ensures
        b.subrange(x, y) == b.subrange(x, m) + b.subrange(m, y),
{
    assert(b.subrange(x, y) =~= b.subrange(x, m) + b.subrange(m, y));
}

/// A short string's encoding is not a proper beginning of another's: what
/// follows two equal joins of encodings is equal too.
pub proof fn lemma_str_prefix_free(x1: Seq<u8>, y1: Seq<u8>, x2: Seq<u8>, y2: Seq<u8>)
    requires
        x1.len() <= 55,
        x2.len() <= 55,
        rlp_str(x1) + y1 == rlp_str(x2) + y2,
    ensures
        x1 == x2,
        y1 == y2,
{
    let c = rlp_str(x1) + y1;
    let e1 = rlp_str(x1);
    let e2 = rlp_str(x2);
    assert(c[0] == e1[0]);
    assert(c[0] == e2[0]);
    assert(e1.len() == e2.len());
    assert(e1 =~= c.subrange(0, e1.len() as int));
    assert(e2 =~= c.subrange(0, e2.len() as int));
    assert(y1 =~= c.subrange(e1.len() as int, c.len() as int));
    assert(y2 =~= c.subrange(e2.len() as int, c.len() as int));
    if x1.len() == 1 && x1[0] < 0x80 {
        assert(x1 =~= e1);
        assert(x2 =~= e2);
    } else {
        assert(x1 =~= e1.subrange(1, e1.len() as int));
        assert(x2 =~= e2.subrange(1, e2.len() as int));
    }
}

/// Appends the encoding of the number `v`: its minimal big-endian bytes as a string.
pub fn push_uint(out: &mut Vec<u8>, v: &U256)
    ensures
        final(out)@ == old(out)@ + rlp_str(min_be(v@)),
{
    let bytes = v.to_be_min();
    proof {
        lemma_u256_bound(*v);
        lemma_min_be_len_u256(v@);
    }
    push_str(out, bytes.as_slice());
}

/// The number held by a string item of at most `max_len` bytes, written minimally.
pub fn read_uint(b: &[u8], it: Item, max_len: usize) -> (r: Result<U256, DecodeError>)
    requires
        it.start <= it.end <= b@.len(),
        max_len <= 32,
    ensures
        ({
            let p = b@.subrange(it.start as int, it.end as int);
            &&& r is Ok <==> (!it.is_list && p.len() <= max_len && is_minimal(p))
            &&& r matches Ok(v) ==> min_be(v@) == p && v@ == be_value(p)
            &&& r matches Err(e) ==> e == DecodeError::InvalidField || e == DecodeError::MalformedHeader
        }),
{
    let ghost p = b@.subrange(it.start as int, it.end as int);
    if it.is_list {
        return Err(DecodeError::MalformedHeader);
    }
    if it.end - it.start > max_len {
        return Err(DecodeError::InvalidField);
    }
    if it.end > it.start && b[it.start] == 0 {
        return Err(DecodeError::InvalidField);
    }
    let v = U256::from_be_slice(b, it.start, it.end);
    proof {
        lemma_minimal_canonical(p);
    }
    Ok(v)
}

} // verus!
