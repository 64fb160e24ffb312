//! The structured value ("noun") exchanged with the host process: an atom
//! (an arbitrary-precision unsigned integer carried as little-endian bytes,
//! also readable as raw bytes or UTF-8 text) or an ordered pair of two
//! values. Lists are right-nested pairs ended by the zero atom.
use vstd::prelude::*;

verus! {

/// The mathematical form of a structured value.
pub enum Val {
    Atom(Seq<u8>),
    Cell(Box<Val>, Box<Val>),
}

/// A structured value: either an atom or an ordered pair of two values.
#[derive(Debug)]
pub enum Noun {
    Atom(Vec<u8>),
    Cell(Box<Noun>, Box<Noun>),
}

pub open spec fn noun_val(n: Noun) -> Val
    decreases n,
{
    match n {
        Noun::Atom(b) => Val::Atom(b@),
        Noun::Cell(h, t) => Val::Cell(Box::new(noun_val(*h)), Box::new(noun_val(*t))),
    }
}

impl View for Noun {
    type V = Val;

    open spec fn view(&self) -> Val {
        noun_val(*self)
    }
}

/// The unsigned integer held by a little-endian byte sequence.
pub open spec fn le_val(s: Seq<u8>) -> nat
    decreases s.len(),
{
    if s.len() == 0 {
        0
    } else {
        (s[0] as nat) + 256 * le_val(s.subrange(1, s.len() as int))
    }
}

/// The shortest little-endian byte sequence holding the given integer.
pub open spec fn nat_to_le(n: nat) -> Seq<u8>
    decreases n,
{
    if n == 0 {
        Seq::empty()
    } else {
        seq![(n % 256) as u8] + nat_to_le(n / 256)
    }
}

pub open spec fn pow256(k: nat) -> nat
    decreases k,
{
    if k == 0 {
        1
    } else {
        256 * pow256((k - 1) as nat)
    }
}

pub proof fn lemma_le_val_of_nat_to_le(n: nat)
    ensures
        le_val(nat_to_le(n)) == n,
    decreases n,
{
    if n > 0 {
        lemma_le_val_of_nat_to_le(n / 256);
        let s = seq![(n % 256) as u8] + nat_to_le(n / 256);
        assert(s.subrange(1, s.len() as int) =~= nat_to_le(n / 256));
        assert(s[0] == (n % 256) as u8);
    }
}

pub proof fn lemma_nat_to_le_len(n: nat, k: nat)
    requires
        n < pow256(k),
    ensures
        nat_to_le(n).len() <= k,
    decreases k,
{
    if n > 0 {
        assert(k > 0);
        assert(n / 256 < pow256((k - 1) as nat)) by {
            assert(pow256(k) == 256 * pow256((k - 1) as nat));
        };
        lemma_nat_to_le_len(n / 256, (k - 1) as nat);
    }
}

pub proof fn lemma_pow256_7()
    ensures
        pow256(7) == 0x100_0000_0000_0000,
{
    assert(pow256(0) == 1);
    assert(pow256(1) == 256);
    assert(pow256(2) == 0x1_0000);
    assert(pow256(3) == 0x100_0000);
    assert(pow256(4) == 0x1_0000_0000);
    assert(pow256(5) == 0x100_0000_0000);
    assert(pow256(6) == 0x1_0000_0000_0000);
    assert(pow256(7) == 0x100_0000_0000_0000);
}

/// `pow256(8)` is one beyond `u64::MAX`.
pub proof fn lemma_pow256_8()
    ensures
        pow256(8) == 0x1_0000_0000_0000_0000,
{
    lemma_pow256_7();
    assert(pow256(8) == 256 * pow256(7));
}

/// The integer read from an atom's bytes, when it fits an unsigned
/// 64-bit integer; atoms wider than eight bytes are rejected.
pub open spec fn atom_as_u64(s: Seq<u8>) -> Option<u64> {
    if s.len() <= 8 {
        Some(le_val(s) as u64)
    } else {
        None
    }
}

impl Noun {
    /// An atom holding the given bytes.
    pub fn atom(data: Vec<u8>) -> (r: Noun)
        ensures
            r@ == Val::Atom(data@),
    {
        Noun::Atom(data)
    }

    /// An atom holding the given integer, in its shortest form.
    pub fn atom_u64(n: u64) -> (r: Noun)
        ensures
            r@ == Val::Atom(nat_to_le(n as nat)),
    {
        let mut data: Vec<u8> = Vec::new();
        let mut rest: u64 = n;
        while rest > 0
            invariant
                nat_to_le(n as nat) == data@ + nat_to_le(rest as nat),
            decreases rest,
        {
            proof {
                assert(nat_to_le(rest as nat) == seq![(rest as nat % 256) as u8] + nat_to_le(
                    rest as nat / 256,
                ));
            }
            data.push((rest % 256) as u8);
            rest = rest / 256;
            proof {
                assert(nat_to_le(n as nat) =~= data@ + nat_to_le(rest as nat));
            }
        }
        proof {
            assert(nat_to_le(n as nat) =~= data@);
        }
        Noun::Atom(data)
    }

    /// A pair of two values.
    pub fn cell(head: Noun, tail: Noun) -> (r: Noun)
        ensures
            r@ == Val::Cell(Box::new(head@), Box::new(tail@)),
    {
        Noun::Cell(Box::new(head), Box::new(tail))
    }

    /// The integer this atom holds, if this is an atom no wider than
    /// eight bytes.
    pub fn as_u64(&self) -> (r: Option<u64>)
        ensures
            r == (match self@ {
                Val::Atom(s) => atom_as_u64(s),
                Val::Cell(_, _) => None::<u64>,
            }),
    {
        match self {
            Noun::Atom(data) => {
                if data.len() <= 8 {
                    Some(le_bytes_to_u64(data))
                } else {
                    None
                }
            },
            Noun::Cell(_, _) => None,
        }
    }

    /// Structural equality of two values.
    pub fn deep_eq(&self, other: &Noun) -> (r: bool)
        ensures
            r == (self@ == other@),
        decreases self,
    {
        match (self, other) {
            (Noun::Atom(a), Noun::Atom(b)) => bytes_eq(a, b),
            (Noun::Cell(h1, t1), Noun::Cell(h2, t2)) => {
                let heads = h1.deep_eq(h2);
                if heads {
                    t1.deep_eq(t2)
                } else {
                    false
                }
            },
            _ => false,
        }
    }
}

pub proof fn lemma_pow256_mono(a: nat, b: nat)
    requires
        a <= b,
    ensures
        pow256(a) <= pow256(b),
    decreases b,
{
    if a < b && b > 0 {
        lemma_pow256_mono(a, (b - 1) as nat);
        assert(pow256(b) == 256 * pow256((b - 1) as nat));
    }
}

/// The unsigned 64-bit integer held by at most eight little-endian bytes.
pub fn le_bytes_to_u64(data: &Vec<u8>) -> (r: u64)
    requires
        data@.len() <= 8,
    ensures
        r == le_val(data@),
{
    let mut acc: u64 = 0;
    let mut i: usize = data.len();
    proof {
        assert(data@.subrange(data@.len() as int, data@.len() as int) =~= Seq::<u8>::empty());
    }
    while i > 0
        invariant
            i <= data.len() <= 8,
            acc == le_val(data@.subrange(i as int, data@.len() as int)),
            acc < pow256((data@.len() - i) as nat),
        decreases i,
    {
        proof {
            let cur = data@.subrange(i - 1, data@.len() as int);
            assert(cur.subrange(1, cur.len() as int) =~= data@.subrange(
                i as int,
                data@.len() as int,
            ));
            lemma_pow256_mono((data@.len() - i) as nat, 7);
            lemma_pow256_7();
            assert(pow256((data@.len() - i + 1) as nat) == 256 * pow256((data@.len() - i) as nat));
        }
        i = i - 1;
        acc = data[i] as u64 + 256 * acc;
    }
    proof {
        assert(data@.subrange(0, data@.len() as int) =~= data@);
    }
    acc
}

/// Byte-for-byte equality of two byte vectors.
pub fn bytes_eq(a: &Vec<u8>, b: &Vec<u8>) -> (r: bool)
    ensures
        r == (a@ == b@),
{
    if a.len() != b.len() {
        return false;
    }
    let mut i: usize = 0;
    while i < a.len()
        invariant
            i <= a.len(),
            a.len() == b.len(),
            forall|j: int| 0 <= j < i ==> a@[j] == b@[j],
        decreases a.len() - i,
    {
        if a[i] != b[i] {
            return false;
        }
        i = i + 1;
    }
    proof {
        assert(a@ =~= b@);
    }
    true
}

/// A copy of a byte vector.
pub fn clone_bytes(v: &Vec<u8>) -> (r: Vec<u8>)
    ensures
        r@ == v@,
{
    let mut r: Vec<u8> = Vec::new();
    let mut i: usize = 0;
    while i < v.len()
        invariant
            i <= v.len(),
            r@ == v@.subrange(0, i as int),
        decreases v.len() - i,
    {
        r.push(v[i]);
        proof {
            assert(v@.subrange(0, i + 1) =~= v@.subrange(0, i as int).push(v@[i as int]));
        }
        i = i + 1;
    }
    proof {
        assert(v@.subrange(0, v@.len() as int) =~= v@);
    }
    r
}

} // verus!

verus! {

/// The serialized form of a structured value on this channel: an atom
/// is a zero byte, an 8-byte little-endian length and the atom's
/// bytes; a pair is a one byte followed by both halves in order.
pub open spec fn spec_noun_bytes(v: Val) -> Seq<u8>
    decreases v,
{
    match v {
        Val::Atom(b) => seq![0u8] + vstd::bytes::spec_u64_to_le_bytes(b.len() as u64) + b,
        Val::Cell(h, t) => seq![1u8] + spec_noun_bytes(*h) + spec_noun_bytes(*t),
    }
}

/// Serialize a structured value.
pub fn noun_to_bytes(n: &Noun) -> (out: Vec<u8>)
    ensures
        out@ == spec_noun_bytes(n@),
    decreases n,
{
    match n {
        Noun::Atom(b) => {
            let mut out: Vec<u8> = Vec::new();
            out.push(0u8);
            let mut l = vstd::bytes::u64_to_le_bytes(b.len() as u64);
            out.append(&mut l);
            let mut d = clone_bytes(b);
            out.append(&mut d);
            proof {
                assert(out@ =~= spec_noun_bytes(n@));
            }
            out
        },
        Noun::Cell(h, t) => {
            let mut out: Vec<u8> = Vec::new();
            out.push(1u8);
            let mut hb = noun_to_bytes(h);
            out.append(&mut hb);
            let mut tb = noun_to_bytes(t);
            out.append(&mut tb);
            proof {
                assert(out@ =~= spec_noun_bytes(n@));
            }
            out
        },
    }
}

/// One structured value read off the front of a byte sequence, with
/// how many bytes it took; `None` on any malformed prefix.
pub open spec fn spec_noun_from(s: Seq<u8>) -> Option<(Val, int)>
    decreases s.len(),
{
    if s.len() < 1 {
        None
    } else if s[0] == 0 {
        if s.len() < 9 {
            None
        } else {
            let len = vstd::bytes::spec_u64_from_le_bytes(s.subrange(1, 9)) as int;
            if s.len() < 9 + len {
                None
            } else {
                Some((Val::Atom(s.subrange(9, 9 + len)), 9 + len))
            }
        }
    } else if s[0] == 1 {
        match spec_noun_from(s.subrange(1, s.len() as int)) {
            None => None,
            Some(h) => if h.1 < 1 || h.1 > s.len() - 1 {
                None
            } else {
                match spec_noun_from(s.subrange(1 + h.1, s.len() as int)) {
                    None => None,
                    Some(t) => Some((Val::Cell(Box::new(h.0), Box::new(t.0)), 1 + h.1 + t.1)),
                }
            },
        }
    } else {
        None
    }
}

fn decode_noun_rec(s: &[u8]) -> (r: Option<(Noun, usize)>)
    ensures
        spec_noun_from(s@) matches Some(p) ==> (r matches Some(x) && x.0@ == p.0 && x.1 == p.1
            && 1 <= x.1 <= s@.len()),
        spec_noun_from(s@) is None ==> r is None,
    decreases s@.len(),
{
    if s.len() < 1 {
        return None;
    }
    let tag = *vstd::slice::slice_index_get(s, 0);
    if tag == 0 {
        if s.len() < 9 {
            return None;
        }
        let len64 = vstd::bytes::u64_from_le_bytes(vstd::slice::slice_subrange(s, 1, 9));
        if ((s.len() - 9) as u64) < len64 {
            return None;
        }
        let len = len64 as usize;
        let data = vstd::slice::slice_to_vec(vstd::slice::slice_subrange(s, 9, 9 + len));
        Some((Noun::Atom(data), 9 + len))
    } else if tag == 1 {
        let (h, c1) = match decode_noun_rec(vstd::slice::slice_subrange(s, 1, s.len())) {
            Some(x) => x,
            None => {
                return None;
            },
        };
        let (t, c2) = match decode_noun_rec(vstd::slice::slice_subrange(s, 1 + c1, s.len())) {
            Some(x) => x,
            None => {
                return None;
            },
        };
        Some((Noun::Cell(Box::new(h), Box::new(t)), 1 + c1 + c2))
    } else {
        None
    }
}

/// A whole payload read as one structured value; `None` when the
/// bytes are malformed or not fully consumed.
pub open spec fn spec_noun_decode(s: Seq<u8>) -> Option<Val> {
    match spec_noun_from(s) {
        Some(p) => if p.1 == s.len() {
            Some(p.0)
        } else {
            None
        },
        None => None,
    }
}

/// Deserialize a payload into a structured value.
pub fn noun_from_bytes(s: &[u8]) -> (r: Option<Noun>)
    ensures
        spec_noun_decode(s@) matches Some(v) ==> (r matches Some(n) && n@ == v),
        spec_noun_decode(s@) is None ==> r is None,
{
    match decode_noun_rec(s) {
        Some((n, used)) => {
            if used == s.len() {
                Some(n)
            } else {
                None
            }
        },
        None => None,
    }
}

} // verus!

verus! {

/// Round trip of the payload serialization: a serialized value decodes
/// back to itself, whatever bytes follow it. Lengths stay within an
/// unsigned 64-bit integer because every atom held in memory does.
pub proof fn lemma_noun_bytes_round_trip(v: Val, rest: Seq<u8>)
    requires
        noun_fits(v),
    ensures
        spec_noun_from(spec_noun_bytes(v) + rest) == Some(
            (v, spec_noun_bytes(v).len() as int),
        ),
    decreases v,
{
    vstd::bytes::lemma_auto_spec_u64_to_from_le_bytes();
    let s = spec_noun_bytes(v) + rest;
    match v {
        Val::Atom(b) => {
            let hdr = vstd::bytes::spec_u64_to_le_bytes(b.len() as u64);
            assert(s =~= seq![0u8] + hdr + b + rest);
            assert(s[0] == 0);
            assert(s.subrange(1, 9) =~= hdr);
            assert(s.subrange(9, 9 + b.len() as int) =~= b);
        },
        Val::Cell(h, t) => {
            let hb = spec_noun_bytes(*h);
            let tb = spec_noun_bytes(*t);
            assert(s =~= seq![1u8] + hb + tb + rest);
            assert(s[0] == 1);
            assert(s.subrange(1, s.len() as int) =~= hb + (tb + rest));
            lemma_noun_bytes_round_trip(*h, tb + rest);
            lemma_noun_bytes_len(*h);
            assert(s.subrange(1 + hb.len() as int, s.len() as int) =~= tb + rest);
            lemma_noun_bytes_round_trip(*t, rest);
        },
    }
}

/// A whole serialized value decodes back to itself.
pub proof fn lemma_noun_decode_round_trip(v: Val)
    requires
        noun_fits(v),
    ensures
        spec_noun_decode(spec_noun_bytes(v)) == Some(v),
{
    lemma_noun_bytes_round_trip(v, Seq::empty());
    assert(spec_noun_bytes(v) + Seq::empty() =~= spec_noun_bytes(v));
}

/// A serialized value is never empty.
pub proof fn lemma_noun_bytes_len(v: Val)
    ensures
        spec_noun_bytes(v).len() >= 1,
{
    vstd::bytes::lemma_auto_spec_u64_to_from_le_bytes();
}

/// Every atom of the value is small enough for its length to be
/// serialized exactly.
pub open spec fn noun_fits(v: Val) -> bool
    decreases v,
{
    match v {
        Val::Atom(b) => b.len() < 0x1_0000_0000_0000_0000,
        Val::Cell(h, t) => noun_fits(*h) && noun_fits(*t),
    }
}

} // verus!
