//! The HTTP client driver: translation between structured values and an
//! internal request/response form, and the in-flight request table with
//! its command handling.
//!
//! A request command is the value
//! `[req_num, method, uri, [[key, val], ...], body]`, where `body` is
//! either an atom (no body) or `[0, length, text]`. A response is
//! encoded as `[req_num, status, [[key, val], ...], body]` with the
//! same body convention. Decoding never panics: every malformed shape
//! is a distinct error.
use vstd::prelude::*;
use vstd::utf8::valid_utf8;

use crate::noun::{bytes_eq, clone_bytes, le_bytes_to_u64, le_val, nat_to_le, Noun, Val};

verus! {

/// Why a command payload could not be decoded.
#[derive(Debug, Clone, Copy, PartialEq, Eq)]
pub enum ConvertError {
    /// A list was shorter than required, the URI did not parse, or the
    /// URI has no host.
    MissingValue,
    /// An atom too wide for an unsigned 64-bit integer.
    AtomToUint,
    /// An atom that is not valid UTF-8 where text is required.
    AtomToStr,
    /// An atom where a pair was required.
    UnexpectedAtom,
    /// A pair where an atom was required.
    UnexpectedCell,
}

/// Relies on core::str::from_utf8: it returns `Ok` exactly on valid
/// UTF-8 input, with vstd's `valid_utf8` as the definition.
#[verifier::external_body]
fn check_utf8(b: &Vec<u8>) -> (r: bool)
    ensures
        r == valid_utf8(b@),
{
    core::str::from_utf8(b.as_slice()).is_ok()
}

/// The host and optional port that hyper's URI parser reads from the
/// given URI text; `None` when the text does not parse as a URI or the
/// URI has no host part. A function of the text alone.
pub uninterp spec fn uri_authority(s: Seq<u8>) -> Option<(Seq<u8>, Option<u16>)>;

/// Relies on hyper::Uri: its `FromStr` parse and its `host` and
/// `port_u16` accessors. The bytes are required to be valid UTF-8, so
/// the `&str` conversion before the parse cannot fail.
#[verifier::external_body]
fn uri_host_port(b: &Vec<u8>) -> (r: Option<(Vec<u8>, Option<u16>)>)
    requires
        valid_utf8(b@),
    ensures
        r is Some == uri_authority(b@) is Some,
        r matches Some(hp) ==> uri_authority(b@) == Some((hp.0@, hp.1)),
{
    let s = core::str::from_utf8(b.as_slice()).unwrap();
    match s.parse::<hyper::Uri>() {
        Ok(u) => match u.host() {
            Some(h) => Some((h.as_bytes().to_vec(), u.port_u16())),
            None => None,
        },
        Err(_) => None,
    }
}

/// The decimal text of an integer, as ASCII digit bytes.
pub open spec fn dec_rep(n: nat) -> Seq<u8>
    decreases n,
{
    if n < 10 {
        seq![(48 + n) as u8]
    } else {
        dec_rep(n / 10) + seq![(48 + n % 10) as u8]
    }
}

/// Format an integer as decimal text.
pub fn u64_to_dec(n: u64) -> (r: Vec<u8>)
    ensures
        r@ == dec_rep(n as nat),
    decreases n,
{
    if n < 10 {
        let mut v: Vec<u8> = Vec::new();
        v.push((48 + n) as u8);
        proof {
            assert(v@ =~= dec_rep(n as nat));
        }
        v
    } else {
        let mut v = u64_to_dec(n / 10);
        v.push((48 + n % 10) as u8);
        proof {
            assert(v@ =~= dec_rep((n / 10) as nat) + seq![(48 + (n as nat) % 10) as u8]);
        }
        v
    }
}

/// The name of the computed request-length header.
pub open spec fn content_length_name() -> Seq<u8> {
    seq![
        'C' as u8,
        'o' as u8,
        'n' as u8,
        't' as u8,
        'e' as u8,
        'n' as u8,
        't' as u8,
        '-' as u8,
        'L' as u8,
        'e' as u8,
        'n' as u8,
        'g' as u8,
        't' as u8,
        'h' as u8,
    ]
}

pub fn content_length_name_bytes() -> (r: Vec<u8>)
    ensures
        r@ == content_length_name(),
{
    let mut v: Vec<u8> = Vec::new();
    v.push('C' as u8);
    v.push('o' as u8);
    v.push('n' as u8);
    v.push('t' as u8);
    v.push('e' as u8);
    v.push('n' as u8);
    v.push('t' as u8);
    v.push('-' as u8);
    v.push('L' as u8);
    v.push('e' as u8);
    v.push('n' as u8);
    v.push('g' as u8);
    v.push('t' as u8);
    v.push('h' as u8);
    proof {
        assert(v@ =~= content_length_name());
    }
    v
}

/// The name of the computed host header.
pub open spec fn host_name() -> Seq<u8> {
    seq!['H' as u8, 'o' as u8, 's' as u8, 't' as u8]
}

pub fn host_name_bytes() -> (r: Vec<u8>)
    ensures
        r@ == host_name(),
{
    let mut v: Vec<u8> = Vec::new();
    v.push('H' as u8);
    v.push('o' as u8);
    v.push('s' as u8);
    v.push('t' as u8);
    proof {
        assert(v@ =~= host_name());
    }
    v
}

/// The value of the computed host header: the URI's host, with the
/// port appended after a colon when the URI names one.
pub open spec fn spec_host_header(host: Seq<u8>, port: Option<u16>) -> Seq<u8> {
    match port {
        Some(p) => host + seq![':' as u8] + dec_rep(p as nat),
        None => host,
    }
}

/// Build the host header value from the parsed host and port.
pub fn host_header_bytes(host: Vec<u8>, port: Option<u16>) -> (r: Vec<u8>)
    ensures
        r@ == spec_host_header(host@, port),
{
    match port {
        Some(p) => {
            let mut v = host;
            v.push(':' as u8);
            let mut d = u64_to_dec(p as u64);
            v.append(&mut d);
            v
        },
        None => host,
    }
}

/// The byte views of a sequence of header pairs.
pub open spec fn pairs_view(s: Seq<(Vec<u8>, Vec<u8>)>) -> Seq<(Seq<u8>, Seq<u8>)> {
    Seq::new(s.len(), |i: int| (s[i].0@, s[i].1@))
}

/// An HTTP request in plain form: what the driver needs to hand the
/// transport, with the computed length and host headers appended after
/// the caller's own.
#[derive(Debug)]
pub struct Request {
    pub req_num: u64,
    pub method: Vec<u8>,
    pub uri: Vec<u8>,
    pub headers: Vec<(Vec<u8>, Vec<u8>)>,
    pub body: Vec<u8>,
    pub body_len: u64,
}

/// The mathematical form of a request.
#[verifier::ext_equal]
pub struct ReqVal {
    pub req_num: u64,
    pub method: Seq<u8>,
    pub uri: Seq<u8>,
    pub headers: Seq<(Seq<u8>, Seq<u8>)>,
    pub body: Seq<u8>,
    pub body_len: u64,
}

impl View for Request {
    type V = ReqVal;

    open spec fn view(&self) -> ReqVal {
        ReqVal {
            req_num: self.req_num,
            method: self.method@,
            uri: self.uri@,
            headers: pairs_view(self.headers@),
            body: self.body@,
            body_len: self.body_len,
        }
    }
}

/// The caller's headers read off a right-nested list of pairs of text
/// atoms; the walk ends at any atom.
pub open spec fn spec_walk_headers(v: Val) -> Result<Seq<(Seq<u8>, Seq<u8>)>, ConvertError>
    decreases v,
{
    match v {
        Val::Atom(_) => Ok(Seq::empty()),
        Val::Cell(entry, rest) => match *entry {
            Val::Cell(k, val) => match (*k, *val) {
                (Val::Atom(kb), Val::Atom(vb)) => if !valid_utf8(kb) {
                    Err(ConvertError::AtomToStr)
                } else if !valid_utf8(vb) {
                    Err(ConvertError::AtomToStr)
                } else {
                    match spec_walk_headers(*rest) {
                        Ok(hs) => Ok(seq![(kb, vb)] + hs),
                        Err(e) => Err(e),
                    }
                },
                _ => Err(ConvertError::UnexpectedCell),
            },
            Val::Atom(_) => Err(ConvertError::UnexpectedAtom),
        },
    }
}

fn walk_headers(n: &Noun) -> (r: Result<Vec<(Vec<u8>, Vec<u8>)>, ConvertError>)
    ensures
        spec_walk_headers(n@) matches Ok(hs) ==> (r matches Ok(v) && pairs_view(v@) == hs),
        spec_walk_headers(n@) matches Err(e) ==> (r matches Err(e2) && e2 == e),
    decreases n,
{
    proof {
        reveal_with_fuel(crate::noun::noun_val, 4);
    }
    match n {
        Noun::Atom(_) => {
            let v: Vec<(Vec<u8>, Vec<u8>)> = Vec::new();
            proof {
                assert(pairs_view(v@) =~= Seq::<(Seq<u8>, Seq<u8>)>::empty());
            }
            Ok(v)
        },
        Noun::Cell(entry, rest) => match &**entry {
            Noun::Cell(k, val) => match (&**k, &**val) {
                (Noun::Atom(kb), Noun::Atom(vb)) => {
                    if !check_utf8(kb) {
                        Err(ConvertError::AtomToStr)
                    } else if !check_utf8(vb) {
                        Err(ConvertError::AtomToStr)
                    } else {
                        match walk_headers(rest) {
                            Ok(mut hs) => {
                                let ghost tail_pairs = hs@;
                                hs.insert(0, (clone_bytes(kb), clone_bytes(vb)));
                                proof {
                                    assert(pairs_view(hs@) =~= seq![(kb@, vb@)] + pairs_view(
                                        tail_pairs,
                                    ));
                                }
                                Ok(hs)
                            },
                            Err(e) => Err(e),
                        }
                    }
                },
                _ => Err(ConvertError::UnexpectedCell),
            },
            Noun::Atom(_) => Err(ConvertError::UnexpectedAtom),
        },
    }
}

/// The body field read off a request: an atom means no body; otherwise
/// the field must be `[x, length, text]` whose first element is passed
/// over unread.
pub open spec fn spec_body(v: Val) -> Result<(u64, Seq<u8>), ConvertError> {
    match v {
        Val::Atom(_) => Ok((0u64, Seq::<u8>::empty())),
        Val::Cell(x, rest) => match *rest {
            Val::Cell(bl, bb) => match (*bl, *bb) {
                (Val::Atom(lb), Val::Atom(bodyb)) => if lb.len() > 8 {
                    Err(ConvertError::AtomToUint)
                } else if !valid_utf8(bodyb) {
                    Err(ConvertError::AtomToStr)
                } else {
                    Ok(((le_val(lb) as u64), bodyb))
                },
                _ => Err(ConvertError::UnexpectedCell),
            },
            Val::Atom(_) => Err(ConvertError::MissingValue),
        },
    }
}

fn decode_body(n: &Noun) -> (r: Result<(u64, Vec<u8>), ConvertError>)
    ensures
        spec_body(n@) matches Ok(b) ==> (r matches Ok(x) && x.0 == b.0 && x.1@ == b.1),
        spec_body(n@) matches Err(e) ==> (r matches Err(e2) && e2 == e),
{
    proof {
        reveal_with_fuel(crate::noun::noun_val, 4);
    }
    match n {
        Noun::Atom(_) => Ok((0u64, Vec::new())),
        Noun::Cell(_x, rest) => match &**rest {
            Noun::Cell(bl, bb) => match (&**bl, &**bb) {
                (Noun::Atom(lb), Noun::Atom(bodyb)) => {
                    if lb.len() > 8 {
                        Err(ConvertError::AtomToUint)
                    } else if !check_utf8(bodyb) {
                        Err(ConvertError::AtomToStr)
                    } else {
                        Ok((le_bytes_to_u64(lb), clone_bytes(bodyb)))
                    }
                },
                _ => Err(ConvertError::UnexpectedCell),
            },
            Noun::Atom(_) => Err(ConvertError::MissingValue),
        },
    }
}

/// A request command decoded from its structured value. The value must
/// be the five-element list `[req_num, method, uri, headers, body]`;
/// `req_num` must fit an unsigned 64-bit integer; `method` and `uri`
/// must be text; the URI must parse and name a host. The computed
/// length and host headers are appended after the caller's headers.
pub open spec fn spec_decode_request(v: Val) -> Result<ReqVal, ConvertError> {
    match v {
        Val::Atom(_) => Err(ConvertError::UnexpectedCell),
        Val::Cell(n0, t1) => match *t1 {
            Val::Cell(n1, t2) => match *t2 {
                Val::Cell(n2, t3) => match *t3 {
                    Val::Cell(n3, n4) => spec_decode_fields(*n0, *n1, *n2, *n3, *n4),
                    Val::Atom(_) => Err(ConvertError::MissingValue),
                },
                Val::Atom(_) => Err(ConvertError::MissingValue),
            },
            Val::Atom(_) => Err(ConvertError::MissingValue),
        },
    }
}

pub open spec fn spec_decode_fields(n0: Val, n1: Val, n2: Val, n3: Val, n4: Val) -> Result<
    ReqVal,
    ConvertError,
> {
    if !(n0 is Atom && n1 is Atom && n2 is Atom) {
        Err(ConvertError::UnexpectedCell)
    } else {
        let rn = n0->Atom_0;
        let mb = n1->Atom_0;
        let ub = n2->Atom_0;
        if rn.len() > 8 {
            Err(ConvertError::AtomToUint)
        } else if !valid_utf8(mb) {
            Err(ConvertError::AtomToStr)
        } else if !valid_utf8(ub) {
            Err(ConvertError::AtomToStr)
        } else {
            match spec_walk_headers(n3) {
                Err(e) => Err(e),
                Ok(hs) => match spec_body(n4) {
                    Err(e) => Err(e),
                    Ok(b) => match uri_authority(ub) {
                        None => Err(ConvertError::MissingValue),
                        Some(hp) => Ok(
                            ReqVal {
                                req_num: (le_val(rn) as u64),
                                method: mb,
                                uri: ub,
                                headers: hs + seq![
                                    (content_length_name(), dec_rep(b.0 as nat)),
                                    (host_name(), spec_host_header(hp.0, hp.1)),
                                ],
                                body: b.1,
                                body_len: b.0,
                            },
                        ),
                    },
                },
            }
        }
    }
}

impl Request {
    /// Decode a request command; on any malformed shape the distinct
    /// error comes back and nothing is changed.
    pub fn try_from_noun(n: &Noun) -> (r: Result<Request, ConvertError>)
        ensures
            spec_decode_request(n@) matches Ok(rv) ==> (r matches Ok(req) && req@ == rv),
            spec_decode_request(n@) matches Err(e) ==> (r matches Err(e2) && e2 == e),
    {
        proof {
            reveal_with_fuel(crate::noun::noun_val, 6);
        }
        let (n0, t1) = match n {
            Noun::Cell(a, b) => (&**a, &**b),
            Noun::Atom(_) => {
                return Err(ConvertError::UnexpectedCell);
            },
        };
        let (n1, t2) = match t1 {
            Noun::Cell(a, b) => (&**a, &**b),
            Noun::Atom(_) => {
                return Err(ConvertError::MissingValue);
            },
        };
        let (n2, t3) = match t2 {
            Noun::Cell(a, b) => (&**a, &**b),
            Noun::Atom(_) => {
                return Err(ConvertError::MissingValue);
            },
        };
        let (n3, n4) = match t3 {
            Noun::Cell(a, b) => (&**a, &**b),
            Noun::Atom(_) => {
                return Err(ConvertError::MissingValue);
            },
        };
        let rn = match n0 {
            Noun::Atom(b) => b,
            Noun::Cell(_, _) => {
                return Err(ConvertError::UnexpectedCell);
            },
        };
        let mb = match n1 {
            Noun::Atom(b) => b,
            Noun::Cell(_, _) => {
                return Err(ConvertError::UnexpectedCell);
            },
        };
        let ub = match n2 {
            Noun::Atom(b) => b,
            Noun::Cell(_, _) => {
                return Err(ConvertError::UnexpectedCell);
            },
        };
        if rn.len() > 8 {
            return Err(ConvertError::AtomToUint);
        }
        let req_num = le_bytes_to_u64(rn);
        if !check_utf8(mb) {
            return Err(ConvertError::AtomToStr);
        }
        if !check_utf8(ub) {
            return Err(ConvertError::AtomToStr);
        }
        let mut headers = match walk_headers(n3) {
            Ok(h) => h,
            Err(e) => {
                return Err(e);
            },
        };
        let (body_len, body) = match decode_body(n4) {
            Ok(x) => x,
            Err(e) => {
                return Err(e);
            },
        };
        let (host, port) = match uri_host_port(ub) {
            Some(hp) => hp,
            None => {
                return Err(ConvertError::MissingValue);
            },
        };
        let ghost caller_headers = pairs_view(headers@);
        headers.push((content_length_name_bytes(), u64_to_dec(body_len)));
        headers.push((host_name_bytes(), host_header_bytes(host, port)));
        let req = Request {
            req_num,
            method: clone_bytes(mb),
            uri: clone_bytes(ub),
            headers,
            body,
            body_len,
        };
        proof {
            let rv = spec_decode_request(n@)->Ok_0;
            assert(pairs_view(req.headers@) =~= caller_headers + seq![
                (content_length_name(), dec_rep(body_len as nat)),
                (host_name(), spec_host_header(uri_authority(ub@)->Some_0.0,
                        uri_authority(ub@)->Some_0.1)),
            ]);
            assert(req@ =~= rv);
        }
        Ok(req)
    }
}

} // verus!

verus! {

/// Why a response could not be encoded.
#[derive(Debug, Clone, Copy, PartialEq, Eq)]
pub enum EncodeError {
    /// A header value that is not printable text. The whole response is
    /// refused rather than the header dropped in silence.
    HeaderValueNotText,
}

/// Printable header text: visible ASCII, space or horizontal tab.
pub open spec fn is_header_text(v: Seq<u8>) -> bool {
    forall|i: int| 0 <= i < v.len() ==> (32 <= #[trigger] v[i] < 127 || v[i] == 9)
}

pub open spec fn all_header_text(hs: Seq<(Seq<u8>, Seq<u8>)>) -> bool {
    forall|i: int| 0 <= i < hs.len() ==> is_header_text((#[trigger] hs[i]).1)
}

/// The pairs with the given name, keeping their order.
pub open spec fn with_key(hs: Seq<(Seq<u8>, Seq<u8>)>, k: Seq<u8>) -> Seq<(Seq<u8>, Seq<u8>)>
    decreases hs.len(),
{
    if hs.len() == 0 {
        hs
    } else {
        let rest = with_key(hs.subrange(1, hs.len() as int), k);
        if hs[0].0 == k {
            seq![hs[0]] + rest
        } else {
            rest
        }
    }
}

/// The pairs with another name, keeping their order.
pub open spec fn without_key(hs: Seq<(Seq<u8>, Seq<u8>)>, k: Seq<u8>) -> Seq<(Seq<u8>, Seq<u8>)>
    decreases hs.len(),
{
    if hs.len() == 0 {
        hs
    } else {
        let rest = without_key(hs.subrange(1, hs.len() as int), k);
        if hs[0].0 == k {
            rest
        } else {
            seq![hs[0]] + rest
        }
    }
}

pub proof fn lemma_without_key_len(hs: Seq<(Seq<u8>, Seq<u8>)>, k: Seq<u8>)
    ensures
        without_key(hs, k).len() <= hs.len(),
    decreases hs.len(),
{
    if hs.len() > 0 {
        lemma_without_key_len(hs.subrange(1, hs.len() as int), k);
    }
}

#[via_fn]
proof fn group_headers_dec(hs: Seq<(Seq<u8>, Seq<u8>)>) {
    if hs.len() > 0 {
        lemma_without_key_len(hs.subrange(1, hs.len() as int), hs[0].0);
    }
}

/// Headers grouped by name: names keep the order of their first
/// appearance, and a repeated name carries its values in their own
/// original order.
pub open spec fn group_headers(hs: Seq<(Seq<u8>, Seq<u8>)>) -> Seq<(Seq<u8>, Seq<u8>)>
    decreases hs.len(),
    via group_headers_dec
{
    if hs.len() == 0 {
        hs
    } else {
        with_key(hs, hs[0].0) + group_headers(without_key(hs.subrange(1, hs.len() as int), hs[0].0))
    }
}

/// The header list as encoded: each pair prepended in turn, so the
/// final list carries the grouped pairs in reverse.
pub open spec fn headers_list_val(hs: Seq<(Seq<u8>, Seq<u8>)>) -> Val
    decreases hs.len(),
{
    if hs.len() == 0 {
        Val::Atom(Seq::empty())
    } else {
        Val::Cell(
            Box::new(
                Val::Cell(
                    Box::new(Val::Atom(hs.last().0)),
                    Box::new(Val::Atom(hs.last().1)),
                ),
            ),
            Box::new(headers_list_val(hs.drop_last())),
        )
    }
}

/// The body as encoded: the zero atom for an empty body, else
/// `[0, length, bytes]`.
pub open spec fn body_val(body: Seq<u8>) -> Val {
    if body.len() == 0 {
        Val::Atom(Seq::empty())
    } else {
        Val::Cell(
            Box::new(Val::Atom(Seq::empty())),
            Box::new(
                Val::Cell(
                    Box::new(Val::Atom(nat_to_le(body.len()))),
                    Box::new(Val::Atom(body)),
                ),
            ),
        )
    }
}

/// An HTTP response in plain form, as the transport hands it back:
/// status, headers in their native order, and the fully buffered body.
#[derive(Debug)]
pub struct Response {
    pub req_num: u64,
    pub status: u16,
    pub headers: Vec<(Vec<u8>, Vec<u8>)>,
    pub body: Vec<u8>,
}

/// The mathematical form of a response.
#[verifier::ext_equal]
pub struct RespVal {
    pub req_num: u64,
    pub status: u16,
    pub headers: Seq<(Seq<u8>, Seq<u8>)>,
    pub body: Seq<u8>,
}

impl View for Response {
    type V = RespVal;

    open spec fn view(&self) -> RespVal {
        RespVal {
            req_num: self.req_num,
            status: self.status,
            headers: pairs_view(self.headers@),
            body: self.body@,
        }
    }
}

/// A response encoded as the structured value
/// `[req_num, status, headers, body]`. Every header value must be
/// printable text; the headers are grouped by name and prepended in
/// turn, so the encoded list is in reverse grouped order.
pub open spec fn spec_encode_response(rv: RespVal) -> Result<Val, EncodeError> {
    if !all_header_text(rv.headers) {
        Err(EncodeError::HeaderValueNotText)
    } else {
        Ok(
            Val::Cell(
                Box::new(Val::Atom(nat_to_le(rv.req_num as nat))),
                Box::new(
                    Val::Cell(
                        Box::new(Val::Atom(nat_to_le(rv.status as nat))),
                        Box::new(
                            Val::Cell(
                                Box::new(headers_list_val(group_headers(rv.headers))),
                                Box::new(body_val(rv.body)),
                            ),
                        ),
                    ),
                ),
            ),
        )
    }
}

fn is_header_text_exec(v: &Vec<u8>) -> (r: bool)
    ensures
        r == is_header_text(v@),
{
    let mut i: usize = 0;
    while i < v.len()
        invariant
            i <= v.len(),
            forall|j: int| 0 <= j < i ==> (32 <= #[trigger] v@[j] < 127 || v@[j] == 9),
        decreases v.len() - i,
    {
        let b = v[i];
        if !(32 <= b && b < 127 || b == 9) {
            return false;
        }
        i = i + 1;
    }
    true
}

fn pairs_with_key(hs: &[(Vec<u8>, Vec<u8>)], k: &Vec<u8>) -> (r: Vec<(Vec<u8>, Vec<u8>)>)
    ensures
        pairs_view(r@) == with_key(pairs_view(hs@), k@),
    decreases hs@.len(),
{
    if hs.len() == 0 {
        let r: Vec<(Vec<u8>, Vec<u8>)> = Vec::new();
        proof {
            assert(pairs_view(r@) =~= with_key(pairs_view(hs@), k@));
        }
        r
    } else {
        let rest = pairs_with_key(vstd::slice::slice_subrange(hs, 1, hs.len()), k);
        proof {
            assert(pairs_view(hs@.subrange(1, hs@.len() as int)) =~= pairs_view(hs@).subrange(
                1,
                pairs_view(hs@).len() as int,
            ));
        }
        let first = vstd::slice::slice_index_get(hs, 0);
        if bytes_eq(&first.0, k) {
            let ghost rest_pairs = rest@;
            let mut out = rest;
            out.insert(0, (clone_bytes(&first.0), clone_bytes(&first.1)));
            proof {
                assert(pairs_view(out@) =~= seq![(hs@[0].0@, hs@[0].1@)] + pairs_view(rest_pairs));
                assert(pairs_view(hs@)[0] == (hs@[0].0@, hs@[0].1@));
            }
            out
        } else {
            rest
        }
    }
}

fn pairs_without_key(hs: &[(Vec<u8>, Vec<u8>)], k: &Vec<u8>) -> (r: Vec<(Vec<u8>, Vec<u8>)>)
    ensures
        pairs_view(r@) == without_key(pairs_view(hs@), k@),
    decreases hs@.len(),
{
    if hs.len() == 0 {
        let r: Vec<(Vec<u8>, Vec<u8>)> = Vec::new();
        proof {
            assert(pairs_view(r@) =~= without_key(pairs_view(hs@), k@));
        }
        r
    } else {
        let rest = pairs_without_key(vstd::slice::slice_subrange(hs, 1, hs.len()), k);
        proof {
            assert(pairs_view(hs@.subrange(1, hs@.len() as int)) =~= pairs_view(hs@).subrange(
                1,
                pairs_view(hs@).len() as int,
            ));
        }
        let first = vstd::slice::slice_index_get(hs, 0);
        if bytes_eq(&first.0, k) {
            rest
        } else {
            let ghost rest_pairs = rest@;
            let mut out = rest;
            out.insert(0, (clone_bytes(&first.0), clone_bytes(&first.1)));
            proof {
                assert(pairs_view(out@) =~= seq![(hs@[0].0@, hs@[0].1@)] + pairs_view(rest_pairs));
                assert(pairs_view(hs@)[0] == (hs@[0].0@, hs@[0].1@));
            }
            out
        }
    }
}

fn group_exec(hs: &[(Vec<u8>, Vec<u8>)]) -> (r: Vec<(Vec<u8>, Vec<u8>)>)
    ensures
        pairs_view(r@) == group_headers(pairs_view(hs@)),
    decreases hs@.len(),
{
    if hs.len() == 0 {
        let r: Vec<(Vec<u8>, Vec<u8>)> = Vec::new();
        proof {
            assert(pairs_view(r@) =~= group_headers(pairs_view(hs@)));
        }
        r
    } else {
        let first = vstd::slice::slice_index_get(hs, 0);
        let mut front = pairs_with_key(hs, &first.0);
        let rest = pairs_without_key(vstd::slice::slice_subrange(hs, 1, hs.len()), &first.0);
        proof {
            assert(pairs_view(hs@.subrange(1, hs@.len() as int)) =~= pairs_view(hs@).subrange(
                1,
                pairs_view(hs@).len() as int,
            ));
            lemma_without_key_len(
                pairs_view(hs@).subrange(1, pairs_view(hs@).len() as int),
                hs@[0].0@,
            );
        }
        let mut tail = group_exec(rest.as_slice());
        let ghost front_pairs = front@;
        let ghost tail_pairs = tail@;
        front.append(&mut tail);
        proof {
            assert(pairs_view(hs@)[0] == (hs@[0].0@, hs@[0].1@));
            assert(pairs_view(front@) =~= pairs_view(front_pairs) + pairs_view(tail_pairs));
        }
        front
    }
}

impl Response {
    /// Encode this response as a structured value; a header value that
    /// is not printable text refuses the whole response.
    pub fn try_into_noun(&self) -> (r: Result<Noun, EncodeError>)
        ensures
            spec_encode_response(self@) matches Ok(v) ==> (r matches Ok(n) && n@ == v),
            spec_encode_response(self@) matches Err(e) ==> (r matches Err(e2) && e2 == e),
    {
        let mut i: usize = 0;
        while i < self.headers.len()
            invariant
                i <= self.headers.len(),
                forall|j: int| 0 <= j < i ==> is_header_text((#[trigger] pairs_view(
                    self.headers@,
                )[j]).1),
            decreases self.headers.len() - i,
        {
            if !is_header_text_exec(&self.headers[i].1) {
                proof {
                    let hv = pairs_view(self.headers@);
                    assert(hv[i as int].1 == self.headers@[i as int].1@);
                    assert(!is_header_text(hv[i as int].1));
                    assert(!all_header_text(hv));
                }
                return Err(EncodeError::HeaderValueNotText);
            }
            i = i + 1;
        }
        let grouped = group_exec(self.headers.as_slice());
        let mut list = Noun::atom(Vec::new());
        let mut j: usize = 0;
        proof {
            assert(pairs_view(grouped@).subrange(0, 0) =~= Seq::<(Seq<u8>, Seq<u8>)>::empty());
        }
        while j < grouped.len()
            invariant
                j <= grouped.len(),
                list@ == headers_list_val(pairs_view(grouped@).subrange(0, j as int)),
            decreases grouped.len() - j,
        {
            let pair = vstd::slice::slice_index_get(grouped.as_slice(), j);
            let entry = Noun::cell(
                Noun::atom(clone_bytes(&pair.0)),
                Noun::atom(clone_bytes(&pair.1)),
            );
            list = Noun::cell(entry, list);
            proof {
                let upto = pairs_view(grouped@).subrange(0, j + 1);
                assert(upto.drop_last() =~= pairs_view(grouped@).subrange(0, j as int));
                assert(upto.last() == (grouped@[j as int].0@, grouped@[j as int].1@));
            }
            j = j + 1;
        }
        proof {
            assert(pairs_view(grouped@).subrange(0, grouped@.len() as int) =~= pairs_view(
                grouped@,
            ));
        }
        let body = if self.body.len() == 0 {
            Noun::atom(Vec::new())
        } else {
            Noun::cell(
                Noun::atom(Vec::new()),
                Noun::cell(
                    Noun::atom_u64(self.body.len() as u64),
                    Noun::atom(clone_bytes(&self.body)),
                ),
            )
        };
        let out = Noun::cell(
            Noun::atom_u64(self.req_num),
            Noun::cell(Noun::atom_u64(self.status as u64), Noun::cell(list, body)),
        );
        Ok(out)
    }
}

} // verus!

verus! {

/// Headers read back off an encoded response: the list pairs in list
/// order.
pub open spec fn spec_decode_response_headers(v: Val) -> Option<Seq<(Seq<u8>, Seq<u8>)>>
    decreases v,
{
    match v {
        Val::Atom(_) => Some(Seq::empty()),
        Val::Cell(entry, rest) => match *entry {
            Val::Cell(k, val) => match (*k, *val) {
                (Val::Atom(kb), Val::Atom(vb)) => match spec_decode_response_headers(*rest) {
                    Some(hs) => Some(seq![(kb, vb)] + hs),
                    None => None,
                },
                _ => None,
            },
            Val::Atom(_) => None,
        },
    }
}

/// The body read back off an encoded response: an atom is an empty
/// body, else the shape `[x, length, bytes]` with `x` an atom.
pub open spec fn spec_decode_body(v: Val) -> Option<Seq<u8>> {
    match v {
        Val::Atom(_) => Some(Seq::empty()),
        Val::Cell(z, rest) => if !(*z is Atom) {
            None
        } else {
            match *rest {
                Val::Atom(_) => None,
                Val::Cell(l, b) => if *l is Atom && *b is Atom {
                    Some((*b)->Atom_0)
                } else {
                    None
                },
            }
        },
    }
}

pub open spec fn spec_decode_response_parts(a: Val, st: Val, hd: Val, bd: Val) -> Option<RespVal> {
    if !(a is Atom && st is Atom) {
        None
    } else {
        let rn = a->Atom_0;
        let sb = st->Atom_0;
        if rn.len() > 8 {
            None
        } else if sb.len() > 8 {
            None
        } else if le_val(sb) > 0xffff {
            None
        } else {
            match spec_decode_response_headers(hd) {
                None => None,
                Some(hs) => match spec_decode_body(bd) {
                    None => None,
                    Some(body) => Some(
                        RespVal {
                            req_num: le_val(rn) as u64,
                            status: le_val(sb) as u16,
                            headers: hs,
                            body,
                        },
                    ),
                },
            }
        }
    }
}

/// An independent decoder for encoded responses: the value must be
/// `[req_num, status, headers, body]`.
pub open spec fn spec_decode_response(v: Val) -> Option<RespVal> {
    match v {
        Val::Atom(_) => None,
        Val::Cell(a, t1) => match *t1 {
            Val::Atom(_) => None,
            Val::Cell(st, t2) => match *t2 {
                Val::Atom(_) => None,
                Val::Cell(hd, bd) => spec_decode_response_parts(*a, *st, *hd, *bd),
            },
        },
    }
}

fn decode_response_headers(n: &Noun) -> (r: Option<Vec<(Vec<u8>, Vec<u8>)>>)
    ensures
        spec_decode_response_headers(n@) matches Some(hs) ==> (r matches Some(v) && pairs_view(v@)
            == hs),
        spec_decode_response_headers(n@) is None ==> r is None,
    decreases n,
{
    proof {
        reveal_with_fuel(crate::noun::noun_val, 4);
    }
    match n {
        Noun::Atom(_) => {
            let v: Vec<(Vec<u8>, Vec<u8>)> = Vec::new();
            proof {
                assert(pairs_view(v@) =~= Seq::<(Seq<u8>, Seq<u8>)>::empty());
            }
            Some(v)
        },
        Noun::Cell(entry, rest) => match &**entry {
            Noun::Cell(k, val) => match (&**k, &**val) {
                (Noun::Atom(kb), Noun::Atom(vb)) => match decode_response_headers(rest) {
                    Some(mut hs) => {
                        let ghost tail_pairs = hs@;
                        hs.insert(0, (clone_bytes(kb), clone_bytes(vb)));
                        proof {
                            assert(pairs_view(hs@) =~= seq![(kb@, vb@)] + pairs_view(tail_pairs));
                        }
                        Some(hs)
                    },
                    None => None,
                },
                _ => None,
            },
            Noun::Atom(_) => None,
        },
    }
}

/// Decode an encoded response back into its plain form.
pub fn decode_response(n: &Noun) -> (r: Option<Response>)
    ensures
        spec_decode_response(n@) matches Some(rv) ==> (r matches Some(resp) && resp@ == rv),
        spec_decode_response(n@) is None ==> r is None,
{
    proof {
        reveal_with_fuel(crate::noun::noun_val, 8);
    }
    let (a, t1) = match n {
        Noun::Cell(x, y) => (&**x, &**y),
        Noun::Atom(_) => {
            return None;
        },
    };
    let (st, t2) = match t1 {
        Noun::Cell(x, y) => (&**x, &**y),
        Noun::Atom(_) => {
            return None;
        },
    };
    let (hd, bd) = match t2 {
        Noun::Cell(x, y) => (&**x, &**y),
        Noun::Atom(_) => {
            return None;
        },
    };
    let rn = match a {
        Noun::Atom(b) => b,
        Noun::Cell(_, _) => {
            return None;
        },
    };
    let sb = match st {
        Noun::Atom(b) => b,
        Noun::Cell(_, _) => {
            return None;
        },
    };
    if rn.len() > 8 || sb.len() > 8 {
        return None;
    }
    let status64 = le_bytes_to_u64(sb);
    if status64 > 0xffff {
        return None;
    }
    let headers = match decode_response_headers(hd) {
        Some(h) => h,
        None => {
            return None;
        },
    };
    let body = match bd {
        Noun::Atom(_) => Vec::new(),
        Noun::Cell(z, rest) => {
            let z_ok = match &**z {
                Noun::Atom(_) => true,
                Noun::Cell(_, _) => false,
            };
            if !z_ok {
                return None;
            }
            match &**rest {
                Noun::Atom(_) => {
                    return None;
                },
                Noun::Cell(l, b) => match (&**l, &**b) {
                    (Noun::Atom(_), Noun::Atom(bb)) => clone_bytes(bb),
                    _ => {
                        return None;
                    },
                },
            }
        },
    };
    let resp = Response { req_num: le_bytes_to_u64(rn), status: status64 as u16, headers, body };
    proof {
        assert(resp@ =~= spec_decode_response(n@)->Some_0);
    }
    Some(resp)
}

pub proof fn lemma_decode_headers_list(hs: Seq<(Seq<u8>, Seq<u8>)>)
    ensures
        spec_decode_response_headers(headers_list_val(hs)) == Some(hs.reverse()),
    decreases hs.len(),
{
    if hs.len() == 0 {
        assert(hs.reverse() =~= Seq::<(Seq<u8>, Seq<u8>)>::empty());
    } else {
        lemma_decode_headers_list(hs.drop_last());
        assert(seq![hs.last()] + hs.drop_last().reverse() =~= hs.reverse());
    }
}

/// Round trip: encoding a response whose header values are printable
/// text and decoding it with the independent decoder yields the same
/// request number, status and body, and the headers in the canonical
/// encoded order: grouped by name in first-appearance order, then
/// reversed.
pub proof fn lemma_response_round_trip(rv: RespVal)
    requires
        all_header_text(rv.headers),
    ensures
        spec_encode_response(rv) matches Ok(v) && spec_decode_response(v) == Some(
            RespVal {
                req_num: rv.req_num,
                status: rv.status,
                headers: group_headers(rv.headers).reverse(),
                body: rv.body,
            },
        ),
{
    crate::noun::lemma_pow256_8();
    crate::noun::lemma_le_val_of_nat_to_le(rv.req_num as nat);
    crate::noun::lemma_le_val_of_nat_to_le(rv.status as nat);
    crate::noun::lemma_nat_to_le_len(rv.req_num as nat, 8);
    assert(rv.status < crate::noun::pow256(8)) by {
        crate::noun::lemma_pow256_8();
    };
    crate::noun::lemma_nat_to_le_len(rv.status as nat, 8);
    lemma_decode_headers_list(group_headers(rv.headers));
}

} // verus!

verus! {

broadcast use vstd::std_specs::hash::group_hash_axioms;

/// Why a command was dropped rather than acted on; every dropped
/// command leaves the driver running and its table unchanged.
#[derive(Debug, Clone, Copy, PartialEq, Eq)]
pub enum Ignored {
    /// The command value is a bare atom.
    NotACell,
    /// The command's tag is a pair.
    TagNotAtom,
    /// A tag this driver does not answer to.
    UnknownTag,
    /// A request command that did not decode.
    BadRequest(ConvertError),
    /// A cancellation whose target is a pair.
    CancelTargetNotAtom,
    /// A cancellation number too wide for an unsigned 64-bit integer.
    CancelTooWide,
    /// A cancellation of a request not in flight: an informational
    /// no-op, never an error.
    CancelUnknown(u64),
}

/// What the caller must do after a command is handled.
#[derive(Debug)]
pub enum Action {
    /// Spawn a transport task for this request; it was recorded in the
    /// table under the token handed in.
    Dispatch(Request),
    /// Abort the task that was recorded under this token.
    Abort(u64),
    /// Nothing: the command was dropped for the reason given.
    Ignore(Ignored),
}

/// The mathematical form of an action.
#[verifier::ext_equal]
pub enum ActVal {
    Dispatch(ReqVal),
    Abort(u64),
    Ignore(Ignored),
}

impl View for Action {
    type V = ActVal;

    open spec fn view(&self) -> ActVal {
        match self {
            Action::Dispatch(req) => ActVal::Dispatch(req@),
            Action::Abort(t) => ActVal::Abort(*t),
            Action::Ignore(i) => ActVal::Ignore(*i),
        }
    }
}

/// The driver's own lifecycle outcome: always success, however many
/// individual requests failed.
#[derive(Debug, Clone, Copy, PartialEq, Eq)]
pub enum Status {
    Success,
}

/// The tag naming a request command.
pub open spec fn request_tag() -> Seq<u8> {
    seq!['r' as u8, 'e' as u8, 'q' as u8, 'u' as u8, 'e' as u8, 's' as u8, 't' as u8]
}

pub fn request_tag_bytes() -> (r: Vec<u8>)
    ensures
        r@ == request_tag(),
{
    let mut v: Vec<u8> = Vec::new();
    v.push('r' as u8);
    v.push('e' as u8);
    v.push('q' as u8);
    v.push('u' as u8);
    v.push('e' as u8);
    v.push('s' as u8);
    v.push('t' as u8);
    proof {
        assert(v@ =~= request_tag());
    }
    v
}

/// The tag naming a cancellation command.
pub open spec fn cancel_tag() -> Seq<u8> {
    seq![
        'c' as u8,
        'a' as u8,
        'n' as u8,
        'c' as u8,
        'e' as u8,
        'l' as u8,
        '-' as u8,
        'r' as u8,
        'e' as u8,
        'q' as u8,
        'u' as u8,
        'e' as u8,
        's' as u8,
        't' as u8,
    ]
}

pub fn cancel_tag_bytes() -> (r: Vec<u8>)
    ensures
        r@ == cancel_tag(),
{
    let mut v: Vec<u8> = Vec::new();
    v.push('c' as u8);
    v.push('a' as u8);
    v.push('n' as u8);
    v.push('c' as u8);
    v.push('e' as u8);
    v.push('l' as u8);
    v.push('-' as u8);
    v.push('r' as u8);
    v.push('e' as u8);
    v.push('q' as u8);
    v.push('u' as u8);
    v.push('e' as u8);
    v.push('s' as u8);
    v.push('t' as u8);
    proof {
        assert(v@ =~= cancel_tag());
    }
    v
}

/// What one command does to the in-flight table and what action it
/// asks for. A well-formed request is recorded under the fresh token,
/// overwriting (and so orphaning, not aborting) any entry already held
/// under the same request number. A cancellation removes its entry and
/// asks for an abort; cancelling an unknown number changes nothing.
pub open spec fn spec_on_command(table: Map<u64, u64>, cmd: Val, token: u64) -> (Map<u64, u64>,
    ActVal,
) {
    match cmd {
        Val::Atom(_) => (table, ActVal::Ignore(Ignored::NotACell)),
        Val::Cell(tag, rest) => match *tag {
            Val::Cell(_, _) => (table, ActVal::Ignore(Ignored::TagNotAtom)),
            Val::Atom(tb) => if tb == request_tag() {
                match spec_decode_request(*rest) {
                    Ok(rv) => (table.insert(rv.req_num, token), ActVal::Dispatch(rv)),
                    Err(e) => (table, ActVal::Ignore(Ignored::BadRequest(e))),
                }
            } else if tb == cancel_tag() {
                match *rest {
                    Val::Cell(_, _) => (table, ActVal::Ignore(Ignored::CancelTargetNotAtom)),
                    Val::Atom(nb) => if nb.len() > 8 {
                        (table, ActVal::Ignore(Ignored::CancelTooWide))
                    } else {
                        let n = le_val(nb) as u64;
                        if table.contains_key(n) {
                            (table.remove(n), ActVal::Abort(table[n]))
                        } else {
                            (table, ActVal::Ignore(Ignored::CancelUnknown(n)))
                        }
                    },
                }
            } else {
                (table, ActVal::Ignore(Ignored::UnknownTag))
            },
        },
    }
}

/// What a whole command sequence does, handing out one fresh token per
/// command in order.
pub open spec fn spec_run(table: Map<u64, u64>, cmds: Seq<Val>, token0: int) -> (Map<u64, u64>,
    Seq<ActVal>,
)
    decreases cmds.len(),
{
    if cmds.len() == 0 {
        (table, Seq::empty())
    } else {
        let step = spec_on_command(table, cmds[0], token0 as u64);
        let rest = spec_run(step.0, cmds.subrange(1, cmds.len() as int), token0 + 1);
        (rest.0, seq![step.1] + rest.1)
    }
}

/// The view of a sequence of command values.
pub open spec fn nouns_view(s: Seq<Noun>) -> Seq<Val> {
    Seq::new(s.len(), |i: int| s[i]@)
}

/// The view of a sequence of actions.
pub open spec fn actions_view(s: Seq<Action>) -> Seq<ActVal> {
    Seq::new(s.len(), |i: int| s[i]@)
}

/// The HTTP client driver: the in-flight request table, keyed by the
/// caller-assigned request number. The table is only ever touched by
/// the driver's own command handling, one command at a time.
pub struct HttpClient {
    inflight_req: std::collections::HashMap<u64, u64>,
}

impl HttpClient {
    /// The in-flight table: request number to the token of the task
    /// serving it.
    pub closed spec fn inflight(&self) -> Map<u64, u64> {
        self.inflight_req@
    }

    /// A driver with nothing in flight.
    pub fn new() -> (r: HttpClient)
        ensures
            r.inflight() == Map::<u64, u64>::empty(),
    {
        HttpClient { inflight_req: std::collections::HashMap::new() }
    }

    /// Whether a request number is in flight.
    pub fn contains_req(&self, n: u64) -> (r: bool)
        ensures
            r == self.inflight().contains_key(n),
    {
        self.inflight_req.contains_key(&n)
    }

    /// How many requests are in flight.
    pub fn inflight_len(&self) -> (r: usize)
        ensures
            r == self.inflight().len(),
    {
        self.inflight_req.len()
    }

    /// Handle one command under a fresh task token, updating the table
    /// and telling the caller what to do. Never panics and never fails
    /// the driver: a malformed command is dropped with its reason.
    pub fn on_command(&mut self, cmd: &Noun, token: u64) -> (r: Action)
        ensures
            ({
                let step = spec_on_command(old(self).inflight(), cmd@, token);
                final(self).inflight() == step.0 && r@ == step.1
            }),
    {
        proof {
            reveal_with_fuel(crate::noun::noun_val, 3);
        }
        let (tag, rest) = match cmd {
            Noun::Cell(a, b) => (&**a, &**b),
            Noun::Atom(_) => {
                return Action::Ignore(Ignored::NotACell);
            },
        };
        let tb = match tag {
            Noun::Atom(b) => b,
            Noun::Cell(_, _) => {
                return Action::Ignore(Ignored::TagNotAtom);
            },
        };
        if bytes_eq(tb, &request_tag_bytes()) {
            match Request::try_from_noun(rest) {
                Ok(req) => {
                    self.inflight_req.insert(req.req_num, token);
                    Action::Dispatch(req)
                },
                Err(e) => Action::Ignore(Ignored::BadRequest(e)),
            }
        } else if bytes_eq(tb, &cancel_tag_bytes()) {
            let nb = match rest {
                Noun::Atom(b) => b,
                Noun::Cell(_, _) => {
                    return Action::Ignore(Ignored::CancelTargetNotAtom);
                },
            };
            if nb.len() > 8 {
                return Action::Ignore(Ignored::CancelTooWide);
            }
            let n = le_bytes_to_u64(nb);
            match self.inflight_req.remove(&n) {
                Some(tok) => Action::Abort(tok),
                None => {
                    proof {
                        assert(old(self).inflight().remove(n) =~= old(self).inflight());
                    }
                    Action::Ignore(Ignored::CancelUnknown(n))
                },
            }
        } else {
            Action::Ignore(Ignored::UnknownTag)
        }
    }

    /// Drive a whole command sequence in arrival order, handing each
    /// command a fresh token, and end with the driver's own lifecycle
    /// outcome: always success, whatever individual commands were
    /// dropped.
    pub fn run(self, cmds: &Vec<Noun>) -> (r: (Vec<Action>, Status))
        ensures
            actions_view(r.0@) == spec_run(self.inflight(), nouns_view(cmds@), 0).1,
            r.1 == Status::Success,
    {
        let mut this = self;
        let ghost table0 = this.inflight();
        let ghost all = nouns_view(cmds@);
        let mut acts: Vec<Action> = Vec::new();
        let mut i: usize = 0;
        proof {
            assert(all.subrange(0, all.len() as int) =~= all);
            assert(actions_view(acts@) + spec_run(this.inflight(), all, 0).1 =~= spec_run(
                this.inflight(),
                all,
                0,
            ).1);
        }
        while i < cmds.len()
            invariant
                i <= cmds.len(),
                all == nouns_view(cmds@),
                table0 == self.inflight(),
                spec_run(table0, all, 0).0 == spec_run(
                    this.inflight(),
                    all.subrange(i as int, all.len() as int),
                    i as int,
                ).0,
                spec_run(table0, all, 0).1 == actions_view(acts@) + spec_run(
                    this.inflight(),
                    all.subrange(i as int, all.len() as int),
                    i as int,
                ).1,
            decreases cmds.len() - i,
        {
            let ghost rem = all.subrange(i as int, all.len() as int);
            let a = this.on_command(&cmds[i], i as u64);
            proof {
                assert(rem[0] == cmds@[i as int]@);
                assert(rem.subrange(1, rem.len() as int) =~= all.subrange(
                    i + 1,
                    all.len() as int,
                ));
                assert((i as int) as u64 == i as u64);
            }
            let ghost acts_pre = acts@;
            acts.push(a);
            proof {
                assert(actions_view(acts@) =~= actions_view(acts_pre) + seq![a@]);
                assert((actions_view(acts_pre) + seq![a@]) + spec_run(
                    this.inflight(),
                    all.subrange(i + 1, all.len() as int),
                    i + 1,
                ).1 =~= actions_view(acts_pre) + (seq![a@] + spec_run(
                    this.inflight(),
                    all.subrange(i + 1, all.len() as int),
                    i + 1,
                ).1));
            }
            i = i + 1;
        }
        proof {
            assert(all.subrange(cmds@.len() as int, all.len() as int) =~= Seq::<Val>::empty());
            assert(actions_view(acts@) + Seq::<ActVal>::empty() =~= actions_view(acts@));
        }
        (acts, Status::Success)
    }
}

/// The in-flight table can never hold two entries for one request
/// number: it is a finite map keyed by the number. After any command,
/// an entry is either the fresh token just recorded or the entry the
/// table already held; and a request that reuses an in-flight number
/// overwrites that entry with the fresh token, orphaning the old task
/// rather than crashing.
pub proof fn lemma_inflight_single_owner(table: Map<u64, u64>, cmd: Val, token: u64, n: u64)
    ensures
        ({
            let step = spec_on_command(table, cmd, token);
            &&& step.0.contains_key(n) ==> (step.0[n] == token || (table.contains_key(n)
                && step.0[n] == table[n]))
            &&& (step.1 matches ActVal::Dispatch(rv) && rv.req_num == n ==> step.0[n] == token)
        }),
{
}

/// Cancellation safety: a cancellation naming a request number with no
/// in-flight entry never errors and leaves the table unchanged; the
/// driver only notes it as informational.
pub proof fn lemma_cancel_unknown_is_noop(table: Map<u64, u64>, nb: Seq<u8>, token: u64)
    requires
        nb.len() <= 8,
        !table.contains_key(le_val(nb) as u64),
    ensures
        spec_on_command(
            table,
            Val::Cell(Box::new(Val::Atom(cancel_tag())), Box::new(Val::Atom(nb))),
            token,
        ) == (table, ActVal::Ignore(Ignored::CancelUnknown(le_val(nb) as u64))),
{
    assert(cancel_tag() != request_tag());
}

} // verus!

verus! {

/// The pairs with and without a name together hold exactly the
/// original pairs.
pub proof fn lemma_partition_multiset(hs: Seq<(Seq<u8>, Seq<u8>)>, k: Seq<u8>)
    ensures
        with_key(hs, k).to_multiset().add(without_key(hs, k).to_multiset()) == hs.to_multiset(),
    decreases hs.len(),
{
    broadcast use vstd::seq_lib::group_to_multiset_ensures;
    broadcast use vstd::multiset::group_multiset_axioms;

    if hs.len() == 0 {
        assert(hs.to_multiset() =~= vstd::multiset::Multiset::<(Seq<u8>, Seq<u8>)>::empty());
        assert(with_key(hs, k).to_multiset().add(without_key(hs, k).to_multiset())
            =~= hs.to_multiset());
    } else {
        let rest = hs.subrange(1, hs.len() as int);
        lemma_partition_multiset(rest, k);
        assert(hs =~= seq![hs[0]] + rest);
        vstd::seq_lib::lemma_multiset_commutative(seq![hs[0]], rest);
        if hs[0].0 == k {
            vstd::seq_lib::lemma_multiset_commutative(seq![hs[0]], with_key(rest, k));
            assert(with_key(hs, k).to_multiset().add(without_key(hs, k).to_multiset())
                =~= hs.to_multiset());
        } else {
            vstd::seq_lib::lemma_multiset_commutative(seq![hs[0]], without_key(rest, k));
            assert(with_key(hs, k).to_multiset().add(without_key(hs, k).to_multiset())
                =~= hs.to_multiset());
        }
    }
}

/// Grouping the headers by name keeps exactly the same pairs.
pub proof fn lemma_group_headers_multiset(hs: Seq<(Seq<u8>, Seq<u8>)>)
    ensures
        group_headers(hs).to_multiset() == hs.to_multiset(),
    decreases hs.len(),
{
    broadcast use vstd::seq_lib::group_to_multiset_ensures;
    broadcast use vstd::multiset::group_multiset_axioms;

    if hs.len() > 0 {
        let k = hs[0].0;
        let rest = hs.subrange(1, hs.len() as int);
        lemma_without_key_len(rest, k);
        lemma_group_headers_multiset(without_key(rest, k));
        vstd::seq_lib::lemma_multiset_commutative(with_key(hs, k), group_headers(without_key(rest, k)));
        lemma_partition_multiset(rest, k);
        assert(hs =~= seq![hs[0]] + rest);
        vstd::seq_lib::lemma_multiset_commutative(seq![hs[0]], rest);
        vstd::seq_lib::lemma_multiset_commutative(seq![hs[0]], with_key(rest, k));
        assert(group_headers(hs).to_multiset() =~= hs.to_multiset());
    }
}

/// Up to order, encoding changes nothing about the headers: the
/// canonical encoded order (grouped by name, then reversed) holds
/// exactly the pairs the response carried.
pub proof fn lemma_normalized_headers_permutation(hs: Seq<(Seq<u8>, Seq<u8>)>)
    ensures
        group_headers(hs).reverse().to_multiset() == hs.to_multiset(),
{
    group_headers(hs).lemma_reverse_to_multiset();
    lemma_group_headers_multiset(hs);
}

} // verus!

verus! {

/// Over a whole command sequence the table still has a single owner
/// per request number: any entry left afterwards is either the entry
/// the table began with or the token of exactly one command of the
/// run, never two at once — the table is a map, and a reused request
/// number was overwritten, not duplicated.
pub proof fn lemma_run_inflight_owners(table: Map<u64, u64>, cmds: Seq<Val>, token0: int, n: u64)
    ensures
        ({
            let after = spec_run(table, cmds, token0).0;
            after.contains_key(n) ==> ((table.contains_key(n) && after[n] == table[n]) || exists|i: int|
                0 <= i < cmds.len() && after[n] == #[trigger] ((token0 + i) as u64))
        }),
    decreases cmds.len(),
{
    if cmds.len() > 0 {
        let step = spec_on_command(table, cmds[0], token0 as u64);
        let rest = cmds.subrange(1, cmds.len() as int);
        let after = spec_run(table, cmds, token0).0;
        lemma_inflight_single_owner(table, cmds[0], token0 as u64, n);
        lemma_run_inflight_owners(step.0, rest, token0 + 1, n);
        if after.contains_key(n) {
            if step.0.contains_key(n) && after[n] == step.0[n] {
                if !(table.contains_key(n) && step.0[n] == table[n]) {
                    assert(step.0[n] == token0 as u64);
                    assert(0 <= 0 < cmds.len() && after[n] == (token0 + 0) as u64);
                }
            } else {
                let i = choose|i: int|
                    0 <= i < rest.len() && after[n] == #[trigger] (((token0 + 1) + i) as u64);
                assert(0 <= i + 1 < cmds.len() && after[n] == (token0 + (i + 1)) as u64);
            }
        }
    }
}

} // verus!
