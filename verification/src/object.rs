//! The object model: kind-tagged immutable payloads and their fixed-length
//! byte identifiers, together with the canonical serialized form
//! `<kind> <size>\0<payload>` and its parser.
use vstd::prelude::*;
use crate::bytes::bytes_eq;

verus! {

/// The number of bytes in an object identifier (a digest).
pub const ID_LEN: usize = 20;

/// The closed set of content categories an object can belong to.
#[derive(Clone, Copy, PartialEq, Eq, Structural, Debug)]
pub enum Kind {
    Blob,
    Tree,
    Commit,
    Tag,
}

/// The ASCII token that names a kind inside the serialized header.
pub open spec fn kind_token(k: Kind) -> Seq<u8> {
    match k {
        Kind::Blob => seq![98u8, 108u8, 111u8, 98u8],
        Kind::Tree => seq![116u8, 114u8, 101u8, 101u8],
        Kind::Commit => seq![99u8, 111u8, 109u8, 109u8, 105u8, 116u8],
        Kind::Tag => seq![116u8, 97u8, 103u8],
    }
}

/// The kind named by a token, if any.
pub open spec fn kind_of_token(t: Seq<u8>) -> Option<Kind> {
    if t == kind_token(Kind::Blob) {
        Some(Kind::Blob)
    } else if t == kind_token(Kind::Tree) {
        Some(Kind::Tree)
    } else if t == kind_token(Kind::Commit) {
        Some(Kind::Commit)
    } else if t == kind_token(Kind::Tag) {
        Some(Kind::Tag)
    } else {
        None
    }
}

pub fn kind_bytes(k: Kind) -> (r: Vec<u8>)
    ensures
        r@ == kind_token(k),
{
    let r: Vec<u8> = match k {
        Kind::Blob => vec![98u8, 108u8, 111u8, 98u8],
        Kind::Tree => vec![116u8, 114u8, 101u8, 101u8],
        Kind::Commit => vec![99u8, 111u8, 109u8, 109u8, 105u8, 116u8],
        Kind::Tag => vec![116u8, 97u8, 103u8],
    };
    proof {
        assert(r@ =~= kind_token(k));
    }
    r
}

/// An immutable record: a kind tag plus a byte payload.
#[derive(Clone, Debug)]
pub struct Object {
    pub kind: Kind,
    pub data: Vec<u8>,
}

impl Object {
    pub fn new(kind: Kind, data: Vec<u8>) -> (r: Object)
        ensures
            r.kind == kind,
            r.data@ == data@,
    {
        Object { kind, data }
    }
}

/// The fixed-length digest that identifies an object; ordered and compared
/// byte-wise, never mutated after creation.
#[derive(Clone, Debug)]
pub struct ObjectId {
    bytes: Vec<u8>,
}

impl View for ObjectId {
    type V = Seq<u8>;

    closed spec fn view(&self) -> Seq<u8> {
        self.bytes@
    }
}

impl ObjectId {
    pub open spec fn wf(&self) -> bool {
        self@.len() == ID_LEN
    }

    pub fn from_bytes(bytes: Vec<u8>) -> (r: ObjectId)
        requires
            bytes@.len() == ID_LEN,
        ensures
            r@ == bytes@,
            r.wf(),
    {
        ObjectId { bytes }
    }

    pub fn as_bytes(&self) -> (r: &Vec<u8>)
        ensures
            r@ == self@,
    {
        &self.bytes
    }
}

impl PartialEq for ObjectId {
    fn eq(&self, other: &ObjectId) -> (r: bool) {
        bytes_eq(&self.bytes, &other.bytes)
    }
}

impl Eq for ObjectId {}

impl vstd::std_specs::cmp::PartialEqSpecImpl for ObjectId {
    open spec fn obeys_eq_spec() -> bool {
        true
    }

    open spec fn eq_spec(&self, other: &ObjectId) -> bool {
        self@ == other@
    }
}

// ---------------------------------------------------------------------------
// Decimal size rendering and evaluation.
// ---------------------------------------------------------------------------

/// The canonical decimal rendering of `n` in ASCII digits.
pub open spec fn dec_rep(n: nat) -> Seq<u8>
    decreases n,
{
    if n < 10 {
        seq![(n + 48) as u8]
    } else {
        dec_rep(n / 10).push((n % 10 + 48) as u8)
    }
}

/// The numeric value of a digit string, most significant digit first.
pub open spec fn dec_num(d: Seq<u8>) -> nat
    decreases d.len(),
{
    if d.len() == 0 {
        0
    } else {
        (dec_num(d.drop_last()) * 10 + (d.last() - 48)) as nat
    }
}

pub open spec fn all_digits(d: Seq<u8>) -> bool {
    forall|i: int| 0 <= i < d.len() ==> 48 <= #[trigger] d[i] <= 57
}

pub proof fn lemma_dec_rep_digits(n: nat)
    ensures
        dec_rep(n).len() >= 1,
        all_digits(dec_rep(n)),
    decreases n,
{
    if n >= 10 {
        lemma_dec_rep_digits(n / 10);
        assert forall|i: int| 0 <= i < dec_rep(n).len() implies 48 <= #[trigger] dec_rep(n)[i]
            <= 57 by {
            if i < dec_rep(n / 10).len() {
                assert(dec_rep(n)[i] == dec_rep(n / 10)[i]);
            }
        }
    }
}

/// Evaluating the canonical rendering gives the number back.
pub proof fn lemma_dec_num_of_rep(n: nat)
    ensures
        dec_num(dec_rep(n)) == n,
    decreases n,
{
    if n < 10 {
        let d = dec_rep(n);
        assert(d.drop_last() =~= Seq::<u8>::empty());
        assert(d.last() == (n + 48) as u8);
        assert(dec_num(d) == (dec_num(d.drop_last()) * 10 + (d.last() - 48)) as nat);
        assert(dec_num(Seq::<u8>::empty()) == 0);
    } else {
        lemma_dec_num_of_rep(n / 10);
        let d = dec_rep(n);
        assert(d.drop_last() =~= dec_rep(n / 10));
        assert(d.last() == (n % 10 + 48) as u8);
        assert(dec_num(d) == (dec_num(d.drop_last()) * 10 + (d.last() - 48)) as nat);
        assert((n / 10) * 10 + n % 10 == n) by (nonlinear_arith);
    }
}

/// A digit string is worth at least as much as any of its prefixes.
pub proof fn lemma_dec_num_prefix(d: Seq<u8>, i: int)
    requires
        0 <= i <= d.len(),
        all_digits(d),
    ensures
        dec_num(d) >= dec_num(d.subrange(0, i)),
    decreases d.len() - i,
{
    if i < d.len() {
        lemma_dec_num_prefix(d, i + 1);
        let e = d.subrange(0, i + 1);
        assert(e.drop_last() =~= d.subrange(0, i));
        assert(e.last() == d[i]);
        assert(48 <= d[i] <= 57);
        assert(dec_num(e) == (dec_num(e.drop_last()) * 10 + (e.last() - 48)) as nat);
        assert(dec_num(e) >= dec_num(d.subrange(0, i)));
    } else {
        assert(d.subrange(0, i) =~= d);
    }
}

pub fn render_dec(n: usize) -> (r: Vec<u8>)
    ensures
        r@ == dec_rep(n as nat),
    decreases n,
{
    if n < 10 {
        let d: u8 = (n as u8) + 48;
        let r: Vec<u8> = vec![d];
        proof {
            assert(r@ =~= dec_rep(n as nat));
        }
        r
    } else {
        let mut r = render_dec(n / 10);
        r.push((n % 10) as u8 + 48);
        r
    }
}

// ---------------------------------------------------------------------------
// Serialization: `<kind> <size>\0<payload>`.
// ---------------------------------------------------------------------------

/// The canonical serialized form of an object: kind token, one space, the
/// payload length in decimal, a NUL byte, then the payload itself.
pub open spec fn encode_spec(kind: Kind, data: Seq<u8>) -> Seq<u8> {
    kind_token(kind) + seq![32u8] + dec_rep(data.len()) + seq![0u8] + data
}

pub fn encode_object(kind: Kind, data: &Vec<u8>) -> (r: Vec<u8>)
    ensures
        r@ == encode_spec(kind, data@),
{
    let mut r = kind_bytes(kind);
    r.push(32u8);
    let mut size = render_dec(data.len());
    let mut i: usize = 0;
    r.append(&mut size);
    r.push(0u8);
    while i < data.len()
        invariant
            i <= data.len(),
            r@ == kind_token(kind) + seq![32u8] + dec_rep(data@.len()) + seq![0u8]
                + data@.subrange(0, i as int),
        decreases data.len() - i,
    {
        r.push(data[i]);
        i += 1;
        proof {
            assert(r@.drop_last() + seq![data@[i - 1]] =~= r@);
            assert(data@.subrange(0, i - 1).push(data@[i - 1]) =~= data@.subrange(0, i as int));
            assert(r@ == kind_token(kind) + seq![32u8] + dec_rep(data@.len()) + seq![0u8]
                + data@.subrange(0, i as int));
        }
    }
    proof {
        assert(data@.subrange(0, data@.len() as int) =~= data@);
    }
    r
}

// ---------------------------------------------------------------------------
// Parsing.
// ---------------------------------------------------------------------------

/// `i` is the position of the first occurrence of `b` in `s`.
pub open spec fn is_first_at(s: Seq<u8>, b: u8, i: int) -> bool {
    &&& 0 <= i < s.len()
    &&& s[i] == b
    &&& forall|j: int| 0 <= j < i ==> s[j] != b
}

/// The position of the first occurrence of `b` in `s`, if there is one.
pub open spec fn first_byte(s: Seq<u8>, b: u8) -> Option<int> {
    if exists|i: int| is_first_at(s, b, i) {
        Some(choose|i: int| is_first_at(s, b, i))
    } else {
        None
    }
}

pub proof fn lemma_first_byte_unique(s: Seq<u8>, b: u8, i: int)
    requires
        is_first_at(s, b, i),
    ensures
        first_byte(s, b) == Some(i),
{
    let j = choose|j: int| is_first_at(s, b, j);
    if j < i {
        assert(s[j] == b);
    } else if i < j {
        assert(s[i] == b);
    }
}

pub fn scan_byte(v: &Vec<u8>, b: u8) -> (r: Option<usize>)
    ensures
        match r {
            Some(i) => is_first_at(v@, b, i as int) && first_byte(v@, b) == Some(i as int),
            None => first_byte(v@, b) is None,
        },
{
    let mut i: usize = 0;
    while i < v.len()
        invariant
            i <= v.len(),
            forall|j: int| 0 <= j < i ==> v@[j] != b,
        decreases v.len() - i,
    {
        if v[i] == b {
            proof {
                lemma_first_byte_unique(v@, b, i as int);
            }
            return Some(i);
        }
        i += 1;
    }
    proof {
        if exists|k: int| is_first_at(v@, b, k) {
            let k = choose|k: int| is_first_at(v@, b, k);
            assert(v@[k] != b);
        }
    }
    None
}

/// The value a digit string denotes: any nonempty all-digit string is
/// accepted.
pub open spec fn dec_val(d: Seq<u8>) -> Option<nat> {
    if d.len() > 0 && all_digits(d) {
        Some(dec_num(d))
    } else {
        None
    }
}

/// What a serialized byte string parses to: the header before the first NUL
/// names a kind and a size, and the size must equal the payload length.
pub open spec fn parse_header(h: Seq<u8>) -> Option<(Kind, nat)> {
    match first_byte(h, 32u8) {
        None => None,
        Some(sp) => match kind_of_token(h.subrange(0, sp)) {
            None => None,
            Some(k) => match dec_val(h.subrange(sp + 1, h.len() as int)) {
                None => None,
                Some(n) => Some((k, n)),
            },
        },
    }
}

pub open spec fn parse_obj(s: Seq<u8>) -> Option<(Kind, Seq<u8>)> {
    match first_byte(s, 0u8) {
        None => None,
        Some(p) => {
            let data = s.subrange(p + 1, s.len() as int);
            match parse_header(s.subrange(0, p)) {
                None => None,
                Some((k, n)) => if n == data.len() {
                    Some((k, data))
                } else {
                    None
                },
            }
        },
    }
}

/// Copies `v[a..b]` into a fresh vector.
pub fn subvec(v: &Vec<u8>, a: usize, b: usize) -> (r: Vec<u8>)
    requires
        a <= b <= v@.len(),
    ensures
        r@ == v@.subrange(a as int, b as int),
{
    let mut r: Vec<u8> = Vec::new();
    let mut i: usize = a;
    while i < b
        invariant
            a <= i <= b <= v@.len(),
            r@ == v@.subrange(a as int, i as int),
        decreases b - i,
    {
        r.push(v[i]);
        i += 1;
        proof {
            assert(v@.subrange(a as int, i - 1).push(v@[i - 1]) =~= v@.subrange(
                a as int,
                i as int,
            ));
        }
    }
    r
}

pub fn parse_kind(tok: &Vec<u8>) -> (r: Option<Kind>)
    ensures
        r == kind_of_token(tok@),
{
    let blob = kind_bytes(Kind::Blob);
    let tree = kind_bytes(Kind::Tree);
    let commit = kind_bytes(Kind::Commit);
    let tag = kind_bytes(Kind::Tag);
    if bytes_eq(tok, &blob) {
        Some(Kind::Blob)
    } else if bytes_eq(tok, &tree) {
        Some(Kind::Tree)
    } else if bytes_eq(tok, &commit) {
        Some(Kind::Commit)
    } else if bytes_eq(tok, &tag) {
        Some(Kind::Tag)
    } else {
        None
    }
}

/// Parses the digits `v[a..b]`, reporting `None` both on malformed digit
/// strings and on values that cannot index memory on this machine; in the
/// latter case the value can never equal a payload length, which is what
/// callers compare it against.
fn parse_size(v: &Vec<u8>, a: usize, b: usize) -> (r: Option<usize>)
    requires
        a <= b <= v@.len(),
    ensures
        match r {
            Some(n) => dec_val(v@.subrange(a as int, b as int)) == Some(n as nat),
            None => {
                let d = dec_val(v@.subrange(a as int, b as int));
                d is None || d.unwrap() > usize::MAX
            },
        },
{
    let ghost digits = v@.subrange(a as int, b as int);
    if a == b {
        return None;
    }
    let mut n: usize = 0;
    let mut i: usize = a;
    while i < b
        invariant
            a <= i <= b <= v@.len(),
            digits == v@.subrange(a as int, b as int),
            n as nat == dec_num(digits.subrange(0, i - a)),
            all_digits(digits.subrange(0, i - a)),
        decreases b - i,
    {
        let c = v[i];
        if c < 48 || c > 57 {
            proof {
                assert(digits[i - a] == c);
            }
            return None;
        }
        let d = c - 48;
        if n > (usize::MAX - d as usize) / 10 {
            proof {
                assert(digits.subrange(0, i - a + 1).drop_last() =~= digits.subrange(0, i - a));
                assert(dec_num(digits.subrange(0, i - a + 1)) == n * 10 + d);
                assert(n * 10 + d > usize::MAX) by (nonlinear_arith)
                    requires
                        n > (usize::MAX - d as usize) / 10,
                        d < 10,
                ;
                if dec_val(digits) is Some {
                    lemma_dec_num_prefix(digits, i - a + 1);
                    assert(dec_val(digits).unwrap() > usize::MAX);
                }
            }
            return None;
        }
        n = n * 10 + d as usize;
        i += 1;
        proof {
            assert(digits.subrange(0, i - a).drop_last() =~= digits.subrange(0, i - a - 1));
            assert(digits.subrange(0, i - a).last() == c);
        }
    }
    proof {
        assert(digits.subrange(0, b - a) =~= digits);
    }
    Some(n)
}

/// A typed failure from a lookup: the key was absent everywhere, or bytes
/// were present but failed to decompress, parse, or match their declared
/// size. Access failures of the real filesystem stay at the boundary that
/// reads it; an alternates cycle is truncated, never surfaced.
#[derive(Clone, Copy, PartialEq, Eq, Structural, Debug)]
pub enum FindError {
    NotFound,
    Corrupt,
}

/// Parses a serialized object, validating the declared size against the
/// payload length.
pub fn parse_object(bytes: &Vec<u8>) -> (r: Result<Object, FindError>)
    ensures
        match r {
            Ok(o) => parse_obj(bytes@) == Some((o.kind, o.data@)),
            Err(e) => parse_obj(bytes@) is None && e == FindError::Corrupt,
        },
{
    let p = match scan_byte(bytes, 0u8) {
        None => {
            return Err(FindError::Corrupt);
        },
        Some(p) => p,
    };
    let ghost header = bytes@.subrange(0, p as int);
    let sp = match scan_byte_to(bytes, p, 32u8) {
        None => {
            return Err(FindError::Corrupt);
        },
        Some(sp) => sp,
    };
    let tok = subvec(bytes, 0, sp);
    proof {
        assert(tok@ =~= header.subrange(0, sp as int));
    }
    let kind = match parse_kind(&tok) {
        None => {
            return Err(FindError::Corrupt);
        },
        Some(k) => k,
    };
    let size = parse_size(bytes, sp + 1, p);
    proof {
        assert(bytes@.subrange(sp + 1, p as int) =~= header.subrange(sp + 1, header.len() as int));
    }
    let data_len = bytes.len() - p - 1;
    match size {
        None => Err(FindError::Corrupt),
        Some(n) => {
            if n == data_len {
                let data = subvec(bytes, p + 1, bytes.len());
                Ok(Object { kind, data })
            } else {
                Err(FindError::Corrupt)
            }
        },
    }
}

/// Finds the first `b` within `v[..c]`.
fn scan_byte_to(v: &Vec<u8>, c: usize, b: u8) -> (r: Option<usize>)
    requires
        c <= v@.len(),
    ensures
        match r {
            Some(i) => i < c && first_byte(v@.subrange(0, c as int), b) == Some(i as int),
            None => first_byte(v@.subrange(0, c as int), b) is None,
        },
{
    let ghost s = v@.subrange(0, c as int);
    let mut i: usize = 0;
    while i < c
        invariant
            i <= c <= v@.len(),
            s == v@.subrange(0, c as int),
            forall|j: int| 0 <= j < i ==> s[j] != b,
        decreases c - i,
    {
        if v[i] == b {
            proof {
                assert(s[i as int] == b);
                lemma_first_byte_unique(s, b, i as int);
            }
            return Some(i);
        }
        proof {
            assert(s[i as int] == v@[i as int]);
        }
        i += 1;
    }
    proof {
        if exists|k: int| is_first_at(s, b, k) {
            let k = choose|k: int| is_first_at(s, b, k);
            assert(s[k] != b);
        }
    }
    None
}

/// Parsing inverts serialization: the canonical form of any object parses
/// back to exactly that kind and payload.
pub proof fn lemma_parse_of_encode(kind: Kind, data: Seq<u8>)
    ensures
        parse_obj(encode_spec(kind, data)) == Some((kind, data)),
{
    let s = encode_spec(kind, data);
    let tok = kind_token(kind);
    let rep = dec_rep(data.len());
    lemma_dec_rep_digits(data.len());
    let p: int = tok.len() as int + 1 + rep.len() as int;
    assert forall|j: int| 0 <= j < p implies s[j] != 0u8 by {
        if j < tok.len() {
            lemma_token_bytes(kind, j);
        } else if j == tok.len() {
            assert(s[j] == 32u8);
        } else {
            assert(s[j] == rep[j - tok.len() - 1]);
        }
    }
    assert(s[p as int] == 0u8);
    assert(is_first_at(s, 0u8, p as int));
    lemma_first_byte_unique(s, 0u8, p as int);
    let header = s.subrange(0, p as int);
    assert(header =~= tok + seq![32u8] + rep);
    assert forall|j: int| 0 <= j < tok.len() implies header[j] != 32u8 by {
        lemma_token_bytes(kind, j);
    }
    assert(header[tok.len() as int] == 32u8);
    assert(is_first_at(header, 32u8, tok.len() as int));
    lemma_first_byte_unique(header, 32u8, tok.len() as int);
    assert(header.subrange(0, tok.len() as int) =~= tok);
    lemma_tokens_distinct(kind);
    assert(header.subrange(tok.len() as int + 1, header.len() as int) =~= rep);
    lemma_dec_num_of_rep(data.len());
    assert(dec_val(rep) == Some(data.len()));
    assert(s.subrange(p + 1, s.len() as int) =~= data);
}

/// What probing one location for an id yields, at specification level: a
/// decoded object, a clean miss, or bytes that are present but damaged.
pub enum Lookup {
    Hit(Kind, Seq<u8>),
    Miss,
    Bad,
}

/// The identifier of an object: the digest of its canonical serialized
/// form.
pub open spec fn id_of(kind: Kind, data: Seq<u8>) -> Seq<u8> {
    crate::digest::sha1_of(encode_spec(kind, data))
}

/// Computes the identifier a kind and payload hash to.
pub fn compute_id(kind: Kind, data: &Vec<u8>) -> (r: ObjectId)
    ensures
        r@ == id_of(kind, data@),
        r.wf(),
{
    let enc = encode_object(kind, data);
    let h = crate::digest::sha1_digest(&enc);
    ObjectId::from_bytes(h)
}

/// Every byte of a kind token is a lowercase ASCII letter.
proof fn lemma_token_bytes(kind: Kind, j: int)
    requires
        0 <= j < kind_token(kind).len(),
    ensures
        97 <= kind_token(kind)[j] <= 122,
{
}

/// No token names two kinds.
proof fn lemma_tokens_distinct(kind: Kind)
    ensures
        kind_of_token(kind_token(kind)) == Some(kind),
{
    let b = kind_token(Kind::Blob);
    let t = kind_token(Kind::Tree);
    let c = kind_token(Kind::Commit);
    let g = kind_token(Kind::Tag);
    assert(b[0] != t[0] && b.len() != c.len() && b[0] != g[0] && t.len() != c.len() && t[1]
        != g[1] && c.len() != g.len());
}

} // verus!
