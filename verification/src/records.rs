//! The archived records: the values the column families hold, with their
//! byte encodings. Every record decodes back to the value it was encoded
//! from; the store facade states its contracts over these encodings.
//!
//! Layout primitives: unsigned integers are 8-byte big-endian; signed
//! integers are a sign byte plus the big-endian magnitude; byte strings
//! are length-prefixed; options are a presence byte.

use crate::wire::{i64_enc, lemma_i64_enc_len, lemma_u64_be_len, lemma_u64_be_val, u64_be,
    u64_be_val, enc_i64, u64_to_be, u64_from_be};
use vstd::prelude::*;

verus! {

// ---------------------------------------------------------------------------
// Spec encodings of the primitives.
// ---------------------------------------------------------------------------
pub open spec fn enc_bytes(b: Seq<u8>) -> Seq<u8> {
    u64_be(b.len() as u64) + b
}

pub open spec fn enc_bool(b: bool) -> Seq<u8> {
    if b {
        seq![1u8]
    } else {
        seq![0u8]
    }
}

pub open spec fn enc_opt_bytes(o: Option<Seq<u8>>) -> Seq<u8> {
    match o {
        None => seq![0u8],
        Some(b) => seq![1u8] + enc_bytes(b),
    }
}

pub open spec fn enc_opt_u64(o: Option<u64>) -> Seq<u8> {
    match o {
        None => seq![0u8],
        Some(x) => seq![1u8] + u64_be(x),
    }
}

/// A byte-string that fits its length prefix: every `Vec<u8>` does.
pub open spec fn fits(b: Seq<u8>) -> bool {
    b.len() < 0x1_0000_0000_0000_0000
}

// ---------------------------------------------------------------------------
// Spec decoders of the primitives. Each takes the buffer and a position
// and returns the decoded value with the position after it.
// ---------------------------------------------------------------------------
pub open spec fn sdec_u64(s: Seq<u8>, pos: int) -> Option<(u64, int)> {
    if 0 <= pos && pos + 8 <= s.len() {
        Some((u64_be_val(s.subrange(pos, pos + 8)), pos + 8))
    } else {
        None
    }
}

pub open spec fn sdec_i64(s: Seq<u8>, pos: int) -> Option<(i64, int)> {
    if 0 <= pos && pos + 9 <= s.len() {
        let tag = s[pos];
        let m = u64_be_val(s.subrange(pos + 1, pos + 9));
        if m > 0x7fff_ffff_ffff_ffff {
            None
        } else if tag == 0u8 {
            Some((m as i64, pos + 9))
        } else if tag == 1u8 {
            Some(((-1 - m) as i64, pos + 9))
        } else {
            None
        }
    } else {
        None
    }
}

pub open spec fn sdec_bool(s: Seq<u8>, pos: int) -> Option<(bool, int)> {
    if 0 <= pos && pos + 1 <= s.len() {
        if s[pos] == 1u8 {
            Some((true, pos + 1))
        } else if s[pos] == 0u8 {
            Some((false, pos + 1))
        } else {
            None
        }
    } else {
        None
    }
}

pub open spec fn sdec_bytes(s: Seq<u8>, pos: int) -> Option<(Seq<u8>, int)> {
    match sdec_u64(s, pos) {
        None => None,
        Some((n, p)) => if p + n <= s.len() {
            Some((s.subrange(p, p + n), p + n))
        } else {
            None
        },
    }
}

pub open spec fn sdec_opt_bytes(s: Seq<u8>, pos: int) -> Option<(Option<Seq<u8>>, int)> {
    if 0 <= pos && pos + 1 <= s.len() {
        if s[pos] == 0u8 {
            Some((None, pos + 1))
        } else if s[pos] == 1u8 {
            match sdec_bytes(s, pos + 1) {
                None => None,
                Some((b, p)) => Some((Some(b), p)),
            }
        } else {
            None
        }
    } else {
        None
    }
}

pub open spec fn sdec_opt_u64(s: Seq<u8>, pos: int) -> Option<(Option<u64>, int)> {
    if 0 <= pos && pos + 1 <= s.len() {
        if s[pos] == 0u8 {
            Some((None, pos + 1))
        } else if s[pos] == 1u8 {
            match sdec_u64(s, pos + 1) {
                None => None,
                Some((x, p)) => Some((Some(x), p)),
            }
        } else {
            None
        }
    } else {
        None
    }
}

// ---------------------------------------------------------------------------
// Round-trip lemmas of the primitives: a decoder at a position where the
// buffer holds an encoding reads back the encoded value.
// ---------------------------------------------------------------------------
pub proof fn lemma_sdec_u64(s: Seq<u8>, pos: int, x: u64)
    requires
        0 <= pos,
        pos + 8 <= s.len(),
        s.subrange(pos, pos + 8) == u64_be(x),
    ensures
        sdec_u64(s, pos) == Some((x, pos + 8)),
{
    lemma_u64_be_val(x);
}

pub proof fn lemma_sdec_i64(s: Seq<u8>, pos: int, x: i64)
    requires
        0 <= pos,
        pos + 9 <= s.len(),
        s.subrange(pos, pos + 9) == i64_enc(x),
    ensures
        sdec_i64(s, pos) == Some((x, pos + 9)),
{
    let e = i64_enc(x);
    lemma_i64_enc_len(x);
    assert(s[pos] == s.subrange(pos, pos + 9)[0]);
    assert(s.subrange(pos + 1, pos + 9) =~= s.subrange(pos, pos + 9).subrange(1, 9));
    if x >= 0 {
        lemma_u64_be_val(x as u64);
        assert(e[0] == 0u8);
        assert(e.subrange(1, 9) =~= u64_be(x as u64));
    } else {
        lemma_u64_be_val((-1 - x) as u64);
        assert(e[0] == 1u8);
        assert(e.subrange(1, 9) =~= u64_be((-1 - x) as u64));
    }
}

pub proof fn lemma_sdec_bool(s: Seq<u8>, pos: int, b: bool)
    requires
        0 <= pos,
        pos + 1 <= s.len(),
        s.subrange(pos, pos + 1) == enc_bool(b),
    ensures
        sdec_bool(s, pos) == Some((b, pos + 1)),
{
    assert(s[pos] == s.subrange(pos, pos + 1)[0]);
}

pub proof fn lemma_sdec_bytes(s: Seq<u8>, pos: int, b: Seq<u8>)
    requires
        0 <= pos,
        fits(b),
        pos + enc_bytes(b).len() <= s.len(),
        s.subrange(pos, pos + enc_bytes(b).len()) == enc_bytes(b),
    ensures
        enc_bytes(b).len() == 8 + b.len(),
        sdec_bytes(s, pos) == Some((b, pos + 8 + b.len())),
{
    lemma_u64_be_val(b.len() as u64);
    let e = enc_bytes(b);
    assert(e.len() == 8 + b.len());
    assert(s.subrange(pos, pos + 8) =~= e.subrange(0, 8));
    assert(e.subrange(0, 8) =~= u64_be(b.len() as u64));
    lemma_sdec_u64(s, pos, b.len() as u64);
    assert(s.subrange(pos + 8, pos + 8 + b.len()) =~= e.subrange(8, e.len() as int));
    assert(e.subrange(8, e.len() as int) =~= b);
}

pub proof fn lemma_sdec_opt_bytes(s: Seq<u8>, pos: int, o: Option<Seq<u8>>)
    requires
        0 <= pos,
        (o matches Some(b) ==> fits(b)),
        pos + enc_opt_bytes(o).len() <= s.len(),
        s.subrange(pos, pos + enc_opt_bytes(o).len()) == enc_opt_bytes(o),
    ensures
        sdec_opt_bytes(s, pos) == Some((o, pos + enc_opt_bytes(o).len())),
{
    let e = enc_opt_bytes(o);
    assert(s[pos] == s.subrange(pos, pos + e.len() as int)[0]);
    match o {
        None => {
            assert(e[0] == 0u8);
        },
        Some(b) => {
            assert(e[0] == 1u8);
            assert(s.subrange(pos + 1, pos + 1 + enc_bytes(b).len() as int) =~= e.subrange(
                1,
                1 + enc_bytes(b).len() as int,
            ));
            assert(e.subrange(1, 1 + enc_bytes(b).len() as int) =~= enc_bytes(b));
            lemma_sdec_bytes(s, pos + 1, b);
        },
    }
}

pub proof fn lemma_sdec_opt_u64(s: Seq<u8>, pos: int, o: Option<u64>)
    requires
        0 <= pos,
        pos + enc_opt_u64(o).len() <= s.len(),
        s.subrange(pos, pos + enc_opt_u64(o).len()) == enc_opt_u64(o),
    ensures
        sdec_opt_u64(s, pos) == Some((o, pos + enc_opt_u64(o).len())),
{
    let e = enc_opt_u64(o);
    assert(s[pos] == s.subrange(pos, pos + e.len() as int)[0]);
    match o {
        None => {
            assert(e[0] == 0u8);
        },
        Some(x) => {
            lemma_u64_be_len(x);
            assert(e[0] == 1u8);
            assert(s.subrange(pos + 1, pos + 9) =~= e.subrange(1, 9));
            assert(e.subrange(1, 9) =~= u64_be(x));
            lemma_sdec_u64(s, pos + 1, x);
        },
    }
}

// ---------------------------------------------------------------------------
// Exec mirrors of the primitive decoders.
// ---------------------------------------------------------------------------
/// Copy `s[a..b]` out of a buffer.
pub fn copy_range(s: &Vec<u8>, a: usize, b: usize) -> (r: Vec<u8>)
    requires
        a <= b <= s@.len(),
    ensures
        r@ == s@.subrange(a as int, b as int),
{
    let mut r: Vec<u8> = Vec::new();
    let mut i: usize = a;
    while i < b
        invariant
            a <= i <= b <= s@.len(),
            r@ == s@.subrange(a as int, i as int),
        decreases b - i,
    {
        r.push(s[i]);
        proof {
            assert(r@ =~= s@.subrange(a as int, i + 1));
        }
        i = i + 1;
    }
    r
}

pub fn dec_u64(s: &Vec<u8>, pos: usize) -> (r: Option<(u64, usize)>)
    ensures
        match sdec_u64(s@, pos as int) {
            Some((v, p)) => r matches Some(rp) && rp.0 == v && rp.1 == p,
            None => r is None,
        },
{
    if s.len() < 8 || pos > s.len() - 8 {
        return None;
    }
    let field = copy_range(s, pos, pos + 8);
    let v = u64_from_be(field.as_slice());
    Some((v, pos + 8))
}

pub fn dec_i64(s: &Vec<u8>, pos: usize) -> (r: Option<(i64, usize)>)
    ensures
        match sdec_i64(s@, pos as int) {
            Some((v, p)) => r matches Some(rp) && rp.0 == v && rp.1 == p,
            None => r is None,
        },
{
    if s.len() < 9 || pos > s.len() - 9 {
        return None;
    }
    let tag = s[pos];
    let field = copy_range(s, pos + 1, pos + 9);
    let m = u64_from_be(field.as_slice());
    if m > 0x7fff_ffff_ffff_ffff {
        return None;
    }
    if tag == 0u8 {
        Some((m as i64, pos + 9))
    } else if tag == 1u8 {
        let v: i64 = -1i64 - (m as i64);
        Some((v, pos + 9))
    } else {
        None
    }
}

pub fn dec_bool(s: &Vec<u8>, pos: usize) -> (r: Option<(bool, usize)>)
    ensures
        match sdec_bool(s@, pos as int) {
            Some((v, p)) => r matches Some(rp) && rp.0 == v && rp.1 == p,
            None => r is None,
        },
{
    if pos >= s.len() {
        return None;
    }
    if s[pos] == 1u8 {
        Some((true, pos + 1))
    } else if s[pos] == 0u8 {
        Some((false, pos + 1))
    } else {
        None
    }
}

pub fn dec_bytes(s: &Vec<u8>, pos: usize) -> (r: Option<(Vec<u8>, usize)>)
    ensures
        match sdec_bytes(s@, pos as int) {
            Some((v, p)) => r matches Some(rp) && rp.0@ == v && rp.1 == p,
            None => r is None,
        },
{
    let (n, p) = match dec_u64(s, pos) {
        Some(x) => x,
        None => return None,
    };
    if n > s.len() as u64 - p as u64 {
        return None;
    }
    let b = copy_range(s, p, p + n as usize);
    Some((b, p + n as usize))
}

pub fn dec_opt_bytes(s: &Vec<u8>, pos: usize) -> (r: Option<(Option<Vec<u8>>, usize)>)
    ensures
        match sdec_opt_bytes(s@, pos as int) {
            Some((v, p)) => r matches Some(rp) && rp.1 == p && (match (rp.0, v) {
                (Some(rb), Some(vb)) => rb@ == vb,
                (None, None) => true,
                _ => false,
            }),
            None => r is None,
        },
{
    if pos >= s.len() {
        return None;
    }
    if s[pos] == 0u8 {
        Some((None, pos + 1))
    } else if s[pos] == 1u8 {
        match dec_bytes(s, pos + 1) {
            Some((b, p)) => Some((Some(b), p)),
            None => None,
        }
    } else {
        None
    }
}

pub fn dec_opt_u64(s: &Vec<u8>, pos: usize) -> (r: Option<(Option<u64>, usize)>)
    ensures
        match sdec_opt_u64(s@, pos as int) {
            Some((v, p)) => r matches Some(rp) && rp.0 == v && rp.1 == p,
            None => r is None,
        },
{
    if pos >= s.len() {
        return None;
    }
    if s[pos] == 0u8 {
        Some((None, pos + 1))
    } else if s[pos] == 1u8 {
        match dec_u64(s, pos + 1) {
            Some((x, p)) => Some((Some(x), p)),
            None => None,
        }
    } else {
        None
    }
}

// ---------------------------------------------------------------------------
// Exec encoders of the primitives.
// ---------------------------------------------------------------------------
pub fn put_u64(x: u64, out: &mut Vec<u8>)
    ensures
        final(out)@ == old(out)@ + u64_be(x),
{
    let mut b = u64_to_be(x);
    out.append(&mut b);
}

pub fn put_bytes(b: &Vec<u8>, out: &mut Vec<u8>)
    ensures
        final(out)@ == old(out)@ + enc_bytes(b@),
{
    put_u64(b.len() as u64, out);
    let mut c = b.clone();
    out.append(&mut c);
    proof {
        assert(out@ =~= old(out)@ + enc_bytes(b@));
    }
}

pub fn put_bool(b: bool, out: &mut Vec<u8>)
    ensures
        final(out)@ == old(out)@ + enc_bool(b),
{
    if b {
        out.push(1u8);
    } else {
        out.push(0u8);
    }
    proof {
        assert(out@ =~= old(out)@ + enc_bool(b));
    }
}

pub fn put_opt_bytes(o: &Option<Vec<u8>>, out: &mut Vec<u8>)
    ensures
        final(out)@ == old(out)@ + enc_opt_bytes(match *o {
            Some(ref b) => Some(b@),
            None => None,
        }),
{
    match o {
        None => {
            out.push(0u8);
            proof {
                assert(out@ =~= old(out)@ + enc_opt_bytes(None));
            }
        },
        Some(b) => {
            out.push(1u8);
            put_bytes(b, out);
            proof {
                assert(out@ =~= old(out)@ + enc_opt_bytes(Some(b@)));
            }
        },
    }
}

pub fn put_opt_u64(o: &Option<u64>, out: &mut Vec<u8>)
    ensures
        final(out)@ == old(out)@ + enc_opt_u64(*o),
{
    match o {
        None => {
            out.push(0u8);
            proof {
                assert(out@ =~= old(out)@ + enc_opt_u64(None));
            }
        },
        Some(x) => {
            out.push(1u8);
            put_u64(*x, out);
            proof {
                assert(out@ =~= old(out)@ + enc_opt_u64(Some(*x)));
            }
        },
    }
}

pub fn put_i64(x: i64, out: &mut Vec<u8>)
    ensures
        final(out)@ == old(out)@ + i64_enc(x),
{
    enc_i64(x, out);
}

// ---------------------------------------------------------------------------
// u16 primitive (tree entry modes, little-endian).
// ---------------------------------------------------------------------------
pub open spec fn sdec_u16(s: Seq<u8>, pos: int) -> Option<(u16, int)> {
    if 0 <= pos && pos + 2 <= s.len() {
        Some((vstd::bytes::spec_u16_from_le_bytes(s.subrange(pos, pos + 2)), pos + 2))
    } else {
        None
    }
}

pub proof fn lemma_sdec_u16(s: Seq<u8>, pos: int, x: u16)
    requires
        0 <= pos,
        pos + 2 <= s.len(),
        s.subrange(pos, pos + 2) == crate::wire::u16_le(x),
    ensures
        sdec_u16(s, pos) == Some((x, pos + 2)),
{
    vstd::bytes::lemma_auto_spec_u16_to_from_le_bytes();
    assert(vstd::bytes::spec_u16_to_le_bytes(x).len() == 2);
    assert(vstd::bytes::spec_u16_from_le_bytes(vstd::bytes::spec_u16_to_le_bytes(x)) == x);
    assert(s.subrange(pos, pos + 2) == vstd::bytes::spec_u16_to_le_bytes(x));
}

pub fn dec_u16(s: &Vec<u8>, pos: usize) -> (r: Option<(u16, usize)>)
    ensures
        match sdec_u16(s@, pos as int) {
            Some((v, p)) => r matches Some(rp) && rp.0 == v && rp.1 == p,
            None => r is None,
        },
{
    if s.len() < 2 || pos > s.len() - 2 {
        return None;
    }
    let field = copy_range(s, pos, pos + 2);
    let v = vstd::bytes::u16_from_le_bytes(field.as_slice());
    Some((v, pos + 2))
}

pub fn put_u16(x: u16, out: &mut Vec<u8>)
    ensures
        final(out)@ == old(out)@ + crate::wire::u16_le(x),
{
    let mut b = crate::wire::u16_to_le(x);
    out.append(&mut b);
}

// ---------------------------------------------------------------------------
// Author.
// ---------------------------------------------------------------------------
/// A name, an email address, and a time as `(unix_seconds, utc_offset_seconds)`.
pub struct Author {
    pub name: Vec<u8>,
    pub email: Vec<u8>,
    pub time: (i64, i32),
}

#[verifier::ext_equal]
pub ghost struct AuthorV {
    pub name: Seq<u8>,
    pub email: Seq<u8>,
    pub seconds: i64,
    pub offset: i32,
}

impl View for Author {
    type V = AuthorV;

    open spec fn view(&self) -> AuthorV {
        AuthorV {
            name: self.name@,
            email: self.email@,
            seconds: self.time.0,
            offset: self.time.1,
        }
    }
}

pub open spec fn enc_author(a: AuthorV) -> Seq<u8> {
    enc_bytes(a.name) + enc_bytes(a.email) + i64_enc(a.seconds) + i64_enc(a.offset as i64)
}

pub open spec fn sdec_author(s: Seq<u8>, pos: int) -> Option<(AuthorV, int)> {
    match sdec_bytes(s, pos) {
        None => None,
        Some((name, p1)) => match sdec_bytes(s, p1) {
            None => None,
            Some((email, p2)) => match sdec_i64(s, p2) {
                None => None,
                Some((sec, p3)) => match sdec_i64(s, p3) {
                    None => None,
                    Some((off, p4)) => if -0x8000_0000 <= off <= 0x7fff_ffff {
                        Some(
                            (
                                AuthorV { name, email, seconds: sec, offset: off as i32 },
                                p4,
                            ),
                        )
                    } else {
                        None
                    },
                },
            },
        },
    }
}

pub proof fn lemma_sdec_author(s: Seq<u8>, pos: int, a: AuthorV)
    requires
        0 <= pos,
        fits(a.name),
        fits(a.email),
        pos + enc_author(a).len() <= s.len(),
        s.subrange(pos, pos + enc_author(a).len()) == enc_author(a),
    ensures
        sdec_author(s, pos) == Some((a, pos + enc_author(a).len())),
{
    let e = enc_author(a);
    let l1 = enc_bytes(a.name).len() as int;
    let l2 = enc_bytes(a.email).len() as int;
    lemma_i64_enc_len(a.seconds);
    lemma_i64_enc_len(a.offset as i64);
    assert(e.len() == l1 + l2 + 18);
    assert(s.subrange(pos, pos + l1) =~= e.subrange(0, l1));
    assert(e.subrange(0, l1) =~= enc_bytes(a.name));
    lemma_sdec_bytes(s, pos, a.name);
    let p1 = pos + l1;
    assert(s.subrange(p1, p1 + l2) =~= e.subrange(l1, l1 + l2));
    assert(e.subrange(l1, l1 + l2) =~= enc_bytes(a.email));
    lemma_sdec_bytes(s, p1, a.email);
    let p2 = p1 + l2;
    assert(s.subrange(p2, p2 + 9) =~= e.subrange(l1 + l2, l1 + l2 + 9));
    assert(e.subrange(l1 + l2, l1 + l2 + 9) =~= i64_enc(a.seconds));
    lemma_sdec_i64(s, p2, a.seconds);
    let p3 = p2 + 9;
    assert(s.subrange(p3, p3 + 9) =~= e.subrange(l1 + l2 + 9, l1 + l2 + 18));
    assert(e.subrange(l1 + l2 + 9, l1 + l2 + 18) =~= i64_enc(a.offset as i64));
    lemma_sdec_i64(s, p3, a.offset as i64);
    assert(sdec_author(s, pos) matches Some((v, p)) && p == pos + e.len() && v =~= a);
}

pub fn put_author(a: &Author, out: &mut Vec<u8>)
    ensures
        final(out)@ == old(out)@ + enc_author(a@),
{
    put_bytes(&a.name, out);
    put_bytes(&a.email, out);
    put_i64(a.time.0, out);
    put_i64(a.time.1 as i64, out);
    proof {
        assert(out@ =~= old(out)@ + enc_author(a@));
    }
}

pub fn dec_author(s: &Vec<u8>, pos: usize) -> (r: Option<(Author, usize)>)
    ensures
        match sdec_author(s@, pos as int) {
            Some((v, p)) => r matches Some(rp) && rp.0@ == v && rp.1 == p,
            None => r is None,
        },
{
    let (name, p1) = match dec_bytes(s, pos) {
        Some(x) => x,
        None => return None,
    };
    let (email, p2) = match dec_bytes(s, p1) {
        Some(x) => x,
        None => return None,
    };
    let (sec, p3) = match dec_i64(s, p2) {
        Some(x) => x,
        None => return None,
    };
    let (off, p4) = match dec_i64(s, p3) {
        Some(x) => x,
        None => return None,
    };
    if off < -0x8000_0000i64 || off > 0x7fff_ffffi64 {
        return None;
    }
    let a = Author { name, email, time: (sec, off as i32) };
    proof {
        assert(a@ =~= sdec_author(s@, pos as int)->Some_0.0);
    }
    Some((a, p4))
}

// ---------------------------------------------------------------------------
// Commit.
// ---------------------------------------------------------------------------
/// One commit of a reference: summary line, body, author, committer, the
/// 20-byte object id, and the content address of its tree.
pub struct Commit {
    pub summary: Vec<u8>,
    pub message: Vec<u8>,
    pub author: Author,
    pub committer: Author,
    pub hash: Vec<u8>,
    pub tree: u64,
}

#[verifier::ext_equal]
pub ghost struct CommitV {
    pub summary: Seq<u8>,
    pub message: Seq<u8>,
    pub author: AuthorV,
    pub committer: AuthorV,
    pub hash: Seq<u8>,
    pub tree: u64,
}

impl View for Commit {
    type V = CommitV;

    open spec fn view(&self) -> CommitV {
        CommitV {
            summary: self.summary@,
            message: self.message@,
            author: self.author@,
            committer: self.committer@,
            hash: self.hash@,
            tree: self.tree,
        }
    }
}

pub open spec fn enc_commit(c: CommitV) -> Seq<u8> {
    enc_bytes(c.summary) + enc_bytes(c.message) + enc_author(c.author) + enc_author(c.committer)
        + enc_bytes(c.hash) + u64_be(c.tree)
}

pub open spec fn sdec_commit(s: Seq<u8>, pos: int) -> Option<(CommitV, int)> {
    match sdec_bytes(s, pos) {
        None => None,
        Some((summary, p1)) => match sdec_bytes(s, p1) {
            None => None,
            Some((message, p2)) => match sdec_author(s, p2) {
                None => None,
                Some((author, p3)) => match sdec_author(s, p3) {
                    None => None,
                    Some((committer, p4)) => match sdec_bytes(s, p4) {
                        None => None,
                        Some((hash, p5)) => match sdec_u64(s, p5) {
                            None => None,
                            Some((tree, p6)) => if hash.len() == 20 {
                                Some(
                                    (
                                        CommitV {
                                            summary,
                                            message,
                                            author,
                                            committer,
                                            hash,
                                            tree,
                                        },
                                        p6,
                                    ),
                                )
                            } else {
                                None
                            },
                        },
                    },
                },
            },
        },
    }
}

/// A commit fit to persist: the hash is a 20-byte object id.
pub open spec fn valid_commit(c: CommitV) -> bool {
    c.hash.len() == 20
}

#[verifier::rlimit(100)]
#[verifier::spinoff_prover]
pub proof fn lemma_sdec_commit(s: Seq<u8>, pos: int, c: CommitV)
    requires
        0 <= pos,
        valid_commit(c),
        fits(c.summary),
        fits(c.message),
        fits(c.author.name),
        fits(c.author.email),
        fits(c.committer.name),
        fits(c.committer.email),
        pos + enc_commit(c).len() <= s.len(),
        s.subrange(pos, pos + enc_commit(c).len()) == enc_commit(c),
    ensures
        sdec_commit(s, pos) == Some((c, pos + enc_commit(c).len())),
{
    let e = enc_commit(c);
    let l1 = enc_bytes(c.summary).len() as int;
    let l2 = enc_bytes(c.message).len() as int;
    let l3 = enc_author(c.author).len() as int;
    let l4 = enc_author(c.committer).len() as int;
    let l5 = enc_bytes(c.hash).len() as int;
    lemma_u64_be_len(c.tree);
    assert(e.len() == l1 + l2 + l3 + l4 + l5 + 8);
    assert(s.subrange(pos, pos + l1) =~= e.subrange(0, l1));
    assert(e.subrange(0, l1) =~= enc_bytes(c.summary));
    lemma_sdec_bytes(s, pos, c.summary);
    let p1 = pos + l1;
    assert(s.subrange(p1, p1 + l2) =~= e.subrange(l1, l1 + l2));
    assert(e.subrange(l1, l1 + l2) =~= enc_bytes(c.message));
    lemma_sdec_bytes(s, p1, c.message);
    let p2 = p1 + l2;
    assert(s.subrange(p2, p2 + l3) =~= e.subrange(l1 + l2, l1 + l2 + l3));
    assert(e.subrange(l1 + l2, l1 + l2 + l3) =~= enc_author(c.author));
    lemma_sdec_author(s, p2, c.author);
    let p3 = p2 + l3;
    assert(s.subrange(p3, p3 + l4) =~= e.subrange(l1 + l2 + l3, l1 + l2 + l3 + l4));
    assert(e.subrange(l1 + l2 + l3, l1 + l2 + l3 + l4) =~= enc_author(c.committer));
    lemma_sdec_author(s, p3, c.committer);
    let p4 = p3 + l4;
    assert(s.subrange(p4, p4 + l5) =~= e.subrange(l1 + l2 + l3 + l4, l1 + l2 + l3 + l4 + l5));
    assert(e.subrange(l1 + l2 + l3 + l4, l1 + l2 + l3 + l4 + l5) =~= enc_bytes(c.hash));
    lemma_sdec_bytes(s, p4, c.hash);
    let p5 = p4 + l5;
    assert(s.subrange(p5, p5 + 8) =~= e.subrange(l1 + l2 + l3 + l4 + l5, e.len() as int));
    assert(e.subrange(l1 + l2 + l3 + l4 + l5, e.len() as int) =~= u64_be(c.tree));
    lemma_sdec_u64(s, p5, c.tree);
    assert(sdec_commit(s, pos) matches Some((v, p)) && p == pos + e.len() && v =~= c);
}

pub fn put_commit(c: &Commit, out: &mut Vec<u8>)
    ensures
        final(out)@ == old(out)@ + enc_commit(c@),
{
    put_bytes(&c.summary, out);
    put_bytes(&c.message, out);
    put_author(&c.author, out);
    put_author(&c.committer, out);
    put_bytes(&c.hash, out);
    put_u64(c.tree, out);
    proof {
        assert(out@ =~= old(out)@ + enc_commit(c@));
    }
}

/// Encode a commit as the commit family stores it.
pub fn encode_commit(c: &Commit) -> (r: Vec<u8>)
    ensures
        r@ == enc_commit(c@),
{
    let mut out: Vec<u8> = Vec::new();
    put_commit(c, &mut out);
    proof {
        assert(out@ =~= enc_commit(c@));
    }
    out
}

pub fn dec_commit(s: &Vec<u8>, pos: usize) -> (r: Option<(Commit, usize)>)
    ensures
        match sdec_commit(s@, pos as int) {
            Some((v, p)) => r matches Some(rp) && rp.0@ == v && rp.1 == p,
            None => r is None,
        },
{
    let (summary, p1) = match dec_bytes(s, pos) {
        Some(x) => x,
        None => return None,
    };
    let (message, p2) = match dec_bytes(s, p1) {
        Some(x) => x,
        None => return None,
    };
    let (author, p3) = match dec_author(s, p2) {
        Some(x) => x,
        None => return None,
    };
    let (committer, p4) = match dec_author(s, p3) {
        Some(x) => x,
        None => return None,
    };
    let (hash, p5) = match dec_bytes(s, p4) {
        Some(x) => x,
        None => return None,
    };
    let (tree, p6) = match dec_u64(s, p5) {
        Some(x) => x,
        None => return None,
    };
    if hash.len() != 20 {
        return None;
    }
    let c = Commit { summary, message, author, committer, hash, tree };
    proof {
        assert(c@ =~= sdec_commit(s@, pos as int)->Some_0.0);
    }
    Some((c, p6))
}

/// Decode a whole buffer as one commit.
pub fn decode_commit(s: &Vec<u8>) -> (r: Option<Commit>)
    ensures
        match sdec_commit(s@, 0) {
            Some((v, p)) => if p == s@.len() {
                r matches Some(c) && c@ == v
            } else {
                r is None
            },
            None => r is None,
        },
{
    match dec_commit(s, 0) {
        Some((c, p)) => if p == s.len() {
            Some(c)
        } else {
            None
        },
        None => None,
    }
}

/// Encoding then decoding a commit gives it back.
pub proof fn lemma_commit_round_trip(c: CommitV)
    requires
        valid_commit(c),
        fits(c.summary),
        fits(c.message),
        fits(c.author.name),
        fits(c.author.email),
        fits(c.committer.name),
        fits(c.committer.email),
    ensures
        sdec_commit(enc_commit(c), 0) == Some((c, enc_commit(c).len() as int)),
{
    let e = enc_commit(c);
    assert(e.subrange(0, e.len() as int) =~= e);
    lemma_sdec_commit(e, 0, c);
}

// ---------------------------------------------------------------------------
// Tag.
// ---------------------------------------------------------------------------
pub open spec fn enc_opt_author(o: Option<AuthorV>) -> Seq<u8> {
    match o {
        None => seq![0u8],
        Some(a) => seq![1u8] + enc_author(a),
    }
}

pub open spec fn sdec_opt_author(s: Seq<u8>, pos: int) -> Option<(Option<AuthorV>, int)> {
    if 0 <= pos && pos + 1 <= s.len() {
        if s[pos] == 0u8 {
            Some((None, pos + 1))
        } else if s[pos] == 1u8 {
            match sdec_author(s, pos + 1) {
                None => None,
                Some((a, p)) => Some((Some(a), p)),
            }
        } else {
            None
        }
    } else {
        None
    }
}

pub proof fn lemma_sdec_opt_author(s: Seq<u8>, pos: int, o: Option<AuthorV>)
    requires
        0 <= pos,
        (o matches Some(a) ==> fits(a.name) && fits(a.email)),
        pos + enc_opt_author(o).len() <= s.len(),
        s.subrange(pos, pos + enc_opt_author(o).len()) == enc_opt_author(o),
    ensures
        sdec_opt_author(s, pos) == Some((o, pos + enc_opt_author(o).len())),
{
    let e = enc_opt_author(o);
    assert(s[pos] == s.subrange(pos, pos + e.len() as int)[0]);
    match o {
        None => {
            assert(e[0] == 0u8);
        },
        Some(a) => {
            assert(e[0] == 1u8);
            assert(s.subrange(pos + 1, pos + 1 + enc_author(a).len() as int) =~= e.subrange(
                1,
                1 + enc_author(a).len() as int,
            ));
            assert(e.subrange(1, 1 + enc_author(a).len() as int) =~= enc_author(a));
            lemma_sdec_author(s, pos + 1, a);
        },
    }
}

/// An annotated tag: its tagger, if the tag object carried one, and the
/// content address of the tree it peels to, if it peels to one.
pub struct Tag {
    pub tagger: Option<Author>,
    pub tree: Option<u64>,
}

#[verifier::ext_equal]
pub ghost struct TagV {
    pub tagger: Option<AuthorV>,
    pub tree: Option<u64>,
}

impl View for Tag {
    type V = TagV;

    open spec fn view(&self) -> TagV {
        TagV {
            tagger: match self.tagger {
                Some(ref a) => Some(a@),
                None => None,
            },
            tree: self.tree,
        }
    }
}

pub open spec fn enc_tag(t: TagV) -> Seq<u8> {
    enc_opt_author(t.tagger) + enc_opt_u64(t.tree)
}

pub open spec fn sdec_tag(s: Seq<u8>, pos: int) -> Option<(TagV, int)> {
    match sdec_opt_author(s, pos) {
        None => None,
        Some((tagger, p1)) => match sdec_opt_u64(s, p1) {
            None => None,
            Some((tree, p2)) => Some((TagV { tagger, tree }, p2)),
        },
    }
}

pub open spec fn fits_opt_author(o: Option<AuthorV>) -> bool {
    o matches Some(a) ==> fits(a.name) && fits(a.email)
}

#[verifier::rlimit(100)]
#[verifier::spinoff_prover]
pub proof fn lemma_sdec_tag(s: Seq<u8>, pos: int, t: TagV)
    requires
        0 <= pos,
        fits_opt_author(t.tagger),
        pos + enc_tag(t).len() <= s.len(),
        s.subrange(pos, pos + enc_tag(t).len()) == enc_tag(t),
    ensures
        sdec_tag(s, pos) == Some((t, pos + enc_tag(t).len())),
{
    let e = enc_tag(t);
    let l1 = enc_opt_author(t.tagger).len() as int;
    let l2 = enc_opt_u64(t.tree).len() as int;
    assert(e.len() == l1 + l2);
    assert(s.subrange(pos, pos + l1) =~= e.subrange(0, l1));
    assert(e.subrange(0, l1) =~= enc_opt_author(t.tagger));
    lemma_sdec_opt_author(s, pos, t.tagger);
    let p1 = pos + l1;
    assert(s.subrange(p1, p1 + l2) =~= e.subrange(l1, l1 + l2));
    assert(e.subrange(l1, l1 + l2) =~= enc_opt_u64(t.tree));
    lemma_sdec_opt_u64(s, p1, t.tree);
    assert(sdec_tag(s, pos) matches Some((v, p)) && p == pos + e.len() && v =~= t);
}

pub fn put_opt_author(o: &Option<Author>, out: &mut Vec<u8>)
    ensures
        final(out)@ == old(out)@ + enc_opt_author(match *o {
            Some(ref a) => Some(a@),
            None => None,
        }),
{
    match o {
        None => {
            out.push(0u8);
            proof {
                assert(out@ =~= old(out)@ + enc_opt_author(None));
            }
        },
        Some(a) => {
            out.push(1u8);
            put_author(a, out);
            proof {
                assert(out@ =~= old(out)@ + enc_opt_author(Some(a@)));
            }
        },
    }
}

pub fn encode_tag(t: &Tag) -> (r: Vec<u8>)
    ensures
        r@ == enc_tag(t@),
{
    let mut out: Vec<u8> = Vec::new();
    put_opt_author(&t.tagger, &mut out);
    put_opt_u64(&t.tree, &mut out);
    proof {
        assert(out@ =~= enc_tag(t@));
    }
    out
}

pub fn dec_tag(s: &Vec<u8>, pos: usize) -> (r: Option<(Tag, usize)>)
    ensures
        match sdec_tag(s@, pos as int) {
            Some((v, p)) => r matches Some(rp) && rp.0@ == v && rp.1 == p,
            None => r is None,
        },
{
    if pos >= s.len() {
        return None;
    }
    let (tagger, p1): (Option<Author>, usize) = if s[pos] == 0u8 {
        (None, pos + 1)
    } else if s[pos] == 1u8 {
        match dec_author(s, pos + 1) {
            Some((a, p)) => (Some(a), p),
            None => return None,
        }
    } else {
        return None;
    };
    let (tree, p2) = match dec_opt_u64(s, p1) {
        Some(x) => x,
        None => return None,
    };
    let t = Tag { tagger, tree };
    proof {
        assert(t@ =~= sdec_tag(s@, pos as int)->Some_0.0);
    }
    Some((t, p2))
}

pub fn decode_tag(s: &Vec<u8>) -> (r: Option<Tag>)
    ensures
        match sdec_tag(s@, 0) {
            Some((v, p)) => if p == s@.len() {
                r matches Some(t) && t@ == v
            } else {
                r is None
            },
            None => r is None,
        },
{
    match dec_tag(s, 0) {
        Some((t, p)) => if p == s.len() {
            Some(t)
        } else {
            None
        },
        None => None,
    }
}

/// Encoding then decoding a tag gives it back.
pub proof fn lemma_tag_round_trip(t: TagV)
    requires
        fits_opt_author(t.tagger),
    ensures
        sdec_tag(enc_tag(t), 0) == Some((t, enc_tag(t).len() as int)),
{
    let e = enc_tag(t);
    assert(e.subrange(0, e.len() as int) =~= e);
    lemma_sdec_tag(e, 0, t);
}

// ---------------------------------------------------------------------------
// Repository.
// ---------------------------------------------------------------------------
/// Identifier of a repository: assigned on first insert, stable thereafter.
pub struct RepositoryId(pub u64);

/// The per-repository metadata record.
pub struct Repository {
    pub id: u64,
    pub name: Vec<u8>,
    pub description: Option<Vec<u8>>,
    pub owner: Option<Vec<u8>>,
    pub last_modified: (i64, i32),
    pub default_branch: Option<Vec<u8>>,
    pub exported: bool,
}

#[verifier::ext_equal]
pub ghost struct RepositoryV {
    pub id: u64,
    pub name: Seq<u8>,
    pub description: Option<Seq<u8>>,
    pub owner: Option<Seq<u8>>,
    pub seconds: i64,
    pub offset: i32,
    pub default_branch: Option<Seq<u8>>,
    pub exported: bool,
}

pub open spec fn opt_view(o: Option<Vec<u8>>) -> Option<Seq<u8>> {
    match o {
        Some(b) => Some(b@),
        None => None,
    }
}

impl View for Repository {
    type V = RepositoryV;

    open spec fn view(&self) -> RepositoryV {
        RepositoryV {
            id: self.id,
            name: self.name@,
            description: opt_view(self.description),
            owner: opt_view(self.owner),
            seconds: self.last_modified.0,
            offset: self.last_modified.1,
            default_branch: opt_view(self.default_branch),
            exported: self.exported,
        }
    }
}

pub open spec fn enc_repository(r: RepositoryV) -> Seq<u8> {
    u64_be(r.id) + enc_bytes(r.name) + enc_opt_bytes(r.description) + enc_opt_bytes(r.owner)
        + i64_enc(r.seconds) + i64_enc(r.offset as i64) + enc_opt_bytes(r.default_branch)
        + enc_bool(r.exported)
}

pub open spec fn sdec_repository(s: Seq<u8>, pos: int) -> Option<(RepositoryV, int)> {
    match sdec_u64(s, pos) {
        None => None,
        Some((id, p1)) => match sdec_bytes(s, p1) {
            None => None,
            Some((name, p2)) => match sdec_opt_bytes(s, p2) {
                None => None,
                Some((description, p3)) => match sdec_opt_bytes(s, p3) {
                    None => None,
                    Some((owner, p4)) => match sdec_i64(s, p4) {
                        None => None,
                        Some((sec, p5)) => match sdec_i64(s, p5) {
                            None => None,
                            Some((off, p6)) => match sdec_opt_bytes(s, p6) {
                                None => None,
                                Some((default_branch, p7)) => match sdec_bool(s, p7) {
                                    None => None,
                                    Some((exported, p8)) => if -0x8000_0000 <= off
                                        <= 0x7fff_ffff {
                                        Some(
                                            (
                                                RepositoryV {
                                                    id,
                                                    name,
                                                    description,
                                                    owner,
                                                    seconds: sec,
                                                    offset: off as i32,
                                                    default_branch,
                                                    exported,
                                                },
                                                p8,
                                            ),
                                        )
                                    } else {
                                        None
                                    },
                                },
                            },
                        },
                    },
                },
            },
        },
    }
}

pub open spec fn fits_opt(o: Option<Seq<u8>>) -> bool {
    o matches Some(b) ==> fits(b)
}

#[verifier::rlimit(100)]
#[verifier::spinoff_prover]
pub proof fn lemma_sdec_repository(s: Seq<u8>, pos: int, r: RepositoryV)
    requires
        0 <= pos,
        fits(r.name),
        fits_opt(r.description),
        fits_opt(r.owner),
        fits_opt(r.default_branch),
        pos + enc_repository(r).len() <= s.len(),
        s.subrange(pos, pos + enc_repository(r).len()) == enc_repository(r),
    ensures
        sdec_repository(s, pos) == Some((r, pos + enc_repository(r).len())),
{
    let e = enc_repository(r);
    let l1 = enc_bytes(r.name).len() as int;
    let l2 = enc_opt_bytes(r.description).len() as int;
    let l3 = enc_opt_bytes(r.owner).len() as int;
    let l4 = enc_opt_bytes(r.default_branch).len() as int;
    lemma_u64_be_len(r.id);
    lemma_i64_enc_len(r.seconds);
    lemma_i64_enc_len(r.offset as i64);
    assert(e.len() == 8 + l1 + l2 + l3 + 18 + l4 + 1);
    assert(s.subrange(pos, pos + 8) =~= e.subrange(0, 8));
    assert(e.subrange(0, 8) =~= u64_be(r.id));
    lemma_sdec_u64(s, pos, r.id);
    let p1 = pos + 8;
    assert(s.subrange(p1, p1 + l1) =~= e.subrange(8, 8 + l1));
    assert(e.subrange(8, 8 + l1) =~= enc_bytes(r.name));
    lemma_sdec_bytes(s, p1, r.name);
    let p2 = p1 + l1;
    assert(s.subrange(p2, p2 + l2) =~= e.subrange(8 + l1, 8 + l1 + l2));
    assert(e.subrange(8 + l1, 8 + l1 + l2) =~= enc_opt_bytes(r.description));
    lemma_sdec_opt_bytes(s, p2, r.description);
    let p3 = p2 + l2;
    assert(s.subrange(p3, p3 + l3) =~= e.subrange(8 + l1 + l2, 8 + l1 + l2 + l3));
    assert(e.subrange(8 + l1 + l2, 8 + l1 + l2 + l3) =~= enc_opt_bytes(r.owner));
    lemma_sdec_opt_bytes(s, p3, r.owner);
    let p4 = p3 + l3;
    assert(s.subrange(p4, p4 + 9) =~= e.subrange(8 + l1 + l2 + l3, 8 + l1 + l2 + l3 + 9));
    assert(e.subrange(8 + l1 + l2 + l3, 8 + l1 + l2 + l3 + 9) =~= i64_enc(r.seconds));
    lemma_sdec_i64(s, p4, r.seconds);
    let p5 = p4 + 9;
    assert(s.subrange(p5, p5 + 9) =~= e.subrange(8 + l1 + l2 + l3 + 9, 8 + l1 + l2 + l3 + 18));
    assert(e.subrange(8 + l1 + l2 + l3 + 9, 8 + l1 + l2 + l3 + 18) =~= i64_enc(r.offset as i64));
    lemma_sdec_i64(s, p5, r.offset as i64);
    let p6 = p5 + 9;
    assert(s.subrange(p6, p6 + l4) =~= e.subrange(8 + l1 + l2 + l3 + 18, 8 + l1 + l2 + l3 + 18
        + l4));
    assert(e.subrange(8 + l1 + l2 + l3 + 18, 8 + l1 + l2 + l3 + 18 + l4) =~= enc_opt_bytes(
        r.default_branch,
    ));
    lemma_sdec_opt_bytes(s, p6, r.default_branch);
    let p7 = p6 + l4;
    assert(s.subrange(p7, p7 + 1) =~= e.subrange(e.len() - 1, e.len() as int));
    assert(e.subrange(e.len() - 1, e.len() as int) =~= enc_bool(r.exported));
    lemma_sdec_bool(s, p7, r.exported);
    assert(sdec_repository(s, pos) matches Some((v, p)) && p == pos + e.len() && v =~= r);
}

pub fn encode_repository(r: &Repository) -> (out: Vec<u8>)
    ensures
        out@ == enc_repository(r@),
{
    let mut out: Vec<u8> = Vec::new();
    put_u64(r.id, &mut out);
    put_bytes(&r.name, &mut out);
    put_opt_bytes(&r.description, &mut out);
    put_opt_bytes(&r.owner, &mut out);
    put_i64(r.last_modified.0, &mut out);
    put_i64(r.last_modified.1 as i64, &mut out);
    put_opt_bytes(&r.default_branch, &mut out);
    put_bool(r.exported, &mut out);
    proof {
        assert(out@ =~= enc_repository(r@));
    }
    out
}

pub fn dec_repository(s: &Vec<u8>, pos: usize) -> (r: Option<(Repository, usize)>)
    ensures
        match sdec_repository(s@, pos as int) {
            Some((v, p)) => r matches Some(rp) && rp.0@ == v && rp.1 == p,
            None => r is None,
        },
{
    let (id, p1) = match dec_u64(s, pos) {
        Some(x) => x,
        None => return None,
    };
    let (name, p2) = match dec_bytes(s, p1) {
        Some(x) => x,
        None => return None,
    };
    let (description, p3) = match dec_opt_bytes(s, p2) {
        Some(x) => x,
        None => return None,
    };
    let (owner, p4) = match dec_opt_bytes(s, p3) {
        Some(x) => x,
        None => return None,
    };
    let (sec, p5) = match dec_i64(s, p4) {
        Some(x) => x,
        None => return None,
    };
    let (off, p6) = match dec_i64(s, p5) {
        Some(x) => x,
        None => return None,
    };
    let (default_branch, p7) = match dec_opt_bytes(s, p6) {
        Some(x) => x,
        None => return None,
    };
    let (exported, p8) = match dec_bool(s, p7) {
        Some(x) => x,
        None => return None,
    };
    if off < -0x8000_0000i64 || off > 0x7fff_ffffi64 {
        return None;
    }
    let rec = Repository {
        id,
        name,
        description,
        owner,
        last_modified: (sec, off as i32),
        default_branch,
        exported,
    };
    proof {
        assert(rec@ =~= sdec_repository(s@, pos as int)->Some_0.0);
    }
    Some((rec, p8))
}

pub fn decode_repository(s: &Vec<u8>) -> (r: Option<Repository>)
    ensures
        match sdec_repository(s@, 0) {
            Some((v, p)) => if p == s@.len() {
                r matches Some(rec) && rec@ == v
            } else {
                r is None
            },
            None => r is None,
        },
{
    match dec_repository(s, 0) {
        Some((rec, p)) => if p == s.len() {
            Some(rec)
        } else {
            None
        },
        None => None,
    }
}

/// Encoding then decoding a repository record gives it back.
pub proof fn lemma_repository_round_trip(r: RepositoryV)
    requires
        fits(r.name),
        fits_opt(r.description),
        fits_opt(r.owner),
        fits_opt(r.default_branch),
    ensures
        sdec_repository(enc_repository(r), 0) == Some((r, enc_repository(r).len() as int)),
{
    let e = enc_repository(r);
    assert(e.subrange(0, e.len() as int) =~= e);
    lemma_sdec_repository(e, 0, r);
}

// ---------------------------------------------------------------------------
// Tree: the content address recorded for a Git tree object id.
// ---------------------------------------------------------------------------
/// The record of the tree family: maps a Git tree object id to the 64-bit
/// content address of its shape.
pub struct Tree {
    pub indexed_tree_id: u64,
}

pub open spec fn enc_tree(t: u64) -> Seq<u8> {
    u64_be(t)
}

pub fn encode_tree(t: &Tree) -> (r: Vec<u8>)
    ensures
        r@ == enc_tree(t.indexed_tree_id),
{
    u64_to_be(t.indexed_tree_id)
}

pub fn decode_tree(s: &Vec<u8>) -> (r: Option<Tree>)
    ensures
        match r {
            Some(t) => s@ == enc_tree(t.indexed_tree_id),
            None => forall|x: u64| s@ != enc_tree(x),
        },
{
    proof {
        lemma_u64_be_len(0);
    }
    if s.len() != 8 {
        proof {
            assert forall|x: u64| s@ != enc_tree(x) by {
                lemma_u64_be_len(x);
            }
        }
        return None;
    }
    let v = u64_from_be(s.as_slice());
    Some(Tree { indexed_tree_id: v })
}

// ---------------------------------------------------------------------------
// Heads: the full reference names that currently exist for one repository.
// ---------------------------------------------------------------------------
pub struct Heads(pub Vec<Vec<u8>>);

/// The views of a list of byte vectors.
pub open spec fn views_of(l: Seq<Vec<u8>>) -> Seq<Seq<u8>> {
    Seq::new(l.len(), |i: int| l[i]@)
}

pub open spec fn enc_bytes_list(l: Seq<Seq<u8>>) -> Seq<u8>
    decreases l.len(),
{
    if l.len() == 0 {
        Seq::empty()
    } else {
        enc_bytes(l[0]) + enc_bytes_list(l.skip(1))
    }
}

pub open spec fn enc_list(l: Seq<Seq<u8>>) -> Seq<u8> {
    u64_be(l.len() as u64) + enc_bytes_list(l)
}

pub open spec fn sdec_bytes_list(s: Seq<u8>, pos: int, n: nat) -> Option<(Seq<Seq<u8>>, int)>
    decreases n,
{
    if n == 0 {
        if 0 <= pos <= s.len() {
            Some((Seq::empty(), pos))
        } else {
            None
        }
    } else {
        match sdec_bytes(s, pos) {
            None => None,
            Some((b, p)) => match sdec_bytes_list(s, p, (n - 1) as nat) {
                None => None,
                Some((rest, q)) => Some((seq![b] + rest, q)),
            },
        }
    }
}

pub open spec fn sdec_list(s: Seq<u8>, pos: int) -> Option<(Seq<Seq<u8>>, int)> {
    match sdec_u64(s, pos) {
        None => None,
        Some((n, p)) => sdec_bytes_list(s, p, n as nat),
    }
}

pub open spec fn fits_all(l: Seq<Seq<u8>>) -> bool {
    forall|i: int| 0 <= i < l.len() ==> fits(#[trigger] l[i])
}

/// Appending one element appends its encoding.
pub proof fn lemma_enc_bytes_list_snoc(l: Seq<Seq<u8>>, b: Seq<u8>)
    ensures
        enc_bytes_list(l.push(b)) == enc_bytes_list(l) + enc_bytes(b),
    decreases l.len(),
{
    if l.len() == 0 {
        assert(l.push(b)[0] == b);
        assert(l.push(b).skip(1) =~= Seq::<Seq<u8>>::empty());
        assert(enc_bytes_list(Seq::<Seq<u8>>::empty()) == Seq::<u8>::empty());
        assert(enc_bytes_list(l.push(b)) == enc_bytes(b) + enc_bytes_list(l.push(b).skip(1)));
        assert(enc_bytes_list(l.push(b)) =~= enc_bytes(b));
        assert(enc_bytes_list(l) + enc_bytes(b) =~= enc_bytes(b));
    } else {
        assert(l.push(b)[0] == l[0]);
        assert(l.push(b).skip(1) =~= l.skip(1).push(b));
        lemma_enc_bytes_list_snoc(l.skip(1), b);
        assert(enc_bytes_list(l.push(b)) == enc_bytes(l[0]) + (enc_bytes_list(l.skip(1))
            + enc_bytes(b)));
        assert(enc_bytes(l[0]) + (enc_bytes_list(l.skip(1)) + enc_bytes(b)) =~= (enc_bytes(l[0])
            + enc_bytes_list(l.skip(1))) + enc_bytes(b));
    }
}

pub proof fn lemma_sdec_bytes_list(s: Seq<u8>, pos: int, l: Seq<Seq<u8>>)
    requires
        0 <= pos,
        fits_all(l),
        pos + enc_bytes_list(l).len() <= s.len(),
        s.subrange(pos, pos + enc_bytes_list(l).len()) == enc_bytes_list(l),
    ensures
        sdec_bytes_list(s, pos, l.len()) == Some((l, pos + enc_bytes_list(l).len())),
    decreases l.len(),
{
    if l.len() == 0 {
        assert(sdec_bytes_list(s, pos, 0) == Some((Seq::<Seq<u8>>::empty(), pos)));
        assert(l =~= Seq::<Seq<u8>>::empty());
    } else {
        let e = enc_bytes_list(l);
        let e0 = enc_bytes(l[0]);
        let l0 = e0.len() as int;
        assert(e == e0 + enc_bytes_list(l.skip(1)));
        assert(s.subrange(pos, pos + l0) =~= e.subrange(0, l0));
        assert(e.subrange(0, l0) =~= e0);
        lemma_sdec_bytes(s, pos, l[0]);
        let p = pos + l0;
        let erest = enc_bytes_list(l.skip(1));
        assert(s.subrange(p, p + erest.len() as int) =~= e.subrange(l0, e.len() as int));
        assert(e.subrange(l0, e.len() as int) =~= erest);
        lemma_sdec_bytes_list(s, p, l.skip(1));
        assert(l.skip(1).len() == l.len() - 1);
        assert(seq![l[0]] + l.skip(1) =~= l);
    }
}

/// A successful list decode of `n` items consumes at least `8 * n` bytes.
pub proof fn lemma_sdec_bytes_list_min(s: Seq<u8>, pos: int, n: nat)
    ensures
        sdec_bytes_list(s, pos, n) matches Some((l, q)) ==> l.len() == n && pos <= q <= s.len()
            && q >= pos + 8 * n,
    decreases n,
{
    if n > 0 {
        match sdec_bytes(s, pos) {
            None => {},
            Some((b, p)) => {
                lemma_sdec_bytes_list_min(s, p, (n - 1) as nat);
            },
        }
    }
}

pub proof fn lemma_sdec_list_whole(s: Seq<u8>, l: Seq<Seq<u8>>)
    requires
        fits_all(l),
        l.len() < 0x1_0000_0000_0000_0000,
        s == enc_list(l),
    ensures
        sdec_list(s, 0) == Some((l, s.len() as int)),
{
    lemma_u64_be_val(l.len() as u64);
    let e = enc_list(l);
    assert(s.subrange(0, 8) =~= u64_be(l.len() as u64));
    lemma_sdec_u64(s, 0, l.len() as u64);
    assert(s.subrange(8, s.len() as int) =~= enc_bytes_list(l));
    lemma_sdec_bytes_list(s, 8, l);
}

pub fn encode_heads(h: &Heads) -> (r: Vec<u8>)
    ensures
        r@ == enc_list(views_of(h.0@)),
{
    encode_list(&h.0)
}

/// Encode a list of byte strings: a count, then each string
/// length-prefixed.
pub fn encode_list(h: &Vec<Vec<u8>>) -> (r: Vec<u8>)
    ensures
        r@ == enc_list(views_of(h@)),
{
    let mut out: Vec<u8> = Vec::new();
    put_u64(h.len() as u64, &mut out);
    let ghost full = views_of(h@);
    let mut i: usize = 0;
    proof {
        assert(full.take(0) =~= Seq::<Seq<u8>>::empty());
        assert(out@ =~= u64_be(h@.len() as u64) + enc_bytes_list(full.take(0)));
    }
    while i < h.len()
        invariant
            i <= h@.len(),
            full == views_of(h@),
            full.len() == h@.len(),
            out@ == u64_be(h@.len() as u64) + enc_bytes_list(full.take(i as int)),
        decreases h@.len() - i,
    {
        put_bytes(&h[i], &mut out);
        proof {
            assert(full.take(i + 1) =~= full.take(i as int).push(full[i as int]));
            lemma_enc_bytes_list_snoc(full.take(i as int), full[i as int]);
            assert(full[i as int] == h@[i as int]@);
            assert(out@ =~= u64_be(h@.len() as u64) + enc_bytes_list(full.take(i + 1)));
        }
        i = i + 1;
    }
    proof {
        assert(full.take(full.len() as int) =~= full);
    }
    out
}

pub fn decode_heads(s: &Vec<u8>) -> (r: Option<Heads>)
    ensures
        match sdec_list(s@, 0) {
            Some((v, p)) => if p == s@.len() {
                r matches Some(h) && views_of(h.0@) == v
            } else {
                r is None
            },
            None => r is None,
        },
{
    match decode_list(s) {
        Some(l) => Some(Heads(l)),
        None => None,
    }
}

/// Decode a whole buffer as a list of byte strings.
pub fn decode_list(s: &Vec<u8>) -> (r: Option<Vec<Vec<u8>>>)
    ensures
        match sdec_list(s@, 0) {
            Some((v, p)) => if p == s@.len() {
                r matches Some(h) && views_of(h@) == v
            } else {
                r is None
            },
            None => r is None,
        },
{
    let (n, p0) = match dec_u64(s, 0) {
        Some(x) => x,
        None => return None,
    };
    proof {
        lemma_sdec_bytes_list_min(s@, p0 as int, n as nat);
    }
    if n > (s.len() as u64) / 8 {
        proof {
            let lenv = s@.len() as int;
            assert(lenv == 8 * (lenv / 8) + lenv % 8) by (nonlinear_arith);
            assert(n as int > lenv / 8);
            match sdec_bytes_list(s@, p0 as int, n as nat) {
                Some((l, q)) => {
                    assert(q >= p0 + 8 * (n as int));
                    assert(8 * (n as int) >= 8 * (lenv / 8) + 8) by (nonlinear_arith)
                        requires
                            n as int > lenv / 8,
                    ;
                    assert(false);
                },
                None => {},
            }
        }
        return None;
    }
    let m = n as usize;
    let mut acc: Vec<Vec<u8>> = Vec::new();
    let mut cur: usize = p0;
    let mut i: usize = 0;
    proof {
        assert(views_of(acc@) =~= Seq::<Seq<u8>>::empty());
        match sdec_bytes_list(s@, cur as int, m as nat) {
            Some((rest, q)) => {
                assert(views_of(acc@) + rest =~= rest);
            },
            None => {},
        }
        assert((s@.len() as u64) / 8 <= s@.len() as u64);
        assert(m as nat == n as nat);
        assert(sdec_list(s@, 0) == sdec_bytes_list(s@, p0 as int, m as nat));
    }
    while i < m
        invariant
            i <= m,
            acc@.len() == i,
            cur <= s@.len(),
            sdec_list(s@, 0) == sdec_bytes_list(s@, p0 as int, m as nat),
            match sdec_bytes_list(s@, cur as int, (m - i) as nat) {
                Some((rest, q)) => sdec_bytes_list(s@, p0 as int, m as nat) == Some(
                    (views_of(acc@) + rest, q),
                ),
                None => sdec_bytes_list(s@, p0 as int, m as nat) is None,
            },
        decreases m - i,
    {
        let ghost acc0 = acc@;
        let ghost cur0 = cur as int;
        let (b, p) = match dec_bytes(s, cur) {
            Some(x) => x,
            None => {
                proof {
                    assert(sdec_bytes_list(s@, cur0, (m - i) as nat) is None);
                    assert(sdec_list(s@, 0) is None);
                }
                return None;
            },
        };
        proof {
            lemma_sdec_bytes_list_min(s@, p as int, (m - i - 1) as nat);
        }
        acc.push(b);
        cur = p;
        proof {
            assert(views_of(acc@) =~= views_of(acc0).push(b@));
            match sdec_bytes_list(s@, cur as int, (m - i - 1) as nat) {
                Some((rest2, q2)) => {
                    assert(sdec_bytes_list(s@, cur0, (m - i) as nat) == Some(
                        (seq![b@] + rest2, q2),
                    ));
                    assert(views_of(acc0) + (seq![b@] + rest2) =~= views_of(acc@) + rest2);
                },
                None => {
                    assert(sdec_bytes_list(s@, cur0, (m - i) as nat) is None);
                },
            }
        }
        i = i + 1;
    }
    proof {
        assert(sdec_bytes_list(s@, cur as int, 0) == Some((Seq::<Seq<u8>>::empty(), cur as int)));
        assert(views_of(acc@) + Seq::<Seq<u8>>::empty() =~= views_of(acc@));
        assert((s@.len() as u64) / 8 <= s@.len() as u64);
        assert(m as nat == n as nat);
        assert(sdec_bytes_list(s@, p0 as int, n as nat) == Some((views_of(acc@), cur as int)));
        assert(sdec_list(s@, 0) == Some((views_of(acc@), cur as int)));
    }
    if cur != s.len() {
        return None;
    }
    Some(acc)
}

/// Encoding then decoding a heads list gives it back.
pub proof fn lemma_list_round_trip(l: Seq<Seq<u8>>)
    requires
        fits_all(l),
        l.len() < 0x1_0000_0000_0000_0000,
    ensures
        sdec_list(enc_list(l), 0) == Some((l, enc_list(l).len() as int)),
{
    lemma_sdec_list_whole(enc_list(l), l);
}

// ---------------------------------------------------------------------------
// TreeItem: one entry of an indexed tree.
// ---------------------------------------------------------------------------
/// A submodule entry: the resolved URL and the 20-byte commit id it pins.
pub struct Submodule {
    pub url: Vec<u8>,
    pub oid: Vec<u8>,
}

pub enum TreeItemKind {
    Submodule(Submodule),
    Tree,
    File,
}

/// One row of the tree-item family: the entry's Git file mode and kind.
pub struct TreeItem {
    pub mode: u16,
    pub kind: TreeItemKind,
}

#[verifier::ext_equal]
pub ghost enum TreeItemKindV {
    Submodule { url: Seq<u8>, oid: Seq<u8> },
    Tree,
    File,
}

#[verifier::ext_equal]
pub ghost struct TreeItemV {
    pub mode: u16,
    pub kind: TreeItemKindV,
}

impl View for TreeItem {
    type V = TreeItemV;

    open spec fn view(&self) -> TreeItemV {
        TreeItemV {
            mode: self.mode,
            kind: match self.kind {
                TreeItemKind::Submodule(ref sm) => TreeItemKindV::Submodule {
                    url: sm.url@,
                    oid: sm.oid@,
                },
                TreeItemKind::Tree => TreeItemKindV::Tree,
                TreeItemKind::File => TreeItemKindV::File,
            },
        }
    }
}

pub open spec fn enc_tree_item(t: TreeItemV) -> Seq<u8> {
    crate::wire::u16_le(t.mode) + match t.kind {
        TreeItemKindV::File => seq![0u8],
        TreeItemKindV::Tree => seq![1u8],
        TreeItemKindV::Submodule { url, oid } => seq![2u8] + enc_bytes(url) + enc_bytes(oid),
    }
}

pub open spec fn sdec_tree_item(s: Seq<u8>, pos: int) -> Option<(TreeItemV, int)> {
    match sdec_u16(s, pos) {
        None => None,
        Some((mode, p1)) => if p1 + 1 <= s.len() {
            if s[p1] == 0u8 {
                Some((TreeItemV { mode, kind: TreeItemKindV::File }, p1 + 1))
            } else if s[p1] == 1u8 {
                Some((TreeItemV { mode, kind: TreeItemKindV::Tree }, p1 + 1))
            } else if s[p1] == 2u8 {
                match sdec_bytes(s, p1 + 1) {
                    None => None,
                    Some((url, p2)) => match sdec_bytes(s, p2) {
                        None => None,
                        Some((oid, p3)) => if oid.len() == 20 {
                            Some(
                                (
                                    TreeItemV {
                                        mode,
                                        kind: TreeItemKindV::Submodule { url, oid },
                                    },
                                    p3,
                                ),
                            )
                        } else {
                            None
                        },
                    },
                }
            } else {
                None
            }
        } else {
            None
        },
    }
}

pub open spec fn valid_tree_item(t: TreeItemV) -> bool {
    t.kind matches TreeItemKindV::Submodule { url, oid } ==> fits(url) && oid.len() == 20
}

#[verifier::rlimit(100)]
#[verifier::spinoff_prover]
pub proof fn lemma_sdec_tree_item(s: Seq<u8>, pos: int, t: TreeItemV)
    requires
        0 <= pos,
        valid_tree_item(t),
        pos + enc_tree_item(t).len() <= s.len(),
        s.subrange(pos, pos + enc_tree_item(t).len()) == enc_tree_item(t),
    ensures
        sdec_tree_item(s, pos) == Some((t, pos + enc_tree_item(t).len())),
{
    let e = enc_tree_item(t);
    vstd::bytes::lemma_auto_spec_u16_to_from_le_bytes();
    assert(crate::wire::u16_le(t.mode).len() == 2);
    assert(s.subrange(pos, pos + 2) =~= e.subrange(0, 2));
    assert(e.subrange(0, 2) =~= crate::wire::u16_le(t.mode));
    lemma_sdec_u16(s, pos, t.mode);
    let p1 = pos + 2;
    assert(s[p1] == s.subrange(pos, pos + e.len() as int)[2]);
    match t.kind {
        TreeItemKindV::File => {
            assert(e[2] == 0u8);
        },
        TreeItemKindV::Tree => {
            assert(e[2] == 1u8);
        },
        TreeItemKindV::Submodule { url, oid } => {
            assert(e[2] == 2u8);
            let lu = enc_bytes(url).len() as int;
            let lo = enc_bytes(oid).len() as int;
            assert(s.subrange(p1 + 1, p1 + 1 + lu) =~= e.subrange(3, 3 + lu));
            assert(e.subrange(3, 3 + lu) =~= enc_bytes(url));
            lemma_sdec_bytes(s, p1 + 1, url);
            let p2 = p1 + 1 + lu;
            assert(s.subrange(p2, p2 + lo) =~= e.subrange(3 + lu, 3 + lu + lo));
            assert(e.subrange(3 + lu, 3 + lu + lo) =~= enc_bytes(oid));
            lemma_sdec_bytes(s, p2, oid);
            assert(sdec_tree_item(s, pos) matches Some((v, p)) && p == pos + e.len() && v =~= t);
        },
    }
}

pub fn encode_tree_item(t: &TreeItem) -> (r: Vec<u8>)
    ensures
        r@ == enc_tree_item(t@),
{
    let mut out: Vec<u8> = Vec::new();
    put_u16(t.mode, &mut out);
    match &t.kind {
        TreeItemKind::File => {
            out.push(0u8);
        },
        TreeItemKind::Tree => {
            out.push(1u8);
        },
        TreeItemKind::Submodule(sm) => {
            out.push(2u8);
            put_bytes(&sm.url, &mut out);
            put_bytes(&sm.oid, &mut out);
        },
    }
    proof {
        assert(out@ =~= enc_tree_item(t@));
    }
    out
}

pub fn dec_tree_item(s: &Vec<u8>, pos: usize) -> (r: Option<(TreeItem, usize)>)
    ensures
        match sdec_tree_item(s@, pos as int) {
            Some((v, p)) => r matches Some(rp) && rp.0@ == v && rp.1 == p,
            None => r is None,
        },
{
    let (mode, p1) = match dec_u16(s, pos) {
        Some(x) => x,
        None => return None,
    };
    if p1 >= s.len() {
        return None;
    }
    if s[p1] == 0u8 {
        let t = TreeItem { mode, kind: TreeItemKind::File };
        proof {
            assert(t@ =~= sdec_tree_item(s@, pos as int)->Some_0.0);
        }
        Some((t, p1 + 1))
    } else if s[p1] == 1u8 {
        let t = TreeItem { mode, kind: TreeItemKind::Tree };
        proof {
            assert(t@ =~= sdec_tree_item(s@, pos as int)->Some_0.0);
        }
        Some((t, p1 + 1))
    } else if s[p1] == 2u8 {
        let (url, p2) = match dec_bytes(s, p1 + 1) {
            Some(x) => x,
            None => return None,
        };
        let (oid, p3) = match dec_bytes(s, p2) {
            Some(x) => x,
            None => return None,
        };
        if oid.len() != 20 {
            return None;
        }
        let t = TreeItem { mode, kind: TreeItemKind::Submodule(Submodule { url, oid }) };
        proof {
            assert(t@ =~= sdec_tree_item(s@, pos as int)->Some_0.0);
        }
        Some((t, p3))
    } else {
        None
    }
}

pub fn decode_tree_item(s: &Vec<u8>) -> (r: Option<TreeItem>)
    ensures
        match sdec_tree_item(s@, 0) {
            Some((v, p)) => if p == s@.len() {
                r matches Some(t) && t@ == v
            } else {
                r is None
            },
            None => r is None,
        },
{
    match dec_tree_item(s, 0) {
        Some((t, p)) => if p == s.len() {
            Some(t)
        } else {
            None
        },
        None => None,
    }
}

/// Encoding then decoding a tree item gives it back.
pub proof fn lemma_tree_item_round_trip(t: TreeItemV)
    requires
        valid_tree_item(t),
    ensures
        sdec_tree_item(enc_tree_item(t), 0) == Some((t, enc_tree_item(t).len() as int)),
{
    let e = enc_tree_item(t);
    assert(e.subrange(0, e.len() as int) =~= e);
    lemma_sdec_tree_item(e, 0, t);
}

} // verus!
