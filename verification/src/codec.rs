//! Byte encoding of the plain values that cross the shared-store boundary.
//!
//! The engine moves agent states, updates and the world value through the
//! shared store as opaque byte blobs.  The contract the rest of the engine
//! relies on is round-trip exactness: decoding an encoded value yields the
//! value again.  The format here is deliberately simple: a `u64` is its
//! eight little-endian bytes, a string is a `u64` character count followed
//! by each character as four little-endian bytes of its Unicode scalar
//! value.

use vstd::prelude::*;
use vstd::bytes::*;
use vstd::utf8::is_scalar;
use vstd::utf8::char_u32_cast;
use vstd::utf8::char_is_scalar;
use vstd::slice::slice_subrange;
use vstd::string::StrSliceExecFns;

verus! {

// ---------------------------------------------------------------------------
// Specification-level encoders
// ---------------------------------------------------------------------------

pub open spec fn spec_encode_u64(x: u64) -> Seq<u8> {
    spec_u64_to_le_bytes(x)
}

pub open spec fn spec_encode_char(c: char) -> Seq<u8> {
    spec_u32_to_le_bytes(c as u32)
}

pub open spec fn spec_encode_chars(s: Seq<char>) -> Seq<u8>
    decreases s.len(),
{
    if s.len() == 0 {
        Seq::empty()
    } else {
        spec_encode_char(s[0]) + spec_encode_chars(s.drop_first())
    }
}

pub open spec fn spec_encode_str(s: Seq<char>) -> Seq<u8> {
    spec_encode_u64(s.len() as u64) + spec_encode_chars(s)
}

// ---------------------------------------------------------------------------
// Specification-level decoders
//
// Each decoder reads a value starting at byte offset `i` and returns the
// value together with the offset of the first byte it did not consume, or
// `None` when the bytes at `i` do not hold a valid encoding.
// ---------------------------------------------------------------------------

pub open spec fn spec_decode_u64_at(bytes: Seq<u8>, i: int) -> Option<(u64, int)> {
    if 0 <= i && i + 8 <= bytes.len() {
        Some((spec_u64_from_le_bytes(bytes.subrange(i, i + 8)), i + 8))
    } else {
        None
    }
}

pub open spec fn spec_decode_char_at(bytes: Seq<u8>, i: int) -> Option<(char, int)> {
    if 0 <= i && i + 4 <= bytes.len() {
        let u = spec_u32_from_le_bytes(bytes.subrange(i, i + 4));
        if is_scalar(u) {
            Some((u as char, i + 4))
        } else {
            None
        }
    } else {
        None
    }
}

pub open spec fn spec_decode_chars_at(bytes: Seq<u8>, i: int, n: nat) -> Option<(Seq<char>, int)>
    decreases n,
{
    if n == 0 {
        Some((Seq::empty(), i))
    } else {
        match spec_decode_char_at(bytes, i) {
            None => None,
            Some((c, j)) => match spec_decode_chars_at(bytes, j, (n - 1) as nat) {
                None => None,
                Some((s, k)) => Some((seq![c] + s, k)),
            },
        }
    }
}

pub open spec fn spec_decode_u8_at(bytes: Seq<u8>, i: int) -> Option<(u8, int)> {
    if 0 <= i && i + 1 <= bytes.len() {
        Some((bytes[i], i + 1))
    } else {
        None
    }
}

pub open spec fn spec_decode_str_at(bytes: Seq<u8>, i: int) -> Option<(Seq<char>, int)> {
    match spec_decode_u64_at(bytes, i) {
        None => None,
        Some((n, j)) => spec_decode_chars_at(bytes, j, n as nat),
    }
}

/// A successful chars decode yields exactly the requested count of
/// characters and consumes four bytes per character.
pub proof fn lemma_decode_chars_at_len(bytes: Seq<u8>, i: int, n: nat)
    ensures
        spec_decode_chars_at(bytes, i, n) matches Some(p) ==> p.0.len() == n && p.1 == i + 4 * n,
    decreases n,
{
    if n > 0 {
        match spec_decode_char_at(bytes, i) {
            None => {},
            Some((c, j)) => {
                lemma_decode_chars_at_len(bytes, j, (n - 1) as nat);
            },
        }
    }
}

// ---------------------------------------------------------------------------
// Encoding lengths
// ---------------------------------------------------------------------------

pub proof fn lemma_encode_chars_len(s: Seq<char>)
    ensures
        spec_encode_chars(s).len() == 4 * s.len(),
    decreases s.len(),
{
    lemma_auto_spec_u32_to_from_le_bytes();
    if s.len() > 0 {
        lemma_encode_chars_len(s.drop_first());
    }
}

pub proof fn lemma_encode_str_len(s: Seq<char>)
    ensures
        spec_encode_str(s).len() == 8 + 4 * s.len(),
{
    lemma_auto_spec_u64_to_from_le_bytes();
    lemma_encode_chars_len(s);
}

// ---------------------------------------------------------------------------
// Round trips: decoding at an offset where an encoding was laid down yields
// the encoded value, whatever bytes surround it.
// ---------------------------------------------------------------------------

pub proof fn lemma_decode_u64_at(bytes: Seq<u8>, i: int, x: u64)
    requires
        0 <= i,
        i + 8 <= bytes.len(),
        bytes.subrange(i, i + 8) == spec_encode_u64(x),
    ensures
        spec_decode_u64_at(bytes, i) == Some((x, i + 8)),
{
    lemma_auto_spec_u64_to_from_le_bytes();
}

pub proof fn lemma_decode_char_at(bytes: Seq<u8>, i: int, c: char)
    requires
        0 <= i,
        i + 4 <= bytes.len(),
        bytes.subrange(i, i + 4) == spec_encode_char(c),
    ensures
        spec_decode_char_at(bytes, i) == Some((c, i + 4)),
{
    lemma_auto_spec_u32_to_from_le_bytes();
    char_is_scalar(c);
    let u = spec_u32_from_le_bytes(bytes.subrange(i, i + 4));
    assert(spec_u32_to_le_bytes(c as u32).len() == 4);
    assert(spec_u32_from_le_bytes(spec_u32_to_le_bytes(c as u32)) == c as u32);
    assert(u == c as u32);
    char_u32_cast(c, u);
}

pub proof fn lemma_decode_chars_at(bytes: Seq<u8>, i: int, s: Seq<char>)
    requires
        0 <= i,
        i + 4 * s.len() <= bytes.len(),
        bytes.subrange(i, i + 4 * s.len()) == spec_encode_chars(s),
    ensures
        spec_decode_chars_at(bytes, i, s.len()) == Some((s, i + 4 * s.len())),
    decreases s.len(),
{
    if s.len() == 0 {
        assert(s == Seq::<char>::empty());
    } else {
        let c = s[0];
        let rest = s.drop_first();
        lemma_encode_chars_len(rest);
        lemma_auto_spec_u32_to_from_le_bytes();
        assert(bytes.subrange(i, i + 4) == spec_encode_char(c)) by {
            assert(bytes.subrange(i, i + 4 * s.len()).subrange(0, 4) == bytes.subrange(i, i + 4));
            assert((spec_encode_char(c) + spec_encode_chars(rest)).subrange(0, 4)
                == spec_encode_char(c));
        }
        lemma_decode_char_at(bytes, i, c);
        assert(bytes.subrange(i + 4, i + 4 + 4 * rest.len()) == spec_encode_chars(rest)) by {
            assert(bytes.subrange(i, i + 4 * s.len()).subrange(4, 4 * s.len() as int)
                == bytes.subrange(i + 4, i + 4 * s.len()));
            assert((spec_encode_char(c) + spec_encode_chars(rest)).subrange(4, 4 * s.len() as int)
                == spec_encode_chars(rest));
        }
        lemma_decode_chars_at(bytes, i + 4, rest);
        assert(seq![c] + rest == s);
    }
}

pub proof fn lemma_decode_str_at(bytes: Seq<u8>, i: int, s: Seq<char>)
    requires
        0 <= i,
        s.len() <= u64::MAX,
        i + spec_encode_str(s).len() <= bytes.len(),
        bytes.subrange(i, i + spec_encode_str(s).len() as int) == spec_encode_str(s),
    ensures
        spec_decode_str_at(bytes, i) == Some((s, i + spec_encode_str(s).len())),
{
    lemma_encode_str_len(s);
    lemma_encode_chars_len(s);
    let enc = spec_encode_str(s);
    assert(bytes.subrange(i, i + 8) == spec_encode_u64(s.len() as u64)) by {
        assert(bytes.subrange(i, i + enc.len() as int).subrange(0, 8) == bytes.subrange(i, i + 8));
        assert(enc.subrange(0, 8) == spec_encode_u64(s.len() as u64)) by {
            lemma_auto_spec_u64_to_from_le_bytes();
            assert(enc.subrange(0, 8) =~= spec_encode_u64(s.len() as u64));
        }
    }
    lemma_decode_u64_at(bytes, i, s.len() as u64);
    assert(bytes.subrange(i + 8, i + 8 + 4 * s.len()) == spec_encode_chars(s)) by {
        assert(bytes.subrange(i, i + enc.len() as int).subrange(8, enc.len() as int)
            == bytes.subrange(i + 8, i + enc.len() as int));
        assert(enc.subrange(8, enc.len() as int) =~= spec_encode_chars(s));
    }
    lemma_decode_chars_at(bytes, i + 8, s);
    assert((s.len() as u64) as nat == s.len());
}

// ---------------------------------------------------------------------------
// Trusted bridges to std
// ---------------------------------------------------------------------------

/// Relies on char::from_u32: it returns `Some` exactly on Unicode scalar
/// values, and the char it returns casts back to the same `u32`.
#[verifier::external_body]
fn char_from_u32(u: u32) -> (r: Option<char>)
    ensures
        r is Some <==> is_scalar(u),
        r matches Some(c) ==> c as u32 == u,
{
    char::from_u32(u)
}

/// Relies on String::push: it appends the given character to the string.
#[verifier::external_body]
fn push_char(s: &mut String, c: char)
    ensures
        final(s)@ == old(s)@.push(c),
{
    s.push(c);
}

// ---------------------------------------------------------------------------
// Executable encoders
// ---------------------------------------------------------------------------

pub fn encode_u64_into(out: &mut Vec<u8>, x: u64)
    ensures
        final(out)@ == old(out)@ + spec_encode_u64(x),
{
    let mut b = u64_to_le_bytes(x);
    out.append(&mut b);
}

pub fn encode_char_into(out: &mut Vec<u8>, c: char)
    ensures
        final(out)@ == old(out)@ + spec_encode_char(c),
{
    let mut b = u32_to_le_bytes(c as u32);
    out.append(&mut b);
}

proof fn lemma_encode_chars_push(s: Seq<char>, c: char)
    ensures
        spec_encode_chars(s.push(c)) == spec_encode_chars(s) + spec_encode_char(c),
    decreases s.len(),
{
    let t = s.push(c);
    if s.len() == 0 {
        assert(t[0] == c);
        assert(t.drop_first() =~= Seq::<char>::empty());
        assert(spec_encode_chars(t) == spec_encode_char(c) + spec_encode_chars(t.drop_first()));
        assert(spec_encode_char(c) + Seq::<u8>::empty() =~= spec_encode_char(c));
        assert(Seq::<u8>::empty() + spec_encode_char(c) =~= spec_encode_char(c));
    } else {
        assert(t[0] == s[0]);
        assert(t.drop_first() =~= s.drop_first().push(c));
        lemma_encode_chars_push(s.drop_first(), c);
        assert(spec_encode_chars(t)
            == spec_encode_char(s[0]) + (spec_encode_chars(s.drop_first()) + spec_encode_char(c)));
        assert(spec_encode_char(s[0]) + (spec_encode_chars(s.drop_first()) + spec_encode_char(c))
            =~= (spec_encode_char(s[0]) + spec_encode_chars(s.drop_first())) + spec_encode_char(c));
    }
}

pub fn encode_str_into(out: &mut Vec<u8>, s: &str)
    ensures
        final(out)@ == old(out)@ + spec_encode_str(s@),
        s@.len() <= u64::MAX,
{
    let n = s.unicode_len();
    encode_u64_into(out, n as u64);
    let mut idx: usize = 0;
    while idx < n
        invariant
            n == s@.len(),
            0 <= idx <= n,
            out@ == old(out)@ + spec_encode_u64(n as u64) + spec_encode_chars(s@.subrange(0, idx as int)),
        decreases n - idx,
    {
        let c = s.get_char(idx);
        encode_char_into(out, c);
        proof {
            assert(s@.subrange(0, idx + 1) =~= s@.subrange(0, idx as int).push(c));
            lemma_encode_chars_push(s@.subrange(0, idx as int), c);
        }
        idx = idx + 1;
    }
    proof {
        assert(s@.subrange(0, n as int) =~= s@);
        assert(old(out)@ + spec_encode_u64(n as u64) + spec_encode_chars(s@)
            =~= old(out)@ + spec_encode_str(s@));
    }
}

// ---------------------------------------------------------------------------
// Executable decoders
// ---------------------------------------------------------------------------

pub fn decode_u8_at(bytes: &[u8], i: usize) -> (r: Option<(u8, usize)>)
    ensures
        match r {
            Some(p) => spec_decode_u8_at(bytes@, i as int) == Some((p.0, p.1 as int)),
            None => spec_decode_u8_at(bytes@, i as int) is None,
        },
{
    if i < bytes.len() {
        Some((bytes[i], i + 1))
    } else {
        None
    }
}

pub fn decode_u64_at(bytes: &[u8], i: usize) -> (r: Option<(u64, usize)>)
    ensures
        match r {
            Some(p) => spec_decode_u64_at(bytes@, i as int) == Some((p.0, p.1 as int)),
            None => spec_decode_u64_at(bytes@, i as int) is None,
        },
{
    if bytes.len() >= 8 && i <= bytes.len() - 8 {
        let sub = slice_subrange(bytes, i, i + 8);
        Some((u64_from_le_bytes(sub), i + 8))
    } else {
        None
    }
}

pub fn decode_char_at(bytes: &[u8], i: usize) -> (r: Option<(char, usize)>)
    ensures
        match r {
            Some(p) => spec_decode_char_at(bytes@, i as int) == Some((p.0, p.1 as int)),
            None => spec_decode_char_at(bytes@, i as int) is None,
        },
{
    if bytes.len() >= 4 && i <= bytes.len() - 4 {
        let sub = slice_subrange(bytes, i, i + 4);
        let u = u32_from_le_bytes(sub);
        match char_from_u32(u) {
            Some(c) => {
                proof {
                    char_u32_cast(c, u);
                }
                Some((c, i + 4))
            },
            None => None,
        }
    } else {
        None
    }
}

pub fn decode_str_at(bytes: &[u8], i: usize) -> (r: Option<(String, usize)>)
    ensures
        match r {
            Some(p) => spec_decode_str_at(bytes@, i as int) == Some((p.0@, p.1 as int)),
            None => spec_decode_str_at(bytes@, i as int) is None,
        },
{
    let n = match decode_u64_at(bytes, i) {
        None => {
            return None;
        },
        Some(p) => p,
    };
    let count = n.0;
    let mut pos = n.1;
    let mut acc = String::new();
    let mut done: u64 = 0;
    while done < count
        invariant
            acc@.len() == done,
            0 <= done <= count,
            pos <= bytes@.len(),
            match spec_decode_chars_at(bytes@, pos as int, (count - done) as nat) {
                Some(p) => spec_decode_str_at(bytes@, i as int)
                    == Some((acc@ + p.0, p.1)),
                None => spec_decode_str_at(bytes@, i as int) is None,
            },
        decreases count - done,
    {
        match decode_char_at(bytes, pos) {
            None => {
                return None;
            },
            Some(p) => {
                push_char(&mut acc, p.0);
                proof {
                    let rest = spec_decode_chars_at(bytes@, p.1 as int, (count - done - 1) as nat);
                    if rest is Some {
                        assert(acc@ + rest.unwrap().0
                            =~= acc@.drop_last() + (seq![p.0] + rest.unwrap().0));
                    }
                }
                pos = p.1;
                done = done + 1;
            },
        }
    }
    proof {
        assert(acc@ + Seq::<char>::empty() =~= acc@);
    }
    Some((acc, pos))
}

} // verus!
