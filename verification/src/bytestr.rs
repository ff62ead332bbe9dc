//! Byte-string groundwork for the binary formats: lexicographic order on
//! byte sequences, strict UTF-8 conversion, and the length-prefixed block
//! unit (a 4-byte little-endian length followed by that many bytes) that
//! both the record codec and the instruction decoder are built from.

use vstd::prelude::*;
use vstd::bytes::{spec_u32_from_le_bytes, spec_u32_to_le_bytes, lemma_auto_spec_u32_to_from_le_bytes, u32_from_le_bytes};
use vstd::utf8::{encode_utf8, decode_utf8, valid_utf8, encode_utf8_valid_utf8, encode_utf8_decode_utf8};
use vstd::slice::{slice_index_get, slice_subrange, slice_to_vec};

verus! {

// ---------------------------------------------------------------------
// Lexicographic order on byte sequences
// ---------------------------------------------------------------------

/// Strict lexicographic order on byte sequences: a proper prefix comes
/// first, otherwise the first differing byte decides.
pub open spec fn lex_lt(a: Seq<u8>, b: Seq<u8>) -> bool
    decreases a.len(),
{
    if b.len() == 0 {
        false
    } else if a.len() == 0 {
        true
    } else if a[0] < b[0] {
        true
    } else if a[0] > b[0] {
        false
    } else {
        lex_lt(a.drop_first(), b.drop_first())
    }
}

pub proof fn lemma_lex_lt_irreflexive(a: Seq<u8>)
    ensures
        !lex_lt(a, a),
    decreases a.len(),
{
    if a.len() > 0 {
        lemma_lex_lt_irreflexive(a.drop_first());
    }
}

pub proof fn lemma_lex_lt_asymmetric(a: Seq<u8>, b: Seq<u8>)
    requires
        lex_lt(a, b),
    ensures
        !lex_lt(b, a),
        a != b,
    decreases a.len(),
{
    if a.len() > 0 && b.len() > 0 && a[0] == b[0] {
        lemma_lex_lt_asymmetric(a.drop_first(), b.drop_first());
        assert(a != b) by {
            assert(a.drop_first() != b.drop_first());
        }
    }
}

pub proof fn lemma_lex_lt_transitive(a: Seq<u8>, b: Seq<u8>, c: Seq<u8>)
    requires
        lex_lt(a, b),
        lex_lt(b, c),
    ensures
        lex_lt(a, c),
    decreases a.len(),
{
    if a.len() > 0 && b.len() > 0 && c.len() > 0 && a[0] == b[0] && b[0] == c[0] {
        lemma_lex_lt_transitive(a.drop_first(), b.drop_first(), c.drop_first());
    }
}

pub proof fn lemma_lex_lt_total(a: Seq<u8>, b: Seq<u8>)
    requires
        a != b,
    ensures
        lex_lt(a, b) || lex_lt(b, a),
    decreases a.len(),
{
    if a.len() > 0 && b.len() > 0 && a[0] == b[0] {
        assert(a.drop_first() != b.drop_first()) by {
            if a.drop_first() == b.drop_first() {
                assert(a.drop_first().len() == a.len() - 1);
                assert(b.drop_first().len() == b.len() - 1);
                assert(a.len() == b.len());
                assert forall|k: int| 0 <= k < a.len() implies a[k] == b[k] by {
                    if k > 0 {
                        assert(a[k] == a.drop_first()[k - 1]);
                        assert(b[k] == b.drop_first()[k - 1]);
                    }
                }
                assert(a =~= b);
            }
        }
        lemma_lex_lt_total(a.drop_first(), b.drop_first());
        assert(lex_lt(a, b) == lex_lt(a.drop_first(), b.drop_first()));
        assert(lex_lt(b, a) == lex_lt(b.drop_first(), a.drop_first()));
    } else if a.len() == 0 {
        assert(b.len() > 0) by {
            if b.len() == 0 {
                assert(a =~= b);
            }
        }
        assert(lex_lt(a, b));
    } else if b.len() == 0 {
        assert(lex_lt(b, a));
    } else {
        assert(a[0] != b[0]);
        assert(a[0] < b[0] ==> lex_lt(a, b));
        assert(a[0] > b[0] ==> lex_lt(b, a));
    }
}

/// Exact three-way comparison used to keep record entries ordered:
/// returns whether `a` comes strictly before `b`, with byte equality
/// recognizable from two calls.
pub fn bytes_lt(a: &[u8], b: &[u8]) -> (r: bool)
    ensures
        r == lex_lt(a@, b@),
{
    let a_len: usize = a.len();
    let b_len: usize = b.len();
    let mut i: usize = 0;
    proof {
        assert(a@.skip(0) =~= a@);
        assert(b@.skip(0) =~= b@);
    }
    loop
        invariant
            i <= a_len,
            i <= b_len,
            a_len == a@.len(),
            b_len == b@.len(),
            forall|j: int| 0 <= j < i ==> a@[j] == b@[j],
            lex_lt(a@, b@) == lex_lt(a@.skip(i as int), b@.skip(i as int)),
        decreases a_len - i,
    {
        if i == b_len {
            proof {
                assert(b@.skip(i as int).len() == 0);
            }
            return false;
        }
        if i == a_len {
            proof {
                assert(a@.skip(i as int).len() == 0);
                assert(b@.skip(i as int).len() > 0);
            }
            return true;
        }
        let x = *slice_index_get(a, i);
        let y = *slice_index_get(b, i);
        proof {
            assert(a@.skip(i as int)[0] == a@[i as int]);
            assert(b@.skip(i as int)[0] == b@[i as int]);
            assert(a@.skip(i as int).drop_first() =~= a@.skip(i as int + 1));
            assert(b@.skip(i as int).drop_first() =~= b@.skip(i as int + 1));
        }
        if x < y {
            return true;
        }
        if x > y {
            return false;
        }
        i = i + 1;
    }
}

/// Byte-for-byte equality of two slices.
pub fn bytes_eq(a: &[u8], b: &[u8]) -> (r: bool)
    ensures
        r == (a@ == b@),
{
    if a.len() != b.len() {
        return false;
    }
    let n: usize = a.len();
    let mut i: usize = 0;
    while i < n
        invariant
            i <= n,
            n == a@.len(),
            n == b@.len(),
            forall|j: int| 0 <= j < i ==> a@[j] == b@[j],
        decreases n - i,
    {
        if *slice_index_get(a, i) != *slice_index_get(b, i) {
            return false;
        }
        i = i + 1;
    }
    proof {
        assert(a@ =~= b@);
    }
    true
}

// ---------------------------------------------------------------------
// UTF-8 conversion
// ---------------------------------------------------------------------

/// UTF-8 encoding is injective: equal encodings come from equal character
/// sequences.
pub proof fn lemma_encode_utf8_injective(a: Seq<char>, b: Seq<char>)
    requires
        encode_utf8(a) == encode_utf8(b),
    ensures
        a == b,
{
    broadcast use encode_utf8_decode_utf8;

    assert(decode_utf8(encode_utf8(a)) == a);
    assert(decode_utf8(encode_utf8(b)) == b);
}

/// Relies on `String::from_utf8`: it succeeds exactly on valid UTF-8 input,
/// and the string it returns decodes from those bytes.
#[verifier::external_body]
pub(crate) fn bytes_to_string(v: Vec<u8>) -> (r: Option<String>)
    ensures
        r is Some <==> valid_utf8(v@),
        r matches Some(s) ==> s@ == decode_utf8(v@),
{
    String::from_utf8(v).ok()
}

// ---------------------------------------------------------------------
// Length-prefixed blocks
// ---------------------------------------------------------------------

/// A block on the wire: the byte count as a 4-byte little-endian integer,
/// then the bytes themselves.
pub open spec fn spec_encode_block(b: Seq<u8>) -> Seq<u8> {
    spec_u32_to_le_bytes(b.len() as u32) + b
}

/// Reads one block off the front of `input`, returning its bytes and the
/// remaining input; `None` when `input` is too short.
pub open spec fn spec_parse_block(input: Seq<u8>) -> Option<(Seq<u8>, Seq<u8>)> {
    if input.len() < 4 {
        None
    } else {
        let n = spec_u32_from_le_bytes(input.subrange(0, 4)) as int;
        if input.len() - 4 < n {
            None
        } else {
            Some((input.subrange(4, 4 + n), input.subrange(4 + n, input.len() as int)))
        }
    }
}

/// A string on the wire is a block holding its UTF-8 encoding.
pub open spec fn spec_encode_string(s: Seq<char>) -> Seq<u8> {
    spec_encode_block(encode_utf8(s))
}

/// Reads one block and decodes it strictly as UTF-8.
pub open spec fn spec_parse_string(input: Seq<u8>) -> Option<(Seq<char>, Seq<u8>)> {
    match spec_parse_block(input) {
        Option::None => Option::None,
        Option::Some((b, rest)) => if valid_utf8(b) {
            Option::Some((decode_utf8(b), rest))
        } else {
            Option::None
        },
    }
}

pub proof fn lemma_parse_encode_block(b: Seq<u8>, rest: Seq<u8>)
    requires
        b.len() <= u32::MAX,
    ensures
        spec_parse_block(spec_encode_block(b) + rest) == Some((b, rest)),
{
    lemma_auto_spec_u32_to_from_le_bytes();
    let input = spec_encode_block(b) + rest;
    assert(input.subrange(0, 4) =~= spec_u32_to_le_bytes(b.len() as u32));
    assert(spec_u32_from_le_bytes(input.subrange(0, 4)) == b.len() as u32);
    assert(input.subrange(4, 4 + b.len() as int) =~= b);
    assert(input.subrange(4 + b.len() as int, input.len() as int) =~= rest);
}

pub proof fn lemma_parse_encode_string(s: Seq<char>, rest: Seq<u8>)
    requires
        encode_utf8(s).len() <= u32::MAX,
    ensures
        spec_parse_string(spec_encode_string(s) + rest) == Some((s, rest)),
{
    broadcast use encode_utf8_valid_utf8, encode_utf8_decode_utf8;

    lemma_parse_encode_block(encode_utf8(s), rest);
}

// ---------------------------------------------------------------------
// Executable block reading
// ---------------------------------------------------------------------

/// Reads the block starting at `pos`, returning its bytes and the position
/// just past it; `None` exactly when the spec-level parse fails there.
pub fn read_block<'a>(input: &'a [u8], pos: usize) -> (r: Option<(&'a [u8], usize)>)
    requires
        pos <= input@.len(),
    ensures
        match r {
            Option::Some(p) => {
                &&& spec_parse_block(input@.skip(pos as int)) == Some((p.0@, input@.skip(p.1 as int)))
                &&& pos <= p.1 <= input@.len()
            },
            Option::None => spec_parse_block(input@.skip(pos as int)) is None,
        },
{
    let remaining: usize = input.len() - pos;
    if remaining < 4 {
        return None;
    }
    let len_bytes = slice_subrange(input, pos, pos + 4);
    proof {
        assert(len_bytes@ =~= input@.skip(pos as int).subrange(0, 4));
    }
    let n_u32 = u32_from_le_bytes(len_bytes);
    let n = n_u32 as usize;
    if remaining - 4 < n {
        return None;
    }
    let block = slice_subrange(input, pos + 4, pos + 4 + n);
    proof {
        assert(block@ =~= input@.skip(pos as int).subrange(4, 4 + n as int));
        assert(input@.skip((pos + 4 + n) as int) =~= input@.skip(pos as int).subrange(
            4 + n as int,
            input@.skip(pos as int).len() as int,
        ));
    }
    Some((block, pos + 4 + n))
}

/// Reads the string block starting at `pos`; strict UTF-8.
pub fn read_string(input: &[u8], pos: usize) -> (r: Option<(String, usize)>)
    requires
        pos <= input@.len(),
    ensures
        match r {
            Option::Some(p) => {
                &&& spec_parse_string(input@.skip(pos as int)) matches Some(q)
                    && q.0 == p.0@ && q.1 == input@.skip(p.1 as int)
                &&& pos <= p.1 <= input@.len()
            },
            Option::None => spec_parse_string(input@.skip(pos as int)) is None,
        },
{
    match read_block(input, pos) {
        Option::None => None,
        Option::Some((block, newpos)) => {
            let bytes = slice_to_vec(block);
            match bytes_to_string(bytes) {
                Option::None => None,
                Option::Some(s) => Some((s, newpos)),
            }
        },
    }
}

} // verus!
