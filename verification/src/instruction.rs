//! The instruction wire format and its decoder.
//!
//! An instruction payload is a length-prefixed sequence of byte blocks.
//! Block 0's first byte is the operation tag; the following blocks are the
//! UTF-8 string operands that tag requires.  Blocks beyond those the tag
//! needs are ignored, as are bytes past the blocks read.

use vstd::prelude::*;
use vstd::utf8::encode_utf8;
use vstd::bytes::{
    spec_u32_from_le_bytes, spec_u32_to_le_bytes, lemma_auto_spec_u32_to_from_le_bytes,
    u32_from_le_bytes, u32_to_le_bytes,
};
use vstd::slice::{slice_index_get, slice_subrange};
use vstd::string::StrSliceExecFns;
use crate::bytestr::{
    spec_encode_block, spec_parse_block, spec_encode_string, spec_parse_string,
    lemma_parse_encode_block, lemma_parse_encode_string, read_block, read_string,
};
use crate::error::SampleError;

verus! {

/// All custom program instructions.
#[derive(Debug, PartialEq)]
pub enum ProgramInstruction {
    InitializeAccount,
    MintToAccount(String, String),
    TransferBetweenAccounts(String),
    BurnFromAccount(String),
    MintToAccountWithFee(String, String),
    TransferBetweenAccountsWithFee(String),
    BurnFromAccountWithFee(String),
}

impl View for ProgramInstruction {
    type V = (u8, Seq<char>, Seq<char>);

    /// The wire tag and the two operand slots (unused slots are empty).
    open spec fn view(&self) -> (u8, Seq<char>, Seq<char>) {
        match self {
            ProgramInstruction::InitializeAccount => (0u8, Seq::empty(), Seq::empty()),
            ProgramInstruction::MintToAccount(k, v) => (1u8, k@, v@),
            ProgramInstruction::TransferBetweenAccounts(k) => (2u8, k@, Seq::empty()),
            ProgramInstruction::BurnFromAccount(k) => (3u8, k@, Seq::empty()),
            ProgramInstruction::MintToAccountWithFee(k, v) => (4u8, k@, v@),
            ProgramInstruction::TransferBetweenAccountsWithFee(k) => (5u8, k@, Seq::empty()),
            ProgramInstruction::BurnFromAccountWithFee(k) => (6u8, k@, Seq::empty()),
        }
    }
}

/// Whether the tag names an operation.
pub open spec fn spec_tag_known(tag: u8) -> bool {
    tag <= 6
}

/// How many string operands the operation carries.
pub open spec fn spec_tag_arity(tag: u8) -> int {
    if tag == 0 {
        0
    } else if tag == 1 || tag == 4 {
        2
    } else {
        1
    }
}

/// What a raw instruction payload decodes to: the tag and its operands, or
/// the failure the decoder reports.  Decoding is pure and total.
pub open spec fn spec_parse_instruction(input: Seq<u8>) -> Result<
    (u8, Seq<char>, Seq<char>),
    SampleError,
> {
    if input.len() < 4 {
        Err(SampleError::DeserializationFailure)
    } else {
        let n = spec_u32_from_le_bytes(input.subrange(0, 4)) as int;
        if n == 0 {
            Err(SampleError::DeserializationFailure)
        } else {
            match spec_parse_block(input.skip(4)) {
                Option::None => Err(SampleError::DeserializationFailure),
                Option::Some((blk, r1)) => if blk.len() == 0 {
                    Err(SampleError::DeserializationFailure)
                } else {
                    let tag = blk[0];
                    if !spec_tag_known(tag) {
                        Err(SampleError::InvalidInstruction)
                    } else if tag == 0 {
                        Ok((0u8, Seq::empty(), Seq::empty()))
                    } else if tag == 1 || tag == 4 {
                        if n < 3 {
                            Err(SampleError::DeserializationFailure)
                        } else {
                            match spec_parse_string(r1) {
                                Option::None => Err(SampleError::DeserializationFailure),
                                Option::Some((k, r2)) => match spec_parse_string(r2) {
                                    Option::None => Err(SampleError::DeserializationFailure),
                                    Option::Some((v, _r3)) => Ok((tag, k, v)),
                                },
                            }
                        }
                    } else {
                        if n < 2 {
                            Err(SampleError::DeserializationFailure)
                        } else {
                            match spec_parse_string(r1) {
                                Option::None => Err(SampleError::DeserializationFailure),
                                Option::Some((k, _r2)) => Ok((tag, k, Seq::empty())),
                            }
                        }
                    }
                },
            }
        }
    }
}

/// The canonical bytes for an instruction: the block count, the one-byte
/// tag block, then one block per operand.
pub open spec fn spec_encode_instruction(t: (u8, Seq<char>, Seq<char>)) -> Seq<u8> {
    let arity = spec_tag_arity(t.0);
    if arity == 0 {
        spec_u32_to_le_bytes(1u32) + spec_encode_block(seq![t.0])
    } else if arity == 1 {
        spec_u32_to_le_bytes(2u32) + spec_encode_block(seq![t.0]) + spec_encode_string(t.1)
    } else {
        spec_u32_to_le_bytes(3u32) + spec_encode_block(seq![t.0]) + spec_encode_string(t.1)
            + spec_encode_string(t.2)
    }
}

impl ProgramInstruction {
    /// Whether the operands fit their 4-byte length prefixes.
    pub open spec fn wire_sized(&self) -> bool {
        encode_utf8(self@.1).len() <= u32::MAX && encode_utf8(self@.2).len() <= u32::MAX
    }

    /// Unpacks an inbound buffer to the instruction it carries.
    pub fn unpack(input: &[u8]) -> (r: Result<Self, SampleError>)
        ensures
            r matches Ok(i) ==> spec_parse_instruction(input@) == Ok::<_, SampleError>(i@),
            r matches Err(e) ==> spec_parse_instruction(input@) == Err::<
                (u8, Seq<char>, Seq<char>),
                SampleError,
            >(e),
    {
        if input.len() < 4 {
            return Err(SampleError::DeserializationFailure);
        }
        let cb = slice_subrange(input, 0, 4);
        proof {
            assert(cb@ =~= input@.subrange(0, 4));
        }
        let n = u32_from_le_bytes(cb) as usize;
        if n == 0 {
            return Err(SampleError::DeserializationFailure);
        }
        let (blk, pos1) = match read_block(input, 4) {
            Option::Some(p) => p,
            Option::None => {
                return Err(SampleError::DeserializationFailure);
            },
        };
        if blk.len() == 0 {
            return Err(SampleError::DeserializationFailure);
        }
        let tag = *slice_index_get(blk, 0);
        if tag > 6 {
            return Err(SampleError::InvalidInstruction);
        }
        if tag == 0 {
            return Ok(ProgramInstruction::InitializeAccount);
        }
        if tag == 1 || tag == 4 {
            if n < 3 {
                return Err(SampleError::DeserializationFailure);
            }
            let (key, pos2) = match read_string(input, pos1) {
                Option::Some(p) => p,
                Option::None => {
                    return Err(SampleError::DeserializationFailure);
                },
            };
            let (value, _pos3) = match read_string(input, pos2) {
                Option::Some(p) => p,
                Option::None => {
                    return Err(SampleError::DeserializationFailure);
                },
            };
            if tag == 1 {
                Ok(ProgramInstruction::MintToAccount(key, value))
            } else {
                Ok(ProgramInstruction::MintToAccountWithFee(key, value))
            }
        } else {
            if n < 2 {
                return Err(SampleError::DeserializationFailure);
            }
            let (key, _pos2) = match read_string(input, pos1) {
                Option::Some(p) => p,
                Option::None => {
                    return Err(SampleError::DeserializationFailure);
                },
            };
            if tag == 2 {
                Ok(ProgramInstruction::TransferBetweenAccounts(key))
            } else if tag == 3 {
                Ok(ProgramInstruction::BurnFromAccount(key))
            } else if tag == 5 {
                Ok(ProgramInstruction::TransferBetweenAccountsWithFee(key))
            } else {
                Ok(ProgramInstruction::BurnFromAccountWithFee(key))
            }
        }
    }

    /// Packs the instruction into its canonical wire bytes.
    pub fn pack(&self) -> (r: Vec<u8>)
        requires
            self.wire_sized(),
        ensures
            r@ == spec_encode_instruction(self@),
    {
        match self {
            ProgramInstruction::InitializeAccount => pack_blocks(0, None, None),
            ProgramInstruction::MintToAccount(k, v) => pack_blocks(1, Some(k), Some(v)),
            ProgramInstruction::TransferBetweenAccounts(k) => pack_blocks(2, Some(k), None),
            ProgramInstruction::BurnFromAccount(k) => pack_blocks(3, Some(k), None),
            ProgramInstruction::MintToAccountWithFee(k, v) => pack_blocks(4, Some(k), Some(v)),
            ProgramInstruction::TransferBetweenAccountsWithFee(k) => pack_blocks(5, Some(k), None),
            ProgramInstruction::BurnFromAccountWithFee(k) => pack_blocks(6, Some(k), None),
        }
    }
}

/// Appends one operand string block to the payload being built.
fn push_string_block(out: &mut Vec<u8>, s: &String)
    requires
        encode_utf8(s@).len() <= u32::MAX,
    ensures
        final(out)@ == old(out)@ + spec_encode_string(s@),
{
    let b = s.as_str().as_bytes_vec();
    proof {
        assert(b@ == encode_utf8(s@));
    }
    let mut lb = u32_to_le_bytes(b.len() as u32);
    out.append(&mut lb);
    let mut bm = b;
    out.append(&mut bm);
    proof {
        assert(final(out)@ =~= old(out)@ + spec_encode_string(s@));
    }
}

/// Builds the block sequence for a tag and its present operands.
fn pack_blocks(tag: u8, first: Option<&String>, second: Option<&String>) -> (r: Vec<u8>)
    requires
        spec_tag_known(tag),
        spec_tag_arity(tag) == 0 ==> first is None && second is None,
        spec_tag_arity(tag) == 1 ==> first is Some && second is None,
        spec_tag_arity(tag) == 2 ==> first is Some && second is Some,
        first matches Some(s) ==> encode_utf8(s@).len() <= u32::MAX,
        second matches Some(s) ==> encode_utf8(s@).len() <= u32::MAX,
    ensures
        r@ == spec_encode_instruction(
            (
                tag,
                if first is Some { first->0@ } else { Seq::empty() },
                if second is Some { second->0@ } else { Seq::empty() },
            ),
        ),
{
    let count: u32 = if first.is_none() {
        1
    } else if second.is_none() {
        2
    } else {
        3
    };
    let mut out = u32_to_le_bytes(count);
    let mut tb = u32_to_le_bytes(1u32);
    out.append(&mut tb);
    out.push(tag);
    proof {
        assert(out@ =~= spec_u32_to_le_bytes(count) + spec_encode_block(seq![tag]));
    }
    match first {
        Option::None => {},
        Option::Some(s) => {
            push_string_block(&mut out, s);
        },
    }
    match second {
        Option::None => {},
        Option::Some(s) => {
            push_string_block(&mut out, s);
        },
    }
    out
}

/// Decoding inverts encoding: the canonical bytes of a well-formed tagged
/// command parse back to exactly that command.
pub proof fn lemma_instruction_round_trip(t: (u8, Seq<char>, Seq<char>))
    requires
        spec_tag_known(t.0),
        encode_utf8(t.1).len() <= u32::MAX,
        encode_utf8(t.2).len() <= u32::MAX,
        spec_tag_arity(t.0) < 1 ==> t.1 == Seq::<char>::empty(),
        spec_tag_arity(t.0) < 2 ==> t.2 == Seq::<char>::empty(),
    ensures
        spec_parse_instruction(spec_encode_instruction(t)) == Ok::<_, SampleError>(t),
{
    lemma_auto_spec_u32_to_from_le_bytes();
    let arity = spec_tag_arity(t.0);
    let input = spec_encode_instruction(t);
    let count: u32 = if arity == 0 {
        1u32
    } else if arity == 1 {
        2u32
    } else {
        3u32
    };
    assert(input.subrange(0, 4) =~= spec_u32_to_le_bytes(count));
    assert(spec_u32_from_le_bytes(input.subrange(0, 4)) == count);
    let after_count = input.skip(4);
    if arity == 0 {
        assert(after_count =~= spec_encode_block(seq![t.0]) + Seq::<u8>::empty());
        lemma_parse_encode_block(seq![t.0], Seq::empty());
        assert(t =~= (t.0, Seq::<char>::empty(), Seq::<char>::empty()));
    } else if arity == 1 {
        let r1 = spec_encode_string(t.1);
        assert(after_count =~= spec_encode_block(seq![t.0]) + r1);
        lemma_parse_encode_block(seq![t.0], r1);
        assert(r1 =~= spec_encode_string(t.1) + Seq::<u8>::empty());
        lemma_parse_encode_string(t.1, Seq::empty());
        assert(t =~= (t.0, t.1, Seq::<char>::empty()));
    } else {
        let r1 = spec_encode_string(t.1) + spec_encode_string(t.2);
        assert(after_count =~= spec_encode_block(seq![t.0]) + r1);
        lemma_parse_encode_block(seq![t.0], r1);
        lemma_parse_encode_string(t.1, spec_encode_string(t.2));
        assert(spec_encode_string(t.2) =~= spec_encode_string(t.2) + Seq::<u8>::empty());
        lemma_parse_encode_string(t.2, Seq::empty());
    }
}

/// Instruction identifiers used by clients when composing payloads; each
/// one names the wire tag of the operation it stands for.
#[derive(Clone, Copy, Debug, PartialEq, Eq, Structural)]
pub enum Instructions {
    InitializeAccount,
    FreeMint,
    FreeTransfer,
    FreeBurn,
    MintWithFee,
    TransferWithFee,
    BurnWithFee,
}

impl Instructions {
    /// The wire tag of this operation.
    pub open spec fn spec_tag(self) -> u8 {
        match self {
            Instructions::InitializeAccount => 0,
            Instructions::FreeMint => 1,
            Instructions::FreeTransfer => 2,
            Instructions::FreeBurn => 3,
            Instructions::MintWithFee => 4,
            Instructions::TransferWithFee => 5,
            Instructions::BurnWithFee => 6,
        }
    }

    /// The tag byte written into block 0 of the wire payload.
    pub fn tag(self) -> (r: u8)
        ensures
            r == self.spec_tag(),
            spec_tag_known(r),
    {
        match self {
            Instructions::InitializeAccount => 0,
            Instructions::FreeMint => 1,
            Instructions::FreeTransfer => 2,
            Instructions::FreeBurn => 3,
            Instructions::MintWithFee => 4,
            Instructions::TransferWithFee => 5,
            Instructions::BurnWithFee => 6,
        }
    }
}

} // verus!
