//! Tests for the instruction wire format: the decoder, the encoder, and
//! their failure modes.

use cli_program_template::instruction::{Instructions, ProgramInstruction};
use cli_program_template::SampleError;

/// Hand-built payload: a length-prefixed list of byte blocks.
fn blocks(parts: &[&[u8]]) -> Vec<u8> {
    let mut out = Vec::new();
    out.extend_from_slice(&(parts.len() as u32).to_le_bytes());
    for p in parts {
        out.extend_from_slice(&(p.len() as u32).to_le_bytes());
        out.extend_from_slice(p);
    }
    out
}

#[test]
fn test_unpack_initialize() {
    let data = blocks(&[&[0]]);
    assert_eq!(
        ProgramInstruction::unpack(&data),
        Ok(ProgramInstruction::InitializeAccount)
    );
}

#[test]
fn test_unpack_mint() {
    let data = blocks(&[&[1], b"key", b"value"]);
    assert_eq!(
        ProgramInstruction::unpack(&data),
        Ok(ProgramInstruction::MintToAccount(
            "key".to_string(),
            "value".to_string()
        ))
    );
}

#[test]
fn test_unpack_transfer_and_burn() {
    let data = blocks(&[&[2], b"key"]);
    assert_eq!(
        ProgramInstruction::unpack(&data),
        Ok(ProgramInstruction::TransferBetweenAccounts("key".to_string()))
    );
    let data = blocks(&[&[3], b"key"]);
    assert_eq!(
        ProgramInstruction::unpack(&data),
        Ok(ProgramInstruction::BurnFromAccount("key".to_string()))
    );
}

#[test]
fn test_unpack_fee_variants() {
    let data = blocks(&[&[4], b"k", b"v"]);
    assert_eq!(
        ProgramInstruction::unpack(&data),
        Ok(ProgramInstruction::MintToAccountWithFee(
            "k".to_string(),
            "v".to_string()
        ))
    );
    let data = blocks(&[&[5], b"k"]);
    assert_eq!(
        ProgramInstruction::unpack(&data),
        Ok(ProgramInstruction::TransferBetweenAccountsWithFee("k".to_string()))
    );
    let data = blocks(&[&[6], b"k"]);
    assert_eq!(
        ProgramInstruction::unpack(&data),
        Ok(ProgramInstruction::BurnFromAccountWithFee("k".to_string()))
    );
}

#[test]
fn test_unpack_unknown_tag() {
    let data = blocks(&[&[7], b"k"]);
    assert_eq!(
        ProgramInstruction::unpack(&data),
        Err(SampleError::InvalidInstruction)
    );
    let data = blocks(&[&[255]]);
    assert_eq!(
        ProgramInstruction::unpack(&data),
        Err(SampleError::InvalidInstruction)
    );
}

#[test]
fn test_unpack_malformed() {
    // too short for the block count
    assert_eq!(
        ProgramInstruction::unpack(&[1, 0]),
        Err(SampleError::DeserializationFailure)
    );
    // zero blocks
    assert_eq!(
        ProgramInstruction::unpack(&blocks(&[])),
        Err(SampleError::DeserializationFailure)
    );
    // empty tag block
    assert_eq!(
        ProgramInstruction::unpack(&blocks(&[&[]])),
        Err(SampleError::DeserializationFailure)
    );
    // mint with a missing operand block
    assert_eq!(
        ProgramInstruction::unpack(&blocks(&[&[1], b"key"])),
        Err(SampleError::DeserializationFailure)
    );
    // declared block runs past the end of the input
    let mut data = blocks(&[&[2]]);
    data[0] = 2;
    data.extend_from_slice(&100u32.to_le_bytes());
    assert_eq!(
        ProgramInstruction::unpack(&data),
        Err(SampleError::DeserializationFailure)
    );
}

#[test]
fn test_unpack_invalid_utf8_operand() {
    let data = blocks(&[&[3], &[0xff, 0xfe]]);
    assert_eq!(
        ProgramInstruction::unpack(&data),
        Err(SampleError::DeserializationFailure)
    );
}

/// Blocks past the ones the tag needs are ignored, as is anything in the
/// tag block past its first byte.
#[test]
fn test_unpack_ignores_extras() {
    // a transfer sent with an unused empty value block
    let data = blocks(&[&[2], b"key", b""]);
    assert_eq!(
        ProgramInstruction::unpack(&data),
        Ok(ProgramInstruction::TransferBetweenAccounts("key".to_string()))
    );
    // extra bytes inside the tag block
    let data = blocks(&[&[0, 9, 9]]);
    assert_eq!(
        ProgramInstruction::unpack(&data),
        Ok(ProgramInstruction::InitializeAccount)
    );
    // trailing bytes after the declared blocks
    let mut data = blocks(&[&[0]]);
    data.extend_from_slice(b"junk");
    assert_eq!(
        ProgramInstruction::unpack(&data),
        Ok(ProgramInstruction::InitializeAccount)
    );
}

/// Packing then unpacking yields the original instruction.
#[test]
fn test_pack_unpack_round_trip() {
    let cases = vec![
        ProgramInstruction::InitializeAccount,
        ProgramInstruction::MintToAccount("key".to_string(), "value".to_string()),
        ProgramInstruction::TransferBetweenAccounts("key".to_string()),
        ProgramInstruction::BurnFromAccount("key".to_string()),
        ProgramInstruction::MintToAccountWithFee("k2".to_string(), "v2".to_string()),
        ProgramInstruction::TransferBetweenAccountsWithFee("k2".to_string()),
        ProgramInstruction::BurnFromAccountWithFee("k2".to_string()),
    ];
    for instruction in cases {
        let bytes = instruction.pack();
        assert_eq!(ProgramInstruction::unpack(&bytes), Ok(instruction));
    }
}

/// Packed bytes follow the documented layout exactly.
#[test]
fn test_pack_layout() {
    let bytes = ProgramInstruction::BurnFromAccount("ab".to_string()).pack();
    assert_eq!(bytes, blocks(&[&[3], b"ab"]));
    let bytes = ProgramInstruction::MintToAccount("k".to_string(), "v".to_string()).pack();
    assert_eq!(bytes, blocks(&[&[1], b"k", b"v"]));
}

/// The client-side instruction identifiers name the wire tags.
#[test]
fn test_instruction_ids() {
    assert_eq!(Instructions::InitializeAccount.tag(), 0);
    assert_eq!(Instructions::FreeMint.tag(), 1);
    assert_eq!(Instructions::FreeTransfer.tag(), 2);
    assert_eq!(Instructions::FreeBurn.tag(), 3);
    assert_eq!(Instructions::MintWithFee.tag(), 4);
    assert_eq!(Instructions::TransferWithFee.tag(), 5);
    assert_eq!(Instructions::BurnWithFee.tag(), 6);
}
