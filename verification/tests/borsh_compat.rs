//! Cross-checks the binary formats against an independent serializer:
//! the record's map payload matches the serialization of an ordered map,
//! and an instruction payload matches the serialization of a list of
//! byte blocks.

use std::collections::BTreeMap;

use cli_program_template::account_state::ProgramAccountState;
use cli_program_template::instruction::ProgramInstruction;

#[test]
fn test_payload_matches_btreemap_serialization() {
    let pairs = [("alpha", "one"), ("beta", "two"), ("zed", "three ✓")];

    let mut state = ProgramAccountState::new();
    state.set_initialized();
    for (k, v) in pairs {
        state.add(k.to_string(), v.to_string()).unwrap();
    }
    let mut buffer = vec![0u8; 1024];
    state.pack_into_slice(&mut buffer).unwrap();

    let mut map = BTreeMap::new();
    for (k, v) in pairs {
        map.insert(k.to_string(), v.to_string());
    }
    let expected = borsh::to_vec(&map).unwrap();

    let declared = u32::from_le_bytes([buffer[1], buffer[2], buffer[3], buffer[4]]) as usize;
    assert_eq!(declared, expected.len());
    assert_eq!(&buffer[5..5 + declared], &expected[..]);
}

#[test]
fn test_payload_decodes_btreemap_serialization() {
    let mut map = BTreeMap::new();
    map.insert("k1".to_string(), "v1".to_string());
    map.insert("k2".to_string(), "v2".to_string());
    let payload = borsh::to_vec(&map).unwrap();

    let mut buffer = vec![0u8; 1024];
    buffer[0] = 1;
    buffer[1..5].copy_from_slice(&(payload.len() as u32).to_le_bytes());
    buffer[5..5 + payload.len()].copy_from_slice(&payload);

    let state = ProgramAccountState::unpack_from_slice(&buffer).unwrap();
    assert!(state.is_initialized());
    assert_eq!(state.len(), 2);
    assert_eq!(state.get("k1").unwrap(), "v1");
    assert_eq!(state.get("k2").unwrap(), "v2");
}

#[test]
fn test_instruction_matches_block_list_serialization() {
    let instruction =
        ProgramInstruction::MintToAccount("key".to_string(), "value".to_string()).pack();
    let blocks: Vec<Vec<u8>> = vec![vec![1u8], b"key".to_vec(), b"value".to_vec()];
    let expected = borsh::to_vec(&blocks).unwrap();
    assert_eq!(instruction, expected);
}
