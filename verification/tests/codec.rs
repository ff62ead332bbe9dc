//! Tests for the account record codec: the fixed binary layout, the
//! round trip, and its failure modes.

use cli_program_template::account_state::{ProgramAccountState, ACCOUNT_STATE_SPACE, BTREE_STORAGE};
use cli_program_template::SampleError;

fn fresh_buffer() -> Vec<u8> {
    vec![0u8; ACCOUNT_STATE_SPACE]
}

/// A record with entries, written to a buffer and read back, is the same
/// record.
#[test]
fn test_codec_round_trip() {
    let mut state = ProgramAccountState::new();
    state.set_initialized();
    state.add("beta".to_string(), "two".to_string()).unwrap();
    state.add("alpha".to_string(), "one".to_string()).unwrap();
    let mut buffer = fresh_buffer();
    state.pack_into_slice(&mut buffer).unwrap();
    let back = ProgramAccountState::unpack_from_slice(&buffer).unwrap();
    assert_eq!(back, state);
    assert!(back.is_initialized());
    assert_eq!(back.get("alpha").unwrap(), "one");
    assert_eq!(back.get("beta").unwrap(), "two");
    assert_eq!(back.len(), 2);
}

/// Two records with the same logical content serialize to identical
/// bytes, whatever order their entries were added in.
#[test]
fn test_deterministic_encoding() {
    let mut a = ProgramAccountState::new();
    a.set_initialized();
    a.add("x".to_string(), "1".to_string()).unwrap();
    a.add("m".to_string(), "2".to_string()).unwrap();
    a.add("a".to_string(), "3".to_string()).unwrap();
    let mut b = ProgramAccountState::new();
    b.set_initialized();
    b.add("a".to_string(), "3".to_string()).unwrap();
    b.add("x".to_string(), "1".to_string()).unwrap();
    b.add("m".to_string(), "2".to_string()).unwrap();
    let mut buf_a = fresh_buffer();
    let mut buf_b = fresh_buffer();
    a.pack_into_slice(&mut buf_a).unwrap();
    b.pack_into_slice(&mut buf_b).unwrap();
    assert_eq!(buf_a, buf_b);
}

/// An oversized payload is rejected with `StateSpaceExceeded` and the
/// target buffer keeps every byte it had.
#[test]
fn test_capacity_exceeded_leaves_buffer() {
    let mut state = ProgramAccountState::new();
    state.set_initialized();
    state
        .add("big".to_string(), "v".repeat(BTREE_STORAGE))
        .unwrap();
    let mut buffer: Vec<u8> = (0..ACCOUNT_STATE_SPACE).map(|i| (i % 251) as u8).collect();
    let before = buffer.clone();
    assert_eq!(
        state.pack_into_slice(&mut buffer),
        Err(SampleError::StateSpaceExceeded)
    );
    assert_eq!(buffer, before);
}

/// A payload one byte too large fails; the largest that fits succeeds.
#[test]
fn test_capacity_boundary() {
    // payload = 4 (count) + 4 + klen + 4 + vlen; with klen = 1:
    // fits exactly when vlen == BTREE_STORAGE - 13.
    let fitting = BTREE_STORAGE - 13;
    let mut state = ProgramAccountState::new();
    state.set_initialized();
    state.add("k".to_string(), "v".repeat(fitting)).unwrap();
    let mut buffer = fresh_buffer();
    assert_eq!(state.pack_into_slice(&mut buffer), Ok(()));

    let mut state2 = ProgramAccountState::new();
    state2.set_initialized();
    state2.add("k".to_string(), "v".repeat(fitting + 1)).unwrap();
    let mut buffer2 = fresh_buffer();
    assert_eq!(
        state2.pack_into_slice(&mut buffer2),
        Err(SampleError::StateSpaceExceeded)
    );
}

/// A zero payload length is an empty map, never an error.
#[test]
fn test_zero_length_is_empty_map() {
    let buffer = fresh_buffer();
    let state = ProgramAccountState::unpack_from_slice(&buffer).unwrap();
    assert!(!state.is_initialized());
    assert_eq!(state.len(), 0);

    let mut initialized = fresh_buffer();
    initialized[0] = 1;
    let state = ProgramAccountState::unpack_from_slice(&initialized).unwrap();
    assert!(state.is_initialized());
    assert_eq!(state.len(), 0);
}

/// A flag byte other than 0 or 1 is a corruption error.
#[test]
fn test_corrupt_init_flag() {
    let mut buffer = fresh_buffer();
    buffer[0] = 2;
    assert_eq!(
        ProgramAccountState::unpack_from_slice(&buffer),
        Err(SampleError::CorruptInitFlag)
    );
}

/// A declared payload length beyond the storage region is rejected before
/// any read.
#[test]
fn test_length_beyond_storage() {
    let mut buffer = fresh_buffer();
    let too_long = (BTREE_STORAGE as u32 + 1).to_le_bytes();
    buffer[1..5].copy_from_slice(&too_long);
    assert_eq!(
        ProgramAccountState::unpack_from_slice(&buffer),
        Err(SampleError::DeserializationFailure)
    );
}

/// A truncated or overlong payload region is a deserialization failure.
#[test]
fn test_malformed_payload() {
    // declared length 3: too short to hold the entry count
    let mut buffer = fresh_buffer();
    buffer[1] = 3;
    assert_eq!(
        ProgramAccountState::unpack_from_slice(&buffer),
        Err(SampleError::DeserializationFailure)
    );
    // count says one entry but no bytes follow
    let mut buffer = fresh_buffer();
    buffer[1] = 4;
    buffer[5] = 1;
    assert_eq!(
        ProgramAccountState::unpack_from_slice(&buffer),
        Err(SampleError::DeserializationFailure)
    );
    // trailing garbage inside the declared payload region
    let mut buffer = fresh_buffer();
    buffer[1] = 5;
    assert_eq!(
        ProgramAccountState::unpack_from_slice(&buffer),
        Err(SampleError::DeserializationFailure)
    );
}

/// Entries arriving out of order decode fine and re-encode canonically.
#[test]
fn test_unsorted_payload_normalizes() {
    // payload: count 2, then ("b","2"), ("a","1")
    let mut payload: Vec<u8> = Vec::new();
    payload.extend_from_slice(&2u32.to_le_bytes());
    for (k, v) in [("b", "2"), ("a", "1")] {
        payload.extend_from_slice(&(k.len() as u32).to_le_bytes());
        payload.extend_from_slice(k.as_bytes());
        payload.extend_from_slice(&(v.len() as u32).to_le_bytes());
        payload.extend_from_slice(v.as_bytes());
    }
    let mut buffer = fresh_buffer();
    buffer[0] = 1;
    buffer[1..5].copy_from_slice(&(payload.len() as u32).to_le_bytes());
    buffer[5..5 + payload.len()].copy_from_slice(&payload);
    let state = ProgramAccountState::unpack_from_slice(&buffer).unwrap();
    assert_eq!(state.get("a").unwrap(), "1");
    assert_eq!(state.get("b").unwrap(), "2");

    let mut sorted = ProgramAccountState::new();
    sorted.set_initialized();
    sorted.add("a".to_string(), "1".to_string()).unwrap();
    sorted.add("b".to_string(), "2".to_string()).unwrap();
    let mut canonical = fresh_buffer();
    sorted.pack_into_slice(&mut canonical).unwrap();
    let mut reencoded = fresh_buffer();
    state.pack_into_slice(&mut reencoded).unwrap();
    assert_eq!(reencoded, canonical);
}

/// When a key repeats in the payload, the later value wins, as repeated
/// inserts would.
#[test]
fn test_duplicate_key_last_wins() {
    let mut payload: Vec<u8> = Vec::new();
    payload.extend_from_slice(&2u32.to_le_bytes());
    for (k, v) in [("a", "old"), ("a", "new")] {
        payload.extend_from_slice(&(k.len() as u32).to_le_bytes());
        payload.extend_from_slice(k.as_bytes());
        payload.extend_from_slice(&(v.len() as u32).to_le_bytes());
        payload.extend_from_slice(v.as_bytes());
    }
    let mut buffer = fresh_buffer();
    buffer[1..5].copy_from_slice(&(payload.len() as u32).to_le_bytes());
    buffer[5..5 + payload.len()].copy_from_slice(&payload);
    let state = ProgramAccountState::unpack_from_slice(&buffer).unwrap();
    assert_eq!(state.len(), 1);
    assert_eq!(state.get("a").unwrap(), "new");
}

/// Invalid UTF-8 inside a string block is a deserialization failure.
#[test]
fn test_invalid_utf8_rejected() {
    let mut payload: Vec<u8> = Vec::new();
    payload.extend_from_slice(&1u32.to_le_bytes());
    payload.extend_from_slice(&2u32.to_le_bytes());
    payload.extend_from_slice(&[0xff, 0xfe]);
    payload.extend_from_slice(&1u32.to_le_bytes());
    payload.extend_from_slice(b"v");
    let mut buffer = fresh_buffer();
    buffer[1..5].copy_from_slice(&(payload.len() as u32).to_le_bytes());
    buffer[5..5 + payload.len()].copy_from_slice(&payload);
    assert_eq!(
        ProgramAccountState::unpack_from_slice(&buffer),
        Err(SampleError::DeserializationFailure)
    );
}

/// Padding past the payload is dead space: it never affects decoding.
#[test]
fn test_padding_ignored() {
    let mut state = ProgramAccountState::new();
    state.set_initialized();
    state.add("k".to_string(), "v".to_string()).unwrap();
    let mut buffer: Vec<u8> = (0..ACCOUNT_STATE_SPACE).map(|i| (i % 7) as u8 + 40).collect();
    buffer[0] = 1;
    state.pack_into_slice(&mut buffer).unwrap();
    let back = ProgramAccountState::unpack_from_slice(&buffer).unwrap();
    assert_eq!(back, state);
}

/// Non-ASCII keys and values survive the round trip.
#[test]
fn test_unicode_round_trip() {
    let mut state = ProgramAccountState::new();
    state.set_initialized();
    state
        .add("clé".to_string(), "välue ✓".to_string())
        .unwrap();
    let mut buffer = fresh_buffer();
    state.pack_into_slice(&mut buffer).unwrap();
    let back = ProgramAccountState::unpack_from_slice(&buffer).unwrap();
    assert_eq!(back.get("clé").unwrap(), "välue ✓");
}
