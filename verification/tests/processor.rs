//! Tests for the instruction processor: the four operations, their fee
//! variants, the ownership gate, and the atomicity rules.

use cli_program_template::account_state::{ProgramAccountState, ACCOUNT_STATE_SPACE};
use cli_program_template::instruction::ProgramInstruction;
use cli_program_template::processor::{process, LedgerAccount};
use cli_program_template::SampleError;

const PROGRAM_ID: u64 = 7;
const WALLET_OWNER: u64 = 99;

fn program_account(lamports: u64) -> LedgerAccount {
    LedgerAccount { owner: PROGRAM_ID, lamports, data: vec![0u8; ACCOUNT_STATE_SPACE] }
}

fn wallet_account(lamports: u64) -> LedgerAccount {
    LedgerAccount { owner: WALLET_OWNER, lamports, data: Vec::new() }
}

fn initialize(accounts: &mut Vec<LedgerAccount>) {
    let data = ProgramInstruction::InitializeAccount.pack();
    process(PROGRAM_ID, accounts, &data).unwrap();
}

fn mint(accounts: &mut Vec<LedgerAccount>, key: &str, value: &str) -> Result<(), SampleError> {
    let data = ProgramInstruction::MintToAccount(key.to_string(), value.to_string()).pack();
    process(PROGRAM_ID, accounts, &data)
}

fn record(account: &LedgerAccount) -> ProgramAccountState {
    ProgramAccountState::unpack_from_slice(&account.data).unwrap()
}

#[test]
fn test_initialize_pass() {
    let mut accounts = vec![program_account(5)];
    let state = record(&accounts[0]);
    assert!(!state.is_initialized());
    let data = ProgramInstruction::InitializeAccount.pack();
    let result = process(PROGRAM_ID, &mut accounts, &data);
    assert!(result.is_ok());
    assert!(record(&accounts[0]).is_initialized());
}

#[test]
fn test_mint_pass() {
    let mut accounts = vec![program_account(5)];
    initialize(&mut accounts);

    let mint_key = String::from("test_key_1");
    let mint_value = String::from("value for test_key_1");
    let result = mint(&mut accounts, &mint_key, &mint_value);
    assert!(result.is_ok());

    let state = record(&accounts[0]);
    assert!(state.is_initialized());
    assert!(state.contains_key(&mint_key));
    assert_eq!(state.get(&mint_key).unwrap(), &mint_value);
}

#[test]
fn test_mint_transfer_pass() {
    let mut start = vec![program_account(5)];
    let mut target = vec![program_account(5)];
    initialize(&mut start);
    initialize(&mut target);

    let mint_key = String::from("test_key_1");
    let mint_value = String::from("value for test_key_1");
    assert!(mint(&mut start, &mint_key, &mint_value).is_ok());

    let mut accounts = vec![start.remove(0), target.remove(0)];
    let data = ProgramInstruction::TransferBetweenAccounts(mint_key.clone()).pack();
    let result = process(PROGRAM_ID, &mut accounts, &data);
    assert!(result.is_ok());

    let from_state = record(&accounts[0]);
    assert!(from_state.is_initialized());
    assert!(!from_state.contains_key(&mint_key));

    let to_state = record(&accounts[1]);
    assert!(to_state.is_initialized());
    assert!(to_state.contains_key(&mint_key));
    assert_eq!(to_state.get(&mint_key).unwrap(), &mint_value);
}

#[test]
fn test_mint_transfer_burn_pass() {
    let mut accounts = vec![program_account(5), program_account(5)];
    let init = ProgramInstruction::InitializeAccount.pack();
    process(PROGRAM_ID, &mut accounts, &init).unwrap();
    // initialize the second record through its own single-account call
    let mut second = vec![accounts.remove(1)];
    process(PROGRAM_ID, &mut second, &init).unwrap();
    accounts.push(second.remove(0));

    let mint_key = String::from("test_key_1");
    let mint_value = String::from("value for test_key_1");
    assert!(mint(&mut accounts, &mint_key, &mint_value).is_ok());

    let transfer = ProgramInstruction::TransferBetweenAccounts(mint_key.clone()).pack();
    assert!(process(PROGRAM_ID, &mut accounts, &transfer).is_ok());

    // burn from the receiving record
    let mut receiver = vec![accounts.remove(1)];
    let burn = ProgramInstruction::BurnFromAccount(mint_key.clone()).pack();
    assert!(process(PROGRAM_ID, &mut receiver, &burn).is_ok());
    assert!(!record(&receiver[0]).contains_key(&mint_key));
}

/// Initialization succeeds once and only once.
#[test]
fn test_initialize_twice_fails() {
    let mut accounts = vec![program_account(5)];
    let data = ProgramInstruction::InitializeAccount.pack();
    assert_eq!(process(PROGRAM_ID, &mut accounts, &data), Ok(()));
    let snapshot = accounts.clone();
    assert_eq!(
        process(PROGRAM_ID, &mut accounts, &data),
        Err(SampleError::AlreadyInitializedState)
    );
    assert_eq!(accounts, snapshot);
}

/// Minting the same key twice fails and preserves the first value.
#[test]
fn test_mint_same_key_twice_fails() {
    let mut accounts = vec![program_account(5)];
    initialize(&mut accounts);
    assert_eq!(mint(&mut accounts, "k", "first"), Ok(()));
    let snapshot = accounts.clone();
    assert_eq!(
        mint(&mut accounts, "k", "second"),
        Err(SampleError::KeyAlreadyExists)
    );
    assert_eq!(accounts, snapshot);
    assert_eq!(record(&accounts[0]).get("k").unwrap(), "first");
}

/// Minting into an uninitialized record is refused.
#[test]
fn test_mint_requires_initialization() {
    let mut accounts = vec![program_account(5)];
    assert_eq!(
        mint(&mut accounts, "k", "v"),
        Err(SampleError::UninitializedState)
    );
}

/// Transferring an absent key changes neither record.
#[test]
fn test_transfer_missing_key() {
    let mut a = vec![program_account(5)];
    let mut b = vec![program_account(5)];
    initialize(&mut a);
    initialize(&mut b);
    let mut accounts = vec![a.remove(0), b.remove(0)];
    let snapshot = accounts.clone();
    let data = ProgramInstruction::TransferBetweenAccounts("absent".to_string()).pack();
    assert_eq!(
        process(PROGRAM_ID, &mut accounts, &data),
        Err(SampleError::KeyNotFoundInAccount)
    );
    assert_eq!(accounts, snapshot);
}

/// A transfer whose destination already holds the key rolls back fully.
#[test]
fn test_transfer_duplicate_destination_rolls_back() {
    let mut a = vec![program_account(5)];
    let mut b = vec![program_account(5)];
    initialize(&mut a);
    initialize(&mut b);
    assert!(mint(&mut a, "k", "from-value").is_ok());
    assert!(mint(&mut b, "k", "to-value").is_ok());
    let mut accounts = vec![a.remove(0), b.remove(0)];
    let snapshot = accounts.clone();
    let data = ProgramInstruction::TransferBetweenAccounts("k".to_string()).pack();
    assert_eq!(
        process(PROGRAM_ID, &mut accounts, &data),
        Err(SampleError::KeyAlreadyExists)
    );
    assert_eq!(accounts, snapshot);
    assert_eq!(record(&accounts[0]).get("k").unwrap(), "from-value");
    assert_eq!(record(&accounts[1]).get("k").unwrap(), "to-value");
}

/// Burning an absent key fails and leaves the record unchanged.
#[test]
fn test_burn_missing_key() {
    let mut accounts = vec![program_account(5)];
    initialize(&mut accounts);
    assert!(mint(&mut accounts, "kept", "v").is_ok());
    let snapshot = accounts.clone();
    let data = ProgramInstruction::BurnFromAccount("absent".to_string()).pack();
    assert_eq!(
        process(PROGRAM_ID, &mut accounts, &data),
        Err(SampleError::KeyNotFoundInAccount)
    );
    assert_eq!(accounts, snapshot);
}

/// A burn never demands prior initialization: on a fresh record it simply
/// misses its key.
#[test]
fn test_burn_skips_initialization_check() {
    let mut accounts = vec![program_account(5)];
    let data = ProgramInstruction::BurnFromAccount("k".to_string()).pack();
    assert_eq!(
        process(PROGRAM_ID, &mut accounts, &data),
        Err(SampleError::KeyNotFoundInAccount)
    );
}

/// A transfer demands both records initialized.
#[test]
fn test_transfer_requires_initialized_destination() {
    let mut a = vec![program_account(5)];
    initialize(&mut a);
    assert!(mint(&mut a, "k", "v").is_ok());
    let mut accounts = vec![a.remove(0), program_account(5)];
    let snapshot = accounts.clone();
    let data = ProgramInstruction::TransferBetweenAccounts("k".to_string()).pack();
    assert_eq!(
        process(PROGRAM_ID, &mut accounts, &data),
        Err(SampleError::UninitializedState)
    );
    assert_eq!(accounts, snapshot);
}

/// The fee schedule: mint 10, transfer 30 + 10, burn 15, all credited to
/// the service account.
#[test]
fn test_fee_amounts() {
    let mut a = vec![program_account(100)];
    let mut b = vec![program_account(100)];
    let mut service = vec![program_account(5)];
    initialize(&mut a);
    initialize(&mut b);
    initialize(&mut service);

    // mint with fee: accounts are [target, service, wallet]
    let mut accounts = vec![a.remove(0), service.remove(0), wallet_account(50)];
    let before = accounts[1].lamports;
    let data =
        ProgramInstruction::MintToAccountWithFee("k".to_string(), "v".to_string()).pack();
    assert_eq!(process(PROGRAM_ID, &mut accounts, &data), Ok(()));
    assert_eq!(accounts[1].lamports - before, 10);
    assert_eq!(accounts[0].lamports, 90);
    assert!(record(&accounts[0]).contains_key("k"));

    // transfer with fee: [from, to, service, wallet]
    let service_acc = accounts.remove(1);
    let from_acc = accounts.remove(0);
    let mut accounts = vec![from_acc, b.remove(0), service_acc, wallet_account(50)];
    let before = accounts[2].lamports;
    let data = ProgramInstruction::TransferBetweenAccountsWithFee("k".to_string()).pack();
    assert_eq!(process(PROGRAM_ID, &mut accounts, &data), Ok(()));
    assert_eq!(accounts[2].lamports - before, 40);
    assert_eq!(accounts[0].lamports, 60);
    assert_eq!(accounts[1].lamports, 90);
    assert!(!record(&accounts[0]).contains_key("k"));
    assert!(record(&accounts[1]).contains_key("k"));

    // burn with fee: [target, service, wallet]
    let service_acc = accounts.remove(2);
    let target_acc = accounts.remove(1);
    let mut accounts = vec![target_acc, service_acc, wallet_account(50)];
    let before = accounts[1].lamports;
    let data = ProgramInstruction::BurnFromAccountWithFee("k".to_string()).pack();
    assert_eq!(process(PROGRAM_ID, &mut accounts, &data), Ok(()));
    assert_eq!(accounts[1].lamports - before, 15);
    assert_eq!(accounts[0].lamports, 75);
    assert!(!record(&accounts[0]).contains_key("k"));
}

/// Fee atomicity: a payer short of the fee stops the whole operation;
/// every balance and every record stays byte-identical.
#[test]
fn test_fee_insufficient_funds_atomic() {
    let mut a = vec![program_account(9)];
    let mut service = vec![program_account(5)];
    initialize(&mut a);
    initialize(&mut service);
    let mut accounts = vec![a.remove(0), service.remove(0), wallet_account(50)];
    let snapshot = accounts.clone();
    let data =
        ProgramInstruction::MintToAccountWithFee("k".to_string(), "v".to_string()).pack();
    assert_eq!(
        process(PROGRAM_ID, &mut accounts, &data),
        Err(SampleError::InsufficientFundsForTransaction)
    );
    assert_eq!(accounts, snapshot);
    assert!(!record(&accounts[0]).contains_key("k"));
}

/// The destination side of a fee-charging transfer pays too; its
/// shortfall also aborts everything.
#[test]
fn test_transfer_fee_destination_short() {
    let mut a = vec![program_account(100)];
    let mut b = vec![program_account(9)];
    let mut service = vec![program_account(5)];
    initialize(&mut a);
    initialize(&mut b);
    initialize(&mut service);
    let mut first = vec![a.remove(0)];
    assert!(mint(&mut first, "k", "v").is_ok());
    let mut accounts = vec![first.remove(0), b.remove(0), service.remove(0)];
    let snapshot = accounts.clone();
    let data = ProgramInstruction::TransferBetweenAccountsWithFee("k".to_string()).pack();
    assert_eq!(
        process(PROGRAM_ID, &mut accounts, &data),
        Err(SampleError::InsufficientFundsForTransaction)
    );
    assert_eq!(accounts, snapshot);
}

/// The ownership gate: a non-last account owned by someone else aborts
/// the invocation before anything is touched.
#[test]
fn test_ownership_gate() {
    let foreign = LedgerAccount {
        owner: PROGRAM_ID + 1,
        lamports: 5,
        data: vec![0u8; ACCOUNT_STATE_SPACE],
    };
    let mut accounts = vec![foreign, wallet_account(50)];
    let snapshot = accounts.clone();
    let data = ProgramInstruction::InitializeAccount.pack();
    assert_eq!(
        process(PROGRAM_ID, &mut accounts, &data),
        Err(SampleError::IncorrectOwner)
    );
    assert_eq!(accounts, snapshot);
}

/// The last account is exempt from the ownership check.
#[test]
fn test_last_account_exempt_from_ownership() {
    let mut accounts = vec![program_account(5), wallet_account(50)];
    let data = ProgramInstruction::InitializeAccount.pack();
    assert_eq!(process(PROGRAM_ID, &mut accounts, &data), Ok(()));
    assert!(record(&accounts[0]).is_initialized());
}

/// An instruction that names more accounts than the invocation provides.
#[test]
fn test_not_enough_accounts() {
    let mut accounts: Vec<LedgerAccount> = Vec::new();
    let data = ProgramInstruction::InitializeAccount.pack();
    assert_eq!(
        process(PROGRAM_ID, &mut accounts, &data),
        Err(SampleError::NotEnoughAccounts)
    );
    let mut accounts = vec![program_account(5)];
    let data = ProgramInstruction::TransferBetweenAccounts("k".to_string()).pack();
    assert_eq!(
        process(PROGRAM_ID, &mut accounts, &data),
        Err(SampleError::NotEnoughAccounts)
    );
}

/// A malformed or unknown instruction aborts with the decoder's error.
#[test]
fn test_bad_instruction_data() {
    let mut accounts = vec![program_account(5)];
    assert_eq!(
        process(PROGRAM_ID, &mut accounts, &[1, 2]),
        Err(SampleError::DeserializationFailure)
    );
    let mut bad_tag = Vec::new();
    bad_tag.extend_from_slice(&1u32.to_le_bytes());
    bad_tag.extend_from_slice(&1u32.to_le_bytes());
    bad_tag.push(9);
    assert_eq!(
        process(PROGRAM_ID, &mut accounts, &bad_tag),
        Err(SampleError::InvalidInstruction)
    );
}

/// A mint whose pair would overflow the record's storage region fails
/// with `StateSpaceExceeded` and leaves the buffer unchanged.
#[test]
fn test_mint_overflows_capacity() {
    let mut accounts = vec![program_account(5)];
    initialize(&mut accounts);
    let snapshot = accounts.clone();
    let result = mint(&mut accounts, "k", &"v".repeat(2000));
    assert_eq!(result, Err(SampleError::StateSpaceExceeded));
    assert_eq!(accounts, snapshot);
}

/// End-to-end: initialize, mint, transfer, burn, with the maps checked at
/// every step.
#[test]
fn test_end_to_end_scenario() {
    let mut r = vec![program_account(5)];
    let mut r2 = vec![program_account(5)];
    initialize(&mut r);
    initialize(&mut r2);
    assert_eq!(record(&r[0]).len(), 0);

    assert_eq!(mint(&mut r, "k1", "v1"), Ok(()));
    let state = record(&r[0]);
    assert_eq!(state.len(), 1);
    assert_eq!(state.get("k1").unwrap(), "v1");

    let mut accounts = vec![r.remove(0), r2.remove(0)];
    let transfer = ProgramInstruction::TransferBetweenAccounts("k1".to_string()).pack();
    assert_eq!(process(PROGRAM_ID, &mut accounts, &transfer), Ok(()));
    assert_eq!(record(&accounts[0]).len(), 0);
    let state = record(&accounts[1]);
    assert_eq!(state.len(), 1);
    assert_eq!(state.get("k1").unwrap(), "v1");

    let mut receiver = vec![accounts.remove(1)];
    let burn = ProgramInstruction::BurnFromAccount("k1".to_string()).pack();
    assert_eq!(process(PROGRAM_ID, &mut receiver, &burn), Ok(()));
    assert_eq!(record(&receiver[0]).len(), 0);
}
