//! Tests for the key registry configuration object.

use cli_program_template::keys_db::KeysYamlDB;
use cli_program_template::SampleError;

fn sample_db() -> KeysYamlDB {
    let row = |owner: &str| {
        (
            owner.to_string(),
            vec![
                ("wallet".to_string(), format!("keys/accounts/{}_wallet.json", owner)),
                ("account".to_string(), format!("keys/accounts/{}_account.json", owner)),
            ],
        )
    };
    KeysYamlDB::new(
        "1.5.0".to_string(),
        vec![row("User1"), row("User2"), row("Service")],
    )
}

#[test]
fn test_keys_config_db_load() {
    assert_eq!("1.5.0", sample_db().version());
}

#[test]
fn test_list_key_holders() {
    let key_owners = sample_db().key_owners();
    assert!(key_owners.contains(&"Service".to_string()));
    assert!(key_owners.contains(&"User1".to_string()));
    assert!(key_owners.contains(&"User2".to_string()));
}

#[test]
fn test_non_service_key_holders() {
    let key_owners = sample_db().non_service_key_owners();
    assert!(!key_owners.contains(&"Service".to_string()));
    assert!(key_owners.contains(&"User1".to_string()));
    assert!(key_owners.contains(&"User2".to_string()));
}

#[test]
fn test_wallet_and_account_lookup() {
    let db = sample_db();
    let (wallet, account) = db.wallet_and_account("User1").unwrap();
    assert_eq!(wallet, "keys/accounts/User1_wallet.json");
    assert_eq!(account, "keys/accounts/User1_account.json");
    assert_eq!(db.wallet_and_account("User9"), Err(SampleError::UnknownError));
}

#[test]
fn test_registry_roundtrip() {
    let db = sample_db();
    assert_eq!(db.registry().len(), 3);
    assert_eq!(db.registry()[2].0, "Service");
}
