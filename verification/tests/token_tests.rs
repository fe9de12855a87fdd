use carbon_ledger::auth::AuthContext;
use carbon_ledger::token::CarbonToken;

#[test]
fn test_initialize() {
    let mut token = CarbonToken::new();
    let admin: u64 = 1;
    token.initialize(admin).unwrap();
    assert_eq!(token.balance(admin), 0);
}

#[test]
fn test_mint_success() {
    let mut token = CarbonToken::new();
    let auth = AuthContext::Any;
    let admin: u64 = 11;
    let user: u64 = 12;
    token.initialize(admin).unwrap();
    token.mint(&auth, user, 100).unwrap();
    assert_eq!(token.balance(user), 100);
}

#[test]
fn test_mint_unauthorized() {
    let mut token = CarbonToken::new();
    let admin: u64 = 21;
    let fake_admin: u64 = 22;
    let user: u64 = 23;
    token.initialize(admin).unwrap();
    // Only the stored admin may mint: an invocation whose proof of control
    // covers the impostor but not the admin fails and moves nothing.
    let auth = AuthContext::Signers(vec![fake_admin]);
    let result = token.mint(&auth, user, 100);
    assert!(result.is_err());
    assert_eq!(token.balance(user), 0);
}

#[test]
fn test_mint_invalid_amount() {
    let mut token = CarbonToken::new();
    let auth = AuthContext::Any;
    let admin: u64 = 31;
    let user: u64 = 32;
    token.initialize(admin).unwrap();
    let result = token.mint(&auth, user, 0);
    assert!(result.is_err());
    let result = token.mint(&auth, user, -100);
    assert!(result.is_err());
}

#[test]
fn test_transfer_success() {
    let mut token = CarbonToken::new();
    let auth = AuthContext::Any;
    let admin: u64 = 41;
    let alice: u64 = 42;
    let bob: u64 = 43;
    token.initialize(admin).unwrap();
    token.mint(&auth, alice, 100).unwrap();
    assert_eq!(token.balance(alice), 100);
    assert_eq!(token.balance(bob), 0);
    token.transfer(&auth, alice, bob, 50).unwrap();
    assert_eq!(token.balance(alice), 50);
    assert_eq!(token.balance(bob), 50);
}

#[test]
fn test_transfer_insufficient_balance() {
    let mut token = CarbonToken::new();
    let auth = AuthContext::Any;
    let admin: u64 = 51;
    let alice: u64 = 52;
    let bob: u64 = 53;
    token.initialize(admin).unwrap();
    token.mint(&auth, alice, 50).unwrap();
    let result = token.transfer(&auth, alice, bob, 100);
    assert!(result.is_err());
}

#[test]
fn test_transfer_unauthorized() {
    let mut token = CarbonToken::new();
    let auth = AuthContext::Any;
    let admin: u64 = 61;
    let alice: u64 = 62;
    let bob: u64 = 63;
    token.initialize(admin).unwrap();
    token.mint(&auth, alice, 100).unwrap();
    // A sender that has not proven control is rejected and balances stay.
    let no_auth = AuthContext::Signers(vec![bob]);
    let result = token.transfer(&no_auth, alice, bob, 10);
    assert!(result.is_err());
    assert_eq!(token.balance(alice), 100);
    assert_eq!(token.balance(bob), 0);
}

#[test]
fn test_multiple_mints() {
    let mut token = CarbonToken::new();
    let auth = AuthContext::Any;
    let admin: u64 = 71;
    let user: u64 = 72;
    token.initialize(admin).unwrap();
    token.mint(&auth, user, 100).unwrap();
    assert_eq!(token.balance(user), 100);
    token.mint(&auth, user, 50).unwrap();
    assert_eq!(token.balance(user), 150);
    token.mint(&auth, user, 25).unwrap();
    assert_eq!(token.balance(user), 175);
}

#[test]
fn test_balance_zero_initial() {
    let mut token = CarbonToken::new();
    let admin: u64 = 81;
    let user: u64 = 82;
    token.initialize(admin).unwrap();
    assert_eq!(token.balance(user), 0);
}

#[test]
fn test_transfer_multiple_users() {
    let mut token = CarbonToken::new();
    let auth = AuthContext::Any;
    let admin: u64 = 91;
    let alice: u64 = 92;
    let bob: u64 = 93;
    let charlie: u64 = 94;
    token.initialize(admin).unwrap();
    token.mint(&auth, alice, 1000).unwrap();
    token.transfer(&auth, alice, bob, 300).unwrap();
    assert_eq!(token.balance(alice), 700);
    assert_eq!(token.balance(bob), 300);
    token.transfer(&auth, bob, charlie, 150).unwrap();
    assert_eq!(token.balance(bob), 150);
    assert_eq!(token.balance(charlie), 150);
}

#[test]
fn test_approve_success() {
    let mut token = CarbonToken::new();
    let auth = AuthContext::Any;
    let admin: u64 = 101;
    let alice: u64 = 102;
    let bob: u64 = 103;
    token.initialize(admin).unwrap();
    token.mint(&auth, alice, 1000).unwrap();
    token.approve(&auth, alice, bob, 300).unwrap();
    assert_eq!(token.allowance(alice, bob), 300);
}

#[test]
fn test_allowance_zero_initial() {
    let mut token = CarbonToken::new();
    let admin: u64 = 111;
    let alice: u64 = 112;
    let bob: u64 = 113;
    token.initialize(admin).unwrap();
    assert_eq!(token.allowance(alice, bob), 0);
}

#[test]
fn test_transfer_from_success() {
    let mut token = CarbonToken::new();
    let auth = AuthContext::Any;
    let admin: u64 = 121;
    let alice: u64 = 122;
    let bob: u64 = 123;
    let charlie: u64 = 124;
    token.initialize(admin).unwrap();
    token.mint(&auth, alice, 1000).unwrap();
    token.approve(&auth, alice, bob, 300).unwrap();
    token.transfer_from(&auth, bob, alice, charlie, 200).unwrap();
    assert_eq!(token.balance(alice), 800);
    assert_eq!(token.balance(charlie), 200);
    assert_eq!(token.allowance(alice, bob), 100);
}

#[test]
fn test_transfer_from_insufficient_balance() {
    let mut token = CarbonToken::new();
    let auth = AuthContext::Any;
    let admin: u64 = 131;
    let alice: u64 = 132;
    let bob: u64 = 133;
    let charlie: u64 = 134;
    token.initialize(admin).unwrap();
    token.mint(&auth, alice, 100).unwrap();
    token.approve(&auth, alice, bob, 200).unwrap();
    let result = token.transfer_from(&auth, bob, alice, charlie, 200);
    assert!(result.is_err());
}

#[test]
fn test_transfer_from_insufficient_allowance() {
    let mut token = CarbonToken::new();
    let auth = AuthContext::Any;
    let admin: u64 = 141;
    let alice: u64 = 142;
    let bob: u64 = 143;
    let charlie: u64 = 144;
    token.initialize(admin).unwrap();
    token.mint(&auth, alice, 1000).unwrap();
    token.approve(&auth, alice, bob, 100).unwrap();
    let result = token.transfer_from(&auth, bob, alice, charlie, 200);
    assert!(result.is_err());
    assert_eq!(token.balance(alice), 1000);
    assert_eq!(token.balance(charlie), 0);
}

#[test]
fn test_approve_zero_allows_transfer() {
    let mut token = CarbonToken::new();
    let auth = AuthContext::Any;
    let admin: u64 = 151;
    let alice: u64 = 152;
    let bob: u64 = 153;
    let charlie: u64 = 154;
    token.initialize(admin).unwrap();
    token.mint(&auth, alice, 1000).unwrap();
    token.approve(&auth, alice, bob, 0).unwrap();
    let result = token.transfer_from(&auth, bob, alice, charlie, 100);
    assert!(result.is_err());
}

#[test]
fn test_approve_update_allows_partial_spend() {
    let mut token = CarbonToken::new();
    let auth = AuthContext::Any;
    let admin: u64 = 161;
    let alice: u64 = 162;
    let bob: u64 = 163;
    let charlie: u64 = 164;
    token.initialize(admin).unwrap();
    token.mint(&auth, alice, 1000).unwrap();
    token.approve(&auth, alice, bob, 500).unwrap();
    assert_eq!(token.allowance(alice, bob), 500);
    token.transfer_from(&auth, bob, alice, charlie, 300).unwrap();
    assert_eq!(token.allowance(alice, bob), 200);
    token.approve(&auth, alice, bob, 1000).unwrap();
    assert_eq!(token.allowance(alice, bob), 1000);
    token.transfer_from(&auth, bob, alice, charlie, 500).unwrap();
    assert_eq!(token.allowance(alice, bob), 500);
}
