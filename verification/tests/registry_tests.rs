use carbon_ledger::auth::AuthContext;
use carbon_ledger::registry::CarbonCertifier;
use carbon_ledger::registry::VerificationRecord;
use carbon_ledger::query::SortBy;

fn record(verifier: u64, farmer: u64, hectares: u32, co2e: u128) -> VerificationRecord {
    VerificationRecord {
        verifier_address: verifier,
        farmer_address: farmer,
        hectares_not_burned: hectares,
        co2e_tons: co2e,
        metadata_hash: vec![0u8; 32],
    }
}

#[test]
fn test_verification_record_structure() {
    let verifier_address: u64 = 11;
    let farmer_address: u64 = 12;
    let rec = record(verifier_address, farmer_address, 10, 100);
    assert_eq!(rec.hectares_not_burned, 10);
    assert_eq!(rec.co2e_tons, 100);
    assert_eq!(rec.verifier_address, verifier_address);
    assert_eq!(rec.farmer_address, farmer_address);
}

#[test]
fn test_constructor() {
    let reg = CarbonCertifier::new();
    assert!(reg.get_admin().is_err());
}

#[test]
fn test_get_certificate_data_not_found() {
    let reg = CarbonCertifier::new();
    let result = reg.get_certificate_data(1);
    assert!(result.is_err());
}

#[test]
fn test_get_certificate_data_success() {
    let mut reg = CarbonCertifier::new();
    let auth = AuthContext::Any;
    let verifier_address: u64 = 21;
    let farmer_address: u64 = 22;
    reg.mint_certificate(&auth, 1, record(verifier_address, farmer_address, 10, 100), 0)
        .unwrap();
    let retrieved = reg.get_certificate_data(1).unwrap();
    assert_eq!(retrieved.verifier_address, verifier_address);
    assert_eq!(retrieved.farmer_address, farmer_address);
    assert_eq!(retrieved.hectares_not_burned, 10);
    assert_eq!(retrieved.co2e_tons, 100);
}

#[test]
fn test_mint_certificate_success() {
    let mut reg = CarbonCertifier::new();
    let auth = AuthContext::Any;
    let verifier_address: u64 = 31;
    let farmer_address: u64 = 32;
    reg.mint_certificate(&auth, 1, record(verifier_address, farmer_address, 15, 150), 0)
        .unwrap();
    let retrieved = reg.get_certificate_data(1).unwrap();
    assert_eq!(retrieved.hectares_not_burned, 15);
    assert_eq!(retrieved.co2e_tons, 150);
    assert_eq!(retrieved.verifier_address, verifier_address);
    assert_eq!(retrieved.farmer_address, farmer_address);
}

#[test]
fn test_mint_certificate_already_exists() {
    let mut reg = CarbonCertifier::new();
    let auth = AuthContext::Any;
    reg.mint_certificate(&auth, 1, record(41, 42, 10, 100), 0).unwrap();
    let result = reg.mint_certificate(&auth, 1, record(41, 42, 10, 100), 0);
    assert!(result.is_err());
}

#[test]
fn test_mint_certificate_unauthorized() {
    let mut reg = CarbonCertifier::new();
    let verifier_address: u64 = 51;
    // No signer has proven control, so the verifier is not authenticated.
    let auth = AuthContext::Signers(vec![]);
    let result = reg.mint_certificate(&auth, 1, record(verifier_address, 52, 10, 100), 0);
    assert!(result.is_err());
}

#[test]
fn test_multiple_certificates() {
    let mut reg = CarbonCertifier::new();
    let auth = AuthContext::Any;
    let verifier_address: u64 = 61;
    for i in 1u32..=5 {
        let farmer_address = 100 + i as u64;
        reg.mint_certificate(
            &auth,
            i,
            record(verifier_address, farmer_address, i * 10, (i * 100) as u128),
            0,
        )
        .unwrap();
    }
    for i in 1u32..=5 {
        let rec = reg.get_certificate_data(i).unwrap();
        assert_eq!(rec.hectares_not_burned, i * 10);
        assert_eq!(rec.co2e_tons, (i * 100) as u128);
    }
}

#[test]
fn test_certificate_persistent_storage() {
    let mut reg = CarbonCertifier::new();
    let auth = AuthContext::Any;
    let mut rec = record(71, 72, 20, 200);
    rec.metadata_hash = vec![99u8; 32];
    reg.mint_certificate(&auth, 42, rec, 0).unwrap();
    let retrieved = reg.get_certificate_data(42).unwrap();
    assert_eq!(retrieved.metadata_hash, vec![99u8; 32]);
    assert_eq!(retrieved.hectares_not_burned, 20);
    assert_eq!(retrieved.co2e_tons, 200);
}

#[test]
fn test_get_total_certificates_initial_zero() {
    let reg = CarbonCertifier::new();
    assert_eq!(reg.get_total_certificates(), 0);
}

#[test]
fn test_get_total_co2e_initial_zero() {
    let reg = CarbonCertifier::new();
    assert_eq!(reg.get_total_co2e(), 0);
}

#[test]
fn test_counters_increment_on_mint() {
    let mut reg = CarbonCertifier::new();
    let auth = AuthContext::Any;
    let verifier_address: u64 = 81;
    assert_eq!(reg.get_total_certificates(), 0);
    assert_eq!(reg.get_total_co2e(), 0);
    reg.mint_certificate(&auth, 1, record(verifier_address, 82, 10, 100), 0).unwrap();
    assert_eq!(reg.get_total_certificates(), 1);
    assert_eq!(reg.get_total_co2e(), 100);
    reg.mint_certificate(&auth, 2, record(verifier_address, 83, 15, 150), 0).unwrap();
    assert_eq!(reg.get_total_certificates(), 2);
    assert_eq!(reg.get_total_co2e(), 250);
}

#[test]
fn test_counters_accumulate_multiple_mints() {
    let mut reg = CarbonCertifier::new();
    let auth = AuthContext::Any;
    let verifier_address: u64 = 91;
    let mut total_co2e_expected: u128 = 0;
    for i in 1u32..=5 {
        let farmer_address = 200 + i as u64;
        let co2e_amount = (i * 50) as u128;
        total_co2e_expected += co2e_amount;
        reg.mint_certificate(
            &auth,
            i,
            record(verifier_address, farmer_address, i * 10, co2e_amount),
            0,
        )
        .unwrap();
        assert_eq!(reg.get_total_certificates(), i);
        assert_eq!(reg.get_total_co2e(), total_co2e_expected);
    }
    assert_eq!(reg.get_total_certificates(), 5);
    assert_eq!(reg.get_total_co2e(), 750);
}

#[test]
fn test_counters_persistent_across_queries() {
    let mut reg = CarbonCertifier::new();
    let auth = AuthContext::Any;
    reg.mint_certificate(&auth, 1, record(101, 102, 20, 200), 0).unwrap();
    for _ in 0..10 {
        assert_eq!(reg.get_total_certificates(), 1);
        assert_eq!(reg.get_total_co2e(), 200);
    }
}

#[test]
fn test_list_farmer_certificates_empty() {
    let reg = CarbonCertifier::new();
    let farmer_address: u64 = 111;
    let (cert_list, total) =
        reg.list_certificates_by_farmer(farmer_address, 0, 10, SortBy::CertificateId, false);
    assert_eq!(cert_list.len(), 0);
    assert_eq!(total, 0);
}

#[test]
fn test_list_verifier_certificates_empty() {
    let reg = CarbonCertifier::new();
    let verifier_address: u64 = 121;
    let (cert_list, total) = reg.list_certificates_by_verifier(verifier_address, 0, 10);
    assert_eq!(cert_list.len(), 0);
    assert_eq!(total, 0);
}

#[test]
fn test_certificates_indexed_by_actor() {
    let mut reg = CarbonCertifier::new();
    let auth = AuthContext::Any;
    let verifier_address: u64 = 131;
    let farmer_address: u64 = 132;
    let (farmer_certs, _) =
        reg.list_certificates_by_farmer(farmer_address, 0, 10, SortBy::CertificateId, false);
    let (verifier_certs, _) = reg.list_certificates_by_verifier(verifier_address, 0, 10);
    assert_eq!(farmer_certs.len(), 0);
    assert_eq!(verifier_certs.len(), 0);
    reg.mint_certificate(&auth, 1, record(verifier_address, farmer_address, 10, 100), 0)
        .unwrap();
    let (farmer_certs, farmer_total) =
        reg.list_certificates_by_farmer(farmer_address, 0, 10, SortBy::CertificateId, false);
    assert_eq!(farmer_certs.len(), 1);
    assert_eq!(farmer_certs[0], 1);
    assert_eq!(farmer_total, 1);
    let (verifier_certs, verifier_total) =
        reg.list_certificates_by_verifier(verifier_address, 0, 10);
    assert_eq!(verifier_certs.len(), 1);
    assert_eq!(verifier_certs[0], 1);
    assert_eq!(verifier_total, 1);
}

#[test]
fn test_multiple_certificates_for_same_actor() {
    let mut reg = CarbonCertifier::new();
    let auth = AuthContext::Any;
    let verifier_address: u64 = 141;
    let farmer_address: u64 = 142;
    for i in 1u32..=3 {
        reg.mint_certificate(
            &auth,
            i,
            record(verifier_address, farmer_address, i * 10, (i * 100) as u128),
            0,
        )
        .unwrap();
    }
    let (farmer_certs, farmer_total) =
        reg.list_certificates_by_farmer(farmer_address, 0, 10, SortBy::CertificateId, false);
    assert_eq!(farmer_certs.len(), 3);
    assert_eq!(farmer_certs[0], 1);
    assert_eq!(farmer_certs[1], 2);
    assert_eq!(farmer_certs[2], 3);
    assert_eq!(farmer_total, 3);
    let (verifier_certs, verifier_total) =
        reg.list_certificates_by_verifier(verifier_address, 0, 10);
    assert_eq!(verifier_certs.len(), 3);
    assert_eq!(verifier_total, 3);
}

#[test]
fn test_certificates_isolated_by_actor() {
    let mut reg = CarbonCertifier::new();
    let auth = AuthContext::Any;
    let verifier_address: u64 = 151;
    let farmer_a: u64 = 152;
    let farmer_b: u64 = 153;
    for i in 1u32..=2 {
        reg.mint_certificate(
            &auth,
            i,
            record(verifier_address, farmer_a, i * 10, (i * 100) as u128),
            0,
        )
        .unwrap();
    }
    for i in 3u32..=4 {
        reg.mint_certificate(
            &auth,
            i,
            record(verifier_address, farmer_b, i * 10, (i * 100) as u128),
            0,
        )
        .unwrap();
    }
    let (farmer_a_certs, farmer_a_total) =
        reg.list_certificates_by_farmer(farmer_a, 0, 10, SortBy::CertificateId, false);
    assert_eq!(farmer_a_certs.len(), 2);
    assert_eq!(farmer_a_certs[0], 1);
    assert_eq!(farmer_a_certs[1], 2);
    assert_eq!(farmer_a_total, 2);
    let (farmer_b_certs, farmer_b_total) =
        reg.list_certificates_by_farmer(farmer_b, 0, 10, SortBy::CertificateId, false);
    assert_eq!(farmer_b_certs.len(), 2);
    assert_eq!(farmer_b_certs[0], 3);
    assert_eq!(farmer_b_certs[1], 4);
    assert_eq!(farmer_b_total, 2);
    let (verifier_certs, verifier_total) =
        reg.list_certificates_by_verifier(verifier_address, 0, 10);
    assert_eq!(verifier_certs.len(), 4);
    assert_eq!(verifier_total, 4);
}

#[test]
fn test_mint_certificate_invalid_co2e_zero() {
    let mut reg = CarbonCertifier::new();
    let auth = AuthContext::Any;
    let result = reg.mint_certificate(&auth, 1, record(161, 162, 10, 0), 0);
    assert!(result.is_err());
}

#[test]
fn test_mint_certificate_invalid_hectares_zero() {
    let mut reg = CarbonCertifier::new();
    let auth = AuthContext::Any;
    let result = reg.mint_certificate(&auth, 1, record(171, 172, 0, 100), 0);
    assert!(result.is_err());
}

#[test]
fn test_mint_certificate_valid_data() {
    let mut reg = CarbonCertifier::new();
    let auth = AuthContext::Any;
    reg.mint_certificate(&auth, 1, record(181, 182, 1, 1), 0).unwrap();
    let retrieved = reg.get_certificate_data(1).unwrap();
    assert_eq!(retrieved.hectares_not_burned, 1);
    assert_eq!(retrieved.co2e_tons, 1);
}

#[test]
fn test_pagination_first_page() {
    let mut reg = CarbonCertifier::new();
    let auth = AuthContext::Any;
    let verifier_address: u64 = 191;
    let farmer_address: u64 = 192;
    for i in 1u32..=10 {
        reg.mint_certificate(
            &auth,
            i,
            record(verifier_address, farmer_address, i * 10, (i * 100) as u128),
            0,
        )
        .unwrap();
    }
    let (page, total) =
        reg.list_certificates_by_farmer(farmer_address, 0, 5, SortBy::CertificateId, false);
    assert_eq!(page.len(), 5);
    assert_eq!(page[0], 1);
    assert_eq!(page[1], 2);
    assert_eq!(page[2], 3);
    assert_eq!(page[3], 4);
    assert_eq!(page[4], 5);
    assert_eq!(total, 10);
}

#[test]
fn test_pagination_second_page() {
    let mut reg = CarbonCertifier::new();
    let auth = AuthContext::Any;
    let verifier_address: u64 = 201;
    let farmer_address: u64 = 202;
    for i in 1u32..=10 {
        reg.mint_certificate(
            &auth,
            i,
            record(verifier_address, farmer_address, i * 10, (i * 100) as u128),
            0,
        )
        .unwrap();
    }
    let (page, total) =
        reg.list_certificates_by_farmer(farmer_address, 5, 5, SortBy::CertificateId, false);
    assert_eq!(page.len(), 5);
    assert_eq!(page[0], 6);
    assert_eq!(page[1], 7);
    assert_eq!(page[2], 8);
    assert_eq!(page[3], 9);
    assert_eq!(page[4], 10);
    assert_eq!(total, 10);
}

#[test]
fn test_pagination_verifier() {
    let mut reg = CarbonCertifier::new();
    let auth = AuthContext::Any;
    let verifier_address: u64 = 211;
    let farmer1: u64 = 212;
    let farmer2: u64 = 213;
    for i in 1u32..=4 {
        reg.mint_certificate(
            &auth,
            i,
            record(verifier_address, farmer1, i * 10, (i * 100) as u128),
            0,
        )
        .unwrap();
        reg.mint_certificate(
            &auth,
            i + 4,
            record(verifier_address, farmer2, (i + 4) * 10, ((i + 4) * 100) as u128),
            0,
        )
        .unwrap();
    }
    let (page1, total) = reg.list_certificates_by_verifier(verifier_address, 0, 3);
    assert_eq!(page1.len(), 3);
    assert_eq!(total, 8);
    let (page2, _total) = reg.list_certificates_by_verifier(verifier_address, 3, 3);
    assert_eq!(page2.len(), 3);
    let (page3, _total) = reg.list_certificates_by_verifier(verifier_address, 6, 3);
    assert_eq!(page3.len(), 2);
}

#[test]
fn test_pagination_edge_cases() {
    let mut reg = CarbonCertifier::new();
    let auth = AuthContext::Any;
    let verifier_address: u64 = 221;
    let farmer_address: u64 = 222;
    for i in 1u32..=3 {
        reg.mint_certificate(
            &auth,
            i,
            record(verifier_address, farmer_address, i * 10, (i * 100) as u128),
            0,
        )
        .unwrap();
    }
    let (page, total) =
        reg.list_certificates_by_farmer(farmer_address, 10, 5, SortBy::CertificateId, false);
    assert_eq!(page.len(), 0);
    assert_eq!(total, 3);
    let (page, total) =
        reg.list_certificates_by_farmer(farmer_address, 0, 100, SortBy::CertificateId, false);
    assert_eq!(page.len(), 3);
    assert_eq!(total, 3);
    let (page, total) =
        reg.list_certificates_by_farmer(farmer_address, 2, 5, SortBy::CertificateId, false);
    assert_eq!(page.len(), 1);
    assert_eq!(total, 3);
}

#[test]
fn test_get_certificate_owner_initial() {
    let mut reg = CarbonCertifier::new();
    let auth = AuthContext::Any;
    let farmer_address: u64 = 232;
    reg.mint_certificate(&auth, 1, record(231, farmer_address, 10, 100), 0).unwrap();
    let owner = reg.get_certificate_owner(1).unwrap();
    assert_eq!(owner, farmer_address);
}

#[test]
fn test_get_certificate_owner_not_found() {
    let reg = CarbonCertifier::new();
    let result = reg.get_certificate_owner(999);
    assert!(result.is_err());
}

#[test]
fn test_transfer_certificate_success() {
    let mut reg = CarbonCertifier::new();
    let auth = AuthContext::Any;
    let farmer_address: u64 = 242;
    let new_owner_address: u64 = 243;
    reg.mint_certificate(&auth, 1, record(241, farmer_address, 10, 100), 0).unwrap();
    assert_eq!(reg.get_certificate_owner(1).unwrap(), farmer_address);
    reg.transfer_certificate(&auth, 1, farmer_address, new_owner_address).unwrap();
    assert_eq!(reg.get_certificate_owner(1).unwrap(), new_owner_address);
}

#[test]
fn test_transfer_certificate_unauthorized() {
    let mut reg = CarbonCertifier::new();
    let auth = AuthContext::Any;
    let farmer_address: u64 = 252;
    let thief_address: u64 = 253;
    reg.mint_certificate(&auth, 1, record(251, farmer_address, 10, 100), 0).unwrap();
    // A sender that has not proven control is rejected before any check on
    // ownership, and ownership is unchanged.
    let no_auth = AuthContext::Signers(vec![farmer_address]);
    let result = reg.transfer_certificate(&no_auth, 1, thief_address, 254);
    assert!(result.is_err());
    assert_eq!(reg.get_certificate_owner(1).unwrap(), farmer_address);
}

#[test]
fn test_transfer_certificate_not_owner() {
    let mut reg = CarbonCertifier::new();
    let auth = AuthContext::Any;
    let farmer_address: u64 = 262;
    let fake_owner: u64 = 263;
    let new_owner: u64 = 264;
    reg.mint_certificate(&auth, 1, record(261, farmer_address, 10, 100), 0).unwrap();
    let result = reg.transfer_certificate(&auth, 1, fake_owner, new_owner);
    assert!(result.is_err());
}

#[test]
fn test_transfer_certificate_chain() {
    let mut reg = CarbonCertifier::new();
    let auth = AuthContext::Any;
    let address_a: u64 = 272;
    let address_b: u64 = 273;
    let address_c: u64 = 274;
    reg.mint_certificate(&auth, 1, record(271, address_a, 10, 100), 0).unwrap();
    reg.transfer_certificate(&auth, 1, address_a, address_b).unwrap();
    assert_eq!(reg.get_certificate_owner(1).unwrap(), address_b);
    reg.transfer_certificate(&auth, 1, address_b, address_c).unwrap();
    assert_eq!(reg.get_certificate_owner(1).unwrap(), address_c);
}

#[test]
fn test_set_token_contract_id_success() {
    let mut reg = CarbonCertifier::new();
    let auth = AuthContext::Any;
    let admin_address: u64 = 281;
    let token_contract_address: u64 = 282;
    reg.initialize(admin_address).unwrap();
    reg.set_token_contract_id(&auth, admin_address, token_contract_address).unwrap();
}

#[test]
fn test_set_token_contract_id_unauthorized() {
    let mut reg = CarbonCertifier::new();
    let auth = AuthContext::Any;
    let admin_address: u64 = 291;
    let non_admin_address: u64 = 292;
    let token_contract_address: u64 = 293;
    reg.initialize(admin_address).unwrap();
    let result = reg.set_token_contract_id(&auth, non_admin_address, token_contract_address);
    assert!(result.is_err());
}

#[test]
fn test_burn_certificate_success() {
    let mut reg = CarbonCertifier::new();
    let auth = AuthContext::Any;
    reg.mint_certificate(&auth, 1, record(301, 302, 10, 100), 0).unwrap();
    let cert_data = reg.get_certificate_data(1).unwrap();
    assert_eq!(cert_data.co2e_tons, 100);
    reg.burn_certificate(&auth, 1).unwrap();
    let result = reg.get_certificate_data(1);
    assert!(result.is_err());
    let result_owner = reg.get_certificate_owner(1);
    assert!(result_owner.is_err());
}

#[test]
fn test_burn_certificate_not_owner() {
    let mut reg = CarbonCertifier::new();
    let auth = AuthContext::Any;
    let farmer_address: u64 = 312;
    reg.mint_certificate(&auth, 1, record(311, farmer_address, 10, 100), 0).unwrap();
    let owner = reg.get_certificate_owner(1).unwrap();
    assert_eq!(owner, farmer_address);
}

#[test]
fn test_burn_certificate_not_exists() {
    let mut reg = CarbonCertifier::new();
    let auth = AuthContext::Any;
    let result = reg.burn_certificate(&auth, 999);
    assert!(result.is_err());
}

#[test]
fn test_burn_certificate_removes_from_farmer_list() {
    let mut reg = CarbonCertifier::new();
    let auth = AuthContext::Any;
    let verifier_address: u64 = 321;
    let farmer_address: u64 = 322;
    reg.mint_certificate(&auth, 1, record(verifier_address, farmer_address, 10, 100), 0)
        .unwrap();
    reg.mint_certificate(&auth, 2, record(verifier_address, farmer_address, 20, 200), 0)
        .unwrap();
    let farmer_certs =
        reg.list_certificates_by_farmer(farmer_address, 0, 10, SortBy::CertificateId, false);
    assert_eq!(farmer_certs.0.len(), 2);
    assert_eq!(farmer_certs.1, 2);
    reg.burn_certificate(&auth, 1).unwrap();
    let farmer_certs_after =
        reg.list_certificates_by_farmer(farmer_address, 0, 10, SortBy::CertificateId, false);
    assert_eq!(farmer_certs_after.0.len(), 1);
    assert_eq!(farmer_certs_after.1, 1);
    assert_eq!(farmer_certs_after.0[0], 2);
}

#[test]
fn test_burn_certificate_removes_from_verifier_list() {
    let mut reg = CarbonCertifier::new();
    let auth = AuthContext::Any;
    let verifier_address: u64 = 331;
    let farmer1_address: u64 = 332;
    let farmer2_address: u64 = 333;
    let mut rec1 = record(verifier_address, farmer1_address, 10, 100);
    rec1.metadata_hash = vec![0u8; 32];
    let mut rec2 = record(verifier_address, farmer2_address, 20, 200);
    rec2.metadata_hash = vec![1u8; 32];
    reg.mint_certificate(&auth, 1, rec1, 0).unwrap();
    reg.mint_certificate(&auth, 2, rec2, 0).unwrap();
    let verifier_certs = reg.list_certificates_by_verifier(verifier_address, 0, 10);
    assert_eq!(verifier_certs.0.len(), 2);
    assert_eq!(verifier_certs.1, 2);
    reg.burn_certificate(&auth, 1).unwrap();
    let verifier_certs_after = reg.list_certificates_by_verifier(verifier_address, 0, 10);
    assert_eq!(verifier_certs_after.0.len(), 1);
    assert_eq!(verifier_certs_after.1, 1);
    assert_eq!(verifier_certs_after.0[0], 2);
}

#[test]
fn test_burn_certificate_updates_counters() {
    let mut reg = CarbonCertifier::new();
    let auth = AuthContext::Any;
    reg.mint_certificate(&auth, 1, record(341, 342, 10, 100), 0).unwrap();
    assert_eq!(reg.get_total_certificates(), 1);
    assert_eq!(reg.get_total_co2e(), 100);
    reg.burn_certificate(&auth, 1).unwrap();
    assert_eq!(reg.get_total_certificates(), 0);
    assert_eq!(reg.get_total_co2e(), 0);
}

#[test]
fn test_burn_certificate_multiple_updates_counters() {
    let mut reg = CarbonCertifier::new();
    let auth = AuthContext::Any;
    let verifier_address: u64 = 351;
    let farmer_address: u64 = 352;
    let mut rec1 = record(verifier_address, farmer_address, 10, 100);
    rec1.metadata_hash = vec![0u8; 32];
    let mut rec2 = record(verifier_address, farmer_address, 20, 200);
    rec2.metadata_hash = vec![1u8; 32];
    reg.mint_certificate(&auth, 1, rec1, 0).unwrap();
    reg.mint_certificate(&auth, 2, rec2, 0).unwrap();
    assert_eq!(reg.get_total_certificates(), 2);
    assert_eq!(reg.get_total_co2e(), 300);
    reg.burn_certificate(&auth, 1).unwrap();
    assert_eq!(reg.get_total_certificates(), 1);
    assert_eq!(reg.get_total_co2e(), 200);
    reg.burn_certificate(&auth, 2).unwrap();
    assert_eq!(reg.get_total_certificates(), 0);
    assert_eq!(reg.get_total_co2e(), 0);
}
