use blake3::Hasher;
use rand::rngs::StdRng;
use rand::RngExt;
use rand::SeedableRng;
use sysinfo::System;

use system_id::system_id::IdHashInput;
use system_id::system_id::SystemAndSalt;
use system_id::system_id::SystemId;

/// returns two systems, using two different rng seeds for the salt
fn get_two_system_ids(rng_seed_one: u64, rng_seed_two: u64) -> [SystemId; 2] {
    let mut hasher = Hasher::new();

    let salt = StdRng::seed_from_u64(rng_seed_one)
        .random::<f32>()
        .to_string();
    let system = System::new();
    let mut system_and_salt = SystemAndSalt::new(system, salt.clone());
    let system_id_one = SystemId::new_by_hashing(&mut system_and_salt, &mut hasher);

    let mut system = System::new();
    system.refresh_all();

    let salt = StdRng::seed_from_u64(rng_seed_two)
        .random::<f32>()
        .to_string();
    let mut system_and_salt = SystemAndSalt::new(system, salt);
    let system_id_two = SystemId::new_by_hashing(&mut system_and_salt, &mut hasher);

    [system_id_one, system_id_two]
}

#[test]
fn id_test_one() {
    let ids = get_two_system_ids(1, 1);
    assert_eq!(ids[0], ids[1])
}

#[test]
fn id_test_two() {
    let ids = get_two_system_ids(2, 2);
    assert_eq!(ids[0], ids[1])
}

#[test]
fn id_test_three() {
    let ids = get_two_system_ids(1, 2);
    assert_ne!(ids[0], ids[1])
}

fn descriptor_a() -> Vec<String> {
    vec![
        "s1".to_string(),
        "Linux".to_string(),
        "host-a".to_string(),
        "16000000000".to_string(),
        "8".to_string(),
    ]
}

#[test]
fn derive_is_deterministic_for_synthetic_descriptor() {
    let mut hasher = Hasher::new();
    let d1 = SystemId::new_from_fields(&descriptor_a(), &mut hasher);
    let d2 = SystemId::new_from_fields(&descriptor_a(), &mut hasher);
    assert_eq!(d1, d2);
}

#[test]
fn derived_id_is_fixed_length_lowercase_hex() {
    let mut hasher = Hasher::new();
    let id = SystemId::new_from_fields(&descriptor_a(), &mut hasher);
    assert_eq!(id.id.len(), 64);
    assert!(id
        .id
        .chars()
        .all(|c| c.is_ascii_digit() || ('a'..='f').contains(&c)));
    // the digest is not the input echoed back
    assert_ne!(id.id, "s1Linuxhost-a160000000008");
}

#[test]
fn derived_id_matches_plain_blake3_of_concatenated_fields() {
    // the descriptor is hashed as the concatenation of its fields' bytes
    let mut hasher = Hasher::new();
    let id = SystemId::new_from_fields(&descriptor_a(), &mut hasher);
    let expected = blake3::hash(b"s1Linuxhost-a160000000008").to_string();
    assert_eq!(id.id, expected);
}

#[test]
fn salt_sensitivity_over_random_salt_pairs() {
    let mut rng = StdRng::seed_from_u64(42);
    let mut hasher = Hasher::new();
    for _ in 0..50 {
        let salt_one = rng.random::<u64>().to_string();
        let salt_two = rng.random::<u64>().to_string();
        if salt_one == salt_two {
            continue;
        }
        let fields_one = vec![
            salt_one,
            "Linux".to_string(),
            "host-a".to_string(),
            "16000000000".to_string(),
            "8".to_string(),
        ];
        let fields_two = vec![
            salt_two,
            "Linux".to_string(),
            "host-a".to_string(),
            "16000000000".to_string(),
            "8".to_string(),
        ];
        let id_one = SystemId::new_from_fields(&fields_one, &mut hasher);
        let id_two = SystemId::new_from_fields(&fields_two, &mut hasher);
        assert_ne!(id_one, id_two);
    }
}

#[test]
fn hasher_reuse_does_not_leak_between_derivations() {
    // a reused accumulator gives the same digests as fresh ones
    let mut shared = Hasher::new();
    let first = SystemId::new_from_fields(&descriptor_a(), &mut shared);
    let other_fields = vec!["different".to_string()];
    let second = SystemId::new_from_fields(&other_fields, &mut shared);
    assert_ne!(first, second);

    let mut fresh = Hasher::new();
    let second_fresh = SystemId::new_from_fields(&other_fields, &mut fresh);
    assert_eq!(second, second_fresh);

    let third = SystemId::new_from_fields(&descriptor_a(), &mut shared);
    assert_eq!(first, third);
}

#[test]
fn live_descriptor_has_five_fields_salt_first() {
    let mut source = SystemAndSalt::new(System::new(), "pepper".to_string());
    let info = source.get_info();
    assert_eq!(info.len(), 5);
    assert_eq!(info[0], "pepper");
    // numeric fields are decimal text
    assert!(info[3].chars().all(|c| c.is_ascii_digit()));
    assert!(info[4].chars().all(|c| c.is_ascii_digit()));
}

#[test]
fn decimal_rendering_is_canonical() {
    assert_eq!(system_id::u64_to_decimal(0), "0");
    assert_eq!(system_id::u64_to_decimal(8), "8");
    assert_eq!(system_id::u64_to_decimal(16000000000), "16000000000");
    assert_eq!(system_id::u64_to_decimal(u64::MAX), "18446744073709551615");
}
