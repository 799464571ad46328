use aethel_core::puf::{bch_decode_rust, puf_seed_to_vector_k, BchFuzzyExtractor, GfTables};
use aethel_core::saap::{MODULE_K, RING_N};

#[test]
fn test_gf_tables() {
    let gf = GfTables::new();
    assert_eq!(gf.exp[0], 1);
    assert_eq!(gf.exp[1023], 1);
    assert_eq!(gf.mul(42, 1), 42);
    assert_eq!(gf.mul(0, 42), 0);
}

#[test]
fn test_puf_enroll_reconstruct_no_errors() {
    let sram = [0xABu8; 128];
    let (key, helper) = BchFuzzyExtractor::enroll(&sram);
    let reconstructed = BchFuzzyExtractor::reconstruct(&sram, &helper);
    assert!(reconstructed.is_some(), "reconstruction should succeed with no errors");
    assert_eq!(reconstructed.unwrap(), key, "reconstructed key should match enrolled key");
}

#[test]
fn test_puf_seed_to_vector_k() {
    let key = [0x42u8; 64];
    let v = puf_seed_to_vector_k(&key);
    for k in 0..MODULE_K {
        for n in 0..RING_N {
            let c = v.vec[k].coeffs[n];
            assert!(c >= -2 && c <= 2, "CBD coefficient {} out of range", c);
        }
    }
}

#[test]
fn the_field_generator_and_inverses() {
    let gf = GfTables::new();
    // alpha = x, and x^10 = x^3 + 1 under the field polynomial 0x409.
    assert_eq!(gf.exp[1], 2);
    assert_eq!(gf.exp[10], 0b1001);
    for a in [1u16, 2, 3, 42, 511, 1023] {
        assert_eq!(gf.mul(a, gf.inv(a)), 1, "inverse of {a}");
    }
    assert_eq!(gf.inv(0), 0);
    assert_eq!(gf.pow(2, 10), 0b1001);
    assert_eq!(gf.pow(0, 5), 0);
    assert_eq!(gf.pow(7, 0), 1);
}

#[test]
fn a_changed_response_does_not_reconstruct_the_key() {
    let sram = [0xABu8; 128];
    let (_, helper) = BchFuzzyExtractor::enroll(&sram);
    let mut noisy = sram;
    noisy[0] ^= 1;
    assert!(BchFuzzyExtractor::reconstruct(&noisy, &helper).is_none());
}

#[test]
fn wrong_helper_data_does_not_reconstruct_the_key() {
    let sram = [0x3Cu8; 128];
    let (_, mut helper) = BchFuzzyExtractor::enroll(&sram);
    helper[7] ^= 0x80;
    assert!(BchFuzzyExtractor::reconstruct(&sram, &helper).is_none());
}

#[test]
fn the_seed_vector_is_deterministic_and_key_dependent() {
    let a = puf_seed_to_vector_k(&[0x42u8; 64]);
    let b = puf_seed_to_vector_k(&[0x42u8; 64]);
    let c = puf_seed_to_vector_k(&[0x43u8; 64]);
    for k in 0..MODULE_K {
        assert_eq!(a.vec[k].coeffs, b.vec[k].coeffs);
    }
    assert!((0..MODULE_K).any(|k| a.vec[k].coeffs != c.vec[k].coeffs));
}

#[test]
fn bch_decode_matches_reconstruct_with_zero_helper() {
    let received = [0x11u8; 128];
    assert_eq!(bch_decode_rust(&received), BchFuzzyExtractor::reconstruct(&received, &[0u8; 64]));
}
