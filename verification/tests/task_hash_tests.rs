use bench_tasks::mandelbrot::hash::fnv1a_hash_u32;
use bench_tasks::matrix_mul::generation::linear_congruential_generator;
use bench_tasks::matrix_mul::types::{MatrixMulParams, MAX_MATRIX_DIMENSION};
use bench_tasks::matrix_mul::validation::validate_parameters;

#[test]
fn mandelbrot_hash_test_hash_consistency() {
    let data1 = vec![1, 2, 3, 4, 5];
    let data2 = vec![1, 2, 3, 4, 5];
    let data3 = vec![1, 2, 3, 4, 6];

    let hash1 = fnv1a_hash_u32(&data1);
    let hash2 = fnv1a_hash_u32(&data2);
    let hash3 = fnv1a_hash_u32(&data3);

    assert_eq!(hash1, hash2, "Same input should produce same hash");
    assert_ne!(hash1, hash3, "Different input should produce different hash");
}

#[test]
fn test_fnv1a_hash_known_values() {
    // Test with known values to verify FNV-1a implementation
    let empty: Vec<u32> = vec![];
    let hash_empty = fnv1a_hash_u32(&empty);
    assert_eq!(
        hash_empty, 2166136261,
        "Empty hash should equal offset basis"
    );

    let single = vec![0];
    let hash_single = fnv1a_hash_u32(&single);
    assert_ne!(
        hash_single, hash_empty,
        "Single zero should produce different hash"
    );
}

#[test]
fn test_lcg_deterministic() {
    let mut seed1 = 12345;
    let mut seed2 = 12345;

    // Same seed should produce same sequence
    for _ in 0..10 {
        let val1 = linear_congruential_generator(&mut seed1);
        let val2 = linear_congruential_generator(&mut seed2);
        assert_eq!(val1, val2, "LCG should be deterministic");
    }
}

#[test]
fn lib_test_parameter_validation() {
    let valid_params = MatrixMulParams {
        dimension: 16,
        seed: 12345,
    };
    let invalid_zero = MatrixMulParams {
        dimension: 0,
        seed: 12345,
    };
    let invalid_large = MatrixMulParams {
        dimension: 2001,
        seed: 12345,
    };

    assert!(validate_parameters(&valid_params));
    assert!(!validate_parameters(&invalid_zero));
    assert!(!validate_parameters(&invalid_large));
}

#[test]
fn test_valid_parameters() {
    // Test valid small matrix
    let params = MatrixMulParams {
        dimension: 10,
        seed: 12345,
    };
    assert!(
        validate_parameters(&params),
        "Valid small parameters should pass"
    );

    // Test valid medium matrix
    let params = MatrixMulParams {
        dimension: 100,
        seed: 0, // Seed 0 should be valid
    };
    assert!(
        validate_parameters(&params),
        "Valid medium parameters should pass"
    );

    // Test valid large matrix (but within limits)
    let params = MatrixMulParams {
        dimension: 1000,
        seed: u32::MAX, // Max seed should be valid
    };
    assert!(
        validate_parameters(&params),
        "Valid large parameters should pass"
    );
}

#[test]
fn test_invalid_dimensions() {
    // Test zero dimension
    let params = MatrixMulParams {
        dimension: 0,
        seed: 12345,
    };
    assert!(
        !validate_parameters(&params),
        "Zero dimension should be invalid"
    );

    // Test dimension too large
    let params = MatrixMulParams {
        dimension: MAX_MATRIX_DIMENSION + 1,
        seed: 12345,
    };
    assert!(
        !validate_parameters(&params),
        "Too large dimension should be invalid"
    );

    // Test dimension that would cause memory overflow
    let params = MatrixMulParams {
        dimension: u32::MAX, // Would overflow in calculations
        seed: 12345,
    };
    assert!(
        !validate_parameters(&params),
        "Overflow-causing dimension should be invalid"
    );
}

#[test]
fn test_memory_limits() {
    // Test dimension that would exceed memory limit
    // 2000x2000 matrices use ~48MB total, should be OK
    let params = MatrixMulParams {
        dimension: 2000,
        seed: 12345,
    };
    assert!(
        validate_parameters(&params),
        "2000x2000 should be within limits"
    );

    // Larger dimensions should be rejected
    let params = MatrixMulParams {
        dimension: 3000, // 3000x3000 would use ~108MB per matrix, 324MB total
        seed: 12345,
    };
    assert!(
        !validate_parameters(&params),
        "3000x3000 should exceed memory limits"
    );
}

#[test]
fn test_edge_case_dimensions() {
    // Test dimension 1 (should be valid)
    let params = MatrixMulParams {
        dimension: 1,
        seed: 12345,
    };
    assert!(validate_parameters(&params), "1x1 matrix should be valid");

    // Test exactly at limit
    let params = MatrixMulParams {
        dimension: MAX_MATRIX_DIMENSION,
        seed: 12345,
    };
    assert!(
        validate_parameters(&params),
        "Exactly at max dimension should be valid"
    );
}
