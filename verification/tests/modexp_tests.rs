use modexp::{ExecutionError, Modexp, Operand};
use num::BigUint;

fn hex_input(s: &str) -> Vec<u8> {
    hex::decode(s).expect("Decode failed")
}

/// Builds an input buffer from the three operands, with each length field
/// written as a 32-byte big-endian header word.
fn build_input(base: &[u8], exp: &[u8], modulus: &[u8]) -> Vec<u8> {
    let mut input = Vec::new();
    for operand in [base, exp, modulus] {
        let mut field = vec![0u8; 32];
        let len = operand.len();
        field[24..32].copy_from_slice(&(len as u64).to_be_bytes());
        input.extend_from_slice(&field);
    }
    input.extend_from_slice(base);
    input.extend_from_slice(exp);
    input.extend_from_slice(modulus);
    input
}

#[test]
fn test_empty_input() {
    let input: [u8; 0] = [];
    let cost: u64 = 1;
    match Modexp::execute(&input, Some(cost)) {
        Ok(_) => panic!("Test not expected to pass"),
        Err(e) => assert_eq!(e, ExecutionError::TooShort),
    }
}

#[test]
fn test_insufficient_input() {
    let input = hex_input(
        "0000000000000000000000000000000000000000000000000000000000000001\
         0000000000000000000000000000000000000000000000000000000000000001\
         0000000000000000000000000000000000000000000000000000000000000001",
    );
    let cost: u64 = 1;
    match Modexp::execute(&input, Some(cost)) {
        Ok(_) => panic!("Test not expected to pass"),
        Err(e) => assert_eq!(e, ExecutionError::InsufficientInput),
    }
}

#[test]
fn test_excessive_input() {
    let input = hex_input(
        "1000000000000000000000000000000000000000000000000000000000000001\
         0000000000000000000000000000000000000000000000000000000000000001\
         0000000000000000000000000000000000000000000000000000000000000001",
    );
    let cost: u64 = 1;
    match Modexp::execute(&input, Some(cost)) {
        Ok(_) => panic!("Test not expected to pass"),
        Err(e) => assert_eq!(e, ExecutionError::LengthTooLarge(Operand::Base)),
    }
}

#[test]
fn test_simple_inputs() {
    let input = hex_input(
        "0000000000000000000000000000000000000000000000000000000000000001\
         0000000000000000000000000000000000000000000000000000000000000001\
         0000000000000000000000000000000000000000000000000000000000000001\
         03\
         05\
         07",
    );
    // 3 ^ 5 % 7 == 5
    let cost: u64 = 100000;
    match Modexp::execute(&input, Some(cost)) {
        Ok((output, _)) => {
            assert_eq!(output.len(), 1); // should be same length as mod
            let result = BigUint::from_bytes_be(&output[..]);
            let expected = BigUint::parse_bytes(b"5", 10).unwrap();
            assert_eq!(result, expected);
        }
        Err(_) => panic!("Modexp::execute() returned error"),
    }
}

#[test]
fn test_large_inputs() {
    let input = hex_input(
        "0000000000000000000000000000000000000000000000000000000000000020\
         0000000000000000000000000000000000000000000000000000000000000020\
         0000000000000000000000000000000000000000000000000000000000000020\
         000000000000000000000000000000000000000000000000000000000000EA5F\
         0000000000000000000000000000000000000000000000000000000000000015\
         0000000000000000000000000000000000000000000000000000000000003874",
    );
    // 59999 ^ 21 % 14452 = 10055
    let cost: u64 = 100000;
    match Modexp::execute(&input, Some(cost)) {
        Ok((output, _)) => {
            assert_eq!(output.len(), 32); // should be same length as mod
            let result = BigUint::from_bytes_be(&output[..]);
            let expected = BigUint::parse_bytes(b"10055", 10).unwrap();
            assert_eq!(result, expected);
        }
        Err(_) => panic!("Modexp::execute() returned error"),
    }
}

#[test]
fn test_large_computation() {
    let input = hex_input(
        "0000000000000000000000000000000000000000000000000000000000000001\
         0000000000000000000000000000000000000000000000000000000000000020\
         0000000000000000000000000000000000000000000000000000000000000020\
         03\
         fffffffffffffffffffffffffffffffffffffffffffffffffffffffefffffc2e\
         fffffffffffffffffffffffffffffffffffffffffffffffffffffffefffffc2f",
    );
    let cost: u64 = 100000;
    match Modexp::execute(&input, Some(cost)) {
        Ok((output, _)) => {
            assert_eq!(output.len(), 32); // should be same length as mod
            let result = BigUint::from_bytes_be(&output[..]);
            let expected = BigUint::parse_bytes(b"1", 10).unwrap();
            assert_eq!(result, expected);
        }
        Err(_) => panic!("Modexp::execute() returned error"),
    }
}

#[test]
fn test_output_length_equals_mod_len() {
    // mod_len 2 with a one-byte result: left-padded to exactly mod_len.
    let input = build_input(&[3], &[5], &[0x00, 0x07]);
    let (output, _) = Modexp::execute(&input, Some(100000)).unwrap();
    assert_eq!(output.len(), 2);
    assert_eq!(output, vec![0x00, 0x05]);
}

#[test]
fn test_gas_cost_never_below_minimum() {
    let input = build_input(&[3], &[5], &[7]);
    let (_, gas) = Modexp::execute(&input, Some(100000)).unwrap();
    assert_eq!(gas, 200);
}

#[test]
fn test_empty_base_and_modulus_costs_minimum() {
    // base_len == 0 and mod_len == 0: empty output at the minimum price,
    // with no gas limit needed, however long the declared exponent is.
    let input = build_input(&[], &[0xFF, 0xFF, 0xFF, 0xFF, 0xFF], &[]);
    let (output, gas) = Modexp::execute(&input, None).unwrap();
    assert_eq!(output.len(), 0);
    assert_eq!(gas, 200);
}

#[test]
fn test_modulus_zero_gives_zero_output() {
    let input = build_input(&[3], &[5], &[0]);
    let (output, gas) = Modexp::execute(&input, Some(100000)).unwrap();
    assert_eq!(output, vec![0]);
    assert_eq!(gas, 200);
}

#[test]
fn test_modulus_one_gives_zero_output() {
    let input = build_input(&[3], &[5], &[0x00, 0x01]);
    let (output, _) = Modexp::execute(&input, Some(100000)).unwrap();
    assert_eq!(output, vec![0, 0]);
}

#[test]
fn test_zero_exponent_gives_one() {
    // 9^0 mod 7 == 1, priced at the minimum.
    let input = build_input(&[9], &[], &[7]);
    let (output, gas) = Modexp::execute(&input, Some(100000)).unwrap();
    assert_eq!(output, vec![1]);
    assert_eq!(gas, 200);
}

#[test]
fn test_missing_gas_limit() {
    let input = build_input(&[3], &[5], &[7]);
    match Modexp::execute(&input, None) {
        Ok(_) => panic!("Test not expected to pass"),
        Err(e) => assert_eq!(e, ExecutionError::MissingGasLimit),
    }
}

#[test]
fn test_exponent_length_too_large() {
    let mut input = build_input(&[3], &[5], &[7]);
    // Rewrite the exponent length field to 1025.
    input[62] = 0x04;
    input[63] = 0x01;
    match Modexp::execute(&input, Some(100000)) {
        Ok(_) => panic!("Test not expected to pass"),
        Err(e) => assert_eq!(e, ExecutionError::LengthTooLarge(Operand::Exponent)),
    }
}

#[test]
fn test_modulus_length_too_large() {
    let mut input = build_input(&[3], &[5], &[7]);
    // Rewrite the modulus length field to 1025.
    input[94] = 0x04;
    input[95] = 0x01;
    match Modexp::execute(&input, Some(100000)) {
        Ok(_) => panic!("Test not expected to pass"),
        Err(e) => assert_eq!(e, ExecutionError::LengthTooLarge(Operand::Modulus)),
    }
}

#[test]
fn test_max_length_base_exact_gas() {
    // A 1024-byte base is still legal: words = 128, complexity = 16384,
    // one iteration, so the price is 16384 / 3 = 5461.
    let base = vec![0u8; 1024];
    let input = build_input(&base, &[1], &[7]);
    let (output, gas) = Modexp::execute(&input, Some(100000)).unwrap();
    assert_eq!(output, vec![0]);
    assert_eq!(gas, 5461);
}

#[test]
fn test_out_of_gas_boundary() {
    // 64-byte base and modulus: words = 8, complexity = 64; a 32-byte
    // exponent with the top bit set: 256 bits, 255 iterations; the price is
    // 64 * 255 / 3 = 5440 exactly.
    let mut base = vec![0u8; 64];
    base[63] = 3;
    let mut exp = vec![0u8; 32];
    exp[0] = 0x80;
    let mut modulus = vec![0u8; 64];
    modulus[63] = 0x0D;
    let input = build_input(&base, &exp, &modulus);
    match Modexp::execute(&input, Some(5439)) {
        Ok(_) => panic!("Test not expected to pass"),
        Err(e) => assert_eq!(e, ExecutionError::OutOfGas),
    }
    let (output, gas) = Modexp::execute(&input, Some(5440)).unwrap();
    assert_eq!(gas, 5440);
    assert_eq!(output.len(), 64);
}

#[test]
fn test_long_exponent_low_bits_zero() {
    // A 33-byte exponent equal to 2^256: the low 256 bits are zero, so the
    // iteration count is 8 * 1 - 1 = 7 and the price stays at the minimum.
    // 3^(2^256) mod 7 == 3^4 mod 7 == 4, since 2^256 ≡ 4 (mod 6).
    let mut exp = vec![0u8; 33];
    exp[0] = 0x01;
    let input = build_input(&[3], &exp, &[7]);
    let (output, gas) = Modexp::execute(&input, Some(100000)).unwrap();
    assert_eq!(output, vec![4]);
    assert_eq!(gas, 200);
}

#[test]
fn test_long_exponent_exact_gas() {
    // A 33-byte exponent whose low 256 bits start with the top bit set:
    // iteration count 8 * 1 + 255 = 263; with 64-byte base and modulus the
    // complexity is 64, so the price is 64 * 263 / 3 = 5610.
    let mut base = vec![0u8; 64];
    base[63] = 3;
    let mut exp = vec![0u8; 33];
    exp[0] = 0x01;
    exp[1] = 0x80;
    let mut modulus = vec![0u8; 64];
    modulus[63] = 0x0D;
    let input = build_input(&base, &exp, &modulus);
    let (output, gas) = Modexp::execute(&input, Some(100000)).unwrap();
    assert_eq!(gas, 5610);
    assert_eq!(output.len(), 64);
}

#[test]
fn test_execute_is_idempotent() {
    let input = build_input(&[0xEA, 0x5F], &[0x15], &[0x38, 0x74]);
    let first = Modexp::execute(&input, Some(100000));
    let second = Modexp::execute(&input, Some(100000));
    assert_eq!(first, second);
}

#[test]
fn test_gas_cost_monotonic_in_lengths() {
    // Holding the other operands fixed, widening the base or the modulus
    // never lowers the price.
    let mut exp = vec![0u8; 32];
    exp[0] = 0x80;
    let narrow = build_input(&vec![3u8; 32], &exp, &vec![7u8; 32]);
    let wide_base = build_input(&vec![3u8; 64], &exp, &vec![7u8; 32]);
    let wide_mod = build_input(&vec![3u8; 32], &exp, &vec![7u8; 64]);
    let (_, gas_narrow) = Modexp::execute(&narrow, Some(1000000)).unwrap();
    let (_, gas_wide_base) = Modexp::execute(&wide_base, Some(1000000)).unwrap();
    let (_, gas_wide_mod) = Modexp::execute(&wide_mod, Some(1000000)).unwrap();
    assert!(gas_narrow <= gas_wide_base);
    assert!(gas_narrow <= gas_wide_mod);
}

#[test]
fn test_trailing_bytes_ignored() {
    let mut input = build_input(&[3], &[5], &[7]);
    input.extend_from_slice(&[0xAB; 17]);
    let (output, gas) = Modexp::execute(&input, Some(100000)).unwrap();
    assert_eq!(output, vec![5]);
    assert_eq!(gas, 200);
}
