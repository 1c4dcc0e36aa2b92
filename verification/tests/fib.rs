use rv32_mini_asm::fib_u32;

#[test]
fn fib_small_indices() {
    let expected = [0u32, 1, 1, 2, 3, 5, 8, 13, 21, 34, 55];
    for (n, value) in expected.iter().enumerate() {
        assert_eq!(fib_u32(n as u32), *value);
    }
}

#[test]
fn fib_last_index_that_fits() {
    assert_eq!(fib_u32(47), 2971215073);
}

#[test]
fn fib_wraps_at_32_bits() {
    assert_eq!(fib_u32(48), (4807526976u64 % (1 << 32)) as u32);
    assert_eq!(fib_u32(48), 512559680);
    assert_eq!(fib_u32(49), ((2971215073u64 + 4807526976u64) % (1 << 32)) as u32);
}
