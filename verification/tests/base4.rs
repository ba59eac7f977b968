use rand::RngExt;

use spatial::codec::{Base4, Base4Int};

#[test]
fn base4_int_smoke() {
    let mut base4_integer = Base4Int::new();

    base4_integer.push_all(&[0_u8, 1, 2, 3, 2, 1, 0]);

    println!("{:?}", base4_integer);

    assert!(0 == base4_integer.pop());
    assert!(1 == base4_integer.pop());
    assert!(2 == base4_integer.pop());
    assert!(3 == base4_integer.pop());
    assert!(2 == base4_integer.pop());
    assert!(1 == base4_integer.pop());
    assert!(0 == base4_integer.pop());

    base4_integer.push_all(&[0_u8, 1, 2, 3, 2, 1, 0]);

    assert!(vec![0_u8, 1, 2, 3, 2, 1, 0] == base4_integer.pop_all());
}

#[test]
fn peek_from_base4_int() {
    let mut rng = rand::rng();
    let mut ints: Vec<u8> = vec![];

    (0..70).for_each(|_| ints.push(rng.random_range(0..4_u8)));

    let mut base4_integer = Base4Int::new();
    base4_integer.push_all(ints.as_slice());

    (0..70).for_each(|i| assert!(ints[i] == base4_integer.peek_at(i)));

    ints.clear();

    (0..128).for_each(|_| ints.push(rng.random_range(0..4_u8)));

    let mut base4_integer = Base4Int::new();
    base4_integer.push_all(ints.as_slice());

    (0..128).for_each(|i| assert!(ints[i] == base4_integer.peek_at(i)));

    ints.clear();

    (0..256).for_each(|_| ints.push(rng.random_range(0..4_u8)));

    let mut base4_integer = Base4Int::new();
    base4_integer.push_all(ints.as_slice());

    (0..256).for_each(|i| assert!(ints[i] == base4_integer.peek_at(i)));
}

#[test]
fn push_pop_base4_int() {
    let mut rng = rand::rng();
    let mut ints: Vec<u8> = vec![];

    (0..128).for_each(|_| ints.push(rng.random_range(0..4_u8)));

    let mut base4_integer = Base4Int::new();
    base4_integer.push_all(ints.as_slice());

    assert!(base4_integer.total_blocks() == 2);
    assert!(base4_integer.total_len() == 128);

    base4_integer.push(2_u8);

    assert!(base4_integer.total_blocks() == 3);
    assert!(base4_integer.total_len() == 129);
    assert!(base4_integer.peek_at(128) == 2);
    assert!(base4_integer.pop() == 2);

    assert!(base4_integer.total_blocks() == 2);
    assert!(base4_integer.total_len() == 128);
}

#[test]
fn base4_codec() {
    let mut base4_integer = Base4::new();

    base4_integer.push_all(&[0_u8, 1, 2, 3, 2, 1, 0]);

    println!("{:?}", base4_integer);

    assert!(0 == base4_integer.pop());
    assert!(1 == base4_integer.pop());
    assert!(2 == base4_integer.pop());
    assert!(3 == base4_integer.pop());
    assert!(2 == base4_integer.pop());
    assert!(1 == base4_integer.pop());
    assert!(0 == base4_integer.pop());

    base4_integer.push_all(&[0_u8, 1, 2, 3, 2, 1, 0]);

    assert!(vec![0_u8, 1, 2, 3, 2, 1, 0] == base4_integer.pop_all());
}

#[test]
fn peek_from_base4() {
    let mut rng = rand::rng();
    let mut ints: Vec<u8> = vec![];

    (0..10).for_each(|_| ints.push(rng.random_range(0..4_u8)));

    let mut base4_integer = Base4::new();
    base4_integer.push_all(ints.as_slice());

    (0..10).for_each(|i| assert!(ints[i] == base4_integer.peek_at(i)));

    ints.clear();

    (0..64).for_each(|_| ints.push(rng.random_range(0..4_u8)));

    let mut base4_integer = Base4::new();
    base4_integer.push_all(ints.as_slice());

    (0..64).for_each(|i| assert!(ints[i] == base4_integer.peek_at(i)));
}

#[test]
fn base4_codec_limits() {
    let mut rng = rand::rng();
    let mut ints: Vec<u8> = vec![];

    for _ in 0..12 {
        ints.push(rng.random_range(0..3_u8));
    }

    let mut base4_integer = Base4::new();

    base4_integer.push_all(ints.as_slice());

    assert!(ints == base4_integer.pop_all());

    ints.clear();

    for _ in 0..64 {
        ints.push(rng.random_range(0..4));
    }

    base4_integer.push_all(ints.as_slice());

    assert!(base4_integer.pop_all() == ints);
}

#[test]
fn bit_shift_multiplication() {
    let a = 4 * 1;
    let b = 1 << 2;
    assert!(a == b);

    let a = 4 * 2;
    let b = 2 << 2;
    assert!(a == b);

    let a = 4 * 3;
    let b = 3 << 2;
    assert!(a == b);

    let a = 4 * 4;
    let b = 4 << 2;
    assert!(a == b);

    let a = 1 / 4;
    let b = 1 >> 2;
    assert!(a == b);

    let a = 8 / 4;
    let b = 8 >> 2;
    assert!(a == b);

    let a = 12 / 4;
    let b = 12 >> 2;
    assert!(a == b);

    let a = 16 / 4;
    let b = 16 >> 2;
    assert!(a == b);

    let encoded = base4_encode(&[0, 1, 2, 3, 2, 1, 0]);
    println!("{encoded}");
    let decoded = base4_decode(encoded, 7);
    println!("{:?}", decoded);
}

fn base4_encode(ints: &[usize]) -> u128 {
    let mut n = 0;
    for int in ints {
        n = n * 4 + (*int as u128);
    }
    n
}

fn base4_decode(n: u128, size: usize) -> Vec<u8> {
    let mut ints = Vec::with_capacity(size);
    let mut rest = n;
    for _ in 0..size {
        ints.push((rest % 4) as u8);
        rest /= 4;
    }
    ints
}

#[test]
fn round_trip_lengths() {
    for n in [0usize, 1, 63, 64, 65, 127, 128, 129, 500] {
        let mut ints: Vec<u8> = Vec::with_capacity(n);
        for i in 0..n {
            ints.push((i % 4) as u8);
        }
        let mut base4_integer = Base4Int::new();
        base4_integer.push_all(ints.as_slice());
        assert!(base4_integer.total_len() == n);
        assert!(base4_integer.pop_all() == ints);
        assert!(base4_integer.total_len() == 0);
        assert!(base4_integer.total_blocks() == 0);
    }
}
