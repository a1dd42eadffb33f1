use mimc7::field::{modulus, U256};
use mimc7::mimc::{
    check_bigint_array_in_field, check_bigint_in_field, fr_modulus, generate_constants,
    get_constants, hash_generic, mimc7_hash_generic, Mimc7, MimcError, N_ROUNDS,
};
use num_bigint::BigUint;

const R_DEC: &str = "21888242871839275222246405745257275088548364400416034343698204186575808495617";

fn from_dec(s: &str) -> BigUint {
    s.parse::<BigUint>().unwrap()
}

fn u256_of(n: &BigUint) -> U256 {
    let mut b = n.to_bytes_le();
    assert!(b.len() <= 32);
    b.resize(32, 0);
    U256 { bytes: b }
}

fn big_of(u: &U256) -> BigUint {
    BigUint::from_bytes_le(&u.bytes)
}

fn u64s(xs: &[u64]) -> Vec<U256> {
    xs.iter().map(|&x| U256::from_u64(x)).collect()
}

#[test]
fn modulus_value_matches_field_prime() {
    let r = fr_modulus();
    assert_eq!(big_of(&r), from_dec(R_DEC));
    assert_eq!(r.bytes.len(), 32);
}

#[test]
fn modulus_reduces() {
    let a = U256::from_u64(100);
    let m = U256::from_u64(7);
    let red = modulus(&a, &m);
    assert_eq!(red.bytes, U256::from_u64(2).bytes);
}

#[test]
fn from_u64_and_from_bytes_be_agree() {
    let mut be = vec![0u8; 32];
    be[30] = 0x12;
    be[31] = 0x34;
    let v = U256::from_bytes_be(&be);
    assert_eq!(v.bytes, U256::from_u64(0x1234).bytes);
    assert_eq!(big_of(&U256::zero()), BigUint::from(0u32));
}

#[test]
fn constants_start_with_zero_and_have_full_length() {
    let c = generate_constants();
    assert_eq!(c.cts.len(), 91);
    assert_eq!(c.n_rounds, N_ROUNDS);
    assert_eq!(big_of(&c.cts[0]), BigUint::from(0u32));
    assert_eq!(big_of(&c.r), from_dec(R_DEC));
}

#[test]
fn constants_deterministic() {
    let c1 = generate_constants();
    let c2 = generate_constants();
    assert_eq!(c1.cts.len(), c2.cts.len());
    for i in 0..c1.cts.len() {
        assert_eq!(c1.cts[i].bytes, c2.cts[i].bytes);
    }
    let r = fr_modulus();
    let cts = get_constants(&r, b"mimc", 91);
    assert_eq!(cts.len(), c1.cts.len());
    for i in 0..cts.len() {
        assert_eq!(cts[i].bytes, c1.cts[i].bytes);
    }
}

#[test]
fn first_derived_constant_matches_reference() {
    let c = generate_constants();
    assert_eq!(
        big_of(&c.cts[1]),
        from_dec("20888961410941983456478427210666206549300505294776164667214940546594746570981")
    );
}

#[test]
fn hash_deterministic_same_hasher() {
    let m = Mimc7::new();
    let h1 = m.hash(u64s(&[1, 2, 3])).unwrap();
    let h2 = m.hash(u64s(&[1, 2, 3])).unwrap();
    assert_eq!(h1.bytes, h2.bytes);
}

#[test]
fn hash_deterministic_across_hashers() {
    let m1 = Mimc7::new();
    let m2 = Mimc7::new();
    let h1 = m1.hash(u64s(&[7, 11])).unwrap();
    let h2 = m2.hash(u64s(&[7, 11])).unwrap();
    assert_eq!(h1.bytes, h2.bytes);
}

#[test]
fn hash_is_order_sensitive() {
    let m = Mimc7::new();
    let h12 = m.hash(u64s(&[1, 2])).unwrap();
    let h21 = m.hash(u64s(&[2, 1])).unwrap();
    assert_ne!(h12.bytes, h21.bytes);
    assert_eq!(
        big_of(&h12),
        from_dec("5233261170300319370386085858846328736737478911451874673953613863492170606314")
    );
    assert_eq!(
        big_of(&h21),
        from_dec("17102163200263779648759587088210958225854994262049585851296188793231910392975")
    );
}

#[test]
fn hash_rejects_element_equal_to_modulus() {
    let m = Mimc7::new();
    let r = fr_modulus();
    let res = m.hash(vec![r]);
    assert!(matches!(res, Err(MimcError::ElementOutOfField)));
}

#[test]
fn hash_accepts_element_just_below_modulus() {
    let m = Mimc7::new();
    let r_minus_1 = u256_of(&(from_dec(R_DEC) - BigUint::from(1u32)));
    let h = m.hash(vec![r_minus_1]).unwrap();
    let r = fr_modulus();
    assert!(check_bigint_in_field(&h, &r));
    assert_eq!(
        big_of(&h),
        from_dec("4664475646327377862961796881776103845487084034023211145221745907673012891406")
    );
}

#[test]
fn hash_of_single_element_is_element_plus_compression_of_zero_key() {
    let m = Mimc7::new();
    let r = from_dec(R_DEC);
    for &x in &[0u64, 1, 5, 123456789] {
        let xe = U256::from_u64(x);
        let h = m.hash(vec![U256::from_u64(x)]).unwrap();
        let c = m.mimc7_hash(&xe, &U256::zero());
        let expect = (BigUint::from(x) + big_of(&c)) % &r;
        assert_eq!(big_of(&h), expect);
    }
}

#[test]
fn hash_of_zero_matches_reference_vector() {
    let m = Mimc7::new();
    let h = m.hash(vec![U256::zero()]).unwrap();
    assert_eq!(
        big_of(&h),
        from_dec("11730251359286723731141466095709901450170369094578288842486979042586033922425")
    );
}

#[test]
fn compression_of_one_under_zero_key_matches_reference() {
    let m = Mimc7::new();
    let c = m.mimc7_hash(&U256::from_u64(1), &U256::zero());
    assert_eq!(
        big_of(&c),
        from_dec("12240136457100152345096610842396488822128317434453048685489891202497829360467")
    );
}

#[test]
fn hash_of_empty_sequence_is_zero() {
    let m = Mimc7::new();
    let h = m.hash(Vec::new()).unwrap();
    assert_eq!(big_of(&h), BigUint::from(0u32));
    let hb = m.hash_bytes(Vec::new()).unwrap();
    assert_eq!(big_of(&hb), BigUint::from(0u32));
}

#[test]
fn hash_bytes_chunks_62_bytes_into_two_elements() {
    let m = Mimc7::new();
    let buf: Vec<u8> = (1..=62u8).collect();
    let c1 = BigUint::from_bytes_le(&buf[0..31]);
    let c2 = BigUint::from_bytes_le(&buf[31..62]);
    let direct = m.hash(vec![u256_of(&c1), u256_of(&c2)]).unwrap();
    let viabytes = m.hash_bytes(buf).unwrap();
    assert_eq!(viabytes.bytes, direct.bytes);
}

#[test]
fn hash_bytes_chunks_63_bytes_into_three_elements() {
    let m = Mimc7::new();
    let buf: Vec<u8> = (1..=63u8).collect();
    let c1 = BigUint::from_bytes_le(&buf[0..31]);
    let c2 = BigUint::from_bytes_le(&buf[31..62]);
    let c3 = BigUint::from_bytes_le(&buf[62..63]);
    let direct = m.hash(vec![u256_of(&c1), u256_of(&c2), u256_of(&c3)]).unwrap();
    let viabytes = m.hash_bytes(buf).unwrap();
    assert_eq!(viabytes.bytes, direct.bytes);
}

#[test]
fn hash_bytes_of_31_bytes_equals_hash_of_their_value() {
    let m = Mimc7::new();
    let buf: Vec<u8> = (100..=130u8).collect();
    assert_eq!(buf.len(), 31);
    let c = BigUint::from_bytes_le(&buf);
    let direct = m.hash(vec![u256_of(&c)]).unwrap();
    let viabytes = m.hash_bytes(buf).unwrap();
    assert_eq!(viabytes.bytes, direct.bytes);
}

#[test]
fn check_bigint_in_field_is_strict_comparison() {
    let r = fr_modulus();
    let below = u256_of(&(from_dec(R_DEC) - BigUint::from(1u32)));
    assert!(check_bigint_in_field(&below, &r));
    assert!(!check_bigint_in_field(&r, &r));
    assert!(check_bigint_in_field(&U256::zero(), &r));
}

#[test]
fn check_bigint_array_in_field_finds_any_violation() {
    let r = fr_modulus();
    let below = u256_of(&(from_dec(R_DEC) - BigUint::from(1u32)));
    let ok = vec![U256::from_u64(3), below];
    assert!(check_bigint_array_in_field(&ok, &r));
    let bad = vec![U256::from_u64(3), fr_modulus()];
    assert!(!check_bigint_array_in_field(&bad, &r));
    let empty: Vec<U256> = Vec::new();
    assert!(check_bigint_array_in_field(&empty, &r));
}

#[test]
fn generic_compression_matches_fixed_hasher() {
    let m = Mimc7::new();
    let r = fr_modulus();
    let x = U256::from_u64(42);
    let k = U256::from_u64(9000);
    let a = m.mimc7_hash(&x, &k);
    let b = mimc7_hash_generic(&r, &x, &k, 91);
    assert_eq!(a.bytes, b.bytes);
}

#[test]
fn hash_generic_chains_compressions_over_the_iv() {
    let r = fr_modulus();
    let iv = U256::zero();
    let a = U256::from_u64(10);
    let b = U256::from_u64(20);
    let h1 = mimc7_hash_generic(&r, &iv, &a, 91);
    let h2 = mimc7_hash_generic(&r, &h1, &b, 91);
    let chained = hash_generic(
        U256::zero(),
        vec![U256::from_u64(10), U256::from_u64(20)],
        fr_modulus(),
        91,
    );
    assert_eq!(chained.bytes, h2.bytes);
    let single = hash_generic(U256::zero(), vec![U256::from_u64(10)], fr_modulus(), 91);
    assert_eq!(single.bytes, h1.bytes);
}
