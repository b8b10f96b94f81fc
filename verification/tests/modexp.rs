use pss_signer::modexp::{decrypt, decrypt_counting, MULTIPLICATIONS};
use pss_signer::uint::U4096;

fn unhex(s: &str) -> Vec<u8> {
    let digits: Vec<u8> = s
        .bytes()
        .filter(|b| b.is_ascii_hexdigit())
        .map(|b| match b {
            b'0'..=b'9' => b - b'0',
            b'a'..=b'f' => b - b'a' + 10,
            _ => b - b'A' + 10,
        })
        .collect();
    digits.chunks(2).map(|p| p[0] * 16 + p[1]).collect()
}

fn uint(s: &str) -> U4096 {
    let bytes = unhex(s);
    let mut padded = [0u8; 512];
    padded[512 - bytes.len()..].copy_from_slice(&bytes);
    U4096::from_be_bytes(padded)
}

fn small(v: u64) -> U4096 {
    let mut limbs = [0u32; 128];
    limbs[0] = v as u32;
    limbs[1] = (v >> 32) as u32;
    U4096::from_uint_array(limbs)
}

fn words(v: u64) -> [u32; 128] {
    small(v).to_uint_array()
}

fn modexp(base: u64, exp: u64, modulus: u64) -> Option<u64> {
    decrypt(&small(base), &words(exp), &small(modulus)).map(|r| {
        assert!(r.limbs[2..].iter().all(|w| *w == 0));
        r.limbs[0] as u64 | (r.limbs[1] as u64) << 32
    })
}

const MODULUS: &str = "b3bf127d72abb53a47f10e655d9b2dd0b3f14959e515e4c8723988034ece897e \
     6cc5f3632939b9b8481fdbc0d64687c04bd9c53c248cb8303416ba4f08dd9386 \
     9b737894a9f0158abb29fa6461ffadaf04863c49148805adc389df17efc87ced \
     3ab0432ed1c3bf2b08515ecde8dad149252ee3fa1dcf7aacc9e815482504c14f \
     16576c0e7d48c3dc50dfa18ee9ac68b7373bcdde652ddbd36ed599bdea5bdf46 \
     c4187eb0b8a950622281880c04c1ebdec3830cfb5c295c02693b6736083d574f \
     8f369a2172a9b6cd8fc7d4c491d566b9d0165316b043fc8d447c583e838a6995 \
     3c0016996473f9be37218cede8f6f9b5cd363edfbad2159aeb3c223bdedbbed9 \
     7c4d4034660b9f621ac386a83c1c771b06fd46e4d61e4b2743ff4c03c0932788 \
     58718c80187c8e3dca7ae6800cf3895ab0e3ddb85156acb32fff6a18ca49e5de \
     35c9888d98c6216f9dddf7e7d04bd01973e4b9dde72a9b3b6bf2e0da047f1c17 \
     f45c1f30b7c456291cb649d780a9b37b0f845993717f327d7e5f46ffaf76e522 \
     7e1f010c5ef45ec6ca53ed0f0bda09f3a10f022307ac2454c2e812d5e0a30ac9 \
     fa04800037013c0050c11ea66fe6d8150d8057d78223f836ba0fe4accfedf4fa \
     ec6a31034b3d3a4dffb832e83afe7a2ebdafa3a4e0e52cae9bf445590d5b8380 \
     aac95bd293697e9ab75cb4cabefd46ded3e8d1b60952186f7b1a4d14891080af";
const PRIVATE_EXPONENT: &str = "228b3f0f72e14303ff5d7969cbb28dfc850883134eae85786c53582b6292d8e3 \
     be1dd0e7a6bd9c4ea935ce32e23b4dcd8c063f1c8edda86c43267709c76765f9 \
     c198507d29a7a54c332a1f1ff9a17c8c9d2efb1904641bcb48400feaf6bf2e1b \
     1d63509607e439b2187822e329b41bf295bdcc3c7e4c28845a8d4ac1c1b3873f \
     1ec910503c8da66e89f0608929a963ba8a57e8f9abb24383ffd1f72903884281 \
     c41ffd01138c1e91ad95fd426a0ba6bbfa110e86a430a2a927f62da0b9b6a837 \
     f70b045617463c8686f25d96a57c40b0c727f331f2102ed22b6e463b45666d62 \
     2bd4cc83104625a203d063d8392475db15a42e332b2142dbb207ad809a14db39 \
     7864b6951f8f87f3278a29d32f482f4fff2772f2bd62f57c77c7874376f0c005 \
     b04192b75df32e1efb91355555cd8d7063f2361739edbec0cfecf46aec41e8fb \
     836b114dc54ca5d2811dcd88fb779d2aaf89178d847bc386c7d11faaf397faf3 \
     bf7f6ca1db6e507e41c70f54cd94ba82067f09d01c1f109bc65b1982998b1934 \
     9f85e39bdf317db17ec8dd33e148f03db189a5504a41813d98a93326302cd5fa \
     30722fbd51b6dcecef5f79535a3885a4f0173177a08bc806e41dccf6ac59338d \
     97c972f9c2c69ddfc0a03261c6425a999a4503fa7fcfa2a007a4352a6dafe4c4 \
     cf9f716dd9774c4040badc269f73bf6250eb44f148a3d43bcddb8bda8bcdfb79";
const BASE: &str = "1f40fc92da241694750979ee6cf582f2d5d7d28e18335de05abc54d0560e0f53 \
     02860c652bf08d560252aa5e74210546f369fbbbce8c12cfc7957b2652fe9a75 \
     1f40fc92da241694750979ee6cf582f2d5d7d28e18335de05abc54d0560e0f53 \
     02860c652bf08d560252aa5e74210546f369fbbbce8c12cfc7957b2652fe9a75 \
     1f40fc92da241694750979ee6cf582f2d5d7d28e18335de05abc54d0560e0f53 \
     02860c652bf08d560252aa5e74210546f369fbbbce8c12cfc7957b2652fe9a75 \
     1f40fc92da241694750979ee6cf582f2d5d7d28e18335de05abc54d0560e0f53 \
     02860c652bf08d560252aa5e74210546f369fbbbce8c12cfc7957b2652fe9a75 \
     1f40fc92da241694750979ee6cf582f2d5d7d28e18335de05abc54d0560e0f53 \
     02860c652bf08d560252aa5e74210546f369fbbbce8c12cfc7957b2652fe9a75 \
     1f40fc92da241694750979ee6cf582f2d5d7d28e18335de05abc54d0560e0f53 \
     02860c652bf08d560252aa5e74210546f369fbbbce8c12cfc7957b2652fe9a75 \
     1f40fc92da241694750979ee6cf582f2d5d7d28e18335de05abc54d0560e0f53 \
     02860c652bf08d560252aa5e74210546f369fbbbce8c12cfc7957b2652fe9a75 \
     1f40fc92da241694750979ee6cf582f2d5d7d28e18335de05abc54d0560e0f53 \
     02860c652bf08d560252aa5e74210546f369fbbbce8c12cfc7957b2652fe9a75";
const POWER: &str = "22b977e51a397608de7bdc4ab48e528ef1a3bf49861c816f277e3eb5ff139429 \
     35c436029cfe8f88cdac1a198eaeab6a6f018c612dea24f02111dca2d3ea91f8 \
     67c2b53ef6095a47da55434d8981f0d0b70f493f8aa619f5b519224febc9f5bd \
     5a1c5aee14812b2cc058b9bc7eefb9a2719cf748fcf4b82eb729a1e8aa067a72 \
     03a44ee7b1ba1be78db93e9aba29dc7eac372bd7364c5e97dbb44db2bcf3e5a5 \
     333fdd7c7660d7475ddc2398941ccf6a6490e4d7d4883c55846a62256be9ad62 \
     794707a266ed4bb889ab3466e5071479d8786669c102e398a2f05cd816b80388 \
     ca1a901ddf4057e85029f5719fa0576e10861214d1b1d9594b60e522d046ea91 \
     6db832c4ad376c4591ac67758e92b5c67c5e70cdfbe85fd473a64492ce994661 \
     3b37675c33dc38830bca94684d1621491c075d9aabdfe32192c9d5f2f2bcc58e \
     4d90e6e4cc4998a42825c267f020460211db1ef609b5df2821697d97a45b6fe6 \
     2762106d7fd03c8ba29d96b4a6dd16222abf106fef9b2c66d86cd9eece730acd \
     6ac9491019aa443aa94085e9fe8ed6beb61390bbd0e6a08ba170164f4ece1734 \
     93e0387673709d2496fc938107cc8ac3277f551655d98a07c8127dea95f575a9 \
     5bc1f7091f6b48d552e2ef33e5b9d9327a1313aa67d25dd722985dd26ac7aeb2 \
     4a304437687a79ab8b1201847da2dd8dcd38d5f7d4abe1f4c275cf338baa405c";
const BASE_ABOVE_MODULUS: &str = "ffffffffffffffffffffffffffffffffffffffffffffffffffffffffffffffff \
     ffffffffffffffffffffffffffffffffffffffffffffffffffffffffffffffff \
     ffffffffffffffffffffffffffffffffffffffffffffffffffffffffffffffff \
     ffffffffffffffffffffffffffffffffffffffffffffffffffffffffffffffff \
     ffffffffffffffffffffffffffffffffffffffffffffffffffffffffffffffff \
     ffffffffffffffffffffffffffffffffffffffffffffffffffffffffffffffff \
     ffffffffffffffffffffffffffffffffffffffffffffffffffffffffffffffff \
     ffffffffffffffffffffffffffffffffffffffffffffffffffffffffffffffff \
     ffffffffffffffffffffffffffffffffffffffffffffffffffffffffffffffff \
     ffffffffffffffffffffffffffffffffffffffffffffffffffffffffffffffff \
     ffffffffffffffffffffffffffffffffffffffffffffffffffffffffffffffff \
     ffffffffffffffffffffffffffffffffffffffffffffffffffffffffffffffff \
     ffffffffffffffffffffffffffffffffffffffffffffffffffffffffffffffff \
     ffffffffffffffffffffffffffffffffffffffffffffffffffffffffffffffff \
     ffffffffffffffffffffffffffffffffffffffffffffffffffffffffffffffff \
     ffffffffffffffffffffffffffffffffffffffffffffffffffffffffffffcfc7";
const POWER_OF_BASE_ABOVE_MODULUS: &str = "0a9ab5d500c5fe750b8f1c97cf479861ea616fe7633fc8e62add09a19f834de0 \
     813a502e6668704b891715b2be3aadb8fbbf07be7e559716e07b21db4cbe8076 \
     21b579f64fa7a9de993213f321c437a7ae24af42affd273f62fe6084af25759a \
     77597d5d9b5de908a85868d0180462d43cc74090de547df14d3118f1a981020b \
     e127311276dffaa2ffa6bc6f82f4f5d20a2f37d16ae3579f05ce87252f383932 \
     42ecb3cb6266ded6f06ee4c9da5c0845a6c6551337e23541b269e5f0c0d3ce39 \
     265c9ee3c33f5d878d47649509be20d127e46f127caf80cc5d6c704f5da2f66b \
     f2a7d69e53d8ce3e1c535068a0f132381490007e591cbac3eea7c0dac9248770 \
     5b6035a7e8523d78aadf72bbc7ae1b89ffedc5a94ad65a6cb30791be9efb9f11 \
     726ec7bff2d8caeb2fbdc35ecd360b33c1a00fa5c812ec6b91a71af53944232b \
     f46f6e1c99f946f79801da4973404e5e7e7c6db0286e7877cc0a35cf7cf05996 \
     2951ed8324746218d040a103cdbb0be4f985ec08753302a8a5e72531da556c93 \
     2c0d5fe641f036d14b7609bade284ad9fcda145746b7fde1eb53ee94ca605fdd \
     89b609ebd6f9ab3524b017af9375e04e6009d4f7ce742aeb12600ddfafb062d8 \
     6bc947b4dcdba86dad9857b8bf38485f44a8dbf15f3b5f3a5405a4d480f35683 \
     dc8ddfb7411cffc29b5fecc8f5a7c4b8ae314f98c8a15557e3d2b5117f429e95";

#[test]
fn small_powers() {
    assert_eq!(modexp(4, 13, 497), Some(445));
    assert_eq!(modexp(2, 10, 1025), Some(1024));
}

#[test]
fn exponent_one_reduces_the_base() {
    assert_eq!(modexp(1000, 1, 7), Some(6));
    assert_eq!(modexp(5, 1, 7), Some(5));
}

#[test]
fn base_zero_and_base_one() {
    assert_eq!(modexp(0, 5, 7), Some(0));
    assert_eq!(modexp(1, 0xffff_ffff_ffff, 7), Some(1));
}

#[test]
fn modulus_one_gives_zero_for_a_nonzero_exponent() {
    assert_eq!(modexp(5, 3, 1), Some(0));
}

#[test]
fn exponent_zero_gives_one_for_every_odd_modulus() {
    assert_eq!(modexp(5, 0, 7), Some(1));
    assert_eq!(modexp(0, 0, 7), Some(1));
    assert_eq!(modexp(12345, 0, 3233), Some(1));
    assert_eq!(modexp(5, 0, 1), Some(1));
    let r = decrypt(&uint(BASE), &[0; 128], &uint(MODULUS)).unwrap();
    assert_eq!(r.limbs, small(1).limbs);
}

#[test]
fn exponent_zero_gives_one_for_an_even_modulus_too() {
    assert_eq!(modexp(5, 0, 8), Some(1));
    assert_eq!(modexp(5, 0, 0), Some(1));
}

#[test]
fn even_modulus_is_not_supported() {
    assert_eq!(modexp(2, 10, 1000), None);
    assert_eq!(modexp(3, 1, 4), None);
    assert_eq!(modexp(3, 1, 0), None);
}

#[test]
fn exponent_in_a_high_word() {
    // 3^(2^64 + 5) mod 1000003
    let mut exp = [0u32; 128];
    exp[2] = 1;
    exp[0] = 5;
    let r = decrypt(&small(3), &exp, &small(1000003)).unwrap();
    assert_eq!(r.limbs, small(116198).limbs);
}

#[test]
fn exponent_with_the_top_nibble_set() {
    // 7^(15 * 2^4092) mod 3233
    let mut exp = [0u32; 128];
    exp[127] = 0xf000_0000;
    let r = decrypt(&small(7), &exp, &small(3233)).unwrap();
    assert_eq!(r.limbs, small(367).limbs);
}

#[test]
fn rsa_round_trip_recovers_the_message() {
    // n = 61 * 53, e * d = 17 * 2753 = 1 mod 780
    let c = modexp(65, 17, 3233).unwrap();
    assert_eq!(c, 2790);
    assert_eq!(modexp(c, 2753, 3233), Some(65));
}

#[test]
fn rsa_round_trip_at_the_ends_of_the_range() {
    for m in [0u64, 1, 3232] {
        let c = modexp(m, 17, 3233).unwrap();
        assert_eq!(modexp(c, 2753, 3233), Some(m));
    }
}

#[test]
fn rsa_round_trip_on_a_multiple_of_a_prime_factor() {
    let c = modexp(61 * 7, 17, 3233).unwrap();
    assert_eq!(modexp(c, 2753, 3233), Some(61 * 7));
}

#[test]
fn full_size_private_exponent() {
    let d = uint(PRIVATE_EXPONENT).to_uint_array();
    let r = decrypt(&uint(BASE), &d, &uint(MODULUS)).unwrap();
    assert_eq!(r.limbs, uint(POWER).limbs);
}

#[test]
fn full_size_round_trip() {
    let n = uint(MODULUS);
    let d = uint(PRIVATE_EXPONENT).to_uint_array();
    let e = words(65537);
    let m = uint(BASE);
    let c = decrypt(&m, &e, &n).unwrap();
    assert_eq!(decrypt(&c, &d, &n).unwrap().limbs, m.limbs);
}

#[test]
fn multiplication_count_does_not_depend_on_the_exponent() {
    let n = small(3233);
    let (sparse_power, sparse) = decrypt_counting(&small(65), &words(1), &n);
    let (dense_power, dense) = decrypt_counting(&small(65), &[0xffff_ffff; 128], &n);
    assert_eq!(sparse, 5133);
    assert_eq!(dense, 5133);
    assert_eq!(MULTIPLICATIONS, 5133);
    assert_eq!(sparse_power.unwrap().limbs, small(65).limbs);
    // 65^(2^4096 - 1) mod 3233
    assert_eq!(dense_power.unwrap().limbs, small(609).limbs);
}

#[test]
fn multiplication_count_does_not_depend_on_the_operands() {
    let d = uint(PRIVATE_EXPONENT).to_uint_array();
    let (_, full) = decrypt_counting(&uint(BASE), &d, &uint(MODULUS));
    let (_, tiny) = decrypt_counting(&small(0), &words(2), &small(1));
    assert_eq!(full, MULTIPLICATIONS);
    assert_eq!(tiny, MULTIPLICATIONS);
}

#[test]
fn nothing_is_multiplied_where_nothing_is_computed() {
    assert_eq!(decrypt_counting(&small(5), &words(0), &small(7)).1, 0);
    assert_eq!(decrypt_counting(&small(5), &words(3), &small(8)).1, 0);
}

#[test]
fn base_above_the_modulus() {
    let r = decrypt(&uint(BASE_ABOVE_MODULUS), &words(65537), &uint(MODULUS)).unwrap();
    assert_eq!(r.limbs, uint(POWER_OF_BASE_ABOVE_MODULUS).limbs);
}
