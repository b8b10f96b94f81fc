use pss_signer::pss::{emsa_pss_encode, emsa_pss_verify, left_pad, EncodingError};

fn unhex(s: &str) -> Vec<u8> {
    let digits: Vec<u8> = s
        .bytes()
        .filter(|b| b.is_ascii_hexdigit())
        .map(|b| match b {
            b'0'..=b'9' => b - b'0',
            b'a'..=b'f' => b - b'a' + 10,
            _ => b - b'A' + 10,
        })
        .collect();
    digits.chunks(2).map(|p| p[0] * 16 + p[1]).collect()
}

fn long_salt() -> Vec<u8> {
    (0..478u32).map(|i| ((i * 7 + 1) % 256) as u8).collect()
}

const ENCODED_ZERO_DIGEST_ZERO_SALT: &str = "7512ee0018fd19d519d51f3a817cbf8abc8732586fa8faf13bed5c0b610b975b \
     1f36970128e6b7abeecb99a4af3f56c8fa7bb9829f2f77470b49d10c636636dd \
     d2695f9620deb011c89a821ad7d1457db5e7cc6191b680b25716b77b92b3286a \
     1010ebb974b71c529f040cfe04b10ee7ce334ff63148dc50aca7f3ec044c6b22 \
     175fe4cbfbe2a4b6ab1014626534f61fbee3a64a011f95d4285e83b1d45e6390 \
     4d831d1f95bd2843f539ad65515e62fa45771d889c8efb90d0b8067177edaf03 \
     78ceb640c28e7716e1b3f486b5cd4567f1b41f4a00cd2a3dae164df2db3a4c54 \
     1f270adce42b684b7a5b3fa8be0e38d4a1132f69982089638fdce86af0c2e340 \
     fff0bb31378edf4353a00bb74df74ea4a12f1af5c9e2a510cb08e5fd929824c9 \
     670c84b48a7f453914fa4e1bd8178c75aa55080f905f5dab8d4d57ad327bf3c7 \
     4a6dd2306aa369abf95d677c4be2c6920c5ec3674dd99f23f1e83a0a9ef4aed8 \
     204902c38c7b8c279fc5e1c74bdcbd5d4ffd9f4c28c3c884387a8c7c9611d2dd \
     bf76dc94d1dfcca75fab83a81d89cfa13b37b7d1cfb503cfe15f9f018b4a2645 \
     4f2b52585cb1235a937a78dbef175d1ed1c36837a4add27d280abdc67f5f4452 \
     e34d0a8ec8b724d0eedad4d15bb7b5c10a821f7bf720ab938a08d3f722e1a983 \
     4a709ba2534ebe3ee1397fd4f7bd288b2acc1d20a08d6c862dcd99b6f04400bc";
const ENCODED_EMPTY_SALT: &str = "3965a3f5891d0f6091fdfd3b81b045cdaf014dd3fa505ad5d419b924daf4cf44 \
     5b67e17bf36e17e8f45b30ae4e1ab3b86045e52625a977874e07e02eb1c1c7e4 \
     c7b0e2be8aec28e0243ad4ee173fb8606c7029b44b5b9680f884f2a9856d29f0 \
     b72fb5c24735a3b39375278be2402edfdef8ffb746ce7f4cbb7b21437f40017a \
     4781c18d080b30ba00d2d103135be42400f81151620437afe641d16c4f8d7204 \
     98e1ec2defca49b1d160c01ede16e0c22c1811ab56c05dbd88af9dd39cf40145 \
     35e33aee518a0014fecfae2fda8b9bfda47191b063f6ed13c1a939b5c089087e \
     f34f9e9e19f445ee3787a52ddc3df5a4b2bf5b849509ae5065a3776fb152f7d4 \
     61a3570261bc441264447368f4b37c345bd78061b4ddb3afb0bd7fc7e6004f5f \
     661fc58575a76c4dee5db03cd5d680369953407a28e1c6b6034b7a6a71745adb \
     bd08c490247665fbc3fbad22e2e20cb79815115a11dc2e4778df0aa8f2c3aa7b \
     ca65cf9c6a7383e012a6ef85b38d5875df2d2a244681f9f791e2926ac7e19c91 \
     3bf178ce33e46ed0dc087c023f3b109fa1c5b45f48502153eec178defdca3fa4 \
     eb34c785029603d694864937d21b4dec59836c40664a71a3e14c1a437b5af86e \
     e25edf62b2a399c55097eb3822f0f0229e1a920059ab9c00e1264791eed0f6f4 \
     b32977b259a87e6f264a88303ce62961dcac4902c739b89cf9c16bcc955eb6bc";
const ENCODED_LONGEST_SALT: &str = "3b460024fbeede90574c3dbb9ee4c499c1162f63f2d71078ef85b030f671b1c3 \
     06a88a7d084024b9c794fce0c9195d7080e804d9477c089b2874ed7620f36b87 \
     fcd832ead8c0c1534b6639bee8de62934e9fc3fb42900871745cf60cb42bfc5b \
     1df3edf3df10bf796394a689148bb2141ec01ad310b17d2f7bd3aa77d9fe6a3e \
     5665549db7346066e228b73ef2436cd3e689bd724deee80e66aff1898fbf0ec9 \
     825f2fd2f916df2b4a40559074be5a8563df0196d1b7b74fbf4831c79b78c2ae \
     ea885f2ac3fcf07de02b13e847d39427d53449f17e9fa77176dd7e151ec6a1d8 \
     8ff09d43ec7cd9899934d348ce75a75182a9332bf3586c8acbbc436c456d8e12 \
     2c64f80b771babee68402b416443a2cc2c661dd4a1cd60ab75d5ecac931ee217 \
     be14e2b2e5e2652a277fa758636a7bfb91a30b70ae4d7c3e6c1cdcc603280922 \
     6cdaeede922b5b9856f8b749104505234c19093a558c873bcf53ad01cf43103a \
     656f5cc56ba9b75539842cd38ad97d185eed7d76bb11a4ed33b1f12952383df2 \
     ded4b31cdb135ab3c54dcf4717ba346191a78289d0090e3c90d488cb08e7cb92 \
     7b3ff42e172b70c850eb7c2c6bd1da9ed4fcff830a9066f81cf88e81a66fdc97 \
     65db39bf4bb3c1bddec5f276370d8528fc25aac67f0efa05f2fc436cc757184a \
     777b94ec021d6e646a4ef5f194e55488e92a9cbb8aa619d93976a4991c52d7bc";

#[test]
fn encode_zero_digest_with_zero_salt() {
    let em = emsa_pss_encode(&[0; 32], &[0; 32]).unwrap();
    assert_eq!(em.to_vec(), unhex(ENCODED_ZERO_DIGEST_ZERO_SALT));
}

#[test]
fn encode_with_an_empty_salt() {
    let digest: Vec<u8> = (0u8..32).collect();
    let em = emsa_pss_encode(&digest, &[]).unwrap();
    assert_eq!(em.to_vec(), unhex(ENCODED_EMPTY_SALT));
}

#[test]
fn encode_has_the_trailer_and_a_clear_top_bit() {
    for fill in [0u8, 0x5a, 0xff] {
        let em = emsa_pss_encode(&[fill; 32], &[fill; 32]).unwrap();
        assert_eq!(em.len(), 512);
        assert_eq!(em[511], 0xbc);
        assert_eq!(em[0] & 0x80, 0);
    }
}

#[test]
fn encode_accepts_the_longest_salt() {
    let em = emsa_pss_encode(&[0xff; 32], &long_salt()).unwrap();
    assert_eq!(em.to_vec(), unhex(ENCODED_LONGEST_SALT));
}

#[test]
fn encode_rejects_a_salt_one_byte_too_long() {
    assert_eq!(emsa_pss_encode(&[0; 32], &[0; 479]), Err(EncodingError::SaltTooLong));
    assert_eq!(emsa_pss_encode(&[0; 32], &[0; 1000]), Err(EncodingError::SaltTooLong));
}

#[test]
fn encode_rejects_a_digest_of_another_length() {
    assert_eq!(emsa_pss_encode(&[0; 31], &[0; 32]), Err(EncodingError::DigestLength));
    assert_eq!(emsa_pss_encode(&[0; 33], &[0; 32]), Err(EncodingError::DigestLength));
    assert_eq!(emsa_pss_encode(&[], &[]), Err(EncodingError::DigestLength));
}

#[test]
fn encode_reports_the_digest_before_the_salt() {
    assert_eq!(emsa_pss_encode(&[0; 20], &[0; 479]), Err(EncodingError::DigestLength));
}

#[test]
fn encode_depends_on_the_salt() {
    let a = emsa_pss_encode(&[1; 32], &[2; 32]).unwrap();
    let b = emsa_pss_encode(&[1; 32], &[3; 32]).unwrap();
    assert_ne!(a, b);
}

#[test]
fn verify_accepts_what_encode_made() {
    let em = emsa_pss_encode(&[7; 32], &[9; 32]).unwrap();
    assert!(emsa_pss_verify(&[7; 32], &em));
}

#[test]
fn verify_accepts_every_salt_length() {
    let digest = [0xffu8; 32];
    for salt in [Vec::new(), vec![0u8; 1], vec![1u8; 20], long_salt()] {
        let em = emsa_pss_encode(&digest, &salt).unwrap();
        assert!(emsa_pss_verify(&digest, &em), "salt of {} bytes", salt.len());
    }
}

#[test]
fn verify_rejects_another_digest() {
    let em = emsa_pss_encode(&[7; 32], &[9; 32]).unwrap();
    assert!(!emsa_pss_verify(&[8; 32], &em));
}

#[test]
fn verify_rejects_a_digest_of_another_length() {
    let em = emsa_pss_encode(&[7; 32], &[9; 32]).unwrap();
    assert!(!emsa_pss_verify(&[7; 31], &em));
}

#[test]
fn verify_rejects_a_wrong_trailer() {
    let mut em = emsa_pss_encode(&[7; 32], &[9; 32]).unwrap();
    em[511] = 0xbd;
    assert!(!emsa_pss_verify(&[7; 32], &em));
}

#[test]
fn verify_rejects_a_set_top_bit() {
    let mut em = emsa_pss_encode(&[7; 32], &[9; 32]).unwrap();
    em[0] |= 0x80;
    assert!(!emsa_pss_verify(&[7; 32], &em));
}

#[test]
fn verify_rejects_a_changed_byte_anywhere() {
    let em = emsa_pss_encode(&[7; 32], &[9; 32]).unwrap();
    for at in [0usize, 1, 200, 445, 446, 447, 478, 479, 500, 510] {
        let mut changed = em;
        changed[at] ^= 0x01;
        assert!(!emsa_pss_verify(&[7; 32], &changed), "byte {at}");
    }
}

#[test]
fn verify_rejects_an_all_zero_message() {
    assert!(!emsa_pss_verify(&[0; 32], &[0; 512]));
}

#[test]
fn left_pad_of_one_byte() {
    let out = left_pad(&[0x01]);
    assert_eq!(out.len(), 512);
    assert!(out[..511].iter().all(|b| *b == 0));
    assert_eq!(out[511], 0x01);
}

#[test]
fn left_pad_of_nothing_is_all_zero() {
    assert_eq!(left_pad(&[]), [0u8; 512]);
}

#[test]
fn left_pad_keeps_a_full_length_input() {
    let input: Vec<u8> = (0..512u32).map(|i| (i % 251) as u8).collect();
    assert_eq!(left_pad(&input).to_vec(), input);
}

#[test]
fn left_pad_keeps_the_order_of_the_bytes() {
    let out = left_pad(&[0xaa, 0x00, 0xbb]);
    assert_eq!(&out[509..], &[0xaa, 0x00, 0xbb]);
    assert!(out[..509].iter().all(|b| *b == 0));
}
