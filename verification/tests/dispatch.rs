use pss_signer::dispatch::{
    on_fault, on_request, payload_len, respond, DeviceState, Fatal, KeyPair, Response,
};
use pss_signer::msg::Message;
use pss_signer::sign::{PrivateKey, PublicKey};
use pss_signer::uint::U4096;

fn unhex(s: &str) -> Vec<u8> {
    let digits: Vec<u8> = s
        .bytes()
        .filter(|b| b.is_ascii_hexdigit())
        .map(|b| match b {
            b'0'..=b'9' => b - b'0',
            b'a'..=b'f' => b - b'a' + 10,
            _ => b - b'A' + 10,
        })
        .collect();
    digits.chunks(2).map(|p| p[0] * 16 + p[1]).collect()
}

fn uint(s: &str) -> U4096 {
    let bytes = unhex(s);
    let mut padded = [0u8; 512];
    padded[512 - bytes.len()..].copy_from_slice(&bytes);
    U4096::from_be_bytes(padded)
}

fn small(v: u64) -> U4096 {
    let mut limbs = [0u32; 128];
    limbs[0] = v as u32;
    limbs[1] = (v >> 32) as u32;
    U4096::from_uint_array(limbs)
}

fn keys() -> KeyPair {
    KeyPair {
        private: PrivateKey { n: uint(MODULUS), d: uint(PRIVATE_EXPONENT) },
        public: PublicKey { n: uint(MODULUS), e: small(65537) },
    }
}

fn signature() -> Response {
    let mut bytes = [0u8; 512];
    bytes.copy_from_slice(&unhex(SIGNATURE));
    Response::Signature(bytes)
}

fn bytes_of(response: &Response) -> Vec<u8> {
    (0..response.len()).map(|i| response.byte(i)).collect()
}

fn salt() -> [u8; 32] {
    let mut s = [0u8; 32];
    for (i, b) in s.iter_mut().enumerate() {
        *b = i as u8;
    }
    s
}

const MODULUS: &str = "b3bf127d72abb53a47f10e655d9b2dd0b3f14959e515e4c8723988034ece897e \
     6cc5f3632939b9b8481fdbc0d64687c04bd9c53c248cb8303416ba4f08dd9386 \
     9b737894a9f0158abb29fa6461ffadaf04863c49148805adc389df17efc87ced \
     3ab0432ed1c3bf2b08515ecde8dad149252ee3fa1dcf7aacc9e815482504c14f \
     16576c0e7d48c3dc50dfa18ee9ac68b7373bcdde652ddbd36ed599bdea5bdf46 \
     c4187eb0b8a950622281880c04c1ebdec3830cfb5c295c02693b6736083d574f \
     8f369a2172a9b6cd8fc7d4c491d566b9d0165316b043fc8d447c583e838a6995 \
     3c0016996473f9be37218cede8f6f9b5cd363edfbad2159aeb3c223bdedbbed9 \
     7c4d4034660b9f621ac386a83c1c771b06fd46e4d61e4b2743ff4c03c0932788 \
     58718c80187c8e3dca7ae6800cf3895ab0e3ddb85156acb32fff6a18ca49e5de \
     35c9888d98c6216f9dddf7e7d04bd01973e4b9dde72a9b3b6bf2e0da047f1c17 \
     f45c1f30b7c456291cb649d780a9b37b0f845993717f327d7e5f46ffaf76e522 \
     7e1f010c5ef45ec6ca53ed0f0bda09f3a10f022307ac2454c2e812d5e0a30ac9 \
     fa04800037013c0050c11ea66fe6d8150d8057d78223f836ba0fe4accfedf4fa \
     ec6a31034b3d3a4dffb832e83afe7a2ebdafa3a4e0e52cae9bf445590d5b8380 \
     aac95bd293697e9ab75cb4cabefd46ded3e8d1b60952186f7b1a4d14891080af";
const PRIVATE_EXPONENT: &str = "228b3f0f72e14303ff5d7969cbb28dfc850883134eae85786c53582b6292d8e3 \
     be1dd0e7a6bd9c4ea935ce32e23b4dcd8c063f1c8edda86c43267709c76765f9 \
     c198507d29a7a54c332a1f1ff9a17c8c9d2efb1904641bcb48400feaf6bf2e1b \
     1d63509607e439b2187822e329b41bf295bdcc3c7e4c28845a8d4ac1c1b3873f \
     1ec910503c8da66e89f0608929a963ba8a57e8f9abb24383ffd1f72903884281 \
     c41ffd01138c1e91ad95fd426a0ba6bbfa110e86a430a2a927f62da0b9b6a837 \
     f70b045617463c8686f25d96a57c40b0c727f331f2102ed22b6e463b45666d62 \
     2bd4cc83104625a203d063d8392475db15a42e332b2142dbb207ad809a14db39 \
     7864b6951f8f87f3278a29d32f482f4fff2772f2bd62f57c77c7874376f0c005 \
     b04192b75df32e1efb91355555cd8d7063f2361739edbec0cfecf46aec41e8fb \
     836b114dc54ca5d2811dcd88fb779d2aaf89178d847bc386c7d11faaf397faf3 \
     bf7f6ca1db6e507e41c70f54cd94ba82067f09d01c1f109bc65b1982998b1934 \
     9f85e39bdf317db17ec8dd33e148f03db189a5504a41813d98a93326302cd5fa \
     30722fbd51b6dcecef5f79535a3885a4f0173177a08bc806e41dccf6ac59338d \
     97c972f9c2c69ddfc0a03261c6425a999a4503fa7fcfa2a007a4352a6dafe4c4 \
     cf9f716dd9774c4040badc269f73bf6250eb44f148a3d43bcddb8bda8bcdfb79";
const SIGNATURE: &str = "0bbdeaa108eb6318d8f15f1f3ebffeb6db7c3076747fef3cee5a1716f9503cad \
     3ea69fbc8330a516153a45b04e9442c994a553516dc3779bb4a7d2050d0161b4 \
     7f7cf1df817624906103f837e1c03bd6f20da68d80c9966b3b2d95ea1d119d1d \
     b1b90b14b7eaeaa6d5ac31ad482f612b0adf96db1f5dcc1f563e82baca7c1e32 \
     2790c57a538970e27bb05f3a165013cf991bea12636aeb3b6db2608c8bf6e200 \
     4a8613c7bf2e3576e57a5e8261e7a4bd8f98abee55aedb0d2f5708f01cd332a6 \
     fa68ced5706720f8f5215e93d1cfa902904302f826e30a3d7df06e83d0ea3847 \
     7211ebfac97e8a084e014858c645f7f395b04a9d4c6f8d18df8b6fee6f00ec39 \
     6031f6620d99c70cd36c2b92a9c535604bdddf885c385f45e1710e588ae75e36 \
     7b79b4f87bf02b9245b5e27eef6297f19714c5e27b9f84999859cdd1670769c3 \
     72534c2b72d949b820fe601b52484e8bc8566de81e10a4186725cc7eb8c1580d \
     2638363dbdfa1ff0ef9f9362a9f25c83fd4b957a374353f338184036982b3f6b \
     4e5875f39bf09d9fe0baf7ae131330dff849a560b49433a35a7dd9fd996f6ac8 \
     67f033ba16eb3382de4fd496b1a47473103fb73bc81b06789dadb4121dd464d7 \
     a75766c9f891f39fab7d4ee2dc21ff9816862ec4ca3d89b8cc89562d5366cfde \
     b5bdfc5d7f5d3e2ecd5d7a15e8b4d04d81e2fc1c151ab41e5e4667115bf211a8";

#[test]
fn opcodes_decode_to_commands() {
    assert_eq!(Message::try_from(0x00), Ok(Message::Sign));
    assert_eq!(Message::try_from(0x01), Ok(Message::Verify));
    assert_eq!(Message::try_from(0x02), Ok(Message::GetOwner));
    assert_eq!(Message::try_from(0x03), Ok(Message::GetAddress));
}

#[test]
fn other_bytes_decode_to_nothing() {
    assert_eq!(Message::try_from(0x04), Err(()));
    assert_eq!(Message::try_from(0x45), Err(()));
    assert_eq!(Message::try_from(0xff), Err(()));
}

#[test]
fn commands_encode_to_their_opcodes() {
    for opcode in 0u8..4 {
        assert_eq!(Message::try_from(opcode).unwrap().to_u8(), opcode);
    }
}

#[test]
fn payload_lengths() {
    assert_eq!(payload_len(0x00), 32);
    assert_eq!(payload_len(0x01), 544);
    assert_eq!(payload_len(0x02), 0);
    assert_eq!(payload_len(0x03), 0);
    assert_eq!(payload_len(0x04), 0);
    assert_eq!(payload_len(0xff), 0);
}

#[test]
fn unknown_opcode_is_ignored() {
    let keys = keys();
    let before = keys;
    assert_eq!(payload_len(0xff), 0);
    let out = respond(0xff, &[], &salt(), &keys);
    assert_eq!(out, Response::Nothing);
    assert_eq!(out.len(), 0);
    assert_eq!(keys, before);
}

#[test]
fn unknown_opcode_is_ignored_whatever_follows() {
    let keys = keys();
    assert_eq!(respond(0x80, &[1, 2, 3], &salt(), &keys), Response::Nothing);
    assert_eq!(respond(0x04, &[0; 32], &salt(), &keys), Response::Nothing);
}

#[test]
fn reserved_commands_answer_nothing() {
    let keys = keys();
    assert_eq!(respond(0x02, &[], &salt(), &keys), Response::Nothing);
    assert_eq!(respond(0x03, &[], &salt(), &keys), Response::Nothing);
}

#[test]
fn sign_request_is_answered_with_the_signature() {
    let out = respond(0x00, &[0x11; 32], &salt(), &keys());
    assert_eq!(out.len(), 512);
    assert_eq!(out, signature());
    assert_eq!(bytes_of(&out), unhex(SIGNATURE));
}

#[test]
fn sign_request_with_a_bad_key_is_answered_with_e() {
    let mut keys = keys();
    keys.private.n = small(3232);
    let out = respond(0x00, &[0x11; 32], &salt(), &keys);
    assert_eq!(out, Response::Status(b'E'));
    assert_eq!(bytes_of(&out), vec![b'E']);
}

#[test]
fn sign_request_with_a_short_payload_is_answered_with_e() {
    assert_eq!(respond(0x00, &[0x11; 31], &salt(), &keys()), Response::Status(b'E'));
}

#[test]
fn verify_request_with_a_valid_signature() {
    let mut payload = vec![0x11u8; 32];
    payload.extend_from_slice(&unhex(SIGNATURE));
    assert_eq!(respond(0x01, &payload, &salt(), &keys()), Response::Status(0x01));
}

#[test]
fn verify_request_with_another_digest() {
    let mut payload = vec![0x12u8; 32];
    payload.extend_from_slice(&unhex(SIGNATURE));
    assert_eq!(respond(0x01, &payload, &salt(), &keys()), Response::Status(0x00));
}

#[test]
fn verify_request_with_a_short_payload() {
    assert_eq!(respond(0x01, &[0; 543], &salt(), &keys()), Response::Status(0x00));
}

#[test]
fn response_bytes() {
    assert_eq!(bytes_of(&Response::Nothing), Vec::<u8>::new());
    assert_eq!(bytes_of(&Response::Status(7)), vec![7]);
    assert_eq!(bytes_of(&signature()), unhex(SIGNATURE));
}

#[test]
fn diagnostic_bytes() {
    assert_eq!(Fatal::Allocation.diagnostic(), b'S');
    assert_eq!(Fatal::Trap.diagnostic(), b'T');
    assert_eq!(Fatal::Panic.diagnostic(), b'P');
}

#[test]
fn serving_device_answers_and_goes_on_serving() {
    let (state, out) = on_request(DeviceState::Serving, 0x00, &[0x11; 32], &salt(), &keys());
    assert_eq!(state, DeviceState::Serving);
    assert_eq!(out, signature());
    let (state, out) = on_request(state, 0xff, &[], &salt(), &keys());
    assert_eq!(state, DeviceState::Serving);
    assert_eq!(out, Response::Nothing);
}

#[test]
fn fault_sends_the_diagnostic_and_halts() {
    assert_eq!(
        on_fault(DeviceState::Serving, Fatal::Allocation),
        (DeviceState::Halted, Response::Status(b'S'))
    );
    assert_eq!(
        on_fault(DeviceState::Serving, Fatal::Trap),
        (DeviceState::Halted, Response::Status(b'T'))
    );
    assert_eq!(
        on_fault(DeviceState::Serving, Fatal::Panic),
        (DeviceState::Halted, Response::Status(b'P'))
    );
}

#[test]
fn halted_device_stays_halted_and_silent() {
    let (state, out) = on_request(DeviceState::Halted, 0x00, &[0x11; 32], &salt(), &keys());
    assert_eq!(state, DeviceState::Halted);
    assert_eq!(out, Response::Nothing);
    assert_eq!(
        on_fault(DeviceState::Halted, Fatal::Panic),
        (DeviceState::Halted, Response::Nothing)
    );
}
