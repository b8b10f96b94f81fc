//! The decisions of the command loop.
//!
//! A request is one opcode byte and a payload of a length that the opcode
//! fixes; the answer is nothing, one status byte or a signature. Reading and
//! writing the bytes is left to the caller: [`payload_len`] tells how many
//! bytes to read after an opcode, and [`respond`] gives the answer to write
//! back. The keys are only read.
//!
//! The device as a whole is a machine with two states. While it serves,
//! [`on_request`] answers requests. A fatal condition, handed to
//! [`on_fault`], makes it send one diagnostic byte and halt; a halted device
//! sends nothing more and never serves again.

use vstd::prelude::*;
use crate::msg::Message;
use crate::sign::{PrivateKey, PublicKey, signature_of, signature_verifies};

verus! {

/// Length of the digest in a request.
pub const DIGEST_LEN: usize = 32;

/// Length of a signature.
pub const SIGNATURE_LEN: usize = 512;

/// The status byte sent in place of a signature that could not be made.
pub const STATUS_ERROR: u8 = 0x45;

/// The status byte for a valid signature.
pub const STATUS_VALID: u8 = 0x01;

/// The status byte for an invalid signature.
pub const STATUS_INVALID: u8 = 0x00;

/// The key material of the device: the private key that signs and the
/// public key that verifies.
#[derive(Clone, Copy, Debug, PartialEq, Eq)]
pub struct KeyPair {
    pub private: PrivateKey,
    pub public: PublicKey,
}

/// What the device sends back.
#[derive(Clone, Copy, Debug, PartialEq, Eq)]
pub enum Response {
    /// No byte at all.
    Nothing,
    /// One status or diagnostic byte.
    Status(u8),
    /// The 512 bytes of a signature.
    Signature([u8; 512]),
}

impl View for Response {
    type V = Seq<u8>;

    /// The bytes that go over the link.
    open spec fn view(&self) -> Seq<u8> {
        match self {
            Response::Nothing => Seq::empty(),
            Response::Status(b) => seq![*b],
            Response::Signature(s) => s@,
        }
    }
}

impl Response {
    /// The number of bytes that go over the link.
    pub fn len(&self) -> (n: usize)
        ensures
            n == self@.len(),
    {
        match self {
            Response::Nothing => 0,
            Response::Status(_) => 1,
            Response::Signature(_) => SIGNATURE_LEN,
        }
    }

    /// Byte `i` of those that go over the link.
    pub fn byte(&self, i: usize) -> (b: u8)
        requires
            i < self@.len(),
        ensures
            b == self@[i as int],
    {
        match self {
            Response::Nothing => 0,
            Response::Status(b) => *b,
            Response::Signature(s) => s[i],
        }
    }
}

/// The number of payload bytes that follow an opcode.
pub open spec fn payload_len_of(opcode: u8) -> nat {
    if opcode == 0x00 {
        32
    } else if opcode == 0x01 {
        544
    } else {
        0
    }
}

/// The bytes of the answer to a request.
pub open spec fn response_of(opcode: u8, payload: Seq<u8>, salt: Seq<u8>, keys: KeyPair) -> Seq<u8> {
    if opcode == 0x00 {
        if payload.len() == 32 && (keys.private.d@ == 0 || keys.private.n@ % 2 == 1) {
            signature_of(payload, salt, keys.private.d@, keys.private.n@)
        } else {
            seq![0x45u8]
        }
    } else if opcode == 0x01 {
        if payload.len() == 544 && signature_verifies(
            payload.take(32),
            payload.skip(32),
            keys.public.e@,
            keys.public.n@,
        ) {
            seq![0x01u8]
        } else {
            seq![0x00u8]
        }
    } else {
        Seq::empty()
    }
}

/// Tells how many payload bytes to read after the opcode: 32 for a signing
/// request, 544 for a verification request, none for any other byte.
pub fn payload_len(opcode: u8) -> (n: usize)
    ensures
        n == payload_len_of(opcode),
        opcode > 3 ==> n == 0,
{
    match Message::try_from(opcode) {
        Ok(Message::Sign) => DIGEST_LEN,
        Ok(Message::Verify) => DIGEST_LEN + SIGNATURE_LEN,
        Ok(Message::GetOwner) => 0,
        Ok(Message::GetAddress) => 0,
        Err(_) => 0,
    }
}

/// Handles one request and returns the answer.
///
/// A signing request is answered with the 512-byte signature of the digest
/// under `salt`, or with the one status byte `E` where none can be made. A
/// verification request, a digest followed by a signature, is answered with
/// one byte, 1 for valid and 0 for invalid. The reserved commands and every
/// unknown opcode are answered with nothing.
pub fn respond(opcode: u8, payload: &[u8], salt: &[u8; 32], keys: &KeyPair) -> (out: Response)
    ensures
        out@ == response_of(opcode, payload@, salt@, *keys),
        opcode > 3 ==> out == Response::Nothing,
        opcode == 0x00 ==> out is Signature || out == Response::Status(0x45),
        opcode == 0x01 ==> out == Response::Status(0x01) || out == Response::Status(0x00),
{
    match Message::try_from(opcode) {
        Ok(Message::Sign) => {
            match keys.private.sign(payload, salt.as_slice()) {
                Ok(signature) => Response::Signature(signature),
                Err(_) => Response::Status(STATUS_ERROR),
            }
        },
        Ok(Message::Verify) => {
            let mut valid = false;
            if payload.len() == DIGEST_LEN + SIGNATURE_LEN {
                let digest = vstd::slice::slice_subrange(payload, 0, DIGEST_LEN);
                let signature = vstd::slice::slice_subrange(
                    payload,
                    DIGEST_LEN,
                    DIGEST_LEN + SIGNATURE_LEN,
                );
                proof {
                    assert(digest@ =~= payload@.take(32));
                    assert(signature@ =~= payload@.skip(32));
                }
                valid = keys.public.verify(digest, signature);
            }
            if valid {
                Response::Status(STATUS_VALID)
            } else {
                Response::Status(STATUS_INVALID)
            }
        },
        Ok(Message::GetOwner) => Response::Nothing,
        Ok(Message::GetAddress) => Response::Nothing,
        Err(_) => Response::Nothing,
    }
}

/// A condition that the device cannot recover from.
#[derive(Clone, Copy, Debug, PartialEq, Eq, Structural)]
pub enum Fatal {
    /// Memory could not be allocated.
    Allocation,
    /// The processor trapped.
    Trap,
    /// The program panicked.
    Panic,
}

impl Fatal {
    /// The diagnostic byte of the condition: `S`, `T` or `P`.
    pub open spec fn diagnostic_of(self) -> u8 {
        match self {
            Fatal::Allocation => 0x53,
            Fatal::Trap => 0x54,
            Fatal::Panic => 0x50,
        }
    }

    /// The diagnostic byte of the condition: `S`, `T` or `P`.
    pub fn diagnostic(self) -> (b: u8)
        ensures
            b == self.diagnostic_of(),
    {
        match self {
            Fatal::Allocation => 0x53,
            Fatal::Trap => 0x54,
            Fatal::Panic => 0x50,
        }
    }
}

/// The state of the device.
#[derive(Clone, Copy, Debug, PartialEq, Eq, Structural)]
pub enum DeviceState {
    /// The device answers requests.
    Serving,
    /// The device has met a fatal condition and does nothing more.
    Halted,
}

/// Answers a request in the given state: a serving device responds and goes
/// on serving, a halted device stays halted and silent.
pub fn on_request(
    state: DeviceState,
    opcode: u8,
    payload: &[u8],
    salt: &[u8; 32],
    keys: &KeyPair,
) -> (r: (DeviceState, Response))
    ensures
        r.0 == state,
        r.1@ == (if state == DeviceState::Serving {
            response_of(opcode, payload@, salt@, *keys)
        } else {
            Seq::empty()
        }),
        state == DeviceState::Halted ==> r.1 == Response::Nothing,
{
    match state {
        DeviceState::Serving => (DeviceState::Serving, respond(opcode, payload, salt, keys)),
        DeviceState::Halted => (DeviceState::Halted, Response::Nothing),
    }
}

/// Meets a fatal condition: a serving device sends the diagnostic byte and
/// halts, a halted device stays halted and silent.
pub fn on_fault(state: DeviceState, fatal: Fatal) -> (r: (DeviceState, Response))
    ensures
        r.0 == DeviceState::Halted,
        r.1 == (if state == DeviceState::Serving {
            Response::Status(fatal.diagnostic_of())
        } else {
            Response::Nothing
        }),
{
    match state {
        DeviceState::Serving => (DeviceState::Halted, Response::Status(fatal.diagnostic())),
        DeviceState::Halted => (DeviceState::Halted, Response::Nothing),
    }
}

} // verus!
