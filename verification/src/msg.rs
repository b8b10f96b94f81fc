//! The commands of the protocol, each named by one opcode byte.

use vstd::prelude::*;
use vstd::std_specs::convert::TryFromSpecImpl;

verus! {

/// A command, as decoded from the opcode byte that starts a request.
#[derive(Clone, Copy, Debug, PartialEq, Eq, Structural)]
pub enum Message {
    /// Opcode `0x00`: sign a digest.
    Sign,
    /// Opcode `0x01`: check a signature.
    Verify,
    /// Opcode `0x02`: reserved.
    GetOwner,
    /// Opcode `0x03`: reserved.
    GetAddress,
}

impl Message {
    /// The opcode byte of the command.
    pub open spec fn opcode(self) -> u8 {
        match self {
            Message::Sign => 0x00,
            Message::Verify => 0x01,
            Message::GetOwner => 0x02,
            Message::GetAddress => 0x03,
        }
    }

    /// The command that an opcode byte names, if it names one.
    pub open spec fn decode(v: u8) -> Result<Message, ()> {
        if v == 0x00 {
            Ok(Message::Sign)
        } else if v == 0x01 {
            Ok(Message::Verify)
        } else if v == 0x02 {
            Ok(Message::GetOwner)
        } else if v == 0x03 {
            Ok(Message::GetAddress)
        } else {
            Err(())
        }
    }

    /// The opcode byte of the command.
    pub fn to_u8(self) -> (v: u8)
        ensures
            v == self.opcode(),
            Message::decode(v) == Ok::<Message, ()>(self),
    {
        match self {
            Message::Sign => 0x00,
            Message::Verify => 0x01,
            Message::GetOwner => 0x02,
            Message::GetAddress => 0x03,
        }
    }
}

impl TryFrom<u8> for Message {
    type Error = ();

    /// Decodes an opcode byte. The bytes `0x00` to `0x03` name a command;
    /// every other byte is an error.
    fn try_from(v: u8) -> (r: Result<Message, ()>) {
        if v == 0x00 {
            Ok(Message::Sign)
        } else if v == 0x01 {
            Ok(Message::Verify)
        } else if v == 0x02 {
            Ok(Message::GetOwner)
        } else if v == 0x03 {
            Ok(Message::GetAddress)
        } else {
            Err(())
        }
    }
}

impl TryFromSpecImpl<u8> for Message {
    open spec fn obeys_try_from_spec() -> bool {
        true
    }

    open spec fn try_from_spec(v: u8) -> Result<Message, ()> {
        Message::decode(v)
    }
}

/// Decoding is total on bytes and exact on commands: a byte decodes to a
/// command exactly when it is at most 3, and to the command with that
/// opcode.
pub proof fn lemma_decode_opcode(v: u8)
    ensures
        Message::decode(v) is Ok <==> v <= 3,
        Message::decode(v) matches Ok(m) ==> m.opcode() == v,
{
}

} // verus!
