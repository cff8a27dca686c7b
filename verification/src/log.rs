//! Human-readable names for packets, for the relay's console output.

use vstd::prelude::*;

use crate::bridge::Packet;

verus! {

/// One decimal digit as a character.
pub open spec fn dec_digit(d: u8) -> char {
    if d == 0 {
        '0'
    } else if d == 1 {
        '1'
    } else if d == 2 {
        '2'
    } else if d == 3 {
        '3'
    } else if d == 4 {
        '4'
    } else if d == 5 {
        '5'
    } else if d == 6 {
        '6'
    } else if d == 7 {
        '7'
    } else if d == 8 {
        '8'
    } else {
        '9'
    }
}

/// A byte rendered in decimal, without leading zeros.
pub open spec fn dec_u8(n: u8) -> Seq<char> {
    if n < 10 {
        seq![dec_digit(n)]
    } else if n < 100 {
        seq![dec_digit(n / 10), dec_digit(n % 10)]
    } else {
        seq![dec_digit(n / 100), dec_digit((n / 10) % 10), dec_digit(n % 10)]
    }
}

/// Relies on `format!` rendering a `u8` as plain decimal digits.
#[verifier::external_body]
fn fmt_u8(b: u8) -> (r: String)
    ensures
        r@ == dec_u8(b),
{
    format!("{}", b)
}

/// Relies on `format!` rendering two `u8`s as plain decimal digits
/// inside a fixed pattern.
#[verifier::external_body]
fn fmt_code(b1: u8, b3: u8) -> (r: String)
    ensures
        r@ == "53-"@ + dec_u8(b1) + "-0-"@ + dec_u8(b3),
{
    format!("53-{}-0-{}", b1, b3)
}

/// Relies on `format!` rendering two `u8`s as plain decimal digits
/// inside a fixed pattern (with the stray leading space some log lines
/// carry).
#[verifier::external_body]
fn fmt_code_spaced(b1: u8, b3: u8) -> (r: String)
    ensures
        r@ == " 53-"@ + dec_u8(b1) + "-0-"@ + dec_u8(b3),
{
    format!(" 53-{}-0-{}", b1, b3)
}

/// The name `packet_name` reports for a payload.
pub open spec fn packet_name_spec(data: Seq<u8>) -> Seq<char> {
    if data.len() == 0 {
        "<Empty packet>"@
    } else if data[0] != 83 {
        if data[0] == 0 {
            "InternalPing"@
        } else if data[0] == 3 {
            "ConnectedPong"@
        } else if data[0] == 4 {
            "ConnectionRequest"@
        } else if data[0] == 14 {
            "ConnectionRequestAccepted"@
        } else if data[0] == 17 {
            "NewIncomingConnection"@
        } else if data[0] == 19 {
            "DisconnectNotification"@
        } else if data[0] == 36 {
            "ReplicaManagerConstruction"@
        } else if data[0] == 37 {
            "ReplicaManagerDestruction"@
        } else if data[0] == 39 {
            "ReplicaManagerSerialize"@
        } else {
            dec_u8(data[0])
        }
    } else if data.len() < 8 {
        "LU packet too short!"@
    } else if data[1] == 0 {
        if data[3] == 0 {
            "Handshake"@
        } else {
            "53-"@ + dec_u8(data[1]) + "-0-"@ + dec_u8(data[3])
        }
    } else if data[1] == 1 {
        if data[3] == 0 {
            "LoginRequest"@
        } else {
            " 53-"@ + dec_u8(data[1]) + "-0-"@ + dec_u8(data[3])
        }
    } else if data[1] == 2 {
        if data[3] == 1 {
            "GeneralChatMessage"@
        } else {
            " 53-"@ + dec_u8(data[1]) + "-0-"@ + dec_u8(data[3])
        }
    } else if data[1] == 4 {
        if data[3] == 1 {
            "SessionInfo"@
        } else if data[3] == 2 {
            "CharacterListRequest"@
        } else if data[3] == 4 {
            "EnterWorld"@
        } else if data[3] == 5 {
            "GameMessage"@
        } else if data[3] == 15 {
            "Routing"@
        } else if data[3] == 19 {
            "LoadComplete"@
        } else if data[3] == 22 {
            "PositionUpdate"@
        } else if data[3] == 23 {
            "Mail"@
        } else if data[3] == 25 {
            "StringCheck"@
        } else {
            "53-"@ + dec_u8(data[1]) + "-0-"@ + dec_u8(data[3])
        }
    } else if data[1] == 5 {
        if data[3] == 0 {
            "LoginResponse"@
        } else if data[3] == 2 {
            "LoadWorld"@
        } else if data[3] == 4 {
            "CharacterData"@
        } else if data[3] == 6 {
            "CharacterList"@
        } else if data[3] == 12 {
            "GameMessage"@
        } else if data[3] == 14 {
            "GeneralChatMessage"@
        } else if data[3] == 49 {
            "Mail"@
        } else if data[3] == 59 {
            "Moderation"@
        } else {
            "53-"@ + dec_u8(data[1]) + "-0-"@ + dec_u8(data[3])
        }
    } else {
        "53-"@ + dec_u8(data[1]) + "-0-"@ + dec_u8(data[3])
    }
}

/// The display name of a packet, from the id bytes at the front of its
/// payload.
pub fn packet_name(packet: &Packet) -> (r: String)
    ensures
        r@ == packet_name_spec(packet.data@),
{
    let data = &packet.data;
    let len = data.len();
    if len == 0 {
        "<Empty packet>".to_owned()
    } else if data[0] != 83 {
        if data[0] == 0 {
            "InternalPing".to_owned()
        } else if data[0] == 3 {
            "ConnectedPong".to_owned()
        } else if data[0] == 4 {
            "ConnectionRequest".to_owned()
        } else if data[0] == 14 {
            "ConnectionRequestAccepted".to_owned()
        } else if data[0] == 17 {
            "NewIncomingConnection".to_owned()
        } else if data[0] == 19 {
            "DisconnectNotification".to_owned()
        } else if data[0] == 36 {
            "ReplicaManagerConstruction".to_owned()
        } else if data[0] == 37 {
            "ReplicaManagerDestruction".to_owned()
        } else if data[0] == 39 {
            "ReplicaManagerSerialize".to_owned()
        } else {
            fmt_u8(data[0])
        }
    } else if len < 8 {
        "LU packet too short!".to_owned()
    } else if data[1] == 0 {
        if data[3] == 0 {
            "Handshake".to_owned()
        } else {
            fmt_code(data[1], data[3])
        }
    } else if data[1] == 1 {
        if data[3] == 0 {
            "LoginRequest".to_owned()
        } else {
            fmt_code_spaced(data[1], data[3])
        }
    } else if data[1] == 2 {
        if data[3] == 1 {
            "GeneralChatMessage".to_owned()
        } else {
            fmt_code_spaced(data[1], data[3])
        }
    } else if data[1] == 4 {
        if data[3] == 1 {
            "SessionInfo".to_owned()
        } else if data[3] == 2 {
            "CharacterListRequest".to_owned()
        } else if data[3] == 4 {
            "EnterWorld".to_owned()
        } else if data[3] == 5 {
            "GameMessage".to_owned()
        } else if data[3] == 15 {
            "Routing".to_owned()
        } else if data[3] == 19 {
            "LoadComplete".to_owned()
        } else if data[3] == 22 {
            "PositionUpdate".to_owned()
        } else if data[3] == 23 {
            "Mail".to_owned()
        } else if data[3] == 25 {
            "StringCheck".to_owned()
        } else {
            fmt_code(data[1], data[3])
        }
    } else if data[1] == 5 {
        if data[3] == 0 {
            "LoginResponse".to_owned()
        } else if data[3] == 2 {
            "LoadWorld".to_owned()
        } else if data[3] == 4 {
            "CharacterData".to_owned()
        } else if data[3] == 6 {
            "CharacterList".to_owned()
        } else if data[3] == 12 {
            "GameMessage".to_owned()
        } else if data[3] == 14 {
            "GeneralChatMessage".to_owned()
        } else if data[3] == 49 {
            "Mail".to_owned()
        } else if data[3] == 59 {
            "Moderation".to_owned()
        } else {
            fmt_code(data[1], data[3])
        }
    } else {
        fmt_code(data[1], data[3])
    }
}

} // verus!
