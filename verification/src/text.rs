//! Text helpers: decimal numbers, UTF-8 lengths, the names shown in chat,
//! and the errors that are reported to clients.
use crate::proto::proto_all::Error;
use vstd::prelude::*;
use vstd::utf8::encode_utf8;

verus! {

/// The decimal digit `d` as a character.
pub open spec fn digit_char(d: nat) -> char {
    (d + 48) as char
}

/// The decimal representation of `n`, without leading zeros.
pub open spec fn decimal(n: nat) -> Seq<char>
    decreases n,
{
    if n < 10 {
        seq![digit_char(n)]
    } else {
        decimal(n / 10).push(digit_char(n % 10))
    }
}

/// The number of bytes of the UTF-8 encoding of `s`.
pub open spec fn utf8_len(s: Seq<char>) -> nat {
    encode_utf8(s).len()
}

/// The decimal digit `d` as a one-character string.
fn digit_string(d: u32) -> (s: String)
    requires
        d < 10,
    ensures
        s@ == seq![digit_char(d as nat)],
{
    match d {
        0 => {
            proof {
                reveal_strlit("0");
            }
            "0".to_owned()
        },
        1 => {
            proof {
                reveal_strlit("1");
            }
            "1".to_owned()
        },
        2 => {
            proof {
                reveal_strlit("2");
            }
            "2".to_owned()
        },
        3 => {
            proof {
                reveal_strlit("3");
            }
            "3".to_owned()
        },
        4 => {
            proof {
                reveal_strlit("4");
            }
            "4".to_owned()
        },
        5 => {
            proof {
                reveal_strlit("5");
            }
            "5".to_owned()
        },
        6 => {
            proof {
                reveal_strlit("6");
            }
            "6".to_owned()
        },
        7 => {
            proof {
                reveal_strlit("7");
            }
            "7".to_owned()
        },
        8 => {
            proof {
                reveal_strlit("8");
            }
            "8".to_owned()
        },
        _ => {
            proof {
                reveal_strlit("9");
            }
            "9".to_owned()
        },
    }
}

/// The decimal representation of `n`, as `Display` prints it.
pub fn u32_to_string(n: u32) -> (s: String)
    ensures
        s@ == decimal(n as nat),
    decreases n,
{
    if n < 10 {
        digit_string(n)
    } else {
        let mut s = u32_to_string(n / 10);
        let last = digit_string(n % 10);
        s.append(last.as_str());
        s
    }
}

/// The name under which a chat line of user `id` is shown: `(id) name`.
pub open spec fn tagged_name(id: u32, name: Seq<char>) -> Seq<char> {
    "("@ + decimal(id as nat) + ") "@ + name
}

/// Builds `(id) name`.
pub fn tag_name(id: u32, name: &String) -> (s: String)
    ensures
        s@ == tagged_name(id, name@),
{
    let mut s = "(".to_owned();
    let digits = u32_to_string(id);
    s.append(digits.as_str());
    s.append(") ");
    s.append(name.as_str());
    s
}

/// The characters that a user or room name may not hold.
pub open spec fn is_forbidden_char(c: char) -> bool {
    c == '<' || c == '>' || c == '+' || c == '&' || c == '%' || c == '='
}

/// A name is refused when its UTF-8 encoding is shorter than three bytes or
/// longer than `len` bytes, or when it holds a forbidden character.
pub open spec fn name_is_incorrect(name: Seq<char>, len: nat) -> bool {
    utf8_len(name) < 3 || utf8_len(name) > len || exists|i: int|
        0 <= i < name.len() && #[trigger] is_forbidden_char(name[i])
}

/// The name rule in full: a name is refused exactly when its UTF-8 encoding
/// has fewer than three bytes or more than `len`, or when it holds one of
/// `< > + & % =`.
pub proof fn lemma_name_rule(name: Seq<char>, len: nat)
    ensures
        name_is_incorrect(name, len) <==> (encode_utf8(name).len() < 3 || encode_utf8(name).len()
            > len || exists|i: int|
            0 <= i < name.len() && (name[i] == '<' || name[i] == '>' || name[i] == '+' || name[i]
                == '&' || name[i] == '%' || name[i] == '=')),
{
    if exists|i: int|
        0 <= i < name.len() && (name[i] == '<' || name[i] == '>' || name[i] == '+' || name[i]
            == '&' || name[i] == '%' || name[i] == '=') {
        let i = choose|i: int|
            0 <= i < name.len() && (name[i] == '<' || name[i] == '>' || name[i] == '+' || name[i]
                == '&' || name[i] == '%' || name[i] == '=');
        assert(is_forbidden_char(name[i]));
    }
}

/// The refusals that the lobbies answer with an `Error` message.
#[derive(Clone, Copy, Debug, PartialEq, Eq, Structural)]
pub enum Refusal {
    ServerFull,
    UnsuitableUsername,
    RoomLimit,
    UnsuitableRoomName,
    RoomFull,
    WrongPassword,
    RoomNotFound,
}

/// The title of the error sent for a refusal.
pub open spec fn refusal_title(r: Refusal) -> Seq<char> {
    match r {
        Refusal::ServerFull => "Server is full"@,
        Refusal::UnsuitableUsername => "Username is not suitable."@,
        Refusal::RoomLimit => "Max room count exceed!"@,
        Refusal::UnsuitableRoomName => "Room name is not suitable"@,
        Refusal::RoomFull => "Room is full."@,
        Refusal::WrongPassword => "Incorrect room password."@,
        Refusal::RoomNotFound => "Room cannot be find."@,
    }
}

/// The message of the error sent for a refusal.
pub open spec fn refusal_message(r: Refusal) -> Seq<char> {
    match r {
        Refusal::ServerFull => "Server is currently full, try again later."@,
        Refusal::UnsuitableUsername => "Your username is not suitable, please try another one."@,
        Refusal::RoomLimit => "Cannot create any more room, try again later."@,
        Refusal::UnsuitableRoomName => "Room name is not suitable, please try another one."@,
        Refusal::RoomFull => "Maximum player count reached."@,
        Refusal::WrongPassword => "Incorrect password, try again."@,
        Refusal::RoomNotFound => "Room is no longer valid."@,
    }
}

/// The error `e` is the one sent for the refusal `r`.
pub open spec fn is_refusal(e: Error, r: Refusal) -> bool {
    e.title@ == refusal_title(r) && e.message@ == refusal_message(r)
}

/// The error message sent for a refusal.
pub fn refusal_error(r: Refusal) -> (e: Error)
    ensures
        is_refusal(e, r),
{
    match r {
        Refusal::ServerFull => Error {
            title: "Server is full".to_owned(),
            message: "Server is currently full, try again later.".to_owned(),
        },
        Refusal::UnsuitableUsername => Error {
            title: "Username is not suitable.".to_owned(),
            message: "Your username is not suitable, please try another one.".to_owned(),
        },
        Refusal::RoomLimit => Error {
            title: "Max room count exceed!".to_owned(),
            message: "Cannot create any more room, try again later.".to_owned(),
        },
        Refusal::UnsuitableRoomName => Error {
            title: "Room name is not suitable".to_owned(),
            message: "Room name is not suitable, please try another one.".to_owned(),
        },
        Refusal::RoomFull => Error {
            title: "Room is full.".to_owned(),
            message: "Maximum player count reached.".to_owned(),
        },
        Refusal::WrongPassword => Error {
            title: "Incorrect room password.".to_owned(),
            message: "Incorrect password, try again.".to_owned(),
        },
        Refusal::RoomNotFound => Error {
            title: "Room cannot be find.".to_owned(),
            message: "Room is no longer valid.".to_owned(),
        },
    }
}

} // verus!
