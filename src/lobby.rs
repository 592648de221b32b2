//! Checks on what the user types in the lobby before a connection is attempted.
use vstd::prelude::*;
use vstd::string::StringSliceAdditionalSpecFns;

verus! {

/// The longest nickname, in bytes of UTF-8.
pub const MAX_NICKNAME_LEN: usize = 16;

pub open spec fn empty_nickname_message() -> Seq<char> {
    "Nickname must not be empty"@
}

pub open spec fn long_nickname_message() -> Seq<char> {
    "The maximum length of a nickname is 16 characters"@
}

pub open spec fn room_id_length_message() -> Seq<char> {
    "Room ID must be a number with 4–6 digits"@
}

pub open spec fn room_id_digits_message() -> Seq<char> {
    "Room ID must be an integer"@
}

/// The complaint about a nickname of `n` bytes, if any.
pub open spec fn nickname_problem(n: nat) -> Option<Seq<char>> {
    if n == 0 {
        Some(empty_nickname_message())
    } else if n > MAX_NICKNAME_LEN {
        Some(long_nickname_message())
    } else {
        None
    }
}

/// Whether `b` is one or more ASCII digits.
pub open spec fn is_digits(b: Seq<u8>) -> bool {
    b.len() > 0 && forall|i: int| 0 <= i < b.len() ==> 48 <= #[trigger] b[i] <= 57
}

/// The number that the ASCII digits `b` spell in decimal.
pub open spec fn digits_value(b: Seq<u8>) -> nat
    decreases b.len(),
{
    if b.len() == 0 {
        0
    } else {
        digits_value(b.drop_last()) * 10 + (b.last() - 48) as nat
    }
}

/// The digits of a room ID as typed: without its optional leading `+`.
pub open spec fn room_id_digits(b: Seq<u8>) -> Seq<u8> {
    if b.len() > 0 && b[0] == 43 {
        b.skip(1)
    } else {
        b
    }
}

/// The outcome of a request to join room `room_id` under `nickname`.
pub open spec fn join_check(nickname: Seq<char>, room_id: Seq<char>) -> Result<u32, Seq<char>> {
    let b = vstd::utf8::encode_utf8(room_id);
    let n = vstd::utf8::encode_utf8(nickname).len();
    if !(4 <= b.len() <= 6) {
        Err(room_id_length_message())
    } else if nickname_problem(n) is Some {
        Err(nickname_problem(n).unwrap())
    } else if !is_digits(room_id_digits(b)) {
        Err(room_id_digits_message())
    } else {
        Ok(digits_value(room_id_digits(b)) as u32)
    }
}

/// Checks a nickname: it must not be empty, nor longer than `MAX_NICKNAME_LEN` bytes.
pub fn validate_nickname(nickname: &str) -> (r: Result<(), String>)
    ensures
        match nickname_problem(nickname.spec_bytes().len()) {
            None => r is Ok,
            Some(m) => r matches Err(e) && e@ == m,
        },
{
    let n = nickname.as_bytes().len();
    if n == 0 {
        proof {
            reveal_strlit("Nickname must not be empty");
        }
        return Err("Nickname must not be empty".to_owned());
    }
    if n > MAX_NICKNAME_LEN {
        proof {
            reveal_strlit("The maximum length of a nickname is 16 characters");
        }
        return Err("The maximum length of a nickname is 16 characters".to_owned());
    }
    Ok(())
}

proof fn lemma_digits_value_bound(b: Seq<u8>)
    requires
        forall|i: int| 0 <= i < b.len() ==> 48 <= #[trigger] b[i] <= 57,
    ensures
        digits_value(b) < pow10(b.len()),
    decreases b.len(),
{
    if b.len() > 0 {
        let c = b.drop_last();
        assert forall|i: int| 0 <= i < c.len() implies 48 <= #[trigger] c[i] <= 57 by {
            assert(c[i] == b[i]);
        }
        lemma_digits_value_bound(c);
        assert(b.last() == b[b.len() - 1]);
    }
}

spec fn pow10(n: nat) -> nat
    decreases n,
{
    if n == 0 {
        1
    } else {
        10 * pow10((n - 1) as nat)
    }
}

/// Checks a request to join a room: the room ID must be four to six characters, the nickname
/// valid, and the room ID a decimal number. Returns the room ID.
pub fn check_join(nickname: &str, room_id: &str) -> (r: Result<u32, String>)
    ensures
        match join_check(nickname@, room_id@) {
            Ok(id) => r == Ok::<u32, String>(id),
            Err(m) => r matches Err(e) && e@ == m,
        },
{
    let b = room_id.as_bytes();
    if b.len() < 4 || b.len() > 6 {
        proof {
            reveal_strlit("Room ID must be a number with 4–6 digits");
        }
        return Err("Room ID must be a number with 4–6 digits".to_owned());
    }
    match validate_nickname(nickname) {
        Err(e) => return Err(e),
        Ok(()) => {},
    }
    let start: usize = if b[0] == 43 {
        1
    } else {
        0
    };
    let ghost digits = room_id_digits(b@);
    assert(digits =~= b@.subrange(start as int, b@.len() as int));
    if start == b.len() {
        proof {
            reveal_strlit("Room ID must be an integer");
        }
        return Err("Room ID must be an integer".to_owned());
    }
    let mut value: u32 = 0;
    let mut i: usize = start;
    while i < b.len()
        invariant
            start <= i <= b@.len() <= 6,
            start <= 1,
            b@ == room_id.spec_bytes(),
            4 <= b@.len(),
            nickname_problem(nickname.spec_bytes().len()) is None,
            digits == room_id_digits(b@),
            digits == b@.subrange(start as int, b@.len() as int),
            forall|j: int| start <= j < i ==> 48 <= #[trigger] b@[j] <= 57,
            value == digits_value(b@.subrange(start as int, i as int)),
            value < pow10((i - start) as nat),
        decreases b@.len() - i,
    {
        let c = b[i];
        if c < 48 || c > 57 {
            assert(digits[i - start] == c);
            assert(!is_digits(digits));
            proof {
                reveal_strlit("Room ID must be an integer");
            }
            return Err("Room ID must be an integer".to_owned());
        }
        let ghost before = b@.subrange(start as int, i as int);
        assert(b@.subrange(start as int, i + 1).drop_last() =~= before);
        assert(pow10((i + 1 - start) as nat) == 10 * pow10((i - start) as nat));
        assert(pow10((i - start) as nat) <= 100000) by {
            reveal_with_fuel(pow10, 7);
        }
        value = value * 10 + (c - 48) as u32;
        i += 1;
    }
    assert(b@.subrange(start as int, i as int) == digits);
    Ok(value)
}

} // verus!
