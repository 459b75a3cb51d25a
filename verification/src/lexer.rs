//! The tokenizer for the toy SQL surface: keywords, identifiers,
//! operators, and integers.
use core::cmp::Ordering;
use vstd::prelude::*;

use crate::common::PBaseError;

verus! {

/// One lexical element of the query text.
#[derive(Debug, PartialEq, Eq)]
pub enum Token {
    Select,
    From,
    Join,
    Comma,
    And,
    Identifier(String),
    Op(Ordering),
    Int(i32),
    Dot,
}

/// Whether the byte may continue a keyword or identifier.
pub open spec fn spec_is_word_byte(c: u8) -> bool {
    (c >= 48 && c <= 57) || (c >= 97 && c <= 122) || (c >= 65 && c <= 90) || c == 95
}

fn is_word_byte(c: u8) -> (r: bool)
    ensures
        r == spec_is_word_byte(c),
{
    (c >= 48 && c <= 57) || (c >= 97 && c <= 122) || (c >= 65 && c <= 90) || c == 95
}

/// Whether the byte is ASCII whitespace.
pub open spec fn spec_is_space_byte(c: u8) -> bool {
    c == 32 || c == 9 || c == 10 || c == 13 || c == 12
}

fn is_space_byte(c: u8) -> (r: bool)
    ensures
        r == spec_is_space_byte(c),
{
    c == 32 || c == 9 || c == 10 || c == 13 || c == 12
}

/// Whether the byte is an ASCII digit.
pub open spec fn spec_is_digit_byte(c: u8) -> bool {
    c >= 48 && c <= 57
}

fn is_digit_byte(c: u8) -> (r: bool)
    ensures
        r == spec_is_digit_byte(c),
{
    c >= 48 && c <= 57
}

/// The comparator can answer `expect` on `x`.
pub open spec fn spec_answers<F: Fn(u8) -> bool>(cond: F, x: u8, expect: bool) -> bool {
    exists|b: bool| call_ensures(cond, (x,), b) && b == expect
}

/// How far the run satisfying `cond` extends from `start`.
fn take_while<F: Fn(u8) -> bool>(raw: &[u8], start: usize, cond: F) -> (end: usize)
    requires
        start <= raw@.len(),
        forall|k: int| 0 <= k < raw@.len() ==> call_requires(cond, ((#[trigger] raw@[k]),)),
        forall|x: u8, b1: bool, b2: bool|
            call_ensures(cond, (x,), b1) && call_ensures(cond, (x,), b2) ==> b1 == b2,
    ensures
        start <= end <= raw@.len(),
        forall|k: int| start <= k < end ==> spec_answers(cond, #[trigger] raw@[k], true),
        end < raw@.len() ==> spec_answers(cond, raw@[end as int], false),
{
    let n = raw.len();
    let mut i: usize = start;
    while i < n
        invariant
            start <= i <= n,
            n == raw@.len(),
            forall|k: int| 0 <= k < raw@.len() ==> call_requires(cond, ((#[trigger] raw@[k]),)),
            forall|x: u8, b1: bool, b2: bool|
                call_ensures(cond, (x,), b1) && call_ensures(cond, (x,), b2) ==> b1 == b2,
            forall|k: int| start <= k < i ==> spec_answers(cond, #[trigger] raw@[k], true),
        decreases n - i,
    {
        let c = *vstd::slice::slice_index_get(raw, i);
        let ok = cond(c);
        proof {
            assert(call_ensures(cond, (raw@[i as int],), ok));
            assert(spec_answers(cond, raw@[i as int], ok));
        }
        if !ok {
            return i;
        }
        i = i + 1;
    }
    i
}

/// How far an identifier extends from `start`, when one starts there.
fn read_keyword(raw: &[u8], start: usize) -> (end: usize)
    requires
        start <= raw@.len(),
    ensures
        start <= end <= raw@.len(),
        forall|k: int| start <= k < end ==> spec_is_word_byte(#[trigger] raw@[k]),
        end < raw@.len() ==> !spec_is_word_byte(raw@[end as int]),
{
    let end = take_while(raw, start, is_word_byte);
    proof {
        assert forall|k: int| start <= k < end implies spec_is_word_byte(#[trigger] raw@[k]) by {
            assert(spec_answers(is_word_byte, raw@[k], true));
            let b = choose|b: bool| call_ensures(is_word_byte, (raw@[k],), b) && b == true;
        }
        if end < raw@.len() {
            assert(spec_answers(is_word_byte, raw@[end as int], false));
            let b = choose|b: bool|
                call_ensures(is_word_byte, (raw@[end as int],), b) && b == false;
        }
    }
    end
}

/// Relies on `String::from_utf8_lossy`: ASCII bytes come back as the
/// same characters, one per byte.
#[verifier::external_body]
fn ascii_to_string(bytes: &[u8]) -> (r: String)
    requires
        forall|k: int| 0 <= k < bytes@.len() ==> (#[trigger] bytes@[k]) < 128,
    ensures
        r@.len() == bytes@.len(),
        forall|k: int| 0 <= k < bytes@.len() ==> r@[k] == (#[trigger] bytes@[k]) as char,
{
    String::from_utf8_lossy(bytes).to_string()
}

/// Compares two byte strings for equality.
fn bytes_eq(a: &[u8], b: &[u8]) -> (r: bool)
    ensures
        r == (a@ == b@),
{
    if a.len() != b.len() {
        return false;
    }
    let n = a.len();
    let mut i: usize = 0;
    while i < n
        invariant
            0 <= i <= n,
            n == a@.len() == b@.len(),
            forall|k: int| 0 <= k < i ==> a@[k] == b@[k],
        decreases n - i,
    {
        if *vstd::slice::slice_index_get(a, i) != *vstd::slice::slice_index_get(b, i) {
            return false;
        }
        i = i + 1;
    }
    proof {
        assert(a@ =~= b@);
    }
    true
}

pub struct Lexer;

impl Lexer {
    /// Cuts the query text into tokens; unknown characters and numbers
    /// too large for 32 bits are errors.
    pub fn tokenize(input: &[u8]) -> (r: Result<Vec<Token>, PBaseError>)
        ensures
            input@.len() == 0 ==> (r matches Ok(ts) && ts@.len() == 0),
    {
        let n = input.len();
        let mut tokens: Vec<Token> = Vec::new();
        let mut pos: usize = 0;
        while pos < n
            invariant
                0 <= pos <= n,
                n == input@.len(),
                n == 0 ==> tokens@.len() == 0,
            decreases n - pos,
        {
            let c = *vstd::slice::slice_index_get(input, pos);
            if is_word_byte(c) && !is_digit_byte(c) {
                let end = read_keyword(input, pos);
                proof {
                    assert(spec_is_word_byte(input@[pos as int]));
                    if end == pos {
                        assert(!spec_is_word_byte(input@[pos as int]));
                    }
                }
                let part = vstd::slice::slice_subrange(input, pos, end);
                let token = if bytes_eq(part, "SELECT".as_bytes()) {
                    Token::Select
                } else if bytes_eq(part, "FROM".as_bytes()) {
                    Token::From
                } else if bytes_eq(part, "JOIN".as_bytes()) {
                    Token::Join
                } else if bytes_eq(part, "AND".as_bytes()) {
                    Token::And
                } else {
                    proof {
                        assert forall|k: int| 0 <= k < part@.len() implies (#[trigger] part@[k])
                            < 128 by {
                            assert(part@[k] == input@[pos + k]);
                            assert(spec_is_word_byte(input@[pos + k]));
                        }
                    }
                    Token::Identifier(ascii_to_string(part))
                };
                tokens.push(token);
                pos = end;
            } else if c == 44 {
                tokens.push(Token::Comma);
                pos = pos + 1;
            } else if c == 61 {
                tokens.push(Token::Op(Ordering::Equal));
                pos = pos + 1;
            } else if c == 60 {
                tokens.push(Token::Op(Ordering::Less));
                pos = pos + 1;
            } else if c == 62 {
                tokens.push(Token::Op(Ordering::Greater));
                pos = pos + 1;
            } else if c == 46 {
                tokens.push(Token::Dot);
                pos = pos + 1;
            } else if is_space_byte(c) {
                let end = take_while(input, pos, is_space_byte);
                proof {
                    if end == pos {
                        assert(spec_answers(is_space_byte, input@[pos as int], false));
                        let b = choose|b: bool|
                            call_ensures(is_space_byte, (input@[pos as int],), b) && b == false;
                        assert(false);
                    }
                }
                pos = end;
            } else if is_digit_byte(c) {
                let end = take_while(input, pos, is_digit_byte);
                proof {
                    if end == pos {
                        assert(spec_answers(is_digit_byte, input@[pos as int], false));
                        let b = choose|b: bool|
                            call_ensures(is_digit_byte, (input@[pos as int],), b) && b == false;
                        assert(false);
                    }
                }
                let mut acc: i64 = 0;
                let mut d: usize = pos;
                while d < end
                    invariant
                        pos <= d <= end <= input@.len(),
                        0 <= acc <= 0x7FFF_FFFF,
                        forall|k: int|
                            pos <= k < end ==> spec_answers(
                                is_digit_byte,
                                #[trigger] input@[k],
                                true,
                            ),
                    decreases end - d,
                {
                    let cd = *vstd::slice::slice_index_get(input, d);
                    proof {
                        assert(spec_answers(is_digit_byte, input@[d as int], true));
                        let b = choose|b: bool|
                            call_ensures(is_digit_byte, (input@[d as int],), b) && b == true;
                        assert(spec_is_digit_byte(input@[d as int]));
                    }
                    acc = acc * 10 + ((cd - 48) as i64);
                    if acc > 0x7FFF_FFFF {
                        return Err(PBaseError::BadToken(unrecognizable_integer_message()));
                    }
                    d = d + 1;
                }
                tokens.push(Token::Int(acc as i32));
                pos = end;
            } else {
                return Err(PBaseError::BadToken(unrecognizable_character_message()));
            }
        }
        Ok(tokens)
    }
}

/// The message for a digit run that exceeds 32 bits.
fn unrecognizable_integer_message() -> (r: String)
    ensures
        r@ == "Unrecognizable integer"@,
{
    "Unrecognizable integer".to_owned()
}

/// The message for a byte no token can start with.
fn unrecognizable_character_message() -> (r: String)
    ensures
        r@ == "Unrecognizable next character"@,
{
    "Unrecognizable next character".to_owned()
}

} // verus!
