//! The identity of a sound file: a number and a short identifier, both
//! derived from the SHA-256 digest of the file's name and from nothing else.

use vstd::prelude::*;
use vstd::string::*;
use vstd::utf8::*;
use crate::text::{all_digits, decimal_digits, decimal_value, digit_value, is_digit, pow10, push_decimal};
use crate::text::{lemma_decimal_digits_shape, lemma_decimal_value_bound, lemma_pow10_grows};

verus! {

/// How many decimal digits make up a numeric identifier.
pub const PID_DIGITS: usize = 19;

/// How many characters make up a short identifier.
pub const GUID_CHARS: usize = 16;

/// Why no identity can be read off a digest text.
#[derive(Debug, Clone, Copy, PartialEq, Eq, Structural)]
pub enum IdentityError {
    /// The byte values of the text write fewer than nineteen decimal digits.
    TooFewDigits,
    /// The text has fewer than sixteen characters.
    TooFewCharacters,
}

/// The SHA-256 digest of the UTF-8 bytes of `text`, written as lowercase
/// hexadecimal.
pub uninterp spec fn sha256_hex(text: Seq<char>) -> Seq<char>;

/// Whether `c` is a digit of lowercase hexadecimal.
pub open spec fn is_lower_hex(c: char) -> bool {
    ('0' <= c <= '9') || ('a' <= c <= 'f')
}

/// Whether `text` has the shape of a SHA-256 digest in hexadecimal: 64
/// lowercase hexadecimal digits.
pub open spec fn is_digest_text(text: Seq<char>) -> bool {
    &&& text.len() == 64
    &&& forall|i: int| 0 <= i < text.len() ==> is_lower_hex(#[trigger] text[i])
}

/// `sha256::digest` on a string slice: it hashes the bytes of the string with
/// SHA-256 and encodes the 32 bytes of the digest with `hex::encode`, which
/// writes two lowercase hexadecimal digits for each byte. The digest itself
/// is not specified here, only named.
#[verifier::external_body]
fn digest(text: &str) -> (hash: String)
    ensures
        hash@ == sha256_hex(text@),
        is_digest_text(hash@),
{
    sha256::digest(text)
}

/// The decimal numerals of the bytes, one after the other, with nothing in
/// between.
pub open spec fn byte_digits(bytes: Seq<u8>) -> Seq<char>
    decreases bytes.len(),
{
    if bytes.len() == 0 {
        Seq::empty()
    } else {
        byte_digits(bytes.drop_last()) + decimal_digits(bytes.last() as nat)
    }
}

/// The last `count` items of `text`.
pub open spec fn tail<T>(text: Seq<T>, count: int) -> Seq<T>
    recommends
        0 <= count <= text.len(),
{
    text.subrange(text.len() - count, text.len() as int)
}

/// The digits from which the numeric identifier of a digest text is read:
/// the last nineteen of the decimal digits that the bytes of the text write.
pub open spec fn pid_window(hash: Seq<char>) -> Seq<char> {
    tail(byte_digits(encode_utf8(hash)), PID_DIGITS as int)
}

/// The numeric identifier that a digest text gives: the number that its
/// window of nineteen digits writes. A text whose bytes write fewer digits
/// gives none.
pub open spec fn pid_of_digest(hash: Seq<char>) -> Result<u64, IdentityError> {
    if byte_digits(encode_utf8(hash)).len() < PID_DIGITS {
        Err(IdentityError::TooFewDigits)
    } else {
        Ok(decimal_value(pid_window(hash)) as u64)
    }
}

/// The short identifier that a digest text gives: its last sixteen
/// characters. A text of fewer characters gives none.
pub open spec fn guid_of_digest(hash: Seq<char>) -> Result<Seq<char>, IdentityError> {
    if hash.len() < GUID_CHARS {
        Err(IdentityError::TooFewCharacters)
    } else {
        Ok(tail(hash, GUID_CHARS as int))
    }
}

/// The numeric identifier of the file called `name`.
pub open spec fn pid_of_name(name: Seq<char>) -> u64 {
    decimal_value(pid_window(sha256_hex(name))) as u64
}

/// The short identifier of the file called `name`.
pub open spec fn guid_of_name(name: Seq<char>) -> Seq<char> {
    tail(sha256_hex(name), GUID_CHARS as int)
}

/// Every byte writes at least one digit, and nothing but digits.
pub proof fn lemma_byte_digits_shape(bytes: Seq<u8>)
    ensures
        byte_digits(bytes).len() >= bytes.len(),
        all_digits(byte_digits(bytes)),
    decreases bytes.len(),
{
    if bytes.len() > 0 {
        lemma_byte_digits_shape(bytes.drop_last());
        lemma_decimal_digits_shape(bytes.last() as nat);
    }
}

/// A numeral of at most nineteen digits writes a number that fits in 64
/// bits: ten to the nineteenth is less than two to the sixty-fourth. So
/// the last nineteen digits of a digit string can always be read.
pub proof fn lemma_window_fits(digits: Seq<char>)
    requires
        all_digits(digits),
        digits.len() <= PID_DIGITS,
    ensures
        decimal_value(digits) <= u64::MAX,
{
    lemma_decimal_value_bound(digits);
    lemma_pow10_grows(digits.len(), PID_DIGITS as nat);
    assert(pow10(19) == 10_000_000_000_000_000_000nat) by {
        reveal_with_fuel(pow10, 20);
    }
}

/// The digest of any name gives both identifiers: it writes at least nineteen
/// digits and has more than sixteen characters.
pub proof fn lemma_digest_gives_identity(hash: Seq<char>)
    requires
        is_digest_text(hash),
    ensures
        byte_digits(encode_utf8(hash)).len() >= 64,
        pid_of_digest(hash) is Ok,
        guid_of_digest(hash) is Ok,
{
    assert(is_ascii_chars(hash));
    is_ascii_chars_encode_utf8(hash);
    lemma_byte_digits_shape(encode_utf8(hash));
}

/// The decimal numerals of the bytes of `text`, concatenated.
fn digits_of(text: &str) -> (digits: Vec<char>)
    ensures
        digits@ == byte_digits(encode_utf8(text@)),
        all_digits(digits@),
{
    let bytes = text.as_bytes();
    let mut digits: Vec<char> = Vec::new();
    let mut i: usize = 0;
    while i < bytes.len()
        invariant
            i <= bytes.len(),
            digits@ == byte_digits(bytes@.subrange(0, i as int)),
        decreases bytes.len() - i,
    {
        assert(bytes@.subrange(0, i + 1).drop_last() =~= bytes@.subrange(0, i as int));
        push_decimal(&mut digits, bytes[i] as u128);
        i = i + 1;
    }
    proof {
        assert(bytes@.subrange(0, bytes.len() as int) =~= bytes@);
        lemma_byte_digits_shape(bytes@);
    }
    digits
}

/// The number written by the digits of `digits` from position `from` on.
fn read_decimal(digits: &Vec<char>, from: usize) -> (number: u64)
    requires
        from <= digits.len(),
        digits.len() - from <= PID_DIGITS,
        all_digits(digits@),
    ensures
        number == decimal_value(digits@.subrange(from as int, digits.len() as int)),
{
    let mut number: u64 = 0;
    let mut i: usize = from;
    while i < digits.len()
        invariant
            from <= i <= digits.len(),
            digits.len() - from <= PID_DIGITS,
            all_digits(digits@),
            number == decimal_value(digits@.subrange(from as int, i as int)),
        decreases digits.len() - i,
    {
        let ghost read = digits@.subrange(from as int, i as int);
        let ghost next = digits@.subrange(from as int, i + 1);
        proof {
            assert(next.drop_last() =~= read);
            assert(next.last() == digits@[i as int]);
            assert(is_digit(digits@[i as int]));
            lemma_window_fits(next);
        }
        let d: u64 = (digits[i] as u32 - 48) as u64;
        assert(d == digit_value(digits@[i as int]));
        number = number * 10 + d;
        i = i + 1;
    }
    number
}

/// Reads the numeric identifier off a digest text: every byte of the text is
/// written as a decimal numeral, the numerals are concatenated, and the last
/// nineteen digits are read as one number. The text is rejected when its
/// bytes write fewer than nineteen digits, and only then: nineteen digits
/// never write a number beyond 64 bits.
pub fn pid_from_digest(hash: &str) -> (pid: Result<u64, IdentityError>)
    ensures
        pid == pid_of_digest(hash@),
        pid is Ok <==> byte_digits(encode_utf8(hash@)).len() >= PID_DIGITS,
        pid matches Ok(number) ==> number == decimal_value(pid_window(hash@)),
{
    let digits = digits_of(hash);
    if digits.len() < PID_DIGITS {
        Err(IdentityError::TooFewDigits)
    } else {
        proof {
            lemma_window_fits(pid_window(hash@));
        }
        Ok(read_decimal(&digits, digits.len() - PID_DIGITS))
    }
}

/// Reads the short identifier off a digest text: its last sixteen characters.
/// The text is rejected when it has fewer.
pub fn guid_from_digest(hash: &str) -> (guid: Result<String, IdentityError>)
    ensures
        guid is Ok <==> hash@.len() >= GUID_CHARS,
        guid matches Ok(text) ==> guid_of_digest(hash@) == Ok::<Seq<char>, IdentityError>(text@),
        guid matches Err(error) ==> guid_of_digest(hash@) == Err::<Seq<char>, IdentityError>(error),
{
    let length: usize = hash.unicode_len();
    if length < GUID_CHARS {
        Err(IdentityError::TooFewCharacters)
    } else {
        Ok(hash.substring_char(length - GUID_CHARS, length).to_owned())
    }
}

/// The numeric identifier that a SHA-256 digest gives.
fn pid_of_hash(hash: &str) -> (pid: u64)
    requires
        is_digest_text(hash@),
    ensures
        pid == decimal_value(pid_window(hash@)),
        pid_of_digest(hash@) == Ok::<u64, IdentityError>(pid),
{
    let digits = digits_of(hash);
    proof {
        lemma_digest_gives_identity(hash@);
        lemma_window_fits(pid_window(hash@));
    }
    read_decimal(&digits, digits.len() - PID_DIGITS)
}

/// The short identifier that a SHA-256 digest gives.
fn guid_of_hash(hash: &str) -> (guid: String)
    requires
        is_digest_text(hash@),
    ensures
        guid@ == tail(hash@, GUID_CHARS as int),
        guid_of_digest(hash@) == Ok::<Seq<char>, IdentityError>(guid@),
{
    let length: usize = hash.unicode_len();
    hash.substring_char(length - GUID_CHARS, length).to_owned()
}

/// The numeric identifier of the file called `string`: the number written by
/// the last nineteen decimal digits that the bytes of the hexadecimal SHA-256
/// digest of the name write. It depends on the name alone, and there is one
/// for every name.
pub fn string_to_pid(string: &str) -> (pid: u64)
    ensures
        pid == pid_of_name(string@),
        pid_of_digest(sha256_hex(string@)) == Ok::<u64, IdentityError>(pid),
{
    let hash = digest(string);
    pid_of_hash(hash.as_str())
}

/// The short identifier of the file called `string`: the last sixteen
/// characters of the hexadecimal SHA-256 digest of the name. It depends on
/// the name alone, and there is one for every name.
pub fn string_to_guid(string: &str) -> (guid: String)
    ensures
        guid@ == guid_of_name(string@),
        guid_of_digest(sha256_hex(string@)) == Ok::<Seq<char>, IdentityError>(guid@),
{
    let hash = digest(string);
    guid_of_hash(hash.as_str())
}

/// The identity of the file called `filename`: its numeric identifier and
/// its short identifier, both read off one digest of the name. The contents
/// of the file, its place in a listing and the time of the call play no
/// part.
pub fn synthesize(filename: &str) -> (identity: (u64, String))
    ensures
        identity.0 == pid_of_name(filename@),
        identity.1@ == guid_of_name(filename@),
{
    let hash = digest(filename);
    (pid_of_hash(hash.as_str()), guid_of_hash(hash.as_str()))
}

/// Two files of the same name have the same identity, whenever and wherever
/// it is derived.
pub proof fn lemma_same_name_same_identity(first: Seq<char>, second: Seq<char>)
    requires
        first == second,
    ensures
        pid_of_name(first) == pid_of_name(second),
        guid_of_name(first) == guid_of_name(second),
{
}

} // verus!
