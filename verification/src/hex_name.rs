//! Hexadecimal names: two digits for each byte, lowercase when written,
//! either case when read.

use vstd::prelude::*;

verus! {

/// The lowercase hexadecimal digit that stands for `n`, for `n` below 16.
pub open spec fn digit_char(n: int) -> char {
    if n < 10 {
        ('0' as int + n) as char
    } else {
        ('a' as int + n - 10) as char
    }
}

/// Whether `c` is one of `0` to `9`, `a` to `f` or `A` to `F`.
pub open spec fn is_hex_digit(c: char) -> bool {
    ('0' <= c && c <= '9') || ('a' <= c && c <= 'f') || ('A' <= c && c <= 'F')
}

/// Whether `c` is one of `0` to `9` or `a` to `f`.
pub open spec fn is_lower_hex_digit(c: char) -> bool {
    ('0' <= c && c <= '9') || ('a' <= c && c <= 'f')
}

/// The number that the hexadecimal digit `c` stands for.
pub open spec fn digit_value(c: char) -> int {
    if '0' <= c && c <= '9' {
        c as int - '0' as int
    } else if 'a' <= c && c <= 'f' {
        c as int - 'a' as int + 10
    } else {
        c as int - 'A' as int + 10
    }
}

/// The lowercase hexadecimal form of `bytes`: for each byte its high digit,
/// then its low digit.
pub open spec fn hex_of(bytes: Seq<u8>) -> Seq<char> {
    Seq::new(
        2 * bytes.len(),
        |i: int|
            if i % 2 == 0 {
                digit_char(bytes[i / 2] as int / 16)
            } else {
                digit_char(bytes[i / 2] as int % 16)
            },
    )
}

/// Whether `name` is a hexadecimal form: an even number of hexadecimal digits.
pub open spec fn is_hex(name: Seq<char>) -> bool {
    &&& name.len() % 2 == 0
    &&& forall|i: int| 0 <= i < name.len() ==> is_hex_digit(#[trigger] name[i])
}

/// Whether `name` is a hexadecimal form written in lowercase.
pub open spec fn is_lower_hex(name: Seq<char>) -> bool {
    &&& name.len() % 2 == 0
    &&& forall|i: int| 0 <= i < name.len() ==> is_lower_hex_digit(#[trigger] name[i])
}

/// The bytes that the hexadecimal form `name` stands for.
pub open spec fn bytes_of(name: Seq<char>) -> Seq<u8> {
    Seq::new(
        name.len() / 2,
        |i: int| (16 * digit_value(name[2 * i]) + digit_value(name[2 * i + 1])) as u8,
    )
}

/// Reading a written name gives the bytes back.
pub proof fn lemma_bytes_of_hex_of(bytes: Seq<u8>)
    ensures
        is_lower_hex(hex_of(bytes)),
        is_hex(hex_of(bytes)),
        bytes_of(hex_of(bytes)) == bytes,
{
    let name = hex_of(bytes);
    assert forall|i: int| 0 <= i < name.len() implies is_lower_hex_digit(#[trigger] name[i]) by {
        let b = bytes[i / 2] as int;
        assert(0 <= b / 16 < 16 && 0 <= b % 16 < 16);
    }
    assert forall|i: int| 0 <= i < bytes.len() implies bytes_of(name)[i] == bytes[i] by {
        let b = bytes[i] as int;
        assert(0 <= b / 16 < 16 && 0 <= b % 16 < 16);
        assert(name[2 * i] == digit_char(b / 16));
        assert(name[2 * i + 1] == digit_char(b % 16));
        assert(digit_value(digit_char(b / 16)) == b / 16);
        assert(digit_value(digit_char(b % 16)) == b % 16);
    }
    assert(bytes_of(name) =~= bytes);
}

/// A lowercase digit is the digit of its own value.
proof fn lemma_digit_char_of_value(c: char)
    requires
        is_lower_hex_digit(c),
    ensures
        0 <= digit_value(c) < 16,
        digit_char(digit_value(c)) == c,
{
}

/// Writing what a lowercase name stands for gives the name back.
pub proof fn lemma_hex_of_bytes_of(name: Seq<char>)
    requires
        is_lower_hex(name),
    ensures
        hex_of(bytes_of(name)) == name,
{
    let bytes = bytes_of(name);
    assert(hex_of(bytes).len() == name.len());
    assert forall|i: int| 0 <= i < name.len() implies hex_of(bytes)[i] == name[i] by {
        let k = i / 2;
        let hi = digit_value(name[2 * k]);
        let lo = digit_value(name[2 * k + 1]);
        lemma_digit_char_of_value(name[2 * k]);
        lemma_digit_char_of_value(name[2 * k + 1]);
        assert(bytes[k] as int == 16 * hi + lo);
        if i % 2 == 0 {
            assert(i == 2 * k);
            assert((16 * hi + lo) / 16 == hi);
        } else {
            assert(i == 2 * k + 1);
            assert((16 * hi + lo) % 16 == lo);
        }
    }
    assert(hex_of(bytes) =~= name);
}

/// Two byte strings with the same written name are the same.
pub proof fn lemma_hex_of_injective(a: Seq<u8>, b: Seq<u8>)
    requires
        hex_of(a) == hex_of(b),
    ensures
        a == b,
{
    lemma_bytes_of_hex_of(a);
    lemma_bytes_of_hex_of(b);
}

/// The hexadecimal form of `bytes` in lowercase, as `hex::encode` writes it.
///
/// Trusted: `hex::encode` writes for each byte two digits from
/// `0123456789abcdef`, the high four bits first.
#[verifier::external_body]
pub(crate) fn encode(bytes: &Vec<u8>) -> (name: String)
    ensures
        name@ == hex_of(bytes@),
{
    hex::encode(bytes)
}

/// Why `hex::decode` could not read a name: the type `hex::FromHexError`,
/// of which nothing is looked at.
#[verifier::external_type_specification]
#[verifier::external_body]
pub struct ExFromHexError(hex::FromHexError);

/// The bytes that `name` stands for, if it is a hexadecimal form, as
/// `hex::decode` reads it.
///
/// Trusted: `hex::decode` fails on a name with an odd number of bytes or
/// with a byte that is no hexadecimal digit of either case, and otherwise
/// gives for each pair of digits the byte with the first digit as its
/// high four bits. A character outside ASCII is encoded with bytes that
/// are no digits, so the name is a hexadecimal form exactly when its
/// characters are an even number of digits.
#[verifier::external_body]
pub(crate) fn decode(name: &str) -> (bytes: Result<Vec<u8>, hex::FromHexError>)
    ensures
        bytes is Ok <==> is_hex(name@),
        bytes matches Ok(b) ==> b@ == bytes_of(name@),
{
    hex::decode(name)
}

} // verus!
