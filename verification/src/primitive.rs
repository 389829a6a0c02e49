//! Fixed-width big-endian integer readers over a byte cursor.
//!
//! Each reader either yields the decoded unsigned integer together with the
//! input behind it, or reports how many bytes are missing. The decoding itself
//! is done by `nom`; the readers here give its results a contract.

use vstd::prelude::*;
use crate::error::{parsed, ParseError, Parsed};

verus! {

/// `nom::Err`, the error of every `nom` parser. It is carried from the
/// readers of `nom` to the readers below and never looked into.
#[verifier::external_type_specification]
#[verifier::external_body]
#[verifier::reject_recursive_types(F)]
#[verifier::reject_recursive_types(E)]
pub struct ExNomErr<F, E>(nom::Err<F, E>);

/// `nom::error::Error`, the default payload of a `nom::Err`. It is never
/// looked into.
#[verifier::external_type_specification]
#[verifier::external_body]
#[verifier::reject_recursive_types(I)]
pub struct ExNomError<I>(nom::error::Error<I>);

/// The number that a byte string denotes when read as a big-endian numeral.
pub open spec fn be_value(bytes: Seq<u8>) -> nat
    decreases bytes.len(),
{
    if bytes.len() == 0 {
        0
    } else {
        be_value(bytes.drop_last()) * 256 + bytes.last() as nat
    }
}

/// The outcome of reading one byte from `s`.
pub open spec fn spec_be_u8(s: Seq<u8>) -> Parsed<u8> {
    if s.len() < 1 {
        Err(ParseError::Incomplete(1))
    } else {
        Ok((s[0], s.skip(1)))
    }
}

/// The outcome of reading a 16-bit big-endian integer from `s`.
pub open spec fn spec_be_u16(s: Seq<u8>) -> Parsed<u16> {
    if s.len() < 2 {
        Err(ParseError::Incomplete((2 - s.len()) as usize))
    } else {
        Ok((be_value(s.take(2)) as u16, s.skip(2)))
    }
}

/// The outcome of reading a 24-bit big-endian integer from `s`, widened to 32 bits.
pub open spec fn spec_be_u24(s: Seq<u8>) -> Parsed<u32> {
    if s.len() < 3 {
        Err(ParseError::Incomplete((3 - s.len()) as usize))
    } else {
        Ok((be_value(s.take(3)) as u32, s.skip(3)))
    }
}

/// The outcome of reading a 32-bit big-endian integer from `s`.
pub open spec fn spec_be_u32(s: Seq<u8>) -> Parsed<u32> {
    if s.len() < 4 {
        Err(ParseError::Incomplete((4 - s.len()) as usize))
    } else {
        Ok((be_value(s.take(4)) as u32, s.skip(4)))
    }
}

/// The outcome of reading a 64-bit big-endian integer from `s`.
pub open spec fn spec_be_u64(s: Seq<u8>) -> Parsed<u64> {
    if s.len() < 8 {
        Err(ParseError::Incomplete((8 - s.len()) as usize))
    } else {
        Ok((be_value(s.take(8)) as u64, s.skip(8)))
    }
}

/// The outcome of cutting the first `count` bytes off `s`.
pub open spec fn spec_take(s: Seq<u8>, count: nat) -> Parsed<Seq<u8>> {
    if s.len() < count {
        Err(ParseError::Incomplete((count - s.len()) as usize))
    } else {
        Ok((s.take(count as int), s.skip(count as int)))
    }
}

/// The value of a big-endian numeral of one to four bytes, written out byte
/// by byte, and the bound that follows for each width.
pub proof fn lemma_be_value_bound(bytes: Seq<u8>)
    ensures
        bytes.len() == 1 ==> be_value(bytes) == bytes[0],
        bytes.len() == 2 ==> be_value(bytes) == bytes[0] * 0x100 + bytes[1],
        bytes.len() == 3 ==> be_value(bytes) == bytes[0] * 0x1_0000 + bytes[1] * 0x100 + bytes[2],
        bytes.len() == 4 ==> be_value(bytes) == bytes[0] * 0x100_0000 + bytes[1] * 0x1_0000
            + bytes[2] * 0x100 + bytes[3],
        bytes.len() == 2 ==> be_value(bytes) < 0x1_0000,
        bytes.len() == 3 ==> be_value(bytes) < 0x100_0000,
        bytes.len() == 4 ==> be_value(bytes) < 0x1_0000_0000,
{
    reveal_with_fuel(be_value, 5);
    if bytes.len() >= 1 && bytes.len() <= 4 {
        let a = bytes.drop_last();
        if a.len() >= 1 {
            let b = a.drop_last();
            assert(b.len() >= 1 ==> b.drop_last().len() == b.len() - 1);
            if b.len() >= 1 {
                let c = b.drop_last();
                assert(c.len() >= 1 ==> c.drop_last().len() == 0);
            }
        }
    }
}

/// What a reader yields does not depend on the bytes behind the ones it
/// reads: where it succeeds on `s`, it yields the same on `s + more`, and
/// `more` comes behind what it left.
pub proof fn lemma_readers_ignore_what_follows(s: Seq<u8>, more: Seq<u8>)
    ensures
        spec_be_u8(s) matches Ok((v, rest)) ==> spec_be_u8(s + more) == Ok::<_, ParseError>(
            (v, rest + more),
        ),
        spec_be_u16(s) matches Ok((v, rest)) ==> spec_be_u16(s + more) == Ok::<_, ParseError>(
            (v, rest + more),
        ),
        spec_be_u24(s) matches Ok((v, rest)) ==> spec_be_u24(s + more) == Ok::<_, ParseError>(
            (v, rest + more),
        ),
        spec_be_u32(s) matches Ok((v, rest)) ==> spec_be_u32(s + more) == Ok::<_, ParseError>(
            (v, rest + more),
        ),
        spec_be_u64(s) matches Ok((v, rest)) ==> spec_be_u64(s + more) == Ok::<_, ParseError>(
            (v, rest + more),
        ),
{
    let long = s + more;
    assert forall|count: int| 0 <= count <= s.len() implies #[trigger] long.take(count) == s.take(
        count,
    ) && #[trigger] long.skip(count) == s.skip(count) + more by {
        assert(long.take(count) =~= s.take(count));
        assert(long.skip(count) =~= s.skip(count) + more);
    }
    if s.len() >= 1 {
        assert(long.skip(1) == s.skip(1) + more);
    }
    if s.len() >= 2 {
        assert(long.take(2) == s.take(2) && long.skip(2) == s.skip(2) + more);
    }
    if s.len() >= 3 {
        assert(long.take(3) == s.take(3) && long.skip(3) == s.skip(3) + more);
    }
    if s.len() >= 4 {
        assert(long.take(4) == s.take(4) && long.skip(4) == s.skip(4) + more);
    }
    if s.len() >= 8 {
        assert(long.take(8) == s.take(8) && long.skip(8) == s.skip(8) + more);
    }
}

/// `nom::number::streaming::be_u8`: succeeds exactly when the input is not
/// empty, and then yields its first byte and the input behind it.
#[verifier::external_body]
fn nom_be_u8(input: &[u8]) -> (r: Result<(&[u8], u8), nom::Err<nom::error::Error<&[u8]>>>)
    ensures
        r.is_ok() <==> input@.len() >= 1,
        r matches Ok((rest, v)) ==> rest@ == input@.skip(1) && v == input@[0],
{
    nom::number::streaming::be_u8(input)
}

/// `nom::number::streaming::be_u16`: succeeds exactly when two bytes are
/// there, and then yields their big-endian value and the input behind them.
#[verifier::external_body]
fn nom_be_u16(input: &[u8]) -> (r: Result<(&[u8], u16), nom::Err<nom::error::Error<&[u8]>>>)
    ensures
        r.is_ok() <==> input@.len() >= 2,
        r matches Ok((rest, v)) ==> rest@ == input@.skip(2) && v as nat == be_value(input@.take(2)),
{
    nom::number::streaming::be_u16(input)
}

/// `nom::number::streaming::be_u24`: succeeds exactly when three bytes are
/// there, and then yields their big-endian value and the input behind them.
#[verifier::external_body]
fn nom_be_u24(input: &[u8]) -> (r: Result<(&[u8], u32), nom::Err<nom::error::Error<&[u8]>>>)
    ensures
        r.is_ok() <==> input@.len() >= 3,
        r matches Ok((rest, v)) ==> rest@ == input@.skip(3) && v as nat == be_value(input@.take(3)),
{
    nom::number::streaming::be_u24(input)
}

/// `nom::number::streaming::be_u32`: succeeds exactly when four bytes are
/// there, and then yields their big-endian value and the input behind them.
#[verifier::external_body]
fn nom_be_u32(input: &[u8]) -> (r: Result<(&[u8], u32), nom::Err<nom::error::Error<&[u8]>>>)
    ensures
        r.is_ok() <==> input@.len() >= 4,
        r matches Ok((rest, v)) ==> rest@ == input@.skip(4) && v as nat == be_value(input@.take(4)),
{
    nom::number::streaming::be_u32(input)
}

/// `nom::number::streaming::be_u64`: succeeds exactly when eight bytes are
/// there, and then yields their big-endian value and the input behind them.
#[verifier::external_body]
fn nom_be_u64(input: &[u8]) -> (r: Result<(&[u8], u64), nom::Err<nom::error::Error<&[u8]>>>)
    ensures
        r.is_ok() <==> input@.len() >= 8,
        r matches Ok((rest, v)) ==> rest@ == input@.skip(8) && v as nat == be_value(input@.take(8)),
{
    nom::number::streaming::be_u64(input)
}

/// Reads one byte.
pub fn be_u8(input: &[u8]) -> (r: Result<(&[u8], u8), ParseError>)
    ensures
        parsed(r) == spec_be_u8(input@),
{
    match nom_be_u8(input) {
        Ok((rest, v)) => Ok((rest, v)),
        Err(_) => Err(ParseError::Incomplete(1)),
    }
}

/// Reads a 16-bit big-endian unsigned integer.
pub fn be_u16(input: &[u8]) -> (r: Result<(&[u8], u16), ParseError>)
    ensures
        parsed(r) == spec_be_u16(input@),
{
    match nom_be_u16(input) {
        Ok((rest, v)) => Ok((rest, v)),
        Err(_) => Err(ParseError::Incomplete(2 - input.len())),
    }
}

/// Reads a 24-bit big-endian unsigned integer, zero-extended to 32 bits.
pub fn be_u24(input: &[u8]) -> (r: Result<(&[u8], u32), ParseError>)
    ensures
        parsed(r) == spec_be_u24(input@),
        r matches Ok((_, v)) ==> v < 0x100_0000,
{
    proof {
        if input@.len() >= 3 {
            lemma_be_value_bound(input@.take(3));
        }
    }
    match nom_be_u24(input) {
        Ok((rest, v)) => Ok((rest, v)),
        Err(_) => Err(ParseError::Incomplete(3 - input.len())),
    }
}

/// Reads a 32-bit big-endian unsigned integer.
pub fn be_u32(input: &[u8]) -> (r: Result<(&[u8], u32), ParseError>)
    ensures
        parsed(r) == spec_be_u32(input@),
{
    match nom_be_u32(input) {
        Ok((rest, v)) => Ok((rest, v)),
        Err(_) => Err(ParseError::Incomplete(4 - input.len())),
    }
}

/// Reads a 64-bit big-endian unsigned integer.
pub fn be_u64(input: &[u8]) -> (r: Result<(&[u8], u64), ParseError>)
    ensures
        parsed(r) == spec_be_u64(input@),
{
    match nom_be_u64(input) {
        Ok((rest, v)) => Ok((rest, v)),
        Err(_) => Err(ParseError::Incomplete(8 - input.len())),
    }
}

/// Cuts the first `count` bytes off the input, as a borrowed slice.
pub fn take(input: &[u8], count: usize) -> (r: Result<(&[u8], &[u8]), ParseError>)
    ensures
        match r {
            Ok((rest, head)) => spec_take(input@, count as nat) == Ok::<_, ParseError>(
                (head@, rest@),
            ),
            Err(e) => spec_take(input@, count as nat) == Err::<(Seq<u8>, Seq<u8>), _>(e),
        },
{
    if input.len() < count {
        Err(ParseError::Incomplete(count - input.len()))
    } else {
        let (head, rest) = input.split_at(count);
        Ok((rest, head))
    }
}

} // verus!
