//! The answer codec: exactly the four letter tokens `"A"` through `"D"`
//! decode to a `Choice`; everything else is `InvalidAnswer`.

use vstd::prelude::*;
use vstd::string::*;
use crate::errors::ParseError;

verus! {

/// One of the four multiple-choice answers. Equality is the only operation
/// the engine needs.
#[derive(Clone, Copy, Debug, PartialEq, Eq, Structural)]
pub enum Choice {
    A,
    B,
    C,
    D,
}

/// The decoding relation: a single uppercase letter `A`..`D`, nothing else.
pub open spec fn spec_to_choice(s: Seq<char>) -> Option<Choice> {
    if s.len() != 1 {
        None
    } else if s[0] == 'A' {
        Some(Choice::A)
    } else if s[0] == 'B' {
        Some(Choice::B)
    } else if s[0] == 'C' {
        Some(Choice::C)
    } else if s[0] == 'D' {
        Some(Choice::D)
    } else {
        None
    }
}

/// The letter a choice is written as.
pub open spec fn spec_choice_letter(c: Choice) -> Seq<char> {
    match c {
        Choice::A => seq!['A'],
        Choice::B => seq!['B'],
        Choice::C => seq!['C'],
        Choice::D => seq!['D'],
    }
}

/// Decodes an answer token; accepts exactly `"A"`, `"B"`, `"C"`, `"D"`.
pub fn to_choice(token: &str) -> (r: Result<Choice, ParseError>)
    ensures
        r matches Ok(c) ==> spec_to_choice(token@) == Some(c),
        r is Err ==> spec_to_choice(token@) is None && r == Err::<Choice, ParseError>(
            ParseError::InvalidAnswer,
        ),
{
    if token.unicode_len() != 1 {
        return Err(ParseError::InvalidAnswer);
    }
    let c = token.get_char(0);
    if c == 'A' {
        Ok(Choice::A)
    } else if c == 'B' {
        Ok(Choice::B)
    } else if c == 'C' {
        Ok(Choice::C)
    } else if c == 'D' {
        Ok(Choice::D)
    } else {
        Err(ParseError::InvalidAnswer)
    }
}

/// Writes a choice as its letter.
pub fn choice_letter(c: Choice) -> (r: String)
    ensures
        r@ == spec_choice_letter(c),
{
    proof {
        reveal_strlit("A");
        reveal_strlit("B");
        reveal_strlit("C");
        reveal_strlit("D");
    }
    let r = match c {
        Choice::A => String::from_str("A"),
        Choice::B => String::from_str("B"),
        Choice::C => String::from_str("C"),
        Choice::D => String::from_str("D"),
    };
    proof {
        assert(r@ =~= spec_choice_letter(c));
    }
    r
}

/// Decoding inverts encoding: each letter reads back as its choice.
pub proof fn lemma_choice_round_trip(c: Choice)
    ensures
        spec_to_choice(spec_choice_letter(c)) == Some(c),
{
}

} // verus!
