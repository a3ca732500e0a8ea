//! What is asked of the arguments of the command line before any work starts.

use vstd::prelude::*;
use crate::chars::{parse_number, read_number, to_chars};
use crate::util::{is_supported_language, same_text};

verus! {

/// The shards of a corpus are at most this many.
pub const MAXIMUM_PIECES: u32 = 1024;

/// The words that are picked are at most this many.
pub const MAXIMUM_NUMBER_OF_WORDS: u32 = 100000;

/// The answer to a text that is to be a count from one up to `most`: whether
/// it is one, and if not, why.
pub open spec fn count_verdict(
    input: Seq<char>,
    most: nat,
    zero: Seq<char>,
    large: Seq<char>,
) -> Result<(), Seq<char>> {
    match parse_number(input, u32::MAX as nat) {
        None => Err("Pieces is not a valid integer."@),
        Some(value) => if value == 0 {
            Err(zero)
        } else if value > most {
            Err(large)
        } else {
            Ok(())
        },
    }
}

/// An answer holds what a verdict says.
pub open spec fn answers(answer: Result<(), String>, verdict: Result<(), Seq<char>>) -> bool {
    match (answer, verdict) {
        (Ok(_), Ok(_)) => true,
        (Err(text), Err(expected)) => text@ == expected,
        _ => false,
    }
}

/// Reads a number that fits in 32 bits.
pub fn read_u32(input: &str) -> (number: Option<u32>)
    ensures
        match number {
            Some(n) => parse_number(input@, u32::MAX as nat) == Some(n as nat),
            None => parse_number(input@, u32::MAX as nat) is None,
        },
{
    let chars = to_chars(input);
    match read_number(&chars, 0xffff_ffff) {
        Some(n) => Some(n as u32),
        None => None,
    }
}

/// The number of pieces is a number from one up to 1024.
pub fn validate_pieces(input: String) -> (answer: Result<(), String>)
    ensures
        answers(
            answer,
            count_verdict(
                input@,
                MAXIMUM_PIECES as nat,
                "Pieces cannot be 0."@,
                "Pieces too large, must be smaller than 1024."@,
            ),
        ),
{
    match read_u32(input.as_str()) {
        Some(value) => {
            if value == 0 {
                Err("Pieces cannot be 0.".to_owned())
            } else if value > MAXIMUM_PIECES {
                Err("Pieces too large, must be smaller than 1024.".to_owned())
            } else {
                Ok(())
            }
        },
        None => Err("Pieces is not a valid integer.".to_owned()),
    }
}

/// The number of words is a number from one up to 100,000.
pub fn validate_number_of_words(input: String) -> (answer: Result<(), String>)
    ensures
        answers(
            answer,
            count_verdict(
                input@,
                MAXIMUM_NUMBER_OF_WORDS as nat,
                "Number of words cannot be 0."@,
                "Number of words too large, must be smaller than 100,000."@,
            ),
        ),
{
    match read_u32(input.as_str()) {
        Some(value) => {
            if value == 0 {
                Err("Number of words cannot be 0.".to_owned())
            } else if value > MAXIMUM_NUMBER_OF_WORDS {
                Err("Number of words too large, must be smaller than 100,000.".to_owned())
            } else {
                Ok(())
            }
        },
        None => Err("Pieces is not a valid integer.".to_owned()),
    }
}

/// The minimum word length is a number from one up that fits in 32 bits.
pub fn validate_minimum_word_length(input: String) -> (answer: Result<(), String>)
    ensures
        answers(
            answer,
            count_verdict(
                input@,
                u32::MAX as nat,
                "Minimum word length cannot be 0."@,
                "Minimum word length cannot be 0."@,
            ),
        ),
{
    match read_u32(input.as_str()) {
        Some(value) => {
            if value == 0 {
                Err("Minimum word length cannot be 0.".to_owned())
            } else {
                Ok(())
            }
        },
        None => Err("Pieces is not a valid integer.".to_owned()),
    }
}

/// The input path names a file.
pub fn input_path_is_file(is_file: bool) -> (answer: Result<(), String>)
    ensures
        answers(
            answer,
            if is_file {
                Ok(())
            } else {
                Err("Input filepath does not exist or isn't a file."@)
            },
        ),
{
    if is_file {
        Ok(())
    } else {
        Err("Input filepath does not exist or isn't a file.".to_owned())
    }
}

/// The input path names a directory.
pub fn validate_input_dir(is_dir: bool) -> (answer: Result<(), String>)
    ensures
        answers(
            answer,
            if is_dir {
                Ok(())
            } else {
                Err("Input path doesn't exist or isn't a directory."@)
            },
        ),
{
    if is_dir {
        Ok(())
    } else {
        Err("Input path doesn't exist or isn't a directory.".to_owned())
    }
}

/// The language code is one that there is a dictionary for.
pub fn validate_language_code(input: String) -> (answer: Result<(), String>)
    ensures
        answers(
            answer,
            if is_supported_language(input@) {
                Ok(())
            } else {
                Err("Unsupported dictionary language code. Currently support ['en', 'pl']"@)
            },
        ),
{
    if same_text(input.as_str(), "en") || same_text(input.as_str(), "pl") {
        Ok(())
    } else {
        Err("Unsupported dictionary language code. Currently support ['en', 'pl']".to_owned())
    }
}

} // verus!
