//! What this library takes on trust: the functions of other crates, and of
//! the standard library, whose bodies the verifier does not see. Each
//! contract here is believed, not proved.

use std::io::{Read, Write};
use vstd::prelude::*;
use rand::{Rng, SeedableRng};
use unicode_normalization::UnicodeNormalization;

verus! {

/// What a line of JSON holds under a key.
pub enum JsonMember {
    /// The line is no JSON.
    Invalid,
    /// The line is JSON, and has no member of that key.
    Absent,
    /// The member is no string.
    Other,
    /// The member is this string.
    Text(String),
}

/// The random number generator `rand::rngs::StdRng`, whose state is not looked into.
#[verifier::external_type_specification]
#[verifier::external_body]
pub struct ExStdRng(rand::rngs::StdRng);

/// The gzip file that `flate2` makes of `data` at its best compression, with
/// `name` as the file name in its header; none where its encoder reports an
/// error.
pub uninterp spec fn gzip_bytes(name: Seq<char>, data: Seq<u8>) -> Option<Seq<u8>>;

/// What `flate2` reads out of a gzip file, and whether it read it to its end
/// without an error.
pub uninterp spec fn gunzip_outcome(data: Seq<u8>) -> (Seq<u8>, bool);

/// The text that `unicode_normalization` gives as the normalization form KC
/// of a text.
pub uninterp spec fn nfkc_chars(text: Seq<char>) -> Seq<char>;

/// What `serde_json` finds in a line under a key: nothing for a line that is
/// no JSON; else nothing for a missing member; else nothing for a member that
/// is no string; else the string.
pub uninterp spec fn json_member(line: Seq<char>, key: Seq<char>) -> Option<
    Option<Option<Seq<char>>>,
>;

/// `String::push`: the string grows by the character at its end.
#[verifier::external_body]
pub(crate) fn string_push(text: &mut String, c: char)
    ensures
        final(text)@ == old(text)@.push(c),
{
    text.push(c)
}

/// `core::str::from_utf8`: the bytes as text, where they are UTF-8, and
/// nothing where they are not.
#[verifier::external_body]
pub(crate) fn utf8_text(bytes: &[u8]) -> (text: Option<&str>)
    ensures
        text is Some <==> vstd::utf8::valid_utf8(bytes@),
        text matches Some(s) ==> s@ == vstd::utf8::decode_utf8(bytes@),
{
    core::str::from_utf8(bytes).ok()
}

/// `flate2::GzBuilder`, with `filename` and `write` at `Compression::best()`,
/// then `write_all` and `finish` of the encoder, which writes into memory.
/// Whether there is a file, and which, is a function of `name` and `data`
/// alone: the header holds no time and no operating system, and an error can
/// only be the verdict of the encoder on what it was given. That there is a
/// file is not promised. A file that there is, `flate2` reads back as `data`.
/// `filename` panics on a name with a zero byte, so such a name is left out.
#[verifier::external_body]
pub(crate) fn gzip_encode(name: &str, data: &[u8]) -> (file: Option<Vec<u8>>)
    requires
        !name@.contains('\0'),
    ensures
        match file {
            Some(bytes) => gzip_bytes(name@, data@) == Some(bytes@) && gunzip_outcome(bytes@) == (
                data@,
                true,
            ),
            None => gzip_bytes(name@, data@) is None,
        },
{
    let mut encoder = flate2::GzBuilder::new().filename(name).write(
        Vec::new(),
        flate2::Compression::best(),
    );
    match encoder.write_all(data) {
        Ok(()) => encoder.finish().ok(),
        Err(_) => None,
    }
}

/// `flate2::read::GzDecoder`, read with `read_to_end`: the bytes that came
/// out before the end or the first error, and whether the end was reached.
#[verifier::external_body]
pub(crate) fn gunzip(data: &[u8]) -> (out: (Vec<u8>, bool))
    ensures
        (out.0@, out.1) == gunzip_outcome(data@),
{
    let mut bytes = Vec::new();
    let complete = flate2::read::GzDecoder::new(data).read_to_end(&mut bytes).is_ok();
    (bytes, complete)
}

/// `UnicodeNormalization::nfkc`, collected into a string.
#[verifier::external_body]
pub(crate) fn nfkc(text: &str) -> (normal: String)
    ensures
        normal@ == nfkc_chars(text@),
{
    text.nfkc().collect::<String>()
}

/// `serde_json::from_str`, then `Value::get` and `Value::as_str` on what it
/// gave: the member of a line of JSON under a key.
#[verifier::external_body]
pub(crate) fn json_lookup(line: &str, key: &str) -> (member: JsonMember)
    ensures
        match member {
            JsonMember::Invalid => json_member(line@, key@) is None,
            JsonMember::Absent => json_member(line@, key@) == Some(
                None::<Option<Seq<char>>>,
            ),
            JsonMember::Other => json_member(line@, key@) == Some(Some(None::<Seq<char>>)),
            JsonMember::Text(text) => json_member(line@, key@) == Some(Some(Some(text@))),
        },
{
    match serde_json::from_str::<serde_json::Value>(line) {
        Err(_) => JsonMember::Invalid,
        Ok(value) => match value.get(key) {
            None => JsonMember::Absent,
            Some(member) => match member.as_str() {
                None => JsonMember::Other,
                Some(text) => JsonMember::Text(text.to_string()),
            },
        },
    }
}

/// `SeedableRng::seed_from_u64` for `StdRng`. Which numbers the generator
/// gives is not stated: its documentation does not hold it to that.
#[verifier::external_body]
pub(crate) fn seeded_rng(seed: u64) -> rand::rngs::StdRng {
    rand::rngs::StdRng::seed_from_u64(seed)
}

/// `Rng::gen_range(0, bound)`: a number below `bound`. It panics where the
/// range is empty, so `bound` is above zero.
#[verifier::external_body]
pub(crate) fn random_below(rng: &mut rand::rngs::StdRng, bound: u32) -> (n: u32)
    requires
        bound > 0,
    ensures
        n < bound,
{
    rng.gen_range(0, bound)
}

/// `num_cpus::get`: the number of logical processors, which is at least one.
pub assume_specification[ num_cpus::get ]() -> (n: usize)
    ensures
        n >= 1,
;

} // verus!
