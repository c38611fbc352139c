//! What the library takes from std and from other crates. Each item states what
//! is relied on; none of it is proved here.

use crate::text::trimmed;
use serde_json::Value;
use sha2::{Digest, Sha256};
use vstd::prelude::*;
use vstd::utf8::{decode_utf8, encode_utf8, valid_utf8};

verus! {

/// `str::trim` of std: the text without leading and trailing white space, where
/// white space is what Unicode's `White_Space` property says.
pub assume_specification[ str::trim ](s: &str) -> (res: &str)
    ensures
        res@ == trimmed(s@),
;

/// `String::push` of std: appends one character.
pub assume_specification[ String::push ](s: &mut String, c: char)
    ensures
        final(s)@ == old(s)@.push(c),
;

/// The lower case form of a text, by Unicode's own tables and whatever the locale.
pub uninterp spec fn lower_case(s: Seq<char>) -> Seq<char>;

/// `str::to_lowercase` of std: the lower case form of the text, which is a
/// function of its characters alone.
pub assume_specification[ str::to_lowercase ](s: &str) -> (res: String)
    ensures
        res@ == lower_case(s@),
;

/// `std::str::from_utf8`: accepts exactly the bytes that are valid UTF-8.
#[verifier::external_body]
pub(crate) fn is_utf8(bytes: &[u8]) -> (res: bool)
    ensures
        res == valid_utf8(bytes@),
{
    std::str::from_utf8(bytes).is_ok()
}

/// The text of some bytes, in which U+FFFD stands for what is not valid UTF-8.
pub uninterp spec fn utf8_lossy(bytes: Seq<u8>) -> Seq<char>;

/// `String::from_utf8_lossy` of std: the text of the bytes, with a replacement
/// character in place of what is not valid UTF-8; valid UTF-8 is decoded as it is.
#[verifier::external_body]
pub(crate) fn decode_lossy(bytes: &[u8]) -> (res: String)
    ensures
        res@ == utf8_lossy(bytes@),
        valid_utf8(bytes@) ==> res@ == decode_utf8(bytes@),
{
    String::from_utf8_lossy(bytes).into_owned()
}

/// The SHA-256 digest of some bytes.
pub uninterp spec fn sha256(bytes: Seq<u8>) -> Seq<u8>;

/// `Sha256::digest` of the crate `sha2`: the digest of the bytes, which always has
/// thirty-two bytes.
#[verifier::external_body]
pub(crate) fn sha256_digest(bytes: &[u8]) -> (res: Vec<u8>)
    ensures
        res@ == sha256(bytes@),
        res@.len() == 32,
{
    Sha256::digest(bytes).to_vec()
}

/// The pretty-printed JSON text of an object with two members: a number, and a
/// list of objects whose members are all strings.
pub uninterp spec fn pretty_json(
    number_key: Seq<char>,
    number: u32,
    list_key: Seq<char>,
    rows: Seq<Seq<(Seq<char>, Seq<char>)>>,
) -> Seq<u8>;

/// No object has two members of the same key.
pub open spec fn distinct_keys(rows: Seq<Seq<(Seq<char>, Seq<char>)>>) -> bool {
    forall|r: int, i: int, j: int|
        0 <= r < rows.len() && 0 <= i < j < rows[r].len() ==> (#[trigger] rows[r][i]).0 != (
        #[trigger] rows[r][j]).0
}

/// `serde_json::to_vec_pretty` of an object that holds `number` and then `rows`,
/// each with its members in the order given. It writes valid UTF-8, escapes every
/// carriage return in a string and puts out none of its own, ends with the brace of
/// the object, and it cannot fail: every key is a string, and a value of the crate's
/// own type never refuses to be written. A byte of a key takes six bytes at most, and
/// without rows what is around the keys takes fewer than sixty-four. JSON text tells
/// what it was written of: where no key occurs twice in an object, another number or
/// other rows never give the same text.
#[verifier::external_body]
pub(crate) fn to_vec_pretty(
    number_key: &str,
    number: u32,
    list_key: &str,
    rows: &Vec<Vec<(String, String)>>,
) -> (res: Result<Vec<u8>, String>)
    ensures
        res is Ok,
        res->Ok_0@ == pretty_json(number_key@, number, list_key@, rows.deep_view()),
        valid_utf8(res->Ok_0@),
        !res->Ok_0@.contains(13u8),
        res->Ok_0@.len() > 0,
        res->Ok_0@.last() == 125u8,
        rows@.len() == 0 ==> res->Ok_0@.len() <= 6 * (encode_utf8(number_key@).len() + encode_utf8(
            list_key@,
        ).len()) + 64,
        number_key@ != list_key@ && distinct_keys(rows.deep_view()) ==> forall|
            other_number: u32,
            other_rows: Seq<Seq<(Seq<char>, Seq<char>)>>,
        | #[trigger]
            pretty_json(number_key@, other_number, list_key@, other_rows) == res->Ok_0@
                && distinct_keys(other_rows) ==> other_number == number && other_rows
                == rows.deep_view(),
{
    let member = |row: &(String, String)| (row.0.clone(), Value::from(row.1.as_str()));
    let object = |row: &Vec<(String, String)>| Value::Object(row.iter().map(member).collect());
    let list = Value::Array(rows.iter().map(object).collect());
    let members = [(number_key.to_owned(), Value::from(number)), (list_key.to_owned(), list)];
    let document = Value::Object(members.into_iter().collect());
    serde_json::to_vec_pretty(&document).map_err(|error| error.to_string())
}

} // verus!
