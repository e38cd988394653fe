//! Keys and record splitting.
//!
//! A key may hold ASCII letters, digits and spaces only. That keeps every
//! key free of the comma that separates it from its payload and of the line
//! feed that terminates a record, so a record always parses back into the
//! key it was written under.

use vstd::prelude::*;

use crate::error::line_error;
use crate::error::Error;
use crate::model::find_index;
use crate::model::lemma_find_index_unique;
use crate::model::COMMA;
use crate::model::NL;
use vstd::string::StringSliceAdditionalSpecFns;

verus! {

/// A character a key may hold: an ASCII digit, letter, or space.
pub open spec fn valid_key_char(c: char) -> bool {
    ||| '0' <= c && c <= '9'
    ||| 'A' <= c && c <= 'Z'
    ||| 'a' <= c && c <= 'z'
    ||| c == ' '
}

/// A key the store accepts: every character an ASCII digit, letter, or
/// space. The empty key is accepted.
pub open spec fn valid_key(s: Seq<char>) -> bool {
    forall|i: int| 0 <= i < s.len() ==> valid_key_char(#[trigger] s[i])
}

/// A key as it stands in the log: one byte per character. Meaningful for
/// valid keys, whose characters are all ASCII.
pub open spec fn key_bytes(s: Seq<char>) -> Seq<u8> {
    Seq::new(s.len(), |i: int| s[i] as u8)
}

/// A valid key is ASCII text.
pub proof fn lemma_valid_key_ascii(s: Seq<char>)
    requires
        valid_key(s),
    ensures
        vstd::utf8::is_ascii_chars(s),
{
    assert forall|i: int| 0 <= i < s.len() implies ('\0' <= #[trigger] s[i] && s[i] <= '\u{7f}') by {
        assert(valid_key_char(s[i]));
    }
    assert(vstd::utf8::is_ascii_chars(s));
}

/// None of a valid key's bytes is a line feed or a comma, so a record
/// always splits back at the very comma the store wrote.
pub proof fn lemma_valid_key_byte_values(s: Seq<char>)
    requires
        valid_key(s),
    ensures
        forall|i: int|
            0 <= i < key_bytes(s).len() ==> key_bytes(s)[i] != NL && key_bytes(s)[i] != COMMA,
{
    assert forall|i: int|
        0 <= i < key_bytes(s).len() implies key_bytes(s)[i] != NL && key_bytes(s)[i] != COMMA by {
        assert(valid_key_char(s[i]));
        assert(32 <= s[i] as int <= 122);
        assert(s[i] as int != 10 && s[i] as int != 44);
        assert(s[i] as u8 == s[i] as int);
    }
}

/// A valid key occupies exactly its characters' bytes in the log, and none
/// of those bytes is a line feed or a comma.
pub proof fn lemma_valid_key_bytes(key: &str)
    requires
        valid_key(key@),
    ensures
        key.spec_bytes() == key_bytes(key@),
        forall|i: int|
            0 <= i < key_bytes(key@).len() ==> key_bytes(key@)[i] != NL && key_bytes(key@)[i]
                != COMMA,
{
    lemma_valid_key_ascii(key@);
    vstd::string::is_ascii_spec_bytes(key);
    assert(key.spec_bytes() =~= key_bytes(key@));
    lemma_valid_key_byte_values(key@);
}

/// Accepts a key made of ASCII digits, letters and spaces; rejects any
/// other key with `Error::InvalidKey` carrying the key itself.
pub fn validate_key<'a>(key: &'a str) -> (r: Result<&'a str, Error>)
    ensures
        valid_key(key@) ==> (r matches Ok(k) && k@ == key@),
        !valid_key(key@) ==> (r matches Err(e) && e matches Error::InvalidKey(s) && s@ == key@),
{
    let n = key.unicode_len();
    let mut i: usize = 0;
    while i < n
        invariant
            n == key@.len(),
            i <= n,
            forall|j: int| 0 <= j < i ==> valid_key_char(#[trigger] key@[j]),
        decreases n - i,
    {
        let c = key.get_char(i);
        let ok = (c >= '0' && c <= '9') || (c >= 'A' && c <= 'Z') || (c >= 'a' && c <= 'z') || c
            == ' ';
        if !ok {
            assert(!valid_key_char(key@[i as int]));
            return Err(Error::InvalidKey(key.to_owned()));
        }
        i = i + 1;
    }
    Ok(key)
}

/// Splits one record into its key and its payload at the record's first
/// comma; a record without a comma is malformed and yields a read error
/// carrying the record's position.
pub fn split_key_value<'a>(line: &'a str, line_number: usize) -> (r: Result<
    (&'a str, &'a str),
    Error,
>)
    ensures
        find_index(line@, ',') < line@.len() ==> (r matches Ok(kv) && kv.0@ == line@.subrange(
            0,
            find_index(line@, ','),
        ) && kv.1@ == line@.subrange(find_index(line@, ',') + 1, line@.len() as int)),
        find_index(line@, ',') == line@.len() ==> (r matches Err(e) && e matches Error::Read(m)
            && m@ == crate::error::line_diag(line_number as int, line@)),
{
    let n = line.unicode_len();
    let mut i: usize = 0;
    while i < n
        invariant
            n == line@.len(),
            i <= n,
            forall|j: int| 0 <= j < i ==> line@[j] != ',',
        decreases n - i,
    {
        let c = line.get_char(i);
        if c == ',' {
            proof {
                lemma_find_index_unique(line@, ',', i as int);
            }
            let k = line.substring_char(0, i);
            let v = line.substring_char(i + 1, n);
            return Ok((k, v));
        }
        i = i + 1;
    }
    proof {
        lemma_find_index_unique(line@, ',', n as int);
    }
    Err(line_error(line_number, line))
}

} // verus!
