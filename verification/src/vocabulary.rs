//! Building the vocabulary from the lines of a word list, with the
//! fingerprint by which a word list is told from another.

use crate::word::{texts, Word};
use sha2::{Digest, Sha256};
use vstd::prelude::*;
use vstd::string::StrSliceExecFns;
use vstd::utf8::encode_utf8;

verus! {

/// The SHA-256 digest of `data`.
pub uninterp spec fn sha256(data: Seq<u8>) -> Seq<u8>;

/// The sixteen digits of lowercase hexadecimal notation, by value.
pub open spec fn hex_digits() -> Seq<char> {
    seq!['0', '1', '2', '3', '4', '5', '6', '7', '8', '9', 'a', 'b', 'c', 'd', 'e', 'f']
}

/// `bytes` in lowercase hexadecimal notation: two digits for each byte, the
/// upper half of the byte first.
pub open spec fn hex_text(bytes: Seq<u8>) -> Seq<char> {
    Seq::new(
        2 * bytes.len(),
        |i: int|
            if i % 2 == 0 {
                hex_digits()[bytes[i / 2] as int / 16]
            } else {
                hex_digits()[bytes[i / 2] as int % 16]
            },
    )
}

/// The bytes of `lines` in UTF-8, one line after the other with nothing
/// between them.
pub open spec fn joined_bytes(lines: Seq<Seq<char>>) -> Seq<u8>
    decreases lines.len(),
{
    if lines.len() == 0 {
        Seq::empty()
    } else {
        joined_bytes(lines.drop_last()) + encode_utf8(lines.last())
    }
}

/// The fingerprint of a word list: the SHA-256 digest of its lines, joined,
/// in hexadecimal notation.
pub open spec fn fingerprint(lines: Seq<Seq<char>>) -> Seq<char> {
    hex_text(sha256(joined_bytes(lines)))
}

/// Calls `Sha256::digest` of the crate sha2, which hashes `data` in one go.
/// Trusted: the result is the SHA-256 digest of `data`, a function of the
/// bytes alone, and is 32 bytes long.
#[verifier::external_body]
fn sha256_digest(data: &Vec<u8>) -> (digest: Vec<u8>)
    ensures
        digest@ == sha256(data@),
        digest@.len() == 32,
{
    Sha256::digest(data).to_vec()
}

/// Calls `hex::encode` of the crate hex. Trusted: the result writes each
/// byte as two lowercase hexadecimal digits, in the order of the bytes.
#[verifier::external_body]
fn hex_encode(bytes: &Vec<u8>) -> (text: String)
    ensures
        text@ == hex_text(bytes@),
{
    hex::encode(bytes)
}

/// Why a word list is no vocabulary.
#[derive(Clone, Copy, Debug, PartialEq, Eq, Structural)]
pub enum VocabularyError {
    /// A line is not as long as the first line.
    LengthMismatch {
        /// The place of the offending line, counted from nought.
        line: usize,
        /// The number of letters of that line.
        found: usize,
        /// The number of letters of the first line.
        expected: usize,
    },
}

/// Whether line `i` of `lines` is the first that is not as long as the first
/// line.
pub open spec fn first_mismatch(lines: Seq<Seq<char>>, i: int) -> bool {
    &&& 0 < i < lines.len()
    &&& lines[i].len() != lines[0].len()
    &&& forall|j: int| 0 <= j < i ==> (#[trigger] lines[j]).len() == lines[0].len()
}

/// The views of `lines`, in their order.
pub open spec fn line_texts(lines: Seq<String>) -> Seq<Seq<char>> {
    Seq::new(lines.len(), |i: int| lines[i]@)
}

/// The vocabulary that the lines of a word list make, one word for each
/// line, with the fingerprint of the list; or the fault of the first line
/// that is not as long as the first one.
pub fn read_words(lines: Vec<String>) -> (read: Result<(Vec<Word>, String), VocabularyError>)
    ensures
        match read {
            Ok((words, hash)) => {
                &&& texts(words@) == line_texts(lines@)
                &&& hash@ == fingerprint(line_texts(lines@))
                &&& forall|i: int|
                    0 <= i < lines@.len() ==> (#[trigger] lines@[i])@.len() == lines@[0]@.len()
            },
            Err(VocabularyError::LengthMismatch { line, found, expected }) => {
                &&& first_mismatch(line_texts(lines@), line as int)
                &&& found == lines@[line as int]@.len()
                &&& expected == lines@[0]@.len()
            },
        },
{
    let ghost all = line_texts(lines@);
    let mut words: Vec<Word> = Vec::new();
    let mut bytes: Vec<u8> = Vec::new();
    let mut word_length: Option<usize> = None;
    for line in it: lines
        invariant
            it.seq() == lines@,
            all == line_texts(lines@),
            words@.len() == it.index(),
            texts(words@) == all.take(it.index() as int),
            bytes@ == joined_bytes(all.take(it.index() as int)),
            match word_length {
                Some(length) => it.index() > 0 && length == all[0].len(),
                None => it.index() == 0,
            },
            forall|j: int| 0 <= j < it.index() ==> (#[trigger] all[j]).len() == all[0].len(),
    {
        let ghost seen = all.take(it.index() as int);
        let ghost next = all.take(it.index() + 1);
        proof {
            assert(next.drop_last() =~= seen);
            assert(next.last() == line@);
            assert(all[it.index() as int] == line@);
        }
        let l1 = line.as_str().unicode_len();
        match word_length {
            Some(l2) => {
                if l1 != l2 {
                    return Err(
                        VocabularyError::LengthMismatch {
                            line: words.len(),
                            found: l1,
                            expected: l2,
                        },
                    );
                }
            },
            None => {
                word_length = Some(l1);
            },
        }
        let mut line_bytes = line.as_str().as_bytes_vec();
        bytes.append(&mut line_bytes);
        words.push(Word::new(line));
        proof {
            assert(texts(words@) =~= next);
        }
    }
    proof {
        assert(all.take(all.len() as int) =~= all);
        assert forall|i: int| 0 <= i < lines@.len() implies (#[trigger] lines@[i])@.len()
            == lines@[0]@.len() by {
            assert(all[i].len() == all[0].len());
        }
    }
    let digest = sha256_digest(&bytes);
    Ok((words, hex_encode(&digest)))
}

} // verus!
