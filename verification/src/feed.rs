//! From the feed as it is fetched, base64 line by line, to its text.

use crate::normalize::suffix_rules;
use crate::pipeline::{process, Output};
use crate::text::{chars_of, lines_of, split_lines, string_of, views};
use base64::engine::general_purpose::STANDARD;
use base64::{DecodeError, Engine};
use publicsuffix::List;
use std::string::FromUtf8Error;
use vstd::prelude::*;
use vstd::utf8::{decode_utf8, valid_utf8};

verus! {

/// The error of the crate `base64` for text that does not decode. Nothing is
/// read from it.
#[verifier::external_type_specification]
#[verifier::external_body]
pub struct ExDecodeError(DecodeError);

/// The standard library's error for bytes that are not UTF-8. Nothing is
/// read from it.
#[verifier::external_type_specification]
#[verifier::external_body]
pub struct ExFromUtf8Error(FromUtf8Error);

/// Why a feed has no text.
#[derive(Debug, Clone, Copy, PartialEq, Eq, Structural)]
pub enum FeedError {
    /// The line with this index, counted from 0, is not base64.
    InvalidBase64 { line: usize },
    /// The decoded bytes are not UTF-8.
    InvalidUtf8,
}

/// The bytes that the standard base64 engine decodes `text` to, or `None`
/// where it reports an error.
pub uninterp spec fn base64_decoded(text: Seq<char>) -> Option<Seq<u8>>;

/// Calls `Engine::decode` of the crate `base64` on the engine
/// `general_purpose::STANDARD`, which reads the standard alphabet and asks
/// for canonical padding.
///
/// Taken on trust from the crate's source: the call reads the bytes of `line`
/// and nothing else, so that what it returns is a function of the line. The
/// contract gives that function a name and says nothing of its values.
#[verifier::external_body]
fn decode_base64(line: &str) -> (r: Result<Vec<u8>, DecodeError>)
    ensures
        match r {
            Ok(bytes) => base64_decoded(line@) == Some(bytes@),
            Err(_) => base64_decoded(line@) is None,
        },
{
    STANDARD.decode(line)
}

/// Calls `String::from_utf8` of the standard library.
///
/// Taken on trust from its documentation: the call succeeds on exactly the
/// byte sequences that are UTF-8, and the string then holds the characters
/// that the bytes encode.
#[verifier::external_body]
fn string_from_utf8(bytes: Vec<u8>) -> (r: Result<String, FromUtf8Error>)
    ensures
        match r {
            Ok(s) => valid_utf8(bytes@) && s@ == decode_utf8(bytes@),
            Err(_) => !valid_utf8(bytes@),
        },
{
    String::from_utf8(bytes)
}

/// The views of decoded lines, in order.
pub open spec fn chunk_views(chunks: Seq<Option<Vec<u8>>>) -> Seq<Option<Seq<u8>>> {
    chunks.map_values(
        |c: Option<Vec<u8>>|
            match c {
                Some(bytes) => Some(bytes@),
                None => None,
            },
    )
}

/// The index of the first line that did not decode, if there is one.
pub open spec fn first_missing(chunks: Seq<Option<Seq<u8>>>) -> Option<int>
    decreases chunks.len(),
{
    if chunks.len() == 0 {
        None
    } else {
        match first_missing(chunks.drop_last()) {
            Some(i) => Some(i),
            None => if chunks.last() is None {
                Some(chunks.len() - 1)
            } else {
                None
            },
        }
    }
}

/// The bytes of the decoded lines, one line's after the other's.
pub open spec fn concatenated(chunks: Seq<Option<Seq<u8>>>) -> Seq<u8>
    decreases chunks.len(),
{
    if chunks.len() == 0 {
        Seq::empty()
    } else {
        concatenated(chunks.drop_last()) + match chunks.last() {
            Some(bytes) => bytes,
            None => Seq::empty(),
        }
    }
}

/// The text of a feed whose lines decoded to `chunks`: the first line that
/// did not decode is an error; else the bytes of all lines together are the
/// text, where they are UTF-8.
pub open spec fn assembled(chunks: Seq<Option<Seq<u8>>>) -> Result<Seq<char>, FeedError> {
    match first_missing(chunks) {
        Some(i) => Err(FeedError::InvalidBase64 { line: i as usize }),
        None => if valid_utf8(concatenated(chunks)) {
            Ok(decode_utf8(concatenated(chunks)))
        } else {
            Err(FeedError::InvalidUtf8)
        },
    }
}

/// What each line decodes to, in the order of the lines.
pub open spec fn decoded_lines(lines: Seq<Seq<char>>) -> Seq<Option<Seq<u8>>> {
    lines.map_values(|line: Seq<char>| base64_decoded(line))
}

/// The text of the feed `body`.
pub open spec fn decoded(body: Seq<char>) -> Result<Seq<char>, FeedError> {
    assembled(decoded_lines(lines_of(body)))
}

/// A decoding result as contracts see it.
pub open spec fn feed_view(r: Result<String, FeedError>) -> Result<Seq<char>, FeedError> {
    match r {
        Ok(text) => Ok(text@),
        Err(e) => Err(e),
    }
}

/// The first line that did not decode lies within the lines, did not decode,
/// and follows only lines that did.
pub proof fn lemma_first_missing(chunks: Seq<Option<Seq<u8>>>)
    ensures
        match first_missing(chunks) {
            Some(i) => 0 <= i < chunks.len() && chunks[i] is None && forall|j: int|
                0 <= j < i ==> chunks[j] is Some,
            None => forall|j: int| 0 <= j < chunks.len() ==> chunks[j] is Some,
        },
    decreases chunks.len(),
{
    if chunks.len() > 0 {
        let init = chunks.drop_last();
        lemma_first_missing(init);
        assert(forall|j: int| 0 <= j < init.len() ==> init[j] == chunks[j]);
    }
}

/// Puts the text of a feed together from its decoded lines, `None` standing
/// for a line that did not decode.
pub fn assemble(chunks: Vec<Option<Vec<u8>>>) -> (r: Result<String, FeedError>)
    ensures
        feed_view(r) == assembled(chunk_views(chunks@)),
{
    let ghost all = chunk_views(chunks@);
    let n: usize = chunks.len();
    let mut bytes: Vec<u8> = Vec::new();
    let mut i: usize = 0;
    for chunk in it: chunks
        invariant
            i == it.index(),
            all.len() == n,
            chunk_views(it.seq()) == all,
            first_missing(all.take(i as int)) is None,
            bytes@ == concatenated(all.take(i as int)),
    {
        assert(all.take(i + 1).drop_last() == all.take(i as int));
        match chunk {
            Some(mut part) => {
                bytes.append(&mut part);
            },
            None => {
                proof {
                    lemma_first_missing(all.take(i as int));
                    assert forall|j: int| 0 <= j < i implies all[j] is Some by {
                        assert(all.take(i as int)[j] is Some);
                    }
                    assert(all[i as int] is None);
                    lemma_first_missing(all);
                    assert(first_missing(all) == Some(i as int));
                }
                return Err(FeedError::InvalidBase64 { line: i });
            },
        }
        i += 1;
    }
    assert(all.take(i as int) == all);
    match string_from_utf8(bytes) {
        Ok(text) => Ok(text),
        Err(_) => Err(FeedError::InvalidUtf8),
    }
}

/// Decodes a feed: each line of `body` is base64; the bytes of all lines,
/// taken together, are the text in UTF-8.
pub fn decode_feed(body: &str) -> (r: Result<String, FeedError>)
    ensures
        feed_view(r) == decoded(body@),
{
    let lines = split_lines(&chars_of(body));
    let ghost all = views(lines@);
    let mut chunks: Vec<Option<Vec<u8>>> = Vec::new();
    let n: usize = lines.len();
    let mut i: usize = 0;
    while i < n
        invariant
            i <= n == lines.len(),
            all == views(lines@),
            chunk_views(chunks@) == decoded_lines(all.take(i as int)),
        decreases n - i,
    {
        let ghost before = chunk_views(chunks@);
        let line = string_of(&lines[i]);
        let chunk = match decode_base64(line.as_str()) {
            Ok(bytes) => Some(bytes),
            Err(_) => None,
        };
        chunks.push(chunk);
        assert(chunk_views(chunks@) == before.push(base64_decoded(all[i as int])));
        i += 1;
    }
    assert(all.take(n as int) == all);
    assemble(chunks)
}

/// Decodes a feed and processes its text: the whole run, from what was
/// fetched to what is written.
pub fn convert(list: &List, body: &str, group: &str) -> (r: Result<Output, FeedError>)
    ensures
        match decoded(body@) {
            Ok(text) => r is Ok && r->Ok_0.is_output_of(
                suffix_rules(*list),
                lines_of(text),
                group@,
            ),
            Err(e) => r == Err::<Output, FeedError>(e),
        },
{
    match decode_feed(body) {
        Ok(text) => Ok(process(list, text.as_str(), group)),
        Err(e) => Err(e),
    }
}

} // verus!
