//! Content matching: permissive decoding of file bytes and the regular
//! expression test, with the search configuration that drives them.

use vstd::prelude::*;
use vstd::utf8::{valid_utf8, decode_utf8};

verus! {

/// The text that `String::from_utf8_lossy` produces for the given bytes:
/// a function of the bytes alone.
pub uninterp spec fn lossy_decoded(bytes: Seq<u8>) -> Seq<char>;

/// Whether `regex::Regex::new` accepts the given pattern: a function of the
/// pattern alone.
pub uninterp spec fn pattern_compiles(pattern: Seq<char>) -> bool;

/// Whether the regular expression built from `pattern` matches anywhere in
/// `text`: a function of the pattern and the text alone.
pub uninterp spec fn pattern_matches(pattern: Seq<char>, text: Seq<char>) -> bool;

/// Relies on `String::from_utf8`: it returns `Ok` exactly when the bytes
/// are valid UTF-8, and the string then holds their decoding.
#[verifier::external_body]
fn decode_strict(bytes: &[u8]) -> (r: Option<String>)
    ensures
        r is Some <==> valid_utf8(bytes@),
        r matches Some(s) ==> s@ == decode_utf8(bytes@),
{
    match String::from_utf8(bytes.to_vec()) {
        Ok(s) => Some(s),
        Err(_) => None,
    }
}

/// Relies on `String::from_utf8_lossy`: the text it produces depends on
/// the bytes alone.
#[verifier::external_body]
fn decode_lossy(bytes: &[u8]) -> (r: String)
    ensures
        r@ == lossy_decoded(bytes@),
{
    String::from_utf8_lossy(bytes).to_string()
}

/// Relies on `regex::Regex::new` and `regex::Regex::is_match`: whether the
/// pattern compiles depends on the pattern alone, and whether the compiled
/// expression matches anywhere in the text depends on the pattern and the
/// text alone.
#[verifier::external_body]
fn regex_search(pattern: &str, text: &str) -> (r: Option<bool>)
    ensures
        r is Some <==> pattern_compiles(pattern@),
        r matches Some(b) ==> b == pattern_matches(pattern@, text@),
{
    match regex::Regex::new(pattern) {
        Ok(re) => Some(re.is_match(text)),
        Err(_) => None,
    }
}

/// The best-effort text of a file's bytes: their UTF-8 decoding when they
/// are valid UTF-8, and a lossy decoding otherwise.
pub open spec fn decoded_text(bytes: Seq<u8>) -> Seq<char> {
    if valid_utf8(bytes) {
        decode_utf8(bytes)
    } else {
        lossy_decoded(bytes)
    }
}

/// Decode file bytes permissively: strict UTF-8 first, lossy on failure.
pub fn decode_best_effort(bytes: &[u8]) -> (r: String)
    ensures
        r@ == decoded_text(bytes@),
{
    match decode_strict(bytes) {
        Some(s) => s,
        None => decode_lossy(bytes),
    }
}

/// What `find` returns for a pattern and a file's read outcome: `false`
/// when the file could not be read or the pattern does not compile, and
/// otherwise whether the pattern matches the decoded contents.
pub open spec fn find_spec(pattern: Seq<char>, content: Option<Seq<u8>>) -> bool {
    match content {
        None => false,
        Some(bytes) => pattern_compiles(pattern) && pattern_matches(pattern, decoded_text(bytes)),
    }
}

/// Searches file contents for text that matches a configured regular
/// expression, and remembers the last directory it reported.
pub struct TextFinder {
    pub re_str: String,
    pub last_dir: String,
}

impl TextFinder {
    pub fn new() -> (r: TextFinder)
        ensures
            r.re_str@ == Seq::<char>::empty(),
            r.last_dir@ == Seq::<char>::empty(),
    {
        TextFinder { re_str: String::new(), last_dir: String::new() }
    }

    /// Set the regular-expression pattern.
    pub fn regex(&mut self, s: &str)
        ensures
            final(self).re_str@ == s@,
            final(self).last_dir == old(self).last_dir,
    {
        self.re_str = s.to_owned();
    }

    pub fn get_regex(&self) -> (r: &str)
        ensures
            r@ == self.re_str@,
    {
        self.re_str.as_str()
    }

    /// Record the last directory for which output was produced.
    pub fn last_path(&mut self, p: &str)
        ensures
            final(self).last_dir@ == p@,
            final(self).re_str == old(self).re_str,
    {
        self.last_dir = p.to_owned();
    }

    pub fn get_last_path(&self) -> (r: &str)
        ensures
            r@ == self.last_dir@,
    {
        self.last_dir.as_str()
    }

    /// Whether the file whose read outcome is `content` matches the
    /// configured pattern. `None` stands for a file that could not be
    /// read at all: that is no match, never an error. Bytes that are not
    /// valid UTF-8 are decoded lossily; a pattern that does not compile
    /// never matches.
    pub fn find(&self, content: &Option<Vec<u8>>) -> (r: bool)
        ensures
            r == find_spec(self.re_str@, content.deep_view()),
    {
        match content {
            None => {
                assert(content.deep_view() is None);
                false
            },
            Some(bytes) => {
                assert(content.deep_view() == Some(bytes@));
                let text = decode_best_effort(bytes.as_slice());
                match regex_search(self.re_str.as_str(), text.as_str()) {
                    Some(b) => b,
                    None => false,
                }
            },
        }
    }
}

} // verus!
