//! Regular expressions: what the library relies on of the `regex` crate.
use regex::Regex;
use vstd::prelude::*;

verus! {

/// `regex::Regex`, a compiled regular expression.
#[verifier::external_type_specification]
#[verifier::external_body]
pub struct ExRegex(regex::Regex);

/// `regex::Error`, the reason why a regular expression does not compile.
#[verifier::external_type_specification]
#[verifier::external_body]
pub struct ExRegexError(regex::Error);

/// A text that stands for a regular expression: the pattern, for one that
/// `regex::Regex::new` has compiled.
pub uninterp spec fn pattern_text(regex: Regex) -> Seq<char>;

/// Whether `regex::Regex::new` compiles `pattern`, on a machine with words of
/// `word_bits` bits: the memory that a compiled expression takes is limited, and
/// it depends on the size of a word.
pub uninterp spec fn compiles(pattern: Seq<char>, word_bits: nat) -> bool;

/// Whether the expression that `pattern` stands for matches some part of `text`.
pub uninterp spec fn matches_text(pattern: Seq<char>, text: Seq<char>) -> bool;

/// What an error says in words: the text that `regex::Error` is displayed as.
pub uninterp spec fn error_text(error: regex::Error) -> Seq<char>;

/// The error that `regex::Regex::new` gives for `pattern`, in words, on a machine
/// with words of `word_bits` bits.
pub uninterp spec fn refusal(pattern: Seq<char>, word_bits: nat) -> Seq<char>;

/// `regex::Regex::new` compiles a pattern: whether it succeeds, and what the error
/// says where it does not, depends on the pattern and the size of a word alone, and
/// the expression it returns is that of the pattern.
pub assume_specification[ regex::Regex::new ](re: &str) -> (compiled: Result<Regex, regex::Error>)
    ensures
        compiled is Ok <==> compiles(re@, usize::BITS as nat),
        compiled matches Ok(regex) ==> pattern_text(regex) == re@,
        compiled matches Err(error) ==> error_text(error) == refusal(
            re@,
            usize::BITS as nat,
        ),
;

/// `regex::Regex::is_match` says whether the expression matches anywhere in the
/// text; that depends on the expression and on the text alone.
pub assume_specification[ regex::Regex::is_match ](regex: &Regex, haystack: &str) -> (found: bool)
    ensures
        found == matches_text(pattern_text(*regex), haystack@),
;

/// `to_string` on a `regex::Error` gives the error in words, which depend on the
/// error alone.
#[verifier::external_body]
pub(crate) fn error_words(error: &regex::Error) -> (words: String)
    ensures
        words@ == error_text(*error),
{
    error.to_string()
}

/// The texts that stand for the expressions.
pub open spec fn pattern_texts(patterns: Seq<Regex>) -> Seq<Seq<char>> {
    patterns.map_values(|p: Regex| pattern_text(p))
}

} // verus!
