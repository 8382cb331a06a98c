//! What is read of numbers, scores, patterns and answers, and how sizes add up.
use crate::config;
use crate::config::{compile_all, PatternError, Score, ScoreError};
use crate::file_record::FileRecord;
use crate::filter_duplicates;
use crate::filter_duplicates::HashPass;
use crate::number;
use crate::number::parse_i64;
use crate::pattern;
use crate::report;
use crate::report::{confirms, total_size};
use crate::text;
use regex::Regex;
use vstd::prelude::*;

verus! {

/// A text that is empty, or does not end in a digit, writes no number.
pub proof fn a_number_ends_in_a_digit(text: &[char], value: Option<i64>)
    requires
        call_ensures(parse_i64, (text,), value),
        text@.len() == 0 || !('0' <= text@.last() <= '9'),
    ensures
        value is None,
{
    if text@.len() > 0 {
        let n = text@.len() as int;
        assert(!number::is_digit(text@[n - 1]));
        if number::is_digits(text@.skip(1)) {
            assert(text@.skip(1)[n - 2] == text@[n - 1]);
        }
    }
}

/// One digit writes its value, with a plus sign too, and with a minus sign the
/// opposite.
pub proof fn a_digit_writes_its_value(text: &[char], value: Option<i64>)
    requires
        call_ensures(parse_i64, (text,), value),
        1 <= text@.len() <= 2,
        '0' <= text@.last() <= '9',
        text@.len() == 2 ==> text@[0] == '+' || text@[0] == '-',
    ensures
        value == Some(
            if text@[0] == '-' {
                (('0' as int) - (text@.last() as int)) as i64
            } else {
                ((text@.last() as int) - ('0' as int)) as i64
            },
        ),
{
    reveal_with_fuel(number::digits_value, 3);
    if text@.len() == 2 {
        assert(!number::is_digit(text@[0]));
        assert(text@.skip(1) =~= seq![text@[1]]);
        assert(number::is_digits(text@.skip(1)));
        assert(text@.skip(1).last() == text@[1]);
    } else {
        assert(number::is_digits(text@));
    }
}

proof fn lemma_more_digits(digits: Seq<char>, c: char)
    requires
        '0' <= c <= '9',
    ensures
        number::is_digits(digits) ==> number::is_digits(digits.push(c)),
        digits.len() > 0 && number::is_digits(digits.push(c)) ==> number::is_digits(digits),
        number::digits_value(digits.push(c)) == number::digits_value(digits) * 10 + (c as int
            - '0' as int),
{
    assert(digits.push(c).drop_last() =~= digits);
    if number::is_digits(digits.push(c)) {
        assert forall|i: int| 0 <= i < digits.len() implies number::is_digit(
            #[trigger] digits[i],
        ) by {
            assert(number::is_digit(digits.push(c)[i]));
        }
    }
}

/// A further digit counts tenfold what stands before it, away from zero on the side of
/// the sign; what does not fit is no number, and what was none remains none.
pub proof fn a_further_digit_counts_tenfold(
    text: &[char],
    longer: &[char],
    c: char,
    value: Option<i64>,
    more: Option<i64>,
)
    requires
        call_ensures(parse_i64, (text,), value),
        call_ensures(parse_i64, (longer,), more),
        '0' <= c <= '9',
        longer@ == text@.push(c),
        text@.len() > 0,
        text@.len() > 1 || text@[0] != '+' && text@[0] != '-',
    ensures
        ({
            let digit = c as int - '0' as int;
            match value {
                None => more is None,
                Some(v) => {
                    let next = if text@[0] == '-' {
                        10 * v - digit
                    } else {
                        10 * v + digit
                    };
                    if i64::MIN <= next <= i64::MAX {
                        more == Some(next as i64)
                    } else {
                        more is None
                    }
                },
            }
        }),
{
    let s = text@;
    lemma_more_digits(s, c);
    lemma_more_digits(s.skip(1), c);
    assert(s.push(c).skip(1) =~= s.skip(1).push(c));
    assert(s.push(c)[0] == s[0]);
    if number::is_digits(s) {
        assert(number::is_digit(s[0]));
    }
    if number::is_digits(s.push(c)) {
        assert(number::is_digit(s.push(c)[0]));
    }
}

/// What a score is read from: a text without `=` is none; otherwise what stands before
/// the first `=` has to be a number and what stands behind it a pattern.
pub proof fn a_score_is_read_around_the_first_equals(
    s: &str,
    result: Result<Score, ScoreError>,
    k: int,
    front: &[char],
    number: Option<i64>,
)
    requires
        call_ensures(Score::parse, (s,), result),
        0 <= k < s@.len(),
        s@[k] == '=',
        forall|i: int| 0 <= i < k ==> s@[i] != '=',
        front@ == s@.subrange(0, k),
        call_ensures(parse_i64, (front,), number),
    ensures
        match number {
            None => result == Err::<Score, ScoreError>(ScoreError::NotANumber),
            Some(value) => {
                let written = s@.subrange(k + 1, s@.len() as int);
                if pattern::compiles(written, usize::BITS as nat) {
                    result matches Ok(score) && score.score == value && pattern::pattern_text(
                        score.pattern,
                    ) == written
                } else {
                    result == Err::<Score, ScoreError>(ScoreError::BadRegex)
                }
            },
        },
{
    assert(config::first_equals(s@, k));
    assert(s@.contains('='));
    let j = choose|j: int| config::first_equals(s@, j);
    assert(config::first_equals(s@, j));
    assert(j == k) by {
        if j < k {
            assert(s@[j] == '=');
        } else if k < j {
            assert(s@[k] == '=');
        }
    }
    assert(s@.take(k) =~= front@);
    assert(s@.skip(k + 1) =~= s@.subrange(k + 1, s@.len() as int));
    if let Ok(score) = result {
        assert(score@.score == score.score);
    }
}

/// A number and a compiled pattern make a score, and a pattern that did not compile
/// makes none.
pub proof fn a_compiled_pattern_makes_a_score(
    number: i64,
    compiled: Result<Regex, regex::Error>,
    result: Result<Score, ScoreError>,
)
    requires
        call_ensures(Score::with_pattern, (number, compiled), result),
    ensures
        compiled matches Ok(pattern) ==> (result matches Ok(score) && score.score == number
            && score.pattern == pattern),
        compiled is Err ==> result == Err::<Score, ScoreError>(ScoreError::BadRegex),
{
}

/// A text without `=` is refused for that, and no other text is.
pub proof fn a_score_needs_an_equals(s: &str, result: Result<Score, ScoreError>)
    requires
        call_ensures(Score::parse, (s,), result),
    ensures
        result == Err::<Score, ScoreError>(ScoreError::MissingEquals) <==> forall|i: int|
            0 <= i < s@.len() ==> s@[i] != '=',
{
    if s@.contains('=') {
        let i = choose|i: int| 0 <= i < s@.len() && s@[i] == '=';
        assert(s@[i] == '=');
    } else {
        assert forall|i: int| 0 <= i < s@.len() implies s@[i] != '=' by {
            if s@[i] == '=' {
                assert(s@.contains('='));
            }
        }
    }
}

/// A list of scores is read one by one: it is read exactly where each of its texts is,
/// into the same scores in the same order, and otherwise the first text that is
/// refused gives the error.
pub proof fn scores_are_read_one_by_one(
    texts: &Vec<String>,
    all: Result<Vec<Score>, ScoreError>,
    singles: Seq<&str>,
    read: Seq<Result<Score, ScoreError>>,
)
    requires
        call_ensures(Score::parse_all, (texts,), all),
        singles.len() == texts@.len(),
        read.len() == texts@.len(),
        forall|i: int|
            0 <= i < texts@.len() ==> (#[trigger] singles[i])@ == texts@[i]@ && call_ensures(
                Score::parse,
                (singles[i],),
                read[i],
            ),
    ensures
        match all {
            Ok(scores) => scores@.len() == texts@.len() && forall|i: int|
                0 <= i < texts@.len() ==> ((#[trigger] read[i]) matches Ok(score)
                    && scores@[i].score == score.score && pattern::pattern_text(scores@[i].pattern)
                    == pattern::pattern_text(score.pattern)),
            Err(error) => exists|k: int|
                {
                    &&& 0 <= k < read.len()
                    &&& #[trigger] read[k] == Err::<Score, ScoreError>(error)
                    &&& forall|i: int| 0 <= i < k ==> #[trigger] read[i] is Ok
                },
        },
{
    if let Ok(scores) = all {
        assert forall|i: int| 0 <= i < texts@.len() implies ((#[trigger] read[i]) matches Ok(score)
            && scores@[i].score == score.score && pattern::pattern_text(scores@[i].pattern)
            == pattern::pattern_text(score.pattern)) by {
            assert(singles[i]@ == texts@[i]@);
            assert(config::parsed_score(texts@[i]@) == Ok::<config::ScoreModel, ScoreError>(
                scores@[i]@,
            ));
        }
    }
    if let Err(error) = all {
        let k = choose|k: int|
            {
                &&& 0 <= k < texts@.len()
                &&& config::parsed_score(#[trigger] texts@[k]@) == Err::<
                    config::ScoreModel,
                    ScoreError,
                >(error)
                &&& forall|j: int| 0 <= j < k ==> config::parsed_score(#[trigger] texts@[j]@) is Ok
            };
        assert(singles[k]@ == texts@[k]@);
        assert forall|i: int| 0 <= i < k implies #[trigger] read[i] is Ok by {
            assert(singles[i]@ == texts@[i]@);
            assert(config::parsed_score(texts@[i]@) is Ok);
        }
        assert(read[k] == Err::<Score, ScoreError>(error));
    }
}

/// A list of patterns is compiled whole, each pattern at its place, or the first that
/// does not compile is handed back with its error.
pub proof fn patterns_are_compiled_one_by_one(
    texts: &Vec<String>,
    result: Result<Vec<Regex>, PatternError>,
)
    requires
        call_ensures(compile_all, (texts,), result),
    ensures
        result is Ok <==> forall|i: int|
            0 <= i < texts@.len() ==> pattern::compiles(#[trigger] texts@[i]@, usize::BITS as nat),
        match result {
            Ok(patterns) => patterns@.len() == texts@.len() && forall|i: int|
                0 <= i < texts@.len() ==> pattern::pattern_text(#[trigger] patterns@[i])
                    == texts@[i]@,
            Err(failed) => {
                let at = failed.position as int;
                &&& at < texts@.len()
                &&& !pattern::compiles(texts@[at]@, usize::BITS as nat)
                &&& pattern::error_text(failed.error) == pattern::refusal(
                    texts@[at]@,
                    usize::BITS as nat,
                )
                &&& forall|i: int|
                    0 <= i < at ==> pattern::compiles(#[trigger] texts@[i]@, usize::BITS as nat)
            },
        },
{
    if let Ok(patterns) = result {
        assert forall|i: int| 0 <= i < texts@.len() implies pattern::pattern_text(
            #[trigger] patterns@[i],
        ) == texts@[i]@ by {
            assert(pattern::compiles(texts@[i]@, usize::BITS as nat));
        }
    }
}

/// White space around an answer does not count.
pub proof fn white_space_does_not_count(
    response: &str,
    padded: &str,
    front: Seq<char>,
    back: Seq<char>,
    yes: bool,
    still: bool,
)
    requires
        call_ensures(confirms, (response,), yes),
        call_ensures(confirms, (padded,), still),
        padded@ == front + response@ + back,
        forall|i: int| 0 <= i < front.len() ==> text::is_white_space(#[trigger] front[i]),
        forall|i: int| 0 <= i < back.len() ==> text::is_white_space(#[trigger] back[i]),
    ensures
        yes == still,
{
    let r = response@;
    let p = padded@;
    let n = front.len() as int;
    assert(!text::is_white_space('y') && !text::is_white_space('Y'));
    if yes {
        let k = choose|k: int|
            {
                &&& 0 <= k < r.len()
                &&& #[trigger] r[k] == 'y' || r[k] == 'Y'
                &&& forall|i: int|
                    0 <= i < r.len() && i != k ==> text::is_white_space(#[trigger] r[i])
            };
        assert forall|i: int| 0 <= i < p.len() && i != n + k implies text::is_white_space(
            #[trigger] p[i],
        ) by {
            if i < n {
                assert(p[i] == front[i]);
            } else if i < n + r.len() {
                assert(p[i] == r[i - n]);
            } else {
                assert(p[i] == back[i - n - r.len()]);
            }
        }
        assert(p[n + k] == r[k]);
    }
    if still {
        let k = choose|k: int|
            {
                &&& 0 <= k < p.len()
                &&& #[trigger] p[k] == 'y' || p[k] == 'Y'
                &&& forall|i: int|
                    0 <= i < p.len() && i != k ==> text::is_white_space(#[trigger] p[i])
            };
        assert(n <= k < n + r.len()) by {
            if k < n {
                assert(p[k] == front[k]);
            } else if k >= n + r.len() {
                assert(p[k] == back[k - n - r.len()]);
            }
        }
        assert(r[k - n] == p[k]);
        assert forall|i: int| 0 <= i < r.len() && i != k - n implies text::is_white_space(
            #[trigger] r[i],
        ) by {
            assert(r[i] == p[n + i]);
        }
    }
}

/// An answer without white space around it says yes exactly where it is one letter y,
/// small or capital.
pub proof fn only_the_letter_says_yes(response: &str, yes: bool)
    requires
        call_ensures(confirms, (response,), yes),
        response@.len() > 0 ==> !text::is_white_space(response@[0]) && !text::is_white_space(
            response@.last(),
        ),
    ensures
        yes <==> response@.len() == 1 && (response@[0] == 'y' || response@[0] == 'Y'),
{
    let r = response@;
    if yes {
        let k = choose|k: int|
            {
                &&& 0 <= k < r.len()
                &&& #[trigger] r[k] == 'y' || r[k] == 'Y'
                &&& forall|i: int|
                    0 <= i < r.len() && i != k ==> text::is_white_space(#[trigger] r[i])
            };
        if k != 0 {
            assert(text::is_white_space(r[0]));
        }
        if k != r.len() - 1 {
            assert(text::is_white_space(r[r.len() - 1]));
        }
    }
}

proof fn lemma_sizes_add_up(a: Seq<FileRecord>, b: Seq<FileRecord>)
    ensures
        report::sum_of_sizes(a + b) == report::sum_of_sizes(a) + report::sum_of_sizes(b),
    decreases b.len(),
{
    if b.len() == 0 {
        assert(a + b =~= a);
    } else {
        lemma_sizes_add_up(a, b.drop_last());
        assert((a + b).drop_last() =~= a + b.drop_last());
    }
}

/// Sizes add up: the size of files is that of the first of them and of the others.
pub proof fn sizes_add_up(
    front: &Vec<FileRecord>,
    back: &Vec<FileRecord>,
    whole: &Vec<FileRecord>,
    a: i128,
    b: i128,
    all: i128,
)
    requires
        call_ensures(total_size, (front,), a),
        call_ensures(total_size, (back,), b),
        call_ensures(total_size, (whole,), all),
        whole@ == front@ + back@,
    ensures
        all == a + b,
{
    lemma_sizes_add_up(front@, back@);
}

/// The size of one file is its size, and no files have none.
pub proof fn one_file_has_its_size(files: &Vec<FileRecord>, size: i128)
    requires
        call_ensures(total_size, (files,), size),
        files@.len() <= 1,
    ensures
        size == if files@.len() == 1 {
            files@[0].size as int
        } else {
            0
        },
{
    reveal_with_fuel(report::sum_of_sizes, 2);
}

proof fn lemma_sizes_at(files: Seq<FileRecord>, at: Seq<usize>, chosen: Seq<FileRecord>)
    requires
        chosen.len() == at.len(),
        forall|i: int| 0 <= i < at.len() ==> #[trigger] chosen[i] == files[at[i] as int],
    ensures
        filter_duplicates::sizes_at(files, at) == report::sum_of_sizes(chosen),
    decreases at.len(),
{
    if at.len() > 0 {
        lemma_sizes_at(files, at.drop_last(), chosen.drop_last());
        assert(chosen[at.len() - 1] == files[at.last() as int]);
    }
}

/// The size of what a pass hashes is that of the files at its positions.
pub proof fn the_size_to_hash_is_that_of_the_files(
    pass: &HashPass,
    files: &Vec<FileRecord>,
    pending: &Vec<usize>,
    size: i128,
    chosen: &Vec<FileRecord>,
    total: i128,
)
    requires
        call_ensures(HashPass::pending_size, (pass,), size),
        call_ensures(HashPass::files, (pass,), files),
        call_ensures(HashPass::pending, (pass,), pending),
        chosen@.len() == pending@.len(),
        forall|i: int|
            0 <= i < pending@.len() ==> #[trigger] chosen@[i] == files@[pending@[i] as int],
        call_ensures(total_size, (chosen,), total),
    ensures
        size == total,
{
    lemma_sizes_at(files@, pending@, chosen@);
}

} // verus!
