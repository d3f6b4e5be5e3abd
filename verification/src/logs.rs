//! Numbers in the logs of a build.
use vstd::prelude::*;

use crate::catalog::{metric_pattern_of, scale_pattern_of, test_metric_re, test_scale_re};
use crate::text::{
    digits_value, i32_to_text, int_text, is_digit, law_i64_text_is_read, lemma_leading_digits,
    lemma_nat_text, nat_text, parse_u32, text_from_utf8, u32_of, utf8_of, IntError,
};

verus! {

/// Why a log does not give a number.
#[derive(Clone, Copy, Debug, PartialEq, Eq, Structural)]
pub enum LogError {
    /// The log is not UTF-8.
    NotUtf8,
    /// The number's place is not found in the log.
    NoMatch,
    /// What stands in the number's place is no number of the wanted type.
    NotNumber(IntError),
}

/// A place in a log: a fixed text, then the number.
pub struct NumberPlace {
    /// The text before the number.
    pub lead: Seq<char>,
    /// Whether one space or more stands between the text and the number.
    pub gap: bool,
    /// Whether the number is two rows of digits with one character between them that does not
    /// end the line. Otherwise it is one row of digits.
    pub fraction: bool,
}

/// What the first group of a pattern holds.
pub enum Meaning {
    /// The pattern has no group.
    NoGroup,
    /// The group holds the number at this place.
    Number(NumberPlace),
}

pub open spec fn number_place(lead: Seq<char>, gap: bool, fraction: bool) -> Option<Meaning> {
    Some(Meaning::Number(NumberPlace { lead, gap, fraction }))
}

/// The meaning of the patterns that are used on logs.
pub open spec fn meaning_of(pattern: Seq<char>) -> Option<Meaning> {
    if pattern == "Throughput: ([0-9]+.[0-9]+)"@ {
        number_place("Throughput: "@, false, true)
    } else if pattern == "Composite Score: +([0-9]+.[0-9]+)"@ {
        number_place("Composite Score:"@, true, true)
    } else if pattern == "Reported Throughput: +([0-9]+.[0-9]+)"@ {
        number_place("Reported Throughput:"@, true, true)
    } else if pattern == "Queries per Hour: ([0-9]+.[0-9]+)"@ {
        number_place("Queries per Hour: "@, false, true)
    } else if pattern == "SCALE FACTOR \\(WAREHOUSES\\): ([0-9]+)"@ {
        number_place("SCALE FACTOR (WAREHOUSES): "@, false, false)
    } else if pattern == "SCALE: ([0-9]+)"@ {
        number_place("SCALE: "@, false, false)
    } else if pattern == "Configured Customers: +([0-9]+)"@ {
        number_place("Configured Customers:"@, true, false)
    } else if pattern == "Scale: +([0-9]+)"@ {
        number_place("Scale:"@, true, false)
    } else if pattern == ""@ {
        Some(Meaning::NoGroup)
    } else {
        None
    }
}

/// Whether the characters `from..to` of `text` are digits, at least one.
pub open spec fn digit_span(text: Seq<char>, from: int, to: int) -> bool {
    &&& 0 <= from < to <= text.len()
    &&& forall|x: int| from <= x < to ==> is_digit(#[trigger] text[x])
}

/// Whether the characters `from..to` of `text` are spaces.
pub open spec fn space_span(text: Seq<char>, from: int, to: int) -> bool {
    forall|x: int| from <= x < to ==> #[trigger] text[x] == ' '
}

/// Whether the characters `from..to` of `text` are a number.
pub open spec fn number_span(text: Seq<char>, fraction: bool, from: int, to: int) -> bool {
    if fraction {
        exists|point: int|
            #[trigger] digit_span(text, from, point) && text[point] != '\n' && digit_span(
                text,
                point + 1,
                to,
            )
    } else {
        digit_span(text, from, to)
    }
}

/// Whether the place is found in `text` at index `at`, with the number in the characters
/// `from..to`.
pub open spec fn found_at(text: Seq<char>, p: NumberPlace, at: int, from: int, to: int) -> bool {
    let behind = at + p.lead.len();
    &&& 0 <= at
    &&& behind <= from <= to <= text.len()
    &&& text.subrange(at, behind) == p.lead
    &&& if p.gap {
        behind < from && space_span(text, behind, from)
    } else {
        behind == from
    }
    &&& number_span(text, p.fraction, from, to)
}

/// Whether the place is found at `at` and not before, with the longest number that can be found
/// there.
pub open spec fn first_found_at(
    text: Seq<char>,
    p: NumberPlace,
    at: int,
    from: int,
    to: int,
) -> bool {
    &&& found_at(text, p, at, from, to)
    &&& forall|at2: int, from2: int, to2: int| #[trigger]
        found_at(text, p, at2, from2, to2) ==> at < at2 || (at == at2 && to2 <= to)
}

/// The number at the first occurrence of a place, if it occurs.
pub open spec fn number_at(text: Seq<char>, p: NumberPlace) -> Option<Seq<char>> {
    if exists|at: int, from: int, to: int| first_found_at(text, p, at, from, to) {
        let (at, from, to) = choose|at: int, from: int, to: int|
            first_found_at(text, p, at, from, to);
        Some(text.subrange(from, to))
    } else {
        None
    }
}

/// What the first group of a pattern holds after a search in `text`.
pub open spec fn group_in(text: Seq<char>, m: Meaning) -> Option<Seq<char>> {
    match m {
        Meaning::NoGroup => None,
        Meaning::Number(p) => number_at(text, p),
    }
}

/// Calls `regex::Regex::new`, then `Regex::captures`, `Captures::get` and `Match::as_str`. What
/// is claimed of them, for the patterns that have a meaning here: the pattern compiles; the
/// search finds the leftmost place where the pattern matches, if there is one; each repetition
/// takes as many characters as the match allows, so that the group holds the longest number that
/// can be found there; and a group that the pattern lacks is not there.
#[verifier::external_body]
pub(crate) fn capture(pattern: &str, text: &str, group: usize) -> (r: Option<String>)
    requires
        meaning_of(pattern@) is Some,
        group == 1,
    ensures
        group_in(text@, meaning_of(pattern@)->0) == (match r {
            Some(t) => Some(t@),
            None => None,
        }),
{
    let regex = regex::Regex::new(pattern).unwrap();
    let captures = regex.captures(text)?;
    Some(captures.get(group)?.as_str().to_string())
}

/// The address of a log's text.
pub open spec fn log_url_of(buildbot_url: Seq<char>, log_id: int) -> Seq<char> {
    buildbot_url + "/api/v2/logs/"@ + int_text(log_id) + "/raw_inline"@
}

/// The address of a log's text.
pub fn log_url(buildbot_url: &str, log_id: i32) -> (r: String)
    ensures
        r@ == log_url_of(buildbot_url@, log_id as int),
        r@ == buildbot_url@ + "/api/v2/logs/"@ + int_text(log_id as int) + "/raw_inline"@,
{
    let mut url = buildbot_url.to_owned();
    url.append("/api/v2/logs/");
    url.append(i32_to_text(log_id).as_str());
    url.append("/raw_inline");
    url
}

/// Different logs have different addresses.
pub proof fn law_log_urls_differ(buildbot_url: Seq<char>, a: i32, b: i32)
    requires
        a != b,
    ensures
        log_url_of(buildbot_url, a as int) != log_url_of(buildbot_url, b as int),
{
    let front = buildbot_url + "/api/v2/logs/"@;
    let back = "/raw_inline"@;
    let x = log_url_of(buildbot_url, a as int);
    let y = log_url_of(buildbot_url, b as int);
    assert(x.subrange(front.len() as int, x.len() - back.len()) =~= int_text(a as int));
    assert(y.subrange(front.len() as int, y.len() - back.len()) =~= int_text(b as int));
    law_i64_text_is_read(a as int);
    law_i64_text_is_read(b as int);
}

/// What a pattern's first group holds after a search in a log.
pub open spec fn number_text(pattern: Seq<char>, log: Seq<u8>) -> Result<Seq<char>, LogError> {
    match utf8_of(log) {
        None => Err(LogError::NotUtf8),
        Some(text) => match group_in(text, meaning_of(pattern)->0) {
            None => Err(LogError::NoMatch),
            Some(number) => Ok(number),
        },
    }
}

fn read_number(pattern: &str, log: &[u8]) -> (r: Result<String, LogError>)
    requires
        meaning_of(pattern@) is Some,
    ensures
        number_text(pattern@, log@) == (match r {
            Ok(t) => Ok::<Seq<char>, LogError>(t@),
            Err(e) => Err(e),
        }),
{
    match text_from_utf8(log) {
        None => Err(LogError::NotUtf8),
        Some(text) => match capture(pattern, text.as_str(), 1) {
            None => Err(LogError::NoMatch),
            Some(number) => Ok(number),
        },
    }
}

/// The metric that the summary log of a test reports, as it is written there.
pub open spec fn metric_of(test: Seq<char>, log: Seq<u8>) -> Result<Seq<char>, LogError> {
    number_text(metric_pattern_of(test), log)
}

/// The scale factor that the log of a test reports.
pub open spec fn scale_of(test: Seq<char>, log: Seq<u8>) -> Result<int, LogError> {
    match number_text(scale_pattern_of(test), log) {
        Err(e) => Err(e),
        Ok(number) => match u32_of(number) {
            Err(e) => Err(LogError::NotNumber(e)),
            Ok(n) => Ok(n),
        },
    }
}

/// The metric that the summary log of a test reports, as it is written there.
pub fn test_metric(test: &str, log: &[u8]) -> (r: Result<String, LogError>)
    ensures
        metric_of(test@, log@) == (match r {
            Ok(t) => Ok::<Seq<char>, LogError>(t@),
            Err(e) => Err(e),
        }),
{
    let pattern = test_metric_re(test);
    read_number(pattern.as_str(), log)
}

/// The scale factor that the log of a test reports.
pub fn test_scale(test: &str, log: &[u8]) -> (r: Result<u32, LogError>)
    ensures
        scale_of(test@, log@) == (match r {
            Ok(n) => Ok::<int, LogError>(n as int),
            Err(e) => Err(e),
        }),
{
    let pattern = test_scale_re(test);
    match read_number(pattern.as_str(), log) {
        Err(e) => Err(e),
        Ok(number) => match parse_u32(number.as_str()) {
            Err(e) => Err(LogError::NotNumber(e)),
            Ok(n) => Ok(n),
        },
    }
}

/// A number starts with a digit.
proof fn lemma_number_starts_with_digit(text: Seq<char>, fraction: bool, from: int, to: int)
    requires
        number_span(text, fraction, from, to),
    ensures
        0 <= from < to <= text.len(),
        is_digit(text[from]),
{
    if fraction {
        let point = choose|point: int|
            #[trigger] digit_span(text, from, point) && text[point] != '\n' && digit_span(
                text,
                point + 1,
                to,
            );
        assert(digit_span(text, from, point));
        assert(digit_span(text, point + 1, to));
    }
}

/// The number behind the place's text starts at one index only.
proof fn lemma_one_start(
    text: Seq<char>,
    p: NumberPlace,
    at: int,
    from: int,
    to: int,
    from2: int,
    to2: int,
)
    requires
        found_at(text, p, at, from, to),
        found_at(text, p, at, from2, to2),
    ensures
        from == from2,
{
    lemma_number_starts_with_digit(text, p.fraction, from, to);
    lemma_number_starts_with_digit(text, p.fraction, from2, to2);
    if p.gap {
        if from < from2 {
            assert(text[from] == ' ');
        }
        if from2 < from {
            assert(text[from2] == ' ');
        }
    }
}

/// From a place that is found there is a longest number that is found at the same index.
proof fn lemma_longest(
    text: Seq<char>,
    p: NumberPlace,
    at: int,
    from: int,
    to: int,
) -> (longest: int)
    requires
        found_at(text, p, at, from, to),
    ensures
        found_at(text, p, at, from, longest),
        forall|from2: int, to2: int| #[trigger]
            found_at(text, p, at, from2, to2) ==> to2 <= longest,
    decreases text.len() - to,
{
    if exists|from2: int, to2: int| #[trigger] found_at(text, p, at, from2, to2) && to < to2 {
        let (from2, to2) = choose|from2: int, to2: int| #[trigger]
            found_at(text, p, at, from2, to2) && to < to2;
        lemma_one_start(text, p, at, from, to, from2, to2);
        lemma_longest(text, p, at, from, to2)
    } else {
        to
    }
}

/// A place that is found is found somewhere first.
proof fn lemma_first_found(text: Seq<char>, p: NumberPlace, at: int, from: int, to: int)
    requires
        found_at(text, p, at, from, to),
    ensures
        exists|at2: int, from2: int, to2: int| first_found_at(text, p, at2, from2, to2),
    decreases at,
{
    if exists|at2: int, from2: int, to2: int| #[trigger]
        found_at(text, p, at2, from2, to2) && at2 < at {
        let (at2, from2, to2) = choose|at2: int, from2: int, to2: int| #[trigger]
            found_at(text, p, at2, from2, to2) && at2 < at;
        lemma_first_found(text, p, at2, from2, to2);
    } else {
        let longest = lemma_longest(text, p, at, from, to);
        assert(first_found_at(text, p, at, from, longest));
    }
}

/// The search for a place gives the number at its first occurrence: nothing if it does not
/// occur, and otherwise the longest number that can be found there.
pub proof fn law_number_at(text: Seq<char>, p: NumberPlace, at: int, from: int, to: int)
    ensures
        number_at(text, p) is Some <==> exists|at2: int, from2: int, to2: int|
            found_at(text, p, at2, from2, to2),
        first_found_at(text, p, at, from, to) ==> number_at(text, p) == Some(
            text.subrange(from, to),
        ),
{
    if exists|at2: int, from2: int, to2: int| found_at(text, p, at2, from2, to2) {
        let (at2, from2, to2) = choose|at2: int, from2: int, to2: int|
            found_at(text, p, at2, from2, to2);
        lemma_first_found(text, p, at2, from2, to2);
    }
    if first_found_at(text, p, at, from, to) {
        let (at2, from2, to2) = choose|at2: int, from2: int, to2: int|
            first_found_at(text, p, at2, from2, to2);
        assert(first_found_at(text, p, at2, from2, to2));
        assert(found_at(text, p, at, from, to));
        assert(found_at(text, p, at2, from2, to2));
        lemma_one_start(text, p, at, from, to, from2, to2);
    }
}

/// What a group holds is a part of the text that starts with a digit. Where the place has no
/// fraction, it is digits alone.
pub proof fn law_group_is_number(text: Seq<char>, p: NumberPlace, number: Seq<char>)
    requires
        number_at(text, p) == Some(number),
    ensures
        exists|from: int, to: int|
            0 <= from < to <= text.len() && number == #[trigger] text.subrange(from, to),
        number.len() > 0,
        is_digit(number[0]),
        !p.fraction ==> forall|i: int| 0 <= i < number.len() ==> is_digit(#[trigger] number[i]),
{
    let (at, from, to) = choose|at: int, from: int, to: int|
        first_found_at(text, p, at, from, to);
    assert(first_found_at(text, p, at, from, to));
    lemma_number_starts_with_digit(text, p.fraction, from, to);
    assert(number == text.subrange(from, to));
    assert(number[0] == text[from]);
    if !p.fraction {
        assert forall|i: int| 0 <= i < number.len() implies is_digit(#[trigger] number[i]) by {
            assert(number[i] == text[from + i]);
        }
    }
}

/// The patterns differ in their lengths or in their first characters.
proof fn lemma_patterns_differ()
    ensures
        "Throughput: ([0-9]+.[0-9]+)"@.len() == 27,
        "Composite Score: +([0-9]+.[0-9]+)"@.len() == 33,
        "Composite Score: +([0-9]+.[0-9]+)"@[0] == 'C',
        "Reported Throughput: +([0-9]+.[0-9]+)"@.len() == 37,
        "Reported Throughput: +([0-9]+.[0-9]+)"@[0] == 'R',
        "Queries per Hour: ([0-9]+.[0-9]+)"@.len() == 33,
        "Queries per Hour: ([0-9]+.[0-9]+)"@[0] == 'Q',
        "SCALE FACTOR \\(WAREHOUSES\\): ([0-9]+)"@.len() == 37,
        "SCALE FACTOR \\(WAREHOUSES\\): ([0-9]+)"@[0] == 'S',
        "SCALE: ([0-9]+)"@.len() == 15,
        "Configured Customers: +([0-9]+)"@.len() == 31,
        "Scale: +([0-9]+)"@.len() == 16,
        ""@.len() == 0,
{
    reveal_strlit("Throughput: ([0-9]+.[0-9]+)");
    reveal_strlit("Composite Score: +([0-9]+.[0-9]+)");
    reveal_strlit("Reported Throughput: +([0-9]+.[0-9]+)");
    reveal_strlit("Queries per Hour: ([0-9]+.[0-9]+)");
    reveal_strlit("SCALE FACTOR \\(WAREHOUSES\\): ([0-9]+)");
    reveal_strlit("SCALE: ([0-9]+)");
    reveal_strlit("Configured Customers: +([0-9]+)");
    reveal_strlit("Scale: +([0-9]+)");
    reveal_strlit("");
}

/// What the patterns of the known tests look for, and that those of other tests look for nothing.
pub proof fn law_meanings(test: Seq<char>)
    ensures
        meaning_of(scale_pattern_of(test)) == (if test == "dbt2"@ {
            number_place("SCALE FACTOR (WAREHOUSES): "@, false, false)
        } else if test == "dbt3"@ {
            number_place("SCALE: "@, false, false)
        } else if test == "dbt5"@ {
            number_place("Configured Customers:"@, true, false)
        } else if test == "dbt7"@ {
            number_place("Scale:"@, true, false)
        } else {
            Some(Meaning::NoGroup)
        }),
        meaning_of(metric_pattern_of(test)) == (if test == "dbt2"@ {
            number_place("Throughput: "@, false, true)
        } else if test == "dbt3"@ {
            number_place("Composite Score:"@, true, true)
        } else if test == "dbt5"@ {
            number_place("Reported Throughput:"@, true, true)
        } else if test == "dbt7"@ {
            number_place("Queries per Hour: "@, false, true)
        } else {
            Some(Meaning::NoGroup)
        }),
{
    lemma_patterns_differ();
}

/// The logs of a test that is not known give no number.
pub proof fn law_unknown_test_has_no_numbers(test: Seq<char>, log: Seq<u8>)
    requires
        !crate::catalog::is_known(test),
    ensures
        scale_of(test, log) is Err,
        metric_of(test, log) is Err,
{
    law_meanings(test);
}

/// A row of digits that spells a scale factor is too large at worst.
pub proof fn law_scale_fails_only_above_range(test: Seq<char>, log: Seq<u8>)
    ensures
        scale_of(test, log) matches Err(LogError::NotNumber(e)) ==> e == IntError::PosOverflow,
{
    law_meanings(test);
    match number_text(scale_pattern_of(test), log) {
        Ok(number) => {
            let m = meaning_of(scale_pattern_of(test))->0;
            let p = m->Number_0;
            law_group_is_number(utf8_of(log)->0, p, number);
            lemma_leading_digits(number, number.len() as int);
            assert(number.take(number.len() as int) =~= number);
        },
        Err(_) => {},
    }
}

/// Where the parts of a text with a number in it lie.
proof fn lemma_layout(
    front: Seq<char>,
    lead: Seq<char>,
    spaces: Seq<char>,
    number: Seq<char>,
    back: Seq<char>,
)
    ensures
        ({
            let text = front + lead + spaces + number + back;
            let behind = front.len() + lead.len() as int;
            let from = behind + spaces.len();
            let to = from + number.len();
            &&& text.len() == to + back.len()
            &&& text.subrange(front.len() as int, behind) == lead
            &&& text.subrange(from, to) == number
            &&& forall|x: int| behind <= x < from ==> #[trigger] text[x] == spaces[x - behind]
            &&& forall|x: int| from <= x < to ==> #[trigger] text[x] == number[x - from]
            &&& to < text.len() ==> text[to] == back[0]
        }),
{
    let text = front + lead + spaces + number + back;
    let behind = front.len() + lead.len() as int;
    let from = behind + spaces.len();
    assert(text.subrange(front.len() as int, behind) =~= lead);
    assert(text.subrange(from, from + number.len()) =~= number);
}

/// A row of digits that is written in a log at the place where the scale factor is due, and not
/// before, is read as the scale factor, or is refused when it is worth more than 32 bits hold.
pub proof fn law_written_scale_digits_are_read(
    test: Seq<char>,
    log: Seq<u8>,
    p: NumberPlace,
    front: Seq<char>,
    spaces: Seq<char>,
    digits: Seq<char>,
    back: Seq<char>,
)
    requires
        meaning_of(scale_pattern_of(test)) == Some(Meaning::Number(p)),
        utf8_of(log) == Some(front + p.lead + spaces + digits + back),
        if p.gap {
            spaces.len() > 0 && forall|i: int| 0 <= i < spaces.len() ==> #[trigger] spaces[i] == ' '
        } else {
            spaces.len() == 0
        },
        digit_span(digits, 0, digits.len() as int),
        back.len() == 0 || !is_digit(back[0]),
        forall|at: int, from: int, to: int| #[trigger]
            found_at(utf8_of(log)->0, p, at, from, to) ==> front.len() <= at,
    ensures
        scale_of(test, log) == (if digits_value(digits) <= u32::MAX {
            Ok::<int, LogError>(digits_value(digits))
        } else {
            Err(LogError::NotNumber(IntError::PosOverflow))
        }),
{
    let text = front + p.lead + spaces + digits + back;
    let at = front.len() as int;
    let behind = at + p.lead.len();
    let from = behind + spaces.len();
    let to = from + digits.len();
    assert(!p.fraction) by {
        law_meanings(test);
    }
    lemma_layout(front, p.lead, spaces, digits, back);
    assert(space_span(text, behind, from));
    assert(digit_span(text, from, to));
    assert(found_at(text, p, at, from, to));
    assert forall|at2: int, from2: int, to2: int| #[trigger]
        found_at(text, p, at2, from2, to2) implies at < at2 || (at == at2 && to2 <= to) by {
        if at == at2 {
            lemma_one_start(text, p, at, from, to, from2, to2);
            if to < to2 {
                assert(is_digit(text[to]));
                assert(text[to] == back[0]);
            }
        }
    }
    law_number_at(text, p, at, from, to);
    lemma_leading_digits(digits, digits.len() as int);
    assert(digits.take(digits.len() as int) =~= digits);
    assert(is_digit(digits[0]));
}

/// A scale factor that is written in a log at the place where it is due, and not before, is read
/// back.
pub proof fn law_written_scale_is_read(
    test: Seq<char>,
    log: Seq<u8>,
    p: NumberPlace,
    front: Seq<char>,
    spaces: Seq<char>,
    n: nat,
    back: Seq<char>,
)
    requires
        meaning_of(scale_pattern_of(test)) == Some(Meaning::Number(p)),
        n <= u32::MAX,
        utf8_of(log) == Some(front + p.lead + spaces + nat_text(n) + back),
        if p.gap {
            spaces.len() > 0 && forall|i: int| 0 <= i < spaces.len() ==> #[trigger] spaces[i] == ' '
        } else {
            spaces.len() == 0
        },
        back.len() == 0 || !is_digit(back[0]),
        forall|at: int, from: int, to: int| #[trigger]
            found_at(utf8_of(log)->0, p, at, from, to) ==> front.len() <= at,
    ensures
        scale_of(test, log) == Ok::<int, LogError>(n as int),
{
    lemma_nat_text(n);
    law_written_scale_digits_are_read(test, log, p, front, spaces, nat_text(n), back);
}

/// Digits, one character that is none, and digits that no digit follows are the longest number
/// at their place.
proof fn lemma_longest_fraction(
    text: Seq<char>,
    p: NumberPlace,
    at: int,
    from: int,
    mid: int,
    to: int,
)
    requires
        p.fraction,
        0 <= at,
        at + p.lead.len() <= from,
        text.subrange(at, at + p.lead.len()) == p.lead,
        if p.gap {
            at + p.lead.len() < from && space_span(text, at + p.lead.len(), from)
        } else {
            at + p.lead.len() == from
        },
        digit_span(text, from, mid),
        digit_span(text, mid + 1, to),
        !is_digit(text[mid]),
        text[mid] != '\n',
        to < text.len() ==> !is_digit(text[to]),
        forall|at2: int, from2: int, to2: int| #[trigger]
            found_at(text, p, at2, from2, to2) ==> at <= at2,
    ensures
        number_at(text, p) == Some(text.subrange(from, to)),
{
    assert(found_at(text, p, at, from, to));
    assert forall|at2: int, from2: int, to2: int| #[trigger]
        found_at(text, p, at2, from2, to2) implies at < at2 || (at == at2 && to2 <= to) by {
        if at == at2 {
            lemma_one_start(text, p, at, from, to, from2, to2);
            let mid2 = choose|mid2: int|
                #[trigger] digit_span(text, from2, mid2) && text[mid2] != '\n' && digit_span(
                    text,
                    mid2 + 1,
                    to2,
                );
            assert(digit_span(text, from2, mid2));
            assert(digit_span(text, mid2 + 1, to2));
            if mid < mid2 {
                assert(is_digit(text[mid]));
            }
            if to < to2 {
                if mid2 < mid {
                    assert(is_digit(text[mid]));
                } else {
                    assert(is_digit(text[to]));
                }
            }
        }
    }
    law_number_at(text, p, at, from, to);
}

/// Where the parts of a text with a fraction in it lie.
#[verifier::spinoff_prover]
proof fn lemma_fraction_layout(
    front: Seq<char>,
    lead: Seq<char>,
    spaces: Seq<char>,
    whole: Seq<char>,
    point: char,
    fraction: Seq<char>,
    back: Seq<char>,
)
    requires
        digit_span(whole, 0, whole.len() as int),
        digit_span(fraction, 0, fraction.len() as int),
    ensures
        ({
            let number = whole + seq![point] + fraction;
            let text = front + lead + spaces + number + back;
            let behind = front.len() + lead.len() as int;
            let from = behind + spaces.len();
            let mid = from + whole.len();
            let to = from + number.len();
            &&& text.len() == to + back.len()
            &&& text.subrange(front.len() as int, behind) == lead
            &&& text.subrange(from, to) == number
            &&& (forall|i: int| 0 <= i < spaces.len() ==> #[trigger] spaces[i] == ' ')
                ==> space_span(text, behind, from)
            &&& digit_span(text, from, mid)
            &&& text[mid] == point
            &&& digit_span(text, mid + 1, to)
            &&& to < text.len() ==> text[to] == back[0]
        }),
{
    let number = whole + seq![point] + fraction;
    let text = front + lead + spaces + number + back;
    let behind = front.len() + lead.len() as int;
    let from = behind + spaces.len();
    let mid = from + whole.len();
    let to = from + number.len();
    lemma_layout(front, lead, spaces, number, back);
    assert forall|x: int| from <= x < mid implies is_digit(#[trigger] text[x]) by {
        assert(number[x - from] == whole[x - from]);
    }
    assert forall|x: int| mid + 1 <= x < to implies is_digit(#[trigger] text[x]) by {
        assert(number[x - from] == fraction[x - mid - 1]);
    }
    assert(number[mid - from] == point);
}

/// A number with a fraction that stands behind the first occurrence of its place's text is found.
proof fn lemma_fraction_is_found(
    p: NumberPlace,
    front: Seq<char>,
    spaces: Seq<char>,
    whole: Seq<char>,
    point: char,
    fraction: Seq<char>,
    back: Seq<char>,
)
    requires
        p.fraction,
        if p.gap {
            spaces.len() > 0 && forall|i: int| 0 <= i < spaces.len() ==> #[trigger] spaces[i] == ' '
        } else {
            spaces.len() == 0
        },
        digit_span(whole, 0, whole.len() as int),
        digit_span(fraction, 0, fraction.len() as int),
        !is_digit(point),
        point != '\n',
        back.len() == 0 || !is_digit(back[0]),
        forall|at: int, from: int, to: int| #[trigger]
            found_at(
                front + p.lead + spaces + (whole + seq![point] + fraction) + back,
                p,
                at,
                from,
                to,
            ) ==> front.len() <= at,
    ensures
        number_at(front + p.lead + spaces + (whole + seq![point] + fraction) + back, p) == Some(
            whole + seq![point] + fraction,
        ),
{
    let number = whole + seq![point] + fraction;
    let text = front + p.lead + spaces + number + back;
    let at = front.len() as int;
    let from = at + p.lead.len() + spaces.len();
    let mid = from + whole.len();
    let to = from + number.len();
    lemma_fraction_layout(front, p.lead, spaces, whole, point, fraction, back);
    lemma_longest_fraction(text, p, at, from, mid, to);
}

/// A metric with a fraction that is written in a log at the place where it is due, and not
/// before, is read back as it is written.
pub proof fn law_written_metric_is_read(
    test: Seq<char>,
    log: Seq<u8>,
    p: NumberPlace,
    front: Seq<char>,
    spaces: Seq<char>,
    whole: Seq<char>,
    point: char,
    fraction: Seq<char>,
    back: Seq<char>,
)
    requires
        meaning_of(metric_pattern_of(test)) == Some(Meaning::Number(p)),
        utf8_of(log) == Some(
            front + p.lead + spaces + (whole + seq![point] + fraction) + back,
        ),
        if p.gap {
            spaces.len() > 0 && forall|i: int| 0 <= i < spaces.len() ==> #[trigger] spaces[i] == ' '
        } else {
            spaces.len() == 0
        },
        digit_span(whole, 0, whole.len() as int),
        digit_span(fraction, 0, fraction.len() as int),
        !is_digit(point),
        point != '\n',
        back.len() == 0 || !is_digit(back[0]),
        forall|at: int, from: int, to: int| #[trigger]
            found_at(utf8_of(log)->0, p, at, from, to) ==> front.len() <= at,
    ensures
        metric_of(test, log) == Ok::<Seq<char>, LogError>(whole + seq![point] + fraction),
{
    assert(p.fraction) by {
        law_meanings(test);
    }
    lemma_fraction_is_found(p, front, spaces, whole, point, fraction, back);
}

/// Three digits or more that no digit follows, and no other character with a digit behind it on
/// the same line, are the longest number at their place.
proof fn lemma_longest_row(text: Seq<char>, p: NumberPlace, at: int, from: int, to: int)
    requires
        p.fraction,
        0 <= at,
        at + p.lead.len() <= from,
        text.subrange(at, at + p.lead.len()) == p.lead,
        if p.gap {
            at + p.lead.len() < from && space_span(text, at + p.lead.len(), from)
        } else {
            at + p.lead.len() == from
        },
        digit_span(text, from, to),
        from + 3 <= to,
        to < text.len() ==> !is_digit(text[to]),
        to + 1 < text.len() ==> text[to] == '\n' || !is_digit(text[to + 1]),
        forall|at2: int, from2: int, to2: int| #[trigger]
            found_at(text, p, at2, from2, to2) ==> at <= at2,
    ensures
        number_at(text, p) == Some(text.subrange(from, to)),
{
    assert(is_digit(text[to - 2]));
    assert(digit_span(text, from, to - 2));
    assert(digit_span(text, to - 2 + 1, to));
    assert(found_at(text, p, at, from, to));
    assert forall|at2: int, from2: int, to2: int| #[trigger]
        found_at(text, p, at2, from2, to2) implies at < at2 || (at == at2 && to2 <= to) by {
        if at == at2 {
            lemma_one_start(text, p, at, from, to, from2, to2);
            let mid2 = choose|mid2: int|
                #[trigger] digit_span(text, from2, mid2) && text[mid2] != '\n' && digit_span(
                    text,
                    mid2 + 1,
                    to2,
                );
            assert(digit_span(text, from2, mid2));
            assert(digit_span(text, mid2 + 1, to2));
            if to < to2 {
                if to != mid2 {
                    assert(is_digit(text[to]));
                } else {
                    assert(is_digit(text[to + 1]));
                }
            }
        }
    }
    law_number_at(text, p, at, from, to);
}

/// A row of digits that stands behind the first occurrence of its place's text is found.
proof fn lemma_row_is_found(
    p: NumberPlace,
    front: Seq<char>,
    spaces: Seq<char>,
    digits: Seq<char>,
    back: Seq<char>,
)
    requires
        p.fraction,
        if p.gap {
            spaces.len() > 0 && forall|i: int| 0 <= i < spaces.len() ==> #[trigger] spaces[i] == ' '
        } else {
            spaces.len() == 0
        },
        digit_span(digits, 0, digits.len() as int),
        digits.len() >= 3,
        ends_number(back),
        forall|at: int, from: int, to: int| #[trigger]
            found_at(front + p.lead + spaces + digits + back, p, at, from, to) ==> front.len()
                <= at,
    ensures
        number_at(front + p.lead + spaces + digits + back, p) == Some(digits),
{
    let text = front + p.lead + spaces + digits + back;
    let at = front.len() as int;
    let behind = at + p.lead.len();
    let from = behind + spaces.len();
    let to = from + digits.len();
    lemma_layout(front, p.lead, spaces, digits, back);
    assert(space_span(text, behind, from));
    assert(digit_span(text, from, to));
    if to + 1 < text.len() {
        assert(text[to + 1] == back[1]);
    }
    lemma_longest_row(text, p, at, from, to);
}

/// Whether a row of digits ends where `back` follows it: `back` is empty, or starts a new line, or
/// starts with a character that is no digit and that no digit follows.
pub open spec fn ends_number(back: Seq<char>) -> bool {
    ||| back.len() == 0
    ||| back[0] == '\n'
    ||| !is_digit(back[0]) && (back.len() == 1 || !is_digit(back[1]))
}

/// A metric without a fraction, of three digits or more, that is written in a log at the place
/// where it is due, and not before, is read back as it is written.
pub proof fn law_written_whole_metric_is_read(
    test: Seq<char>,
    log: Seq<u8>,
    p: NumberPlace,
    front: Seq<char>,
    spaces: Seq<char>,
    digits: Seq<char>,
    back: Seq<char>,
)
    requires
        meaning_of(metric_pattern_of(test)) == Some(Meaning::Number(p)),
        utf8_of(log) == Some(front + p.lead + spaces + digits + back),
        if p.gap {
            spaces.len() > 0 && forall|i: int| 0 <= i < spaces.len() ==> #[trigger] spaces[i] == ' '
        } else {
            spaces.len() == 0
        },
        digit_span(digits, 0, digits.len() as int),
        digits.len() >= 3,
        ends_number(back),
        forall|at: int, from: int, to: int| #[trigger]
            found_at(utf8_of(log)->0, p, at, from, to) ==> front.len() <= at,
    ensures
        metric_of(test, log) == Ok::<Seq<char>, LogError>(digits),
{
    assert(p.fraction) by {
        law_meanings(test);
    }
    lemma_row_is_found(p, front, spaces, digits, back);
}

/// A row of fewer than three digits without a fraction is no metric.
pub proof fn law_short_row_is_no_metric(
    p: NumberPlace,
    front: Seq<char>,
    spaces: Seq<char>,
    digits: Seq<char>,
    back: Seq<char>,
    from: int,
    to: int,
)
    requires
        p.fraction,
        if p.gap {
            spaces.len() > 0 && forall|i: int| 0 <= i < spaces.len() ==> #[trigger] spaces[i] == ' '
        } else {
            spaces.len() == 0
        },
        digit_span(digits, 0, digits.len() as int),
        digits.len() < 3,
        ends_number(back),
    ensures
        !found_at(front + p.lead + spaces + digits + back, p, front.len() as int, from, to),
{
    let text = front + p.lead + spaces + digits + back;
    let at = front.len() as int;
    let start = at + p.lead.len() + spaces.len();
    let end = start + digits.len();
    lemma_layout(front, p.lead, spaces, digits, back);
    if end + 1 < text.len() {
        assert(text[end + 1] == back[1]);
    }
    if found_at(text, p, at, from, to) {
        lemma_number_starts_with_digit(text, p.fraction, from, to);
        assert(is_digit(digits[0]));
        assert(text[start] == digits[0]);
        if from < start {
            assert(text[from] == ' ');
        }
        if start < from {
            assert(text[start] == ' ');
        }
        let mid = choose|mid: int|
            #[trigger] digit_span(text, from, mid) && text[mid] != '\n' && digit_span(
                text,
                mid + 1,
                to,
            );
        assert(digit_span(text, from, mid));
        assert(digit_span(text, mid + 1, to));
        if end < to {
            if end != mid {
                assert(is_digit(text[end]));
            } else {
                assert(is_digit(text[end + 1]));
            }
        }
    }
}

/// No text that a known test's number stands behind goes over a line's end.
proof fn lemma_lead_is_in_a_line(test: Seq<char>, p: NumberPlace)
    requires
        meaning_of(scale_pattern_of(test)) == Some(Meaning::Number(p)) || meaning_of(
            metric_pattern_of(test),
        ) == Some(Meaning::Number(p)),
    ensures
        !p.lead.contains('\n'),
{
    law_meanings(test);
    reveal_strlit("SCALE FACTOR (WAREHOUSES): ");
    reveal_strlit("SCALE: ");
    reveal_strlit("Configured Customers:");
    reveal_strlit("Scale:");
    reveal_strlit("Throughput: ");
    reveal_strlit("Composite Score:");
    reveal_strlit("Reported Throughput:");
    reveal_strlit("Queries per Hour: ");
}

/// A place that starts before a line's end is found with what follows that end just as it is
/// found without.
proof fn lemma_found_in_lines(
    text: Seq<char>,
    more: Seq<char>,
    p: NumberPlace,
    at: int,
    from: int,
    to: int,
)
    requires
        !p.lead.contains('\n'),
        at <= text.len(),
    ensures
        found_at(text + seq!['\n'] + more, p, at, from, to) == found_at(text, p, at, from, to),
{
    let long = text + seq!['\n'] + more;
    let n = text.len() as int;
    let behind = at + p.lead.len();
    assert(long[n] == '\n');
    assert forall|x: int| 0 <= x < n implies long[x] == text[x] by {}
    if found_at(long, p, at, from, to) {
        lemma_number_starts_with_digit(long, p.fraction, from, to);
        if behind > n {
            assert(long.subrange(at, behind)[n - at] == '\n');
            assert(p.lead[n - at] == '\n');
        }
        if from > n {
            assert(p.gap);
            assert(long[n] == ' ');
        }
        assert(from < n);
        if p.fraction {
            let mid = choose|mid: int|
                #[trigger] digit_span(long, from, mid) && long[mid] != '\n' && digit_span(
                    long,
                    mid + 1,
                    to,
                );
            assert(digit_span(long, from, mid));
            assert(digit_span(long, mid + 1, to));
            if to > n {
                if n < mid || mid < n {
                    assert(is_digit(long[n]));
                }
            }
            assert(digit_span(text, from, mid));
            assert(digit_span(text, mid + 1, to));
        } else {
            if to > n {
                assert(is_digit(long[n]));
            }
            assert(digit_span(text, from, to));
        }
        assert(text.subrange(at, behind) =~= long.subrange(at, behind));
        assert(space_span(text, behind, from) == space_span(long, behind, from));
    }
    if found_at(text, p, at, from, to) {
        lemma_number_starts_with_digit(text, p.fraction, from, to);
        if p.fraction {
            let mid = choose|mid: int|
                #[trigger] digit_span(text, from, mid) && text[mid] != '\n' && digit_span(
                    text,
                    mid + 1,
                    to,
                );
            assert(digit_span(text, from, mid));
            assert(digit_span(text, mid + 1, to));
            assert(digit_span(long, from, mid));
            assert(digit_span(long, mid + 1, to));
        } else {
            assert(digit_span(long, from, to));
        }
        assert(text.subrange(at, behind) =~= long.subrange(at, behind));
        assert(space_span(text, behind, from) == space_span(long, behind, from));
    }
}

/// A number that is found stays the one that is found, whatever lines follow.
pub proof fn law_later_lines_keep_number(text: Seq<char>, more: Seq<char>, p: NumberPlace)
    requires
        !p.lead.contains('\n'),
        number_at(text, p) is Some,
    ensures
        number_at(text + seq!['\n'] + more, p) == number_at(text, p),
{
    let long = text + seq!['\n'] + more;
    let (at, from, to) = choose|at: int, from: int, to: int|
        first_found_at(text, p, at, from, to);
    assert(first_found_at(text, p, at, from, to));
    lemma_found_in_lines(text, more, p, at, from, to);
    assert forall|at2: int, from2: int, to2: int| #[trigger]
        found_at(long, p, at2, from2, to2) implies at < at2 || (at == at2 && to2 <= to) by {
        if at2 <= at {
            lemma_found_in_lines(text, more, p, at2, from2, to2);
        }
    }
    assert(first_found_at(long, p, at, from, to));
    law_number_at(text, p, at, from, to);
    law_number_at(long, p, at, from, to);
    assert(long.subrange(from, to) =~= text.subrange(from, to));
}

/// Later lines of a log change neither the metric nor the scale factor that is read from it.
pub proof fn law_later_lines_change_nothing(
    test: Seq<char>,
    log: Seq<u8>,
    longer: Seq<u8>,
    more: Seq<char>,
)
    requires
        utf8_of(log) is Some,
        utf8_of(longer) == Some(utf8_of(log)->0 + seq!['\n'] + more),
    ensures
        metric_of(test, log) is Ok ==> metric_of(test, longer) == metric_of(test, log),
        scale_of(test, log) != Err::<int, LogError>(LogError::NoMatch) ==> scale_of(test, longer)
            == scale_of(test, log),
{
    lemma_later_lines(metric_pattern_of(test), test, log, longer, more);
    lemma_later_lines(scale_pattern_of(test), test, log, longer, more);
}

proof fn lemma_later_lines(
    pattern: Seq<char>,
    test: Seq<char>,
    log: Seq<u8>,
    longer: Seq<u8>,
    more: Seq<char>,
)
    requires
        pattern == metric_pattern_of(test) || pattern == scale_pattern_of(test),
        utf8_of(log) is Some,
        utf8_of(longer) == Some(utf8_of(log)->0 + seq!['\n'] + more),
    ensures
        number_text(pattern, log) is Ok ==> number_text(pattern, longer) == number_text(
            pattern,
            log,
        ),
        number_text(pattern, log) is Err ==> number_text(pattern, log) == Err::<
            Seq<char>,
            LogError,
        >(LogError::NoMatch),
{
    if number_text(pattern, log) is Ok {
        let p = meaning_of(pattern)->0->Number_0;
        assert(meaning_of(pattern) == Some(Meaning::Number(p))) by {
            law_meanings(test);
        }
        lemma_lead_is_in_a_line(test, p);
        law_later_lines_keep_number(utf8_of(log)->0, more, p);
    }
}

/// What it is for a place to be found: its text stands at `at`, then come spaces if it has a gap,
/// then the number. That is digits, at least one; or, with a fraction, digits, one character that
/// does not end the line, and digits.
pub proof fn law_found_at(
    text: Seq<char>,
    lead: Seq<char>,
    gap: bool,
    fraction: bool,
    at: int,
    from: int,
    to: int,
)
    ensures
        number_place(lead, gap, fraction) == Some(
            Meaning::Number(NumberPlace { lead, gap, fraction }),
        ),
        found_at(text, NumberPlace { lead, gap, fraction }, at, from, to) <==> {
            &&& 0 <= at
            &&& at + lead.len() <= from < to <= text.len()
            &&& text.subrange(at, at + lead.len()) == lead
            &&& from == at + lead.len() <==> !gap
            &&& forall|x: int| at + lead.len() <= x < from ==> #[trigger] text[x] == ' '
            &&& !fraction ==> forall|x: int|
                from <= x < to ==> '0' <= #[trigger] text[x] && text[x] <= '9'
            &&& fraction ==> exists|point: int|
                from < point < to - 1 && #[trigger] text[point] != '\n' && (forall|x: int|
                    from <= x < to && x != point ==> '0' <= #[trigger] text[x] && text[x] <= '9')
        },
{
    let p = NumberPlace { lead, gap, fraction };
    if found_at(text, p, at, from, to) {
        lemma_number_starts_with_digit(text, fraction, from, to);
        if fraction {
            let point = choose|point: int|
                #[trigger] digit_span(text, from, point) && text[point] != '\n' && digit_span(
                    text,
                    point + 1,
                    to,
                );
            assert(from < point < to - 1 && text[point] != '\n');
        }
    }
    if fraction && 0 <= from && to <= text.len() && (exists|point: int|
        from < point < to - 1 && #[trigger] text[point] != '\n' && (forall|x: int|
            from <= x < to && x != point ==> '0' <= #[trigger] text[x] && text[x] <= '9')) {
        let point = choose|point: int|
            from < point < to - 1 && #[trigger] text[point] != '\n' && (forall|x: int|
                from <= x < to && x != point ==> '0' <= #[trigger] text[x] && text[x] <= '9');
        assert(digit_span(text, from, point));
        assert(digit_span(text, point + 1, to));
    }
}

/// The metric in a log is what stands at the first place where one is found, as long as it can be
/// and exactly as it is written; and a log in which none is found has no metric.
pub proof fn law_metric_is_what_is_found(
    test: Seq<char>,
    log: Seq<u8>,
    text: Seq<char>,
    p: NumberPlace,
    at: int,
    from: int,
    to: int,
)
    requires
        meaning_of(metric_pattern_of(test)) == Some(Meaning::Number(p)),
        utf8_of(log) == Some(text),
    ensures
        metric_of(test, log) is Err <==> metric_of(test, log) == Err::<Seq<char>, LogError>(
            LogError::NoMatch,
        ),
        metric_of(test, log) is Ok <==> exists|at2: int, from2: int, to2: int|
            found_at(text, p, at2, from2, to2),
        found_at(text, p, at, from, to) && (forall|at2: int, from2: int, to2: int|
            #[trigger] found_at(text, p, at2, from2, to2) ==> at < at2 || (at == at2 && to2 <= to))
            ==> metric_of(test, log) == Ok::<Seq<char>, LogError>(text.subrange(from, to)),
{
    law_number_at(text, p, at, from, to);
}

/// The scale factor in a log is the number that is written at the first place where one is found,
/// with all of its digits; a log in which none is found has no scale factor, and one that does not
/// fit is refused.
pub proof fn law_scale_is_what_is_found(
    test: Seq<char>,
    log: Seq<u8>,
    text: Seq<char>,
    p: NumberPlace,
    at: int,
    from: int,
    to: int,
)
    requires
        meaning_of(scale_pattern_of(test)) == Some(Meaning::Number(p)),
        utf8_of(log) == Some(text),
    ensures
        scale_of(test, log) == Err::<int, LogError>(LogError::NoMatch) <==> !(exists|
            at2: int,
            from2: int,
            to2: int,
        | found_at(text, p, at2, from2, to2)),
        found_at(text, p, at, from, to) && (forall|at2: int, from2: int, to2: int|
            #[trigger] found_at(text, p, at2, from2, to2) ==> at < at2 || (at == at2 && to2 <= to))
            ==> scale_of(test, log) == (match u32_of(text.subrange(from, to)) {
            Ok(n) => Ok::<int, LogError>(n),
            Err(e) => Err(LogError::NotNumber(e)),
        }),
{
    law_number_at(text, p, at, from, to);
}

/// A log that is not UTF-8 has neither metric nor scale factor, whatever the test. One that is has
/// neither for any test but the four that are known.
pub proof fn law_logs_without_numbers(test: Seq<char>, log: Seq<u8>)
    ensures
        metric_of(test, log) == Err::<Seq<char>, LogError>(LogError::NotUtf8) <==> utf8_of(
            log,
        ) is None,
        scale_of(test, log) == Err::<int, LogError>(LogError::NotUtf8) <==> utf8_of(log) is None,
        test != "dbt2"@ && test != "dbt3"@ && test != "dbt5"@ && test != "dbt7"@ && utf8_of(
            log,
        ) is Some ==> metric_of(test, log) == Err::<Seq<char>, LogError>(LogError::NoMatch)
            && scale_of(test, log) == Err::<int, LogError>(LogError::NoMatch),
{
    law_meanings(test);
}

/// The address of a log is made of the address of the build server and the log's number.
pub proof fn law_log_url(buildbot_url: Seq<char>, log_id: int)
    ensures
        log_url_of(buildbot_url, log_id) == buildbot_url + "/api/v2/logs/"@ + int_text(log_id)
            + "/raw_inline"@,
{
}

} // verus!
