//! Text helpers: characters, trimming, decimal numbers and UTF-8.
use vstd::prelude::*;
use vstd::utf8::*;

verus! {

/// Why a text is not an integer of the wanted type.
#[derive(Clone, Copy, Debug, PartialEq, Eq, Structural)]
pub enum IntError {
    /// There is no character at all.
    Empty,
    /// A character other than a digit stands where a digit is due.
    InvalidDigit,
    /// The digits are worth more than the type holds.
    PosOverflow,
    /// The digits behind a minus sign are worth less than the type holds.
    NegOverflow,
}

/// The kinds of characters that are cut off the ends of a text.
#[derive(Clone, Copy, Debug, PartialEq, Eq, Structural)]
pub enum Edge {
    WhiteSpace,
    Quote,
}

pub open spec fn is_digit(c: char) -> bool {
    '0' <= c <= '9'
}

/// The characters that have Unicode's `White_Space` property.
pub open spec fn is_white_space(c: char) -> bool {
    ||| '\u{9}' <= c <= '\u{d}'
    ||| c == '\u{20}'
    ||| c == '\u{85}'
    ||| c == '\u{a0}'
    ||| c == '\u{1680}'
    ||| '\u{2000}' <= c <= '\u{200a}'
    ||| '\u{2028}' <= c <= '\u{2029}'
    ||| c == '\u{202f}'
    ||| c == '\u{205f}'
    ||| c == '\u{3000}'
}

pub open spec fn is_edge(e: Edge, c: char) -> bool {
    match e {
        Edge::WhiteSpace => is_white_space(c),
        Edge::Quote => c == '"',
    }
}

/// `s` without the edge characters that it starts with.
pub open spec fn strip_front(s: Seq<char>, e: Edge) -> Seq<char>
    decreases s.len(),
{
    if s.len() > 0 && is_edge(e, s.first()) {
        strip_front(s.drop_first(), e)
    } else {
        s
    }
}

/// `s` without the edge characters that it ends with.
pub open spec fn strip_back(s: Seq<char>, e: Edge) -> Seq<char>
    decreases s.len(),
{
    if s.len() > 0 && is_edge(e, s.last()) {
        strip_back(s.drop_last(), e)
    } else {
        s
    }
}

/// `s` without the edge characters at both of its ends.
pub open spec fn strip(s: Seq<char>, e: Edge) -> Seq<char> {
    strip_back(strip_front(s, e), e)
}

/// The digits that `s` starts with.
pub open spec fn leading_digits(s: Seq<char>) -> Seq<char>
    decreases s.len(),
{
    if s.len() > 0 && is_digit(s.first()) {
        seq![s.first()] + leading_digits(s.drop_first())
    } else {
        Seq::empty()
    }
}

pub open spec fn digit_value(c: char) -> int {
    c as int - '0' as int
}

/// What a row of digits is worth in base ten.
pub open spec fn digits_value(s: Seq<char>) -> int
    decreases s.len(),
{
    if s.len() == 0 {
        0
    } else {
        digits_value(s.drop_last()) * 10 + digit_value(s.last())
    }
}

/// The number that the unsigned digits `s` stand for, when it is at most `bound`.
/// A number above the bound is noticed before a wrong character behind it.
pub open spec fn read_digits(s: Seq<char>, bound: int, above: IntError) -> Result<int, IntError> {
    let digits = leading_digits(s);
    if s.len() == 0 {
        Err(IntError::InvalidDigit)
    } else if digits_value(digits) > bound {
        Err(above)
    } else if digits.len() < s.len() {
        Err(IntError::InvalidDigit)
    } else {
        Ok(digits_value(digits))
    }
}

/// The `u32` that `s` spells: digits, with an optional plus sign before them.
pub open spec fn u32_of(s: Seq<char>) -> Result<int, IntError> {
    if s.len() == 0 {
        Err(IntError::Empty)
    } else if s.first() == '+' {
        read_digits(s.drop_first(), u32::MAX as int, IntError::PosOverflow)
    } else {
        read_digits(s, u32::MAX as int, IntError::PosOverflow)
    }
}

/// The `i64` that `s` spells: digits, with an optional sign before them.
pub open spec fn i64_of(s: Seq<char>) -> Result<int, IntError> {
    if s.len() == 0 {
        Err(IntError::Empty)
    } else if s.first() == '-' {
        match read_digits(s.drop_first(), -(i64::MIN as int), IntError::NegOverflow) {
            Ok(n) => Ok(-n),
            Err(e) => Err(e),
        }
    } else if s.first() == '+' {
        read_digits(s.drop_first(), i64::MAX as int, IntError::PosOverflow)
    } else {
        read_digits(s, i64::MAX as int, IntError::PosOverflow)
    }
}

/// The digit that stands for `d`.
pub open spec fn digit_char(d: int) -> char {
    ('0' as int + d) as char
}

/// The decimal digits of `n`, without leading zeros.
pub open spec fn nat_text(n: nat) -> Seq<char>
    decreases n,
{
    if n < 10 {
        seq![digit_char(n as int)]
    } else {
        nat_text(n / 10).push(digit_char((n % 10) as int))
    }
}

/// The decimal text of `n`, with a minus sign when it is negative.
pub open spec fn int_text(n: int) -> Seq<char> {
    if n < 0 {
        "-"@ + nat_text((-n) as nat)
    } else {
        nat_text(n as nat)
    }
}

/// Whether `a` comes before `b` when texts are ordered by their characters' code points.
pub open spec fn text_before(a: Seq<char>, b: Seq<char>) -> bool
    decreases a.len(),
{
    if b.len() == 0 {
        false
    } else if a.len() == 0 {
        true
    } else if a.first() == b.first() {
        text_before(a.drop_first(), b.drop_first())
    } else {
        a.first() < b.first()
    }
}

/// Whether two texts hold the same characters.
pub fn same_text(a: &str, b: &str) -> (r: bool)
    ensures
        r == (a@ == b@),
{
    a.to_owned() == b.to_owned()
}

/// The characters of a text.
pub fn chars_of(s: &str) -> (v: Vec<char>)
    ensures
        v@ == s@,
{
    let mut v: Vec<char> = Vec::new();
    for c in it: s.chars()
        invariant
            it.seq() == s@,
            v@ == s@.take(it.index() as int),
    {
        v.push(c);
        assert(s@.take(it.index() + 1) =~= s@.take(it.index() as int).push(c));
    }
    assert(s@.take(s@.len() as int) =~= s@);
    v
}

fn white_space(c: char) -> (r: bool)
    ensures
        r == is_white_space(c),
{
    ('\u{9}' <= c && c <= '\u{d}') || c == '\u{20}' || c == '\u{85}' || c == '\u{a0}' || c
        == '\u{1680}' || ('\u{2000}' <= c && c <= '\u{200a}') || ('\u{2028}' <= c && c
        <= '\u{2029}') || c == '\u{202f}' || c == '\u{205f}' || c == '\u{3000}'
}

fn edge(e: Edge, c: char) -> (r: bool)
    ensures
        r == is_edge(e, c),
{
    match e {
        Edge::WhiteSpace => white_space(c),
        Edge::Quote => c == '"',
    }
}

/// When the first `n` characters are edges and the next is none, cutting the front leaves the
/// rest.
proof fn lemma_strip_front(s: Seq<char>, e: Edge, n: int)
    requires
        0 <= n <= s.len(),
        forall|i: int| 0 <= i < n ==> is_edge(e, #[trigger] s[i]),
        n < s.len() ==> !is_edge(e, s[n]),
    ensures
        strip_front(s, e) == s.skip(n),
    decreases n,
{
    if n == 0 {
        assert(s.skip(0) =~= s);
    } else {
        let rest = s.drop_first();
        assert forall|i: int| 0 <= i < n - 1 implies is_edge(e, #[trigger] rest[i]) by {
            assert(rest[i] == s[i + 1]);
        }
        lemma_strip_front(rest, e, n - 1);
        assert(rest.skip(n - 1) =~= s.skip(n));
    }
}

/// When the characters from `n` on are edges and the one before is none, cutting the back leaves
/// the first `n`.
proof fn lemma_strip_back(s: Seq<char>, e: Edge, n: int)
    requires
        0 <= n <= s.len(),
        forall|i: int| n <= i < s.len() ==> is_edge(e, #[trigger] s[i]),
        n > 0 ==> !is_edge(e, s[n - 1]),
    ensures
        strip_back(s, e) == s.take(n),
    decreases s.len() - n,
{
    if n == s.len() {
        assert(s.take(n) =~= s);
    } else {
        let rest = s.drop_last();
        lemma_strip_back(rest, e, n);
        assert(rest.take(n) =~= s.take(n));
    }
}

/// Cuts the edge characters off both ends of a text.
pub fn trim_edges(s: &str, e: Edge) -> (r: String)
    ensures
        r@ == strip(s@, e),
{
    let chars = chars_of(s);
    let n: usize = chars.len();
    let mut from: usize = 0;
    while from < n && edge(e, chars[from])
        invariant
            n == chars@.len(),
            chars@ == s@,
            from <= n,
            forall|i: int| 0 <= i < from ==> is_edge(e, #[trigger] s@[i]),
        ensures
            from <= n,
            forall|i: int| 0 <= i < from ==> is_edge(e, #[trigger] s@[i]),
            from < n ==> !is_edge(e, s@[from as int]),
        decreases n - from,
    {
        from += 1;
    }
    let mut to: usize = n;
    while from < to && edge(e, chars[to - 1])
        invariant
            n == chars@.len(),
            chars@ == s@,
            from <= to <= n,
            forall|i: int| to <= i < n ==> is_edge(e, #[trigger] s@[i]),
        ensures
            from <= to <= n,
            forall|i: int| to <= i < n ==> is_edge(e, #[trigger] s@[i]),
            from < to ==> !is_edge(e, s@[to - 1]),
        decreases to,
    {
        to -= 1;
    }
    proof {
        lemma_strip_front(s@, e, from as int);
        let rest = s@.skip(from as int);
        assert forall|i: int| to - from <= i < rest.len() implies is_edge(e, #[trigger] rest[i]) by {
            assert(rest[i] == s@[from + i]);
        }
        lemma_strip_back(rest, e, to - from);
        assert(rest.take(to - from) =~= s@.subrange(from as int, to as int));
    }
    s.substring_char(from, to).to_owned()
}

/// A text without the white space at its ends.
pub fn trim(s: &str) -> (r: String)
    ensures
        r@ == strip(s@, Edge::WhiteSpace),
{
    trim_edges(s, Edge::WhiteSpace)
}

/// When the first `n` characters are digits and the next is none, they are the leading digits.
pub proof fn lemma_leading_digits(s: Seq<char>, n: int)
    requires
        0 <= n <= s.len(),
        forall|i: int| 0 <= i < n ==> is_digit(#[trigger] s[i]),
        n < s.len() ==> !is_digit(s[n]),
    ensures
        leading_digits(s) == s.take(n),
    decreases n,
{
    if n == 0 {
        assert(s.take(0) =~= Seq::<char>::empty());
    } else {
        let rest = s.drop_first();
        assert forall|i: int| 0 <= i < n - 1 implies is_digit(#[trigger] rest[i]) by {
            assert(rest[i] == s[i + 1]);
        }
        lemma_leading_digits(rest, n - 1);
        assert(seq![s.first()] + rest.take(n - 1) =~= s.take(n));
    }
}

/// The leading digits are digits, and they are what the text starts with.
pub proof fn lemma_leading_digits_prefix(s: Seq<char>)
    ensures
        leading_digits(s).len() <= s.len(),
        leading_digits(s) == s.take(leading_digits(s).len() as int),
        forall|i: int| 0 <= i < leading_digits(s).len() ==> is_digit(#[trigger] leading_digits(s)[i]),
    decreases s.len(),
{
    if s.len() > 0 && is_digit(s.first()) {
        let rest = s.drop_first();
        lemma_leading_digits_prefix(rest);
        let n = leading_digits(rest).len() as int;
        assert(seq![s.first()] + rest.take(n) =~= s.take(n + 1));
    } else {
        assert(s.take(0) =~= Seq::<char>::empty());
    }
}

/// More digits are worth no less.
pub proof fn lemma_digits_value_grows(s: Seq<char>, n: int)
    requires
        0 <= n <= s.len(),
        forall|i: int| 0 <= i < s.len() ==> is_digit(#[trigger] s[i]),
    ensures
        0 <= digits_value(s.take(n)) <= digits_value(s),
    decreases s.len(),
{
    if n == s.len() {
        assert(s.take(n) =~= s);
        if n > 0 {
            let rest = s.drop_last();
            assert(forall|i: int| 0 <= i < rest.len() ==> rest[i] == s[i]);
            lemma_digits_value_grows(rest, n - 1);
            assert(is_digit(s.last()));
        }
    } else {
        let rest = s.drop_last();
        assert(forall|i: int| 0 <= i < rest.len() ==> rest[i] == s[i]);
        lemma_digits_value_grows(rest, n);
        assert(rest.take(n) =~= s.take(n));
        assert(is_digit(s.last()));
    }
}

/// Reads the digits of `chars` from index `from` on.
fn digits_from(chars: &Vec<char>, from: usize, bound: u64, above: IntError) -> (r: Result<
    u64,
    IntError,
>)
    requires
        from <= chars@.len(),
        bound >= 9,
    ensures
        read_digits(chars@.skip(from as int), bound as int, above) == (match r {
            Ok(n) => Ok::<int, IntError>(n as int),
            Err(e) => Err(e),
        }),
{
    let ghost s = chars@.skip(from as int);
    if from == chars.len() {
        return Err(IntError::InvalidDigit);
    }
    let mut at: usize = from;
    let mut value: u64 = 0;
    while at < chars.len() && '0' <= chars[at] && chars[at] <= '9'
        invariant
            s == chars@.skip(from as int),
            from <= at <= chars@.len(),
            from < chars@.len(),
            bound >= 9,
            value <= bound,
            value == digits_value(s.take(at - from)),
            forall|i: int| 0 <= i < at - from ==> is_digit(#[trigger] s[i]),
        ensures
            from <= at <= chars@.len(),
            value <= bound,
            value == digits_value(s.take(at - from)),
            forall|i: int| 0 <= i < at - from ==> is_digit(#[trigger] s[i]),
            at < chars@.len() ==> !is_digit(chars@[at as int]),
        decreases chars@.len() - at,
    {
        let c: char = chars[at];
        let d: u64 = (c as u32 - 48) as u64;
        assert(s[at - from] == c);
        assert(s.take(at - from + 1).drop_last() =~= s.take(at - from));
        if value > (bound - d) / 10 {
            proof {
                lemma_leading_digits_prefix(s);
                let digits = leading_digits(s);
                let n = at - from + 1;
                assert(digits.len() >= n) by {
                    if digits.len() < n {
                        let k = digits.len() as int;
                        lemma_leading_digits_maximal(s);
                        assert(is_digit(s[k]));
                    }
                }
                lemma_digits_value_grows(digits, n);
                assert(digits.take(n) =~= s.take(n));
            }
            return Err(above);
        }
        value = value * 10 + d;
        at += 1;
    }
    proof {
        assert(at < chars@.len() ==> s[at - from] == chars@[at as int]);
        lemma_leading_digits(s, at - from);
    }
    if at < chars.len() {
        return Err(IntError::InvalidDigit);
    }
    Ok(value)
}

/// The character behind the leading digits is no digit.
proof fn lemma_leading_digits_maximal(s: Seq<char>)
    ensures
        leading_digits(s).len() < s.len() ==> !is_digit(s[leading_digits(s).len() as int]),
    decreases s.len(),
{
    if s.len() > 0 && is_digit(s.first()) {
        lemma_leading_digits_maximal(s.drop_first());
    }
}

/// Reads a `u32`: digits, with an optional plus sign before them.
pub fn parse_u32(s: &str) -> (r: Result<u32, IntError>)
    ensures
        u32_of(s@) == (match r {
            Ok(n) => Ok::<int, IntError>(n as int),
            Err(e) => Err(e),
        }),
{
    let chars = chars_of(s);
    if chars.len() == 0 {
        return Err(IntError::Empty);
    }
    let from: usize = if chars[0] == '+' {
        1
    } else {
        0
    };
    assert(s@.skip(0) =~= s@);
    assert(s@.skip(1) =~= s@.drop_first());
    match digits_from(&chars, from, 0xffff_ffff, IntError::PosOverflow) {
        Ok(n) => Ok(n as u32),
        Err(e) => Err(e),
    }
}

/// Reads an `i64`: digits, with an optional sign before them.
pub fn parse_i64(s: &str) -> (r: Result<i64, IntError>)
    ensures
        i64_of(s@) == (match r {
            Ok(n) => Ok::<int, IntError>(n as int),
            Err(e) => Err(e),
        }),
{
    let chars = chars_of(s);
    if chars.len() == 0 {
        return Err(IntError::Empty);
    }
    assert(s@.skip(0) =~= s@);
    assert(s@.skip(1) =~= s@.drop_first());
    if chars[0] == '-' {
        match digits_from(&chars, 1, 0x8000_0000_0000_0000, IntError::NegOverflow) {
            Ok(n) => {
                if n == 0x8000_0000_0000_0000 {
                    Ok(i64::MIN)
                } else {
                    Ok(-(n as i64))
                }
            },
            Err(e) => Err(e),
        }
    } else {
        let from: usize = if chars[0] == '+' {
            1
        } else {
            0
        };
        match digits_from(&chars, from, 0x7fff_ffff_ffff_ffff, IntError::PosOverflow) {
            Ok(n) => Ok(n as i64),
            Err(e) => Err(e),
        }
    }
}

/// The one-character text of a digit.
fn digit_text(d: u64) -> (r: &'static str)
    requires
        d < 10,
    ensures
        r@ == seq![digit_char(d as int)],
{
    proof {
        reveal_strlit("0");
        reveal_strlit("1");
        reveal_strlit("2");
        reveal_strlit("3");
        reveal_strlit("4");
        reveal_strlit("5");
        reveal_strlit("6");
        reveal_strlit("7");
        reveal_strlit("8");
        reveal_strlit("9");
    }
    if d == 0 {
        "0"
    } else if d == 1 {
        "1"
    } else if d == 2 {
        "2"
    } else if d == 3 {
        "3"
    } else if d == 4 {
        "4"
    } else if d == 5 {
        "5"
    } else if d == 6 {
        "6"
    } else if d == 7 {
        "7"
    } else if d == 8 {
        "8"
    } else {
        "9"
    }
}

fn natural_to_text(n: u64) -> (r: String)
    ensures
        r@ == nat_text(n as nat),
    decreases n,
{
    if n < 10 {
        digit_text(n).to_owned()
    } else {
        let front = natural_to_text(n / 10);
        let r = front.concat(digit_text(n % 10));
        assert(r@ =~= nat_text((n / 10) as nat).push(digit_char((n % 10) as int)));
        r
    }
}

/// The decimal text of an integer.
pub fn i32_to_text(n: i32) -> (r: String)
    ensures
        r@ == int_text(n as int),
{
    let wide: i64 = n as i64;
    if wide < 0 {
        "-".to_owned().concat(natural_to_text((-wide) as u64).as_str())
    } else {
        natural_to_text(wide as u64)
    }
}

/// The text that bytes encode in UTF-8, if they do.
pub open spec fn utf8_of(bytes: Seq<u8>) -> Option<Seq<char>> {
    if valid_utf8(bytes) {
        Some(decode_utf8(bytes))
    } else {
        None
    }
}

/// Calls `std::str::from_utf8`. What is claimed of it: it succeeds exactly on the bytes that are
/// valid UTF-8, and the text that it returns then holds the characters that they encode.
#[verifier::external_body]
pub(crate) fn text_from_utf8(bytes: &[u8]) -> (r: Option<String>)
    ensures
        utf8_of(bytes@) == (match r {
            Some(t) => Some(t@),
            None => None,
        }),
{
    match std::str::from_utf8(bytes) {
        Ok(t) => Some(t.to_string()),
        Err(_) => None,
    }
}

/// The text that the first `n` bytes of `s` encode, if they end where a character does.
pub open spec fn byte_prefix(s: Seq<char>, n: int) -> Option<Seq<char>> {
    let bytes = encode_utf8(s);
    if is_char_boundary(bytes, n) {
        Some(decode_utf8(bytes.subrange(0, n)))
    } else {
        None
    }
}

/// The text that the first `n` bytes of a text encode, if they end where a character does.
pub fn prefix(s: &str, n: usize) -> (r: Option<String>)
    ensures
        byte_prefix(s@, n as int) == (match r {
            Some(t) => Some(t@),
            None => None,
        }),
{
    broadcast use encode_utf8_valid_utf8;

    if s.is_char_boundary(n) {
        let front = s.split_at(n).0;
        proof {
            encode_utf8_decode_utf8(front@);
        }
        Some(front.to_owned())
    } else {
        None
    }
}

/// The first `n` bytes of a text whose first `n` characters are ASCII are those characters.
pub proof fn law_ascii_prefix(s: Seq<char>, n: int)
    requires
        0 <= n <= s.len(),
        is_ascii_chars(s.take(n)),
    ensures
        byte_prefix(s, n) == Some(s.take(n)),
{
    broadcast use encode_utf8_valid_utf8;

    let front = s.take(n);
    let back = s.skip(n);
    lemma_encode_concat(front, back);
    assert(front + back =~= s);
    is_ascii_chars_encode_utf8(front);
    let bytes = encode_utf8(s);
    assert(bytes.subrange(0, n) =~= encode_utf8(front));
    lemma_boundary_after_ascii(s, n);
    encode_utf8_decode_utf8(front);
}

proof fn lemma_encode_concat(a: Seq<char>, b: Seq<char>)
    ensures
        encode_utf8(a + b) == encode_utf8(a) + encode_utf8(b),
    decreases a.len(),
{
    if a.len() == 0 {
        assert(a + b =~= b);
        assert(encode_utf8(a) + encode_utf8(b) =~= encode_utf8(b));
    } else {
        assert((a + b).drop_first() =~= a.drop_first() + b);
        lemma_encode_concat(a.drop_first(), b);
        assert(encode_scalar(a[0] as u32) + (encode_utf8(a.drop_first()) + encode_utf8(b)) =~= (
        encode_scalar(a[0] as u32) + encode_utf8(a.drop_first())) + encode_utf8(b));
    }
}

/// Behind `n` ASCII characters there is a character boundary at byte `n`.
proof fn lemma_boundary_after_ascii(s: Seq<char>, n: int)
    requires
        0 <= n <= s.len(),
        is_ascii_chars(s.take(n)),
    ensures
        is_char_boundary(encode_utf8(s), n),
    decreases n,
{
    broadcast use encode_utf8_valid_utf8;

    let bytes = encode_utf8(s);
    if n > 0 {
        let rest = s.drop_first();
        assert(s.take(n)[0] == s[0]);
        assert(rest.take(n - 1) =~= s.take(n).drop_first());
        assert forall|i: int| 0 <= i < rest.take(n - 1).len() implies '\0' <= #[trigger] rest.take(
            n - 1,
        )[i] <= '\u{7f}' by {
            assert(rest.take(n - 1)[i] == s.take(n)[i + 1]);
        }
        lemma_boundary_after_ascii(rest, n - 1);
        encode_utf8_first_scalar(s);
        assert(encode_scalar(s[0] as u32).len() == 1);
        assert(pop_first_scalar(bytes) =~= encode_utf8(rest));
        lemma_encode_concat(s.take(n), s.skip(n));
        assert(s.take(n) + s.skip(n) =~= s);
        is_ascii_chars_encode_utf8(s.take(n));
        assert(bytes.len() >= n);
    }
}

/// How two keys stand to each other.
#[derive(Clone, Copy, Debug, PartialEq, Eq, Structural)]
pub enum Place {
    Before,
    Same,
    After,
}

/// Orders two texts by their characters' code points.
pub fn place_texts(a: &str, b: &str) -> (r: Place)
    ensures
        match r {
            Place::Before => text_before(a@, b@),
            Place::Same => a@ == b@,
            Place::After => text_before(b@, a@),
        },
{
    let x = chars_of(a);
    let y = chars_of(b);
    let mut i: usize = 0;
    while i < x.len() && i < y.len() && x[i] == y[i]
        invariant
            x@ == a@,
            y@ == b@,
            i <= x@.len(),
            i <= y@.len(),
            a@.take(i as int) == b@.take(i as int),
        ensures
            i <= x@.len(),
            i <= y@.len(),
            a@.take(i as int) == b@.take(i as int),
            i < x@.len() && i < y@.len() ==> x@[i as int] != y@[i as int],
        decreases x@.len() - i,
    {
        assert(a@.take(i + 1) =~= a@.take(i as int).push(a@[i as int]));
        assert(b@.take(i + 1) =~= b@.take(i as int).push(b@[i as int]));
        i += 1;
    }
    proof {
        lemma_before_behind_prefix(a@, b@, i as int);
        lemma_before_behind_prefix(b@, a@, i as int);
    }
    if i < x.len() {
        if i < y.len() {
            if x[i] < y[i] {
                Place::Before
            } else {
                Place::After
            }
        } else {
            Place::After
        }
    } else if i < y.len() {
        Place::Before
    } else {
        assert(a@.take(i as int) =~= a@);
        assert(b@.take(i as int) =~= b@);
        Place::Same
    }
}

/// What two texts have in common at the front does not matter to their order.
proof fn lemma_before_behind_prefix(a: Seq<char>, b: Seq<char>, n: int)
    requires
        0 <= n <= a.len(),
        n <= b.len(),
        a.take(n) == b.take(n),
    ensures
        text_before(a, b) == text_before(a.skip(n), b.skip(n)),
    decreases n,
{
    if n == 0 {
        assert(a.skip(0) =~= a);
        assert(b.skip(0) =~= b);
    } else {
        assert(a.first() == a.take(n)[0]);
        assert(b.first() == b.take(n)[0]);
        assert(a.drop_first().take(n - 1) =~= a.take(n).drop_first());
        assert(b.drop_first().take(n - 1) =~= b.take(n).drop_first());
        lemma_before_behind_prefix(a.drop_first(), b.drop_first(), n - 1);
        assert(a.drop_first().skip(n - 1) =~= a.skip(n));
        assert(b.drop_first().skip(n - 1) =~= b.skip(n));
    }
}

/// No text comes before itself.
pub proof fn lemma_text_before_irreflexive(a: Seq<char>)
    ensures
        !text_before(a, a),
    decreases a.len(),
{
    if a.len() > 0 {
        lemma_text_before_irreflexive(a.drop_first());
    }
}

/// A text before a second one that is before a third is before the third.
pub proof fn lemma_text_before_transitive(a: Seq<char>, b: Seq<char>, c: Seq<char>)
    requires
        text_before(a, b),
        text_before(b, c),
    ensures
        text_before(a, c),
    decreases a.len(),
{
    if a.len() > 0 && a.first() == b.first() && b.first() == c.first() {
        lemma_text_before_transitive(a.drop_first(), b.drop_first(), c.drop_first());
    }
}

/// Decimal text is digits, and they are worth the number that they were made from.
pub proof fn lemma_nat_text(n: nat)
    ensures
        nat_text(n).len() > 0,
        forall|i: int| 0 <= i < nat_text(n).len() ==> is_digit(#[trigger] nat_text(n)[i]),
        digits_value(nat_text(n)) == n,
    decreases n,
{
    let s = nat_text(n);
    if n < 10 {
        assert(s.drop_last() =~= Seq::<char>::empty());
        assert(digits_value(s.drop_last()) == 0);
        assert(s.last() == digit_char(n as int));
    } else {
        lemma_nat_text(n / 10);
        assert(s.drop_last() =~= nat_text(n / 10));
    }
}

/// The decimal text of a `u32` is read back.
pub proof fn law_u32_text_is_read(n: nat)
    requires
        n <= u32::MAX,
    ensures
        u32_of(nat_text(n)) == Ok::<int, IntError>(n as int),
{
    let s = nat_text(n);
    lemma_nat_text(n);
    assert(is_digit(s[0]));
    lemma_leading_digits(s, s.len() as int);
    assert(s.take(s.len() as int) =~= s);
}

/// The decimal text of an `i64` is read back.
pub proof fn law_i64_text_is_read(n: int)
    requires
        i64::MIN <= n <= i64::MAX,
    ensures
        i64_of(int_text(n)) == Ok::<int, IntError>(n),
{
    let s = nat_text(if n < 0 {
        (-n) as nat
    } else {
        n as nat
    });
    lemma_nat_text(if n < 0 {
        (-n) as nat
    } else {
        n as nat
    });
    assert(is_digit(s[0]));
    lemma_leading_digits(s, s.len() as int);
    assert(s.take(s.len() as int) =~= s);
    if n < 0 {
        reveal_strlit("-");
        assert(int_text(n).first() == '-');
        assert(int_text(n).drop_first() =~= s);
    }
}

/// Decimal text starts with a digit or a minus sign and ends with a digit.
pub proof fn lemma_int_text_ends(n: int)
    ensures
        int_text(n).len() > 0,
        is_digit(int_text(n).first()) || int_text(n).first() == '-',
        is_digit(int_text(n).last()),
{
    reveal_strlit("-");
    let m: nat = if n < 0 {
        (-n) as nat
    } else {
        n as nat
    };
    lemma_nat_text(m);
    let s = nat_text(m);
    assert(is_digit(s[0]) && is_digit(s[s.len() - 1]));
}

/// Only edge characters are cut off, and all of them.
pub proof fn law_strip(front: Seq<char>, core: Seq<char>, back: Seq<char>, e: Edge)
    requires
        forall|i: int| 0 <= i < front.len() ==> is_edge(e, #[trigger] front[i]),
        forall|i: int| 0 <= i < back.len() ==> is_edge(e, #[trigger] back[i]),
        core.len() > 0 ==> !is_edge(e, core.first()) && !is_edge(e, core.last()),
    ensures
        strip(front + core + back, e) == core,
{
    let s = front + core + back;
    if core.len() > 0 {
        let n = front.len() as int;
        assert forall|i: int| 0 <= i < n implies is_edge(e, #[trigger] s[i]) by {
            assert(s[i] == front[i]);
        }
        assert(s[n] == core.first());
        lemma_strip_front(s, e, n);
        let rest = s.skip(n);
        let m = core.len() as int;
        assert forall|i: int| m <= i < rest.len() implies is_edge(e, #[trigger] rest[i]) by {
            assert(rest[i] == back[i - m]);
        }
        assert(rest[m - 1] == core.last());
        lemma_strip_back(rest, e, m);
        assert(rest.take(m) =~= core);
    } else {
        let n = s.len() as int;
        assert forall|i: int| 0 <= i < n implies is_edge(e, #[trigger] s[i]) by {
            if i < front.len() {
                assert(s[i] == front[i]);
            } else {
                assert(s[i] == back[i - front.len()]);
            }
        }
        lemma_strip_front(s, e, n);
        assert(s.skip(n) =~= core);
        lemma_strip_back(core, e, 0);
        assert(core.take(0) =~= core);
    }
}

/// What is left of a text after a cut neither starts nor ends with an edge character.
pub proof fn law_stripped_ends(s: Seq<char>, e: Edge)
    ensures
        strip(s, e).len() > 0 ==> !is_edge(e, strip(s, e).first()) && !is_edge(
            e,
            strip(s, e).last(),
        ),
{
    lemma_front_is_cut(s, e);
    lemma_back_is_cut(strip_front(s, e), e);
}

proof fn lemma_front_is_cut(s: Seq<char>, e: Edge)
    ensures
        strip_front(s, e).len() > 0 ==> !is_edge(e, strip_front(s, e).first()),
    decreases s.len(),
{
    if s.len() > 0 && is_edge(e, s.first()) {
        lemma_front_is_cut(s.drop_first(), e);
    }
}

proof fn lemma_back_is_cut(s: Seq<char>, e: Edge)
    ensures
        strip_back(s, e).len() > 0 ==> !is_edge(e, strip_back(s, e).last()),
        strip_back(s, e).len() > 0 ==> strip_back(s, e).first() == s.first(),
    decreases s.len(),
{
    if s.len() > 0 && is_edge(e, s.last()) {
        lemma_back_is_cut(s.drop_last(), e);
    }
}

/// Which characters are digits, white space and edges.
pub proof fn law_characters(c: char)
    ensures
        is_digit(c) <==> '0' <= c && c <= '9',
        is_edge(Edge::Quote, c) <==> c == '"',
        is_edge(Edge::WhiteSpace, c) <==> is_white_space(c),
        is_white_space(c) <==> (0x9 <= c as int <= 0xd || c as int == 0x20 || c as int == 0x85
            || c as int == 0xa0 || c as int == 0x1680 || 0x2000 <= c as int <= 0x200a || c as int
            == 0x2028 || c as int == 0x2029 || c as int == 0x202f || c as int == 0x205f || c as int
            == 0x3000),
{
}

/// A text is what is left of it after a cut, with edge characters on both sides.
pub proof fn law_only_edges_are_cut(s: Seq<char>, e: Edge)
    ensures
        exists|from: int, to: int|
            {
                &&& 0 <= from <= to <= s.len()
                &&& strip(s, e) == #[trigger] s.subrange(from, to)
                &&& forall|i: int|
                    (0 <= i < from || to <= i < s.len()) ==> is_edge(e, #[trigger] s[i])
            },
{
    let from = lemma_front_cut(s, e);
    let rest = s.skip(from);
    let n = lemma_back_cut(rest, e);
    assert(rest.take(n) =~= s.subrange(from, from + n));
    assert forall|i: int| 0 <= i < from || from + n <= i < s.len() implies is_edge(
        e,
        #[trigger] s[i],
    ) by {
        if from + n <= i {
            assert(rest[i - from] == s[i]);
        }
    }
}

proof fn lemma_front_cut(s: Seq<char>, e: Edge) -> (n: int)
    ensures
        0 <= n <= s.len(),
        strip_front(s, e) == s.skip(n),
        forall|i: int| 0 <= i < n ==> is_edge(e, #[trigger] s[i]),
    decreases s.len(),
{
    if s.len() > 0 && is_edge(e, s.first()) {
        let rest = s.drop_first();
        let n = lemma_front_cut(rest, e);
        assert(rest.skip(n) =~= s.skip(n + 1));
        assert forall|i: int| 0 <= i < n + 1 implies is_edge(e, #[trigger] s[i]) by {
            if i > 0 {
                assert(rest[i - 1] == s[i]);
            }
        }
        n + 1
    } else {
        assert(s.skip(0) =~= s);
        0
    }
}

proof fn lemma_back_cut(s: Seq<char>, e: Edge) -> (n: int)
    ensures
        0 <= n <= s.len(),
        strip_back(s, e) == s.take(n),
        forall|i: int| n <= i < s.len() ==> is_edge(e, #[trigger] s[i]),
    decreases s.len(),
{
    if s.len() > 0 && is_edge(e, s.last()) {
        let rest = s.drop_last();
        let n = lemma_back_cut(rest, e);
        assert(rest.take(n) =~= s.take(n));
        assert forall|i: int| n <= i < s.len() implies is_edge(e, #[trigger] s[i]) by {
            if i < s.len() - 1 {
                assert(rest[i] == s[i]);
            }
        }
        n
    } else {
        assert(s.take(s.len() as int) =~= s);
        s.len() as int
    }
}

/// How the leading digits change with one more character.
proof fn lemma_leading_digits_push(s: Seq<char>, c: char)
    ensures
        leading_digits(s.push(c)) == (if leading_digits(s).len() == s.len() && is_digit(c) {
            s.push(c)
        } else {
            leading_digits(s)
        }),
        leading_digits(s).len() == s.len() ==> leading_digits(s) == s,
{
    let t = s.push(c);
    let n = leading_digits(s).len() as int;
    lemma_leading_digits_prefix(s);
    lemma_leading_digits_maximal(s);
    assert forall|i: int| 0 <= i < n implies is_digit(#[trigger] t[i]) by {
        assert(leading_digits(s)[i] == s[i]);
    }
    if n == s.len() {
        assert(s.take(n) =~= s);
        if is_digit(c) {
            lemma_leading_digits(t, n + 1);
            assert(t.take(n + 1) =~= t);
        } else {
            lemma_leading_digits(t, n);
            assert(t.take(n) =~= s);
        }
    } else {
        assert(t[n] == s[n]);
        lemma_leading_digits(t, n);
        assert(t.take(n) =~= s.take(n));
    }
}

/// How the number that digits stand for changes with one more character.
proof fn lemma_read_digits_push(s: Seq<char>, c: char, bound: int, above: IntError)
    requires
        bound >= 9,
        above != IntError::InvalidDigit,
    ensures
        s.len() == 0 ==> read_digits(s, bound, above) == Err::<int, IntError>(
            IntError::InvalidDigit,
        ),
        s.len() == 0 ==> read_digits(s.push(c), bound, above) == (if '0' <= c && c <= '9' {
            Ok::<int, IntError>(c as int - '0' as int)
        } else {
            Err(IntError::InvalidDigit)
        }),
        s.len() > 0 ==> read_digits(s.push(c), bound, above) == (match read_digits(
            s,
            bound,
            above,
        ) {
            Err(e) => Err::<int, IntError>(e),
            Ok(n) => if !('0' <= c && c <= '9') {
                Err(IntError::InvalidDigit)
            } else if 10 * n + (c as int - '0' as int) > bound {
                Err(above)
            } else {
                Ok(10 * n + (c as int - '0' as int))
            },
        }),
{
    lemma_leading_digits_push(s, c);
    lemma_leading_digits_prefix(s);
    let t = s.push(c);
    assert(t.drop_last() =~= s);
    assert(t.last() == c);
    if s.len() == 0 {
        assert(digits_value(s) == 0);
        assert(leading_digits(s) =~= s);
        if is_digit(c) {
            assert(digits_value(t) == c as int - '0' as int);
        }
    } else if leading_digits(s).len() == s.len() && is_digit(c) {
        lemma_digits_value_grows(s, 0);
        assert(digits_value(t) == digits_value(s) * 10 + (c as int - '0' as int));
    }
}

/// How a `u32` is read, character by character: a text without characters is none. Each digit
/// more makes the number ten times as large and adds its own value, until the number does not fit
/// any more; a plus sign is allowed at the front; and anything else spoils the number.
pub proof fn law_u32_digit_by_digit(s: Seq<char>, c: char)
    ensures
        u32_of(Seq::empty()) == Err::<int, IntError>(IntError::Empty),
        s.len() == 0 || s == seq!['+'] ==> u32_of(s.push(c)) == (if '0' <= c && c <= '9' {
            Ok::<int, IntError>(c as int - '0' as int)
        } else {
            Err(IntError::InvalidDigit)
        }),
        s.len() > 0 && s != seq!['+'] ==> u32_of(s.push(c)) == (match u32_of(s) {
            Err(e) => Err::<int, IntError>(e),
            Ok(n) => if !('0' <= c && c <= '9') {
                Err(IntError::InvalidDigit)
            } else if 10 * n + (c as int - '0' as int) > 0xffff_ffff {
                Err(IntError::PosOverflow)
            } else {
                Ok(10 * n + (c as int - '0' as int))
            },
        }),
{
    let t = s.push(c);
    if s.len() > 0 {
        assert(t.first() == s.first());
        assert(t.drop_first() =~= s.drop_first().push(c));
        if s.first() == '+' {
            lemma_read_digits_push(s.drop_first(), c, u32::MAX as int, IntError::PosOverflow);
            if s.len() == 1 {
                assert(s =~= seq!['+']);
            }
        } else {
            lemma_read_digits_push(s, c, u32::MAX as int, IntError::PosOverflow);
        }
    } else {
        assert(t =~= seq![c]);
        if c == '+' {
            assert(t.drop_first() =~= Seq::<char>::empty());
        } else {
            lemma_read_digits_push(s, c, u32::MAX as int, IntError::PosOverflow);
        }
    }
}

/// How an `i64` is read, character by character: as a `u32` is, with more room, and with a minus
/// sign allowed at the front, behind which the digits count downwards.
pub proof fn law_i64_digit_by_digit(s: Seq<char>, c: char)
    ensures
        i64_of(Seq::empty()) == Err::<int, IntError>(IntError::Empty),
        s.len() == 0 || s == seq!['+'] ==> i64_of(s.push(c)) == (if '0' <= c && c <= '9' {
            Ok::<int, IntError>(c as int - '0' as int)
        } else {
            Err(IntError::InvalidDigit)
        }),
        s == seq!['-'] ==> i64_of(s.push(c)) == (if '0' <= c && c <= '9' {
            Ok::<int, IntError>(-(c as int - '0' as int))
        } else {
            Err(IntError::InvalidDigit)
        }),
        s.len() > 0 && s != seq!['+'] && s != seq!['-'] ==> i64_of(s.push(c)) == (match i64_of(s) {
            Err(e) => Err::<int, IntError>(e),
            Ok(n) => if !('0' <= c && c <= '9') {
                Err(IntError::InvalidDigit)
            } else if s[0] == '-' {
                if 10 * n - (c as int - '0' as int) < -0x8000_0000_0000_0000 {
                    Err(IntError::NegOverflow)
                } else {
                    Ok(10 * n - (c as int - '0' as int))
                }
            } else if 10 * n + (c as int - '0' as int) > 0x7fff_ffff_ffff_ffff {
                Err(IntError::PosOverflow)
            } else {
                Ok(10 * n + (c as int - '0' as int))
            },
        }),
{
    let t = s.push(c);
    if s.len() > 0 {
        assert(t.first() == s.first());
        assert(t.drop_first() =~= s.drop_first().push(c));
        if s.first() == '+' {
            lemma_read_digits_push(s.drop_first(), c, i64::MAX as int, IntError::PosOverflow);
            if s.len() == 1 {
                assert(s =~= seq!['+']);
            }
        } else if s.first() == '-' {
            lemma_read_digits_push(s.drop_first(), c, -(i64::MIN as int), IntError::NegOverflow);
            if s.len() == 1 {
                assert(s =~= seq!['-']);
            }
        } else {
            lemma_read_digits_push(s, c, i64::MAX as int, IntError::PosOverflow);
        }
    } else {
        assert(t =~= seq![c]);
        if c == '+' || c == '-' {
            assert(t.drop_first() =~= Seq::<char>::empty());
        } else {
            lemma_read_digits_push(s, c, i64::MAX as int, IntError::PosOverflow);
        }
    }
}

/// How an integer is written: one digit for a number below ten; the text of the tens and then the
/// last digit for a greater one; and a minus sign before the text of the opposite of a number
/// below zero.
pub proof fn law_int_text(n: int)
    ensures
        0 <= n < 10 ==> int_text(n).len() == 1 && int_text(n)[0] as int == '0' as int + n,
        n >= 10 ==> int_text(n) == int_text(n / 10) + int_text(n % 10),
        n < 0 ==> int_text(n) == seq!['-'] + int_text(-n),
{
    reveal_strlit("-");
    if n >= 10 {
        assert(int_text(n % 10) == seq![digit_char(n % 10)]);
        assert(int_text(n) =~= int_text(n / 10) + int_text(n % 10));
    }
    if n < 0 {
        assert("-"@ =~= seq!['-']);
    }
}

/// Bytes are read as the text whose encoding they are, and as none when they are no text's.
pub proof fn law_utf8(bytes: Seq<u8>, text: Seq<char>)
    ensures
        utf8_of(bytes) == Some(text) <==> encode_utf8(text) == bytes,
        utf8_of(bytes) is None <==> !valid_utf8(bytes),
{
    encode_utf8_valid_utf8(text);
    encode_utf8_decode_utf8(text);
    if valid_utf8(bytes) {
        decode_utf8_encode_utf8(bytes);
    }
}

/// Behind the encoding of the front of a text there is a character boundary.
proof fn lemma_boundary_behind_front(front: Seq<char>, back: Seq<char>)
    ensures
        is_char_boundary(encode_utf8(front + back), encode_utf8(front).len() as int),
    decreases front.len(),
{
    broadcast use encode_utf8_valid_utf8;

    let s = front + back;
    let bytes = encode_utf8(s);
    if front.len() > 0 {
        let rest = front.drop_first();
        assert(s.drop_first() =~= rest + back);
        assert(s[0] == front[0]);
        lemma_boundary_behind_front(rest, back);
        encode_utf8_first_scalar(s);
        assert(pop_first_scalar(bytes) =~= encode_utf8(rest + back));
        lemma_encode_concat(front, back);
    }
}

/// The text that the first bytes of a text encode is the front of it whose encoding has that
/// length, and there is such a front whenever there can be.
pub proof fn law_prefix_is_a_front(s: Seq<char>, n: int, front: Seq<char>)
    ensures
        byte_prefix(s, n) == Some(front) <==> front.is_prefix_of(s) && encode_utf8(front).len()
            == n,
{
    broadcast use encode_utf8_valid_utf8;

    let bytes = encode_utf8(s);
    if byte_prefix(s, n) == Some(front) {
        valid_utf8_split(bytes, n);
        decode_utf8_split(bytes, n);
        decode_utf8_encode_utf8(bytes.subrange(0, n));
        encode_utf8_decode_utf8(s);
        let back = decode_utf8(bytes.subrange(n, bytes.len() as int));
        assert(s == front + back);
        assert(front =~= s.subrange(0, front.len() as int));
    }
    if front.is_prefix_of(s) && encode_utf8(front).len() == n {
        let back = s.skip(front.len() as int);
        assert(front + back =~= s);
        lemma_boundary_behind_front(front, back);
        lemma_encode_concat(front, back);
        assert(bytes.subrange(0, n) =~= encode_utf8(front));
        encode_utf8_decode_utf8(front);
    }
}

/// How texts are ordered: where they first differ, by the characters there; and a text comes
/// before each that goes on behind it.
pub proof fn law_text_order(front: Seq<char>, a: Seq<char>, b: Seq<char>)
    ensures
        !text_before(a, a),
        a.len() == 0 && b.len() > 0 ==> text_before(front + a, front + b) && !text_before(
            front + b,
            front + a,
        ),
        a.len() > 0 && b.len() > 0 && (a[0] as int) < (b[0] as int) ==> text_before(
            front + a,
            front + b,
        ) && !text_before(front + b, front + a),
{
    let n = front.len() as int;
    let x = front + a;
    let y = front + b;
    assert(x.take(n) =~= front);
    assert(y.take(n) =~= front);
    assert(x.skip(n) =~= a);
    assert(y.skip(n) =~= b);
    lemma_before_behind_prefix(x, y, n);
    lemma_before_behind_prefix(y, x, n);
    lemma_text_before_irreflexive(a);
}

} // verus!
