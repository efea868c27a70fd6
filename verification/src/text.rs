//! Text as the kernel writes it: words, lines and decimal numbers.
//!
//! A text is modelled by its sequence of characters. The specification functions
//! here say what the words, the lines and the trimmed form of a text are, and which
//! texts denote a 64-bit number; the executable functions compute exactly those.

use vstd::prelude::*;

verus! {

/// `String::push` appends the character to the end of the string.
pub assume_specification[ String::push ](s: &mut String, c: char)
    ensures
        final(s)@ == old(s)@.push(c),
;

// ---------------------------------------------------------------------------
// Model
// ---------------------------------------------------------------------------
/// The Unicode property `White_Space`.
pub open spec fn is_space(c: char) -> bool {
    let u = c as u32;
    ||| 0x09 <= u <= 0x0d
    ||| u == 0x20
    ||| u == 0x85
    ||| u == 0xa0
    ||| u == 0x1680
    ||| 0x2000 <= u <= 0x200a
    ||| u == 0x2028
    ||| u == 0x2029
    ||| u == 0x202f
    ||| u == 0x205f
    ||| u == 0x3000
}

pub open spec fn is_digit(c: char) -> bool {
    '0' <= c <= '9'
}

/// The test for white space, as a predicate on characters.
pub open spec fn space() -> spec_fn(char) -> bool {
    |c: char| is_space(c)
}

/// The test for a line feed, as a predicate on characters.
pub open spec fn line_feed() -> spec_fn(char) -> bool {
    |c: char| c == '\n'
}

/// The test for anything but a decimal digit, as a predicate on characters.
pub open spec fn non_digit() -> spec_fn(char) -> bool {
    |c: char| !is_digit(c)
}

/// How many characters of `s` come before the first one that satisfies `stop`
/// (all of them, if none does).
pub open spec fn span(s: Seq<char>, stop: spec_fn(char) -> bool) -> nat
    decreases s.len(),
{
    if s.len() == 0 || stop(s[0]) {
        0
    } else {
        1 + span(s.skip(1), stop)
    }
}

/// The words of a text: its longest runs of characters that are not white space,
/// in order.
pub open spec fn words(s: Seq<char>) -> Seq<Seq<char>>
    decreases s.len(),
{
    if s.len() == 0 {
        seq![]
    } else if is_space(s[0]) {
        words(s.skip(1))
    } else {
        proof {
            lemma_span_bound(s, space());
        }
        let n = span(s, space()) as int;
        seq![s.take(n)] + words(s.skip(n))
    }
}

/// `s` without a carriage return at its end.
pub open spec fn without_return(s: Seq<char>) -> Seq<char> {
    if s.len() > 0 && s.last() == '\r' {
        s.drop_last()
    } else {
        s
    }
}

/// The lines of a text, without what ends them: a line feed, or a carriage return and a
/// line feed. A text that ends in a line feed has no empty line after it.
pub open spec fn lines(s: Seq<char>) -> Seq<Seq<char>>
    decreases s.len(),
{
    if s.len() == 0 {
        seq![]
    } else {
        proof {
            lemma_span_bound(s, line_feed());
        }
        let n = span(s, line_feed()) as int;
        if n < s.len() {
            seq![without_return(s.take(n))] + lines(s.skip(n + 1))
        } else {
            seq![s]
        }
    }
}

/// `s` without the white space at its start.
pub open spec fn trim_start(s: Seq<char>) -> Seq<char>
    decreases s.len(),
{
    if s.len() > 0 && is_space(s[0]) {
        trim_start(s.skip(1))
    } else {
        s
    }
}

/// `s` without the white space at its end.
pub open spec fn trim_end(s: Seq<char>) -> Seq<char>
    decreases s.len(),
{
    if s.len() > 0 && is_space(s.last()) {
        trim_end(s.drop_last())
    } else {
        s
    }
}

/// `s` without the white space at its start and at its end.
pub open spec fn trim(s: Seq<char>) -> Seq<char> {
    trim_end(trim_start(s))
}

pub open spec fn digit_value(c: char) -> nat {
    (c as u32 - '0' as u32) as nat
}

/// The number that a sequence of decimal digits denotes.
pub open spec fn value(s: Seq<char>) -> nat
    decreases s.len(),
{
    if s.len() == 0 {
        0
    } else {
        10 * value(s.drop_last()) + digit_value(s.last())
    }
}

/// Why a text denotes no 64-bit number.
#[derive(Debug, Clone, Copy, PartialEq, Eq, Structural)]
pub enum NumberError {
    /// There is nothing to read.
    Empty,
    /// A character is not a digit, or there is no digit.
    InvalidDigit,
    /// The digits denote a number above the largest one.
    TooLarge,
}

impl NumberError {
    /// What the error says.
    pub fn message(self) -> (s: &'static str)
        ensures
            s@ == match self {
                NumberError::Empty => "cannot parse integer from empty string"@,
                NumberError::InvalidDigit => "invalid digit found in string"@,
                NumberError::TooLarge => "number too large to fit in target type"@,
            },
    {
        match self {
            NumberError::Empty => "cannot parse integer from empty string",
            NumberError::InvalidDigit => "invalid digit found in string",
            NumberError::TooLarge => "number too large to fit in target type",
        }
    }
}

/// What remains of a number once a plus sign in front is dropped.
pub open spec fn without_plus(s: Seq<char>) -> Seq<char> {
    if s.len() > 0 && s[0] == '+' {
        s.skip(1)
    } else {
        s
    }
}

/// The number that a text denotes: decimal digits, with or without a plus sign in
/// front, and nothing else. The first fault from the left decides on the error: the
/// digits in front of the first other character come before that character.
pub open spec fn number(s: Seq<char>) -> Result<u64, NumberError> {
    let digits = without_plus(s);
    let n = span(digits, non_digit()) as int;
    if s.len() == 0 {
        Err(NumberError::Empty)
    } else if value(digits.take(n)) > u64::MAX {
        Err(NumberError::TooLarge)
    } else if n < digits.len() || digits.len() == 0 {
        Err(NumberError::InvalidDigit)
    } else {
        Ok(value(digits) as u64)
    }
}

pub open spec fn digit_char(d: nat) -> char {
    ('0' as u32 + d) as char
}

/// The decimal digits of a number, without leading zeros.
pub open spec fn decimal(n: nat) -> Seq<char>
    decreases n,
{
    if n < 10 {
        seq![digit_char(n)]
    } else {
        decimal(n / 10).push(digit_char(n % 10))
    }
}

/// The contents of a list of character vectors.
pub open spec fn contents(v: Seq<Vec<char>>) -> Seq<Seq<char>> {
    Seq::new(v.len(), |i: int| v[i]@)
}

/// The contents of a list of strings.
pub open spec fn strings(v: Seq<String>) -> Seq<Seq<char>> {
    Seq::new(v.len(), |i: int| v[i]@)
}

/// The contents of a text that may be missing.
pub open spec fn optional(s: Option<&str>) -> Option<Seq<char>> {
    match s {
        Some(t) => Some(t@),
        None => None,
    }
}

// ---------------------------------------------------------------------------
// Facts about the model
// ---------------------------------------------------------------------------
pub proof fn lemma_span_bound(s: Seq<char>, stop: spec_fn(char) -> bool)
    ensures
        span(s, stop) <= s.len(),
        s.len() > 0 && !stop(s[0]) ==> span(s, stop) >= 1,
    decreases s.len(),
{
    if s.len() > 0 && !stop(s[0]) {
        lemma_span_bound(s.skip(1), stop);
    }
}

/// A span is known by its end: nothing before it stops, and what follows stops.
proof fn lemma_span_is(s: Seq<char>, stop: spec_fn(char) -> bool, n: int)
    requires
        0 <= n <= s.len(),
        forall|k: int| 0 <= k < n ==> !#[trigger] stop(s[k]),
        n < s.len() ==> stop(s[n]),
    ensures
        span(s, stop) == n,
    decreases n,
{
    if n > 0 {
        assert(!stop(s[0]));
        let t = s.skip(1);
        assert forall|k: int| 0 <= k < n - 1 implies !#[trigger] stop(t[k]) by {
            assert(t[k] == s[k + 1]);
        }
        if n < s.len() {
            assert(t[n - 1] == s[n]);
        }
        lemma_span_is(t, stop, n - 1);
    }
}

/// Whatever stands within the span does not stop it.
proof fn lemma_span_inside(s: Seq<char>, stop: spec_fn(char) -> bool, k: int)
    requires
        0 <= k < span(s, stop),
    ensures
        k < s.len(),
        !stop(s[k]),
    decreases k,
{
    lemma_span_bound(s, stop);
    if k > 0 {
        lemma_span_inside(s.skip(1), stop, k - 1);
        assert(s.skip(1)[k - 1] == s[k]);
    }
}

/// A longer run of digits denotes a number at least as large.
proof fn lemma_value_prefix(s: Seq<char>, i: int, j: int)
    requires
        0 <= i <= j <= s.len(),
    ensures
        value(s.take(i)) <= value(s.take(j)),
    decreases j - i,
{
    if i < j {
        lemma_value_prefix(s, i, j - 1);
        assert(s.take(j).drop_last() =~= s.take(j - 1));
    }
}

// ---------------------------------------------------------------------------
// Characters and strings
// ---------------------------------------------------------------------------
/// The characters of a string, one by one.
pub fn chars_of(s: &str) -> (v: Vec<char>)
    ensures
        v@ == s@,
{
    let mut v: Vec<char> = Vec::new();
    for c in it: s.chars()
        invariant
            v@ == it.seq().take(it.index()),
            it.seq() == s@,
    {
        v.push(c);
    }
    v
}

/// The string made of the given characters.
pub fn string_of(v: &Vec<char>) -> (s: String)
    ensures
        s@ == v@,
{
    let mut s = String::new();
    for i in 0..v.len()
        invariant
            s@ == v@.take(i as int),
    {
        s.push(v[i]);
        assert(v@.take(i as int).push(v@[i as int]) =~= v@.take(i + 1));
    }
    assert(v@.take(v@.len() as int) =~= v@);
    s
}

/// The characters of `v` from index `from` up to, but not at, index `to`.
fn copy_range(v: &Vec<char>, from: usize, to: usize) -> (r: Vec<char>)
    requires
        from <= to <= v.len(),
    ensures
        r@ == v@.subrange(from as int, to as int),
{
    let mut r: Vec<char> = Vec::new();
    let mut i: usize = from;
    while i < to
        invariant
            from <= i <= to <= v.len(),
            r@ == v@.subrange(from as int, i as int),
        decreases to - i,
    {
        r.push(v[i]);
        i = i + 1;
    }
    r
}

/// Whether the character is white space.
pub fn is_whitespace(c: char) -> (b: bool)
    ensures
        b == is_space(c),
{
    let u: u32 = c as u32;
    (0x09 <= u && u <= 0x0d) || u == 0x20 || u == 0x85 || u == 0xa0 || u == 0x1680 || (0x2000 <= u
        && u <= 0x200a) || u == 0x2028 || u == 0x2029 || u == 0x202f || u == 0x205f || u == 0x3000
}

/// Whether `s` begins with `prefix`.
pub fn starts_with(s: &str, prefix: &str) -> (b: bool)
    ensures
        b == prefix@.is_prefix_of(s@),
{
    let a = chars_of(s);
    let p = chars_of(prefix);
    if a.len() < p.len() {
        return false;
    }
    for i in 0..p.len()
        invariant
            p.len() <= a.len(),
            p@ == prefix@,
            a@ == s@,
            forall|k: int| 0 <= k < i ==> p@[k] == a@[k],
    {
        if p[i] != a[i] {
            assert(p@[i as int] != a@.subrange(0, p@.len() as int)[i as int]);
            return false;
        }
    }
    true
}

/// The two texts, one after the other.
pub fn joined(a: &str, b: &str) -> (s: String)
    ensures
        s@ == a@ + b@,
{
    let mut s = String::new();
    s.append(a);
    s.append(b);
    assert(s@ =~= a@ + b@);
    s
}

// ---------------------------------------------------------------------------
// Words, lines, trimming
// ---------------------------------------------------------------------------
/// The words of a text.
pub fn split_words(text: &Vec<char>) -> (r: Vec<Vec<char>>)
    ensures
        contents(r@) == words(text@),
{
    let mut r: Vec<Vec<char>> = Vec::new();
    let mut i: usize = 0;
    assert(text@.skip(0) =~= text@);
    assert(contents(r@) =~= seq![]);
    while i < text.len()
        invariant
            i <= text.len(),
            contents(r@) + words(text@.skip(i as int)) =~= words(text@),
        decreases text.len() - i,
    {
        let ghost rest = text@.skip(i as int);
        if is_whitespace(text[i]) {
            assert(rest.skip(1) =~= text@.skip(i + 1));
            i = i + 1;
        } else {
            let start: usize = i;
            let ghost before = r@;
            while i < text.len() && !is_whitespace(text[i])
                invariant
                    start <= i <= text.len(),
                    forall|k: int| start <= k < i ==> !is_space(#[trigger] text@[k]),
                decreases text.len() - i,
            {
                i = i + 1;
            }
            let word = copy_range(text, start, i);
            proof {
                let n = i - start;
                assert forall|k: int| 0 <= k < n implies !#[trigger] space()(rest[k]) by {
                    assert(rest[k] == text@[start + k]);
                }
                lemma_span_is(rest, space(), n);
                assert(rest.take(n) =~= word@);
                assert(rest.skip(n) =~= text@.skip(i as int));
                assert(!is_space(rest[0]));
            }
            r.push(word);
            assert(contents(r@) =~= contents(before).push(word@));
            assert(contents(r@) + words(text@.skip(i as int)) =~= contents(before) + words(rest));
        }
    }
    assert(text@.skip(text@.len() as int) =~= seq![]);
    r
}

/// The lines of a text.
pub fn split_lines(text: &Vec<char>) -> (r: Vec<Vec<char>>)
    ensures
        contents(r@) == lines(text@),
{
    let mut r: Vec<Vec<char>> = Vec::new();
    let mut i: usize = 0;
    assert(text@.skip(0) =~= text@);
    assert(contents(r@) =~= seq![]);
    while i < text.len()
        invariant
            i <= text.len(),
            contents(r@) + lines(text@.skip(i as int)) =~= lines(text@),
        decreases text.len() - i,
    {
        let ghost rest = text@.skip(i as int);
        let ghost before = r@;
        let start: usize = i;
        while i < text.len() && text[i] != '\n'
            invariant
                start <= i <= text.len(),
                forall|k: int| start <= k < i ==> #[trigger] text@[k] != '\n',
            decreases text.len() - i,
        {
            i = i + 1;
        }
        let returned = i < text.len() && i > start && text[i - 1] == '\r';
        let end: usize = if returned {
            i - 1
        } else {
            i
        };
        let line = copy_range(text, start, end);
        proof {
            let n = i - start;
            assert forall|k: int| 0 <= k < n implies !#[trigger] line_feed()(rest[k]) by {
                assert(rest[k] == text@[start + k]);
            }
            lemma_span_is(rest, line_feed(), n);
            if n < rest.len() {
                if n > 0 {
                    assert(rest.take(n).last() == text@[i - 1]);
                }
                assert(without_return(rest.take(n)) =~= line@);
                assert(rest.skip(n + 1) =~= text@.skip(i + 1));
            } else {
                assert(rest =~= line@);
                assert(text@.skip(i as int) =~= seq![]);
            }
        }
        r.push(line);
        assert(contents(r@) =~= contents(before).push(line@));
        if i < text.len() {
            i = i + 1;
        }
        assert(contents(r@) + lines(text@.skip(i as int)) =~= contents(before) + lines(rest));
    }
    assert(text@.skip(text@.len() as int) =~= seq![]);
    r
}

/// The text without the white space at its start and at its end.
pub fn trimmed(text: &Vec<char>) -> (r: Vec<char>)
    ensures
        r@ == trim(text@),
{
    let mut i: usize = 0;
    assert(text@.skip(0) =~= text@);
    while i < text.len() && is_whitespace(text[i])
        invariant
            i <= text.len(),
            trim_start(text@.skip(i as int)) == trim_start(text@),
        decreases text.len() - i,
    {
        assert(text@.skip(i as int).skip(1) =~= text@.skip(i + 1));
        i = i + 1;
    }
    let ghost inner = text@.skip(i as int);
    let mut j: usize = text.len();
    assert(text@.subrange(i as int, j as int) =~= inner);
    while j > i && is_whitespace(text[j - 1])
        invariant
            i <= j <= text.len(),
            trim_end(text@.subrange(i as int, j as int)) == trim_end(inner),
        decreases j,
    {
        assert(text@.subrange(i as int, j as int).drop_last() =~= text@.subrange(
            i as int,
            j - 1,
        ));
        j = j - 1;
    }
    copy_range(text, i, j)
}

// ---------------------------------------------------------------------------
// Numbers
// ---------------------------------------------------------------------------
/// Reads a text as a 64-bit number.
pub fn parse_number(text: &Vec<char>) -> (r: Result<u64, NumberError>)
    ensures
        r == number(text@),
{
    if text.len() == 0 {
        return Err(NumberError::Empty);
    }
    let start: usize = if text[0] == '+' {
        1
    } else {
        0
    };
    let ghost digits = without_plus(text@);
    assert(digits =~= text@.skip(start as int));
    proof {
        lemma_span_bound(digits, non_digit());
    }
    if start == text.len() {
        assert(digits.take(0) =~= seq![]);
        return Err(NumberError::InvalidDigit);
    }
    let mut acc: u64 = 0;
    let mut i: usize = start;
    assert(digits.take(0) =~= seq![]);
    while i < text.len()
        invariant
            0 <= start <= i <= text.len(),
            start < text.len(),
            digits == text@.skip(start as int),
            digits == without_plus(text@),
            span(digits, non_digit()) <= digits.len(),
            forall|k: int| 0 <= k < i - start ==> is_digit(#[trigger] digits[k]),
            acc == value(digits.take(i - start)),
        decreases text.len() - i,
    {
        let c = text[i];
        let ghost k = i - start;
        assert(digits[k] == c);
        if c < '0' || c > '9' {
            proof {
                assert forall|m: int| 0 <= m < k implies !#[trigger] non_digit()(digits[m]) by {
                    assert(is_digit(digits[m]));
                }
                lemma_span_is(digits, non_digit(), k);
            }
            return Err(NumberError::InvalidDigit);
        }
        let d: u64 = (c as u32 - '0' as u32) as u64;
        proof {
            assert(digits.take(k + 1).drop_last() =~= digits.take(k));
            assert(value(digits.take(k + 1)) == 10 * acc + d);
        }
        if acc > (u64::MAX - d) / 10 {
            proof {
                let n = span(digits, non_digit()) as int;
                if n <= k {
                    assert(is_digit(digits[k]));
                    lemma_span_stop(digits, non_digit());
                    assert(non_digit()(digits[n]));
                    assert(is_digit(digits[n]));
                }
                lemma_value_prefix(digits, k + 1, n);
            }
            return Err(NumberError::TooLarge);
        }
        acc = acc * 10 + d;
        i = i + 1;
    }
    proof {
        let n = digits.len() as int;
        assert forall|m: int| 0 <= m < n implies !#[trigger] non_digit()(digits[m]) by {
            assert(is_digit(digits[m]));
        }
        lemma_span_is(digits, non_digit(), n);
        assert(digits.take(n) =~= digits);
    }
    Ok(acc)
}

/// Where a span ends before the text does, the next character stops it.
proof fn lemma_span_stop(s: Seq<char>, stop: spec_fn(char) -> bool)
    ensures
        span(s, stop) < s.len() ==> stop(s[span(s, stop) as int]),
    decreases s.len(),
{
    if s.len() > 0 && !stop(s[0]) {
        lemma_span_stop(s.skip(1), stop);
        lemma_span_bound(s, stop);
        let n = span(s, stop) as int;
        if n < s.len() {
            assert(s.skip(1)[n - 1] == s[n]);
        }
    }
}

/// Appends the decimal digits of `n` to `s`.
pub(crate) fn push_decimal(s: &mut String, n: u64)
    ensures
        final(s)@ == old(s)@ + decimal(n as nat),
    decreases n,
{
    if n >= 10 {
        push_decimal(s, n / 10);
    }
    let d: u8 = (n % 10) as u8;
    s.push((48u8 + d) as char);
    proof {
        let whole = decimal(n as nat);
        if n >= 10 {
            assert(whole =~= decimal(n as nat / 10).push(digit_char(n as nat % 10)));
        }
        assert(s@ =~= old(s)@ + whole);
    }
}

/// The decimal digits of a number.
pub fn decimal_string(n: u64) -> (s: String)
    ensures
        s@ == decimal(n as nat),
{
    let mut s = String::new();
    push_decimal(&mut s, n);
    assert(s@ =~= decimal(n as nat));
    s
}

// ---------------------------------------------------------------------------
// Laws
// ---------------------------------------------------------------------------
/// The digits of a number are digits, and denote the number.
pub(crate) proof fn lemma_decimal_value(n: nat)
    ensures
        decimal(n).len() > 0,
        forall|i: int| 0 <= i < decimal(n).len() ==> is_digit(#[trigger] decimal(n)[i]),
        value(decimal(n)) == n,
    decreases n,
{
    let s = decimal(n);
    let d = digit_char(n % 10);
    assert(is_digit(d) && digit_value(d) == n % 10);
    if n < 10 {
        assert(s.drop_last() =~= seq![]);
        assert(value(s.drop_last()) == 0);
    } else {
        lemma_decimal_value(n / 10);
        assert(s.drop_last() =~= decimal(n / 10));
    }
}

/// A number that is written in decimal is read back as it was.
pub proof fn law_decimal_is_read_back(n: u64)
    ensures
        number(decimal(n as nat)) == Ok::<u64, NumberError>(n),
{
    let s = decimal(n as nat);
    lemma_decimal_value(n as nat);
    assert(is_digit(s[0]));
    assert(without_plus(s) == s);
    assert forall|k: int| 0 <= k < s.len() implies !#[trigger] non_digit()(s[k]) by {
        assert(is_digit(s[k]));
    }
    lemma_span_is(s, non_digit(), s.len() as int);
    assert(s.take(s.len() as int) =~= s);
}

/// Every word is there to read: none is empty, and none holds white space.
pub proof fn law_words_are_words(s: Seq<char>)
    ensures
        forall|i: int| 0 <= i < words(s).len() ==> (#[trigger] words(s)[i]).len() > 0,
        forall|i: int, k: int|
            0 <= i < words(s).len() && 0 <= k < words(s)[i].len() ==> !is_space(
                #[trigger] words(s)[i][k],
            ),
    decreases s.len(),
{
    if s.len() > 0 {
        if is_space(s[0]) {
            law_words_are_words(s.skip(1));
            assert(words(s) == words(s.skip(1)));
        } else {
            let n = span(s, space()) as int;
            lemma_span_bound(s, space());
            law_words_are_words(s.skip(n));
            let rest = words(s.skip(n));
            assert(!space()(s[0]));
            assert(words(s) == seq![s.take(n)] + rest);
            assert forall|i: int| 0 <= i < words(s).len() implies (#[trigger] words(s)[i]).len()
                > 0 by {
                if i > 0 {
                    assert(words(s)[i] == rest[i - 1]);
                }
            }
            assert forall|i: int, k: int|
                0 <= i < words(s).len() && 0 <= k < words(s)[i].len() implies !is_space(
                #[trigger] words(s)[i][k],
            ) by {
                if i == 0 {
                    lemma_span_inside(s, space(), k);
                    assert(words(s)[0][k] == s[k]);
                    assert(!space()(s[k]));
                } else {
                    assert(words(s)[i] == rest[i - 1]);
                    assert(!is_space(rest[i - 1][k]));
                }
            }
        }
    }
}

/// The characters are all white space.
pub open spec fn all_space(s: Seq<char>) -> bool {
    forall|i: int| 0 <= i < s.len() ==> is_space(#[trigger] s[i])
}

/// None of the characters is white space.
pub open spec fn no_space(s: Seq<char>) -> bool {
    forall|i: int| 0 <= i < s.len() ==> !is_space(#[trigger] s[i])
}

/// The characters are all decimal digits.
pub open spec fn all_digits(s: Seq<char>) -> bool {
    forall|i: int| 0 <= i < s.len() ==> is_digit(#[trigger] s[i])
}

/// A run of characters without white space is one word.
pub proof fn law_run_is_one_word(s: Seq<char>)
    requires
        s.len() > 0,
        no_space(s),
    ensures
        words(s) == seq![s],
{
    assert forall|k: int| 0 <= k < s.len() implies !#[trigger] space()(s[k]) by {
        assert(!is_space(s[k]));
    }
    lemma_span_is(s, space(), s.len() as int);
    assert(!is_space(s[0]));
    assert(s.take(s.len() as int) =~= s);
    assert(s.skip(s.len() as int) =~= seq![]);
    assert(words(seq![]) =~= seq![]);
    assert(words(s) =~= seq![s]);
}

/// White space separates words: the words of two texts with white space between them are those
/// of the one and then those of the other.
pub proof fn law_space_separates_words(a: Seq<char>, c: char, b: Seq<char>)
    requires
        is_space(c),
    ensures
        words(a + seq![c] + b) == words(a) + words(b),
    decreases a.len(),
{
    let s = a + seq![c] + b;
    if a.len() == 0 {
        assert(s[0] == c);
        assert(s.skip(1) =~= b);
        assert(words(s) =~= words(a) + words(b));
    } else if is_space(a[0]) {
        assert(s[0] == a[0]);
        assert(s.skip(1) =~= a.skip(1) + seq![c] + b);
        law_space_separates_words(a.skip(1), c, b);
    } else {
        assert(s[0] == a[0]);
        let n = span(a, space()) as int;
        lemma_span_bound(a, space());
        lemma_span_stop(a, space());
        assert forall|k: int| 0 <= k < n implies !#[trigger] space()(s[k]) by {
            lemma_span_inside(a, space(), k);
            assert(s[k] == a[k]);
        }
        if n < a.len() {
            assert(s[n] == a[n]);
        } else {
            assert(s[n] == c);
        }
        assert(space()(s[n]));
        lemma_span_is(s, space(), n);
        assert(s.take(n) =~= a.take(n));
        assert(s.skip(n) =~= a.skip(n) + seq![c] + b);
        law_space_separates_words(a.skip(n), c, b);
        assert(words(s) =~= words(a) + words(b));
    }
}

/// White space alone has no word.
pub proof fn law_space_has_no_word(s: Seq<char>)
    requires
        all_space(s),
    ensures
        words(s).len() == 0,
    decreases s.len(),
{
    if s.len() > 0 {
        assert(is_space(s[0]));
        assert forall|i: int| 0 <= i < s.skip(1).len() implies is_space(
            #[trigger] s.skip(1)[i],
        ) by {
            assert(s.skip(1)[i] == s[i + 1]);
        }
        law_space_has_no_word(s.skip(1));
    }
}

/// A line feed ends a line, and so does a carriage return in front of one; what follows are the
/// other lines. What no line feed ends is a line too, unless it is empty.
pub proof fn law_line_feed_ends_a_line(a: Seq<char>, b: Seq<char>)
    requires
        !a.contains('\n'),
    ensures
        lines(a + "\r\n"@ + b) == seq![a] + lines(b),
        a.len() == 0 || a.last() != '\r' ==> lines(a + "\n"@ + b) == seq![a] + lines(b),
        a.len() > 0 ==> lines(a) == seq![a],
        lines(Seq::<char>::empty()).len() == 0,
{
    reveal_strlit("\n");
    reveal_strlit("\r\n");
    let s = a + "\n"@ + b;
    lemma_first_line(a, b);
    assert(s =~= a + seq!['\n'] + b);
    let t = a + "\r\n"@ + b;
    let r = a.push('\r');
    assert forall|i: int| 0 <= i < r.len() implies #[trigger] r[i] != '\n' by {
        if i < a.len() {
            assert(r[i] == a[i]);
            assert(a.contains(a[i]));
        }
    }
    assert(!r.contains('\n'));
    lemma_first_line(r, b);
    assert(t =~= r + seq!['\n'] + b);
    assert(without_return(r) =~= a);
    if a.len() > 0 {
        assert forall|k: int| 0 <= k < a.len() implies !#[trigger] line_feed()(a[k]) by {
            assert(a.contains(a[k]));
        }
        lemma_span_is(a, line_feed(), a.len() as int);
    }
}

proof fn lemma_first_line(a: Seq<char>, b: Seq<char>)
    requires
        !a.contains('\n'),
    ensures
        lines(a + seq!['\n'] + b) == seq![without_return(a)] + lines(b),
{
    let s = a + seq!['\n'] + b;
    let n = a.len() as int;
    assert forall|k: int| 0 <= k < n implies !#[trigger] line_feed()(s[k]) by {
        assert(s[k] == a[k]);
        assert(a.contains(a[k]));
    }
    assert(s[n] == '\n');
    lemma_span_is(s, line_feed(), n);
    assert(s.take(n) =~= a);
    assert(s.skip(n + 1) =~= b);
}

proof fn lemma_trim_start(l: Seq<char>, m: Seq<char>)
    requires
        all_space(l),
        m.len() > 0 ==> !is_space(m[0]),
    ensures
        trim_start(l + m) == m,
    decreases l.len(),
{
    let s = l + m;
    if l.len() > 0 {
        assert(s[0] == l[0]);
        assert(is_space(l[0]));
        assert(s.skip(1) =~= l.skip(1) + m);
        assert forall|i: int| 0 <= i < l.skip(1).len() implies is_space(
            #[trigger] l.skip(1)[i],
        ) by {
            assert(l.skip(1)[i] == l[i + 1]);
        }
        lemma_trim_start(l.skip(1), m);
    } else {
        assert(s =~= m);
    }
}

proof fn lemma_trim_end(m: Seq<char>, r: Seq<char>)
    requires
        all_space(r),
        m.len() > 0 ==> !is_space(m.last()),
    ensures
        trim_end(m + r) == m,
    decreases r.len(),
{
    let s = m + r;
    if r.len() > 0 {
        assert(s.last() == r[r.len() - 1]);
        assert(is_space(r[r.len() - 1]));
        assert(s.drop_last() =~= m + r.drop_last());
        assert forall|i: int| 0 <= i < r.drop_last().len() implies is_space(
            #[trigger] r.drop_last()[i],
        ) by {
            assert(r.drop_last()[i] == r[i]);
        }
        lemma_trim_end(m, r.drop_last());
    } else {
        assert(s =~= m);
    }
}

/// Trimming takes away the white space around a text that neither begins nor ends with any, and
/// nothing of the text.
pub proof fn law_trimming_takes_the_space_around(l: Seq<char>, m: Seq<char>, r: Seq<char>)
    requires
        all_space(l),
        all_space(r),
        m.len() > 0 ==> !is_space(m[0]) && !is_space(m.last()),
    ensures
        trim(l + m + r) == m,
{
    if m.len() > 0 {
        assert((m + r)[0] == m[0]);
        lemma_trim_start(l, m + r);
        assert(l + m + r =~= l + (m + r));
        lemma_trim_end(m, r);
    } else {
        let s = l + m + r;
        assert forall|i: int| 0 <= i < s.len() implies is_space(#[trigger] s[i]) by {
            if i < l.len() {
                assert(s[i] == l[i]);
            } else {
                assert(s[i] == r[i - l.len()]);
            }
        }
        lemma_trim_start(s, m);
        assert(s + m =~= s);
        assert(m =~= seq![]);
        assert(trim_end(m) =~= m);
    }
}

proof fn lemma_number_of_digits(s: Seq<char>)
    requires
        s.len() > 0,
        all_digits(s),
    ensures
        number(s) == if value(s) > u64::MAX {
            Err::<u64, NumberError>(NumberError::TooLarge)
        } else {
            Ok(value(s) as u64)
        },
        without_plus(s) == s,
        span(s, non_digit()) == s.len(),
{
    assert(is_digit(s[0]));
    assert(without_plus(s) == s);
    assert forall|k: int| 0 <= k < s.len() implies !#[trigger] non_digit()(s[k]) by {
        assert(is_digit(s[k]));
    }
    lemma_span_is(s, non_digit(), s.len() as int);
    assert(s.take(s.len() as int) =~= s);
}

/// A digit is its number, and one more digit behind a number is ten times the number and the
/// digit, as long as that can be held; beyond, it is too large, and stays so.
pub proof fn law_digits_are_read_by_place(s: Seq<char>, c: char)
    requires
        all_digits(s),
        is_digit(c),
    ensures
        number(seq![c]) == Ok::<u64, NumberError>((c as u32 - '0' as u32) as u64),
        number(s) matches Ok(n) ==> number(s.push(c)) == if 10 * n + (c as u32 - '0' as u32)
            <= u64::MAX {
            Ok::<u64, NumberError>((10 * n + (c as u32 - '0' as u32)) as u64)
        } else {
            Err(NumberError::TooLarge)
        },
        number(s) == Err::<u64, NumberError>(NumberError::TooLarge) ==> number(s.push(c)) == Err::<
            u64,
            NumberError,
        >(NumberError::TooLarge),
{
    let one = seq![c];
    assert(one.drop_last() =~= seq![]);
    assert(value(one.drop_last()) == 0);
    lemma_number_of_digits(one);
    let t = s.push(c);
    assert(t.drop_last() =~= s);
    assert forall|i: int| 0 <= i < t.len() implies is_digit(#[trigger] t[i]) by {
        if i < s.len() {
            assert(t[i] == s[i]);
        }
    }
    lemma_number_of_digits(t);
    if s.len() > 0 {
        lemma_number_of_digits(s);
    }
}

/// A plus sign in front of digits makes no difference, but it is no number by itself; and
/// nothing is no number.
pub proof fn law_plus_sign_makes_no_difference(s: Seq<char>)
    requires
        all_digits(s),
    ensures
        s.len() > 0 ==> number(seq!['+'] + s) == number(s),
        number(seq!['+']) == Err::<u64, NumberError>(NumberError::InvalidDigit),
        number(Seq::<char>::empty()) == Err::<u64, NumberError>(NumberError::Empty),
{
    let t = seq!['+'] + s;
    assert(t.skip(1) =~= s);
    let plus = seq!['+'];
    assert(plus.skip(1) =~= seq![]);
    assert(without_plus(plus).take(0) =~= seq![]);
    lemma_span_bound(without_plus(plus), non_digit());
    if s.len() > 0 {
        lemma_number_of_digits(s);
        assert(s.take(s.len() as int) =~= s);
    }
}

/// A character that is no digit spoils a number, whatever follows, unless the digits in front of
/// it are too large already; and too large digits are too large, whatever follows.
pub proof fn law_other_characters_spoil_a_number(s: Seq<char>, c: char, rest: Seq<char>)
    requires
        all_digits(s),
        !is_digit(c),
        s.len() == 0 ==> c != '+',
    ensures
        s.len() == 0 || number(s) is Ok ==> number(s + seq![c] + rest) == Err::<u64, NumberError>(
            NumberError::InvalidDigit,
        ),
        number(s) == Err::<u64, NumberError>(NumberError::TooLarge) ==> number(
            s + seq![c] + rest,
        ) == Err::<u64, NumberError>(NumberError::TooLarge),
{
    let t = s + seq![c] + rest;
    let n = s.len() as int;
    if n > 0 {
        lemma_number_of_digits(s);
        assert(is_digit(s[0]));
        assert(t[0] == s[0]);
    } else {
        assert(t[0] == c);
        assert(s =~= seq![]);
        assert(value(s) == 0);
    }
    assert(without_plus(t) == t);
    assert forall|k: int| 0 <= k < n implies !#[trigger] non_digit()(t[k]) by {
        assert(t[k] == s[k]);
        assert(is_digit(s[k]));
    }
    assert(t[n] == c);
    lemma_span_is(t, non_digit(), n);
    assert(t.take(n) =~= s);
}

/// A number is written with digits alone, and without zeros in front.
pub proof fn law_decimal_is_digits_without_zeros_in_front(n: u64)
    ensures
        decimal(n as nat).len() > 0,
        all_digits(decimal(n as nat)),
        decimal(n as nat)[0] == '0' ==> n == 0 && decimal(n as nat).len() == 1,
        no_space(decimal(n as nat)),
{
    lemma_decimal_value(n as nat);
    lemma_decimal_front(n as nat);
    assert forall|i: int| 0 <= i < decimal(n as nat).len() implies !is_space(
        #[trigger] decimal(n as nat)[i],
    ) by {
        assert(is_digit(decimal(n as nat)[i]));
    }
}

pub(crate) proof fn lemma_decimal_front(n: nat)
    ensures
        decimal(n).len() > 0,
        decimal(n)[0] == '0' ==> n == 0 && decimal(n).len() == 1,
    decreases n,
{
    if n >= 10 {
        lemma_decimal_front(n / 10);
        assert(decimal(n)[0] == decimal(n / 10)[0]);
    } else {
        assert(digit_char(n) == '0' ==> n == 0);
    }
}

/// The model of a list of texts has every text, in order.
pub proof fn law_models_have_every_text(
    v: Seq<Vec<char>>,
    s: Seq<String>,
    t: Option<&str>,
)
    ensures
        contents(v).len() == v.len(),
        forall|i: int| 0 <= i < v.len() ==> #[trigger] contents(v)[i] == v[i]@,
        strings(s).len() == s.len(),
        forall|i: int| 0 <= i < s.len() ==> #[trigger] strings(s)[i] == s[i]@,
        t is Some <==> optional(t) is Some,
        t is Some ==> optional(t)->0 == t->0@,
{
}

/// The digits are the ten ASCII ones, and none of them is white space.
pub proof fn law_digits_are_ascii(c: char)
    ensures
        is_digit(c) <==> 0x30 <= c as u32 <= 0x39,
        is_digit(c) ==> !is_space(c),
{
}

} // verus!
