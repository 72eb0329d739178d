//! Text as sequences of characters: prefixes, lines, words, trimming, decimal
//! numbers.
//!
//! A `&str` or `String` is seen through its view, a `Seq<char>`. The functions
//! here give the handful of text operations the rest of the library relies on an
//! exact meaning over that view.
use vstd::prelude::*;

verus! {

// ---------------------------------------------------------------------------
// What the standard library is relied on for
// ---------------------------------------------------------------------------

/// `String::push`: appends one character to the end of the string.
pub assume_specification[ String::push ](s: &mut String, c: char)
    ensures
        final(s)@ == old(s)@.push(c),
;

/// `==` on string slices (`str::eq`): true exactly when both hold the same
/// characters in the same order.
pub assume_specification[ <str as PartialEq>::eq ](a: &str, b: &str) -> (r: bool)
    ensures
        r == (a@ == b@),
;

/// The Unicode lowercase form of a text.
pub uninterp spec fn lowercased(text: Seq<char>) -> Seq<char>;

/// Whether every character is ASCII.
pub open spec fn all_ascii(text: Seq<char>) -> bool {
    forall|i: int| 0 <= i < text.len() ==> (#[trigger] text[i]) <= '\x7f'
}

/// The lowercase form of an ASCII character.
pub open spec fn ascii_lower(c: char) -> char {
    if 'A' <= c <= 'Z' {
        (c as u32 + 32) as char
    } else {
        c
    }
}

/// `str::to_lowercase`: the Unicode lowercase form of the text. Of an ASCII text
/// that is the text with its capitals replaced; what it is for any other is the
/// Unicode database's business and is not said here.
#[verifier::external_body]
pub(crate) fn to_lowercase(text: &str) -> (r: String)
    ensures
        r@ == lowercased(text@),
        all_ascii(text@) ==> r@ == text@.map_values(|c: char| ascii_lower(c)),
{
    text.to_lowercase()
}

// ---------------------------------------------------------------------------
// Characters
// ---------------------------------------------------------------------------

/// Whether a character has the Unicode `White_Space` property.
pub open spec fn white_space(c: char) -> bool {
    ||| '\u{9}' <= c <= '\u{d}'
    ||| c == ' '
    ||| c == '\u{85}'
    ||| c == '\u{a0}'
    ||| c == '\u{1680}'
    ||| '\u{2000}' <= c <= '\u{200a}'
    ||| c == '\u{2028}'
    ||| c == '\u{2029}'
    ||| c == '\u{202f}'
    ||| c == '\u{205f}'
    ||| c == '\u{3000}'
}

/// Whether a character has the Unicode `White_Space` property.
pub fn is_white_space(c: char) -> (r: bool)
    ensures
        r == white_space(c),
{
    ('\u{9}' <= c && c <= '\u{d}') || c == ' ' || c == '\u{85}' || c == '\u{a0}' || c == '\u{1680}'
        || ('\u{2000}' <= c && c <= '\u{200a}') || c == '\u{2028}' || c == '\u{2029}' || c
        == '\u{202f}' || c == '\u{205f}' || c == '\u{3000}'
}

/// The views of a list of strings.
pub open spec fn texts(list: Seq<String>) -> Seq<Seq<char>> {
    list.map_values(|s: String| s@)
}

/// Whether `text` is one of `list`.
pub open spec fn listed(list: Seq<String>, text: Seq<char>) -> bool {
    exists|i: int| 0 <= i < list.len() && (#[trigger] list[i])@ == text
}

/// The characters of a text.
pub fn chars_of(text: &str) -> (r: Vec<char>)
    ensures
        r@ == text@,
{
    let mut out: Vec<char> = Vec::new();
    for c in it: text.chars()
        invariant
            out@ == it.seq().take(it.index() as int),
            it.seq() == text@,
    {
        out.push(c);
    }
    out
}

/// The text made of a stretch of characters.
pub fn text_between(chars: &Vec<char>, from: usize, to: usize) -> (r: String)
    requires
        from <= to <= chars.len(),
    ensures
        r@ == chars@.subrange(from as int, to as int),
{
    let mut out = String::new();
    let mut i: usize = from;
    while i < to
        invariant
            from <= i <= to <= chars.len(),
            out@ == chars@.subrange(from as int, i as int),
        decreases to - i,
    {
        out.push(chars[i]);
        i += 1;
    }
    out
}

/// The text made of a list of characters.
pub fn text_of(chars: &Vec<char>) -> (r: String)
    ensures
        r@ == chars@,
{
    let r = text_between(chars, 0, chars.len());
    assert(chars@.subrange(0, chars@.len() as int) == chars@);
    r
}

/// Two texts, one after the other.
pub fn joined(a: &str, b: &str) -> (r: String)
    ensures
        r@ == a@ + b@,
{
    let mut out = a.to_string();
    out.append(b);
    out
}

/// Whether two lists hold the same texts in the same order.
pub fn same_texts(a: &Vec<String>, b: &Vec<String>) -> (r: bool)
    ensures
        r == (texts(a@) == texts(b@)),
{
    assert(texts(a@).len() == a@.len() && texts(b@).len() == b@.len());
    if a.len() != b.len() {
        return false;
    }
    let mut i: usize = 0;
    while i < a.len()
        invariant
            i <= a.len() == b.len(),
            forall|k: int| 0 <= k < i ==> texts(a@)[k] == texts(b@)[k],
        decreases a.len() - i,
    {
        assert(texts(a@)[i as int] == a@[i as int]@ && texts(b@)[i as int] == b@[i as int]@);
        if *a[i].as_str() != *b[i].as_str() {
            return false;
        }
        i += 1;
    }
    assert(texts(a@) =~= texts(b@));
    true
}

/// Whether `text` is one of `list`.
pub fn contains_text(list: &Vec<String>, text: &str) -> (r: bool)
    ensures
        r == listed(list@, text@),
{
    let mut i: usize = 0;
    while i < list.len()
        invariant
            i <= list.len(),
            forall|j: int| 0 <= j < i ==> (#[trigger] list@[j])@ != text@,
        decreases list.len() - i,
    {
        if *list[i].as_str() == *text {
            return true;
        }
        i += 1;
    }
    false
}

/// Whether the characters from `at` on start with `what`.
fn matches_at(chars: &Vec<char>, at: usize, what: &Vec<char>) -> (r: bool)
    requires
        at <= chars.len(),
    ensures
        r == what@.is_prefix_of(chars@.subrange(at as int, chars@.len() as int)),
{
    if chars.len() - at < what.len() {
        return false;
    }
    let mut i: usize = 0;
    while i < what.len()
        invariant
            at <= chars.len(),
            what.len() <= chars.len() - at,
            i <= what.len(),
            forall|j: int| 0 <= j < i ==> what@[j] == chars@[at + j],
        decreases what.len() - i,
    {
        if what[i] != chars[at + i] {
            assert(chars@.subrange(at as int, chars@.len() as int).subrange(
                0,
                what@.len() as int,
            )[i as int] == chars@[at + i]);
            return false;
        }
        i += 1;
    }
    assert(what@ =~= chars@.subrange(at as int, chars@.len() as int).subrange(
        0,
        what@.len() as int,
    ));
    true
}

/// Whether `text` begins with `prefix`.
pub fn starts_with(text: &str, prefix: &str) -> (r: bool)
    ensures
        r == prefix@.is_prefix_of(text@),
{
    let chars = chars_of(text);
    let what = chars_of(prefix);
    assert(chars@.subrange(0, chars@.len() as int) == chars@);
    matches_at(&chars, 0, &what)
}

/// Whether `text` ends with `suffix`.
pub fn ends_with(text: &str, suffix: &str) -> (r: bool)
    ensures
        r == suffix@.is_suffix_of(text@),
{
    let chars = chars_of(text);
    let what = chars_of(suffix);
    if chars.len() < what.len() {
        return false;
    }
    let at: usize = chars.len() - what.len();
    let r = matches_at(&chars, at, &what);
    proof {
        let tail = chars@.subrange(at as int, chars@.len() as int);
        assert(tail.subrange(0, what@.len() as int) == tail);
    }
    r
}

// ---------------------------------------------------------------------------
// Trimming
// ---------------------------------------------------------------------------

/// Whether every character is white space.
pub open spec fn blank(text: Seq<char>) -> bool {
    forall|i: int| 0 <= i < text.len() ==> white_space(#[trigger] text[i])
}

/// The text without its leading white space.
pub open spec fn trimmed_start(text: Seq<char>) -> Seq<char>
    decreases text.len(),
{
    if text.len() > 0 && white_space(text[0]) {
        trimmed_start(text.drop_first())
    } else {
        text
    }
}

/// The text without its trailing white space.
pub open spec fn trimmed_end(text: Seq<char>) -> Seq<char>
    decreases text.len(),
{
    if text.len() > 0 && white_space(text.last()) {
        trimmed_end(text.drop_last())
    } else {
        text
    }
}

/// The text without white space at either end.
pub open spec fn trimmed(text: Seq<char>) -> Seq<char> {
    trimmed_end(trimmed_start(text))
}

/// Whether a text holds nothing but white space.
pub fn is_blank(text: &str) -> (r: bool)
    ensures
        r == blank(text@),
{
    let chars = chars_of(text);
    let mut i: usize = 0;
    while i < chars.len()
        invariant
            i <= chars.len(),
            chars@ == text@,
            forall|j: int| 0 <= j < i ==> white_space(#[trigger] chars@[j]),
        decreases chars.len() - i,
    {
        if !is_white_space(chars[i]) {
            return false;
        }
        i += 1;
    }
    true
}

/// The text without white space at either end.
pub fn trim(text: &str) -> (r: String)
    ensures
        r@ == trimmed(text@),
{
    let chars = chars_of(text);
    let mut from: usize = 0;
    assert(chars@.subrange(0, chars@.len() as int) == chars@);
    while from < chars.len() && is_white_space(chars[from])
        invariant
            from <= chars.len(),
            chars@ == text@,
            trimmed_start(text@) == trimmed_start(chars@.subrange(from as int, chars@.len() as int)),
        ensures
            from <= chars.len(),
            trimmed_start(text@) == chars@.subrange(from as int, chars@.len() as int),
        decreases chars.len() - from,
    {
        assert(chars@.subrange(from as int, chars@.len() as int).drop_first() == chars@.subrange(
            from + 1,
            chars@.len() as int,
        ));
        from += 1;
    }
    let mut to: usize = chars.len();
    while from < to && is_white_space(chars[to - 1])
        invariant
            from <= to <= chars.len(),
            chars@ == text@,
            trimmed(text@) == trimmed_end(chars@.subrange(from as int, to as int)),
        ensures
            from <= to <= chars.len(),
            trimmed(text@) == chars@.subrange(from as int, to as int),
        decreases to - from,
    {
        assert(chars@.subrange(from as int, to as int).drop_last() == chars@.subrange(
            from as int,
            to - 1,
        ));
        to -= 1;
    }
    text_between(&chars, from, to)
}

// ---------------------------------------------------------------------------
// Lines and words
// ---------------------------------------------------------------------------

/// How many leading characters come before the first line feed, or all of them.
pub open spec fn line_length(text: Seq<char>) -> nat
    decreases text.len(),
{
    if text.len() == 0 || text[0] == '\n' {
        0
    } else {
        1 + line_length(text.drop_first())
    }
}

/// A line without the carriage return that belonged to its line ending.
pub open spec fn without_return(line: Seq<char>) -> Seq<char> {
    if line.len() > 0 && line.last() == '\r' {
        line.drop_last()
    } else {
        line
    }
}

/// The lines of a text. A line ends at a line feed or at a carriage return and a
/// line feed; the ending of the last line is optional.
pub open spec fn lines(text: Seq<char>) -> Seq<Seq<char>>
    decreases text.len(),
{
    let n = line_length(text) as int;
    if text.len() == 0 {
        Seq::empty()
    } else if n >= text.len() {
        seq![text]
    } else {
        seq![without_return(text.subrange(0, n))] + lines(text.subrange(n + 1, text.len() as int))
    }
}

/// A line is never longer than its text, and stops just before a line feed.
proof fn lemma_line_length(text: Seq<char>)
    ensures
        line_length(text) <= text.len(),
        line_length(text) < text.len() ==> text[line_length(text) as int] == '\n',
        forall|i: int| 0 <= i < line_length(text) ==> text[i] != '\n',
    decreases text.len(),
{
    if text.len() > 0 && text[0] != '\n' {
        let rest = text.drop_first();
        lemma_line_length(rest);
        assert forall|i: int| 0 <= i < line_length(text) implies text[i] != '\n' by {
            if i > 0 {
                assert(rest[i - 1] == text[i]);
            }
        }
    }
}

/// The number of characters before the first line feed is fixed by what they are.
pub proof fn lemma_line_length_is(text: Seq<char>, n: int)
    requires
        0 <= n <= text.len(),
        n < text.len() ==> text[n] == '\n',
        forall|i: int| 0 <= i < n ==> text[i] != '\n',
    ensures
        line_length(text) == n,
{
    lemma_line_length(text);
    if line_length(text) < n {
        assert(text[line_length(text) as int] == '\n');
    }
}

/// The lines of a text, as `str::lines` gives them.
pub fn lines_of(text: &str) -> (r: Vec<String>)
    ensures
        texts(r@) == lines(text@),
{
    let chars = chars_of(text);
    let mut out: Vec<String> = Vec::new();
    let mut from: usize = 0;
    assert(chars@.subrange(0, chars@.len() as int) == chars@);
    assert(texts(out@) + lines(chars@) =~= lines(chars@));
    while from < chars.len()
        invariant
            from <= chars.len(),
            chars@ == text@,
            lines(text@) == texts(out@) + lines(chars@.subrange(from as int, chars@.len() as int)),
        decreases chars.len() - from,
    {
        let ghost rest = chars@.subrange(from as int, chars@.len() as int);
        let mut to: usize = from;
        while to < chars.len() && chars[to] != '\n'
            invariant
                from <= to <= chars.len(),
                forall|j: int| from <= j < to ==> chars@[j] != '\n',
            ensures
                from <= to <= chars.len(),
                to < chars.len() ==> chars@[to as int] == '\n',
                forall|j: int| from <= j < to ==> chars@[j] != '\n',
            decreases chars.len() - to,
        {
            to += 1;
        }
        proof {
            lemma_line_length_is(rest, to - from);
        }
        let ghost before = out@;
        if to == chars.len() {
            out.push(text_between(&chars, from, to));
            from = to;
            assert(lines(chars@.subrange(from as int, chars@.len() as int)) =~= Seq::empty());
            assert(texts(out@) =~= texts(before) + seq![rest]);
        } else {
            let end: usize = if to > from && chars[to - 1] == '\r' {
                to - 1
            } else {
                to
            };
            out.push(text_between(&chars, from, end));
            proof {
                let line = rest.subrange(0, to - from);
                assert(line == chars@.subrange(from as int, to as int));
                assert(out@.last()@ == without_return(line));
                assert(rest.subrange(to - from + 1, rest.len() as int) == chars@.subrange(
                    to + 1,
                    chars@.len() as int,
                ));
                assert(texts(out@) =~= texts(before) + seq![without_return(line)]);
                assert(texts(out@) + lines(chars@.subrange(to + 1, chars@.len() as int))
                    =~= texts(before) + lines(rest));
            }
            from = to + 1;
        }
    }
    assert(lines(chars@.subrange(from as int, chars@.len() as int)) =~= Seq::empty());
    assert(texts(out@) + Seq::empty() =~= texts(out@));
    out
}

/// How many leading characters are not white space.
pub open spec fn word_length(text: Seq<char>) -> nat
    decreases text.len(),
{
    if text.len() == 0 || white_space(text[0]) {
        0
    } else {
        1 + word_length(text.drop_first())
    }
}

proof fn lemma_word_length(text: Seq<char>)
    ensures
        word_length(text) <= text.len(),
        word_length(text) < text.len() ==> white_space(text[word_length(text) as int]),
        forall|i: int| 0 <= i < word_length(text) ==> !white_space(#[trigger] text[i]),
    decreases text.len(),
{
    if text.len() > 0 && !white_space(text[0]) {
        let rest = text.drop_first();
        lemma_word_length(rest);
        assert forall|i: int| 0 <= i < word_length(text) implies !white_space(
            #[trigger] text[i],
        ) by {
            if i > 0 {
                assert(rest[i - 1] == text[i]);
            }
        }
    }
}

proof fn lemma_word_length_is(text: Seq<char>, n: int)
    requires
        0 <= n <= text.len(),
        n < text.len() ==> white_space(text[n]),
        forall|i: int| 0 <= i < n ==> !white_space(#[trigger] text[i]),
    ensures
        word_length(text) == n,
{
    lemma_word_length(text);
    if word_length(text) < n {
        assert(!white_space(text[word_length(text) as int]));
    }
    if n < word_length(text) {
        assert(!white_space(text[n]));
    }
}

/// The stretches of a text between white space, in order.
pub open spec fn words(text: Seq<char>) -> Seq<Seq<char>>
    decreases text.len(),
    via words_shrink
{
    let n = word_length(text) as int;
    if text.len() == 0 {
        Seq::empty()
    } else if white_space(text[0]) {
        words(text.drop_first())
    } else {
        seq![text.subrange(0, n)] + words(text.subrange(n, text.len() as int))
    }
}

#[via_fn]
proof fn words_shrink(text: Seq<char>) {
    lemma_word_length(text);
}

/// The stretches of a text between white space, as `str::split_whitespace` gives
/// them.
pub fn words_of(text: &str) -> (r: Vec<String>)
    ensures
        texts(r@) == words(text@),
{
    let chars = chars_of(text);
    let mut out: Vec<String> = Vec::new();
    let mut from: usize = 0;
    assert(chars@.subrange(0, chars@.len() as int) == chars@);
    assert(texts(out@) + words(chars@) =~= words(chars@));
    while from < chars.len()
        invariant
            from <= chars.len(),
            chars@ == text@,
            words(text@) == texts(out@) + words(chars@.subrange(from as int, chars@.len() as int)),
        decreases chars.len() - from,
    {
        let ghost rest = chars@.subrange(from as int, chars@.len() as int);
        if is_white_space(chars[from]) {
            assert(rest.drop_first() == chars@.subrange(from + 1, chars@.len() as int));
            from += 1;
        } else {
            let mut to: usize = from + 1;
            while to < chars.len() && !is_white_space(chars[to])
                invariant
                    from < to <= chars.len(),
                    forall|j: int| from <= j < to ==> !white_space(#[trigger] chars@[j]),
                ensures
                    from < to <= chars.len(),
                    to < chars.len() ==> white_space(chars@[to as int]),
                    forall|j: int| from <= j < to ==> !white_space(#[trigger] chars@[j]),
                decreases chars.len() - to,
            {
                to += 1;
            }
            let ghost before = out@;
            out.push(text_between(&chars, from, to));
            proof {
                lemma_word_length_is(rest, to - from);
                let word = rest.subrange(0, to - from);
                assert(word == chars@.subrange(from as int, to as int));
                assert(rest.subrange(to - from, rest.len() as int) == chars@.subrange(
                    to as int,
                    chars@.len() as int,
                ));
                assert(texts(out@) =~= texts(before) + seq![word]);
                assert(texts(out@) + words(chars@.subrange(to as int, chars@.len() as int))
                    =~= texts(before) + words(rest));
            }
            from = to;
        }
    }
    assert(words(chars@.subrange(from as int, chars@.len() as int)) =~= Seq::empty());
    assert(texts(out@) + Seq::empty() =~= texts(out@));
    out
}

// ---------------------------------------------------------------------------
// Decimal numbers
// ---------------------------------------------------------------------------

/// Whether a character is one of `0` to `9`.
pub open spec fn is_digit(c: char) -> bool {
    '0' <= c <= '9'
}

/// The digit that stands for a number below ten.
pub open spec fn digit(n: nat) -> char {
    (n + '0' as nat) as char
}

/// A number in decimal, without leading zeros.
pub open spec fn decimal(n: nat) -> Seq<char>
    decreases n,
{
    if n < 10 {
        seq![digit(n)]
    } else {
        decimal(n / 10).push(digit(n % 10))
    }
}

/// The number that a run of digits stands for.
pub open spec fn digits_value(text: Seq<char>) -> nat
    decreases text.len(),
{
    if text.len() == 0 {
        0
    } else {
        10 * digits_value(text.drop_last()) + (text.last() as nat - '0' as nat) as nat
    }
}

/// The digits of a number that may carry a leading plus sign.
pub open spec fn unsigned_digits(text: Seq<char>) -> Seq<char> {
    if text.len() > 0 && text[0] == '+' {
        text.drop_first()
    } else {
        text
    }
}

/// The `u64` a text spells: an optional plus sign, then at least one digit and
/// nothing else, with a value that fits.
pub open spec fn unsigned(text: Seq<char>) -> Option<u64> {
    let digits = unsigned_digits(text);
    if digits.len() > 0 && (forall|i: int|
        0 <= i < digits.len() ==> is_digit(#[trigger] digits[i])) && digits_value(digits)
        <= u64::MAX {
        Some(digits_value(digits) as u64)
    } else {
        None
    }
}

/// A number in decimal, without leading zeros.
pub fn decimal_of(n: u128) -> (r: String)
    ensures
        r@ == decimal(n as nat),
    decreases n,
{
    let mut out = if n < 10 {
        String::new()
    } else {
        decimal_of(n / 10)
    };
    let last: u8 = (n % 10) as u8;
    let ghost before = out@;
    out.push((last + 48u8) as char);
    assert(out@ =~= if n < 10 {
        seq![digit(n as nat)]
    } else {
        before.push(digit(n as nat % 10))
    });
    out
}

/// A longer run of digits never stands for a smaller number.
proof fn lemma_digits_grow(text: Seq<char>, n: int)
    requires
        0 <= n <= text.len(),
    ensures
        digits_value(text.subrange(0, n)) <= digits_value(text),
    decreases text.len(),
{
    if n == text.len() {
        assert(text.subrange(0, n) == text);
    } else {
        lemma_digits_grow(text.drop_last(), n);
        assert(text.drop_last().subrange(0, n) == text.subrange(0, n));
    }
}

/// The `u64` a text spells, as `str::parse` reads it.
pub fn unsigned_of(text: &str) -> (r: Option<u64>)
    ensures
        r == unsigned(text@),
{
    let chars = chars_of(text);
    let from: usize = if chars.len() > 0 && chars[0] == '+' {
        1
    } else {
        0
    };
    let ghost digits = unsigned_digits(text@);
    assert(digits == chars@.subrange(from as int, chars@.len() as int));
    if from == chars.len() {
        return None;
    }
    let mut value: u64 = 0;
    let mut i: usize = from;
    while i < chars.len()
        invariant
            from <= i <= chars.len(),
            from < chars.len(),
            digits == unsigned_digits(text@),
            digits == chars@.subrange(from as int, chars@.len() as int),
            forall|j: int| 0 <= j < i - from ==> is_digit(#[trigger] digits[j]),
            value == digits_value(digits.subrange(0, i - from)),
        decreases chars.len() - i,
    {
        let c: char = chars[i];
        assert(digits[i - from] == c);
        if c < '0' || c > '9' {
            return None;
        }
        let step: u64 = (c as u32 - '0' as u32) as u64;
        proof {
            let longer = digits.subrange(0, i - from + 1);
            assert(longer.drop_last() == digits.subrange(0, i - from));
            assert(longer.last() == c);
            assert(digits_value(longer) == 10 * value + step);
            lemma_digits_grow(digits, i - from + 1);
        }
        if value > (u64::MAX - step) / 10 {
            return None;
        }
        value = value * 10 + step;
        i += 1;
    }
    assert(digits.subrange(0, chars@.len() - from) == digits);
    Some(value)
}

// ---------------------------------------------------------------------------
// What these operations promise
// ---------------------------------------------------------------------------

/// White space is the tabs, breaks and spaces of Unicode, and nothing else.
pub proof fn law_white_space_is_unicodes(c: char)
    ensures
        white_space(c) <==> {
            ||| 0x9 <= c as int <= 0xd
            ||| c as int == 0x20
            ||| c as int == 0x85
            ||| c as int == 0xa0
            ||| c as int == 0x1680
            ||| 0x2000 <= c as int <= 0x200a
            ||| c as int == 0x2028
            ||| c as int == 0x2029
            ||| c as int == 0x202f
            ||| c as int == 0x205f
            ||| c as int == 0x3000
        },
{
}

/// A text is blank exactly if there is nothing in it that is not white space.
pub proof fn law_blank_texts_show_nothing(text: Seq<char>)
    ensures
        blank(text) <==> !exists|i: int| 0 <= i < text.len() && !white_space(#[trigger] text[i]),
        blank(text) <==> trimmed(text).len() == 0,
{
    law_trimming_takes_only_white_space(text);
    lemma_trims_blank(text);
}

proof fn lemma_trims_blank(text: Seq<char>)
    ensures
        blank(text) ==> trimmed(text).len() == 0,
        trimmed(text).len() == 0 ==> blank(text),
{
    let (front, back) = law_trimming_takes_only_white_space(text);
    let core = trimmed(text);
    if blank(text) && core.len() > 0 {
        assert(text[front as int] == core[0]);
    }
    if core.len() == 0 {
        assert(front + back == text.len());
        assert forall|i: int| 0 <= i < text.len() implies white_space(#[trigger] text[i]) by {
        }
    }
}

proof fn lemma_trimmed_start(text: Seq<char>) -> (front: nat)
    ensures
        front <= text.len(),
        trimmed_start(text) == text.subrange(front as int, text.len() as int),
        forall|i: int| 0 <= i < front ==> white_space(#[trigger] text[i]),
        front < text.len() ==> !white_space(text[front as int]),
    decreases text.len(),
{
    if text.len() > 0 && white_space(text[0]) {
        let rest = text.drop_first();
        let front = lemma_trimmed_start(rest);
        assert(rest.subrange(front as int, rest.len() as int) =~= text.subrange(
            front as int + 1,
            text.len() as int,
        ));
        assert forall|i: int| 0 <= i < front + 1 implies white_space(#[trigger] text[i]) by {
            if i > 0 {
                assert(rest[i - 1] == text[i]);
            }
        }
        if front + 1 < text.len() {
            assert(rest[front as int] == text[front as int + 1]);
        }
        front + 1
    } else {
        assert(text.subrange(0, text.len() as int) =~= text);
        0
    }
}

proof fn lemma_trimmed_end(text: Seq<char>) -> (back: nat)
    ensures
        back <= text.len(),
        trimmed_end(text) == text.subrange(0, text.len() - back),
        forall|i: int| text.len() - back <= i < text.len() ==> white_space(#[trigger] text[i]),
        back < text.len() ==> !white_space(text[text.len() - back - 1]),
    decreases text.len(),
{
    if text.len() > 0 && white_space(text.last()) {
        let rest = text.drop_last();
        let back = lemma_trimmed_end(rest);
        assert(rest.subrange(0, rest.len() - back) =~= text.subrange(0, text.len() - (back + 1)));
        assert forall|i: int| text.len() - (back + 1) <= i < text.len() implies white_space(
            #[trigger] text[i],
        ) by {
            if i < rest.len() {
                assert(rest[i] == text[i]);
            }
        }
        if back + 1 < text.len() {
            assert(rest[rest.len() - back - 1] == text[text.len() - (back + 1) - 1]);
        }
        back + 1
    } else {
        assert(text.subrange(0, text.len() as int) =~= text);
        0
    }
}

/// Trimming takes white space off both ends, all of it and nothing else.
pub proof fn law_trimming_takes_only_white_space(text: Seq<char>) -> (ends: (nat, nat))
    ensures
        ends.0 + trimmed(text).len() + ends.1 == text.len(),
        forall|i: int| 0 <= i < trimmed(text).len() ==> trimmed(text)[i] == text[ends.0 + i],
        forall|i: int| 0 <= i < ends.0 ==> white_space(#[trigger] text[i]),
        forall|i: int| text.len() - ends.1 <= i < text.len() ==> white_space(#[trigger] text[i]),
        trimmed(text).len() > 0 ==> !white_space(trimmed(text)[0]) && !white_space(
            trimmed(text).last(),
        ),
{
    let front = lemma_trimmed_start(text);
    let mid = trimmed_start(text);
    let back = lemma_trimmed_end(mid);
    assert forall|i: int| text.len() - back <= i < text.len() implies white_space(
        #[trigger] text[i],
    ) by {
        assert(mid[i - front] == text[i]);
    }
    if back < mid.len() {
        assert(mid[0] == text[front as int]);
    }
    (front, back)
}

/// Lines are what stands between line feeds. A carriage return just before one goes
/// with it, and what follows the last one is a line if it is not empty.
pub proof fn law_lines_end_at_line_feeds(line: Seq<char>, rest: Seq<char>)
    requires
        !line.contains('\n'),
    ensures
        lines(Seq::empty()).len() == 0,
        line.len() > 0 ==> lines(line) == seq![line],
        (line.len() == 0 || line.last() != '\r') ==> lines(line + seq!['\n'] + rest) == seq![line]
            + lines(rest),
        lines(line + seq!['\r', '\n'] + rest) == seq![line] + lines(rest),
{
    assert forall|i: int| 0 <= i < line.len() implies line[i] != '\n' by {
        assert(line.contains(line[i]));
    }
    lemma_line_length_is(line, line.len() as int);
    let one = line + seq!['\n'] + rest;
    let n = line.len() as int;
    assert(one[n] == '\n');
    assert forall|i: int| 0 <= i < n implies one[i] != '\n' by {
        assert(one[i] == line[i]);
    }
    lemma_line_length_is(one, n);
    assert(one.subrange(0, n) =~= line);
    assert(one.subrange(n + 1, one.len() as int) =~= rest);
    let two = line + seq!['\r', '\n'] + rest;
    assert(two[n + 1] == '\n');
    assert forall|i: int| 0 <= i < n + 1 implies two[i] != '\n' by {
        if i < n {
            assert(two[i] == line[i]);
        } else {
            assert(two[i] == '\r');
        }
    }
    lemma_line_length_is(two, n + 1);
    assert(two.subrange(0, n + 1) =~= line.push('\r'));
    assert(line.push('\r').drop_last() =~= line);
    assert(two.subrange(n + 2, two.len() as int) =~= rest);
}

/// Words are what stands between white space.
pub proof fn law_words_end_at_white_space(word: Seq<char>, space: char, rest: Seq<char>)
    requires
        word.len() > 0,
        forall|i: int| 0 <= i < word.len() ==> !white_space(#[trigger] word[i]),
        white_space(space),
    ensures
        words(Seq::empty()).len() == 0,
        words(seq![space] + rest) == words(rest),
        words(word) == seq![word],
        words(word + seq![space] + rest) == seq![word] + words(rest),
{
    let n = word.len() as int;
    let nothing = Seq::<char>::empty();
    assert(words(nothing) =~= Seq::<Seq<char>>::empty());
    let spaced = seq![space] + rest;
    assert(spaced.drop_first() =~= rest);
    assert(words(spaced) == words(rest));
    lemma_word_length_is(word, n);
    assert(word.subrange(0, n) =~= word);
    assert(word.subrange(n, word.len() as int) =~= nothing);
    assert(!white_space(word[0]));
    assert(words(word) =~= seq![word]);
    let all = word + seq![space] + rest;
    assert(all[n] == space);
    assert forall|i: int| 0 <= i < n implies !white_space(#[trigger] all[i]) by {
        assert(all[i] == word[i]);
    }
    lemma_word_length_is(all, n);
    assert(all.subrange(0, n) =~= word);
    assert(all.subrange(n, all.len() as int) =~= spaced);
    assert(!white_space(all[0]));
}

/// Whether a text is made of the digits `0` to `9`.
pub open spec fn all_digits(text: Seq<char>) -> bool {
    forall|i: int| 0 <= i < text.len() ==> 48 <= (#[trigger] text[i]) as int <= 57
}

/// The decimal of a number is made of digits, has no leading zero, and stands for
/// that number.
pub proof fn law_decimals_stand_for_their_number(n: nat)
    ensures
        decimal(n).len() > 0,
        all_digits(decimal(n)),
        decimal(n).len() > 1 ==> decimal(n)[0] != '0',
        n == 0 ==> decimal(n) == seq!['0'],
        n > 0 ==> decimal(n)[0] != '0',
        digits_value(decimal(n)) == n,
    decreases n,
{
    let text = decimal(n);
    let last = digit(n % 10);
    assert(last as nat == n % 10 + 48);
    if n < 10 {
        assert(text.drop_last() =~= Seq::<char>::empty());
        assert(digits_value(text.drop_last()) == 0);
        assert(text.last() == digit(n));
    } else {
        law_decimals_stand_for_their_number(n / 10);
        let front = decimal(n / 10);
        assert(text.drop_last() =~= front);
        assert(text.last() == last);
        assert forall|i: int| 0 <= i < text.len() implies 48 <= (#[trigger] text[i]) as int
            <= 57 by {
            if i < front.len() {
                assert(text[i] == front[i]);
            }
        }
        assert(text[0] == front[0]);
    }
}

/// A run of digits is read in tens, from the left.
pub proof fn law_digits_count_in_tens(text: Seq<char>, c: char)
    requires
        48 <= c as int <= 57,
    ensures
        digits_value(Seq::empty()) == 0,
        digits_value(text.push(c)) == 10 * digits_value(text) + (c as int - 48),
{
    assert(text.push(c).drop_last() =~= text);
}

/// A number is read from its digits, with or without a plus sign, and from nothing
/// else; one that does not fit is none.
pub proof fn law_numbers_are_digits(text: Seq<char>)
    ensures
        text.len() > 0 && all_digits(text) && digits_value(text) <= u64::MAX ==> unsigned(text)
            == Some(digits_value(text) as u64) && unsigned(seq!['+'] + text) == Some(
            digits_value(text) as u64,
        ),
        text.len() > 0 && all_digits(text) && digits_value(text) > u64::MAX ==> unsigned(text)
            is None,
        unsigned(text) is Some ==> text.len() > 0 && (all_digits(text) || (text.len() > 1 && text[0]
            == '+' && all_digits(text.drop_first()))),
{
    let plus = seq!['+'] + text;
    assert(plus.drop_first() =~= text);
    if text.len() > 0 && all_digits(text) {
        assert(48 <= text[0] as int <= 57);
        assert(unsigned_digits(text) == text);
        assert(unsigned_digits(plus) == text);
        assert forall|i: int| 0 <= i < text.len() implies is_digit(#[trigger] text[i]) by {
        }
    }
    if unsigned(text) is Some {
        let digits = unsigned_digits(text);
        assert forall|i: int| 0 <= i < digits.len() implies 48 <= (#[trigger] digits[i]) as int
            <= 57 by {
            assert(is_digit(digits[i]));
        }
    }
}

/// A number that was written in decimal is read as that number.
pub proof fn law_numbers_read_back(n: u64)
    ensures
        unsigned(decimal(n as nat)) == Some(n),
{
    law_decimals_stand_for_their_number(n as nat);
    law_numbers_are_digits(decimal(n as nat));
}

/// Only the capitals of ASCII have another lowercase form there, 32 further on.
pub proof fn law_only_capitals_are_lowered(c: char)
    ensures
        65 <= c as int <= 90 ==> ascii_lower(c) as int == c as int + 32,
        !(65 <= c as int <= 90) ==> ascii_lower(c) == c,
{
}

/// A text is listed exactly if it is one of the texts of the list.
pub proof fn law_listed_texts_are_in_the_list(list: Seq<String>, text: Seq<char>)
    ensures
        listed(list, text) <==> texts(list).contains(text),
{
    if listed(list, text) {
        let i = choose|i: int| 0 <= i < list.len() && (#[trigger] list[i])@ == text;
        assert(texts(list)[i] == text);
    }
    if texts(list).contains(text) {
        let i = choose|i: int| 0 <= i < texts(list).len() && texts(list)[i] == text;
        assert(list[i]@ == text);
    }
}

} // verus!
