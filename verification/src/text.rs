//! Text as sequences of characters: order, search, replacement and decimals.

use vstd::prelude::*;

verus! {

/// `String::push` puts one character behind the text.
pub assume_specification[ String::push ](text: &mut String, ch: char)
    ensures
        final(text)@ == old(text)@.push(ch),
;

/// The characters of a text.
pub fn to_chars(text: &str) -> (chars: Vec<char>)
    ensures
        chars@ == text@,
{
    let mut chars: Vec<char> = Vec::new();
    for ch in it: text.chars()
        invariant
            it.seq() == text@,
            chars@ == text@.take(it.index()),
    {
        chars.push(ch);
    }
    assert(text@.take(text@.len() as int) == text@);
    chars
}

/// The text made of the given characters.
pub fn from_chars(chars: &Vec<char>) -> (text: String)
    ensures
        text@ == chars@,
{
    let mut text: String = String::new();
    for i in 0..chars.len()
        invariant
            text@ == chars@.take(i as int),
    {
        text.push(chars[i]);
        assert(chars@.take(i + 1) == chars@.take(i as int).push(chars@[i as int]));
    }
    assert(chars@.take(chars@.len() as int) == chars@);
    text
}

/// The order of names: the first differing character decides, and a prefix comes first.
pub open spec fn precedes(a: Seq<char>, b: Seq<char>) -> bool
    decreases a.len(),
{
    if b.len() == 0 {
        false
    } else if a.len() == 0 {
        true
    } else if a[0] != b[0] {
        (a[0] as int) < (b[0] as int)
    } else {
        precedes(a.drop_first(), b.drop_first())
    }
}

/// No name precedes itself.
pub proof fn precedes_irreflexive(a: Seq<char>)
    ensures
        !precedes(a, a),
    decreases a.len(),
{
    if a.len() > 0 {
        precedes_irreflexive(a.drop_first());
    }
}

/// The order of names is transitive.
pub proof fn precedes_transitive(a: Seq<char>, b: Seq<char>, c: Seq<char>)
    requires
        precedes(a, b),
        precedes(b, c),
    ensures
        precedes(a, c),
    decreases a.len(),
{
    if a.len() > 0 && b.len() > 0 && c.len() > 0 && a[0] == b[0] && b[0] == c[0] {
        precedes_transitive(a.drop_first(), b.drop_first(), c.drop_first());
    }
}

/// How one name stands to another in the order of names.
#[derive(Clone, Copy, Debug, PartialEq, Eq, Structural)]
pub enum Place {
    Before,
    Same,
    After,
}

pub open spec fn place_of(a: Seq<char>, b: Seq<char>) -> Place {
    if a == b {
        Place::Same
    } else if precedes(a, b) {
        Place::Before
    } else {
        Place::After
    }
}

proof fn lemma_common_prefix(a: Seq<char>, b: Seq<char>, n: int)
    requires
        0 <= n <= a.len(),
        n <= b.len(),
        a.take(n) == b.take(n),
    ensures
        precedes(a, b) == precedes(a.skip(n), b.skip(n)),
        (a == b) == (a.skip(n) == b.skip(n)),
    decreases n,
{
    if n == 0 {
        assert(a.skip(0) == a);
        assert(b.skip(0) == b);
    } else {
        assert(a[0] == a.take(n)[0]);
        assert(b[0] == b.take(n)[0]);
        assert(a.drop_first().take(n - 1) == a.take(n).drop_first());
        assert(b.drop_first().take(n - 1) == b.take(n).drop_first());
        lemma_common_prefix(a.drop_first(), b.drop_first(), n - 1);
        assert(a.drop_first().skip(n - 1) == a.skip(n));
        assert(b.drop_first().skip(n - 1) == b.skip(n));
        assert(a == seq![a[0]] + a.drop_first());
        assert(b == seq![b[0]] + b.drop_first());
    }
}

/// Two distinct names are ordered one way or the other.
pub proof fn precedes_total(a: Seq<char>, b: Seq<char>)
    ensures
        a == b || precedes(a, b) || precedes(b, a),
    decreases a.len(),
{
    if a.len() == 0 && b.len() == 0 {
        assert(a == b);
    } else if a.len() > 0 && b.len() > 0 && a[0] == b[0] {
        precedes_total(a.drop_first(), b.drop_first());
        assert(a == seq![a[0]] + a.drop_first());
        assert(b == seq![b[0]] + b.drop_first());
    }
}

/// Compares two names.
pub fn place(a: &str, b: &str) -> (result: Place)
    ensures
        result == place_of(a@, b@),
{
    let left: Vec<char> = to_chars(a);
    let right: Vec<char> = to_chars(b);
    let mut i: usize = 0;
    while i < left.len() && i < right.len() && left[i] == right[i]
        invariant
            i <= left@.len(),
            i <= right@.len(),
            left@.take(i as int) == right@.take(i as int),
        decreases left@.len() - i,
    {
        assert(left@.take(i + 1) == left@.take(i as int).push(left@[i as int]));
        assert(right@.take(i + 1) == right@.take(i as int).push(right@[i as int]));
        i = i + 1;
    }
    proof {
        lemma_common_prefix(left@, right@, i as int);
        let rest_left = left@.skip(i as int);
        let rest_right = right@.skip(i as int);
        assert(i < left@.len() ==> rest_left[0] == left@[i as int]);
        assert(i < right@.len() ==> rest_right[0] == right@[i as int]);
        if rest_left.len() == 0 && rest_right.len() == 0 {
            assert(rest_left == rest_right);
        }
    }
    if i == left.len() {
        if i == right.len() {
            Place::Same
        } else {
            Place::Before
        }
    } else if i == right.len() {
        Place::After
    } else if left[i] < right[i] {
        Place::Before
    } else {
        Place::After
    }
}

/// Whether two texts are the same.
pub fn same_text(a: &str, b: &str) -> (same: bool)
    ensures
        same == (a@ == b@),
{
    match place(a, b) {
        Place::Same => true,
        _ => false,
    }
}

/// The concatenation of several texts.
pub fn join2(a: &str, b: &str) -> (text: String)
    ensures
        text@ == a@ + b@,
{
    a.to_owned().concat(b)
}

pub fn join3(a: &str, b: &str, c: &str) -> (text: String)
    ensures
        text@ == a@ + b@ + c@,
{
    a.to_owned().concat(b).concat(c)
}

pub fn join4(a: &str, b: &str, c: &str, d: &str) -> (text: String)
    ensures
        text@ == a@ + b@ + c@ + d@,
{
    a.to_owned().concat(b).concat(c).concat(d)
}

/// `pattern` stands in `text` at `at`.
pub open spec fn occurs_at(text: Seq<char>, pattern: Seq<char>, at: int) -> bool {
    &&& 0 <= at
    &&& at + pattern.len() <= text.len()
    &&& text.subrange(at, at + pattern.len()) == pattern
}

/// `pattern` stands somewhere in `text`.
pub open spec fn occurs(text: Seq<char>, pattern: Seq<char>) -> bool {
    exists|at: int| occurs_at(text, pattern, at)
}

fn matches_at(text: &Vec<char>, pattern: &Vec<char>, at: usize) -> (found: bool)
    requires
        at <= text@.len(),
    ensures
        found == occurs_at(text@, pattern@, at as int),
{
    if text.len() - at < pattern.len() {
        return false;
    }
    let ghost window = text@.subrange(at as int, at + pattern@.len());
    for i in 0..pattern.len()
        invariant
            at + pattern@.len() <= text.len(),
            window == text@.subrange(at as int, at + pattern@.len()),
            forall|j: int| 0 <= j < i ==> window[j] == pattern@[j],
    {
        assert(window[i as int] == text@[at + i]);
        if text[at + i] != pattern[i] {
            return false;
        }
    }
    assert(window == pattern@);
    true
}

/// Whether `pattern` stands somewhere in `text`.
pub fn contains_text(text: &str, pattern: &str) -> (found: bool)
    ensures
        found == occurs(text@, pattern@),
{
    let chars: Vec<char> = to_chars(text);
    let wanted: Vec<char> = to_chars(pattern);
    let mut at: usize = 0;
    while at < chars.len()
        invariant
            at <= chars@.len(),
            chars@ == text@,
            wanted@ == pattern@,
            forall|j: int| 0 <= j < at ==> !occurs_at(text@, pattern@, j),
        decreases chars@.len() - at,
    {
        if matches_at(&chars, &wanted, at) {
            return true;
        }
        at = at + 1;
    }
    matches_at(&chars, &wanted, at)
}

/// `text` with every occurrence of `pattern`, read from the left, exchanged for `with`.
pub open spec fn replaced(text: Seq<char>, pattern: Seq<char>, with: Seq<char>) -> Seq<char>
    decreases text.len(),
{
    if pattern.len() == 0 || text.len() == 0 {
        text
    } else if occurs_at(text, pattern, 0) {
        with + replaced(text.skip(pattern.len() as int), pattern, with)
    } else {
        seq![text[0]] + replaced(text.skip(1), pattern, with)
    }
}

/// Exchanges every occurrence of a non-empty pattern.
pub fn replace_text(text: &str, pattern: &str, with: &str) -> (result: String)
    requires
        pattern@.len() > 0,
    ensures
        result@ == replaced(text@, pattern@, with@),
{
    let chars: Vec<char> = to_chars(text);
    let wanted: Vec<char> = to_chars(pattern);
    let mut result: String = String::new();
    let mut at: usize = 0;
    assert(chars@.skip(0) == chars@);
    assert(result@ + replaced(chars@, pattern@, with@) == replaced(chars@, pattern@, with@));
    while at < chars.len()
        invariant
            at <= chars@.len(),
            wanted@ == pattern@,
            pattern@.len() > 0,
            result@ + replaced(chars@.skip(at as int), pattern@, with@) == replaced(
                chars@,
                pattern@,
                with@,
            ),
        decreases chars@.len() - at,
    {
        let ghost rest = chars@.skip(at as int);
        let ghost before = result@;
        assert(occurs_at(rest, pattern@, 0) == occurs_at(chars@, pattern@, at as int)) by {
            if at + pattern@.len() <= chars@.len() {
                assert(rest.subrange(0, pattern@.len() as int) == chars@.subrange(
                    at as int,
                    at + pattern@.len(),
                ));
            }
        }
        if matches_at(&chars, &wanted, at) {
            result.append(with);
            at = at + wanted.len();
            assert(rest.skip(pattern@.len() as int) == chars@.skip(at as int));
            assert(before + (with@ + replaced(chars@.skip(at as int), pattern@, with@)) == (before
                + with@) + replaced(chars@.skip(at as int), pattern@, with@));
        } else {
            result.push(chars[at]);
            at = at + 1;
            assert(rest.skip(1) == chars@.skip(at as int));
            assert(before + (seq![rest[0]] + replaced(chars@.skip(at as int), pattern@, with@))
                == before.push(rest[0]) + replaced(chars@.skip(at as int), pattern@, with@));
        }
    }
    assert(result@ + Seq::<char>::empty() == result@);
    result
}

/// The character that stands for a decimal digit.
pub open spec fn digit_char(digit: int) -> char {
    (48 + digit) as char
}

/// The decimal text of a number.
pub open spec fn digits(n: nat) -> Seq<char>
    decreases n,
{
    if n < 10 {
        seq![digit_char(n as int)]
    } else {
        digits(n / 10).push(digit_char((n % 10) as int))
    }
}

fn digit_chars(n: u64) -> (chars: Vec<char>)
    ensures
        chars@ == digits(n as nat),
    decreases n,
{
    if n < 10 {
        let mut chars: Vec<char> = Vec::new();
        chars.push((48 + n as u8) as char);
        chars
    } else {
        let mut chars: Vec<char> = digit_chars(n / 10);
        chars.push((48 + (n % 10) as u8) as char);
        chars
    }
}

/// Writes a number in decimal.
pub fn decimal(n: u64) -> (text: String)
    ensures
        text@ == digits(n as nat),
{
    from_chars(&digit_chars(n))
}

pub open spec fn is_digit(ch: char) -> bool {
    48 <= ch as int <= 57
}

/// The number that a run of decimal digits writes.
pub open spec fn digits_value(chars: Seq<char>) -> nat
    decreases chars.len(),
{
    if chars.len() == 0 {
        0
    } else {
        digits_value(chars.drop_last()) * 10 + (chars.last() as int - 48) as nat
    }
}

pub open spec fn all_digits(chars: Seq<char>) -> bool {
    forall|i: int| 0 <= i < chars.len() ==> is_digit(#[trigger] chars[i])
}

/// A count without its optional plus sign.
pub open spec fn count_body(text: Seq<char>) -> Seq<char> {
    if text.len() > 0 && text[0] == '+' {
        text.skip(1)
    } else {
        text
    }
}

/// The count that a text writes: an optional plus sign and decimal digits, within 32 bits.
pub open spec fn count_of(text: Seq<char>) -> Option<u32> {
    let body = count_body(text);
    if body.len() > 0 && all_digits(body) && digits_value(body) <= u32::MAX {
        Some(digits_value(body) as u32)
    } else {
        None
    }
}

proof fn lemma_prefix_value(chars: Seq<char>, n: int)
    requires
        0 <= n <= chars.len(),
        all_digits(chars),
    ensures
        digits_value(chars.take(n)) <= digits_value(chars),
    decreases chars.len(),
{
    if n == chars.len() {
        assert(chars.take(n) == chars);
    } else {
        lemma_prefix_value(chars.drop_last(), n);
        assert(chars.drop_last().take(n) == chars.take(n));
    }
}

/// Reads a count.
pub fn parse_count(text: &Vec<char>) -> (count: Option<u32>)
    ensures
        count == count_of(text@),
{
    let start: usize = if text.len() > 0 && text[0] == '+' {
        1
    } else {
        0
    };
    let ghost body = count_body(text@);
    assert(text@.skip(0) == text@);
    assert(body == text@.skip(start as int));
    if start == text.len() {
        return None;
    }
    let mut value: u64 = 0;
    let mut i: usize = start;
    assert(body.take(0) == Seq::<char>::empty());
    while i < text.len()
        invariant
            start <= i <= text@.len(),
            body == text@.skip(start as int),
            forall|j: int| 0 <= j < i - start ==> is_digit(body[j]),
            value == digits_value(body.take(i - start)),
            value <= u32::MAX,
            body == count_body(text@),
        decreases text@.len() - i,
    {
        let ch: char = text[i];
        assert(body[i - start] == ch);
        if ch < '0' || ch > '9' {
            assert(!is_digit(body[i - start]));
            return None;
        }
        let digit: u64 = ch as u64 - 48;
        assert(body.take(i - start + 1).drop_last() == body.take(i - start));
        assert(body.take(i - start + 1).last() == ch);
        value = value * 10 + digit;
        if value > 4_294_967_295 {
            proof {
                if all_digits(body) {
                    lemma_prefix_value(body, i - start + 1);
                }
            }
            return None;
        }
        i = i + 1;
    }
    assert(body.take(body.len() as int) == body);
    Some(value as u32)
}

/// Reading the decimal text of a number gives the number back.
pub proof fn law_count_of_digits(n: u32)
    ensures
        count_of(digits(n as nat)) == Some(n),
{
    lemma_digits(n as nat);
}

/// The digits of a number are digits, and write that number.
pub proof fn lemma_digits(n: nat)
    ensures
        digits(n).len() > 0,
        all_digits(digits(n)),
        digits_value(digits(n)) == n,
    decreases n,
{
    if n < 10 {
        assert(digits(n).drop_last() == Seq::<char>::empty());
        assert(digits_value(digits(n).drop_last()) == 0);
    } else {
        lemma_digits(n / 10);
        assert(digits(n).drop_last() == digits(n / 10));
    }
}

/// The characters with the Unicode property White_Space.
pub open spec fn is_space(ch: char) -> bool {
    let code = ch as int;
    ||| 0x9 <= code <= 0xd
    ||| code == 0x20
    ||| code == 0x85
    ||| code == 0xa0
    ||| code == 0x1680
    ||| 0x2000 <= code <= 0x200a
    ||| code == 0x2028
    ||| code == 0x2029
    ||| code == 0x202f
    ||| code == 0x205f
    ||| code == 0x3000
}

fn space(ch: char) -> (result: bool)
    ensures
        result == is_space(ch),
{
    let code: u32 = ch as u32;
    (0x9 <= code && code <= 0xd) || code == 0x20 || code == 0x85 || code == 0xa0 || code == 0x1680
        || (0x2000 <= code && code <= 0x200a) || code == 0x2028 || code == 0x2029 || code == 0x202f
        || code == 0x205f || code == 0x3000
}

/// `text` without the white space at its two ends.
pub open spec fn trimmed(text: Seq<char>) -> Seq<char>
    decreases text.len(),
{
    if text.len() > 0 && is_space(text[0]) {
        trimmed(text.drop_first())
    } else if text.len() > 0 && is_space(text.last()) {
        trimmed(text.drop_last())
    } else {
        text
    }
}

/// Cuts the white space off both ends.
pub fn trim_text(text: &str) -> (result: Vec<char>)
    ensures
        result@ == trimmed(text@),
{
    let chars: Vec<char> = to_chars(text);
    let mut from: usize = 0;
    let mut to: usize = chars.len();
    assert(chars@.subrange(0, chars@.len() as int) == chars@);
    while from < to && space(chars[from])
        invariant
            from <= to == chars@.len(),
            trimmed(chars@.subrange(from as int, to as int)) == trimmed(chars@),
        decreases to - from,
    {
        assert(chars@.subrange(from as int, to as int).drop_first() == chars@.subrange(
            from + 1,
            to as int,
        ));
        from = from + 1;
    }
    while from < to && space(chars[to - 1])
        invariant
            from <= to <= chars@.len(),
            from < to ==> !is_space(chars@[from as int]),
            trimmed(chars@.subrange(from as int, to as int)) == trimmed(chars@),
        decreases to - from,
    {
        assert(chars@.subrange(from as int, to as int).drop_last() == chars@.subrange(
            from as int,
            to - 1,
        ));
        to = to - 1;
    }
    let mut result: Vec<char> = Vec::new();
    let mut i: usize = from;
    while i < to
        invariant
            from <= i <= to <= chars@.len(),
            result@ == chars@.subrange(from as int, i as int),
        decreases to - i,
    {
        result.push(chars[i]);
        i = i + 1;
        assert(result@ == chars@.subrange(from as int, i as int));
    }
    result
}

/// A prefix of a replacement's result that holds nothing of what was put in is a prefix of the
/// text.
proof fn lemma_untouched_prefix(text: Seq<char>, pattern: Seq<char>, with: Seq<char>, n: int)
    requires
        with.len() > 0,
        0 <= n <= replaced(text, pattern, with).len(),
        forall|i: int, j: int|
            0 <= i < n && 0 <= j < with.len() ==> #[trigger] replaced(text, pattern, with)[i]
                != #[trigger] with[j],
    ensures
        n <= text.len(),
        replaced(text, pattern, with).take(n) == text.take(n),
    decreases text.len(),
{
    let result = replaced(text, pattern, with);
    if n > 0 && pattern.len() > 0 && text.len() > 0 {
        if occurs_at(text, pattern, 0) {
            assert(result[0] == with[0]);
        } else {
            let rest = replaced(text.skip(1), pattern, with);
            assert forall|i: int, j: int| 0 <= i < n - 1 && 0 <= j < with.len() implies #[trigger]
                rest[i] != #[trigger] with[j] by {
                assert(result[i + 1] == rest[i]);
            }
            lemma_untouched_prefix(text.skip(1), pattern, with, n - 1);
            assert(result.take(n) == seq![text[0]] + rest.take(n - 1));
            assert(text.take(n) == seq![text[0]] + text.skip(1).take(n - 1));
        }
    } else {
        assert(result.take(n) == text.take(n));
    }
}

/// A replacement leaves no occurrence of the pattern, where the pattern and what is put in have no
/// character in common.
pub proof fn law_every_occurrence_is_replaced(
    text: Seq<char>,
    pattern: Seq<char>,
    with: Seq<char>,
)
    requires
        pattern.len() > 0,
        with.len() > 0,
        forall|i: int, j: int|
            0 <= i < pattern.len() && 0 <= j < with.len() ==> #[trigger] pattern[i]
                != #[trigger] with[j],
    ensures
        !occurs(replaced(text, pattern, with), pattern),
    decreases text.len(),
{
    let result = replaced(text, pattern, with);
    assert forall|at: int| !occurs_at(result, pattern, at) by {
        if occurs_at(result, pattern, at) && text.len() > 0 {
            let found = result.subrange(at, at + pattern.len());
            assert(found[0] == result[at]);
            if occurs_at(text, pattern, 0) {
                let rest = replaced(text.skip(pattern.len() as int), pattern, with);
                if at < with.len() {
                    assert(result[at] == with[at]);
                    assert(pattern[0] == with[at]);
                } else {
                    law_every_occurrence_is_replaced(
                        text.skip(pattern.len() as int),
                        pattern,
                        with,
                    );
                    let k = at - with.len();
                    assert(rest.subrange(k, k + pattern.len()) == found);
                    assert(occurs_at(rest, pattern, k));
                }
            } else {
                let rest = replaced(text.skip(1), pattern, with);
                if at > 0 {
                    law_every_occurrence_is_replaced(text.skip(1), pattern, with);
                    assert(rest.subrange(at - 1, at - 1 + pattern.len()) == found);
                    assert(occurs_at(rest, pattern, at - 1));
                } else {
                    let n = pattern.len() as int;
                    assert forall|i: int, j: int| 0 <= i < n && 0 <= j < with.len() implies
                        #[trigger] result[i] != #[trigger] with[j] by {
                        assert(found[i] == pattern[i]);
                    }
                    lemma_untouched_prefix(text, pattern, with, n);
                    assert(text.subrange(0, n) == text.take(n));
                    assert(result.subrange(0, n) == result.take(n));
                    assert(occurs_at(text, pattern, 0));
                }
            }
        }
    }
}

/// Between white space, a number in decimal is all that is left of a text.
pub proof fn law_trimmed_digits(n: nat, end: Seq<char>)
    requires
        forall|i: int| 0 <= i < end.len() ==> is_space(#[trigger] end[i]),
    ensures
        trimmed(digits(n) + end) == digits(n),
    decreases end.len(),
{
    lemma_digits(n);
    let text = digits(n) + end;
    assert(is_digit(digits(n)[0]));
    assert(text[0] == digits(n)[0]);
    if end.len() == 0 {
        assert(text == digits(n));
        assert(is_digit(digits(n).last()));
    } else {
        assert(text.last() == end[end.len() - 1]);
        assert(text.drop_last() == digits(n) + end.drop_last());
        law_trimmed_digits(n, end.drop_last());
    }
}

/// Between white space on both sides, a number in decimal is all that is left of a text.
pub proof fn law_trimmed_digits_between(n: nat, start: Seq<char>, end: Seq<char>)
    requires
        forall|i: int| 0 <= i < start.len() ==> is_space(#[trigger] start[i]),
        forall|i: int| 0 <= i < end.len() ==> is_space(#[trigger] end[i]),
    ensures
        trimmed(start + digits(n) + end) == digits(n),
    decreases start.len(),
{
    let text = start + digits(n) + end;
    if start.len() == 0 {
        assert(text == digits(n) + end);
        law_trimmed_digits(n, end);
    } else {
        assert(text[0] == start[0]);
        assert(text.drop_first() == start.drop_first() + digits(n) + end);
        law_trimmed_digits_between(n, start.drop_first(), end);
    }
}

/// Trimming takes white space from both ends, and nothing else.
pub proof fn law_trimmed(text: Seq<char>) -> (cut: (int, int))
    ensures
        0 <= cut.0 <= cut.1 <= text.len(),
        trimmed(text) == text.subrange(cut.0, cut.1),
        forall|i: int| 0 <= i < cut.0 ==> is_space(#[trigger] text[i]),
        forall|i: int| cut.1 <= i < text.len() ==> is_space(#[trigger] text[i]),
        cut.0 < cut.1 ==> !is_space(text[cut.0]) && !is_space(text[cut.1 - 1]),
    decreases text.len(),
{
    if text.len() > 0 && is_space(text[0]) {
        let rest = text.drop_first();
        let (a, b) = law_trimmed(rest);
        assert(rest.subrange(a, b) == text.subrange(a + 1, b + 1));
        assert forall|i: int| 0 <= i < a + 1 implies is_space(#[trigger] text[i]) by {
            if i > 0 {
                assert(is_space(rest[i - 1]));
            }
        }
        assert forall|i: int| b + 1 <= i < text.len() implies is_space(#[trigger] text[i]) by {
            assert(is_space(rest[i - 1]));
        }
        (a + 1, b + 1)
    } else if text.len() > 0 && is_space(text.last()) {
        let rest = text.drop_last();
        let (a, b) = law_trimmed(rest);
        assert(rest.subrange(a, b) == text.subrange(a, b));
        assert forall|i: int| 0 <= i < a implies is_space(#[trigger] text[i]) by {
            assert(is_space(rest[i]));
        }
        assert forall|i: int| b <= i < text.len() implies is_space(#[trigger] text[i]) by {
            if i < text.len() - 1 {
                assert(is_space(rest[i]));
            }
        }
        (a, b)
    } else {
        assert(text.subrange(0, text.len() as int) == text);
        (0, text.len() as int)
    }
}

/// Decimal digits, at least one.
pub open spec fn is_decimal(text: Seq<char>) -> bool {
    text.len() > 0 && forall|i: int|
        0 <= i < text.len() ==> '0' <= (#[trigger] text[i]) && text[i] <= '9'
}

/// A text is a count exactly when it is made of decimal digits, behind a plus sign or not, and what
/// they write fits; the count is then what they write.
pub proof fn law_counts_are_decimals(text: Seq<char>, body: Seq<char>)
    requires
        body == (if text.len() > 0 && text[0] == '+' {
            text.skip(1)
        } else {
            text
        }),
    ensures
        match count_of(text) {
            Some(count) => is_decimal(body) && digits_value(body) == count,
            None => !is_decimal(body) || digits_value(body) > u32::MAX,
        },
{
    assert(is_decimal(body) ==> all_digits(body));
    assert(body.len() > 0 && all_digits(body) ==> is_decimal(body)) by {
        if all_digits(body) {
            assert forall|i: int| 0 <= i < body.len() implies '0' <= (#[trigger] body[i]) && body[i]
                <= '9' by {
                assert(is_digit(body[i]));
            }
        }
    }
}

/// One more digit behind others writes ten times as much, and itself.
pub proof fn law_digits_value(chars: Seq<char>, last: char)
    requires
        '0' <= last <= '9',
    ensures
        digits_value(Seq::empty()) == 0,
        digits_value(chars.push(last)) == 10 * digits_value(chars) + (last as int - '0' as int),
{
    assert(chars.push(last).drop_last() == chars);
}

/// A replacement keeps the text up to where the pattern first occurs, puts the other text there, and
/// goes on behind it.
pub proof fn law_replaced_at(
    start: Seq<char>,
    pattern: Seq<char>,
    end: Seq<char>,
    with: Seq<char>,
)
    requires
        pattern.len() > 0,
        forall|at: int| 0 <= at < start.len() ==> !occurs_at(start + pattern + end, pattern, at),
    ensures
        replaced(start + pattern + end, pattern, with) == start + with + replaced(
            end,
            pattern,
            with,
        ),
    decreases start.len(),
{
    let text = start + pattern + end;
    if start.len() == 0 {
        assert(text.subrange(0, pattern.len() as int) == pattern);
        assert(occurs_at(text, pattern, 0));
        assert(text.skip(pattern.len() as int) == end);
        assert(replaced(text, pattern, with) == start + with + replaced(end, pattern, with));
    } else {
        let rest = start.drop_first();
        assert(text.skip(1) == rest + pattern + end);
        assert(!occurs_at(text, pattern, 0));
        assert forall|at: int| 0 <= at < rest.len() implies !occurs_at(
            rest + pattern + end,
            pattern,
            at,
        ) by {
            assert(!occurs_at(text, pattern, at + 1));
            if occurs_at(rest + pattern + end, pattern, at) {
                assert(text.subrange(at + 1, at + 1 + pattern.len()) == text.skip(1).subrange(
                    at,
                    at + pattern.len(),
                ));
            }
        }
        law_replaced_at(rest, pattern, end, with);
        assert(seq![text[0]] + (rest + with + replaced(end, pattern, with)) == start + with
            + replaced(end, pattern, with));
    }
}

/// A text in which the pattern does not occur is kept.
pub proof fn law_replaced_nowhere(text: Seq<char>, pattern: Seq<char>, with: Seq<char>)
    requires
        !occurs(text, pattern),
    ensures
        replaced(text, pattern, with) == text,
    decreases text.len(),
{
    if pattern.len() > 0 && text.len() > 0 {
        assert(!occurs_at(text, pattern, 0));
        let rest = text.skip(1);
        assert(!occurs(rest, pattern)) by {
            if occurs(rest, pattern) {
                let at = choose|at: int| occurs_at(rest, pattern, at);
                assert(text.subrange(at + 1, at + 1 + pattern.len()) == rest.subrange(
                    at,
                    at + pattern.len(),
                ));
                assert(occurs_at(text, pattern, at + 1));
            }
        }
        law_replaced_nowhere(rest, pattern, with);
        assert(seq![text[0]] + rest == text);
    }
}

} // verus!
