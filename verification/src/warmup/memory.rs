//! Reading the available memory out of what the system reports.

use vstd::prelude::*;
use vstd::slice::slice_subrange;

verus! {

/// What the line with the available memory begins with.
pub open spec fn mem_available_label() -> Seq<char> {
    "MemAvailable:"@
}

/// What is reported when no line gives the available memory.
pub open spec fn no_mem_available_message() -> Seq<char> {
    "Could not parse MemAvailable from /proc/meminfo"@
}

/// A character with the Unicode property White_Space.
pub open spec fn is_white(c: char) -> bool {
    let v = c as u32;
    ||| 0x9 <= v <= 0xD
    ||| v == 0x20
    ||| v == 0x85
    ||| v == 0xA0
    ||| v == 0x1680
    ||| 0x2000 <= v <= 0x200A
    ||| v == 0x2028
    ||| v == 0x2029
    ||| v == 0x202F
    ||| v == 0x205F
    ||| v == 0x3000
}

/// A decimal digit.
pub open spec fn is_digit(c: char) -> bool {
    0x30 <= c as u32 <= 0x39
}

/// All characters are decimal digits.
pub open spec fn all_digits(s: Seq<char>) -> bool {
    forall|i: int| 0 <= i < s.len() ==> is_digit(#[trigger] s[i])
}

/// The number that decimal digits stand for.
pub open spec fn decimal_value(s: Seq<char>) -> nat
    decreases s.len(),
{
    if s.len() == 0 {
        0
    } else {
        (10 * decimal_value(s.drop_last()) + (s.last() as u32 - 0x30)) as nat
    }
}

/// The digits of a number without its sign.
pub open spec fn without_plus(s: Seq<char>) -> Seq<char> {
    if s.len() > 0 && s[0] == '+' {
        s.drop_first()
    } else {
        s
    }
}

/// The number that a string stands for: decimal digits, at least one, with at most one plus sign
/// before them, and a value that a `usize` holds.
pub open spec fn parsed_usize(s: Seq<char>) -> Option<nat> {
    let digits = without_plus(s);
    if digits.len() > 0 && all_digits(digits) && decimal_value(digits) <= usize::MAX {
        Some(decimal_value(digits))
    } else {
        None
    }
}

/// The first place at or after `p` where a white-space character stands, or the end.
pub open spec fn white_from(s: Seq<char>, p: int) -> int
    decreases s.len() - p,
{
    if p < 0 || p >= s.len() || is_white(s[p]) {
        p
    } else {
        white_from(s, p + 1)
    }
}

/// The first place at or after `p` where no white-space character stands, or the end.
pub open spec fn text_from(s: Seq<char>, p: int) -> int
    decreases s.len() - p,
{
    if p < 0 || p >= s.len() || !is_white(s[p]) {
        p
    } else {
        text_from(s, p + 1)
    }
}

/// The second of the words that white space separates in a line, if the line has two.
pub open spec fn second_word(line: Seq<char>) -> Option<Seq<char>> {
    let first = text_from(line, 0);
    let second = text_from(line, white_from(line, first));
    if second < line.len() {
        Some(line.subrange(second, white_from(line, second)))
    } else {
        None
    }
}

/// The first place at or after `p` where a line feed stands, or the end.
pub open spec fn line_end(s: Seq<char>, p: int) -> int
    decreases s.len() - p,
{
    if p < 0 || p >= s.len() || s[p] == '\n' {
        p
    } else {
        line_end(s, p + 1)
    }
}

/// The number of kibibytes in a line that gives the available memory.
pub open spec fn line_value(line: Seq<char>) -> Option<nat> {
    if mem_available_label().is_prefix_of(line) {
        match second_word(line) {
            Some(word) => parsed_usize(word),
            None => None,
        }
    } else {
        None
    }
}

/// The first number that a line at or after `p` gives.
pub open spec fn mem_available_from(s: Seq<char>, p: int) -> Option<nat>
    decreases s.len() + 1 - p,
{
    if p < 0 || p >= s.len() {
        None
    } else {
        proof {
            lemma_line_end(s, p);
        }
        match line_value(s.subrange(p, line_end(s, p))) {
            Some(v) => Some(v),
            None => mem_available_from(s, line_end(s, p) + 1),
        }
    }
}

/// The available memory in kibibytes: the number in the first line that gives one.
pub open spec fn mem_available(meminfo: Seq<char>) -> Option<nat> {
    mem_available_from(meminfo, 0)
}

/// The string without the white space at its ends.
pub open spec fn trimmed(s: Seq<char>) -> Seq<char>
    decreases s.len(),
{
    if s.len() == 0 {
        s
    } else if is_white(s[0]) {
        trimmed(s.drop_first())
    } else if is_white(s.last()) {
        trimmed(s.drop_last())
    } else {
        s
    }
}

/// The search for a line feed does not go back or past the end.
pub proof fn lemma_line_end(s: Seq<char>, p: int)
    requires
        0 <= p <= s.len(),
    ensures
        p <= line_end(s, p) <= s.len(),
    decreases s.len() - p,
{
    if p < s.len() && s[p] != '\n' {
        lemma_line_end(s, p + 1);
    }
}

/// The searches for white space and for text do not go back or past the end.
proof fn lemma_word_bounds(s: Seq<char>, p: int)
    requires
        0 <= p <= s.len(),
    ensures
        p <= white_from(s, p) <= s.len(),
        p <= text_from(s, p) <= s.len(),
    decreases s.len() - p,
{
    if p < s.len() {
        lemma_word_bounds(s, p + 1);
    }
}

/// A part of a number is no larger than the number.
proof fn lemma_decimal_prefix(s: Seq<char>, k: int)
    requires
        0 <= k <= s.len(),
        all_digits(s),
    ensures
        decimal_value(s.take(k)) <= decimal_value(s),
    decreases s.len(),
{
    if k < s.len() {
        lemma_decimal_prefix(s.drop_last(), k);
        assert(s.drop_last().take(k) =~= s.take(k));
        assert(is_digit(s[s.len() - 1]));
    } else {
        assert(s.take(k) =~= s);
    }
}

/// The characters of a string.
pub fn chars_of(text: &str) -> (chars: Vec<char>)
    ensures
        chars@ == text@,
{
    let mut chars: Vec<char> = Vec::new();
    for c in it: text.chars()
        invariant
            chars@ == it.seq().take(it.index() as int),
            it.seq() == text@,
    {
        chars.push(c);
        assert(it.seq().take(it.index() + 1) =~= it.seq().take(it.index() as int).push(c));
    }
    assert(text@.take(text@.len() as int) =~= text@);
    chars
}

/// Whether the character is white space.
pub fn is_white_space(c: char) -> (white: bool)
    ensures
        white == is_white(c),
{
    let v: u32 = c as u32;
    (0x9 <= v && v <= 0xD) || v == 0x20 || v == 0x85 || v == 0xA0 || v == 0x1680 || (0x2000 <= v
        && v <= 0x200A) || v == 0x2028 || v == 0x2029 || v == 0x202F || v == 0x205F || v == 0x3000
}

/// The number that a string stands for.
pub fn parse_usize(s: &[char]) -> (value: Option<usize>)
    ensures
        match parsed_usize(s@) {
            Some(v) => value == Some(v as usize),
            None => value is None,
        },
{
    let digits: &[char] = if s.len() > 0 && s[0] == '+' {
        slice_subrange(s, 1, s.len())
    } else {
        s
    };
    assert(digits@ =~= without_plus(s@));
    if digits.len() == 0 {
        return None;
    }
    let mut value: usize = 0;
    let mut i: usize = 0;
    while i < digits.len()
        invariant
            i <= digits.len(),
            digits@ == without_plus(s@),
            all_digits(digits@.take(i as int)),
            value == decimal_value(digits@.take(i as int)),
        decreases digits.len() - i,
    {
        let v: u32 = digits[i] as u32;
        if v < 0x30 || v > 0x39 {
            assert(!is_digit(digits@[i as int]));
            return None;
        }
        let digit: usize = (v - 0x30) as usize;
        proof {
            let longer = digits@.take(i + 1);
            assert(longer.drop_last() =~= digits@.take(i as int));
            assert(longer.last() == digits@[i as int]);
            assert(decimal_value(longer) == 10 * value + digit);
            assert forall|k: int| 0 <= k < longer.len() implies is_digit(#[trigger] longer[k]) by {
                if k < i {
                    assert(is_digit(digits@.take(i as int)[k]));
                }
            }
            if all_digits(digits@) {
                lemma_decimal_prefix(digits@, i + 1);
            }
        }
        if value > (usize::MAX - digit) / 10 {
            assert(10 * value + digit > usize::MAX);
            return None;
        }
        value = value * 10 + digit;
        i += 1;
    }
    assert(digits@.take(digits@.len() as int) =~= digits@);
    Some(value)
}

/// The second word of a line.
pub fn second_word_of(line: &[char]) -> (word: Option<&[char]>)
    ensures
        match second_word(line@) {
            Some(w) => word is Some && word->0@ == w,
            None => word is None,
        },
{
    proof {
        lemma_word_bounds(line@, 0);
    }
    let first: usize = skip_white(line, 0);
    proof {
        lemma_word_bounds(line@, first as int);
    }
    let gap: usize = skip_text(line, first);
    proof {
        lemma_word_bounds(line@, gap as int);
    }
    let second: usize = skip_white(line, gap);
    if second < line.len() {
        proof {
            lemma_word_bounds(line@, second as int);
        }
        let end: usize = skip_text(line, second);
        Some(slice_subrange(line, second, end))
    } else {
        None
    }
}

/// The first place at or after `from` without white space.
fn skip_white(s: &[char], from: usize) -> (place: usize)
    requires
        from <= s@.len(),
    ensures
        place == text_from(s@, from as int),
        place <= s@.len(),
{
    let mut p: usize = from;
    while p < s.len() && is_white_space(s[p])
        invariant
            from <= p <= s@.len(),
            text_from(s@, p as int) == text_from(s@, from as int),
        decreases s.len() - p,
    {
        p += 1;
    }
    p
}

/// The first place at or after `from` with white space.
fn skip_text(s: &[char], from: usize) -> (place: usize)
    requires
        from <= s@.len(),
    ensures
        place == white_from(s@, from as int),
        place <= s@.len(),
{
    let mut p: usize = from;
    while p < s.len() && !is_white_space(s[p])
        invariant
            from <= p <= s@.len(),
            white_from(s@, p as int) == white_from(s@, from as int),
        decreases s.len() - p,
    {
        p += 1;
    }
    p
}

/// Whether `s` begins with `prefix`.
fn has_prefix(s: &[char], prefix: &[char]) -> (found: bool)
    ensures
        found == prefix@.is_prefix_of(s@),
{
    if s.len() < prefix.len() {
        return false;
    }
    let mut i: usize = 0;
    while i < prefix.len()
        invariant
            i <= prefix.len() <= s.len(),
            forall|k: int| 0 <= k < i ==> s@[k] == prefix@[k],
        decreases prefix.len() - i,
    {
        if s[i] != prefix[i] {
            assert(s@.subrange(0, prefix@.len() as int)[i as int] != prefix@[i as int]);
            return false;
        }
        i += 1;
    }
    assert(s@.subrange(0, prefix@.len() as int) =~= prefix@);
    true
}

/// The available memory in kibibytes that `/proc/meminfo` reports.
pub fn mem_available_kib(meminfo: &str) -> (kib: Option<usize>)
    ensures
        match mem_available(meminfo@) {
            Some(v) => kib == Some(v as usize),
            None => kib is None,
        },
        kib is Some ==> mem_available(meminfo@) == Some(kib->0 as nat),
{
    let chars: Vec<char> = chars_of(meminfo);
    let label: Vec<char> = chars_of("MemAvailable:");
    let s: &[char] = chars.as_slice();
    let mut p: usize = 0;
    while p < s.len()
        invariant
            p <= s@.len() + 1,
            s@ == meminfo@,
            label@ == mem_available_label(),
            mem_available_from(s@, p as int) == mem_available(meminfo@),
        decreases s.len() + 1 - p,
    {
        proof {
            lemma_line_end(s@, p as int);
        }
        let end: usize = find_line_end(s, p);
        let line: &[char] = slice_subrange(s, p, end);
        if has_prefix(line, label.as_slice()) {
            if let Some(word) = second_word_of(line) {
                let parsed: Option<usize> = parse_usize(word);
                if parsed.is_some() {
                    return parsed;
                }
            }
        }
        if end == s.len() {
            proof {
                assert(mem_available_from(s@, end + 1) is None);
            }
            return None;
        }
        p = end + 1;
    }
    None
}

/// The end of the line that `from` stands in.
fn find_line_end(s: &[char], from: usize) -> (place: usize)
    requires
        from <= s@.len(),
    ensures
        place == line_end(s@, from as int),
        from <= place <= s@.len(),
{
    let mut p: usize = from;
    while p < s.len() && s[p] != '\n'
        invariant
            from <= p <= s@.len(),
            line_end(s@, p as int) == line_end(s@, from as int),
        decreases s.len() - p,
    {
        p += 1;
    }
    p
}

/// Gets available system memory in bytes from what `/proc/meminfo` reports.
///
/// Returns an error if no line gives it.
pub fn get_available_memory(meminfo: &str) -> (bytes: Result<usize, String>)
    requires
        mem_available(meminfo@) is Some ==> mem_available(meminfo@)->0 * 1024 <= usize::MAX,
    ensures
        match mem_available(meminfo@) {
            Some(kib) => bytes is Ok && bytes->Ok_0 == kib * 1024,
            None => bytes is Err && bytes->Err_0@ == no_mem_available_message(),
        },
{
    match mem_available_kib(meminfo) {
        Some(kib) => Ok(kib * 1024),
        None => Err("Could not parse MemAvailable from /proc/meminfo".to_owned()),
    }
}

/// The memory size in bytes that `sysctl -n hw.memsize` prints.
pub fn parse_memory_size(output: &str) -> (bytes: Option<usize>)
    ensures
        match parsed_usize(trimmed(output@)) {
            Some(v) => bytes == Some(v as usize),
            None => bytes is None,
        },
{
    let chars: Vec<char> = chars_of(output);
    let mut s: &[char] = chars.as_slice();
    while s.len() > 0 && (is_white_space(s[0]) || is_white_space(s[s.len() - 1]))
        invariant
            trimmed(s@) == trimmed(output@),
        decreases s.len(),
    {
        let ghost before = s@;
        if is_white_space(s[0]) {
            s = slice_subrange(s, 1, s.len());
            assert(s@ =~= before.drop_first());
        } else {
            s = slice_subrange(s, 0, s.len() - 1);
            assert(s@ =~= before.drop_last());
        }
    }
    parse_usize(s)
}

/// White space is the blank, the control characters from tab to carriage return and the one for a
/// new line, and the blanks of other widths that Unicode has; no visible character is.
pub proof fn white_space_is_blank(c: char, white: bool)
    requires
        call_ensures(is_white_space, (c,), white),
    ensures
        c == ' ' || c == '\t' || c == '\n' || c == '\r' ==> white,
        0x21 <= c as u32 <= 0x7E ==> !white,
        (c as u32) < 0x80 ==> (white <==> (9 <= c as u32 <= 13 || c as u32 == 32)),
        (c as u32) >= 0x80 ==> (white <==> (c as u32 == 0x85 || c as u32 == 0xA0 || c as u32
            == 0x1680 || 0x2000 <= c as u32 <= 0x200A || c as u32 == 0x2028 || c as u32 == 0x2029
            || c as u32 == 0x202F || c as u32 == 0x205F || c as u32 == 0x3000)),
{
}

/// The characters of a string are its characters.
pub proof fn characters_are_kept(text: &str, chars: Vec<char>)
    requires
        call_ensures(chars_of, (text,), chars),
    ensures
        chars@ == text@,
{
}

/// Another digit makes the number ten times as large and adds the digit.
pub proof fn digits_are_decimal(s: Seq<char>, c: char)
    requires
        '0' as u32 <= c as u32 <= '9' as u32,
    ensures
        decimal_value(Seq::empty()) == 0,
        decimal_value(s.push(c)) == 10 * decimal_value(s) + (c as u32 - '0' as u32),
{
    assert(s.push(c).drop_last() =~= s);
}

/// The characters are decimal digits, at least one of them.
pub open spec fn is_numeral(s: Seq<char>) -> bool {
    s.len() > 0 && forall|i: int|
        0 <= i < s.len() ==> '0' as u32 <= #[trigger] s[i] as u32 <= '9' as u32
}

/// Numerals are what is parsed.
proof fn lemma_numeral(s: Seq<char>)
    ensures
        is_numeral(s) <==> s.len() > 0 && all_digits(s),
        is_numeral(s) ==> without_plus(s) == s,
{
    if is_numeral(s) {
        assert('0' as u32 <= s[0] as u32 <= '9' as u32);
        assert forall|i: int| 0 <= i < s.len() implies is_digit(#[trigger] s[i]) by {
            assert('0' as u32 <= s[i] as u32 <= '9' as u32);
        }
    }
    if s.len() > 0 && all_digits(s) {
        assert forall|i: int| 0 <= i < s.len() implies '0' as u32 <= #[trigger] s[i] as u32
            <= '9' as u32 by {
            assert(is_digit(s[i]));
        }
    }
}

/// A numeral stands for its number, with a plus sign before it too, unless the number is too large;
/// nothing else stands for a number.
pub proof fn only_numerals_are_numbers(s: &[char], value: Option<usize>)
    requires
        call_ensures(parse_usize, (s,), value),
    ensures
        is_numeral(s@) && decimal_value(s@) <= usize::MAX ==> value is Some && value->0
            == decimal_value(s@),
        is_numeral(s@) && decimal_value(s@) > usize::MAX ==> value is None,
        s@.len() > 0 && s@[0] == '+' && is_numeral(s@.skip(1)) && decimal_value(s@.skip(1))
            <= usize::MAX ==> value is Some && value->0 == decimal_value(s@.skip(1)),
        value is Some ==> is_numeral(s@) || (s@[0] == '+' && is_numeral(s@.skip(1))),
{
    lemma_numeral(s@);
    if s@.len() > 0 {
        assert(s@.skip(1) =~= s@.drop_first());
        lemma_numeral(s@.skip(1));
    }
}

/// No character is white space.
pub open spec fn is_dense(s: Seq<char>) -> bool {
    forall|i: int| 0 <= i < s.len() ==> !is_white(#[trigger] s[i])
}

/// Every character is white space.
pub open spec fn is_blank(s: Seq<char>) -> bool {
    forall|i: int| 0 <= i < s.len() ==> is_white(#[trigger] s[i])
}

/// Where text begins after white space.
proof fn lemma_text_from(s: Seq<char>, p: int, q: int)
    requires
        0 <= p <= q <= s.len(),
        forall|i: int| p <= i < q ==> is_white(#[trigger] s[i]),
        q == s.len() || !is_white(s[q]),
    ensures
        text_from(s, p) == q,
    decreases q - p,
{
    if p < q {
        assert(is_white(s[p]));
        lemma_text_from(s, p + 1, q);
    }
}

/// Where white space begins after text.
proof fn lemma_white_from(s: Seq<char>, p: int, q: int)
    requires
        0 <= p <= q <= s.len(),
        forall|i: int| p <= i < q ==> !is_white(#[trigger] s[i]),
        q == s.len() || is_white(s[q]),
    ensures
        white_from(s, p) == q,
    decreases q - p,
{
    if p < q {
        assert(!is_white(s[p]));
        lemma_white_from(s, p + 1, q);
    }
}

/// Words are what white space separates: the second word of a line is found however wide the gaps
/// are and whatever follows it, and a line in which no second word is found has at most one.
pub proof fn second_word_is_the_second(
    line: &[char],
    word: Option<&[char]>,
    lead: Seq<char>,
    first: Seq<char>,
    gap: Seq<char>,
    second: Seq<char>,
    rest: Seq<char>,
)
    requires
        call_ensures(second_word_of, (line,), word),
        is_blank(lead),
        is_blank(gap),
        is_dense(first),
        is_dense(second),
        first.len() > 0,
        rest.len() == 0 || is_white(rest[0]),
        line@ == lead + first + gap + second + rest,
    ensures
        gap.len() > 0 && second.len() > 0 ==> word is Some && word->0@ == second,
        second.len() == 0 && is_blank(rest) ==> word is None,
{
    let s = line@;
    let a = lead.len() as int;
    let b = a + first.len();
    let c = b + gap.len();
    let d = c + second.len();
    assert forall|i: int| 0 <= i < a implies is_white(#[trigger] s[i]) by {
        assert(s[i] == lead[i]);
    }
    assert forall|i: int| a <= i < b implies !is_white(#[trigger] s[i]) by {
        assert(s[i] == first[i - a]);
    }
    assert(s[a] == first[0]);
    lemma_text_from(s, 0, a);
    assert forall|i: int| b <= i < c implies is_white(#[trigger] s[i]) by {
        assert(s[i] == gap[i - b]);
    }
    assert forall|i: int| c <= i < d implies !is_white(#[trigger] s[i]) by {
        assert(s[i] == second[i - c]);
    }
    if rest.len() > 0 {
        assert(s[d] == rest[0]);
    }
    if gap.len() > 0 && second.len() > 0 {
        assert(s[b] == gap[0]);
        lemma_white_from(s, a, b);
        assert(s[c] == second[0]);
        lemma_text_from(s, b, c);
        lemma_white_from(s, c, d);
        assert(s.subrange(c, d) =~= second);
    } else if second.len() == 0 && is_blank(rest) {
        assert forall|i: int| b <= i < s.len() implies is_white(#[trigger] s[i]) by {
            if i >= d {
                assert(s[i] == rest[i - d]);
            }
        }
        lemma_white_from(s, a, b);
        lemma_text_from(s, b, s.len() as int);
    }
}

/// A line begins at the place.
pub open spec fn begins_line(s: Seq<char>, p: int) -> bool {
    0 <= p < s.len() && (p == 0 || s[p - 1] == '\n')
}

/// A line of the text begins with the label.
pub open spec fn has_label_at(s: Seq<char>, p: int) -> bool {
    begins_line(s, p) && "MemAvailable:"@.is_prefix_of(s.skip(p))
}

/// The end of a line is the first line feed.
proof fn lemma_line_end_is_first(s: Seq<char>, p: int)
    requires
        0 <= p <= s.len(),
    ensures
        p <= line_end(s, p) <= s.len(),
        forall|i: int| p <= i < line_end(s, p) ==> #[trigger] s[i] != '\n',
        line_end(s, p) < s.len() ==> s[line_end(s, p)] == '\n',
    decreases s.len() - p,
{
    if p < s.len() && s[p] != '\n' {
        lemma_line_end_is_first(s, p + 1);
    }
}

/// A line without the label at its beginning gives no number.
proof fn lemma_line_without_label(s: Seq<char>, p: int)
    requires
        begins_line(s, p),
        !has_label_at(s, p),
    ensures
        line_value(s.subrange(p, line_end(s, p))) is None,
{
    lemma_line_end_is_first(s, p);
    let line = s.subrange(p, line_end(s, p));
    let label = "MemAvailable:"@;
    if label.is_prefix_of(line) {
        assert(s.skip(p).subrange(0, label.len() as int) =~= line.subrange(0, label.len() as int));
        assert(label.is_prefix_of(s.skip(p)));
    }
}

/// Lines without the label are passed over.
proof fn lemma_lines_passed_over(s: Seq<char>, p: int, q: int)
    requires
        p == q || begins_line(s, p),
        0 <= p <= q <= s.len(),
        q == s.len() || begins_line(s, q),
        forall|i: int| p <= i < q ==> !#[trigger] has_label_at(s, i),
    ensures
        mem_available_from(s, p) == mem_available_from(s, q),
    decreases q - p,
{
    if p < q {
        lemma_line_end_is_first(s, p);
        assert(!has_label_at(s, p));
        lemma_line_without_label(s, p);
        let next = line_end(s, p) + 1;
        if next <= q {
            if next < s.len() {
                assert(begins_line(s, next));
            }
            if next == s.len() && q == s.len() {
                assert(mem_available_from(s, next) == mem_available_from(s, q));
            } else {
                lemma_lines_passed_over(s, next, q);
            }
        } else {
            if q < s.len() {
                assert(s[q - 1] == '\n');
                assert(false);
            }
            assert(mem_available_from(s, next) is None);
            assert(mem_available_from(s, q) is None);
        }
    }
}

/// The available memory is the number, in kibibytes, in the first line that begins with
/// `MemAvailable:`, wherever that line is and whatever stands in the others.
pub proof fn available_memory_is_what_its_line_says(
    meminfo: &str,
    bytes: Result<usize, String>,
    kib: Option<usize>,
    before: Seq<char>,
    gap: Seq<char>,
    digits: Seq<char>,
    rest: Seq<char>,
)
    requires
        meminfo@ == before + "MemAvailable:"@ + gap + digits + rest,
        before.len() == 0 || before.last() == '\n',
        forall|i: int| 0 <= i < before.len() ==> !#[trigger] has_label_at(meminfo@, i),
        gap.len() > 0,
        forall|i: int| 0 <= i < gap.len() ==> #[trigger] gap[i] == ' ' || gap[i] == '\t',
        is_numeral(digits),
        rest.len() == 0 || rest[0] == ' ' || rest[0] == '\n',
        decimal_value(digits) * 1024 <= usize::MAX,
        call_ensures(get_available_memory, (meminfo,), bytes),
        call_ensures(mem_available_kib, (meminfo,), kib),
    ensures
        bytes is Ok,
        bytes->Ok_0 == decimal_value(digits) * 1024,
        kib is Some,
        kib->0 == decimal_value(digits),
{
    reveal_strlit("MemAvailable:");
    let label = "MemAvailable:"@;
    let s = meminfo@;
    let a = before.len() as int;
    let b = a + label.len();
    let c = b + gap.len();
    let d = c + digits.len();
    assert(s[a] == label[0]);
    if a > 0 {
        assert(s[a - 1] == before[a - 1]);
    }
    assert(begins_line(s, a));
    if a > 0 {
        assert(begins_line(s, 0));
    }
    lemma_lines_passed_over(s, 0, a);
    lemma_line_end_is_first(s, a);
    let end = line_end(s, a);
    assert forall|i: int| a <= i < d implies #[trigger] s[i] != '\n' by {
        if i < b {
            assert(s[i] == label[i - a]);
        } else if i < c {
            assert(s[i] == gap[i - b]);
        } else {
            assert(s[i] == digits[i - c]);
            assert('0' as u32 <= digits[i - c] as u32 <= '9' as u32);
        }
    }
    assert(end >= d) by {
        if end < d {
            assert(s[end] != '\n');
        }
    }
    let line = s.subrange(a, end);
    assert(label =~= line.subrange(0, label.len() as int)) by {
        assert forall|i: int| 0 <= i < label.len() implies label[i] == line[i] by {
            assert(s[a + i] == label[i]);
        }
    }
    let n = label.len() as int;
    let g = n + gap.len();
    let e = g + digits.len();
    assert forall|i: int| 0 <= i < n implies !is_white(#[trigger] line[i]) by {
        assert(line[i] == label[i]);
    }
    assert forall|i: int| n <= i < g implies is_white(#[trigger] line[i]) by {
        assert(line[i] == s[a + i]);
        assert(s[a + i] == gap[i - n]);
    }
    assert forall|i: int| g <= i < e implies !is_white(#[trigger] line[i]) by {
        assert(line[i] == s[a + i]);
        assert(s[a + i] == digits[i - g]);
        assert('0' as u32 <= digits[i - g] as u32 <= '9' as u32);
    }
    if e < line.len() {
        assert(line[e] == s[d]);
        assert(s[d] == rest[0]);
        assert(s[d] != '\n');
    }
    assert(!is_white(line[0]));
    lemma_text_from(line, 0, 0);
    assert(is_white(line[n]));
    lemma_white_from(line, 0, n);
    assert(!is_white(line[g]));
    lemma_text_from(line, n, g);
    lemma_white_from(line, g, e);
    assert(line.subrange(g, e) =~= digits) by {
        assert forall|i: int| 0 <= i < digits.len() implies line[g + i] == digits[i] by {
            assert(s[c + i] == digits[i]);
        }
    }
    lemma_numeral(digits);
    assert(line_value(line) == Some(decimal_value(digits)));
}

/// Where no line begins with `MemAvailable:`, the available memory is not known, and the error
/// says so.
pub proof fn no_line_no_memory(meminfo: &str, bytes: Result<usize, String>, kib: Option<usize>)
    requires
        forall|i: int| 0 <= i < meminfo@.len() ==> !#[trigger] has_label_at(meminfo@, i),
        call_ensures(get_available_memory, (meminfo,), bytes),
        call_ensures(mem_available_kib, (meminfo,), kib),
    ensures
        kib is None,
        bytes is Err,
        bytes->Err_0@ == "Could not parse MemAvailable from /proc/meminfo"@,
{
    let s = meminfo@;
    if s.len() > 0 {
        assert(begins_line(s, 0));
    }
    lemma_lines_passed_over(s, 0, s.len() as int);
}

/// Trimming takes away the white space at both ends and nothing else.
proof fn lemma_trimmed(lead: Seq<char>, core: Seq<char>, trail: Seq<char>)
    requires
        is_blank(lead),
        is_blank(trail),
        core.len() > 0,
        !is_white(core[0]),
        !is_white(core.last()),
    ensures
        trimmed(lead + core + trail) == core,
    decreases lead.len() + trail.len(),
{
    let s = lead + core + trail;
    if lead.len() > 0 {
        assert(s[0] == lead[0]);
        assert(s.drop_first() =~= lead.drop_first() + core + trail);
        assert(is_blank(lead.drop_first())) by {
            assert forall|i: int| 0 <= i < lead.drop_first().len() implies is_white(
                #[trigger] lead.drop_first()[i],
            ) by {
                assert(is_white(lead[i + 1]));
            }
        }
        lemma_trimmed(lead.drop_first(), core, trail);
    } else if trail.len() > 0 {
        assert(s[0] == core[0]);
        assert(s.last() == trail.last());
        assert(is_white(trail[trail.len() - 1]));
        assert(s.drop_last() =~= lead + core + trail.drop_last());
        assert(is_blank(trail.drop_last())) by {
            assert forall|i: int| 0 <= i < trail.drop_last().len() implies is_white(
                #[trigger] trail.drop_last()[i],
            ) by {
                assert(is_white(trail[i]));
            }
        }
        lemma_trimmed(lead, core, trail.drop_last());
    } else {
        assert(s =~= core);
    }
}

/// A printed memory size is the number that is printed, whatever blanks and line ends surround it.
pub proof fn printed_size_is_the_number(
    output: &str,
    bytes: Option<usize>,
    lead: Seq<char>,
    digits: Seq<char>,
    trail: Seq<char>,
)
    requires
        output@ == lead + digits + trail,
        forall|i: int|
            0 <= i < lead.len() ==> #[trigger] lead[i] == ' ' || lead[i] == '\n' || lead[i] == '\t',
        forall|i: int|
            0 <= i < trail.len() ==> #[trigger] trail[i] == ' ' || trail[i] == '\n' || trail[i]
                == '\t',
        is_numeral(digits),
        call_ensures(parse_memory_size, (output,), bytes),
    ensures
        decimal_value(digits) <= usize::MAX ==> bytes is Some && bytes->0 == decimal_value(digits),
        decimal_value(digits) > usize::MAX ==> bytes is None,
{
    assert('0' as u32 <= digits[0] as u32 <= '9' as u32);
    assert('0' as u32 <= digits[digits.len() - 1] as u32 <= '9' as u32);
    lemma_trimmed(lead, digits, trail);
    lemma_numeral(digits);
}

/// The line that begins at a place.
pub open spec fn line_at(s: Seq<char>, p: int) -> Seq<char> {
    s.subrange(p, line_end(s, p))
}

/// A line ends where the next line feed is, or with the text.
pub proof fn lines_end_at_line_feeds(s: Seq<char>, p: int)
    requires
        0 <= p <= s.len(),
    ensures
        p <= line_end(s, p) <= s.len(),
        forall|i: int| p <= i < line_end(s, p) ==> #[trigger] s[i] != '\n',
        line_end(s, p) < s.len() ==> s[line_end(s, p)] == '\n',
{
    lemma_line_end_is_first(s, p);
}

/// Lines that give no number are passed over, also where they have the label.
proof fn lemma_numberless_lines_passed_over(s: Seq<char>, p: int, q: int)
    requires
        p == q || begins_line(s, p),
        0 <= p <= q <= s.len(),
        q == s.len() || begins_line(s, q),
        forall|i: int|
            p <= i < q && begins_line(s, i) ==> line_value(#[trigger] line_at(s, i)) is None,
    ensures
        mem_available_from(s, p) == mem_available_from(s, q),
    decreases q - p,
{
    if p < q {
        lemma_line_end_is_first(s, p);
        assert(line_value(line_at(s, p)) is None);
        let next = line_end(s, p) + 1;
        if next <= q {
            if next < s.len() {
                assert(begins_line(s, next));
            }
            if next == s.len() && q == s.len() {
                assert(mem_available_from(s, next) == mem_available_from(s, q));
            } else {
                lemma_numberless_lines_passed_over(s, next, q);
            }
        } else {
            if q < s.len() {
                assert(s[q - 1] == '\n');
                assert(false);
            }
            assert(mem_available_from(s, next) is None);
            assert(mem_available_from(s, q) is None);
        }
    }
}

/// A line with the label but without a number as its second word is passed over like any other, so
/// that the first line that gives a number counts, whichever lines with the label come before it.
pub proof fn lines_without_numbers_do_not_count(
    meminfo: &str,
    rest: &str,
    before: Seq<char>,
    kib: Option<usize>,
    rest_kib: Option<usize>,
)
    requires
        meminfo@ == before + rest@,
        before.len() > 0,
        before.last() == '\n',
        forall|i: int|
            0 <= i < before.len() && #[trigger] has_label_at(meminfo@, i) ==> {
                let word = second_word(line_at(meminfo@, i));
                word is None || parsed_usize(word->0) is None
            },
        call_ensures(mem_available_kib, (meminfo,), kib),
        call_ensures(mem_available_kib, (rest,), rest_kib),
    ensures
        kib == rest_kib,
{
    let s = meminfo@;
    let n = before.len() as int;
    assert(s[n - 1] == before[n - 1]);
    assert(begins_line(s, 0));
    if n < s.len() {
        assert(begins_line(s, n));
    }
    assert forall|i: int| 0 <= i < n && begins_line(s, i) implies line_value(
        #[trigger] line_at(s, i),
    ) is None by {
        if !has_label_at(s, i) {
            lemma_line_without_label(s, i);
        }
    }
    lemma_numberless_lines_passed_over(s, 0, n);
    assert(rest@ =~= s.skip(n));
    lemma_search_in_the_rest(s, rest@, n, 0);
}

/// The search in the rest of a text is the search from where the rest begins.
proof fn lemma_search_in_the_rest(s: Seq<char>, rest: Seq<char>, n: int, p: int)
    requires
        0 <= n <= s.len(),
        rest == s.skip(n),
        0 <= p <= rest.len() + 1,
    ensures
        mem_available_from(rest, p) == mem_available_from(s, n + p),
    decreases rest.len() + 1 - p,
{
    if p < rest.len() {
        lemma_line_end_in_the_rest(s, rest, n, p);
        lemma_line_end_is_first(rest, p);
        let end = line_end(rest, p);
        assert(rest.subrange(p, end) =~= s.subrange(n + p, n + end));
        lemma_search_in_the_rest(s, rest, n, end + 1);
    }
}

/// Lines in the rest of a text end where they end in the text.
proof fn lemma_line_end_in_the_rest(s: Seq<char>, rest: Seq<char>, n: int, p: int)
    requires
        0 <= n <= s.len(),
        rest == s.skip(n),
        0 <= p <= rest.len(),
    ensures
        line_end(s, n + p) == n + line_end(rest, p),
    decreases rest.len() - p,
{
    if p < rest.len() && rest[p] != '\n' {
        lemma_line_end_in_the_rest(s, rest, n, p + 1);
    }
}

/// What is printed is a memory size only where it is a numeral between blanks and line ends.
pub proof fn printed_text_is_no_size(
    output: &str,
    bytes: Option<usize>,
    lead: Seq<char>,
    core: Seq<char>,
    trail: Seq<char>,
)
    requires
        output@ == lead + core + trail,
        is_blank(lead),
        is_blank(trail),
        core.len() > 0,
        !is_white(core[0]),
        !is_white(core.last()),
        !is_numeral(core),
        core[0] != '+' || !is_numeral(core.skip(1)),
        call_ensures(parse_memory_size, (output,), bytes),
    ensures
        bytes is None,
{
    lemma_trimmed(lead, core, trail);
    lemma_numeral(core);
    assert(core.skip(1) =~= core.drop_first());
    lemma_numeral(core.skip(1));
}

} // verus!
