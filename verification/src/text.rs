//! Characters, byte offsets, and decimal numerals.
use vstd::prelude::*;
use vstd::string::*;
use vstd::utf8::*;

verus! {

/// The number of bytes that UTF-8 spends on a character.
pub open spec fn width(c: char) -> nat {
    if (c as u32) < 0x80 {
        1
    } else if (c as u32) < 0x800 {
        2
    } else if (c as u32) < 0x10000 {
        3
    } else {
        4
    }
}

/// The byte offset at which character `index` of a text starts.
pub open spec fn byte_offset(text: Seq<char>, index: int) -> nat
    decreases index,
{
    if index <= 0 {
        0
    } else {
        byte_offset(text, index - 1) + width(text[index - 1])
    }
}

proof fn lemma_encoded_width(c: char)
    ensures
        encode_scalar(c as u32).len() == width(c),
{
    char_is_scalar(c);
}

proof fn lemma_encode_push(text: Seq<char>, c: char)
    ensures
        encode_utf8(text.push(c)) == encode_utf8(text) + encode_scalar(c as u32),
    decreases text.len(),
{
    reveal_with_fuel(encode_utf8, 2);
    if text.len() == 0 {
        assert(text.push(c).drop_first() =~= Seq::<char>::empty());
    } else {
        lemma_encode_push(text.drop_first(), c);
        assert(text.push(c).drop_first() =~= text.drop_first().push(c));
        assert(text.push(c)[0] == text[0]);
        assert(encode_utf8(text.push(c)) =~= encode_scalar(text[0] as u32) + (encode_utf8(
            text.drop_first(),
        ) + encode_scalar(c as u32)));
    }
}

/// Byte offsets count the bytes of the UTF-8 encoding of the characters before them.
pub proof fn lemma_byte_offset_is_encoded_length(text: Seq<char>, index: int)
    requires
        0 <= index <= text.len(),
    ensures
        byte_offset(text, index) == encode_utf8(text.take(index)).len(),
    decreases index,
{
    if index > 0 {
        lemma_byte_offset_is_encoded_length(text, index - 1);
        lemma_encode_push(text.take(index - 1), text[index - 1]);
        lemma_encoded_width(text[index - 1]);
        assert(text.take(index - 1).push(text[index - 1]) =~= text.take(index));
    } else {
        assert(text.take(0) =~= Seq::<char>::empty());
    }
}

/// Later characters start at later bytes.
pub proof fn lemma_byte_offset_monotonic(text: Seq<char>, low: int, high: int)
    requires
        0 <= low <= high,
    ensures
        byte_offset(text, low) + (high - low) <= byte_offset(text, high),
    decreases high - low,
{
    if low < high {
        lemma_byte_offset_monotonic(text, low, high - 1);
    }
}

/// The number of bytes that UTF-8 spends on a character.
pub fn char_width(c: char) -> (r: usize)
    ensures
        r == width(c),
{
    let code: u32 = c as u32;
    if code < 0x80 {
        1
    } else if code < 0x800 {
        2
    } else if code < 0x10000 {
        3
    } else {
        4
    }
}

/// The characters of a text, in order.
pub fn chars_of(text: &str) -> (chars: Vec<char>)
    ensures
        chars@ == text@,
        byte_offset(text@, text@.len() as int) <= usize::MAX,
{
    let bytes = text.as_bytes();
    assert(bytes.len() == encode_utf8(text@).len());
    proof {
        lemma_byte_offset_is_encoded_length(text@, text@.len() as int);
        assert(text@.take(text@.len() as int) =~= text@);
    }
    let mut chars: Vec<char> = Vec::new();
    for c in iter: text.chars()
        invariant
            chars@ == iter.seq().take(iter.index()),
            iter.seq() == text@,
    {
        chars.push(c);
        assert(chars@ =~= iter.seq().take(iter.index() + 1));
    }
    assert(text@.take(text@.len() as int) =~= text@);
    chars
}

/// `String::from_iter` over a slice of characters: the text is made of exactly these
/// characters, in order.
#[verifier::external_body]
pub(crate) fn text_of(chars: &[char]) -> (text: String)
    ensures
        text@ == chars@,
{
    String::from_iter(chars)
}

/// The text made of the characters from `start` up to `end`.
pub(crate) fn text_between(chars: &Vec<char>, start: usize, end: usize) -> (text: String)
    requires
        start <= end <= chars@.len(),
    ensures
        text@ == chars@.subrange(start as int, end as int),
{
    text_of(vstd::slice::slice_subrange(chars.as_slice(), start, end))
}

/// Whether two texts hold the same characters.
pub fn same_text(left: &str, right: &str) -> (same: bool)
    ensures
        same == (left@ == right@),
{
    let a = left.as_bytes();
    let b = right.as_bytes();
    proof {
        encode_utf8_decode_utf8(left@);
        encode_utf8_decode_utf8(right@);
    }
    if a.len() != b.len() {
        return false;
    }
    let mut i: usize = 0;
    while i < a.len()
        invariant
            i <= a@.len(),
            a@.len() == b@.len(),
            a@ == encode_utf8(left@),
            b@ == encode_utf8(right@),
            forall|j: int| 0 <= j < i ==> a@[j] == b@[j],
        decreases a@.len() - i,
    {
        if a[i] != b[i] {
            return false;
        }
        i += 1;
    }
    assert(a@ =~= b@);
    true
}

/// The decimal numeral of a digit.
pub open spec fn digit(n: nat) -> char {
    if n == 0 {
        '0'
    } else if n == 1 {
        '1'
    } else if n == 2 {
        '2'
    } else if n == 3 {
        '3'
    } else if n == 4 {
        '4'
    } else if n == 5 {
        '5'
    } else if n == 6 {
        '6'
    } else if n == 7 {
        '7'
    } else if n == 8 {
        '8'
    } else {
        '9'
    }
}

/// The decimal numeral of a number, without leading zeros.
pub open spec fn decimal(n: nat) -> Seq<char>
    decreases n,
{
    if n < 10 {
        seq![digit(n)]
    } else {
        decimal(n / 10).push(digit(n % 10))
    }
}

fn digit_text(n: usize) -> (text: &'static str)
    requires
        n < 10,
    ensures
        text@ == seq![digit(n as nat)],
{
    proof {
        reveal_strlit("0");
        reveal_strlit("1");
        reveal_strlit("2");
        reveal_strlit("3");
        reveal_strlit("4");
        reveal_strlit("5");
        reveal_strlit("6");
        reveal_strlit("7");
        reveal_strlit("8");
        reveal_strlit("9");
    }
    let text: &'static str = match n {
        0 => "0",
        1 => "1",
        2 => "2",
        3 => "3",
        4 => "4",
        5 => "5",
        6 => "6",
        7 => "7",
        8 => "8",
        _ => "9",
    };
    assert(text@ =~= seq![digit(n as nat)]);
    text
}

/// Writes a number in decimal.
pub fn decimal_text(n: usize) -> (text: String)
    ensures
        text@ == decimal(n as nat),
    decreases n,
{
    if n < 10 {
        digit_text(n).to_owned()
    } else {
        let mut text = decimal_text(n / 10);
        text.append(digit_text(n % 10));
        assert(text@ =~= decimal(n as nat / 10).push(digit(n as nat % 10)));
        text
    }
}

/// Whether a character is an ASCII digit.
pub open spec fn is_digit(c: char) -> bool {
    '0' <= c <= '9'
}

/// The number that a sequence of decimal digits denotes.
pub open spec fn numeral(digits: Seq<char>) -> nat
    decreases digits.len(),
{
    if digits.len() == 0 {
        0
    } else {
        numeral(digits.drop_last()) * 10 + (digits.last() as nat - '0' as nat) as nat
    }
}

/// Whether a text is made of decimal digits only.
pub open spec fn all_digits(text: Seq<char>) -> bool {
    forall|i: int| 0 <= i < text.len() ==> is_digit(#[trigger] text[i])
}

/// A text without its leading plus sign, if it has one.
pub open spec fn without_plus(text: Seq<char>) -> Seq<char> {
    if text.len() > 0 && text[0] == '+' {
        text.drop_first()
    } else {
        text
    }
}

/// The `u32` that a text denotes: an optional plus sign and at least one digit, within range.
pub open spec fn parsed_u32(text: Seq<char>) -> Option<u32> {
    let digits = without_plus(text);
    if digits.len() > 0 && all_digits(digits) && numeral(digits) <= u32::MAX {
        Some(numeral(digits) as u32)
    } else {
        None
    }
}

proof fn lemma_numeral_grows(digits: Seq<char>, length: int)
    requires
        0 <= length <= digits.len(),
        all_digits(digits),
    ensures
        numeral(digits.take(length)) <= numeral(digits),
    decreases digits.len() - length,
{
    if length < digits.len() {
        lemma_numeral_grows(digits, length + 1);
        assert(digits.take(length + 1).drop_last() =~= digits.take(length));
        assert(is_digit(digits[length]));
    } else {
        assert(digits.take(length) =~= digits);
    }
}

/// Reads a `u32`: an optional plus sign followed by decimal digits.
pub fn parse_u32_text(chars: &Vec<char>, start: usize, end: usize) -> (r: Option<u32>)
    requires
        start <= end <= chars@.len(),
    ensures
        r == parsed_u32(chars@.subrange(start as int, end as int)),
{
    let ghost text = chars@.subrange(start as int, end as int);
    let mut first: usize = start;
    if start < end && chars[start] == '+' {
        first = start + 1;
    }
    let ghost digits = chars@.subrange(first as int, end as int);
    proof {
        if first > start {
            assert(text.drop_first() =~= digits);
        }
    }
    if first == end {
        return None;
    }
    let mut value: u64 = 0;
    let mut i: usize = first;
    while i < end
        invariant
            start <= first <= i <= end <= chars@.len(),
            digits == chars@.subrange(first as int, end as int),
            forall|j: int| 0 <= j < i - first ==> is_digit(#[trigger] digits[j]),
            value == numeral(digits.take(i - first)),
            value <= u32::MAX,
            first < end,
            text == chars@.subrange(start as int, end as int),
            digits == without_plus(text),
        decreases end - i,
    {
        let c = chars[i];
        assert(c == digits[i - first]);
        if c < '0' || c > '9' {
            assert(!is_digit(digits[i - first]));
            return None;
        }
        let next: u64 = value * 10 + (c as u64 - '0' as u64);
        assert(digits.take(i - first + 1).drop_last() =~= digits.take(i - first));
        assert(next == numeral(digits.take(i - first + 1)));
        if next > u32::MAX as u64 {
            proof {
                if all_digits(digits) {
                    lemma_numeral_grows(digits, i - first + 1);
                }
            }
            return None;
        }
        value = next;
        i += 1;
    }
    assert(digits.take(end - first) =~= digits);
    Some(value as u32)
}

/// The text that `{:?}` prints for a text: in double quotes, with escapes.
pub uninterp spec fn quoted(text: Seq<char>) -> Seq<char>;

/// `str`'s `Debug` formatting: the result depends on the characters of the text alone.
#[verifier::external_body]
pub(crate) fn quote(text: &str) -> (result: String)
    ensures
        result@ == quoted(text@),
{
    format!("{text:?}")
}

/// Whether a character is white space in the sense of Unicode.
pub open spec fn is_white(c: char) -> bool {
    let code = c as u32;
    ||| 0x9 <= code <= 0xd
    ||| code == 0x20
    ||| code == 0x85
    ||| code == 0xa0
    ||| code == 0x1680
    ||| 0x2000 <= code <= 0x200a
    ||| code == 0x2028
    ||| code == 0x2029
    ||| code == 0x202f
    ||| code == 0x205f
    ||| code == 0x3000
}

/// Whether a character is white space.
pub fn white(c: char) -> (result: bool)
    ensures
        result == is_white(c),
{
    let code: u32 = c as u32;
    (0x9 <= code && code <= 0xd) || code == 0x20 || code == 0x85 || code == 0xa0 || code == 0x1680
        || (0x2000 <= code && code <= 0x200a) || code == 0x2028 || code == 0x2029 || code == 0x202f
        || code == 0x205f || code == 0x3000
}

/// Where the first character that is not white space stands, at or after `start`.
pub open spec fn skip_white(text: Seq<char>, start: int, end: int) -> int
    decreases end - start,
{
    if start < end && is_white(text[start]) {
        skip_white(text, start + 1, end)
    } else {
        start
    }
}

/// Where the white space begins that stands before `end`, looking back no further than `start`.
pub open spec fn drop_white(text: Seq<char>, start: int, end: int) -> int
    decreases end - start,
{
    if start < end && is_white(text[end - 1]) {
        drop_white(text, start, end - 1)
    } else {
        end
    }
}

/// A text without the white space at its two ends.
pub open spec fn trimmed(text: Seq<char>) -> Seq<char> {
    let start = skip_white(text, 0, text.len() as int);
    text.subrange(start, drop_white(text, start, text.len() as int))
}

pub proof fn lemma_skip_white(text: Seq<char>, start: int, end: int)
    requires
        start <= end,
    ensures
        start <= skip_white(text, start, end) <= end,
        forall|i: int| start <= i < skip_white(text, start, end) ==> is_white(#[trigger] text[i]),
        skip_white(text, start, end) < end ==> !is_white(text[skip_white(text, start, end)]),
    decreases end - start,
{
    if start < end && is_white(text[start]) {
        lemma_skip_white(text, start + 1, end);
    }
}

pub proof fn lemma_drop_white(text: Seq<char>, start: int, end: int)
    requires
        start <= end,
    ensures
        start <= drop_white(text, start, end) <= end,
    decreases end - start,
{
    if start < end && is_white(text[end - 1]) {
        lemma_drop_white(text, start, end - 1);
    }
}

/// The bounds of the part of `chars[from..to]` that is left when white space is taken off both
/// ends.
pub(crate) fn trim_bounds(chars: &Vec<char>, from: usize, to: usize) -> (bounds: (usize, usize))
    requires
        from <= to <= chars@.len(),
    ensures
        from <= bounds.0 <= bounds.1 <= to,
        chars@.subrange(bounds.0 as int, bounds.1 as int) == trimmed(
            chars@.subrange(from as int, to as int),
        ),
{
    let ghost text = chars@.subrange(from as int, to as int);
    let mut start: usize = from;
    while start < to && white(chars[start])
        invariant
            from <= start <= to <= chars@.len(),
            text == chars@.subrange(from as int, to as int),
            skip_white(text, 0, text.len() as int) == skip_white(
                text,
                start - from,
                text.len() as int,
            ),
        decreases to - start,
    {
        assert(text[start - from] == chars@[start as int]);
        start += 1;
    }
    proof {
        if start < to {
            assert(text[start - from] == chars@[start as int]);
        }
    }
    let mut end: usize = to;
    while start < end && white(chars[end - 1])
        invariant
            from <= start <= end <= to <= chars@.len(),
            text == chars@.subrange(from as int, to as int),
            drop_white(text, start - from, text.len() as int) == drop_white(
                text,
                start - from,
                end - from,
            ),
        decreases end - start,
    {
        assert(text[end - from - 1] == chars@[end - 1]);
        end -= 1;
    }
    proof {
        if start < end {
            assert(text[end - from - 1] == chars@[end - 1]);
        }
        assert(chars@.subrange(start as int, end as int) =~= trimmed(text));
    }
    (start, end)
}

/// Where a line ends that begins at `start`: at the next line feed, or at the end of the text.
pub open spec fn line_end(text: Seq<char>, start: int) -> int
    decreases text.len() - start,
{
    if start < text.len() && text[start] != '\n' {
        line_end(text, start + 1)
    } else {
        start
    }
}

/// The line from `start` to the line feed at `end`: a carriage return before a line feed is not
/// part of the line.
pub open spec fn line_between(text: Seq<char>, start: int, end: int) -> Seq<char> {
    if end < text.len() && start < end && text[end - 1] == '\r' {
        text.subrange(start, end - 1)
    } else {
        text.subrange(start, end)
    }
}

pub proof fn lemma_line_end(text: Seq<char>, start: int)
    requires
        start <= text.len(),
    ensures
        start <= line_end(text, start) <= text.len(),
    decreases text.len() - start,
{
    if start < text.len() && text[start] != '\n' {
        lemma_line_end(text, start + 1);
    }
}

/// Where the next line begins after one that ends at `end`.
pub open spec fn after_line(text: Seq<char>, end: int) -> int {
    if end < text.len() {
        end + 1
    } else {
        end
    }
}

/// The lines of a text from `start` on. Each ends in a line feed; the last one need not.
pub open spec fn lines_from(text: Seq<char>, start: int) -> Seq<Seq<char>>
    decreases text.len() - start,
{
    let end = line_end(text, start);
    if 0 <= start < text.len() && start <= end <= text.len() {
        seq![line_between(text, start, end)] + lines_from(text, after_line(text, end))
    } else {
        Seq::empty()
    }
}

/// The lines of a text.
pub open spec fn lines(text: Seq<char>) -> Seq<Seq<char>> {
    lines_from(text, 0)
}

pub open spec fn line_views(lines: Seq<Vec<char>>) -> Seq<Seq<char>> {
    Seq::new(lines.len(), |i: int| lines[i]@)
}

/// A line spends no more bytes than the text it stands in, and is never the whole of a text that
/// has more lines.
pub proof fn lemma_subrange_offset(text: Seq<char>, start: int, end: int)
    requires
        0 <= start <= end <= text.len(),
    ensures
        byte_offset(text.subrange(start, end), end - start) + byte_offset(text, start)
            == byte_offset(text, end),
    decreases end - start,
{
    let part = text.subrange(start, end);
    if start < end {
        lemma_subrange_offset(text, start, end - 1);
        lemma_offset_prefix(part, text.subrange(start, end - 1), end - 1 - start);
        assert(part[end - 1 - start] == text[end - 1]);
    }
}

proof fn lemma_offset_prefix(long: Seq<char>, short: Seq<char>, length: int)
    requires
        0 <= length <= short.len() <= long.len(),
        forall|i: int| 0 <= i < length ==> long[i] == short[i],
    ensures
        byte_offset(long, length) == byte_offset(short, length),
    decreases length,
{
    if length > 0 {
        lemma_offset_prefix(long, short, length - 1);
    }
}

/// The lines of a text, each as its characters.
pub(crate) fn split_lines(text: &str) -> (result: Vec<Vec<char>>)
    ensures
        line_views(result@) == lines(text@),
        result@.len() <= text@.len(),
        forall|i: int|
            0 <= i < result@.len() ==> byte_offset(
                (#[trigger] result@[i])@,
                result@[i]@.len() as int,
            ) <= byte_offset(text@, text@.len() as int),
{
    let chars = chars_of(text);
    let mut result: Vec<Vec<char>> = Vec::new();
    let mut start: usize = 0;
    while start < chars.len()
        invariant
            chars@ == text@,
            start <= chars@.len(),
            result@.len() <= start,
            line_views(result@) + lines_from(text@, start as int) == lines(text@),
            forall|i: int|
                0 <= i < result@.len() ==> byte_offset(
                    (#[trigger] result@[i])@,
                    result@[i]@.len() as int,
                ) <= byte_offset(text@, text@.len() as int),
        decreases chars@.len() - start,
    {
        let mut end: usize = start;
        while end < chars.len() && chars[end] != '\n'
            invariant
                chars@ == text@,
                start <= end <= chars@.len(),
                line_end(text@, start as int) == line_end(text@, end as int),
            decreases chars@.len() - end,
        {
            end += 1;
        }
        let mut stop: usize = end;
        if end < chars.len() && start < end && chars[end - 1] == '\r' {
            stop = end - 1;
        }
        let mut line: Vec<char> = Vec::new();
        let mut i: usize = start;
        while i < stop
            invariant
                start <= i <= stop <= chars@.len(),
                line@ == chars@.subrange(start as int, i as int),
            decreases stop - i,
        {
            line.push(chars[i]);
            i += 1;
        }
        proof {
            assert(line@ == line_between(text@, start as int, end as int));
            lemma_subrange_offset(text@, start as int, stop as int);
            lemma_byte_offset_monotonic(text@, stop as int, text@.len() as int);
            let next = after_line(text@, end as int);
            assert(lines_from(text@, start as int) == seq![line@] + lines_from(text@, next));
            assert(line_views(result@.push(line)) + lines_from(text@, next) =~= line_views(result@)
                + lines_from(text@, start as int));
        }
        result.push(line);
        start = if end < chars.len() {
            end + 1
        } else {
            end
        };
    }
    assert(lines_from(text@, start as int) =~= Seq::empty());
    assert(line_views(result@) =~= lines(text@));
    result
}

/// The characters of each of some texts.
pub open spec fn text_views(texts: Seq<String>) -> Seq<Seq<char>> {
    Seq::new(texts.len(), |i: int| texts[i]@)
}

/// Texts one after the other, with a separator between any two.
pub open spec fn joined(texts: Seq<Seq<char>>, separator: Seq<char>) -> Seq<char>
    decreases texts.len(),
{
    if texts.len() == 0 {
        Seq::empty()
    } else if texts.len() == 1 {
        texts[0]
    } else {
        joined(texts.drop_last(), separator) + separator + texts.last()
    }
}

/// Puts texts one after the other, with a separator between any two.
pub(crate) fn join_texts(texts: &Vec<String>, separator: &str) -> (result: String)
    ensures
        result@ == joined(text_views(texts@), separator@),
{
    let mut result = String::new();
    let mut i: usize = 0;
    while i < texts.len()
        invariant
            i <= texts@.len(),
            result@ == joined(text_views(texts@).take(i as int), separator@),
        decreases texts@.len() - i,
    {
        if i > 0 {
            result.append(separator);
        }
        result.append(texts[i].as_str());
        proof {
            let prefix = text_views(texts@).take(i + 1);
            assert(prefix.drop_last() =~= text_views(texts@).take(i as int));
            assert(prefix.last() == texts@[i as int]@);
            if i == 0 {
                assert(joined(prefix, separator@) == prefix[0]);
                assert(Seq::<char>::empty() + texts@[0]@ =~= texts@[0]@);
            }
        }
        i += 1;
    }
    assert(text_views(texts@).take(i as int) =~= text_views(texts@));
    result
}

/// How a truth value is written.
pub open spec fn flag(value: bool) -> Seq<char> {
    if value {
        "true"@
    } else {
        "false"@
    }
}

pub(crate) fn flag_text(value: bool) -> (text: &'static str)
    ensures
        text@ == flag(value),
{
    if value {
        "true"
    } else {
        "false"
    }
}

} // verus!
