//! What numerals, lines, trimmed and joined texts are.
use vstd::prelude::*;

use crate::ingest_laws;
use crate::text;

verus! {

/// A numeral below ten is the digit itself, and a longer one has the digits of its tenth part and
/// then its last digit.
pub proof fn law_decimal(n: nat)
    ensures
        n < 10 ==> text::decimal(n).len() == 1 && text::decimal(n)[0] as nat == '0' as nat + n,
        n >= 10 ==> text::decimal(n) == text::decimal(n / 10) + text::decimal(n % 10),
{
    reveal_with_fuel(text::decimal, 2);
    if n >= 10 {
        assert(text::decimal(n) =~= text::decimal(n / 10) + text::decimal(n % 10));
    }
}

/// One digit reads as its value.
pub proof fn law_digit_reads(c: char)
    ensures
        '0' <= c <= '9' ==> text::parsed_u32(seq![c]) == Some((c as u32 - '0' as u32) as u32),
        !('0' <= c <= '9') ==> text::parsed_u32(seq![c]) is None,
{
    let one = seq![c];
    assert(one.drop_last() =~= Seq::empty());
    reveal_with_fuel(text::numeral, 2);
    if c == '+' {
        assert(one.drop_first() =~= Seq::empty());
    } else {
        assert(text::without_plus(one) == one);
        if !('0' <= c <= '9') {
            assert(!text::is_digit(one[0]));
        }
    }
}

/// One digit more makes ten times the number, and the digit. What is no number, or too large, stays
/// so; nothing but digits goes on a number.
pub proof fn law_numeral_grows(digits: Seq<char>, c: char)
    requires
        digits.len() > 0,
        digits != seq!['+'],
    ensures
        ({
            let longer = text::parsed_u32(digits.push(c));
            match text::parsed_u32(digits) {
                Some(value) => if '0' <= c <= '9' && value * 10 + (c as u32 - '0' as u32)
                    <= u32::MAX {
                    longer == Some((value * 10 + (c as u32 - '0' as u32)) as u32)
                } else {
                    longer is None
                },
                None => longer is None,
            }
        }),
{
    let all = digits.push(c);
    let own = text::without_plus(digits);
    let longer = text::without_plus(all);
    if digits[0] == '+' {
        assert(longer =~= own.push(c));
        assert(digits.len() > 1) by {
            if digits.len() == 1 {
                assert(digits =~= seq!['+']);
            }
        }
    } else {
        assert(longer =~= own.push(c));
    }
    assert(longer.drop_last() =~= own);
    assert(longer.last() == c);
    if text::all_digits(longer) {
        assert(text::is_digit(longer[own.len() as int]));
        assert forall|i: int| 0 <= i < own.len() implies text::is_digit(#[trigger] own[i]) by {
            assert(longer[i] == own[i]);
        }
    }
    if text::all_digits(own) && '0' <= c <= '9' {
        assert forall|i: int| 0 <= i < longer.len() implies text::is_digit(
            #[trigger] longer[i],
        ) by {
            if i < own.len() {
                assert(longer[i] == own[i]);
            }
        }
    }
}

/// A plus sign before digits changes nothing, and is no number alone; nor is an empty text.
pub proof fn law_plus_sign(digits: Seq<char>)
    ensures
        digits.len() > 0 && digits[0] != '+' ==> text::parsed_u32(seq!['+'] + digits)
            == text::parsed_u32(digits),
        text::parsed_u32(seq!['+']) is None,
        text::parsed_u32(Seq::<char>::empty()) is None,
{
    assert((seq!['+'] + digits).drop_first() =~= digits);
    assert(seq!['+'].drop_first() =~= Seq::<char>::empty());
}

proof fn lemma_decimal(n: nat)
    ensures
        text::decimal(n).len() > 0,
        text::all_digits(text::decimal(n)),
        text::numeral(text::decimal(n)) == n,
    decreases n,
{
    let all = text::decimal(n);
    if n < 10 {
        assert(all.drop_last() =~= Seq::empty());
        reveal_with_fuel(text::numeral, 2);
    } else {
        lemma_decimal(n / 10);
        assert(all.drop_last() =~= text::decimal(n / 10));
        assert forall|i: int| 0 <= i < all.len() implies text::is_digit(#[trigger] all[i]) by {
            if i < all.len() - 1 {
                assert(all[i] == text::decimal(n / 10)[i]);
            }
        }
    }
}

/// A number that is written in decimal is read back, if it is one of 32 bits.
pub proof fn law_decimal_reads_back(n: nat)
    ensures
        text::parsed_u32(text::decimal(n)) == if n <= u32::MAX {
            Some(n as u32)
        } else {
            None
        },
        forall|i: int|
            0 <= i < text::decimal(n).len() ==> '0' <= #[trigger] text::decimal(n)[i] <= '9',
        text::decimal(n).len() > 0,
{
    lemma_decimal(n);
    assert(text::is_digit(text::decimal(n)[0]));
    assert(text::without_plus(text::decimal(n)) == text::decimal(n));
    assert forall|i: int| 0 <= i < text::decimal(n).len() implies '0' <= #[trigger] text::decimal(
        n,
    )[i] <= '9' by {
        assert(text::is_digit(text::decimal(n)[i]));
    }
}

/// Texts put together: none, one, and one more behind the others with the separator between.
pub proof fn law_joined(texts: Seq<Seq<char>>, last: Seq<char>, separator: Seq<char>)
    ensures
        text::joined(Seq::empty(), separator).len() == 0,
        text::joined(seq![last], separator) == last,
        texts.len() > 0 ==> text::joined(texts.push(last), separator) == text::joined(
            texts,
            separator,
        ) + separator + last,
{
    assert(texts.push(last).drop_last() =~= texts);
}

/// The two flags.
pub proof fn law_flags()
    ensures
        text::flag(true) == "true"@,
        text::flag(false) == "false"@,
{
}

/// White space is what Unicode calls so.
pub proof fn law_white_space(c: char)
    ensures
        text::is_white(c) <==> c == ' ' || c == '\t' || c == '\n' || c == '\x0B' || c == '\x0C' || c
            == '\r' || c as u32 == 0x85 || c as u32 == 0xa0 || c as u32 == 0x1680 || (0x2000
            <= c as u32 && c as u32 <= 0x200a) || c as u32 == 0x2028 || c as u32 == 0x2029
            || c as u32 == 0x202f || c as u32 == 0x205f || c as u32 == 0x3000,
{
}

proof fn lemma_skip(whole: Seq<char>, start: int, to: int)
    requires
        0 <= start <= to <= whole.len(),
        forall|i: int| start <= i < to ==> text::is_white(#[trigger] whole[i]),
        to == whole.len() || !text::is_white(whole[to]),
    ensures
        text::skip_white(whole, start, whole.len() as int) == to,
    decreases to - start,
{
    if start < to {
        assert(text::is_white(whole[start]));
        lemma_skip(whole, start + 1, to);
    }
}

proof fn lemma_drop(whole: Seq<char>, start: int, end: int, to: int)
    requires
        0 <= start < to <= end <= whole.len(),
        forall|i: int| to <= i < end ==> text::is_white(#[trigger] whole[i]),
        !text::is_white(whole[to - 1]),
    ensures
        text::drop_white(whole, start, end) == to,
    decreases end - to,
{
    if to < end {
        assert(text::is_white(whole[end - 1]));
        lemma_drop(whole, start, end - 1, to);
    }
}

/// A text without the white space at its ends, whatever stands between.
pub proof fn law_trimmed(front: Seq<char>, core: Seq<char>, back: Seq<char>)
    requires
        forall|i: int| 0 <= i < front.len() ==> text::is_white(#[trigger] front[i]),
        forall|i: int| 0 <= i < back.len() ==> text::is_white(#[trigger] back[i]),
        core.len() > 0 ==> !text::is_white(core[0]) && !text::is_white(core.last()),
    ensures
        text::trimmed(front + core + back) == core,
{
    let whole = front + core + back;
    let n = front.len() as int;
    let m = core.len() as int;
    assert forall|i: int| 0 <= i < n implies text::is_white(#[trigger] whole[i]) by {
        assert(whole[i] == front[i]);
    }
    assert forall|i: int| n + m <= i < whole.len() implies text::is_white(#[trigger] whole[i]) by {
        assert(whole[i] == back[i - n - m]);
    }
    if m > 0 {
        assert(whole[n] == core[0]);
        assert(whole[n + m - 1] == core[m - 1]);
        lemma_skip(whole, 0, n);
        lemma_drop(whole, n, whole.len() as int, n + m);
        assert(whole.subrange(n, n + m) =~= core);
    } else {
        assert forall|i: int| 0 <= i < whole.len() implies text::is_white(#[trigger] whole[i]) by {
            if i >= n {
                assert(whole[i] == back[i - n]);
            }
        }
        lemma_skip(whole, 0, whole.len() as int);
        assert(text::trimmed(whole) =~= core);
    }
}

proof fn lemma_end(whole: Seq<char>, start: int, end: int)
    requires
        0 <= start <= end <= whole.len(),
        forall|i: int| start <= i < end ==> #[trigger] whole[i] != '\n',
        end == whole.len() || whole[end] == '\n',
    ensures
        text::line_end(whole, start) == end,
    decreases end - start,
{
    if start < end {
        assert(whole[start] != '\n');
        lemma_end(whole, start + 1, end);
    }
}

/// A text without line feeds is one line, unless it is empty. A line and what stands behind its line
/// feed are that line, without a carriage return at its end, and the lines behind it.
pub proof fn law_lines(line: Seq<char>, rest: Seq<char>)
    requires
        forall|i: int| 0 <= i < line.len() ==> #[trigger] line[i] != '\n',
    ensures
        text::lines(line) == if line.len() > 0 {
            seq![line]
        } else {
            Seq::<Seq<char>>::empty()
        },
        text::lines(line + seq!['\n'] + rest) == seq![
            if line.len() > 0 && line.last() == '\r' {
                line.drop_last()
            } else {
                line
            },
        ] + text::lines(rest),
{
    let n = line.len() as int;
    lemma_end(line, 0, n);
    assert(line.subrange(0, n) =~= line);
    assert(text::lines_from(line, n) =~= Seq::empty());
    if n > 0 {
        assert(text::lines(line) =~= seq![line]);
    }
    let front = line + seq!['\n'];
    let whole = front + rest;
    assert(line + seq!['\n'] + rest == whole);
    assert forall|i: int| 0 <= i < n implies #[trigger] whole[i] != '\n' by {
        assert(whole[i] == line[i]);
    }
    assert(whole[n] == '\n');
    lemma_end(whole, 0, n);
    ingest_laws::lemma_lines_shifted(front, rest, 0);
    assert(whole.subrange(0, n) =~= line);
    if n > 0 {
        assert(whole[n - 1] == line[n - 1]);
        assert(whole.subrange(0, n - 1) =~= line.drop_last());
    }
}

} // verus!
