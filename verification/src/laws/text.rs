//! Texts.
use vstd::prelude::*;

use crate::text::{
    decimal, digit, ends_in, folded, hexadecimal, listed, padded, same_but_for_case, texts,
    trimmed, trimmed_back, trimmed_front, with_slashes,
};

verus! {

/// The value of a digit, `a` to `f` standing for ten to fifteen; -1 for what is no digit.
pub open spec fn digit_value(c: char) -> int {
    if '0' <= c && c <= '9' {
        c as int - '0' as int
    } else if 'a' <= c && c <= 'f' {
        c as int - 'a' as int + 10
    } else {
        -1
    }
}

/// Whether a text is made of digits of the base and nothing else.
pub open spec fn is_number(text: Seq<char>, base: int) -> bool {
    forall|i: int| 0 <= i < text.len() ==> 0 <= digit_value(#[trigger] text[i]) < base
}

/// The number that digits write, the highest first.
pub open spec fn value(text: Seq<char>, base: int) -> int
    decreases text.len(),
{
    if text.len() == 0 {
        0
    } else {
        base * value(text.drop_last(), base) + digit_value(text.last())
    }
}

/// A number in decimal notation is written with digits that have its value, without leading zeros.
pub proof fn decimals_write_their_number(number: nat)
    ensures
        is_number(decimal(number), 10),
        value(decimal(number), 10) == number,
        decimal(number).len() > 0,
        decimal(number).len() > 1 ==> decimal(number)[0] != '0',
        number > 0 ==> decimal(number)[0] != '0',
    decreases number,
{
    let text = decimal(number);
    if number >= 10 {
        let front = decimal(number / 10);
        decimals_write_their_number(number / 10);
        assert(text.drop_last() =~= front);
        assert(text[0] == front[0]);
        assert forall|i: int| 0 <= i < text.len() implies 0 <= digit_value(#[trigger] text[i])
            < 10 by {
            if i < front.len() {
                assert(text[i] == front[i]);
            }
        }
    } else {
        assert(text.drop_last() =~= Seq::<char>::empty());
        assert(value(text.drop_last(), 10) == 0);
    }
}

/// Leading zeros do not change a number.
proof fn lemma_leading_zeros(count: nat, text: Seq<char>)
    ensures
        value(Seq::new(count, |i: int| '0') + text, 10) == value(text, 10),
    decreases count, text.len(),
{
    let zeros = Seq::new(count, |i: int| '0');
    let all = zeros + text;
    if text.len() > 0 {
        lemma_leading_zeros(count, text.drop_last());
        assert(all.drop_last() =~= zeros + text.drop_last());
    } else if count > 0 {
        let fewer = (count - 1) as nat;
        lemma_leading_zeros(fewer, text);
        assert(all.drop_last() =~= Seq::new(fewer, |i: int| '0') + text);
        assert(digit_value('0') == 0);
    } else {
        assert(all =~= text);
    }
}

/// A number filled up to a width is written with digits that have its value, as many as the width
/// asks for; more only where it needs them, and then without leading zeros.
pub proof fn padded_numbers_have_their_width(number: nat, width: nat)
    ensures
        is_number(padded(number, width), 10),
        value(padded(number, width), 10) == number,
        padded(number, width).len() >= width,
        padded(number, width).len() > width && width > 0 ==> padded(number, width)[0] != '0',
{
    decimals_write_their_number(number);
    let digits = decimal(number);
    let text = padded(number, width);
    if digits.len() < width {
        let count = (width - digits.len()) as nat;
        lemma_leading_zeros(count, digits);
        assert forall|i: int| 0 <= i < text.len() implies 0 <= digit_value(#[trigger] text[i])
            < 10 by {
            if i >= count {
                assert(text[i] == digits[i - count]);
            }
        }
    }
}

/// Sixteen to the power of `count`.
pub open spec fn sixteen_to(count: nat) -> nat
    decreases count,
{
    if count == 0 {
        1
    } else {
        16 * sixteen_to((count - 1) as nat)
    }
}

/// A number in hexadecimal notation is written with that many digits, which have its value.
pub proof fn hexadecimals_write_their_number(number: nat, count: nat)
    requires
        number < sixteen_to(count),
    ensures
        hexadecimal(number, count).len() == count,
        is_number(hexadecimal(number, count), 16),
        value(hexadecimal(number, count), 16) == number,
    decreases count,
{
    let text = hexadecimal(number, count);
    if count > 0 {
        let front = hexadecimal(number / 16, (count - 1) as nat);
        hexadecimals_write_their_number(number / 16, (count - 1) as nat);
        assert(text.drop_last() =~= front);
        assert forall|i: int| 0 <= i < text.len() implies 0 <= digit_value(#[trigger] text[i])
            < 16 by {
            if i < front.len() {
                assert(text[i] == front[i]);
            }
        }
    }
}

/// Every 64-bit number has sixteen hexadecimal digits.
pub proof fn sixteen_digits_are_enough(number: u64)
    ensures
        number < sixteen_to(16),
{
    reveal_with_fuel(sixteen_to, 17);
}

/// Whether two characters are the same, or the capital and the small form of one of the letters
/// from A to Z.
pub open spec fn same_letter(a: char, b: char) -> bool {
    ||| a == b
    ||| 'A' <= a && a <= 'Z' && b as int == a as int + 32
    ||| 'A' <= b && b <= 'Z' && a as int == b as int + 32
}

/// Two texts are the same but for case if each of their characters is the same letter, and only
/// then.
pub proof fn case_is_that_of_ascii_letters(a: Seq<char>, b: Seq<char>)
    ensures
        same_but_for_case(a, b) == (a.len() == b.len() && forall|i: int|
            0 <= i < a.len() ==> same_letter(#[trigger] a[i], b[i])),
{
    assert forall|c: char, d: char| (folded(c) == folded(d)) == #[trigger] same_letter(c, d) by {
        if c as int == d as int {
            assert(c == d);
        }
    }
    if same_but_for_case(a, b) {
        assert forall|i: int| 0 <= i < a.len() implies same_letter(#[trigger] a[i], b[i]) by {
            assert(folded(a[i]) == folded(b[i]));
        }
    }
    if a.len() == b.len() && forall|i: int| 0 <= i < a.len() ==> same_letter(#[trigger] a[i], b[i]) {
        assert forall|i: int| 0 <= i < a.len() implies #[trigger] folded(a[i]) == folded(b[i]) by {
            assert(same_letter(a[i], b[i]));
        }
    }
}

/// Trimming takes away characters at the ends, all of them NUL, and leaves none there.
pub proof fn trimming_takes_the_nuls_at_the_ends(text: Seq<char>) -> (ends: (int, int))
    ensures
        0 <= ends.0 <= ends.1 <= text.len(),
        trimmed(text) == text.subrange(ends.0, ends.1),
        forall|i: int| 0 <= i < ends.0 ==> #[trigger] text[i] == '\0',
        forall|i: int| ends.1 <= i < text.len() ==> #[trigger] text[i] == '\0',
        trimmed(text).len() > 0 ==> trimmed(text)[0] != '\0' && trimmed(text).last() != '\0',
{
    let from = lemma_trimmed_front(text);
    let front = text.skip(from);
    let to = lemma_trimmed_back(front);
    assert(front.take(to) =~= text.subrange(from, from + to));
    assert forall|i: int| from + to <= i < text.len() implies #[trigger] text[i] == '\0' by {
        assert(front[i - from] == text[i]);
    }
    if to > 0 {
        assert(front.take(to)[0] == front[0]);
    }
    (from, from + to)
}

proof fn lemma_trimmed_front(text: Seq<char>) -> (from: int)
    ensures
        0 <= from <= text.len(),
        trimmed_front(text) == text.skip(from),
        forall|i: int| 0 <= i < from ==> #[trigger] text[i] == '\0',
        from < text.len() ==> text[from] != '\0',
    decreases text.len(),
{
    if text.len() > 0 && text[0] == '\0' {
        let rest = text.drop_first();
        let from = lemma_trimmed_front(rest);
        assert(rest.skip(from) =~= text.skip(from + 1));
        assert forall|i: int| 0 <= i < from + 1 implies #[trigger] text[i] == '\0' by {
            if i > 0 {
                assert(rest[i - 1] == text[i]);
            }
        }
        from + 1
    } else {
        assert(text.skip(0) =~= text);
        0
    }
}

proof fn lemma_trimmed_back(text: Seq<char>) -> (to: int)
    ensures
        0 <= to <= text.len(),
        trimmed_back(text) == text.take(to),
        forall|i: int| to <= i < text.len() ==> #[trigger] text[i] == '\0',
        to > 0 ==> text[to - 1] != '\0',
    decreases text.len(),
{
    if text.len() > 0 && text.last() == '\0' {
        let rest = text.drop_last();
        let to = lemma_trimmed_back(rest);
        assert(rest.take(to) =~= text.take(to));
        assert forall|i: int| to <= i < text.len() implies #[trigger] text[i] == '\0' by {
            if i < rest.len() {
                assert(rest[i] == text[i]);
            }
        }
        to
    } else {
        assert(text.take(text.len() as int) =~= text);
        text.len() as int
    }
}

/// Backslashes become slashes; every other character stays.
pub proof fn backslashes_become_slashes(text: Seq<char>, i: int)
    requires
        0 <= i < text.len(),
    ensures
        with_slashes(text).len() == text.len(),
        text[i] == '\\' ==> with_slashes(text)[i] == '/',
        text[i] != '\\' ==> with_slashes(text)[i] == text[i],
{
}

/// A text without backslashes stays as it is.
pub proof fn slashes_stay(text: Seq<char>)
    requires
        !text.contains('\\'),
    ensures
        with_slashes(text) == text,
{
    assert forall|i: int| 0 <= i < text.len() implies with_slashes(text)[i] == text[i] by {
        assert(text.contains(text[i]));
    }
    assert(with_slashes(text) =~= text);
}

/// What is put in front of an end ends so, and what ends so is something in front of the end.
pub proof fn texts_end_in_what_is_put_behind(front: Seq<char>, text: Seq<char>, end: Seq<char>)
    ensures
        ends_in(front + end, end),
        (front + end).take((front + end).len() - end.len()) == front,
        ends_in(text, end) ==> text == text.take(text.len() - end.len()) + end,
{
    let all = front + end;
    assert(all.subrange(all.len() - end.len(), all.len() as int) =~= end);
    assert(all.take(all.len() - end.len()) =~= front);
    if ends_in(text, end) {
        let n = text.len() - end.len();
        assert(text =~= text.take(n) + text.subrange(n, text.len() as int));
    }
}

/// A list of one item is the item, and one more item comes behind the others and what stands
/// between.
pub proof fn lists_grow_at_the_end(items: Seq<Seq<char>>, item: Seq<char>, between: Seq<char>)
    ensures
        listed(Seq::empty(), between) == Seq::<char>::empty(),
        listed(seq![item], between) == item,
        items.len() > 0 ==> listed(items.push(item), between) == listed(items, between) + between
            + item,
{
    assert(items.push(item).drop_last() =~= items);
}

/// The characters of a list of texts are those of each text, in order.
pub proof fn texts_keep_their_order(items: Seq<String>, i: int)
    requires
        0 <= i < items.len(),
    ensures
        texts(items).len() == items.len(),
        texts(items)[i] == items[i]@,
{
}

/// Whether a text is a number of at least `width` digits between a front and an end, without
/// leading zeros that the width does not ask for.
pub open spec fn is_numbered(
    text: Seq<char>,
    front: Seq<char>,
    number: int,
    width: int,
    end: Seq<char>,
) -> bool {
    exists|digits: Seq<char>|
        {
            &&& text == #[trigger] (front + digits) + end
            &&& is_number(digits, 10)
            &&& value(digits, 10) == number
            &&& digits.len() >= width
            &&& digits.len() > width ==> digits[0] != '0'
        }
}

/// A padded number between a front and an end is one.
pub proof fn lemma_numbered(front: Seq<char>, number: nat, width: nat, end: Seq<char>)
    requires
        width > 0,
    ensures
        is_numbered(front + padded(number, width) + end, front, number as int, width as int, end),
{
    padded_numbers_have_their_width(number, width);
    let digits = padded(number, width);
    assert(front + digits + end == (front + digits) + end);
}

} // verus!
