//! Texts: numbers written out, comparisons and small edits.
use vstd::prelude::*;
use vstd::string::*;
use vstd::utf8::*;

use crate::bytes::same_bytes;

verus! {

/// The character that writes a digit, `a` to `f` standing for ten to fifteen.
pub open spec fn digit(value: int) -> char {
    if value < 10 {
        (48 + value) as char
    } else {
        (87 + value) as char
    }
}

/// A number in decimal notation.
pub open spec fn decimal(number: nat) -> Seq<char>
    decreases number,
{
    if number < 10 {
        seq![digit(number as int)]
    } else {
        decimal(number / 10).push(digit((number % 10) as int))
    }
}

/// A number in decimal notation, filled up with leading zeros to at least `width` digits.
pub open spec fn padded(number: nat, width: nat) -> Seq<char> {
    let digits = decimal(number);
    if digits.len() < width {
        Seq::new((width - digits.len()) as nat, |i: int| '0') + digits
    } else {
        digits
    }
}

/// The last `count` digits of a number in hexadecimal notation.
pub open spec fn hexadecimal(number: nat, count: nat) -> Seq<char>
    decreases count,
{
    if count == 0 {
        Seq::empty()
    } else {
        hexadecimal(number / 16, (count - 1) as nat).push(digit((number % 16) as int))
    }
}

/// The code of a character, that of an ASCII capital letter being that of its small letter.
pub open spec fn folded(c: char) -> int {
    if 65 <= c as int && c as int <= 90 {
        c as int + 32
    } else {
        c as int
    }
}

/// Whether two texts differ at most in the case of ASCII letters.
pub open spec fn same_but_for_case(a: Seq<char>, b: Seq<char>) -> bool {
    &&& a.len() == b.len()
    &&& forall|i: int| 0 <= i < a.len() ==> #[trigger] folded(a[i]) == folded(b[i])
}

/// A text without the NUL characters that it begins with.
pub open spec fn trimmed_front(text: Seq<char>) -> Seq<char>
    decreases text.len(),
{
    if text.len() > 0 && text[0] == '\0' {
        trimmed_front(text.drop_first())
    } else {
        text
    }
}

/// A text without the NUL characters that it ends with.
pub open spec fn trimmed_back(text: Seq<char>) -> Seq<char>
    decreases text.len(),
{
    if text.len() > 0 && text.last() == '\0' {
        trimmed_back(text.drop_last())
    } else {
        text
    }
}

/// A text without the NUL characters around it.
pub open spec fn trimmed(text: Seq<char>) -> Seq<char> {
    trimmed_back(trimmed_front(text))
}

/// A text with every backslash made a slash.
pub open spec fn with_slashes(text: Seq<char>) -> Seq<char> {
    Seq::new(
        text.len(),
        |i: int|
            if text[i] == '\\' {
                '/'
            } else {
                text[i]
            },
    )
}

/// Whether a text ends in another one.
pub open spec fn ends_in(text: Seq<char>, end: Seq<char>) -> bool {
    &&& end.len() <= text.len()
    &&& text.subrange(text.len() - end.len(), text.len() as int) == end
}

/// The items with `between` between each two of them.
pub open spec fn listed(items: Seq<Seq<char>>, between: Seq<char>) -> Seq<char>
    decreases items.len(),
{
    if items.len() == 0 {
        Seq::empty()
    } else if items.len() == 1 {
        items[0]
    } else {
        listed(items.drop_last(), between) + between + items.last()
    }
}

/// A decimal number has digits and nothing else.
pub proof fn lemma_decimal_digits(number: nat)
    ensures
        decimal(number).len() > 0,
        forall|i: int|
            0 <= i < decimal(number).len() ==> 48 <= #[trigger] decimal(number)[i] as int
                && decimal(number)[i] as int <= 57,
    decreases number,
{
    if number >= 10 {
        lemma_decimal_digits(number / 10);
        let front = decimal(number / 10);
        assert forall|i: int| 0 <= i < decimal(number).len() implies 48 <= #[trigger] decimal(
            number,
        )[i] as int && decimal(number)[i] as int <= 57 by {
            if i < front.len() {
                assert(decimal(number)[i] == front[i]);
            }
        }
    }
}

/// A number with leading zeros has digits and nothing else.
pub proof fn lemma_padded_digits(number: nat, width: nat)
    ensures
        padded(number, width).len() > 0,
        forall|i: int|
            0 <= i < padded(number, width).len() ==> 48 <= #[trigger] padded(
                number,
                width,
            )[i] as int && padded(number, width)[i] as int <= 57,
{
    lemma_decimal_digits(number);
    let digits = decimal(number);
    assert forall|i: int| 0 <= i < padded(number, width).len() implies 48 <= #[trigger] padded(
        number,
        width,
    )[i] as int && padded(number, width)[i] as int <= 57 by {
        if digits.len() < width && i >= width - digits.len() {
            assert(padded(number, width)[i] == digits[i - (width - digits.len())]);
        }
    }
}

/// The first number with more than `count` digits.
pub open spec fn ten_to(count: nat) -> nat
    decreases count,
{
    if count == 0 {
        1
    } else {
        10 * ten_to((count - 1) as nat)
    }
}

/// Numbers filled up to the same number of digits differ first in a digit that is lower in the
/// lower number.
pub proof fn lemma_padded_order(low: nat, high: nat, width: nat) -> (at: int)
    requires
        low < high < ten_to(width),
        width > 0,
    ensures
        padded(low, width).len() == width,
        padded(high, width).len() == width,
        0 <= at < width,
        padded(low, width).take(at) == padded(high, width).take(at),
        (padded(low, width)[at] as int) < padded(high, width)[at] as int,
    decreases width,
{
    lemma_padded_step(low, width);
    lemma_padded_step(high, width);
    let a = padded(low, width);
    let b = padded(high, width);
    if low / 10 < high / 10 {
        let rest = (width - 1) as nat;
        let at = lemma_padded_order(low / 10, high / 10, rest);
        assert(a.take(at) =~= padded(low / 10, rest).take(at));
        assert(b.take(at) =~= padded(high / 10, rest).take(at));
        at
    } else {
        assert(a.take(width - 1) =~= a.drop_last());
        assert(b.take(width - 1) =~= b.drop_last());
        width - 1
    }
}

proof fn lemma_padded_step(number: nat, width: nat)
    requires
        number < ten_to(width),
        width > 0,
    ensures
        padded(number, width).len() == width,
        padded(number, width).last() == digit((number % 10) as int),
        width > 1 ==> padded(number, width).drop_last() == padded(
            number / 10,
            (width - 1) as nat,
        ),
        width == 1 ==> padded(number, width).drop_last() == Seq::<char>::empty() && number < 10,
        number / 10 < ten_to((width - 1) as nat),
    decreases width,
{
    let rest = (width - 1) as nat;
    reveal_with_fuel(ten_to, 2);
    reveal_with_fuel(decimal, 2);
    if width > 1 {
        lemma_padded_step(number / 10, rest);
        assert(padded(number, width).drop_last() =~= padded(number / 10, rest));
    } else {
        assert(padded(number, width).drop_last() =~= Seq::<char>::empty());
    }
}

/// Whether two texts are the same.
pub fn same_text(a: &str, b: &str) -> (same: bool)
    ensures
        same == (a@ == b@),
{
    proof {
        encode_utf8_decode_utf8(a@);
        encode_utf8_decode_utf8(b@);
    }
    same_bytes(a.as_bytes(), b.as_bytes())
}

/// A digit as a text.
fn digit_text(value: u64) -> (text: &'static str)
    requires
        value < 16,
    ensures
        text@ == seq![digit(value as int)],
{
    proof {
        reveal_strlit("0");
        reveal_strlit("1");
        reveal_strlit("2");
        reveal_strlit("3");
        reveal_strlit("4");
        reveal_strlit("5");
        reveal_strlit("6");
        reveal_strlit("7");
        reveal_strlit("8");
        reveal_strlit("9");
        reveal_strlit("a");
        reveal_strlit("b");
        reveal_strlit("c");
        reveal_strlit("d");
        reveal_strlit("e");
        reveal_strlit("f");
    }
    let text: &'static str = match value {
        0 => "0",
        1 => "1",
        2 => "2",
        3 => "3",
        4 => "4",
        5 => "5",
        6 => "6",
        7 => "7",
        8 => "8",
        9 => "9",
        10 => "a",
        11 => "b",
        12 => "c",
        13 => "d",
        14 => "e",
        _ => "f",
    };
    assert(text@ =~= seq![digit(value as int)]);
    text
}

/// Writes a number in decimal notation.
pub fn decimal_text(number: u64) -> (text: String)
    ensures
        text@ == decimal(number as nat),
    decreases number,
{
    if number < 10 {
        digit_text(number).to_owned()
    } else {
        let mut text = decimal_text(number / 10);
        text.append(digit_text(number % 10));
        assert(text@ =~= decimal(number as nat));
        text
    }
}

/// Writes a number in decimal notation with at least `width` digits.
pub fn padded_text(number: u64, width: usize) -> (text: String)
    ensures
        text@ == padded(number as nat, width as nat),
{
    let digits = decimal_text(number);
    let count: usize = digits.as_str().unicode_len();
    if count >= width {
        return digits;
    }
    let mut text = String::new();
    let mut zeros: usize = 0;
    proof {
        reveal_strlit("0");
    }
    while zeros < width - count
        invariant
            count < width,
            zeros <= width - count,
            text@ == Seq::new(zeros as nat, |i: int| '0'),
            "0"@ =~= seq!['0'],
        decreases width - count - zeros,
    {
        text.append("0");
        zeros = zeros + 1;
        assert(text@ =~= Seq::new(zeros as nat, |i: int| '0'));
    }
    text.append(digits.as_str());
    text
}

/// Writes the last `count` hexadecimal digits of a number.
pub fn hexadecimal_text(number: u64, count: usize) -> (text: String)
    ensures
        text@ == hexadecimal(number as nat, count as nat),
    decreases count,
{
    if count == 0 {
        let text = String::new();
        assert(text@ =~= hexadecimal(number as nat, 0));
        text
    } else {
        let mut text = hexadecimal_text(number / 16, count - 1);
        text.append(digit_text(number % 16));
        assert(text@ =~= hexadecimal(number as nat, count as nat));
        text
    }
}

/// The code of a character in small letters.
fn folded_code(c: char) -> (code: u32)
    ensures
        code == folded(c),
{
    let code: u32 = c as u32;
    if 65 <= code && code <= 90 {
        code + 32
    } else {
        code
    }
}

/// Whether two texts differ at most in the case of ASCII letters.
pub fn same_text_but_for_case(a: &str, b: &str) -> (same: bool)
    ensures
        same == same_but_for_case(a@, b@),
{
    let count: usize = a.unicode_len();
    if count != b.unicode_len() {
        return false;
    }
    let mut i: usize = 0;
    while i < count
        invariant
            count == a@.len(),
            count == b@.len(),
            i <= count,
            forall|k: int| 0 <= k < i ==> #[trigger] folded(a@[k]) == folded(b@[k]),
        decreases count - i,
    {
        if folded_code(a.get_char(i)) != folded_code(b.get_char(i)) {
            assert(folded(a@[i as int]) != folded(b@[i as int]));
            return false;
        }
        i = i + 1;
    }
    true
}

/// Takes the NUL characters around a text away.
pub fn trim_nul(text: &str) -> (inner: String)
    ensures
        inner@ == trimmed(text@),
{
    let count: usize = text.unicode_len();
    let mut from: usize = 0;
    assert(text@.subrange(0, count as int) =~= text@);
    while from < count && text.get_char(from) == '\0'
        invariant
            count == text@.len(),
            from <= count,
            trimmed_front(text@) == trimmed_front(text@.subrange(from as int, count as int)),
        decreases count - from,
    {
        assert(text@.subrange(from as int, count as int).drop_first() =~= text@.subrange(
            from + 1,
            count as int,
        ));
        from = from + 1;
    }
    let mut to: usize = count;
    let ghost front = text@.subrange(from as int, count as int);
    assert(trimmed_front(text@) == front);
    while from < to && text.get_char(to - 1) == '\0'
        invariant
            count == text@.len(),
            from <= to <= count,
            trimmed_back(front) == trimmed_back(text@.subrange(from as int, to as int)),
        decreases to - from,
    {
        assert(text@.subrange(from as int, to as int).drop_last() =~= text@.subrange(
            from as int,
            to - 1,
        ));
        to = to - 1;
    }
    text.substring_char(from, to).to_owned()
}

/// Makes every backslash a slash.
pub fn slashed(text: &str) -> (changed: String)
    ensures
        changed@ == with_slashes(text@),
{
    let count: usize = text.unicode_len();
    let mut changed = String::new();
    let mut i: usize = 0;
    proof {
        reveal_strlit("/");
    }
    while i < count
        invariant
            count == text@.len(),
            i <= count,
            changed@ == with_slashes(text@).take(i as int),
            "/"@ =~= seq!['/'],
        decreases count - i,
    {
        if text.get_char(i) == '\\' {
            changed.append("/");
        } else {
            changed.append(text.substring_char(i, i + 1));
        }
        i = i + 1;
        assert(changed@ =~= with_slashes(text@).take(i as int));
    }
    assert(with_slashes(text@).take(count as int) =~= with_slashes(text@));
    changed
}

/// The text without the end, where it ends so.
pub fn without_end(text: &str, end: &str) -> (rest: Option<String>)
    ensures
        rest is Some == ends_in(text@, end@),
        rest matches Some(front) ==> front@ == text@.take(text@.len() - end@.len()),
{
    let count: usize = text.unicode_len();
    let tail: usize = end.unicode_len();
    if tail > count {
        return None;
    }
    if !same_text(text.substring_char(count - tail, count), end) {
        return None;
    }
    let front = text.substring_char(0, count - tail).to_owned();
    assert(front@ =~= text@.take(count - tail));
    Some(front)
}

/// Lists the items with `between` between each two of them.
pub fn list_text(items: &Vec<String>, between: &str) -> (text: String)
    ensures
        text@ == listed(texts(items@), between@),
{
    let mut text = String::new();
    let ghost views = texts(items@);
    let mut i: usize = 0;
    assert(views.take(0) =~= Seq::<Seq<char>>::empty());
    while i < items.len()
        invariant
            views == texts(items@),
            i <= items@.len(),
            text@ == listed(views.take(i as int), between@),
        decreases items@.len() - i,
    {
        assert(views.take(i + 1).drop_last() =~= views.take(i as int));
        assert(views.take(i + 1).last() == items@[i as int]@);
        if i > 0 {
            text.append(between);
        }
        text.append(items[i].as_str());
        assert(text@ =~= listed(views.take(i + 1), between@));
        i = i + 1;
    }
    assert(views.take(i as int) =~= views);
    text
}

/// The characters of each text.
pub open spec fn texts(items: Seq<String>) -> Seq<Seq<char>> {
    Seq::new(items.len(), |i: int| items[i]@)
}

/// The UTF-8 bytes of a text.
pub fn text_bytes(text: &str) -> (bytes: Vec<u8>)
    ensures
        bytes@ == encode_utf8(text@),
{
    text.as_bytes_vec()
}

} // verus!
