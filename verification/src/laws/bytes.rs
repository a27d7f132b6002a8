//! Numbers and byte strings.
use vstd::prelude::*;

use crate::bytes::{has_at, joined, le16, le32, le64, u16_at, u32_at, u64_at};

verus! {

/// The number that `count` bytes from `at` on write, the low byte first.
pub open spec fn number(data: Seq<u8>, at: int, count: nat) -> int
    decreases count,
{
    if count == 0 {
        0
    } else {
        data[at] as int + 256 * number(data, at + 1, (count - 1) as nat)
    }
}

/// A number is stored in as many bytes as its type has, the low byte first.
pub proof fn numbers_are_stored_low_byte_first(a: u16, b: u32, c: u64)
    ensures
        le16(a).len() == 2 && number(le16(a), 0, 2) == a,
        le32(b).len() == 4 && number(le32(b), 0, 4) == b,
        le64(c).len() == 8 && number(le64(c), 0, 8) == c,
{
    reveal_with_fuel(number, 9);
    let low = (c % 0x1_0000_0000) as u32;
    let high = (c / 0x1_0000_0000) as u32;
    let bytes = le64(c);
    assert(forall|i: int| 0 <= i < 4 ==> bytes[i] == le32(low)[i]);
    assert(forall|i: int| 0 <= i < 4 ==> bytes[4 + i] == le32(high)[i]);
    assert(c == low + 0x1_0000_0000 * high);
}

/// A number is read from as many bytes as its type has, the low byte first.
pub proof fn numbers_are_read_low_byte_first(data: Seq<u8>, at: int)
    ensures
        u16_at(data, at) == number(data, at, 2),
        u32_at(data, at) == number(data, at, 4),
        u64_at(data, at) == number(data, at, 8),
{
    reveal_with_fuel(number, 9);
}

/// A part stands at a place if each of its bytes does, and only then.
pub proof fn parts_stand_byte_by_byte(data: Seq<u8>, at: int, part: Seq<u8>)
    ensures
        has_at(data, at, part) == (0 <= at && at + part.len() <= data.len() && forall|i: int|
            0 <= i < part.len() ==> data[at + i] == #[trigger] part[i]),
{
    if 0 <= at && at + part.len() <= data.len() {
        let piece = data.subrange(at, at + part.len());
        if piece == part {
            assert forall|i: int| 0 <= i < part.len() implies data[at + i] == #[trigger] part[i] by {
                assert(piece[i] == data[at + i]);
            }
        }
        if forall|i: int| 0 <= i < part.len() ==> data[at + i] == #[trigger] part[i] {
            assert(piece =~= part);
        }
    }
}

/// Nothing joined is nothing, and a part in front of others stays in front of what they make up.
pub proof fn joining_keeps_the_order(part: Seq<u8>, rest: Seq<Seq<u8>>)
    ensures
        joined(Seq::empty()) == Seq::<u8>::empty(),
        joined(seq![part] + rest) == part + joined(rest),
    decreases rest.len(),
{
    if rest.len() == 0 {
        assert((seq![part] + rest).drop_last() =~= Seq::<Seq<u8>>::empty());
        assert((seq![part] + rest).last() == part);
        assert(joined(Seq::empty()) == Seq::<u8>::empty());
        assert(joined(rest) =~= Seq::<u8>::empty());
        assert(joined(seq![part] + rest) =~= part + joined(rest));
    } else {
        let fewer = rest.drop_last();
        joining_keeps_the_order(part, fewer);
        assert((seq![part] + rest).drop_last() =~= seq![part] + fewer);
        assert((seq![part] + rest).last() == rest.last());
        assert(joined(seq![part] + rest) =~= part + joined(rest));
    }
}

/// What two bytes can say of a number is what is left of it by 2^16.
pub proof fn lemma_low_bytes(value: u32)
    ensures
        value as u16 == value % 0x1_0000,
{
    assert(value as u16 == value % 0x1_0000) by (bit_vector);
}

} // verus!
