//! Little-endian fields and byte strings, as every format here stores them.
use vstd::prelude::*;
use vstd::slice::*;

verus! {

/// The two bytes that store `value`, the low byte first.
pub open spec fn le16(value: u16) -> Seq<u8> {
    seq![(value % 256) as u8, (value / 256) as u8]
}

/// The four bytes that store `value`, the low byte first.
pub open spec fn le32(value: u32) -> Seq<u8> {
    seq![
        (value % 256) as u8,
        (value / 256 % 256) as u8,
        (value / 65536 % 256) as u8,
        (value / 16777216) as u8,
    ]
}

/// The eight bytes that store `value`, the low byte first.
pub open spec fn le64(value: u64) -> Seq<u8> {
    le32((value % 0x1_0000_0000) as u32) + le32((value / 0x1_0000_0000) as u32)
}

/// The 16-bit number stored at `at`.
pub open spec fn u16_at(data: Seq<u8>, at: int) -> u16 {
    (data[at] + 256 * data[at + 1]) as u16
}

/// The 32-bit number stored at `at`.
pub open spec fn u32_at(data: Seq<u8>, at: int) -> u32 {
    (data[at] + 256 * data[at + 1] + 65536 * data[at + 2] + 16777216 * data[at + 3]) as u32
}

/// The 64-bit number stored at `at`.
pub open spec fn u64_at(data: Seq<u8>, at: int) -> u64 {
    (u32_at(data, at) + 0x1_0000_0000 * u32_at(data, at + 4)) as u64
}

/// Whether `part` stands in `data` from `at` on.
pub open spec fn has_at(data: Seq<u8>, at: int, part: Seq<u8>) -> bool {
    &&& 0 <= at
    &&& at + part.len() <= data.len()
    &&& data.subrange(at, at + part.len()) == part
}

/// All the parts, one after the other.
pub open spec fn joined(parts: Seq<Seq<u8>>) -> Seq<u8>
    decreases parts.len(),
{
    if parts.len() == 0 {
        Seq::empty()
    } else {
        joined(parts.drop_last()) + parts.last()
    }
}

/// A stored 16-bit number reads back as itself.
pub proof fn lemma_u16_at(data: Seq<u8>, at: int, value: u16)
    requires
        has_at(data, at, le16(value)),
    ensures
        u16_at(data, at) == value,
{
    let part = data.subrange(at, at + 2);
    assert(part[0] == data[at] && part[1] == data[at + 1]);
}

/// A stored 32-bit number reads back as itself.
pub proof fn lemma_u32_at(data: Seq<u8>, at: int, value: u32)
    requires
        has_at(data, at, le32(value)),
    ensures
        u32_at(data, at) == value,
{
    let part = data.subrange(at, at + 4);
    assert(part[0] == data[at] && part[1] == data[at + 1]);
    assert(part[2] == data[at + 2] && part[3] == data[at + 3]);
}

/// A stored 64-bit number reads back as itself.
pub proof fn lemma_u64_at(data: Seq<u8>, at: int, value: u64)
    requires
        has_at(data, at, le64(value)),
    ensures
        u64_at(data, at) == value,
{
    lemma_has_at_parts(
        data,
        at,
        le32((value % 0x1_0000_0000) as u32),
        le32((value / 0x1_0000_0000) as u32),
    );
    lemma_u32_at(data, at, (value % 0x1_0000_0000) as u32);
    lemma_u32_at(data, at + 4, (value / 0x1_0000_0000) as u32);
}

/// Where two parts stand in a row, each stands at its own place.
pub proof fn lemma_has_at_parts(data: Seq<u8>, at: int, first: Seq<u8>, second: Seq<u8>)
    requires
        has_at(data, at, first + second),
    ensures
        has_at(data, at, first),
        has_at(data, at + first.len(), second),
{
    let whole = data.subrange(at, at + first.len() + second.len());
    assert(whole == first + second);
    assert forall|i: int| 0 <= i < first.len() implies data[at + i] == first[i] by {
        assert(whole[i] == data[at + i]);
    }
    assert forall|i: int| 0 <= i < second.len() implies data[at + first.len() + i]
        == second[i] by {
        assert(whole[first.len() + i] == data[at + first.len() + i]);
    }
    assert(data.subrange(at, at + first.len()) =~= first);
    assert(data.subrange(at + first.len(), at + first.len() + second.len()) =~= second);
}

/// A part keeps its place when more is put in front or behind.
pub proof fn lemma_has_at_within(front: Seq<u8>, part: Seq<u8>, back: Seq<u8>)
    ensures
        has_at(front + part + back, front.len() as int, part),
{
    assert((front + part + back).subrange(front.len() as int, front.len() as int + part.len()) =~= part);
}

/// A part of a part stands in the whole.
pub proof fn lemma_has_at_nested(data: Seq<u8>, at: int, part: Seq<u8>, inner: int, piece: Seq<u8>)
    requires
        has_at(data, at, part),
        has_at(part, inner, piece),
    ensures
        has_at(data, at + inner, piece),
{
    assert forall|i: int| 0 <= i < piece.len() implies data[at + inner + i] == piece[i] by {
        assert(part.subrange(inner, inner + piece.len())[i] == part[inner + i]);
        assert(data.subrange(at, at + part.len())[inner + i] == data[at + inner + i]);
    }
    assert(data.subrange(at + inner, at + inner + piece.len()) =~= piece);
}

/// The first `i` parts, then part `i`, then the others make up the whole.
pub proof fn lemma_joined_at(parts: Seq<Seq<u8>>, i: int)
    requires
        0 <= i < parts.len(),
    ensures
        has_at(joined(parts), joined(parts.take(i)).len() as int, parts[i]),
        joined(parts.take(i + 1)) == joined(parts.take(i)) + parts[i],
        joined(parts.take(i + 1)).len() <= joined(parts).len(),
    decreases parts.len(),
{
    assert(parts.take(i + 1).drop_last() =~= parts.take(i));
    if i == parts.len() - 1 {
        assert(parts.take(i) =~= parts.drop_last());
        assert(parts.take(i + 1) =~= parts);
        lemma_has_at_within(joined(parts.drop_last()), parts.last(), Seq::empty());
        assert(joined(parts) + Seq::<u8>::empty() =~= joined(parts));
    } else {
        let init = parts.drop_last();
        lemma_joined_at(init, i);
        assert(init.take(i) =~= parts.take(i));
        assert(init.take(i + 1) =~= parts.take(i + 1));
        lemma_has_at_within(Seq::empty(), joined(init), parts.last());
        assert(Seq::<u8>::empty() + joined(init) + parts.last() =~= joined(parts));
        lemma_has_at_nested(
            joined(parts),
            0,
            joined(init),
            joined(parts.take(i)).len() as int,
            parts[i],
        );
    }
}

/// Putting one more part behind the others.
pub proof fn lemma_joined_push(parts: Seq<Seq<u8>>, part: Seq<u8>)
    ensures
        joined(parts.push(part)) == joined(parts) + part,
{
    assert(parts.push(part).drop_last() =~= parts);
}

/// Appending two lists one after the other is appending the list of both at once.
pub proof fn two_appends_are_one(out: Seq<u8>, first: Seq<Seq<u8>>, second: Seq<Seq<u8>>)
    ensures
        out + joined(first) + joined(second) == out + joined(first + second),
    decreases second.len(),
{
    if second.len() == 0 {
        assert(first + second =~= first);
        assert(out + joined(first) + joined(second) =~= out + joined(first));
    } else {
        let fewer = second.drop_last();
        let last = second.last();
        two_appends_are_one(Seq::empty(), first, fewer);
        assert(Seq::<u8>::empty() + joined(first) + joined(fewer) =~= joined(first) + joined(fewer));
        assert(Seq::<u8>::empty() + joined(first + fewer) =~= joined(first + fewer));
        lemma_joined_push(first + fewer, last);
        lemma_joined_push(fewer, last);
        assert((first + fewer).push(last) =~= first + second);
        assert(fewer.push(last) =~= second);
        assert(out + joined(first) + (joined(fewer) + last) =~= out + (joined(first) + joined(fewer)
            + last));
    }
}

/// Parts of one length make up a whole of that many times the length.
pub proof fn lemma_joined_len(parts: Seq<Seq<u8>>, size: nat)
    requires
        forall|i: int| 0 <= i < parts.len() ==> (#[trigger] parts[i]).len() == size,
    ensures
        joined(parts).len() == parts.len() * size,
    decreases parts.len(),
{
    if parts.len() > 0 {
        lemma_joined_len(parts.drop_last(), size);
        assert(parts.len() * size == (parts.len() - 1) * size + size) by (nonlinear_arith);
    } else {
        assert(0 * size == 0) by (nonlinear_arith);
    }
}

/// Parts of one length stand at multiples of it.
pub proof fn lemma_even_parts(data: Seq<u8>, start: int, parts: Seq<Seq<u8>>, size: nat, i: int)
    requires
        has_at(data, start, joined(parts)),
        forall|k: int| 0 <= k < parts.len() ==> (#[trigger] parts[k]).len() == size,
        0 <= i < parts.len(),
    ensures
        has_at(data, start + i * size, parts[i]),
{
    lemma_joined_at(parts, i);
    lemma_joined_len(parts.take(i), size);
    lemma_has_at_nested(data, start, joined(parts), i * size, parts[i]);
}

/// Puts `part` behind the bytes of `out`.
pub fn push_bytes(out: &mut Vec<u8>, part: &[u8])
    ensures
        final(out)@ == old(out)@ + part@,
{
    out.extend_from_slice(part);
    assert(out@ =~= old(out)@ + part@);
}

/// Stores a 16-bit number behind the bytes of `out`.
pub fn push_u16(out: &mut Vec<u8>, value: u16)
    ensures
        final(out)@ == old(out)@ + le16(value),
{
    out.push((value % 256) as u8);
    out.push((value / 256) as u8);
    assert(out@ =~= old(out)@ + le16(value));
}

/// Stores a 32-bit number behind the bytes of `out`.
pub fn push_u32(out: &mut Vec<u8>, value: u32)
    ensures
        final(out)@ == old(out)@ + le32(value),
{
    out.push((value % 256) as u8);
    out.push((value / 256 % 256) as u8);
    out.push((value / 65536 % 256) as u8);
    out.push((value / 16777216) as u8);
    assert(out@ =~= old(out)@ + le32(value));
}

/// Stores a 64-bit number behind the bytes of `out`.
pub fn push_u64(out: &mut Vec<u8>, value: u64)
    ensures
        final(out)@ == old(out)@ + le64(value),
{
    push_u32(out, (value % 0x1_0000_0000) as u32);
    push_u32(out, (value / 0x1_0000_0000) as u32);
    assert(out@ =~= old(out)@ + le64(value));
}

/// Reads the 16-bit number stored at `at`.
pub fn read_u16(data: &[u8], at: usize) -> (value: u16)
    requires
        at + 2 <= data@.len(),
    ensures
        value == u16_at(data@, at as int),
{
    data[at] as u16 + 256 * (data[at + 1] as u16)
}

/// Reads the 32-bit number stored at `at`.
pub fn read_u32(data: &[u8], at: usize) -> (value: u32)
    requires
        at + 4 <= data@.len(),
    ensures
        value == u32_at(data@, at as int),
{
    data[at] as u32 + 256 * (data[at + 1] as u32) + 65536 * (data[at + 2] as u32) + 16777216 * (
    data[at + 3] as u32)
}

/// Reads the 64-bit number stored at `at`.
pub fn read_u64(data: &[u8], at: usize) -> (value: u64)
    requires
        at + 8 <= data@.len(),
    ensures
        value == u64_at(data@, at as int),
{
    assert(data@.len() == data.len());
    read_u32(data, at) as u64 + 0x1_0000_0000 * (read_u32(data, at + 4) as u64)
}

/// A copy of the bytes from `from` up to `to`.
pub fn copy_range(data: &[u8], from: usize, to: usize) -> (part: Vec<u8>)
    requires
        from <= to <= data@.len(),
    ensures
        part@ == data@.subrange(from as int, to as int),
{
    slice_to_vec(slice_subrange(data, from, to))
}

/// Whether two byte strings are the same.
pub fn same_bytes(a: &[u8], b: &[u8]) -> (same: bool)
    ensures
        same == (a@ == b@),
{
    if a.len() != b.len() {
        return false;
    }
    let mut i: usize = 0;
    while i < a.len()
        invariant
            a@.len() == b@.len(),
            i <= a@.len(),
            forall|k: int| 0 <= k < i ==> a@[k] == b@[k],
        decreases a@.len() - i,
    {
        if a[i] != b[i] {
            return false;
        }
        i = i + 1;
    }
    assert(a@ =~= b@);
    true
}

/// Whether `part` stands in `data` from `at` on.
pub fn holds_at(data: &[u8], at: usize, part: &[u8]) -> (holds: bool)
    ensures
        holds == has_at(data@, at as int, part@),
{
    if at > data.len() || part.len() > data.len() - at {
        return false;
    }
    same_bytes(slice_subrange(data, at, at + part.len()), part)
}

} // verus!
