//! The wire layout of messages: little-endian integers, variable-length
//! integers, length-prefixed texts and lists of texts.
//!
//! Every message is a plain concatenation of its fields in declaration
//! order. A text is its length in bytes followed by its UTF-8 bytes; a list
//! is its length followed by its items. Lengths and integers are written as
//! variable-length integers: a value up to 250 is one byte; a larger one is
//! a marker byte (251, 252 or 253) followed by the value in 2, 4 or 8
//! little-endian bytes.

use crate::text::string_from_utf8;
use vstd::prelude::*;
use vstd::slice::{slice_subrange, slice_to_vec};
use vstd::string::StringSliceAdditionalSpecFns;
use vstd::utf8::*;

verus! {

/// `256` to the power `k`.
pub open spec fn pow256(k: nat) -> nat
    decreases k,
{
    if k == 0 {
        1
    } else {
        256 * pow256((k - 1) as nat)
    }
}

/// The `width` low bytes of `n`, least significant first.
pub open spec fn le_bytes(n: nat, width: nat) -> Seq<u8>
    decreases width,
{
    if width == 0 {
        Seq::empty()
    } else {
        seq![(n % 256) as u8] + le_bytes(n / 256, (width - 1) as nat)
    }
}

/// The number that `b` holds, least significant byte first.
pub open spec fn le_value(b: Seq<u8>) -> nat
    decreases b.len(),
{
    if b.len() == 0 {
        0
    } else {
        b[0] as nat + 256 * le_value(b.drop_first())
    }
}

/// The variable-length form of an integer.
pub open spec fn varint(n: u64) -> Seq<u8> {
    if n <= 250 {
        seq![n as u8]
    } else if n <= 0xFFFF {
        seq![251u8] + le_bytes(n as nat, 2)
    } else if n <= 0xFFFF_FFFF {
        seq![252u8] + le_bytes(n as nat, 4)
    } else {
        seq![253u8] + le_bytes(n as nat, 8)
    }
}

/// How many bytes a variable-length integer takes when its first byte is
/// `marker`; 0 when no integer starts with that byte.
pub open spec fn varint_width(marker: u8) -> int {
    if marker <= 250 {
        1
    } else if marker == 251 {
        3
    } else if marker == 252 {
        5
    } else if marker == 253 {
        9
    } else {
        0
    }
}

/// The integer at the start of `b` and the number of bytes it takes.
pub open spec fn read_varint(b: Seq<u8>) -> Option<(u64, int)> {
    if b.len() == 0 {
        None
    } else {
        let width = varint_width(b[0]);
        if width == 0 || b.len() < width {
            None
        } else if width == 1 {
            Some((b[0] as u64, 1))
        } else {
            Some((le_value(b.subrange(1, width)) as u64, width))
        }
    }
}

/// The wire form of a text.
#[verifier::opaque]
pub open spec fn wire_text(s: Seq<char>) -> Seq<u8> {
    varint(encode_utf8(s).len() as u64) + encode_utf8(s)
}

/// The text at the start of `b` and the number of bytes it takes.
#[verifier::opaque]
pub open spec fn read_text(b: Seq<u8>) -> Option<(Seq<char>, int)> {
    match read_varint(b) {
        Some((n, used)) => {
            if used + n <= b.len() && valid_utf8(b.subrange(used, used + n)) {
                Some((decode_utf8(b.subrange(used, used + n)), used + n))
            } else {
                None
            }
        },
        None => None,
    }
}

/// The wire forms of texts, one after the other.
pub open spec fn wire_texts(items: Seq<Seq<char>>) -> Seq<u8>
    decreases items.len(),
{
    if items.len() == 0 {
        Seq::empty()
    } else {
        wire_text(items.first()) + wire_texts(items.drop_first())
    }
}

/// The wire form of a list of texts.
#[verifier::opaque]
pub open spec fn wire_list(items: Seq<Seq<char>>) -> Seq<u8> {
    varint(items.len() as u64) + wire_texts(items)
}

/// The `count` texts at the start of `b` and the number of bytes they take.
pub open spec fn read_texts(b: Seq<u8>, count: nat) -> Option<(Seq<Seq<char>>, int)>
    decreases count,
{
    if count == 0 {
        Some((Seq::empty(), 0))
    } else {
        match read_text(b) {
            Some((first, used)) => match read_texts(b.skip(used), (count - 1) as nat) {
                Some((rest, more)) => Some((seq![first] + rest, used + more)),
                None => None,
            },
            None => None,
        }
    }
}

/// The list of texts at the start of `b` and the number of bytes it takes.
#[verifier::opaque]
pub open spec fn read_list(b: Seq<u8>) -> Option<(Seq<Seq<char>>, int)> {
    match read_varint(b) {
        Some((count, used)) => match read_texts(b.skip(used), count as nat) {
            Some((items, more)) => Some((items, used + more)),
            None => None,
        },
        None => None,
    }
}

/// The texts that a list of strings holds.
pub open spec fn texts_of(items: Seq<String>) -> Seq<Seq<char>> {
    Seq::new(items.len(), |i: int| items[i]@)
}

/// What reading gives when `done`, read in `used` bytes, is followed by
/// what `rest` stands for.
pub open spec fn read_after(
    done: Seq<Seq<char>>,
    used: int,
    rest: Option<(Seq<Seq<char>>, int)>,
) -> Option<(Seq<Seq<char>>, int)> {
    match rest {
        Some((items, more)) => Some((done + items, used + more)),
        None => None,
    }
}

/// Whether the length of a text fits the length prefix.
pub open spec fn text_fits(s: Seq<char>) -> bool {
    encode_utf8(s).len() <= u64::MAX
}

/// Whether a list and each of its texts fit their length prefixes.
pub open spec fn list_fits(items: Seq<Seq<char>>) -> bool {
    &&& items.len() <= u64::MAX
    &&& forall|i: int| 0 <= i < items.len() ==> text_fits(#[trigger] items[i])
}

/// The powers of 256 up to the eighth.
pub proof fn lemma_pow256()
    ensures
        pow256(0) == 1,
        pow256(1) == 0x100,
        pow256(2) == 0x1_0000,
        pow256(3) == 0x100_0000,
        pow256(4) == 0x1_0000_0000,
        pow256(5) == 0x100_0000_0000,
        pow256(6) == 0x1_0000_0000_0000,
        pow256(7) == 0x100_0000_0000_0000,
        pow256(8) == 0x1_0000_0000_0000_0000,
{
    reveal_with_fuel(pow256, 10);
}

/// Little-endian bytes hold the number they were made from.
pub proof fn lemma_le_round_trip(n: nat, width: nat)
    requires
        n < pow256(width),
    ensures
        le_bytes(n, width).len() == width,
        le_value(le_bytes(n, width)) == n,
    decreases width,
{
    if width > 0 {
        lemma_le_round_trip(n / 256, (width - 1) as nat);
        assert(le_bytes(n, width).drop_first() =~= le_bytes(n / 256, (width - 1) as nat));
    }
}

/// A number read from `b` is below `256` to the power of `b`'s length.
pub proof fn lemma_le_value_bound(b: Seq<u8>)
    ensures
        le_value(b) < pow256(b.len()),
    decreases b.len(),
{
    if b.len() > 0 {
        lemma_le_value_bound(b.drop_first());
    }
}

/// A variable-length integer is read back, whatever follows it.
pub proof fn lemma_varint_round_trip(n: u64, tail: Seq<u8>)
    ensures
        read_varint(varint(n) + tail) == Some((n, varint(n).len() as int)),
{
    let b = varint(n) + tail;
    lemma_pow256();
    if n <= 250 {
    } else if n <= 0xFFFF {
        lemma_le_round_trip(n as nat, 2);
        assert(b.subrange(1, 3) =~= le_bytes(n as nat, 2));
    } else if n <= 0xFFFF_FFFF {
        lemma_le_round_trip(n as nat, 4);
        assert(b.subrange(1, 5) =~= le_bytes(n as nat, 4));
    } else {
        lemma_le_round_trip(n as nat, 8);
        assert(b.subrange(1, 9) =~= le_bytes(n as nat, 8));
    }
}

/// A text is read back, whatever follows it.
pub proof fn lemma_text_round_trip(s: Seq<char>, tail: Seq<u8>)
    requires
        text_fits(s),
    ensures
        read_text(wire_text(s) + tail) == Some((s, wire_text(s).len() as int)),
{
    reveal(wire_text);
    reveal(read_text);
    let body = encode_utf8(s);
    let n = body.len() as u64;
    let b = wire_text(s) + tail;
    lemma_varint_round_trip(n, body + tail);
    assert(b =~= varint(n) + (body + tail));
    let used = varint(n).len() as int;
    assert(b.subrange(used, used + n) =~= body);
    encode_utf8_valid_utf8(s);
    encode_utf8_decode_utf8(s);
}

/// Texts are read back one after the other, whatever follows them.
pub proof fn lemma_texts_round_trip(items: Seq<Seq<char>>, tail: Seq<u8>)
    requires
        forall|i: int| 0 <= i < items.len() ==> text_fits(#[trigger] items[i]),
    ensures
        read_texts(wire_texts(items) + tail, items.len()) == Some(
            (items, wire_texts(items).len() as int),
        ),
    decreases items.len(),
{
    if items.len() > 0 {
        let first = items.first();
        let rest = items.drop_first();
        let b = wire_texts(items) + tail;
        assert(text_fits(items[0]));
        assert forall|i: int| 0 <= i < rest.len() implies text_fits(#[trigger] rest[i]) by {
            assert(rest[i] == items[i + 1]);
        }
        lemma_text_round_trip(first, wire_texts(rest) + tail);
        assert(b =~= wire_text(first) + (wire_texts(rest) + tail));
        assert(b.skip(wire_text(first).len() as int) =~= wire_texts(rest) + tail);
        lemma_texts_round_trip(rest, tail);
        assert(seq![first] + rest =~= items);
    } else {
        assert(Seq::<Seq<char>>::empty() =~= items);
    }
}

/// A list of texts is read back, whatever follows it.
pub proof fn lemma_list_round_trip(items: Seq<Seq<char>>, tail: Seq<u8>)
    requires
        list_fits(items),
    ensures
        read_list(wire_list(items) + tail) == Some((items, wire_list(items).len() as int)),
{
    reveal(wire_list);
    reveal(read_list);
    let n = items.len() as u64;
    let b = wire_list(items) + tail;
    lemma_varint_round_trip(n, wire_texts(items) + tail);
    assert(b =~= varint(n) + (wire_texts(items) + tail));
    assert(b.skip(varint(n).len() as int) =~= wire_texts(items) + tail);
    lemma_texts_round_trip(items, tail);
}

/// The number held by `bytes[pos..pos + width]`, least significant byte
/// first.
pub(crate) fn le_number(bytes: &[u8], pos: usize, width: usize) -> (v: u64)
    requires
        width <= 8,
        pos + width <= bytes.len(),
    ensures
        v == le_value(bytes@.subrange(pos as int, pos + width)),
{
    let mut v: u64 = 0;
    let mut i: usize = width;
    while i > 0
        invariant
            i <= width <= 8,
            pos + width <= bytes.len(),
            v == le_value(bytes@.subrange(pos + i, pos + width)),
        decreases i,
    {
        proof {
            let tail = bytes@.subrange(pos + i, pos + width);
            let next = bytes@.subrange(pos + i - 1, pos + width);
            lemma_le_value_bound(tail);
            lemma_pow256();
            assert(next.drop_first() =~= tail);
            assert(next[0] == bytes@[pos + i - 1]);
        }
        i -= 1;
        v = v * 256 + bytes[pos + i] as u64;
    }
    v
}

/// Appends the `width` low bytes of `n`, least significant first.
pub(crate) fn put_le(out: &mut Vec<u8>, n: u64, width: usize)
    requires
        width <= 8,
    ensures
        final(out)@ == old(out)@ + le_bytes(n as nat, width as nat),
{
    let mut v: u64 = n;
    let mut i: usize = 0;
    assert(out@ + le_bytes(n as nat, width as nat) =~= old(out)@ + le_bytes(
        n as nat,
        width as nat,
    ));
    while i < width
        invariant
            i <= width,
            out@ + le_bytes(v as nat, (width - i) as nat) == old(out)@ + le_bytes(
                n as nat,
                width as nat,
            ),
        decreases width - i,
    {
        let ghost before = out@;
        let low: u8 = (v % 256) as u8;
        out.push(low);
        proof {
            let rest = le_bytes((v / 256) as nat, (width - i - 1) as nat);
            assert(before + (seq![low] + rest) =~= before.push(low) + rest);
        }
        v = v / 256;
        i += 1;
    }
    assert(out@ + Seq::<u8>::empty() =~= out@);
}

/// Appends the variable-length form of `n`.
pub fn put_varint(out: &mut Vec<u8>, n: u64)
    ensures
        final(out)@ == old(out)@ + varint(n),
{
    let ghost before = out@;
    if n <= 250 {
        out.push(n as u8);
        assert(out@ =~= before + varint(n));
    } else if n <= 0xFFFF {
        out.push(251);
        put_le(out, n, 2);
        assert(out@ =~= before + varint(n));
    } else if n <= 0xFFFF_FFFF {
        out.push(252);
        put_le(out, n, 4);
        assert(out@ =~= before + varint(n));
    } else {
        out.push(253);
        put_le(out, n, 8);
        assert(out@ =~= before + varint(n));
    }
}

/// Appends the wire form of `text`.
pub fn put_text(out: &mut Vec<u8>, text: &str)
    ensures
        final(out)@ == old(out)@ + wire_text(text@),
{
    reveal(wire_text);
    let ghost before = out@;
    let bytes = text.as_bytes();
    put_varint(out, bytes.len() as u64);
    let ghost head = out@;
    let mut i: usize = 0;
    while i < bytes.len()
        invariant
            i <= bytes.len(),
            out@ == head + bytes@.take(i as int),
        decreases bytes.len() - i,
    {
        out.push(bytes[i]);
        i += 1;
        assert(out@ =~= head + bytes@.take(i as int));
    }
    assert(bytes@.take(bytes.len() as int) =~= bytes@);
    assert(out@ =~= before + wire_text(text@));
}

/// Reads the variable-length integer at `pos`; gives it with the position
/// after it.
pub fn take_varint(bytes: &[u8], pos: usize) -> (r: Option<(u64, usize)>)
    ensures
        match r {
            Some((n, next)) => pos < next <= bytes.len() && read_varint(bytes@.skip(pos as int))
                == Some((n, next - pos)),
            None => pos > bytes.len() || read_varint(bytes@.skip(pos as int)) is None,
        },
{
    let ghost b = bytes@.skip(pos as int);
    if pos >= bytes.len() {
        return None;
    }
    let marker = bytes[pos];
    let width: usize = if marker <= 250 {
        1
    } else if marker == 251 {
        3
    } else if marker == 252 {
        5
    } else if marker == 253 {
        9
    } else {
        0
    };
    assert(b[0] == marker);
    if width == 0 || bytes.len() - pos < width {
        return None;
    }
    if width == 1 {
        return Some((marker as u64, pos + 1));
    }
    let n = le_number(bytes, pos + 1, width - 1);
    proof {
        assert(b.subrange(1, width as int) =~= bytes@.subrange(pos + 1, pos + width));
        lemma_le_value_bound(b.subrange(1, width as int));
        lemma_pow256();
    }
    Some((n, pos + width))
}

/// Reads the text at `pos`; gives it with the position after it.
pub fn take_text(bytes: &[u8], pos: usize) -> (r: Option<(String, usize)>)
    ensures
        match r {
            Some((s, next)) => pos < next <= bytes.len() && read_text(bytes@.skip(pos as int))
                == Some((s@, next - pos)),
            None => pos > bytes.len() || read_text(bytes@.skip(pos as int)) is None,
        },
{
    let ghost b = bytes@.skip(pos as int);
    proof {
        reveal(read_text);
    }
    match take_varint(bytes, pos) {
        None => None,
        Some((n, start)) => {
            if n > (bytes.len() - start) as u64 {
                return None;
            }
            let end = start + n as usize;
            let body = slice_to_vec(slice_subrange(bytes, start, end));
            assert(body@ =~= b.subrange(start - pos, start - pos + n));
            match string_from_utf8(body) {
                Ok(s) => {
                    proof {
                        encode_utf8_decode_utf8(s@);
                    }
                    Some((s, end))
                },
                Err(_) => None,
            }
        },
    }
}

/// Reads the list of texts at `pos`; gives it with the position after it.
pub fn take_list(bytes: &[u8], pos: usize) -> (r: Option<(Vec<String>, usize)>)
    ensures
        match r {
            Some((items, next)) => pos < next <= bytes.len() && read_list(bytes@.skip(pos as int))
                == Some((texts_of(items@), next - pos)),
            None => pos > bytes.len() || read_list(bytes@.skip(pos as int)) is None,
        },
{
    let ghost b = bytes@.skip(pos as int);
    proof {
        reveal(read_list);
    }
    let (count, start) = match take_varint(bytes, pos) {
        None => { return None; },
        Some(head) => head,
    };
    let ghost body = bytes@.skip(start as int);
    assert(b.skip(start - pos) =~= body);
    let mut items: Vec<String> = Vec::new();
    let mut at: usize = start;
    let mut i: u64 = 0;
    assert(body.skip(0) =~= body);
    assert(texts_of(items@) + Seq::<Seq<char>>::empty() =~= Seq::<Seq<char>>::empty());
    assert(read_texts(body, count as nat) == read_after(
        texts_of(items@),
        0,
        read_texts(body, count as nat),
    )) by {
        match read_texts(body, count as nat) {
            Some((all, more)) => {
                assert(texts_of(items@) + all =~= all);
            },
            None => {},
        }
    }
    while i < count
        invariant
            start <= at <= bytes.len(),
            i <= count,
            pos <= start,
            body == bytes@.skip(start as int),
            read_varint(bytes@.skip(pos as int)) == Some((count, start - pos)),
            bytes@.skip(pos as int).skip(start - pos) == body,
            read_texts(body, count as nat) == read_after(
                texts_of(items@),
                at - start,
                read_texts(bytes@.skip(at as int), (count - i) as nat),
            ),
        decreases count - i,
    {
        let ghost here = bytes@.skip(at as int);
        let ghost before = texts_of(items@);
        match take_text(bytes, at) {
            None => {
                proof {
                    reveal(read_list);
                }
                return None;
            },
            Some((s, next)) => {
                proof {
                    assert(here.skip(next - at) =~= bytes@.skip(next as int));
                    match read_texts(bytes@.skip(next as int), (count - i - 1) as nat) {
                        Some((rest, more)) => {
                            assert(before + (seq![s@] + rest) =~= before.push(s@) + rest);
                        },
                        None => {},
                    }
                }
                items.push(s);
                assert(texts_of(items@) =~= before.push(s@));
                at = next;
                i += 1;
            },
        }
    }
    assert(texts_of(items@) + Seq::<Seq<char>>::empty() =~= texts_of(items@));
    proof {
        reveal(read_list);
    }
    Some((items, at))
}

} // verus!
