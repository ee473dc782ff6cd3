//! Decompression of chunked LZ streams.
//!
//! Compressed data is a series of chunks, each preceded by a 2-byte header: bit 15
//! marks the chunk compressed, the low 12 bits are `size - 1` of the bytes that
//! follow, and a zero header ends the stream. A compressed chunk is groups of "1 flag
//! byte + up to 8 tokens"; each flag bit selects a literal byte or a back-reference
//! whose length/offset bit-split widens as the chunk fills.
//!
//! This is a decoder in its own right. The contents of compressed files are expanded
//! elsewhere, by the LZNT1 codec that [`crate::data`] calls, whose back-references are
//! split differently.
//!
//! Every length and offset is validated against what has actually been produced, so
//! crafted compressed data cannot read out of bounds or expand without bound.

use vstd::prelude::*;
use crate::bitmap;
use crate::bytes;
use crate::error::NtfsError;

verus! {

/// Maximum bytes a single decompression may produce (1 GiB).
pub const MAX_OUTPUT: usize = 0x4000_0000;

/// The modulus that splits a back-reference into length and offset once `produced`
/// bytes of the chunk are there: the first of `modulus`, `2 * modulus`, .. that exceeds
/// `produced`.
pub open spec fn split_modulus(produced: int, modulus: int) -> int
    decreases
            (if modulus <= produced {
                produced - modulus + 1
            } else {
                0
            }),
{
    if modulus <= 0 || produced < modulus {
        modulus
    } else {
        split_modulus(produced, 2 * modulus)
    }
}

/// `out` followed by `length` bytes, each a copy of the one `offset` places before it.
pub open spec fn copied(out: Seq<u8>, offset: int, length: nat) -> Seq<u8>
    decreases length,
{
    if length == 0 {
        out
    } else {
        copied(out.push(out[out.len() - offset]), offset, (length - 1) as nat)
    }
}

/// The output after the rest of a chunk from `i` on. `bit` counts the tokens taken
/// under the flag byte `flags` (8 asks for a new flag byte), and the chunk's own output
/// begins at `start` of `out`.
pub open spec fn tokens_from(
    chunk: Seq<u8>,
    i: int,
    flags: u8,
    bit: int,
    start: int,
    out: Seq<u8>,
) -> Result<Seq<u8>, NtfsError>
    decreases chunk.len() - i,
{
    if i >= chunk.len() || i < 0 {
        Ok(out)
    } else if bit == 8 {
        tokens_from(chunk, i + 1, chunk[i], 0, start, out)
    } else if !flag_set(flags, bit) {
        if out.len() + 1 > MAX_OUTPUT {
            Err(NtfsError::BadCompression("output exceeds ceiling"))
        } else {
            tokens_from(chunk, i + 1, flags, bit + 1, start, out.push(chunk[i]))
        }
    } else {
        let token = bytes::u16_at(chunk, i) as int;
        let produced = out.len() - start;
        let modulus = split_modulus(produced, 0x10);
        let length = token % modulus + 3;
        let offset = token / modulus + 1;
        if i + 2 > chunk.len() {
            Err(NtfsError::BadCompression("truncated back-reference"))
        } else if produced == 0 {
            Err(NtfsError::BadCompression("back-reference at chunk start"))
        } else if offset > produced {
            Err(NtfsError::BadCompression("back-reference before chunk start"))
        } else if out.len() + length > MAX_OUTPUT {
            Err(NtfsError::BadCompression("output exceeds ceiling"))
        } else {
            tokens_from(
                chunk,
                i + 2,
                flags,
                bit + 1,
                start,
                copied(out, offset, length as nat),
            )
        }
    }
}

/// Whether bit `bit` of `flags` is set.
pub open spec fn flag_set(flags: u8, bit: int) -> bool {
    (flags as int / power(bit)) % 2 == 1
}

/// `2^bit`.
pub open spec fn power(bit: int) -> int
    decreases bit,
{
    if bit <= 0 {
        1
    } else {
        2 * power(bit - 1)
    }
}

/// How many bytes follow a chunk header.
pub open spec fn chunk_size(header: u16) -> int {
    header as int % 0x1000 + 1
}

/// The output after the chunks from `pos` on are appended to `out`.
pub open spec fn chunks_from(input: Seq<u8>, pos: int, out: Seq<u8>) -> Result<
    Seq<u8>,
    NtfsError,
>
    decreases input.len() - pos,
{
    let header = bytes::u16_at(input, pos);
    let end = pos + 2 + chunk_size(header);
    if pos + 2 > input.len() || header == 0 {
        Ok(out)
    } else if end > input.len() {
        Err(NtfsError::BadCompression("chunk extends past input"))
    } else {
        let chunk = input.subrange(pos + 2, end);
        if header >= 0x8000 {
            match tokens_from(chunk, 0, 0, 8, out.len() as int, out) {
                Err(e) => Err(e),
                Ok(next) => chunks_from(input, end, next),
            }
        } else if out.len() + chunk.len() > MAX_OUTPUT {
            Err(NtfsError::BadCompression("output exceeds ceiling"))
        } else {
            chunks_from(input, end, out + chunk)
        }
    }
}

/// What a compressed stream expands to.
pub open spec fn decompressed(input: Seq<u8>) -> Result<Seq<u8>, NtfsError> {
    chunks_from(input, 0, Seq::empty())
}

/// Decompresses a byte stream. File contents do not go through this function: see
/// [`crate::data::read_attribute_value`].
///
/// # Errors
///
/// [`NtfsError::BadCompression`] for a truncated chunk, a back-reference before the
/// chunk start, or output exceeding the safety ceiling.
pub fn decompress(input: &[u8]) -> (r: Result<Vec<u8>, NtfsError>)
    ensures
        match r {
            Ok(out) => decompressed(input@) == Ok::<Seq<u8>, NtfsError>(out@),
            Err(e) => decompressed(input@) == Err::<Seq<u8>, NtfsError>(e),
        },
{
    let mut out: Vec<u8> = Vec::new();
    let mut pos: usize = 0;
    while input.len() - pos >= 2
        invariant_except_break
            pos <= input.len(),
            out@.len() <= MAX_OUTPUT,
            decompressed(input@) == chunks_from(input@, pos as int, out@),
        ensures
            decompressed(input@) == Ok::<Seq<u8>, NtfsError>(out@),
        decreases input.len() - pos,
    {
        let header: u16 = bytes::le_u16(input, pos);
        if header == 0 {
            break;
        }
        let size: usize = (header % 0x1000) as usize + 1;
        if input.len() - pos - 2 < size {
            return Err(NtfsError::BadCompression("chunk extends past input"));
        }
        let chunk = vstd::slice::slice_subrange(input, pos + 2, pos + 2 + size);
        if header >= 0x8000 {
            match decompress_chunk(chunk, &mut out) {
                Ok(_) => {},
                Err(e) => {
                    return Err(e);
                },
            }
        } else {
            if MAX_OUTPUT - out.len() < size {
                return Err(NtfsError::BadCompression("output exceeds ceiling"));
            }
            bytes::append(&mut out, chunk);
        }
        pos = pos + 2 + size;
    }
    Ok(out)
}

/// Whether bit `bit` of `flags` is set.
fn is_flag_set(flags: u8, bit: u8) -> (r: bool)
    requires
        bit < 8,
    ensures
        r == flag_set(flags, bit as int),
{
    let mut divisor: u32 = 1;
    let mut i: u8 = 0;
    while i < bit
        invariant
            i <= bit < 8,
            divisor == power(i as int),
            divisor <= 0x80,
            i <= 7,
            i == 0 ==> divisor == 1,
            i == 1 ==> divisor == 2,
            i == 2 ==> divisor == 4,
            i == 3 ==> divisor == 8,
            i == 4 ==> divisor == 16,
            i == 5 ==> divisor == 32,
            i == 6 ==> divisor == 64,
            i == 7 ==> divisor == 128,
        decreases bit - i,
    {
        divisor = divisor * 2;
        i += 1;
    }
    (flags as u32 / divisor) % 2 == 1
}

/// The modulus for a back-reference when `produced` bytes of the chunk are there.
fn modulus_for(produced: usize) -> (r: u64)
    requires
        produced <= MAX_OUTPUT,
    ensures
        r == split_modulus(produced as int, 0x10),
        r >= 0x10,
{
    let mut modulus: u64 = 0x10;
    while modulus <= produced as u64
        invariant
            produced <= MAX_OUTPUT,
            0x10 <= modulus <= 0x1_0000_0000,
            modulus <= 2 * produced || modulus == 0x10,
            split_modulus(produced as int, 0x10) == split_modulus(produced as int, modulus as int),
        decreases 2 * produced - modulus,
    {
        modulus = modulus * 2;
    }
    modulus
}

/// Appends `length` bytes to `out`, each a copy of the one `offset` places before it.
fn copy_back(out: &mut Vec<u8>, offset: usize, length: usize)
    requires
        0 < offset <= old(out)@.len(),
        old(out)@.len() + length <= MAX_OUTPUT,
    ensures
        final(out)@ == copied(old(out)@, offset as int, length as nat),
        final(out)@.len() == old(out)@.len() + length,
{
    let mut left: usize = length;
    while left > 0
        invariant
            0 < offset <= out@.len(),
            left <= length,
            out@.len() + left == old(out)@.len() + length,
            out@.len() + left <= MAX_OUTPUT,
            copied(old(out)@, offset as int, length as nat) == copied(
                out@,
                offset as int,
                left as nat,
            ),
        decreases left,
    {
        let source: usize = out.len() - offset;
        let b: u8 = out[source];
        out.push(b);
        left -= 1;
    }
}

/// Decompresses one chunk, appending to `out`.
fn decompress_chunk(chunk: &[u8], out: &mut Vec<u8>) -> (r: Result<(), NtfsError>)
    requires
        old(out)@.len() <= MAX_OUTPUT,
    ensures
        match r {
            Ok(_) => tokens_from(chunk@, 0, 0, 8, old(out)@.len() as int, old(out)@) == Ok::<
                Seq<u8>,
                NtfsError,
            >(final(out)@) && final(out)@.len() <= MAX_OUTPUT,
            Err(e) => tokens_from(chunk@, 0, 0, 8, old(out)@.len() as int, old(out)@) == Err::<
                Seq<u8>,
                NtfsError,
            >(e),
        },
{
    let start: usize = out.len();
    let mut i: usize = 0;
    let mut flags: u8 = 0;
    let mut bit: u8 = 8;
    while i < chunk.len()
        invariant
            i <= chunk.len(),
            bit <= 8,
            start <= out@.len() <= MAX_OUTPUT,
            start == old(out)@.len(),
            tokens_from(chunk@, 0, 0, 8, start as int, old(out)@) == tokens_from(
                chunk@,
                i as int,
                flags,
                bit as int,
                start as int,
                out@,
            ),
        decreases chunk.len() - i,
    {
        if bit == 8 {
            flags = chunk[i];
            i += 1;
            bit = 0;
            continue;
        }
        if !is_flag_set(flags, bit) {
            if out.len() >= MAX_OUTPUT {
                return Err(NtfsError::BadCompression("output exceeds ceiling"));
            }
            out.push(chunk[i]);
            i += 1;
            bit += 1;
            continue;
        }
        if chunk.len() - i < 2 {
            return Err(NtfsError::BadCompression("truncated back-reference"));
        }
        let token: u64 = bytes::le_u16(chunk, i) as u64;
        let produced: usize = out.len() - start;
        if produced == 0 {
            return Err(NtfsError::BadCompression("back-reference at chunk start"));
        }
        let modulus: u64 = modulus_for(produced);
        proof {
            vstd::arithmetic::div_mod::lemma_fundamental_div_mod(token as int, modulus as int);
            vstd::arithmetic::div_mod::lemma_mod_bound(token as int, modulus as int);
            vstd::arithmetic::div_mod::lemma_mod_decreases(token as nat, modulus as nat);
            vstd::arithmetic::div_mod::lemma_div_is_ordered_by_denominator(
                token as int,
                1,
                modulus as int,
            );
        }
        let length: usize = (token % modulus) as usize + 3;
        let offset: usize = (token / modulus) as usize + 1;
        if offset > produced {
            return Err(NtfsError::BadCompression("back-reference before chunk start"));
        }
        if MAX_OUTPUT - out.len() < length {
            return Err(NtfsError::BadCompression("output exceeds ceiling"));
        }
        copy_back(out, offset, length);
        i += 2;
        bit += 1;
    }
    Ok(())
}

proof fn lemma_copied_length(out: Seq<u8>, offset: int, length: nat)
    ensures
        copied(out, offset, length).len() == out.len() + length,
        copied(out, offset, length).take(out.len() as int) == out,
    decreases length,
{
    if length > 0 {
        let next = out.push(out[out.len() - offset]);
        lemma_copied_length(next, offset, (length - 1) as nat);
        assert(copied(out, offset, length).take(out.len() as int) =~= copied(
            next,
            offset,
            (length - 1) as nat,
        ).take(next.len() as int).take(out.len() as int));
        assert(next.take(out.len() as int) =~= out);
    } else {
        assert(out.take(out.len() as int) =~= out);
    }
}

proof fn lemma_tokens_grow(
    chunk: Seq<u8>,
    i: int,
    flags: u8,
    bit: int,
    start: int,
    out: Seq<u8>,
)
    requires
        out.len() <= MAX_OUTPUT,
    ensures
        tokens_from(chunk, i, flags, bit, start, out) matches Ok(after) ==> out.len() <= after.len()
            <= MAX_OUTPUT && after.take(out.len() as int) == out,
    decreases chunk.len() - i,
{
    if i >= chunk.len() || i < 0 {
        assert(out.take(out.len() as int) =~= out);
    } else if bit == 8 {
        lemma_tokens_grow(chunk, i + 1, chunk[i], 0, start, out);
    } else if !flag_set(flags, bit) {
        if out.len() + 1 <= MAX_OUTPUT {
            let next = out.push(chunk[i]);
            lemma_tokens_grow(chunk, i + 1, flags, bit + 1, start, next);
            if let Ok(after) = tokens_from(chunk, i + 1, flags, bit + 1, start, next) {
                assert(after.take(out.len() as int) =~= after.take(next.len() as int).take(
                    out.len() as int,
                ));
                assert(next.take(out.len() as int) =~= out);
            }
        }
    } else {
        let token = bytes::u16_at(chunk, i) as int;
        let produced = out.len() - start;
        let modulus = split_modulus(produced, 0x10);
        let length = token % modulus + 3;
        let offset = token / modulus + 1;
        if i + 2 <= chunk.len() && produced != 0 && offset <= produced && out.len() + length
            <= MAX_OUTPUT {
            lemma_split_modulus_is_positive(produced, 0x10);
            vstd::arithmetic::div_mod::lemma_mod_bound(token, modulus);
            let next = copied(out, offset, length as nat);
            lemma_copied_length(out, offset, length as nat);
            lemma_tokens_grow(chunk, i + 2, flags, bit + 1, start, next);
            if let Ok(after) = tokens_from(chunk, i + 2, flags, bit + 1, start, next) {
                assert(after.take(out.len() as int) =~= after.take(next.len() as int).take(
                    out.len() as int,
                ));
            }
        }
    }
}

proof fn lemma_split_modulus_is_positive(produced: int, modulus: int)
    requires
        modulus > 0,
    ensures
        split_modulus(produced, modulus) > produced,
        split_modulus(produced, modulus) >= modulus,
    decreases
            (if modulus <= produced {
                produced - modulus + 1
            } else {
                0
            }),
{
    if produced >= modulus {
        lemma_split_modulus_is_positive(produced, 2 * modulus);
    }
}

proof fn lemma_chunks_grow(input: Seq<u8>, pos: int, out: Seq<u8>)
    requires
        0 <= pos,
        out.len() <= MAX_OUTPUT,
    ensures
        chunks_from(input, pos, out) matches Ok(after) ==> out.len() <= after.len() <= MAX_OUTPUT
            && after.take(out.len() as int) == out,
    decreases input.len() - pos,
{
    let header = bytes::u16_at(input, pos);
    let end = pos + 2 + chunk_size(header);
    if pos + 2 > input.len() || header == 0 {
        assert(out.take(out.len() as int) =~= out);
    } else if end <= input.len() {
        let chunk = input.subrange(pos + 2, end);
        if header >= 0x8000 {
            lemma_tokens_grow(chunk, 0, 0, 8, out.len() as int, out);
            if let Ok(next) = tokens_from(chunk, 0, 0, 8, out.len() as int, out) {
                lemma_chunks_grow(input, end, next);
                if let Ok(after) = chunks_from(input, end, next) {
                    assert(after.take(out.len() as int) =~= after.take(next.len() as int).take(
                        out.len() as int,
                    ));
                }
            }
        } else if out.len() + chunk.len() <= MAX_OUTPUT {
            let next = out + chunk;
            lemma_chunks_grow(input, end, next);
            if let Ok(after) = chunks_from(input, end, next) {
                assert(after.take(out.len() as int) =~= after.take(next.len() as int).take(
                    out.len() as int,
                ));
                assert(next.take(out.len() as int) =~= out);
            }
        }
    }
}

/// Whatever the input, decompression never yields more than `MAX_OUTPUT` bytes.
pub proof fn law_output_is_bounded(input: Seq<u8>)
    ensures
        decompressed(input) matches Ok(out) ==> out.len() <= 0x4000_0000,
{
    lemma_chunks_grow(input, 0, Seq::empty());
}

/// The stream that stores `data` as it is: one uncompressed chunk and an end marker.
pub open spec fn stored_stream(data: Seq<u8>) -> Seq<u8> {
    let header = 0x3000 + data.len() - 1;
    seq![(header % 0x100) as u8, (header / 0x100) as u8] + data + seq![0u8, 0u8]
}

/// A stored chunk reads back as the bytes that were stored.
pub proof fn law_stored_chunk_reads_back(data: Seq<u8>)
    requires
        0 < data.len() <= 0x1000,
    ensures
        decompressed(stored_stream(data)) == Ok::<Seq<u8>, NtfsError>(data),
{
    let input = stored_stream(data);
    let header = 0x3000 + data.len() - 1;
    assert(bytes::u16_at(input, 0) == header);
    assert(chunk_size(header as u16) == data.len());
    let end = 2 + data.len() as int;
    assert(input.subrange(2, end) =~= data);
    assert(Seq::<u8>::empty() + data =~= data);
    assert(input[end] == 0 && input[end + 1] == 0);
    assert(bytes::u16_at(input, end) == 0);
    reveal_with_fuel(chunks_from, 3);
    assert(chunks_from(input, end, data) == Ok::<Seq<u8>, NtfsError>(data));
}

/// Whether the bytes from `pos` on are whole chunks and nothing else.
pub open spec fn whole_chunks(input: Seq<u8>, pos: int) -> bool
    decreases input.len() - pos,
{
    let header = bytes::u16_at(input, pos);
    let end = pos + 2 + chunk_size(header);
    if pos >= input.len() {
        pos == input.len()
    } else {
        pos + 2 <= input.len() && header != 0 && end <= input.len() && whole_chunks(input, end)
    }
}

proof fn lemma_copied_after(pre: Seq<u8>, out: Seq<u8>, offset: int, length: nat)
    requires
        1 <= offset <= out.len(),
    ensures
        copied(pre + out, offset, length) == pre + copied(out, offset, length),
        copied(out, offset, length).len() == out.len() + length,
    decreases length,
{
    if length > 0 {
        let next = out.push(out[out.len() - offset]);
        assert((pre + out).push((pre + out)[(pre + out).len() - offset]) =~= pre + next);
        lemma_copied_after(pre, next, offset, (length - 1) as nat);
    }
}

/// What a chunk yields does not depend on what was produced before it.
proof fn lemma_tokens_after(
    pre: Seq<u8>,
    chunk: Seq<u8>,
    i: int,
    flags: u8,
    bit: int,
    start: int,
    out: Seq<u8>,
)
    requires
        0 <= start <= out.len(),
        tokens_from(chunk, i, flags, bit, start, out) is Ok,
    ensures
        tokens_from(chunk, i, flags, bit, start, out)->Ok_0.len() >= out.len(),
        pre.len() + tokens_from(chunk, i, flags, bit, start, out)->Ok_0.len() <= MAX_OUTPUT
            ==> tokens_from(chunk, i, flags, bit, pre.len() + start, pre + out) == Ok::<
            Seq<u8>,
            NtfsError,
        >(pre + tokens_from(chunk, i, flags, bit, start, out)->Ok_0),
    decreases chunk.len() - i,
{
    if 0 <= i < chunk.len() {
        if bit == 8 {
            lemma_tokens_after(pre, chunk, i + 1, chunk[i], 0, start, out);
        } else if !flag_set(flags, bit) {
            let next = out.push(chunk[i]);
            assert((pre + out).push(chunk[i]) =~= pre + next);
            lemma_tokens_after(pre, chunk, i + 1, flags, bit + 1, start, next);
        } else {
            let token = bytes::u16_at(chunk, i) as int;
            let modulus = split_modulus(out.len() - start, 0x10);
            let length = token % modulus + 3;
            let offset = token / modulus + 1;
            lemma_split_modulus_is_positive(out.len() - start, 0x10);
            assert(0 <= token % modulus && 0 <= token / modulus) by (nonlinear_arith)
                requires
                    0 <= token,
                    0 < modulus,
            ;
            lemma_copied_after(pre, out, offset, length as nat);
            let next = copied(out, offset, length as nat);
            lemma_tokens_after(pre, chunk, i + 2, flags, bit + 1, start, next);
        }
    }
}

/// What a stream yields does not depend on what was produced before it.
proof fn lemma_chunks_after(pre: Seq<u8>, input: Seq<u8>, pos: int, out: Seq<u8>)
    requires
        chunks_from(input, pos, out) is Ok,
    ensures
        chunks_from(input, pos, out)->Ok_0.len() >= out.len(),
        pre.len() + chunks_from(input, pos, out)->Ok_0.len() <= MAX_OUTPUT ==> chunks_from(
            input,
            pos,
            pre + out,
        ) == Ok::<Seq<u8>, NtfsError>(pre + chunks_from(input, pos, out)->Ok_0),
    decreases input.len() - pos,
{
    let header = bytes::u16_at(input, pos);
    let end = pos + 2 + chunk_size(header);
    if pos + 2 <= input.len() && header != 0 {
        let chunk = input.subrange(pos + 2, end);
        if header >= 0x8000 {
            let next = tokens_from(chunk, 0, 0, 8, out.len() as int, out)->Ok_0;
            lemma_tokens_after(pre, chunk, 0, 0, 8, out.len() as int, out);
            lemma_chunks_after(pre, input, end, next);
        } else {
            assert((pre + out) + chunk =~= pre + (out + chunk));
            lemma_chunks_after(pre, input, end, out + chunk);
        }
    }
}

/// Whole chunks are decoded before whatever follows them.
proof fn lemma_chunks_come_first(first: Seq<u8>, rest: Seq<u8>, pos: int, out: Seq<u8>)
    requires
        0 <= pos,
        whole_chunks(first, pos),
        chunks_from(first, pos, out) is Ok,
    ensures
        chunks_from(first + rest, pos, out) == chunks_from(
            first + rest,
            first.len() as int,
            chunks_from(first, pos, out)->Ok_0,
        ),
    decreases first.len() - pos,
{
    if pos < first.len() {
        let all = first + rest;
        let header = bytes::u16_at(first, pos);
        let end = pos + 2 + chunk_size(header);
        assert(bytes::u16_at(all, pos) == header);
        assert(all.subrange(pos + 2, end) =~= first.subrange(pos + 2, end));
        let chunk = first.subrange(pos + 2, end);
        let next = if header >= 0x8000 {
            tokens_from(chunk, 0, 0, 8, out.len() as int, out)->Ok_0
        } else {
            out + chunk
        };
        lemma_chunks_come_first(first, rest, end, next);
    }
}

/// A stream decodes the same wherever it stands.
proof fn lemma_chunks_are_movable(first: Seq<u8>, rest: Seq<u8>, pos: int, out: Seq<u8>)
    requires
        0 <= pos,
    ensures
        chunks_from(first + rest, first.len() + pos, out) == chunks_from(rest, pos, out),
    decreases rest.len() - pos,
{
    let all = first + rest;
    let at = first.len() + pos;
    if pos + 2 <= rest.len() {
        let header = bytes::u16_at(rest, pos);
        let end = pos + 2 + chunk_size(header);
        assert(bytes::u16_at(all, at) == header);
        if header != 0 && end <= rest.len() {
            assert(all.subrange(at + 2, first.len() + end) =~= rest.subrange(pos + 2, end));
            let chunk = rest.subrange(pos + 2, end);
            if header >= 0x8000 {
                if let Ok(next) = tokens_from(chunk, 0, 0, 8, out.len() as int, out) {
                    lemma_chunks_are_movable(first, rest, end, next);
                }
            } else {
                lemma_chunks_are_movable(first, rest, end, out + chunk);
            }
        }
    }
}

/// Chunks decode one by one: what whole chunks followed by a stream expand to is what the
/// chunks expand to, followed by what the stream does, as long as the ceiling is kept.
pub proof fn law_chunks_decode_one_by_one(first: Seq<u8>, rest: Seq<u8>)
    requires
        whole_chunks(first, 0),
        decompressed(first) is Ok,
        decompressed(rest) is Ok,
        decompressed(first)->Ok_0.len() + decompressed(rest)->Ok_0.len() <= 0x4000_0000,
    ensures
        decompressed(first + rest) == Ok::<Seq<u8>, NtfsError>(
            decompressed(first)->Ok_0 + decompressed(rest)->Ok_0,
        ),
{
    let x = decompressed(first)->Ok_0;
    lemma_chunks_come_first(first, rest, 0, Seq::empty());
    lemma_chunks_are_movable(first, rest, 0, x);
    lemma_chunks_after(x, rest, 0, Seq::empty());
    assert(x + Seq::<u8>::empty() =~= x);
}

/// A zero header ends the stream: whatever follows it is not looked at.
pub proof fn law_a_zero_header_ends_the_stream(first: Seq<u8>, rest: Seq<u8>)
    requires
        whole_chunks(first, 0),
        decompressed(first) is Ok,
    ensures
        decompressed(first + seq![0u8, 0u8] + rest) == decompressed(first),
{
    let tail = seq![0u8, 0u8] + rest;
    assert(first + seq![0u8, 0u8] + rest =~= first + tail);
    lemma_chunks_come_first(first, tail, 0, Seq::empty());
    assert(bytes::u16_at(first + tail, first.len() as int) == 0);
}

/// One step of a compressed chunk: a byte, or a repetition of `length` bytes from `offset`
/// places back.
pub enum Token {
    Literal(u8),
    Copy { offset: int, length: int },
}

/// Whether `tokens` describe `plain` from `p` to its end: every byte is given, or equals the
/// one `offset` places before it.
pub open spec fn describes(plain: Seq<u8>, p: int, tokens: Seq<Token>) -> bool
    decreases tokens.len(),
{
    if tokens.len() == 0 {
        p == plain.len()
    } else {
        match tokens[0] {
            Token::Literal(b) => {
                &&& p < plain.len()
                &&& plain[p] == b
                &&& describes(plain, p + 1, tokens.skip(1))
            },
            Token::Copy { offset, length } => {
                &&& 1 <= offset <= p
                &&& 3 <= length
                &&& p + length <= plain.len()
                &&& forall|j: int| p <= j < p + length ==> #[trigger] plain[j] == plain[j - offset]
                &&& describes(plain, p + length, tokens.skip(1))
            },
        }
    }
}

/// Whether `split` is what lengths are counted in after `p` bytes of a chunk: the power of
/// two next above `p`, and no less than sixteen.
pub open spec fn is_split(split: int, p: int, k: nat) -> bool {
    &&& split == 16 * vstd::arithmetic::power2::pow2(k)
    &&& p < split
    &&& k > 0 ==> split <= 2 * p
}

/// Whether `tokens` are written in `chunk` from `i` on, the next under bit `bit` of `flags`
/// and each group of eight under a new byte: a clear bit for a literal, a set one for a
/// repetition, whose offset less one counts splits, and whose length less three is added.
pub open spec fn holds_tokens(
    chunk: Seq<u8>,
    i: int,
    flags: u8,
    bit: int,
    p: int,
    tokens: Seq<Token>,
) -> bool
    decreases tokens.len(), 8 - bit + 8,
{
    if tokens.len() == 0 {
        i == chunk.len()
    } else if bit < 0 || bit > 8 {
        false
    } else if bit == 8 {
        0 <= i < chunk.len() && holds_under(chunk, i + 1, chunk[i], 0, p, tokens)
    } else {
        holds_under(chunk, i, flags, bit, p, tokens)
    }
}

/// The same, where a bit of `flags` is left.
pub open spec fn holds_under(
    chunk: Seq<u8>,
    i: int,
    flags: u8,
    bit: int,
    p: int,
    tokens: Seq<Token>,
) -> bool
    decreases tokens.len(), 0int,
{
    &&& tokens.len() > 0
    &&& 0 <= bit < 8
    &&& 0 <= i < chunk.len()
    &&& match tokens[0] {
        Token::Literal(b) => {
            &&& (flags as int / bitmap::bit_weight(bit)) % 2 == 0
            &&& chunk[i] == b
            &&& holds_tokens(chunk, i + 1, flags, bit + 1, p + 1, tokens.skip(1))
        },
        Token::Copy { offset, length } => {
            &&& (flags as int / bitmap::bit_weight(bit)) % 2 == 1
            &&& exists|split: int, k: nat| #[trigger]
                is_split(split, p, k) && length - 3 < split && offset >= 1 && bytes::spells(
                    chunk,
                    i,
                    2,
                    (length - 3 + split * (offset - 1)) as nat,
                )
            &&& holds_tokens(chunk, i + 2, flags, bit + 1, p + length, tokens.skip(1))
        },
    }
}

proof fn lemma_split(p: int, modulus: int, split: int, k: nat)
    requires
        0 < modulus,
        split == modulus * vstd::arithmetic::power2::pow2(k),
        p < split,
        k > 0 ==> split <= 2 * p,
    ensures
        split_modulus(p, modulus) == split,
    decreases k,
{
    let power = vstd::arithmetic::power2::pow2(k) as int;
    if k == 0 {
        vstd::arithmetic::power2::lemma2_to64();
        assert(modulus * power == modulus) by (nonlinear_arith)
            requires
                power == 1,
        ;
    } else {
        let half = vstd::arithmetic::power2::pow2((k - 1) as nat) as int;
        vstd::arithmetic::power2::lemma_pow2_unfold(k);
        vstd::arithmetic::power2::lemma_pow2_pos((k - 1) as nat);
        assert(modulus * power == 2 * modulus * half && modulus <= modulus * half)
            by (nonlinear_arith)
            requires
                power == 2 * half,
                half >= 1,
                modulus > 0,
        ;
        assert(modulus * power == 2 * (modulus * half)) by (nonlinear_arith)
            requires
                power == 2 * half,
        ;
        lemma_split(p, 2 * modulus, split, (k - 1) as nat);
    }
}

proof fn lemma_copied_is_prefix(plain: Seq<u8>, p: int, offset: int, length: nat)
    requires
        1 <= offset <= p,
        p + length <= plain.len(),
        forall|j: int| p <= j < p + length ==> #[trigger] plain[j] == plain[j - offset],
    ensures
        copied(plain.take(p), offset, length) == plain.take(p + length),
    decreases length,
{
    if length > 0 {
        assert(plain[p] == plain[p - offset]);
        assert(plain.take(p).push(plain.take(p)[p - offset]) =~= plain.take(p + 1));
        lemma_copied_is_prefix(plain, p + 1, offset, (length - 1) as nat);
    }
}

proof fn lemma_weights(bit: int)
    requires
        0 <= bit < 8,
    ensures
        power(bit) == bitmap::bit_weight(bit),
{
    reveal_with_fuel(power, 9);
}

proof fn lemma_unpacked(low: int, high: int, split: int)
    requires
        0 <= low < split,
        0 <= high,
    ensures
        (low + split * high) % split == low,
        (low + split * high) / split == high,
        0 <= low + split * high,
{
    assert(split * high == high * split) by (nonlinear_arith);
    vstd::arithmetic::div_mod::lemma_fundamental_div_mod_converse(
        low + split * high,
        split,
        high,
        low,
    );
    assert(0 <= split * high) by (nonlinear_arith)
        requires
            0 <= split,
            0 <= high,
    ;
}

proof fn lemma_tokens_decode(
    chunk: Seq<u8>,
    i: int,
    flags: u8,
    bit: int,
    plain: Seq<u8>,
    p: int,
    tokens: Seq<Token>,
)
    requires
        0 <= i,
        0 <= p <= plain.len() <= MAX_OUTPUT,
        describes(plain, p, tokens),
        holds_tokens(chunk, i, flags, bit, p, tokens),
    ensures
        tokens_from(chunk, i, flags, bit, 0, plain.take(p)) == Ok::<Seq<u8>, NtfsError>(plain),
    decreases tokens.len(), 8 - bit + 8,
{
    if tokens.len() == 0 {
        assert(plain.take(p) =~= plain);
    } else if bit == 8 {
        lemma_under_decode(chunk, i + 1, chunk[i], 0, plain, p, tokens);
    } else {
        lemma_under_decode(chunk, i, flags, bit, plain, p, tokens);
    }
}

proof fn lemma_under_decode(
    chunk: Seq<u8>,
    i: int,
    flags: u8,
    bit: int,
    plain: Seq<u8>,
    p: int,
    tokens: Seq<Token>,
)
    requires
        0 <= i,
        0 <= p <= plain.len() <= MAX_OUTPUT,
        describes(plain, p, tokens),
        holds_under(chunk, i, flags, bit, p, tokens),
    ensures
        tokens_from(chunk, i, flags, bit, 0, plain.take(p)) == Ok::<Seq<u8>, NtfsError>(plain),
    decreases tokens.len(), 0int,
{
    lemma_weights(bit);
    match tokens[0] {
        Token::Literal(b) => {
            assert(plain.take(p).push(b) =~= plain.take(p + 1));
            lemma_tokens_decode(chunk, i + 1, flags, bit + 1, plain, p + 1, tokens.skip(1));
        },
        Token::Copy { offset, length } => {
            let (split, k): (int, nat) = choose|split: int, k: nat| #[trigger]
                is_split(split, p, k) && length - 3 < split && offset >= 1 && bytes::spells(
                    chunk,
                    i,
                    2,
                    (length - 3 + split * (offset - 1)) as nat,
                );
            lemma_split(p, 16, split, k);
            lemma_unpacked(length - 3, offset - 1, split);
            bytes::law_numbers_read_back(chunk, i, (length - 3 + split * (offset - 1)) as nat);
            lemma_copied_is_prefix(plain, p, offset, length as nat);
            lemma_tokens_decode(chunk, i + 2, flags, bit + 1, plain, p + length, tokens.skip(1));
        },
    }
}

/// A compressed chunk that was written token by token decodes to the bytes that its tokens
/// describe: literals stand for themselves, and a repetition copies what lies its offset
/// back, its own bytes among them.
pub proof fn law_compressed_chunks_read_back(
    stream: Seq<u8>,
    chunk: Seq<u8>,
    header: u16,
    plain: Seq<u8>,
    tokens: Seq<Token>,
)
    requires
        plain.len() <= 0x4000_0000,
        0 < chunk.len() <= 0x1000,
        header >= 0x8000,
        header as int % 0x1000 == chunk.len() - 1,
        bytes::spells(stream, 0, 2, header as nat),
        stream.len() == 2 + chunk.len(),
        stream.skip(2) == chunk,
        describes(plain, 0, tokens),
        holds_tokens(chunk, 0, 0, 8, 0, tokens),
    ensures
        decompressed(stream) == Ok::<Seq<u8>, NtfsError>(plain),
{
    let none: Seq<u8> = Seq::empty();
    bytes::law_numbers_read_back(stream, 0, header as nat);
    assert(stream.subrange(2, 2 + chunk.len() as int) =~= stream.skip(2));
    assert(plain.take(0) =~= none);
    lemma_tokens_decode(chunk, 0, 0, 8, plain, 0, tokens);
    assert(chunks_from(stream, stream.len() as int, plain) == Ok::<Seq<u8>, NtfsError>(plain));
}

/// A chunk that begins with a repetition is refused: there is nothing to repeat. So is a
/// stream whose last chunk is cut off.
pub proof fn law_nothing_is_made_up(stream: Seq<u8>, header: u16)
    requires
        header != 0,
        bytes::spells(stream, 0, 2, header as nat),
    ensures
        2 + header as int % 0x1000 + 1 > stream.len() ==> decompressed(stream) is Err,
        header >= 0x8000 && header as int % 0x1000 >= 1 && stream.len() > 2 && stream[2] % 2 == 1
            ==> decompressed(stream) is Err,
{
    bytes::law_numbers_read_back(stream, 0, header as nat);
    lemma_weights(0);
    let end = 2 + chunk_size(header);
    if end <= stream.len() && header >= 0x8000 && header as int % 0x1000 >= 1 && stream[2] % 2
        == 1 {
        let chunk = stream.subrange(2, end);
        let none: Seq<u8> = Seq::empty();
        assert(chunk[0] == stream[2]);
        assert(tokens_from(chunk, 1, chunk[0], 0, 0, none) is Err);
        assert(tokens_from(chunk, 0, 0, 8, 0, none) is Err);
    }
}

} // verus!
