//! A Simple-family integer codec: packs sequences of small non-negative
//! integers into 32-bit words and unpacks them again.
//!
//! Each word carries a 4-bit selector naming one of sixteen fixed layouts
//! (see [`layout`]) followed by up to 28 bits of packed values.  Words are
//! serialized as 4-byte little-endian groups.  The stream carries no count:
//! the final word may hold zero-valued padding slots, so a caller must
//! remember how many values were encoded.
//!
//! The greedy layout selection, the packing and unpacking arithmetic, and
//! the laws they obey are stated and proved over the model in [`coding`].

use vstd::prelude::*;
use vstd::arithmetic::power2::{pow2, lemma_pow2_strictly_increases, lemma2_to64};
use vstd::arithmetic::mul::lemma_mul_basics;
use vstd::bits::{lemma_u32_shl_is_mul, lemma_u32_shr_is_div, lemma_u32_low_bits_mask_is_mod};
use vstd::slice::slice_subrange;
use crate::layout::{slot_count, slot_width, slot_offset, lemma_layout, lemma_offset_mono, case_count, case_width};
use crate::coding::{
    seq_in_range, avail, layout_fits, consumed, pack_from, pack_prefix, word_of, encode_bytes,
    size_of, word_bytes, word_at, bytes_to_words, decode_bytes, decode_words, decode_word,
    word_sel, slot_value, lemma_last_fits, lemma_consumed, lemma_pack_prefix_bound,
    lemma_prefix_suffix, lemma_word_fits, lemma_chosen_is, lemma_encode_step, lemma_decode_step,
    lemma_size_bound,
};

pub mod layout;
pub mod coding;

verus! {

/// The largest encodable value: the widest layout has a single 28-bit slot.
pub const MAX: u32 = 268435455;

/// Some input value exceeds [`MAX`] and can fit no layout.
#[derive(Debug, Eq, PartialEq, Copy, Clone)]
pub struct ValueOutOfRange;

/// The byte stream handed to [`decompress`] is not a whole number of
/// 4-byte words.
#[derive(Debug, Eq, PartialEq, Copy, Clone)]
pub struct AlignmentError;

/// A fixed-width unsigned domain the codec can encode from.
///
/// `mag` is the stored number itself; `check` scans a slice for values too
/// large to encode, and `as_` widens (for 64-bit storage: truncates) the
/// value to the 32-bit width the packing arithmetic works in.
pub trait Simple16: Sized + Copy {
    /// The number this item stores.
    spec fn mag(self) -> int;

    /// Scan the slice for a value no layout can hold.
    fn check(data: &[Self]) -> (r: Result<(), ValueOutOfRange>)
        ensures
            r is Ok <==> (forall|i: int|
                0 <= i < data@.len() ==> 0 <= #[trigger] data@[i].mag() <= MAX),
    ;

    /// The stored number, brought to the packing width.
    fn as_(self) -> (r: u32)
        ensures
            0 <= self.mag() <= MAX ==> r == self.mag() as u32,
    ;
}

/// Every value of the slice is encodable: non-negative and at most [`MAX`].
pub open spec fn all_in_range<T: Simple16>(s: Seq<T>) -> bool {
    forall|i: int| 0 <= i < s.len() ==> 0 <= #[trigger] s[i].mag() <= MAX
}

/// The sequence of stored numbers, at the packing width.
pub open spec fn value_seq<T: Simple16>(s: Seq<T>) -> Seq<u32> {
    s.map_values(|v: T| v.mag() as u32)
}

/// An in-range slice maps to an in-range value sequence.
pub proof fn lemma_value_seq_in_range<T: Simple16>(s: Seq<T>)
    requires
        all_in_range(s),
    ensures
        seq_in_range(value_seq(s)),
        value_seq(s).len() == s.len(),
{
    assert forall|i: int| 0 <= i < value_seq(s).len() implies #[trigger] value_seq(s)[i]
        <= MAX by {
        assert(0 <= s[i].mag() <= MAX);
    }
}

/// Taking a suffix of the slice takes the same suffix of its value sequence.
pub proof fn lemma_value_seq_skip<T: Simple16>(s: Seq<T>, n: int)
    requires
        0 <= n <= s.len(),
    ensures
        value_seq(s.skip(n)) == value_seq(s).skip(n),
{
    assert(value_seq(s.skip(n)) =~= value_seq(s).skip(n));
}

impl Simple16 for u32 {
    open spec fn mag(self) -> int {
        self as int
    }

    fn check(data: &[Self]) -> (r: Result<(), ValueOutOfRange>) {
        let mut k: usize = 0;
        while k < data.len()
            invariant
                k <= data@.len(),
                forall|i: int| 0 <= i < k ==> #[trigger] data@[i] <= MAX,
            decreases data@.len() - k,
        {
            if data[k] > MAX {
                assert(data@[k as int].mag() > MAX);
                return Err(ValueOutOfRange);
            }
            k = k + 1;
        }
        Ok(())
    }

    fn as_(self) -> (r: u32) {
        self
    }
}

impl Simple16 for u64 {
    open spec fn mag(self) -> int {
        self as int
    }

    fn check(data: &[Self]) -> (r: Result<(), ValueOutOfRange>) {
        let mut k: usize = 0;
        while k < data.len()
            invariant
                k <= data@.len(),
                forall|i: int| 0 <= i < k ==> #[trigger] data@[i] <= MAX as u64,
            decreases data@.len() - k,
        {
            if data[k] > MAX as u64 {
                assert(data@[k as int].mag() > MAX);
                return Err(ValueOutOfRange);
            }
            k = k + 1;
        }
        Ok(())
    }

    fn as_(self) -> (r: u32) {
        self as u32
    }
}

impl Simple16 for u16 {
    open spec fn mag(self) -> int {
        self as int
    }

    fn check(data: &[Self]) -> (r: Result<(), ValueOutOfRange>) {
        Ok(())
    }

    fn as_(self) -> (r: u32) {
        self as u32
    }
}

impl Simple16 for u8 {
    open spec fn mag(self) -> int {
        self as int
    }

    fn check(data: &[Self]) -> (r: Result<(), ValueOutOfRange>) {
        Ok(())
    }

    fn as_(self) -> (r: u32) {
        self as u32
    }
}

/// Select the first layout that holds the leading values and pack them:
/// the returned word carries the selector and the packed values, and the
/// returned count says how many values it consumed.
fn pack<T: Simple16>(values: &[T]) -> (r: (u32, usize))
    requires
        values@.len() >= 1,
        all_in_range(values@),
    ensures
        r.0 == word_of(value_seq(values@)),
        r.1 == consumed(value_seq(values@)),
        1 <= r.1 <= values@.len(),
{
    let ghost vs = value_seq(values@);
    proof {
        lemma_value_seq_in_range(values@);
    }
    let mut i: u32 = 0;
    loop
        invariant
            i <= 15,
            values@.len() >= 1,
            all_in_range(values@),
            vs == value_seq(values@),
            vs.len() == values@.len(),
            forall|s: int| 0 <= s < i ==> !layout_fits(vs, s),
        decreases 15 - i,
    {
        let ghost sel = i as int;
        let count_i = case_count(i);
        let count: usize = if count_i < values.len() {
            count_i
        } else {
            values.len()
        };
        assert(count == avail(vs, sel));
        proof {
            lemma2_to64();
            assert(i * pow2(28) <= u32::MAX) by (nonlinear_arith)
                requires
                    i <= 15,
                    pow2(28) == 0x10000000,
            ;
            lemma_u32_shl_is_mul(i, 28);
        }
        let mut word: u32 = i << 28;
        let mut packed: u32 = 0;
        let mut ok: bool = true;
        let mut j: usize = 0;
        proof {
            lemma_layout(sel, 0);
        }
        while ok && j < count
            invariant
                i <= 15,
                sel == i as int,
                values@.len() >= 1,
                all_in_range(values@),
                vs == value_seq(values@),
                vs.len() == values@.len(),
                count == avail(vs, sel),
                0 <= j <= count,
                ok ==> forall|k: int|
                    0 <= k < j ==> (#[trigger] vs[k]) < pow2(slot_width(sel, k) as nat),
                ok ==> packed == slot_offset(sel, j as int),
                ok ==> word == i * pow2(28) + pack_prefix(vs, sel, j as int),
                !ok ==> !layout_fits(vs, sel),
            decreases count - j, (if ok {
                1int
            } else {
                0int
            }),
        {
            let v = values[j].as_();
            assert(v == vs[j as int]);
            let wbits = case_width(i, j);
            proof {
                lemma_layout(sel, j as int);
                lemma2_to64();
                if slot_width(sel, j as int) < 28 {
                    lemma_pow2_strictly_increases(slot_width(sel, j as int) as nat, 28);
                }
                lemma_mul_basics(pow2(wbits as nat) as int);
                lemma_u32_shl_is_mul(1u32, wbits);
            }
            let limit = 1u32 << wbits;
            assert(limit == pow2(wbits as nat));
            if v >= limit {
                proof {
                    assert(vs[j as int] >= pow2(slot_width(sel, j as int) as nat));
                    assert(!layout_fits(vs, sel));
                }
                ok = false;
            } else {
                proof {
                    lemma_pack_prefix_bound(vs, sel, j as int);
                    lemma_pack_prefix_bound(vs, sel, j as int + 1);
                    lemma_offset_mono(sel, j as int + 1, slot_count(sel));
                    if slot_offset(sel, j as int + 1) < 28 {
                        lemma_pow2_strictly_increases(slot_offset(sel, j as int + 1) as nat, 28);
                    }
                    vstd::arithmetic::power2::lemma_pow2_adds(
                        packed as nat,
                        slot_width(sel, j as int) as nat,
                    );
                    assert(v * pow2(packed as nat) < pow2(slot_offset(sel, j as int + 1) as nat))
                        by (nonlinear_arith)
                        requires
                            v < pow2(slot_width(sel, j as int) as nat),
                            packed == slot_offset(sel, j as int),
                            pow2(slot_offset(sel, j as int + 1) as nat) == pow2(packed as nat)
                                * pow2(slot_width(sel, j as int) as nat),
                            pow2(packed as nat) > 0,
                    ;
                    lemma_u32_shl_is_mul(v, packed);
                }
                let shifted = v << packed;
                assert(word + shifted <= u32::MAX) by {
                    assert(i * pow2(28) <= 15 * 0x10000000) by (nonlinear_arith)
                        requires
                            i <= 15,
                            pow2(28) == 0x10000000,
                    ;
                }
                word = word + shifted;
                packed = packed + wbits;
                j = j + 1;
            }
        }
        if ok {
            proof {
                assert(layout_fits(vs, sel));
                lemma_chosen_is(vs, sel);
                lemma_prefix_suffix(vs, sel, count as int);
                lemma_mul_basics(pow2(slot_offset(sel, count as int) as nat) as int);
                assert(pack_from(vs, sel, count as int) == 0);
                assert(pack_prefix(vs, sel, count as int) == pack_from(vs, sel, 0));
                lemma_word_fits(vs, sel);
            }
            return (word, count);
        }
        proof {
            lemma_last_fits(vs);
            assert(i < 15);
        }
        i = i + 1;
    }
}

/// Select the first layout that holds the leading values, as the size
/// estimator needs it: only how many values the next word would consume.
fn consume<T: Simple16>(values: &[T]) -> (advanced: usize)
    requires
        values@.len() >= 1,
        all_in_range(values@),
    ensures
        advanced == consumed(value_seq(values@)),
        1 <= advanced <= values@.len(),
{
    let ghost vs = value_seq(values@);
    proof {
        lemma_value_seq_in_range(values@);
    }
    let mut i: u32 = 0;
    loop
        invariant
            i <= 15,
            values@.len() >= 1,
            all_in_range(values@),
            vs == value_seq(values@),
            vs.len() == values@.len(),
            forall|s: int| 0 <= s < i ==> !layout_fits(vs, s),
        decreases 15 - i,
    {
        let ghost sel = i as int;
        let count_i = case_count(i);
        let count: usize = if count_i < values.len() {
            count_i
        } else {
            values.len()
        };
        assert(count == avail(vs, sel));
        let mut ok: bool = true;
        let mut j: usize = 0;
        while ok && j < count
            invariant
                i <= 15,
                sel == i as int,
                all_in_range(values@),
                vs == value_seq(values@),
                vs.len() == values@.len(),
                count == avail(vs, sel),
                0 <= j <= count,
                ok ==> forall|k: int|
                    0 <= k < j ==> (#[trigger] vs[k]) < pow2(slot_width(sel, k) as nat),
                !ok ==> !layout_fits(vs, sel),
            decreases count - j, (if ok {
                1int
            } else {
                0int
            }),
        {
            let v = values[j].as_();
            assert(v == vs[j as int]);
            let wbits = case_width(i, j);
            proof {
                lemma_layout(sel, j as int);
                lemma2_to64();
                if slot_width(sel, j as int) < 28 {
                    lemma_pow2_strictly_increases(slot_width(sel, j as int) as nat, 28);
                }
                lemma_mul_basics(pow2(wbits as nat) as int);
                lemma_u32_shl_is_mul(1u32, wbits);
            }
            let limit = 1u32 << wbits;
            assert(limit == pow2(wbits as nat));
            if v >= limit {
                proof {
                    assert(vs[j as int] >= pow2(slot_width(sel, j as int) as nat));
                    assert(!layout_fits(vs, sel));
                }
                ok = false;
            } else {
                j = j + 1;
            }
        }
        if ok {
            proof {
                assert(layout_fits(vs, sel));
                lemma_chosen_is(vs, sel);
            }
            return count;
        }
        proof {
            lemma_last_fits(vs);
            assert(i < 15);
        }
        i = i + 1;
    }
}

/// A contiguous part of an in-range slice is in range.
proof fn lemma_subrange_in_range<T: Simple16>(s: Seq<T>, from: int, to: int)
    requires
        all_in_range(s),
        0 <= from <= to <= s.len(),
    ensures
        all_in_range(s.subrange(from, to)),
{
    assert forall|i: int| 0 <= i < s.subrange(from, to).len() implies 0 <= #[trigger] s.subrange(
        from,
        to,
    )[i].mag() <= MAX by {
        assert(s.subrange(from, to)[i] == s[from + i]);
        assert(0 <= s[from + i].mag() <= MAX);
    }
}

/// Encode `values` without validating them first: the caller promises
/// every value is in range.  Appends the encoded words to `out` as 4-byte
/// little-endian groups; existing contents are kept.
pub fn compress_unchecked<T: Simple16>(values: &[T], out: &mut Vec<u8>)
    requires
        all_in_range(values@),
    ensures
        final(out)@ == old(out)@ + encode_bytes(value_seq(values@)),
{
    let ghost vs = value_seq(values@);
    let ghost base = out@;
    proof {
        lemma_value_seq_in_range(values@);
        assert(vs.skip(0) =~= vs);
    }
    let mut pos: usize = 0;
    while pos < values.len()
        invariant
            pos <= values@.len(),
            all_in_range(values@),
            vs == value_seq(values@),
            vs.len() == values@.len(),
            base + encode_bytes(vs) == out@ + encode_bytes(vs.skip(pos as int)),
        decreases values@.len() - pos,
    {
        let rem = slice_subrange(values, pos, values.len());
        let ghost suf = vs.skip(pos as int);
        proof {
            lemma_subrange_in_range(values@, pos as int, values@.len() as int);
            lemma_value_seq_skip(values@, pos as int);
            assert(values@.subrange(pos as int, values@.len() as int) =~= values@.skip(pos as int));
            assert(value_seq(rem@) == suf);
            lemma_value_seq_in_range(rem@);
            lemma_consumed(suf);
            lemma_encode_step(suf);
        }
        let (word, advanced) = pack(rem);
        let ghost mid = out@;
        out.push((word % 256) as u8);
        out.push(((word / 256) % 256) as u8);
        out.push(((word / 65536) % 256) as u8);
        out.push(((word / 16777216) % 256) as u8);
        proof {
            assert(out@ =~= mid + word_bytes(word));
        }
        pos = pos + advanced;
        proof {
            assert(suf.skip(advanced as int) =~= vs.skip(pos as int));
        }
    }
    proof {
        assert(vs.skip(pos as int) =~= Seq::<u32>::empty());
        assert(encode_bytes(Seq::<u32>::empty()) =~= Seq::<u8>::empty());
        assert(out@ =~= out@ + Seq::<u8>::empty());
    }
}

/// Encode `values`, appending one little-endian 32-bit word at a time to
/// `out`.  Fails, appending nothing, exactly when some value exceeds
/// [`MAX`].
pub fn compress<T: Simple16>(values: &[T], out: &mut Vec<u8>) -> (r: Result<(), ValueOutOfRange>)
    ensures
        r is Ok <==> all_in_range(values@),
        r is Ok ==> final(out)@ == old(out)@ + encode_bytes(value_seq(values@)),
        r is Err ==> final(out)@ == old(out)@,
{
    match <T as Simple16>::check(values) {
        Ok(_) => {
            compress_unchecked(values, out);
            Ok(())
        },
        Err(e) => Err(e),
    }
}

/// Count the bytes encoding would take, without validating first: the
/// caller promises every value is in range.
pub fn calculate_size_unchecked<T: Simple16>(data: &[T]) -> (size: usize)
    requires
        all_in_range(data@),
        4 * data@.len() <= usize::MAX,
    ensures
        size == size_of(value_seq(data@)),
{
    let ghost vs = value_seq(data@);
    proof {
        lemma_value_seq_in_range(data@);
        assert(vs.skip(0) =~= vs);
    }
    let mut size: usize = 0;
    let mut pos: usize = 0;
    while pos < data.len()
        invariant
            pos <= data@.len(),
            all_in_range(data@),
            vs == value_seq(data@),
            vs.len() == data@.len(),
            4 * data@.len() <= usize::MAX,
            size <= 4 * pos,
            size + size_of(vs.skip(pos as int)) == size_of(vs),
        decreases data@.len() - pos,
    {
        let rem = slice_subrange(data, pos, data.len());
        let ghost suf = vs.skip(pos as int);
        proof {
            lemma_subrange_in_range(data@, pos as int, data@.len() as int);
            lemma_value_seq_skip(data@, pos as int);
            assert(data@.subrange(pos as int, data@.len() as int) =~= data@.skip(pos as int));
            assert(value_seq(rem@) == suf);
            lemma_value_seq_in_range(rem@);
            lemma_consumed(suf);
            lemma_size_bound(suf);
        }
        let advanced = consume(rem);
        size = size + 4;
        pos = pos + advanced;
        proof {
            assert(suf.skip(advanced as int) =~= vs.skip(pos as int));
            lemma_size_bound(vs.skip(pos as int));
        }
    }
    proof {
        assert(vs.skip(pos as int) =~= Seq::<u32>::empty());
    }
    size
}

/// Return the number of bytes that encoding `data` would produce, without
/// writing them.  Fails exactly when some value exceeds [`MAX`]; the
/// count always agrees with what [`compress`] appends
/// (see [`coding::lemma_size_coherence`]).
pub fn calculate_size<T: Simple16>(data: &[T]) -> (r: Result<usize, ValueOutOfRange>)
    requires
        4 * data@.len() <= usize::MAX,
    ensures
        r is Ok <==> all_in_range(data@),
        r matches Ok(size) ==> size == size_of(value_seq(data@)),
{
    match <T as Simple16>::check(data) {
        Ok(_) => Ok(calculate_size_unchecked(data)),
        Err(e) => Err(e),
    }
}

/// Decode a little-endian byte stream, appending every decoded value to
/// `out`.  Fails, appending nothing, exactly when the stream is not a
/// whole number of 4-byte words; any well-aligned stream decodes.
pub fn decompress(bytes: &[u8], out: &mut Vec<u32>) -> (r: Result<(), AlignmentError>)
    ensures
        r is Ok <==> bytes@.len() % 4 == 0,
        r is Ok ==> final(out)@ == old(out)@ + decode_bytes(bytes@),
        r is Err ==> final(out)@ == old(out)@,
{
    if bytes.len() % 4 != 0 {
        return Err(AlignmentError);
    }
    let ghost bw = bytes_to_words(bytes@);
    let ghost base = out@;
    proof {
        assert(bw.skip(0) =~= bw);
    }
    let mut offset: usize = 0;
    while offset < bytes.len()
        invariant
            offset <= bytes@.len(),
            offset % 4 == 0,
            bytes@.len() % 4 == 0,
            bw == bytes_to_words(bytes@),
            bw.len() == bytes@.len() / 4,
            base + decode_words(bw) == out@ + decode_words(bw.skip(offset as int / 4)),
        decreases bytes@.len() - offset,
    {
        let ghost k = offset as int / 4;
        proof {
            assert(4 * k == offset);
            assert(k < bw.len());
        }
        let b0 = bytes[offset] as u32;
        let b1 = bytes[offset + 1] as u32;
        let b2 = bytes[offset + 2] as u32;
        let b3 = bytes[offset + 3] as u32;
        let word = b0 + b1 * 256 + b2 * 65536 + b3 * 16777216;
        proof {
            assert(word == word_at(bytes@, k));
            lemma2_to64();
            lemma_u32_shr_is_div(word, 28);
            vstd::arithmetic::div_mod::lemma_div_is_ordered(word as int, 0xffffffff, 0x10000000);
        }
        let sel = word >> 28;
        assert(sel as int == word_sel(word));
        assert(sel < 16);
        let count = case_count(sel);
        let ghost dw = decode_word(word);
        proof {
            assert(dw.len() == count);
        }
        let ghost mid = out@;
        let mut j: usize = 0;
        let mut unpacked: u32 = 0;
        proof {
            lemma_layout(sel as int, 0);
            assert(dw.take(0) =~= Seq::<u32>::empty());
            assert(mid =~= mid + dw.take(0));
        }
        while j < count
            invariant
                sel < 16,
                sel as int == word_sel(word),
                count == slot_count(sel as int),
                0 <= j <= count,
                dw == decode_word(word),
                dw.len() == count,
                unpacked == slot_offset(sel as int, j as int),
                out@ == mid + dw.take(j as int),
            decreases count - j,
        {
            proof {
                lemma_layout(sel as int, j as int);
                lemma2_to64();
                if slot_width(sel as int, j as int) < 28 {
                    lemma_pow2_strictly_increases(slot_width(sel as int, j as int) as nat, 28);
                }
                lemma_mul_basics(pow2(slot_width(sel as int, j as int) as nat) as int);
            }
            let wbits = case_width(sel, j);
            proof {
                lemma_u32_shl_is_mul(1u32, wbits);
                lemma_u32_shr_is_div(word, unpacked);
                lemma_u32_low_bits_mask_is_mod((word >> unpacked), wbits as nat);
            }
            let mask = (1u32 << wbits) - 1;
            let value = (word >> unpacked) & mask;
            proof {
                assert(value == slot_value(word, sel as int, j as int));
                assert(dw[j as int] == value);
            }
            out.push(value);
            proof {
                assert(out@ =~= mid + dw.take(j as int + 1));
            }
            unpacked = unpacked + wbits;
            j = j + 1;
        }
        proof {
            assert(dw.take(count as int) =~= dw);
            lemma_decode_step(bw, k);
        }
        offset = offset + 4;
        proof {
            assert(offset as int / 4 == k + 1);
        }
    }
    proof {
        assert(bw.skip(offset as int / 4) =~= Seq::<u32>::empty());
        assert(out@ =~= out@ + Seq::<u32>::empty());
        assert(out@ =~= base + decode_words(bw));
    }
    Ok(())
}

/// Narrow-domain safety: every 8-bit value is encodable, so validation
/// never fails on an 8-bit domain.
pub proof fn lemma_u8_in_range(data: Seq<u8>)
    ensures
        all_in_range(data),
{
    assert forall|i: int| 0 <= i < data.len() implies 0 <= #[trigger] data[i].mag() <= MAX by {}
}

/// Narrow-domain safety: every 16-bit value is encodable, so validation
/// never fails on a 16-bit domain.
pub proof fn lemma_u16_in_range(data: Seq<u16>)
    ensures
        all_in_range(data),
{
    assert forall|i: int| 0 <= i < data.len() implies 0 <= #[trigger] data[i].mag() <= MAX by {}
}

} // verus!
