//! The mathematical model of the codec.
//!
//! Everything here is stated over `Seq<u32>`: the greedy layout selection
//! (`chosen_sel`, `consumed`), the packed content of one word (`pack_from`,
//! `word_of`), the whole encoded word and byte streams (`encode_words`,
//! `encode_bytes`, `size_of`), and their inverses (`decode_word`,
//! `decode_words`, `bytes_to_words`, `decode_bytes`).  The proof functions
//! at the end state the laws the codec obeys, chiefly that decoding an
//! encoded stream gives the original values back.

use vstd::prelude::*;
use vstd::arithmetic::power2::{
    pow2,
    lemma_pow2_adds,
    lemma_pow2_pos,
    lemma_pow2_strictly_increases,
    lemma2_to64,
};
use vstd::arithmetic::div_mod::{
    lemma_div_is_ordered,
    lemma_div_denominator,
    lemma_fundamental_div_mod,
    lemma_fundamental_div_mod_converse,
};
use vstd::arithmetic::mul::lemma_mul_basics;
use crate::layout::{slot_count, slot_width, slot_offset, lemma_layout, lemma_offset_mono};
use crate::MAX;

verus! {

/// Every value of the sequence is small enough to encode.
pub open spec fn seq_in_range(vals: Seq<u32>) -> bool {
    forall|i: int| 0 <= i < vals.len() ==> #[trigger] vals[i] <= MAX
}

/// How many leading values a word with the layout named by `sel` would
/// consume: all its slots, or the whole remainder if that is shorter.
pub open spec fn avail(vals: Seq<u32>, sel: int) -> int {
    if slot_count(sel) < vals.len() {
        slot_count(sel)
    } else {
        vals.len() as int
    }
}

/// Each of the values such a word would consume fits its slot's width.
pub open spec fn layout_fits(vals: Seq<u32>, sel: int) -> bool {
    forall|j: int| 0 <= j < avail(vals, sel) ==> (#[trigger] vals[j]) < pow2(slot_width(sel, j) as nat)
}

/// The first layout at or after `i`, in table order, that fits; the last
/// layout is taken unexamined, since a valid value always fits its 28 bits.
pub open spec fn chosen_from(vals: Seq<u32>, i: int) -> int
    decreases 15 - i,
{
    if i >= 15 {
        15
    } else if layout_fits(vals, i) {
        i
    } else {
        chosen_from(vals, i + 1)
    }
}

/// The selector the greedy rule picks for the next word: the layout with
/// the most slots, in table order, whose slots hold the leading values.
pub open spec fn chosen_sel(vals: Seq<u32>) -> int {
    chosen_from(vals, 0)
}

/// How many values the next word consumes.
pub open spec fn consumed(vals: Seq<u32>) -> int {
    avail(vals, chosen_sel(vals))
}

/// The packed content of slots `j..` of the next word: value `j` in the
/// low bits, the later slots stacked above it.
pub open spec fn pack_from(vals: Seq<u32>, sel: int, j: int) -> nat
    decreases avail(vals, sel) - j,
{
    if j < 0 || j >= avail(vals, sel) {
        0
    } else {
        vals[j] as nat + pow2(slot_width(sel, j) as nat) * pack_from(vals, sel, j + 1)
    }
}

/// The packed content of the slots before `j`, each at its own offset.
pub open spec fn pack_prefix(vals: Seq<u32>, sel: int, j: int) -> nat
    decreases j,
{
    if j <= 0 {
        0
    } else {
        pack_prefix(vals, sel, j - 1) + (vals[j - 1] as nat) * pow2(
            slot_offset(sel, j - 1) as nat,
        )
    }
}

/// The word the greedy choice produces: the selector in the top four bits,
/// the packed values below it.
pub open spec fn word_of(vals: Seq<u32>) -> u32 {
    (chosen_sel(vals) * pow2(28) + pack_from(vals, chosen_sel(vals), 0)) as u32
}

/// The last layout fits whenever the leading value is in range: its single
/// slot is 28 bits wide and `MAX` is the largest 28-bit value.
pub proof fn lemma_last_fits(vals: Seq<u32>)
    requires
        vals.len() == 0 || vals[0] <= MAX,
    ensures
        layout_fits(vals, 15),
{
    lemma2_to64();
}

/// The greedy choice names a real layout and that layout fits.
pub proof fn lemma_chosen(vals: Seq<u32>)
    requires
        seq_in_range(vals),
    ensures
        0 <= chosen_sel(vals) < 16,
        layout_fits(vals, chosen_sel(vals)),
{
    lemma_last_fits(vals);
    lemma_chosen_from(vals, 0);
}

proof fn lemma_chosen_from(vals: Seq<u32>, i: int)
    requires
        0 <= i <= 15,
        layout_fits(vals, 15),
    ensures
        i <= chosen_from(vals, i) <= 15,
        layout_fits(vals, chosen_from(vals, i)),
    decreases 15 - i,
{
    if i < 15 && !layout_fits(vals, i) {
        lemma_chosen_from(vals, i + 1);
    }
}

/// A word always consumes at least one value of a non-empty remainder.
pub proof fn lemma_consumed(vals: Seq<u32>)
    requires
        vals.len() >= 1,
        seq_in_range(vals),
    ensures
        1 <= consumed(vals) <= vals.len(),
        consumed(vals) == avail(vals, chosen_sel(vals)),
{
    lemma_chosen(vals);
}

/// The packed content of slots `j..` fits in the bits those slots span.
pub proof fn lemma_pack_from_bound(vals: Seq<u32>, sel: int, j: int)
    requires
        0 <= sel < 16,
        layout_fits(vals, sel),
        0 <= j <= avail(vals, sel),
    ensures
        pack_from(vals, sel, j) < pow2(
            (slot_offset(sel, avail(vals, sel)) - slot_offset(sel, j)) as nat,
        ),
    decreases avail(vals, sel) - j,
{
    let a = avail(vals, sel);
    lemma_offset_mono(sel, j, a);
    if j == a {
        lemma_pow2_pos(0);
    } else {
        lemma_pack_from_bound(vals, sel, j + 1);
        lemma_layout(sel, j);
        lemma_offset_mono(sel, j + 1, a);
        let w = slot_width(sel, j) as nat;
        let rest = (slot_offset(sel, a) - slot_offset(sel, j + 1)) as nat;
        let tail = pack_from(vals, sel, j + 1);
        lemma_pow2_adds(w, rest);
        assert(pow2(w) * tail <= pow2(w) * (pow2(rest) - 1) == pow2(w) * pow2(rest) - pow2(w))
            by (nonlinear_arith)
            requires
                tail <= pow2(rest) - 1,
                pow2(w) >= 0,
        ;
    }
}

/// The packed content of the slots before `j` fits below bit `slot_offset(sel, j)`.
/// Only the values already packed need to fit their slots.
pub proof fn lemma_pack_prefix_bound(vals: Seq<u32>, sel: int, j: int)
    requires
        0 <= sel < 16,
        forall|k: int| 0 <= k < j ==> (#[trigger] vals[k]) < pow2(slot_width(sel, k) as nat),
        0 <= j <= avail(vals, sel),
    ensures
        pack_prefix(vals, sel, j) < pow2(slot_offset(sel, j) as nat),
    decreases j,
{
    if j == 0 {
        lemma_pow2_pos(0);
        lemma_layout(sel, 0);
    } else {
        lemma_pack_prefix_bound(vals, sel, j - 1);
        lemma_layout(sel, j - 1);
        let w = slot_width(sel, j - 1) as nat;
        let off = slot_offset(sel, j - 1) as nat;
        lemma_pow2_adds(off, w);
        assert((vals[j - 1] as nat) * pow2(off) <= (pow2(w) - 1) * pow2(off) == pow2(off) * pow2(
            w,
        ) - pow2(off)) by (nonlinear_arith)
            requires
                (vals[j - 1] as nat) <= pow2(w) - 1,
                pow2(off) >= 0,
        ;
    }
}

/// Splitting the packed content at slot `j`: the slots before `j` plus the
/// slots from `j` on, shifted up past them, give the whole packed content.
pub proof fn lemma_prefix_suffix(vals: Seq<u32>, sel: int, j: int)
    requires
        0 <= sel < 16,
        0 <= j <= avail(vals, sel),
    ensures
        pack_prefix(vals, sel, j) + pow2(slot_offset(sel, j) as nat) * pack_from(vals, sel, j)
            == pack_from(vals, sel, 0),
    decreases j,
{
    if j == 0 {
        lemma_layout(sel, 0);
        lemma2_to64();
        lemma_mul_basics(pack_from(vals, sel, 0) as int);
    } else {
        lemma_prefix_suffix(vals, sel, j - 1);
        lemma_layout(sel, j - 1);
        let w = slot_width(sel, j - 1) as nat;
        let off = slot_offset(sel, j - 1) as nat;
        let v = vals[j - 1] as nat;
        let tail = pack_from(vals, sel, j);
        lemma_pow2_adds(off, w);
        assert(pack_from(vals, sel, j - 1) == v + pow2(w) * tail);
        assert(pow2(off) * (v + pow2(w) * tail) == v * pow2(off) + (pow2(off) * pow2(w)) * tail)
            by (nonlinear_arith);
        assert(pack_prefix(vals, sel, j) + pow2(slot_offset(sel, j) as nat) * tail == pack_prefix(
            vals,
            sel,
            j - 1,
        ) + pow2(off) * pack_from(vals, sel, j - 1));
    }
}

/// The selector in a word's top four bits.
pub open spec fn word_sel(w: u32) -> int {
    w as int / pow2(28) as int
}

/// The value slot `j` of the layout named by `sel` holds in word `w`.
pub open spec fn slot_value(w: u32, sel: int, j: int) -> u32 {
    ((w as int / pow2(slot_offset(sel, j) as nat) as int) % pow2(
        slot_width(sel, j) as nat,
    ) as int) as u32
}

/// Every value a word decodes to, in slot order.  The selector always
/// names a real layout, so any 32-bit word decodes to something.
pub open spec fn decode_word(w: u32) -> Seq<u32> {
    Seq::new(slot_count(word_sel(w)) as nat, |j: int| slot_value(w, word_sel(w), j))
}

/// A packed word fits 32 bits: the selector sits above bit 28 and the
/// packed content below it.
pub(crate) proof fn lemma_word_fits(vals: Seq<u32>, sel: int)
    requires
        0 <= sel < 16,
        layout_fits(vals, sel),
    ensures
        pack_from(vals, sel, 0) < pow2(28),
        0 <= sel * pow2(28) + pack_from(vals, sel, 0) < 0x100000000,
{
    let a = avail(vals, sel);
    lemma_pack_from_bound(vals, sel, 0);
    lemma_layout(sel, 0);
    lemma_offset_mono(sel, a, slot_count(sel));
    if slot_offset(sel, a) < 28 {
        lemma_pow2_strictly_increases(slot_offset(sel, a) as nat, 28);
    }
    lemma2_to64();
    assert(0 <= sel * pow2(28) + pack_from(vals, sel, 0) < 0x100000000) by (nonlinear_arith)
        requires
            0 <= sel <= 15,
            pow2(28) == 0x10000000,
            0 <= pack_from(vals, sel, 0) < pow2(28),
    ;
}

/// Shifting the packed word down to slot `j` leaves the selector and the
/// slots from `j` on.
proof fn lemma_unpack(vals: Seq<u32>, sel: int, j: int)
    requires
        0 <= sel < 16,
        layout_fits(vals, sel),
        0 <= j <= avail(vals, sel),
    ensures
        slot_offset(sel, j) + (28 - slot_offset(sel, j)) == 28,
        0 <= 28 - slot_offset(sel, j),
        (sel * pow2(28) + pack_from(vals, sel, 0)) / (pow2(slot_offset(sel, j) as nat) as int)
            == sel * pow2((28 - slot_offset(sel, j)) as nat) + pack_from(vals, sel, j),
    decreases j,
{
    let a = avail(vals, sel);
    let wd = (sel * pow2(28) + pack_from(vals, sel, 0)) as int;
    lemma_word_fits(vals, sel);
    lemma_layout(sel, 0);
    lemma_offset_mono(sel, j, a);
    lemma_offset_mono(sel, a, slot_count(sel));
    if j == 0 {
        lemma_mul_basics(wd);
        lemma2_to64();
        lemma_fundamental_div_mod_converse(wd, 1, wd, 0);
    } else {
        lemma_unpack(vals, sel, j - 1);
        lemma_layout(sel, j - 1);
        let o1 = slot_offset(sel, j - 1) as nat;
        let w = slot_width(sel, j - 1) as nat;
        let o2 = slot_offset(sel, j) as nat;
        let v = vals[j - 1] as int;
        let tail = pack_from(vals, sel, j) as int;
        let t = sel * pow2((28 - o2) as nat) + tail;
        lemma_pow2_adds(w, (28 - o2) as nat);
        lemma_pow2_adds(o1, w);
        lemma_pow2_pos(o1);
        lemma_pow2_pos(w);
        assert(pack_from(vals, sel, j - 1) == vals[j - 1] + pow2(w) * pack_from(vals, sel, j));
        assert(wd / (pow2(o1) as int) == v + pow2(w) * t) by (nonlinear_arith)
            requires
                wd / (pow2(o1) as int) == sel * pow2((28 - o1) as nat) + v + pow2(w) * tail,
                pow2((28 - o1) as nat) == pow2(w) * pow2((28 - o2) as nat),
                t == sel * pow2((28 - o2) as nat) + tail,
        ;
        assert(t >= 0) by (nonlinear_arith)
            requires
                t == sel * pow2((28 - o2) as nat) + tail,
                sel >= 0,
                pow2((28 - o2) as nat) >= 0,
                tail >= 0,
        ;
        assert(wd / (pow2(o1) as int) == t * (pow2(w) as int) + v) by (nonlinear_arith)
            requires
                wd / (pow2(o1) as int) == v + pow2(w) * t,
        ;
        lemma_fundamental_div_mod_converse(wd / (pow2(o1) as int), pow2(w) as int, t, v);
        lemma_div_denominator(wd, pow2(o1) as int, pow2(w) as int);
    }
}

/// Slot `j` of the packed word, shifted down and masked to its width,
/// is exactly the value that was packed into it.
pub(crate) proof fn lemma_slot_extract(vals: Seq<u32>, sel: int, j: int)
    requires
        0 <= sel < 16,
        layout_fits(vals, sel),
        0 <= j < avail(vals, sel),
    ensures
        ((sel * pow2(28) + pack_from(vals, sel, 0)) / (pow2(slot_offset(sel, j) as nat) as int))
            % (pow2(slot_width(sel, j) as nat) as int) == vals[j],
{
    let a = avail(vals, sel);
    let wd = (sel * pow2(28) + pack_from(vals, sel, 0)) as int;
    lemma_unpack(vals, sel, j);
    lemma_unpack(vals, sel, j + 1);
    lemma_layout(sel, j);
    let o1 = slot_offset(sel, j) as nat;
    let w = slot_width(sel, j) as nat;
    let o2 = slot_offset(sel, j + 1) as nat;
    let v = vals[j] as int;
    let tail = pack_from(vals, sel, j + 1) as int;
    let t = sel * pow2((28 - o2) as nat) + tail;
    lemma_pow2_adds(w, (28 - o2) as nat);
    lemma_pow2_pos(w);
    assert(pack_from(vals, sel, j) == vals[j] + pow2(w) * pack_from(vals, sel, j + 1));
    assert(wd / (pow2(o1) as int) == t * (pow2(w) as int) + v) by (nonlinear_arith)
        requires
            wd / (pow2(o1) as int) == sel * pow2((28 - o1) as nat) + v + pow2(w) * tail,
            pow2((28 - o1) as nat) == pow2(w) * pow2((28 - o2) as nat),
            t == sel * pow2((28 - o2) as nat) + tail,
    ;
    assert(t >= 0) by (nonlinear_arith)
        requires
            t == sel * pow2((28 - o2) as nat) + tail,
            sel >= 0,
            pow2((28 - o2) as nat) >= 0,
            tail >= 0,
    ;
    lemma_fundamental_div_mod_converse(wd / (pow2(o1) as int), pow2(w) as int, t, v);
}

/// A slot past the consumed values holds zero: nothing was packed there.
pub(crate) proof fn lemma_padding_extract(vals: Seq<u32>, sel: int, j: int)
    requires
        0 <= sel < 16,
        layout_fits(vals, sel),
        avail(vals, sel) <= j < slot_count(sel),
    ensures
        ((sel * pow2(28) + pack_from(vals, sel, 0)) / (pow2(slot_offset(sel, j) as nat) as int))
            % (pow2(slot_width(sel, j) as nat) as int) == 0,
{
    let a = avail(vals, sel);
    let wd = (sel * pow2(28) + pack_from(vals, sel, 0)) as int;
    let low = pack_from(vals, sel, 0) as int;
    lemma_pack_from_bound(vals, sel, 0);
    lemma_layout(sel, 0);
    lemma_layout(sel, j);
    lemma_offset_mono(sel, a, j);
    let o = slot_offset(sel, j) as nat;
    let w = slot_width(sel, j) as nat;
    if slot_offset(sel, a) < o {
        lemma_pow2_strictly_increases(slot_offset(sel, a) as nat, o);
    }
    lemma_pow2_adds(o, (28 - o) as nat);
    lemma_pow2_adds(w, (28 - o - w) as nat);
    lemma_pow2_pos(o);
    lemma_pow2_pos(w);
    let q = sel * pow2((28 - o) as nat);
    assert(wd == q * (pow2(o) as int) + low) by (nonlinear_arith)
        requires
            wd == sel * pow2(28) + low,
            pow2(28) == pow2(o) * pow2((28 - o) as nat),
            q == sel * pow2((28 - o) as nat),
    ;
    assert(q >= 0) by (nonlinear_arith)
        requires
            q == sel * pow2((28 - o) as nat),
            sel >= 0,
            pow2((28 - o) as nat) >= 0,
    ;
    lemma_fundamental_div_mod_converse(wd, pow2(o) as int, q, low);
    let q2 = sel * pow2((28 - o - w) as nat);
    assert(q == q2 * (pow2(w) as int) + 0) by (nonlinear_arith)
        requires
            q == sel * pow2((28 - o) as nat),
            pow2((28 - o) as nat) == pow2(w) * pow2((28 - o - w) as nat),
            q2 == sel * pow2((28 - o - w) as nat),
    ;
    assert(q2 >= 0) by (nonlinear_arith)
        requires
            q2 == sel * pow2((28 - o - w) as nat),
            sel >= 0,
            pow2((28 - o - w) as nat) >= 0,
    ;
    lemma_fundamental_div_mod_converse(q, pow2(w) as int, q2, 0);
}

/// Decoding the word the greedy choice produced gives back the consumed
/// values, in order, followed only by zero-valued padding slots.
pub proof fn lemma_word_roundtrip(vals: Seq<u32>)
    requires
        vals.len() >= 1,
        seq_in_range(vals),
    ensures
        word_sel(word_of(vals)) == chosen_sel(vals),
        decode_word(word_of(vals)).len() == slot_count(chosen_sel(vals)),
        consumed(vals) <= slot_count(chosen_sel(vals)),
        forall|j: int|
            0 <= j < consumed(vals) ==> #[trigger] decode_word(word_of(vals))[j] == vals[j],
        forall|j: int|
            consumed(vals) <= j < slot_count(chosen_sel(vals)) ==> #[trigger] decode_word(
                word_of(vals),
            )[j] == 0,
        consumed(vals) < vals.len() ==> consumed(vals) == slot_count(chosen_sel(vals)),
{
    let sel = chosen_sel(vals);
    let a = avail(vals, sel);
    lemma_chosen(vals);
    lemma_word_fits(vals, sel);
    let wd = (sel * pow2(28) + pack_from(vals, sel, 0)) as int;
    let w = word_of(vals);
    assert(w as int == wd);
    lemma2_to64();
    lemma_fundamental_div_mod_converse(wd, pow2(28) as int, sel, pack_from(vals, sel, 0) as int);
    assert(word_sel(w) == sel);
    assert forall|j: int| 0 <= j < consumed(vals) implies #[trigger] decode_word(w)[j]
        == vals[j] by {
        lemma_slot_extract(vals, sel, j);
    }
    assert forall|j: int| consumed(vals) <= j < slot_count(sel) implies #[trigger] decode_word(
        w,
    )[j] == 0 by {
        lemma_padding_extract(vals, sel, j);
    }
}

/// The words `compress` emits for `vals`, in order: one greedy word for
/// the leading values, then the words for what remains.
pub open spec fn encode_words(vals: Seq<u32>) -> Seq<u32>
    decreases vals.len(),
{
    if vals.len() == 0 {
        Seq::empty()
    } else {
        seq![word_of(vals)] + encode_words(vals.skip(consumed(vals)))
    }
}

/// The number of bytes `calculate_size` reports for `vals`: four per word,
/// counted by the same greedy consumption as the encoder.
pub open spec fn size_of(vals: Seq<u32>) -> int
    decreases vals.len(),
{
    if vals.len() == 0 {
        0
    } else {
        4 + size_of(vals.skip(consumed(vals)))
    }
}

/// The values a word stream decodes to: each word's slots, concatenated.
pub open spec fn decode_words(ws: Seq<u32>) -> Seq<u32>
    decreases ws.len(),
{
    if ws.len() == 0 {
        Seq::empty()
    } else {
        decode_word(ws[0]) + decode_words(ws.skip(1))
    }
}

/// The four bytes of a word, least significant first.
pub open spec fn word_bytes(w: u32) -> Seq<u8> {
    seq![
        (w as nat % 256) as u8,
        ((w as nat / 256) % 256) as u8,
        ((w as nat / 65536) % 256) as u8,
        ((w as nat / 16777216) % 256) as u8,
    ]
}

/// A word stream serialized as little-endian bytes.
pub open spec fn words_to_bytes(ws: Seq<u32>) -> Seq<u8>
    decreases ws.len(),
{
    if ws.len() == 0 {
        Seq::empty()
    } else {
        word_bytes(ws[0]) + words_to_bytes(ws.skip(1))
    }
}

/// The bytes `compress` appends for `vals`.
pub open spec fn encode_bytes(vals: Seq<u32>) -> Seq<u8> {
    words_to_bytes(encode_words(vals))
}

/// The word stored at word index `k` of a little-endian byte stream.
pub open spec fn word_at(bytes: Seq<u8>, k: int) -> u32 {
    (bytes[4 * k] as nat + 256 * (bytes[4 * k + 1] as nat) + 65536 * (bytes[4 * k + 2] as nat)
        + 16777216 * (bytes[4 * k + 3] as nat)) as u32
}

/// The words of a little-endian byte stream; a trailing fragment shorter
/// than a word is ignored.
pub open spec fn bytes_to_words(bytes: Seq<u8>) -> Seq<u32> {
    Seq::new(bytes.len() / 4, |k: int| word_at(bytes, k))
}

/// The values `decompress` appends for a well-aligned byte stream.
pub open spec fn decode_bytes(bytes: Seq<u8>) -> Seq<u32> {
    decode_words(bytes_to_words(bytes))
}

/// A word stream takes four bytes per word.
pub proof fn lemma_words_to_bytes_len(ws: Seq<u32>)
    ensures
        words_to_bytes(ws).len() == 4 * ws.len(),
    decreases ws.len(),
{
    if ws.len() > 0 {
        lemma_words_to_bytes_len(ws.skip(1));
    }
}

/// The four little-endian bytes of a word reassemble to that word.
proof fn lemma_word_bytes_value(w: u32)
    ensures
        (word_bytes(w)[0] as nat) + 256 * (word_bytes(w)[1] as nat) + 65536 * (word_bytes(
            w,
        )[2] as nat) + 16777216 * (word_bytes(w)[3] as nat) == w,
{
    let u = w as nat;
    lemma_fundamental_div_mod(u as int, 256);
    lemma_fundamental_div_mod((u / 256) as int, 256);
    lemma_fundamental_div_mod((u / 65536) as int, 256);
    lemma_div_denominator(u as int, 256, 256);
    lemma_div_denominator(u as int, 65536, 256);
    assert(u / 16777216 < 256) by {
        assert(u < 0x100000000);
        lemma_div_is_ordered(u as int, 0xffffffff, 16777216);
    }
}

/// Parsing a serialized word stream gives the words back.
pub proof fn lemma_bytes_words_roundtrip(ws: Seq<u32>)
    ensures
        bytes_to_words(words_to_bytes(ws)) == ws,
    decreases ws.len(),
{
    lemma_words_to_bytes_len(ws);
    if ws.len() == 0 {
        assert(bytes_to_words(words_to_bytes(ws)) =~= ws);
    } else {
        let tail = ws.skip(1);
        lemma_bytes_words_roundtrip(tail);
        lemma_words_to_bytes_len(tail);
        let bs = words_to_bytes(ws);
        let tb = words_to_bytes(tail);
        assert forall|k: int| 0 <= k < ws.len() implies bytes_to_words(bs)[k] == ws[k] by {
            if k == 0 {
                lemma_word_bytes_value(ws[0]);
                assert(bs[0] == word_bytes(ws[0])[0]);
                assert(bs[1] == word_bytes(ws[0])[1]);
                assert(bs[2] == word_bytes(ws[0])[2]);
                assert(bs[3] == word_bytes(ws[0])[3]);
            } else {
                assert(bs[4 * k] == tb[4 * (k - 1)]);
                assert(bs[4 * k + 1] == tb[4 * (k - 1) + 1]);
                assert(bs[4 * k + 2] == tb[4 * (k - 1) + 2]);
                assert(bs[4 * k + 3] == tb[4 * (k - 1) + 3]);
                assert(word_at(bs, k) == word_at(tb, k - 1));
                assert(bytes_to_words(tb)[k - 1] == tail[k - 1]);
            }
        }
        assert(bytes_to_words(bs) =~= ws);
    }
}

/// The suffix of a sequence is in range if the whole sequence is.
pub proof fn lemma_skip_in_range(vals: Seq<u32>, n: int)
    requires
        seq_in_range(vals),
        0 <= n <= vals.len(),
    ensures
        seq_in_range(vals.skip(n)),
{
    assert forall|i: int| 0 <= i < vals.skip(n).len() implies #[trigger] vals.skip(n)[i]
        <= MAX by {
        assert(vals.skip(n)[i] == vals[n + i]);
    }
}

/// Round trip at the word level: decoding the encoded words of `vals`
/// yields `vals` itself, then zero-valued padding from the final word.
pub proof fn lemma_words_roundtrip(vals: Seq<u32>)
    requires
        seq_in_range(vals),
    ensures
        decode_words(encode_words(vals)).len() >= vals.len(),
        decode_words(encode_words(vals)).take(vals.len() as int) == vals,
    decreases vals.len(),
{
    if vals.len() == 0 {
        assert(decode_words(encode_words(vals)).take(0) =~= vals);
    } else {
        let c = consumed(vals);
        let sel = chosen_sel(vals);
        let rest = vals.skip(c);
        lemma_consumed(vals);
        lemma_word_roundtrip(vals);
        lemma_skip_in_range(vals, c);
        lemma_words_roundtrip(rest);
        let ws = encode_words(vals);
        assert(ws[0] == word_of(vals));
        assert(ws.skip(1) =~= encode_words(rest));
        let d = decode_words(ws);
        let dw = decode_word(word_of(vals));
        let dr = decode_words(encode_words(rest));
        assert(d == dw + dr);
        if c < vals.len() {
            assert(dw.len() == c);
        }
        assert forall|i: int| 0 <= i < vals.len() implies d.take(vals.len() as int)[i]
            == vals[i] by {
            if i < c {
                assert(dw[i] == vals[i]);
            } else {
                assert(dw.len() == c);
                assert(d[i] == dr[i - c]);
                assert(dr.take(rest.len() as int)[i - c] == rest[i - c]);
                assert(rest[i - c] == vals[i]);
            }
        }
        assert(d.take(vals.len() as int) =~= vals);
    }
}

/// Round trip: decoding an encoded stream yields the original values,
/// possibly followed by zero-valued padding from the final word.
pub proof fn lemma_round_trip(vals: Seq<u32>)
    requires
        seq_in_range(vals),
    ensures
        encode_bytes(vals).len() % 4 == 0,
        decode_bytes(encode_bytes(vals)).len() >= vals.len(),
        decode_bytes(encode_bytes(vals)).take(vals.len() as int) == vals,
{
    lemma_words_to_bytes_len(encode_words(vals));
    lemma_bytes_words_roundtrip(encode_words(vals));
    lemma_words_roundtrip(vals);
}

/// Size coherence: the byte count the estimator reports equals the length
/// of the byte stream the encoder produces.
pub proof fn lemma_size_coherence(vals: Seq<u32>)
    ensures
        size_of(vals) == encode_bytes(vals).len(),
    decreases vals.len(),
{
    if vals.len() == 0 {
    } else {
        let rest = vals.skip(consumed(vals));
        lemma_size_coherence(rest);
        assert(encode_words(vals).skip(1) =~= encode_words(rest));
        lemma_words_to_bytes_len(encode_words(vals));
        lemma_words_to_bytes_len(encode_words(rest));
    }
}

/// If every layout before `i` fails and `i` fits (or is the last), the
/// greedy rule picks `i`.
pub(crate) proof fn lemma_chosen_is(vals: Seq<u32>, i: int)
    requires
        0 <= i <= 15,
        forall|s: int| 0 <= s < i ==> !layout_fits(vals, s),
        i == 15 || layout_fits(vals, i),
    ensures
        chosen_sel(vals) == i,
{
    lemma_chosen_from_is(vals, 0, i);
}

proof fn lemma_chosen_from_is(vals: Seq<u32>, k: int, i: int)
    requires
        0 <= k <= i <= 15,
        forall|s: int| 0 <= s < i ==> !layout_fits(vals, s),
        i == 15 || layout_fits(vals, i),
    ensures
        chosen_from(vals, k) == i,
    decreases i - k,
{
    if k < i {
        lemma_chosen_from_is(vals, k + 1, i);
    }
}

/// One greedy step of the encoder, seen at the byte level.
pub(crate) proof fn lemma_encode_step(vals: Seq<u32>)
    requires
        vals.len() >= 1,
    ensures
        encode_bytes(vals) == word_bytes(word_of(vals)) + encode_bytes(vals.skip(consumed(vals))),
{
    let ws = encode_words(vals);
    assert(ws[0] == word_of(vals));
    assert(ws.skip(1) =~= encode_words(vals.skip(consumed(vals))));
}

/// One word of the decoder, taken off the front of the remaining stream.
pub(crate) proof fn lemma_decode_step(ws: Seq<u32>, k: int)
    requires
        0 <= k < ws.len(),
    ensures
        decode_words(ws.skip(k)) == decode_word(ws[k]) + decode_words(ws.skip(k + 1)),
{
    assert(ws.skip(k)[0] == ws[k]);
    assert(ws.skip(k).skip(1) =~= ws.skip(k + 1));
}

/// The encoded stream never takes more than four bytes per value: every
/// word consumes at least one value.
pub proof fn lemma_size_bound(vals: Seq<u32>)
    ensures
        0 <= size_of(vals) <= 4 * vals.len(),
    decreases vals.len(),
{
    if vals.len() > 0 {
        lemma_size_bound(vals.skip(consumed(vals)));
    }
}

/// Greedy density: with at least twenty-eight zeros ahead, the packer
/// picks layout 0 and fills all its one-bit slots.
pub proof fn lemma_zero_run(vals: Seq<u32>)
    requires
        vals.len() >= 28,
        forall|i: int| 0 <= i < vals.len() ==> #[trigger] vals[i] == 0,
    ensures
        chosen_sel(vals) == 0,
        consumed(vals) == 28,
{
    lemma2_to64();
    assert(layout_fits(vals, 0));
}

} // verus!
