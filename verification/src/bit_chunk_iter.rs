//! Row realignment: a byte buffer, read as a flat sequence of bits with the
//! most significant bit of each byte first, is repacked into rows of 64-bit
//! words. Each row of `W` bits starts a word of its own and is left-justified;
//! the bits of its last word that lie beyond the row are zero.

use vstd::prelude::*;

verus! {

/// Bit `i` of the buffer, most significant bit of each byte first. Beyond the
/// end of the buffer every bit is zero.
pub open spec fn bit_at(data: Seq<u8>, i: int) -> bool {
    0 <= i < 8 * data.len() && (data[i / 8] >> ((7 - i % 8) as u8)) & 1 == 1
}

/// Bit `b` of a word, counted from the most significant one.
pub open spec fn word_bit(word: u64, b: int) -> bool {
    0 <= b < 64 && (word >> ((63 - b) as u64)) & 1 == 1
}

/// Bit `p` of a block, counted from the least significant one.
spec fn block_bit(block: u128, p: int) -> bool {
    0 <= p < 128 && (block >> (p as u128)) & 1 == 1
}

proof fn lemma_shift_in(old: u128, byte: u8, p: u128)
    by (bit_vector)
    requires
        p < 128,
    ensures
        ((((old << 8) | (byte as u128)) >> p) & 1 == 1) == (if p < 8 {
            (byte >> (p as u8)) & 1 == 1
        } else {
            (old >> ((p - 8) as u128)) & 1 == 1
        }),
{
}

proof fn lemma_window(block: u128, offset: u8, q: u64)
    by (bit_vector)
    requires
        offset < 8,
        q < 64,
    ensures
        ((((block >> ((64 - offset) as u128)) as u64) >> q) & 1 == 1) == ((block >> ((q as u128)
            + 64 - (offset as u128)) as u128) & 1 == 1),
{
}

/// The 64 bits of the buffer that start `offset` bits into byte `idx`. Nine
/// bytes at most are loaded into a block that starts out as zero; the block is
/// read as a big-endian integer and shifted into place.
pub fn read_word(data: &[u8], idx: usize, offset: u8) -> (word: u64)
    requires
        offset < 8,
    ensures
        forall|b: int| 0 <= b < 64 ==> #[trigger] word_bit(word, b) == bit_at(data@, 8 * idx + offset + b),
{
    let available = if idx < data.len() {
        data.len() - idx
    } else {
        0
    };
    let to_load: usize = if available < 9 {
        available
    } else {
        9
    };
    let mut block: u128 = 0;
    let mut k: usize = 0;
    proof {
        assert forall|p: int| 0 <= p < 128 implies !block_bit(0u128, p) by {
            let pp = p as u128;
            assert((0u128 >> pp) & 1 == 0) by (bit_vector);
        }
    }
    while k < 16
        invariant
            k <= 16,
            to_load <= 9,
            data@.len() <= usize::MAX,
            to_load > 0 ==> idx + to_load <= data@.len(),
            to_load < 9 ==> idx + to_load >= data@.len(),
            forall|p: int|
                0 <= p < 128 ==> #[trigger] block_bit(block, p) == (p < 8 * k && 8 * k - 1 - p < 72
                    && bit_at(data@, 8 * idx + 8 * k - 1 - p)),
        decreases 16 - k,
    {
        let byte: u8 = if k < to_load {
            data[idx + k]
        } else {
            0
        };
        let ghost before = block;
        block = (block << 8) | (byte as u128);
        proof {
            assert forall|p: int| 0 <= p < 128 implies #[trigger] block_bit(block, p) == (p < 8 * (
            k + 1) && 8 * (k + 1) - 1 - p < 72 && bit_at(data@, 8 * idx + 8 * (k + 1) - 1 - p)) by {
                lemma_shift_in(before, byte, p as u128);
                if p < 8 {
                    let i = 8 * idx + 8 * k + 7 - p;
                    assert(i / 8 == idx + k);
                    assert(i % 8 == 7 - p);
                    if k >= to_load {
                        let q = p as u8;
                        assert((0u8 >> q) & 1 == 0) by (bit_vector);
                    }
                } else {
                    assert(block_bit(before, p - 8) == (p - 8 < 8 * k && 8 * k - 1 - (p - 8) < 72
                        && bit_at(data@, 8 * idx + 8 * k - 1 - (p - 8))));
                }
            }
        }
        k += 1;
    }
    let word = #[verifier::truncate]
    ((block >> ((64 - offset) as u128)) as u64);
    proof {
        assert forall|b: int| 0 <= b < 64 implies #[trigger] word_bit(word, b) == bit_at(
            data@,
            8 * idx + offset + b,
        ) by {
            lemma_window(block, offset, (63 - b) as u64);
            assert(block_bit(block, 127 - b - offset) == (127 - b - offset < 128 && 128 - 1 - (127
                - b - offset) < 72 && bit_at(data@, 8 * idx + 128 - 1 - (127 - b - offset))));
        }
    }
    word
}

/// The number of words of a row of `w` bits: `ceil(w / 64)`.
pub open spec fn words_per_row(w: int) -> int {
    (w + 63) / 64
}

/// The number of complete rows of `w` bits in a buffer of `len` bytes.
pub open spec fn row_count(len: int, w: int) -> int {
    (8 * len) / w
}

/// Bit `b` of word `idx` of the aligned rows: the words of a row follow one
/// another, and so do the rows.
pub open spec fn aligned_bit(data: Seq<u8>, w: int, idx: int, b: int) -> bool {
    let column = 64 * (idx % words_per_row(w)) + b;
    column < w && bit_at(data, (idx / words_per_row(w)) * w + column)
}

/// Whether `out` holds the rows of `w` bits of `data`: one word for each 64
/// bits of a row, and in each word the bits of the row, then zeros.
pub open spec fn is_aligned(out: Seq<u64>, data: Seq<u8>, w: int) -> bool {
    &&& out.len() == row_count(data.len() as int, w) * words_per_row(w)
    &&& forall|idx: int, b: int|
        0 <= idx < out.len() && 0 <= b < 64 ==> #[trigger] word_bit(out[idx], b) == aligned_bit(
            data,
            w,
            idx,
            b,
        )
}

/// Bit `c` of row `r` of the aligned rows.
pub open spec fn row_bit(out: Seq<u64>, w: int, r: int, c: int) -> bool {
    word_bit(out[r * words_per_row(w) + c / 64], c % 64)
}

/// The word that eight bytes from byte `i` on make, the first byte the most
/// significant.
pub open spec fn be_word(data: Seq<u8>, i: int) -> u64 {
    (data[i] as u64) << 56 | (data[i + 1] as u64) << 48 | (data[i + 2] as u64) << 40 | (data[i
        + 3] as u64) << 32 | (data[i + 4] as u64) << 24 | (data[i + 5] as u64) << 16 | (data[i
        + 6] as u64) << 8 | (data[i + 7] as u64)
}

proof fn lemma_mask(word: u64, trail: u64, q: u64)
    by (bit_vector)
    requires
        trail < 64,
        q < 64,
    ensures
        (((word & (0xFFFF_FFFF_FFFF_FFFFu64 << trail)) >> q) & 1 == 1) == (q >= trail && (word >> q)
            & 1 == 1),
{
}

/// How the row width splits into words, and what is left of the last word.
proof fn lemma_row_shape(w: int)
    requires
        0 < w,
    ensures
        ({
            let t = (w - 1) % 64;
            let words = (w - 1) / 64 + 1;
            let trail = 63 - t;
            &&& words == words_per_row(w)
            &&& 0 < words <= w
            &&& w == 64 * (words - 1) + t + 1
            &&& 0 <= trail < 64
            &&& 8 * ((trail + 7) / 8) - trail == w % 8
            &&& 0 <= (trail + 7) / 8 <= 8
        }),
{
}

/// The rows of `W` bits of the buffer, each in `ceil(W / 64)` words. What is
/// left of the buffer after the last complete row is dropped.
pub fn align<const W: usize>(data: &[u8]) -> (out: Vec<u64>)
    requires
        W > 0,
        data@.len() * 8 <= usize::MAX,
    ensures
        is_aligned(out@, data@, W as int),
{
    let total_bits = data.len() * 8;

    let last = (W - 1) % 64;
    let words = (W - 1) / 64 + 1;
    let lines = total_bits / W;
    let mut out: Vec<u64> = Vec::new();

    let mut roff: u8 = 0;
    let mut pos: usize = 0;

    let trail = 63 - last;
    let overf = (trail + 7) / 8;
    let cerr = (W % 8) as u8;

    let mask_n: u64 = 0xFFFF_FFFF_FFFF_FFFFu64 << (trail as u64);

    proof {
        lemma_row_shape(W as int);
    }
    let mut line: usize = 0;
    while line < lines
        invariant
            W > 0,
            data@.len() * 8 <= usize::MAX,
            total_bits == data@.len() * 8,
            lines == total_bits / W,
            last == (W - 1) % 64,
            words == words_per_row(W as int),
            trail == 63 - last,
            overf == (trail + 7) / 8,
            cerr == W % 8,
            mask_n == 0xFFFF_FFFF_FFFF_FFFFu64 << (trail as u64),
            line <= lines,
            roff < 8,
            8 * pos + roff == line * W,
            out@.len() == line * words,
            forall|idx: int, b: int|
                0 <= idx < out@.len() && 0 <= b < 64 ==> #[trigger] word_bit(out@[idx], b)
                    == aligned_bit(data@, W as int, idx, b),
        decreases lines - line,
    {
        proof {
            lemma_row_shape(W as int);
            lemma_row_fits(line as int, lines as int, W as int, total_bits as int);
        }
        let mut j: usize = 0;
        while j < words
            invariant
                W > 0,
                data@.len() * 8 <= usize::MAX,
                total_bits == data@.len() * 8,
                last == (W - 1) % 64,
                words == words_per_row(W as int),
                trail == 63 - last,
                overf == (trail + 7) / 8,
                cerr == W % 8,
                mask_n == 0xFFFF_FFFF_FFFF_FFFFu64 << (trail as u64),
                (line + 1) * W <= total_bits,
                j <= words,
                roff < 8,
                j < words ==> 8 * pos + roff == line * W + 64 * j,
                j == words ==> 8 * pos + roff == (line + 1) * W,
                out@.len() == line * words + j,
                forall|idx: int, b: int|
                    0 <= idx < out@.len() && 0 <= b < 64 ==> #[trigger] word_bit(out@[idx], b)
                        == aligned_bit(data@, W as int, idx, b),
            decreases words - j,
        {
            proof {
                lemma_row_shape(W as int);
                assert((line + 1) * W == line * W + W) by (nonlinear_arith);
            }
            let ghost start = 8 * pos + roff;
            let ghost done = out@;
            let mut word = read_word(data, pos, roff);
            pos += 8;
            if j + 1 == words {
                let ghost full = word;
                word &= mask_n;

                let sum: u8 = roff + cerr;
                pos -= overf;
                if sum >= 8 {
                    pos += 1;
                }
                roff = sum & 7;
                proof {
                    assert(sum & 7 == sum % 8) by (bit_vector);
                    assert forall|b: int| 0 <= b < 64 implies #[trigger] word_bit(word, b) == (b
                        < 64 - trail && word_bit(full, b)) by {
                        lemma_mask(full, trail as u64, (63 - b) as u64);
                    }
                }
            }
            out.push(word);
            proof {
                let at = line * words + j;
                vstd::arithmetic::div_mod::lemma_fundamental_div_mod_converse(
                    at as int,
                    words as int,
                    line as int,
                    j as int,
                );
                assert forall|idx: int, b: int|
                    0 <= idx < out@.len() && 0 <= b < 64 implies #[trigger] word_bit(out@[idx], b)
                    == aligned_bit(data@, W as int, idx, b) by {
                    if idx < done.len() {
                        assert(out@[idx] == done[idx]);
                    }
                }
            }
            j += 1;
        }
        proof {
            assert((line + 1) * words == line * words + words) by (nonlinear_arith);
        }
        line += 1;
    }
    out
}

/// Every row before the last complete one ends inside the buffer.
proof fn lemma_row_fits(line: int, lines: int, w: int, total: int)
    requires
        0 <= line < lines,
        0 < w,
        0 <= total,
        lines == total / w,
    ensures
        (line + 1) * w <= total,
{
    vstd::arithmetic::div_mod::lemma_fundamental_div_mod(total, w);
    vstd::arithmetic::div_mod::lemma_mod_bound(total, w);
    assert((line + 1) * w <= lines * w) by (nonlinear_arith)
        requires
            line + 1 <= lines,
            0 < w,
    ;
    assert(w * (total / w) == (total / w) * w) by (nonlinear_arith);
}

/// Where column `c` of row `r` is found among the words.
proof fn lemma_row_cell(rows: int, w: int, r: int, c: int)
    requires
        0 < w,
        0 <= r < rows,
        0 <= c < 64 * words_per_row(w),
    ensures
        ({
            let words = words_per_row(w);
            let idx = r * words + c / 64;
            &&& 0 <= idx < rows * words
            &&& idx / words == r
            &&& idx % words == c / 64
            &&& 0 <= c % 64 < 64
            &&& 64 * (c / 64) + c % 64 == c
        }),
{
    let words = words_per_row(w);
    lemma_row_shape(w);
    assert(0 <= c / 64 < words);
    vstd::arithmetic::div_mod::lemma_fundamental_div_mod_converse(
        r * words + c / 64,
        words,
        r,
        c / 64,
    );
    assert(r * words + words <= rows * words) by (nonlinear_arith)
        requires
            r + 1 <= rows,
            0 < words,
    ;
    assert(0 <= r * words) by (nonlinear_arith)
        requires
            0 <= r,
            0 < words,
    ;
}

/// The first `w` bits of every row, one row after the other, are the bits of
/// the buffer up to the end of its last complete row.
pub proof fn law_round_trip(out: Seq<u64>, data: Seq<u8>, w: int)
    requires
        0 < w,
        is_aligned(out, data, w),
    ensures
        forall|i: int|
            0 <= i < row_count(data.len() as int, w) * w ==> #[trigger] row_bit(
                out,
                w,
                i / w,
                i % w,
            ) == bit_at(data, i),
{
    let rows = row_count(data.len() as int, w);
    assert forall|i: int| 0 <= i < rows * w implies #[trigger] row_bit(out, w, i / w, i % w)
        == bit_at(data, i) by {
        let r = i / w;
        let c = i % w;
        vstd::arithmetic::div_mod::lemma_fundamental_div_mod(i, w);
        vstd::arithmetic::div_mod::lemma_mod_bound(i, w);
        vstd::arithmetic::div_mod::lemma_div_pos_is_pos(i, w);
        vstd::arithmetic::div_mod::lemma_multiply_divide_lt(i, w, rows);
        vstd::arithmetic::mul::lemma_mul_is_commutative(w, r);
        lemma_row_shape(w);
        lemma_row_cell(rows, w, r, c);
        let idx = r * words_per_row(w) + c / 64;
        assert(word_bit(out[idx], c % 64) == aligned_bit(data, w, idx, c % 64));
    }
}

/// In every row, the bits from column `w` on are zero.
pub proof fn law_trailing_bits_zero(out: Seq<u64>, data: Seq<u8>, w: int)
    requires
        0 < w,
        is_aligned(out, data, w),
    ensures
        forall|r: int, c: int|
            0 <= r < row_count(data.len() as int, w) && w <= c < 64 * words_per_row(w)
                ==> !#[trigger] row_bit(out, w, r, c),
{
    let rows = row_count(data.len() as int, w);
    assert forall|r: int, c: int| 0 <= r < rows && w <= c < 64 * words_per_row(w) implies !#[trigger] row_bit(
        out,
        w,
        r,
        c,
    ) by {
        lemma_row_cell(rows, w, r, c);
        let idx = r * words_per_row(w) + c / 64;
        assert(word_bit(out[idx], c % 64) == aligned_bit(data, w, idx, c % 64));
    }
}

/// A buffer of ones gives rows whose first `w` bits are ones.
pub proof fn law_all_ones(out: Seq<u64>, data: Seq<u8>, w: int)
    requires
        0 < w,
        is_aligned(out, data, w),
        forall|k: int| 0 <= k < data.len() ==> data[k] == 0xFF,
    ensures
        forall|r: int, c: int|
            0 <= r < row_count(data.len() as int, w) && 0 <= c < w ==> #[trigger] row_bit(
                out,
                w,
                r,
                c,
            ),
{
    let rows = row_count(data.len() as int, w);
    assert forall|r: int, c: int| 0 <= r < rows && 0 <= c < w implies #[trigger] row_bit(
        out,
        w,
        r,
        c,
    ) by {
        lemma_row_shape(w);
        lemma_row_cell(rows, w, r, c);
        let idx = r * words_per_row(w) + c / 64;
        assert(word_bit(out[idx], c % 64) == aligned_bit(data, w, idx, c % 64));
        let i = r * w + c;
        lemma_row_fits(r, rows, w, 8 * (data.len() as int));
        assert((r + 1) * w == r * w + w) by (nonlinear_arith);
        assert(0 <= r * w) by (nonlinear_arith)
            requires
                0 <= r,
                0 < w,
        ;
        assert(0 <= i < 8 * data.len());
        let q = (7 - i % 8) as u8;
        assert(q < 8 ==> (0xFFu8 >> q) & 1 == 1) by (bit_vector);
    }
}

proof fn lemma_be_word_bit(
    b0: u8,
    b1: u8,
    b2: u8,
    b3: u8,
    b4: u8,
    b5: u8,
    b6: u8,
    b7: u8,
    q: u64,
)
    by (bit_vector)
    requires
        q < 64,
    ensures
        (((((b0 as u64) << 56 | (b1 as u64) << 48 | (b2 as u64) << 40 | (b3 as u64) << 32 | (
        b4 as u64) << 24 | (b5 as u64) << 16 | (b6 as u64) << 8 | (b7 as u64)) >> q) & 1) == 1) == ((
        (if q < 8 {
            b7
        } else if q < 16 {
            b6
        } else if q < 24 {
            b5
        } else if q < 32 {
            b4
        } else if q < 40 {
            b3
        } else if q < 48 {
            b2
        } else if q < 56 {
            b1
        } else {
            b0
        }) >> ((q % 8) as u8)) & 1 == 1),
{
}

/// Two words that agree in bit `n` and in the bits above it agree from bit
/// `n` up.
proof fn lemma_word_ext_from(x: u64, y: u64, n: u64)
    requires
        n < 64,
        forall|q: u64| q < 64 ==> ((x >> q) & 1 == 1) == ((y >> q) & 1 == 1),
    ensures
        x >> n == y >> n,
    decreases 64 - n,
{
    assert(((x >> n) & 1 == 1) == ((y >> n) & 1 == 1));
    if n == 63 {
        assert(x >> 63 == y >> 63) by (bit_vector)
            requires
                ((x >> 63) & 1 == 1) == ((y >> 63) & 1 == 1),
        ;
    } else {
        let m = (n + 1) as u64;
        lemma_word_ext_from(x, y, m);
        assert(x >> n == y >> n) by (bit_vector)
            requires
                n < 63,
                m == n + 1,
                x >> m == y >> m,
                ((x >> n) & 1 == 1) == ((y >> n) & 1 == 1),
        ;
    }
}

/// Two words that agree in every bit are the same word.
proof fn lemma_word_ext(x: u64, y: u64)
    requires
        forall|q: u64| q < 64 ==> ((x >> q) & 1 == 1) == ((y >> q) & 1 == 1),
    ensures
        x == y,
{
    lemma_word_ext_from(x, y, 0);
    assert(x == y) by (bit_vector)
        requires
            x >> 0 == y >> 0,
    ;
}

/// Where the row width is a multiple of 64, the words are the buffer itself,
/// eight bytes to the word.
pub proof fn law_whole_words(out: Seq<u64>, data: Seq<u8>, w: int)
    requires
        0 < w,
        w % 64 == 0,
        is_aligned(out, data, w),
    ensures
        forall|idx: int| 0 <= idx < out.len() ==> #[trigger] out[idx] == be_word(data, 8 * idx),
{
    let rows = row_count(data.len() as int, w);
    let words = words_per_row(w);
    lemma_row_shape(w);
    assert(w == 64 * words);
    assert forall|idx: int| 0 <= idx < out.len() implies #[trigger] out[idx] == be_word(
        data,
        8 * idx,
    ) by {
        let r = idx / words;
        let j = idx % words;
        vstd::arithmetic::div_mod::lemma_fundamental_div_mod(idx, words);
        vstd::arithmetic::div_mod::lemma_mod_bound(idx, words);
        vstd::arithmetic::div_mod::lemma_div_pos_is_pos(idx, words);
        vstd::arithmetic::div_mod::lemma_multiply_divide_lt(idx, words, rows);
        vstd::arithmetic::mul::lemma_mul_is_commutative(words, r);
        lemma_row_fits(r, rows, w, 8 * (data.len() as int));
        assert((r + 1) * w == r * w + w) by (nonlinear_arith);
        assert(r * w == 64 * (r * words)) by (nonlinear_arith)
            requires
                w == 64 * words,
        ;
        assert(8 * idx + 8 <= data.len());
        let x = out[idx];
        let y = be_word(data, 8 * idx);
        assert forall|q: u64| q < 64 implies ((x >> q) & 1 == 1) == ((y >> q) & 1 == 1) by {
            let b = 63 - q as int;
            assert(word_bit(x, b) == aligned_bit(data, w, idx, b));
            lemma_be_word_bit(
                data[8 * idx],
                data[8 * idx + 1],
                data[8 * idx + 2],
                data[8 * idx + 3],
                data[8 * idx + 4],
                data[8 * idx + 5],
                data[8 * idx + 6],
                data[8 * idx + 7],
                q,
            );
            let i = 64 * idx + b;
            assert(i / 8 == 8 * idx + b / 8);
            assert(i % 8 == b % 8);
            assert((63 - b) as u64 == q);
            assert(q % 8 == 7 - b % 8);
        }
        lemma_word_ext(x, y);
    }
}

} // verus!
