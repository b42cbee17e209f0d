//! Bit runs inside byte buffers.
//!
//! Bits are numbered from the most significant bit of the first byte: bit
//! `p` of a buffer is bit `p % 8` of byte `p / 8`, and bit 0 of a byte is
//! its top bit.

use crate::scratch::{bytes_mut, zeroed_bytes};
use vstd::prelude::*;

verus! {

/// Bit `j` of a byte, counted from the most significant one.
pub open spec fn byte_bit(b: u8, j: u8) -> bool {
    b & (0x80u8 >> j) != 0
}

/// Bit `p` of a byte string.
pub open spec fn bit_at(s: Seq<u8>, p: int) -> bool {
    byte_bit(s[p / 8], (p % 8) as u8)
}

/// The byte with the given bits, most significant first.
pub open spec fn byte_of_bits(
    b0: bool,
    b1: bool,
    b2: bool,
    b3: bool,
    b4: bool,
    b5: bool,
    b6: bool,
    b7: bool,
) -> u8 {
    (if b0 {
        0x80u8
    } else {
        0u8
    }) | (if b1 {
        0x40u8
    } else {
        0u8
    }) | (if b2 {
        0x20u8
    } else {
        0u8
    }) | (if b3 {
        0x10u8
    } else {
        0u8
    }) | (if b4 {
        0x08u8
    } else {
        0u8
    }) | (if b5 {
        0x04u8
    } else {
        0u8
    }) | (if b6 {
        0x02u8
    } else {
        0u8
    }) | (if b7 {
        0x01u8
    } else {
        0u8
    })
}

/// Byte `k` of the string whose bit `p` is `bits(p)`.
#[verifier::opaque]
pub open spec fn packed_byte(bits: spec_fn(int) -> bool, k: int) -> u8 {
    byte_of_bits(
        bits(8 * k),
        bits(8 * k + 1),
        bits(8 * k + 2),
        bits(8 * k + 3),
        bits(8 * k + 4),
        bits(8 * k + 5),
        bits(8 * k + 6),
        bits(8 * k + 7),
    )
}

/// The string of `len` bytes whose bit `p` is `bits(p)`.
pub open spec fn packed_bits(len: nat, bits: spec_fn(int) -> bool) -> Seq<u8> {
    Seq::new(len, |k: int| packed_byte(bits, k))
}

/// The first `size` bytes of `s` moved `d` bits towards the end, each byte
/// taking the bits that leave its predecessor; the rest of `s` is kept.
pub open spec fn shifted_right(s: Seq<u8>, size: int, d: u8) -> Seq<u8> {
    Seq::new(
        s.len(),
        |i: int|
            if i == 0 && 0 < size {
                s[0] >> d
            } else if 0 < i < size {
                (s[i - 1] << ((8 - d) as u8)) | (s[i] >> d)
            } else {
                s[i]
            },
    )
}

/// The first `size` bytes of `s` moved `d` bits towards the start, each byte
/// taking the bits that leave its successor; the last of them takes none,
/// and the rest of `s` is kept.
pub open spec fn shifted_left(s: Seq<u8>, size: int, d: u8) -> Seq<u8> {
    Seq::new(
        s.len(),
        |i: int|
            if 0 <= i < size - 1 {
                (s[i + 1] >> ((8 - d) as u8)) | (s[i] << d)
            } else if i == size - 1 {
                s[i] << d
            } else {
                s[i]
            },
    )
}

/// What `shift_bytes` makes of a buffer: a move towards the end for a
/// positive `delta`, towards the start for a negative one.
pub open spec fn shifted(s: Seq<u8>, size: int, delta: int) -> Seq<u8> {
    if delta > 0 {
        shifted_right(s, size, delta as u8)
    } else if delta < 0 {
        shifted_left(s, size, (-delta) as u8)
    } else {
        s
    }
}

/// Number of bytes that `hash_buffer` reads for a run of `delta` bits that
/// starts at bit `offset_in`: the bytes that hold a bit of the run.
pub open spec fn run_bytes(offset_in: int, delta: int) -> int {
    (offset_in % 8 + delta - 1) / 8 + 1
}

/// Number of bytes of the target that `hash_buffer` rewrites: as many as it
/// reads, and one more where the run starts deeper in its target byte than
/// in its source byte.
pub open spec fn touched_bytes(offset_out: int, offset_in: int, delta: int) -> int {
    run_bytes(offset_in, delta) + if offset_out % 8 > offset_in % 8 {
        1int
    } else {
        0int
    }
}

/// Shifts a byte buffer.
pub fn shift_bytes(out: &mut [u8], size: usize, delta: isize)
    requires
        -8 < delta < 8,
        1 <= size <= old(out)@.len(),
    ensures
        final(out)@ == shifted(old(out)@, size as int, delta as int),
{
    if delta == 0 {
        return ;
    } else if delta > 0 {
        let d: u8 = delta as u8;
        let up: u8 = 8 - d;
        if size > 1 {
            let mut index: usize = size - 1;
            while index >= 1
                invariant
                    0 < d < 8,
                    up == 8 - d,
                    index < size <= out@.len(),
                    out@.len() == old(out)@.len(),
                    forall|i: int| 0 <= i <= index ==> out@[i] == old(out)@[i],
                    forall|i: int| size <= i < out@.len() ==> out@[i] == old(out)@[i],
                    forall|i: int|
                        index < i < size ==> out@[i] == (old(out)@[i - 1] << up) | (old(
                            out,
                        )@[i] >> d),
                decreases index,
            {
                out[index] = (out[index - 1] << up) | (out[index] >> d);
                index = index - 1;
            }
        }
        out[0] = out[0] >> d;
        assert(out@ =~= shifted_right(old(out)@, size as int, d));
    } else {
        let d: u8 = (-delta) as u8;
        let down: u8 = 8 - d;
        if size > 1 {
            let mut index: usize = 0;
            while index < size - 1
                invariant
                    0 < d < 8,
                    down == 8 - d,
                    index < size <= out@.len(),
                    out@.len() == old(out)@.len(),
                    forall|i: int| index <= i < out@.len() ==> out@[i] == old(out)@[i],
                    forall|i: int|
                        0 <= i < index ==> out@[i] == (old(out)@[i + 1] >> down) | (old(
                            out,
                        )@[i] << d),
                decreases size - 1 - index,
            {
                out[index] = (out[index + 1] >> down) | (out[index] << d);
                index = index + 1;
            }
        }
        out[size - 1] = out[size - 1] << d;
        assert(out@ =~= shifted_left(old(out)@, size as int, d));
    }
}

/// Copies the `delta` bits of `input` that start at bit `offset_in` onto
/// the bits of `out` that start at bit `offset_out`, by bitwise or: a set
/// bit of `out` stays set, and no bit outside the run changes. Returns the
/// position behind the run in `out`.
pub fn hash_buffer(
    out: &mut [u8],
    offset_out: usize,
    input: &[u8],
    offset_in: usize,
    delta: usize,
) -> (end: usize)
    requires
        1 <= delta,
        offset_in + delta <= 8 * input@.len(),
        offset_in + delta <= usize::MAX,
        offset_out + delta <= usize::MAX,
        offset_out / 8 + touched_bytes(offset_out as int, offset_in as int, delta as int) <= old(
            out,
        )@.len(),
    ensures
        end == offset_out + delta,
        final(out)@.len() == old(out)@.len(),
        forall|p: int|
            0 <= p < 8 * old(out)@.len() ==> #[trigger] bit_at(final(out)@, p) == (bit_at(
                old(out)@,
                p,
            ) || (offset_out <= p < offset_out + delta && bit_at(
                input@,
                offset_in + (p - offset_out),
            ))),
{
    let first: usize = offset_in / 8;
    let size: usize = (offset_in + delta - 1) / 8 - first + 2;
    let mod_in: usize = offset_in % 8;
    let mod_out: usize = offset_out % 8;
    let input_len: usize = input.len();
    let out_len: usize = out.len();
    assert(size - 1 == run_bytes(offset_in as int, delta as int));

    let mut buffer = zeroed_bytes(size);
    let scratch = bytes_mut(&mut buffer);
    let mut index: usize = 0;
    while index < size - 1
        invariant
            index <= size - 1,
            scratch@.len() == size,
            first + size - 1 <= input_len == input@.len(),
            scratch@[size - 1] == 0,
            forall|i: int| 0 <= i < index ==> scratch@[i] == input@[first + i],
        decreases size - 1 - index,
    {
        scratch[index] = input[first + index];
        index = index + 1;
    }
    let ghost copied = scratch@;

    let disp: usize = (offset_in + delta) % 8;
    if disp != 0 {
        let keep: u8 = (8 - disp) as u8;
        scratch[size - 2] = scratch[size - 2] & (0xFFu8 << keep);
    }
    let ghost masked = scratch@;
    proof {
        lemma_masked_bits(input@, copied, masked, offset_in as int, delta as int);
    }

    shift_bytes(scratch, size - 1, -(mod_in as isize));
    let ghost gathered = scratch@;
    proof {
        lemma_gathered_bits(input@, masked, gathered, offset_in as int, delta as int);
    }

    shift_bytes(scratch, size, mod_out as isize);
    let ghost placed = scratch@;
    proof {
        lemma_placed_bits(
            input@,
            gathered,
            placed,
            offset_out as int,
            offset_in as int,
            delta as int,
        );
    }

    let mod_size: usize = (size - 1) + if mod_out > mod_in {
        1
    } else {
        0
    };
    let base: usize = offset_out / 8;
    let mut index: usize = 0;
    while index < mod_size
        invariant
            index <= mod_size <= size,
            scratch@ == placed,
            placed.len() == size,
            base + mod_size <= out_len == out@.len(),
            out@.len() == old(out)@.len(),
            forall|i: int| 0 <= i < index ==> out@[base + i] == old(out)@[base + i] | placed[i],
            forall|i: int|
                0 <= i < out@.len() && !(base <= i < base + index) ==> out@[i] == old(out)@[i],
        decreases mod_size - index,
    {
        out[base + index] = out[base + index] | scratch[index];
        index = index + 1;
    }
    proof {
        lemma_merged_bits(
            input@,
            placed,
            old(out)@,
            out@,
            offset_out as int,
            offset_in as int,
            delta as int,
        );
    }
    offset_out + delta
}

/// `packed_bits` has the bits it was made from.
pub proof fn lemma_packed_bits(len: nat, bits: spec_fn(int) -> bool, p: int)
    requires
        0 <= p < 8 * len,
    ensures
        bit_at(packed_bits(len, bits), p) == bits(p),
{
    reveal(packed_byte);
    let k = p / 8;
    lemma_byte_of_bits(
        bits(8 * k),
        bits(8 * k + 1),
        bits(8 * k + 2),
        bits(8 * k + 3),
        bits(8 * k + 4),
        bits(8 * k + 5),
        bits(8 * k + 6),
        bits(8 * k + 7),
    );
}

/// Two byte strings of one length that agree in every bit are equal.
pub proof fn lemma_bits_fix_bytes(a: Seq<u8>, b: Seq<u8>)
    requires
        a.len() == b.len(),
        forall|p: int| 0 <= p < 8 * a.len() ==> bit_at(a, p) == bit_at(b, p),
    ensures
        a == b,
{
    assert forall|k: int| 0 <= k < a.len() implies a[k] == b[k] by {
        assert(bit_at(a, 8 * k) == bit_at(b, 8 * k));
        assert(bit_at(a, 8 * k + 1) == bit_at(b, 8 * k + 1));
        assert(bit_at(a, 8 * k + 2) == bit_at(b, 8 * k + 2));
        assert(bit_at(a, 8 * k + 3) == bit_at(b, 8 * k + 3));
        assert(bit_at(a, 8 * k + 4) == bit_at(b, 8 * k + 4));
        assert(bit_at(a, 8 * k + 5) == bit_at(b, 8 * k + 5));
        assert(bit_at(a, 8 * k + 6) == bit_at(b, 8 * k + 6));
        assert(bit_at(a, 8 * k + 7) == bit_at(b, 8 * k + 7));
        lemma_byte_from_bits(a[k], b[k]);
    }
    assert(a =~= b);
}

/// Two bytes of two strings that agree in every bit are equal.
pub proof fn lemma_bits_fix_byte(a: Seq<u8>, i: int, b: Seq<u8>, k: int)
    requires
        0 <= i < a.len(),
        0 <= k < b.len(),
        forall|p: int|
            8 * i <= p < 8 * i + 8 ==> #[trigger] bit_at(a, p) == bit_at(b, 8 * k + (p - 8 * i)),
    ensures
        a[i] == b[k],
{
    let left = seq![a[i]];
    let right = seq![b[k]];
    assert forall|p: int| 0 <= p < 8 * left.len() implies bit_at(left, p) == bit_at(right, p) by {
        assert(bit_at(a, 8 * i + p) == bit_at(b, 8 * k + p));
    }
    lemma_bits_fix_bytes(left, right);
    assert(left[0] == a[i]);
    assert(right[0] == b[k]);
}

/// A buffer of zeros has no bit set.
pub proof fn lemma_clear_bits(s: Seq<u8>)
    requires
        forall|i: int| 0 <= i < s.len() ==> s[i] == 0,
    ensures
        forall|p: int| 0 <= p < 8 * s.len() ==> !#[trigger] bit_at(s, p),
{
    assert forall|p: int| 0 <= p < 8 * s.len() implies !#[trigger] bit_at(s, p) by {
        lemma_byte_bits(0, 0, 1, (p % 8) as u8);
    }
}

/// How the bits of a byte that was put together from two shifted
/// neighbours, masked or merged relate to the bits it was made from.
proof fn lemma_byte_bits(a: u8, b: u8, d: u8, j: u8)
    by (bit_vector)
    requires
        0 < d < 8,
        j < 8,
    ensures
        byte_bit((a << ((8 - d) as u8)) | (b >> d), j) == (if j < d {
            byte_bit(a, (8 - d + j) as u8)
        } else {
            byte_bit(b, (j - d) as u8)
        }),
        byte_bit(b >> d, j) == (j >= d && byte_bit(b, (j - d) as u8)),
        byte_bit((a >> ((8 - d) as u8)) | (b << d), j) == (if j + d < 8 {
            byte_bit(b, (j + d) as u8)
        } else {
            byte_bit(a, (j + d - 8) as u8)
        }),
        byte_bit(b << d, j) == (j + d < 8 && byte_bit(b, (j + d) as u8)),
        byte_bit(b & (0xFFu8 << ((8 - d) as u8)), j) == (j < d && byte_bit(b, j)),
        byte_bit(a | b, j) == (byte_bit(a, j) || byte_bit(b, j)),
        !byte_bit(0u8, j),
{
}

/// A byte is fixed by its eight bits.
proof fn lemma_byte_from_bits(a: u8, b: u8)
    by (bit_vector)
    requires
        byte_bit(a, 0) == byte_bit(b, 0),
        byte_bit(a, 1) == byte_bit(b, 1),
        byte_bit(a, 2) == byte_bit(b, 2),
        byte_bit(a, 3) == byte_bit(b, 3),
        byte_bit(a, 4) == byte_bit(b, 4),
        byte_bit(a, 5) == byte_bit(b, 5),
        byte_bit(a, 6) == byte_bit(b, 6),
        byte_bit(a, 7) == byte_bit(b, 7),
    ensures
        a == b,
{
}

/// `byte_of_bits` has the bits it was made from.
proof fn lemma_byte_of_bits(
    b0: bool,
    b1: bool,
    b2: bool,
    b3: bool,
    b4: bool,
    b5: bool,
    b6: bool,
    b7: bool,
)
    by (bit_vector)
    ensures
        byte_bit(byte_of_bits(b0, b1, b2, b3, b4, b5, b6, b7), 0) == b0,
        byte_bit(byte_of_bits(b0, b1, b2, b3, b4, b5, b6, b7), 1) == b1,
        byte_bit(byte_of_bits(b0, b1, b2, b3, b4, b5, b6, b7), 2) == b2,
        byte_bit(byte_of_bits(b0, b1, b2, b3, b4, b5, b6, b7), 3) == b3,
        byte_bit(byte_of_bits(b0, b1, b2, b3, b4, b5, b6, b7), 4) == b4,
        byte_bit(byte_of_bits(b0, b1, b2, b3, b4, b5, b6, b7), 5) == b5,
        byte_bit(byte_of_bits(b0, b1, b2, b3, b4, b5, b6, b7), 6) == b6,
        byte_bit(byte_of_bits(b0, b1, b2, b3, b4, b5, b6, b7), 7) == b7,
{
}

/// Bit by bit, `shifted_right` moves a run of `size` bytes `d` places
/// towards the end and clears the `d` places that open up at the start.
proof fn lemma_shifted_right_bits(s: Seq<u8>, size: int, d: u8, q: int)
    requires
        0 < d < 8,
        1 <= size <= s.len(),
        0 <= q < 8 * size,
    ensures
        bit_at(shifted_right(s, size, d), q) == (q >= d && bit_at(s, q - d)),
{
    let i = q / 8;
    let j = (q % 8) as u8;
    if i == 0 {
        lemma_byte_bits(0, s[0], d, j);
    } else {
        lemma_byte_bits(s[i - 1], s[i], d, j);
    }
}

/// Bit by bit, `shifted_left` moves a run of `size` bytes `d` places
/// towards the start and clears the `d` places that open up at its end.
proof fn lemma_shifted_left_bits(s: Seq<u8>, size: int, d: u8, q: int)
    requires
        0 < d < 8,
        1 <= size <= s.len(),
        0 <= q < 8 * size,
    ensures
        bit_at(shifted_left(s, size, d), q) == (q + d < 8 * size && bit_at(s, q + d)),
{
    let i = q / 8;
    let j = (q % 8) as u8;
    if i < size - 1 {
        lemma_byte_bits(s[i + 1], s[i], d, j);
    } else {
        lemma_byte_bits(0, s[i], d, j);
    }
}

/// The scratch bytes after the copy and the mask: they hold the bits of
/// the source bytes up to the end of the run, and nothing behind it.
proof fn lemma_masked_bits(
    input: Seq<u8>,
    copied: Seq<u8>,
    masked: Seq<u8>,
    offset_in: int,
    delta: int,
)
    requires
        0 <= offset_in,
        1 <= delta,
        copied.len() == run_bytes(offset_in, delta) + 1,
        masked.len() == copied.len(),
        offset_in / 8 + run_bytes(offset_in, delta) <= input.len(),
        forall|i: int|
            0 <= i < run_bytes(offset_in, delta) ==> copied[i] == input[offset_in / 8 + i],
        forall|i: int|
            0 <= i < copied.len() && i != run_bytes(offset_in, delta) - 1 ==> masked[i]
                == copied[i],
        masked[run_bytes(offset_in, delta) - 1] == if (offset_in + delta) % 8 != 0 {
            copied[run_bytes(offset_in, delta) - 1] & (0xFFu8 << ((8 - (offset_in + delta)
                % 8) as u8))
        } else {
            copied[run_bytes(offset_in, delta) - 1]
        },
    ensures
        forall|q: int|
            0 <= q < 8 * run_bytes(offset_in, delta) ==> #[trigger] bit_at(masked, q) == (q
                < offset_in % 8 + delta && bit_at(input, 8 * (offset_in / 8) + q)),
{
    let n = run_bytes(offset_in, delta);
    let disp = (offset_in + delta) % 8;
    assert forall|q: int| 0 <= q < 8 * n implies #[trigger] bit_at(masked, q) == (q < offset_in
        % 8 + delta && bit_at(input, 8 * (offset_in / 8) + q)) by {
        let j = (q % 8) as u8;
        if disp != 0 && q / 8 == n - 1 {
            lemma_byte_bits(0, copied[n - 1], disp as u8, j);
        }
    }
}

/// The scratch bytes after the move towards the start: the run and
/// nothing else, from bit 0 on.
proof fn lemma_gathered_bits(
    input: Seq<u8>,
    masked: Seq<u8>,
    gathered: Seq<u8>,
    offset_in: int,
    delta: int,
)
    requires
        0 <= offset_in,
        1 <= delta,
        masked.len() == run_bytes(offset_in, delta) + 1,
        masked[run_bytes(offset_in, delta)] == 0,
        forall|q: int|
            0 <= q < 8 * run_bytes(offset_in, delta) ==> #[trigger] bit_at(masked, q) == (q
                < offset_in % 8 + delta && bit_at(input, 8 * (offset_in / 8) + q)),
        gathered == shifted(masked, run_bytes(offset_in, delta), -(offset_in % 8)),
    ensures
        gathered.len() == masked.len(),
        forall|q: int|
            0 <= q < 8 * gathered.len() ==> #[trigger] bit_at(gathered, q) == (q < delta
                && bit_at(input, offset_in + q)),
{
    let n = run_bytes(offset_in, delta);
    let m = offset_in % 8;
    let end = m + delta;
    assert(8 * (n - 1) < end <= 8 * n);
    assert(offset_in == 8 * (offset_in / 8) + m);
    if m == 0 {
        assert(gathered == masked);
    } else {
        assert(gathered == shifted_left(masked, n, m as u8));
    }
    assert forall|q: int| 0 <= q < 8 * gathered.len() implies #[trigger] bit_at(gathered, q) == (q
        < delta && bit_at(input, offset_in + q)) by {
        if q < 8 * n {
            if m != 0 {
                lemma_shifted_left_bits(masked, n, m as u8, q);
                if q + m < 8 * n {
                    assert(bit_at(masked, q + m) == (q + m < end && bit_at(
                        input,
                        8 * (offset_in / 8) + (q + m),
                    )));
                }
            }
        } else {
            assert(q / 8 == n);
            assert(gathered[n] == 0);
            lemma_byte_bits(0, 0, 1, (q % 8) as u8);
        }
    }
}

/// The scratch bytes after the move towards the end: the run at the depth
/// at which it starts in its target byte.
proof fn lemma_placed_bits(
    input: Seq<u8>,
    gathered: Seq<u8>,
    placed: Seq<u8>,
    offset_out: int,
    offset_in: int,
    delta: int,
)
    requires
        0 <= offset_out,
        1 <= gathered.len(),
        forall|q: int|
            0 <= q < 8 * gathered.len() ==> #[trigger] bit_at(gathered, q) == (q < delta
                && bit_at(input, offset_in + q)),
        placed == shifted(gathered, gathered.len() as int, offset_out % 8),
    ensures
        placed.len() == gathered.len(),
        forall|q: int|
            0 <= q < 8 * placed.len() ==> #[trigger] bit_at(placed, q) == (offset_out % 8 <= q
                < offset_out % 8 + delta && bit_at(input, offset_in + (q - offset_out % 8))),
{
    let o = offset_out % 8;
    assert forall|q: int| 0 <= q < 8 * placed.len() implies #[trigger] bit_at(placed, q) == (o
        <= q < o + delta && bit_at(input, offset_in + (q - o))) by {
        if o != 0 {
            lemma_shifted_right_bits(gathered, gathered.len() as int, o as u8, q);
            if q >= o {
                assert(bit_at(gathered, q - o) == (q - o < delta && bit_at(
                    input,
                    offset_in + (q - o),
                )));
            }
        }
    }
}

/// The target after the scratch bytes were merged into it.
proof fn lemma_merged_bits(
    input: Seq<u8>,
    placed: Seq<u8>,
    before: Seq<u8>,
    after: Seq<u8>,
    offset_out: int,
    offset_in: int,
    delta: int,
)
    requires
        0 <= offset_out,
        0 <= offset_in,
        1 <= delta,
        placed.len() == run_bytes(offset_in, delta) + 1,
        forall|q: int|
            0 <= q < 8 * placed.len() ==> #[trigger] bit_at(placed, q) == (offset_out % 8 <= q
                < offset_out % 8 + delta && bit_at(input, offset_in + (q - offset_out % 8))),
        after.len() == before.len(),
        offset_out / 8 + touched_bytes(offset_out, offset_in, delta) <= before.len(),
        forall|i: int|
            0 <= i < touched_bytes(offset_out, offset_in, delta) ==> after[offset_out / 8 + i]
                == before[offset_out / 8 + i] | placed[i],
        forall|i: int|
            0 <= i < before.len() && !(offset_out / 8 <= i < offset_out / 8 + touched_bytes(
                offset_out,
                offset_in,
                delta,
            )) ==> after[i] == before[i],
    ensures
        forall|p: int|
            0 <= p < 8 * before.len() ==> #[trigger] bit_at(after, p) == (bit_at(before, p) || (
            offset_out <= p < offset_out + delta && bit_at(input, offset_in + (p - offset_out)))),
{
    let base = offset_out / 8;
    let count = touched_bytes(offset_out, offset_in, delta);
    assert forall|p: int| 0 <= p < 8 * before.len() implies #[trigger] bit_at(after, p) == (bit_at(
        before,
        p,
    ) || (offset_out <= p < offset_out + delta && bit_at(input, offset_in + (p - offset_out)))) by {
        let k = p / 8;
        if base <= k < base + count {
            lemma_byte_bits(before[k], placed[k - base], 1, (p % 8) as u8);
            assert(bit_at(placed, p - 8 * base) == byte_bit(placed[k - base], (p % 8) as u8));
        }
    }
}

} // verus!
