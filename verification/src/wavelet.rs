//! The index logic of the wavelet decomposition: mirror padding to a
//! power-of-two length and the number of decomposition levels.

use vstd::prelude::*;
use crate::power_of_two::{
    exp2, floor_log2, is_pow2, is_power_of_two, lemma_exp2_positive, lemma_floor_log2_exp2,
    lemma_next_pow2_exists, lemma_pow2_even_or_one, next_pow2, next_power_of_two,
};

verus! {

/// The decomposition never goes deeper than this many levels.
pub const MAX_LEVELS: usize = 3;

/// The source index of padding position `i` (with `n <= i`) for data of
/// length `n`: positions mirror back from the end of the data, and
/// positions past the full mirror wrap around.
pub open spec fn mirror_index(n: int, i: int) -> int {
    if i < 2 * n - 1 {
        2 * n - 2 - i
    } else {
        i % n
    }
}

/// `data` padded by reflection to the next power-of-two length; data
/// whose length is already a power of two is left as it is.
pub open spec fn padded<T>(data: Seq<T>) -> Seq<T> {
    if is_pow2(data.len() as int) {
        data
    } else {
        Seq::new(
            next_pow2(data.len()),
            |i: int|
                if i < data.len() {
                    data[i]
                } else {
                    data[mirror_index(data.len() as int, i)]
                },
        )
    }
}

/// Every padding position reads a position of the data itself: the
/// padding never runs past one full mirror image, so the wrap-around
/// branch of `mirror_index` is never taken.
pub proof fn lemma_padding_reads_mirror(n: nat, i: int)
    requires
        n >= 1,
        !is_pow2(n as int),
        n <= i < next_pow2(n),
    ensures
        i < 2 * n - 1,
        0 <= mirror_index(n as int, i) < n,
        mirror_index(n as int, i) == 2 * n - 2 - i,
{
    lemma_next_pow2_exists(n);
    // the padded length is below 2n and, being a power of two above 1, even
    lemma_pow2_even_or_one(next_pow2(n));
}

/// The padding is a reflection of the data about its last element, which is
/// not repeated: padding position `i` holds the data at `2n - 2 - i`, for
/// every data length `n` that is not a power of two.
pub proof fn lemma_padding_reflects<T>(data: Seq<T>, i: int)
    requires
        data.len() >= 1,
        !is_pow2(data.len() as int),
        data.len() <= i < padded(data).len(),
    ensures
        padded(data).len() < 2 * data.len(),
        padded(data)[i] == data[2 * data.len() - 2 - i],
        padded(data)[i] == padded(data)[2 * data.len() - 2 - i],
{
    lemma_next_pow2_exists(data.len());
    lemma_padding_reads_mirror(data.len(), i);
}

/// Pads `data` by reflection to the next power-of-two length.
///
/// Data whose length is a power of two comes back unchanged. Otherwise the
/// data is followed by its mirror image without the last element:
/// `[1, 2, 3]` becomes `[1, 2, 3, 2]`.
pub fn pad_to_power_of_two<T: Copy>(data: &[T]) -> (padded_data: Vec<T>)
    requires
        1 <= data.len() <= usize::MAX / 2 + 1,
    ensures
        padded_data@ == padded(data@),
        is_pow2(padded_data.len() as int),
        data.len() <= padded_data.len() < 2 * data.len(),
        padded_data@.subrange(0, data.len() as int) == data@,
        forall|i: int|
            data.len() <= i < padded_data.len() ==> #[trigger] padded_data@[i] == data@[2 * data.len() - 2 - i],
{
    let n = data.len();
    let mut padded_data: Vec<T> = Vec::new();
    let mut i: usize = 0;
    while i < n
        invariant
            i <= n,
            n == data.len(),
            padded_data@ == data@.subrange(0, i as int),
        decreases n - i,
    {
        padded_data.push(data[i]);
        i = i + 1;
    }
    if is_power_of_two(n) {
        proof {
            assert(data@.subrange(0, n as int) == data@);
            assert(exp2(0) == 1);
        }
        return padded_data;
    }
    let next_pow2_len = next_power_of_two(n);
    while i < next_pow2_len
        invariant
            n <= i <= next_pow2_len,
            n == data.len(),
            1 <= n <= usize::MAX / 2 + 1,
            !is_pow2(n as int),
            next_pow2_len == next_pow2(n as nat),
            padded_data.len() == i,
            forall|k: int| 0 <= k < n ==> #[trigger] padded_data@[k] == data@[k],
            forall|k: int|
                n <= k < i ==> #[trigger] padded_data@[k] == data@[mirror_index(n as int, k)],
        decreases next_pow2_len - i,
    {
        proof {
            lemma_padding_reads_mirror(n as nat, i as int);
        }
        // `i < 2n - 1` and `2n - 2 - i`, written so that nothing overflows
        let src = if i - n < n - 1 {
            n - 2 - (i - n)
        } else {
            i % n
        };
        padded_data.push(data[src]);
        i = i + 1;
    }
    proof {
        lemma_next_pow2_exists(n as nat);
        assert forall|k: int| n <= k < padded_data.len() implies #[trigger] padded_data@[k] == data@[2 * n - 2 - k] by {
            lemma_padding_reads_mirror(n as nat, k);
        }
        assert(padded_data@ == padded(data@));
        assert(padded_data@.subrange(0, n as int) == data@);
    }
    padded_data
}

/// The number of decomposition levels for a padded signal of length
/// `padded_len`: `floor(log2(padded_len))`, but never more than
/// `MAX_LEVELS`.
pub fn decomposition_levels(padded_len: usize) -> (levels: usize)
    requires
        is_pow2(padded_len as int),
    ensures
        levels == if floor_log2(padded_len as nat) < MAX_LEVELS {
            floor_log2(padded_len as nat)
        } else {
            MAX_LEVELS as nat
        },
        levels <= MAX_LEVELS,
        forall|k: nat|
            exp2(k) == padded_len ==> levels == if k < MAX_LEVELS {
                k
            } else {
                MAX_LEVELS as nat
            },
{
    let mut m: usize = padded_len;
    let mut levels: usize = 0;
    proof {
        let k = choose|k: nat| exp2(k) == padded_len;
        lemma_exp2_positive(k);
    }
    while m > 1 && levels < MAX_LEVELS
        invariant
            m >= 1,
            levels <= MAX_LEVELS,
            levels + floor_log2(m as nat) == floor_log2(padded_len as nat),
        decreases m,
    {
        m = m / 2;
        levels = levels + 1;
    }
    proof {
        assert forall|k: nat| exp2(k) == padded_len implies levels == if k < MAX_LEVELS {
            k
        } else {
            MAX_LEVELS as nat
        } by {
            lemma_floor_log2_exp2(k);
        }
    }
    levels
}

} // verus!
