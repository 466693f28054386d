//! The internet checksum (RFC 1071), and the limits of the adder that the
//! `internet-checksum` crate computes it with.

use vstd::prelude::*;

verus! {

/// The sum of the big-endian 16-bit words of `bytes`. A last odd byte is
/// completed by a zero byte.
pub open spec fn word_sum(bytes: Seq<u8>) -> nat
    decreases bytes.len(),
{
    if bytes.len() == 0 {
        0
    } else if bytes.len() == 1 {
        256 * bytes[0] as nat
    } else {
        256 * bytes[0] as nat + bytes[1] as nat + word_sum(bytes.skip(2))
    }
}

/// The sum `total` in 16-bit ones' complement, with every carry added back in.
pub open spec fn ones_complement(total: nat) -> nat {
    if total == 0 {
        0
    } else {
        (total - 1) as nat % 0xffff + 1
    }
}

/// The internet checksum of `bytes`: the complement of the ones' complement
/// sum of their 16-bit words.
pub open spec fn internet_checksum(bytes: Seq<u8>) -> nat {
    (0xffff - ones_complement(word_sum(bytes))) as nat
}

/// `bytes` with the big-endian 16-bit word at `at` replaced by `word`.
pub open spec fn with_word(bytes: Seq<u8>, at: int, word: nat) -> Seq<u8> {
    bytes.update(at, (word / 256) as u8).update(at + 1, (word % 256) as u8)
}

/// The number that the octets of `bytes` form, least significant first.
pub open spec fn little_endian(bytes: Seq<u8>) -> nat
    decreases bytes.len(),
{
    if bytes.len() == 0 {
        0
    } else {
        bytes[0] as nat + 256 * little_endian(bytes.skip(1))
    }
}

/// The sum of the little-endian 16-bit words of `bytes`.
pub open spec fn little_endian_word_sum(bytes: Seq<u8>) -> nat
    decreases bytes.len(),
{
    if bytes.len() < 2 {
        0
    } else {
        bytes[0] as nat + 256 * bytes[1] as nat + little_endian_word_sum(bytes.skip(2))
    }
}

/// How many of `len` remaining bytes an adder takes at once that takes `width`
/// bytes as long as it can, and then ever smaller powers of two.
pub open spec fn stride(len: nat, width: nat) -> nat {
    if width >= 16 && len >= 16 {
        16
    } else if len >= 8 {
        8
    } else if len >= 4 {
        4
    } else {
        2
    }
}

/// Whether an adder whose sum ends at `limit` runs over while it takes in
/// `bytes`. It adds each carry one step late, and that addition is where there
/// may be no room left.
pub open spec fn runs_over(
    bytes: Seq<u8>,
    sum: nat,
    carry: bool,
    width: nat,
    limit: nat,
) -> bool
    decreases bytes.len(),
{
    if bytes.len() < 2 {
        carry && sum == limit
    } else {
        let step = stride(bytes.len(), width);
        let total = sum + little_endian(bytes.take(step as int));
        let wrapped = if total > limit {
            (total - limit - 1) as nat
        } else {
            total
        };
        if carry && wrapped == limit {
            true
        } else {
            runs_over(
                bytes.skip(step as int),
                if carry {
                    wrapped + 1
                } else {
                    wrapped
                },
                total > limit,
                width,
                limit,
            )
        }
    }
}

/// Whether the adder of the `internet-checksum` crate gets through `bytes`,
/// starting from `sum`, on a little-endian machine. Fewer than 64 bytes it adds
/// one word at a time, with room to spare; more it adds in a 128-bit or,
/// depending on the machine, a 64-bit accumulator. Both must do.
pub open spec fn adds_up(bytes: Seq<u8>, sum: nat) -> bool {
    bytes.len() < 64 || (!runs_over(bytes, sum, false, 16, u128::MAX as nat) && !runs_over(
        bytes,
        sum,
        false,
        8,
        u64::MAX as nat,
    ))
}

pub open spec fn pow256(exponent: nat) -> nat
    decreases exponent,
{
    if exponent == 0 {
        1
    } else {
        256 * pow256((exponent - 1) as nat)
    }
}

proof fn lemma_little_endian_bound(bytes: Seq<u8>)
    ensures
        little_endian(bytes) < pow256(bytes.len()),
    decreases bytes.len(),
{
    if bytes.len() > 0 {
        lemma_little_endian_bound(bytes.skip(1));
    }
}

pub(crate) proof fn lemma_pow256_monotonic(a: nat, b: nat)
    requires
        a <= b,
    ensures
        pow256(a) <= pow256(b),
    decreases b,
{
    if a < b {
        lemma_pow256_monotonic(a, (b - 1) as nat);
    }
}

pub(crate) proof fn lemma_pow256_values()
    ensures
        pow256(4) == u32::MAX + 1,
        pow256(8) == u64::MAX + 1,
        pow256(16) == u128::MAX + 1,
{
    reveal_with_fuel(pow256, 9);
    assert(pow256(8) == u64::MAX + 1);
    assert(pow256(9) == 256 * pow256(8));
    assert(pow256(10) == 256 * pow256(9));
    assert(pow256(11) == 256 * pow256(10));
    assert(pow256(12) == 256 * pow256(11));
    assert(pow256(13) == 256 * pow256(12));
    assert(pow256(14) == 256 * pow256(13));
    assert(pow256(15) == 256 * pow256(14));
    assert(pow256(16) == 256 * pow256(15));
}

/// The `count` bytes of `data` from `from` on, as a little-endian number.
fn read_little_endian(data: &Vec<u8>, from: usize, count: usize) -> (value: u128)
    requires
        from + count <= data.len(),
        count <= 16,
    ensures
        value == little_endian(data@.subrange(from as int, from + count)),
        value < pow256(count as nat),
{
    let mut value: u128 = 0;
    let mut i: usize = count;
    assert(data@.subrange(from + count, from + count) =~= Seq::<u8>::empty());
    while i > 0
        invariant
            i <= count <= 16,
            from + count <= data.len(),
            value == little_endian(data@.subrange(from + i, from + count)),
        decreases i,
    {
        let ghost rest = data@.subrange(from + i, from + count);
        let ghost whole = data@.subrange(from + i - 1, from + count);
        proof {
            assert(whole.skip(1) =~= rest);
            lemma_little_endian_bound(whole);
            lemma_pow256_monotonic(whole.len(), 16);
            lemma_pow256_values();
            assert(little_endian(whole) == whole[0] as nat + 256 * little_endian(rest));
        }
        i = i - 1;
        value = data[from + i] as u128 + 256 * value;
    }
    proof {
        lemma_little_endian_bound(data@.subrange(from as int, from + count));
    }
    value
}

/// Runs the adder of the given width over the bytes of `data` from `from` on.
fn overruns(data: &Vec<u8>, from: usize, start: u64, width: usize, limit: u128) -> (result: bool)
    requires
        from <= data@.len(),
        start <= limit,
        (width == 16 && limit == u128::MAX) || (width == 8 && limit == u64::MAX),
    ensures
        result == runs_over(data@.skip(from as int), start as nat, false, width as nat, limit as nat),
{
    let mut at: usize = from;
    let mut sum: u128 = start as u128;
    let mut carry: bool = false;
    while data.len() - at >= 2
        invariant
            from <= at <= data@.len(),
            sum <= limit,
            (width == 16 && limit == u128::MAX) || (width == 8 && limit == u64::MAX),
            runs_over(data@.skip(from as int), start as nat, false, width as nat, limit as nat)
                == runs_over(data@.skip(at as int), sum as nat, carry, width as nat, limit as nat),
        decreases data@.len() - at,
    {
        let rest: usize = data.len() - at;
        let step: usize = if width >= 16 && rest >= 16 {
            16
        } else if rest >= 8 {
            8
        } else if rest >= 4 {
            4
        } else {
            2
        };
        let ghost tail = data@.skip(at as int);
        let word: u128 = read_little_endian(data, at, step);
        proof {
            assert(data@.subrange(at as int, at + step) =~= tail.take(step as int));
            assert(data@.skip(at + step) =~= tail.skip(step as int));
            lemma_pow256_values();
            lemma_pow256_monotonic(step as nat, width as nat);
        }
        let over: bool = word > limit - sum;
        let wrapped: u128 = if over {
            word - (limit - sum) - 1
        } else {
            sum + word
        };
        if carry && wrapped == limit {
            return true;
        }
        sum = if carry {
            wrapped + 1
        } else {
            wrapped
        };
        carry = over;
        at = at + step;
    }
    carry && sum == limit
}

/// Whether the bytes of `data` from `from` on can be added to `start`.
pub fn can_add_up(data: &Vec<u8>, from: usize, start: u64) -> (result: bool)
    requires
        from <= data@.len(),
    ensures
        result == adds_up(data@.skip(from as int), start as nat),
{
    if data.len() - from < 64 {
        return true;
    }
    !overruns(data, from, start, 16, u128::MAX) && !overruns(
        data,
        from,
        start,
        8,
        u64::MAX as u128,
    )
}

/// The sum of the words of a row of bytes is that of its parts, if they are cut
/// between words. A word weighs its first byte 256 times, and so does a last odd
/// byte.
pub proof fn lemma_word_sum_of_parts(first: Seq<u8>, second: Seq<u8>, high: u8, low: u8)
    ensures
        first.len() % 2 == 0 ==> word_sum(first + second) == word_sum(first) + word_sum(second),
        word_sum(Seq::empty()) == 0,
        word_sum(seq![high]) == 256 * high,
        word_sum(seq![high, low]) == 256 * high + low,
    decreases first.len(),
{
    let pair = seq![high, low];
    assert(pair.skip(2) =~= Seq::empty());
    assert(word_sum(pair.skip(2)) == 0);
    assert(word_sum(pair) == 256 * pair[0] as nat + pair[1] as nat + word_sum(pair.skip(2)));
    if first.len() == 0 {
        assert(first + second =~= second);
    } else if first.len() >= 2 {
        lemma_word_sum_of_parts(first.skip(2), second, high, low);
        assert((first + second).skip(2) =~= first.skip(2) + second);
    }
}

/// A row of fewer than 64 bytes always adds up.
pub proof fn lemma_short_rows_add_up(bytes: Seq<u8>, sum: nat)
    requires
        bytes.len() < 64,
    ensures
        adds_up(bytes, sum),
{
}

/// Modulo 65535 a little-endian number is the sum of its words.
proof fn lemma_little_endian_residue(bytes: Seq<u8>)
    requires
        bytes.len() % 2 == 0,
    ensures
        little_endian(bytes) % 0xffff == little_endian_word_sum(bytes) % 0xffff,
    decreases bytes.len(),
{
    if bytes.len() > 0 {
        let rest = bytes.skip(2);
        lemma_little_endian_residue(rest);
        assert(bytes.skip(1).skip(1) =~= rest);
        let word = bytes[0] as nat + 256 * bytes[1] as nat;
        let number = little_endian(rest);
        let sum = little_endian_word_sum(rest);
        assert(little_endian(bytes.skip(1)) == bytes[1] as nat + 256 * number);
        assert(little_endian(bytes) == word + 0x1_0000 * number);
        assert((word + 0x1_0000 * number) % 0xffff == (word + sum) % 0xffff) by (nonlinear_arith)
            requires
                number % 0xffff == sum % 0xffff,
        ;
    }
}

/// The little-endian words of a row of bytes sum to those of its parts.
proof fn lemma_little_endian_word_sum_of_parts(first: Seq<u8>, second: Seq<u8>)
    requires
        first.len() % 2 == 0,
    ensures
        little_endian_word_sum(first + second) == little_endian_word_sum(first)
            + little_endian_word_sum(second),
    decreases first.len(),
{
    if first.len() == 0 {
        assert(first + second =~= second);
    } else {
        lemma_little_endian_word_sum_of_parts(first.skip(2), second);
        assert((first + second).skip(2) =~= first.skip(2) + second);
    }
}

/// Whether some even number of bytes, added to `sum`, comes to one modulo 65535.
pub open spec fn comes_to_one(bytes: Seq<u8>, sum: nat) -> bool {
    exists|n: int|
        {
            &&& 0 <= n <= bytes.len()
            &&& n % 2 == 0
            &&& (sum + little_endian_word_sum(#[trigger] bytes.take(n))) % 0xffff == 1
        }
}

proof fn lemma_runs_over_only_at_one(
    bytes: Seq<u8>,
    sum: nat,
    carry: bool,
    width: nat,
    limit: nat,
    total: nat,
)
    requires
        runs_over(bytes, sum, carry, width, limit),
        sum <= limit,
        (width == 16 && limit == u128::MAX) || (width == 8 && limit == u64::MAX),
        total % 0xffff == (sum + if carry {
            1nat
        } else {
            0nat
        }) % 0xffff,
    ensures
        comes_to_one(bytes, total),
    decreases bytes.len(),
{
    assert(limit % 0xffff == 0);
    let late: nat = if carry {
        1
    } else {
        0
    };
    if bytes.len() < 2 {
        assert(bytes.take(0) =~= Seq::empty());
        assert((limit + 1) % 0xffff == 1);
        assert((total + little_endian_word_sum(bytes.take(0))) % 0xffff == 1);
    } else {
        let step = stride(bytes.len(), width);
        let chunk = bytes.take(step as int);
        let rest = bytes.skip(step as int);
        let word = little_endian(chunk);
        let words = little_endian_word_sum(chunk);
        lemma_little_endian_residue(chunk);
        lemma_little_endian_bound(chunk);
        lemma_pow256_values();
        lemma_pow256_monotonic(step, width);
        assert((total + words) % 0xffff == (sum + word + late) % 0xffff) by (nonlinear_arith)
            requires
                total % 0xffff == (sum + late) % 0xffff,
                words % 0xffff == word % 0xffff,
        ;
        let wrapped = if sum + word > limit {
            (sum + word - limit - 1) as nat
        } else {
            sum + word
        };
        if carry && wrapped == limit {
            assert(sum + word == limit);
            assert((limit + 1) % 0xffff == 1);
            assert((total + little_endian_word_sum(bytes.take(step as int))) % 0xffff == 1);
        } else {
            let next = wrapped + late;
            let over: nat = if sum + word > limit {
                1
            } else {
                0
            };
            assert((sum + word + late) % 0xffff == (next + over) % 0xffff) by (nonlinear_arith)
                requires
                    limit % 0xffff == 0,
                    sum + word + late == next + over || sum + word + late == next + over + limit,
            ;
            lemma_runs_over_only_at_one(
                rest,
                next,
                sum + word > limit,
                width,
                limit,
                total + words,
            );
            let n = choose|n: int|
                {
                    &&& 0 <= n <= rest.len()
                    &&& n % 2 == 0
                    &&& (total + words + little_endian_word_sum(#[trigger] rest.take(n))) % 0xffff
                        == 1
                };
            lemma_little_endian_word_sum_of_parts(chunk, rest.take(n));
            assert(bytes.take(step + n) =~= chunk + rest.take(n));
            assert((total + little_endian_word_sum(bytes.take(step + n))) % 0xffff == 1);
        }
    }
}

/// Bytes of any number add up, unless the words of some of the first of them,
/// added to `sum`, come to one modulo 65535: only there can the adder lose a
/// carry.
pub proof fn lemma_rows_add_up_unless_they_come_to_one(bytes: Seq<u8>, sum: nat)
    requires
        sum <= u64::MAX,
        !comes_to_one(bytes, sum),
    ensures
        adds_up(bytes, sum),
{
    if runs_over(bytes, sum, false, 16, u128::MAX as nat) {
        lemma_runs_over_only_at_one(bytes, sum, false, 16, u128::MAX as nat, sum);
    }
    if runs_over(bytes, sum, false, 8, u64::MAX as nat) {
        lemma_runs_over_only_at_one(bytes, sum, false, 8, u64::MAX as nat, sum);
    }
}

} // verus!
