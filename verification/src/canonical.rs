//! The canonical assignment of code words to code lengths.

use vstd::prelude::*;
use vstd::arithmetic::power2::{
    pow2, lemma2_to64, lemma_pow2_pos, lemma_pow2_strictly_increases,
    lemma_pow2_unfold,
};

verus! {

/// How many of `lengths` are `len`.
pub open spec fn length_count(lengths: Seq<u8>, len: nat) -> nat
    decreases lengths.len(),
{
    if lengths.len() == 0 {
        0
    } else {
        length_count(lengths.drop_last(), len) + if lengths.last() as nat == len {
            1nat
        } else {
            0nat
        }
    }
}

/// The code word of the first symbol of length `len`: twice the first code
/// word that the next shorter length leaves unused. Length zero counts for
/// nothing.
pub open spec fn first_code(lengths: Seq<u8>, len: nat) -> nat
    decreases len,
{
    if len <= 1 {
        0
    } else {
        2 * (first_code(lengths, (len - 1) as nat) + length_count(lengths, (len - 1) as nat))
    }
}

/// The code word of symbol `i`: the first of its length, plus the number of
/// symbols of that length before it.
pub open spec fn code_of(lengths: Seq<u8>, i: int) -> nat {
    first_code(lengths, lengths[i] as nat) + length_count(lengths.take(i), lengths[i] as nat)
}

/// Some length from 1 to 15 has more symbols than code words left for it.
pub open spec fn over_subscribed(lengths: Seq<u8>) -> bool {
    exists|len: nat|
        1 <= len <= 15 && first_code(lengths, len) + length_count(lengths, len) > pow2(len)
}

/// Some symbol has a code word that does not fit into 16 bits.
pub open spec fn code_overflows(lengths: Seq<u8>) -> bool {
    exists|i: int|
        0 <= i < lengths.len() && lengths[i] != 0 && #[trigger] code_of(lengths, i) > 0xffff
}

/// Code lengths that no code is built from: one above 15, and what the
/// table cannot hold, which is more than 65536 lengths or a code word of
/// more than 16 bits. Over-subscribed code lengths are not among them: their
/// code is built, and a code word that does not fit into its length is a
/// code word that no bits spell.
pub open spec fn malformed_lengths(lengths: Seq<u8>) -> bool {
    ||| lengths.len() > 65536
    ||| exists|i: int| 0 <= i < lengths.len() && lengths[i] > 15
    ||| code_overflows(lengths)
}

/// Counting one element further.
pub proof fn lemma_count_step(lengths: Seq<u8>, i: int, len: nat)
    requires
        0 <= i < lengths.len(),
    ensures
        length_count(lengths.take(i + 1), len) == length_count(lengths.take(i), len) + if lengths[i]
            as nat == len {
            1nat
        } else {
            0nat
        },
{
    assert(lengths.take(i + 1).drop_last() =~= lengths.take(i));
}

/// A prefix holds no more symbols of a length than the whole, and fewer
/// where the symbol that follows it has that length.
pub proof fn lemma_count_prefix(lengths: Seq<u8>, i: int, len: nat)
    requires
        0 <= i <= lengths.len(),
    ensures
        length_count(lengths.take(i), len) <= length_count(lengths, len),
        i < lengths.len() && lengths[i] as nat == len ==> length_count(lengths.take(i), len)
            < length_count(lengths, len),
        length_count(lengths, len) <= lengths.len(),
    decreases lengths.len() - i,
{
    if i == lengths.len() {
        assert(lengths.take(i) =~= lengths);
        lemma_count_bound(lengths, len);
    } else {
        lemma_count_step(lengths, i, len);
        lemma_count_prefix(lengths, i + 1, len);
    }
}

/// There are no more symbols of a length than symbols.
pub proof fn lemma_count_bound(lengths: Seq<u8>, len: nat)
    ensures
        length_count(lengths, len) <= lengths.len(),
    decreases lengths.len(),
{
    if lengths.len() > 0 {
        lemma_count_bound(lengths.drop_last(), len);
    }
}

/// The powers of two up to the fifteenth.
pub proof fn lemma_pow2_small(n: nat)
    requires
        n <= 15,
    ensures
        0 < pow2(n) <= 32768,
        pow2(n + 1) == 2 * pow2(n),
{
    lemma2_to64();
    if n < 15 {
        lemma_pow2_strictly_increases(n, 15);
    }
    lemma_pow2_unfold(n + 1);
}

/// The first code word of the next length, from this one's.
pub proof fn lemma_first_code_next(lengths: Seq<u8>, len: nat)
    requires
        len >= 1,
    ensures
        first_code(lengths, len + 1) == 2 * (first_code(lengths, len) + length_count(lengths, len)),
{
    assert((len + 1 - 1) as nat == len);
}

/// Counting through a run of equal lengths.
pub proof fn lemma_count_run(lengths: Seq<u8>, from: int, to: int, value: u8, len: nat)
    requires
        0 <= from <= to <= lengths.len(),
        forall|j: int| from <= j < to ==> lengths[j] == value,
    ensures
        length_count(lengths.take(to), len) == length_count(lengths.take(from), len) + if value
            as nat == len {
            (to - from) as nat
        } else {
            0nat
        },
    decreases to - from,
{
    if from < to {
        lemma_count_run(lengths, from, to - 1, value, len);
        lemma_count_step(lengths, to - 1, len);
    }
}

/// Code lengths of which every length from 1 to 15 has no more symbols than
/// code words are not over-subscribed.
pub proof fn lemma_not_over_subscribed(lengths: Seq<u8>)
    requires
        forall|len: nat|
            1 <= len <= 15 ==> first_code(lengths, len) + #[trigger] length_count(lengths, len)
                <= pow2(len),
    ensures
        !over_subscribed(lengths),
{
}

/// The first code word of a length lies beyond every code word of a
/// shorter length, extended to that length.
pub proof fn lemma_first_code_grows(lengths: Seq<u8>, short: nat, long: nat)
    requires
        1 <= short < long,
    ensures
        first_code(lengths, long) >= (first_code(lengths, short) + length_count(lengths, short))
            * pow2((long - short) as nat),
    decreases long,
{
    lemma_first_code_next(lengths, (long - 1) as nat);
    let below = first_code(lengths, short) + length_count(lengths, short);
    let f = first_code(lengths, (long - 1) as nat);
    let n = length_count(lengths, (long - 1) as nat);
    assert(first_code(lengths, long) == 2 * (f + n));
    if long - 1 == short {
        lemma2_to64();
        assert(pow2((long - short) as nat) == 2);
        assert(below * 2 == 2 * (f + n));
    } else {
        lemma_first_code_grows(lengths, short, (long - 1) as nat);
        lemma_pow2_unfold((long - short) as nat);
        let p = pow2((long - 1 - short) as nat);
        assert(pow2((long - short) as nat) == 2 * p);
        assert(f >= below * p);
        assert(2 * (f + n) >= below * (2 * p)) by (nonlinear_arith)
            requires
                f >= below * p,
                n >= 0,
        ;
    }
}

/// Canonical code words are prefix-free: of two symbols with code words,
/// the code word of the one, cut to the length of the other, is not the code
/// word of the other. In particular no two symbols share a code word.
pub proof fn lemma_prefix_free(lengths: Seq<u8>, i: int, j: int)
    requires
        0 <= i < lengths.len(),
        0 <= j < lengths.len(),
        i != j,
        1 <= lengths[i] <= lengths[j],
    ensures
        code_of(lengths, j) / pow2((lengths[j] - lengths[i]) as nat) != code_of(lengths, i),
{
    let short = lengths[i] as nat;
    let long = lengths[j] as nat;
    lemma_count_prefix(lengths, i, short);
    lemma_count_prefix(lengths, j, long);
    let p = pow2((long - short) as nat);
    let c = code_of(lengths, j);
    if short == long {
        lemma2_to64();
        assert(p == 1);
        assert(c / 1 == c);
        if i < j {
            lemma_count_between(lengths, i, j, short);
        } else {
            lemma_count_between(lengths, j, i, short);
        }
    } else {
        lemma_first_code_grows(lengths, short, long);
        lemma_pow2_pos((long - short) as nat);
        let below = first_code(lengths, short) + length_count(lengths, short);
        assert(c >= first_code(lengths, long));
        assert(first_code(lengths, long) >= below * p);
        assert(c / p >= below) by (nonlinear_arith)
            requires
                c >= below * p,
                p > 0,
        ;
        assert(code_of(lengths, i) < below);
    }
}

/// Of two symbols of one length, the later has more symbols of that length
/// before it.
pub proof fn lemma_count_between(lengths: Seq<u8>, i: int, j: int, len: nat)
    requires
        0 <= i < j <= lengths.len(),
        lengths[i] as nat == len,
    ensures
        length_count(lengths.take(i), len) < length_count(lengths.take(j), len),
    decreases j - i,
{
    lemma_count_step(lengths, j - 1, len);
    if i < j - 1 {
        lemma_count_between(lengths, i, j - 1, len);
    } else {
        lemma_count_step(lengths, i, len);
    }
}

/// A code word of code lengths that are not over-subscribed fits into its
/// length.
pub proof fn lemma_code_below_length(lengths: Seq<u8>, i: int)
    requires
        !over_subscribed(lengths),
        0 <= i < lengths.len(),
        1 <= lengths[i] <= 15,
    ensures
        code_of(lengths, i) < pow2(lengths[i] as nat),
        code_of(lengths, i) < 32768,
{
    let len = lengths[i] as nat;
    lemma_count_prefix(lengths, i, len);
    assert(!(first_code(lengths, len) + length_count(lengths, len) > pow2(len)));
    lemma_pow2_small(len);
}

/// A code word of well-formed code lengths has at most 15 bits by its
/// length and fits into 16 bits by its value.
pub proof fn lemma_code_fits(lengths: Seq<u8>, i: int)
    requires
        !malformed_lengths(lengths),
        0 <= i < lengths.len(),
        lengths[i] != 0,
    ensures
        1 <= lengths[i] <= 15,
        code_of(lengths, i) <= 0xffff,
{
    assert(!(code_of(lengths, i) > 0xffff));
}

/// Code lengths up to 15, at most 65536 of them and not over-subscribed,
/// are well formed.
pub proof fn lemma_well_formed(lengths: Seq<u8>)
    requires
        lengths.len() <= 65536,
        forall|i: int| 0 <= i < lengths.len() ==> lengths[i] <= 15,
        !over_subscribed(lengths),
    ensures
        !malformed_lengths(lengths),
{
    assert forall|i: int| 0 <= i < lengths.len() && lengths[i] != 0 implies !(#[trigger] code_of(
        lengths,
        i,
    ) > 0xffff) by {
        lemma_code_below_length(lengths, i);
    }
}

/// The first code word of a length is below `65536 * 2^len`, for at most
/// 65536 code lengths.
pub proof fn lemma_first_code_bound(lengths: Seq<u8>, len: nat)
    requires
        lengths.len() <= 65536,
        1 <= len <= 16,
    ensures
        first_code(lengths, len) + 131072 <= 65536 * pow2(len),
    decreases len,
{
    lemma2_to64();
    if len > 1 {
        lemma_first_code_bound(lengths, (len - 1) as nat);
        lemma_first_code_next(lengths, (len - 1) as nat);
        lemma_count_bound(lengths, (len - 1) as nat);
        lemma_pow2_unfold(len);
    }
}

} // verus!
