//! Similarity scores: how a score is ranked, and how the best of a list of
//! ranks is chosen.
//!
//! The similarity of two signatures is measured outside this library and
//! comes as a double-precision number. The registry only needs to know
//! which of several scores is the highest, so it takes each score as a
//! whole number that orders as the score does: its rank.

use vstd::prelude::*;

verus! {

/// The value of the highest bit of the pattern of a double-precision
/// number, which holds the sign.
pub const SIGN_BIT: u64 = 0x8000_0000_0000_0000;

/// The magnitude of infinity. A pattern with a greater magnitude is no
/// number.
pub const INFINITY_BITS: u64 = 0x7FF0_0000_0000_0000;

/// The magnitude of a bit pattern: the bits below the sign, which grow with
/// the absolute value of the number.
pub open spec fn magnitude(bits: u64) -> int {
    (bits % SIGN_BIT) as int
}

/// Whether the sign of a bit pattern is set.
pub open spec fn negative(bits: u64) -> bool {
    bits >= SIGN_BIT
}

/// Whether a bit pattern stands for no number.
pub open spec fn not_a_number(bits: u64) -> bool {
    magnitude(bits) > INFINITY_BITS
}

/// The rank of the score with the bit pattern `bits`. Patterns that stand
/// for no number rank lowest of all. Of the others, negative ones rank below
/// the rest, lower the greater their magnitude, and the rest rank as their
/// magnitude.
pub open spec fn rank(bits: u64) -> int {
    if not_a_number(bits) {
        i64::MIN as int
    } else if negative(bits) {
        -magnitude(bits) - 1
    } else {
        magnitude(bits)
    }
}

/// Ranks order as the numbers do: of two patterns that stand for numbers,
/// the one with the lower rank is the negative one, or the one of smaller
/// magnitude if neither is negative, or the one of greater magnitude if both
/// are. Minus zero ranks just below zero. What stands for no number ranks
/// below every number.
pub proof fn lemma_rank_orders(a: u64, b: u64)
    requires
        !not_a_number(a),
    ensures
        !not_a_number(b) ==> (rank(a) < rank(b) <==> if negative(a) != negative(b) {
            negative(a)
        } else if negative(a) {
            magnitude(a) > magnitude(b)
        } else {
            magnitude(a) < magnitude(b)
        }),
        !not_a_number(b) ==> (rank(a) == rank(b) <==> a == b),
        not_a_number(b) ==> rank(b) < rank(a),
{
}

/// Computes the rank of a similarity score from its bit pattern.
pub fn rank_of_bits(bits: u64) -> (ranked: i64)
    ensures
        ranked == rank(bits),
{
    let magnitude = bits % SIGN_BIT;
    if magnitude > INFINITY_BITS {
        i64::MIN
    } else if bits >= SIGN_BIT {
        -(magnitude as i64) - 1
    } else {
        magnitude as i64
    }
}

/// Whether `i` is the place of the best score: none is higher, and every
/// later one is lower. Of several equal best scores the last one is chosen.
pub open spec fn is_best(scores: Seq<i64>, i: int) -> bool {
    &&& 0 <= i < scores.len()
    &&& forall|j: int| 0 <= j < scores.len() ==> scores[j] <= scores[i]
    &&& forall|j: int| i < j < scores.len() ==> scores[j] < scores[i]
}

/// The place of the best score of a list that is not empty.
pub open spec fn best(scores: Seq<i64>) -> int {
    choose|i: int| is_best(scores, i)
}

/// At most one place holds the best score.
pub proof fn lemma_best_unique(scores: Seq<i64>, i: int, j: int)
    requires
        is_best(scores, i),
        is_best(scores, j),
    ensures
        i == j,
{
    if i < j {
        assert(scores[j] < scores[i]);
        assert(scores[i] <= scores[j]);
    } else if j < i {
        assert(scores[i] < scores[j]);
        assert(scores[j] <= scores[i]);
    }
}

/// Every list that is not empty has a best score, and `best` finds it.
pub proof fn lemma_best_exists(scores: Seq<i64>)
    requires
        scores.len() > 0,
    ensures
        is_best(scores, best(scores)),
    decreases scores.len(),
{
    if scores.len() == 1 {
        assert(is_best(scores, 0));
    } else {
        let front = scores.drop_last();
        lemma_best_exists(front);
        let b = best(front);
        let last = scores.len() - 1;
        assert(is_best(front, b));
        assert forall|j: int| 0 <= j < last implies scores[j] <= front[b] by {
            assert(front[j] == scores[j]);
        }
        assert forall|j: int| b < j < last implies scores[j] < front[b] by {
            assert(front[j] == scores[j]);
        }
        assert(front[b] == scores[b]);
        if scores[last] >= front[b] {
            assert(is_best(scores, last));
        } else {
            assert(is_best(scores, b));
        }
    }
}

/// Finds the entry with the highest score; of several equal ones, the last.
/// An empty list has none.
pub fn most_similar(scores: &Vec<i64>) -> (place: Option<usize>)
    ensures
        place is None <==> scores@.len() == 0,
        place matches Some(i) ==> i as int == best(scores@) && is_best(scores@, i as int),
{
    if scores.len() == 0 {
        return None;
    }
    let mut at: usize = 0;
    let mut k: usize = 1;
    while k < scores.len()
        invariant
            0 <= at < k <= scores.len(),
            is_best(scores@.take(k as int), at as int),
        decreases scores.len() - k,
    {
        if scores[k] >= scores[at] {
            at = k;
        }
        k += 1;
        assert(is_best(scores@.take(k as int), at as int)) by {
            let now = scores@.take(k as int);
            let was = scores@.take(k - 1);
            assert forall|j: int| 0 <= j < now.len() implies now[j] <= now[at as int] by {
                if j < k - 1 {
                    assert(was[j] == now[j]);
                }
            }
            assert forall|j: int| at < j < now.len() implies now[j] < now[at as int] by {
                if j < k - 1 {
                    assert(was[j] == now[j]);
                }
            }
        }
    }
    proof {
        assert(scores@.take(k as int) =~= scores@);
        lemma_best_exists(scores@);
        lemma_best_unique(scores@, at as int, best(scores@));
    }
    Some(at)
}

} // verus!
