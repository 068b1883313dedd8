//! Centering places on the origin: sums, means that are rounded towards
//! zero, and what is left when the mean is taken away.

use vstd::prelude::*;

verus! {

/// The sum of the values.
pub open spec fn sum_of(values: Seq<int>) -> int
    decreases values.len(),
{
    if values.len() == 0 {
        0
    } else {
        sum_of(values.drop_last()) + values.last()
    }
}

/// The quotient of `total` by a positive `count`, rounded towards zero.
pub open spec fn truncated_quotient(total: int, count: int) -> int {
    if total >= 0 {
        total / count
    } else {
        -((-total) / count)
    }
}

/// The mean of the values, rounded towards zero; zero where there is no
/// value.
pub open spec fn truncated_mean(values: Seq<int>) -> int {
    if values.len() == 0 {
        0
    } else {
        truncated_quotient(sum_of(values), values.len() as int)
    }
}

/// The values, each less `offset`.
pub open spec fn shifted(values: Seq<int>, offset: int) -> Seq<int> {
    values.map_values(|value: int| value - offset)
}

/// Shifting every value shifts the sum by as many offsets as there are
/// values.
pub proof fn lemma_sum_of_shifted(values: Seq<int>, offset: int)
    ensures
        sum_of(shifted(values, offset)) == sum_of(values) - values.len() * offset,
    decreases values.len(),
{
    if values.len() > 0 {
        lemma_sum_of_shifted(values.drop_last(), offset);
        assert(shifted(values, offset).drop_last() =~= shifted(values.drop_last(), offset));
        assert(values.len() * offset == (values.len() - 1) * offset + offset) by (nonlinear_arith);
    }
}

/// What is left of a total after its truncated quotient has been taken out
/// `count` times is smaller than `count`, so that its own truncated
/// quotient is zero.
pub proof fn lemma_truncated_remainder(total: int, count: int)
    requires
        count > 0,
    ensures
        truncated_quotient(total - count * truncated_quotient(total, count), count) == 0,
{
    let size = if total >= 0 {
        total
    } else {
        -total
    };
    let left = size - count * (size / count);
    assert(0 <= left < count && left == size % count) by {
        vstd::arithmetic::div_mod::lemma_fundamental_div_mod(size, count);
        vstd::arithmetic::div_mod::lemma_mod_bound(size, count);
    }
    vstd::arithmetic::div_mod::lemma_basic_div(left, count);
    if total >= 0 {
        assert(total - count * truncated_quotient(total, count) == left);
    } else {
        assert(count * -(size / count) == -(count * (size / count))) by (nonlinear_arith);
        assert(total - count * truncated_quotient(total, count) == -left);
    }
}

/// A total of `count` values, none of them beyond `bound`, has a truncated
/// quotient that is not beyond `bound` either.
pub proof fn lemma_truncated_quotient_bound(total: int, count: int, bound: int)
    requires
        count > 0,
        bound >= 0,
        -(count * bound) <= total <= count * bound,
    ensures
        -bound <= truncated_quotient(total, count) <= bound,
{
    let size = if total >= 0 {
        total
    } else {
        -total
    };
    vstd::arithmetic::div_mod::lemma_div_is_ordered(size, count * bound, count);
    vstd::arithmetic::div_mod::lemma_div_multiples_vanish(bound, count);
    vstd::arithmetic::div_mod::lemma_div_pos_is_pos(size, count);
}

/// Values from which their truncated mean has been taken have the
/// truncated mean zero.
pub proof fn lemma_centered_mean_is_zero(values: Seq<int>)
    ensures
        truncated_mean(shifted(values, truncated_mean(values))) == 0,
{
    if values.len() > 0 {
        let mean = truncated_mean(values);
        lemma_sum_of_shifted(values, mean);
        lemma_truncated_remainder(sum_of(values), values.len() as int);
    }
}

/// The first coordinates of the places.
pub open spec fn xs_of(places: Seq<(isize, isize)>) -> Seq<int> {
    places.map_values(|place: (isize, isize)| place.0 as int)
}

/// The second coordinates of the places.
pub open spec fn ys_of(places: Seq<(isize, isize)>) -> Seq<int> {
    places.map_values(|place: (isize, isize)| place.1 as int)
}

/// The truncated mean of each coordinate is zero.
pub open spec fn centered(places: Seq<(isize, isize)>) -> bool {
    truncated_mean(xs_of(places)) == 0 && truncated_mean(ys_of(places)) == 0
}

/// Every place, less the truncated means of the places, has coordinates
/// that an `isize` can hold.
pub open spec fn centerable(places: Seq<(isize, isize)>) -> bool {
    forall|i: int|
        0 <= i < places.len() ==> {
            &&& isize::MIN <= (#[trigger] places[i]).0 - truncated_mean(xs_of(places))
                <= isize::MAX
            &&& isize::MIN <= places[i].1 - truncated_mean(ys_of(places)) <= isize::MAX
        }
}

} // verus!
