#![allow(non_snake_case)]

use vstd::prelude::*;
use crate::addition::{difference, minus, plus, sum};
use crate::binary64::{is_finite, is_infinite, is_nan, le, less, less_eq, lt, nan};
use crate::consts::DOMAIN_PADDING;
use crate::structs::{PreprocessItem, PreprocessItemStruct, point_views};

verus! {

/// Which of a high and a low limit are shown, as `(low, high)`. A limit that
/// is not shown is positive zero. Two numbers are shown when the low one is
/// below the high one, and neither otherwise; a number beside a
/// not-a-number is shown alone.
pub open spec fn shown_limits(hiLimit: u64, loLimit: u64) -> (u64, u64) {
    if !is_nan(loLimit) && !is_nan(hiLimit) {
        if less(loLimit, hiLimit) {
            (loLimit, hiLimit)
        } else {
            (0, 0)
        }
    } else if !is_nan(loLimit) {
        (loLimit, 0)
    } else if !is_nan(hiLimit) {
        (0, hiLimit)
    } else {
        (0, 0)
    }
}

/// Decides which limits to show: `shown_limits` of the two patterns.
/// Neither side of the result is ever a not-a-number.
pub fn shouldShowLimit(hiLimit: u64, loLimit: u64) -> (shouldShowLimit: (u64, u64))
    ensures
        shouldShowLimit == shown_limits(hiLimit, loLimit),
        !is_nan(shouldShowLimit.0),
        !is_nan(shouldShowLimit.1),
{
    let mut lowLimit: u64 = 0;
    let mut hightLimit: u64 = 0;
    let loValid = !nan(loLimit);
    let hiValid = !nan(hiLimit);
    if loValid && hiValid && lt(loLimit, hiLimit) {
        lowLimit = loLimit;
        hightLimit = hiLimit;
    }
    if loValid && !hiValid {
        lowLimit = loLimit;
    }
    if !loValid && hiValid {
        hightLimit = hiLimit;
    }
    (lowLimit, hightLimit)
}

/// The greatest `x` among points, of which there is at least one.
pub open spec fn max_x(points: Seq<PreprocessItem>) -> int
    decreases points.len(),
{
    if points.len() <= 1 {
        points[0].x as int
    } else if points.last().x > max_x(points.drop_last()) {
        points.last().x as int
    } else {
        max_x(points.drop_last())
    }
}

/// The least `y` among points, of which there is at least one and none is a
/// not-a-number; of several least ones that compare equal, the earliest.
pub open spec fn min_y(points: Seq<PreprocessItem>) -> u64
    decreases points.len(),
{
    if points.len() <= 1 {
        points[0].y
    } else if less(points.last().y, min_y(points.drop_last())) {
        points.last().y
    } else {
        min_y(points.drop_last())
    }
}

/// The greatest `y` among points, of which there is at least one and none is
/// a not-a-number; of several greatest ones that compare equal, the latest.
pub open spec fn max_y(points: Seq<PreprocessItem>) -> u64
    decreases points.len(),
{
    if points.len() <= 1 {
        points[0].y
    } else if less_eq(max_y(points.drop_last()), points.last().y) {
        points.last().y
    } else {
        max_y(points.drop_last())
    }
}

/// The bounds of the position axis: from -1 to the greatest `x` and three
/// more; from -1 to 0 where there is no point.
pub open spec fn domain_x(points: Seq<PreprocessItem>) -> (int, int) {
    if points.len() == 0 {
        (-1, 0)
    } else {
        (-1, max_x(points) + 3)
    }
}

/// The bounds of the value axis: the least `y` less the padding and the
/// greatest `y` plus the padding, both rounded as doubles are; two zeros
/// where there is no point.
pub open spec fn domain_y(points: Seq<PreprocessItem>) -> (u64, u64) {
    if points.len() == 0 {
        (0, 0)
    } else {
        (difference(min_y(points), DOMAIN_PADDING), sum(max_y(points), DOMAIN_PADDING))
    }
}

/// Whether points can be framed: no `y` is a not-a-number, and every `x`
/// leaves room for the margin of three within 32 signed bits.
pub open spec fn plottable(points: Seq<PreprocessItem>) -> bool {
    forall|i: int|
        0 <= i < points.len() ==> !is_nan((#[trigger] points[i]).y) && points[i].x <= 0x7fff_fffc
}

/// Computes the axis bounds of a sequence of points: `domain_x` and
/// `domain_y` of the points.
pub fn getDomain(groups: Vec<PreprocessItemStruct>) -> (domain: ([i32; 2], [u64; 2]))
    requires
        plottable(point_views(groups@)),
    ensures
        domain.0[0] == domain_x(point_views(groups@)).0,
        domain.0[1] == domain_x(point_views(groups@)).1,
        domain.1[0] == domain_y(point_views(groups@)).0,
        domain.1[1] == domain_y(point_views(groups@)).1,
{
    if groups.len() == 0 {
        return ([-1, 0], [0, 0]);
    }
    let ghost points = point_views(groups@);
    let mut minY = groups[0].y;
    let mut maxY = groups[0].y;
    let mut maxX = groups[0].x;
    let mut i: usize = 1;
    assert(points.take(1).len() == 1);
    while i < groups.len()
        invariant
            1 <= i <= groups.len(),
            points == point_views(groups@),
            plottable(points),
            minY == min_y(points.take(i as int)),
            maxY == max_y(points.take(i as int)),
            maxX == max_x(points.take(i as int)),
            maxX <= 0x7fff_fffc,
        decreases groups.len() - i,
    {
        let y = groups[i].y;
        let x = groups[i].x;
        proof {
            assert(points.take(i + 1).drop_last() =~= points.take(i as int));
            assert(points.take(i + 1).last() == points[i as int]);
        }
        if lt(y, minY) {
            minY = y;
        }
        if le(maxY, y) {
            maxY = y;
        }
        if x > maxX {
            maxX = x;
        }
        i += 1;
    }
    assert(points.take(groups.len() as int) =~= points);
    ([-1, maxX as i32 + 3], [minus(minY, DOMAIN_PADDING), plus(maxY, DOMAIN_PADDING)])
}

/// The extremes are attained and bound the points. With at least one point
/// and no not-a-number, the least `y` is the `y` of a point and no `y` is
/// below it, the greatest `y` is the `y` of a point and no `y` is above it,
/// and the greatest `x` is the `x` of a point and no `x` is above it.
pub proof fn lemma_extremes(points: Seq<PreprocessItem>)
    requires
        points.len() > 0,
        forall|i: int| 0 <= i < points.len() ==> !is_nan((#[trigger] points[i]).y),
    ensures
        exists|i: int| 0 <= i < points.len() && (#[trigger] points[i]).y == min_y(points),
        exists|i: int| 0 <= i < points.len() && (#[trigger] points[i]).y == max_y(points),
        exists|i: int| 0 <= i < points.len() && (#[trigger] points[i]).x == max_x(points),
        forall|i: int|
            0 <= i < points.len() ==> less_eq(min_y(points), (#[trigger] points[i]).y) && less_eq(
                points[i].y,
                max_y(points),
            ) && points[i].x <= max_x(points),
    decreases points.len(),
{
    if points.len() > 1 {
        let front = points.drop_last();
        lemma_extremes(front);
        let a = choose|i: int| 0 <= i < front.len() && (#[trigger] front[i]).y == min_y(front);
        let b = choose|i: int| 0 <= i < front.len() && (#[trigger] front[i]).y == max_y(front);
        let c = choose|i: int| 0 <= i < front.len() && (#[trigger] front[i]).x == max_x(front);
        let last = points.len() - 1;
        assert(points[a] == front[a] && points[b] == front[b] && points[c] == front[c]);
        assert(points[if min_y(points) == min_y(front) { a } else { last }].y == min_y(points));
        assert(points[if max_y(points) == max_y(front) { b } else { last }].y == max_y(points));
        assert(points[if max_x(points) == max_x(front) { c } else { last }].x == max_x(points));
        assert forall|i: int| 0 <= i < points.len() implies less_eq(
            min_y(points),
            (#[trigger] points[i]).y,
        ) && less_eq(points[i].y, max_y(points)) && points[i].x <= max_x(points) by {
            if i < last {
                assert(points[i] == front[i]);
            }
        }
    } else {
        assert(points[0].y == min_y(points));
    }
}

/// The limits that are shown are finite numbers whenever no limit that
/// comes in is infinite, a not-a-number among them or not; and they follow
/// the table of the four cases.
pub proof fn lemma_shown_limits_finite(hiLimit: u64, loLimit: u64)
    requires
        !is_infinite(hiLimit),
        !is_infinite(loLimit),
    ensures
        is_finite(shown_limits(hiLimit, loLimit).0),
        is_finite(shown_limits(hiLimit, loLimit).1),
        !is_nan(loLimit) && !is_nan(hiLimit) && less(loLimit, hiLimit) ==> shown_limits(
            hiLimit,
            loLimit,
        ) == (loLimit, hiLimit),
        !is_nan(loLimit) && !is_nan(hiLimit) && !less(loLimit, hiLimit) ==> shown_limits(
            hiLimit,
            loLimit,
        ) == (0u64, 0u64),
        !is_nan(loLimit) && is_nan(hiLimit) ==> shown_limits(hiLimit, loLimit) == (loLimit, 0u64),
        is_nan(loLimit) && !is_nan(hiLimit) ==> shown_limits(hiLimit, loLimit) == (0u64, hiLimit),
        is_nan(loLimit) && is_nan(hiLimit) ==> shown_limits(hiLimit, loLimit) == (0u64, 0u64),
{
}

/// Without points the domain is the marker of an empty chart.
pub proof fn lemma_domain_empty()
    ensures
        domain_x(Seq::<PreprocessItem>::empty()) == (-1int, 0int),
        domain_y(Seq::<PreprocessItem>::empty()) == (0u64, 0u64),
{
}

/// The domain is padded around the extremes. With at least one point and
/// no not-a-number, the value axis runs from the least `y` less the padding
/// to the greatest `y` plus the padding, and the position axis from -1 to
/// the greatest `x` and three more; the extremes are those of
/// `lemma_extremes`.
pub proof fn lemma_domain_padding(points: Seq<PreprocessItem>)
    requires
        points.len() > 0,
        forall|i: int| 0 <= i < points.len() ==> !is_nan((#[trigger] points[i]).y),
    ensures
        domain_y(points) == (
            difference(min_y(points), DOMAIN_PADDING),
            sum(max_y(points), DOMAIN_PADDING),
        ),
        domain_x(points) == (-1int, max_x(points) + 3),
        forall|i: int|
            0 <= i < points.len() ==> less_eq(min_y(points), (#[trigger] points[i]).y) && less_eq(
                points[i].y,
                max_y(points),
            ) && points[i].x <= max_x(points),
        exists|i: int| 0 <= i < points.len() && (#[trigger] points[i]).y == min_y(points),
        exists|i: int| 0 <= i < points.len() && (#[trigger] points[i]).y == max_y(points),
        exists|i: int| 0 <= i < points.len() && (#[trigger] points[i]).x == max_x(points),
{
    lemma_extremes(points);
}

} // verus!
