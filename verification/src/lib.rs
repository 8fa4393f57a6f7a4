#![allow(non_snake_case)]

//! Shapes a grouped measurement dataset for a chart: hidden groups and
//! not-a-number samples are dropped, the rest is flattened into points,
//! paired across neighbouring groups and framed by axis bounds, and a pair
//! of limits is checked for display.
//!
//! Every sample, limit and bound is the 64-bit pattern of an IEEE 754
//! double; see [`binary64`] and [`addition`].

pub mod addition;
pub mod binary64;
pub mod consts;
pub mod data_preprocess;
pub mod structs;
pub mod utils;

use vstd::prelude::*;
use crate::addition::{difference, minus, negated};
use crate::binary64::{abs, is_nan, le, less_eq, magnitude};
use crate::consts::DEFAULT_EPSILON;
use crate::data_preprocess::{
    filterGroup, filter_groups, fitsAxis, fits_axis, flatten, groupsValuesList, hidden_indices,
    lemma_filter_removes_nan, lemma_flatten_owner, pair_list, preprocess, rows,
};
use crate::structs::{
    ConfigStruct, DataStruct, GroupItem, GroupItemStruct, InfoStruct, ReturnValuesStruct,
    clone_groups, clone_points, group_views, items_or_empty, point_views,
};
use crate::utils::{domain_x, domain_y, getDomain, plottable, shouldShowLimit, shown_limits};

verus! {

/// The operand of an approximate match: the pattern given, or positive zero.
pub open spec fn or_zero(x: Option<u64>) -> u64 {
    match x {
        Some(v) => v,
        None => 0,
    }
}

/// The tolerance of an approximate match: the pattern given, or the default.
pub open spec fn or_default_epsilon(x: Option<u64>) -> u64 {
    match x {
        Some(v) => v,
        None => DEFAULT_EPSILON,
    }
}

/// Whether a point lies within a tolerance of a coordinate, signs set
/// aside: the absolute values of point and coordinate are subtracted as
/// doubles, and the absolute difference is at most the absolute tolerance.
/// An absent point or coordinate counts as zero, an absent tolerance as the
/// default. When a not-a-number comes in, or both absolute values are
/// infinite, the answer is no.
pub open spec fn approx(point: Option<u64>, coord: Option<u64>, epsilon: Option<u64>) -> bool {
    less_eq(
        magnitude(difference(magnitude(or_zero(point)), magnitude(or_zero(coord)))),
        magnitude(or_default_epsilon(epsilon)),
    )
}

/// Decides an approximate match: `approx` of the three patterns.
pub fn checkApprox(point: Option<u64>, coord: Option<u64>, epsilon: Option<u64>) -> (matched: bool)
    ensures
        matched == approx(point, coord, epsilon),
{
    let verifiedPoint = abs(
        match point {
            Some(v) => v,
            None => 0,
        },
    );
    let verifiedCoord = abs(
        match coord {
            Some(v) => v,
            None => 0,
        },
    );
    let verifiedEpsilon = abs(
        match epsilon {
            Some(v) => v,
            None => DEFAULT_EPSILON,
        },
    );
    le(abs(minus(verifiedPoint, verifiedCoord)), verifiedEpsilon)
}

/// An approximate match does not see the signs of its operands: negating
/// the point, the coordinate or the tolerance changes no answer.
pub proof fn lemma_approx_symmetry(point: u64, coord: u64, epsilon: Option<u64>)
    ensures
        approx(Some(point), Some(coord), epsilon) == approx(
            Some(negated(point)),
            Some(coord),
            epsilon,
        ),
        approx(Some(point), Some(coord), epsilon) == approx(
            Some(point),
            Some(negated(coord)),
            epsilon,
        ),
        approx(Some(point), Some(coord), epsilon) == approx(
            Some(point),
            Some(coord),
            Some(negated(or_default_epsilon(epsilon))),
        ),
{
}

/// The high limit of a dataset, or positive zero where it names none.
pub open spec fn high_limit(info: Option<InfoStruct>) -> u64 {
    match info {
        Some(i) => or_zero(i.HI_LIMIT),
        None => 0,
    }
}

/// The low limit of a dataset, or positive zero where it names none.
pub open spec fn low_limit(info: Option<InfoStruct>) -> u64 {
    match info {
        Some(i) => or_zero(i.LO_LIMIT),
        None => 0,
    }
}

/// The groups that a dataset and a configuration leave to plot.
pub open spec fn shown_groups(data: DataStruct, config: ConfigStruct) -> Seq<GroupItem> {
    filter_groups(
        group_views(items_or_empty(data.groups)),
        hidden_indices(items_or_empty(config.hiddenGroups)),
    )
}

/// The points of filtered groups can be framed.
pub proof fn lemma_filtered_points_plottable(groups: Seq<GroupItem>, hidden: Set<int>)
    requires
        fits_axis(filter_groups(groups, hidden)),
    ensures
        plottable(flatten(filter_groups(groups, hidden))),
{
    let shown = filter_groups(groups, hidden);
    let points = flatten(shown);
    lemma_filter_removes_nan(groups, hidden);
    assert forall|p: int| 0 <= p < points.len() implies !is_nan((#[trigger] points[p]).y)
        && points[p].x <= 0x7fff_fffc by {
        let owner = lemma_flatten_owner(shown, shown.len(), p);
        assert(!is_nan(shown[owner.0].values[owner.1]));
    }
}

/// Runs the whole pipeline on a dataset: filters the groups, flattens and
/// pairs what is left, frames the points and resolves the limits.
pub fn process(data: DataStruct, config: ConfigStruct) -> (returnValues: ReturnValuesStruct)
    requires
        fits_axis(shown_groups(data, config)),
    ensures
        group_views(returnValues.filterGroups@) == shown_groups(data, config),
        forall|i: int|
            0 <= i < returnValues.filterGroups.len() ==> (
            #[trigger] returnValues.filterGroups[i]).values is Some,
        point_views(returnValues.preprocessGroups@) == flatten(shown_groups(data, config)),
        rows(returnValues.groupsValues@) == pair_list(shown_groups(data, config)),
        returnValues.domain.0[0] == domain_x(flatten(shown_groups(data, config))).0,
        returnValues.domain.0[1] == domain_x(flatten(shown_groups(data, config))).1,
        returnValues.domain.1[0] == domain_y(flatten(shown_groups(data, config))).0,
        returnValues.domain.1[1] == domain_y(flatten(shown_groups(data, config))).1,
        returnValues.shouldShowLimit == shown_limits(high_limit(data.info), low_limit(data.info)),
{
    let ghost all = group_views(items_or_empty(data.groups));
    let ghost hidden = hidden_indices(items_or_empty(config.hiddenGroups));
    let HI_LIMIT = match &data.info {
        Some(info) => match info.HI_LIMIT {
            Some(v) => v,
            None => 0,
        },
        None => 0,
    };
    let LO_LIMIT = match &data.info {
        Some(info) => match info.LO_LIMIT {
            Some(v) => v,
            None => 0,
        },
        None => 0,
    };
    let groups = match data.groups {
        Some(g) => g,
        None => Vec::new(),
    };
    let hiddenGroups = match config.hiddenGroups {
        Some(h) => h,
        None => Vec::new(),
    };
    let filterGroups = filterGroup(groups, hiddenGroups);
    let preprocessGroups = preprocess(clone_groups(&filterGroups));
    let groupsValues = groupsValuesList(clone_groups(&filterGroups));
    proof {
        lemma_filtered_points_plottable(all, hidden);
    }
    let points = clone_points(&preprocessGroups);
    let domain = getDomain(points);
    let shouldShowLimit = shouldShowLimit(HI_LIMIT, LO_LIMIT);
    ReturnValuesStruct { filterGroups, preprocessGroups, groupsValues, domain, shouldShowLimit }
}

/// Runs the pipeline where it can: the result of `process`, or nothing
/// where a group that is left to plot is too long for the position axis.
pub fn tryProcess(data: DataStruct, config: ConfigStruct) -> (returnValues: Option<
    ReturnValuesStruct,
>)
    ensures
        returnValues is Some == fits_axis(shown_groups(data, config)),
        returnValues is Some ==> {
            let out = returnValues->0;
            &&& group_views(out.filterGroups@) == shown_groups(data, config)
            &&& forall|i: int|
                0 <= i < out.filterGroups.len() ==> (#[trigger] out.filterGroups[i]).values is Some
            &&& point_views(out.preprocessGroups@) == flatten(shown_groups(data, config))
            &&& rows(out.groupsValues@) == pair_list(shown_groups(data, config))
            &&& out.domain.0[0] == domain_x(flatten(shown_groups(data, config))).0
            &&& out.domain.0[1] == domain_x(flatten(shown_groups(data, config))).1
            &&& out.domain.1[0] == domain_y(flatten(shown_groups(data, config))).0
            &&& out.domain.1[1] == domain_y(flatten(shown_groups(data, config))).1
            &&& out.shouldShowLimit == shown_limits(high_limit(data.info), low_limit(data.info))
        },
{
    let noGroups: Vec<GroupItemStruct> = Vec::new();
    let noHidden: Vec<u32> = Vec::new();
    let groups = match &data.groups {
        Some(g) => g,
        None => &noGroups,
    };
    let hiddenGroups = match &config.hiddenGroups {
        Some(h) => h,
        None => &noHidden,
    };
    if fitsAxis(groups, hiddenGroups) {
        Some(process(data, config))
    } else {
        None
    }
}

} // verus!
