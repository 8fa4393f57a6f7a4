#![allow(non_snake_case)]

use vstd::prelude::*;
use crate::binary64::{is_nan, nan};
use crate::consts::{default_color, default_color_string};
use crate::structs::{
    GroupItem, GroupItemStruct, KeyValuesStruct, PreprocessItem, PreprocessItemStruct, StatsGroup,
    StatsGroupStruct, group_views, point_views,
};

verus! {

/// The indices that a list of hidden groups names.
pub open spec fn hidden_indices(hidden: Seq<u32>) -> Set<int> {
    Set::new(|i: int| exists|j: int| 0 <= j < hidden.len() && hidden[j] == i)
}

/// A series without its not-a-number samples; the others keep their order.
pub open spec fn without_nan(values: Seq<u64>) -> Seq<u64> {
    values.filter(|v: u64| !is_nan(v))
}

/// A group with its not-a-number samples removed and all else unchanged.
pub open spec fn cleaned(group: GroupItem) -> GroupItem {
    GroupItem { values: without_nan(group.values), ..group }
}

/// The indices below `n` that are not hidden, in rising order.
pub open spec fn kept_indices(n: nat, hidden: Set<int>) -> Seq<int> {
    Seq::new(n, |i: int| i).filter(|i: int| !hidden.contains(i))
}

/// What filtering leaves of the first `n` groups.
pub open spec fn filter_prefix(groups: Seq<GroupItem>, hidden: Set<int>, n: nat) -> Seq<
    GroupItem,
> {
    kept_indices(n, hidden).map_values(|i: int| cleaned(groups[i]))
}

/// The groups whose index is not hidden, in the order they came in, each with
/// its not-a-number samples removed.
pub open spec fn filter_groups(groups: Seq<GroupItem>, hidden: Set<int>) -> Seq<GroupItem> {
    filter_prefix(groups, hidden, groups.len())
}

/// Tells whether `index` is among the hidden indices.
fn is_hidden(hiddenGroups: &Vec<u32>, index: usize) -> (found: bool)
    ensures
        found == hidden_indices(hiddenGroups@).contains(index as int),
{
    let mut j: usize = 0;
    while j < hiddenGroups.len()
        invariant
            j <= hiddenGroups.len(),
            forall|k: int| 0 <= k < j ==> hiddenGroups@[k] != index,
        decreases hiddenGroups.len() - j,
    {
        if hiddenGroups[j] as usize == index {
            return true;
        }
        j += 1;
    }
    false
}

/// Copies the samples that are numbers, in order.
fn numbers_of(values: &Vec<u64>) -> (listValues: Vec<u64>)
    ensures
        listValues@ == without_nan(values@),
{
    let mut listValues: Vec<u64> = Vec::new();
    let mut i: usize = 0;
    assert(values@.take(0) =~= Seq::<u64>::empty());
    while i < values.len()
        invariant
            i <= values.len(),
            listValues@ == without_nan(values@.take(i as int)),
        decreases values.len() - i,
    {
        let value = values[i];
        proof {
            assert(values@.take(i + 1) =~= values@.take(i as int).push(value));
            values@.take(i as int).lemma_filter_push(value, |v: u64| !is_nan(v));
        }
        if !nan(value) {
            listValues.push(value);
        }
        i += 1;
    }
    assert(values@.take(values.len() as int) =~= values@);
    listValues
}

/// Drops the groups whose index is hidden and, from each group that stays,
/// the samples that are not-a-number. The result is `filter_groups` over the
/// groups; each of its groups holds a vector of samples, empty or not.
pub fn filterGroup(groups: Vec<GroupItemStruct>, hiddenGroups: Vec<u32>) -> (returnGroups: Vec<
    GroupItemStruct,
>)
    ensures
        group_views(returnGroups@) == filter_groups(
            group_views(groups@),
            hidden_indices(hiddenGroups@),
        ),
        returnGroups.len() <= groups.len(),
        forall|i: int| 0 <= i < returnGroups.len() ==> (#[trigger] returnGroups[i]).values is Some,
{
    let mut returnGroups: Vec<GroupItemStruct> = Vec::new();
    let empty: Vec<u64> = Vec::new();
    let ghost model = group_views(groups@);
    let ghost hidden = hidden_indices(hiddenGroups@);
    assert(group_views(returnGroups@) =~= filter_prefix(model, hidden, 0));
    let mut index: usize = 0;
    while index < groups.len()
        invariant
            index <= groups.len(),
            empty@ == Seq::<u64>::empty(),
            model == group_views(groups@),
            hidden == hidden_indices(hiddenGroups@),
            group_views(returnGroups@) == filter_prefix(model, hidden, index as nat),
            returnGroups.len() <= index,
            forall|i: int|
                0 <= i < returnGroups.len() ==> (#[trigger] returnGroups[i]).values is Some,
        decreases groups.len() - index,
    {
        proof {
            let ids = Seq::new(index as nat, |i: int| i);
            assert(Seq::new((index + 1) as nat, |i: int| i) =~= ids.push(index as int));
            ids.lemma_filter_push(index as int, |i: int| !hidden.contains(i));
        }
        if !is_hidden(&hiddenGroups, index) {
            let item = &groups[index];
            let values: &Vec<u64> = match &item.values {
                Some(v) => v,
                None => &empty,
            };
            let kept = GroupItemStruct {
                color: item.color.clone(),
                keyValues: item.keyValues,
                stats: match &item.stats {
                    Some(s) => Some(s.clone()),
                    None => None,
                },
                values: Some(numbers_of(values)),
            };
            assert(kept@ == cleaned(model[index as int]));
            let ghost prev = returnGroups@;
            returnGroups.push(kept);
            assert(group_views(returnGroups@) =~= group_views(prev).push(
                cleaned(model[index as int]),
            ));
            assert(filter_prefix(model, hidden, (index + 1) as nat) =~= filter_prefix(
                model,
                hidden,
                index as nat,
            ).push(cleaned(model[index as int])));
        }
        index += 1;
    }
    returnGroups
}

/// Whether every group that is left to plot is short enough for the
/// position axis: its positions and the margin of three fit in 32 signed
/// bits.
pub open spec fn fits_axis(groups: Seq<GroupItem>) -> bool {
    forall|i: int| 0 <= i < groups.len() ==> (#[trigger] groups[i]).values.len() <= 0x7fff_fffd
}

/// Counts the samples that are numbers.
fn count_numbers(values: &Vec<u64>) -> (count: usize)
    ensures
        count == without_nan(values@).len(),
{
    let mut count: usize = 0;
    let mut i: usize = 0;
    assert(values@.take(0) =~= Seq::<u64>::empty());
    while i < values.len()
        invariant
            i <= values.len(),
            count <= i,
            count == without_nan(values@.take(i as int)).len(),
        decreases values.len() - i,
    {
        let value = values[i];
        proof {
            assert(values@.take(i + 1) =~= values@.take(i as int).push(value));
            values@.take(i as int).lemma_filter_push(value, |v: u64| !is_nan(v));
        }
        if !nan(value) {
            count += 1;
        }
        i += 1;
    }
    assert(values@.take(values.len() as int) =~= values@);
    count
}

/// Tells whether the groups that filtering leaves fit the position axis.
pub fn fitsAxis(groups: &Vec<GroupItemStruct>, hiddenGroups: &Vec<u32>) -> (fits: bool)
    ensures
        fits == fits_axis(
            filter_groups(group_views(groups@), hidden_indices(hiddenGroups@)),
        ),
{
    let empty: Vec<u64> = Vec::new();
    let ghost model = group_views(groups@);
    let ghost hidden = hidden_indices(hiddenGroups@);
    let ghost shown = filter_groups(model, hidden);
    let ghost kept = kept_indices(model.len(), hidden);
    let mut index: usize = 0;
    while index < groups.len()
        invariant
            index <= groups.len(),
            empty@ == Seq::<u64>::empty(),
            model == group_views(groups@),
            hidden == hidden_indices(hiddenGroups@),
            shown == filter_groups(model, hidden),
            kept == kept_indices(model.len(), hidden),
            forall|i: int|
                0 <= i < index && !hidden.contains(i) ==> without_nan(
                    (#[trigger] model[i]).values,
                ).len() <= 0x7fff_fffd,
        decreases groups.len() - index,
    {
        if !is_hidden(hiddenGroups, index) {
            let values: &Vec<u64> = match &groups[index].values {
                Some(v) => v,
                None => &empty,
            };
            if count_numbers(values) > 0x7fff_fffd {
                proof {
                    lemma_kept_indices(model.len(), hidden);
                    assert(kept.contains(index as int));
                    let a = choose|a: int| 0 <= a < kept.len() && kept[a] == index;
                    assert(shown[a] == cleaned(model[index as int]));
                }
                return false;
            }
        }
        index += 1;
    }
    proof {
        lemma_kept_indices(model.len(), hidden);
    }
    assert forall|a: int| 0 <= a < shown.len() implies (#[trigger] shown[a]).values.len()
        <= 0x7fff_fffd by {
        assert(shown[a] == cleaned(model[kept[a]]));
    }
    true
}

/// The point made of the sample at position `k` of a group. Its `x` is `k`,
/// cut to 32 bits; colour, key values and statistics are the group's own, or
/// the defaults where the group has none.
pub open spec fn point_of(group: GroupItem, k: int) -> PreprocessItem {
    PreprocessItem {
        color: match group.color {
            Some(c) => c,
            None => default_color(),
        },
        keyValues: match group.keyValues {
            Some(kv) => kv,
            None => KeyValuesStruct { SITE_NUM: None },
        },
        stats: match group.stats {
            Some(s) => s,
            None => StatsGroup::absent(),
        },
        value: group.values[k],
        x: k as u32,
        y: group.values[k],
    }
}

/// The points of one group, in the order of its samples.
pub open spec fn points_of(group: GroupItem) -> Seq<PreprocessItem> {
    Seq::new(group.values.len(), |k: int| point_of(group, k))
}

/// The points of the first `n` groups, one group after the other.
pub open spec fn flatten_prefix(groups: Seq<GroupItem>, n: nat) -> Seq<PreprocessItem> {
    Seq::new(n, |i: int| points_of(groups[i])).flatten()
}

/// The points of all groups: groups in order, samples in order within each.
pub open spec fn flatten(groups: Seq<GroupItem>) -> Seq<PreprocessItem> {
    flatten_prefix(groups, groups.len())
}

/// The statistics record in which every field is absent.
fn absent_stats() -> (stats: StatsGroupStruct)
    ensures
        stats@ == StatsGroup::absent(),
{
    StatsGroupStruct {
        Count: None,
        Cp: None,
        Cpk: None,
        Max: None,
        Mean: None,
        Min: None,
        Std: None,
        cp: None,
        cpk: None,
        max: None,
        mean: None,
        min: None,
        std: None,
    }
}

/// Appends the points of one group to `out`.
fn push_points(out: &mut Vec<PreprocessItemStruct>, item: &GroupItemStruct)
    ensures
        point_views(final(out)@) == point_views(old(out)@) + points_of(item@),
{
    let ghost before = point_views(out@);
    let ghost target = points_of(item@);
    let empty: Vec<u64> = Vec::new();
    let values: &Vec<u64> = match &item.values {
        Some(v) => v,
        None => &empty,
    };
    let mut i: usize = 0;
    while i < values.len()
        invariant
            i <= values.len(),
            values@ == item@.values,
            target == points_of(item@),
            point_views(out@) == before + target.take(i as int),
        decreases values.len() - i,
    {
        let el = values[i];
        let point = PreprocessItemStruct {
            color: match &item.color {
                Some(c) => c.clone(),
                None => default_color_string(),
            },
            keyValues: match item.keyValues {
                Some(kv) => kv,
                None => KeyValuesStruct { SITE_NUM: None },
            },
            stats: match &item.stats {
                Some(s) => s.clone(),
                None => absent_stats(),
            },
            value: el,
            x: #[verifier::truncate] (i as u32),
            y: el,
        };
        assert(point@ == target[i as int]);
        let ghost prev = out@;
        out.push(point);
        assert(point_views(out@) =~= point_views(prev).push(target[i as int]));
        assert(target.take(i + 1) =~= target.take(i as int).push(target[i as int]));
        i += 1;
    }
    assert(target.take(values.len() as int) =~= target);
}

/// Flattens groups into points: the points of `flatten` over the groups.
/// The groups are taken as they are; nothing is filtered here.
pub fn preprocess(groups: Vec<GroupItemStruct>) -> (returnedGroups: Vec<PreprocessItemStruct>)
    ensures
        point_views(returnedGroups@) == flatten(group_views(groups@)),
{
    let mut returnedGroups: Vec<PreprocessItemStruct> = Vec::new();
    let ghost model = group_views(groups@);
    assert(point_views(returnedGroups@) =~= Seq::<PreprocessItem>::empty());
    let mut i: usize = 0;
    while i < groups.len()
        invariant
            i <= groups.len(),
            model == group_views(groups@),
            point_views(returnedGroups@) == flatten_prefix(model, i as nat),
        decreases groups.len() - i,
    {
        push_points(&mut returnedGroups, &groups[i]);
        proof {
            let f = |j: int| points_of(model[j]);
            assert(Seq::new((i + 1) as nat, f) =~= Seq::new(i as nat, f).push(f(i as int)));
            Seq::new(i as nat, f).lemma_flatten_push(f(i as int));
        }
        i += 1;
    }
    returnedGroups
}

/// The rows of a table, each as a sequence.
pub open spec fn rows(table: Seq<Vec<u64>>) -> Seq<Seq<u64>> {
    table.map_values(|row: Vec<u64>| row@)
}

/// Every sample of a series as a row of its own.
pub open spec fn singletons(values: Seq<u64>) -> Seq<Seq<u64>> {
    Seq::new(values.len(), |k: int| seq![values[k]])
}

/// The pairing of two neighbouring series. It has one row for each position
/// of the longer series. Where both series have a sample at a position the
/// row holds the sample of the first series and then that of the second;
/// past the end of the shorter series the row holds the one sample left.
pub open spec fn boundary_pairs(first: Seq<u64>, second: Seq<u64>) -> Seq<Seq<u64>> {
    Seq::new(
        if first.len() >= second.len() {
            first.len()
        } else {
            second.len()
        },
        |k: int|
            if k < first.len() && k < second.len() {
                seq![first[k], second[k]]
            } else if k < first.len() {
                seq![first[k]]
            } else {
                seq![second[k]]
            },
    )
}

/// The pairings of the first `n` boundaries, one after the other; boundary
/// `i` lies between group `i` and group `i + 1`.
pub open spec fn chained_pairs(groups: Seq<GroupItem>, n: nat) -> Seq<Seq<u64>> {
    Seq::new(n, |i: int| boundary_pairs(groups[i].values, groups[i + 1].values)).flatten()
}

/// The singleton rows of the first `n` groups, one group after the other.
pub open spec fn single_rows(groups: Seq<GroupItem>, n: nat) -> Seq<Seq<u64>> {
    Seq::new(n, |i: int| singletons(groups[i].values)).flatten()
}

/// The pair list of a sequence of groups: with fewer than two groups every
/// sample alone; otherwise the pairings of all boundaries in order, so that
/// an inner group shows up in two of them.
pub open spec fn pair_list(groups: Seq<GroupItem>) -> Seq<Seq<u64>> {
    if groups.len() < 2 {
        single_rows(groups, groups.len())
    } else {
        chained_pairs(groups, (groups.len() - 1) as nat)
    }
}

/// Appends the pairing of two neighbouring series to `out`.
fn push_boundary(out: &mut Vec<Vec<u64>>, first: &Vec<u64>, second: &Vec<u64>)
    ensures
        rows(final(out)@) == rows(old(out)@) + boundary_pairs(first@, second@),
{
    let n = if first.len() >= second.len() {
        first.len()
    } else {
        second.len()
    };
    let ghost before = rows(out@);
    let ghost target = boundary_pairs(first@, second@);
    let mut k: usize = 0;
    while k < n
        invariant
            k <= n,
            n == target.len(),
            target == boundary_pairs(first@, second@),
            rows(out@) == before + target.take(k as int),
        decreases n - k,
    {
        let mut list: Vec<u64> = Vec::new();
        if k < first.len() && k < second.len() {
            list.push(first[k]);
            list.push(second[k]);
        } else if k < first.len() {
            list.push(first[k]);
        } else {
            list.push(second[k]);
        }
        assert(list@ =~= target[k as int]);
        let ghost prev = out@;
        out.push(list);
        assert(rows(out@) =~= rows(prev).push(target[k as int]));
        assert(target.take(k + 1) =~= target.take(k as int).push(target[k as int]));
        k += 1;
    }
    assert(target.take(n as int) =~= target);
}

/// Appends every sample of a series to `out` as a row of its own.
fn push_singletons(out: &mut Vec<Vec<u64>>, values: &Vec<u64>)
    ensures
        rows(final(out)@) == rows(old(out)@) + singletons(values@),
{
    let ghost before = rows(out@);
    let ghost target = singletons(values@);
    let mut k: usize = 0;
    while k < values.len()
        invariant
            k <= values.len(),
            target == singletons(values@),
            rows(out@) == before + target.take(k as int),
        decreases values.len() - k,
    {
        let mut list: Vec<u64> = Vec::new();
        list.push(values[k]);
        assert(list@ =~= target[k as int]);
        let ghost prev = out@;
        out.push(list);
        assert(rows(out@) =~= rows(prev).push(target[k as int]));
        assert(target.take(k + 1) =~= target.take(k as int).push(target[k as int]));
        k += 1;
    }
    assert(target.take(values.len() as int) =~= target);
}

/// Builds the pair list: the rows of `pair_list` over the groups' samples.
pub fn groupsValuesList(groups: Vec<GroupItemStruct>) -> (returnedValues: Vec<Vec<u64>>)
    ensures
        rows(returnedValues@) == pair_list(group_views(groups@)),
{
    let mut returnedValues: Vec<Vec<u64>> = Vec::new();
    let empty: Vec<u64> = Vec::new();
    let ghost model = group_views(groups@);
    assert(rows(returnedValues@) =~= Seq::<Seq<u64>>::empty());
    if groups.len() >= 2 {
        let mut i: usize = 0;
        while i < groups.len() - 1
            invariant
                groups.len() >= 2,
                i <= groups.len() - 1,
                empty@ == Seq::<u64>::empty(),
                model == group_views(groups@),
                rows(returnedValues@) == chained_pairs(model, i as nat),
            decreases groups.len() - i,
        {
            let values: &Vec<u64> = match &groups[i].values {
                Some(v) => v,
                None => &empty,
            };
            let nextValues: &Vec<u64> = match &groups[i + 1].values {
                Some(v) => v,
                None => &empty,
            };
            assert(values@ == model[i as int].values);
            assert(nextValues@ == model[i + 1].values);
            push_boundary(&mut returnedValues, values, nextValues);
            proof {
                let f = |j: int| boundary_pairs(model[j].values, model[j + 1].values);
                assert(Seq::new((i + 1) as nat, f) =~= Seq::new(i as nat, f).push(f(i as int)));
                Seq::new(i as nat, f).lemma_flatten_push(f(i as int));
            }
            i += 1;
        }
    } else {
        let mut i: usize = 0;
        while i < groups.len()
            invariant
                i <= groups.len(),
                empty@ == Seq::<u64>::empty(),
                model == group_views(groups@),
                rows(returnedValues@) == single_rows(model, i as nat),
            decreases groups.len() - i,
        {
            let values: &Vec<u64> = match &groups[i].values {
                Some(v) => v,
                None => &empty,
            };
            assert(values@ == model[i as int].values);
            push_singletons(&mut returnedValues, values);
            proof {
                let f = |j: int| singletons(model[j].values);
                assert(Seq::new((i + 1) as nat, f) =~= Seq::new(i as nat, f).push(f(i as int)));
                Seq::new(i as nat, f).lemma_flatten_push(f(i as int));
            }
            i += 1;
        }
    }
    returnedValues
}

/// The number of samples in the first `n` groups.
pub open spec fn sample_count(groups: Seq<GroupItem>, n: nat) -> nat
    decreases n,
{
    if n == 0 {
        0
    } else {
        sample_count(groups, (n - 1) as nat) + groups[n - 1].values.len()
    }
}

/// The indices that filtering keeps are below `n`, not hidden and strictly
/// rising, and every index below `n` that is not hidden is among them.
pub proof fn lemma_kept_indices(n: nat, hidden: Set<int>)
    ensures
        kept_indices(n, hidden).len() <= n,
        forall|a: int|
            0 <= a < kept_indices(n, hidden).len() ==> {
                &&& 0 <= #[trigger] kept_indices(n, hidden)[a] < n
                &&& !hidden.contains(kept_indices(n, hidden)[a])
            },
        forall|a: int, b: int|
            0 <= a < b < kept_indices(n, hidden).len() ==> kept_indices(n, hidden)[a]
                < kept_indices(n, hidden)[b],
        forall|i: int|
            0 <= i < n && !hidden.contains(i) ==> kept_indices(n, hidden).contains(i),
    decreases n,
{
    if n == 0 {
        assert(Seq::new(0, |i: int| i) =~= Seq::<int>::empty());
    } else {
        let m = (n - 1) as nat;
        lemma_kept_indices(m, hidden);
        let ids = Seq::new(m, |i: int| i);
        let keep = |i: int| !hidden.contains(i);
        assert(Seq::new(n, |i: int| i) =~= ids.push(m as int));
        ids.lemma_filter_push(m as int, keep);
        let before = kept_indices(m, hidden);
        let after = kept_indices(n, hidden);
        assert forall|i: int| 0 <= i < n && !hidden.contains(i) implies after.contains(i) by {
            if i < m {
                let a = choose|a: int| 0 <= a < before.len() && before[a] == i;
                assert(after[a] == i);
            } else {
                assert(after[after.len() - 1] == i);
            }
        }
    }
}

/// Filtering is index-stable. The result is no longer than the input, and
/// its groups are the groups at the kept indices, which rise strictly: what
/// survives stands in the order it came in, cleaned of not-a-number samples.
pub proof fn lemma_filter_keeps_order(groups: Seq<GroupItem>, hidden: Set<int>)
    ensures
        filter_groups(groups, hidden).len() == kept_indices(groups.len(), hidden).len(),
        filter_groups(groups, hidden).len() <= groups.len(),
        forall|a: int|
            0 <= a < filter_groups(groups, hidden).len() ==> {
                &&& 0 <= kept_indices(groups.len(), hidden)[a] < groups.len()
                &&& !hidden.contains(kept_indices(groups.len(), hidden)[a])
                &&& #[trigger] filter_groups(groups, hidden)[a] == cleaned(
                    groups[kept_indices(groups.len(), hidden)[a]],
                )
            },
        forall|a: int, b: int|
            0 <= a < b < filter_groups(groups, hidden).len() ==> kept_indices(
                groups.len(),
                hidden,
            )[a] < kept_indices(groups.len(), hidden)[b],
{
    lemma_kept_indices(groups.len(), hidden);
}

/// No sample of a filtered group is a not-a-number.
pub proof fn lemma_filter_removes_nan(groups: Seq<GroupItem>, hidden: Set<int>)
    ensures
        forall|i: int, k: int|
            0 <= i < filter_groups(groups, hidden).len() && 0 <= k < filter_groups(
                groups,
                hidden,
            )[i].values.len() ==> !is_nan(#[trigger] filter_groups(groups, hidden)[i].values[k]),
{
    let out = filter_groups(groups, hidden);
    let kept = kept_indices(groups.len(), hidden);
    let number = |v: u64| !is_nan(v);
    assert forall|i: int, k: int| 0 <= i < out.len() && 0 <= k < out[i].values.len() implies !is_nan(
        #[trigger] out[i].values[k],
    ) by {
        groups[kept[i]].values.lemma_filter_pred(number, k);
    }
}

/// Flattening the first `n` groups gives as many points as they hold samples.
pub proof fn lemma_flatten_prefix_len(groups: Seq<GroupItem>, n: nat)
    ensures
        flatten_prefix(groups, n).len() == sample_count(groups, n),
    decreases n,
{
    let f = |i: int| points_of(groups[i]);
    if n == 0 {
        assert(Seq::new(0, f) =~= Seq::<Seq<PreprocessItem>>::empty());
    } else {
        let m = (n - 1) as nat;
        lemma_flatten_prefix_len(groups, m);
        assert(Seq::new(n, f) =~= Seq::new(m, f).push(f(m as int)));
        Seq::new(m, f).lemma_flatten_push(f(m as int));
    }
}

/// The length law of flattening: one point for each sample of each group.
pub proof fn lemma_flatten_len(groups: Seq<GroupItem>)
    ensures
        flatten(groups).len() == sample_count(groups, groups.len()),
{
    lemma_flatten_prefix_len(groups, groups.len());
}

/// The points of group `i` stand in the flattened sequence behind the points
/// of the groups before it: the sample at position `k` of group `i` is the
/// point at position `sample_count(groups, i) + k`.
pub proof fn lemma_flatten_prefix_index(groups: Seq<GroupItem>, n: nat, i: int, k: int)
    requires
        0 <= i < n,
        0 <= k < groups[i].values.len(),
    ensures
        sample_count(groups, i as nat) + k < flatten_prefix(groups, n).len(),
        flatten_prefix(groups, n)[sample_count(groups, i as nat) + k] == point_of(groups[i], k),
    decreases n,
{
    let f = |j: int| points_of(groups[j]);
    let m = (n - 1) as nat;
    assert(Seq::new(n, f) =~= Seq::new(m, f).push(f(m as int)));
    Seq::new(m, f).lemma_flatten_push(f(m as int));
    lemma_flatten_prefix_len(groups, m);
    if i < m {
        lemma_flatten_prefix_index(groups, m, i, k);
    }
}

/// The index law of flattening. The point made of sample `k` of group `i`
/// has an `x` below the number of samples of that group, and `x` is `k`
/// itself as long as `k` fits in 32 bits.
pub proof fn lemma_flatten_index(groups: Seq<GroupItem>, i: int, k: int)
    requires
        0 <= i < groups.len(),
        0 <= k < groups[i].values.len(),
    ensures
        sample_count(groups, i as nat) + k < flatten(groups).len(),
        flatten(groups)[sample_count(groups, i as nat) + k] == point_of(groups[i], k),
        0 <= point_of(groups[i], k).x < groups[i].values.len(),
        k <= u32::MAX ==> point_of(groups[i], k).x == k,
        point_of(groups[i], k).y == groups[i].values[k],
{
    lemma_flatten_prefix_index(groups, groups.len(), i, k);
}

/// Every point of the flattened sequence is made of a sample of some group:
/// the result names the group and the position of the sample in it.
pub proof fn lemma_flatten_owner(groups: Seq<GroupItem>, n: nat, p: int) -> (owner: (int, int))
    requires
        n <= groups.len(),
        0 <= p < flatten_prefix(groups, n).len(),
    ensures
        0 <= owner.0 < n,
        0 <= owner.1 < groups[owner.0].values.len(),
        p == sample_count(groups, owner.0 as nat) + owner.1,
        flatten_prefix(groups, n)[p] == point_of(groups[owner.0], owner.1),
        0 <= flatten_prefix(groups, n)[p].x < groups[owner.0].values.len(),
    decreases n,
{
    let f = |j: int| points_of(groups[j]);
    if n == 0 {
        assert(Seq::new(0, f) =~= Seq::<Seq<PreprocessItem>>::empty());
        (0, 0)
    } else {
        let m = (n - 1) as nat;
        assert(Seq::new(n, f) =~= Seq::new(m, f).push(f(m as int)));
        Seq::new(m, f).lemma_flatten_push(f(m as int));
        lemma_flatten_prefix_len(groups, m);
        if p < sample_count(groups, m) {
            lemma_flatten_owner(groups, m, p)
        } else {
            (m as int, p - sample_count(groups, m))
        }
    }
}

/// The base case of the pair list. Fewer than two groups give one row for
/// each sample and every row holds that sample alone: no rows for no group,
/// and for one group the singletons of its samples in order.
pub proof fn lemma_pair_base_case(groups: Seq<GroupItem>)
    requires
        groups.len() < 2,
    ensures
        pair_list(groups).len() == sample_count(groups, groups.len()),
        groups.len() == 0 ==> pair_list(groups) == Seq::<Seq<u64>>::empty(),
        groups.len() == 1 ==> pair_list(groups) == singletons(groups[0].values),
        forall|p: int| 0 <= p < pair_list(groups).len() ==> (#[trigger] pair_list(groups)[p]).len() == 1,
{
    let f = |i: int| singletons(groups[i].values);
    reveal_with_fuel(sample_count, 2);
    if groups.len() == 0 {
        assert(Seq::new(0, f) =~= Seq::<Seq<Seq<u64>>>::empty());
    } else {
        assert(Seq::new(1, f).len() == 1);
        Seq::new(1, f).lemma_flatten_singleton();
        assert(pair_list(groups) == singletons(groups[0].values));
    }
}

/// The number of rows that the first `n` boundaries contribute: for each
/// boundary the length of the longer of its two series.
pub open spec fn pair_count(groups: Seq<GroupItem>, n: nat) -> nat
    decreases n,
{
    if n == 0 {
        0
    } else if groups[n - 1].values.len() >= groups[n as int].values.len() {
        pair_count(groups, (n - 1) as nat) + groups[n - 1].values.len()
    } else {
        pair_count(groups, (n - 1) as nat) + groups[n as int].values.len()
    }
}

/// The chained pairings are as long as their boundaries say, and the rows
/// of boundary `i` stand behind those of the boundaries before it: row `k`
/// of that boundary is row `pair_count(groups, i) + k` of the whole.
pub proof fn lemma_chained_pairs(groups: Seq<GroupItem>, n: nat, i: int, k: int)
    requires
        0 <= i < n,
        0 <= k < boundary_pairs(groups[i].values, groups[i + 1].values).len(),
    ensures
        chained_pairs(groups, n).len() == pair_count(groups, n),
        pair_count(groups, i as nat) + k < pair_count(groups, n),
        chained_pairs(groups, n)[pair_count(groups, i as nat) + k] == boundary_pairs(
            groups[i].values,
            groups[i + 1].values,
        )[k],
    decreases n,
{
    let f = |j: int| boundary_pairs(groups[j].values, groups[j + 1].values);
    let m = (n - 1) as nat;
    assert(Seq::new(n, f) =~= Seq::new(m, f).push(f(m as int)));
    Seq::new(m, f).lemma_flatten_push(f(m as int));
    lemma_chained_pairs_len(groups, m);
    if i < m {
        lemma_chained_pairs(groups, m, i, k);
    }
}

/// The chained pairings of `n` boundaries have `pair_count` rows.
pub proof fn lemma_chained_pairs_len(groups: Seq<GroupItem>, n: nat)
    ensures
        chained_pairs(groups, n).len() == pair_count(groups, n),
    decreases n,
{
    let f = |j: int| boundary_pairs(groups[j].values, groups[j + 1].values);
    if n == 0 {
        assert(Seq::new(0, f) =~= Seq::<Seq<Seq<u64>>>::empty());
    } else {
        let m = (n - 1) as nat;
        lemma_chained_pairs_len(groups, m);
        assert(Seq::new(n, f) =~= Seq::new(m, f).push(f(m as int)));
        Seq::new(m, f).lemma_flatten_push(f(m as int));
    }
}

} // verus!
