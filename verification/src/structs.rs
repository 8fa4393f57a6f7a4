#![allow(non_snake_case)]

use vstd::prelude::*;

verus! {

/// The characters of an optional string, kept optional.
pub open spec fn text_view(s: Option<String>) -> Option<Seq<char>> {
    match s {
        Some(t) => Some(t@),
        None => None,
    }
}

/// The items of an optional vector; an absent vector counts as empty.
pub open spec fn items_or_empty<T>(v: Option<Vec<T>>) -> Seq<T> {
    match v {
        Some(w) => w@,
        None => Seq::empty(),
    }
}

/// Display configuration. Only `hiddenGroups` is read by the pipeline; the
/// other fields are carried for the renderer.
#[derive(Debug, PartialEq)]
pub struct ConfigStruct {
    pub valueRangeMode: Option<String>,
    pub hiddenGroups: Option<Vec<u32>>,
    pub limitHighlight: bool,
    pub drawLines: Option<bool>,
    pub marker: Option<bool>,
    pub markerSize: Option<u32>,
}

/// Key values that identify a group.
#[derive(Clone, Copy, Debug, PartialEq)]
pub struct KeyValuesStruct {
    pub SITE_NUM: Option<u32>,
}

/// Precomputed statistics of one group. The numeric fields hold the bit
/// patterns of IEEE 754 doubles; the pipeline never reads them.
#[derive(Debug, PartialEq)]
pub struct StatsGroupStruct {
    pub Count: Option<u32>,
    pub Cp: Option<String>,
    pub Cpk: Option<String>,
    pub Max: Option<String>,
    pub Mean: Option<String>,
    pub Min: Option<String>,
    pub Std: Option<String>,
    pub cp: Option<u64>,
    pub cpk: Option<u64>,
    pub max: Option<u64>,
    pub mean: Option<u64>,
    pub min: Option<u64>,
    pub std: Option<u64>,
}

/// Mathematical content of a [`StatsGroupStruct`].
pub ghost struct StatsGroup {
    pub Count: Option<u32>,
    pub Cp: Option<Seq<char>>,
    pub Cpk: Option<Seq<char>>,
    pub Max: Option<Seq<char>>,
    pub Mean: Option<Seq<char>>,
    pub Min: Option<Seq<char>>,
    pub Std: Option<Seq<char>>,
    pub cp: Option<u64>,
    pub cpk: Option<u64>,
    pub max: Option<u64>,
    pub mean: Option<u64>,
    pub min: Option<u64>,
    pub std: Option<u64>,
}

impl View for StatsGroupStruct {
    type V = StatsGroup;

    open spec fn view(&self) -> StatsGroup {
        StatsGroup {
            Count: self.Count,
            Cp: text_view(self.Cp),
            Cpk: text_view(self.Cpk),
            Max: text_view(self.Max),
            Mean: text_view(self.Mean),
            Min: text_view(self.Min),
            Std: text_view(self.Std),
            cp: self.cp,
            cpk: self.cpk,
            max: self.max,
            mean: self.mean,
            min: self.min,
            std: self.std,
        }
    }
}

impl StatsGroup {
    /// The statistics record in which every field is absent.
    pub open spec fn absent() -> StatsGroup {
        StatsGroup {
            Count: None,
            Cp: None,
            Cpk: None,
            Max: None,
            Mean: None,
            Min: None,
            Std: None,
            cp: None,
            cpk: None,
            max: None,
            mean: None,
            min: None,
            std: None,
        }
    }
}

impl Clone for StatsGroupStruct {
    fn clone(&self) -> (res: Self)
        ensures
            res@ == self@,
    {
        StatsGroupStruct {
            Count: self.Count,
            Cp: self.Cp.clone(),
            Cpk: self.Cpk.clone(),
            Max: self.Max.clone(),
            Mean: self.Mean.clone(),
            Min: self.Min.clone(),
            Std: self.Std.clone(),
            cp: self.cp,
            cpk: self.cpk,
            max: self.max,
            mean: self.mean,
            min: self.min,
            std: self.std,
        }
    }
}

/// One labelled series of samples. Each sample is the bit pattern of an
/// IEEE 754 double and may be a not-a-number.
#[derive(Debug, PartialEq)]
pub struct GroupItemStruct {
    pub keyValues: Option<KeyValuesStruct>,
    pub color: Option<String>,
    pub stats: Option<StatsGroupStruct>,
    pub values: Option<Vec<u64>>,
}

/// Mathematical content of a [`GroupItemStruct`]. Absent samples and an empty
/// sequence of samples are the same here.
pub ghost struct GroupItem {
    pub keyValues: Option<KeyValuesStruct>,
    pub color: Option<Seq<char>>,
    pub stats: Option<StatsGroup>,
    pub values: Seq<u64>,
}

impl View for GroupItemStruct {
    type V = GroupItem;

    open spec fn view(&self) -> GroupItem {
        GroupItem {
            keyValues: self.keyValues,
            color: text_view(self.color),
            stats: match self.stats {
                Some(s) => Some(s@),
                None => None,
            },
            values: items_or_empty(self.values),
        }
    }
}

impl Clone for GroupItemStruct {
    fn clone(&self) -> (res: Self)
        ensures
            res@ == self@,
            res.values is Some == self.values is Some,
    {
        let stats = match &self.stats {
            Some(s) => Some(s.clone()),
            None => None,
        };
        let values = match &self.values {
            Some(v) => {
                let w = v.clone();
                assert(w@ =~= v@);
                Some(w)
            },
            None => None,
        };
        GroupItemStruct { keyValues: self.keyValues, color: self.color.clone(), stats, values }
    }
}

/// The views of a sequence of groups, in order.
pub open spec fn group_views(groups: Seq<GroupItemStruct>) -> Seq<GroupItem> {
    groups.map_values(|g: GroupItemStruct| g@)
}

/// Statistics of the whole dataset; numeric fields as bit patterns.
#[derive(Debug, PartialEq)]
pub struct StatsStruct {
    pub count: Option<u32>,
    pub cp: Option<u64>,
    pub cpk: Option<u64>,
    pub max: Option<u64>,
    pub mean: Option<u64>,
    pub min: Option<u64>,
    pub std: Option<u64>,
}

/// Limits and unit of the measured quantity; the limits as bit patterns.
#[derive(Debug, PartialEq)]
pub struct InfoStruct {
    pub HI_LIMIT: Option<u64>,
    pub LO_LIMIT: Option<u64>,
    pub UNITS: Option<String>,
}

/// A dataset as the host hands it over.
#[derive(Debug, PartialEq)]
pub struct DataStruct {
    pub groups: Option<Vec<GroupItemStruct>>,
    pub stats: Option<StatsStruct>,
    pub info: Option<InfoStruct>,
}

/// One plottable sample with the metadata of the group it came from.
#[derive(Debug, PartialEq)]
pub struct PreprocessItemStruct {
    pub color: String,
    pub keyValues: KeyValuesStruct,
    pub stats: StatsGroupStruct,
    pub value: u64,
    pub x: u32,
    pub y: u64,
}

/// Mathematical content of a [`PreprocessItemStruct`].
pub ghost struct PreprocessItem {
    pub color: Seq<char>,
    pub keyValues: KeyValuesStruct,
    pub stats: StatsGroup,
    pub value: u64,
    pub x: u32,
    pub y: u64,
}

impl View for PreprocessItemStruct {
    type V = PreprocessItem;

    open spec fn view(&self) -> PreprocessItem {
        PreprocessItem {
            color: self.color@,
            keyValues: self.keyValues,
            stats: self.stats@,
            value: self.value,
            x: self.x,
            y: self.y,
        }
    }
}

impl Clone for PreprocessItemStruct {
    fn clone(&self) -> (res: Self)
        ensures
            res@ == self@,
    {
        PreprocessItemStruct {
            color: self.color.clone(),
            keyValues: self.keyValues,
            stats: self.stats.clone(),
            value: self.value,
            x: self.x,
            y: self.y,
        }
    }
}

/// The views of a sequence of points, in order.
pub open spec fn point_views(points: Seq<PreprocessItemStruct>) -> Seq<PreprocessItem> {
    points.map_values(|p: PreprocessItemStruct| p@)
}

/// Everything the pipeline hands back to the host.
#[derive(Debug, PartialEq)]
pub struct ReturnValuesStruct {
    pub filterGroups: Vec<GroupItemStruct>,
    pub preprocessGroups: Vec<PreprocessItemStruct>,
    pub groupsValues: Vec<Vec<u64>>,
    pub domain: ([i32; 2], [u64; 2]),
    pub shouldShowLimit: (u64, u64),
}

/// Copies a sequence of groups.
pub fn clone_groups(groups: &Vec<GroupItemStruct>) -> (copy: Vec<GroupItemStruct>)
    ensures
        group_views(copy@) == group_views(groups@),
        forall|j: int|
            0 <= j < copy.len() ==> (#[trigger] copy[j]).values is Some == groups[j].values is Some,
{
    let mut copy: Vec<GroupItemStruct> = Vec::new();
    let mut i: usize = 0;
    while i < groups.len()
        invariant
            i <= groups.len(),
            copy.len() == i,
            forall|j: int|
                0 <= j < i ==> (#[trigger] copy[j])@ == groups[j]@ && copy[j].values is Some
                    == groups[j].values is Some,
        decreases groups.len() - i,
    {
        copy.push(groups[i].clone());
        i += 1;
    }
    assert(group_views(copy@) =~= group_views(groups@));
    copy
}

/// Copies a sequence of points.
pub fn clone_points(points: &Vec<PreprocessItemStruct>) -> (copy: Vec<PreprocessItemStruct>)
    ensures
        point_views(copy@) == point_views(points@),
{
    let mut copy: Vec<PreprocessItemStruct> = Vec::new();
    let mut i: usize = 0;
    while i < points.len()
        invariant
            i <= points.len(),
            copy.len() == i,
            forall|j: int| 0 <= j < i ==> (#[trigger] copy[j])@ == points[j]@,
        decreases points.len() - i,
    {
        copy.push(points[i].clone());
        i += 1;
    }
    assert(point_views(copy@) =~= point_views(points@));
    copy
}

} // verus!
