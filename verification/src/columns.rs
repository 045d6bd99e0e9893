//! The data columns of an export.
//!
//! Laps need not carry the same channels, and a lap may carry several channels of one
//! name. A column therefore stands for "the `rank`-th channel called `name`" of a lap.
//! The columns of a run are listed in the order in which the laps first show them, so
//! a channel that a later lap lacks keeps its column, and that lap leaves it blank.

use vstd::prelude::*;
use crate::channel::{Channel, ChannelView, LapData, LapView};

verus! {

/// A data column: the `rank`-th channel called `name`, counting from zero.
#[derive(Debug)]
pub struct Column {
    pub name: String,
    pub rank: usize,
}

/// What identifies a column: a channel's name and its rank among the channels of
/// that name in its lap.
pub type ColumnKey = (Seq<char>, int);

impl View for Column {
    type V = ColumnKey;

    open spec fn view(&self) -> ColumnKey {
        (self.name@, self.rank as int)
    }
}

impl DeepView for Column {
    type V = ColumnKey;

    open spec fn deep_view(&self) -> ColumnKey {
        self@
    }
}

/// How many of the first `n` channels are called `name`.
pub open spec fn namesakes(channels: Seq<ChannelView>, name: Seq<char>, n: int) -> int
    decreases n,
{
    if n <= 0 {
        0
    } else {
        namesakes(channels, name, n - 1) + if channels[n - 1].name == name {
            1int
        } else {
            0int
        }
    }
}

/// The key of channel `c` of a lap.
pub open spec fn key_of(channels: Seq<ChannelView>, c: int) -> ColumnKey {
    (channels[c].name, namesakes(channels, channels[c].name, c))
}

/// `columns`, and after them the keys of the first `n` channels that it does not list
/// yet, in the channels' order.
pub open spec fn with_channels(columns: Seq<ColumnKey>, channels: Seq<ChannelView>, n: int) -> Seq<
    ColumnKey,
>
    decreases n,
{
    if n <= 0 {
        columns
    } else {
        let before = with_channels(columns, channels, n - 1);
        if before.contains(key_of(channels, n - 1)) {
            before
        } else {
            before.push(key_of(channels, n - 1))
        }
    }
}

/// The columns of the first `n` laps: the key of every channel, in the order of first
/// appearance.
pub open spec fn columns_of(laps: Seq<LapView>, n: int) -> Seq<ColumnKey>
    decreases n,
{
    if n <= 0 {
        Seq::<ColumnKey>::empty()
    } else {
        with_channels(columns_of(laps, n - 1), laps[n - 1].channels, laps[n - 1].channels.len() as int)
    }
}

/// Channel `c` is the one that fills the column `key` in its lap.
pub open spec fn fills(channels: Seq<ChannelView>, key: ColumnKey, c: int) -> bool {
    0 <= c < channels.len() && key_of(channels, c) == key
}

/// No channel of the lap fills the column `key`.
pub open spec fn unfilled(channels: Seq<ChannelView>, key: ColumnKey) -> bool {
    forall|c: int| !fills(channels, key, c)
}

/// The channel of a lap that fills the column `key`, if the lap has one. It has one
/// at most: see [`lemma_keys_differ`].
pub open spec fn source_of(channels: Seq<ChannelView>, key: ColumnKey) -> Option<int> {
    if exists|c: int| fills(channels, key, c) {
        Some(choose|c: int| fills(channels, key, c))
    } else {
        None
    }
}

/// The count of namesakes never falls and grows by at most one channel at a time.
proof fn lemma_namesakes_bounds(channels: Seq<ChannelView>, name: Seq<char>, a: int, b: int)
    requires
        0 <= a <= b,
    ensures
        0 <= namesakes(channels, name, a) <= namesakes(channels, name, b) <= namesakes(
            channels,
            name,
            a,
        ) + (b - a),
        namesakes(channels, name, a) <= a,
    decreases b,
{
    if a < b {
        lemma_namesakes_bounds(channels, name, a, b - 1);
    } else if a > 0 {
        lemma_namesakes_bounds(channels, name, a - 1, a - 1);
    }
}

/// Two channels of one lap never share a key, so a column is filled by one channel at
/// most.
pub proof fn lemma_keys_differ(channels: Seq<ChannelView>, c: int, d: int)
    requires
        0 <= c < d < channels.len(),
    ensures
        key_of(channels, c) != key_of(channels, d),
{
    let name = channels[c].name;
    if channels[d].name == name {
        lemma_namesakes_bounds(channels, name, c + 1, d);
        assert(namesakes(channels, name, c + 1) == namesakes(channels, name, c) + 1);
    }
}

/// The channel that fills a column is the column's source.
proof fn lemma_source(channels: Seq<ChannelView>, key: ColumnKey, c: int)
    requires
        fills(channels, key, c),
    ensures
        source_of(channels, key) == Some(c),
{
    let d = choose|d: int| fills(channels, key, d);
    if d < c {
        lemma_keys_differ(channels, d, c);
    } else if c < d {
        lemma_keys_differ(channels, c, d);
    }
}

/// Once a key is listed it stays listed, at its place.
proof fn lemma_with_channels_keeps(columns: Seq<ColumnKey>, channels: Seq<ChannelView>, n: int, j: int)
    requires
        0 <= j < columns.len(),
        0 <= n,
    ensures
        j < with_channels(columns, channels, n).len(),
        with_channels(columns, channels, n)[j] == columns[j],
    decreases n,
{
    if n > 0 {
        lemma_with_channels_keeps(columns, channels, n - 1, j);
    }
}

/// After a lap has been taken in, each of its channels has a column.
proof fn lemma_with_channels_lists(columns: Seq<ColumnKey>, channels: Seq<ChannelView>, n: int, c: int)
    requires
        0 <= c < n,
    ensures
        with_channels(columns, channels, n).contains(key_of(channels, c)),
    decreases n,
{
    let before = with_channels(columns, channels, n - 1);
    let after = with_channels(columns, channels, n);
    if c < n - 1 {
        lemma_with_channels_lists(columns, channels, n - 1, c);
        let j = choose|j: int| 0 <= j < before.len() && before[j] == key_of(channels, c);
        assert(after[j] == key_of(channels, c));
    } else if before.contains(key_of(channels, c)) {
    } else {
        assert(after[before.len() as int] == key_of(channels, c));
    }
}

/// Once a lap's columns are listed, later laps leave them where they are.
proof fn lemma_columns_keep(laps: Seq<LapView>, a: int, b: int, j: int)
    requires
        0 <= a <= b,
        0 <= j < columns_of(laps, a).len(),
    ensures
        j < columns_of(laps, b).len(),
        columns_of(laps, b)[j] == columns_of(laps, a)[j],
    decreases b,
{
    if a < b {
        lemma_columns_keep(laps, a, b - 1, j);
        lemma_with_channels_keeps(
            columns_of(laps, b - 1),
            laps[b - 1].channels,
            laps[b - 1].channels.len() as int,
            j,
        );
    }
}

/// Every channel of every lap has a column in the run, whether or not other laps
/// carry the channel.
pub proof fn lemma_every_channel_has_a_column(laps: Seq<LapView>, l: int, c: int)
    requires
        0 <= l < laps.len(),
        0 <= c < laps[l].channels.len(),
    ensures
        columns_of(laps, laps.len() as int).contains(key_of(laps[l].channels, c)),
{
    let key = key_of(laps[l].channels, c);
    lemma_with_channels_lists(columns_of(laps, l), laps[l].channels, laps[l].channels.len() as int, c);
    let upto = columns_of(laps, l + 1);
    let j = choose|j: int| 0 <= j < upto.len() && upto[j] == key;
    lemma_columns_keep(laps, l + 1, laps.len() as int, j);
}

/// The rank of channel `c`: how many channels before it carry its name.
pub(crate) fn rank_of(channels: &Vec<Channel>, c: usize) -> (r: usize)
    requires
        c < channels.len(),
    ensures
        (channels[c as int].name@, r as int) == key_of(channels.deep_view(), c as int),
{
    let ghost views = channels.deep_view();
    let mut r: usize = 0;
    let mut d: usize = 0;
    while d < c
        invariant
            d <= c < channels.len(),
            views == channels.deep_view(),
            r == namesakes(views, views[c as int].name, d as int),
            r <= d,
        decreases c - d,
    {
        if channels[d].name == channels[c].name {
            r += 1;
        }
        d += 1;
    }
    r
}

/// The place of the column `(name, rank)` in `columns`, if it is listed.
pub fn find_column(columns: &Vec<Column>, name: &String, rank: usize) -> (r: Option<usize>)
    ensures
        match r {
            Some(j) => j < columns.len() && columns.deep_view()[j as int] == (name@, rank as int),
            None => !columns.deep_view().contains((name@, rank as int)),
        },
{
    let mut j: usize = 0;
    while j < columns.len()
        invariant
            j <= columns.len(),
            forall|x: int| 0 <= x < j ==> (#[trigger] columns[x])@ != (name@, rank as int),
        decreases columns.len() - j,
    {
        if columns[j].rank == rank && columns[j].name == *name {
            return Some(j);
        }
        j += 1;
    }
    assert forall|x: int| 0 <= x < columns.deep_view().len() implies columns.deep_view()[x] != (
        name@,
        rank as int,
    ) by {
        assert(columns.deep_view()[x] == columns[x]@);
    }
    None
}

/// The channel of a lap that fills a column, if the lap has one.
pub fn find_source(channels: &Vec<Channel>, column: &Column) -> (r: Option<usize>)
    ensures
        match r {
            Some(c) => c < channels.len() && source_of(channels.deep_view(), column@) == Some(c as int),
            None => source_of(channels.deep_view(), column@) is None,
        },
{
    let ghost views = channels.deep_view();
    let mut seen: usize = 0;
    let mut c: usize = 0;
    while c < channels.len()
        invariant
            c <= channels.len(),
            views == channels.deep_view(),
            seen == namesakes(views, column.name@, c as int),
            seen <= c,
            forall|d: int| 0 <= d < c ==> !fills(views, column@, d),
        decreases channels.len() - c,
    {
        if channels[c].name == column.name {
            if seen == column.rank {
                proof {
                    lemma_source(views, column@, c as int);
                }
                return Some(c);
            }
            seen += 1;
        }
        c += 1;
    }
    None
}

/// Lists the columns of a run.
pub fn list_columns(laps: &Vec<LapData>) -> (columns: Vec<Column>)
    ensures
        columns.deep_view() == columns_of(laps.deep_view(), laps.len() as int),
{
    let ghost run = laps.deep_view();
    let mut columns: Vec<Column> = Vec::new();
    let mut l: usize = 0;
    assert(columns.deep_view() =~= columns_of(run, 0));
    while l < laps.len()
        invariant
            l <= laps.len(),
            run == laps.deep_view(),
            columns.deep_view() == columns_of(run, l as int),
        decreases laps.len() - l,
    {
        let channels: &Vec<Channel> = &laps[l].channels;
        let ghost views = channels.deep_view();
        assert(views == run[l as int].channels);
        let mut c: usize = 0;
        while c < channels.len()
            invariant
                c <= channels.len(),
                views == channels.deep_view(),
                columns.deep_view() == with_channels(columns_of(run, l as int), views, c as int),
            decreases channels.len() - c,
        {
            let rank: usize = rank_of(channels, c);
            let ghost before = columns.deep_view();
            match find_column(&columns, &channels[c].name, rank) {
                Some(j) => {
                    assert(before[j as int] == key_of(views, c as int));
                },
                None => {
                    columns.push(Column { name: channels[c].name.clone(), rank });
                    assert(columns.deep_view() =~= before.push(key_of(views, c as int)));
                },
            }
            c += 1;
        }
        l += 1;
    }
    columns
}

} // verus!
