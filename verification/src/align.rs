//! Bringing the channels of one lap onto a shared row axis.
//!
//! An aligned row does not copy values: for each channel it names the sample that
//! fills the channel's cell, or nothing where the cell stays blank.

use vstd::prelude::*;
use crate::axis::{axis_of, lemma_axis_unique, merge_axes, strictly_ascending};
use crate::channel::{Channel, ChannelView};
use crate::nearest::{
    ascending,
    first_at,
    is_ascending,
    is_first_at,
    is_nearest,
    lemma_nearest_unique,
    nearest,
    occurs,
};

verus! {

/// How the row axis of a lap is chosen.
pub enum Strategy {
    /// The rows are the samples of the first channel called `master`. Every other
    /// channel gives each row its sample nearest in time; of two equally near, the
    /// earlier in the channel.
    MasterNearest { master: String },
    /// The rows are the distinct instants at which any channel has a sample, in
    /// ascending order. A channel fills a row only with a sample taken at exactly
    /// that microsecond: the first such.
    UnionExact,
    /// Row `k` holds the `k`-th sample of every channel that has one. Instants play
    /// no part. Kept for tables that older tools expect; prefer the other two.
    Positional,
}

/// The model of a strategy.
#[verifier::ext_equal]
pub enum StrategyView {
    MasterNearest { master: Seq<char> },
    UnionExact,
    Positional,
}

/// What a row stands for: an instant in microseconds, or a position.
#[derive(Clone, Copy, Debug, PartialEq, Eq, Structural)]
pub enum RowKey {
    Instant(i64),
    Position(usize),
}

/// One row of a lap: its key, the sample that the key's instant is taken from, as
/// channel and index, and for each channel of the lap the index of the sample that
/// fills the channel's cell.
#[derive(Debug)]
pub struct AlignedRow {
    pub key: RowKey,
    pub origin: Option<(usize, usize)>,
    pub picks: Vec<Option<usize>>,
}

/// The model of an aligned row.
#[verifier::ext_equal]
pub struct RowView {
    pub key: RowKey,
    pub origin: Option<(int, int)>,
    pub picks: Seq<Option<usize>>,
}

/// Why a lap could not be aligned.
#[derive(Clone, Copy, Debug, PartialEq, Eq, Structural)]
pub enum AlignError {
    /// No channel of the lap carries the master's name.
    MasterChannelMissing,
}

impl View for Strategy {
    type V = StrategyView;

    open spec fn view(&self) -> StrategyView {
        match self {
            Strategy::MasterNearest { master } => StrategyView::MasterNearest { master: master@ },
            Strategy::UnionExact => StrategyView::UnionExact,
            Strategy::Positional => StrategyView::Positional,
        }
    }
}

impl View for AlignedRow {
    type V = RowView;

    open spec fn view(&self) -> RowView {
        RowView { key: self.key, origin: origin_view(self.origin), picks: self.picks@ }
    }
}

impl DeepView for AlignedRow {
    type V = RowView;

    open spec fn deep_view(&self) -> RowView {
        self@
    }
}

/// A sample as channel and index, in the model.
pub open spec fn origin_view(origin: Option<(usize, usize)>) -> Option<(int, int)> {
    match origin {
        Some((c, k)) => Some((c as int, k as int)),
        None => None,
    }
}

/// The number that a key carries.
pub open spec fn key_value(key: RowKey) -> int {
    match key {
        RowKey::Instant(t) => t as int,
        RowKey::Position(p) => p as int,
    }
}

/// `m` is the first channel called `name`.
pub open spec fn is_master(channels: Seq<ChannelView>, name: Seq<char>, m: int) -> bool {
    &&& 0 <= m < channels.len()
    &&& channels[m].name == name
    &&& forall|c: int| 0 <= c < m ==> (#[trigger] channels[c]).name != name
}

/// No channel is called `name`.
pub open spec fn lacks_master(channels: Seq<ChannelView>, name: Seq<char>) -> bool {
    forall|c: int| 0 <= c < channels.len() ==> (#[trigger] channels[c]).name != name
}

/// `pick` is what `channel` gives a row at instant `t` by nearness: its nearest
/// sample, or nothing where it has no sample at all.
pub open spec fn picks_nearest(channel: ChannelView, t: int, pick: Option<usize>) -> bool {
    match pick {
        Some(k) => is_nearest(channel.times, channel.count(), t, k as int),
        None => channel.count() == 0,
    }
}

/// `pick` is what `channel` gives a row at instant `t` by exact match: its first
/// sample taken at `t`, or nothing where it has none.
pub open spec fn picks_exact(channel: ChannelView, t: int, pick: Option<usize>) -> bool {
    match pick {
        Some(k) => is_first_at(channel.times, channel.count(), t, k as int),
        None => !occurs(channel.times, channel.count(), t),
    }
}

/// `pick` is what `channel` gives row `i` by position.
pub open spec fn picks_position(channel: ChannelView, i: int, pick: Option<usize>) -> bool {
    match pick {
        Some(k) => k == i && i < channel.count(),
        None => i >= channel.count(),
    }
}

/// One of the first `n` channels has a sample taken exactly at `t`.
pub open spec fn sampled_among(channels: Seq<ChannelView>, n: int, t: int) -> bool {
    exists|c: int| 0 <= c < n && occurs((#[trigger] channels[c]).times, channels[c].count(), t)
}

/// Some channel has a sample taken exactly at `t`.
pub open spec fn sampled(channels: Seq<ChannelView>, t: int) -> bool {
    sampled_among(channels, channels.len() as int, t)
}

/// Some row is keyed by the instant `t`.
pub open spec fn keyed(rows: Seq<RowView>, t: i64) -> bool {
    exists|i: int| 0 <= i < rows.len() && (#[trigger] rows[i]).key == RowKey::Instant(t)
}

/// `origin` is the first of `picks` that names a sample, with its channel; nothing
/// where no pick names one.
pub open spec fn leads(picks: Seq<Option<usize>>, origin: Option<(int, int)>) -> bool {
    match origin {
        Some((c, k)) => {
            &&& 0 <= c < picks.len()
            &&& picks[c] matches Some(j)
            &&& j == k
            &&& forall|d: int| 0 <= d < c ==> (#[trigger] picks[d]) is None
        },
        None => forall|d: int| 0 <= d < picks.len() ==> (#[trigger] picks[d]) is None,
    }
}

/// `rows` is the lap aligned to channel `m`: one row per sample of `m`, in order,
/// keyed by the sample's instant and taken from that sample; `m` fills row `i` with
/// its own sample `i`, every other channel with its nearest.
pub open spec fn aligned_to_master(channels: Seq<ChannelView>, m: int, rows: Seq<RowView>) -> bool {
    &&& rows.len() == channels[m].count()
    &&& forall|i: int|
        0 <= i < rows.len() ==> {
            &&& (#[trigger] rows[i]).key == RowKey::Instant(channels[m].times[i])
            &&& rows[i].origin == Some((m, i))
            &&& rows[i].picks.len() == channels.len()
        }
    &&& forall|i: int, c: int|
        0 <= i < rows.len() && 0 <= c < channels.len() ==> if c == m {
            #[trigger] rows[i].picks[c] == Some(i as usize)
        } else {
            picks_nearest(channels[c], channels[m].times[i] as int, #[trigger] rows[i].picks[c])
        }
}

/// `rows` is the lap aligned on the union of its instants: one row for each instant
/// at which some channel has a sample, in ascending order; a channel fills the row
/// only with a sample of exactly that instant, and the row is taken from the sample
/// of the first channel that fills it.
pub open spec fn aligned_on_union(channels: Seq<ChannelView>, rows: Seq<RowView>) -> bool {
    &&& forall|i: int|
        0 <= i < rows.len() ==> {
            &&& (#[trigger] rows[i]).key is Instant
            &&& rows[i].picks.len() == channels.len()
            &&& leads(rows[i].picks, rows[i].origin)
        }
    &&& forall|i: int, j: int|
        0 <= i < j < rows.len() ==> key_value(#[trigger] rows[i].key) < key_value(
            #[trigger] rows[j].key,
        )
    &&& forall|t: i64| keyed(rows, t) <==> sampled(channels, t as int)
    &&& forall|i: int, c: int|
        0 <= i < rows.len() && 0 <= c < channels.len() ==> picks_exact(
            channels[c],
            key_value(rows[i].key),
            #[trigger] rows[i].picks[c],
        )
}

/// `rows` is the lap aligned by position: as many rows as the longest channel has
/// samples, row `i` keyed by `i` and taken from no sample.
pub open spec fn aligned_by_position(channels: Seq<ChannelView>, rows: Seq<RowView>) -> bool {
    &&& forall|c: int| 0 <= c < channels.len() ==> (#[trigger] channels[c]).count() <= rows.len()
    &&& rows.len() == 0 || exists|c: int|
        0 <= c < channels.len() && (#[trigger] channels[c]).count() == rows.len()
    &&& forall|i: int|
        0 <= i < rows.len() ==> {
            &&& (#[trigger] rows[i]).key == RowKey::Position(i as usize)
            &&& rows[i].origin is None
            &&& rows[i].picks.len() == channels.len()
        }
    &&& forall|i: int, c: int|
        0 <= i < rows.len() && 0 <= c < channels.len() ==> picks_position(
            channels[c],
            i,
            #[trigger] rows[i].picks[c],
        )
}

/// The lap can be aligned: a strategy that needs a master finds it among the channels.
pub open spec fn alignable(channels: Seq<ChannelView>, strategy: StrategyView) -> bool {
    match strategy {
        StrategyView::MasterNearest { master } => !lacks_master(channels, master),
        _ => true,
    }
}

/// `rows` is the lap aligned as `strategy` says.
pub open spec fn aligned(channels: Seq<ChannelView>, strategy: StrategyView, rows: Seq<RowView>) -> bool {
    match strategy {
        StrategyView::MasterNearest { master } => exists|m: int|
            is_master(channels, master, m) && aligned_to_master(channels, m, rows),
        StrategyView::UnionExact => aligned_on_union(channels, rows),
        StrategyView::Positional => aligned_by_position(channels, rows),
    }
}

/// The rows of the lap aligned as `strategy` says. They are the only ones: see
/// [`lemma_alignment_unique`].
pub open spec fn alignment(channels: Seq<ChannelView>, strategy: StrategyView) -> Seq<RowView> {
    choose|rows: Seq<RowView>| aligned(channels, strategy, rows)
}

/// What a channel gives a row by nearness is settled.
proof fn lemma_picks_nearest_unique(channel: ChannelView, t: int, p: Option<usize>, q: Option<usize>)
    requires
        picks_nearest(channel, t, p),
        picks_nearest(channel, t, q),
    ensures
        p == q,
{
    if p is Some && q is Some {
        lemma_nearest_unique(channel.times, channel.count(), t, p->0 as int, q->0 as int);
    }
}

/// The first pick that names a sample is settled by the picks.
proof fn lemma_leads_unique(picks: Seq<Option<usize>>, a: Option<(int, int)>, b: Option<(int, int)>)
    requires
        leads(picks, a),
        leads(picks, b),
    ensures
        a == b,
{
    if a is Some && b is Some {
        let (c, k) = a->0;
        let (d, j) = b->0;
        if c < d {
            assert(picks[c] is None);
        } else if d < c {
            assert(picks[d] is None);
        }
    } else if a is Some {
        let (c, k) = a->0;
        assert(picks[c] is None);
    } else if b is Some {
        let (d, j) = b->0;
        assert(picks[d] is None);
    }
}

/// A lap has one alignment only: whatever rows meet [`aligned`] are the same rows.
pub proof fn lemma_alignment_unique(
    channels: Seq<ChannelView>,
    strategy: StrategyView,
    a: Seq<RowView>,
    b: Seq<RowView>,
)
    requires
        aligned(channels, strategy, a),
        aligned(channels, strategy, b),
    ensures
        a == b,
{
    match strategy {
        StrategyView::MasterNearest { master } => {
            let m = choose|m: int| is_master(channels, master, m) && aligned_to_master(channels, m, a);
            let n = choose|n: int| is_master(channels, master, n) && aligned_to_master(channels, n, b);
            assert(m == n);
            assert forall|i: int| 0 <= i < a.len() implies a[i] == b[i] by {
                assert forall|c: int| 0 <= c < channels.len() implies a[i].picks[c] == b[i].picks[c] by {
                    if c != m {
                        lemma_picks_nearest_unique(
                            channels[c],
                            channels[m].times[i] as int,
                            a[i].picks[c],
                            b[i].picks[c],
                        );
                    }
                }
                assert(a[i].picks =~= b[i].picks);
            }
        },
        StrategyView::UnionExact => {
            let ka = Seq::new(a.len(), |i: int| key_value(a[i].key) as i64);
            let kb = Seq::new(b.len(), |i: int| key_value(b[i].key) as i64);
            assert forall|t: int| occurs(ka, ka.len() as int, t) <==> occurs(kb, kb.len() as int, t) by {
                if occurs(ka, ka.len() as int, t) {
                    let i = choose|i: int| 0 <= i < ka.len() && ka[i] == t;
                    assert(a[i].key == RowKey::Instant(t as i64));
                    assert(keyed(a, t as i64));
                    assert(keyed(b, t as i64));
                    let j = choose|j: int| 0 <= j < b.len() && (#[trigger] b[j]).key == RowKey::Instant(t as i64);
                    assert(kb[j] == t);
                }
                if occurs(kb, kb.len() as int, t) {
                    let i = choose|i: int| 0 <= i < kb.len() && kb[i] == t;
                    assert(b[i].key == RowKey::Instant(t as i64));
                    assert(keyed(b, t as i64));
                    assert(keyed(a, t as i64));
                    let j = choose|j: int| 0 <= j < a.len() && (#[trigger] a[j]).key == RowKey::Instant(t as i64);
                    assert(ka[j] == t);
                }
            }
            assert(strictly_ascending(ka)) by {
                assert forall|i: int, j: int| 0 <= i < j < ka.len() implies ka[i] < ka[j] by {
                    assert(key_value(a[i].key) < key_value(a[j].key));
                }
            }
            assert(strictly_ascending(kb)) by {
                assert forall|i: int, j: int| 0 <= i < j < kb.len() implies kb[i] < kb[j] by {
                    assert(key_value(b[i].key) < key_value(b[j].key));
                }
            }
            lemma_axis_unique(ka, kb);
            assert forall|i: int| 0 <= i < a.len() implies a[i] == b[i] by {
                assert(ka[i] == kb[i]);
                assert(a[i].key == b[i].key);
                assert forall|c: int| 0 <= c < channels.len() implies a[i].picks[c] == b[i].picks[c] by {
                    let t = key_value(a[i].key);
                    let p = a[i].picks[c];
                    let q = b[i].picks[c];
                    assert(picks_exact(channels[c], t, p));
                    assert(picks_exact(channels[c], t, q));
                    if p is Some && q is Some {
                        if p->0 < q->0 {
                            assert(channels[c].times[p->0 as int] != t);
                        } else if q->0 < p->0 {
                            assert(channels[c].times[q->0 as int] != t);
                        }
                    } else if p is Some {
                        assert(channels[c].times[p->0 as int] == t);
                    } else if q is Some {
                        assert(channels[c].times[q->0 as int] == t);
                    }
                }
                assert(a[i].picks =~= b[i].picks);
                lemma_leads_unique(a[i].picks, a[i].origin, b[i].origin);
            }
        },
        StrategyView::Positional => {
            assert(a.len() == b.len());
            assert forall|i: int| 0 <= i < a.len() implies a[i] == b[i] by {
                assert forall|c: int| 0 <= c < channels.len() implies a[i].picks[c] == b[i].picks[c] by {
                    assert(picks_position(channels[c], i, a[i].picks[c]));
                    assert(picks_position(channels[c], i, b[i].picks[c]));
                }
                assert(a[i].picks =~= b[i].picks);
            }
        },
    }
    assert(a =~= b);
}

/// An aligned row never names a sample that its channel lacks: the index is below the
/// length of the channel's instants, of its stamps and of its values, whichever is
/// shortest. The sample that the row is taken from is one of the lap's too.
pub proof fn lemma_picks_in_range(
    channels: Seq<ChannelView>,
    strategy: StrategyView,
    rows: Seq<RowView>,
    i: int,
    c: int,
)
    requires
        aligned(channels, strategy, rows),
        0 <= i < rows.len(),
        0 <= c < channels.len(),
    ensures
        rows[i].picks.len() == channels.len(),
        rows[i].picks[c] matches Some(k) ==> k < channels[c].times.len() && k < channels[c].stamps.len() && k
            < channels[c].values.len(),
        rows[i].origin matches Some((d, j)) ==> 0 <= d < channels.len() && 0 <= j < channels[d].count(),
{
    if strategy is UnionExact {
        if rows[i].origin is Some {
            let (d, j) = rows[i].origin->0;
            assert(picks_exact(channels[d], key_value(rows[i].key), rows[i].picks[d]));
        }
    }
    match strategy {
        StrategyView::MasterNearest { master } => {
            let m = choose|m: int| is_master(channels, master, m) && aligned_to_master(channels, m, rows);
            if c != m {
                assert(picks_nearest(channels[c], channels[m].times[i] as int, rows[i].picks[c]));
            }
        },
        StrategyView::UnionExact => {
            assert(picks_exact(channels[c], key_value(rows[i].key), rows[i].picks[c]));
        },
        StrategyView::Positional => {
            assert(picks_position(channels[c], i, rows[i].picks[c]));
        },
    }
}

/// On the union axis a cell is filled exactly where its channel has a sample at the
/// row's instant, and then with the first such sample: asking the channel again for
/// that instant gives the sample back.
pub proof fn lemma_union_round_trip(channels: Seq<ChannelView>, rows: Seq<RowView>, i: int, c: int)
    requires
        aligned(channels, StrategyView::UnionExact, rows),
        0 <= i < rows.len(),
        0 <= c < channels.len(),
    ensures
        rows[i].key is Instant,
        match rows[i].picks[c] {
            Some(k) => is_first_at(channels[c].times, channels[c].count(), key_value(rows[i].key), k as int),
            None => !occurs(channels[c].times, channels[c].count(), key_value(rows[i].key)),
        },
{
    assert(picks_exact(channels[c], key_value(rows[i].key), rows[i].picks[c]));
}

/// On the union axis no row is empty: some channel fills it.
pub proof fn lemma_union_rows_are_filled(channels: Seq<ChannelView>, rows: Seq<RowView>, i: int)
    requires
        aligned(channels, StrategyView::UnionExact, rows),
        0 <= i < rows.len(),
    ensures
        exists|c: int| 0 <= c < channels.len() && (#[trigger] rows[i].picks[c]) is Some,
{
    let t = rows[i].key->Instant_0;
    assert(keyed(rows, t));
    assert(sampled(channels, t as int));
    let c = choose|c: int|
        0 <= c < channels.len() && occurs((#[trigger] channels[c]).times, channels[c].count(), t as int);
    assert(picks_exact(channels[c], key_value(rows[i].key), rows[i].picks[c]));
    assert(rows[i].picks[c] is Some);
}

/// A lap without channels has no rows, where the strategy asks for no master.
pub proof fn lemma_no_channels_no_rows(channels: Seq<ChannelView>, strategy: StrategyView, rows: Seq<RowView>)
    requires
        channels.len() == 0,
        !(strategy is MasterNearest),
        aligned(channels, strategy, rows),
    ensures
        rows.len() == 0,
{
    if strategy is UnionExact && rows.len() > 0 {
        lemma_union_rows_are_filled(channels, rows, 0);
    }
}

/// A lap without channels is aligned by no rows at all, where the strategy asks for
/// no master; so the rows that [`alignment`] names for it do align it.
pub proof fn lemma_empty_lap_aligns(channels: Seq<ChannelView>, strategy: StrategyView)
    requires
        channels.len() == 0,
        !(strategy is MasterNearest),
    ensures
        aligned(channels, strategy, alignment(channels, strategy)),
{
    let none = Seq::<RowView>::empty();
    assert(aligned(channels, strategy, none)) by {
        if strategy is UnionExact {
            assert forall|t: i64| keyed(none, t) <==> sampled(channels, t as int) by {}
        }
    }
}

/// The model of a list of rows holds the model of each row.
proof fn lemma_row_views(rows: Vec<AlignedRow>)
    ensures
        forall|r: int|
            0 <= r < rows.len() ==> {
                &&& (#[trigger] rows.deep_view()[r]).key == rows[r].key
                &&& rows.deep_view()[r].origin == origin_view(rows[r].origin)
                &&& rows.deep_view()[r].picks == rows[r].picks@
            },
{
}

/// For each channel, whether its instants are in ascending order.
fn ascending_flags(channels: &Vec<Channel>) -> (flags: Vec<bool>)
    ensures
        flags.len() == channels.len(),
        forall|c: int|
            0 <= c < channels.len() ==> (#[trigger] flags[c] ==> ascending(
                channels[c].times@,
                channels[c]@.count(),
            )),
{
    let mut flags: Vec<bool> = Vec::new();
    let mut c: usize = 0;
    while c < channels.len()
        invariant
            c <= channels.len(),
            flags.len() == c,
            forall|d: int|
                0 <= d < c ==> (#[trigger] flags[d] ==> ascending(
                    channels[d].times@,
                    channels[d]@.count(),
                )),
        decreases channels.len() - c,
    {
        let n: usize = channels[c].sample_count();
        flags.push(is_ascending(&channels[c].times, n));
        c += 1;
    }
    flags
}

/// The first channel called `name`, if there is one.
pub fn find_master(channels: &Vec<Channel>, name: &String) -> (r: Option<usize>)
    ensures
        match r {
            Some(m) => is_master(channels.deep_view(), name@, m as int),
            None => lacks_master(channels.deep_view(), name@),
        },
{
    let mut c: usize = 0;
    while c < channels.len()
        invariant
            c <= channels.len(),
            forall|d: int| 0 <= d < c ==> (#[trigger] channels.deep_view()[d]).name != name@,
        decreases channels.len() - c,
    {
        if channels[c].name == *name {
            return Some(c);
        }
        c += 1;
    }
    None
}

/// What every channel gives a row at instant `t`, where channel `own` gives its
/// sample `i` and the others their nearest.
fn nearest_picks(channels: &Vec<Channel>, flags: &Vec<bool>, own: usize, i: usize, t: i64) -> (picks: Vec<
    Option<usize>,
>)
    requires
        flags.len() == channels.len(),
        forall|c: int|
            0 <= c < channels.len() ==> (#[trigger] flags[c] ==> ascending(
                channels[c].times@,
                channels[c]@.count(),
            )),
    ensures
        picks.len() == channels.len(),
        forall|c: int|
            0 <= c < channels.len() ==> if c == own {
                #[trigger] picks[c] == Some(i)
            } else {
                picks_nearest(channels.deep_view()[c], t as int, #[trigger] picks[c])
            },
{
    let mut picks: Vec<Option<usize>> = Vec::new();
    let mut c: usize = 0;
    while c < channels.len()
        invariant
            c <= channels.len(),
            flags.len() == channels.len(),
            forall|d: int|
                0 <= d < channels.len() ==> (#[trigger] flags[d] ==> ascending(
                    channels[d].times@,
                    channels[d]@.count(),
                )),
            picks.len() == c,
            forall|d: int|
                0 <= d < c ==> if d == own {
                    #[trigger] picks[d] == Some(i)
                } else {
                    picks_nearest(channels.deep_view()[d], t as int, #[trigger] picks[d])
                },
        decreases channels.len() - c,
    {
        let pick: Option<usize> = if c == own {
            Some(i)
        } else {
            let k: usize = channels[c].sample_count();
            nearest(&channels[c].times, k, flags[c], t)
        };
        picks.push(pick);
        c += 1;
    }
    picks
}

/// What every channel gives a row at instant `t` by exact match.
fn exact_picks(channels: &Vec<Channel>, flags: &Vec<bool>, t: i64) -> (picks: Vec<Option<usize>>)
    requires
        flags.len() == channels.len(),
        forall|c: int|
            0 <= c < channels.len() ==> (#[trigger] flags[c] ==> ascending(
                channels[c].times@,
                channels[c]@.count(),
            )),
    ensures
        picks.len() == channels.len(),
        forall|c: int|
            0 <= c < channels.len() ==> picks_exact(channels.deep_view()[c], t as int, #[trigger] picks[c]),
{
    let mut picks: Vec<Option<usize>> = Vec::new();
    let mut c: usize = 0;
    while c < channels.len()
        invariant
            c <= channels.len(),
            flags.len() == channels.len(),
            forall|d: int|
                0 <= d < channels.len() ==> (#[trigger] flags[d] ==> ascending(
                    channels[d].times@,
                    channels[d]@.count(),
                )),
            picks.len() == c,
            forall|d: int|
                0 <= d < c ==> picks_exact(channels.deep_view()[d], t as int, #[trigger] picks[d]),
        decreases channels.len() - c,
    {
        let k: usize = channels[c].sample_count();
        picks.push(first_at(&channels[c].times, k, flags[c], t));
        c += 1;
    }
    picks
}

/// The first pick that names a sample, with its channel.
fn first_pick(picks: &Vec<Option<usize>>) -> (origin: Option<(usize, usize)>)
    ensures
        leads(picks@, origin_view(origin)),
{
    let mut c: usize = 0;
    while c < picks.len()
        invariant
            c <= picks.len(),
            forall|d: int| 0 <= d < c ==> (#[trigger] picks[d]) is None,
        decreases picks.len() - c,
    {
        match picks[c] {
            Some(k) => {
                return Some((c, k));
            },
            None => {},
        }
        c += 1;
    }
    None
}

/// What every channel gives row `i` by position.
fn position_picks(channels: &Vec<Channel>, i: usize) -> (picks: Vec<Option<usize>>)
    ensures
        picks.len() == channels.len(),
        forall|c: int|
            0 <= c < channels.len() ==> picks_position(
                channels.deep_view()[c],
                i as int,
                #[trigger] picks[c],
            ),
{
    let mut picks: Vec<Option<usize>> = Vec::new();
    let mut c: usize = 0;
    while c < channels.len()
        invariant
            c <= channels.len(),
            picks.len() == c,
            forall|d: int|
                0 <= d < c ==> picks_position(channels.deep_view()[d], i as int, #[trigger] picks[d]),
        decreases channels.len() - c,
    {
        let k: usize = channels[c].sample_count();
        picks.push(if i < k { Some(i) } else { None });
        c += 1;
    }
    picks
}

/// Aligns a lap to its channel `m`.
pub(crate) fn align_to_master(channels: &Vec<Channel>, m: usize) -> (rows: Vec<AlignedRow>)
    requires
        m < channels.len(),
    ensures
        aligned_to_master(channels.deep_view(), m as int, rows.deep_view()),
{
    let flags: Vec<bool> = ascending_flags(channels);
    let n: usize = channels[m].sample_count();
    let mut rows: Vec<AlignedRow> = Vec::new();
    let mut i: usize = 0;
    while i < n
        invariant
            m < channels.len(),
            n == channels[m as int]@.count(),
            i <= n,
            flags.len() == channels.len(),
            forall|c: int|
                0 <= c < channels.len() ==> (#[trigger] flags[c] ==> ascending(
                    channels[c].times@,
                    channels[c]@.count(),
                )),
            rows.len() == i,
            forall|r: int|
                0 <= r < i ==> {
                    &&& (#[trigger] rows[r]).key == RowKey::Instant(channels[m as int].times[r])
                    &&& rows[r].origin == Some((m, r as usize))
                    &&& rows[r].picks.len() == channels.len()
                },
            forall|r: int, c: int|
                0 <= r < i && 0 <= c < channels.len() ==> if c == m {
                    #[trigger] rows[r].picks[c] == Some(r as usize)
                } else {
                    picks_nearest(
                        channels.deep_view()[c],
                        channels[m as int].times[r] as int,
                        #[trigger] rows[r].picks[c],
                    )
                },
        decreases n - i,
    {
        let t: i64 = channels[m].times[i];
        let picks: Vec<Option<usize>> = nearest_picks(channels, &flags, m, i, t);
        rows.push(AlignedRow { key: RowKey::Instant(t), origin: Some((m, i)), picks });
        i += 1;
    }
    proof {
        lemma_row_views(rows);
    }
    rows
}

/// The axis of a lap: the distinct instants of all its channels, ascending.
pub fn union_axis(channels: &Vec<Channel>) -> (axis: Vec<i64>)
    ensures
        strictly_ascending(axis@),
        forall|t: int| occurs(axis@, axis.len() as int, t) <==> sampled(channels.deep_view(), t),
{
    let mut axis: Vec<i64> = Vec::new();
    let mut c: usize = 0;
    while c < channels.len()
        invariant
            c <= channels.len(),
            strictly_ascending(axis@),
            forall|t: int|
                occurs(axis@, axis.len() as int, t) <==> sampled_among(channels.deep_view(), c as int, t),
        decreases channels.len() - c,
    {
        let k: usize = channels[c].sample_count();
        let grid: Vec<i64> = axis_of(&channels[c].times, 0, k);
        axis = merge_axes(&axis, &grid);
        proof {
            let views = channels.deep_view();
            assert forall|t: int| occurs(axis@, axis.len() as int, t) <==> sampled_among(
                views,
                c + 1,
                t,
            ) by {
                if sampled_among(views, c + 1, t) {
                    let d = choose|d: int|
                        0 <= d < c + 1 && occurs((#[trigger] views[d]).times, views[d].count(), t);
                    if d < c {
                        assert(sampled_among(views, c as int, t));
                    }
                }
                if sampled_among(views, c as int, t) {
                    let d = choose|d: int|
                        0 <= d < c && occurs((#[trigger] views[d]).times, views[d].count(), t);
                    assert(0 <= d < c + 1);
                }
                if occurs(grid@, grid.len() as int, t) {
                    assert(occurs(views[c as int].times, views[c as int].count(), t));
                }
            }
        }
        c += 1;
    }
    axis
}

/// Aligns a lap on the union of its instants.
pub fn align_on_union(channels: &Vec<Channel>) -> (rows: Vec<AlignedRow>)
    ensures
        aligned_on_union(channels.deep_view(), rows.deep_view()),
{
    let flags: Vec<bool> = ascending_flags(channels);
    let axis: Vec<i64> = union_axis(channels);
    let mut rows: Vec<AlignedRow> = Vec::new();
    let mut i: usize = 0;
    while i < axis.len()
        invariant
            i <= axis.len(),
            flags.len() == channels.len(),
            forall|c: int|
                0 <= c < channels.len() ==> (#[trigger] flags[c] ==> ascending(
                    channels[c].times@,
                    channels[c]@.count(),
                )),
            rows.len() == i,
            forall|r: int|
                0 <= r < i ==> {
                    &&& (#[trigger] rows[r]).key == RowKey::Instant(axis[r])
                    &&& rows[r].picks.len() == channels.len()
                    &&& leads(rows[r].picks@, origin_view(rows[r].origin))
                },
            forall|r: int, c: int|
                0 <= r < i && 0 <= c < channels.len() ==> picks_exact(
                    channels.deep_view()[c],
                    axis[r] as int,
                    #[trigger] rows[r].picks[c],
                ),
        decreases axis.len() - i,
    {
        let t: i64 = axis[i];
        let picks: Vec<Option<usize>> = exact_picks(channels, &flags, t);
        let origin: Option<(usize, usize)> = first_pick(&picks);
        rows.push(AlignedRow { key: RowKey::Instant(t), origin, picks });
        i += 1;
    }
    proof {
        lemma_row_views(rows);
        let views = rows.deep_view();
        assert forall|t: i64| keyed(views, t) <==> sampled(channels.deep_view(), t as int) by {
            if keyed(views, t) {
                let r = choose|r: int| 0 <= r < views.len() && (#[trigger] views[r]).key == RowKey::Instant(t);
                assert(axis[r] == t);
                assert(occurs(axis@, axis.len() as int, t as int));
            }
            if sampled(channels.deep_view(), t as int) {
                assert(occurs(axis@, axis.len() as int, t as int));
                let r = choose|r: int| 0 <= r < axis.len() && axis[r] == t;
                assert(views[r].key == RowKey::Instant(t));
            }
        }
    }
    rows
}

/// The number of samples of the longest channel.
fn longest(channels: &Vec<Channel>) -> (n: usize)
    ensures
        forall|c: int| 0 <= c < channels.len() ==> (#[trigger] channels.deep_view()[c]).count() <= n,
        n == 0 || exists|c: int|
            0 <= c < channels.len() && (#[trigger] channels.deep_view()[c]).count() == n,
{
    let mut n: usize = 0;
    let mut c: usize = 0;
    while c < channels.len()
        invariant
            c <= channels.len(),
            forall|d: int| 0 <= d < c ==> (#[trigger] channels.deep_view()[d]).count() <= n,
            n == 0 || exists|d: int| 0 <= d < c && (#[trigger] channels.deep_view()[d]).count() == n,
        decreases channels.len() - c,
    {
        let k: usize = channels[c].sample_count();
        if k > n {
            n = k;
            assert(channels.deep_view()[c as int].count() == n);
        }
        c += 1;
    }
    n
}

/// Aligns a lap by position.
pub fn align_by_position(channels: &Vec<Channel>) -> (rows: Vec<AlignedRow>)
    ensures
        aligned_by_position(channels.deep_view(), rows.deep_view()),
{
    let n: usize = longest(channels);
    let mut rows: Vec<AlignedRow> = Vec::new();
    let mut i: usize = 0;
    while i < n
        invariant
            i <= n,
            rows.len() == i,
            forall|r: int|
                0 <= r < i ==> {
                    &&& (#[trigger] rows[r]).key == RowKey::Position(r as usize)
                    &&& rows[r].origin is None
                    &&& rows[r].picks.len() == channels.len()
                },
            forall|r: int, c: int|
                0 <= r < i && 0 <= c < channels.len() ==> picks_position(
                    channels.deep_view()[c],
                    r,
                    #[trigger] rows[r].picks[c],
                ),
        decreases n - i,
    {
        let picks: Vec<Option<usize>> = position_picks(channels, i);
        rows.push(AlignedRow { key: RowKey::Position(i), origin: None, picks });
        i += 1;
    }
    proof {
        lemma_row_views(rows);
    }
    rows
}

/// Aligns the channels of a lap as `strategy` says.
///
/// Fails only where `strategy` names a master that no channel is called.
pub fn align(channels: &Vec<Channel>, strategy: &Strategy) -> (result: Result<Vec<AlignedRow>, AlignError>)
    ensures
        result is Ok <==> alignable(channels.deep_view(), strategy@),
        result matches Ok(rows) ==> {
            &&& aligned(channels.deep_view(), strategy@, rows.deep_view())
            &&& rows.deep_view() == alignment(channels.deep_view(), strategy@)
        },
        result matches Err(e) ==> e == AlignError::MasterChannelMissing,
{
    let rows: Vec<AlignedRow> = match strategy {
        Strategy::MasterNearest { master } => {
            match find_master(channels, master) {
                Some(m) => align_to_master(channels, m),
                None => {
                    return Err(AlignError::MasterChannelMissing);
                },
            }
        },
        Strategy::UnionExact => align_on_union(channels),
        Strategy::Positional => align_by_position(channels),
    };
    proof {
        let views = channels.deep_view();
        assert(aligned(views, strategy@, rows.deep_view()));
        lemma_alignment_unique(views, strategy@, rows.deep_view(), alignment(views, strategy@));
    }
    Ok(rows)
}

} // verus!
