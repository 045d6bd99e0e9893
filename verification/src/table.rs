//! Laying out the aligned rows of a lap as a table of text cells.
//!
//! Every record starts with the lap's number, counted from one. Where the rows are
//! keyed by instants, the instant follows: the stamp of the sample that the row is
//! taken from. Then each column gives one cell, the value, or two, the value and its
//! unit. A cell without a sample is empty.

use vstd::prelude::*;
use vstd::string::StringExecFns;
use crate::align::{
    aligned,
    aligned_to_master,
    key_value,
    lemma_union_round_trip,
    AlignedRow,
    RowView,
    StrategyView,
};
use crate::nearest::is_first_at;
use crate::channel::{Channel, ChannelView, LapData, LapView};
use crate::columns::{fills, find_source, key_of, source_of, Column, ColumnKey};
use crate::text::{decimal, decimal_text};

verus! {

/// Which cells a record has besides one value per column.
#[derive(Clone, Copy, Debug, PartialEq, Eq, Structural)]
pub struct Layout {
    /// Whether the second cell of a record is the row's instant.
    pub time_column: bool,
    /// Whether each value is followed by its unit.
    pub unit_columns: bool,
}

/// A header and the records below it.
#[derive(Debug)]
pub struct Table {
    pub header: Vec<String>,
    pub rows: Vec<Vec<String>>,
}

/// The model of a table.
#[verifier::ext_equal]
pub struct TableView {
    pub header: Seq<Seq<char>>,
    pub rows: Seq<Seq<Seq<char>>>,
}

impl Layout {
    /// The number of cells before the first column.
    pub open spec fn lead(&self) -> int {
        if self.time_column {
            2
        } else {
            1
        }
    }

    /// The number of cells of one column.
    pub open spec fn span(&self) -> int {
        if self.unit_columns {
            2
        } else {
            1
        }
    }

    /// The number of cells of a record over `columns` columns.
    pub open spec fn width(&self, columns: int) -> int {
        self.lead() + columns * self.span()
    }
}

impl View for Table {
    type V = TableView;

    open spec fn view(&self) -> TableView {
        TableView { header: self.header.deep_view(), rows: self.rows.deep_view() }
    }
}

impl TableView {
    /// Every record has as many cells as the header.
    pub open spec fn well_formed(self) -> bool {
        forall|i: int| 0 <= i < self.rows.len() ==> (#[trigger] self.rows[i]).len() == self.header.len()
    }
}

/// The pick of a row for channel `c`; nothing where the row has no such entry.
pub open spec fn pick_at(row: RowView, c: int) -> Option<usize> {
    if 0 <= c < row.picks.len() {
        row.picks[c]
    } else {
        None
    }
}

/// The sample that a row shows in the column `key`: the channel that fills the column
/// and the index that the row picks in it, where the channel has that sample.
pub open spec fn shown(channels: Seq<ChannelView>, key: ColumnKey, row: RowView) -> Option<(int, int)> {
    match source_of(channels, key) {
        Some(c) => match pick_at(row, c) {
            Some(k) => if k < channels[c].count() {
                Some((c, k as int))
            } else {
                None
            },
            None => None,
        },
        None => None,
    }
}

/// A cell of the column `key`: the value of the sample shown, or its unit; empty
/// where no sample is shown.
pub open spec fn data_cell(channels: Seq<ChannelView>, key: ColumnKey, row: RowView, unit: bool) -> Seq<
    char,
> {
    match shown(channels, key, row) {
        Some((c, k)) => if unit {
            channels[c].unit
        } else {
            channels[c].values[k]
        },
        None => Seq::<char>::empty(),
    }
}

/// The cell for a row's instant: the stamp of the sample that the row is taken from;
/// empty where the row is taken from no sample of the lap.
pub open spec fn time_cell(channels: Seq<ChannelView>, row: RowView) -> Seq<char> {
    match row.origin {
        Some((c, k)) => if 0 <= c < channels.len() && 0 <= k < channels[c].count() {
            channels[c].stamps[k]
        } else {
            Seq::<char>::empty()
        },
        None => Seq::<char>::empty(),
    }
}

/// Cell `x` of the header.
pub open spec fn header_cell(columns: Seq<ColumnKey>, layout: Layout, x: int) -> Seq<char> {
    if x == 0 {
        "lap"@
    } else if layout.time_column && x == 1 {
        "time"@
    } else {
        let y = x - layout.lead();
        if layout.unit_columns {
            if y % 2 == 0 {
                columns[y / 2].0
            } else {
                columns[y / 2].0 + "_UNIT"@
            }
        } else {
            columns[y].0
        }
    }
}

/// Cell `x` of the record of `row`.
pub open spec fn record_cell(lap: LapView, columns: Seq<ColumnKey>, layout: Layout, row: RowView, x: int) -> Seq<
    char,
> {
    if x == 0 {
        decimal((lap.lap + 1) as nat)
    } else if layout.time_column && x == 1 {
        time_cell(lap.channels, row)
    } else {
        let y = x - layout.lead();
        if layout.unit_columns {
            data_cell(lap.channels, columns[y / 2], row, y % 2 == 1)
        } else {
            data_cell(lap.channels, columns[y], row, false)
        }
    }
}

/// The header over `columns`.
pub open spec fn header_cells(columns: Seq<ColumnKey>, layout: Layout) -> Seq<Seq<char>> {
    Seq::new(layout.width(columns.len() as int) as nat, |x: int| header_cell(columns, layout, x))
}

/// The record of `row`.
pub open spec fn record_cells(lap: LapView, columns: Seq<ColumnKey>, layout: Layout, row: RowView) -> Seq<
    Seq<char>,
> {
    Seq::new(
        layout.width(columns.len() as int) as nat,
        |x: int| record_cell(lap, columns, layout, row, x),
    )
}

/// The records of `rows`, in the rows' order.
pub open spec fn records_of(lap: LapView, columns: Seq<ColumnKey>, layout: Layout, rows: Seq<RowView>) -> Seq<
    Seq<Seq<char>>,
> {
    Seq::new(rows.len(), |i: int| record_cells(lap, columns, layout, rows[i]))
}

/// The table of a lap: the header over `columns`, and below it the records of `rows`.
pub open spec fn table_of(lap: LapView, columns: Seq<ColumnKey>, layout: Layout, rows: Seq<RowView>) -> TableView {
    TableView { header: header_cells(columns, layout), rows: records_of(lap, columns, layout, rows) }
}

/// `found` names, for each column, the channel of the lap that fills it.
pub open spec fn resolves(channels: Seq<ChannelView>, columns: Seq<ColumnKey>, found: Seq<Option<usize>>) -> bool {
    &&& found.len() == columns.len()
    &&& forall|j: int|
        0 <= j < columns.len() ==> match #[trigger] found[j] {
            Some(c) => source_of(channels, columns[j]) == Some(c as int) && c < channels.len(),
            None => source_of(channels, columns[j]) is None,
        }
}

/// Where a lap has no channel for a column, the column's cells are empty in every
/// record of the lap: the value's and the unit's.
pub proof fn lemma_blank_without_source(channels: Seq<ChannelView>, key: ColumnKey, row: RowView, unit: bool)
    requires
        source_of(channels, key) is None,
    ensures
        data_cell(channels, key, row, unit) == Seq::<char>::empty(),
{
}

/// A cell that shows a sample holds that sample's value as the channel gave it, and
/// beside it the channel's unit.
pub proof fn lemma_cell_shows_sample(channels: Seq<ChannelView>, key: ColumnKey, row: RowView, c: int, k: int)
    requires
        shown(channels, key, row) == Some((c, k)),
    ensures
        0 <= c < channels.len(),
        key_of(channels, c) == key,
        row.picks[c] == Some(k as usize),
        0 <= k < channels[c].count(),
        data_cell(channels, key, row, false) == channels[c].values[k],
        data_cell(channels, key, row, true) == channels[c].unit,
{
    assert(fills(channels, key, c));
}

/// A value in a table of the union strategy is its channel's value at the row's
/// instant: the cell shows the first sample that the channel took at exactly that
/// instant, so looking the instant up in the channel again leads to the same value.
pub proof fn lemma_union_cell_round_trip(
    channels: Seq<ChannelView>,
    rows: Seq<RowView>,
    key: ColumnKey,
    i: int,
    c: int,
    k: int,
)
    requires
        aligned(channels, StrategyView::UnionExact, rows),
        0 <= i < rows.len(),
        shown(channels, key, rows[i]) == Some((c, k)),
    ensures
        rows[i].key is Instant,
        is_first_at(channels[c].times, channels[c].count(), key_value(rows[i].key), k),
        data_cell(channels, key, rows[i], false) == channels[c].values[k],
{
    lemma_cell_shows_sample(channels, key, rows[i], c, k);
    lemma_union_round_trip(channels, rows, i, c);
}

/// Every record of a table is as wide as its header: one cell for the lap, one for
/// the instant where the layout has it, and one or two for each column.
pub proof fn lemma_table_is_rectangular(lap: LapView, columns: Seq<ColumnKey>, layout: Layout, rows: Seq<RowView>)
    ensures
        table_of(lap, columns, layout, rows).well_formed(),
        table_of(lap, columns, layout, rows).header.len() == layout.width(columns.len() as int),
        table_of(lap, columns, layout, rows).rows.len() == rows.len(),
{
    assert(layout.width(columns.len() as int) >= 0) by (nonlinear_arith)
        requires
            layout.lead() >= 1,
            layout.span() >= 1,
            columns.len() >= 0,
            layout.width(columns.len() as int) == layout.lead() + columns.len() * layout.span(),
    ;
}

/// The header over `columns`.
pub fn header(columns: &Vec<Column>, layout: Layout) -> (cells: Vec<String>)
    ensures
        cells.deep_view() == header_cells(columns.deep_view(), layout),
{
    let ghost keys = columns.deep_view();
    let mut cells: Vec<String> = Vec::new();
    cells.push(String::from_str("lap"));
    if layout.time_column {
        cells.push(String::from_str("time"));
    }
    let mut j: usize = 0;
    while j < columns.len()
        invariant
            j <= columns.len(),
            keys == columns.deep_view(),
            cells.len() == layout.lead() + j * layout.span(),
            forall|x: int| 0 <= x < cells.len() ==> (#[trigger] cells[x])@ == header_cell(keys, layout, x),
        decreases columns.len() - j,
    {
        assert(keys[j as int].0 == columns[j as int].name@);
        cells.push(columns[j].name.clone());
        if layout.unit_columns {
            cells.push(columns[j].name.clone().concat("_UNIT"));
        }
        j += 1;
    }
    assert(cells.deep_view() =~= header_cells(keys, layout));
    cells
}

/// For each column, the channel of the lap that fills it.
pub fn sources(channels: &Vec<Channel>, columns: &Vec<Column>) -> (found: Vec<Option<usize>>)
    ensures
        resolves(channels.deep_view(), columns.deep_view(), found@),
{
    let ghost keys = columns.deep_view();
    let mut found: Vec<Option<usize>> = Vec::new();
    let mut j: usize = 0;
    while j < columns.len()
        invariant
            j <= columns.len(),
            keys == columns.deep_view(),
            found.len() == j,
            forall|x: int|
                0 <= x < j ==> match #[trigger] found[x] {
                    Some(c) => source_of(channels.deep_view(), keys[x]) == Some(c as int) && c
                        < channels.len(),
                    None => source_of(channels.deep_view(), keys[x]) is None,
                },
        decreases columns.len() - j,
    {
        assert(keys[j as int] == columns[j as int]@);
        found.push(find_source(channels, &columns[j]));
        j += 1;
    }
    found
}

/// One cell of a column whose channel in the lap is `source`.
fn cell(channels: &Vec<Channel>, key: Ghost<ColumnKey>, source: Option<usize>, row: &AlignedRow, unit: bool) -> (text:
    String)
    requires
        match source {
            Some(c) => source_of(channels.deep_view(), key@) == Some(c as int) && c < channels.len(),
            None => source_of(channels.deep_view(), key@) is None,
        },
    ensures
        text@ == data_cell(channels.deep_view(), key@, row@, unit),
{
    match source {
        Some(c) => {
            assert(channels.deep_view()[c as int] == channels[c as int]@);
            if c < row.picks.len() {
                match row.picks[c] {
                    Some(k) => {
                        if k < channels[c].sample_count() {
                            if unit {
                                channels[c].unit.clone()
                            } else {
                                assert(channels[c as int]@.values[k as int] == channels[c as int].values[k as int]@);
                                channels[c].values[k].clone()
                            }
                        } else {
                            String::new()
                        }
                    },
                    None => String::new(),
                }
            } else {
                String::new()
            }
        },
        None => String::new(),
    }
}

/// The stamp of the sample that a row is taken from.
fn stamp(channels: &Vec<Channel>, row: &AlignedRow) -> (text: String)
    ensures
        text@ == time_cell(channels.deep_view(), row@),
{
    match row.origin {
        Some((c, k)) => {
            if c < channels.len() {
                assert(channels.deep_view()[c as int] == channels[c as int]@);
                if k < channels[c].sample_count() {
                    assert(channels[c as int]@.stamps[k as int] == channels[c as int].stamps[k as int]@);
                    channels[c].stamps[k].clone()
                } else {
                    String::new()
                }
            } else {
                String::new()
            }
        },
        None => String::new(),
    }
}

/// In a lap aligned to a master, the time cell of row `i` is the stamp of the
/// master's sample `i`.
pub proof fn lemma_master_time_cell(channels: Seq<ChannelView>, m: int, rows: Seq<RowView>, i: int)
    requires
        0 <= m < channels.len(),
        aligned_to_master(channels, m, rows),
        0 <= i < rows.len(),
    ensures
        time_cell(channels, rows[i]) == channels[m].stamps[i],
{
}

/// The record of one row.
fn record(lap: &LapData, columns: &Vec<Column>, found: &Vec<Option<usize>>, layout: Layout, row: &AlignedRow) -> (cells:
    Vec<String>)
    requires
        resolves(lap@.channels, columns.deep_view(), found@),
    ensures
        cells.deep_view() == record_cells(lap@, columns.deep_view(), layout, row@),
{
    let ghost keys = columns.deep_view();
    let mut cells: Vec<String> = Vec::new();
    cells.push(decimal_text(lap.lap as u128 + 1));
    if layout.time_column {
        cells.push(stamp(&lap.channels, row));
    }
    let mut j: usize = 0;
    while j < columns.len()
        invariant
            j <= columns.len(),
            keys == columns.deep_view(),
            resolves(lap@.channels, keys, found@),
            cells.len() == layout.lead() + j * layout.span(),
            forall|x: int|
                0 <= x < cells.len() ==> (#[trigger] cells[x])@ == record_cell(lap@, keys, layout, row@, x),
        decreases columns.len() - j,
    {
        let ghost key = keys[j as int];
        cells.push(cell(&lap.channels, Ghost(key), found[j], row, false));
        if layout.unit_columns {
            cells.push(cell(&lap.channels, Ghost(key), found[j], row, true));
        }
        j += 1;
    }
    assert(cells.deep_view() =~= record_cells(lap@, keys, layout, row@));
    cells
}

/// The records of the aligned rows of a lap, in the rows' order.
///
/// Works on any rows: a pick that names no sample of its channel leaves the cell
/// empty, as a missing pick does.
pub fn records(lap: &LapData, columns: &Vec<Column>, layout: Layout, rows: &Vec<AlignedRow>) -> (records:
    Vec<Vec<String>>)
    ensures
        records.deep_view() == records_of(lap@, columns.deep_view(), layout, rows.deep_view()),
{
    let found: Vec<Option<usize>> = sources(&lap.channels, columns);
    let mut records: Vec<Vec<String>> = Vec::new();
    let mut i: usize = 0;
    while i < rows.len()
        invariant
            i <= rows.len(),
            resolves(lap@.channels, columns.deep_view(), found@),
            records.len() == i,
            forall|r: int|
                0 <= r < i ==> (#[trigger] records[r]).deep_view() == record_cells(
                    lap@,
                    columns.deep_view(),
                    layout,
                    rows[r]@,
                ),
        decreases rows.len() - i,
    {
        records.push(record(lap, columns, &found, layout, &rows[i]));
        i += 1;
    }
    assert(records.deep_view() =~= records_of(lap@, columns.deep_view(), layout, rows.deep_view()));
    records
}

/// Lays out the aligned rows of a lap under the header over `columns`.
pub fn build_table(lap: &LapData, columns: &Vec<Column>, layout: Layout, rows: &Vec<AlignedRow>) -> (table:
    Table)
    ensures
        table@ == table_of(lap@, columns.deep_view(), layout, rows.deep_view()),
        table@.well_formed(),
{
    proof {
        lemma_table_is_rectangular(lap@, columns.deep_view(), layout, rows.deep_view());
    }
    Table { header: header(columns, layout), rows: records(lap, columns, layout, rows) }
}

} // verus!
