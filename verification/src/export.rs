//! The export of a run: every lap aligned, laid out and written as delimited text.

use vstd::prelude::*;
use vstd::string::StringExecFns;
use crate::align::{
    align,
    alignable,
    alignment,
    lemma_empty_lap_aligns,
    lemma_no_channels_no_rows,
    Strategy,
    StrategyView,
};
use crate::channel::{ExportData, LapData, LapView};
use crate::columns::{columns_of, list_columns, Column, ColumnKey};
use crate::delimited::{delimited, encode, rectangular};
use crate::error::ExportError;
use crate::table::{header, header_cells, records, records_of, Layout};

verus! {

/// The channel that gives the rows where nothing else is asked for.
pub const DEFAULT_MASTER: &'static str = "ECEF position_X";

/// How a run is exported.
pub struct ExportOptions {
    /// How the rows of each lap are chosen.
    pub strategy: Strategy,
    /// Whether each value is followed by its unit.
    pub unit_columns: bool,
}

/// The model of the options.
#[verifier::ext_equal]
pub struct OptionsView {
    pub strategy: StrategyView,
    pub unit_columns: bool,
}

/// An export that succeeded.
#[derive(Debug)]
pub struct Exported {
    /// The delimited text: the header, then the records of each lap.
    pub text: Vec<u8>,
    /// The number of laps written.
    pub laps_written: usize,
    /// The number of records written below the header.
    pub rows_written: usize,
}

impl View for ExportOptions {
    type V = OptionsView;

    open spec fn view(&self) -> OptionsView {
        OptionsView { strategy: self.strategy@, unit_columns: self.unit_columns }
    }
}

impl OptionsView {
    /// The layout of the records: they carry the row's instant unless the rows are
    /// aligned by position.
    pub open spec fn layout(self) -> Layout {
        Layout { time_column: !(self.strategy is Positional), unit_columns: self.unit_columns }
    }
}

impl ExportOptions {
    /// The layout of the records.
    pub fn layout(&self) -> (layout: Layout)
        ensures
            layout == self@.layout(),
    {
        let time_column: bool = match self.strategy {
            Strategy::Positional => false,
            _ => true,
        };
        Layout { time_column, unit_columns: self.unit_columns }
    }
}

impl Default for ExportOptions {
    /// Rows from the channel called [`DEFAULT_MASTER`], values without units.
    fn default() -> (options: ExportOptions)
        ensures
            options@ == (OptionsView {
                strategy: StrategyView::MasterNearest { master: DEFAULT_MASTER@ },
                unit_columns: false,
            }),
    {
        ExportOptions {
            strategy: Strategy::MasterNearest { master: String::from_str(DEFAULT_MASTER) },
            unit_columns: false,
        }
    }
}

/// Every lap can be aligned.
pub open spec fn exportable(laps: Seq<LapView>, strategy: StrategyView) -> bool {
    forall|l: int| 0 <= l < laps.len() ==> alignable((#[trigger] laps[l]).channels, strategy)
}

/// Lap `l` is the first that cannot be aligned.
pub open spec fn first_blocked(laps: Seq<LapView>, strategy: StrategyView, l: int) -> bool {
    &&& 0 <= l < laps.len()
    &&& !alignable(laps[l].channels, strategy)
    &&& forall|k: int| 0 <= k < l ==> alignable((#[trigger] laps[k]).channels, strategy)
}

/// The records of one lap under `columns`.
pub open spec fn lap_records(lap: LapView, columns: Seq<ColumnKey>, options: OptionsView) -> Seq<
    Seq<Seq<char>>,
> {
    records_of(lap, columns, options.layout(), alignment(lap.channels, options.strategy))
}

/// The records of the first `n` laps, lap after lap.
pub open spec fn run_records(laps: Seq<LapView>, columns: Seq<ColumnKey>, options: OptionsView, n: int) -> Seq<
    Seq<Seq<char>>,
>
    decreases n,
{
    if n <= 0 {
        Seq::<Seq<Seq<char>>>::empty()
    } else {
        run_records(laps, columns, options, n - 1) + lap_records(laps[n - 1], columns, options)
    }
}

/// What an export holds: one header over the columns of the whole run, then the
/// records of every lap, in the order of the laps.
pub open spec fn export_records(laps: Seq<LapView>, options: OptionsView) -> Seq<Seq<Seq<char>>> {
    let columns = columns_of(laps, laps.len() as int);
    seq![header_cells(columns, options.layout())] + run_records(laps, columns, options, laps.len() as int)
}

/// `result` is what the export of a run comes to.
///
/// Where some lap cannot be aligned, the export fails with the number of the first
/// such lap. Otherwise it succeeds, and holds the delimited text of the run's records
/// with the counts of what was written.
pub open spec fn exports(laps: Seq<LapView>, options: OptionsView, result: Result<Exported, ExportError>) -> bool {
    if exportable(laps, options.strategy) {
        &&& result matches Ok(out)
        &&& out.text@ == delimited(export_records(laps, options))
        &&& out.laps_written == laps.len()
        &&& out.rows_written + 1 == export_records(laps, options).len()
    } else {
        exists|l: int|
            first_blocked(laps, options.strategy, l) && result == Err::<Exported, ExportError>(
                ExportError::MasterChannelMissing { lap: laps[l].lap as usize },
            )
    }
}

/// Exporting twice gives the same: two exports of one run under the same options
/// both succeed or both fail. Where they succeed they hold the same text, byte for
/// byte, and the same counts; where they fail, the error is the same.
pub proof fn lemma_export_is_deterministic(
    laps: Seq<LapView>,
    options: OptionsView,
    a: Result<Exported, ExportError>,
    b: Result<Exported, ExportError>,
)
    requires
        exports(laps, options, a),
        exports(laps, options, b),
    ensures
        a is Ok <==> b is Ok,
        a is Ok <==> exportable(laps, options.strategy),
        a is Ok ==> {
            &&& a->Ok_0.text@ == b->Ok_0.text@
            &&& a->Ok_0.laps_written == b->Ok_0.laps_written
            &&& a->Ok_0.rows_written == b->Ok_0.rows_written
        },
        a is Err ==> a == b,
{
    if !exportable(laps, options.strategy) {
        let l = choose|l: int|
            first_blocked(laps, options.strategy, l) && a == Err::<Exported, ExportError>(
                ExportError::MasterChannelMissing { lap: laps[l].lap as usize },
            );
        let k = choose|k: int|
            first_blocked(laps, options.strategy, k) && b == Err::<Exported, ExportError>(
                ExportError::MasterChannelMissing { lap: laps[k].lap as usize },
            );
        assert(l == k);
    }
}

/// The records of laps that have no channels: none.
proof fn lemma_no_channels_no_records(laps: Seq<LapView>, columns: Seq<ColumnKey>, options: OptionsView, n: int)
    requires
        0 <= n <= laps.len(),
        !(options.strategy is MasterNearest),
        forall|l: int| 0 <= l < n ==> (#[trigger] laps[l]).channels.len() == 0,
    ensures
        run_records(laps, columns, options, n) == Seq::<Seq<Seq<char>>>::empty(),
    decreases n,
{
    if n > 0 {
        lemma_no_channels_no_records(laps, columns, options, n - 1);
        let lap = laps[n - 1];
        lemma_empty_lap_aligns(lap.channels, options.strategy);
        lemma_no_channels_no_rows(lap.channels, options.strategy, alignment(lap.channels, options.strategy));
        assert(lap_records(lap, columns, options) =~= Seq::<Seq<Seq<char>>>::empty());
        assert(run_records(laps, columns, options, n) =~= Seq::<Seq<Seq<char>>>::empty());
    }
}

/// Every record of a run is as wide as its header.
pub proof fn lemma_export_is_rectangular(laps: Seq<LapView>, options: OptionsView)
    ensures
        rectangular(export_records(laps, options)),
{
    let columns = columns_of(laps, laps.len() as int);
    let layout = options.layout();
    let records = export_records(laps, options);
    lemma_run_records_width(laps, columns, options, laps.len() as int);
    let body = run_records(laps, columns, options, laps.len() as int);
    assert forall|i: int| 0 <= i < records.len() implies (#[trigger] records[i]).len() == records[0].len() by {
        if i > 0 {
            assert(records[i] == body[i - 1]);
        }
    }
}

/// The records of the first `n` laps are all as wide as the header.
proof fn lemma_run_records_width(laps: Seq<LapView>, columns: Seq<ColumnKey>, options: OptionsView, n: int)
    ensures
        forall|i: int|
            0 <= i < run_records(laps, columns, options, n).len() ==> (#[trigger] run_records(
                laps,
                columns,
                options,
                n,
            )[i]).len() == header_cells(columns, options.layout()).len(),
    decreases n,
{
    if n > 0 {
        lemma_run_records_width(laps, columns, options, n - 1);
        let before = run_records(laps, columns, options, n - 1);
        let part = lap_records(laps[n - 1], columns, options);
        let all = run_records(laps, columns, options, n);
        assert forall|i: int| 0 <= i < all.len() implies (#[trigger] all[i]).len() == header_cells(
            columns,
            options.layout(),
        ).len() by {
            if i >= before.len() {
                assert(all[i] == part[i - before.len()]);
            } else {
                assert(all[i] == before[i]);
            }
        }
    }
}

/// A run whose laps have no channels exports as its header alone, and the header is
/// the lap column with the time column: no lap is refused and no record is written.
pub proof fn lemma_empty_selection_header_only(laps: Seq<LapView>, options: OptionsView)
    requires
        !(options.strategy is MasterNearest),
        forall|l: int| 0 <= l < laps.len() ==> (#[trigger] laps[l]).channels.len() == 0,
    ensures
        exportable(laps, options.strategy),
        export_records(laps, options) == seq![header_cells(Seq::<ColumnKey>::empty(), options.layout())],
        header_cells(Seq::<ColumnKey>::empty(), options.layout()).len() == options.layout().lead(),
{
    let n = laps.len() as int;
    lemma_no_columns(laps, n);
    lemma_no_channels_no_records(laps, columns_of(laps, n), options, n);
    assert(export_records(laps, options) =~= seq![
        header_cells(Seq::<ColumnKey>::empty(), options.layout()),
    ]);
}

/// Laps without channels bring no columns.
proof fn lemma_no_columns(laps: Seq<LapView>, n: int)
    requires
        0 <= n <= laps.len(),
        forall|l: int| 0 <= l < n ==> (#[trigger] laps[l]).channels.len() == 0,
    ensures
        columns_of(laps, n) == Seq::<ColumnKey>::empty(),
    decreases n,
{
    if n > 0 {
        lemma_no_columns(laps, n - 1);
    }
}

/// The header and records of a run.
///
/// Fails only where some lap cannot be aligned, and then names the first such lap.
pub fn export_rows(data: &ExportData, options: &ExportOptions) -> (result: Result<
    Vec<Vec<String>>,
    ExportError,
>)
    ensures
        result is Ok <==> exportable(data@, options@.strategy),
        result matches Ok(rows) ==> rows.deep_view() == export_records(data@, options@),
        result matches Err(e) ==> exists|l: int|
            first_blocked(data@, options@.strategy, l) && e == (ExportError::MasterChannelMissing {
                lap: data@[l].lap as usize,
            }),
{
    let ghost laps = data@;
    let layout: Layout = options.layout();
    let columns: Vec<Column> = list_columns(&data.laps);
    let ghost keys = columns.deep_view();
    let mut all: Vec<Vec<String>> = Vec::new();
    all.push(header(&columns, layout));
    assert(all.deep_view() =~= seq![header_cells(keys, layout)] + run_records(laps, keys, options@, 0));
    let mut l: usize = 0;
    while l < data.laps.len()
        invariant
            l <= data.laps.len(),
            laps == data@,
            keys == columns.deep_view(),
            layout == options@.layout(),
            forall|k: int| 0 <= k < l ==> alignable((#[trigger] laps[k]).channels, options@.strategy),
            all.deep_view() == seq![header_cells(keys, layout)] + run_records(
                laps,
                keys,
                options@,
                l as int,
            ),
        decreases data.laps.len() - l,
    {
        let lap: &LapData = &data.laps[l];
        assert(laps[l as int] == lap@);
        match align(&lap.channels, &options.strategy) {
            Ok(rows) => {
                let ghost before = all.deep_view();
                let mut part: Vec<Vec<String>> = records(lap, &columns, layout, &rows);
                let ghost added = part.deep_view();
                all.append(&mut part);
                assert(all.deep_view() =~= before + added);
                assert(before + added =~= seq![header_cells(keys, layout)] + run_records(
                    laps,
                    keys,
                    options@,
                    l + 1,
                ));
            },
            Err(_) => {
                assert(first_blocked(laps, options@.strategy, l as int));
                return Err(ExportError::MasterChannelMissing { lap: lap.lap });
            },
        }
        l += 1;
    }
    Ok(all)
}

/// What an export comes to once the writer has answered: the text with the counts,
/// or a write failure where the writer gave none.
pub fn conclude(text: Option<Vec<u8>>, laps: usize, rows: usize) -> (result: Result<Exported, ExportError>)
    ensures
        match text {
            Some(bytes) => result matches Ok(out) && out.text == bytes && out.laps_written == laps
                && out.rows_written == rows,
            None => result == Err::<Exported, ExportError>(ExportError::WriteFailure),
        },
{
    match text {
        Some(bytes) => Ok(Exported { text: bytes, laps_written: laps, rows_written: rows }),
        None => Err(ExportError::WriteFailure),
    }
}

/// Exports a run as delimited text.
///
/// The laps are taken in order. The first lap that cannot be aligned ends the export
/// with its number. Where every lap can be aligned the export succeeds: all its
/// records are as wide as the header, so the writer takes them.
pub fn export(data: &ExportData, options: &ExportOptions) -> (result: Result<Exported, ExportError>)
    ensures
        exports(data@, options@, result),
{
    match export_rows(data, options) {
        Ok(rows) => {
            assert(rows.deep_view().len() == rows.len());
            proof {
                lemma_export_is_rectangular(data@, options@);
            }
            let text: Option<Vec<u8>> = encode(&rows);
            conclude(text, data.laps.len(), rows.len() - 1)
        },
        Err(e) => Err(e),
    }
}

} // verus!
