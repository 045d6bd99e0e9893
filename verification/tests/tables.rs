use telemetry_export::align::{align, AlignedRow, RowKey, Strategy};
use telemetry_export::channel::{Channel, LapData};
use telemetry_export::columns::{find_column, find_source, list_columns, Column};
use telemetry_export::table::{build_table, header, records, sources, Layout};

fn channel(name: &str, unit: &str, times: &[i64], values: &[&str]) -> Channel {
    Channel {
        name: name.to_string(),
        unit: unit.to_string(),
        times: times.to_vec(),
        stamps: times.iter().map(|t| format!("{:.3}", *t as f64 / 1e6)).collect(),
        values: values.iter().map(|v| v.to_string()).collect(),
    }
}

fn column(name: &str, rank: usize) -> Column {
    Column { name: name.to_string(), rank }
}

fn named(columns: &Vec<Column>) -> Vec<(String, usize)> {
    columns.iter().map(|c| (c.name.clone(), c.rank)).collect()
}

fn plain() -> Layout {
    Layout { time_column: true, unit_columns: false }
}

#[test]
fn the_header_names_the_lap_the_time_and_each_column() {
    let columns = vec![column("A", 0), column("B", 0)];
    assert_eq!(header(&columns, plain()), vec!["lap", "time", "A", "B"]);
    assert_eq!(
        header(&columns, Layout { time_column: false, unit_columns: false }),
        vec!["lap", "A", "B"]
    );
}

#[test]
fn the_header_pairs_each_value_with_its_unit_column() {
    let columns = vec![column("A", 0), column("B", 0)];
    assert_eq!(
        header(&columns, Layout { time_column: true, unit_columns: true }),
        vec!["lap", "time", "A", "A_UNIT", "B", "B_UNIT"]
    );
    assert_eq!(
        header(&columns, Layout { time_column: false, unit_columns: true }),
        vec!["lap", "A", "A_UNIT", "B", "B_UNIT"]
    );
}

#[test]
fn a_header_without_columns_keeps_its_leading_cells() {
    assert_eq!(header(&Vec::new(), plain()), vec!["lap", "time"]);
    assert_eq!(header(&Vec::new(), Layout { time_column: false, unit_columns: true }), vec!["lap"]);
}

#[test]
fn the_width_is_the_lead_and_one_or_two_cells_for_each_column() {
    for n in 0..5usize {
        let columns: Vec<Column> = (0..n).map(|j| column("C", j)).collect();
        for time_column in [false, true] {
            for unit_columns in [false, true] {
                let lead = if time_column { 2 } else { 1 };
                let span = if unit_columns { 2 } else { 1 };
                let cells = header(&columns, Layout { time_column, unit_columns });
                assert_eq!(cells.len(), lead + n * span);
            }
        }
    }
}

#[test]
fn laps_are_numbered_from_one_and_instants_shown_in_seconds() {
    let lap = LapData { lap: 2, channels: vec![channel("A", "m", &[0, 1_500_000], &["1.5", "-3"])] };
    let columns = list_columns(&vec![LapData { lap: 2, channels: vec![channel("A", "m", &[], &[])] }]);
    let rows = align(&lap.channels, &Strategy::UnionExact).unwrap();
    let table = build_table(&lap, &columns, plain(), &rows);
    assert_eq!(table.header, vec!["lap", "time", "A"]);
    assert_eq!(table.rows, vec![vec!["3", "0.000", "1.5"], vec!["3", "1.500", "-3"]]);
}

#[test]
fn a_unit_stands_beside_a_value_and_is_blank_beside_a_blank() {
    let lap = LapData {
        lap: 0,
        channels: vec![channel("A", "m", &[0, 10], &["1", "2"]), channel("B", "bar", &[10], &["9"])],
    };
    let columns = vec![column("A", 0), column("B", 0)];
    let rows = align(&lap.channels, &Strategy::UnionExact).unwrap();
    let table = build_table(&lap, &columns, Layout { time_column: true, unit_columns: true }, &rows);
    assert_eq!(
        table.rows,
        vec![vec!["1", "0.000", "1", "m", "", ""], vec!["1", "0.000", "2", "m", "9", "bar"]]
    );
    for row in &table.rows {
        assert_eq!(row.len(), table.header.len());
    }
}

#[test]
fn rows_by_position_have_no_time_cell() {
    let lap = LapData {
        lap: 0,
        channels: vec![channel("A", "", &[5, 6], &["a0", "a1"]), channel("B", "", &[7], &["b0"])],
    };
    let columns = vec![column("A", 0), column("B", 0)];
    let rows = align(&lap.channels, &Strategy::Positional).unwrap();
    let table = build_table(&lap, &columns, Layout { time_column: false, unit_columns: false }, &rows);
    assert_eq!(table.header, vec!["lap", "A", "B"]);
    assert_eq!(table.rows, vec![vec!["1", "a0", "b0"], vec!["1", "a1", ""]]);
    let with_time = records(&lap, &columns, plain(), &rows);
    assert_eq!(with_time, vec![vec!["1", "", "a0", "b0"], vec!["1", "", "a1", ""]]);
}

#[test]
fn a_lap_without_channels_gives_a_table_of_its_header_alone() {
    let lap = LapData { lap: 0, channels: Vec::new() };
    let rows = align(&lap.channels, &Strategy::UnionExact).unwrap();
    let table = build_table(&lap, &Vec::new(), plain(), &rows);
    assert_eq!(table.header, vec!["lap", "time"]);
    assert!(table.rows.is_empty());
}

#[test]
fn a_column_that_the_lap_lacks_is_blank_in_every_record() {
    let lap = LapData { lap: 1, channels: vec![channel("A", "m", &[0, 10], &["1", "2"])] };
    let columns = vec![column("A", 0), column("B", 0)];
    let rows = align(&lap.channels, &Strategy::MasterNearest { master: "A".to_string() }).unwrap();
    let table = build_table(&lap, &columns, Layout { time_column: true, unit_columns: true }, &rows);
    assert_eq!(table.header, vec!["lap", "time", "A", "A_UNIT", "B", "B_UNIT"]);
    assert_eq!(
        table.rows,
        vec![vec!["2", "0.000", "1", "m", "", ""], vec!["2", "0.000", "2", "m", "", ""]]
    );
}

#[test]
fn a_pick_that_names_no_sample_leaves_the_cell_blank() {
    let lap = LapData { lap: 0, channels: vec![channel("A", "m", &[0, 10], &["1", "2"])] };
    let columns = vec![column("A", 0)];
    let rows = vec![
        AlignedRow { key: RowKey::Instant(0), origin: Some((0, 7)), picks: vec![Some(7)] },
        AlignedRow { key: RowKey::Instant(0), origin: Some((3, 0)), picks: Vec::new() },
        AlignedRow { key: RowKey::Instant(0), origin: None, picks: vec![None] },
        AlignedRow { key: RowKey::Instant(10), origin: Some((0, 1)), picks: vec![Some(1)] },
    ];
    let cells = records(&lap, &columns, Layout { time_column: true, unit_columns: true }, &rows);
    assert_eq!(
        cells,
        vec![
            vec!["1", "", "", ""],
            vec!["1", "", "", ""],
            vec!["1", "", "", ""],
            vec!["1", "0.000", "2", "m"]
        ]
    );
}

#[test]
fn columns_are_listed_in_the_order_of_first_appearance() {
    let laps = vec![
        LapData { lap: 0, channels: vec![channel("A", "", &[], &[]), channel("B", "", &[], &[])] },
        LapData { lap: 1, channels: vec![channel("C", "", &[], &[]), channel("A", "", &[], &[])] },
        LapData { lap: 2, channels: vec![channel("B", "", &[], &[]), channel("D", "", &[], &[])] },
    ];
    assert_eq!(
        named(&list_columns(&laps)),
        vec![("A".to_string(), 0), ("B".to_string(), 0), ("C".to_string(), 0), ("D".to_string(), 0)]
    );
    assert!(list_columns(&Vec::new()).is_empty());
}

#[test]
fn channels_of_one_name_get_a_column_each() {
    let laps = vec![
        LapData { lap: 0, channels: vec![channel("A", "", &[], &[]), channel("A", "", &[], &[])] },
        LapData {
            lap: 1,
            channels: vec![channel("A", "", &[], &[]), channel("B", "", &[], &[]), channel("A", "", &[], &[]), channel("A", "", &[], &[])],
        },
    ];
    assert_eq!(
        named(&list_columns(&laps)),
        vec![("A".to_string(), 0), ("A".to_string(), 1), ("B".to_string(), 0), ("A".to_string(), 2)]
    );
    let mut later = laps;
    later.remove(0);
    assert_eq!(
        named(&list_columns(&later)),
        vec![("A".to_string(), 0), ("B".to_string(), 0), ("A".to_string(), 1), ("A".to_string(), 2)]
    );
}

#[test]
fn a_column_finds_the_channel_of_its_name_and_rank() {
    let channels = vec![
        channel("A", "", &[], &[]),
        channel("B", "", &[], &[]),
        channel("A", "", &[], &[]),
    ];
    assert_eq!(find_source(&channels, &column("A", 0)), Some(0));
    assert_eq!(find_source(&channels, &column("A", 1)), Some(2));
    assert_eq!(find_source(&channels, &column("A", 2)), None);
    assert_eq!(find_source(&channels, &column("B", 0)), Some(1));
    assert_eq!(find_source(&channels, &column("C", 0)), None);
    let columns = vec![column("B", 0), column("Z", 0), column("A", 1)];
    assert_eq!(sources(&channels, &columns), vec![Some(1), None, Some(2)]);
    assert_eq!(find_column(&columns, &"A".to_string(), 1), Some(2));
    assert_eq!(find_column(&columns, &"A".to_string(), 0), None);
    assert_eq!(find_column(&columns, &"Z".to_string(), 0), Some(1));
}

#[test]
fn channels_of_one_name_fill_their_own_columns() {
    let lap = LapData {
        lap: 0,
        channels: vec![channel("A", "x", &[0], &["first"]), channel("A", "y", &[0], &["second"])],
    };
    let columns = list_columns(&vec![LapData {
        lap: 0,
        channels: vec![channel("A", "", &[], &[]), channel("A", "", &[], &[])],
    }]);
    let rows = align(&lap.channels, &Strategy::UnionExact).unwrap();
    let table = build_table(&lap, &columns, Layout { time_column: true, unit_columns: true }, &rows);
    assert_eq!(table.header, vec!["lap", "time", "A", "A_UNIT", "A", "A_UNIT"]);
    assert_eq!(table.rows, vec![vec!["1", "0.000", "first", "x", "second", "y"]]);
}

#[test]
fn the_time_cell_is_the_stamp_of_the_sample_that_gives_the_instant() {
    let seconds = [1.2345f64, 2.0005, 12.3456];
    let bits: Vec<u64> = seconds.iter().map(|s| s.to_bits()).collect();
    let values: Vec<String> = vec!["a".to_string(), "b".to_string(), "c".to_string()];
    let master = Channel::from_seconds("M".to_string(), "m".to_string(), &bits, values).unwrap();
    let other = channel("S", "", &[1_234_500], &["x"]);
    let lap = LapData { lap: 4, channels: vec![other, master] };
    let columns = vec![column("M", 0), column("S", 0)];
    let rows = align(&lap.channels, &Strategy::MasterNearest { master: "M".to_string() }).unwrap();
    let table = build_table(&lap, &columns, plain(), &rows);
    let expected: Vec<Vec<String>> = seconds
        .iter()
        .zip(["a", "b", "c"])
        .map(|(s, v)| vec!["5".to_string(), format!("{:.3}", s), v.to_string(), "x".to_string()])
        .collect();
    assert_eq!(table.rows, expected);
    assert_eq!(table.rows[0][1], "1.234");
    assert_eq!(table.rows[2][1], "12.346");
}
