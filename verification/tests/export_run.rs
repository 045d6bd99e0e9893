use telemetry_export::align::Strategy;
use telemetry_export::channel::{Channel, ExportData, LapData};
use telemetry_export::delimited::encode;
use telemetry_export::error::ExportError;
use telemetry_export::export::{conclude, export, export_rows, ExportOptions, DEFAULT_MASTER};
use telemetry_export::table::Layout;

fn channel(name: &str, unit: &str, times: &[i64], values: &[&str]) -> Channel {
    Channel {
        name: name.to_string(),
        unit: unit.to_string(),
        times: times.to_vec(),
        stamps: times.iter().map(|t| format!("{:.3}", *t as f64 / 1e6)).collect(),
        values: values.iter().map(|v| v.to_string()).collect(),
    }
}

fn master(name: &str) -> ExportOptions {
    ExportOptions { strategy: Strategy::MasterNearest { master: name.to_string() }, unit_columns: false }
}

fn union() -> ExportOptions {
    ExportOptions { strategy: Strategy::UnionExact, unit_columns: false }
}

fn text_of(data: &ExportData, options: &ExportOptions) -> String {
    String::from_utf8(export(data, options).unwrap().text).unwrap()
}

#[test]
fn master_alignment_writes_one_row_per_master_sample() {
    let data = ExportData {
        laps: vec![LapData {
            lap: 0,
            channels: vec![
                channel("M", "s", &[0, 1_000_000, 2_000_000], &["1", "2", "3"]),
                channel("S", "bar", &[400_000, 1_600_000], &["100", "200"]),
            ],
        }],
    };
    assert_eq!(
        text_of(&data, &master("M")),
        "lap,time,M,S\n1,0.000,1,100\n1,1.000,2,100\n1,2.000,3,200\n"
    );
    let out = export(&data, &master("M")).unwrap();
    assert_eq!(out.laps_written, 1);
    assert_eq!(out.rows_written, 3);
}

#[test]
fn export_without_the_master_names_the_first_lap_that_lacks_it() {
    let data = ExportData {
        laps: vec![
            LapData { lap: 0, channels: vec![channel("M", "s", &[0], &["1"])] },
            LapData { lap: 4, channels: vec![channel("S", "s", &[0], &["1"])] },
            LapData { lap: 5, channels: Vec::new() },
        ],
    };
    assert_eq!(export(&data, &master("M")).unwrap_err(), ExportError::MasterChannelMissing { lap: 4 });
    assert_eq!(export_rows(&data, &master("M")).unwrap_err(), ExportError::MasterChannelMissing { lap: 4 });
    assert!(export(&data, &union()).is_ok());
}

#[test]
fn the_default_options_align_to_the_position_channel() {
    let options = ExportOptions::default();
    assert!(!options.unit_columns);
    match &options.strategy {
        Strategy::MasterNearest { master } => assert_eq!(master, DEFAULT_MASTER),
        _ => panic!("the default strategy has a master"),
    }
    assert_eq!(DEFAULT_MASTER, "ECEF position_X");
    assert_eq!(options.layout(), Layout { time_column: true, unit_columns: false });
    let data = ExportData {
        laps: vec![LapData {
            lap: 0,
            channels: vec![
                channel("ECEF position_X", "m", &[0, 50_000], &["4027894.5", "4027895"]),
                channel("ECEF position_Y", "m", &[1_000, 49_000], &["307045.25", "307046"]),
            ],
        }],
    };
    assert_eq!(
        text_of(&data, &options),
        "lap,time,ECEF position_X,ECEF position_Y\n1,0.000,4027894.5,307045.25\n1,0.050,4027895,307046\n"
    );
}

#[test]
fn only_rows_by_position_go_without_a_time_column() {
    assert_eq!(union().layout(), Layout { time_column: true, unit_columns: false });
    let positional = ExportOptions { strategy: Strategy::Positional, unit_columns: true };
    assert_eq!(positional.layout(), Layout { time_column: false, unit_columns: true });
}

#[test]
fn a_channel_that_a_later_lap_lacks_keeps_its_column_and_is_blank_there() {
    let data = ExportData {
        laps: vec![
            LapData {
                lap: 0,
                channels: vec![channel("M", "s", &[0, 10_000], &["1", "2"]), channel("S", "bar", &[0], &["7"])],
            },
            LapData { lap: 1, channels: vec![channel("M", "s", &[20_000], &["3"])] },
        ],
    };
    assert_eq!(
        text_of(&data, &master("M")),
        "lap,time,M,S\n1,0.000,1,7\n1,0.010,2,7\n2,0.020,3,\n"
    );
    let with_units = ExportOptions { strategy: Strategy::UnionExact, unit_columns: true };
    assert_eq!(
        text_of(&data, &with_units),
        "lap,time,M,M_UNIT,S,S_UNIT\n1,0.000,1,s,7,bar\n1,0.010,2,s,,\n2,0.020,3,s,,\n"
    );
}

#[test]
fn a_channel_without_samples_in_a_lap_is_blank_there() {
    let data = ExportData {
        laps: vec![
            LapData {
                lap: 0,
                channels: vec![channel("M", "s", &[0], &["1"]), channel("S", "bar", &[0], &["7"])],
            },
            LapData {
                lap: 1,
                channels: vec![channel("M", "s", &[5_000], &["2"]), channel("S", "bar", &[], &[])],
            },
        ],
    };
    assert_eq!(text_of(&data, &master("M")), "lap,time,M,S\n1,0.000,1,7\n2,0.005,2,\n");
}

#[test]
fn a_channel_that_only_a_later_lap_has_gets_a_column_too() {
    let data = ExportData {
        laps: vec![
            LapData { lap: 0, channels: vec![channel("A", "", &[0], &["a"])] },
            LapData { lap: 1, channels: vec![channel("B", "", &[0], &["b"]), channel("A", "", &[0], &["c"])] },
        ],
    };
    assert_eq!(text_of(&data, &union()), "lap,time,A,B\n1,0.000,a,\n2,0.000,c,b\n");
}

#[test]
fn laps_without_channels_export_the_header_alone() {
    let data = ExportData {
        laps: vec![LapData { lap: 0, channels: Vec::new() }, LapData { lap: 1, channels: Vec::new() }],
    };
    let out = export(&data, &union()).unwrap();
    assert_eq!(String::from_utf8(out.text).unwrap(), "lap,time\n");
    assert_eq!(out.laps_written, 2);
    assert_eq!(out.rows_written, 0);
    let positional = ExportOptions { strategy: Strategy::Positional, unit_columns: true };
    assert_eq!(text_of(&data, &positional), "lap\n");
    assert_eq!(export(&data, &master("M")).unwrap_err(), ExportError::MasterChannelMissing { lap: 0 });
}

#[test]
fn a_run_without_laps_exports_the_header_alone() {
    let data = ExportData { laps: Vec::new() };
    let out = export(&data, &master("M")).unwrap();
    assert_eq!(String::from_utf8(out.text).unwrap(), "lap,time\n");
    assert_eq!(out.laps_written, 0);
    assert_eq!(out.rows_written, 0);
}

#[test]
fn rows_by_position_are_written_without_instants() {
    let data = ExportData {
        laps: vec![LapData {
            lap: 0,
            channels: vec![channel("A", "m", &[9, 8, 7], &["1", "2", "3"]), channel("B", "s", &[1], &["x"])],
        }],
    };
    let positional = ExportOptions { strategy: Strategy::Positional, unit_columns: false };
    assert_eq!(text_of(&data, &positional), "lap,A,B\n1,1,x\n1,2,\n1,3,\n");
}

#[test]
fn exporting_twice_gives_the_same_bytes() {
    let data = ExportData {
        laps: vec![
            LapData {
                lap: 0,
                channels: vec![
                    channel("M", "s", &[0, 7, 7, 21], &["a", "b", "c", "d"]),
                    channel("S", "bar", &[3, 3, 11, 40], &["p", "q", "r", "s"]),
                ],
            },
            LapData { lap: 1, channels: vec![channel("M", "s", &[100], &["e"])] },
        ],
    };
    for options in [master("M"), union(), ExportOptions { strategy: Strategy::Positional, unit_columns: true }] {
        let first = export(&data, &options).unwrap();
        let second = export(&data, &options).unwrap();
        assert_eq!(first.text, second.text);
        assert_eq!(first.laps_written, second.laps_written);
        assert_eq!(first.rows_written, second.rows_written);
    }
}

#[test]
fn the_rows_of_a_run_start_with_its_header() {
    let data = ExportData {
        laps: vec![LapData { lap: 0, channels: vec![channel("A", "m", &[0, 1_000], &["1", "2"])] }],
    };
    let rows = export_rows(&data, &union()).unwrap();
    assert_eq!(rows, vec![vec!["lap", "time", "A"], vec!["1", "0.000", "1"], vec!["1", "0.001", "2"]]);
}

#[test]
fn cells_with_delimiters_or_quotes_are_quoted() {
    let data = ExportData {
        laps: vec![LapData {
            lap: 0,
            channels: vec![channel("Logger, Temperature", "C", &[0], &["say \"hi\""])],
        }],
    };
    assert_eq!(
        text_of(&data, &union()),
        "lap,time,\"Logger, Temperature\"\n1,0.000,\"say \"\"hi\"\"\"\n"
    );
}

#[test]
fn records_are_encoded_one_to_a_line() {
    let records: Vec<Vec<String>> =
        vec![vec!["a".to_string(), "b".to_string()], vec!["1".to_string(), String::new()]];
    assert_eq!(encode(&records), Some(b"a,b\n1,\n".to_vec()));
    assert_eq!(encode(&Vec::new()), Some(Vec::new()));
}

#[test]
fn records_of_unequal_length_are_refused_by_the_writer() {
    let records: Vec<Vec<String>> = vec![vec!["a".to_string(), "b".to_string()], vec!["1".to_string()]];
    assert_eq!(encode(&records), None);
    assert_eq!(conclude(encode(&records), 1, 1).unwrap_err(), ExportError::WriteFailure);
}

#[test]
fn an_export_concludes_with_the_text_and_the_counts() {
    let out = conclude(Some(b"lap\n".to_vec()), 3, 0).unwrap();
    assert_eq!(out.text, b"lap\n".to_vec());
    assert_eq!(out.laps_written, 3);
    assert_eq!(out.rows_written, 0);
    assert_eq!(conclude(None, 3, 0).unwrap_err(), ExportError::WriteFailure);
}

fn seconds(name: &str, unit: &str, samples: &[(f64, f64)]) -> Channel {
    let bits: Vec<u64> = samples.iter().map(|(s, _)| s.to_bits()).collect();
    let values: Vec<String> = samples.iter().map(|(_, v)| v.to_string()).collect();
    Channel::from_seconds(name.to_string(), unit.to_string(), &bits, values).unwrap()
}

#[test]
fn an_export_from_seconds_shows_each_double_with_three_decimals() {
    let data = ExportData {
        laps: vec![LapData {
            lap: 4,
            channels: vec![seconds("ECEF position_X", "m", &[(12.3456, 0.5), (12.3465, 1.0), (1.2345, -2.25)])],
        }],
    };
    assert_eq!(
        text_of(&data, &ExportOptions::default()),
        "lap,time,ECEF position_X\n5,12.346,0.5\n5,12.347,1\n5,1.234,-2.25\n"
    );
}

#[test]
fn the_nearest_neighbour_example_is_exported() {
    let data = ExportData {
        laps: vec![LapData {
            lap: 0,
            channels: vec![
                seconds("ECEF position_X", "m", &[(0.0, 10.0), (1.0, 11.0), (2.0, 12.0)]),
                seconds("S", "", &[(0.4, 100.0), (1.6, 200.0)]),
            ],
        }],
    };
    let out = export(&data, &ExportOptions::default()).unwrap();
    assert_eq!(
        String::from_utf8(out.text).unwrap(),
        "lap,time,ECEF position_X,S\n1,0.000,10,100\n1,1.000,11,100\n1,2.000,12,200\n"
    );
    assert_eq!(out.rows_written, 3);
}

#[test]
fn a_load_failure_names_lap_and_channel() {
    let failed = Channel::loaded(3, "pBrakeF".to_string(), "bar".to_string(), None);
    assert_eq!(failed.unwrap_err(), ExportError::LoadFailure { lap: 3, channel: "pBrakeF".to_string() });
    let loaded = Channel::loaded(
        3,
        "pBrakeF".to_string(),
        "bar".to_string(),
        Some((vec![0.5f64.to_bits()], vec!["7".to_string()])),
    )
    .unwrap();
    assert_eq!(loaded.times, vec![500_000]);
    assert_eq!(loaded.stamps, vec!["0.500".to_string()]);
    assert_eq!(loaded.values, vec!["7".to_string()]);
    let invalid = Channel::loaded(
        3,
        "pBrakeF".to_string(),
        "bar".to_string(),
        Some((vec![f64::NAN.to_bits()], vec!["7".to_string()])),
    );
    assert_eq!(invalid.unwrap_err(), ExportError::InvalidTimestamp { channel: "pBrakeF".to_string(), sample: 0 });
}
