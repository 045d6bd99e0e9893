use telemetry_export::select::{default_channels, is_listed, select_channels, Family, Selected};

fn names(list: &[&str]) -> Vec<String> {
    list.iter().map(|n| n.to_string()).collect()
}

fn generic(id: usize) -> Selected {
    Selected { family: Family::Generic, id }
}

fn raw(id: usize) -> Selected {
    Selected { family: Family::Raw, id }
}

#[test]
fn a_wanted_name_that_no_channel_carries_is_passed_over() {
    let catalog = names(&["A", "B"]);
    let picked = select_channels(&catalog, &Vec::new(), &Some(names(&["A", "Z"])));
    assert_eq!(picked, vec![generic(0)]);
}

#[test]
fn channels_are_chosen_in_the_order_of_the_catalog_raw_family_last() {
    let catalog = names(&["speed", "rpm", "gear", "rpm"]);
    let auxiliary = names(&["gear", "lat", "speed"]);
    let picked = select_channels(&catalog, &auxiliary, &Some(names(&["gear", "speed", "rpm"])));
    assert_eq!(picked, vec![generic(0), generic(1), generic(2), generic(3), raw(0), raw(2)]);
}

#[test]
fn names_match_letter_for_letter() {
    let catalog = names(&["Speed", "speed ", "speed", ""]);
    assert_eq!(select_channels(&catalog, &Vec::new(), &Some(names(&["speed"]))), vec![generic(2)]);
    assert_eq!(select_channels(&catalog, &Vec::new(), &Some(names(&[""]))), vec![generic(3)]);
}

#[test]
fn no_wanted_names_choose_nothing() {
    let catalog = names(&["A", "B"]);
    assert!(select_channels(&catalog, &catalog, &Some(Vec::new())).is_empty());
    assert!(select_channels(&Vec::new(), &Vec::new(), &Some(names(&["A"]))).is_empty());
}

#[test]
fn without_a_request_the_position_channels_are_chosen() {
    assert_eq!(default_channels(), names(&["ECEF position_X", "ECEF position_Y", "ECEF position_Z"]));
    let catalog = names(&["Logger Temperature", "aLat"]);
    let auxiliary = names(&["ECEF position_X", "ECEF position_Y", "ECEF position_Z", "ECEF velocity_X"]);
    assert_eq!(select_channels(&catalog, &auxiliary, &None), vec![raw(0), raw(1), raw(2)]);
}

#[test]
fn a_repeated_wanted_name_chooses_its_channel_once() {
    let catalog = names(&["A", "B"]);
    assert_eq!(select_channels(&catalog, &Vec::new(), &Some(names(&["B", "B"]))), vec![generic(1)]);
}

#[test]
fn every_chosen_channel_carries_a_wanted_name() {
    let catalog = names(&["a", "b", "c", "d", "b"]);
    let auxiliary = names(&["d", "e"]);
    let wanted = names(&["b", "d", "x"]);
    for picked in select_channels(&catalog, &auxiliary, &Some(wanted.clone())) {
        let name = match picked.family {
            Family::Generic => &catalog[picked.id],
            Family::Raw => &auxiliary[picked.id],
        };
        assert!(is_listed(&wanted, name));
    }
    assert!(!is_listed(&wanted, &"a".to_string()));
}
