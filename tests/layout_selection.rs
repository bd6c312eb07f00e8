use indexmap::IndexMap;
use yaar::config::{Config, OutputMode, Profile};
use yaar::devices::{
    descriptor_texts_valid, edid_values_valid, device_from_descriptors, device_from_edid, get_device_name, DescriptorText, DeviceError,
};
use yaar::index::{index_outputs_by_id, IdentifierIndex, IndexError, LiveDisplay, RawOutput};
use yaar::layout::{
    compile_layout, compute_cmd_args, get_primary_output_key, operation_args, CompileError, ConfigOperation,
};
use yaar::matcher::{find_matching_profile, profile_matches, MatchError};

fn s(x: &str) -> String {
    x.to_string()
}

fn profile(outputs: &[(&str, &str)], setup: &[(&str, OutputMode)]) -> Profile {
    let mut o = IndexMap::new();
    for (k, v) in outputs {
        o.insert(s(k), s(v));
    }
    let mut st = IndexMap::new();
    for (k, m) in setup {
        st.insert(s(k), *m);
    }
    Profile { outputs: o, setup: st }
}

fn catalog(entries: Vec<(&str, Profile)>) -> Config {
    let mut profiles = IndexMap::new();
    for (name, p) in entries {
        profiles.insert(s(name), p);
    }
    Config { profiles }
}

fn index(pairs: &[(&str, &str)]) -> IdentifierIndex {
    let displays = pairs
        .iter()
        .map(|(id, name)| LiveDisplay { identifier: s(id), system_name: s(name) })
        .collect();
    IdentifierIndex::build(displays).unwrap()
}

fn ids(v: &[&str]) -> Vec<String> {
    v.iter().map(|x| s(x)).collect()
}

fn home() -> Profile {
    profile(&[("L", "aa11"), ("R", "bb22")], &[("L", OutputMode::Primary), ("R", OutputMode::Secondary)])
}

fn op_strings(ops: &[ConfigOperation]) -> Vec<String> {
    ops.iter()
        .map(|o| match o {
            ConfigOperation::Disable(n) => format!("Disable({})", n),
            ConfigOperation::SetPrimary(n) => format!("SetPrimary({})", n),
            ConfigOperation::SetSecondaryRightOf(n, a) => format!("SetSecondaryRightOf({}, {})", n, a),
        })
        .collect()
}

#[test]
fn scenario_home_matches_and_compiles() {
    let cfg = catalog(vec![("home", home())]);
    let ix = index(&[("aa11", "eDP-1"), ("bb22", "HDMI-1")]);
    let (name, p) = find_matching_profile(&cfg, &ix.identifiers()).unwrap().unwrap();
    assert_eq!(name, "home");
    let ops = compile_layout(p, &ix).unwrap();
    assert_eq!(op_strings(&ops), vec!["SetPrimary(eDP-1)", "SetSecondaryRightOf(HDMI-1, eDP-1)"]);
    assert_eq!(
        compute_cmd_args(&ix, p).unwrap(),
        vec!["--output", "eDP-1", "--auto", "--primary", "--output", "HDMI-1", "--auto", "--right-of", "eDP-1"]
    );
}

#[test]
fn scenario_subset_is_no_match() {
    let cfg = catalog(vec![("home", home())]);
    assert!(find_matching_profile(&cfg, &ids(&["aa11"])).unwrap().is_none());
}

#[test]
fn scenario_superset_is_no_match() {
    let cfg = catalog(vec![("home", home())]);
    assert!(find_matching_profile(&cfg, &ids(&["aa11", "bb22", "cc33"])).unwrap().is_none());
}

#[test]
fn scenario_duplicate_profiles_are_ambiguous() {
    let laptop = || profile(&[("L", "aa11")], &[("L", OutputMode::Primary)]);
    let cfg = catalog(vec![("laptop-only", laptop()), ("dup", laptop())]);
    match find_matching_profile(&cfg, &ids(&["aa11"])) {
        Err(MatchError::AmbiguousMatch(names)) => assert_eq!(names, vec!["laptop-only", "dup"]),
        _ => panic!("expected an ambiguous match"),
    }
}

#[test]
fn ambiguity_does_not_depend_on_catalog_order() {
    let laptop = || profile(&[("L", "aa11")], &[("L", OutputMode::Primary)]);
    let cfg = catalog(vec![("dup", laptop()), ("home", home()), ("laptop-only", laptop())]);
    match find_matching_profile(&cfg, &ids(&["aa11"])) {
        Err(MatchError::AmbiguousMatch(names)) => assert_eq!(names, vec!["dup", "laptop-only"]),
        _ => panic!("expected an ambiguous match"),
    }
}

#[test]
fn scenario_off_then_primary() {
    let p = profile(&[("L", "aa11"), ("R", "bb22")], &[("L", OutputMode::Off), ("R", OutputMode::Primary)]);
    let cfg = catalog(vec![("docked", p)]);
    let ix = index(&[("bb22", "DP-2"), ("aa11", "eDP-1")]);
    let (name, p) = find_matching_profile(&cfg, &ix.identifiers()).unwrap().unwrap();
    assert_eq!(name, "docked");
    assert_eq!(op_strings(&compile_layout(p, &ix).unwrap()), vec!["Disable(eDP-1)", "SetPrimary(DP-2)"]);
    assert_eq!(compute_cmd_args(&ix, p).unwrap(), vec!["--output", "eDP-1", "--off", "--output", "DP-2", "--auto", "--primary"]);
}

#[test]
fn match_ignores_order_of_connected_identifiers() {
    let cfg = catalog(vec![("other", profile(&[("L", "aa11")], &[("L", OutputMode::Primary)])), ("home", home())]);
    let (name, _) = find_matching_profile(&cfg, &ids(&["bb22", "aa11"])).unwrap().unwrap();
    assert_eq!(name, "home");
    assert!(profile_matches(&home(), &ids(&["bb22", "aa11", "aa11"])));
    assert!(!profile_matches(&home(), &ids(&["bb22"])));
}

#[test]
fn empty_catalog_is_no_match() {
    let cfg = catalog(vec![]);
    assert!(find_matching_profile(&cfg, &ids(&["aa11"])).unwrap().is_none());
}

#[test]
fn no_primary_is_an_error() {
    let p = profile(&[("L", "aa11")], &[("L", OutputMode::Secondary)]);
    let ix = index(&[("aa11", "eDP-1")]);
    assert_eq!(get_primary_output_key(&p).unwrap_err(), CompileError::NoPrimaryDefined);
    assert_eq!(compile_layout(&p, &ix).unwrap_err(), CompileError::NoPrimaryDefined);
}

#[test]
fn two_primaries_is_an_error() {
    let p = profile(&[("L", "aa11"), ("R", "bb22")], &[("L", OutputMode::Primary), ("R", OutputMode::Primary)]);
    let ix = index(&[("aa11", "eDP-1"), ("bb22", "HDMI-1")]);
    assert_eq!(get_primary_output_key(&p).unwrap_err(), CompileError::MultiplePrimaryDefined);
    assert_eq!(compile_layout(&p, &ix).unwrap_err(), CompileError::MultiplePrimaryDefined);
}

#[test]
fn primary_key_is_found() {
    let p = profile(&[("L", "aa11"), ("R", "bb22")], &[("L", OutputMode::Off), ("R", OutputMode::Primary)]);
    assert_eq!(get_primary_output_key(&p).unwrap(), "R");
}

#[test]
fn disconnected_display_is_an_error() {
    let ix = index(&[("aa11", "eDP-1")]);
    assert_eq!(compile_layout(&home(), &ix).unwrap_err(), CompileError::IdentifierNotConnected);
}

#[test]
fn unknown_output_key_is_an_error() {
    let p = profile(&[("L", "aa11")], &[("L", OutputMode::Primary), ("X", OutputMode::Off)]);
    let ix = index(&[("aa11", "eDP-1")]);
    assert_eq!(compile_layout(&p, &ix).unwrap_err(), CompileError::UnknownOutputKey);
}

#[test]
fn empty_setup_compiles_to_nothing() {
    let p = profile(&[("L", "aa11")], &[]);
    let ix = index(&[("aa11", "eDP-1")]);
    assert!(compile_layout(&p, &ix).unwrap().is_empty());
    assert!(compute_cmd_args(&ix, &p).unwrap().is_empty());
    assert_eq!(get_primary_output_key(&p).unwrap_err(), CompileError::NoPrimaryDefined);
}

#[test]
fn compiling_twice_gives_the_same_operations() {
    let ix = index(&[("aa11", "eDP-1"), ("bb22", "HDMI-1")]);
    let a = op_strings(&compile_layout(&home(), &ix).unwrap());
    let b = op_strings(&compile_layout(&home(), &ix).unwrap());
    assert_eq!(a, b);
}

#[test]
fn reordering_setup_reorders_operations() {
    let ix = index(&[("aa11", "eDP-1"), ("bb22", "HDMI-1"), ("cc33", "DP-1")]);
    let outs = [("L", "aa11"), ("R", "bb22"), ("M", "cc33")];
    let p1 = profile(&outs, &[("L", OutputMode::Primary), ("R", OutputMode::Secondary), ("M", OutputMode::Off)]);
    let p2 = profile(&outs, &[("M", OutputMode::Off), ("L", OutputMode::Primary), ("R", OutputMode::Secondary)]);
    let a = op_strings(&compile_layout(&p1, &ix).unwrap());
    let b = op_strings(&compile_layout(&p2, &ix).unwrap());
    assert_eq!(a, vec!["SetPrimary(eDP-1)", "SetSecondaryRightOf(HDMI-1, eDP-1)", "Disable(DP-1)"]);
    assert_eq!(b, vec![a[2].clone(), a[0].clone(), a[1].clone()]);
}

#[test]
fn operation_args_of_nothing_is_empty() {
    assert!(operation_args(&vec![]).is_empty());
}

#[test]
fn duplicate_identifier_fails_the_index() {
    let displays = vec![
        LiveDisplay { identifier: s("aa11"), system_name: s("eDP-1") },
        LiveDisplay { identifier: s("aa11"), system_name: s("HDMI-1") },
    ];
    assert_eq!(IdentifierIndex::build(displays).unwrap_err(), IndexError::DuplicateIdentifier);
}

#[test]
fn index_lookup_and_insert() {
    let mut ix = IdentifierIndex::new();
    assert!(ix.insert(LiveDisplay { identifier: s("aa11"), system_name: s("eDP-1") }).is_ok());
    assert!(ix.insert(LiveDisplay { identifier: s("aa11"), system_name: s("DP-1") }).is_err());
    assert_eq!(ix.system_name_of(&s("aa11")).unwrap(), "eDP-1");
    assert!(ix.system_name_of(&s("bb22")).is_none());
    assert_eq!(ix.identifiers(), vec!["aa11"]);
}

#[test]
fn raw_outputs_are_indexed_by_hex() {
    let outputs = vec![
        RawOutput { name: s("eDP-1"), edid: Some(vec![0x00, 0xab, 0x1f]) },
        RawOutput { name: s("VGA-1"), edid: None },
        RawOutput { name: s("HDMI-1"), edid: Some(vec![0xff]) },
    ];
    let ix = index_outputs_by_id(outputs).unwrap();
    assert_eq!(ix.identifiers(), vec!["00ab1f", "ff"]);
    assert_eq!(ix.system_name_of(&s("00ab1f")).unwrap(), "eDP-1");
}

#[test]
fn equal_raw_blocks_fail_the_index() {
    let outputs = vec![
        RawOutput { name: s("eDP-1"), edid: Some(vec![1, 2]) },
        RawOutput { name: s("HDMI-1"), edid: Some(vec![1, 2]) },
    ];
    assert_eq!(index_outputs_by_id(outputs).unwrap_err(), IndexError::DuplicateIdentifier);
}

#[test]
fn device_name_from_path_components() {
    let comps = ids(&["/", "sys", "devices", "pci0000:00", "drm", "card1", "card1-eDP-1", "edid"]);
    assert_eq!(get_device_name(&comps).unwrap(), "eDP-1");
    let wrong_prefix = ids(&["drm", "card1", "card0-eDP-1", "edid"]);
    assert!(get_device_name(&wrong_prefix).is_none());
    let not_drm = ids(&["usb", "card1", "card1-eDP-1", "edid"]);
    assert!(get_device_name(&not_drm).is_none());
    assert!(get_device_name(&ids(&["card1", "card1-eDP-1", "edid"])).is_none());
}

#[test]
fn device_from_descriptor_list() {
    let ds = vec![
        DescriptorText::Other,
        DescriptorText::ProductName(s("DELL U2720Q")),
        DescriptorText::ProductSerialNumber(s("ABC123")),
    ];
    let d = device_from_descriptors(s("DP-1"), vec![0x0f, 0xa0], &ds).unwrap();
    assert_eq!(d.name, "DP-1");
    assert_eq!(d.product_name, "DELL U2720Q");
    assert_eq!(d.product_serial_number.as_deref(), Some("ABC123"));
    assert_eq!(d.edid_hex, "0fa0");
    assert_eq!(d.edid_bytes, vec![0x0f, 0xa0]);
}

#[test]
fn device_descriptor_errors() {
    let two_names = vec![DescriptorText::ProductName(s("A")), DescriptorText::ProductName(s("B"))];
    assert_eq!(device_from_descriptors(s("x"), vec![], &two_names).unwrap_err(), DeviceError::DuplicateDescriptor);
    let no_name = vec![DescriptorText::ProductSerialNumber(s("1"))];
    assert_eq!(device_from_descriptors(s("x"), vec![], &no_name).unwrap_err(), DeviceError::MissingProductName);
}

#[test]
fn garbage_edid_is_rejected() {
    assert_eq!(device_from_edid(s("x"), vec![1, 2, 3]).unwrap_err(), DeviceError::InvalidEdid);
}

fn block_with_text(text: &[u8]) -> Vec<u8> {
    let mut b = vec![0u8; 128];
    b[57] = 0xfc;
    for (i, t) in text.iter().enumerate() {
        b[59 + i] = *t;
    }
    b
}

#[test]
fn text_descriptors_must_be_utf8() {
    assert!(descriptor_texts_valid(&block_with_text(b"DELL\n        ")));
    assert!(!descriptor_texts_valid(&block_with_text(&[0xff, 0xfe, 0x80])));
    assert!(descriptor_texts_valid(&vec![0u8; 20]));
}

#[test]
fn non_utf8_product_name_is_invalid_not_a_panic() {
    let b = block_with_text(&[0xc3, 0x28]);
    assert_eq!(device_from_edid(s("x"), b).unwrap_err(), DeviceError::InvalidEdid);
}

fn edid_header() -> Vec<u8> {
    let mut b = vec![0u8; 128];
    for i in 1..7 {
        b[i] = 0xff;
    }
    b
}

#[test]
fn reserved_video_input_values_are_invalid() {
    let mut b = edid_header();
    b[20] = 0xf0;
    assert!(!edid_values_valid(&b));
    assert_eq!(device_from_edid(s("x"), b.clone()).unwrap_err(), DeviceError::InvalidEdid);
    b[20] = 0xa5;
    assert!(edid_values_valid(&b));
    b[20] = 0xa6;
    assert!(!edid_values_valid(&b));
}

#[test]
fn reserved_range_limit_values_are_invalid() {
    let mut b = edid_header();
    b[57] = 0xfd;
    assert!(edid_values_valid(&b));
    b[58] = 0x01;
    assert!(!edid_values_valid(&b));
    b[58] = 0x0a;
    assert!(edid_values_valid(&b));
    b[64] = 0x03;
    assert!(!edid_values_valid(&b));
    b[64] = 0x04;
    b[69] = 0xa0;
    assert!(!edid_values_valid(&b));
    b[69] = 0x80;
    assert!(edid_values_valid(&b));
    assert_eq!(device_from_edid(s("x"), b).unwrap_err(), DeviceError::InvalidEdid);
}
