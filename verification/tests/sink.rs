use phonemic::sink::pick_output_device;

fn names(list: &[Option<&str>]) -> Vec<Option<String>> {
    list.iter().map(|n| n.map(|s| s.to_string())).collect()
}

#[test]
fn picks_first_case_insensitive_match() {
    let devices = names(&[
        Some("Speakers (Realtek)"),
        None,
        Some("CABLE Input (VB-Audio Virtual Cable)"),
        Some("Cable 2"),
    ]);
    assert_eq!(pick_output_device(&devices, Some("cable")), Some(2));
    assert_eq!(pick_output_device(&devices, Some("REALTEK")), Some(0));
}

#[test]
fn no_match_or_no_preference_falls_back() {
    let devices = names(&[Some("Speakers"), None]);
    assert_eq!(pick_output_device(&devices, Some("cable")), None);
    assert_eq!(pick_output_device(&devices, None), None);
    assert_eq!(pick_output_device(&[], Some("cable")), None);
}

#[test]
fn empty_preference_matches_first_named_device() {
    let devices = names(&[None, Some("Headphones")]);
    assert_eq!(pick_output_device(&devices, Some("")), Some(1));
}

#[test]
fn unicode_names_are_lowercased() {
    let devices = names(&[Some("Ärger Lautsprecher"), Some("ÄRGER Kabel")]);
    assert_eq!(pick_output_device(&devices, Some("ärger kabel")), Some(1));
}
