use pcoretempf::hwmon::{CoreTempDataKind, HwmCoreTemp, HwmonDir};

fn names(v: &[&str]) -> Vec<String> {
    v.iter().map(|s| s.to_string()).collect()
}

#[test]
fn sensor_file_names_are_classified() {
    assert_eq!(CoreTempDataKind::from_path("temp3_input"), Some((3, CoreTempDataKind::Input)));
    assert_eq!(
        CoreTempDataKind::from_path("temp12_crit_alarm"),
        Some((12, CoreTempDataKind::CritAlarm))
    );
    assert_eq!(CoreTempDataKind::from_path("temp1_max"), Some((1, CoreTempDataKind::Max)));
    assert_eq!(CoreTempDataKind::from_path("temp2_crit"), Some((2, CoreTempDataKind::Crit)));
    assert_eq!(CoreTempDataKind::from_path("temp7_label"), Some((7, CoreTempDataKind::Label)));
}

#[test]
fn other_file_names_are_not_sensor_files() {
    assert_eq!(CoreTempDataKind::from_path("temperature_input"), None);
    assert_eq!(CoreTempDataKind::from_path("temp_input"), None);
    assert_eq!(CoreTempDataKind::from_path("tempX_input"), None);
    assert_eq!(CoreTempDataKind::from_path("temp3_min"), None);
    assert_eq!(CoreTempDataKind::from_path("temp3"), None);
    assert_eq!(CoreTempDataKind::from_path("name"), None);
    assert_eq!(CoreTempDataKind::from_path("temp99999999999999999999_input"), None);
}

#[test]
fn a_group_missing_one_file_is_left_out() {
    let files = names(&[
        "name",
        "temp1_input",
        "temp1_max",
        "temp1_crit",
        "temp1_label",
        "temp1_crit_alarm",
        "temp2_input",
        "temp2_max",
        "temp2_crit",
        "temp2_label",
        "temp3_input",
        "temp3_max",
        "temp3_label",
        "temp3_crit_alarm",
    ]);
    let hw = HwmCoreTemp::from_dir(&files);
    assert_eq!(hw.count(), 1);
    let (id, f) = &hw.groups()[0];
    assert_eq!(*id, 1);
    assert_eq!(f.input, "temp1_input");
    assert_eq!(f.max, "temp1_max");
    assert_eq!(f.crit, "temp1_crit");
    assert_eq!(f.label, "temp1_label");
    assert_eq!(f.crit_alarm, "temp1_crit_alarm");
}

#[test]
fn complete_groups_are_all_kept() {
    let mut files = Vec::new();
    for id in [5, 2].iter() {
        for suffix in ["crit_alarm", "label", "crit", "max", "input"].iter() {
            files.push(format!("temp{}_{}", id, suffix));
        }
    }
    let hw = HwmCoreTemp::from_dir(&files);
    let mut ids: Vec<u64> = hw.groups().iter().map(|g| g.0).collect();
    ids.sort();
    assert_eq!(ids, vec![2, 5]);
    assert!(HwmCoreTemp::from_dir(&Vec::new()).groups().is_empty());
}

#[test]
fn monitor_directory_names() {
    assert_eq!(HwmonDir::hwmon_id_of("hwmon0"), Some(0));
    assert_eq!(HwmonDir::hwmon_id_of("hwmon12"), Some(12));
    assert_eq!(HwmonDir::hwmon_id_of("hwmon"), None);
    assert_eq!(HwmonDir::hwmon_id_of("hwmon+1"), None);
    assert_eq!(HwmonDir::hwmon_id_of("hwmonx"), None);
    assert_eq!(HwmonDir::hwmon_id_of("thermal0"), None);
}

#[test]
fn core_temperature_monitor_names() {
    assert!(HwmonDir::is_core_temp("coretemp\n"));
    assert!(HwmonDir::is_core_temp("  coretemp "));
    assert!(!HwmonDir::is_core_temp("acpitz\n"));
    assert!(!HwmonDir::is_core_temp("core temp"));
    assert!(!HwmonDir::is_core_temp(""));
}
