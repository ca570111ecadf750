use pcoretempf::temps::{parse_reading, CoreSensor, CoreTemp, Identifier, SensorError};

fn some(s: &str) -> Option<String> {
    Some(s.to_string())
}

fn core_sensor(n: u64, input: Option<String>) -> CoreSensor {
    CoreSensor::from_contents(n + 2, &format!("Core {}\n", n), input, some("100000"), some("100000"), some("0"))
        .unwrap()
}

fn aggregate(readings: &[(u64, &str)]) -> CoreTemp {
    let mut sensors = vec![CoreSensor::from_contents(1, "Package id 0\n", some("60000\n"), None, None, None).unwrap()];
    for (n, v) in readings.iter() {
        sensors.push(core_sensor(*n, some(v)));
    }
    CoreTemp::new(sensors)
}

#[test]
fn labels_name_cores_and_the_package() {
    assert_eq!(Identifier::from_label("Core 3\n"), Some(Identifier::Core(3)));
    assert_eq!(Identifier::from_label("  CORE 12 "), Some(Identifier::Core(12)));
    assert_eq!(Identifier::from_label("Package id 0"), Some(Identifier::Package));
    assert_eq!(Identifier::from_label("PACKAGE"), Some(Identifier::Package));
    assert_eq!(Identifier::from_label("Core"), None);
    assert_eq!(Identifier::from_label("Physical id 0"), None);
    assert_eq!(Identifier::from_lowered("core 1 2"), Some(Identifier::Core(12)));
}

#[test]
fn readings_are_parsed_after_trimming() {
    assert_eq!(parse_reading(&some("53320\n")), Ok(53320));
    assert_eq!(parse_reading(&some("  42 ")), Ok(42));
    assert_eq!(parse_reading(&some("hot")), Err(SensorError::Parse));
    assert_eq!(parse_reading(&some("")), Err(SensorError::Parse));
    assert_eq!(parse_reading(&None), Err(SensorError::Io));
}

#[test]
fn cores_are_ordered_and_first_of_a_number_wins() {
    let ct = CoreTemp::new(vec![core_sensor(2, some("3000")), core_sensor(0, some("1000")), core_sensor(2, some("9000")), core_sensor(1, some("2000"))]);
    assert_eq!(ct.get_cores(), vec![0, 1, 2]);
    assert_eq!(ct.get_count(), 3);
    assert_eq!(ct.get_temp(2), Ok(3000));
    assert_eq!(ct.get_temp(7), Err(SensorError::NotFound));
    assert_eq!(ct.get_package(), Err(SensorError::NotFound));
}

#[test]
fn per_core_accessors() {
    let ct = aggregate(&[(0, "53320"), (1, "54320")]);
    assert_eq!(ct.get_package(), Ok(60000));
    assert_eq!(ct.get_temp(1), Ok(54320));
    assert_eq!(ct.get_critical(0), Ok(100000));
    assert_eq!(ct.read_max(0), Ok(100000));
    assert_eq!(ct.get_critical_alarm(1), Ok(0));
    assert_eq!(ct.get_critical(5), Err(SensorError::NotFound));
    assert_eq!(ct.get_temps_for(&vec![1, 0]), Ok(vec![54320, 53320]));
    assert_eq!(ct.get_temps_for(&vec![0, 4]), Err(SensorError::NotFound));
}

#[test]
fn read_all_leaves_out_an_unreadable_core() {
    let ct = CoreTemp::new(vec![core_sensor(0, some("50000")), core_sensor(1, None), core_sensor(2, some("52000")), core_sensor(3, some("x"))]);
    assert_eq!(ct.read_all(), vec![(0, 50000), (2, 52000)]);
    assert_eq!(ct.get_temp(1), Err(SensorError::Io));
    assert_eq!(ct.get_temp(3), Err(SensorError::Parse));
}

#[test]
fn median_of_odd_and_even_counts() {
    assert_eq!(aggregate(&[(0, "10"), (1, "20"), (2, "30")]).get_median(), Ok(20));
    assert_eq!(aggregate(&[(0, "10"), (1, "20"), (2, "30"), (3, "40")]).get_median(), Ok(25));
    assert_eq!(aggregate(&[(0, "30"), (1, "10"), (2, "40"), (3, "20")]).get_median(), Ok(25));
}

#[test]
fn average_minimum_and_maximum() {
    let ct = aggregate(&[(0, "53000"), (1, "51000"), (2, "58000"), (3, "51000")]);
    assert_eq!(ct.get_average(), Ok(53250));
    assert_eq!(ct.get_min(), Ok((1, 51000)));
    assert_eq!(ct.get_max(), Ok((2, 58000)));
}

#[test]
fn statistics_of_no_readings_fail() {
    let ct = CoreTemp::new(vec![core_sensor(0, None)]);
    assert_eq!(ct.get_average(), Err(SensorError::EmptySet));
    assert_eq!(ct.get_median(), Err(SensorError::EmptySet));
    assert_eq!(ct.get_min(), Err(SensorError::EmptySet));
    assert_eq!(ct.get_max(), Err(SensorError::EmptySet));
}
