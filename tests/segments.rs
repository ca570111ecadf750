use pcoretempf::args::parse_args;
use pcoretempf::segments::{format_temp, process_segments, FormatSettings};
use pcoretempf::temps::{CoreSensor, CoreTemp, SensorError};
use pcoretempf::unit::Unit;

fn sensor(label: &str, input: &str, crit: &str, alarm: &str) -> CoreSensor {
    CoreSensor::from_contents(
        0,
        label,
        Some(input.to_string()),
        Some("100000".to_string()),
        Some(crit.to_string()),
        Some(alarm.to_string()),
    )
    .unwrap()
}

fn two_cores() -> CoreTemp {
    CoreTemp::new(vec![
        sensor("Package id 0", "55000", "100000", "0"),
        sensor("Core 0", "53320", "100000", "0"),
        sensor("Core 1", "54320", "98000", "1"),
    ])
}

fn run(ct: &CoreTemp, args: &[&str]) -> Result<String, SensorError> {
    let mut v = vec!["prog".to_string()];
    v.extend(args.iter().map(|s| s.to_string()));
    process_segments(ct, parse_args(v))
}

#[test]
fn two_cores_with_literal_text() {
    let out = run(&two_cores(), &["-s", "Core 1: ", "-t", "0", "-s", " | Core 2: ", "-t", "1"]);
    assert_eq!(out, Ok("Core 1: 53.32 | Core 2: 54.32".to_string()));
}

#[test]
fn glyph_follows_the_use_glyph_setting() {
    let ct = two_cores();
    assert_eq!(run(&ct, &["-ug", "yes", "-t", "0"]), Ok("53.32°C".to_string()));
    assert_eq!(run(&ct, &["-ug", "yes", "-ug", "no", "-t", "0"]), Ok("53.32".to_string()));
    assert_eq!(run(&ct, &["-t", "0", "-ug", "on"]), Ok("53.32".to_string()));
}

#[test]
fn unknown_keys_write_nothing() {
    let ct = two_cores();
    assert_eq!(run(&ct, &["-s", "a", "-zz", "q", "-s", "b"]), Ok("ab".to_string()));
    assert_eq!(run(&ct, &["-zz"]), Ok(String::new()));
}

#[test]
fn all_cores_in_ascending_order() {
    let ct = CoreTemp::new(vec![
        sensor("Core 2", "52000", "100000", "0"),
        sensor("Core 0", "50000", "100000", "0"),
        sensor("Core 1", "51000", "100000", "0"),
    ]);
    assert_eq!(run(&ct, &["-t", "all"]), Ok("50.00, 51.00, 52.00".to_string()));
    assert_eq!(run(&ct, &["--temp", "*"]), Ok("50.00, 51.00, 52.00".to_string()));
}

#[test]
fn segments_without_values_still_run() {
    let ct = two_cores();
    assert_eq!(run(&ct, &["-cc", "-s", "x", "-cr"]), Ok("2x\n".to_string()));
    assert_eq!(run(&ct, &["-g", "-t"]), Ok("°C".to_string()));
}

#[test]
fn statistics_and_package() {
    let ct = two_cores();
    assert_eq!(run(&ct, &["-av", "-s", " ", "-md", "-s", " ", "-tm", "-s", " ", "-tx", "-s", " ", "-tp"]),
        Ok("53.82 53.82 53.32 54.32 55.00".to_string()));
    let none = CoreTemp::new(vec![sensor("Core 0", "x", "1", "0")]);
    assert_eq!(run(&none, &["-s", "a", "-av"]), Err(SensorError::EmptySet));
    assert_eq!(run(&none, &["-tp"]), Err(SensorError::NotFound));
}

#[test]
fn units_convert_and_glyph_is_the_base_unit() {
    let ct = two_cores();
    assert_eq!(run(&ct, &["-tu", "F", "-t", "0"]), Ok("127.98".to_string()));
    assert_eq!(run(&ct, &["-tu", "kelvin", "-t", "0"]), Ok("326.47".to_string()));
    assert_eq!(run(&ct, &["-tu", "nonsense", "-t", "0"]), Ok("53.32".to_string()));
    assert_eq!(run(&ct, &["-bu", "K", "-g"]), Ok("°K".to_string()));
    assert_eq!(run(&ct, &["-bu", "K", "-tu", "C", "-t", "0"]), Ok("-219.83".to_string()));
}

#[test]
fn critical_and_alarm_segments() {
    let ct = two_cores();
    assert_eq!(run(&ct, &["-cC", "0", "1", "9"]), Ok("100.00, 98.00, N/A".to_string()));
    assert_eq!(run(&ct, &["-ca", "1", "0", "x", "7"]), Ok("Core 1: true, Core 2: false, Core 3: N/A".to_string()));
    assert_eq!(run(&ct, &["-t", "0", "5"]), Ok("53.32, N/A".to_string()));
}

#[test]
fn temperatures_are_written_with_two_decimals() {
    let f = FormatSettings { include_glyph: false, base_unit: Unit::Celcius, target_unit: None };
    assert_eq!(format_temp(None, &f), "N/A");
    assert_eq!(format_temp(Some(0), &f), "0.00");
    assert_eq!(format_temp(Some(5), &f), "0.01");
    assert_eq!(format_temp(Some(4), &f), "0.00");
    assert_eq!(format_temp(Some(123456), &f), "123.46");
    let g = FormatSettings { include_glyph: true, base_unit: Unit::Fahrenheit, target_unit: Some(Unit::Celcius) };
    assert_eq!(format_temp(Some(32000), &g), "0.00°F");
    assert_eq!(format_temp(Some(0), &g), "-17.78°F");
}
