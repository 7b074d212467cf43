//! Sensors, as the kernel exposes them.
use macfand::binary64::Binary64;
use macfand::sysfs::{
    find_platform_device, hwmon_children, label_input, read_i64, read_temp, read_u32,
    sensor_dirs, DiscoverError, Entry, Listing, ReadError, Source, Temps,
};

fn f(x: Binary64) -> f64 {
    f64::from_bits(x.to_bits())
}

fn text(s: &str) -> Result<String, String> {
    Ok(s.to_string())
}

fn list(names: &[&str]) -> Vec<String> {
    names.iter().map(|n| n.to_string()).collect()
}

fn entry(name: &str, label: &str) -> Entry {
    Entry { name: name.to_string(), input_exists: true, text: Some(label.to_string()) }
}

#[test]
fn drivers_have_the_names_of_their_modules() {
    assert_eq!(Source::Applesmc.as_str(), "applesmc");
    assert_eq!(Source::Coretemp.as_str(), "coretemp");
    assert!(Source::Applesmc < Source::Coretemp);
}

#[test]
fn numbers_are_read_as_the_kernel_writes_them() {
    assert!(matches!(read_i64(&text("69000\n")), Ok(69000)));
    assert!(matches!(read_i64(&text("  -5 \t")), Ok(-5)));
    assert!(matches!(read_i64(&text("+7")), Ok(7)));
    assert!(matches!(read_i64(&text("9223372036854775807")), Ok(i64::MAX)));
    assert!(matches!(read_i64(&text("-9223372036854775808")), Ok(i64::MIN)));
    assert!(matches!(read_i64(&text("\u{3000}12\u{a0}")), Ok(12)));
    for bad in ["", " ", "-", "+", "1 2", "0x10", "9223372036854775808", "1.5", "--1", "٣"] {
        match read_i64(&text(bad)) {
            Err(ReadError::NotANumber(raw)) => assert_eq!(raw, bad),
            other => panic!("{bad:?} gave {other:?}"),
        }
        assert!(bad.trim().parse::<i64>().is_err());
    }
    assert!(matches!(read_i64(&Err("gone".to_string())), Err(ReadError::Unreadable(e)) if e == "gone"));
}

#[test]
fn a_speed_is_not_negative() {
    assert!(matches!(read_u32(&text("2000\n")), Ok(2000)));
    assert!(matches!(read_u32(&text("4294967295")), Ok(u32::MAX)));
    assert!(matches!(read_u32(&text("-1")), Err(ReadError::OutOfRange(-1))));
    assert!(matches!(read_u32(&text("4294967296")), Err(ReadError::OutOfRange(4294967296))));
    assert!(matches!(read_u32(&text("fast")), Err(ReadError::NotANumber(_))));
}

#[test]
fn temperatures_are_in_millidegrees() {
    for n in [69000i64, 52750, 1500, 0, -40000, 125_001, 999_999_999_999] {
        let t = read_temp(&text(&format!("{n}\n"))).unwrap();
        assert_eq!(f(t), n as f64 / 1000.0);
    }
    assert!(matches!(read_temp(&text("x")), Err(ReadError::NotANumber(_))));
}

#[test]
fn the_first_device_of_a_driver_is_taken() {
    let names = list(&["coretemp.1", "applesmc.768", "coretemp.0", "coretempx", "serial8250"]);
    assert_eq!(
        find_platform_device("coretemp", &names).as_deref(),
        Some("/sys/devices/platform/coretemp.0")
    );
    assert_eq!(
        find_platform_device("applesmc", &names).as_deref(),
        Some("/sys/devices/platform/applesmc.768")
    );
    assert_eq!(find_platform_device("nct6775", &names), None);
    assert_eq!(
        find_platform_device("applesmc", &list(&["applesmc.1", "applesmc"])).as_deref(),
        Some("/sys/devices/platform/applesmc")
    );
    assert_eq!(find_platform_device("applesmc", &list(&[])), None);
}

#[test]
fn the_directories_below_a_device_are_in_order() {
    assert_eq!(
        hwmon_children("/d", &Some(list(&["hwmon2", "hwmon10", "hwmon1"]))),
        list(&["/d/hwmon/hwmon1", "/d/hwmon/hwmon10", "/d/hwmon/hwmon2"])
    );
    assert!(hwmon_children("/d", &None).is_empty());
    assert_eq!(
        sensor_dirs("/d", &Some(list(&["hwmon2", "hwmon1"]))),
        list(&["/d", "/d/hwmon/hwmon1", "/d/hwmon/hwmon2"])
    );
    assert_eq!(sensor_dirs("/d", &None), list(&["/d"]));
}

#[test]
fn a_label_file_names_the_file_it_labels() {
    assert_eq!(label_input("temp18_label").as_deref(), Some("temp18_input"));
    assert_eq!(label_input("temp_label").as_deref(), Some("temp_input"));
    assert_eq!(label_input("temp18_input"), None);
    assert_eq!(label_input("fan1_label"), None);
    assert_eq!(label_input("tem_label"), None);
}

fn discovered(listings: Vec<Listing>) -> Result<Temps, DiscoverError> {
    let names = Ok(list(&["applesmc.768"]));
    Temps::discover(Source::Applesmc, &names, &listings)
}

#[test]
fn sensors_are_found_by_their_trimmed_labels() {
    let temps = discovered(vec![
        Listing {
            dir: "/a".to_string(),
            entries: vec![
                entry("temp2_label", "TPCD  \n"),
                entry("temp1_label", "TC0P"),
                entry("fan1_label", "Exhaust"),
                Entry { name: "temp3_label".to_string(), input_exists: false, text: Some("gone".to_string()) },
                Entry { name: "temp4_label".to_string(), input_exists: true, text: None },
                entry("temp5_label", " \n"),
            ],
        },
        Listing { dir: "/a/hwmon/hwmon3".to_string(), entries: vec![entry("temp1_label", "TA0P")] },
    ])
    .unwrap();
    assert_eq!(temps.dir, "/sys/devices/platform/applesmc.768");
    assert_eq!(temps.path("TPCD"), Some("/a/temp2_input"));
    assert_eq!(temps.path("TC0P"), Some("/a/temp1_input"));
    assert_eq!(temps.path("TA0P"), Some("/a/hwmon/hwmon3/temp1_input"));
    assert_eq!(temps.path("gone"), None);
    assert_eq!(temps.path(""), None);
    let labels: Vec<&str> = temps.labels().iter().map(|(l, _)| l.as_str()).collect();
    assert_eq!(labels, vec!["TA0P", "TC0P", "TPCD"]);
}

#[test]
fn the_last_of_two_sensors_with_one_label_counts() {
    let temps = discovered(vec![
        Listing {
            dir: "/a".to_string(),
            entries: vec![entry("temp1_label", "X"), entry("temp2_label", "X "), entry("temp3_label", "Y")],
        },
        Listing { dir: "/b".to_string(), entries: vec![entry("temp9_label", "Y")] },
    ])
    .unwrap();
    assert_eq!(temps.path("X"), Some("/a/temp2_input"));
    assert_eq!(temps.path("Y"), Some("/b/temp9_input"));
    assert_eq!(temps.labels().len(), 2);
}

#[test]
fn a_driver_without_sensors_is_an_error() {
    match discovered(vec![Listing { dir: "/a".to_string(), entries: vec![entry("temp1_input", "X")] }]) {
        Err(DiscoverError::NoLabels(dir)) => assert_eq!(dir, "/sys/devices/platform/applesmc.768"),
        _ => panic!("no sensor was labelled"),
    }
    let none = Temps::discover(Source::Coretemp, &Ok(list(&["applesmc.768"])), &vec![]);
    assert!(matches!(none, Err(DiscoverError::NoDevice)));
    let unlisted = Temps::discover(Source::Coretemp, &Err("denied".to_string()), &vec![]);
    assert!(matches!(unlisted, Err(DiscoverError::Unlisted(e)) if e == "denied"));
}
