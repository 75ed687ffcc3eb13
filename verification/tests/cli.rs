use groot::cli::{
    build_plan, choose_from_prompt, is_valid_project_name, parse_adb_devices, parse_command,
    parse_device_arg, parse_target, parse_usize, run_plan, select_adb_device, str_eq_ignore_ascii_case,
    AdbDevice, CliCommand, DeviceChoice, PromptChoice,
};

fn args(list: &[&str]) -> Vec<String> {
    list.iter().map(|s| s.to_string()).collect()
}

#[test]
fn commands_are_read_from_the_first_argument() {
    assert!(matches!(parse_command(&args(&["groot"])), CliCommand::Help));
    assert!(matches!(parse_command(&args(&["groot", "new", "x"])), CliCommand::New));
    assert!(matches!(parse_command(&args(&["groot", "run"])), CliCommand::Run));
    assert!(matches!(parse_command(&args(&["groot", "build"])), CliCommand::Build));
    assert!(matches!(parse_command(&args(&["groot", "plugin"])), CliCommand::Plugin));
    assert!(matches!(parse_command(&args(&["groot", "info"])), CliCommand::Info));
    assert!(matches!(parse_command(&args(&["groot", "-h"])), CliCommand::Help));
    assert!(matches!(parse_command(&args(&["groot", "--version"])), CliCommand::Version));
    match parse_command(&args(&["groot", "deploy"])) {
        CliCommand::Unknown(s) => assert_eq!(s, "deploy"),
        _ => panic!("unknown command"),
    }
}

#[test]
fn target_defaults_to_desktop() {
    assert_eq!(parse_target(&args(&[])), "desktop");
    assert_eq!(parse_target(&args(&["--target", "android"])), "android");
    assert_eq!(parse_target(&args(&["--target"])), "desktop");
    assert_eq!(parse_target(&args(&["x", "--target", "web", "--target", "android"])), "web");
}

#[test]
fn device_flag_has_two_spellings() {
    assert_eq!(parse_device_arg(&args(&["--device", "2"])), Some("2".to_string()));
    assert_eq!(parse_device_arg(&args(&["-d", "emulator-5554"])), Some("emulator-5554".to_string()));
    assert_eq!(parse_device_arg(&args(&["--target", "android", "-d"])), None);
}

#[test]
fn project_names() {
    assert!(is_valid_project_name("my-game_2.0"));
    assert!(!is_valid_project_name(""));
    assert!(!is_valid_project_name("my game"));
    assert!(!is_valid_project_name("jeu-é"));
}

#[test]
fn numbers_parse_like_std() {
    assert_eq!(parse_usize("42"), Some(42));
    assert_eq!(parse_usize("+7"), Some(7));
    assert_eq!(parse_usize("007"), Some(7));
    assert_eq!(parse_usize(""), None);
    assert_eq!(parse_usize("+"), None);
    assert_eq!(parse_usize("-1"), None);
    assert_eq!(parse_usize("1 "), None);
    assert_eq!(parse_usize("18446744073709551615"), "18446744073709551615".parse::<usize>().ok());
    assert_eq!(parse_usize("99999999999999999999999"), None);
}

#[test]
fn cargo_plans() {
    let p = run_plan("android", Some("abc".to_string())).unwrap();
    assert_eq!(p.args, args(&["apk", "run", "--lib", "--target", "aarch64-linux-android", "--device", "abc"]));
    let p = run_plan("android", None).unwrap();
    assert_eq!(p.args, args(&["apk", "run", "--lib", "--target", "aarch64-linux-android"]));
    let p = run_plan("desktop", Some("abc".to_string())).unwrap();
    assert_eq!(p.args, args(&["run"]));
    assert!(run_plan("web", None).is_none());
    assert_eq!(build_plan("android").unwrap().args, args(&["apk", "build", "--lib", "--target", "aarch64-linux-android", "--release"]));
    assert_eq!(build_plan("desktop").unwrap().args, args(&["build", "--release"]));
    assert!(build_plan("ios").is_none());
}

const ADB: &str = "List of devices attached\r\nemulator-5554   device product:sdk model:Pixel_7 transport_id:1\r\nR58M12345  unauthorized usb:1-1\n0123abcd device usb:2 model:\n\n  ZY22 device model:a model:Moto_G  \n";

#[test]
fn adb_output_lists_online_devices() {
    let d = parse_adb_devices(ADB);
    let got: Vec<(String, String)> = d.iter().map(|x| (x.serial.clone(), x.model.clone())).collect();
    assert_eq!(
        got,
        vec![
            ("emulator-5554".to_string(), "Pixel_7".to_string()),
            ("0123abcd".to_string(), "0123abcd".to_string()),
            ("ZY22".to_string(), "Moto_G".to_string()),
        ]
    );
    assert!(parse_adb_devices("").is_empty());
    assert!(parse_adb_devices("List of devices attached\n").is_empty());
}

fn devices() -> Vec<AdbDevice> {
    vec![
        AdbDevice { serial: "emulator-5554".to_string(), model: "Pixel_7".to_string() },
        AdbDevice { serial: "ZY22".to_string(), model: "Moto_G".to_string() },
    ]
}

#[test]
fn device_selection_order() {
    assert!(matches!(select_adb_device(&vec![], &args(&["-d", "1"])), DeviceChoice::NoDevices));
    assert!(matches!(select_adb_device(&devices(), &args(&["-d", "2"])), DeviceChoice::ByIndex(1)));
    assert!(matches!(select_adb_device(&devices(), &args(&["-d", "pixel_7"])), DeviceChoice::ByName(0)));
    assert!(matches!(select_adb_device(&devices(), &args(&["--device", "zy22"])), DeviceChoice::ByName(1)));
    match select_adb_device(&devices(), &args(&["-d", "3"])) {
        DeviceChoice::AsGiven(s) => assert_eq!(s, "3"),
        _ => panic!("out-of-range number is used as a serial"),
    }
    assert!(matches!(select_adb_device(&devices()[..1].to_vec(), &args(&[])), DeviceChoice::OnlyDevice));
    assert!(matches!(select_adb_device(&devices(), &args(&[])), DeviceChoice::Prompt));
}

#[test]
fn prompt_answers() {
    assert!(matches!(choose_from_prompt(2, Some("  \n")), PromptChoice::Default));
    assert!(matches!(choose_from_prompt(2, Some(" 2\n")), PromptChoice::Selected(1)));
    assert!(matches!(choose_from_prompt(2, Some("3\n")), PromptChoice::Fallback));
    assert!(matches!(choose_from_prompt(2, Some("x")), PromptChoice::Fallback));
    assert!(matches!(choose_from_prompt(2, None), PromptChoice::Fallback));
}

#[test]
fn ascii_case_folding() {
    assert!(str_eq_ignore_ascii_case("Pixel_7", "pIXEL_7"));
    assert!(!str_eq_ignore_ascii_case("É", "é"));
    assert!(!str_eq_ignore_ascii_case("ab", "abc"));
}
