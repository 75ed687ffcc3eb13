use groot::plugins::{add_plugin_dependency, remove_plugin_dependency, PluginAdd};

const MANIFEST: &str = "[package]\nname = \"g\"\n\n[dependencies]\ngroot = { git = \"x\" }\n\n[profile.dev]\nopt-level = 1\n";

#[test]
fn add_goes_before_profile_section() {
    match add_plugin_dependency(MANIFEST, "audio") {
        PluginAdd::Added(t) => assert_eq!(
            t,
            "[package]\nname = \"g\"\n\n[dependencies]\ngroot = { git = \"x\" }\n\ngroot-plugin-audio = { path = \"../groot-plugin-audio\" }\n\n[profile.dev]\nopt-level = 1\n"
        ),
        PluginAdd::AlreadyInstalled => panic!("not installed yet"),
    }
}

#[test]
fn add_appends_without_profile_section() {
    match add_plugin_dependency("[package]\n", "gizmos") {
        PluginAdd::Added(t) => assert_eq!(t, "[package]\n\ngroot-plugin-gizmos = { path = \"../groot-plugin-gizmos\" }\n"),
        PluginAdd::AlreadyInstalled => panic!("not installed yet"),
    }
}

#[test]
fn add_twice_reports_installed() {
    let once = match add_plugin_dependency(MANIFEST, "audio") {
        PluginAdd::Added(t) => t,
        PluginAdd::AlreadyInstalled => panic!("not installed yet"),
    };
    assert!(matches!(add_plugin_dependency(&once, "audio"), PluginAdd::AlreadyInstalled));
}

#[test]
fn remove_drops_mentioning_lines() {
    let once = match add_plugin_dependency(MANIFEST, "audio") {
        PluginAdd::Added(t) => t,
        PluginAdd::AlreadyInstalled => panic!("not installed yet"),
    };
    let removed = remove_plugin_dependency(&once, "audio");
    assert!(!removed.contains("groot-plugin-audio"));
    assert_eq!(removed, "[package]\nname = \"g\"\n\n[dependencies]\ngroot = { git = \"x\" }\n\n\n[profile.dev]\nopt-level = 1");
    assert_eq!(remove_plugin_dependency("a\r\nb\n", "x"), "a\nb");
    assert_eq!(remove_plugin_dependency("", "x"), "");
}
