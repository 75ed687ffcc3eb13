use groot::assets::{
    load_asset, load_asset_bytes, load_asset_str, lookup_candidates, normalize_asset_path,
    prepare_script_path, trim_asset_path, AssetLoader, EmbeddedAssets, ScriptLocation,
};

fn table() -> EmbeddedAssets {
    let mut a = EmbeddedAssets::new();
    a.insert("config.ron".to_string(), b"(project: ())".to_vec());
    a.insert("scripts/bird.gos".to_string(), b"func OnUpdate(dt float64) {}".to_vec());
    a.insert("textures/bad.bin".to_string(), vec![0xff, 0xfe, 0x00]);
    a
}

#[test]
fn normalize_strips_slashes_and_asset_dir() {
    assert_eq!(normalize_asset_path("assets/config.ron"), "config.ron");
    assert_eq!(normalize_asset_path("/assets/config.ron"), "config.ron");
    assert_eq!(normalize_asset_path("\\\\assets\\scripts\\bird.gos"), "scripts/bird.gos");
    assert_eq!(normalize_asset_path("config.ron"), "config.ron");
    assert_eq!(normalize_asset_path("assets/assets/x"), "assets/x");
    assert_eq!(normalize_asset_path("assetsx/y"), "assetsx/y");
    assert_eq!(normalize_asset_path(""), "");
    assert_eq!(trim_asset_path("//a\\b"), "a/b");
}

#[test]
fn candidates_are_relative_trimmed_and_given() {
    let c = lookup_candidates("/assets\\config.ron");
    assert_eq!(c, vec!["config.ron".to_string(), "assets/config.ron".to_string(), "/assets\\config.ron".to_string()]);
}

#[test]
fn embedded_table_replaces_by_name() {
    let mut a = table();
    assert_eq!(a.get("config.ron"), Some(b"(project: ())".to_vec()));
    a.insert("config.ron".to_string(), b"()".to_vec());
    assert_eq!(a.get("config.ron"), Some(b"()".to_vec()));
    assert_eq!(a.get("missing"), None);
}

#[test]
fn text_prefers_disk_only_when_hot_reloading() {
    let a = table();
    let disk = Some("(from disk)".to_string());
    assert_eq!(load_asset_str(&a, "assets/config.ron", true, disk.clone()), disk);
    assert_eq!(load_asset_str(&a, "assets/config.ron", false, disk.clone()), Some("(project: ())".to_string()));
    assert_eq!(load_asset_str(&a, "assets/missing.ron", false, disk.clone()), disk);
    assert_eq!(load_asset_str(&a, "assets/missing.ron", true, None), None);
    assert_eq!(load_asset(&a, "/assets/config.ron", true, None), Some("(project: ())".to_string()));
}

#[test]
fn invalid_utf8_falls_through_to_disk() {
    let a = table();
    assert_eq!(load_asset_str(&a, "assets/textures/bad.bin", false, None), None);
    assert_eq!(load_asset_bytes(&a, "assets/textures/bad.bin", false, None), Some(vec![0xff, 0xfe, 0x00]));
    assert_eq!(a.load_text("assets/textures/bad.bin"), None);
    assert_eq!(a.load_text("config.ron"), Some("(project: ())".to_string()));
}

#[test]
fn script_paths_extract_embedded_copies() {
    let a = table();
    match prepare_script_path(&a, "assets/scripts/bird.gos", true) {
        ScriptLocation::AsGiven(p) => assert_eq!(p, "assets/scripts/bird.gos"),
        _ => panic!("path on disk is used as given"),
    }
    match prepare_script_path(&a, "assets/scripts/bird.gos", false) {
        ScriptLocation::Extract { relative, data } => {
            assert_eq!(relative, "scripts/bird.gos");
            assert_eq!(data, b"func OnUpdate(dt float64) {}".to_vec());
        }
        _ => panic!("embedded script is extracted"),
    }
    match prepare_script_path(&a, "assets/scripts/none.gos", false) {
        ScriptLocation::AsGiven(p) => assert_eq!(p, "assets/scripts/none.gos"),
        _ => panic!("unknown script is used as given"),
    }
}
