use groot::scaffold::scaffold_project;

#[test]
fn new_project_layout() {
    assert!(scaffold_project("bad name").is_none());
    assert!(scaffold_project("").is_none());
    let p = scaffold_project("my-game").unwrap();
    assert_eq!(p.dirs, vec!["src", "assets/prefabs", "assets/scenes", "assets/scripts"]);
    let paths: Vec<&str> = p.files.iter().map(|f| f.0.as_str()).collect();
    assert_eq!(
        paths,
        vec![
            "Cargo.toml",
            "src/main.rs",
            "assets/config.ron",
            "assets/prefabs/player.prefab.ron",
            "assets/scenes/main.scene.ron",
            "assets/scripts/player.gos",
            ".gitignore",
            "README.md",
        ]
    );
    assert!(p.files[0].1.starts_with("[package]\nname = \"my-game\"\n"));
    assert!(p.files[0].1.contains("groot = { git = \"https://github.com/JohnEsleyer/groot\" }"));
    assert!(p.files[2].1.contains("name: \"my-game\""));
    assert!(p.files[2].1.contains("title: \"my-game\""));
    assert!(p.files[2].1.contains("initial_scene: \"assets/scenes/main.scene.ron\""));
    assert_eq!(p.files[1].1, "fn main() {\n    groot::run_game(\"assets/config.ron\");\n}\n");
    assert!(p.files[7].1.starts_with("# my-game\n\n"));
}
