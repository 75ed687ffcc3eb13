//! The files and directories `groot new <name>` creates.
use vstd::prelude::*;

use crate::cli::{is_valid_project_name, valid_project_name};
use crate::text::{copy_str, push_str};

verus! {

/// The scaffolded `src/main.rs`.
pub const MAIN_RS: &'static str = "fn main() {\n    groot::run_game(\"assets/config.ron\");\n}\n";

/// The scaffolded player prefab.
pub const PLAYER_PREFAB: &'static str = "(\n    name: \"player\",\n    script: Some(\"assets/scripts/player.gos\"),\n    transform: (\n        position: (0.0, 1.0, 0.0),\n        rotation: (0.0, 0.0, 0.0),\n        scale: (1.0, 1.0, 1.0),\n    ),\n    visual: Some(MeshPbr(\n        shape: Cuboid(x: 1.0, y: 1.0, z: 1.0),\n        material: (\n            color: Rgba(0.2, 0.8, 0.3, 1.0),\n            roughness: 0.5,\n            metallic: 0.0,\n        ),\n    )),\n    collider: Some(Box3D(x: 1.0, y: 1.0, z: 1.0)),\n    children: [],\n)\n";

/// The scaffolded main scene.
pub const MAIN_SCENE: &'static str = "(\n    name: \"Main Scene\",\n    environment: (\n        ambient_light: Some((\n            color: Rgba(1.0, 1.0, 1.0, 1.0),\n            brightness: 0.3,\n        )),\n        camera: Some(Perspective3D(\n            fov: 60.0,\n            position: (0.0, 5.0, 10.0),\n            look_at: (0.0, 0.0, 0.0),\n        )),\n    ),\n    entities: [\n        (\n            prefab: \"assets/prefabs/player.prefab.ron\",\n            entity_id: Some(1),\n            tag: \"Player\",\n            transform_override: None,\n        ),\n    ],\n)\n";

/// The scaffolded player script.
pub const PLAYER_SCRIPT: &'static str = "type Player struct { Speed float64 }\nvar self = Player{Speed: 5.0}\n\nfunc OnUpdate(dt float64) {\n    var pos = groot.GetSelfPosition()\n    var moveX = groot.GetAxis(\"Horizontal\")\n    var moveZ = -groot.GetAxis(\"Vertical\")\n    groot.SetSelfPosition(pos[0] + moveX*self.Speed*dt, pos[1], pos[2] + moveZ*self.Speed*dt)\n\n    groot.SetSelfCollider(1.0, 1.0, 1.0)\n    groot.Log(\"Hello from Groot 3D GoScript!\")\n}\n";

/// The scaffolded `.gitignore`.
pub const GITIGNORE: &'static str = "# Build artifacts\n/target\n\n# OS files\n.DS_Store\nThumbs.db\n\n# Editor files\n*.swp\n*.swo\n*~\n.idea/\n.vscode/\n\n# Environment files\n.env\n";

/// The scaffolded `Cargo.toml` up to the project name.
pub const CARGO_TOML_HEAD: &'static str = "[package]\nname = \"";

/// The scaffolded `Cargo.toml` after the project name.
pub const CARGO_TOML_TAIL: &'static str = "\"\nversion = \"0.1.0\"\nedition = \"2021\"\n\n[dependencies]\ngroot = { git = \"https://github.com/JohnEsleyer/groot\" }\n\n[profile.dev]\nopt-level = 1\n";

/// The scaffolded `assets/config.ron` up to the project name.
pub const CONFIG_HEAD: &'static str = "(\n    project: (\n        name: \"";

/// The scaffolded `assets/config.ron` between the project name and the window title.
pub const CONFIG_MIDDLE: &'static str = "\",\n        version: \"0.1.0\",\n    ),\n    window: (\n        title: \"";

/// The scaffolded `assets/config.ron` after the window title.
pub const CONFIG_TAIL: &'static str = "\",\n        width: 1280.0,\n        height: 720.0,\n    ),\n    render: (\n        clear_color: Rgba(0.1, 0.1, 0.15, 1.0),\n    ),\n    initial_scene: \"assets/scenes/main.scene.ron\",\n)\n";

/// The scaffolded `README.md` before the project name.
pub const README_HEAD: &'static str = "# ";

/// The scaffolded `README.md` after the project name.
pub const README_TAIL: &'static str = "\n\nA Groot game project. RON prefabs live in `assets/prefabs/`, scenes in `assets/scenes/`, and GoScript in `assets/scripts/`.\n\n- `groot run` to run\n- `groot build` to build a release bundle\n";

/// A new project: the directories to create and the files to write, with
/// paths relative to the project directory.
pub struct ProjectScaffold {
    pub dirs: Vec<String>,
    pub files: Vec<(String, String)>,
}

/// The scaffolded `Cargo.toml` of project `name`.
pub open spec fn cargo_toml_text(name: Seq<char>) -> Seq<char> {
    CARGO_TOML_HEAD@ + name + CARGO_TOML_TAIL@
}

/// The scaffolded `assets/config.ron` of project `name`, which names the
/// project and titles its window after it.
pub open spec fn config_text(name: Seq<char>) -> Seq<char> {
    CONFIG_HEAD@ + name + CONFIG_MIDDLE@ + name + CONFIG_TAIL@
}

/// The scaffolded `README.md` of project `name`.
pub open spec fn readme_text(name: Seq<char>) -> Seq<char> {
    README_HEAD@ + name + README_TAIL@
}

/// The directories of a new project.
pub open spec fn scaffold_dirs() -> Seq<Seq<char>> {
    seq!["src"@, "assets/prefabs"@, "assets/scenes"@, "assets/scripts"@]
}

/// The files of new project `name`, as (path, contents), in writing order.
pub open spec fn scaffold_files(name: Seq<char>) -> Seq<(Seq<char>, Seq<char>)> {
    seq![
        ("Cargo.toml"@, cargo_toml_text(name)),
        ("src/main.rs"@, MAIN_RS@),
        ("assets/config.ron"@, config_text(name)),
        ("assets/prefabs/player.prefab.ron"@, PLAYER_PREFAB@),
        ("assets/scenes/main.scene.ron"@, MAIN_SCENE@),
        ("assets/scripts/player.gos"@, PLAYER_SCRIPT@),
        (".gitignore"@, GITIGNORE@),
        ("README.md"@, readme_text(name)),
    ]
}

pub open spec fn file_view(f: (String, String)) -> (Seq<char>, Seq<char>) {
    (f.0@, f.1@)
}

/// The project `groot new <name>` creates; `None` when `name` is not a
/// valid project name.
pub fn scaffold_project(name: &str) -> (r: Option<ProjectScaffold>)
    ensures
        r is Some <==> valid_project_name(name@),
        r matches Some(p) ==> p.dirs@.map_values(|d: String| d@) == scaffold_dirs()
            && p.files@.map_values(|f: (String, String)| file_view(f)) == scaffold_files(name@),
{
    if !is_valid_project_name(name) {
        return None;
    }
    let mut dirs: Vec<String> = Vec::new();
    dirs.push(copy_str("src"));
    dirs.push(copy_str("assets/prefabs"));
    dirs.push(copy_str("assets/scenes"));
    dirs.push(copy_str("assets/scripts"));
    assert(dirs@.map_values(|d: String| d@) =~= scaffold_dirs());

    let mut cargo = copy_str(CARGO_TOML_HEAD);
    push_str(&mut cargo, name);
    push_str(&mut cargo, CARGO_TOML_TAIL);

    let mut config = copy_str(CONFIG_HEAD);
    push_str(&mut config, name);
    push_str(&mut config, CONFIG_MIDDLE);
    push_str(&mut config, name);
    push_str(&mut config, CONFIG_TAIL);

    let mut readme = copy_str(README_HEAD);
    push_str(&mut readme, name);
    push_str(&mut readme, README_TAIL);

    let mut files: Vec<(String, String)> = Vec::new();
    files.push((copy_str("Cargo.toml"), cargo));
    files.push((copy_str("src/main.rs"), copy_str(MAIN_RS)));
    files.push((copy_str("assets/config.ron"), config));
    files.push((copy_str("assets/prefabs/player.prefab.ron"), copy_str(PLAYER_PREFAB)));
    files.push((copy_str("assets/scenes/main.scene.ron"), copy_str(MAIN_SCENE)));
    files.push((copy_str("assets/scripts/player.gos"), copy_str(PLAYER_SCRIPT)));
    files.push((copy_str(".gitignore"), copy_str(GITIGNORE)));
    files.push((copy_str("README.md"), readme));
    assert(files@.map_values(|f: (String, String)| file_view(f)) =~= scaffold_files(name@));
    Some(ProjectScaffold { dirs, files })
}

} // verus!
