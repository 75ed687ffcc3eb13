use groot::entity::ScriptMetadata;
use groot::host::{
    entities_with_tag, entity_with_id, settle_frame, CameraCommands, EntityFate, FrameEntity, LoadedScript,
    ScriptRegistry,
};

fn loaded(engine: &str, on_update: bool) -> LoadedScript<String> {
    LoadedScript { engine: engine.to_string(), metadata: ScriptMetadata { has_on_update: on_update, has_on_start: false } }
}

#[test]
fn each_script_is_loaded_once() {
    let mut reg: ScriptRegistry<String> = ScriptRegistry::new();
    let mut loads = 0;
    let a = reg.ensure("assets/scripts/bird.gos", || {
        loads += 1;
        loaded("bird", true)
    });
    let b = reg.ensure("assets/scripts/pipe.gos", || {
        loads += 1;
        loaded("pipe", false)
    });
    let a2 = reg.ensure("assets/scripts/bird.gos", || {
        loads += 1;
        loaded("bird again", false)
    });
    assert_eq!(loads, 2);
    assert_eq!((a, b, a2), (0, 1, 0));
    assert_eq!(reg.len(), 2);
    assert_eq!(reg.get(a).engine, "bird");
    assert!(reg.get(a).metadata.has_on_update);
    assert!(!reg.get(b).metadata.has_on_update);
    reg.get_mut(b).metadata.has_on_update = true;
    assert!(reg.get(b).metadata.has_on_update);
    assert_eq!(reg.get(b).engine, "pipe");
}

#[test]
fn camera_commands_reach_their_cameras_once() {
    let mut cam = CameraCommands::new((0.0f32, 0.0, 10.0), (0.0, 0.0, 0.0), 60.0, (21.33, 12.0));
    assert!(cam.take_3d().is_none());
    assert!(cam.take_2d().is_none());
    cam.set_position((1.0, 2.0, 3.0));
    assert_eq!(cam.position(), (1.0, 2.0, 3.0));
    let u3 = cam.take_3d().expect("3D camera moved");
    assert_eq!((u3.eye, u3.target, u3.fov), ((1.0, 2.0, 3.0), (0.0, 0.0, 0.0), 60.0));
    assert!(cam.take_3d().is_none());
    let u2 = cam.take_2d().expect("2D camera moved");
    assert_eq!((u2.position, u2.viewport), ((1.0, 2.0), (21.33, 12.0)));
    cam.set_fov(45.0);
    assert!(cam.take_2d().is_none());
    assert_eq!(cam.take_3d().map(|u| u.fov), Some(45.0));
    cam.set_viewport((16.0, 9.0));
    assert!(cam.take_3d().is_none());
    assert_eq!(cam.take_2d().map(|u| u.viewport), Some((16.0, 9.0)));
    cam.set_target((5.0, 5.0, 5.0));
    assert_eq!(cam.take_3d().map(|u| u.target), Some((5.0, 5.0, 5.0)));
}

fn entity(script_tag: Option<&str>, label: Option<&str>, destroyed: bool, has_text: bool, own: Option<&str>) -> FrameEntity {
    FrameEntity {
        script_tag: script_tag.map(|s| s.to_string()),
        label: label.map(|s| s.to_string()),
        destroyed_self: destroyed,
        has_text,
        own_text: own.map(|s| s.to_string()),
    }
}

fn kept_text(f: &EntityFate) -> Option<Option<String>> {
    match f {
        EntityFate::Despawn => None,
        EntityFate::Keep { text } => Some(text.clone()),
    }
}

#[test]
fn frame_requests_are_settled_after_scripts() {
    let entities = vec![
        entity(Some("pipe"), None, false, false, None),
        entity(Some("bird"), None, true, false, None),
        entity(None, Some("score"), false, true, None),
        entity(Some("score"), None, false, true, Some("own")),
        entity(Some("hud"), None, false, true, Some("kept")),
        entity(Some("title"), Some("score"), false, false, None),
    ];
    let requests = vec![
        ("score".to_string(), "1".to_string()),
        ("hud".to_string(), "x".to_string()),
        ("score".to_string(), "2".to_string()),
    ];
    let despawn = vec!["pipe".to_string(), "hud".to_string()];
    let fates = settle_frame(&entities, &requests, &despawn);
    assert_eq!(fates.len(), 6);
    assert_eq!(kept_text(&fates[0]), None);
    assert_eq!(kept_text(&fates[1]), None);
    assert_eq!(kept_text(&fates[2]), Some(Some("2".to_string())));
    assert_eq!(kept_text(&fates[3]), Some(Some("2".to_string())));
    assert_eq!(kept_text(&fates[4]), None);
    assert_eq!(kept_text(&fates[5]), Some(None));

    let quiet = settle_frame(&entities, &vec![], &vec![]);
    assert_eq!(kept_text(&quiet[0]), Some(None));
    assert_eq!(kept_text(&quiet[1]), None);
    assert_eq!(kept_text(&quiet[3]), Some(Some("own".to_string())));
    assert_eq!(kept_text(&quiet[4]), Some(Some("kept".to_string())));
}

#[test]
fn lookups_of_other_entities() {
    let ids = vec![10000, 10001, 7, 10001];
    assert_eq!(entity_with_id(&ids, 10001), Some(3));
    assert_eq!(entity_with_id(&ids, 7), Some(2));
    assert_eq!(entity_with_id(&ids, 5), None);
    let tags: Vec<String> = ["pipe", "bird", "pipe", "", "pipe"].iter().map(|s| s.to_string()).collect();
    assert_eq!(entities_with_tag(&tags, "pipe"), vec![0, 2, 4]);
    assert_eq!(entities_with_tag(&tags, ""), vec![3]);
    assert!(entities_with_tag(&tags, "ground").is_empty());
}
