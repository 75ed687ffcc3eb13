use groot::entity::EntityIdAllocator;
use groot::spawn::{plan_scene_spawns, plan_script_spawns, PrefabSummary, SpawnPlan, SpawnSpec, VisualKind};

fn spec(prefab: Option<(VisualKind, Option<&str>)>, entity_id: Option<u32>, tag: &str) -> SpawnSpec {
    SpawnSpec {
        prefab: prefab.map(|(visual, script)| PrefabSummary { visual, script: script.map(|s| s.to_string()) }),
        entity_id,
        tag: tag.to_string(),
    }
}

fn specs() -> Vec<SpawnSpec> {
    vec![
        spec(Some((VisualKind::Sprite, Some("assets/scripts/bird.gos"))), None, "player"),
        spec(None, None, "missing"),
        spec(Some((VisualKind::Mesh, None)), None, "rock"),
        spec(Some((VisualKind::Sprite, Some("assets/scripts/pipe.gos"))), Some(7), "pipe"),
        spec(Some((VisualKind::Text, Some("assets/scripts/score.gos"))), None, "score"),
    ]
}

fn script_of(plan: &Option<SpawnPlan>) -> Option<(String, u32, String)> {
    plan.as_ref()
        .and_then(|p| p.script.as_ref())
        .map(|a| (a.script_path.clone(), a.entity_id, a.tag.clone()))
}

fn visual_of(plan: &Option<SpawnPlan>) -> Option<VisualKind> {
    plan.as_ref().map(|p| p.visual)
}

#[test]
fn scene_entities_get_ids_from_ten_thousand() {
    let mut ids = EntityIdAllocator::for_scene();
    let plans = plan_scene_spawns(&specs(), &mut ids);
    assert_eq!(plans.len(), 5);
    assert_eq!(script_of(&plans[0]), Some(("assets/scripts/bird.gos".to_string(), 10000, "player".to_string())));
    assert!(plans[1].is_none());
    // An unscripted scene entity without an id still uses one up.
    assert_eq!(visual_of(&plans[2]), Some(VisualKind::Mesh));
    assert_eq!(script_of(&plans[2]), None);
    assert_eq!(script_of(&plans[3]), Some(("assets/scripts/pipe.gos".to_string(), 7, "pipe".to_string())));
    // Scenes place no text visual.
    assert_eq!(visual_of(&plans[4]), Some(VisualKind::NoVisual));
    assert_eq!(script_of(&plans[4]), Some(("assets/scripts/score.gos".to_string(), 10002, "score".to_string())));
    assert_eq!(ids.next_id(), 10003);
}

#[test]
fn script_spawns_take_ids_only_for_scripted_prefabs() {
    let mut ids = EntityIdAllocator::for_spawned();
    let plans = plan_script_spawns(&specs(), &mut ids);
    assert_eq!(script_of(&plans[0]).map(|s| s.1), Some(20000));
    assert!(plans[1].is_none());
    assert_eq!(script_of(&plans[2]), None);
    assert_eq!(script_of(&plans[3]).map(|s| s.1), Some(7));
    assert_eq!(visual_of(&plans[4]), Some(VisualKind::Text));
    assert_eq!(script_of(&plans[4]).map(|s| s.1), Some(20001));
    assert_eq!(ids.next_id(), 20002);
}
