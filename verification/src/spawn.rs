//! What the scene spawner and script spawn requests put into the world: which
//! visual an entity gets, whether it runs a script, and which entity id the
//! script sees.
use vstd::prelude::*;

use crate::entity::{nth_id, EntityIdAllocator};
use crate::text::copy_str;

verus! {

/// The kind of visual a prefab declares.
#[derive(Clone, Copy, Debug, PartialEq, Eq, Structural)]
pub enum VisualKind {
    Mesh,
    Sprite,
    Text,
    NoVisual,
}

/// What spawning needs to know of a loaded prefab.
pub struct PrefabSummary {
    pub visual: VisualKind,
    /// The prefab's script, if it has one.
    pub script: Option<String>,
}

/// One entity to spawn: its prefab (`None` when it could not be loaded), the
/// id it asks for, and its tag.
pub struct SpawnSpec {
    pub prefab: Option<PrefabSummary>,
    pub entity_id: Option<u32>,
    pub tag: String,
}

/// The script component of a spawned entity.
pub struct ScriptAttachment {
    pub script_path: String,
    pub entity_id: u32,
    pub tag: String,
}

/// How one entity is spawned: its visual and, when its prefab has a script,
/// the script component. Every spawned entity also gets its transform and
/// collider.
pub struct SpawnPlan {
    pub visual: VisualKind,
    pub script: Option<ScriptAttachment>,
}

/// Whether spawning `s` takes an id from the allocator. Scene entities take
/// one whenever they ask for none; script spawns only when the prefab has a
/// script.
pub open spec fn takes_id(s: SpawnSpec, scene: bool) -> bool {
    &&& s.prefab is Some
    &&& s.entity_id is None
    &&& (scene || s.prefab->0.script is Some)
}

/// How many of the first `n` specs take an id.
pub open spec fn ids_taken(specs: Seq<SpawnSpec>, scene: bool, n: int) -> nat
    decreases n,
{
    if n <= 0 {
        0
    } else {
        ids_taken(specs, scene, n - 1) + if takes_id(specs[n - 1], scene) { 1nat } else { 0nat }
    }
}

/// The id entity `i` gets when the allocator started at `start`.
pub open spec fn planned_id(specs: Seq<SpawnSpec>, scene: bool, start: u32, i: int) -> u32 {
    match specs[i].entity_id {
        Some(id) => id,
        None => nth_id(start, ids_taken(specs, scene, i)),
    }
}

/// The visual an entity gets: the scene spawner places no text visuals.
pub open spec fn planned_visual(kind: VisualKind, scene: bool) -> VisualKind {
    if scene && kind == VisualKind::Text { VisualKind::NoVisual } else { kind }
}

/// `plans` spawns each spec whose prefab loaded, in order, as described
/// above, with ids handed out from `start`.
pub open spec fn plans_spawn(specs: Seq<SpawnSpec>, scene: bool, start: u32, plans: Seq<Option<SpawnPlan>>) -> bool {
    &&& plans.len() == specs.len()
    &&& forall|i: int| 0 <= i < specs.len() ==> (#[trigger] plans[i] is None <==> specs[i].prefab is None)
    &&& forall|i: int| 0 <= i < specs.len() && specs[i].prefab is Some ==> {
        let p = specs[i].prefab->0;
        let plan = #[trigger] plans[i]->0;
        &&& plan.visual == planned_visual(p.visual, scene)
        &&& (plan.script is Some <==> p.script is Some)
        &&& p.script is Some ==> {
            let a = plan.script->0;
            &&& a.script_path@ == p.script->0@
            &&& a.tag@ == specs[i].tag@
            &&& a.entity_id == planned_id(specs, scene, start, i)
        }
    }
}

/// A scene places every loaded entity with its prefab's own visual (mesh,
/// sprite or none), except that text visuals are left out; script spawns
/// place every visual, text included.
pub proof fn law_planned_visuals(specs: Seq<SpawnSpec>, scene: bool, start: u32, plans: Seq<Option<SpawnPlan>>, i: int)
    requires
        plans_spawn(specs, scene, start, plans),
        0 <= i < specs.len(),
        specs[i].prefab is Some,
    ensures
        plans[i] is Some,
        specs[i].prefab->0.visual is Mesh ==> plans[i]->0.visual is Mesh,
        specs[i].prefab->0.visual is Sprite ==> plans[i]->0.visual is Sprite,
        specs[i].prefab->0.visual is NoVisual ==> plans[i]->0.visual is NoVisual,
        specs[i].prefab->0.visual is Text ==> (if scene { plans[i]->0.visual is NoVisual } else { plans[i]->0.visual is Text }),
{
    assert(plans[i] is None <==> specs[i].prefab is None);
}

fn plan_spawns(specs: &Vec<SpawnSpec>, ids: &mut EntityIdAllocator, scene: bool) -> (plans: Vec<Option<SpawnPlan>>)
    ensures
        plans_spawn(specs@, scene, old(ids).peek(), plans@),
        final(ids).peek() == nth_id(old(ids).peek(), ids_taken(specs@, scene, specs.len() as int)),
{
    let ghost start = ids.peek();
    let mut plans: Vec<Option<SpawnPlan>> = Vec::new();
    let mut i: usize = 0;
    proof {
        assert(nth_id(start, 0) == start) by {
            vstd::arithmetic::div_mod::lemma_small_mod(start as nat, 0x1_0000_0000);
        }
    }
    while i < specs.len()
        invariant
            i <= specs.len(),
            plans.len() == i,
            ids.peek() == nth_id(start, ids_taken(specs@, scene, i as int)),
            forall|k: int| 0 <= k < i ==> (#[trigger] plans@[k] is None <==> specs@[k].prefab is None),
            forall|k: int| 0 <= k < i && specs@[k].prefab is Some ==> {
                let p = specs@[k].prefab->0;
                let plan = #[trigger] plans@[k]->0;
                &&& plan.visual == planned_visual(p.visual, scene)
                &&& (plan.script is Some <==> p.script is Some)
                &&& p.script is Some ==> {
                    let a = plan.script->0;
                    &&& a.script_path@ == p.script->0@
                    &&& a.tag@ == specs@[k].tag@
                    &&& a.entity_id == planned_id(specs@, scene, start, k)
                }
            },
        decreases specs.len() - i,
    {
        let spec = &specs[i];
        let ghost taken = ids_taken(specs@, scene, i as int);
        proof {
            crate::entity::lemma_following_nth(start, taken);
        }
        match &spec.prefab {
            None => {
                plans.push(None);
            },
            Some(prefab) => {
                let visual = if scene && prefab.visual == VisualKind::Text {
                    VisualKind::NoVisual
                } else {
                    prefab.visual
                };
                let script = match &prefab.script {
                    Some(path) => {
                        let id = ids.id_or_next(spec.entity_id);
                        Some(ScriptAttachment { script_path: copy_str(path.as_str()), entity_id: id, tag: copy_str(spec.tag.as_str()) })
                    },
                    None => {
                        if scene {
                            let _unused = ids.id_or_next(spec.entity_id);
                        }
                        None
                    },
                };
                plans.push(Some(SpawnPlan { visual, script }));
            },
        }
        proof {
            assert(ids_taken(specs@, scene, i + 1) == taken + if takes_id(specs@[i as int], scene) { 1nat } else { 0nat });
        }
        i = i + 1;
    }
    plans
}

/// Plans the entities of a scene: each entity whose prefab loaded is placed
/// with its prefab's visual (text visuals are not placed by scenes) and, when
/// the prefab has a script, a script component with the entity's tag. The
/// entity id is the one the scene gives, or else the next from `ids`; an
/// id is taken for every placed entity that asks for none, scripted or not.
pub fn plan_scene_spawns(entities: &Vec<SpawnSpec>, ids: &mut EntityIdAllocator) -> (plans: Vec<Option<SpawnPlan>>)
    ensures
        plans_spawn(entities@, true, old(ids).peek(), plans@),
        final(ids).peek() == nth_id(old(ids).peek(), ids_taken(entities@, true, entities.len() as int)),
{
    plan_spawns(entities, ids, true)
}

/// Plans the prefabs that scripts asked to spawn this frame, in the order
/// asked: like a scene, but text visuals are placed, and an id is taken
/// from `ids` only for a prefab with a script.
pub fn plan_script_spawns(requests: &Vec<SpawnSpec>, ids: &mut EntityIdAllocator) -> (plans: Vec<Option<SpawnPlan>>)
    ensures
        plans_spawn(requests@, false, old(ids).peek(), plans@),
        final(ids).peek() == nth_id(old(ids).peek(), ids_taken(requests@, false, requests.len() as int)),
{
    plan_spawns(requests, ids, false)
}

} // verus!
