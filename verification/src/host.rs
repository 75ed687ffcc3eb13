//! The script host's bookkeeping: the scripts loaded so far (one engine per
//! script path), the camera commands scripts issue, and how the requests
//! that a frame's scripts make of the world are settled at the frame's end.
use vstd::prelude::*;

use crate::entity::ScriptMetadata;
use crate::text::{copy_str, str_eq};

verus! {

// ---------------------------------------------------------------------------
// Loaded scripts
// ---------------------------------------------------------------------------

/// A script's engine together with the hooks it defines.
pub struct LoadedScript<E> {
    pub engine: E,
    pub metadata: ScriptMetadata,
}

/// The scripts loaded so far, one per script path, in the order they were
/// first needed.
pub struct ScriptRegistry<E> {
    scripts: Vec<(String, LoadedScript<E>)>,
}

/// The index of `path` among the paths of `scripts`, if it is there.
pub open spec fn script_index<E>(scripts: Seq<(Seq<char>, LoadedScript<E>)>, path: Seq<char>) -> Option<int> {
    if exists|i: int| 0 <= i < scripts.len() && #[trigger] scripts[i].0 == path {
        Some(choose|i: int| 0 <= i < scripts.len() && #[trigger] scripts[i].0 == path)
    } else {
        None
    }
}

impl<E> ScriptRegistry<E> {
    /// The loaded scripts with their paths, in loading order.
    pub closed spec fn scripts(&self) -> Seq<(Seq<char>, LoadedScript<E>)> {
        self.scripts@.map_values(|e: (String, LoadedScript<E>)| (e.0@, e.1))
    }

    /// No path is loaded twice.
    pub open spec fn wf(&self) -> bool {
        forall|i: int, j: int| 0 <= i < j < self.scripts().len() ==> #[trigger] self.scripts()[i].0 != #[trigger] self.scripts()[j].0
    }

    /// No script loaded yet.
    pub fn new() -> (r: Self)
        ensures
            r.wf(),
            r.scripts() == Seq::<(Seq<char>, LoadedScript<E>)>::empty(),
    {
        let r = ScriptRegistry { scripts: Vec::new() };
        assert(r.scripts() =~= Seq::<(Seq<char>, LoadedScript<E>)>::empty());
        r
    }

    /// Whether no path is loaded twice (always so for a registry changed
    /// only through its own methods).
    pub fn is_well_formed(&self) -> (b: bool)
        ensures
            b == self.wf(),
    {
        let mut i: usize = 0;
        while i < self.scripts.len()
            invariant
                i <= self.scripts.len(),
                forall|a: int, b: int| 0 <= a < b < i ==> #[trigger] self.scripts()[a].0 != #[trigger] self.scripts()[b].0,
            decreases self.scripts.len() - i,
        {
            let mut j: usize = 0;
            while j < i
                invariant
                    j <= i < self.scripts.len(),
                    forall|a: int| 0 <= a < j ==> #[trigger] self.scripts()[a].0 != self.scripts()[i as int].0,
                decreases i - j,
            {
                if str_eq(self.scripts[j].0.as_str(), self.scripts[i].0.as_str()) {
                    assert(self.scripts()[j as int].0 == self.scripts()[i as int].0);
                    return false;
                }
                j = j + 1;
            }
            i = i + 1;
        }
        true
    }

    /// How many scripts are loaded.
    pub fn len(&self) -> (n: usize)
        ensures
            n == self.scripts().len(),
    {
        self.scripts.len()
    }

    /// Returns the index of the script for `path`, loading it with `load`
    /// first when it is not loaded yet; `load` runs only then, once.
    pub fn ensure<F: FnOnce() -> LoadedScript<E>>(&mut self, path: &str, load: F) -> (i: usize)
        requires
            old(self).wf(),
            call_requires(load, ()),
        ensures
            final(self).wf(),
            i < final(self).scripts().len(),
            final(self).scripts()[i as int].0 == path@,
            script_index(old(self).scripts(), path@) is Some ==> final(self).scripts() == old(self).scripts() && i == script_index(old(self).scripts(), path@)->0,
            script_index(old(self).scripts(), path@) is None ==> i == old(self).scripts().len() && exists|o: LoadedScript<E>| #[trigger] call_ensures(load, (), o) && final(self).scripts() == old(self).scripts().push((path@, o)),
    {
        let ghost before = self.scripts();
        let mut k: usize = 0;
        while k < self.scripts.len()
            invariant
                k <= self.scripts.len(),
                before == self.scripts(),
                self.wf(),
                forall|j: int| 0 <= j < k ==> #[trigger] before[j].0 != path@,
            decreases self.scripts.len() - k,
        {
            if str_eq(self.scripts[k].0.as_str(), path) {
                proof {
                    assert(before[k as int].0 == path@);
                    let c = choose|c: int| 0 <= c < before.len() && #[trigger] before[c].0 == path@;
                    if c != k {
                        if c < k {
                            assert(before[c].0 != before[k as int].0);
                        } else {
                            assert(before[k as int].0 != before[c].0);
                        }
                    }
                }
                return k;
            }
            k = k + 1;
        }
        let loaded = load();
        let ghost o = loaded;
        let n = self.scripts.len();
        self.scripts.push((copy_str(path), loaded));
        proof {
            assert(self.scripts() =~= before.push((path@, o)));
            assert forall|a: int, b: int| 0 <= a < b < self.scripts().len() implies #[trigger] self.scripts()[a].0 != #[trigger] self.scripts()[b].0 by {
                if b == n {
                    assert(before[a].0 != path@);
                } else {
                    assert(before[a].0 != before[b].0);
                }
            }
        }
        n
    }

    /// The script at index `i`.
    pub fn get(&self, i: usize) -> (r: &LoadedScript<E>)
        requires
            i < self.scripts().len(),
        ensures
            *r == self.scripts()[i as int].1,
    {
        &self.scripts[i].1
    }

    /// The script at index `i`, to run or reload it; its path stays.
    pub fn get_mut(&mut self, i: usize) -> (r: &mut LoadedScript<E>)
        requires
            i < old(self).scripts().len(),
        ensures
            *r == old(self).scripts()[i as int].1,
            final(self).scripts() == old(self).scripts().update(i as int, (old(self).scripts()[i as int].0, *final(r))),
    {
        &mut self.scripts[i].1
    }
}

// ---------------------------------------------------------------------------
// Camera commands
// ---------------------------------------------------------------------------

/// The camera as scripts last set it, and which of the two cameras still
/// have to pick the settings up. `T` is the number type of coordinates.
pub struct CameraModel<T> {
    pub position: (T, T, T),
    pub target: (T, T, T),
    pub fov: T,
    pub viewport: (T, T),
    pub pending_3d: bool,
    pub pending_2d: bool,
}

/// New settings for the perspective camera.
pub struct Camera3DUpdate<T> {
    pub eye: (T, T, T),
    pub target: (T, T, T),
    pub fov: T,
}

/// New settings for the orthographic camera.
pub struct Camera2DUpdate<T> {
    pub position: (T, T),
    pub viewport: (T, T),
}

impl<T> CameraModel<T> {
    /// `SetCameraPosition`: moves both cameras.
    pub open spec fn with_position(self, p: (T, T, T)) -> Self {
        CameraModel { position: p, pending_3d: true, pending_2d: true, ..self }
    }

    /// `SetCameraTarget`: aims the perspective camera.
    pub open spec fn with_target(self, t: (T, T, T)) -> Self {
        CameraModel { target: t, pending_3d: true, ..self }
    }

    /// `SetCameraFov`: the perspective camera's field of view.
    pub open spec fn with_fov(self, fov: T) -> Self {
        CameraModel { fov: fov, pending_3d: true, ..self }
    }

    /// `SetCameraViewport`: the orthographic camera's viewport.
    pub open spec fn with_viewport(self, v: (T, T)) -> Self {
        CameraModel { viewport: v, pending_2d: true, ..self }
    }

    /// What the perspective camera picks up now, if anything.
    pub open spec fn update_3d(self) -> Option<Camera3DUpdate<T>> {
        if self.pending_3d {
            Some(Camera3DUpdate { eye: self.position, target: self.target, fov: self.fov })
        } else {
            None
        }
    }

    /// What the orthographic camera picks up now, if anything.
    pub open spec fn update_2d(self) -> Option<Camera2DUpdate<T>> {
        if self.pending_2d {
            Some(Camera2DUpdate { position: (self.position.0, self.position.1), viewport: self.viewport })
        } else {
            None
        }
    }
}

/// The camera commands issued by scripts, waiting to be applied to the
/// cameras once per frame.
pub struct CameraCommands<T> {
    position: (T, T, T),
    target: (T, T, T),
    fov: T,
    viewport: (T, T),
    modified_3d: bool,
    modified_2d: bool,
}

impl<T: Copy> View for CameraCommands<T> {
    type V = CameraModel<T>;

    closed spec fn view(&self) -> CameraModel<T> {
        CameraModel {
            position: self.position,
            target: self.target,
            fov: self.fov,
            viewport: self.viewport,
            pending_3d: self.modified_3d,
            pending_2d: self.modified_2d,
        }
    }
}

impl<T: Copy> CameraCommands<T> {
    /// Commands starting from the given settings, with nothing pending.
    pub fn new(position: (T, T, T), target: (T, T, T), fov: T, viewport: (T, T)) -> (r: Self)
        ensures
            r@ == (CameraModel { position, target, fov, viewport, pending_3d: false, pending_2d: false }),
    {
        CameraCommands { position, target, fov, viewport, modified_3d: false, modified_2d: false }
    }

    /// `SetCameraPosition`.
    pub fn set_position(&mut self, p: (T, T, T))
        ensures
            final(self)@ == old(self)@.with_position(p),
    {
        self.position = p;
        self.modified_3d = true;
        self.modified_2d = true;
    }

    /// `GetCameraPosition`: the position last set.
    pub fn position(&self) -> (p: (T, T, T))
        ensures
            p == self@.position,
    {
        self.position
    }

    /// `SetCameraTarget`.
    pub fn set_target(&mut self, t: (T, T, T))
        ensures
            final(self)@ == old(self)@.with_target(t),
    {
        self.target = t;
        self.modified_3d = true;
    }

    /// `SetCameraFov`.
    pub fn set_fov(&mut self, fov: T)
        ensures
            final(self)@ == old(self)@.with_fov(fov),
    {
        self.fov = fov;
        self.modified_3d = true;
    }

    /// `SetCameraViewport`.
    pub fn set_viewport(&mut self, v: (T, T))
        ensures
            final(self)@ == old(self)@.with_viewport(v),
    {
        self.viewport = v;
        self.modified_2d = true;
    }

    /// Hands the perspective camera its pending settings, once.
    pub fn take_3d(&mut self) -> (r: Option<Camera3DUpdate<T>>)
        ensures
            r == old(self)@.update_3d(),
            final(self)@ == (CameraModel { pending_3d: false, ..old(self)@ }),
    {
        if self.modified_3d {
            self.modified_3d = false;
            Some(Camera3DUpdate { eye: self.position, target: self.target, fov: self.fov })
        } else {
            None
        }
    }

    /// Hands the orthographic camera its pending settings, once.
    pub fn take_2d(&mut self) -> (r: Option<Camera2DUpdate<T>>)
        ensures
            r == old(self)@.update_2d(),
            final(self)@ == (CameraModel { pending_2d: false, ..old(self)@ }),
    {
        if self.modified_2d {
            self.modified_2d = false;
            Some(Camera2DUpdate { position: (self.position.0, self.position.1), viewport: self.viewport })
        } else {
            None
        }
    }
}

/// A position set by a script reaches both cameras: the perspective camera
/// looks from it and the orthographic camera is centred on it.
pub proof fn law_position_moves_both_cameras<T>(m: CameraModel<T>, p: (T, T, T))
    ensures
        m.with_position(p).update_3d() == Some(Camera3DUpdate { eye: p, target: m.target, fov: m.fov }),
        m.with_position(p).update_2d() == Some(Camera2DUpdate { position: (p.0, p.1), viewport: m.viewport }),
{
}

/// A target or field of view concerns the perspective camera only, and a
/// viewport the orthographic camera only.
pub proof fn law_commands_reach_their_camera<T>(m: CameraModel<T>, t: (T, T, T), fov: T, v: (T, T))
    ensures
        m.with_target(t).update_2d() == m.update_2d(),
        m.with_fov(fov).update_2d() == m.update_2d(),
        m.with_viewport(v).update_3d() == m.update_3d(),
        m.with_target(t).update_3d() is Some,
        m.with_fov(fov).update_3d() is Some,
        m.with_viewport(v).update_2d() is Some,
{
}

/// Settings are handed to a camera once: after it picked them up, nothing
/// is pending for it until a script sets something again.
pub proof fn law_update_taken_once<T>(m: CameraModel<T>)
    ensures
        (CameraModel { pending_3d: false, ..m }).update_3d() is None,
        (CameraModel { pending_2d: false, ..m }).update_2d() is None,
        (CameraModel { pending_3d: false, ..m }).update_2d() == m.update_2d(),
        (CameraModel { pending_2d: false, ..m }).update_3d() == m.update_3d(),
{
}

// ---------------------------------------------------------------------------
// Settling a frame's requests
// ---------------------------------------------------------------------------

/// An entity as the end of a frame sees it.
pub struct FrameEntity {
    /// The tag of its script component, when it runs a script.
    pub script_tag: Option<String>,
    /// Its tag component, when it has one.
    pub label: Option<String>,
    /// Its own script asked to destroy it this frame (`DestroySelf`).
    pub destroyed_self: bool,
    /// It shows text.
    pub has_text: bool,
    /// The text its own script set this frame (`SetSelfText`).
    pub own_text: Option<String>,
}

/// What becomes of an entity at the end of a frame.
pub enum EntityFate {
    Despawn,
    /// It stays; `text` is its new text, if it changes.
    Keep { text: Option<String> },
}

/// The view of an optional string.
pub open spec fn opt_view(o: Option<String>) -> Option<Seq<char>> {
    match o {
        Some(s) => Some(s@),
        None => None,
    }
}

/// `t` is present and equals `tag`.
pub open spec fn tagged(t: Option<String>, tag: Seq<char>) -> bool {
    t matches Some(s) && s@ == tag
}

/// The entity leaves the world this frame: its script destroyed it, or a
/// script despawned its script's tag (`DespawnByTag`).
pub open spec fn despawned(e: FrameEntity, despawn_tags: Seq<String>) -> bool {
    e.destroyed_self || exists|k: int| 0 <= k < despawn_tags.len() && tagged(e.script_tag, #[trigger] despawn_tags[k]@)
}

/// A `SetTextByTag` request for `tag` reaches the entity: it shows text
/// and its script or its tag component carries the tag.
pub open spec fn text_target(e: FrameEntity, tag: Seq<char>) -> bool {
    e.has_text && (tagged(e.script_tag, tag) || tagged(e.label, tag))
}

/// The text of the last request in `reqs` that reaches the entity.
pub open spec fn requested_text(e: FrameEntity, reqs: Seq<(String, String)>) -> Option<Seq<char>>
    decreases reqs.len(),
{
    if reqs.len() == 0 {
        None
    } else if text_target(e, reqs.last().0@) {
        Some(reqs.last().1@)
    } else {
        requested_text(e, reqs.drop_last())
    }
}

/// The entity's text after the frame: tag requests are settled after every
/// script ran, so they win over what its own script set.
pub open spec fn text_after_frame(e: FrameEntity, reqs: Seq<(String, String)>) -> Option<Seq<char>> {
    match requested_text(e, reqs) {
        Some(t) => Some(t),
        None => if e.has_text { opt_view(e.own_text) } else { None },
    }
}

/// `fates` settles the frame for `entities`, one fate each.
pub open spec fn settles(entities: Seq<FrameEntity>, reqs: Seq<(String, String)>, despawn_tags: Seq<String>, fates: Seq<EntityFate>) -> bool {
    &&& fates.len() == entities.len()
    &&& forall|i: int| 0 <= i < entities.len() ==> match #[trigger] fates[i] {
        EntityFate::Despawn => despawned(entities[i], despawn_tags),
        EntityFate::Keep { text } => !despawned(entities[i], despawn_tags) && opt_view(text) == text_after_frame(entities[i], reqs),
    }
}

fn listed(tag: &Option<String>, tags: &Vec<String>) -> (r: bool)
    ensures
        r == exists|k: int| 0 <= k < tags.len() && tagged(*tag, #[trigger] tags@[k]@),
{
    match tag {
        None => false,
        Some(t) => {
            let mut k: usize = 0;
            while k < tags.len()
                invariant
                    k <= tags.len(),
                    *tag matches Some(s) && s@ == t@,
                    forall|j: int| 0 <= j < k ==> !tagged(*tag, #[trigger] tags@[j]@),
                decreases tags.len() - k,
            {
                if str_eq(t.as_str(), tags[k].as_str()) {
                    assert(tagged(*tag, tags@[k as int]@));
                    return true;
                }
                k = k + 1;
            }
            false
        },
    }
}

fn opt_matches(t: &Option<String>, tag: &str) -> (r: bool)
    ensures
        r == tagged(*t, tag@),
{
    match t {
        Some(s) => str_eq(s.as_str(), tag),
        None => false,
    }
}

fn last_requested_text(e: &FrameEntity, reqs: &Vec<(String, String)>) -> (r: Option<String>)
    ensures
        opt_view(r) == requested_text(*e, reqs@),
{
    let mut k: usize = reqs.len();
    proof {
        assert(reqs@.take(k as int) =~= reqs@);
    }
    while k > 0
        invariant
            k <= reqs.len(),
            requested_text(*e, reqs@.take(k as int)) == requested_text(*e, reqs@),
        decreases k,
    {
        let tag = reqs[k - 1].0.as_str();
        let hit = e.has_text && (opt_matches(&e.script_tag, tag) || opt_matches(&e.label, tag));
        proof {
            let t = reqs@.take(k as int);
            assert(t.last() == reqs@[k - 1]);
            assert(t.drop_last() =~= reqs@.take(k - 1));
        }
        if hit {
            return Some(copy_str(reqs[k - 1].1.as_str()));
        }
        k = k - 1;
    }
    proof {
        assert(reqs@.take(0) =~= Seq::<(String, String)>::empty());
    }
    None
}

fn copy_opt(o: &Option<String>) -> (r: Option<String>)
    ensures
        opt_view(r) == opt_view(*o),
{
    match o {
        Some(s) => Some(copy_str(s.as_str())),
        None => None,
    }
}

/// Settles the end of a frame: entities whose script destroyed them or whose
/// script tag was despawned leave the world; every other entity that shows
/// text gets the text of the last `SetTextByTag` request for its tag, or
/// else the text its own script set.
pub fn settle_frame(entities: &Vec<FrameEntity>, text_requests: &Vec<(String, String)>, despawn_tags: &Vec<String>) -> (fates: Vec<EntityFate>)
    ensures
        settles(entities@, text_requests@, despawn_tags@, fates@),
{
    let mut fates: Vec<EntityFate> = Vec::new();
    let mut i: usize = 0;
    while i < entities.len()
        invariant
            i <= entities.len(),
            fates.len() == i,
            forall|j: int| 0 <= j < i ==> match #[trigger] fates@[j] {
                EntityFate::Despawn => despawned(entities@[j], despawn_tags@),
                EntityFate::Keep { text } => !despawned(entities@[j], despawn_tags@) && opt_view(text) == text_after_frame(entities@[j], text_requests@),
            },
        decreases entities.len() - i,
    {
        let e = &entities[i];
        if e.destroyed_self || listed(&e.script_tag, despawn_tags) {
            fates.push(EntityFate::Despawn);
        } else {
            let text = match last_requested_text(e, text_requests) {
                Some(t) => Some(t),
                None => if e.has_text { copy_opt(&e.own_text) } else { None },
            };
            fates.push(EntityFate::Keep { text });
        }
        i = i + 1;
    }
    fates
}

/// The last `SetTextByTag` request that reaches an entity decides its text,
/// whatever its own script set; a request for a tag it does not carry
/// leaves its text as it was.
pub proof fn law_last_text_request_wins(e: FrameEntity, reqs: Seq<(String, String)>, req: (String, String))
    ensures
        text_target(e, req.0@) ==> text_after_frame(e, reqs.push(req)) == Some(req.1@),
        !text_target(e, req.0@) ==> text_after_frame(e, reqs.push(req)) == text_after_frame(e, reqs),
{
    assert(reqs.push(req).drop_last() =~= reqs);
}

/// Despawning a tag removes every entity whose script carries it, and an
/// entity whose script destroyed it is gone whatever else was asked.
pub proof fn law_despawned_entities(e: FrameEntity, despawn_tags: Seq<String>, k: int)
    requires
        0 <= k < despawn_tags.len(),
    ensures
        tagged(e.script_tag, despawn_tags[k]@) ==> despawned(e, despawn_tags),
        e.destroyed_self ==> despawned(e, despawn_tags),
{
}

/// Only scripts remove entities: an entity leaves the world exactly when
/// its own script destroyed it or a `DespawnByTag` names the tag of its
/// script component; its tag component plays no part, and every other
/// entity stays.
pub proof fn law_despawn_follows_script_tags(
    entities: Seq<FrameEntity>,
    reqs: Seq<(String, String)>,
    despawn_tags: Seq<String>,
    fates: Seq<EntityFate>,
    i: int,
)
    requires
        settles(entities, reqs, despawn_tags, fates),
        0 <= i < entities.len(),
    ensures
        fates[i] is Despawn <==> (entities[i].destroyed_self || (entities[i].script_tag matches Some(t) && exists|k: int|
            0 <= k < despawn_tags.len() && #[trigger] despawn_tags[k]@ == t@)),
        !entities[i].destroyed_self && (entities[i].script_tag is None || forall|k: int|
            0 <= k < despawn_tags.len() ==> #[trigger] despawn_tags[k]@ != entities[i].script_tag->0@) ==> fates[i] is Keep,
{
    let e = entities[i];
    if let Some(t) = e.script_tag {
        if exists|k: int| 0 <= k < despawn_tags.len() && #[trigger] despawn_tags[k]@ == t@ {
            let k = choose|k: int| 0 <= k < despawn_tags.len() && #[trigger] despawn_tags[k]@ == t@;
            assert(tagged(e.script_tag, despawn_tags[k]@));
        }
        if exists|k: int| 0 <= k < despawn_tags.len() && tagged(e.script_tag, #[trigger] despawn_tags[k]@) {
            let k = choose|k: int| 0 <= k < despawn_tags.len() && tagged(e.script_tag, #[trigger] despawn_tags[k]@);
            assert(despawn_tags[k]@ == t@);
        }
    }
    match fates[i] {
        EntityFate::Despawn => {},
        EntityFate::Keep { .. } => {},
    }
}

// ---------------------------------------------------------------------------
// What scripts see of other entities
// ---------------------------------------------------------------------------

/// `GetEntityPosition`: among the scripted entities (by their ids, in the
/// order the world lists them) the one whose position a script sees for
/// `id`: the last with that id, none when no entity has it.
pub fn entity_with_id(ids: &Vec<u32>, id: u32) -> (r: Option<usize>)
    ensures
        match r {
            None => forall|j: int| 0 <= j < ids.len() ==> ids@[j] != id,
            Some(i) => i < ids.len() && ids@[i as int] == id && forall|j: int| i < j < ids.len() ==> ids@[j] != id,
        },
{
    let mut k: usize = ids.len();
    while k > 0
        invariant
            k <= ids.len(),
            forall|j: int| k <= j < ids.len() ==> ids@[j] != id,
        decreases k,
    {
        if ids[k - 1] == id {
            return Some(k - 1);
        }
        k = k - 1;
    }
    None
}

/// `GetTagPositions`: the scripted entities (by their tags, in the order the
/// world lists them) that carry `tag`, in that order.
pub fn entities_with_tag(tags: &Vec<String>, tag: &str) -> (r: Vec<usize>)
    ensures
        forall|k: int| 0 <= k < r.len() ==> #[trigger] r@[k] < tags.len() && tags@[r@[k] as int]@ == tag@,
        forall|a: int, b: int| 0 <= a < b < r.len() ==> #[trigger] r@[a] < #[trigger] r@[b],
        forall|j: int| 0 <= j < tags.len() && #[trigger] tags@[j]@ == tag@ ==> r@.contains(j as usize),
{
    let mut r: Vec<usize> = Vec::new();
    let mut i: usize = 0;
    while i < tags.len()
        invariant
            i <= tags.len(),
            forall|k: int| 0 <= k < r.len() ==> #[trigger] r@[k] < i && tags@[r@[k] as int]@ == tag@,
            forall|a: int, b: int| 0 <= a < b < r.len() ==> #[trigger] r@[a] < #[trigger] r@[b],
            forall|j: int| 0 <= j < i && #[trigger] tags@[j]@ == tag@ ==> r@.contains(j as usize),
        decreases tags.len() - i,
    {
        if str_eq(tags[i].as_str(), tag) {
            let ghost before = r@;
            r.push(i);
            proof {
                assert forall|j: int| 0 <= j < i + 1 && #[trigger] tags@[j]@ == tag@ implies r@.contains(j as usize) by {
                    if j < i {
                        let w = choose|w: int| 0 <= w < before.len() && before[w] == j as usize;
                        assert(r@[w] == before[w]);
                    } else {
                        assert(r@[before.len() as int] == i);
                    }
                }
            }
        }
        i = i + 1;
    }
    r
}

} // verus!
