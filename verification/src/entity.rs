//! Entity ids for entities that the scene or a script spawns without one,
//! and which lifecycle hooks a loaded script defines.
use vstd::prelude::*;

use crate::text::str_eq;

verus! {

/// Hands out entity ids from a counter that wraps around at `u32::MAX`.
pub struct EntityIdAllocator {
    next: u32,
}

/// The id that follows `id`.
pub open spec fn following(id: u32) -> u32 {
    if id == u32::MAX { 0 } else { (id + 1) as u32 }
}

/// The id handed out `k` calls after `start`.
pub open spec fn nth_id(start: u32, k: nat) -> u32 {
    ((start + k) % 0x1_0000_0000) as u32
}

impl EntityIdAllocator {
    /// The id the next call of `next_id` returns.
    pub closed spec fn peek(&self) -> u32 {
        self.next
    }

    /// An allocator whose first id is `start`.
    pub fn starting_at(start: u32) -> (r: Self)
        ensures
            r.peek() == start,
    {
        EntityIdAllocator { next: start }
    }

    /// The ids given to scene entities without an explicit id, from 10000.
    pub fn for_scene() -> (r: Self)
        ensures
            r.peek() == 10000,
    {
        Self::starting_at(10000)
    }

    /// The ids given to entities spawned by scripts, from 20000.
    pub fn for_spawned() -> (r: Self)
        ensures
            r.peek() == 20000,
    {
        Self::starting_at(20000)
    }

    /// Returns the current id and moves on to the following one.
    pub fn next_id(&mut self) -> (id: u32)
        ensures
            id == old(self).peek(),
            final(self).peek() == following(old(self).peek()),
    {
        let id = self.next;
        self.next = self.next.wrapping_add(1);
        id
    }

    /// The requested id when there is one (leaving the counter alone),
    /// otherwise the next id.
    pub fn id_or_next(&mut self, requested: Option<u32>) -> (id: u32)
        ensures
            match requested {
                Some(r) => id == r && final(self).peek() == old(self).peek(),
                None => id == old(self).peek() && final(self).peek() == following(old(self).peek()),
            },
    {
        match requested {
            Some(r) => r,
            None => self.next_id(),
        }
    }
}

/// Following `k` times from `start` reaches the id handed out `k` calls later.
pub proof fn lemma_following_nth(start: u32, k: nat)
    ensures
        following(nth_id(start, k)) == nth_id(start, k + 1),
{
    let a = (start + k) % 0x1_0000_0000;
    assert(((start + k + 1) % 0x1_0000_0000) == (if a == 0xffff_ffff { 0 } else { a + 1 })) by {
        vstd::arithmetic::div_mod::lemma_add_mod_noop(start + k, 1, 0x1_0000_0000);
    }
}

/// An allocator hands out 2^32 distinct ids before it repeats one.
pub proof fn law_ids_do_not_repeat(start: u32, i: nat, j: nat)
    requires
        i < j < 0x1_0000_0000,
    ensures
        nth_id(start, i) != nth_id(start, j),
{
    assert((start + i) % 0x1_0000_0000 != (start + j) % 0x1_0000_0000) by {
        if (start + i) % 0x1_0000_0000 == (start + j) % 0x1_0000_0000 {
            vstd::arithmetic::div_mod::lemma_mod_equivalence(start + j, start + i, 0x1_0000_0000);
            vstd::arithmetic::div_mod::lemma_small_mod((j - i) as nat, 0x1_0000_0000);
        }
    }
}

/// Which lifecycle hooks a loaded script defines.
pub struct ScriptMetadata {
    pub has_on_update: bool,
    pub has_on_start: bool,
}

/// Reads the hooks from the names of a script's globals: `OnUpdate` and
/// `OnStart`.
pub fn script_metadata(globals: &[String]) -> (r: ScriptMetadata)
    ensures
        r.has_on_update == globals@.map_values(|g: String| g@).contains("OnUpdate"@),
        r.has_on_start == globals@.map_values(|g: String| g@).contains("OnStart"@),
{
    ScriptMetadata { has_on_update: defines(globals, "OnUpdate"), has_on_start: defines(globals, "OnStart") }
}

fn defines(globals: &[String], name: &str) -> (r: bool)
    ensures
        r == globals@.map_values(|g: String| g@).contains(name@),
{
    let ghost views = globals@.map_values(|g: String| g@);
    let mut i: usize = 0;
    while i < globals.len()
        invariant
            i <= globals@.len(),
            views == globals@.map_values(|g: String| g@),
            forall|j: int| 0 <= j < i ==> views[j] != name@,
        decreases globals.len() - i,
    {
        if str_eq(globals[i].as_str(), name) {
            assert(views[i as int] == name@);
            return true;
        }
        i = i + 1;
    }
    false
}

} // verus!
