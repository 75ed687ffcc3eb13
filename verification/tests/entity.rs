use groot::entity::{script_metadata, EntityIdAllocator};

#[test]
fn ids_count_up_and_wrap() {
    let mut a = EntityIdAllocator::for_scene();
    assert_eq!(a.next_id(), 10000);
    assert_eq!(a.next_id(), 10001);
    assert_eq!(a.id_or_next(Some(1)), 1);
    assert_eq!(a.id_or_next(None), 10002);
    let mut b = EntityIdAllocator::for_spawned();
    assert_eq!(b.next_id(), 20000);
    let mut c = EntityIdAllocator::starting_at(u32::MAX);
    assert_eq!(c.next_id(), u32::MAX);
    assert_eq!(c.next_id(), 0);
}

#[test]
fn hooks_from_globals() {
    let m = script_metadata(&["OnUpdate".to_string(), "self".to_string()]);
    assert!(m.has_on_update);
    assert!(!m.has_on_start);
    let m = script_metadata(&[]);
    assert!(!m.has_on_update && !m.has_on_start);
}
