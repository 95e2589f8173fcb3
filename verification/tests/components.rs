use crystal_sphinx::common::world::database::{insert_updates, remove_updates, Database, Entry, Update};
use crystal_sphinx::common::world::point::Point3;
use crystal_sphinx::entity::component::camera::{CameraView, Perspective};
use crystal_sphinx::entity::component::chunk::relevancy::Relevancy;
use crystal_sphinx::entity::component::owned_by_account::OwnedByAccount;
use crystal_sphinx::entity::component::user::User;
use crystal_sphinx::entity::system::replicator::instigator::UpdatedEntity;
use crystal_sphinx::entity::system::user_chunk_ticket_updater::needs_ticket;

#[test]
fn camera_view_cycles() {
    let view = CameraView::FirstPerson;
    assert_eq!(view.next(), CameraView::ThirdPersonBack);
    assert_eq!(view.next().next(), CameraView::ThirdPersonFront);
    assert_eq!(view.next().next().next(), CameraView::FirstPerson);
    assert_eq!(view.perspective(), Perspective::FirstPerson);
    assert_eq!(CameraView::ThirdPersonBack.perspective(), Perspective::ThirdPerson);
    assert_eq!(CameraView::ThirdPersonFront.perspective(), Perspective::ThirdPerson);
}

#[test]
fn relevancy_radii() {
    let relevancy = Relevancy::default();
    assert_eq!(relevancy.radius(), 0);
    assert_eq!(relevancy.entity_radius(), 0);
    let relevancy = relevancy.with_radius(6).with_entity_radius(3);
    assert_eq!(relevancy.radius(), 6);
    assert_eq!(relevancy.entity_radius(), 3);
    let relevancy = relevancy.with_radius(2);
    assert_eq!(relevancy.radius(), 2);
    assert_eq!(relevancy.entity_radius(), 3);
}

#[test]
fn account_ids() {
    let user = User::new(42u64);
    assert_eq!(*user.id(), 42);
    let owned = OwnedByAccount::new("account".to_string());
    assert_eq!(owned.id(), "account");
}

#[test]
fn ticket_updates() {
    let here = Point3::new(1, 2, 3);
    assert!(needs_ticket(None, here));
    assert!(needs_ticket(Some(Point3::new(1, 2, 4)), here));
    assert!(!needs_ticket(Some(here), here));
}

#[test]
fn database_entries() {
    let server: Entry<u8, char> = Entry::from_server(7);
    let client: Entry<u8, char> = Entry::from_client('c');
    assert_eq!(*server.unwrap_server(), 7);
    assert_eq!(*client.unwrap_client(), 'c');
}

#[test]
fn updated_entity_acknowledged() {
    let here = Point3::new(0, 0, 0);
    let there = Point3::new(0, 1, 0);
    assert_eq!(UpdatedEntity::acknowledged(5u32, Some(here), here), None);
    assert_eq!(
        UpdatedEntity::acknowledged(5u32, Some(here), there),
        Some(UpdatedEntity { entity: 5, old_chunk: Some(here), new_chunk: there })
    );
    assert_eq!(
        UpdatedEntity::acknowledged(5u32, None, here),
        Some(UpdatedEntity { entity: 5, old_chunk: None, new_chunk: here })
    );
}

#[test]
fn entry_maps_its_chunk() {
    let server: Entry<u8, &str> = Entry::from_server(5);
    let client: Entry<u8, &str> = Entry::from_client("abc");
    assert_eq!(server.map_chunk(|s| *s as usize * 2, |c| c.len()), 10);
    assert_eq!(client.map_chunk(|s| *s as usize * 2, |c| c.len()), 3);
}

#[test]
fn database_loads_and_unloads_chunks() {
    let a = Point3::new(0i64, 0, 0);
    let b = Point3::new(1i64, -1, 2);
    let mut db: Database<&str> = Database::new();
    assert_eq!(db.find_chunk(&a), None);
    assert_eq!(db.insert_chunk(a, "first"), None);
    assert_eq!(db.insert_chunk(b, "other"), None);
    assert_eq!(db.insert_chunk(a, "second"), Some("first"));
    assert_eq!(db.find_chunk(&a), Some(&"second"));
    assert_eq!(db.remove_chunk(&a), Some("second"));
    assert_eq!(db.remove_chunk(&a), None);
    assert_eq!(db.find_chunk(&b), Some(&"other"));
}

#[test]
fn database_updates_in_order() {
    let c = Point3::new(3i64, 0, 0);
    assert_eq!(
        insert_updates(c, Some(vec![1u8]), vec![2u8]),
        vec![Update::Dropped(c, vec![1u8]), Update::Inserted(c, vec![2u8])]
    );
    assert_eq!(insert_updates(c, None, vec![2u8]), vec![Update::Inserted(c, vec![2u8])]);
    assert_eq!(remove_updates(c, Some(vec![1u8])), vec![Update::Dropped(c, vec![1u8])]);
    assert!(remove_updates::<u8>(c, None).is_empty());
}
