use item_registry::item::Item;
use item_registry::store::{RegistryError, Store};

fn item(id: u32, name: &str, status: &str, stream_url: &str) -> Item {
    Item {
        id,
        name: name.to_string(),
        status: status.to_string(),
        stream_url: stream_url.to_string(),
    }
}

fn assert_item(it: &Item, id: u32, name: &str, status: &str, stream_url: &str) {
    assert_eq!(it.id, id);
    assert_eq!(it.name, name);
    assert_eq!(it.status, status);
    assert_eq!(it.stream_url, stream_url);
}

#[test]
fn full_scenario() {
    let mut s = Store::new();
    assert_eq!(s.list().len(), 0);

    assert!(s.add(item(1, "A", "up", "u1")).is_ok());
    let l = s.list();
    assert_eq!(l.len(), 1);
    assert_item(&l[0], 1, "A", "up", "u1");

    assert_eq!(
        s.add(item(1, "other", "down", "u9")),
        Err(RegistryError::DuplicateId)
    );
    let l = s.list();
    assert_eq!(l.len(), 1);
    assert_item(&l[0], 1, "A", "up", "u1");

    assert!(s.update(item(1, "B", "down", "u2")).is_ok());
    let l = s.list();
    assert_eq!(l.len(), 1);
    assert_item(&l[0], 1, "B", "down", "u2");

    assert_eq!(s.delete(2), Err(RegistryError::NotFound));
    assert_eq!(s.list().len(), 1);

    assert!(s.delete(1).is_ok());
    assert_eq!(s.list().len(), 0);

    let reloaded = Store::load(s.document().as_str());
    assert_eq!(reloaded.list().len(), 0);
}

#[test]
fn add_then_list_contains_item() {
    let mut s = Store::new();
    s.add(item(7, "x", "up", "u")).unwrap();
    s.add(item(9, "y", "down", "v")).unwrap();
    let l = s.list();
    assert!(l
        .iter()
        .any(|it| it.id == 9 && it.name == "y" && it.status == "down" && it.stream_url == "v"));
}

#[test]
fn duplicate_add_keeps_collection_and_document() {
    let mut s = Store::new();
    s.add(item(1, "A", "up", "u1")).unwrap();
    s.add(item(2, "B", "down", "u2")).unwrap();
    let before = s.document();
    assert_eq!(s.add(item(2, "C", "up", "u3")), Err(RegistryError::DuplicateId));
    let after = s.document();
    assert_eq!(before, after);
    assert_eq!(s.list().len(), 2);
}

#[test]
fn delete_of_absent_id_changes_nothing() {
    let mut s = Store::new();
    s.add(item(1, "A", "up", "u1")).unwrap();
    let before = s.document();
    assert_eq!(s.delete(42), Err(RegistryError::NotFound));
    assert_eq!(s.document(), before);
    let l = s.list();
    assert_eq!(l.len(), 1);
    assert_item(&l[0], 1, "A", "up", "u1");
}

#[test]
fn update_is_idempotent() {
    let mut s = Store::new();
    s.add(item(1, "A", "up", "u1")).unwrap();
    s.add(item(2, "B", "down", "u2")).unwrap();
    s.update(item(1, "Z", "idle", "u9")).unwrap();
    let once = s.document();
    s.update(item(1, "Z", "idle", "u9")).unwrap();
    assert_eq!(s.document(), once);
    let l = s.list();
    assert_eq!(l.len(), 2);
    assert_item(&l[0], 1, "Z", "idle", "u9");
    assert_item(&l[1], 2, "B", "down", "u2");
}

#[test]
fn update_of_absent_id_is_rejected() {
    let mut s = Store::new();
    s.add(item(1, "A", "up", "u1")).unwrap();
    assert_eq!(s.update(item(3, "C", "up", "u3")), Err(RegistryError::NotFound));
    let l = s.list();
    assert_eq!(l.len(), 1);
    assert_item(&l[0], 1, "A", "up", "u1");
}

#[test]
fn update_keeps_position() {
    let mut s = Store::new();
    s.add(item(1, "A", "up", "u1")).unwrap();
    s.add(item(2, "B", "up", "u2")).unwrap();
    s.add(item(3, "C", "up", "u3")).unwrap();
    s.update(item(2, "B2", "down", "v2")).unwrap();
    let l = s.list();
    assert_eq!(l.len(), 3);
    assert_item(&l[0], 1, "A", "up", "u1");
    assert_item(&l[1], 2, "B2", "down", "v2");
    assert_item(&l[2], 3, "C", "up", "u3");
}

#[test]
fn delete_removes_only_the_target() {
    let mut s = Store::new();
    s.add(item(1, "A", "up", "u1")).unwrap();
    s.add(item(2, "B", "up", "u2")).unwrap();
    s.add(item(3, "C", "up", "u3")).unwrap();
    s.delete(2).unwrap();
    let l = s.list();
    assert_eq!(l.len(), 2);
    assert_item(&l[0], 1, "A", "up", "u1");
    assert_item(&l[1], 3, "C", "up", "u3");
}

#[test]
fn load_of_unparsable_text_yields_empty_registry() {
    assert_eq!(Store::load("").list().len(), 0);
    assert_eq!(Store::load("   ").list().len(), 0);
    assert_eq!(Store::load("not a document").list().len(), 0);
    assert_eq!(Store::load("[").list().len(), 0);
    assert_eq!(Store::load("[\n  {\"id\": 1").list().len(), 0);
}

#[test]
fn load_of_duplicate_ids_yields_empty_registry() {
    let mut s = Store::new();
    s.add(item(5, "A", "up", "u1")).unwrap();
    let doc = s.document();
    // splice the same record in twice: the ids collide
    let body = doc.strip_prefix("[\n").unwrap().strip_suffix("\n]").unwrap();
    let twice = format!("[\n{},\n{}\n]", body, body);
    assert_eq!(Store::load(&twice).list().len(), 0);
}

#[test]
fn save_then_load_round_trip() {
    let mut s = Store::new();
    s.add(item(1, "camera one", "up", "rtsp://one/stream")).unwrap();
    s.add(item(2, "she said \"hi\"", "down", "u\\v")).unwrap();
    s.add(item(4294967295, "", "", "")).unwrap();
    let restored = Store::load(s.document().as_str());
    let a = s.list();
    let b = restored.list();
    assert_eq!(a.len(), b.len());
    for (x, y) in a.iter().zip(b.iter()) {
        assert_eq!(x.id, y.id);
        assert_eq!(x.name, y.name);
        assert_eq!(x.status, y.status);
        assert_eq!(x.stream_url, y.stream_url);
    }
}
