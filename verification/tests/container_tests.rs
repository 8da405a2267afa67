use visualoc_core::codec::{Corners, IdSet};
use visualoc_core::container::{Container, ContainerStore};
use visualoc_core::errors::Error;

fn corners_zero() -> Corners {
    Corners {
        x0: "0".to_string(),
        y0: "0".to_string(),
        x1: "1".to_string(),
        y1: "1".to_string(),
    }
}

fn container(id: &str, master: &str) -> Container {
    Container {
        id: id.to_string(),
        master: master.to_string(),
        name: id.to_string(),
        image_type: String::new(),
        slaves: IdSet::new(),
        corners: corners_zero(),
        contained_items: IdSet::new(),
    }
}

#[test]
fn add_links_child_into_parent_slaves() {
    let mut store = ContainerStore::new();
    store.add(container("root1", "Source")).unwrap();
    store.add(container("shelf", "root1")).unwrap();
    let root = store.get(&"root1".to_string()).unwrap();
    assert!(root.slaves.contains(&"shelf".to_string()));
    assert_eq!(store.len(), 2);
}

#[test]
fn add_existing_id_keeps_the_first_row() {
    let mut store = ContainerStore::new();
    store.add(container("c1", "Source")).unwrap();
    let mut other = container("c1", "Source");
    other.name = "imposter".to_string();
    store.add(other).unwrap();
    assert_eq!(store.len(), 1);
    assert_eq!(store.get(&"c1".to_string()).unwrap().name, "c1");
}

#[test]
fn update_replaces_fields_in_place() {
    let mut store = ContainerStore::new();
    store.add(container("c1", "Source")).unwrap();
    let mut edited = container("c1", "Source");
    edited.name = "renamed".to_string();
    store.update(edited).unwrap();
    assert_eq!(store.get(&"c1".to_string()).unwrap().name, "renamed");
    assert_eq!(store.update(container("ghost", "Source")), Err(Error::NotFound));
}

#[test]
fn remove_deletes_children_and_detaches_from_parent() {
    let mut store = ContainerStore::new();
    store.add(container("root1", "Source")).unwrap();
    store.add(container("mid", "root1")).unwrap();
    store.add(container("leaf1", "mid")).unwrap();
    store.add(container("leaf2", "mid")).unwrap();
    store.add(container("other", "root1")).unwrap();
    store.remove(&"mid".to_string()).unwrap();
    // the row, its direct children, and the parent's link are gone
    assert!(store.get(&"mid".to_string()).is_none());
    assert!(store.get(&"leaf1".to_string()).is_none());
    assert!(store.get(&"leaf2".to_string()).is_none());
    let root = store.get(&"root1".to_string()).unwrap();
    assert!(!root.slaves.contains(&"mid".to_string()));
    assert!(root.slaves.contains(&"other".to_string()));
    assert_eq!(store.remove(&"mid".to_string()), Err(Error::NotFound));
}

#[test]
fn get_children_resolves_by_membership() {
    let mut store = ContainerStore::new();
    store.add(container("root1", "Source")).unwrap();
    store.add(container("a", "root1")).unwrap();
    store.add(container("b", "root1")).unwrap();
    store.add(container("stranger", "Source")).unwrap();
    let kids = store.get_children(&"root1".to_string()).unwrap();
    let names: Vec<String> = kids.iter().map(|c| c.id.clone()).collect();
    assert_eq!(names, vec!["a", "b"]);
    assert!(store.get_children(&"nope".to_string()).is_err());
}

#[test]
fn locate_finds_holder_and_its_parent() {
    let mut store = ContainerStore::new();
    store.add(container("root1", "Source")).unwrap();
    store.add(container("bin", "root1")).unwrap();
    store.attach_item(&"bin".to_string(), &"itemX".to_string()).unwrap();
    let (holder, parent) = store.locate(&"itemX".to_string()).unwrap();
    assert_eq!(holder.id, "bin");
    assert_eq!(parent.id, "root1");
    assert!(store.locate(&"unassigned".to_string()).is_none());
}

#[test]
fn detach_keeps_item_row_resolvable() {
    // an item leaves its container's set without being deleted
    let mut store = ContainerStore::new();
    store.add(container("c1", "Source")).unwrap();
    store.attach_item(&"c1".to_string(), &"itemX".to_string()).unwrap();
    store.detach_item(&"c1".to_string(), &"itemX".to_string()).unwrap();
    let c1 = store.get(&"c1".to_string()).unwrap();
    assert!(!c1.contained_items.contains(&"itemX".to_string()));
    // the id is simply unassigned now, not gone
    let loose = store.unassigned_items(&vec!["itemX".to_string()]);
    assert_eq!(loose, vec!["itemX"]);
    assert!(store.locate(&"itemX".to_string()).is_none());
}

#[test]
fn attach_is_idempotent_and_checks_the_container() {
    let mut store = ContainerStore::new();
    store.add(container("c1", "Source")).unwrap();
    store.attach_item(&"c1".to_string(), &"i".to_string()).unwrap();
    store.attach_item(&"c1".to_string(), &"i".to_string()).unwrap();
    assert_eq!(store.get(&"c1".to_string()).unwrap().contained_items.len(), 1);
    assert_eq!(
        store.attach_item(&"ghost".to_string(), &"i".to_string()),
        Err(Error::NotFound)
    );
}

#[test]
fn unassigned_items_filters_by_all_containers() {
    let mut store = ContainerStore::new();
    store.add(container("c1", "Source")).unwrap();
    store.add(container("c2", "Source")).unwrap();
    store.attach_item(&"c1".to_string(), &"a".to_string()).unwrap();
    store.attach_item(&"c2".to_string(), &"b".to_string()).unwrap();
    let all = vec!["a".to_string(), "b".to_string(), "c".to_string()];
    assert_eq!(store.unassigned_items(&all), vec!["c"]);
}
