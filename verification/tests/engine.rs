//! The relationship engine end to end: assigning and removing links under
//! the hierarchy's exclusivity rules.

use prlents::common::{AliasEntry, EntsTag, FileData, TagType, TagsFile};
use prlents::handle_file::FileLocation;
use prlents::relationship::{assign_bidir_file_tag_rel, AssignOutcome, Operation};

fn s(x: &str) -> String {
    x.to_string()
}

fn tag(
    name: &str,
    kind: TagType,
    ancestry: &[&str],
    children: &[&str],
    show: Option<bool>,
    files: &[&str],
) -> EntsTag {
    EntsTag {
        name: s(name),
        tag_type: kind,
        children: children.iter().map(|c| s(c)).collect(),
        ancestry: ancestry.iter().map(|c| s(c)).collect(),
        show,
        files: Some(files.iter().map(|c| s(c)).collect()),
        child_tags: Vec::new(),
        alias: None,
    }
}

/// A store with `Fruit (Exclusive) -> { Apple, Banana }` (both Normal), a
/// lone `Loose` tag, a dud `Junk`, an alias `ap -> Apple`, and one tracked
/// file `f.txt` with identity 11.
fn fruit_store() -> TagsFile {
    TagsFile {
        files: vec![FileData {
            last_known_name: s("f.txt"),
            file_inode: 11,
            parent_dir_inode: 1,
        }],
        aliases: vec![AliasEntry { alias: s("ap"), canonical: s("Apple") }],
        tags: vec![
            tag("Fruit", TagType::Exclusive, &[], &["Apple", "Banana"], Some(true), &[]),
            tag("Apple", TagType::Normal, &["Fruit"], &[], Some(true), &[]),
            tag("Banana", TagType::Normal, &["Fruit"], &[], Some(true), &[]),
            tag("Loose", TagType::Normal, &[], &[], Some(true), &[]),
            tag("Junk", TagType::Dud, &[], &[], Some(true), &[]),
        ],
    }
}

fn add(store: &mut TagsFile, file: &str, t: &str) -> AssignOutcome {
    assign_bidir_file_tag_rel(&s(file), &s(t), Operation::Add, store, None)
}

fn remove(store: &mut TagsFile, file: &str, t: &str) -> AssignOutcome {
    assign_bidir_file_tag_rel(&s(file), &s(t), Operation::Remove, store, None)
}

#[test]
fn assign_and_boundary_scenario() {
    // Assign(f, Apple) succeeds; Assign(f, Fruit) is rejected citing Apple;
    // Assign(f, Banana) still succeeds, since only a directly assigned
    // exclusive ancestor blocks, not sibling membership.
    let mut store = fruit_store();
    assert_eq!(add(&mut store, "f.txt", "Apple"), AssignOutcome::Assigned);
    match add(&mut store, "f.txt", "Fruit") {
        AssignOutcome::ExclusiveConflict(v) => assert_eq!(v, vec![s("Apple")]),
        other => panic!("expected an exclusive conflict, got {:?}", other),
    }
    assert_eq!(add(&mut store, "f.txt", "Banana"), AssignOutcome::Assigned);
    assert_eq!(store.tags[1].files, Some(vec![s("11")]));
    assert_eq!(store.tags[2].files, Some(vec![s("11")]));
    assert_eq!(store.tags[0].files, Some(vec![]));
}

#[test]
fn dud_tag_never_assigned() {
    let mut store = fruit_store();
    assert_eq!(add(&mut store, "f.txt", "Junk"), AssignOutcome::DudRejected);
    for t in &store.tags {
        assert_eq!(t.files, Some(vec![]));
    }
}

#[test]
fn exclusive_held_blocks_normal_descendant() {
    // Holding the exclusive Fruit blocks Apple through its ancestry.
    let mut store = fruit_store();
    assert_eq!(add(&mut store, "f.txt", "Fruit"), AssignOutcome::Assigned);
    assert_eq!(
        add(&mut store, "f.txt", "Apple"),
        AssignOutcome::AncestorConflict(s("Fruit"))
    );
    assert_eq!(store.tags[1].files, Some(vec![]));
}

#[test]
fn assign_is_idempotent() {
    let mut store = fruit_store();
    assert_eq!(add(&mut store, "f.txt", "Apple"), AssignOutcome::Assigned);
    assert_eq!(add(&mut store, "f.txt", "Apple"), AssignOutcome::PreExisting);
    assert_eq!(store.tags[1].files, Some(vec![s("11")]));
}

#[test]
fn remove_after_assign_restores_file_refs() {
    let mut store = fruit_store();
    assert_eq!(add(&mut store, "f.txt", "Apple"), AssignOutcome::Assigned);
    assert_eq!(remove(&mut store, "f.txt", "Apple"), AssignOutcome::Removed);
    assert_eq!(store.tags[1].files, Some(vec![]));
    assert_eq!(remove(&mut store, "f.txt", "Apple"), AssignOutcome::NoLink);
}

#[test]
fn alias_resolves_to_canonical_tag() {
    let mut store = fruit_store();
    assert_eq!(add(&mut store, "f.txt", "ap"), AssignOutcome::Assigned);
    assert_eq!(store.tags[1].files, Some(vec![s("11")]));
}

#[test]
fn unknown_tag_and_operation_are_reported() {
    let mut store = fruit_store();
    assert_eq!(add(&mut store, "f.txt", "Vegetable"), AssignOutcome::TagNotFound);
    assert_eq!(
        assign_bidir_file_tag_rel(
            &s("f.txt"),
            &s("Apple"),
            Operation::Unknown,
            &mut store,
            None
        ),
        AssignOutcome::InvalidOperation
    );
}

#[test]
fn unresolvable_file_is_reported() {
    let mut store = fruit_store();
    assert_eq!(add(&mut store, "ghost.txt", "Apple"), AssignOutcome::FileNotFound);
    assert_eq!(store.tags[1].files, Some(vec![]));
}

#[test]
fn probe_registers_new_file() {
    let mut store = fruit_store();
    let probe = Some(FileLocation {
        path: s("g.txt"),
        file_inode: 12,
        parent_dir_inode: 1,
    });
    let r = assign_bidir_file_tag_rel(&s("g.txt"), &s("Apple"), Operation::Add, &mut store, probe);
    assert_eq!(r, AssignOutcome::Assigned);
    assert_eq!(store.files.len(), 2);
    assert_eq!(store.files[1].last_known_name, s("g.txt"));
    assert_eq!(store.files[1].file_inode, 12);
    assert_eq!(store.tags[1].files, Some(vec![s("12")]));
}

#[test]
fn hidden_tag_cannot_be_assigned() {
    let mut store = fruit_store();
    store.tags[3].show = Some(false);
    assert_eq!(add(&mut store, "f.txt", "Loose"), AssignOutcome::TagNotFound);
}

#[test]
fn operation_tokens() {
    assert!(matches!(Operation::from("assign"), Operation::Add));
    assert!(matches!(Operation::from("add"), Operation::Add));
    assert!(matches!(Operation::from("remove"), Operation::Remove));
    assert!(matches!(Operation::from("rm"), Operation::Remove));
    assert!(matches!(Operation::from("frobnicate"), Operation::Unknown));
}
