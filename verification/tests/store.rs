//! The store substrate: identity resolution, hierarchy building from parsed
//! lines, tag finalization, and reconciliation.

use prlents::common::{AliasEntry, EntsTag, FileData, TagType, TagsFile};
use prlents::handle_file::{handle_file, FileLocation};
use prlents::hierarchy::{build_hierarchy, ParsedTag};
use prlents::merge_tags::merge_tags;

fn s(x: &str) -> String {
    x.to_string()
}

fn tag(
    name: &str,
    kind: TagType,
    ancestry: &[&str],
    children: &[&str],
    show: Option<bool>,
    files: &[&str],
) -> EntsTag {
    EntsTag {
        name: s(name),
        tag_type: kind,
        children: children.iter().map(|c| s(c)).collect(),
        ancestry: ancestry.iter().map(|c| s(c)).collect(),
        show,
        files: Some(files.iter().map(|c| s(c)).collect()),
        child_tags: Vec::new(),
        alias: None,
    }
}

fn line(indent: usize, kind: TagType, name: &str, alias: Option<&str>) -> ParsedTag {
    ParsedTag { indent, tag_type: kind, name: s(name), alias: alias.map(|a| s(a)) }
}

#[test]
fn handle_file_fast_path_and_upsert() {
    let mut store = TagsFile {
        files: vec![FileData { last_known_name: s("a.txt"), file_inode: 5, parent_dir_inode: 1 }],
        aliases: Vec::new(),
        tags: Vec::new(),
    };
    // Known path: no probe needed.
    assert_eq!(handle_file(&s("a.txt"), &mut store, None), Some(5));
    assert_eq!(store.files.len(), 1);
    // Unknown path, no probe: unresolved.
    assert_eq!(handle_file(&s("b.txt"), &mut store, None), None);
    // Known identity found under a new path: the record is updated in place.
    let probe = Some(FileLocation { path: s("moved.txt"), file_inode: 5, parent_dir_inode: 9 });
    assert_eq!(handle_file(&s("moved.txt"), &mut store, probe), Some(5));
    assert_eq!(store.files.len(), 1);
    assert_eq!(store.files[0].last_known_name, s("moved.txt"));
    assert_eq!(store.files[0].parent_dir_inode, 9);
    // A brand-new identity is appended.
    let probe = Some(FileLocation { path: s("c.txt"), file_inode: 6, parent_dir_inode: 1 });
    assert_eq!(handle_file(&s("c.txt"), &mut store, probe), Some(6));
    assert_eq!(store.files.len(), 2);
    assert_eq!(store.files[1].file_inode, 6);
}

#[test]
fn hierarchy_from_indented_lines() {
    let parsed = vec![
        line(0, TagType::Exclusive, "Fruit", None),
        line(1, TagType::Normal, "Apple", Some("ap")),
        line(2, TagType::Normal, "Cox", None),
        line(1, TagType::Normal, "Banana", None),
        line(0, TagType::Normal, "Loose", None),
    ];
    let (tags, aliases) = build_hierarchy(&parsed);
    assert_eq!(tags.len(), 5);
    assert_eq!(tags[0].name, s("Fruit"));
    assert_eq!(tags[0].ancestry, Vec::<String>::new());
    assert_eq!(tags[0].children, vec![s("Apple"), s("Banana")]);
    assert_eq!(tags[1].ancestry, vec![s("Fruit")]);
    assert_eq!(tags[1].children, vec![s("Cox")]);
    assert_eq!(tags[2].ancestry, vec![s("Fruit"), s("Apple")]);
    assert_eq!(tags[2].children, Vec::<String>::new());
    assert_eq!(tags[3].ancestry, vec![s("Fruit")]);
    assert_eq!(tags[4].ancestry, Vec::<String>::new());
    assert!(tags.iter().all(|t| t.show == Some(true) && t.files.is_none()));
    assert_eq!(aliases.len(), 1);
    assert_eq!(aliases[0].alias, s("ap"));
    assert_eq!(aliases[0].canonical, s("Apple"));
}

#[test]
fn hierarchy_last_alias_definition_wins() {
    let parsed = vec![
        line(0, TagType::Normal, "One", Some("x")),
        line(0, TagType::Normal, "Two", Some("x")),
    ];
    let (_, aliases) = build_hierarchy(&parsed);
    assert_eq!(aliases.len(), 1);
    assert_eq!(aliases[0].canonical, s("Two"));
}

#[test]
fn finalize_rebuilds_children_from_subtrees() {
    let mut root = EntsTag::new(s("Root"), TagType::Normal, Vec::new());
    let mut kid = EntsTag::new(s("Kid"), TagType::Normal, vec![s("Root")]);
    kid.child_tags.push(EntsTag::new(s("Grand"), TagType::Normal, vec![s("Root"), s("Kid")]));
    root.child_tags.push(kid);
    root.child_tags.push(EntsTag::new(s("Sib"), TagType::Dud, vec![s("Root")]));
    root.finalize();
    assert_eq!(root.children, vec![s("Kid"), s("Sib")]);
    assert_eq!(root.child_tags[0].children, vec![s("Grand")]);
    assert_eq!(root.child_tags[1].children, Vec::<String>::new());
}

fn definition() -> (Vec<AliasEntry>, Vec<EntsTag>) {
    (
        vec![AliasEntry { alias: s("ap"), canonical: s("Apple") }],
        vec![
            tag("Fruit", TagType::Exclusive, &[], &["Apple"], Some(true), &[]),
            tag("Apple", TagType::Normal, &["Fruit"], &[], Some(true), &[]),
        ],
    )
}

#[test]
fn merge_into_empty_adopts_definition() {
    let (na, nt) = definition();
    let merged = merge_tags(na, nt, None);
    assert_eq!(merged.files.len(), 0);
    assert_eq!(merged.tags.len(), 2);
    assert!(merged.tags.iter().all(|t| t.show == Some(true)));
    assert_eq!(merged.aliases[0].alias, s("ap"));
}

#[test]
fn merge_keeps_file_refs_and_hides_vanished_tags() {
    let existing = TagsFile {
        files: vec![FileData { last_known_name: s("a.txt"), file_inode: 5, parent_dir_inode: 1 }],
        aliases: vec![AliasEntry { alias: s("old"), canonical: s("Pear") }],
        tags: vec![
            tag("Apple", TagType::Normal, &[], &[], Some(true), &["5"]),
            tag("Pear", TagType::Normal, &[], &[], Some(true), &["5"]),
        ],
    };
    let (na, nt) = definition();
    let merged = merge_tags(na, nt, Some(existing));
    assert_eq!(merged.files.len(), 1);
    assert_eq!(merged.tags.len(), 3);
    // The definition's structure wins, the old file links stay.
    assert_eq!(merged.tags[0].name, s("Fruit"));
    assert_eq!(merged.tags[0].show, Some(true));
    assert_eq!(merged.tags[1].name, s("Apple"));
    assert_eq!(merged.tags[1].ancestry, vec![s("Fruit")]);
    assert_eq!(merged.tags[1].files, Some(vec![s("5")]));
    // The vanished tag is hidden, never deleted, and keeps its links.
    assert_eq!(merged.tags[2].name, s("Pear"));
    assert_eq!(merged.tags[2].show, Some(false));
    assert_eq!(merged.tags[2].files, Some(vec![s("5")]));
    // New aliases win; old ones survive under other keys.
    assert_eq!(merged.aliases.len(), 2);
    assert_eq!(merged.aliases[0].alias, s("ap"));
    assert_eq!(merged.aliases[1].alias, s("old"));
}

#[test]
fn merge_is_a_fixed_point() {
    let existing = TagsFile {
        files: vec![FileData { last_known_name: s("a.txt"), file_inode: 5, parent_dir_inode: 1 }],
        aliases: vec![AliasEntry { alias: s("old"), canonical: s("Pear") }],
        tags: vec![
            tag("Apple", TagType::Normal, &[], &[], Some(true), &["5"]),
            tag("Pear", TagType::Normal, &[], &[], Some(true), &["5"]),
        ],
    };
    let (na1, nt1) = definition();
    let once = merge_tags(na1, nt1, Some(existing));
    let first = format!("{:?}", once);
    let (na2, nt2) = definition();
    let twice = merge_tags(na2, nt2, Some(once));
    assert_eq!(first, format!("{:?}", twice));
}

#[test]
fn rerun_with_deleted_tag_hides_it_but_keeps_refs() {
    // A store where Fruit and Apple both exist and Apple holds a file.
    let existing = TagsFile {
        files: vec![FileData { last_known_name: s("a.txt"), file_inode: 5, parent_dir_inode: 1 }],
        aliases: Vec::new(),
        tags: vec![
            tag("Fruit", TagType::Exclusive, &[], &["Apple"], Some(true), &[]),
            tag("Apple", TagType::Normal, &["Fruit"], &[], Some(true), &["5"]),
        ],
    };
    // The new definition dropped Apple.
    let nt = vec![tag("Fruit", TagType::Exclusive, &[], &[], Some(true), &[])];
    let merged = merge_tags(Vec::new(), nt, Some(existing));
    assert_eq!(merged.tags.len(), 2);
    assert_eq!(merged.tags[1].name, s("Apple"));
    assert_eq!(merged.tags[1].show, Some(false));
    assert_eq!(merged.tags[1].files, Some(vec![s("5")]));
    // Hidden tags answer no queries in either direction.
    assert!(prlents::filter::filter_collect_inodes(&merged, &vec![s("Apple")]).is_none());
    assert_eq!(
        prlents::relationship::single_inspect(&merged, &s("5")),
        Vec::<String>::new()
    );
}
