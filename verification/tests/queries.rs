//! The query engine: closure expansion, inspection, the union filter, path
//! intersection, sorting, and the decimal identity strings.

use prlents::closure::collect_tags_recursively;
use prlents::common::{AliasEntry, EntsTag, FileData, TagType, TagsFile};
use prlents::filter::{filter_collect_inodes, intersect_paths, lookup_last_known, resolve_one,
    ResolveOutcome};
use prlents::numstr::{inode_to_string, parse_inode};
use prlents::order::{compare_strings, sort_dedup_paths};
use prlents::relationship::{represent_single_inspect, single_inspect};

fn s(x: &str) -> String {
    x.to_string()
}

fn tag(
    name: &str,
    kind: TagType,
    ancestry: &[&str],
    children: &[&str],
    show: Option<bool>,
    files: &[&str],
) -> EntsTag {
    EntsTag {
        name: s(name),
        tag_type: kind,
        children: children.iter().map(|c| s(c)).collect(),
        ancestry: ancestry.iter().map(|c| s(c)).collect(),
        show,
        files: Some(files.iter().map(|c| s(c)).collect()),
        child_tags: Vec::new(),
        alias: None,
    }
}

/// `Media (Dud) -> { Films (Exclusive) -> { Comedy }, Music }`, with file
/// identities scattered over the queryable tags.
fn media_store() -> TagsFile {
    TagsFile {
        files: vec![
            FileData { last_known_name: s("a.mkv"), file_inode: 21, parent_dir_inode: 2 },
            FileData { last_known_name: s("b.mp3"), file_inode: 22, parent_dir_inode: 2 },
        ],
        aliases: vec![AliasEntry { alias: s("mu"), canonical: s("Music") }],
        tags: vec![
            tag("Media", TagType::Dud, &[], &["Films", "Music"], Some(true), &[]),
            tag("Films", TagType::Exclusive, &["Media"], &["Comedy"], Some(true), &["21"]),
            tag("Comedy", TagType::Normal, &["Media", "Films"], &[], Some(true), &["21"]),
            tag("Music", TagType::Normal, &["Media"], &[], Some(true), &["22"]),
        ],
    }
}

#[test]
fn closure_includes_duds_only_in_full_set() {
    let store = media_store();
    let (all, queryable) = collect_tags_recursively(&s("Media"), &store).unwrap();
    assert_eq!(all, vec![s("Media"), s("Films"), s("Music"), s("Comedy")]);
    assert_eq!(queryable, vec![s("Films"), s("Music"), s("Comedy")]);
    assert!(collect_tags_recursively(&s("Nope"), &store).is_none());
}

#[test]
fn closure_follows_only_visible_children() {
    let mut store = media_store();
    store.tags[1].show = Some(false);
    let (all, _) = collect_tags_recursively(&s("Media"), &store).unwrap();
    assert_eq!(all, vec![s("Media"), s("Music")]);
}

#[test]
fn inspect_reports_only_visible_holders() {
    let mut store = media_store();
    let names = single_inspect(&store, &s("21"));
    assert_eq!(names, vec![s("Films"), s("Comedy")]);
    store.tags[1].show = Some(false);
    let names = single_inspect(&store, &s("21"));
    assert_eq!(names, vec![s("Comedy")]);
}

#[test]
fn inspect_renders_full_tag_paths() {
    let store = media_store();
    let paths = represent_single_inspect(&store, &s("21"));
    assert_eq!(paths, vec![s("Media/Films"), s("Media/Films/Comedy")]);
    let paths = represent_single_inspect(&store, &s("22"));
    assert_eq!(paths, vec![s("Media/Music")]);
}

#[test]
fn filter_gathers_union_of_closures() {
    let store = media_store();
    let inodes = filter_collect_inodes(&store, &vec![s("Media")]).unwrap();
    assert_eq!(sort_dedup_paths(inodes), vec![s("21"), s("22")]);
    let inodes = filter_collect_inodes(&store, &vec![s("mu")]).unwrap();
    assert_eq!(inodes, vec![s("22")]);
    assert!(filter_collect_inodes(&store, &vec![s("Music"), s("Nope")]).is_none());
}

#[test]
fn filter_on_hidden_tag_finds_nothing() {
    let mut store = media_store();
    store.tags[3].show = Some(false);
    // The hidden tag no longer resolves at all.
    assert!(filter_collect_inodes(&store, &vec![s("Music")]).is_none());
    // And its link is invisible to inspection as well.
    assert_eq!(single_inspect(&store, &s("22")), Vec::<String>::new());
}

#[test]
fn renamed_file_resolves_to_new_path_and_updates_record() {
    let mut store = media_store();
    let inodes = filter_collect_inodes(&store, &vec![s("Music")]).unwrap();
    assert_eq!(inodes, vec![s("22")]);
    assert_eq!(lookup_last_known(&store, &s("22")), Some(s("b.mp3")));
    // The file moved on disk; the caller's scan found it again.
    let got = resolve_one(&mut store, &s("22"), ResolveOutcome::FoundAt(s("tunes/b.mp3")));
    assert_eq!(got, Some(s("tunes/b.mp3")));
    assert_eq!(store.files[1].last_known_name, s("tunes/b.mp3"));
    assert_eq!(store.files[1].file_inode, 22);
}

#[test]
fn vanished_and_unknown_files_are_dropped() {
    let mut store = media_store();
    assert_eq!(resolve_one(&mut store, &s("22"), ResolveOutcome::Gone), None);
    assert_eq!(resolve_one(&mut store, &s("99"), ResolveOutcome::KnownPathExists), None);
    assert_eq!(resolve_one(&mut store, &s("not-a-number"), ResolveOutcome::KnownPathExists), None);
    assert_eq!(store.files[1].last_known_name, s("b.mp3"));
}

#[test]
fn sound_path_is_returned_unchanged() {
    let mut store = media_store();
    let got = resolve_one(&mut store, &s("21"), ResolveOutcome::KnownPathExists);
    assert_eq!(got, Some(s("a.mkv")));
    assert_eq!(store.files[0].last_known_name, s("a.mkv"));
}

#[test]
fn sorting_dedups_and_orders() {
    let v = vec![s("pear"), s("apple"), s("pear"), s("fig")];
    assert_eq!(sort_dedup_paths(v), vec![s("apple"), s("fig"), s("pear")]);
    assert_eq!(sort_dedup_paths(Vec::new()), Vec::<String>::new());
}

#[test]
fn string_comparison_is_lexicographic() {
    assert!(compare_strings(&s("abc"), &s("abd")) < 0);
    assert!(compare_strings(&s("ab"), &s("abc")) < 0);
    assert_eq!(compare_strings(&s("abc"), &s("abc")), 0);
    assert!(compare_strings(&s("b"), &s("a")) > 0);
}

#[test]
fn intersection_keeps_common_paths() {
    let a = vec![s("x"), s("y"), s("z")];
    let b = vec![s("z"), s("x")];
    assert_eq!(intersect_paths(&a, &b), vec![s("x"), s("z")]);
    assert_eq!(intersect_paths(&a, &Vec::new()), Vec::<String>::new());
}

#[test]
fn decimal_rendering_exact_values() {
    assert_eq!(inode_to_string(0), s("0"));
    assert_eq!(inode_to_string(7), s("7"));
    assert_eq!(inode_to_string(1234), s("1234"));
    assert_eq!(inode_to_string(u64::MAX), s("18446744073709551615"));
}

#[test]
fn decimal_reading_exact_values() {
    assert_eq!(parse_inode(&s("0")), Some(0));
    assert_eq!(parse_inode(&s("1234")), Some(1234));
    assert_eq!(parse_inode(&s("18446744073709551615")), Some(u64::MAX));
    assert_eq!(parse_inode(&s("18446744073709551616")), None);
    assert_eq!(parse_inode(&s("")), None);
    assert_eq!(parse_inode(&s("12a")), None);
    assert_eq!(parse_inode(&s("-4")), None);
}
