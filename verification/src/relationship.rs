//! The relationship engine: which tags a file holds, and assigning and
//! removing file/tag links under the hierarchy's exclusivity rules.

use vstd::prelude::*;
use vstd::string::StrSliceExecFns;
use vstd::string::StringExecFns;
use crate::closure::{collect_tags_recursively, reachable};
use crate::common::{EntsTag, FileData, TagType, TagsFile, file_by_path_idx, find_string_pos,
    find_visible_tag, first_where, has_visible_tag, lemma_first_where, lemma_visible_tag_idx,
    resolve_alias, spec_resolve_alias, tag_files, tag_has_file, tag_matches, tag_visible,
    is_visible_tag, vec_contains_string, visible_tag_idx};
use crate::handle_file::{FileLocation, files_upserted, handle_file};
use crate::numstr::{dec_of, inode_to_string};

verus! {

/// A requested direction for a file/tag relationship change.
#[derive(Debug, Clone, Copy)]
pub enum Operation {
    Unknown,
    Add,
    Remove,
}

/// The operation a command token denotes.
pub open spec fn spec_operation_of(s: Seq<char>) -> Operation {
    if s == "assign"@ || s == "add"@ {
        Operation::Add
    } else if s == "remove"@ || s == "rm"@ {
        Operation::Remove
    } else {
        Operation::Unknown
    }
}

/// Character-wise string equality.
pub fn str_eq(a: &str, b: &str) -> (r: bool)
    ensures
        r == (a@ == b@),
{
    let an = a.unicode_len();
    let bn = b.unicode_len();
    if an != bn {
        proof {
            assert(a@ != b@);
        }
        return false;
    }
    let mut i: usize = 0;
    while i < an
        invariant
            an == a@.len(),
            an == b@.len(),
            0 <= i <= an,
            forall|j: int| 0 <= j < i ==> a@[j] == b@[j],
        decreases an - i,
    {
        if a.get_char(i) != b.get_char(i) {
            return false;
        }
        i += 1;
    }
    proof {
        assert(a@ =~= b@);
    }
    true
}

impl Operation {
    /// Read an operation token: `assign`/`add` or `remove`/`rm`.
    pub fn from(operation: &str) -> (r: Operation)
        ensures
            r == spec_operation_of(operation@),
    {
        if str_eq(operation, "assign") || str_eq(operation, "add") {
            Operation::Add
        } else if str_eq(operation, "remove") || str_eq(operation, "rm") {
            Operation::Remove
        } else {
            Operation::Unknown
        }
    }
}

/// What an assign or remove request reported.
#[derive(Debug, PartialEq, Eq)]
pub enum AssignOutcome {
    /// The file path could not be resolved to an identity.
    FileNotFound,
    /// No visible tag carries the resolved tag name.
    TagNotFound,
    /// The operation token was not recognized.
    InvalidOperation,
    /// Dud tags never receive files.
    DudRejected,
    /// Assigning an exclusive tag conflicted with these already-held names.
    ExclusiveConflict(Vec<String>),
    /// Assigning a normal tag conflicted with this exclusive ancestor.
    AncestorConflict(String),
    /// The link was added.
    Assigned,
    /// The link already existed; nothing changed.
    PreExisting,
    /// The link was deleted.
    Removed,
    /// There was no link to delete.
    NoLink,
}

/// Whether the identity resolver can resolve `path`: either a registry
/// record already carries it, or the filesystem probe found a location.
pub open spec fn file_resolves(
    files: Seq<FileData>,
    path: Seq<char>,
    probe: Option<FileLocation>,
) -> bool {
    file_by_path_idx(files, path) >= 0 || probe is Some
}

/// The identity that resolution yields, when it succeeds.
pub open spec fn resolved_inode(
    files: Seq<FileData>,
    path: Seq<char>,
    probe: Option<FileLocation>,
) -> u64 {
    if file_by_path_idx(files, path) >= 0 {
        files[file_by_path_idx(files, path)].file_inode
    } else {
        probe.unwrap().file_inode
    }
}

/// The names that conflict with assigning the exclusive tag named
/// `resolved`: every queryable name in its descendant closure (itself
/// included) together with its recorded ancestors.
pub open spec fn exclusive_conflict_set(tags: Seq<EntsTag>, resolved: Seq<char>) -> Set<Seq<char>> {
    Set::new(
        |n: Seq<char>|
            (reachable(tags, resolved, n) && has_visible_tag(tags, n) && tags[visible_tag_idx(
                tags,
                n,
            )].tag_type != TagType::Dud) || tags[visible_tag_idx(
                tags,
                resolved,
            )].ancestry.deep_view().contains(n),
    )
}

/// Index in `t.ancestry` of the first ancestor that blocks assigning the
/// normal tag `t` to file identity `f`: an ancestor already assigned to the
/// file whose first visible tag is exclusive.  -1 when none blocks.
pub open spec fn blocking_ancestor_idx(tags: Seq<EntsTag>, t: EntsTag, f: Seq<char>) -> int {
    first_where(
        t.ancestry.deep_view(),
        |a: Seq<char>|
            inspect_set(tags, f).contains(a) && has_visible_tag(tags, a) && tags[visible_tag_idx(
                tags,
                a,
            )].tag_type == TagType::Exclusive,
    )
}

/// The names of the visible tags that hold file identity `f`.
pub open spec fn inspect_set(tags: Seq<EntsTag>, f: Seq<char>) -> Set<Seq<char>> {
    Set::new(
        |n: Seq<char>|
            exists|i: int|
                0 <= i < tags.len() && #[trigger] tag_matches(tags[i], n) && tag_has_file(
                    tags[i],
                    f,
                ),
    )
}

/// Whether a tag holds the file identity `f` in its file list.
fn tag_contains_file(t: &EntsTag, f: &String) -> (r: bool)
    ensures
        r == tag_has_file(*t, f@),
{
    match &t.files {
        Some(v) => vec_contains_string(v, f),
        None => false,
    }
}

/// The names of the visible tags holding file identity `file_inode_str`,
/// each name once, in registry order.
pub fn single_inspect(tags_file: &TagsFile, file_inode_str: &String) -> (r: Vec<String>)
    ensures
        forall|n: Seq<char>| #[trigger]
            r.deep_view().contains(n) <==> inspect_set(tags_file.tags@, file_inode_str@).contains(
                n,
            ),
        forall|i: int, j: int| 0 <= i < j < r@.len() ==> r@[i]@ != r@[j]@,
{
    let tags = &tags_file.tags;
    let n = tags.len();
    let mut out: Vec<String> = Vec::new();
    let mut i: usize = 0;
    while i < n
        invariant
            n == tags@.len(),
            0 <= i <= n,
            forall|m: Seq<char>| #[trigger]
                out.deep_view().contains(m) <==> inspect_set(tags@.subrange(0, i as int),
                    file_inode_str@).contains(m),
            forall|p: int, q: int| 0 <= p < q < out@.len() ==> out@[p]@ != out@[q]@,
        decreases n - i,
    {
        let ghost pre = tags@.subrange(0, i as int);
        let ghost post = tags@.subrange(0, i + 1);
        proof {
            assert(post.drop_last() =~= pre);
            assert(post.last() == tags@[i as int]);
        }
        let t = &tags[i];
        if is_visible_tag(t) && tag_contains_file(t, file_inode_str) {
            if !vec_contains_string(&out, &t.name) {
                let ghost old_out = out.deep_view();
                out.push(t.name.clone());
                proof {
                    assert(out.deep_view() =~= old_out.push(tags@[i as int].name@));
                    assert forall|p: int|
                        0 <= p < out@.len() - 1 implies out@[p]@ != tags@[i as int].name@ by {
                        if out@[p]@ == tags@[i as int].name@ {
                            assert(old_out[p] == tags@[i as int].name@);
                            assert(old_out.contains(tags@[i as int].name@));
                        }
                    }
                    assert forall|m: Seq<char>| #[trigger]
                        out.deep_view().contains(m) implies inspect_set(post,
                        file_inode_str@).contains(m) by {
                        if m == tags@[i as int].name@ {
                            assert(tag_matches(post[i as int], m));
                            assert(tag_has_file(post[i as int], file_inode_str@));
                        } else {
                            assert(old_out.contains(m));
                            let k = choose|k: int|
                                0 <= k < pre.len() && #[trigger] tag_matches(pre[k], m)
                                    && tag_has_file(pre[k], file_inode_str@);
                            assert(tag_matches(post[k], m));
                        }
                    }
                    assert forall|m: Seq<char>|
                        inspect_set(post, file_inode_str@).contains(m) implies #[trigger]
                        out.deep_view().contains(m) by {
                        let k = choose|k: int|
                            0 <= k < post.len() && #[trigger] tag_matches(post[k], m)
                                && tag_has_file(post[k], file_inode_str@);
                        if k < i {
                            assert(tag_matches(pre[k], m));
                            assert(inspect_set(pre, file_inode_str@).contains(m));
                            assert(old_out.contains(m));
                            let w = choose|w: int| 0 <= w < old_out.len() && old_out[w] == m;
                            assert(out.deep_view()[w] == m);
                        } else {
                            assert(m == tags@[i as int].name@);
                            assert(out.deep_view().last() == m);
                        }
                    }
                }
            } else {
                proof {
                    assert forall|m: Seq<char>|
                        inspect_set(post, file_inode_str@).contains(m) implies #[trigger]
                        out.deep_view().contains(m) by {
                        let k = choose|k: int|
                            0 <= k < post.len() && #[trigger] tag_matches(post[k], m)
                                && tag_has_file(post[k], file_inode_str@);
                        if k < i {
                            assert(tag_matches(pre[k], m));
                            assert(inspect_set(pre, file_inode_str@).contains(m));
                        } else {
                            assert(m == tags@[i as int].name@);
                            assert(out.deep_view().contains(m));
                        }
                    }
                    assert forall|m: Seq<char>| #[trigger]
                        out.deep_view().contains(m) implies inspect_set(post,
                        file_inode_str@).contains(m) by {
                        assert(inspect_set(pre, file_inode_str@).contains(m));
                        let k = choose|k: int|
                            0 <= k < pre.len() && #[trigger] tag_matches(pre[k], m)
                                && tag_has_file(pre[k], file_inode_str@);
                        assert(tag_matches(post[k], m));
                    }
                }
            }
        } else {
            proof {
                assert forall|m: Seq<char>|
                    inspect_set(post, file_inode_str@).contains(m) implies #[trigger]
                    out.deep_view().contains(m) by {
                    let k = choose|k: int|
                        0 <= k < post.len() && #[trigger] tag_matches(post[k], m) && tag_has_file(
                            post[k],
                            file_inode_str@,
                        );
                    assert(k < i);
                    assert(tag_matches(pre[k], m));
                    assert(inspect_set(pre, file_inode_str@).contains(m));
                }
                assert forall|m: Seq<char>| #[trigger]
                    out.deep_view().contains(m) implies inspect_set(post,
                    file_inode_str@).contains(m) by {
                    assert(inspect_set(pre, file_inode_str@).contains(m));
                    let k = choose|k: int|
                        0 <= k < pre.len() && #[trigger] tag_matches(pre[k], m) && tag_has_file(
                            pre[k],
                            file_inode_str@,
                        );
                    assert(tag_matches(post[k], m));
                }
            }
        }
        i += 1;
    }
    proof {
        assert(tags@.subrange(0, n as int) =~= tags@);
    }
    out
}

/// All entries of `tags1` but the one at `i` agree with `tags0`.
pub open spec fn tags_updated_at(tags0: Seq<EntsTag>, tags1: Seq<EntsTag>, i: int) -> bool {
    &&& tags1.len() == tags0.len()
    &&& (forall|j: int| 0 <= j < tags0.len() && j != i ==> tags1[j] == tags0[j])
}

/// `t1` is `t0` with the file identity `f` appended to its file list and
/// nothing else changed.
pub open spec fn tag_with_file_pushed(t0: EntsTag, t1: EntsTag, f: Seq<char>) -> bool {
    &&& t1.name == t0.name
    &&& t1.tag_type == t0.tag_type
    &&& t1.children == t0.children
    &&& t1.ancestry == t0.ancestry
    &&& t1.show == t0.show
    &&& t1.child_tags == t0.child_tags
    &&& t1.alias == t0.alias
    &&& tag_files(t1) == tag_files(t0).push(f)
}

/// Position of the file identity `f` in a tag's file list, or -1.
pub open spec fn file_pos_in(t: EntsTag, f: Seq<char>) -> int {
    match tag_files(t).index_of_first(f) {
        Some(i) => i,
        None => -1,
    }
}

/// What `file_pos_in` returns: -1 exactly when the tag does not hold `f`,
/// else the least list position holding `f`.
pub proof fn lemma_file_pos_in(t: EntsTag, f: Seq<char>)
    ensures
        file_pos_in(t, f) == -1 ==> !tag_has_file(t, f),
        tag_has_file(t, f) ==> 0 <= file_pos_in(t, f) < tag_files(t).len(),
        tag_has_file(t, f) ==> tag_files(t)[file_pos_in(t, f)] == f,
        tag_has_file(t, f) ==> (forall|i: int|
            0 <= i < file_pos_in(t, f) ==> tag_files(t)[i] != f),
{
    tag_files(t).index_of_first_ensures(f);
}

/// `t1` is `t0` with the first occurrence of the file identity `f` deleted
/// from its file list and nothing else changed.
pub open spec fn tag_with_file_removed(t0: EntsTag, t1: EntsTag, f: Seq<char>) -> bool {
    &&& t1.name == t0.name
    &&& t1.tag_type == t0.tag_type
    &&& t1.children == t0.children
    &&& t1.ancestry == t0.ancestry
    &&& t1.show == t0.show
    &&& t1.child_tags == t0.child_tags
    &&& t1.alias == t0.alias
    &&& tag_files(t1) == tag_files(t0).remove(file_pos_in(t0, f))
}

/// Append the file identity `f` to the file list of the tag at `i`.
fn tag_push_file(tags: &mut Vec<EntsTag>, i: usize, f: String)
    requires
        i < old(tags)@.len(),
    ensures
        tags_updated_at(old(tags)@, final(tags)@, i as int),
        tag_with_file_pushed(old(tags)@[i as int], final(tags)@[i as int], f@),
{
    let ghost fv = f@;
    let t = &mut tags[i];
    let ghost t0 = *t;
    match &mut t.files {
        Some(v) => {
            let ghost v0 = v.deep_view();
            v.push(f);
            proof {
                assert(tag_files(*t) =~= v0.push(fv));
            }
        },
        None => {
            let mut v: Vec<String> = Vec::new();
            v.push(f);
            t.files = Some(v);
            proof {
                assert(tag_files(t0) =~= Seq::<Seq<char>>::empty());
                assert(tag_files(*t) =~= Seq::<Seq<char>>::empty().push(fv));
            }
        },
    }
}

/// Delete the first occurrence of the file identity `f` from the file list
/// of the tag at `i`; reports whether the link existed.
fn tag_remove_file(tags: &mut Vec<EntsTag>, i: usize, f: &String) -> (removed: bool)
    requires
        i < old(tags)@.len(),
    ensures
        tags_updated_at(old(tags)@, final(tags)@, i as int),
        removed == tag_has_file(old(tags)@[i as int], f@),
        removed ==> tag_with_file_removed(old(tags)@[i as int], final(tags)@[i as int], f@),
        !removed ==> final(tags)@[i as int] == old(tags)@[i as int],
{
    let ghost t0 = old(tags)@[i as int];
    proof {
        lemma_file_pos_in(t0, f@);
        tag_files(t0).index_of_first_ensures(f@);
    }
    let pos_opt = match &tags[i].files {
        Some(v) => find_string_pos(v, f),
        None => None,
    };
    match pos_opt {
        Some(k) => {
            proof {
                assert(tag_files(t0).index_of_first(f@) == Some(k as int));
                tag_files(t0).index_of_first_ensures(f@);
                assert(tag_files(t0)[k as int] == f@);
                assert(tag_has_file(t0, f@));
                assert(file_pos_in(t0, f@) == k);
            }
            let t = &mut tags[i];
            match &mut t.files {
                Some(v) => {
                    let ghost v0 = v.deep_view();
                    v.remove(k);
                    proof {
                        assert(v.deep_view() =~= v0.remove(k as int));
                    }
                },
                None => {
                    proof {
                        assert(false);
                    }
                },
            }
            true
        },
        None => {
            proof {
                assert(tag_files(t0).index_of_first(f@) is None);
                tag_files(t0).index_of_first_ensures(f@);
                assert(!tag_has_file(t0, f@));
            }
            false
        },
    }
}

/// The parts joined by `/` separators.
pub open spec fn join_slash(parts: Seq<Seq<char>>) -> Seq<char>
    decreases parts.len(),
{
    if parts.len() == 0 {
        Seq::empty()
    } else if parts.len() == 1 {
        parts[0]
    } else {
        join_slash(parts.drop_last()) + seq!['/'] + parts.last()
    }
}

/// A tag rendered as its full hierarchy path: the ancestry from the root,
/// then the tag's own name, joined by `/`.
pub open spec fn spec_tag_path(t: EntsTag) -> Seq<char> {
    join_slash(t.ancestry.deep_view().push(t.name@))
}

/// The full hierarchy paths of the visible tags that hold file identity `f`.
pub open spec fn inspect_path_set(tags: Seq<EntsTag>, f: Seq<char>) -> Set<Seq<char>> {
    Set::new(
        |p: Seq<char>|
            exists|i: int|
                0 <= i < tags.len() && tag_visible(tags[i]) && #[trigger] tag_has_file(tags[i], f)
                    && spec_tag_path(tags[i]) == p,
    )
}

/// Render a tag as its full hierarchy path.
pub fn join_tag_path(t: &EntsTag) -> (r: String)
    ensures
        r@ == spec_tag_path(*t),
{
    let ghost parts = t.ancestry.deep_view().push(t.name@);
    let n = t.ancestry.len();
    if n == 0 {
        let r = t.name.clone();
        proof {
            assert(parts.len() == 1);
            assert(parts[0] == t.name@);
        }
        return r;
    }
    let mut s = t.ancestry[0].clone();
    proof {
        assert(parts.subrange(0, 1).len() == 1);
        assert(parts.subrange(0, 1)[0] == t.ancestry@[0]@);
        assert(s@ == join_slash(parts.subrange(0, 1)));
    }
    let mut i: usize = 1;
    while i < n
        invariant
            n == t.ancestry@.len(),
            1 <= i <= n,
            parts == t.ancestry.deep_view().push(t.name@),
            s@ == join_slash(parts.subrange(0, i as int)),
        decreases n - i,
    {
        s.append("/");
        s.append(t.ancestry[i].as_str());
        proof {
            reveal_strlit("/");
            assert("/"@ =~= seq!['/']);
            let p1 = parts.subrange(0, i + 1);
            assert(p1.drop_last() =~= parts.subrange(0, i as int));
            assert(p1.last() == t.ancestry@[i as int]@);
            assert(s@ =~= join_slash(p1));
        }
        i += 1;
    }
    s.append("/");
    s.append(t.name.as_str());
    proof {
        reveal_strlit("/");
        assert("/"@ =~= seq!['/']);
        assert(parts.drop_last() =~= parts.subrange(0, n as int));
        assert(parts.last() == t.name@);
        assert(s@ =~= join_slash(parts));
    }
    s
}

/// The full hierarchy paths of the visible tags holding file identity
/// `file_inode_str`, each path once, in registry order.
pub fn represent_single_inspect(tags_file: &TagsFile, file_inode_str: &String) -> (r: Vec<String>)
    ensures
        forall|p: Seq<char>| #[trigger]
            r.deep_view().contains(p) <==> inspect_path_set(tags_file.tags@,
                file_inode_str@).contains(p),
        forall|i: int, j: int| 0 <= i < j < r@.len() ==> r@[i]@ != r@[j]@,
{
    let tags = &tags_file.tags;
    let n = tags.len();
    let mut out: Vec<String> = Vec::new();
    let mut i: usize = 0;
    while i < n
        invariant
            n == tags@.len(),
            0 <= i <= n,
            forall|m: Seq<char>| #[trigger]
                out.deep_view().contains(m) <==> inspect_path_set(tags@.subrange(0, i as int),
                    file_inode_str@).contains(m),
            forall|p: int, q: int| 0 <= p < q < out@.len() ==> out@[p]@ != out@[q]@,
        decreases n - i,
    {
        let ghost pre = tags@.subrange(0, i as int);
        let ghost post = tags@.subrange(0, i + 1);
        proof {
            assert(post.drop_last() =~= pre);
            assert(post.last() == tags@[i as int]);
        }
        let t = &tags[i];
        if is_visible_tag(t) && tag_contains_file(t, file_inode_str) {
            let path = join_tag_path(t);
            if !vec_contains_string(&out, &path) {
                let ghost old_out = out.deep_view();
                out.push(path);
                proof {
                    assert(out.deep_view() =~= old_out.push(spec_tag_path(tags@[i as int])));
                    assert forall|p: int|
                        0 <= p < out@.len() - 1 implies out@[p]@ != spec_tag_path(
                        tags@[i as int]) by {
                        if out@[p]@ == spec_tag_path(tags@[i as int]) {
                            assert(old_out[p] == spec_tag_path(tags@[i as int]));
                            assert(old_out.contains(spec_tag_path(tags@[i as int])));
                        }
                    }
                    assert forall|m: Seq<char>| #[trigger]
                        out.deep_view().contains(m) implies inspect_path_set(post,
                        file_inode_str@).contains(m) by {
                        if m == spec_tag_path(tags@[i as int]) {
                            assert(tag_has_file(post[i as int], file_inode_str@));
                        } else {
                            assert(old_out.contains(m));
                            let k = choose|k: int|
                                0 <= k < pre.len() && tag_visible(pre[k]) && #[trigger]
                                tag_has_file(pre[k], file_inode_str@) && spec_tag_path(pre[k])
                                    == m;
                            assert(tag_has_file(post[k], file_inode_str@));
                        }
                    }
                    assert forall|m: Seq<char>|
                        inspect_path_set(post, file_inode_str@).contains(m) implies #[trigger]
                        out.deep_view().contains(m) by {
                        let k = choose|k: int|
                            0 <= k < post.len() && tag_visible(post[k]) && #[trigger]
                            tag_has_file(post[k], file_inode_str@) && spec_tag_path(post[k]) == m;
                        if k < i {
                            assert(tag_has_file(pre[k], file_inode_str@));
                            assert(inspect_path_set(pre, file_inode_str@).contains(m));
                            assert(old_out.contains(m));
                            let w = choose|w: int| 0 <= w < old_out.len() && old_out[w] == m;
                            assert(out.deep_view()[w] == m);
                        } else {
                            assert(m == spec_tag_path(tags@[i as int]));
                            assert(out.deep_view().last() == m);
                        }
                    }
                }
            } else {
                proof {
                    assert forall|m: Seq<char>|
                        inspect_path_set(post, file_inode_str@).contains(m) implies #[trigger]
                        out.deep_view().contains(m) by {
                        let k = choose|k: int|
                            0 <= k < post.len() && tag_visible(post[k]) && #[trigger]
                            tag_has_file(post[k], file_inode_str@) && spec_tag_path(post[k]) == m;
                        if k < i {
                            assert(tag_has_file(pre[k], file_inode_str@));
                            assert(inspect_path_set(pre, file_inode_str@).contains(m));
                        } else {
                            assert(m == spec_tag_path(tags@[i as int]));
                        }
                    }
                    assert forall|m: Seq<char>| #[trigger]
                        out.deep_view().contains(m) implies inspect_path_set(post,
                        file_inode_str@).contains(m) by {
                        assert(inspect_path_set(pre, file_inode_str@).contains(m));
                        let k = choose|k: int|
                            0 <= k < pre.len() && tag_visible(pre[k]) && #[trigger] tag_has_file(
                                pre[k],
                                file_inode_str@,
                            ) && spec_tag_path(pre[k]) == m;
                        assert(tag_has_file(post[k], file_inode_str@));
                    }
                }
            }
        } else {
            proof {
                assert forall|m: Seq<char>|
                    inspect_path_set(post, file_inode_str@).contains(m) implies #[trigger]
                    out.deep_view().contains(m) by {
                    let k = choose|k: int|
                        0 <= k < post.len() && tag_visible(post[k]) && #[trigger] tag_has_file(
                            post[k],
                            file_inode_str@,
                        ) && spec_tag_path(post[k]) == m;
                    assert(k < i);
                    assert(tag_has_file(pre[k], file_inode_str@));
                    assert(inspect_path_set(pre, file_inode_str@).contains(m));
                }
                assert forall|m: Seq<char>| #[trigger]
                    out.deep_view().contains(m) implies inspect_path_set(post,
                    file_inode_str@).contains(m) by {
                    assert(inspect_path_set(pre, file_inode_str@).contains(m));
                    let k = choose|k: int|
                        0 <= k < pre.len() && tag_visible(pre[k]) && #[trigger] tag_has_file(
                            pre[k],
                            file_inode_str@,
                        ) && spec_tag_path(pre[k]) == m;
                    assert(tag_has_file(post[k], file_inode_str@));
                }
            }
        }
        i += 1;
    }
    proof {
        assert(tags@.subrange(0, n as int) =~= tags@);
    }
    out
}

/// Everything `assign_bidir_file_tag_rel` promises, as a relation between
/// the store before (`s0`) and after (`s1`) the call, the outcome `r`, and
/// the request: the file token, tag token, operation, and probe result.
pub open spec fn assign_post(
    s0: TagsFile,
    s1: TagsFile,
    r: AssignOutcome,
    file_name: Seq<char>,
    tag: Seq<char>,
    operation: Operation,
    probe: Option<FileLocation>,
) -> bool {
    &&& s1.aliases == s0.aliases
    &&& ({
        let files0 = s0.files@;
        let known = file_by_path_idx(files0, file_name);
        if known >= 0 {
            s1.files == s0.files
        } else {
            match probe {
                Some(loc) => files_upserted(files0, s1.files@, loc),
                None => s1.files == s0.files,
            }
        }
    })
    &&& ({
        let files0 = s0.files@;
        let tags0 = s0.tags@;
        let tags1 = s1.tags@;
        let resolved = spec_resolve_alias(s0.aliases@, tag);
        if !file_resolves(files0, file_name, probe) {
            r == AssignOutcome::FileNotFound && tags1 == tags0
        } else {
            let f = dec_of(resolved_inode(files0, file_name, probe) as nat);
            if !has_visible_tag(tags0, resolved) {
                r == AssignOutcome::TagNotFound && tags1 == tags0
            } else {
                let ti = visible_tag_idx(tags0, resolved);
                let t = tags0[ti];
                match operation {
                    Operation::Unknown => r == AssignOutcome::InvalidOperation && tags1 == tags0,
                    Operation::Add => {
                        if t.tag_type == TagType::Dud {
                            r == AssignOutcome::DudRejected && tags1 == tags0
                        } else if t.tag_type == TagType::Exclusive && (exists|n: Seq<char>|
                            #[trigger] inspect_set(tags0, f).contains(n)
                                && exclusive_conflict_set(tags0, resolved).contains(n)) {
                            &&& tags1 == tags0
                            &&& r matches AssignOutcome::ExclusiveConflict(v) && (forall|
                                n: Seq<char>,
                            | #[trigger]
                                v.deep_view().contains(n) <==> (inspect_set(tags0, f).contains(n)
                                    && exclusive_conflict_set(tags0, resolved).contains(n)))
                                && v.deep_view().no_duplicates()
                        } else if t.tag_type == TagType::Normal && blocking_ancestor_idx(
                            tags0,
                            t,
                            f,
                        ) >= 0 {
                            &&& tags1 == tags0
                            &&& r matches AssignOutcome::AncestorConflict(a) && a@
                                == t.ancestry.deep_view()[blocking_ancestor_idx(tags0, t, f)]
                        } else if tag_has_file(t, f) {
                            r == AssignOutcome::PreExisting && tags1 == tags0
                        } else {
                            &&& r == AssignOutcome::Assigned
                            &&& tags_updated_at(tags0, tags1, ti)
                            &&& tag_with_file_pushed(t, tags1[ti], f)
                        }
                    },
                    Operation::Remove => {
                        if tag_has_file(t, f) {
                            &&& r == AssignOutcome::Removed
                            &&& tags_updated_at(tags0, tags1, ti)
                            &&& tag_with_file_removed(t, tags1[ti], f)
                        } else {
                            r == AssignOutcome::NoLink && tags1 == tags0
                        }
                    },
                }
            }
        }
    })
}

/// Assign or remove a file/tag link, enforcing the hierarchy's rules.
///
/// The file is resolved to its stable identity first (registering it if the
/// probe found it on disk), then the tag token through the alias table to a
/// visible tag.  A dud tag never receives files.  An exclusive tag is
/// refused while the file holds any name of its conflict set (its queryable
/// descendants, itself included, and its ancestors).  A normal tag is
/// refused while the file holds an exclusive ancestor of it.  Accepted
/// assignments and removals are idempotent: an existing link is reported,
/// not duplicated, and a missing link is reported, not an error.
pub fn assign_bidir_file_tag_rel(
    file_name: &String,
    tag: &String,
    operation: Operation,
    tags_file: &mut TagsFile,
    probe: Option<FileLocation>,
) -> (r: AssignOutcome)
    ensures
        assign_post(*old(tags_file), *final(tags_file), r, file_name@, tag@, operation, probe),
{
    let ghost files0 = tags_file.files@;
    let ghost tags0 = tags_file.tags@;
    let ghost al0 = tags_file.aliases@;
    let file_inode = match handle_file(file_name, tags_file, probe) {
        Some(ino) => ino,
        None => {
            return AssignOutcome::FileNotFound;
        },
    };
    let file_inode_str = inode_to_string(file_inode);
    let ghost f = file_inode_str@;
    let ghost fsnap = tags_file.files;
    proof {
        assert(file_inode == resolved_inode(files0, file_name@, probe));
    }
    let display_tag_name = resolve_alias(&tags_file.aliases, tag);
    let ghost resolved = display_tag_name@;
    let foo_index = match find_visible_tag(&tags_file.tags, display_tag_name) {
        Some(i) => i,
        None => {
            return AssignOutcome::TagNotFound;
        },
    };
    proof {
        lemma_visible_tag_idx(tags0, resolved);
    }
    match operation {
        Operation::Add => {
            let tag_type = tags_file.tags[foo_index].tag_type;
            match tag_type {
                TagType::Dud => {
                    return AssignOutcome::DudRejected;
                },
                TagType::Exclusive => {
                    let bar = single_inspect(tags_file, &file_inode_str);
                    let pair = match collect_tags_recursively(tag, tags_file) {
                        Some(p) => p,
                        None => {
                            proof {
                                assert(false);
                            }
                            vstd::pervasive::unreached()
                        },
                    };
                    let qux = pair.1;
                    let mut conflicts: Vec<String> = Vec::new();
                    let bn = bar.len();
                    let mut bi: usize = 0;
                    while bi < bn
                        invariant
                            tags0 == tags_file.tags@,
                            tags_file.aliases == old(tags_file).aliases,
                            tags_file.files == fsnap,
                            resolved == spec_resolve_alias(tags_file.aliases@, tag@),
                            0 <= foo_index < tags0.len(),
                            foo_index == visible_tag_idx(tags0, resolved),
                            bn == bar@.len(),
                            0 <= bi <= bn,
                            forall|n: Seq<char>| #[trigger]
                                bar.deep_view().contains(n) <==> inspect_set(tags0, f).contains(n),
                            forall|p: int, q: int| 0 <= p < q < bar@.len() ==> bar@[p]@ != bar@[q]@,
                            forall|n: Seq<char>| #[trigger]
                                qux.deep_view().contains(n) <==> (reachable(tags0, resolved, n)
                                    && has_visible_tag(tags0, n) && tags0[visible_tag_idx(
                                    tags0,
                                    n,
                                )].tag_type != TagType::Dud),
                            forall|m: Seq<char>| #[trigger]
                                conflicts.deep_view().contains(m) <==> (bar.deep_view().subrange(
                                    0,
                                    bi as int,
                                ).contains(m) && exclusive_conflict_set(tags0, resolved).contains(
                                    m,
                                )),
                            forall|p: int, q: int|
                                0 <= p < q < conflicts@.len() ==> conflicts@[p]@ != conflicts@[q]@,
                        decreases bn - bi,
                    {
                        let ghost pre = bar.deep_view().subrange(0, bi as int);
                        let ghost post = bar.deep_view().subrange(0, bi + 1);
                        proof {
                            assert(post.drop_last() =~= pre);
                            assert(post.last() == bar@[bi as int]@);
                        }
                        let b = &bar[bi];
                        let in_closure = vec_contains_string(&qux, b);
                        let in_ancestry = vec_contains_string(
                            &tags_file.tags[foo_index].ancestry,
                            b,
                        );
                        if in_closure || in_ancestry {
                            let ghost cpre = conflicts.deep_view();
                            conflicts.push(b.clone());
                            proof {
                                assert(conflicts.deep_view() =~= cpre.push(b@));
                                assert(exclusive_conflict_set(tags0, resolved).contains(b@));
                                assert(!cpre.contains(b@)) by {
                                    if cpre.contains(b@) {
                                        assert(pre.contains(b@));
                                        let w = choose|w: int|
                                            0 <= w < pre.len() && pre[w] == b@;
                                        assert(bar@[w]@ == bar@[bi as int]@);
                                    }
                                }
                                assert forall|p: int|
                                    0 <= p < conflicts@.len() - 1 implies conflicts@[p]@
                                    != b@ by {
                                    if conflicts@[p]@ == b@ {
                                        assert(cpre[p] == b@);
                                        assert(cpre.contains(b@));
                                    }
                                }
                                assert forall|m: Seq<char>| #[trigger]
                                    conflicts.deep_view().contains(m) implies (post.contains(m)
                                    && exclusive_conflict_set(tags0, resolved).contains(m)) by {
                                    if m == b@ {
                                        assert(post.last() == m);
                                    } else {
                                        assert(cpre.contains(m));
                                        assert(pre.contains(m));
                                        let w = choose|w: int| 0 <= w < pre.len() && pre[w] == m;
                                        assert(post[w] == m);
                                    }
                                }
                                assert forall|m: Seq<char>|
                                    post.contains(m) && exclusive_conflict_set(
                                        tags0,
                                        resolved,
                                    ).contains(m) implies #[trigger]
                                    conflicts.deep_view().contains(m) by {
                                    let w = choose|w: int| 0 <= w < post.len() && post[w] == m;
                                    if w < bi {
                                        assert(pre[w] == m);
                                        assert(pre.contains(m));
                                        assert(cpre.contains(m));
                                        let w2 = choose|w2: int|
                                            0 <= w2 < cpre.len() && cpre[w2] == m;
                                        assert(conflicts.deep_view()[w2] == m);
                                    } else {
                                        assert(m == b@);
                                        assert(conflicts.deep_view().last() == m);
                                    }
                                }
                            }
                        } else {
                            proof {
                                assert(!qux.deep_view().contains(b@));
                                assert(!tags0[foo_index as int].ancestry.deep_view().contains(b@));
                                assert(!exclusive_conflict_set(tags0, resolved).contains(b@));
                                assert forall|m: Seq<char>|
                                    post.contains(m) && exclusive_conflict_set(
                                        tags0,
                                        resolved,
                                    ).contains(m) implies #[trigger]
                                    conflicts.deep_view().contains(m) by {
                                    let w = choose|w: int| 0 <= w < post.len() && post[w] == m;
                                    if w < bi {
                                        assert(pre[w] == m);
                                        assert(pre.contains(m));
                                    } else {
                                        assert(m == b@);
                                        assert(false);
                                    }
                                }
                                assert forall|m: Seq<char>| #[trigger]
                                    conflicts.deep_view().contains(m) implies (post.contains(m)
                                    && exclusive_conflict_set(tags0, resolved).contains(m)) by {
                                    assert(pre.contains(m));
                                    let w = choose|w: int| 0 <= w < pre.len() && pre[w] == m;
                                    assert(post[w] == m);
                                }
                            }
                        }
                        bi += 1;
                    }
                    proof {
                        assert(bar.deep_view().subrange(0, bn as int) =~= bar.deep_view());
                    }
                    if conflicts.len() > 0 {
                        proof {
                            let w = conflicts.deep_view()[0];
                            assert(conflicts.deep_view().contains(w));
                            assert(inspect_set(tags0, f).contains(w)
                                && exclusive_conflict_set(tags0, resolved).contains(w));
                        }
                        return AssignOutcome::ExclusiveConflict(conflicts);
                    }
                    proof {
                        assert forall|n: Seq<char>| #[trigger]
                            inspect_set(tags0, f).contains(n) implies !exclusive_conflict_set(
                            tags0,
                            resolved,
                        ).contains(n) by {
                            if exclusive_conflict_set(tags0, resolved).contains(n) {
                                assert(bar.deep_view().contains(n));
                                assert(conflicts.deep_view().contains(n));
                                let w = choose|w: int|
                                    0 <= w < conflicts.deep_view().len()
                                        && conflicts.deep_view()[w] == n;
                                assert(false);
                            }
                        }
                    }
                },
                TagType::Normal => {
                    let bar = single_inspect(tags_file, &file_inode_str);
                    let ghost anc = tags0[foo_index as int].ancestry.deep_view();
                    let ghost blocked = |a: Seq<char>|
                        inspect_set(tags0, f).contains(a) && has_visible_tag(tags0, a)
                            && tags0[visible_tag_idx(tags0, a)].tag_type == TagType::Exclusive;
                    let an = tags_file.tags[foo_index].ancestry.len();
                    let mut blocked_at: Option<usize> = None;
                    let mut ai: usize = 0;
                    while ai < an && blocked_at.is_none()
                        invariant
                            tags0 == tags_file.tags@,
                            0 <= foo_index < tags0.len(),
                            anc == tags0[foo_index as int].ancestry.deep_view(),
                            blocked == (|a: Seq<char>|
                                inspect_set(tags0, f).contains(a) && has_visible_tag(tags0, a)
                                    && tags0[visible_tag_idx(tags0, a)].tag_type
                                    == TagType::Exclusive),
                            an == anc.len(),
                            0 <= ai <= an,
                            forall|n: Seq<char>| #[trigger]
                                bar.deep_view().contains(n) <==> inspect_set(tags0, f).contains(n),
                            match blocked_at {
                                None => forall|w: int| 0 <= w < ai ==> !blocked(anc[w]),
                                Some(k) => 0 <= k < an && blocked(anc[k as int]) && (forall|w: int|
                                    0 <= w < k ==> !blocked(anc[w])),
                            },
                        decreases an - ai, (if blocked_at is None { 1int } else { 0int }),
                    {
                        let a = &tags_file.tags[foo_index].ancestry[ai];
                        proof {
                            assert(a@ == anc[ai as int]);
                        }
                        let assigned = vec_contains_string(&bar, a);
                        if assigned {
                            match find_visible_tag(&tags_file.tags, a) {
                                Some(anc_idx) => {
                                    proof {
                                        lemma_visible_tag_idx(tags0, a@);
                                    }
                                    let is_exclusive = match tags_file.tags[anc_idx].tag_type {
                                        TagType::Exclusive => true,
                                        _ => false,
                                    };
                                    if is_exclusive {
                                        proof {
                                            assert(blocked(anc[ai as int]));
                                        }
                                        blocked_at = Some(ai);
                                    } else {
                                        proof {
                                            assert(!blocked(anc[ai as int]));
                                        }
                                    }
                                },
                                None => {
                                    proof {
                                        assert(!blocked(anc[ai as int]));
                                    }
                                },
                            }
                        } else {
                            proof {
                                assert(!blocked(anc[ai as int]));
                            }
                        }
                        if blocked_at.is_none() {
                            ai += 1;
                        }
                    }
                    match blocked_at {
                        Some(k) => {
                            proof {
                                lemma_first_where(anc, blocked);
                                assert(blocking_ancestor_idx(tags0, tags0[foo_index as int], f)
                                    == k);
                            }
                            let a = tags_file.tags[foo_index].ancestry[k].clone();
                            return AssignOutcome::AncestorConflict(a);
                        },
                        None => {
                            proof {
                                lemma_first_where(anc, blocked);
                                if blocking_ancestor_idx(tags0, tags0[foo_index as int], f)
                                    >= 0 {
                                    let w = blocking_ancestor_idx(
                                        tags0,
                                        tags0[foo_index as int],
                                        f,
                                    );
                                    assert(blocked(anc[w]));
                                    assert(false);
                                }
                            }
                        },
                    }
                },
            }
            let present = tag_contains_file(&tags_file.tags[foo_index], &file_inode_str);
            if present {
                AssignOutcome::PreExisting
            } else {
                tag_push_file(&mut tags_file.tags, foo_index, file_inode_str);
                AssignOutcome::Assigned
            }
        },
        Operation::Remove => {
            let removed = tag_remove_file(&mut tags_file.tags, foo_index, &file_inode_str);
            if removed {
                AssignOutcome::Removed
            } else {
                proof {
                    assert(tags_file.tags@ =~= tags0);
                }
                AssignOutcome::NoLink
            }
        },
        Operation::Unknown => AssignOutcome::InvalidOperation,
    }
}

} // verus!
