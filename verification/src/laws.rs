//! The guarantees the relationship engine gives across whole requests:
//! what can never be assigned, which conflicts are always refused, and how
//! a pair of requests composes.  Each theorem is stated over the engine's
//! contract (`assign_post`), so it holds of every call.

use vstd::prelude::*;
use crate::closure::reachable;
use crate::common::{AliasEntry, TagType, TagsFile, EntsTag, has_visible_tag, lemma_first_where,
    lemma_first_where_congruent, lemma_visible_tag_idx, same_tag, spec_resolve_alias, tag_files,
    tag_has_file, tag_matches, tag_named, tag_visible, visible_tag_idx};
use crate::handle_file::FileLocation;
use crate::merge_tags::{absent_from, adopted_new_tag, any_tag_idx, hidden_tag, lemma_any_tag_idx,
    lemma_union_absorb, merge_post, merged_known_tag};
use crate::numstr::dec_of;
use crate::relationship::{AssignOutcome, Operation, assign_post, blocking_ancestor_idx,
    exclusive_conflict_set, file_pos_in, file_resolves, inspect_set, lemma_file_pos_in,
    resolved_inode, tag_with_file_pushed, tag_with_file_removed, tags_updated_at};

verus! {

/// A dud tag never receives files: an add request against a visible dud
/// tag changes no tag's file list, and reports the rejection whenever the
/// file itself resolves.
pub proof fn theorem_dud_assignment_rejected(
    s0: TagsFile,
    s1: TagsFile,
    r: AssignOutcome,
    file_name: Seq<char>,
    tag: Seq<char>,
    probe: Option<FileLocation>,
)
    requires
        assign_post(s0, s1, r, file_name, tag, Operation::Add, probe),
        has_visible_tag(s0.tags@, spec_resolve_alias(s0.aliases@, tag)),
        s0.tags@[visible_tag_idx(s0.tags@, spec_resolve_alias(s0.aliases@, tag))].tag_type
            == TagType::Dud,
    ensures
        s1.tags@ == s0.tags@,
        file_resolves(s0.files@, file_name, probe) ==> r == AssignOutcome::DudRejected,
        !file_resolves(s0.files@, file_name, probe) ==> r == AssignOutcome::FileNotFound,
{
}

/// Assigning an exclusive tag is refused while the file already holds any
/// queryable descendant of it, and the refusal cites that descendant.
pub proof fn theorem_exclusive_blocks_descendant(
    s0: TagsFile,
    s1: TagsFile,
    r: AssignOutcome,
    file_name: Seq<char>,
    tag: Seq<char>,
    probe: Option<FileLocation>,
    d: Seq<char>,
)
    requires
        assign_post(s0, s1, r, file_name, tag, Operation::Add, probe),
        file_resolves(s0.files@, file_name, probe),
        has_visible_tag(s0.tags@, spec_resolve_alias(s0.aliases@, tag)),
        s0.tags@[visible_tag_idx(s0.tags@, spec_resolve_alias(s0.aliases@, tag))].tag_type
            == TagType::Exclusive,
        reachable(s0.tags@, spec_resolve_alias(s0.aliases@, tag), d),
        has_visible_tag(s0.tags@, d),
        s0.tags@[visible_tag_idx(s0.tags@, d)].tag_type != TagType::Dud,
        inspect_set(
            s0.tags@,
            dec_of(resolved_inode(s0.files@, file_name, probe) as nat),
        ).contains(d),
    ensures
        s1.tags@ == s0.tags@,
        r matches AssignOutcome::ExclusiveConflict(v) && v.deep_view().contains(d),
{
    let resolved = spec_resolve_alias(s0.aliases@, tag);
    let f = dec_of(resolved_inode(s0.files@, file_name, probe) as nat);
    assert(exclusive_conflict_set(s0.tags@, resolved).contains(d));
    assert(inspect_set(s0.tags@, f).contains(d) && exclusive_conflict_set(
        s0.tags@,
        resolved,
    ).contains(d));
}

/// Assigning an exclusive tag is likewise refused while the file already
/// holds one of the tag's recorded ancestors, and the refusal cites it.
pub proof fn theorem_exclusive_blocked_by_held_ancestor(
    s0: TagsFile,
    s1: TagsFile,
    r: AssignOutcome,
    file_name: Seq<char>,
    tag: Seq<char>,
    probe: Option<FileLocation>,
    a: Seq<char>,
)
    requires
        assign_post(s0, s1, r, file_name, tag, Operation::Add, probe),
        file_resolves(s0.files@, file_name, probe),
        has_visible_tag(s0.tags@, spec_resolve_alias(s0.aliases@, tag)),
        s0.tags@[visible_tag_idx(s0.tags@, spec_resolve_alias(s0.aliases@, tag))].tag_type
            == TagType::Exclusive,
        s0.tags@[visible_tag_idx(
            s0.tags@,
            spec_resolve_alias(s0.aliases@, tag),
        )].ancestry.deep_view().contains(a),
        inspect_set(
            s0.tags@,
            dec_of(resolved_inode(s0.files@, file_name, probe) as nat),
        ).contains(a),
    ensures
        s1.tags@ == s0.tags@,
        r matches AssignOutcome::ExclusiveConflict(v) && v.deep_view().contains(a),
{
    let resolved = spec_resolve_alias(s0.aliases@, tag);
    let f = dec_of(resolved_inode(s0.files@, file_name, probe) as nat);
    assert(exclusive_conflict_set(s0.tags@, resolved).contains(a));
    assert(inspect_set(s0.tags@, f).contains(a) && exclusive_conflict_set(
        s0.tags@,
        resolved,
    ).contains(a));
}

/// Assigning a normal tag is refused while the file already holds an
/// exclusive ancestor of it.
pub proof fn theorem_normal_blocked_by_exclusive_ancestor(
    s0: TagsFile,
    s1: TagsFile,
    r: AssignOutcome,
    file_name: Seq<char>,
    tag: Seq<char>,
    probe: Option<FileLocation>,
    e: Seq<char>,
)
    requires
        assign_post(s0, s1, r, file_name, tag, Operation::Add, probe),
        file_resolves(s0.files@, file_name, probe),
        has_visible_tag(s0.tags@, spec_resolve_alias(s0.aliases@, tag)),
        s0.tags@[visible_tag_idx(s0.tags@, spec_resolve_alias(s0.aliases@, tag))].tag_type
            == TagType::Normal,
        s0.tags@[visible_tag_idx(
            s0.tags@,
            spec_resolve_alias(s0.aliases@, tag),
        )].ancestry.deep_view().contains(e),
        has_visible_tag(s0.tags@, e),
        s0.tags@[visible_tag_idx(s0.tags@, e)].tag_type == TagType::Exclusive,
        inspect_set(
            s0.tags@,
            dec_of(resolved_inode(s0.files@, file_name, probe) as nat),
        ).contains(e),
    ensures
        s1.tags@ == s0.tags@,
        r is AncestorConflict,
{
    let tags0 = s0.tags@;
    let resolved = spec_resolve_alias(s0.aliases@, tag);
    let f = dec_of(resolved_inode(s0.files@, file_name, probe) as nat);
    let t = tags0[visible_tag_idx(tags0, resolved)];
    let anc = t.ancestry.deep_view();
    let blocked = |x: Seq<char>|
        inspect_set(tags0, f).contains(x) && has_visible_tag(tags0, x) && tags0[visible_tag_idx(
            tags0,
            x,
        )].tag_type == TagType::Exclusive;
    lemma_first_where(anc, blocked);
    let w = choose|w: int| 0 <= w < anc.len() && anc[w] == e;
    assert(blocked(anc[w]));
    assert(blocking_ancestor_idx(tags0, t, f) >= 0);
}

/// After one tag's file list gains `f`, a file/tag question about `f` has
/// the same answer as before, except that the grown tag's name now counts.
proof fn lemma_inspect_after_push(
    tags0: Seq<EntsTag>,
    tags1: Seq<EntsTag>,
    ti: int,
    f: Seq<char>,
)
    requires
        0 <= ti < tags0.len(),
        tags_updated_at(tags0, tags1, ti),
        tag_with_file_pushed(tags0[ti], tags1[ti], f),
        tag_visible(tags0[ti]),
    ensures
        forall|x: Seq<char>|
            #![trigger inspect_set(tags1, f).contains(x)]
            inspect_set(tags1, f).contains(x) <==> (inspect_set(tags0, f).contains(x) || x
                == tags0[ti].name@),
{
    assert forall|x: Seq<char>|
        inspect_set(tags1, f).contains(x) implies (inspect_set(tags0, f).contains(x) || x
        == tags0[ti].name@) by {
        let i = choose|i: int|
            0 <= i < tags1.len() && #[trigger] tag_matches(tags1[i], x) && tag_has_file(
                tags1[i],
                f,
            );
        if i != ti {
            assert(tag_matches(tags0[i], x) && tag_has_file(tags0[i], f));
        } else {
            assert(x == tags0[ti].name@);
        }
    }
    assert forall|x: Seq<char>|
        (inspect_set(tags0, f).contains(x) || x == tags0[ti].name@) implies inspect_set(
        tags1,
        f,
    ).contains(x) by {
        if inspect_set(tags0, f).contains(x) {
            let i = choose|i: int|
                0 <= i < tags0.len() && #[trigger] tag_matches(tags0[i], x) && tag_has_file(
                    tags0[i],
                    f,
                );
            if i != ti {
                assert(tag_matches(tags1[i], x) && tag_has_file(tags1[i], f));
            } else {
                assert(tag_matches(tags1[ti], x));
                assert(tag_files(tags1[ti]).last() == f);
                assert(tag_has_file(tags1[ti], f));
            }
        } else {
            assert(tag_matches(tags1[ti], x));
            assert(tag_files(tags1[ti]).last() == f);
            assert(tag_has_file(tags1[ti], f));
        }
    }
}

/// A change to one tag's file list moves no tag name: every name lookup
/// lands on the same registry slot, and that slot keeps its kind, ancestry
/// and visibility.
proof fn lemma_lookup_preserved(
    tags0: Seq<EntsTag>,
    tags1: Seq<EntsTag>,
    ti: int,
    m: Seq<char>,
)
    requires
        0 <= ti < tags0.len(),
        tags_updated_at(tags0, tags1, ti),
        tags1[ti].name == tags0[ti].name,
        tags1[ti].show == tags0[ti].show,
    ensures
        visible_tag_idx(tags1, m) == visible_tag_idx(tags0, m),
        has_visible_tag(tags1, m) == has_visible_tag(tags0, m),
{
    let p = |t: EntsTag| tag_matches(t, m);
    assert forall|i: int| 0 <= i < tags1.len() implies p(#[trigger] tags1[i]) == p(tags0[i]) by {
        if i != ti {
            assert(tags1[i] == tags0[i]);
        }
    }
    lemma_first_where_congruent(tags1, tags0, p, p);
}

/// Adding the same link twice changes nothing the second time: once a
/// normal tag that is not its own ancestor has been assigned, repeating
/// the same request reports the link as pre-existing and leaves every
/// tag's file list as the first request left it.
pub proof fn theorem_assign_idempotent(
    s0: TagsFile,
    s1: TagsFile,
    s2: TagsFile,
    r1: AssignOutcome,
    r2: AssignOutcome,
    file_name: Seq<char>,
    tag: Seq<char>,
    probe1: Option<FileLocation>,
    probe2: Option<FileLocation>,
)
    requires
        assign_post(s0, s1, r1, file_name, tag, Operation::Add, probe1),
        r1 == AssignOutcome::Assigned,
        assign_post(s1, s2, r2, file_name, tag, Operation::Add, probe2),
        file_resolves(s1.files@, file_name, probe2),
        resolved_inode(s1.files@, file_name, probe2) == resolved_inode(
            s0.files@,
            file_name,
            probe1,
        ),
        s0.tags@[visible_tag_idx(s0.tags@, spec_resolve_alias(s0.aliases@, tag))].tag_type
            == TagType::Normal,
        !s0.tags@[visible_tag_idx(
            s0.tags@,
            spec_resolve_alias(s0.aliases@, tag),
        )].ancestry.deep_view().contains(spec_resolve_alias(s0.aliases@, tag)),
    ensures
        r2 == AssignOutcome::PreExisting,
        s2.tags@ == s1.tags@,
{
    let tags0 = s0.tags@;
    let tags1 = s1.tags@;
    let resolved = spec_resolve_alias(s0.aliases@, tag);
    let f = dec_of(resolved_inode(s0.files@, file_name, probe1) as nat);
    assert(file_resolves(s0.files@, file_name, probe1)) by {
        if !file_resolves(s0.files@, file_name, probe1) {
            assert(r1 == AssignOutcome::FileNotFound);
        }
    }
    assert(has_visible_tag(tags0, resolved)) by {
        if !has_visible_tag(tags0, resolved) {
            assert(r1 == AssignOutcome::TagNotFound);
        }
    }
    let ti = visible_tag_idx(tags0, resolved);
    let t = tags0[ti];
    lemma_visible_tag_idx(tags0, resolved);
    assert(tag_matches(t, resolved));
    assert(tags_updated_at(tags0, tags1, ti) && tag_with_file_pushed(t, tags1[ti], f));
    assert(s1.aliases == s0.aliases);
    assert(spec_resolve_alias(s1.aliases@, tag) == resolved);
    assert forall|m: Seq<char>|
        #![trigger visible_tag_idx(tags1, m)]
        visible_tag_idx(tags1, m) == visible_tag_idx(tags0, m) && has_visible_tag(tags1, m)
            == has_visible_tag(tags0, m) by {
        lemma_lookup_preserved(tags0, tags1, ti, m);
    }
    lemma_inspect_after_push(tags0, tags1, ti, f);
    let t1 = tags1[ti];
    assert(t1.tag_type == TagType::Normal);
    let anc = t.ancestry.deep_view();
    assert(t1.ancestry == t.ancestry);
    let blocked0 = |x: Seq<char>|
        inspect_set(tags0, f).contains(x) && has_visible_tag(tags0, x) && tags0[visible_tag_idx(
            tags0,
            x,
        )].tag_type == TagType::Exclusive;
    let blocked1 = |x: Seq<char>|
        inspect_set(tags1, f).contains(x) && has_visible_tag(tags1, x) && tags1[visible_tag_idx(
            tags1,
            x,
        )].tag_type == TagType::Exclusive;
    lemma_first_where(anc, blocked0);
    assert(blocking_ancestor_idx(tags0, t, f) == -1) by {
        lemma_first_where(anc, blocked0);
        if blocking_ancestor_idx(tags0, t, f) >= 0 {
            assert(r1 is AncestorConflict);
        }
    }
    assert forall|i: int| 0 <= i < anc.len() implies blocked1(#[trigger] anc[i]) == blocked0(
        anc[i],
    ) by {
        let x = anc[i];
        if x == resolved {
            assert(anc.contains(resolved));
        }
        assert(x != resolved);
        assert(x != t.name@);
        lemma_lookup_preserved(tags0, tags1, ti, x);
        if has_visible_tag(tags0, x) {
            let xi = visible_tag_idx(tags0, x);
            lemma_visible_tag_idx(tags0, x);
            if xi != ti {
                assert(tags1[xi] == tags0[xi]);
            } else {
                assert(tags1[xi].tag_type == tags0[xi].tag_type);
            }
        }
    }
    lemma_first_where_congruent(anc, anc, blocked1, blocked0);
    assert(blocking_ancestor_idx(tags1, t1, f) == -1);
    assert(tag_has_file(t1, f)) by {
        assert(tag_files(t1).last() == f);
    }
    assert(r2 == AssignOutcome::PreExisting);
}

/// Removing a link directly after adding it restores every tag's file
/// list exactly: the one touched tag gets its former list back, and no
/// other tag moves at all.
pub proof fn theorem_assign_remove_roundtrip(
    s0: TagsFile,
    s1: TagsFile,
    s2: TagsFile,
    r1: AssignOutcome,
    r2: AssignOutcome,
    file_name: Seq<char>,
    tag: Seq<char>,
    probe1: Option<FileLocation>,
    probe2: Option<FileLocation>,
)
    requires
        assign_post(s0, s1, r1, file_name, tag, Operation::Add, probe1),
        r1 == AssignOutcome::Assigned,
        assign_post(s1, s2, r2, file_name, tag, Operation::Remove, probe2),
        file_resolves(s1.files@, file_name, probe2),
        resolved_inode(s1.files@, file_name, probe2) == resolved_inode(
            s0.files@,
            file_name,
            probe1,
        ),
    ensures
        r2 == AssignOutcome::Removed,
        s2.tags@.len() == s0.tags@.len(),
        forall|j: int|
            0 <= j < s0.tags@.len() ==> tag_files(#[trigger] s2.tags@[j]) == tag_files(
                s0.tags@[j],
            ),
{
    let tags0 = s0.tags@;
    let tags1 = s1.tags@;
    let tags2 = s2.tags@;
    let resolved = spec_resolve_alias(s0.aliases@, tag);
    let f = dec_of(resolved_inode(s0.files@, file_name, probe1) as nat);
    assert(file_resolves(s0.files@, file_name, probe1)) by {
        if !file_resolves(s0.files@, file_name, probe1) {
            assert(r1 == AssignOutcome::FileNotFound);
        }
    }
    assert(has_visible_tag(tags0, resolved)) by {
        if !has_visible_tag(tags0, resolved) {
            assert(r1 == AssignOutcome::TagNotFound);
        }
    }
    let ti = visible_tag_idx(tags0, resolved);
    let t = tags0[ti];
    lemma_visible_tag_idx(tags0, resolved);
    assert(tags_updated_at(tags0, tags1, ti) && tag_with_file_pushed(t, tags1[ti], f));
    assert(!tag_has_file(t, f));
    assert(s1.aliases == s0.aliases);
    assert(spec_resolve_alias(s1.aliases@, tag) == resolved);
    lemma_lookup_preserved(tags0, tags1, ti, resolved);
    let t1 = tags1[ti];
    assert(tag_has_file(t1, f)) by {
        assert(tag_files(t1).last() == f);
    }
    assert(r2 == AssignOutcome::Removed);
    assert(tags_updated_at(tags1, tags2, ti) && tag_with_file_removed(t1, tags2[ti], f));
    let files0 = tag_files(t);
    assert(tag_files(t1) == files0.push(f));
    assert(file_pos_in(t1, f) == files0.len() as int) by {
        lemma_file_pos_in(t1, f);
        let fw = file_pos_in(t1, f);
        assert(tag_has_file(t1, f)) by {
            assert(tag_files(t1).last() == f);
        }
        if fw < files0.len() {
            assert(tag_files(t1)[fw] == f);
            assert(files0[fw] == f);
            assert(files0.contains(f));
        }
    }
    assert(tag_files(tags2[ti]) == tag_files(t1).remove(files0.len() as int));
    assert(tag_files(t1).remove(files0.len() as int) =~= files0);
    assert forall|j: int|
        0 <= j < tags0.len() implies tag_files(#[trigger] tags2[j]) == tag_files(tags0[j]) by {
        if j != ti {
            assert(tags2[j] == tags1[j]);
            assert(tags1[j] == tags0[j]);
        }
    }
}

/// Filtering a sequence none of whose elements pass yields nothing.
proof fn lemma_filter_none<A>(s: Seq<A>, pred: spec_fn(A) -> bool)
    requires
        forall|i: int| 0 <= i < s.len() ==> !pred(#[trigger] s[i]),
    ensures
        s.filter(pred).len() == 0,
    decreases s.len(),
{
    reveal(Seq::filter);
    if s.len() > 0 {
        let d = s.drop_last();
        assert forall|i: int| 0 <= i < d.len() implies !pred(#[trigger] d[i]) by {
            assert(d[i] == s[i]);
        }
        lemma_filter_none(d, pred);
        assert(!pred(s.last()));
    }
}

/// Filtering a sequence all of whose elements pass changes nothing.
proof fn lemma_filter_all<A>(s: Seq<A>, pred: spec_fn(A) -> bool)
    requires
        forall|i: int| 0 <= i < s.len() ==> pred(#[trigger] s[i]),
    ensures
        s.filter(pred) == s,
    decreases s.len(),
{
    reveal(Seq::filter);
    if s.len() == 0 {
        assert(s.filter(pred) =~= s);
    } else {
        let d = s.drop_last();
        assert forall|i: int| 0 <= i < d.len() implies pred(#[trigger] d[i]) by {
            assert(d[i] == s[i]);
        }
        lemma_filter_all(d, pred);
        assert(pred(s.last()));
        assert(s.filter(pred) =~= s);
    }
}

/// Reconciliation is a fixed point: merging a definition whose tag names
/// are unique into a store it was already merged into reproduces that
/// store: the same files, the same aliases, and every tag unchanged in
/// every field, with no visibility flips.
pub proof fn theorem_reconcile_fixed_point(
    na: Seq<AliasEntry>,
    nt: Seq<EntsTag>,
    ex: TagsFile,
    r1: TagsFile,
    r2: TagsFile,
)
    requires
        merge_post(na, nt, ex, r1),
        merge_post(na, nt, r1, r2),
        forall|i: int, j: int| 0 <= i < j < nt.len() ==> nt[i].name@ != nt[j].name@,
    ensures
        r2.files == r1.files,
        r2.aliases@ == r1.aliases@,
        r2.tags@.len() == r1.tags@.len(),
        forall|k: int| 0 <= k < r1.tags@.len() ==> same_tag(r1.tags@[k], #[trigger] r2.tags@[k]),
{
    let n = nt.len() as int;
    let pred = |e: EntsTag| absent_from(nt, e);
    let kept1 = ex.tags@.filter(pred);
    let t1 = r1.tags@;
    let t2 = r2.tags@;
    lemma_union_absorb(na, ex.aliases@);
    assert forall|i: int| 0 <= i < n implies #[trigger] t1[i].name@ == nt[i].name@ by {
        let j = any_tag_idx(ex.tags@, nt[i].name@);
        lemma_any_tag_idx(ex.tags@, nt[i].name@);
        if j >= 0 {
            assert(merged_known_tag(nt[i], ex.tags@[j], t1[i]));
            assert(tag_named(ex.tags@[j], nt[i].name@));
        } else {
            assert(adopted_new_tag(nt[i], t1[i]));
        }
    }
    assert(t1.len() == n + kept1.len());
    let a_part = t1.subrange(0, n);
    let b_part = t1.subrange(n, t1.len() as int);
    assert(t1 =~= a_part + b_part);
    assert forall|i: int| 0 <= i < n implies !pred(#[trigger] a_part[i]) by {
        assert(a_part[i] == t1[i]);
        lemma_any_tag_idx(nt, a_part[i].name@);
        if any_tag_idx(nt, a_part[i].name@) == -1 {
            assert(!tag_named(nt[i], a_part[i].name@));
        }
    }
    assert forall|j: int| 0 <= j < b_part.len() implies pred(#[trigger] b_part[j]) by {
        assert(hidden_tag(kept1[j], t1[n + j]));
        assert(b_part[j] == t1[n + j]);
        assert(b_part[j].name@ == kept1[j].name@);
        assert(pred(kept1[j])) by {
            ex.tags@.lemma_filter_pred(pred, j);
        }
    }
    Seq::filter_distributes_over_add(a_part, b_part, pred);
    lemma_filter_none(a_part, pred);
    lemma_filter_all(b_part, pred);
    let kept2 = t1.filter(pred);
    assert(kept2 =~= b_part) by {
        assert(t1 == a_part + b_part);
        assert((a_part + b_part).filter(pred) == a_part.filter(pred) + b_part.filter(pred));
        assert(a_part.filter(pred) + b_part.filter(pred) =~= b_part);
    }
    assert(t2.len() == n + kept2.len());
    assert forall|i: int| 0 <= i < n implies same_tag(t1[i], #[trigger] t2[i]) by {
        let j2 = any_tag_idx(t1, nt[i].name@);
        lemma_any_tag_idx(t1, nt[i].name@);
        assert(tag_named(t1[i], nt[i].name@));
        assert(j2 != -1);
        if j2 < i {
            if j2 < n {
                assert(t1[j2].name@ == nt[j2].name@);
                assert(tag_named(t1[j2], nt[i].name@));
            }
        }
        if j2 > i {
            assert(!tag_named(t1[i], nt[i].name@));
        }
        assert(j2 == i);
        assert(merged_known_tag(nt[i], t1[i], t2[i]));
        let j = any_tag_idx(ex.tags@, nt[i].name@);
        if j >= 0 {
            assert(merged_known_tag(nt[i], ex.tags@[j], t1[i]));
        } else {
            assert(adopted_new_tag(nt[i], t1[i]));
        }
    }
    assert forall|j: int| 0 <= j < b_part.len() implies same_tag(
        t1[n + j],
        #[trigger] t2[n + j],
    ) by {
        assert(hidden_tag(kept2[j], t2[n + j]));
        assert(kept2[j] == b_part[j]);
        assert(b_part[j] == t1[n + j]);
        assert(hidden_tag(kept1[j], t1[n + j]));
    }
    assert forall|k: int| 0 <= k < t1.len() implies same_tag(t1[k], #[trigger] t2[k]) by {
        if k >= n {
            assert(same_tag(t1[n + (k - n)], t2[n + (k - n)]));
        }
    }
}

} // verus!
