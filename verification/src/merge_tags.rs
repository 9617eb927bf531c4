//! The reconciliation engine: merge a freshly parsed tag-hierarchy
//! definition into the persisted store.  The new definition's structure
//! wins; existing file links are kept; tags that vanished from the
//! definition are hidden, never deleted.

use vstd::prelude::*;
use crate::common::{AliasEntry, EntsTag, TagsFile, alias_idx, alias_keyed, clone_opt_string,
    clone_opt_string_vec, clone_string_vec, first_where, lemma_alias_idx, lemma_first_where,
    same_tag, same_tag_except_show, tag_named};

verus! {

/// Index of the first tag named `name`, visible or hidden, or -1.
pub open spec fn any_tag_idx(tags: Seq<EntsTag>, name: Seq<char>) -> int {
    first_where(tags, |t: EntsTag| tag_named(t, name))
}

/// Whether the tag `e`'s name does not occur in the new definition.
pub open spec fn absent_from(new_tags: Seq<EntsTag>, e: EntsTag) -> bool {
    any_tag_idx(new_tags, e.name@) == -1
}

/// `m` adopts the structure the new definition gives the tag (`t`'s kind,
/// children and ancestry), is visible, and keeps everything else from the
/// existing tag `e`, its file links above all.
pub open spec fn merged_known_tag(t: EntsTag, e: EntsTag, m: EntsTag) -> bool {
    &&& m.name@ == e.name@
    &&& m.tag_type == t.tag_type
    &&& m.children@ == t.children@
    &&& m.ancestry@ == t.ancestry@
    &&& m.show == Some(true)
    &&& m.files.deep_view() == e.files.deep_view()
    &&& m.child_tags@.len() == e.child_tags@.len()
    &&& (forall|i: int|
        0 <= i < e.child_tags@.len() ==> same_tag(e.child_tags@[i], #[trigger] m.child_tags@[i]))
    &&& m.alias.deep_view() == e.alias.deep_view()
}

/// `m` is the new tag `t`, marked visible.
pub open spec fn adopted_new_tag(t: EntsTag, m: EntsTag) -> bool {
    same_tag_except_show(t, m) && m.show == Some(true)
}

/// `m` is the existing tag `e`, marked hidden.
pub open spec fn hidden_tag(e: EntsTag, m: EntsTag) -> bool {
    same_tag_except_show(e, m) && m.show == Some(false)
}

/// `base` extended, left to right, by the entries of `extra` whose keys it
/// does not yet hold.
pub open spec fn union_aliases(base: Seq<AliasEntry>, extra: Seq<AliasEntry>) -> Seq<AliasEntry>
    decreases extra.len(),
{
    if extra.len() == 0 {
        base
    } else {
        let next = if alias_idx(base, extra[0].alias@) == -1 {
            base.push(extra[0])
        } else {
            base
        };
        union_aliases(next, extra.drop_first())
    }
}

/// Find the first tag of this name, visible or hidden.
fn find_tag_by_name(tags: &Vec<EntsTag>, name: &String) -> (r: Option<usize>)
    ensures
        match r {
            Some(i) => any_tag_idx(tags@, name@) == i,
            None => any_tag_idx(tags@, name@) == -1,
        },
{
    proof {
        lemma_any_tag_idx(tags@, name@);
    }
    let n = tags.len();
    let mut i: usize = 0;
    while i < n
        invariant
            n == tags@.len(),
            0 <= i <= n,
            forall|j: int| 0 <= j < i ==> !tag_named(tags@[j], name@),
        decreases n - i,
    {
        if tags[i].name == *name {
            proof {
                lemma_any_tag_idx(tags@, name@);
                assert(tag_named(tags@[i as int], name@));
            }
            return Some(i);
        }
        i += 1;
    }
    proof {
        lemma_any_tag_idx(tags@, name@);
        if any_tag_idx(tags@, name@) >= 0 {
            assert(tag_named(tags@[any_tag_idx(tags@, name@)], name@));
        }
    }
    None
}

/// Find the first alias entry with this key.
pub(crate) fn find_alias_key(aliases: &Vec<AliasEntry>, key: &String) -> (r: Option<usize>)
    ensures
        match r {
            Some(i) => alias_idx(aliases@, key@) == i,
            None => alias_idx(aliases@, key@) == -1,
        },
{
    proof {
        lemma_alias_idx(aliases@, key@);
    }
    let n = aliases.len();
    let mut i: usize = 0;
    while i < n
        invariant
            n == aliases@.len(),
            0 <= i <= n,
            forall|j: int| 0 <= j < i ==> !alias_keyed(aliases@[j], key@),
        decreases n - i,
    {
        if aliases[i].alias == *key {
            proof {
                lemma_alias_idx(aliases@, key@);
                assert(alias_keyed(aliases@[i as int], key@));
            }
            return Some(i);
        }
        i += 1;
    }
    proof {
        lemma_alias_idx(aliases@, key@);
        if alias_idx(aliases@, key@) >= 0 {
            assert(alias_keyed(aliases@[alias_idx(aliases@, key@)], key@));
        }
    }
    None
}

/// Copy a vector of tags, element for element.
fn duplicate_tags(v: &Vec<EntsTag>) -> (r: Vec<EntsTag>)
    ensures
        r@.len() == v@.len(),
        forall|i: int| 0 <= i < v@.len() ==> same_tag(v@[i], #[trigger] r@[i]),
{
    let n = v.len();
    let mut r: Vec<EntsTag> = Vec::new();
    let mut i: usize = 0;
    while i < n
        invariant
            n == v@.len(),
            0 <= i <= n,
            r@.len() == i,
            forall|j: int| 0 <= j < i ==> same_tag(v@[j], #[trigger] r@[j]),
        decreases n - i,
    {
        r.push(v[i].duplicate());
        i += 1;
    }
    r
}

/// Everything `merge_tags` promises when an existing store is present, as
/// a relation between the definition (`new_aliases`, `new_tags`), the
/// existing store `ex`, and the merged store `r`.
pub open spec fn merge_post(
    new_aliases: Seq<AliasEntry>,
    new_tags: Seq<EntsTag>,
    ex: TagsFile,
    r: TagsFile,
) -> bool {
    let kept = ex.tags@.filter(|e: EntsTag| absent_from(new_tags, e));
    &&& r.files == ex.files
    &&& r.aliases@ == union_aliases(new_aliases, ex.aliases@)
    &&& r.tags@.len() == new_tags.len() + kept.len()
    &&& (forall|i: int|
        0 <= i < new_tags.len() ==> {
            let j = any_tag_idx(ex.tags@, new_tags[i].name@);
            if j >= 0 {
                merged_known_tag(new_tags[i], ex.tags@[j], #[trigger] r.tags@[i])
            } else {
                adopted_new_tag(new_tags[i], r.tags@[i])
            }
        })
    &&& (forall|j: int|
        0 <= j < kept.len() ==> hidden_tag(kept[j], #[trigger] r.tags@[new_tags.len() + j]))
}

/// What `any_tag_idx` returns: -1 exactly when no tag carries the name,
/// else the least registry slot that does.
pub proof fn lemma_any_tag_idx(tags: Seq<EntsTag>, name: Seq<char>)
    ensures
        any_tag_idx(tags, name) == -1 ==> (forall|i: int|
            0 <= i < tags.len() ==> !tag_named(tags[i], name)),
        any_tag_idx(tags, name) != -1 ==> 0 <= any_tag_idx(tags, name) < tags.len(),
        any_tag_idx(tags, name) != -1 ==> tag_named(tags[any_tag_idx(tags, name)], name),
        any_tag_idx(tags, name) != -1 ==> (forall|i: int|
            0 <= i < any_tag_idx(tags, name) ==> !tag_named(tags[i], name)),
{
    lemma_first_where(tags, |t: EntsTag| tag_named(t, name));
}

/// Merge a newly parsed definition (its aliases and tag tree; a definition
/// carries no file links) into the persisted store, if one exists.
///
/// Every tag of the new definition comes out visible, with the definition's
/// kind, children and ancestry; one that existed before keeps its file
/// links.  An existing tag absent from the definition is kept, hidden.  The
/// definition's aliases win on key collisions, and the file registry is
/// carried over unchanged.  With no existing store the definition is
/// adopted as is.
pub fn merge_tags(
    new_aliases: Vec<AliasEntry>,
    new_tags: Vec<EntsTag>,
    existing: Option<TagsFile>,
) -> (r: TagsFile)
    ensures
        match existing {
            None => {
                &&& r.files@.len() == 0
                &&& r.aliases == new_aliases
                &&& r.tags@.len() == new_tags@.len()
                &&& (forall|i: int|
                    0 <= i < new_tags@.len() ==> adopted_new_tag(
                        new_tags@[i],
                        #[trigger] r.tags@[i],
                    ))
            },
            Some(ex) => merge_post(new_aliases@, new_tags@, ex, r),
        },
{
    match existing {
        None => {
            let n = new_tags.len();
            let mut tags: Vec<EntsTag> = Vec::new();
            let mut i: usize = 0;
            while i < n
                invariant
                    n == new_tags@.len(),
                    0 <= i <= n,
                    tags@.len() == i,
                    forall|j: int|
                        0 <= j < i ==> adopted_new_tag(new_tags@[j], #[trigger] tags@[j]),
                decreases n - i,
            {
                let mut m = new_tags[i].duplicate();
                m.show = Some(true);
                tags.push(m);
                i += 1;
            }
            TagsFile { files: Vec::new(), aliases: new_aliases, tags }
        },
        Some(ex) => {
            let TagsFile { files: ex_files, aliases: ex_aliases, tags: ex_tags } = ex;
            let n = new_tags.len();
            let mut merged: Vec<EntsTag> = Vec::new();
            let mut i: usize = 0;
            while i < n
                invariant
                    n == new_tags@.len(),
                    0 <= i <= n,
                    merged@.len() == i,
                    forall|w: int|
                        0 <= w < i ==> ({
                            let j = any_tag_idx(ex_tags@, new_tags@[w].name@);
                            if j >= 0 {
                                merged_known_tag(new_tags@[w], ex_tags@[j], #[trigger] merged@[w])
                            } else {
                                adopted_new_tag(new_tags@[w], merged@[w])
                            }
                        }),
                decreases n - i,
            {
                let t = &new_tags[i];
                match find_tag_by_name(&ex_tags, &t.name) {
                    Some(j) => {
                        proof {
                            lemma_any_tag_idx(ex_tags@, t.name@);
                        }
                        let e = &ex_tags[j];
                        let m = EntsTag {
                            name: e.name.clone(),
                            tag_type: t.tag_type,
                            children: clone_string_vec(&t.children),
                            ancestry: clone_string_vec(&t.ancestry),
                            show: Some(true),
                            files: clone_opt_string_vec(&e.files),
                            child_tags: duplicate_tags(&e.child_tags),
                            alias: clone_opt_string(&e.alias),
                        };
                        merged.push(m);
                    },
                    None => {
                        let mut m = new_tags[i].duplicate();
                        m.show = Some(true);
                        merged.push(m);
                    },
                }
                i += 1;
            }
            let ghost new_part = merged@;
            let en = ex_tags.len();
            let mut k: usize = 0;
            while k < en
                invariant
                    n == new_tags@.len(),
                    en == ex_tags@.len(),
                    0 <= k <= en,
                    new_part.len() == n,
                    merged@.len() == n + ex_tags@.subrange(0, k as int).filter(
                        |e: EntsTag| absent_from(new_tags@, e),
                    ).len(),
                    merged@.subrange(0, n as int) == new_part,
                    forall|w: int|
                        0 <= w < ex_tags@.subrange(0, k as int).filter(
                            |e: EntsTag| absent_from(new_tags@, e),
                        ).len() ==> hidden_tag(
                            ex_tags@.subrange(0, k as int).filter(
                                |e: EntsTag| absent_from(new_tags@, e),
                            )[w],
                            #[trigger] merged@[n + w],
                        ),
                decreases en - k,
            {
                let ghost pred = |e: EntsTag| absent_from(new_tags@, e);
                let ghost pre = ex_tags@.subrange(0, k as int);
                let ghost post = ex_tags@.subrange(0, k + 1);
                proof {
                    reveal(Seq::filter);
                    assert(post.drop_last() =~= pre);
                    assert(post.last() == ex_tags@[k as int]);
                    assert(post.filter(pred) == if pred(ex_tags@[k as int]) {
                        pre.filter(pred).push(ex_tags@[k as int])
                    } else {
                        pre.filter(pred)
                    });
                }
                let e = &ex_tags[k];
                match find_tag_by_name(&new_tags, &e.name) {
                    None => {
                        let mut m = e.duplicate();
                        m.show = Some(false);
                        let ghost mpre = merged@;
                        merged.push(m);
                        proof {
                            assert(merged@.subrange(0, n as int) =~= mpre.subrange(0, n as int));
                            assert(pred(ex_tags@[k as int]));
                            assert forall|w: int|
                                0 <= w < post.filter(pred).len() implies hidden_tag(
                                post.filter(pred)[w],
                                #[trigger] merged@[n + w],
                            ) by {
                                if w < pre.filter(pred).len() {
                                    assert(post.filter(pred)[w] == pre.filter(pred)[w]);
                                    assert(merged@[n + w] == mpre[n + w]);
                                } else {
                                    assert(post.filter(pred)[w] == ex_tags@[k as int]);
                                    assert(merged@[n + w] == merged@.last());
                                }
                            }
                        }
                    },
                    Some(_) => {
                        proof {
                            assert(!pred(ex_tags@[k as int]));
                        }
                    },
                }
                k += 1;
            }
            proof {
                assert(ex_tags@.subrange(0, en as int) =~= ex_tags@);
                assert forall|w: int| 0 <= w < n implies #[trigger] merged@[w]
                    == new_part[w] by {
                    assert(merged@.subrange(0, n as int)[w] == merged@[w]);
                }
            }
            let mut aliases = new_aliases;
            let ghost base0 = aliases@;
            let an = ex_aliases.len();
            proof {
                assert(ex_aliases@.subrange(0, an as int) =~= ex_aliases@);
            }
            let mut a: usize = 0;
            while a < an
                invariant
                    an == ex_aliases@.len(),
                    0 <= a <= an,
                    union_aliases(aliases@, ex_aliases@.subrange(a as int, an as int))
                        == union_aliases(base0, ex_aliases@),
                decreases an - a,
            {
                let ghost restpre = ex_aliases@.subrange(a as int, an as int);
                proof {
                    assert(restpre.drop_first() =~= ex_aliases@.subrange(a + 1, an as int));
                    assert(restpre[0] == ex_aliases@[a as int]);
                }
                let entry = &ex_aliases[a];
                let ghost apre = aliases@;
                match find_alias_key(&aliases, &entry.alias) {
                    None => {
                        aliases.push(
                            AliasEntry {
                                alias: entry.alias.clone(),
                                canonical: entry.canonical.clone(),
                            },
                        );
                        proof {
                            assert(aliases@.last() == ex_aliases@[a as int]);
                            assert(aliases@ =~= apre.push(ex_aliases@[a as int]));
                        }
                    },
                    Some(_) => {},
                }
                a += 1;
            }
            proof {
                assert(ex_aliases@.subrange(an as int, an as int) =~= Seq::<AliasEntry>::empty());
            }
            TagsFile { files: ex_files, aliases, tags: merged }
        },
    }
}

/// The base is a prefix of the union built over it.
proof fn lemma_union_prefix(b: Seq<AliasEntry>, e: Seq<AliasEntry>)
    ensures
        union_aliases(b, e).len() >= b.len(),
        forall|i: int| 0 <= i < b.len() ==> #[trigger] union_aliases(b, e)[i] == b[i],
    decreases e.len(),
{
    if e.len() > 0 {
        let b2 = if alias_idx(b, e[0].alias@) == -1 {
            b.push(e[0])
        } else {
            b
        };
        lemma_union_prefix(b2, e.drop_first());
    }
}

/// Extending by a concatenation is extending by its parts in turn.
proof fn lemma_union_split(b: Seq<AliasEntry>, e1: Seq<AliasEntry>, e2: Seq<AliasEntry>)
    ensures
        union_aliases(b, e1 + e2) == union_aliases(union_aliases(b, e1), e2),
    decreases e1.len(),
{
    if e1.len() == 0 {
        assert(e1 + e2 =~= e2);
    } else {
        let cat = e1 + e2;
        assert(cat[0] == e1[0]);
        let b2 = if alias_idx(b, e1[0].alias@) == -1 {
            b.push(e1[0])
        } else {
            b
        };
        assert(cat.drop_first() =~= e1.drop_first() + e2);
        lemma_union_split(b2, e1.drop_first(), e2);
    }
}

/// Extras whose keys the base already holds change nothing.
proof fn lemma_union_subsumed(b: Seq<AliasEntry>, x: Seq<AliasEntry>)
    requires
        forall|i: int| 0 <= i < x.len() ==> alias_idx(b, #[trigger] x[i].alias@) >= 0,
    ensures
        union_aliases(b, x) == b,
    decreases x.len(),
{
    if x.len() > 0 {
        assert(alias_idx(b, x[0].alias@) >= 0);
        let d = x.drop_first();
        assert forall|i: int| 0 <= i < d.len() implies alias_idx(b, #[trigger] d[i].alias@)
            >= 0 by {
            assert(d[i] == x[i + 1]);
        }
        lemma_union_subsumed(b, d);
    }
}

/// Every entry of a list is found by its own key.
proof fn lemma_own_keys(b: Seq<AliasEntry>)
    ensures
        forall|i: int| 0 <= i < b.len() ==> alias_idx(b, #[trigger] b[i].alias@) >= 0,
{
    assert forall|i: int| 0 <= i < b.len() implies alias_idx(b, #[trigger] b[i].alias@) >= 0 by {
        lemma_alias_idx(b, b[i].alias@);
        if alias_idx(b, b[i].alias@) == -1 {
            assert(!alias_keyed(b[i], b[i].alias@));
        }
    }
}

/// Re-merging an already-merged alias table changes nothing.
pub proof fn lemma_union_absorb(b: Seq<AliasEntry>, e: Seq<AliasEntry>)
    ensures
        union_aliases(b, union_aliases(b, e)) == union_aliases(b, e),
    decreases e.len(),
{
    if e.len() == 0 {
        lemma_own_keys(b);
        lemma_union_subsumed(b, b);
    } else {
        let e0 = e[0];
        let edf = e.drop_first();
        lemma_alias_idx(b, e0.alias@);
        if alias_idx(b, e0.alias@) >= 0 {
            lemma_union_absorb(b, edf);
        } else {
            assert(alias_idx(b, e0.alias@) == -1);
            let b2 = b.push(e0);
            let u = union_aliases(b2, edf);
            assert(union_aliases(b, e) == u);
            lemma_union_absorb(b2, edf);
            lemma_union_prefix(b2, edf);
            let tail = u.subrange(b2.len() as int, u.len() as int);
            assert(u =~= b2 + tail);
            lemma_union_split(b2, b2, tail);
            lemma_own_keys(b2);
            lemma_union_subsumed(b2, b2);
            assert(union_aliases(b2, u) == union_aliases(b2, tail));
            assert(union_aliases(b2, tail) == u);
            assert(b2 =~= b + seq![e0]);
            assert(u =~= (b + seq![e0]) + tail);
            lemma_union_split(b, b + seq![e0], tail);
            lemma_union_split(b, b, seq![e0]);
            lemma_own_keys(b);
            lemma_union_subsumed(b, b);
            assert(seq![e0][0] == e0);
            assert(seq![e0].drop_first().len() == 0);
            assert(union_aliases(b, seq![e0]) == union_aliases(b.push(e0), seq![e0].drop_first()));
            assert(union_aliases(b, seq![e0]) == b.push(e0));
            assert(union_aliases(b, u) == union_aliases(b2, tail));
        }
    }
}

} // verus!
