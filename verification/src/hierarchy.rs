//! Building the flat tag registry from a freshly parsed definition: one
//! top-down pass over the parsed lines, where each tag's ancestry is read
//! off the stack of currently open nodes.  Ancestry is computed only here,
//! never edited afterwards, so the forest stays acyclic by construction.

use vstd::prelude::*;
use crate::common::{AliasEntry, EntsTag, TagType, alias_idx, alias_keyed, clone_opt_string,
    lemma_alias_idx};

verus! {

/// One parsed definition line: its indentation level, tag kind, tag name,
/// and optional alias.
#[derive(Debug)]
pub struct ParsedTag {
    pub indent: usize,
    pub tag_type: TagType,
    pub name: String,
    pub alias: Option<String>,
}

/// The first `d` entries of the open-node stack, or all of it if it is
/// shallower.
pub open spec fn truncate_stack(st: Seq<int>, d: int) -> Seq<int> {
    if d < st.len() {
        st.subrange(0, d)
    } else {
        st
    }
}

/// The open-node stack (indices into `parsed`) after the first `i + 1`
/// lines have been processed.
pub open spec fn stack_after(parsed: Seq<ParsedTag>, i: int) -> Seq<int>
    decreases i + 1,
{
    if i < 0 {
        Seq::empty()
    } else {
        truncate_stack(stack_after(parsed, i - 1), parsed[i].indent as int).push(i)
    }
}

/// Every index on the stack refers to an already-processed line.
pub proof fn lemma_stack_bounds(parsed: Seq<ParsedTag>, i: int)
    ensures
        forall|w: int|
            0 <= w < stack_after(parsed, i).len() ==> 0 <= #[trigger] stack_after(parsed, i)[w]
                <= i,
    decreases i + 1,
{
    if i >= 0 {
        lemma_stack_bounds(parsed, i - 1);
        let prev = stack_after(parsed, i - 1);
        let tr = truncate_stack(prev, parsed[i].indent as int);
        assert forall|w: int|
            0 <= w < stack_after(parsed, i).len() implies 0 <= #[trigger] stack_after(parsed, i)[w]
            <= i by {
            if w < tr.len() {
                assert(tr[w] == prev[w]);
            }
        }
    }
}

/// The ancestry the definition pass derives for line `i`: the names on the
/// open-node stack, root first.
pub open spec fn ancestry_names(parsed: Seq<ParsedTag>, i: int) -> Seq<Seq<char>> {
    truncate_stack(stack_after(parsed, i - 1), parsed[i].indent as int).map_values(
        |j: int| parsed[j].name@,
    )
}

/// The parsed index of line `i`'s parent, or -1 for a root line.
pub open spec fn parent_of(parsed: Seq<ParsedTag>, i: int) -> int {
    let st = truncate_stack(stack_after(parsed, i - 1), parsed[i].indent as int);
    if st.len() == 0 {
        -1
    } else {
        st.last()
    }
}

/// A line's parent was processed before it.
pub proof fn lemma_parent_before(parsed: Seq<ParsedTag>, i: int)
    requires
        0 <= i,
    ensures
        parent_of(parsed, i) < i,
{
    lemma_stack_bounds(parsed, i - 1);
    let prev = stack_after(parsed, i - 1);
    let st = truncate_stack(prev, parsed[i].indent as int);
    if st.len() > 0 {
        let w = st.len() - 1;
        if parsed[i].indent < prev.len() {
            assert(st[w] == prev[w]);
        }
        assert(0 <= prev[w] <= i - 1);
    }
}

/// The names of the children of line `j`, among the first `upto` lines, in
/// definition order.
pub open spec fn children_upto(parsed: Seq<ParsedTag>, j: int, upto: int) -> Seq<Seq<char>>
    decreases upto,
{
    if upto <= 0 {
        Seq::empty()
    } else if parent_of(parsed, upto - 1) == j {
        children_upto(parsed, j, upto - 1).push(parsed[upto - 1].name@)
    } else {
        children_upto(parsed, j, upto - 1)
    }
}

/// A line has no children among the lines up to and including itself.
proof fn lemma_no_children_yet(parsed: Seq<ParsedTag>, j: int, upto: int)
    requires
        upto <= j + 1,
    ensures
        children_upto(parsed, j, upto) == Seq::<Seq<char>>::empty(),
    decreases upto,
{
    if upto > 0 {
        lemma_parent_before(parsed, upto - 1);
        lemma_no_children_yet(parsed, j, upto - 1);
    }
}

/// With unique names, no line's ancestry contains its own name: the stack
/// holds only earlier lines, so a built tag is never its own ancestor.
pub proof fn lemma_own_name_not_in_ancestry(parsed: Seq<ParsedTag>, i: int)
    requires
        0 <= i < parsed.len(),
        forall|p: int, q: int| 0 <= p < q < parsed.len() ==> parsed[p].name@ != parsed[q].name@,
    ensures
        !ancestry_names(parsed, i).contains(parsed[i].name@),
{
    lemma_stack_bounds(parsed, i - 1);
    let prev = stack_after(parsed, i - 1);
    let st = truncate_stack(prev, parsed[i].indent as int);
    let names = ancestry_names(parsed, i);
    if names.contains(parsed[i].name@) {
        let w = choose|w: int| 0 <= w < names.len() && names[w] == parsed[i].name@;
        assert(names[w] == parsed[st[w]].name@);
        assert(0 <= st[w] <= i - 1) by {
            if parsed[i].indent < prev.len() {
                assert(st[w] == prev[w]);
            }
        }
        assert(parsed[st[w]].name@ != parsed[i].name@);
    }
}

/// A prefix of the stack that ends at some entry is exactly the stack as it
/// stood right after that entry's own line was processed.
proof fn lemma_stack_prefix(parsed: Seq<ParsedTag>, m: int, q: int)
    requires
        0 <= q < stack_after(parsed, m).len(),
    ensures
        stack_after(parsed, m).subrange(0, q + 1) == stack_after(
            parsed,
            stack_after(parsed, m)[q],
        ),
    decreases m + 1,
{
    if m >= 0 {
        let st = stack_after(parsed, m);
        let prev = stack_after(parsed, m - 1);
        let tr = truncate_stack(prev, parsed[m].indent as int);
        if q == st.len() - 1 {
            assert(st[q] == m);
            assert(st.subrange(0, q + 1) =~= st);
        } else {
            assert(st[q] == tr[q]);
            assert(tr[q] == prev[q]) by {
                if (parsed[m].indent as int) < prev.len() {
                    assert(tr[q] == prev[q]);
                }
            }
            lemma_stack_prefix(parsed, m - 1, q);
            assert(st.subrange(0, q + 1) =~= prev.subrange(0, q + 1)) by {
                assert forall|w: int| 0 <= w < q + 1 implies st[w] == prev[w] by {
                    assert(st[w] == tr[w]);
                    if (parsed[m].indent as int) < prev.len() {
                        assert(tr[w] == prev[w]);
                    }
                }
            }
        }
    }
}

/// A root line's derived ancestry is empty.
pub proof fn lemma_root_ancestry(parsed: Seq<ParsedTag>, j: int)
    requires
        0 <= j < parsed.len(),
        parent_of(parsed, j) == -1,
    ensures
        ancestry_names(parsed, j) == Seq::<Seq<char>>::empty(),
{
    lemma_stack_bounds(parsed, j - 1);
    let prev = stack_after(parsed, j - 1);
    let st = truncate_stack(prev, parsed[j].indent as int);
    assert(st.len() == 0) by {
        if st.len() > 0 {
            let q = st.len() - 1;
            if (parsed[j].indent as int) < prev.len() {
                assert(st[q] == prev[q]);
            }
            assert(st[q] >= 0);
        }
    }
    assert(ancestry_names(parsed, j) =~= Seq::<Seq<char>>::empty());
}

/// A child line's derived ancestry is its parent's ancestry followed by the
/// parent's own name: ancestry is exactly the root-to-parent path.
pub proof fn lemma_child_ancestry(parsed: Seq<ParsedTag>, j: int)
    requires
        0 <= j < parsed.len(),
        parent_of(parsed, j) >= 0,
    ensures
        parent_of(parsed, j) < j,
        ancestry_names(parsed, j) == ancestry_names(parsed, parent_of(parsed, j)).push(
            parsed[parent_of(parsed, j)].name@,
        ),
{
    lemma_parent_before(parsed, j);
    lemma_stack_bounds(parsed, j - 1);
    let prev = stack_after(parsed, j - 1);
    let st = truncate_stack(prev, parsed[j].indent as int);
    let p = parent_of(parsed, j);
    let q = st.len() - 1;
    assert(st[q] == p);
    assert(st =~= prev.subrange(0, st.len() as int)) by {
        if (parsed[j].indent as int) >= prev.len() {
            assert(st == prev);
        }
    }
    assert(prev[q] == p) by {
        assert(st[q] == prev.subrange(0, st.len() as int)[q]);
    }
    lemma_stack_prefix(parsed, j - 1, q);
    assert(st == stack_after(parsed, p)) by {
        assert(st =~= prev.subrange(0, q + 1));
    }
    let trp = truncate_stack(stack_after(parsed, p - 1), parsed[p].indent as int);
    assert(st == trp.push(p));
    let an_j = ancestry_names(parsed, j);
    let an_p = ancestry_names(parsed, p);
    assert(an_j.len() == st.len());
    assert(an_p.len() == trp.len());
    assert(ancestry_names(parsed, j) =~= ancestry_names(parsed, p).push(parsed[p].name@)) by {
        assert forall|w: int| 0 <= w < an_j.len() implies #[trigger] an_j[w] == parsed[st[w]].name@
            by {}
        assert forall|w: int| 0 <= w < an_p.len() implies #[trigger] an_p[w]
            == parsed[trp[w]].name@ by {}
        assert forall|w: int| 0 <= w < st.len() - 1 implies an_j[w] == an_p[w] by {
            assert(st[w] == trp[w]);
        }
        assert(an_j[st.len() - 1] == parsed[p].name@);
    }
}

/// A name stands among a line's children exactly when it names a line whose
/// parent that line is, provided names are unique.
pub proof fn lemma_children_member(parsed: Seq<ParsedTag>, i: int, upto: int, j: int)
    requires
        forall|p: int, q: int| 0 <= p < q < parsed.len() ==> parsed[p].name@ != parsed[q].name@,
        0 <= j < upto <= parsed.len(),
    ensures
        children_upto(parsed, i, upto).contains(parsed[j].name@) <==> parent_of(parsed, j) == i,
    decreases upto,
{
    let c = upto - 1;
    let before = children_upto(parsed, i, c);
    let now = children_upto(parsed, i, upto);
    lemma_children_named(parsed, i, upto);
    if j == c {
        if parent_of(parsed, j) == i {
            assert(now.last() == parsed[j].name@);
        } else {
            if now.contains(parsed[j].name@) {
                let w = choose|w: int|
                    0 <= w < upto && parent_of(parsed, w) == i && #[trigger] parsed[w].name@
                        == parsed[j].name@;
                assert(w == j);
            }
        }
    } else {
        lemma_children_member(parsed, i, c, j);
        if parent_of(parsed, j) == i {
            assert(before.contains(parsed[j].name@));
            let w = choose|w: int| 0 <= w < before.len() && before[w] == parsed[j].name@;
            if parent_of(parsed, c) == i {
                assert(now[w] == parsed[j].name@);
            }
            assert(now.contains(parsed[j].name@));
        } else {
            if now.contains(parsed[j].name@) {
                let w = choose|w: int|
                    0 <= w < upto && parent_of(parsed, w) == i && #[trigger] parsed[w].name@
                        == parsed[j].name@;
                assert(w == j);
            }
        }
    }
}

/// Every name among a line's children names some earlier-bounded line whose
/// parent that line is.
proof fn lemma_children_named(parsed: Seq<ParsedTag>, i: int, upto: int)
    requires
        upto <= parsed.len(),
    ensures
        forall|m: Seq<char>|
            children_upto(parsed, i, upto).contains(m) ==> (exists|w: int|
                0 <= w < upto && parent_of(parsed, w) == i && #[trigger] parsed[w].name@ == m),
    decreases upto,
{
    if upto > 0 {
        let c = upto - 1;
        lemma_children_named(parsed, i, c);
        let before = children_upto(parsed, i, c);
        let now = children_upto(parsed, i, upto);
        assert forall|m: Seq<char>| now.contains(m) implies (exists|w: int|
            0 <= w < upto && parent_of(parsed, w) == i && #[trigger] parsed[w].name@ == m) by {
            if parent_of(parsed, c) == i && m == parsed[c].name@ {
                assert(parsed[c].name@ == m);
            } else {
                let v = choose|v: int| 0 <= v < now.len() && now[v] == m;
                if parent_of(parsed, c) == i {
                    assert(v < now.len() - 1);
                    assert(before[v] == m);
                } else {
                    assert(before[v] == m);
                }
                assert(before.contains(m));
            }
        }
    }
}

/// The parsed index of the last line that attaches an alias `key`, or -1.
pub open spec fn last_alias_def(parsed: Seq<ParsedTag>, key: Seq<char>) -> int
    decreases parsed.len(),
{
    if parsed.len() == 0 {
        -1
    } else {
        match parsed.last().alias {
            Some(a) => if a@ == key {
                parsed.len() - 1
            } else {
                last_alias_def(parsed.drop_last(), key)
            },
            None => last_alias_def(parsed.drop_last(), key),
        }
    }
}

/// Build the flat registry and alias table from the parsed definition
/// lines.
///
/// Each line becomes one visible tag carrying the line's name, kind and
/// alias, an empty file list, the ancestry read off the open-node stack,
/// and as children the names of the lines whose parent it is.  Each alias
/// token maps to the name of the last line that declared it, and alias
/// keys are never repeated.
pub fn build_hierarchy(parsed: &Vec<ParsedTag>) -> (r: (Vec<EntsTag>, Vec<AliasEntry>))
    ensures
        r.0@.len() == parsed@.len(),
        forall|i: int|
            0 <= i < parsed@.len() ==> {
                let t = #[trigger] r.0@[i];
                &&& t.name@ == parsed@[i].name@
                &&& t.tag_type == parsed@[i].tag_type
                &&& t.show == Some(true)
                &&& t.files is None
                &&& t.child_tags@.len() == 0
                &&& t.alias.deep_view() == parsed@[i].alias.deep_view()
                &&& t.ancestry.deep_view() == ancestry_names(parsed@, i)
                &&& t.children.deep_view() == children_upto(parsed@, i, parsed@.len() as int)
            },
        forall|p: int, q: int|
            0 <= p < q < r.1@.len() ==> r.1@[p].alias@ != r.1@[q].alias@,
        forall|w: int|
            0 <= w < r.1@.len() ==> {
                let e = #[trigger] r.1@[w];
                &&& last_alias_def(parsed@, e.alias@) >= 0
                &&& e.canonical@ == parsed@[last_alias_def(parsed@, e.alias@)].name@
            },
        forall|i: int|
            0 <= i < parsed@.len() && parsed@[i].alias is Some ==> alias_idx(
                r.1@,
                #[trigger] parsed@[i].alias.unwrap()@,
            ) >= 0,
{
    let n = parsed.len();
    let mut all_tags: Vec<EntsTag> = Vec::new();
    let mut aliases: Vec<AliasEntry> = Vec::new();
    let mut tag_stack: Vec<usize> = Vec::new();
    let mut i: usize = 0;
    while i < n
        invariant
            n == parsed@.len(),
            0 <= i <= n,
            all_tags@.len() == i,
            tag_stack@.len() == stack_after(parsed@, i - 1).len(),
            forall|w: int|
                0 <= w < tag_stack@.len() ==> tag_stack@[w] as int == #[trigger] stack_after(
                    parsed@,
                    i - 1,
                )[w],
            forall|w: int| 0 <= w < tag_stack@.len() ==> 0 <= #[trigger] tag_stack@[w] < i,
            forall|j: int|
                0 <= j < i ==> {
                    let t = #[trigger] all_tags@[j];
                    &&& t.name@ == parsed@[j].name@
                    &&& t.tag_type == parsed@[j].tag_type
                    &&& t.show == Some(true)
                    &&& t.files is None
                    &&& t.child_tags@.len() == 0
                    &&& t.alias.deep_view() == parsed@[j].alias.deep_view()
                    &&& t.ancestry.deep_view() == ancestry_names(parsed@, j)
                    &&& t.children.deep_view() == children_upto(parsed@, j, i as int)
                },
            forall|p: int, q: int|
                0 <= p < q < aliases@.len() ==> aliases@[p].alias@ != aliases@[q].alias@,
            forall|w: int|
                0 <= w < aliases@.len() ==> {
                    let e = #[trigger] aliases@[w];
                    &&& last_alias_def(parsed@.subrange(0, i as int), e.alias@) >= 0
                    &&& e.canonical@ == parsed@[last_alias_def(
                        parsed@.subrange(0, i as int),
                        e.alias@,
                    )].name@
                },
            forall|ii: int|
                0 <= ii < i && parsed@[ii].alias is Some ==> alias_idx(
                    aliases@,
                    #[trigger] parsed@[ii].alias.unwrap()@,
                ) >= 0,
        decreases n - i,
    {
        let ghost pre = parsed@.subrange(0, i as int);
        let ghost post = parsed@.subrange(0, i + 1);
        proof {
            assert(post.drop_last() =~= pre);
            assert(post.last() == parsed@[i as int]);
        }
        let p = &parsed[i];
        match &p.alias {
            Some(al) => {
                let ghost key = al@;
                proof {
                    assert(last_alias_def(post, key) == i);
                    assert forall|k2: Seq<char>| k2 != key implies last_alias_def(post, k2)
                        == last_alias_def(pre, k2) by {}
                    lemma_alias_idx(aliases@, key);
                }
                let ghost apre = aliases@;
                match crate::merge_tags::find_alias_key(&aliases, al) {
                    Some(w) => {
                        let e = &mut aliases[w];
                        e.canonical = p.name.clone();
                        proof {
                            assert(aliases@ =~= apre.update(w as int, aliases@[w as int]));
                            assert(aliases@[w as int].alias@ == key);
                            assert forall|ii: int|
                                0 <= ii < i + 1 && parsed@[ii].alias is Some implies alias_idx(
                                aliases@,
                                #[trigger] parsed@[ii].alias.unwrap()@,
                            ) >= 0 by {
                                let k2 = parsed@[ii].alias.unwrap()@;
                                lemma_alias_idx(apre, k2);
                                lemma_alias_idx(aliases@, k2);
                                if ii < i {
                                    let w2 = alias_idx(apre, k2);
                                    assert(alias_keyed(apre[w2], k2));
                                    assert(aliases@[w2].alias@ == apre[w2].alias@);
                                    if alias_idx(aliases@, k2) == -1 {
                                        assert(!alias_keyed(aliases@[w2], k2));
                                    }
                                } else {
                                    if alias_idx(aliases@, k2) == -1 {
                                        assert(!alias_keyed(aliases@[w as int], k2));
                                    }
                                }
                            }
                        }
                    },
                    None => {
                        aliases.push(AliasEntry { alias: al.clone(), canonical: p.name.clone() });
                        proof {
                            assert(aliases@ =~= apre.push(aliases@[aliases@.len() - 1]));
                            assert(aliases@.last().alias@ == key);
                            assert forall|pp: int, q: int|
                                0 <= pp < q < aliases@.len() implies aliases@[pp].alias@
                                != aliases@[q].alias@ by {
                                if q == aliases@.len() - 1 {
                                    if aliases@[pp].alias@ == key {
                                        assert(alias_keyed(apre[pp], key));
                                    }
                                }
                            }
                            assert forall|ii: int|
                                0 <= ii < i + 1 && parsed@[ii].alias is Some implies alias_idx(
                                aliases@,
                                #[trigger] parsed@[ii].alias.unwrap()@,
                            ) >= 0 by {
                                let k2 = parsed@[ii].alias.unwrap()@;
                                lemma_alias_idx(apre, k2);
                                lemma_alias_idx(aliases@, k2);
                                if ii < i {
                                    let w2 = alias_idx(apre, k2);
                                    assert(alias_keyed(apre[w2], k2));
                                    assert(aliases@[w2].alias@ == apre[w2].alias@);
                                    if alias_idx(aliases@, k2) == -1 {
                                        assert(!alias_keyed(aliases@[w2], k2));
                                    }
                                } else {
                                    if alias_idx(aliases@, k2) == -1 {
                                        assert(!alias_keyed(aliases@[aliases@.len() - 1], k2));
                                    }
                                }
                            }
                        }
                    },
                }
            },
            None => {
                proof {
                    assert forall|k2: Seq<char>| true implies last_alias_def(post, k2)
                        == last_alias_def(pre, k2) by {}
                }
            },
        }
        let ghost stack_pre = stack_after(parsed@, i - 1);
        tag_stack.truncate(p.indent);
        let ghost tr = truncate_stack(stack_pre, parsed@[i as int].indent as int);
        proof {
            assert(tag_stack@.len() == tr.len());
            assert forall|w: int|
                0 <= w < tag_stack@.len() implies tag_stack@[w] as int == #[trigger] tr[w] by {
                if (parsed@[i as int].indent as int) < stack_pre.len() {
                    assert(tr[w] == stack_pre[w]);
                }
            }
        }
        let depth = tag_stack.len();
        let mut ancestry: Vec<String> = Vec::new();
        let mut w: usize = 0;
        while w < depth
            invariant
                n == parsed@.len(),
                0 <= i < n,
                all_tags@.len() == i,
                depth == tag_stack@.len(),
                0 <= w <= depth,
                tr == truncate_stack(stack_after(parsed@, i - 1), parsed@[i as int].indent as int),
                tag_stack@.len() == tr.len(),
                forall|x: int|
                    0 <= x < tag_stack@.len() ==> tag_stack@[x] as int == #[trigger] tr[x],
                forall|x: int| 0 <= x < tag_stack@.len() ==> 0 <= #[trigger] tag_stack@[x] < i,
                forall|j: int|
                    0 <= j < i ==> (#[trigger] all_tags@[j]).name@ == parsed@[j].name@,
                ancestry@.len() == w,
                forall|x: int|
                    0 <= x < w ==> #[trigger] ancestry@[x]@ == parsed@[tr[x]].name@,
            decreases depth - w,
        {
            let idx = tag_stack[w];
            ancestry.push(all_tags[idx].name.clone());
            w += 1;
        }
        proof {
            assert(ancestry.deep_view() =~= ancestry_names(parsed@, i as int));
        }
        let ghost tags_mid = all_tags@;
        if tag_stack.len() > 0 {
            let parent_idx = tag_stack[tag_stack.len() - 1];
            proof {
                assert(tr.last() == parent_idx as int);
                assert(parent_of(parsed@, i as int) == parent_idx as int);
            }
            let pt = &mut all_tags[parent_idx];
            let ghost pt0 = *pt;
            pt.children.push(p.name.clone());
            proof {
                assert(pt.children.deep_view() =~= pt0.children.deep_view().push(
                    parsed@[i as int].name@,
                ));
            }
        } else {
            proof {
                assert(parent_of(parsed@, i as int) == -1);
            }
        }
        proof {
            assert forall|j: int|
                0 <= j < i implies (#[trigger] all_tags@[j]).children.deep_view()
                == children_upto(parsed@, j, i + 1) by {
                if parent_of(parsed@, i as int) == j {
                    assert(all_tags@[j].children.deep_view() == tags_mid[j].children.deep_view()
                        .push(parsed@[i as int].name@));
                } else {
                    assert(all_tags@[j] == tags_mid[j]);
                }
            }
        }
        let tag = EntsTag {
            name: p.name.clone(),
            tag_type: p.tag_type,
            children: Vec::new(),
            ancestry,
            show: Some(true),
            files: None,
            child_tags: Vec::new(),
            alias: clone_opt_string(&p.alias),
        };
        all_tags.push(tag);
        proof {
            lemma_no_children_yet(parsed@, i as int, i + 1);
            assert(all_tags@[i as int].children.deep_view() =~= children_upto(
                parsed@,
                i as int,
                i + 1,
            ));
            assert(stack_after(parsed@, i as int) == tr.push(i as int));
        }
        tag_stack.push(i);
        i += 1;
    }
    proof {
        assert(parsed@.subrange(0, n as int) =~= parsed@);
        assert forall|j: int|
            0 <= j < n implies (#[trigger] all_tags@[j]).children.deep_view() == children_upto(
            parsed@,
            j,
            n as int,
        ) by {}
    }
    (all_tags, aliases)
}

} // verus!
