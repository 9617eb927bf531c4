//! Recursive tag-closure expansion: which tag names can be reached from a
//! starting tag by following `children` links through visible tags.

use vstd::prelude::*;
use vstd::seq_lib::group_seq_properties;
use vstd::set_lib::{lemma_int_range, lemma_len_subset, set_int_range};
use crate::common::{EntsTag, TagType, TagsFile, find_visible_tag, has_visible_tag,
    lemma_visible_tag_idx, resolve_alias, spec_resolve_alias, tag_matches, vec_contains_string,
    visible_tag_idx};

verus! {

/// One hierarchy step: the first visible tag named `from` lists `to` among
/// its children, and a visible tag named `to` exists.
pub open spec fn step(tags: Seq<EntsTag>, from: Seq<char>, to: Seq<char>) -> bool {
    &&& has_visible_tag(tags, from)
    &&& tags[visible_tag_idx(tags, from)].children.deep_view().contains(to)
    &&& has_visible_tag(tags, to)
}

/// A sequence of names whose consecutive pairs are hierarchy steps.
pub open spec fn is_chain(tags: Seq<EntsTag>, p: Seq<Seq<char>>) -> bool {
    forall|i: int| 0 <= i < p.len() - 1 ==> #[trigger] step(tags, p[i], p[i + 1])
}

/// `to` is `from` itself or one of its descendants, through visible
/// `children` links.
pub open spec fn reachable(tags: Seq<EntsTag>, from: Seq<char>, to: Seq<char>) -> bool {
    exists|p: Seq<Seq<char>>|
        #[trigger] is_chain(tags, p) && p.len() >= 1 && p.first() == from && p.last() == to
}

/// Every name reaches itself.
pub proof fn lemma_reachable_self(tags: Seq<EntsTag>, a: Seq<char>)
    ensures
        reachable(tags, a, a),
{
    let p = seq![a];
    assert(is_chain(tags, p));
    assert(p.first() == a && p.last() == a);
}

/// Reachability extends along one further step.
pub proof fn lemma_reachable_extend(tags: Seq<EntsTag>, a: Seq<char>, b: Seq<char>, c: Seq<char>)
    requires
        reachable(tags, a, b),
        step(tags, b, c),
    ensures
        reachable(tags, a, c),
{
    let p = choose|p: Seq<Seq<char>>|
        #[trigger] is_chain(tags, p) && p.len() >= 1 && p.first() == a && p.last() == b;
    let q = p.push(c);
    assert forall|i: int| 0 <= i < q.len() - 1 implies #[trigger] step(tags, q[i], q[i + 1]) by {
        if i < p.len() - 1 {
            assert(q[i] == p[i] && q[i + 1] == p[i + 1]);
        } else {
            assert(q[i] == p.last() && q[i + 1] == c);
        }
    }
    assert(is_chain(tags, q));
    assert(q.first() == a && q.last() == c);
}

/// Anything reachable from a member of a step-closed collection of names is
/// itself a member.
pub proof fn lemma_chain_closed(
    tags: Seq<EntsTag>,
    s: spec_fn(Seq<char>) -> bool,
    p: Seq<Seq<char>>,
)
    requires
        p.len() >= 1,
        is_chain(tags, p),
        s(p.first()),
        forall|a: Seq<char>, c: Seq<char>|
            #![trigger s(a), step(tags, a, c)]
            s(a) && step(tags, a, c) ==> s(c),
    ensures
        s(p.last()),
    decreases p.len(),
{
    if p.len() >= 2 {
        let q = p.drop_last();
        assert forall|i: int| 0 <= i < q.len() - 1 implies #[trigger] step(tags, q[i], q[i + 1]) by {
            assert(q[i] == p[i] && q[i + 1] == p[i + 1]);
            assert(step(tags, p[i], p[i + 1]));
        }
        lemma_chain_closed(tags, s, q);
        let i = p.len() - 2;
        assert(step(tags, p[i], p[i + 1]));
        assert(q.last() == p[i]);
        assert(p[i + 1] == p.last());
    }
}

/// A duplicate-free collection of visible tag names can hold no more names
/// than the registry holds tags.
pub proof fn lemma_distinct_visible_names_bound(tags: Seq<EntsTag>, names: Seq<Seq<char>>)
    requires
        names.no_duplicates(),
        forall|k: int| 0 <= k < names.len() ==> has_visible_tag(tags, #[trigger] names[k]),
    ensures
        names.len() <= tags.len(),
{
    broadcast use group_seq_properties;

    let f = |n: Seq<char>| visible_tag_idx(tags, n);
    let idxs = names.map_values(f);
    assert(idxs.no_duplicates()) by {
        assert forall|i: int, j: int|
            0 <= i < idxs.len() && 0 <= j < idxs.len() && i != j implies idxs[i] != idxs[j] by {
            if idxs[i] == idxs[j] {
                lemma_visible_tag_idx(tags, names[i]);
                lemma_visible_tag_idx(tags, names[j]);
                assert(tag_matches(tags[visible_tag_idx(tags, names[i])], names[i]));
                assert(tag_matches(tags[visible_tag_idx(tags, names[j])], names[j]));
                assert(names[i] == names[j]);
            }
        }
    }
    idxs.unique_seq_to_set();
    assert(idxs.to_set().len() == names.len());
    assert(idxs.to_set().subset_of(set_int_range(0, tags.len() as int))) by {
        assert forall|x: int| idxs.to_set().contains(x) implies set_int_range(
            0,
            tags.len() as int,
        ).contains(x) by {
            let k = choose|k: int| 0 <= k < idxs.len() && idxs[k] == x;
            lemma_visible_tag_idx(tags, names[k]);
        }
    }
    lemma_int_range(0, tags.len() as int);
    lemma_len_subset(idxs.to_set(), set_int_range(0, tags.len() as int));
}

/// Pushing a fresh element keeps a sequence duplicate-free.
proof fn lemma_push_no_dup<A>(s: Seq<A>, x: A)
    requires
        s.no_duplicates(),
        !s.contains(x),
    ensures
        s.push(x).no_duplicates(),
{
    let t = s.push(x);
    assert forall|i: int, j: int|
        0 <= i < t.len() && 0 <= j < t.len() && i != j implies t[i] != t[j] by {
        if i < s.len() && j < s.len() {
            assert(t[i] == s[i] && t[j] == s[j]);
        } else if j == s.len() {
            assert(t[j] == x);
            if t[i] == x {
                assert(s[i] == x);
            }
        } else {
            assert(t[i] == x);
            if t[j] == x {
                assert(s[j] == x);
            }
        }
    }
}

/// Expand a tag's closure.  The token is resolved through the alias table;
/// the result is `None` exactly when no visible tag carries the resolved
/// name.  Otherwise the first list holds every visible descendant name of
/// the tag (the tag itself included), and the second holds those of them
/// that are queryable, that is, not duds.
pub fn collect_tags_recursively(tag_name: &String, tags_file: &TagsFile) -> (r: Option<
    (Vec<String>, Vec<String>)>)
    ensures
        match r {
            Some(pair) => ({
                let resolved = spec_resolve_alias(tags_file.aliases@, tag_name@);
                let tags = tags_file.tags@;
                &&& has_visible_tag(tags, resolved)
                &&& (forall|n: Seq<char>| #[trigger]
                    pair.0.deep_view().contains(n) <==> (reachable(tags, resolved, n)
                        && has_visible_tag(tags, n)))
                &&& pair.0.deep_view().no_duplicates()
                &&& (forall|n: Seq<char>| #[trigger]
                    pair.1.deep_view().contains(n) <==> (pair.0.deep_view().contains(n)
                        && tags[visible_tag_idx(tags, n)].tag_type != TagType::Dud))
                &&& pair.1.deep_view().no_duplicates()
            }),
            None => !has_visible_tag(
                tags_file.tags@,
                spec_resolve_alias(tags_file.aliases@, tag_name@),
            ),
        },
{
    let ghost tgs = tags_file.tags@;
    let resolved = resolve_alias(&tags_file.aliases, tag_name);
    let ghost root = resolved@;
    let root_idx = match find_visible_tag(&tags_file.tags, resolved) {
        Some(i) => i,
        None => {
            return None;
        },
    };
    proof {
        lemma_visible_tag_idx(tgs, root);
        lemma_reachable_self(tgs, root);
    }
    let root_name = tags_file.tags[root_idx].name.clone();
    let mut visited: Vec<String> = Vec::new();
    visited.push(root_name);
    let root_name_again = tags_file.tags[root_idx].name.clone();
    let mut work: Vec<String> = Vec::new();
    work.push(root_name_again);
    proof {
        assert(visited.deep_view() =~= seq![root]);
        assert(work.deep_view() =~= seq![root]);
        assert(visited.deep_view()[0] == root);
        assert(visited.deep_view().contains(root));
    }
    while work.len() > 0
        invariant
            tgs == tags_file.tags@,
            visited.deep_view().no_duplicates(),
            forall|k: int|
                0 <= k < visited@.len() ==> has_visible_tag(tgs, #[trigger] visited.deep_view()[k])
                    && reachable(tgs, root, visited.deep_view()[k]),
            visited.deep_view().contains(root),
            forall|k: int|
                0 <= k < work@.len() ==> visited.deep_view().contains(
                    #[trigger] work.deep_view()[k],
                ),
            forall|n: Seq<char>, c: Seq<char>|
                #![trigger step(tgs, n, c), visited.deep_view().contains(n)]
                visited.deep_view().contains(n) && !work.deep_view().contains(n) && step(tgs, n, c)
                    ==> visited.deep_view().contains(c),
            visited@.len() <= tgs.len(),
        decreases tgs.len() + 1 - visited@.len(), work@.len(),
    {
        let ghost visited0 = visited.deep_view();
        let ghost work0 = work.deep_view();
        let cur = match work.pop() {
            Some(c) => c,
            None => {
                proof {
                    assert(false);
                }
                vstd::pervasive::unreached()
            },
        };
        proof {
            assert(work.deep_view() =~= work0.drop_last());
            assert(cur@ == work0.last());
            assert(work0.last() == work0[work0.len() - 1]);
            assert(visited0.contains(cur@));
        }
        let ci = match find_visible_tag(&tags_file.tags, &cur) {
            Some(i) => i,
            None => {
                proof {
                    let k = choose|k: int| 0 <= k < visited0.len() && visited0[k] == cur@;
                    assert(has_visible_tag(tgs, visited0[k]));
                    assert(false);
                }
                vstd::pervasive::unreached()
            },
        };
        proof {
            lemma_visible_tag_idx(tgs, cur@);
        }
        let ghost curv = cur@;
        proof {
            assert(visited.deep_view() == visited0);
            assert(visited.deep_view().contains(curv));
            assert forall|n: Seq<char>, c: Seq<char>|
                visited.deep_view().contains(n) && !work.deep_view().contains(n) && n != curv
                    && #[trigger] step(tgs, n, c) implies visited.deep_view().contains(c) by {
                assert(!work0.contains(n)) by {
                    if work0.contains(n) {
                        let w = choose|w: int| 0 <= w < work0.len() && work0[w] == n;
                        if w < work0.len() - 1 {
                            assert(work.deep_view()[w] == n);
                            assert(work.deep_view().contains(n));
                        } else {
                            assert(n == curv);
                        }
                    }
                }
                assert(visited0.contains(n) && !work0.contains(n) && step(tgs, n, c));
            }
        }
        let child_count = tags_file.tags[ci].children.len();
        let mut j: usize = 0;
        while j < child_count
            invariant
                tgs == tags_file.tags@,
                0 <= ci < tgs.len(),
                ci == visible_tag_idx(tgs, curv),
                has_visible_tag(tgs, curv),
                child_count == tgs[ci as int].children@.len(),
                0 <= j <= child_count,
                visited.deep_view().no_duplicates(),
                forall|k: int|
                    0 <= k < visited@.len() ==> has_visible_tag(
                        tgs,
                        #[trigger] visited.deep_view()[k],
                    ) && reachable(tgs, root, visited.deep_view()[k]),
                visited.deep_view().contains(root),
                visited.deep_view().contains(curv),
                forall|k: int|
                    0 <= k < work@.len() ==> visited.deep_view().contains(
                        #[trigger] work.deep_view()[k],
                    ),
                forall|n: Seq<char>, c: Seq<char>|
                    #![trigger step(tgs, n, c), visited.deep_view().contains(n)]
                    visited.deep_view().contains(n) && !work.deep_view().contains(n) && n != curv
                        && step(tgs, n, c) ==> visited.deep_view().contains(c),
                forall|jj: int|
                    0 <= jj < j && has_visible_tag(
                        tgs,
                        #[trigger] tgs[ci as int].children.deep_view()[jj],
                    ) ==> visited.deep_view().contains(tgs[ci as int].children.deep_view()[jj]),
                visited@.len() <= tgs.len(),
                visited@.len() >= visited0.len(),
                work@.len() + visited0.len() <= work0.len() - 1 + visited@.len(),
            decreases child_count - j,
        {
            let child = &tags_file.tags[ci].children[j];
            proof {
                assert(child@ == tgs[ci as int].children.deep_view()[j as int]);
            }
            match find_visible_tag(&tags_file.tags, child) {
                Some(_) => {
                    if !vec_contains_string(&visited, child) {
                        let ghost vpre = visited.deep_view();
                        let ghost wpre = work.deep_view();
                        visited.push(child.clone());
                        work.push(child.clone());
                        proof {
                            assert(visited.deep_view() =~= vpre.push(child@));
                            assert(work.deep_view() =~= wpre.push(child@));
                            lemma_push_no_dup(vpre, child@);
                            assert forall|m: Seq<char>| vpre.contains(m) implies #[trigger]
                                visited.deep_view().contains(m) by {
                                let w = choose|w: int| 0 <= w < vpre.len() && vpre[w] == m;
                                assert(visited.deep_view()[w] == m);
                            }
                            assert(visited.deep_view().contains(child@)) by {
                                assert(visited.deep_view().last() == child@);
                            }
                            assert(visited.deep_view().contains(root)) by {
                                let w = choose|w: int| 0 <= w < vpre.len() && vpre[w] == root;
                                assert(visited.deep_view()[w] == root);
                            }
                            assert(visited.deep_view().contains(curv)) by {
                                let w = choose|w: int| 0 <= w < vpre.len() && vpre[w] == curv;
                                assert(visited.deep_view()[w] == curv);
                            }
                            assert(step(tgs, curv, child@)) by {
                                assert(tgs[ci as int].children.deep_view().contains(child@));
                            }
                            let k = choose|k: int|
                                0 <= k < vpre.len() && vpre[k] == curv;
                            assert(reachable(tgs, root, vpre[k]));
                            lemma_reachable_extend(tgs, root, curv, child@);
                            lemma_distinct_visible_names_bound(tgs, visited.deep_view());
                            assert forall|k2: int|
                                0 <= k2 < work@.len() implies visited.deep_view().contains(
                                #[trigger] work.deep_view()[k2]) by {
                                if k2 < wpre.len() {
                                    assert(vpre.contains(wpre[k2]));
                                    let w = choose|w: int|
                                        0 <= w < vpre.len() && vpre[w] == wpre[k2];
                                    assert(visited.deep_view()[w] == wpre[k2]);
                                } else {
                                    assert(visited.deep_view().last() == child@);
                                }
                            }
                            assert forall|n: Seq<char>, c: Seq<char>|
                                visited.deep_view().contains(n) && !work.deep_view().contains(n)
                                    && n != curv && #[trigger] step(tgs, n, c) implies #[trigger]
                                visited.deep_view().contains(c) by {
                                assert(n != child@) by {
                                    assert(work.deep_view().last() == child@);
                                }
                                let w = choose|w: int|
                                    0 <= w < visited.deep_view().len() && visited.deep_view()[w]
                                        == n;
                                assert(vpre[w] == n);
                                assert(vpre.contains(n));
                                assert(!wpre.contains(n)) by {
                                    if wpre.contains(n) {
                                        let w2 = choose|w2: int|
                                            0 <= w2 < wpre.len() && wpre[w2] == n;
                                        assert(work.deep_view()[w2] == n);
                                    }
                                }
                                assert(vpre.contains(c));
                                let w3 = choose|w3: int| 0 <= w3 < vpre.len() && vpre[w3] == c;
                                assert(visited.deep_view()[w3] == c);
                            }
                        }
                    } else {
                        proof {
                            assert(visited.deep_view().contains(child@));
                        }
                    }
                },
                None => {},
            }
            j += 1;
        }
        proof {
            let ghost visited1 = visited.deep_view();
            let ghost work1 = work.deep_view();
            assert forall|n: Seq<char>, c: Seq<char>|
                visited1.contains(n) && !work1.contains(n) && #[trigger] step(tgs, n, c)
                    implies #[trigger] visited1.contains(c) by {
                if n == curv {
                    assert(tgs[ci as int].children.deep_view().contains(c));
                    let w = choose|w: int|
                        0 <= w < tgs[ci as int].children.deep_view().len()
                            && tgs[ci as int].children.deep_view()[w] == c;
                    assert(has_visible_tag(tgs, tgs[ci as int].children.deep_view()[w]));
                }
            }
        }
    }
    proof {
        let vd = visited.deep_view();
        let s = |m: Seq<char>| vd.contains(m);
        assert forall|n: Seq<char>|
            reachable(tgs, root, n) && has_visible_tag(tgs, n) implies vd.contains(n) by {
            let p = choose|p: Seq<Seq<char>>|
                #[trigger] is_chain(tgs, p) && p.len() >= 1 && p.first() == root && p.last() == n;
            assert(s(p.first()));
            assert forall|a: Seq<char>, c: Seq<char>|
                #![trigger s(a), step(tgs, a, c)]
                s(a) && step(tgs, a, c) implies s(c) by {
                if s(a) && step(tgs, a, c) {
                    assert(work.deep_view().len() == 0);
                    assert(!work.deep_view().contains(a));
                    assert(vd.contains(a));
                }
            }
            lemma_chain_closed(tgs, s, p);
        }
        assert forall|n: Seq<char>| #[trigger]
            visited.deep_view().contains(n) implies (reachable(tgs, root, n) && has_visible_tag(
            tgs,
            n,
        )) by {
            let k = choose|k: int|
                0 <= k < visited.deep_view().len() && visited.deep_view()[k] == n;
            assert(has_visible_tag(tgs, visited.deep_view()[k]));
        }
    }
    let vn = visited.len();
    let mut queryable: Vec<String> = Vec::new();
    let mut k: usize = 0;
    while k < vn
        invariant
            tgs == tags_file.tags@,
            vn == visited@.len(),
            0 <= k <= vn,
            visited.deep_view().no_duplicates(),
            forall|w: int|
                0 <= w < visited@.len() ==> has_visible_tag(
                    tgs,
                    #[trigger] visited.deep_view()[w],
                ),
            forall|m: Seq<char>| #[trigger]
                queryable.deep_view().contains(m) <==> (visited.deep_view().subrange(
                    0,
                    k as int,
                ).contains(m) && tgs[visible_tag_idx(tgs, m)].tag_type != TagType::Dud),
            queryable.deep_view().no_duplicates(),
        decreases vn - k,
    {
        let ghost pre = visited.deep_view().subrange(0, k as int);
        let ghost post = visited.deep_view().subrange(0, k + 1);
        proof {
            assert(post.drop_last() =~= pre);
            assert(post.last() == visited.deep_view()[k as int]);
        }
        let name = &visited[k];
        let ti = match find_visible_tag(&tags_file.tags, name) {
            Some(i) => i,
            None => {
                proof {
                    assert(has_visible_tag(tgs, visited.deep_view()[k as int]));
                    assert(false);
                }
                vstd::pervasive::unreached()
            },
        };
        proof {
            lemma_visible_tag_idx(tgs, name@);
        }
        let is_dud = match tags_file.tags[ti].tag_type {
            TagType::Dud => true,
            _ => false,
        };
        if !is_dud {
            let ghost qpre = queryable.deep_view();
            queryable.push(name.clone());
            proof {
                assert(queryable.deep_view() =~= qpre.push(name@));
                assert(!qpre.contains(name@)) by {
                    if qpre.contains(name@) {
                        assert(pre.contains(name@));
                        let w = choose|w: int| 0 <= w < pre.len() && pre[w] == name@;
                        assert(visited.deep_view()[w] == visited.deep_view()[k as int]);
                    }
                }
                lemma_push_no_dup(qpre, name@);
                assert forall|m: Seq<char>| #[trigger]
                    queryable.deep_view().contains(m) implies (post.contains(m) && tgs[
                    visible_tag_idx(tgs, m)].tag_type != TagType::Dud) by {
                    if m == name@ {
                        assert(post.last() == m);
                    } else {
                        assert(qpre.contains(m));
                        assert(pre.contains(m));
                        let w = choose|w: int| 0 <= w < pre.len() && pre[w] == m;
                        assert(post[w] == m);
                    }
                }
                assert forall|m: Seq<char>|
                    post.contains(m) && tgs[visible_tag_idx(tgs, m)].tag_type != TagType::Dud
                        implies #[trigger] queryable.deep_view().contains(m) by {
                    let w = choose|w: int| 0 <= w < post.len() && post[w] == m;
                    if w < k {
                        assert(pre[w] == m);
                        assert(pre.contains(m));
                        assert(qpre.contains(m));
                        let w2 = choose|w2: int| 0 <= w2 < qpre.len() && qpre[w2] == m;
                        assert(queryable.deep_view()[w2] == m);
                    } else {
                        assert(m == name@);
                        assert(queryable.deep_view().last() == m);
                    }
                }
            }
        } else {
            proof {
                assert forall|m: Seq<char>|
                    post.contains(m) && tgs[visible_tag_idx(tgs, m)].tag_type != TagType::Dud
                        implies #[trigger] queryable.deep_view().contains(m) by {
                    let w = choose|w: int| 0 <= w < post.len() && post[w] == m;
                    if w < k {
                        assert(pre[w] == m);
                        assert(pre.contains(m));
                    } else {
                        assert(m == name@);
                        assert(visible_tag_idx(tgs, m) == ti);
                        assert(false);
                    }
                }
                assert forall|m: Seq<char>| #[trigger]
                    queryable.deep_view().contains(m) implies (post.contains(m) && tgs[
                    visible_tag_idx(tgs, m)].tag_type != TagType::Dud) by {
                    assert(pre.contains(m));
                    let w = choose|w: int| 0 <= w < pre.len() && pre[w] == m;
                    assert(post[w] == m);
                }
            }
        }
        k += 1;
    }
    proof {
        assert(visited.deep_view().subrange(0, vn as int) =~= visited.deep_view());
    }
    Some((visited, queryable))
}

} // verus!
