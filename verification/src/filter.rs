//! The union-filter query: expand every requested tag to its queryable
//! closure, gather the file identities those tags hold, and resolve each
//! identity back to a current path.  Checking what is on disk is outside
//! work: the caller probes and hands each verdict to `resolve_one`.

use vstd::prelude::*;
use crate::closure::{collect_tags_recursively, reachable};
use crate::common::{AliasEntry, EntsTag, FileData, TagType, TagsFile, file_by_inode_idx,
    find_visible_tag, has_visible_tag, lemma_first_where, lemma_visible_tag_idx,
    spec_resolve_alias, tag_has_file, tag_files, vec_contains_string, visible_tag_idx};
use crate::handle_file::find_file_by_inode;
use crate::numstr::{dec_val, is_dec_string, parse_inode};

verus! {

/// `m` is a queryable member of the closure of the tag that `token`
/// resolves to: reachable from it through visible children, itself visible,
/// and not a dud.
pub open spec fn closure_member(
    tags: Seq<EntsTag>,
    aliases: Seq<AliasEntry>,
    token: Seq<char>,
    m: Seq<char>,
) -> bool {
    let resolved = spec_resolve_alias(aliases, token);
    &&& reachable(tags, resolved, m)
    &&& has_visible_tag(tags, m)
    &&& tags[visible_tag_idx(tags, m)].tag_type != TagType::Dud
}

/// The file identities that a union filter over `tokens` gathers: every
/// identity held by any queryable closure member of any requested tag.
pub open spec fn filter_inode_set(
    tags: Seq<EntsTag>,
    aliases: Seq<AliasEntry>,
    tokens: Seq<Seq<char>>,
) -> Set<Seq<char>> {
    Set::new(
        |fid: Seq<char>|
            exists|ti: int, m: Seq<char>|
                #![trigger closure_member(tags, aliases, tokens[ti], m), tag_has_file(tags[visible_tag_idx(tags, m)], fid)]
                0 <= ti < tokens.len() && closure_member(tags, aliases, tokens[ti], m)
                    && tag_has_file(tags[visible_tag_idx(tags, m)], fid),
    )
}

/// Gather the file identities the union filter selects, each once.
/// `None` exactly when some requested token resolves to no visible tag.
pub fn filter_collect_inodes(tags_file: &TagsFile, tags: &Vec<String>) -> (r: Option<Vec<String>>)
    ensures
        match r {
            Some(v) => {
                &&& (forall|ti: int|
                    0 <= ti < tags@.len() ==> has_visible_tag(
                        tags_file.tags@,
                        spec_resolve_alias(tags_file.aliases@, #[trigger] tags@[ti]@),
                    ))
                &&& (forall|fid: Seq<char>| #[trigger]
                    v.deep_view().contains(fid) <==> filter_inode_set(
                        tags_file.tags@,
                        tags_file.aliases@,
                        tags.deep_view(),
                    ).contains(fid))
                &&& (forall|i: int, j: int| 0 <= i < j < v@.len() ==> v@[i]@ != v@[j]@)
            },
            None => exists|ti: int|
                0 <= ti < tags@.len() && !has_visible_tag(
                    tags_file.tags@,
                    spec_resolve_alias(tags_file.aliases@, #[trigger] tags@[ti]@),
                ),
        },
{
    let ghost tgs = tags_file.tags@;
    let ghost als = tags_file.aliases@;
    let ghost tokens = tags.deep_view();
    let tn = tags.len();
    let mut names: Vec<String> = Vec::new();
    let mut ti: usize = 0;
    while ti < tn
        invariant
            tgs == tags_file.tags@,
            als == tags_file.aliases@,
            tokens == tags.deep_view(),
            tn == tags@.len(),
            0 <= ti <= tn,
            forall|w: int|
                0 <= w < ti ==> has_visible_tag(
                    tgs,
                    spec_resolve_alias(als, #[trigger] tokens[w]),
                ),
            forall|m: Seq<char>| #[trigger]
                names.deep_view().contains(m) <==> (exists|w: int|
                    0 <= w < ti && closure_member(tgs, als, #[trigger] tokens[w], m)),
            forall|i: int, j: int| 0 <= i < j < names@.len() ==> names@[i]@ != names@[j]@,
        decreases tn - ti,
    {
        let pair = match collect_tags_recursively(&tags[ti], tags_file) {
            Some(p) => p,
            None => {
                proof {
                    assert(tokens[ti as int] == tags@[ti as int]@);
                    assert(!has_visible_tag(tgs, spec_resolve_alias(als, tags@[ti as int]@)));
                }
                return None;
            },
        };
        let qux = pair.1;
        let qn = qux.len();
        let mut qi: usize = 0;
        while qi < qn
            invariant
                tgs == tags_file.tags@,
                als == tags_file.aliases@,
                tokens == tags.deep_view(),
                tn == tags@.len(),
                0 <= ti < tn,
                qn == qux@.len(),
                0 <= qi <= qn,
                forall|n: Seq<char>| #[trigger]
                    qux.deep_view().contains(n) <==> closure_member(tgs, als, tokens[ti as int], n),
                forall|w: int|
                    0 <= w < ti ==> has_visible_tag(
                        tgs,
                        spec_resolve_alias(als, #[trigger] tokens[w]),
                    ),
                has_visible_tag(tgs, spec_resolve_alias(als, tokens[ti as int])),
                forall|m: Seq<char>| #[trigger]
                    names.deep_view().contains(m) <==> ((exists|w: int|
                        0 <= w < ti && closure_member(tgs, als, #[trigger] tokens[w], m))
                        || qux.deep_view().subrange(0, qi as int).contains(m)),
                forall|i: int, j: int| 0 <= i < j < names@.len() ==> names@[i]@ != names@[j]@,
            decreases qn - qi,
        {
            let ghost qpre = qux.deep_view().subrange(0, qi as int);
            let ghost qpost = qux.deep_view().subrange(0, qi + 1);
            proof {
                assert(qpost.drop_last() =~= qpre);
                assert(qpost.last() == qux.deep_view()[qi as int]);
            }
            let name = &qux[qi];
            if !vec_contains_string(&names, name) {
                let ghost npre = names.deep_view();
                names.push(name.clone());
                proof {
                    assert(names.deep_view() =~= npre.push(name@));
                    assert forall|p: int|
                        0 <= p < names@.len() - 1 implies names@[p]@ != name@ by {
                        if names@[p]@ == name@ {
                            assert(npre[p] == name@);
                            assert(npre.contains(name@));
                        }
                    }
                    assert forall|m: Seq<char>| #[trigger]
                        names.deep_view().contains(m) implies ((exists|w: int|
                        0 <= w < ti && closure_member(tgs, als, #[trigger] tokens[w], m))
                        || qpost.contains(m)) by {
                        if m == name@ {
                            assert(qpost.last() == m);
                        } else {
                            assert(npre.contains(m));
                            if qpre.contains(m) {
                                let w = choose|w: int| 0 <= w < qpre.len() && qpre[w] == m;
                                assert(qpost[w] == m);
                            }
                        }
                    }
                    assert forall|m: Seq<char>|
                        ((exists|w: int|
                            0 <= w < ti && closure_member(tgs, als, #[trigger] tokens[w], m))
                            || qpost.contains(m)) implies #[trigger]
                        names.deep_view().contains(m) by {
                        if qpost.contains(m) {
                            let w = choose|w: int| 0 <= w < qpost.len() && qpost[w] == m;
                            if w < qi {
                                assert(qpre[w] == m);
                                assert(qpre.contains(m));
                                assert(npre.contains(m));
                                let w2 = choose|w2: int| 0 <= w2 < npre.len() && npre[w2] == m;
                                assert(names.deep_view()[w2] == m);
                            } else {
                                assert(m == name@);
                                assert(names.deep_view().last() == m);
                            }
                        } else {
                            assert(npre.contains(m));
                            let w2 = choose|w2: int| 0 <= w2 < npre.len() && npre[w2] == m;
                            assert(names.deep_view()[w2] == m);
                        }
                    }
                }
            } else {
                proof {
                    assert forall|m: Seq<char>|
                        ((exists|w: int|
                            0 <= w < ti && closure_member(tgs, als, #[trigger] tokens[w], m))
                            || qpost.contains(m)) implies #[trigger]
                        names.deep_view().contains(m) by {
                        if qpost.contains(m) {
                            let w = choose|w: int| 0 <= w < qpost.len() && qpost[w] == m;
                            if w < qi {
                                assert(qpre[w] == m);
                                assert(qpre.contains(m));
                            } else {
                                assert(m == name@);
                            }
                        }
                    }
                    assert forall|m: Seq<char>| #[trigger]
                        names.deep_view().contains(m) implies ((exists|w: int|
                        0 <= w < ti && closure_member(tgs, als, #[trigger] tokens[w], m))
                        || qpost.contains(m)) by {
                        if qpre.contains(m) {
                            let w = choose|w: int| 0 <= w < qpre.len() && qpre[w] == m;
                            assert(qpost[w] == m);
                        }
                    }
                }
            }
            qi += 1;
        }
        proof {
            assert(qux.deep_view().subrange(0, qn as int) =~= qux.deep_view());
            assert forall|m: Seq<char>| #[trigger]
                names.deep_view().contains(m) implies (exists|w: int|
                0 <= w < ti + 1 && closure_member(tgs, als, #[trigger] tokens[w], m)) by {
                if qux.deep_view().contains(m) {
                    assert(closure_member(tgs, als, tokens[ti as int], m));
                }
            }
            assert forall|m: Seq<char>|
                (exists|w: int| 0 <= w < ti + 1 && closure_member(tgs, als, #[trigger] tokens[w], m))
                    implies #[trigger] names.deep_view().contains(m) by {
                let w = choose|w: int|
                    0 <= w < ti + 1 && closure_member(tgs, als, #[trigger] tokens[w], m);
                if w == ti {
                    assert(qux.deep_view().contains(m));
                    assert(qux.deep_view().subrange(0, qn as int).contains(m));
                }
            }
        }
        ti += 1;
    }
    let nn = names.len();
    let mut out: Vec<String> = Vec::new();
    let mut ni: usize = 0;
    while ni < nn
        invariant
            tgs == tags_file.tags@,
            als == tags_file.aliases@,
            tokens == tags.deep_view(),
            tn == tags@.len(),
            nn == names@.len(),
            0 <= ni <= nn,
            forall|w: int|
                0 <= w < tn ==> has_visible_tag(
                    tgs,
                    spec_resolve_alias(als, #[trigger] tokens[w]),
                ),
            forall|m: Seq<char>| #[trigger]
                names.deep_view().contains(m) <==> (exists|w: int|
                    0 <= w < tn && closure_member(tgs, als, #[trigger] tokens[w], m)),
            forall|i: int, j: int| 0 <= i < j < names@.len() ==> names@[i]@ != names@[j]@,
            forall|fid: Seq<char>| #[trigger]
                out.deep_view().contains(fid) <==> (exists|w: int|
                    0 <= w < ni && #[trigger] tag_has_file(
                        tgs[visible_tag_idx(tgs, names.deep_view()[w])],
                        fid,
                    )),
            forall|i: int, j: int| 0 <= i < j < out@.len() ==> out@[i]@ != out@[j]@,
        decreases nn - ni,
    {
        let name = &names[ni];
        proof {
            assert(names.deep_view().contains(name@)) by {
                assert(names.deep_view()[ni as int] == name@);
            }
        }
        let tidx = match find_visible_tag(&tags_file.tags, name) {
            Some(i) => i,
            None => {
                proof {
                    assert(false);
                }
                vstd::pervasive::unreached()
            },
        };
        proof {
            lemma_visible_tag_idx(tgs, name@);
        }
        let files_opt = &tags_file.tags[tidx].files;
        match files_opt {
            Some(fvec) => {
                let fn_ = fvec.len();
                let mut fi: usize = 0;
                while fi < fn_
                    invariant
                        tgs == tags_file.tags@,
                        nn == names@.len(),
                        0 <= ni < nn,
                        0 <= tidx < tgs.len(),
                        tidx == visible_tag_idx(tgs, names.deep_view()[ni as int]),
                        tgs[tidx as int].files matches Some(fv) && fv@ == fvec@,
                        fn_ == fvec@.len(),
                        0 <= fi <= fn_,
                        forall|fid: Seq<char>| #[trigger]
                            out.deep_view().contains(fid) <==> ((exists|w: int|
                                0 <= w < ni && #[trigger] tag_has_file(
                                    tgs[visible_tag_idx(tgs, names.deep_view()[w])],
                                    fid,
                                )) || fvec.deep_view().subrange(0, fi as int).contains(fid)),
                        forall|i: int, j: int| 0 <= i < j < out@.len() ==> out@[i]@ != out@[j]@,
                    decreases fn_ - fi,
                {
                    let ghost fpre = fvec.deep_view().subrange(0, fi as int);
                    let ghost fpost = fvec.deep_view().subrange(0, fi + 1);
                    proof {
                        assert(fpost.drop_last() =~= fpre);
                        assert(fpost.last() == fvec.deep_view()[fi as int]);
                    }
                    let fid = &fvec[fi];
                    if !vec_contains_string(&out, fid) {
                        let ghost opre = out.deep_view();
                        out.push(fid.clone());
                        proof {
                            assert(out.deep_view() =~= opre.push(fid@));
                            assert forall|p: int|
                                0 <= p < out@.len() - 1 implies out@[p]@ != fid@ by {
                                if out@[p]@ == fid@ {
                                    assert(opre[p] == fid@);
                                    assert(opre.contains(fid@));
                                }
                            }
                            assert forall|x: Seq<char>| #[trigger]
                                out.deep_view().contains(x) implies ((exists|w: int|
                                0 <= w < ni && #[trigger] tag_has_file(
                                    tgs[visible_tag_idx(tgs, names.deep_view()[w])],
                                    x,
                                )) || fpost.contains(x)) by {
                                if x == fid@ {
                                    assert(fpost.last() == x);
                                } else {
                                    assert(opre.contains(x));
                                    if fpre.contains(x) {
                                        let w = choose|w: int| 0 <= w < fpre.len() && fpre[w] == x;
                                        assert(fpost[w] == x);
                                    }
                                }
                            }
                            assert forall|x: Seq<char>|
                                ((exists|w: int|
                                    0 <= w < ni && #[trigger] tag_has_file(
                                        tgs[visible_tag_idx(tgs, names.deep_view()[w])],
                                        x,
                                    )) || fpost.contains(x)) implies #[trigger]
                                out.deep_view().contains(x) by {
                                if fpost.contains(x) {
                                    let w = choose|w: int| 0 <= w < fpost.len() && fpost[w] == x;
                                    if w < fi {
                                        assert(fpre[w] == x);
                                        assert(fpre.contains(x));
                                        assert(opre.contains(x));
                                        let w2 = choose|w2: int|
                                            0 <= w2 < opre.len() && opre[w2] == x;
                                        assert(out.deep_view()[w2] == x);
                                    } else {
                                        assert(x == fid@);
                                        assert(out.deep_view().last() == x);
                                    }
                                } else {
                                    assert(opre.contains(x));
                                    let w2 = choose|w2: int| 0 <= w2 < opre.len() && opre[w2] == x;
                                    assert(out.deep_view()[w2] == x);
                                }
                            }
                        }
                    } else {
                        proof {
                            assert forall|x: Seq<char>|
                                ((exists|w: int|
                                    0 <= w < ni && #[trigger] tag_has_file(
                                        tgs[visible_tag_idx(tgs, names.deep_view()[w])],
                                        x,
                                    )) || fpost.contains(x)) implies #[trigger]
                                out.deep_view().contains(x) by {
                                if fpost.contains(x) {
                                    let w = choose|w: int| 0 <= w < fpost.len() && fpost[w] == x;
                                    if w < fi {
                                        assert(fpre[w] == x);
                                        assert(fpre.contains(x));
                                    } else {
                                        assert(x == fid@);
                                    }
                                }
                            }
                            assert forall|x: Seq<char>| #[trigger]
                                out.deep_view().contains(x) implies ((exists|w: int|
                                0 <= w < ni && #[trigger] tag_has_file(
                                    tgs[visible_tag_idx(tgs, names.deep_view()[w])],
                                    x,
                                )) || fpost.contains(x)) by {
                                if fpre.contains(x) {
                                    let w = choose|w: int| 0 <= w < fpre.len() && fpre[w] == x;
                                    assert(fpost[w] == x);
                                }
                            }
                        }
                    }
                    fi += 1;
                }
                proof {
                    assert(fvec.deep_view().subrange(0, fn_ as int) =~= fvec.deep_view());
                    assert(tag_files(tgs[tidx as int]) == fvec.deep_view());
                    assert forall|fid: Seq<char>| #[trigger]
                        out.deep_view().contains(fid) implies (exists|w: int|
                        0 <= w < ni + 1 && #[trigger] tag_has_file(
                            tgs[visible_tag_idx(tgs, names.deep_view()[w])],
                            fid,
                        )) by {
                        if fvec.deep_view().contains(fid) {
                            assert(tag_has_file(
                                tgs[visible_tag_idx(tgs, names.deep_view()[ni as int])],
                                fid,
                            ));
                        }
                    }
                    assert forall|fid: Seq<char>|
                        (exists|w: int|
                            0 <= w < ni + 1 && #[trigger] tag_has_file(
                                tgs[visible_tag_idx(tgs, names.deep_view()[w])],
                                fid,
                            )) implies #[trigger] out.deep_view().contains(fid) by {
                        let w = choose|w: int|
                            0 <= w < ni + 1 && #[trigger] tag_has_file(
                                tgs[visible_tag_idx(tgs, names.deep_view()[w])],
                                fid,
                            );
                        if w == ni {
                            assert(fvec.deep_view().contains(fid));
                            assert(fvec.deep_view().subrange(0, fn_ as int).contains(fid));
                        }
                    }
                }
            },
            None => {
                proof {
                    assert(tag_files(tgs[tidx as int]) =~= Seq::<Seq<char>>::empty());
                    assert forall|fid: Seq<char>|
                        (exists|w: int|
                            0 <= w < ni + 1 && #[trigger] tag_has_file(
                                tgs[visible_tag_idx(tgs, names.deep_view()[w])],
                                fid,
                            )) implies #[trigger] out.deep_view().contains(fid) by {
                        let w = choose|w: int|
                            0 <= w < ni + 1 && #[trigger] tag_has_file(
                                tgs[visible_tag_idx(tgs, names.deep_view()[w])],
                                fid,
                            );
                        assert(w != ni);
                    }
                }
            },
        }
        ni += 1;
    }
    proof {
        assert forall|fid: Seq<char>| #[trigger]
            out.deep_view().contains(fid) implies filter_inode_set(tgs, als, tokens).contains(
            fid,
        ) by {
            let w = choose|w: int|
                0 <= w < nn && #[trigger] tag_has_file(
                    tgs[visible_tag_idx(tgs, names.deep_view()[w])],
                    fid,
                );
            let m = names.deep_view()[w];
            assert(names.deep_view().contains(m));
            let t = choose|t: int| 0 <= t < tn && closure_member(tgs, als, #[trigger] tokens[t], m);
            assert(closure_member(tgs, als, tokens[t], m) && tag_has_file(
                tgs[visible_tag_idx(tgs, m)],
                fid,
            ));
        }
        assert forall|fid: Seq<char>|
            filter_inode_set(tgs, als, tokens).contains(fid) implies #[trigger]
            out.deep_view().contains(fid) by {
            let (t, m): (int, Seq<char>) = choose|t: int, m: Seq<char>|
                #![trigger closure_member(tgs, als, tokens[t], m), tag_has_file(tgs[visible_tag_idx(tgs, m)], fid)]
                0 <= t < tn && closure_member(tgs, als, tokens[t], m) && tag_has_file(
                    tgs[visible_tag_idx(tgs, m)],
                    fid,
                );
            assert(names.deep_view().contains(m));
            let w = choose|w: int| 0 <= w < names.deep_view().len() && names.deep_view()[w] == m;
            assert(tag_has_file(tgs[visible_tag_idx(tgs, names.deep_view()[w])], fid));
        }
        assert forall|w: int|
            0 <= w < tags@.len() implies has_visible_tag(
            tgs,
            spec_resolve_alias(als, #[trigger] tags@[w]@),
        ) by {
            assert(tokens[w] == tags@[w]@);
            assert(has_visible_tag(tgs, spec_resolve_alias(als, tokens[w])));
        }
    }
    Some(out)
}

/// What the caller's filesystem probe reported for one gathered identity.
#[derive(Debug)]
pub enum ResolveOutcome {
    /// The record's last known path still names a file on disk.
    KnownPathExists,
    /// The last known path is stale; a scan found the file here.
    FoundAt(String),
    /// The file could not be found anywhere.
    Gone,
}

/// The registry record a gathered identity string refers to, or -1: the
/// string must read as a number that some record carries.
pub open spec fn record_idx_for(files: Seq<FileData>, fid: Seq<char>) -> int {
    if is_dec_string(fid) && dec_val(fid) <= u64::MAX {
        file_by_inode_idx(files, dec_val(fid) as u64)
    } else {
        -1
    }
}

/// The last known path of the record a gathered identity refers to.
pub fn lookup_last_known(tags_file: &TagsFile, inode_str: &String) -> (r: Option<String>)
    ensures
        match r {
            Some(p) => record_idx_for(tags_file.files@, inode_str@) >= 0 && p@
                == tags_file.files@[record_idx_for(tags_file.files@, inode_str@)].last_known_name@,
            None => record_idx_for(tags_file.files@, inode_str@) == -1,
        },
{
    let ino = match parse_inode(inode_str) {
        Some(n) => n,
        None => {
            return None;
        },
    };
    match find_file_by_inode(&tags_file.files, ino) {
        Some(i) => {
            proof {
                lemma_first_where(tags_file.files@, |f: FileData| f.file_inode == ino);
            }
            Some(tags_file.files[i].last_known_name.clone())
        },
        None => None,
    }
}

/// Resolve one gathered identity to a current path, folding the caller's
/// probe verdict into the registry.
///
/// An identity that reads as no registered number is dropped.  A sound
/// last known path is returned as is; a freshly found path replaces the
/// record's last known path and is returned; a vanished file is dropped.
pub fn resolve_one(tags_file: &mut TagsFile, inode_str: &String, outcome: ResolveOutcome) -> (r:
    Option<String>)
    ensures
        final(tags_file).aliases == old(tags_file).aliases,
        final(tags_file).tags == old(tags_file).tags,
        ({
            let files0 = old(tags_file).files@;
            let idx = record_idx_for(files0, inode_str@);
            if idx < 0 {
                &&& r is None
                &&& final(tags_file).files == old(tags_file).files
            } else {
                match outcome {
                    ResolveOutcome::KnownPathExists => {
                        &&& r matches Some(p) && p@ == files0[idx].last_known_name@
                        &&& final(tags_file).files == old(tags_file).files
                    },
                    ResolveOutcome::FoundAt(path) => {
                        &&& r matches Some(p) && p@ == path@
                        &&& final(tags_file).files@.len() == files0.len()
                        &&& (forall|j: int|
                            0 <= j < files0.len() && j != idx ==> final(tags_file).files@[j]
                                == files0[j])
                        &&& final(tags_file).files@[idx].last_known_name@ == path@
                        &&& final(tags_file).files@[idx].file_inode == files0[idx].file_inode
                        &&& final(tags_file).files@[idx].parent_dir_inode
                            == files0[idx].parent_dir_inode
                    },
                    ResolveOutcome::Gone => {
                        &&& r is None
                        &&& final(tags_file).files == old(tags_file).files
                    },
                }
            }
        }),
{
    let ino = match parse_inode(inode_str) {
        Some(n) => n,
        None => {
            return None;
        },
    };
    let idx = match find_file_by_inode(&tags_file.files, ino) {
        Some(i) => i,
        None => {
            return None;
        },
    };
    proof {
        lemma_first_where(tags_file.files@, |f: FileData| f.file_inode == ino);
    }
    match outcome {
        ResolveOutcome::KnownPathExists => Some(tags_file.files[idx].last_known_name.clone()),
        ResolveOutcome::FoundAt(path) => {
            let rec = &mut tags_file.files[idx];
            rec.last_known_name = path;
            Some(rec.last_known_name.clone())
        },
        ResolveOutcome::Gone => None,
    }
}

/// The paths present in both lists, each once, in the first list's order.
pub fn intersect_paths(a: &Vec<String>, b: &Vec<String>) -> (r: Vec<String>)
    ensures
        forall|x: Seq<char>| #[trigger]
            r.deep_view().contains(x) <==> (a.deep_view().contains(x) && b.deep_view().contains(
                x,
            )),
        forall|i: int, j: int| 0 <= i < j < r@.len() ==> r@[i]@ != r@[j]@,
{
    let n = a.len();
    let mut r: Vec<String> = Vec::new();
    let mut i: usize = 0;
    while i < n
        invariant
            n == a@.len(),
            0 <= i <= n,
            forall|x: Seq<char>| #[trigger]
                r.deep_view().contains(x) <==> (a.deep_view().subrange(0, i as int).contains(x)
                    && b.deep_view().contains(x)),
            forall|p: int, q: int| 0 <= p < q < r@.len() ==> r@[p]@ != r@[q]@,
        decreases n - i,
    {
        let ghost pre = a.deep_view().subrange(0, i as int);
        let ghost post = a.deep_view().subrange(0, i + 1);
        proof {
            assert(post.drop_last() =~= pre);
            assert(post.last() == a.deep_view()[i as int]);
        }
        let x = &a[i];
        if vec_contains_string(b, x) && !vec_contains_string(&r, x) {
            let ghost rpre = r.deep_view();
            r.push(x.clone());
            proof {
                assert(r.deep_view() =~= rpre.push(x@));
                assert forall|p: int| 0 <= p < r@.len() - 1 implies r@[p]@ != x@ by {
                    if r@[p]@ == x@ {
                        assert(rpre[p] == x@);
                        assert(rpre.contains(x@));
                    }
                }
                assert forall|y: Seq<char>| #[trigger]
                    r.deep_view().contains(y) implies (post.contains(y) && b.deep_view().contains(
                    y,
                )) by {
                    if y == x@ {
                        assert(post.last() == y);
                    } else {
                        assert(rpre.contains(y));
                        assert(pre.contains(y));
                        let w = choose|w: int| 0 <= w < pre.len() && pre[w] == y;
                        assert(post[w] == y);
                    }
                }
                assert forall|y: Seq<char>|
                    (post.contains(y) && b.deep_view().contains(y)) implies #[trigger]
                    r.deep_view().contains(y) by {
                    let w = choose|w: int| 0 <= w < post.len() && post[w] == y;
                    if w < i {
                        assert(pre[w] == y);
                        assert(pre.contains(y));
                        assert(rpre.contains(y));
                        let w2 = choose|w2: int| 0 <= w2 < rpre.len() && rpre[w2] == y;
                        assert(r.deep_view()[w2] == y);
                    } else {
                        assert(y == x@);
                        assert(r.deep_view().last() == y);
                    }
                }
            }
        } else {
            proof {
                assert forall|y: Seq<char>|
                    (post.contains(y) && b.deep_view().contains(y)) implies #[trigger]
                    r.deep_view().contains(y) by {
                    let w = choose|w: int| 0 <= w < post.len() && post[w] == y;
                    if w < i {
                        assert(pre[w] == y);
                        assert(pre.contains(y));
                    } else {
                        assert(y == x@);
                        assert(a.deep_view()[i as int] == x@);
                    }
                }
                assert forall|y: Seq<char>| #[trigger]
                    r.deep_view().contains(y) implies (post.contains(y) && b.deep_view().contains(
                    y,
                )) by {
                    assert(pre.contains(y));
                    let w = choose|w: int| 0 <= w < pre.len() && pre[w] == y;
                    assert(post[w] == y);
                }
            }
        }
        i += 1;
    }
    proof {
        assert(a.deep_view().subrange(0, n as int) =~= a.deep_view());
    }
    r
}

} // verus!
