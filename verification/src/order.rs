//! Lexicographic ordering of strings by character value, and sorted,
//! deduplicated path lists built with it.

use vstd::prelude::*;
use vstd::string::StrSliceExecFns;

verus! {

/// Lexicographic order on character sequences: `a` is `b` or comes before
/// it, comparing scalar values position by position.
pub open spec fn chars_le(a: Seq<char>, b: Seq<char>) -> bool
    decreases a.len(),
{
    if a.len() == 0 {
        true
    } else if b.len() == 0 {
        false
    } else if a[0] < b[0] {
        true
    } else if a[0] > b[0] {
        false
    } else {
        chars_le(a.drop_first(), b.drop_first())
    }
}

/// The order is antisymmetric: mutual order means equality.
pub proof fn lemma_chars_le_antisym(a: Seq<char>, b: Seq<char>)
    requires
        chars_le(a, b),
        chars_le(b, a),
    ensures
        a == b,
    decreases a.len(),
{
    if a.len() == 0 {
        assert(b.len() == 0);
        assert(a =~= b);
    } else {
        assert(b.len() > 0);
        assert(!(a[0] < b[0]) && !(a[0] > b[0]));
        assert(a[0] == b[0]);
        lemma_chars_le_antisym(a.drop_first(), b.drop_first());
        assert(a =~= seq![a[0]] + a.drop_first());
        assert(b =~= seq![b[0]] + b.drop_first());
    }
}

/// The order is transitive.
pub proof fn lemma_chars_le_trans(a: Seq<char>, b: Seq<char>, c: Seq<char>)
    requires
        chars_le(a, b),
        chars_le(b, c),
    ensures
        chars_le(a, c),
    decreases a.len(),
{
    if a.len() > 0 {
        assert(b.len() > 0);
        assert(c.len() > 0);
        if !(a[0] < b[0]) && !(b[0] < c[0]) {
            assert(a[0] == b[0] && b[0] == c[0]);
            lemma_chars_le_trans(a.drop_first(), b.drop_first(), c.drop_first());
        } else {
            assert(a[0] <= b[0] && b[0] <= c[0]);
            assert(a[0] < c[0]);
        }
    }
}

/// A strictly increasing list of strings: sorted, with no repeats.
pub open spec fn sorted_strict(s: Seq<Seq<char>>) -> bool {
    forall|i: int, j: int|
        0 <= i < j < s.len() ==> chars_le(#[trigger] s[i], #[trigger] s[j]) && s[i] != s[j]
}

/// Three-way comparison of two strings in the `chars_le` order: negative,
/// zero or positive as `a` comes before, is, or comes after `b`.
pub fn compare_strings(a: &String, b: &String) -> (r: i32)
    ensures
        r < 0 ==> chars_le(a@, b@) && a@ != b@,
        r == 0 ==> a@ == b@,
        r > 0 ==> chars_le(b@, a@) && a@ != b@,
{
    let astr = a.as_str();
    let bstr = b.as_str();
    let an = astr.unicode_len();
    let bn = bstr.unicode_len();
    proof {
        assert(a@.skip(0) =~= a@);
        assert(b@.skip(0) =~= b@);
    }
    let mut i: usize = 0;
    while i < an && i < bn
        invariant
            an == a@.len(),
            bn == b@.len(),
            astr@ == a@,
            bstr@ == b@,
            0 <= i <= an,
            0 <= i <= bn,
            forall|w: int| 0 <= w < i ==> a@[w] == b@[w],
            chars_le(a@, b@) == chars_le(a@.skip(i as int), b@.skip(i as int)),
            chars_le(b@, a@) == chars_le(b@.skip(i as int), a@.skip(i as int)),
        decreases an - i,
    {
        let ca = astr.get_char(i);
        let cb = bstr.get_char(i);
        let cau = ca as u32;
        let cbu = cb as u32;
        proof {
            assert(ca == a@[i as int] && cb == b@[i as int]);
        }
        proof {
            assert(a@.skip(i as int)[0] == a@[i as int]);
            assert(b@.skip(i as int)[0] == b@[i as int]);
            assert(a@.skip(i as int).drop_first() =~= a@.skip(i + 1));
            assert(b@.skip(i as int).drop_first() =~= b@.skip(i + 1));
        }
        if cau < cbu {
            proof {
                assert(chars_le(a@.skip(i as int), b@.skip(i as int)));
                assert(a@[i as int] != b@[i as int]);
            }
            return -1;
        }
        if cau > cbu {
            proof {
                assert(chars_le(b@.skip(i as int), a@.skip(i as int)));
                assert(a@[i as int] != b@[i as int]);
            }
            return 1;
        }
        proof {
            assert(ca == cb);
        }
        i += 1;
    }
    if an == bn {
        proof {
            assert(a@ =~= b@);
        }
        0
    } else if an < bn {
        proof {
            assert(a@.skip(an as int).len() == 0);
            assert(chars_le(a@.skip(i as int), b@.skip(i as int)));
            assert(a@.len() != b@.len());
        }
        -1
    } else {
        proof {
            assert(b@.skip(bn as int).len() == 0);
            assert(a@.skip(i as int).len() > 0);
            assert(chars_le(b@.skip(i as int), a@.skip(i as int)));
        }
        1
    }
}

/// Insert a path into a strictly sorted list, keeping it strictly sorted;
/// a path already present is dropped.
fn insert_sorted(out: &mut Vec<String>, s: String)
    requires
        sorted_strict(old(out).deep_view()),
    ensures
        sorted_strict(final(out).deep_view()),
        final(out).deep_view().to_set() =~= old(out).deep_view().to_set().insert(s@),
{
    let ghost v0 = out.deep_view();
    let n = out.len();
    let mut k: usize = 0;
    while k < n
        invariant
            n == out@.len(),
            out.deep_view() == v0,
            v0 == old(out).deep_view(),
            sorted_strict(v0),
            0 <= k <= n,
            forall|w: int| 0 <= w < k ==> chars_le(#[trigger] v0[w], s@) && v0[w] != s@,
        decreases n - k,
    {
        let c = compare_strings(&s, &out[k]);
        proof {
            assert(out.deep_view()[k as int] == out@[k as int]@);
        }
        if c == 0 {
            proof {
                assert(v0[k as int] == s@);
                assert(v0.contains(s@));
                assert(out.deep_view().to_set() =~= v0.to_set().insert(s@));
            }
            return;
        }
        if c < 0 {
            let ghost vpre = out.deep_view();
            out.insert(k, s);
            proof {
                assert(out.deep_view() =~= vpre.insert(k as int, s@));
                let v1 = out.deep_view();
                assert forall|i: int, j: int|
                    0 <= i < j < v1.len() implies chars_le(#[trigger] v1[i], #[trigger] v1[j])
                    && v1[i] != v1[j] by {
                    let oi = if i < k { vpre[i] } else if i == k { s@ } else { vpre[i - 1] };
                    let oj = if j < k { vpre[j] } else if j == k { s@ } else { vpre[j - 1] };
                    assert(v1[i] == oi);
                    assert(v1[j] == oj);
                    if j < k || (i > k) {
                    } else if i < k && j == k {
                    } else if i < k && j > k {
                        if i < k - 1 || k <= j - 1 {
                        }
                        if i == j - 1 {
                            assert(chars_le(vpre[i], s@));
                            assert(chars_le(s@, vpre[j - 1]));
                            lemma_chars_le_trans(vpre[i], s@, vpre[j - 1]);
                            if vpre[i] == vpre[j - 1] {
                                lemma_chars_le_antisym(s@, vpre[j - 1]);
                            }
                        } else {
                            if vpre[i] == vpre[j - 1] {
                            }
                        }
                    } else if i == k {
                        assert(oi == s@);
                        assert(chars_le(s@, vpre[k as int]));
                        if j == k + 1 {
                        } else {
                            assert(chars_le(vpre[k as int], vpre[j - 1]));
                            lemma_chars_le_trans(s@, vpre[k as int], vpre[j - 1]);
                            if s@ == vpre[j - 1] {
                                lemma_chars_le_antisym(vpre[k as int], vpre[j - 1]);
                            }
                        }
                    }
                }
                assert forall|x: Seq<char>|
                    v1.to_set().contains(x) implies vpre.to_set().insert(s@).contains(x) by {
                    let w = choose|w: int| 0 <= w < v1.len() && v1[w] == x;
                    if w < k {
                        assert(vpre[w] == x);
                        assert(vpre.contains(x));
                    } else if w == k {
                    } else {
                        assert(vpre[w - 1] == x);
                        assert(vpre.contains(x));
                    }
                }
                assert forall|x: Seq<char>|
                    vpre.to_set().insert(s@).contains(x) implies v1.to_set().contains(x) by {
                    if x == s@ {
                        assert(v1[k as int] == x);
                    } else {
                        assert(vpre.contains(x));
                        let w = choose|w: int| 0 <= w < vpre.len() && vpre[w] == x;
                        if w < k {
                            assert(v1[w] == x);
                        } else {
                            assert(v1[w + 1] == x);
                        }
                    }
                }
                assert(v1.to_set() =~= vpre.to_set().insert(s@));
            }
            return;
        }
        proof {
            assert(chars_le(v0[k as int], s@) && v0[k as int] != s@);
        }
        k += 1;
    }
    let ghost vpre = out.deep_view();
    out.push(s);
    proof {
        assert(out.deep_view() =~= vpre.push(s@));
        let v1 = out.deep_view();
        assert forall|i: int, j: int|
            0 <= i < j < v1.len() implies chars_le(#[trigger] v1[i], #[trigger] v1[j]) && v1[i]
            != v1[j] by {
            if j < v1.len() - 1 {
                assert(v1[i] == vpre[i] && v1[j] == vpre[j]);
            } else {
                assert(v1[j] == s@);
                assert(v1[i] == vpre[i]);
            }
        }
        assert forall|x: Seq<char>|
            v1.to_set().contains(x) implies vpre.to_set().insert(s@).contains(x) by {
            let w = choose|w: int| 0 <= w < v1.len() && v1[w] == x;
            if w < vpre.len() {
                assert(vpre[w] == x);
                assert(vpre.contains(x));
            }
        }
        assert forall|x: Seq<char>|
            vpre.to_set().insert(s@).contains(x) implies v1.to_set().contains(x) by {
            if x == s@ {
                assert(v1[v1.len() - 1] == x);
            } else {
                assert(vpre.contains(x));
                let w = choose|w: int| 0 <= w < vpre.len() && vpre[w] == x;
                assert(v1[w] == x);
            }
        }
        assert(v1.to_set() =~= vpre.to_set().insert(s@));
    }
}

/// Sort paths into `chars_le` order and drop repeats: the result is
/// strictly increasing and holds exactly the input's paths.
pub fn sort_dedup_paths(paths: Vec<String>) -> (r: Vec<String>)
    ensures
        sorted_strict(r.deep_view()),
        r.deep_view().to_set() =~= paths.deep_view().to_set(),
{
    let n = paths.len();
    let mut out: Vec<String> = Vec::new();
    let mut i: usize = 0;
    while i < n
        invariant
            n == paths@.len(),
            0 <= i <= n,
            sorted_strict(out.deep_view()),
            out.deep_view().to_set() =~= paths.deep_view().subrange(0, i as int).to_set(),
        decreases n - i,
    {
        let ghost pre = paths.deep_view().subrange(0, i as int);
        let ghost post = paths.deep_view().subrange(0, i + 1);
        insert_sorted(&mut out, paths[i].clone());
        proof {
            assert(post.drop_last() =~= pre);
            assert(post.last() == paths.deep_view()[i as int]);
            assert(post.to_set() =~= pre.to_set().insert(paths.deep_view()[i as int])) by {
                assert forall|x: Seq<char>|
                    post.to_set().contains(x) implies pre.to_set().insert(
                    paths.deep_view()[i as int]).contains(x) by {
                    let w = choose|w: int| 0 <= w < post.len() && post[w] == x;
                    if w < pre.len() {
                        assert(pre[w] == x);
                        assert(pre.contains(x));
                    }
                }
                assert forall|x: Seq<char>|
                    pre.to_set().insert(paths.deep_view()[i as int]).contains(x) implies
                    post.to_set().contains(x) by {
                    if x == paths.deep_view()[i as int] {
                        assert(post[post.len() - 1] == x);
                    } else {
                        let w = choose|w: int| 0 <= w < pre.len() && pre[w] == x;
                        assert(post[w] == x);
                    }
                }
            }
        }
        i += 1;
    }
    proof {
        assert(paths.deep_view().subrange(0, n as int) =~= paths.deep_view());
    }
    out
}

} // verus!
