//! The tag-store data model: tags, tracked files, aliases, and the
//! specification-level helpers that the rest of the library states its
//! contracts with.

use vstd::prelude::*;

verus! {

/// The kind of a tag in the hierarchy.
///
/// `Normal` tags are ordinary assignable tags; `Dud` tags are structural
/// scaffolding that may never hold files; `Exclusive` tags conflict with
/// their own descendants.
#[derive(Clone, Copy, Debug, PartialEq, Eq, Structural)]
pub enum TagType {
    Normal,
    Dud,
    Exclusive,
}

/// A node of the tag forest.  The store owns all tags in one flat registry;
/// `children` and `ancestry` carry tag names, not ownership.
#[derive(Debug)]
pub struct EntsTag {
    pub name: String,
    pub tag_type: TagType,
    /// Names of the direct children, in definition order.
    pub children: Vec<String>,
    /// Names of the ancestors, from the forest root down to the direct parent.
    pub ancestry: Vec<String>,
    /// Soft-delete flag: a missing value counts as visible.
    pub show: Option<bool>,
    /// Identities of the files assigned to this tag, as decimal strings.
    pub files: Option<Vec<String>>,
    /// Owned subtrees, used only while a freshly parsed definition is being
    /// shaped; flattened away before the tag enters the store.
    pub child_tags: Vec<EntsTag>,
    /// Alias attached to this tag by the definition, if any.
    pub alias: Option<String>,
}

/// A persisted file-identity record.
#[derive(Debug)]
pub struct FileData {
    pub last_known_name: String,
    pub file_inode: u64,
    pub parent_dir_inode: u64,
}

/// One alias entry: a short alternate name for a canonical tag name.
#[derive(Debug)]
pub struct AliasEntry {
    pub alias: String,
    pub canonical: String,
}

/// The aggregate store: tracked files, aliases, and the flat tag registry.
#[derive(Debug)]
pub struct TagsFile {
    pub files: Vec<FileData>,
    pub aliases: Vec<AliasEntry>,
    pub tags: Vec<EntsTag>,
}

impl EntsTag {
    /// A fresh, visible tag with no children and no files.
    pub fn new(name: String, tag_type: TagType, ancestry: Vec<String>) -> (r: EntsTag)
        ensures
            r.name == name,
            r.tag_type == tag_type,
            r.children@.len() == 0,
            r.ancestry == ancestry,
            r.show == Some(true),
            r.files matches Some(f) && f@.len() == 0,
            r.child_tags@.len() == 0,
            r.alias is None,
    {
        EntsTag {
            name,
            tag_type,
            children: Vec::new(),
            ancestry,
            show: Some(true),
            files: Some(Vec::new()),
            child_tags: Vec::new(),
            alias: None,
        }
    }
}

/// `t1` is `t0` with `children` rebuilt as the names of the owned
/// subtrees, recursively throughout the tree, and nothing else changed.
pub open spec fn finalized_rel(t0: EntsTag, t1: EntsTag) -> bool
    decreases t0,
{
    &&& t1.name == t0.name
    &&& t1.tag_type == t0.tag_type
    &&& t1.ancestry == t0.ancestry
    &&& t1.show == t0.show
    &&& t1.files == t0.files
    &&& t1.alias == t0.alias
    &&& t1.children.deep_view() == t0.child_tags@.map_values(|c: EntsTag| c.name@)
    &&& t1.child_tags@.len() == t0.child_tags@.len()
    &&& (forall|i: int|
        0 <= i < t0.child_tags@.len() ==> finalized_rel(
            t0.child_tags@[i],
            #[trigger] t1.child_tags@[i],
        ))
}

impl EntsTag {
    /// Rebuild `children` from the owned subtrees' names, recursively, in
    /// preparation for the tag entering the flat registry.
    pub fn finalize(&mut self)
        ensures
            finalized_rel(*old(self), *final(self)),
        decreases *old(self),
    {
        broadcast use vstd::std_specs::vec::axiom_vec_index_decreases;

        let n = self.child_tags.len();
        let mut names: Vec<String> = Vec::new();
        let mut i: usize = 0;
        while i < n
            invariant
                *self == *old(self),
                n == self.child_tags@.len(),
                0 <= i <= n,
                names@.len() == i,
                forall|j: int| 0 <= j < i ==> #[trigger] names@[j]@ == self.child_tags@[j].name@,
            decreases n - i,
        {
            names.push(self.child_tags[i].name.clone());
            i += 1;
        }
        proof {
            assert(names.deep_view() =~= old(self).child_tags@.map_values(
                |c: EntsTag| c.name@,
            ));
        }
        self.children = names;
        let mut k: usize = 0;
        while k < n
            invariant
                n == self.child_tags@.len(),
                n == old(self).child_tags@.len(),
                0 <= k <= n,
                self.name == old(self).name,
                self.tag_type == old(self).tag_type,
                self.ancestry == old(self).ancestry,
                self.show == old(self).show,
                self.files == old(self).files,
                self.alias == old(self).alias,
                self.children.deep_view() == old(self).child_tags@.map_values(
                    |c: EntsTag| c.name@,
                ),
                forall|j: int|
                    0 <= j < k ==> finalized_rel(
                        old(self).child_tags@[j],
                        #[trigger] self.child_tags@[j],
                    ),
                forall|j: int| k <= j < n ==> self.child_tags@[j] == old(self).child_tags@[j],
            decreases n - k,
        {
            proof {
                assert(self.child_tags@[k as int] == old(self).child_tags@[k as int]);
                vstd::std_specs::vec::axiom_vec_index_decreases(old(self).child_tags, k as int);
                assert(decreases_to!(*old(self) => old(self).child_tags[k as int]));
            }
            self.child_tags[k].finalize();
            k += 1;
        }
    }
}

impl TagsFile {
    /// An empty store.
    pub fn new() -> (r: TagsFile)
        ensures
            r.files@.len() == 0,
            r.aliases@.len() == 0,
            r.tags@.len() == 0,
    {
        TagsFile { files: Vec::new(), aliases: Vec::new(), tags: Vec::new() }
    }
}

/// Whether a tag is visible: the `show` flag, defaulting to true when absent.
pub open spec fn tag_visible(t: EntsTag) -> bool {
    match t.show {
        Some(b) => b,
        None => true,
    }
}

/// Whether `t` is the visible tag named `name`.
pub open spec fn tag_matches(t: EntsTag, name: Seq<char>) -> bool {
    t.name@ == name && tag_visible(t)
}

/// Whether `t` carries the name `name`, visible or not.
pub open spec fn tag_named(t: EntsTag, name: Seq<char>) -> bool {
    t.name@ == name
}

/// Whether the alias entry `a` is keyed by `key`.
pub open spec fn alias_keyed(a: AliasEntry, key: Seq<char>) -> bool {
    a.alias@ == key
}

/// The file identities a tag holds, as a sequence of character strings; an
/// absent list counts as empty.
pub open spec fn tag_files(t: EntsTag) -> Seq<Seq<char>> {
    match t.files {
        Some(v) => v.deep_view(),
        None => Seq::empty(),
    }
}

/// Whether the tag holds the file identity `f`.
pub open spec fn tag_has_file(t: EntsTag, f: Seq<char>) -> bool {
    tag_files(t).contains(f)
}

/// Index of the first element of `s` satisfying `p`, or -1 if none does.
pub open spec fn first_where<A>(s: Seq<A>, p: spec_fn(A) -> bool) -> int
    decreases s.len(),
{
    if s.len() == 0 {
        -1
    } else if p(s[0]) {
        0
    } else if first_where(s.drop_first(), p) == -1 {
        -1
    } else {
        first_where(s.drop_first(), p) + 1
    }
}

/// What `first_where` returns: either no element satisfies `p`, or the result
/// is the least index whose element does.
pub proof fn lemma_first_where<A>(s: Seq<A>, p: spec_fn(A) -> bool)
    ensures
        first_where(s, p) == -1 ==> (forall|i: int| 0 <= i < s.len() ==> !p(s[i])),
        first_where(s, p) != -1 ==> 0 <= first_where(s, p) < s.len(),
        first_where(s, p) != -1 ==> p(s[first_where(s, p)]),
        first_where(s, p) != -1 ==> (forall|i: int| 0 <= i < first_where(s, p) ==> !p(s[i])),
    decreases s.len(),
{
    if s.len() > 0 && !p(s[0]) {
        let d = s.drop_first();
        lemma_first_where(d, p);
        if first_where(s, p) == -1 {
            assert forall|i: int| 0 <= i < s.len() implies !p(s[i]) by {
                if i >= 1 {
                    assert(s[i] == d[i - 1]);
                }
            }
        } else {
            assert forall|i: int| 0 <= i < first_where(s, p) implies !p(s[i]) by {
                if i >= 1 {
                    assert(s[i] == d[i - 1]);
                }
            }
        }
    }
}

/// Two searches agree when their predicates agree position by position.
pub proof fn lemma_first_where_congruent<A>(
    s1: Seq<A>,
    s2: Seq<A>,
    p1: spec_fn(A) -> bool,
    p2: spec_fn(A) -> bool,
)
    requires
        s1.len() == s2.len(),
        forall|i: int| 0 <= i < s1.len() ==> p1(#[trigger] s1[i]) == p2(s2[i]),
    ensures
        first_where(s1, p1) == first_where(s2, p2),
    decreases s1.len(),
{
    if s1.len() > 0 {
        assert(p1(s1[0]) == p2(s2[0]));
        if !p1(s1[0]) {
            let d1 = s1.drop_first();
            let d2 = s2.drop_first();
            assert forall|i: int| 0 <= i < d1.len() implies p1(#[trigger] d1[i]) == p2(d2[i]) by {
                assert(d1[i] == s1[i + 1]);
                assert(d2[i] == s2[i + 1]);
            }
            lemma_first_where_congruent(d1, d2, p1, p2);
        }
    }
}

/// Index of the first visible tag named `name`, or -1.
pub open spec fn visible_tag_idx(tags: Seq<EntsTag>, name: Seq<char>) -> int {
    first_where(tags, |t: EntsTag| tag_matches(t, name))
}

/// Whether some visible tag is named `name`.
pub open spec fn has_visible_tag(tags: Seq<EntsTag>, name: Seq<char>) -> bool {
    visible_tag_idx(tags, name) >= 0
}

pub proof fn lemma_visible_tag_idx(tags: Seq<EntsTag>, name: Seq<char>)
    ensures
        !has_visible_tag(tags, name) ==> (forall|i: int|
            0 <= i < tags.len() ==> !tag_matches(tags[i], name)),
        has_visible_tag(tags, name) ==> 0 <= visible_tag_idx(tags, name) < tags.len(),
        has_visible_tag(tags, name) ==> tag_matches(tags[visible_tag_idx(tags, name)], name),
        has_visible_tag(tags, name) ==> (forall|i: int|
            0 <= i < visible_tag_idx(tags, name) ==> !tag_matches(tags[i], name)),
{
    lemma_first_where(tags, |t: EntsTag| tag_matches(t, name));
}

/// Index of the first alias entry for `key`, or -1.
pub open spec fn alias_idx(aliases: Seq<AliasEntry>, key: Seq<char>) -> int {
    first_where(aliases, |a: AliasEntry| alias_keyed(a, key))
}

/// What `alias_idx` returns: -1 exactly when no entry carries the key,
/// else the least entry position that does.
pub proof fn lemma_alias_idx(aliases: Seq<AliasEntry>, key: Seq<char>)
    ensures
        alias_idx(aliases, key) == -1 ==> (forall|i: int|
            0 <= i < aliases.len() ==> !alias_keyed(aliases[i], key)),
        alias_idx(aliases, key) != -1 ==> 0 <= alias_idx(aliases, key) < aliases.len(),
        alias_idx(aliases, key) != -1 ==> alias_keyed(aliases[alias_idx(aliases, key)], key),
        alias_idx(aliases, key) != -1 ==> (forall|i: int|
            0 <= i < alias_idx(aliases, key) ==> !alias_keyed(aliases[i], key)),
{
    lemma_first_where(aliases, |a: AliasEntry| alias_keyed(a, key));
}

/// The canonical tag name a token resolves to: the first alias entry's
/// canonical name if one matches, otherwise the token itself.
pub open spec fn spec_resolve_alias(aliases: Seq<AliasEntry>, key: Seq<char>) -> Seq<char> {
    if alias_idx(aliases, key) >= 0 {
        aliases[alias_idx(aliases, key)].canonical@
    } else {
        key
    }
}

/// Index of the first file record whose last known path is `path`, or -1.
pub open spec fn file_by_path_idx(files: Seq<FileData>, path: Seq<char>) -> int {
    first_where(files, |f: FileData| f.last_known_name@ == path)
}

/// Index of the first file record with identity `ino`, or -1.
pub open spec fn file_by_inode_idx(files: Seq<FileData>, ino: u64) -> int {
    first_where(files, |f: FileData| f.file_inode == ino)
}

/// The fields of `a` and `b` agree, the visibility flag aside: same name,
/// kind, children, ancestry, files, alias, and structurally equal owned
/// subtrees.
pub open spec fn same_tag_except_show(a: EntsTag, b: EntsTag) -> bool
    decreases a, 0int,
{
    &&& a.name@ == b.name@
    &&& a.tag_type == b.tag_type
    &&& a.children@ == b.children@
    &&& a.ancestry@ == b.ancestry@
    &&& a.files.deep_view() == b.files.deep_view()
    &&& a.child_tags@.len() == b.child_tags@.len()
    &&& (forall|i: int|
        0 <= i < a.child_tags@.len() ==> same_tag(a.child_tags@[i], #[trigger] b.child_tags@[i]))
    &&& a.alias.deep_view() == b.alias.deep_view()
}

/// The two tags agree in every field.
pub open spec fn same_tag(a: EntsTag, b: EntsTag) -> bool
    decreases a, 1int,
{
    same_tag_except_show(a, b) && a.show == b.show
}

/// Copy a vector of strings.
pub fn clone_string_vec(v: &Vec<String>) -> (r: Vec<String>)
    ensures
        r@ == v@,
{
    let n = v.len();
    let mut r: Vec<String> = Vec::new();
    let mut i: usize = 0;
    while i < n
        invariant
            n == v@.len(),
            0 <= i <= n,
            r@ =~= v@.subrange(0, i as int),
        decreases n - i,
    {
        r.push(v[i].clone());
        i += 1;
    }
    proof {
        assert(r@ =~= v@);
    }
    r
}

/// Copy an optional vector of strings.
pub fn clone_opt_string_vec(v: &Option<Vec<String>>) -> (r: Option<Vec<String>>)
    ensures
        r.deep_view() == v.deep_view(),
{
    match v {
        Some(inner) => {
            let c = Some(clone_string_vec(inner));
            proof {
                assert(c.deep_view() =~~= v.deep_view());
            }
            c
        },
        None => None,
    }
}

/// Copy an optional string.
pub fn clone_opt_string(v: &Option<String>) -> (r: Option<String>)
    ensures
        r.deep_view() == v.deep_view(),
{
    match v {
        Some(inner) => Some(inner.clone()),
        None => None,
    }
}

impl EntsTag {
    /// Copy a whole tag, owned subtrees included.
    pub fn duplicate(&self) -> (r: EntsTag)
        ensures
            same_tag(*self, r),
        decreases *self,
    {
        broadcast use vstd::std_specs::vec::axiom_vec_index_decreases;

        let n = self.child_tags.len();
        let mut kids: Vec<EntsTag> = Vec::new();
        let mut i: usize = 0;
        while i < n
            invariant
                n == self.child_tags@.len(),
                0 <= i <= n,
                kids@.len() == i,
                forall|j: int|
                    0 <= j < i ==> same_tag(self.child_tags@[j], #[trigger] kids@[j]),
            decreases n - i,
        {
            proof {
                assert(self.child_tags@[i as int] == self.child_tags[i as int]);
            }
            kids.push(self.child_tags[i].duplicate());
            i += 1;
        }
        EntsTag {
            name: self.name.clone(),
            tag_type: self.tag_type,
            children: clone_string_vec(&self.children),
            ancestry: clone_string_vec(&self.ancestry),
            show: self.show,
            files: clone_opt_string_vec(&self.files),
            child_tags: kids,
            alias: clone_opt_string(&self.alias),
        }
    }
}

/// Whether a tag is visible: its `show` flag, defaulting to true.
pub fn is_visible_tag(tag: &EntsTag) -> (r: bool)
    ensures
        r == tag_visible(*tag),
{
    match tag.show {
        Some(b) => b,
        None => true,
    }
}

/// Find the first visible tag named `name`.
pub fn find_visible_tag(tags: &Vec<EntsTag>, name: &String) -> (r: Option<usize>)
    ensures
        match r {
            Some(i) => visible_tag_idx(tags@, name@) == i,
            None => !has_visible_tag(tags@, name@),
        },
{
    proof {
        lemma_visible_tag_idx(tags@, name@);
    }
    let n = tags.len();
    let mut i: usize = 0;
    while i < n
        invariant
            n == tags@.len(),
            0 <= i <= n,
            forall|j: int| 0 <= j < i ==> !tag_matches(tags@[j], name@),
        decreases n - i,
    {
        let visible = is_visible_tag(&tags[i]);
        if visible && tags[i].name == *name {
            proof {
                lemma_visible_tag_idx(tags@, name@);
            }
            return Some(i);
        }
        i += 1;
    }
    None
}

/// Whether `v` holds a string equal to `s`.
pub fn vec_contains_string(v: &Vec<String>, s: &String) -> (r: bool)
    ensures
        r == v.deep_view().contains(s@),
{
    let n = v.len();
    let mut i: usize = 0;
    while i < n
        invariant
            n == v@.len(),
            0 <= i <= n,
            forall|j: int| 0 <= j < i ==> v@[j]@ != s@,
        decreases n - i,
    {
        if v[i] == *s {
            proof {
                assert(v.deep_view()[i as int] == s@);
            }
            return true;
        }
        i += 1;
    }
    proof {
        assert forall|j: int| 0 <= j < v.deep_view().len() implies v.deep_view()[j] != s@ by {
            assert(v.deep_view()[j] == v@[j]@);
        }
    }
    false
}

/// Position of the first string in `v` equal to `s`.
pub fn find_string_pos(v: &Vec<String>, s: &String) -> (r: Option<usize>)
    ensures
        match r {
            Some(k) => v.deep_view().index_of_first(s@) == Some(k as int),
            None => v.deep_view().index_of_first(s@) is None,
        },
{
    let ghost dv = v.deep_view();
    proof {
        dv.index_of_first_ensures(s@);
    }
    let n = v.len();
    let mut i: usize = 0;
    while i < n
        invariant
            n == v@.len(),
            dv == v.deep_view(),
            0 <= i <= n,
            forall|j: int| 0 <= j < i ==> v@[j]@ != s@,
        decreases n - i,
    {
        if v[i] == *s {
            proof {
                dv.index_of_first_ensures(s@);
                assert(dv[i as int] == s@);
                assert(dv.contains(s@));
                assert forall|j: int| 0 <= j < i implies dv[j] != s@ by {
                    assert(dv[j] == v@[j]@);
                }
                let k = dv.index_of_first(s@).unwrap();
                assert(k <= i);
                assert(k >= i) by {
                    if k < i {
                        assert(dv[k] == s@);
                    }
                }
            }
            return Some(i);
        }
        i += 1;
    }
    proof {
        dv.index_of_first_ensures(s@);
        assert forall|j: int| 0 <= j < dv.len() implies dv[j] != s@ by {
            assert(dv[j] == v@[j]@);
        }
        if dv.index_of_first(s@) is Some {
            let k = dv.index_of_first(s@).unwrap();
            assert(dv[k] == s@);
        }
    }
    None
}

/// Resolve a tag token through the alias table: the first matching alias
/// entry's canonical name, or the token itself.
pub fn resolve_alias<'a>(aliases: &'a Vec<AliasEntry>, key: &'a String) -> (r: &'a String)
    ensures
        r@ == spec_resolve_alias(aliases@, key@),
{
    proof {
        lemma_alias_idx(aliases@, key@);
    }
    let n = aliases.len();
    let mut i: usize = 0;
    while i < n
        invariant
            n == aliases@.len(),
            0 <= i <= n,
            forall|j: int| 0 <= j < i ==> !alias_keyed(aliases@[j], key@),
        decreases n - i,
    {
        if aliases[i].alias == *key {
            proof {
                lemma_alias_idx(aliases@, key@);
                assert(alias_keyed(aliases@[i as int], key@));
            }
            return &aliases[i].canonical;
        }
        i += 1;
    }
    proof {
        lemma_alias_idx(aliases@, key@);
        if alias_idx(aliases@, key@) >= 0 {
            assert(alias_keyed(aliases@[alias_idx(aliases@, key@)], key@));
        }
    }
    key
}

} // verus!
