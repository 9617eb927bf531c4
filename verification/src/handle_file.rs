//! Stable file-identity resolution.  Looking a path up on disk is outside
//! work; callers probe the filesystem themselves and hand the outcome in as
//! a `FileLocation`, so the registry bookkeeping here is verified for every
//! possible probe result.

use vstd::prelude::*;
use crate::common::{FileData, TagsFile, file_by_inode_idx, file_by_path_idx, first_where,
    lemma_first_where};

verus! {

/// What a filesystem probe reported for a file: the path it was found
/// under and the identities of the file and its directory.
#[derive(Debug)]
pub struct FileLocation {
    pub path: String,
    pub file_inode: u64,
    pub parent_dir_inode: u64,
}

/// How a registry looks after a probe result has been folded in: the record
/// with the probed identity is updated in place if one exists, otherwise a
/// new record is appended.
pub open spec fn files_upserted(
    before: Seq<FileData>,
    after: Seq<FileData>,
    loc: FileLocation,
) -> bool {
    let i = file_by_inode_idx(before, loc.file_inode);
    if i >= 0 {
        &&& after.len() == before.len()
        &&& (forall|j: int| 0 <= j < before.len() && j != i ==> after[j] == before[j])
        &&& after[i].last_known_name == loc.path
        &&& after[i].file_inode == before[i].file_inode
        &&& after[i].parent_dir_inode == loc.parent_dir_inode
    } else {
        &&& after.len() == before.len() + 1
        &&& (forall|j: int| 0 <= j < before.len() ==> after[j] == before[j])
        &&& after.last().last_known_name == loc.path
        &&& after.last().file_inode == loc.file_inode
        &&& after.last().parent_dir_inode == loc.parent_dir_inode
    }
}

/// Find the first registry record whose last known path is `path`.
pub fn find_file_by_path(files: &Vec<FileData>, path: &String) -> (r: Option<usize>)
    ensures
        match r {
            Some(i) => file_by_path_idx(files@, path@) == i,
            None => file_by_path_idx(files@, path@) == -1,
        },
{
    proof {
        lemma_first_where(files@, |f: FileData| f.last_known_name@ == path@);
    }
    let n = files.len();
    let mut i: usize = 0;
    while i < n
        invariant
            n == files@.len(),
            0 <= i <= n,
            forall|j: int| 0 <= j < i ==> files@[j].last_known_name@ != path@,
        decreases n - i,
    {
        if files[i].last_known_name == *path {
            proof {
                lemma_first_where(files@, |f: FileData| f.last_known_name@ == path@);
            }
            return Some(i);
        }
        i += 1;
    }
    None
}

/// Find the first registry record with file identity `ino`.
pub fn find_file_by_inode(files: &Vec<FileData>, ino: u64) -> (r: Option<usize>)
    ensures
        match r {
            Some(i) => file_by_inode_idx(files@, ino) == i,
            None => file_by_inode_idx(files@, ino) == -1,
        },
{
    proof {
        lemma_first_where(files@, |f: FileData| f.file_inode == ino);
    }
    let n = files.len();
    let mut i: usize = 0;
    while i < n
        invariant
            n == files@.len(),
            0 <= i <= n,
            forall|j: int| 0 <= j < i ==> files@[j].file_inode != ino,
        decreases n - i,
    {
        if files[i].file_inode == ino {
            proof {
                lemma_first_where(files@, |f: FileData| f.file_inode == ino);
            }
            return Some(i);
        }
        i += 1;
    }
    None
}

/// Resolve a path to its stable file identity.
///
/// If a record already carries `file_path` as its last known path, its
/// identity is returned and nothing changes.  Otherwise the caller's probe
/// outcome decides: a found location is upserted into the registry and its
/// identity returned; no location means the file cannot be resolved.
pub fn handle_file(file_path: &String, jf: &mut TagsFile, probe: Option<FileLocation>) -> (r:
    Option<u64>)
    ensures
        final(jf).aliases == old(jf).aliases,
        final(jf).tags == old(jf).tags,
        ({
            let known = file_by_path_idx(old(jf).files@, file_path@);
            if known >= 0 {
                &&& r == Some(old(jf).files@[known].file_inode)
                &&& final(jf).files == old(jf).files
            } else {
                match probe {
                    Some(loc) => {
                        &&& r == Some(loc.file_inode)
                        &&& files_upserted(old(jf).files@, final(jf).files@, loc)
                    },
                    None => {
                        &&& r is None
                        &&& final(jf).files == old(jf).files
                    },
                }
            }
        }),
{
    proof {
        lemma_first_where(old(jf).files@, |f: FileData| f.last_known_name@ == file_path@);
    }
    if let Some(i) = find_file_by_path(&jf.files, file_path) {
        return Some(jf.files[i].file_inode);
    }
    match probe {
        Some(loc) => {
            let FileLocation { path, file_inode, parent_dir_inode } = loc;
            proof {
                lemma_first_where(jf.files@, |f: FileData| f.file_inode == file_inode);
            }
            match find_file_by_inode(&jf.files, file_inode) {
                Some(pos) => {
                    let rec = &mut jf.files[pos];
                    rec.last_known_name = path;
                    rec.parent_dir_inode = parent_dir_inode;
                },
                None => {
                    jf.files.push(FileData {
                        last_known_name: path,
                        file_inode,
                        parent_dir_inode,
                    });
                },
            }
            Some(file_inode)
        },
        None => None,
    }
}

} // verus!
