//! Node-local checkpoint file naming.

use vstd::prelude::*;
use vstd::string::StringExecFns;
use crate::key_authority::KeyAuthorityError;

verus! {

/// The final component of `path`, as `std::path::Path::file_name` reads it.
pub uninterp spec fn path_file_name(path: Seq<char>) -> Option<Seq<char>>;

/// `path` with its final component replaced by `name`, as
/// `std::path::Path::with_file_name` builds it.
pub uninterp spec fn path_with_file_name(path: Seq<char>, name: Seq<char>) -> Seq<char>;

/// Calls `std::path::Path::file_name` on `path`; the result, a component of a
/// UTF-8 path, is returned as text.
#[verifier::external_body]
fn file_name_of(path: &str) -> (r: Option<String>)
    ensures
        match r {
            Some(name) => path_file_name(path@) == Some(name@),
            None => path_file_name(path@) is None,
        },
{
    match std::path::Path::new(path).file_name() {
        Some(name) => Some(name.to_string_lossy().into_owned()),
        None => None,
    }
}

/// Calls `std::path::Path::with_file_name`; the result, built from UTF-8
/// parts, is returned as text.
#[verifier::external_body]
fn with_file_name_of(path: &str, name: &str) -> (r: String)
    ensures
        r@ == path_with_file_name(path@, name@),
{
    std::path::Path::new(path).with_file_name(name).to_string_lossy().into_owned()
}

/// The name of the sibling file that a checkpoint is first written to.
pub open spec fn temporary_name(name: Seq<char>) -> Seq<char> {
    seq!['.'] + name + seq!['.', 't', 'm', 'p']
}

/// The hidden sibling `.<name>.tmp` of the checkpoint at `path`; a path with
/// no final component has none.
pub fn temporary_path(path: &str) -> (r: Result<String, KeyAuthorityError>)
    ensures
        r is Err <==> path_file_name(path@) is None,
        r is Err ==> r->Err_0 is UnsafeStoragePath,
        r matches Ok(t) ==> path_file_name(path@) matches Some(name) && t@ == path_with_file_name(
            path@,
            temporary_name(name),
        ),
{
    match file_name_of(path) {
        None => Err(KeyAuthorityError::UnsafeStoragePath),
        Some(name) => {
            let mut t = String::from_str(".");
            t.append(name.as_str());
            t.append(".tmp");
            proof {
                reveal_strlit(".");
                reveal_strlit(".tmp");
                assert(t@ =~= temporary_name(name@));
            }
            Ok(with_file_name_of(path, t.as_str()))
        },
    }
}

/// Permission bits of the checkpoint file: owner read and write.
pub const KEY_FILE_MODE: u32 = 0o600;
/// Permission bits of the directory holding it: owner only.
pub const KEY_DIRECTORY_MODE: u32 = 0o700;

/// What the store reads of one filesystem entry, without following links.
#[derive(Clone, Copy, Debug)]
pub struct StorageEntry {
    pub is_dir: bool,
    pub is_file: bool,
    pub is_symlink: bool,
    pub link_count: u64,
    pub mode: u32,
    pub owner_uid: u32,
}

/// The directory is an owner-only directory and the checkpoint, where it
/// exists, is a single-link owner-only regular file of the directory's owner.
pub open spec fn storage_entries_safe(parent: StorageEntry, file: Option<StorageEntry>) -> bool {
    &&& parent.is_dir
    &&& parent.mode & 0o777u32 == KEY_DIRECTORY_MODE
    &&& match file {
        Some(f) => {
            &&& f.is_file
            &&& !f.is_symlink
            &&& f.link_count == 1
            &&& f.mode & 0o777u32 == KEY_FILE_MODE
            &&& f.owner_uid == parent.owner_uid
        },
        None => true,
    }
}

/// Decides whether a checkpoint directory and file (`None`: not created
/// yet) are safe to hold secrets.
pub fn check_storage_entries(parent: &StorageEntry, file: &Option<StorageEntry>) -> (r: Result<(), KeyAuthorityError>)
    ensures
        r is Ok <==> storage_entries_safe(*parent, *file),
        r is Err ==> r->Err_0 is UnsafeStoragePath,
{
    if !parent.is_dir || parent.mode & 0o777u32 != KEY_DIRECTORY_MODE {
        return Err(KeyAuthorityError::UnsafeStoragePath);
    }
    match file {
        Some(f) => {
            if !f.is_file || f.is_symlink || f.link_count != 1 || f.mode & 0o777u32 != KEY_FILE_MODE
                || f.owner_uid != parent.owner_uid {
                return Err(KeyAuthorityError::UnsafeStoragePath);
            }
            Ok(())
        },
        None => Ok(()),
    }
}

/// An owner-only checkpoint file holding one Node's key authority.
#[derive(Clone, Debug)]
pub struct FileNodeKeyStateStore {
    path: String,
}

impl FileNodeKeyStateStore {
    pub closed spec fn path_spec(&self) -> Seq<char> {
        self.path@
    }

    pub fn new(path: String) -> (r: Self)
        ensures
            r.path_spec() == path@,
    {
        FileNodeKeyStateStore { path }
    }

    pub fn path(&self) -> (r: &str)
        ensures
            r@ == self.path_spec(),
    {
        self.path.as_str()
    }
}

} // verus!
