//! The conversation with the outside world: what the engine asks a driver to
//! do on the local disk and on the remote store, and what the driver answers.
//!
//! The engine performs no I/O. It hands out one [`Request`] at a time and
//! decides from the [`Reply`] what to ask next.

use crate::path::{PathView, SyncPath};
use vstd::prelude::*;

verus! {

/// Whether a permission word, as a remote stat reports it, marks a directory:
/// its file-type bits are those of a directory. A stat that reports no
/// permission word marks none.
pub open spec fn perm_is_dir(perm: Option<u32>) -> bool {
    let word: u32 = match perm {
        Some(p) => p,
        None => 0u32,
    };
    (word & 0o170000u32) == 0o040000u32
}

/// `ssh2::FileStat::is_dir` on a stat with the given permission word and no
/// other attribute. The method reads nothing but that word, taken as 0 where
/// it is absent, and answers whether the word's file-type bits, those under
/// the mask `0o170000`, equal `0o040000`.
#[verifier::external_body]
fn stat_is_dir(perm: Option<u32>) -> (r: bool)
    ensures
        r == perm_is_dir(perm),
{
    ssh2::FileStat { size: None, uid: None, gid: None, perm, atime: None, mtime: None }.is_dir()
}

/// What a remote stat reports of a path that exists.
#[derive(Clone, Copy, Debug, PartialEq, Eq, Structural)]
pub struct RemoteStat {
    pub perm: Option<u32>,
}

impl RemoteStat {
    /// Whether the stat is that of a directory.
    pub fn is_dir(&self) -> (r: bool)
        ensures
            r == perm_is_dir(self.perm),
    {
        stat_is_dir(self.perm)
    }
}

/// One entry of a remote directory listing.
#[derive(Debug)]
pub struct RemoteEntry {
    pub path: SyncPath,
    pub stat: RemoteStat,
}

/// The mathematical value of a remote listing entry.
pub struct RemoteEntryView {
    pub path: PathView,
    pub stat: RemoteStat,
}

impl View for RemoteEntry {
    type V = RemoteEntryView;

    open spec fn view(&self) -> RemoteEntryView {
        RemoteEntryView { path: self.path@, stat: self.stat }
    }
}

/// What kind of thing a local path is.
#[derive(Clone, Copy, Debug, PartialEq, Eq, Structural)]
pub enum EntryKind {
    Dir,
    File,
    Other,
}

/// What local metadata reports of a path: its kind and its mode word.
#[derive(Clone, Copy, Debug, PartialEq, Eq, Structural)]
pub struct LocalMeta {
    pub kind: EntryKind,
    pub mode: u32,
}

/// One entry of a local directory listing; `meta` is absent where the
/// entry's metadata could not be read.
#[derive(Debug)]
pub struct LocalEntry {
    pub path: SyncPath,
    pub meta: Option<LocalMeta>,
}

/// The mathematical value of a local listing entry.
pub struct LocalEntryView {
    pub path: PathView,
    pub meta: Option<LocalMeta>,
}

impl View for LocalEntry {
    type V = LocalEntryView;

    open spec fn view(&self) -> LocalEntryView {
        LocalEntryView { path: self.path@, meta: self.meta }
    }
}

/// One operation that the engine asks its driver to perform.
#[derive(Debug)]
pub enum Request {
    /// Create the remote directory `path` with permission bits `mode`.
    Mkdir { path: SyncPath, mode: u32 },
    /// Stat the remote `path`.
    Stat { path: SyncPath },
    /// Unlink the remote file `path`.
    Unlink { path: SyncPath },
    /// Remove the remote directory `path`, which must be empty.
    Rmdir { path: SyncPath },
    /// List the remote directory `path`.
    ReadRemoteDir { path: SyncPath },
    /// Create or truncate the remote file `remote` and stream the bytes of
    /// the local file `local` into it.
    Upload { local: SyncPath, remote: SyncPath },
    /// Set the permission bits of the remote `path` to `mode`.
    SetMode { path: SyncPath, mode: u32 },
    /// Read the metadata of the local `path`.
    LocalStat { path: SyncPath },
    /// List the local directory `path`.
    ReadLocalDir { path: SyncPath },
}

/// The mathematical value of a request.
pub enum RequestView {
    Mkdir { path: PathView, mode: u32 },
    Stat { path: PathView },
    Unlink { path: PathView },
    Rmdir { path: PathView },
    ReadRemoteDir { path: PathView },
    Upload { local: PathView, remote: PathView },
    SetMode { path: PathView, mode: u32 },
    LocalStat { path: PathView },
    ReadLocalDir { path: PathView },
}

impl View for Request {
    type V = RequestView;

    open spec fn view(&self) -> RequestView {
        match *self {
            Request::Mkdir { path, mode } => RequestView::Mkdir { path: path@, mode },
            Request::Stat { path } => RequestView::Stat { path: path@ },
            Request::Unlink { path } => RequestView::Unlink { path: path@ },
            Request::Rmdir { path } => RequestView::Rmdir { path: path@ },
            Request::ReadRemoteDir { path } => RequestView::ReadRemoteDir { path: path@ },
            Request::Upload { local, remote } => RequestView::Upload {
                local: local@,
                remote: remote@,
            },
            Request::SetMode { path, mode } => RequestView::SetMode { path: path@, mode },
            Request::LocalStat { path } => RequestView::LocalStat { path: path@ },
            Request::ReadLocalDir { path } => RequestView::ReadLocalDir { path: path@ },
        }
    }
}

impl Request {
    /// A copy of the request.
    pub fn clone_request(&self) -> (r: Request)
        ensures
            r@ == self@,
    {
        match self {
            Request::Mkdir { path, mode } => Request::Mkdir {
                path: path.clone_path(),
                mode: *mode,
            },
            Request::Stat { path } => Request::Stat { path: path.clone_path() },
            Request::Unlink { path } => Request::Unlink { path: path.clone_path() },
            Request::Rmdir { path } => Request::Rmdir { path: path.clone_path() },
            Request::ReadRemoteDir { path } => Request::ReadRemoteDir { path: path.clone_path() },
            Request::Upload { local, remote } => Request::Upload {
                local: local.clone_path(),
                remote: remote.clone_path(),
            },
            Request::SetMode { path, mode } => Request::SetMode {
                path: path.clone_path(),
                mode: *mode,
            },
            Request::LocalStat { path } => Request::LocalStat { path: path.clone_path() },
            Request::ReadLocalDir { path } => Request::ReadLocalDir { path: path.clone_path() },
        }
    }
}

/// What the driver answers to a request.
#[derive(Debug)]
pub enum Reply {
    /// The operation was carried out.
    Done,
    /// The operation failed.
    Failed,
    /// The remote path exists, with this stat.
    RemoteStat(RemoteStat),
    /// The entries of the remote directory.
    RemoteListing(Vec<RemoteEntry>),
    /// The local path exists, with this metadata.
    LocalMeta(LocalMeta),
    /// The entries of the local directory that could be read, in the order
    /// they were read; `complete` is false where reading stopped at an entry
    /// that could not be read.
    LocalListing { entries: Vec<LocalEntry>, complete: bool },
}

/// The mathematical value of a reply.
pub enum ReplyView {
    Done,
    Failed,
    RemoteStat(RemoteStat),
    RemoteListing(Seq<RemoteEntryView>),
    LocalMeta(LocalMeta),
    LocalListing { entries: Seq<LocalEntryView>, complete: bool },
}

/// The entries that a remote listing stands for.
pub open spec fn remote_entries_view(entries: Seq<RemoteEntry>) -> Seq<RemoteEntryView> {
    Seq::new(entries.len(), |i: int| entries[i]@)
}

/// The entries that a local listing stands for.
pub open spec fn local_entries_view(entries: Seq<LocalEntry>) -> Seq<LocalEntryView> {
    Seq::new(entries.len(), |i: int| entries[i]@)
}

impl View for Reply {
    type V = ReplyView;

    open spec fn view(&self) -> ReplyView {
        match *self {
            Reply::Done => ReplyView::Done,
            Reply::Failed => ReplyView::Failed,
            Reply::RemoteStat(stat) => ReplyView::RemoteStat(stat),
            Reply::RemoteListing(entries) => ReplyView::RemoteListing(
                remote_entries_view(entries@),
            ),
            Reply::LocalMeta(meta) => ReplyView::LocalMeta(meta),
            Reply::LocalListing { entries, complete } => ReplyView::LocalListing {
                entries: local_entries_view(entries@),
                complete,
            },
        }
    }
}

impl ReplyView {
    /// Whether a stat reply says that the path exists: any other reply is
    /// read as "does not exist".
    pub open spec fn is_present(self) -> bool {
        self is RemoteStat
    }

    /// Whether a stat reply says that the path is a directory: any other
    /// reply is read as "does not exist".
    pub open spec fn is_dir(self) -> bool {
        self matches ReplyView::RemoteStat(stat) && perm_is_dir(stat.perm)
    }
}

impl Reply {
    /// Whether the answer to a stat says that the path exists.
    pub fn is_present(&self) -> (r: bool)
        ensures
            r == self@.is_present(),
    {
        match self {
            Reply::RemoteStat(_) => true,
            _ => false,
        }
    }

    /// Whether the answer to a stat says that the path is a directory.
    pub fn is_dir(&self) -> (r: bool)
        ensures
            r == self@.is_dir(),
    {
        match self {
            Reply::RemoteStat(stat) => stat.is_dir(),
            _ => false,
        }
    }
}

/// Why an operation was given up.
#[derive(Debug)]
pub enum SyncError {
    /// The remote directory could not be created and is not there.
    CreateDir { path: SyncPath },
    /// The file could not be written to the remote `path`.
    Upload { path: SyncPath },
    /// The local directory could not be listed.
    ReadDir { path: SyncPath },
    /// The metadata of the local path could not be read.
    Metadata { path: SyncPath },
}

/// The mathematical value of an error.
pub enum SyncErrorView {
    CreateDir { path: PathView },
    Upload { path: PathView },
    ReadDir { path: PathView },
    Metadata { path: PathView },
}

impl View for SyncError {
    type V = SyncErrorView;

    open spec fn view(&self) -> SyncErrorView {
        match *self {
            SyncError::CreateDir { path } => SyncErrorView::CreateDir { path: path@ },
            SyncError::Upload { path } => SyncErrorView::Upload { path: path@ },
            SyncError::ReadDir { path } => SyncErrorView::ReadDir { path: path@ },
            SyncError::Metadata { path } => SyncErrorView::Metadata { path: path@ },
        }
    }
}

} // verus!
