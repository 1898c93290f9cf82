//! What a walk is told to do, and what it reports.
use std::sync::atomic::{AtomicBool, Ordering};
use std::sync::Arc;

use vstd::prelude::*;
use vstd::slice::slice_subrange;

use crate::bytes::{begins_with, starts_with, SLASH};
use crate::failure::{Failure, FailureKind};
use crate::literal::Syntax;
use crate::paths::{base_name, basename};
use crate::volume::{bare_drive, is_bare_drive};

verus! {

/// Controls what a walk does after a recoverable filesystem error.
#[derive(Debug, Clone, Copy, PartialEq, Eq, Structural)]
pub enum ErrorPolicy {
    /// Stop immediately and return the first error.
    Abort,
    /// Continue, and do not retain errors discovered below a root. A root that
    /// cannot be opened is still retained, so it cannot look like an empty
    /// tree.
    Skip,
    /// Continue, and return the accumulated errors.
    Collect,
}

impl Default for ErrorPolicy {
    fn default() -> (result: Self)
        ensures
            result == ErrorPolicy::Collect,
    {
        ErrorPolicy::Collect
    }
}

/// Cloneable handle by which a caller asks a walk to stop.
///
/// A walk only observes the handle, and never cancels it. One handle can serve
/// several walks.
#[derive(Debug)]
pub struct CancellationToken {
    cancelled: Arc<AtomicBool>,
}

impl Default for CancellationToken {
    /// A handle nobody has used yet.
    fn default() -> (result: Self)
        ensures
            result.began_with(false),
    {
        CancellationToken { cancelled: Arc::new(AtomicBool::new(false)) }
    }
}

impl Clone for CancellationToken {
    /// Another handle of the same request.
    fn clone(&self) -> (result: Self)
        ensures
            result == *self,
    {
        CancellationToken { cancelled: self.cancelled.clone() }
    }
}

impl CancellationToken {
    /// Whether this request's flag was made to hold `value`.
    pub closed spec fn began_with(&self, value: bool) -> bool {
        call_ensures(AtomicBool::new, (value,), *self.cancelled)
    }

    /// Whether `value` was stored in this request's flag.
    ///
    /// What a later load gives depends on what other threads store in the
    /// meantime, so no more is said of it. Clones share the flag.
    pub closed spec fn was_given(&self, value: bool) -> bool {
        call_ensures(AtomicBool::store, (&*self.cancelled, value, Ordering::Release), ())
    }

    /// Asks the walk to stop before its next filesystem operation.
    pub fn cancel(&self)
        ensures
            self.was_given(true),
    {
        self.cancelled.store(true, Ordering::Release);
    }

    /// Whether `answer` is one that loading this request's flag can give.
    ///
    /// Which one it gives depends on what other threads have done with a clone
    /// of the handle by then, so no more is said of the two answers. Clones
    /// share the flag.
    pub closed spec fn may_answer(&self, answer: bool) -> bool {
        call_ensures(AtomicBool::load, (&*self.cancelled, Ordering::Acquire), answer)
    }

    /// Reports whether anyone has asked.
    #[must_use]
    pub fn is_cancelled(&self) -> (result: bool)
        ensures
            self.may_answer(result),
    {
        self.cancelled.load(Ordering::Acquire)
    }
}

/// How far an ordinary wildcard reaches in a walker pattern.
///
/// `*`, `?` and character classes are the ordinary wildcards; `**` crosses
/// separators under either mode.
#[derive(Debug, Clone, Copy, PartialEq, Eq, Structural)]
pub enum WildcardMode {
    /// A wildcard stays inside one path component.
    ComponentScoped,
    /// A wildcard spans separators.
    SeparatorCrossing,
}

impl Default for WildcardMode {
    fn default() -> (result: Self)
        ensures
            result == WildcardMode::ComponentScoped,
    {
        WildcardMode::ComponentScoped
    }
}

/// Behaviour switches for a walk.
#[derive(Debug, Clone, Copy, PartialEq, Eq, Structural)]
pub struct WalkOptions {
    pub follow_symlinks: bool,
    pub sort: bool,
    pub metadata: bool,
    pub directories_only: bool,
    pub files_only: bool,
    pub resolve_symlink_kind: bool,
    pub skip_hidden: bool,
    pub keep_git_dir: bool,
    pub max_depth: Option<usize>,
}

impl Default for WalkOptions {
    /// Every switch off, and no depth limit.
    fn default() -> (result: Self)
        ensures
            result == (WalkOptions {
                follow_symlinks: false,
                sort: false,
                metadata: false,
                directories_only: false,
                files_only: false,
                resolve_symlink_kind: false,
                skip_hidden: false,
                keep_git_dir: false,
                max_depth: None,
            }),
    {
        WalkOptions {
            follow_symlinks: false,
            sort: false,
            metadata: false,
            directories_only: false,
            files_only: false,
            resolve_symlink_kind: false,
            skip_hidden: false,
            keep_git_dir: false,
            max_depth: None,
        }
    }
}

impl WalkOptions {
    /// Follows directory symlinks discovered below a walk root. A root is
    /// always opened as a directory, whatever this says.
    #[must_use]
    pub fn follow_symlinks(self, enabled: bool) -> (result: Self)
        ensures
            result == (WalkOptions { follow_symlinks: enabled, ..self }),
    {
        WalkOptions { follow_symlinks: enabled, ..self }
    }

    /// Sorts the final entries by path.
    #[must_use]
    pub fn sort(self, enabled: bool) -> (result: Self)
        ensures
            result == (WalkOptions { sort: enabled, ..self }),
    {
        WalkOptions { sort: enabled, ..self }
    }

    /// Collects filesystem metadata for every returned entry.
    #[must_use]
    pub fn metadata(self, enabled: bool) -> (result: Self)
        ensures
            result == (WalkOptions { metadata: enabled, ..self }),
    {
        WalkOptions { metadata: enabled, ..self }
    }

    /// Returns only directories while continuing to traverse through them.
    #[must_use]
    pub fn directories_only(self, enabled: bool) -> (result: Self)
        ensures
            result == (WalkOptions { directories_only: enabled, ..self }),
    {
        WalkOptions { directories_only: enabled, ..self }
    }

    /// Returns only files while continuing to traverse through directories.
    #[must_use]
    pub fn files_only(self, enabled: bool) -> (result: Self)
        ensures
            result == (WalkOptions { files_only: enabled, ..self }),
    {
        WalkOptions { files_only: enabled, ..self }
    }

    /// Classifies symlink entries by what they point at, for the two kind
    /// filters.
    #[must_use]
    pub fn resolve_symlink_kind(self, enabled: bool) -> (result: Self)
        ensures
            result == (WalkOptions { resolve_symlink_kind: enabled, ..self }),
    {
        WalkOptions { resolve_symlink_kind: enabled, ..self }
    }

    /// Drops entries with a leading-period path component, and does not
    /// descend into hidden directories.
    #[must_use]
    pub fn skip_hidden(self, enabled: bool) -> (result: Self)
        ensures
            result == (WalkOptions { skip_hidden: enabled, ..self }),
    {
        WalkOptions { skip_hidden: enabled, ..self }
    }

    /// Keeps `.git` directories when ignore matching is enabled.
    #[must_use]
    pub fn keep_git_dir(self, enabled: bool) -> (result: Self)
        ensures
            result == (WalkOptions { keep_git_dir: enabled, ..self }),
    {
        WalkOptions { keep_git_dir: enabled, ..self }
    }

    /// Returns entries through `max_depth` components below the root, without
    /// descending into directories at that depth.
    #[must_use]
    pub fn max_depth(self, max_depth: usize) -> (result: Self)
        ensures
            result == (WalkOptions { max_depth: Some(max_depth), ..self }),
    {
        WalkOptions { max_depth: Some(max_depth), ..self }
    }
}

/// Filesystem kind observed for one walked entry.
#[derive(Debug, Clone, Copy, PartialEq, Eq, Structural)]
pub enum WalkEntryKind {
    /// A regular non-directory, non-symlink entry.
    File,
    /// A directory entry.
    Directory,
    /// A symbolic link, including one followed for traversal.
    Symlink,
}

/// What a visitor decides about one entry.
#[derive(Debug, Clone, Copy, PartialEq, Eq, Structural)]
pub enum Verdict {
    /// Keep the entry in the result.
    Keep,
    /// Leave the entry out of the result. Traversal is unaffected.
    Skip,
    /// Leave the entry out and end the walk, the way a cancellation request
    /// does.
    Stop,
}

/// A moment, counted from the start of 1970 in UTC.
#[derive(Debug, Clone, Copy, PartialEq, Eq, Structural)]
pub struct Timestamp {
    /// Negative before that start.
    pub seconds: i64,
    /// What is to be added to the seconds.
    pub nanoseconds: u32,
}

/// The part of a file's metadata that a walk passes on.
#[derive(Debug, Clone, Copy, PartialEq, Eq, Structural)]
pub struct Metadata {
    pub is_dir: bool,
    pub is_symlink: bool,
    pub len: u64,
    pub device: u64,
    pub inode: u64,
    /// When the file was last modified, where the filesystem tells.
    pub modified: Option<Timestamp>,
    /// The type and permission bits, on a host that has them.
    pub mode: Option<u32>,
}

/// What is known of one entry.
pub ghost struct Entry {
    pub path: Seq<u8>,
    pub root: Seq<u8>,
    pub is_dir: bool,
    pub is_symlink: bool,
    pub depth: int,
    pub metadata: Option<Metadata>,
}

/// What of an entry's path was pushed onto its root: names, whatever the root
/// starts with. It is the whole path where nothing was.
pub open spec fn below_root(entry: Entry) -> Seq<u8> {
    let root = entry.root;
    let path = entry.path;
    if path.len() > root.len() && begins_with(path, root) && (root.len() == 0 || root.last()
        == SLASH || path[root.len() as int] == SLASH || is_bare_drive(root, Syntax::Windows)) {
        path.skip(root.len() as int)
    } else {
        path
    }
}

/// One matching filesystem entry.
#[derive(Debug)]
pub struct WalkEntry {
    path: Vec<u8>,
    /// Shared per root rather than copied per entry.
    root: Arc<Vec<u8>>,
    is_dir: bool,
    is_symlink: bool,
    depth: usize,
    metadata: Option<Metadata>,
}

impl View for WalkEntry {
    type V = Entry;

    closed spec fn view(&self) -> Entry {
        Entry {
            path: self.path@,
            root: self.root@,
            is_dir: self.is_dir,
            is_symlink: self.is_symlink,
            depth: self.depth as int,
            metadata: self.metadata,
        }
    }
}

impl Clone for WalkEntry {
    fn clone(&self) -> (result: Self)
        ensures
            result@ == self@,
    {
        let result = WalkEntry {
            path: self.path.clone(),
            root: self.root.clone(),
            is_dir: self.is_dir,
            is_symlink: self.is_symlink,
            depth: self.depth,
            metadata: self.metadata,
        };
        assert(result.path@ =~= self.path@);
        result
    }
}

impl WalkEntry {
    /// An entry with these properties.
    pub fn new(
        path: Vec<u8>,
        root: Arc<Vec<u8>>,
        is_dir: bool,
        is_symlink: bool,
        depth: usize,
        metadata: Option<Metadata>,
    ) -> (result: Self)
        ensures
            result@ == (Entry {
                path: path@,
                root: root@,
                is_dir,
                is_symlink,
                depth: depth as int,
                metadata,
            }),
    {
        WalkEntry { path, root, is_dir, is_symlink, depth, metadata }
    }

    /// The entry's path: its root with names pushed onto it.
    #[must_use]
    pub fn path(&self) -> (result: &[u8])
        ensures
            result@ == self@.path,
    {
        self.path.as_slice()
    }

    /// The bytes of the path, ready for byte-first matchers.
    #[must_use]
    pub fn path_bytes(&self) -> (result: &[u8])
        ensures
            result@ == self@.path,
    {
        self.path.as_slice()
    }

    /// The walk root this entry was found under, exactly as it was given.
    #[must_use]
    pub fn root(&self) -> (result: &[u8])
        ensures
            result@ == self@.root,
    {
        self.root.as_slice()
    }

    /// Whether this entry is a directory.
    #[must_use]
    pub fn is_dir(&self) -> (result: bool)
        ensures
            result == self@.is_dir,
    {
        self.is_dir
    }

    /// Whether this entry was observed as a symbolic link.
    #[must_use]
    pub fn is_symlink(&self) -> (result: bool)
        ensures
            result == self@.is_symlink,
    {
        self.is_symlink
    }

    /// Filesystem kind observed for this entry. A link is a link, whatever it
    /// points at.
    #[must_use]
    pub fn kind(&self) -> (result: WalkEntryKind)
        ensures
            result == (if self@.is_symlink {
                WalkEntryKind::Symlink
            } else if self@.is_dir {
                WalkEntryKind::Directory
            } else {
                WalkEntryKind::File
            }),
    {
        if self.is_symlink {
            WalkEntryKind::Symlink
        } else if self.is_dir {
            WalkEntryKind::Directory
        } else {
            WalkEntryKind::File
        }
    }

    /// Number of path components between the walk root and this entry.
    #[must_use]
    pub fn depth(&self) -> (result: usize)
        ensures
            result == self@.depth,
    {
        self.depth
    }

    /// The last name of the entry's path, if it has one.
    #[must_use]
    pub fn basename(&self) -> (result: Option<&[u8]>)
        ensures
            match result {
                Some(name) => base_name(below_root(self@), Syntax::Posix) == Some(name@),
                None => base_name(below_root(self@), Syntax::Posix) is None,
            },
    {
        let path = self.path.as_slice();
        let root = self.root.as_slice();
        let below = path.len() > root.len() && starts_with(path, root) && (root.len() == 0
            || root[root.len() - 1] == SLASH || path[root.len()] == SLASH || bare_drive(
            root,
            Syntax::Windows,
        ));
        if below {
            let names = slice_subrange(path, root.len(), path.len());
            assert(names@ =~= path@.skip(root@.len() as int));
            basename(names, Syntax::Posix)
        } else {
            basename(path, Syntax::Posix)
        }
    }

    /// Metadata, where the walk was asked to collect it.
    #[must_use]
    pub fn metadata(&self) -> (result: Option<Metadata>)
        ensures
            result == self@.metadata,
    {
        self.metadata
    }
}

/// What is known of one failure.
pub ghost struct Fault {
    pub operation: Seq<char>,
    pub path: Seq<u8>,
    pub kind: FailureKind,
    pub message: Seq<char>,
}

/// What a failed operation on a path is reported as.
pub open spec fn fault(operation: Seq<char>, path: Seq<u8>, source: Failure) -> Fault {
    Fault { operation, path, kind: source.kind, message: source.message@ }
}

/// A recoverable I/O failure observed while walking.
#[derive(Debug)]
pub struct WalkError {
    operation: &'static str,
    path: Vec<u8>,
    source: Failure,
}

impl View for WalkError {
    type V = Fault;

    closed spec fn view(&self) -> Fault {
        Fault {
            operation: self.operation@,
            path: self.path@,
            kind: self.source.kind,
            message: self.source.message@,
        }
    }
}

impl WalkError {
    /// A failed operation on a path.
    pub fn new(operation: &'static str, path: Vec<u8>, source: Failure) -> (result: Self)
        ensures
            result@ == fault(operation@, path@, source),
    {
        WalkError { operation, path, source }
    }

    /// Operation that produced the error.
    #[must_use]
    pub fn operation(&self) -> (result: &'static str)
        ensures
            result@ == self@.operation,
    {
        self.operation
    }

    /// Path passed to the failed operation.
    #[must_use]
    pub fn path(&self) -> (result: &[u8])
        ensures
            result@ == self@.path,
    {
        self.path.as_slice()
    }

    /// The failure itself.
    #[must_use]
    pub fn source(&self) -> (result: &Failure)
        ensures
            result.kind == self@.kind,
            result.message@ == self@.message,
    {
        &self.source
    }
}

/// The entries a vector of entries holds.
pub open spec fn entries_of(entries: Seq<WalkEntry>) -> Seq<Entry> {
    Seq::new(entries.len(), |i: int| entries[i]@)
}

/// The failures a vector of errors holds.
pub open spec fn faults_of(errors: Seq<WalkError>) -> Seq<Fault> {
    Seq::new(errors.len(), |i: int| errors[i]@)
}

/// Completed entries and recoverable errors.
#[derive(Debug)]
pub struct WalkResult {
    entries: Vec<WalkEntry>,
    errors: Vec<WalkError>,
    cancelled: bool,
}

impl WalkResult {
    /// The entries returned.
    pub closed spec fn found(&self) -> Seq<Entry> {
        entries_of(self.entries@)
    }

    /// The failures retained.
    pub closed spec fn faults(&self) -> Seq<Fault> {
        faults_of(self.errors@)
    }

    /// Whether the walk was cut short.
    pub closed spec fn cut_short(&self) -> bool {
        self.cancelled
    }

    /// A result of these parts.
    pub fn new(entries: Vec<WalkEntry>, errors: Vec<WalkError>, cancelled: bool) -> (result: Self)
        ensures
            result.found() == entries_of(entries@),
            result.faults() == faults_of(errors@),
            result.cut_short() == cancelled,
    {
        WalkResult { entries, errors, cancelled }
    }

    /// Entries accepted by the filters.
    #[must_use]
    pub fn entries(&self) -> (result: &[WalkEntry])
        ensures
            entries_of(result@) == self.found(),
    {
        self.entries.as_slice()
    }

    /// Recoverable failures retained by the configured error policy.
    #[must_use]
    pub fn errors(&self) -> (result: &[WalkError])
        ensures
            faults_of(result@) == self.faults(),
    {
        self.errors.as_slice()
    }

    /// Consumes the result and returns its two channels.
    #[must_use]
    pub fn into_parts(self) -> (result: (Vec<WalkEntry>, Vec<WalkError>))
        ensures
            entries_of(result.0@) == self.found(),
            faults_of(result.1@) == self.faults(),
    {
        (self.entries, self.errors)
    }

    /// Whether the walk ended early, by a cancellation or because a visitor
    /// said so.
    #[must_use]
    pub fn was_cancelled(&self) -> (result: bool)
        ensures
            result == self.cut_short(),
    {
        self.cancelled
    }
}

} // verus!
