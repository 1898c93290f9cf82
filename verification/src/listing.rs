//! One directory's entries, as a backend reported them.
use vstd::prelude::*;
use vstd::slice::slice_to_vec;
use vstd::utf8::encode_utf8;

use crate::bytes::{all_lowered, same, same_ignoring_case};
use crate::failure::{Failure, FailureKind};

verus! {

/// What a listing says of one entry.
pub ghost struct Listed {
    pub name: Seq<u8>,
    pub is_dir: bool,
    pub is_symlink: bool,
}

/// One entry of a [`Listing`]: its name, not its path.
#[derive(Debug)]
pub struct ListedEntry {
    name: Vec<u8>,
    is_dir: bool,
    is_symlink: bool,
}

impl View for ListedEntry {
    type V = Listed;

    closed spec fn view(&self) -> Listed {
        Listed { name: self.name@, is_dir: self.is_dir, is_symlink: self.is_symlink }
    }
}

impl ListedEntry {
    /// An entry of this name and kind.
    pub fn new(name: Vec<u8>, is_dir: bool, is_symlink: bool) -> (result: Self)
        ensures
            result@ == (Listed { name: name@, is_dir, is_symlink }),
    {
        ListedEntry { name, is_dir, is_symlink }
    }

    /// The entry's name.
    pub fn name(&self) -> (result: &[u8])
        ensures
            result@ == self@.name,
    {
        self.name.as_slice()
    }

    /// Whether the listing reports a directory.
    pub fn is_dir(&self) -> (result: bool)
        ensures
            result == self@.is_dir,
    {
        self.is_dir
    }

    /// Whether the listing reports a symbolic link.
    pub fn is_symlink(&self) -> (result: bool)
        ensures
            result == self@.is_symlink,
    {
        self.is_symlink
    }
}

/// A failure for one entry that waits until its siblings are delivered.
#[derive(Debug)]
pub struct DeferredListingError {
    pub path: Vec<u8>,
    pub source: Failure,
}

/// What a deferred failure says.
pub ghost struct Deferred {
    pub path: Seq<u8>,
    pub kind: FailureKind,
    pub message: Seq<char>,
}

/// What a failure at a path says while it waits.
pub open spec fn deferred(path: Seq<u8>, source: Failure) -> Deferred {
    Deferred { path, kind: source.kind, message: source.message@ }
}

impl View for DeferredListingError {
    type V = Deferred;

    open spec fn view(&self) -> Deferred {
        deferred(self.path@, self.source)
    }
}

/// One directory's entries, and the failures that stood in their way.
#[derive(Debug)]
pub struct Listing {
    entries: Vec<ListedEntry>,
    deferred_errors: Vec<DeferredListingError>,
}

/// What entries say.
pub open spec fn listed_of(entries: Seq<ListedEntry>) -> Seq<Listed> {
    Seq::new(entries.len(), |i: int| entries[i]@)
}

/// What deferred failures say.
pub open spec fn deferred_of(errors: Seq<DeferredListingError>) -> Seq<Deferred> {
    Seq::new(errors.len(), |i: int| errors[i]@)
}

/// Whether a name is `word` but for the case of its letters.
pub open spec fn spells(name: Seq<u8>, word: Seq<char>) -> bool {
    all_lowered(name) == all_lowered(encode_utf8(word))
}

impl Default for Listing {
    fn default() -> (result: Self)
        ensures
            result.listed() == Seq::<Listed>::empty(),
            result.deferred() == Seq::<Deferred>::empty(),
    {
        let result = Listing { entries: Vec::new(), deferred_errors: Vec::new() };
        assert(result.listed() =~= Seq::<Listed>::empty());
        assert(result.deferred() =~= Seq::<Deferred>::empty());
        result
    }
}

impl Listing {
    /// The entries, in the order they were reported.
    pub closed spec fn listed(&self) -> Seq<Listed> {
        listed_of(self.entries@)
    }

    /// The failures that wait, in the order they came.
    pub closed spec fn deferred(&self) -> Seq<Deferred> {
        deferred_of(self.deferred_errors@)
    }

    /// Drops everything, ready for the next directory.
    pub fn clear(&mut self)
        ensures
            final(self).listed() == Seq::<Listed>::empty(),
            final(self).deferred() == Seq::<Deferred>::empty(),
    {
        self.entries.clear();
        self.deferred_errors.clear();
        assert(self.listed() =~= Seq::<Listed>::empty());
        assert(self.deferred() =~= Seq::<Deferred>::empty());
    }

    /// Adds one entry.
    pub fn push(&mut self, name: &[u8], is_dir: bool, is_symlink: bool)
        ensures
            final(self).listed() == old(self).listed().push(
                Listed { name: name@, is_dir, is_symlink },
            ),
            final(self).deferred() == old(self).deferred(),
    {
        let ghost before = self.listed();
        self.entries.push(ListedEntry::new(slice_to_vec(name), is_dir, is_symlink));
        assert(self.listed() =~= before.push(Listed { name: name@, is_dir, is_symlink }));
    }

    /// The entries, in the order they were reported.
    pub fn entries(&self) -> (result: &[ListedEntry])
        ensures
            listed_of(result@) == self.listed(),
    {
        self.entries.as_slice()
    }

    /// Records a failure for one entry without throwing its siblings away.
    pub fn defer_error(&mut self, path: Vec<u8>, source: Failure)
        ensures
            final(self).listed() == old(self).listed(),
            final(self).deferred() == old(self).deferred().push(deferred(path@, source)),
    {
        let ghost before = self.deferred();
        let ghost added = deferred(path@, source);
        self.deferred_errors.push(DeferredListingError { path, source });
        assert(self.deferred() =~= before.push(added));
    }

    /// Takes the failure that has waited longest.
    pub fn take_deferred_error(&mut self) -> (result: Option<DeferredListingError>)
        ensures
            final(self).listed() == old(self).listed(),
            match result {
                Some(error) => old(self).deferred().len() > 0 && error@ == old(self).deferred()[0]
                    && final(self).deferred() == old(self).deferred().drop_first(),
                None => {
                    &&& old(self).deferred().len() == 0
                    &&& final(self).deferred() == old(self).deferred()
                },
            },
    {
        if self.deferred_errors.len() == 0 {
            return None;
        }
        let ghost before = self.deferred();
        let error = self.deferred_errors.remove(0);
        assert(error@ == before[0]);
        assert(self.deferred() =~= before.drop_first());
        Some(error)
    }

    /// Whether the directory holds an entry of exactly this name.
    pub fn contains(&self, name: &str) -> (result: bool)
        ensures
            result == exists|i: int|
                0 <= i < self.listed().len() && #[trigger] self.listed()[i].name == encode_utf8(
                    name@,
                ),
    {
        let word = name.as_bytes();
        let mut i: usize = 0;
        while i < self.entries.len()
            invariant
                i <= self.entries@.len(),
                word@ == encode_utf8(name@),
                forall|j: int| 0 <= j < i ==> #[trigger] self.listed()[j].name != word@,
            decreases self.entries@.len() - i,
        {
            assert(self.listed()[i as int] == self.entries@[i as int]@);
            if same(self.entries[i].name(), word) {
                return true;
            }
            i += 1;
        }
        false
    }

    /// Whether the directory holds a possible spelling of an ignore file.
    ///
    /// The caller still opens the canonical name: on a case-sensitive
    /// filesystem that open fails for another spelling, and elsewhere it
    /// resolves as Git's own does.
    pub fn contains_git_ignore_name(&self, name: &str) -> (result: bool)
        ensures
            result == exists|i: int|
                0 <= i < self.listed().len() && spells(#[trigger] self.listed()[i].name, name@),
    {
        let word = name.as_bytes();
        let mut i: usize = 0;
        while i < self.entries.len()
            invariant
                i <= self.entries@.len(),
                word@ == encode_utf8(name@),
                forall|j: int| 0 <= j < i ==> !spells(#[trigger] self.listed()[j].name, name@),
            decreases self.entries@.len() - i,
        {
            assert(self.listed()[i as int] == self.entries@[i as int]@);
            if same_ignoring_case(self.entries[i].name(), word) {
                assert(spells(self.listed()[i as int].name, name@));
                return true;
            }
            i += 1;
        }
        false
    }
}

/// What a failure to learn an entry's kind means for its directory.
///
/// The entry may be gone, or a component of its path replaced: then that one
/// entry is dropped. A refusal is held until the usable listing has been
/// delivered. Any other failure fails the whole read. The siblings read so far
/// stay in every case.
pub fn defer_entry_stat_error(listing: &mut Listing, path: Vec<u8>, error: Failure) -> (result:
    Result<(), Failure>)
    ensures
        final(listing).listed() == old(listing).listed(),
        match error.kind {
            FailureKind::NotFound | FailureKind::NotADirectory => {
                &&& result is Ok
                &&& final(listing).deferred() == old(listing).deferred()
            },
            FailureKind::PermissionDenied => {
                &&& result is Ok
                &&& final(listing).deferred() == old(listing).deferred().push(deferred(path@, error))
            },
            _ => {
                &&& result == Err::<(), Failure>(error)
                &&& final(listing).deferred() == old(listing).deferred()
            },
        },
{
    match error.kind {
        FailureKind::NotFound | FailureKind::NotADirectory => Ok(()),
        FailureKind::PermissionDenied => {
            listing.defer_error(path, error);
            Ok(())
        },
        _ => Err(error),
    }
}

} // verus!
