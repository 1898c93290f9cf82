//! Raw directory records, and the decisions around reading them.
//!
//! The kernel hands out a directory in batches of variable-length records.
//! Every record is validated before its fields or its name are read. What a
//! record says of an entry's kind is used as it is; only a record that does not
//! tell needs a question to the filesystem.
use vstd::prelude::*;
use vstd::slice::{slice_subrange, slice_to_vec};

use crate::bytes::{index_from, lemma_index_from, lemma_index_from_is, DOT, NUL, SLASH};
use crate::failure::{Failure, FailureKind};
use crate::listing::{defer_entry_stat_error, deferred, Listed, Listing};
use crate::literal::Syntax;
use crate::paths::{push_name, pushed};
use crate::search::find_byte;

verus! {

/// Where a record holds its own length, in two bytes.
pub const RECORD_LENGTH_OFFSET: usize = 16;

/// Where a record holds the entry's type.
pub const TYPE_OFFSET: usize = 18;

/// Where a record's name starts. Padding may follow the name's NUL.
pub const NAME_OFFSET: usize = 19;

pub const DT_FIFO: u8 = 1;

pub const DT_CHR: u8 = 2;

pub const DT_DIR: u8 = 4;

pub const DT_BLK: u8 = 6;

pub const DT_REG: u8 = 8;

pub const DT_LNK: u8 = 10;

pub const DT_SOCK: u8 = 12;

pub const MALFORMED_RECORD: &'static str = "malformed getdents64 record";

/// The order in which a host stores the bytes of a number.
#[derive(Debug, Clone, Copy, PartialEq, Eq, Structural)]
pub enum ByteOrder {
    Little,
    Big,
}

/// Two bytes read as a number.
pub open spec fn number_at(records: Seq<u8>, at: int, order: ByteOrder) -> int {
    match order {
        ByteOrder::Little => records[at] + 256 * records[at + 1],
        ByteOrder::Big => 256 * records[at] + records[at + 1],
    }
}

/// What stands at an offset of a batch.
pub ghost enum Slot {
    /// The batch ends here.
    End,
    /// Something that is no record.
    Malformed,
    /// A record of the directory itself or of its parent.
    Dots { next: int },
    /// A record of an entry.
    Entry { name: Seq<u8>, kind: u8, next: int },
}

/// Whether a name is that of the directory itself, of its parent, or empty.
pub open spec fn names_no_entry(name: Seq<u8>) -> bool {
    name.len() == 0 || name == seq![DOT] || name == seq![DOT, DOT]
}

/// What stands at `offset` of a batch.
pub open spec fn slot_at(records: Seq<u8>, offset: int, order: ByteOrder) -> Slot {
    let left = records.len() - offset;
    let length = number_at(records, offset + RECORD_LENGTH_OFFSET, order);
    let region = records.subrange(offset + NAME_OFFSET, offset + length);
    let name = region.take(index_from(region, NUL, 0));
    if left <= 0 {
        Slot::End
    } else if left < NAME_OFFSET + 1 || length < NAME_OFFSET + 1 || length > left {
        Slot::Malformed
    } else if index_from(region, NUL, 0) >= region.len() {
        Slot::Malformed
    } else if names_no_entry(name) {
        Slot::Dots { next: offset + length }
    } else if name.contains(SLASH) {
        Slot::Malformed
    } else {
        Slot::Entry { name, kind: records[offset + TYPE_OFFSET], next: offset + length }
    }
}

/// An entry as a record tells of it.
pub ghost struct Told {
    pub name: Seq<u8>,
    pub kind: u8,
}

/// The entries of a batch from `offset` on, up to its end or to what is no
/// record.
pub open spec fn entries_from(records: Seq<u8>, offset: int, order: ByteOrder) -> Seq<Told>
    decreases records.len() - offset,
{
    match slot_at(records, offset, order) {
        Slot::Entry { name, kind, next } => if offset < next {
            seq![Told { name, kind }] + entries_from(records, next, order)
        } else {
            Seq::empty()
        },
        Slot::Dots { next } => if offset < next {
            entries_from(records, next, order)
        } else {
            Seq::empty()
        },
        _ => Seq::empty(),
    }
}

/// Whether a batch holds nothing but records from `offset` on.
pub open spec fn well_formed_from(records: Seq<u8>, offset: int, order: ByteOrder) -> bool
    decreases records.len() - offset,
{
    match slot_at(records, offset, order) {
        Slot::End => true,
        Slot::Malformed => false,
        Slot::Entry { next, .. } => offset < next && well_formed_from(records, next, order),
        Slot::Dots { next } => offset < next && well_formed_from(records, next, order),
    }
}

/// A record leads on: what follows it starts behind it, and still inside the
/// batch or at its end. So reading a batch comes to an end.
pub proof fn law_a_record_leads_on(records: Seq<u8>, offset: int, order: ByteOrder)
    requires
        0 <= offset,
    ensures
        match slot_at(records, offset, order) {
            Slot::Entry { next, .. } => offset < next <= records.len(),
            Slot::Dots { next } => offset < next <= records.len(),
            Slot::End => offset >= records.len(),
            Slot::Malformed => true,
        },
{
}

/// A record's entry has a name that can be pushed onto its directory: it is
/// not empty, and holds neither a NUL nor a separator.
pub proof fn law_a_record_names_one_component(records: Seq<u8>, offset: int, order: ByteOrder)
    requires
        0 <= offset,
        slot_at(records, offset, order) is Entry,
    ensures
        ({
            let name = slot_at(records, offset, order)->name;
            &&& name.len() > 0
            &&& name != seq![DOT]
            &&& name != seq![DOT, DOT]
            &&& !name.contains(SLASH)
            &&& !name.contains(NUL)
        }),
{
    let length = number_at(records, offset + RECORD_LENGTH_OFFSET, order);
    let region = records.subrange(offset + NAME_OFFSET, offset + length);
    lemma_index_from(region, NUL, 0);
    let name = slot_at(records, offset, order)->name;
    assert forall|i: int| 0 <= i < name.len() implies name[i] != NUL by {
        assert(name[i] == region[i]);
    }
}

/// What is read at an offset of a batch.
#[derive(Debug)]
pub enum Record {
    End,
    Malformed,
    Dots { next: usize },
    Entry { name: Vec<u8>, kind: u8, next: usize },
}

/// What a read record says.
pub open spec fn slot_of(record: Record) -> Slot {
    match record {
        Record::End => Slot::End,
        Record::Malformed => Slot::Malformed,
        Record::Dots { next } => Slot::Dots { next: next as int },
        Record::Entry { name, kind, next } => Slot::Entry { name: name@, kind, next: next as int },
    }
}

/// Reads what stands at an offset of a batch.
pub fn read_record(records: &[u8], offset: usize, order: ByteOrder) -> (result: Record)
    requires
        offset <= records@.len(),
    ensures
        slot_of(result) == slot_at(records@, offset as int, order),
{
    let left: usize = records.len() - offset;
    if left == 0 {
        return Record::End;
    }
    if left < NAME_OFFSET + 1 {
        return Record::Malformed;
    }
    let first: usize = records[offset + RECORD_LENGTH_OFFSET] as usize;
    let second: usize = records[offset + RECORD_LENGTH_OFFSET + 1] as usize;
    let length: usize = match order {
        ByteOrder::Little => first + 256 * second,
        ByteOrder::Big => 256 * first + second,
    };
    if length < NAME_OFFSET + 1 || length > left {
        return Record::Malformed;
    }
    let next: usize = offset + length;
    let region = slice_subrange(records, offset + NAME_OFFSET, next);
    let end = match find_byte(NUL, region) {
        Some(end) => end,
        None => {
            proof {
                lemma_index_from_is(region@, NUL, 0, region@.len() as int);
            }
            return Record::Malformed;
        },
    };
    proof {
        lemma_index_from_is(region@, NUL, 0, end as int);
    }
    let name = slice_subrange(region, 0, end);
    assert(name@ =~= region@.take(end as int));
    let dots = name.len() == 0 || (name.len() == 1 && name[0] == DOT) || (name.len() == 2 && name[0]
        == DOT && name[1] == DOT);
    proof {
        assert(name@.len() == 1 && name@[0] == DOT ==> name@ =~= seq![DOT]);
        assert(name@.len() == 2 && name@[0] == DOT && name@[1] == DOT ==> name@ =~= seq![DOT, DOT]);
    }
    if dots {
        return Record::Dots { next };
    }
    if find_byte(SLASH, name).is_some() {
        return Record::Malformed;
    }
    Record::Entry { name: slice_to_vec(name), kind: records[offset + TYPE_OFFSET], next }
}

/// An entry as a record tells of it.
#[derive(Debug)]
pub struct RawEntry {
    pub name: Vec<u8>,
    pub kind: u8,
}

/// What raw entries tell.
pub open spec fn told(entries: Seq<RawEntry>) -> Seq<Told> {
    Seq::new(entries.len(), |i: int| Told { name: entries[i].name@, kind: entries[i].kind })
}

/// The failure that what is no record is reported as.
pub fn malformed_record() -> (result: Failure)
    ensures
        result.kind == FailureKind::InvalidData,
        result.message@ == MALFORMED_RECORD@,
{
    Failure::new(FailureKind::InvalidData, MALFORMED_RECORD)
}

/// Reads a batch of records: its entries in order, up to what is no record,
/// and the failure that is reported then.
pub fn for_each_record(records: &[u8], order: ByteOrder) -> (result: (
    Vec<RawEntry>,
    Option<Failure>,
))
    ensures
        told(result.0@) == entries_from(records@, 0, order),
        result.1 is None == well_formed_from(records@, 0, order),
        match result.1 {
            Some(failure) => failure.kind == FailureKind::InvalidData && failure.message@
                == MALFORMED_RECORD@,
            None => true,
        },
{
    let mut entries: Vec<RawEntry> = Vec::new();
    let mut offset: usize = 0;
    assert(told(entries@) + entries_from(records@, 0, order) =~= entries_from(records@, 0, order));
    loop
        invariant
            offset <= records@.len(),
            told(entries@) + entries_from(records@, offset as int, order) == entries_from(
                records@,
                0,
                order,
            ),
            well_formed_from(records@, 0, order) == well_formed_from(
                records@,
                offset as int,
                order,
            ),
        decreases records@.len() - offset,
    {
        proof {
            law_a_record_leads_on(records@, offset as int, order);
        }
        let ghost before = told(entries@);
        match read_record(records, offset, order) {
            Record::End => {
                assert(before + entries_from(records@, offset as int, order) =~= before);
                return (entries, None);
            },
            Record::Malformed => {
                assert(before + entries_from(records@, offset as int, order) =~= before);
                return (entries, Some(malformed_record()));
            },
            Record::Dots { next } => {
                offset = next;
            },
            Record::Entry { name, kind, next } => {
                let ghost one = Told { name: name@, kind };
                entries.push(RawEntry { name, kind });
                proof {
                    assert(told(entries@) =~= before.push(one));
                    let rest = entries_from(records@, next as int, order);
                    assert(before + (seq![one] + rest) =~= before.push(one) + rest);
                }
                offset = next;
            },
        }
    }
}

/// The number that the bytes one and nought make, in the order in which this
/// host stores them.
///
/// Calls `u16::from_ne_bytes`. Claimed of it: the bytes are read in the one
/// order or in the other. Which one depends on the host, so no more is said.
#[verifier::external_body]
fn host_reads_one_and_nought() -> (result: u16)
    ensures
        result == 1 || result == 256,
{
    u16::from_ne_bytes([1, 0])
}

/// Whether `order` is the one in which this host stores the bytes of a number:
/// the bytes one and nought make the number that the host reads in them.
pub closed spec fn host_stores_in(order: ByteOrder) -> bool {
    call_ensures(
        host_reads_one_and_nought,
        (),
        number_at(seq![1u8, 0u8], 0, order) as u16,
    )
}

/// The order in which this host stores the bytes of a number. Which one that
/// is depends on the host, and is not stated.
pub fn host_byte_order() -> (result: ByteOrder)
    ensures
        host_stores_in(result),
{
    if host_reads_one_and_nought() == 1 {
        ByteOrder::Little
    } else {
        ByteOrder::Big
    }
}

/// Whether a batch holds nothing but records, read in this order.
pub fn validate_records(records: &[u8], order: ByteOrder) -> (result: bool)
    ensures
        result == well_formed_from(records@, 0, order),
{
    let (_, failure) = for_each_record(records, order);
    failure.is_none()
}

/// Validates a batch as this host stores it, and keeps nothing of it.
///
/// Nothing comes back. What is stated is that the batch was validated in the
/// host's order, whatever it holds.
pub fn fuzz_validate_records(records: &[u8])
    ensures
        exists|order: ByteOrder| #[trigger]
            host_stores_in(order) && call_ensures(
                validate_records,
                (records, order),
                well_formed_from(records@, 0, order),
            ),
{
    let _ = validate_records(records, host_byte_order());
}

/// What a record tells of an entry's kind: whether it is a directory, and
/// whether it is a link. Some records do not tell.
pub open spec fn kind_told(kind: u8) -> Option<(bool, bool)> {
    if kind == DT_DIR {
        Some((true, false))
    } else if kind == DT_LNK {
        Some((false, true))
    } else if kind == DT_REG || kind == DT_FIFO || kind == DT_CHR || kind == DT_BLK || kind
        == DT_SOCK {
        Some((false, false))
    } else {
        None
    }
}

/// What a record tells of an entry's kind. Only where it does not tell, the
/// filesystem is asked.
pub fn entry_kind(kind: u8) -> (result: Option<(bool, bool)>)
    ensures
        result == kind_told(kind),
{
    if kind == DT_DIR {
        Some((true, false))
    } else if kind == DT_LNK {
        Some((false, true))
    } else if kind == DT_REG || kind == DT_FIFO || kind == DT_CHR || kind == DT_BLK || kind
        == DT_SOCK {
        Some((false, false))
    } else {
        None
    }
}

/// Whether a failure to ask about an entry shows that it is gone.
pub fn is_vanished_entry(failure: &Failure) -> (result: bool)
    ensures
        result == (failure.kind == FailureKind::NotFound || failure.kind
            == FailureKind::NotADirectory),
{
    match failure.kind {
        FailureKind::NotFound | FailureKind::NotADirectory => true,
        _ => false,
    }
}

/// Adds an entry to a listing. `asked` is what the filesystem answered about an
/// entry whose record does not tell its kind.
///
/// An entry that is gone costs that one entry. A refusal is held until the
/// listing was delivered. Any other failure fails the read.
pub fn add_entry(
    listing: &mut Listing,
    directory: &[u8],
    entry: RawEntry,
    asked: Result<(bool, bool), Failure>,
) -> (result: Result<(), Failure>)
    ensures
        match (kind_told(entry.kind), asked) {
            (Some((is_dir, is_symlink)), _) => {
                &&& result is Ok
                &&& final(listing).listed() == old(listing).listed().push(
                    Listed { name: entry.name@, is_dir, is_symlink },
                )
                &&& final(listing).deferred() == old(listing).deferred()
            },
            (None, Ok((is_dir, is_symlink))) => {
                &&& result is Ok
                &&& final(listing).listed() == old(listing).listed().push(
                    Listed { name: entry.name@, is_dir, is_symlink },
                )
                &&& final(listing).deferred() == old(listing).deferred()
            },
            (None, Err(failure)) => {
                &&& final(listing).listed() == old(listing).listed()
                &&& match failure.kind {
                    FailureKind::NotFound | FailureKind::NotADirectory => result is Ok && final(
                        listing).deferred() == old(listing).deferred(),
                    FailureKind::PermissionDenied => result is Ok && final(listing).deferred()
                        == old(listing).deferred().push(
                        deferred(pushed(directory@, entry.name@, Syntax::Posix), failure),
                    ),
                    _ => result == Err::<(), Failure>(failure) && final(listing).deferred() == old(
                        listing).deferred(),
                }
            },
        },
{
    let RawEntry { name, kind } = entry;
    match entry_kind(kind) {
        Some((is_dir, is_symlink)) => {
            listing.push(name.as_slice(), is_dir, is_symlink);
            Ok(())
        },
        None => match asked {
            Ok((is_dir, is_symlink)) => {
                listing.push(name.as_slice(), is_dir, is_symlink);
                Ok(())
            },
            Err(failure) => defer_entry_stat_error(
                listing,
                push_name(directory, name.as_slice(), Syntax::Posix),
                failure,
            ),
        },
    }
}

/// What came of asking the kernel for a batch.
#[derive(Debug)]
pub enum Batch {
    /// This many bytes.
    Bytes(usize),
    /// The call does not exist in this build.
    CapabilityUnavailable,
    /// The call failed; `no_such_call` where the kernel does not know it.
    Failed { failure: Failure, no_such_call: bool },
}

/// What follows from a batch.
#[derive(Debug)]
pub enum BatchStep {
    /// The directory is read.
    Done,
    /// Read the records in this many bytes.
    Parse(usize),
    /// Read the directory in the portable way.
    Fallback,
    /// The read failed.
    Fail(Failure),
}

/// What follows from a batch.
///
/// A call the kernel does not know is a missing capability only before the
/// first batch. After it, the directory has advanced, and starting over in
/// another way would lose entries.
pub fn batch_step(batch: Batch, primed: bool) -> (result: BatchStep)
    ensures
        result == match batch {
            Batch::Bytes(count) => if count == 0 {
                BatchStep::Done
            } else {
                BatchStep::Parse(count)
            },
            Batch::CapabilityUnavailable => BatchStep::Fallback,
            Batch::Failed { failure, no_such_call } => if !primed && no_such_call {
                BatchStep::Fallback
            } else {
                BatchStep::Fail(failure)
            },
        },
{
    match batch {
        Batch::Bytes(count) => if count == 0 {
            BatchStep::Done
        } else {
            BatchStep::Parse(count)
        },
        Batch::CapabilityUnavailable => BatchStep::Fallback,
        Batch::Failed { failure, no_such_call } => if !primed && no_such_call {
            BatchStep::Fallback
        } else {
            BatchStep::Fail(failure)
        },
    }
}

/// Whether a native read that failed is tried again in the portable way.
pub fn falls_back(failure: &Failure) -> (result: bool)
    ensures
        result == (failure.kind == FailureKind::Unsupported),
{
    match failure.kind {
        FailureKind::Unsupported => true,
        _ => false,
    }
}

/// Ceiling for directories kept open beyond one read.
pub const MAX_RETAINED_DIRECTORIES: usize = 256;

/// How many directories may be kept open where the limit cannot be measured.
pub const UNMEASURED_RETAINED_DIRECTORIES: usize = 64;

/// How many directories may be kept open, given how many files the process may
/// have open: a quarter of them, within the ceiling. A number of files that the
/// host cannot count counts as the ceiling itself.
pub fn measure_retained_directory_limit(open_files: Option<u64>) -> (result: usize)
    ensures
        result == match open_files {
            None => UNMEASURED_RETAINED_DIRECTORIES as int,
            Some(limit) => {
                let counted = if limit <= usize::MAX {
                    limit as int
                } else {
                    MAX_RETAINED_DIRECTORIES as int
                };
                if counted / 4 < MAX_RETAINED_DIRECTORIES {
                    counted / 4
                } else {
                    MAX_RETAINED_DIRECTORIES as int
                }
            },
        },
{
    match open_files {
        None => UNMEASURED_RETAINED_DIRECTORIES,
        Some(limit) => {
            let counted: usize = if limit <= usize::MAX as u64 {
                limit as usize
            } else {
                MAX_RETAINED_DIRECTORIES
            };
            let quarter: usize = counted / 4;
            if quarter < MAX_RETAINED_DIRECTORIES {
                quarter
            } else {
                MAX_RETAINED_DIRECTORIES
            }
        },
    }
}

/// How many directories are kept open once one more is, or nothing where the
/// budget is spent.
pub fn retain(retained: usize, limit: usize) -> (result: Option<usize>)
    ensures
        match result {
            Some(more) => retained < limit && more == retained + 1 && more <= limit,
            None => retained >= limit,
        },
{
    if retained < limit {
        Some(retained + 1)
    } else {
        None
    }
}

/// Whether a directory that waits keeps its descriptor: one that counts
/// against the budget does until the budget is under pressure.
pub fn keeps_descriptor(budgeted: bool, retained: usize, threshold: usize) -> (result: bool)
    ensures
        result == (budgeted && retained < threshold),
{
    budgeted && retained < threshold
}

/// What has to happen before a directory that waited goes on.
#[derive(Debug, Clone, Copy, PartialEq, Eq, Structural)]
pub enum Restore {
    /// Nothing: it is still open, or was never set aside.
    Nothing,
    /// Open it again, and find this device and inode.
    Reopen(u64, u64),
}

/// What has to happen before a directory that waited goes on.
pub fn restore_step(still_open: bool, expected: Option<(u64, u64)>) -> (result: Restore)
    ensures
        result == match expected {
            Some((device, inode)) if !still_open => Restore::Reopen(device, inode),
            _ => Restore::Nothing,
        },
{
    match expected {
        Some((device, inode)) if !still_open => Restore::Reopen(device, inode),
        _ => Restore::Nothing,
    }
}

/// Whether a path is too long for the host, whose limit counts the NUL. A
/// directory opened relative to its parent is held to the same limit, so that
/// every frontend sees the same tree.
pub fn exceeds_path_limit(path: &[u8], limit: usize) -> (result: bool)
    ensures
        result == (path@.len() >= limit),
{
    path.len() >= limit
}

/// What is written as a record is read as its entry: a head that tells the
/// record's length and the entry's type, the name, the NUL behind it and any
/// padding. The records behind it follow.
pub proof fn law_a_record_is_read_as_it_is_written(
    before: Seq<u8>,
    head: Seq<u8>,
    name: Seq<u8>,
    padding: Seq<u8>,
    behind: Seq<u8>,
    order: ByteOrder,
)
    requires
        head.len() == 19,
        name.len() > 0,
        !name.contains(NUL),
        !name.contains(SLASH),
        name != seq![DOT],
        name != seq![DOT, DOT],
        ({
            let length = 19 + name.len() + 1 + padding.len();
            match order {
                ByteOrder::Little => head[16] + 256 * head[17] == length,
                ByteOrder::Big => 256 * head[16] + head[17] == length,
            }
        }),
    ensures
        ({
            let records = before + head + name.push(NUL) + padding + behind;
            let next = (before.len() + 19 + name.len() + 1 + padding.len()) as int;
            &&& entries_from(records, before.len() as int, order) == seq![
                Told { name, kind: head[18] },
            ] + entries_from(records, next, order)
            &&& well_formed_from(records, before.len() as int, order) == well_formed_from(
                records,
                next,
                order,
            )
        }),
{
    let records = before + head + name.push(NUL) + padding + behind;
    let offset = before.len() as int;
    assert(records[offset + 16] == head[16]);
    assert(records[offset + 17] == head[17]);
    assert(records[offset + 18] == head[18]);
    let length = number_at(records, offset + RECORD_LENGTH_OFFSET, order);
    let region = records.subrange(offset + NAME_OFFSET, offset + length);
    assert(region =~= name.push(NUL) + padding);
    assert forall|i: int| 0 <= i < name.len() implies region[i] != NUL by {
        assert(name.contains(name[i]));
    }
    assert(region[name.len() as int] == NUL);
    lemma_index_from_is(region, NUL, 0, name.len() as int);
    assert(region.take(name.len() as int) =~= name);
}

/// A record of the directory itself or of its parent tells of no entry.
pub proof fn law_dots_are_no_entries(
    before: Seq<u8>,
    head: Seq<u8>,
    name: Seq<u8>,
    padding: Seq<u8>,
    behind: Seq<u8>,
)
    requires
        head.len() == 19,
        name == seq![DOT] || name == seq![DOT, DOT],
        head[16] + 256 * head[17] == 19 + name.len() + 1 + padding.len(),
    ensures
        ({
            let records = before + head + name.push(NUL) + padding + behind;
            let next = (before.len() + 19 + name.len() + 1 + padding.len()) as int;
            entries_from(records, before.len() as int, ByteOrder::Little) == entries_from(
                records,
                next,
                ByteOrder::Little,
            )
        }),
{
    let records = before + head + name.push(NUL) + padding + behind;
    let offset = before.len() as int;
    assert(records[offset + 16] == head[16]);
    assert(records[offset + 17] == head[17]);
    let length = number_at(records, offset + RECORD_LENGTH_OFFSET, ByteOrder::Little);
    let region = records.subrange(offset + NAME_OFFSET, offset + length);
    assert(region =~= name.push(NUL) + padding);
    assert(region[name.len() as int] == NUL);
    lemma_index_from_is(region, NUL, 0, name.len() as int);
    assert(region.take(name.len() as int) =~= name);
}

/// A record that claims to be longer than what is left of its batch, or too
/// short to hold a name, is none, and ends the reading.
pub proof fn law_a_record_stays_in_its_batch(records: Seq<u8>, offset: int)
    requires
        0 <= offset < records.len(),
        records.len() - offset < 20 || records[offset + 16] + 256 * records[offset + 17] < 20
            || records[offset + 16] + 256 * records[offset + 17] > records.len() - offset,
    ensures
        entries_from(records, offset, ByteOrder::Little).len() == 0,
        !well_formed_from(records, offset, ByteOrder::Little),
{
}

/// A record tells a directory from a link and from everything else, and some
/// types leave it open.
pub proof fn law_the_type_of_a_record_tells_its_kind(kind: u8)
    ensures
        kind_told(kind) == Some((true, false)) <==> kind == 4,
        kind_told(kind) == Some((false, true)) <==> kind == 10,
        kind_told(kind) == Some((false, false)) <==> kind == 1 || kind == 2 || kind == 6 || kind
            == 8 || kind == 12,
        kind_told(kind) != Some((true, true)),
{
}

} // verus!
