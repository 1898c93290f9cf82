use ferralk::dirent::{
    add_entry, batch_step, entry_kind, exceeds_path_limit, falls_back, for_each_record,
    fuzz_validate_records, host_byte_order, is_vanished_entry, keeps_descriptor,
    measure_retained_directory_limit, restore_step, retain, validate_records, Batch, BatchStep,
    ByteOrder, RawEntry, Restore, DT_BLK, DT_CHR, DT_DIR, DT_FIFO, DT_LNK, DT_REG, DT_SOCK,
    NAME_OFFSET, TYPE_OFFSET,
};
use ferralk::failure::{Failure, FailureKind};
use ferralk::listing::Listing;

fn record(name: &[u8], directory_type: u8) -> Vec<u8> {
    let length = (NAME_OFFSET + name.len() + 1 + 7) & !7;
    let mut record = vec![0_u8; length];
    record[16..18].copy_from_slice(&(length as u16).to_ne_bytes());
    record[NAME_OFFSET..NAME_OFFSET + name.len()].copy_from_slice(name);
    record[TYPE_OFFSET] = directory_type;
    record
}

/// Reads a batch into a listing. Nothing exists where a record does not tell.
fn parse_records(directory: &[u8], records: &[u8], listing: &mut Listing) -> Result<(), Failure> {
    let (entries, failure) = for_each_record(records, host_byte_order());
    for entry in entries {
        let gone = Failure::new(FailureKind::NotFound, "gone");
        add_entry(listing, directory, entry, Err(gone))?;
    }
    match failure {
        Some(failure) => Err(failure),
        None => Ok(()),
    }
}

#[test]
fn parser_skips_dot_entries_and_rejects_malformed_records() {
    let mut records = record(b".", DT_DIR);
    records.extend(record(b"..", DT_DIR));
    records.extend(record(b"regular", DT_REG));
    let mut listing = Listing::default();
    parse_records(b"/tmp", &records, &mut listing).expect("dot records parse");
    assert_eq!(listing.entries().len(), 1);
    assert!(!listing.entries()[0].is_dir());
    assert!(!listing.entries()[0].is_symlink());

    assert!(parse_records(b"/tmp", &[0_u8; NAME_OFFSET], &mut listing).is_err());

    let mut zero_length = vec![0_u8; NAME_OFFSET + 1];
    zero_length[NAME_OFFSET] = DT_REG;
    assert!(parse_records(b"/tmp", &zero_length, &mut listing).is_err());

    let mut missing_nul = record(b"name", DT_REG);
    for byte in &mut missing_nul[NAME_OFFSET..] {
        *byte = b'x';
    }
    assert!(parse_records(b"/tmp", &missing_nul, &mut listing).is_err());
}

/// The layout of a little-endian record, byte by byte.
#[test]
fn checked_in_linux_native_fuzz_seeds_are_valid_and_reproducible() {
    let long_name = [b'x'; 255];
    let mut multi = record(b"nested", DT_DIR);
    multi.extend(record(b"file", DT_REG));
    let seeds: [(Vec<u8>, usize); 4] = [
        (record(b"one", DT_REG), 1),
        (record(b"a", DT_REG), 1),
        (multi, 2),
        (record(&long_name, DT_REG), 1),
    ];
    for (seed, expected) in seeds {
        let (entries, failure) = for_each_record(&seed, host_byte_order());
        assert!(failure.is_none());
        assert_eq!(entries.len(), expected);
        fuzz_validate_records(&seed);
        assert!(validate_records(&seed, host_byte_order()));
    }
    assert_eq!(record(b"a", DT_REG).len(), 24);
}

#[test]
fn a_vanished_entry_costs_one_entry_and_not_the_listing() {
    let mut records = record(b"vanished", 0);
    records.extend(record(b"survivor", DT_REG));
    let mut listing = Listing::default();

    parse_records(b"/tmp", &records, &mut listing)
        .expect("a vanished entry does not end the listing");

    assert_eq!(
        listing.entries().len(),
        1,
        "only the vanished entry is dropped"
    );
    assert_eq!(listing.entries()[0].name(), b"survivor");
}

#[test]
fn special_file_types_are_classified_without_a_stat() {
    for directory_type in [DT_FIFO, DT_CHR, DT_BLK, DT_SOCK] {
        assert_eq!(entry_kind(directory_type), Some((false, false)));
    }
    assert_eq!(entry_kind(DT_DIR), Some((true, false)));
    assert_eq!(entry_kind(DT_REG), Some((false, false)));
    assert_eq!(entry_kind(DT_LNK), Some((false, true)));
    assert_eq!(entry_kind(0), None);
    assert_eq!(entry_kind(14), None);
}

#[test]
fn a_separator_in_a_name_makes_a_record_malformed() {
    let mut records = record(b"first", DT_REG);
    records.extend(record(b"a/b", DT_REG));
    records.extend(record(b"never", DT_REG));
    let (entries, failure) = for_each_record(&records, host_byte_order());
    assert_eq!(entries.len(), 1);
    assert_eq!(entries[0].name, b"first".to_vec());
    let failure = failure.expect("a separator cannot stand in a name");
    assert_eq!(failure.kind(), FailureKind::InvalidData);
    assert_eq!(failure.message, "malformed getdents64 record");
    fuzz_validate_records(&records);
    assert!(!validate_records(&records, host_byte_order()));
}

#[test]
fn a_record_longer_than_the_batch_is_malformed() {
    let mut records = record(b"name", DT_REG);
    let length = records.len();
    records[16..18].copy_from_slice(&((length + 8) as u16).to_ne_bytes());
    fuzz_validate_records(&records);
    assert!(!validate_records(&records, host_byte_order()));
    fuzz_validate_records(&[]);
    assert!(validate_records(&[], host_byte_order()));
    fuzz_validate_records(&[0]);
    assert!(!validate_records(&[0], host_byte_order()));
}

/// The order of a record's length is that of the host, and of no other.
#[test]
fn the_byte_order_decides_the_length() {
    let mut little = vec![0_u8; 24];
    little[16] = 24;
    little[NAME_OFFSET] = b'a';
    let mut big = little.clone();
    big[16] = 0;
    big[17] = 24;
    assert!(validate_records(&little, ByteOrder::Little));
    assert!(!validate_records(&little, ByteOrder::Big));
    assert!(validate_records(&big, ByteOrder::Big));
    assert!(!validate_records(&big, ByteOrder::Little));
    let native = u16::from_ne_bytes([1, 0]);
    let expected = if native == 1 {
        ByteOrder::Little
    } else {
        ByteOrder::Big
    };
    assert_eq!(host_byte_order(), expected);
}

#[test]
fn an_unknown_kind_goes_by_the_answer() {
    let raw = |name: &[u8]| RawEntry {
        name: name.to_vec(),
        kind: 0,
    };
    let mut listing = Listing::default();
    assert!(add_entry(&mut listing, b"/d", raw(b"dir"), Ok((true, false))).is_ok());
    let denied = Failure::new(FailureKind::PermissionDenied, "denied");
    assert!(add_entry(&mut listing, b"/d", raw(b"locked"), Err(denied)).is_ok());
    let moved = Failure::new(FailureKind::NotADirectory, "moved");
    assert!(is_vanished_entry(&moved));
    assert!(add_entry(&mut listing, b"/d", raw(b"moved"), Err(moved)).is_ok());
    let broken = Failure::new(FailureKind::Other, "broken");
    assert!(!is_vanished_entry(&broken));
    assert!(add_entry(&mut listing, b"/d", raw(b"broken"), Err(broken)).is_err());

    assert_eq!(listing.entries().len(), 1);
    assert!(listing.entries()[0].is_dir());
    let waiting = listing.take_deferred_error().expect("a refusal waits");
    assert_eq!(waiting.path, b"/d/locked".to_vec());
    assert_eq!(waiting.source.kind(), FailureKind::PermissionDenied);
    assert!(listing.take_deferred_error().is_none());
}

#[test]
fn only_pre_batch_enosys_uses_the_portable_descriptor_fallback() {
    let failed = |no_such_call: bool| Batch::Failed {
        failure: Failure::new(FailureKind::Unsupported, "unsupported"),
        no_such_call,
    };
    assert!(matches!(batch_step(failed(true), false), BatchStep::Fallback));
    assert!(matches!(batch_step(failed(true), true), BatchStep::Fail(_)));
    assert!(matches!(batch_step(failed(false), false), BatchStep::Fail(_)));
    assert!(matches!(
        batch_step(Batch::CapabilityUnavailable, false),
        BatchStep::Fallback
    ));
    assert!(matches!(batch_step(Batch::Bytes(0), true), BatchStep::Done));
    assert!(matches!(
        batch_step(Batch::Bytes(48), false),
        BatchStep::Parse(48)
    ));
    assert!(falls_back(&Failure::new(FailureKind::Unsupported, "no")));
    assert!(!falls_back(&Failure::new(FailureKind::NotFound, "no")));
}

#[test]
fn the_retention_budget_is_a_quarter_of_the_descriptors() {
    assert_eq!(measure_retained_directory_limit(None), 64);
    assert_eq!(measure_retained_directory_limit(Some(0)), 0);
    assert_eq!(measure_retained_directory_limit(Some(100)), 25);
    assert_eq!(measure_retained_directory_limit(Some(1024)), 256);
    assert_eq!(measure_retained_directory_limit(Some(u64::MAX)), 256);

    assert_eq!(retain(24, 25), Some(25));
    assert_eq!(retain(25, 25), None);
    assert!(keeps_descriptor(true, 3, 4));
    assert!(!keeps_descriptor(true, 4, 4));
    assert!(!keeps_descriptor(false, 0, 4));
    assert_eq!(restore_step(false, Some((1, 2))), Restore::Reopen(1, 2));
    assert_eq!(restore_step(true, Some((1, 2))), Restore::Nothing);
    assert_eq!(restore_step(false, None), Restore::Nothing);
    assert!(exceeds_path_limit(&[b'x'; 4096], 4096));
    assert!(!exceeds_path_limit(&[b'x'; 4095], 4096));
}
