use queries::check::{mix, to_decimal, NonlockingProcess};
use queries::data::{Object, Param, ReadError, ReadObject};
use queries::error::ExecutionError;
use queries::fingerprinting::{stamp_with_fingerprint, Fingerprint};
use queries::query_id::QueryId;
use queries::serialization::{ByteReader, ByteWriter, Reader, Writer};
use std::sync::Arc;

#[test]
fn an_id_is_shown_in_brackets() {
    assert_eq!("[Length]", QueryId::new_static("Length").to_string());
    assert_eq!("[RefRead(2)]", QueryId::new("RefRead(2)".to_string()).to_string());
    assert_eq!("[]", QueryId::new(String::new()).to_string());
    assert_eq!("Sum", QueryId::new_static("Sum").name());
}

#[test]
fn ids_are_the_same_where_their_names_are() {
    assert_eq!(QueryId::new_static("a"), QueryId::new("a".to_string()));
    assert_ne!(QueryId::new_static("a"), QueryId::new_static("b"));
    let id = QueryId::new_static("input");
    assert_eq!(id, id.clone());
}

#[test]
fn a_param_carries_its_id() {
    let param = Param::<Vec<u64>>::new("input");
    assert_eq!("[input]", param.query_id().to_string());
}

#[test]
fn a_fingerprint_is_shown_by_its_outer_digits() {
    assert_eq!(
        "fedc~3210",
        Fingerprint::new(0xfedc_ba98_7654_3210, 0x0123_4567_89ab_3210).to_string()
    );
    assert_eq!("0000~0000", Fingerprint::new(0, 0).to_string());
    assert_eq!("000a~0f00", Fingerprint::new(0x000a_ffff_ffff_ffff, 0xffff_ffff_ffff_0f00).to_string());
    assert_eq!("ffff~ffff", Fingerprint::new(u64::MAX, u64::MAX).to_string());
}

#[test]
fn fingerprints_tell_values_apart() {
    let five = stamp_with_fingerprint(Arc::new(5u64));
    let again = stamp_with_fingerprint(Arc::new(5u64));
    let six = stamp_with_fingerprint(Arc::new(6u64));
    assert_eq!(five.0, again.0);
    assert_ne!(five.0, six.0);
    assert_eq!(5, *five.1);
    assert_ne!(Fingerprint::new(0, 5), five.0);
    assert_ne!(Fingerprint::new(5, 0), five.0);
    let list = stamp_with_fingerprint(Arc::new(vec![1u64, 2, 3]));
    let other = stamp_with_fingerprint(Arc::new(vec![2u64, 1, 3]));
    assert_ne!(list.0, other.0);
    assert_eq!(list.0, stamp_with_fingerprint(Arc::new(vec![1u64, 2, 3])).0);
    assert_eq!(
        stamp_with_fingerprint(Arc::new(7usize)).0,
        stamp_with_fingerprint(Arc::new(7u64)).0
    );
}

fn written<T: Object>(value: &T) -> Vec<u8> {
    let mut writer = ByteWriter::new();
    value.write(&mut writer);
    writer.bytes().clone()
}

#[test]
fn numbers_are_written_highest_byte_first() {
    assert_eq!(vec![0, 0, 0, 0, 0, 0, 1, 2], written(&258u64));
    assert_eq!(vec![1, 2, 3, 4, 5, 6, 7, 8], written(&0x0102_0304_0506_0708u64));
    assert_eq!(vec![255; 8], written(&u64::MAX));
    assert_eq!(vec![0, 0, 0, 0, 0, 0, 0, 9], written(&9usize));
}

#[test]
fn a_list_is_written_with_its_length_first() {
    assert_eq!(vec![0; 8], written(&Vec::<u64>::new()));
    assert_eq!(
        vec![0, 0, 0, 0, 0, 0, 0, 2, 0, 0, 0, 0, 0, 0, 0, 7, 0, 0, 0, 0, 0, 0, 1, 0],
        written(&vec![7u64, 256])
    );
    assert_eq!(
        vec![0, 0, 0, 0, 0, 0, 0, 1, 0, 0, 0, 0, 0, 0, 0, 1, 0, 0, 0, 0, 0, 0, 0, 5],
        written(&vec![vec![5u64]])
    );
}

#[test]
fn a_writer_keeps_what_is_written() {
    let mut writer = ByteWriter::new();
    writer.write(&[1, 2]);
    writer.write(&[]);
    writer.write(&[3]);
    assert_eq!(&vec![1, 2, 3], writer.bytes());
}

#[test]
fn a_reader_hands_out_the_bytes_in_order() {
    let mut reader = ByteReader::new(vec![1, 2, 3, 4, 5]);
    assert_eq!(vec![1, 2], reader.read(2));
    assert_eq!(Vec::<u8>::new(), reader.read(0));
    assert_eq!(vec![3, 4, 5], reader.read(8));
    assert_eq!(Vec::<u8>::new(), reader.read(1));
}

#[test]
fn numbers_are_read_back() {
    for value in [0u64, 1, 258, 0x0102_0304_0506_0708, u64::MAX] {
        let mut bytes = written(&value);
        bytes.push(77);
        let mut reader = ByteReader::new(bytes);
        assert_eq!(Ok(value), u64::read(&mut reader));
        assert_eq!(vec![77], reader.read(10));
    }
    let mut reader = ByteReader::new(written(&12345usize));
    assert_eq!(Ok(12345usize), usize::read(&mut reader));
}

#[test]
fn missing_bytes_are_an_error() {
    let mut reader = ByteReader::new(vec![1, 2, 3, 4, 5, 6, 7]);
    assert_eq!(Err(ReadError::MissingBytes), u64::read(&mut reader));
    let mut reader = ByteReader::new(vec![]);
    assert_eq!(Err(ReadError::MissingBytes), usize::read(&mut reader));
    assert_eq!("missing bytes to read a number", ReadError::MissingBytes.message());
    assert_eq!("the number read is out of range", ReadError::OutOfRange.message());
}

#[test]
fn errors_are_shown_with_their_context() {
    let id = QueryId::new_static("q");
    assert_eq!(
        "No param with id [q]",
        ExecutionError::MissingParam { id: id.clone() }.message()
    );
    assert_eq!(
        "Conflicting params with id [q]",
        ExecutionError::ConflictingParam { id: id.clone() }.message()
    );
    assert_eq!(
        "Conflicting past_queries with id: [q]",
        ExecutionError::ConflictingQuery { id: id.clone() }.message()
    );
    assert_eq!(
        "Cyclic dependency during execution of [q]\nTrace: []",
        ExecutionError::CyclicDependency { id: id.clone(), trace: vec![] }.message()
    );
    assert_eq!(
        "Cyclic dependency during execution of [q]\nTrace: [[q]]",
        ExecutionError::CyclicDependency { id: id.clone(), trace: vec![id.clone()] }.message()
    );
    assert_eq!(
        "Cyclic dependency during execution of [q]\nTrace: [[a], [b], [q]]",
        ExecutionError::CyclicDependency {
            id: id.clone(),
            trace: vec![QueryId::new_static("a"), QueryId::new_static("b"), id.clone()],
        }
        .message()
    );
    assert_eq!("Cache was corrupted", ExecutionError::CacheCorrupted.message());
    assert_eq!(
        "Query [q] in cache was overriden with failed execution.",
        ExecutionError::Overridden { id: id.clone() }.message()
    );
    assert_eq!(
        "Error in dependency: boom",
        ExecutionError::Dependency { message: "boom".to_string() }.message()
    );
    assert_eq!("invalid type", ExecutionError::InvalidType.message());
    assert_eq!("boom", ExecutionError::Body { message: "boom".to_string() }.message());
    assert_eq!(
        "as a part of [outer]: as a part of [q]: boom",
        ExecutionError::Body { message: "boom".to_string() }
            .context(id)
            .context(QueryId::new_static("outer"))
            .message()
    );
}

#[test]
fn texts_are_mixed_in_order() {
    assert_eq!("ab", mix("a".to_string(), "b"));
    assert_eq!("a", mix("a".to_string(), ""));
    assert_eq!("xyz", mix(String::new(), "xyz"));
}

#[test]
fn numbers_are_shown_in_decimal() {
    assert_eq!("0", to_decimal(0));
    assert_eq!("7", to_decimal(7));
    assert_eq!("10", to_decimal(10));
    assert_eq!("4096", to_decimal(4096));
    assert_eq!(usize::MAX.to_string(), to_decimal(usize::MAX));
    assert_eq!("[NonlockingProcess(12)]", NonlockingProcess(12).id().to_string());
    assert_eq!("[NonlockingProcess(0)]", NonlockingProcess(0).id().to_string());
}

#[test]
fn lists_are_read_back() {
    for value in [vec![], vec![7u64], vec![1u64, 258, u64::MAX]] {
        let mut bytes = written(&value);
        bytes.extend([9, 9]);
        let mut reader = ByteReader::new(bytes);
        assert_eq!(Ok(value), Vec::<u64>::read(&mut reader));
        assert_eq!(vec![9, 9], reader.read(10));
    }
    let nested = vec![vec![1usize, 2], vec![], vec![3]];
    let mut reader = ByteReader::new(written(&nested));
    assert_eq!(Ok(nested), Vec::<Vec<usize>>::read(&mut reader));
}

#[test]
fn a_list_that_ends_early_is_an_error() {
    let mut bytes = written(&vec![1u64, 2, 3]);
    bytes.pop();
    let mut reader = ByteReader::new(bytes);
    assert_eq!(Err(ReadError::MissingBytes), Vec::<u64>::read(&mut reader));
    let mut reader = ByteReader::new(vec![0, 0, 0]);
    assert_eq!(Err(ReadError::MissingBytes), Vec::<u64>::read(&mut reader));
}
