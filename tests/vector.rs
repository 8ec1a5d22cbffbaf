use kelk::codec::Codec;
use kelk::storage::{mock_storage, read_record, Error, MockStorage};
use kelk::vector::{StorageVec, VecHeader};

fn header_at(storage: &MockStorage, offset: u32) -> VecHeader {
    read_record::<MockStorage, VecHeader>(storage, offset).unwrap()
}

#[test]
fn test_size() {
    assert_eq!(16, VecHeader::packed_len());
}

#[test]
fn test_header() {
    let mut storage = mock_storage(1024);
    StorageVec::<i32>::create(&mut storage, 512, 16).unwrap();
    let header = header_at(&storage, 512);
    assert_eq!(header.boom, 0xb3000000);
    assert_eq!(header.reserved, 0);
    assert_eq!(header.value_len, 4);
    assert_eq!(header.size, 0);
    assert_eq!(header.capacity, 16);
}

#[test]
fn test_vector() {
    let mut storage = mock_storage(1024);
    let mut vec = StorageVec::<i32>::create(&mut storage, 512, 16).unwrap();
    assert_eq!(None, vec.get(&storage, 0).unwrap());
    assert!(vec.is_empty());

    vec.push(&mut storage, 10).unwrap();
    vec.push(&mut storage, 11).unwrap();
    vec.push(&mut storage, 12).unwrap();

    assert_eq!(3, vec.len());
    assert_eq!(Some(10), vec.get(&storage, 0).unwrap());
    assert_eq!(Some(11), vec.get(&storage, 1).unwrap());
    assert_eq!(Some(12), vec.get(&storage, 2).unwrap());
    assert_eq!(None, vec.get(&storage, 3).unwrap());
}

#[test]
fn test_load() {
    let mut storage = mock_storage(1024);
    let mut vec = StorageVec::<i32>::create(&mut storage, 512, 128).unwrap();
    vec.push(&mut storage, 1).unwrap();

    let vec = StorageVec::<i32>::lazy_load(&storage, 512).unwrap();
    let header = header_at(&storage, 512);
    assert_eq!(header.boom, 0xb3000000);
    assert_eq!(header.reserved, 0);
    assert_eq!(header.value_len, 4);
    assert_eq!(header.size, 1);
    assert_eq!(header.capacity, 128);
    assert_eq!(Some(1), vec.get(&storage, 0).unwrap());
}

#[test]
fn test_capacity() {
    let mut storage = mock_storage(1024);
    let mut vec = StorageVec::<i32>::create(&mut storage, 0, 4).unwrap();

    vec.push(&mut storage, 1).unwrap();
    vec.push(&mut storage, 2).unwrap();
    vec.push(&mut storage, 3).unwrap();
    vec.push(&mut storage, 4).unwrap();
    assert!(vec.push(&mut storage, 5).is_err());
}

#[test]
fn full_vector_refuses_push() {
    let mut storage = mock_storage(64);
    let mut vec = StorageVec::<u8>::create(&mut storage, 0, 1).unwrap();
    vec.push(&mut storage, 7).unwrap();
    assert_eq!(Err(Error::OutOfCapacity), vec.push(&mut storage, 8));
    assert_eq!(1, vec.len());
    assert_eq!(Some(7), vec.get(&storage, 0).unwrap());
}

#[test]
fn push_past_the_region_fails_without_writing() {
    // header at 0, then room for two 4-byte elements
    let mut storage = mock_storage(24);
    let mut vec = StorageVec::<u32>::create(&mut storage, 0, 10).unwrap();
    vec.push(&mut storage, 1).unwrap();
    vec.push(&mut storage, 2).unwrap();
    assert_eq!(Err(Error::StorageBounds), vec.push(&mut storage, 3));
    assert_eq!(2, vec.len());
    assert_eq!(2, header_at(&storage, 0).size);
}

#[test]
fn vector_load_rejects_other_widths_and_bounds() {
    let mut storage = mock_storage(128);
    StorageVec::<i32>::create(&mut storage, 32, 4).unwrap();
    assert_eq!(
        Err(Error::InvalidOffset(32)),
        StorageVec::<i64>::lazy_load(&storage, 32).map(|v| v.len())
    );
    assert_eq!(
        Err(Error::StorageBounds),
        StorageVec::<i32>::lazy_load(&storage, 120).map(|v| v.len())
    );
    assert!(StorageVec::<i32>::create(&mut storage, 120, 4).is_err());
}
