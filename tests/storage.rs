use dbsp::storage::{allocate_buffer, AtomicIncrementOnlyI64, MemoryBackend, StorageError};

#[test]
fn write_complete_read() {
    let mut b = MemoryBackend::new();
    let fd = b.create_named("f").unwrap();
    b.write_block(&fd, 4096, &vec![7u8; 512]).unwrap();
    b.write_block(&fd, 0, &vec![1u8; 1024]).unwrap();
    assert!(matches!(b.write_block(&fd, 4096, &vec![2u8; 512]), Err(StorageError::OverlappingWrites)));
    let (ifd, name) = b.complete(fd);
    assert_eq!(name, "f");
    assert_eq!(b.get_size(&ifd).unwrap(), 4608);
    let block = b.read_block(&ifd, 0, 4096).unwrap();
    assert_eq!(block[0], 1);
    assert_eq!(block[1023], 1);
    assert_eq!(block[1024], 0);
    assert_eq!(b.read_block(&ifd, 4096, 512).unwrap(), vec![7u8; 512]);
    assert!(matches!(b.read_block(&ifd, 4096, 1024), Err(StorageError::ShortRead)));
    assert!(b.delete(ifd).is_ok());
}

#[test]
fn create_gives_unique_names() {
    let mut b = MemoryBackend::new();
    let f1 = b.create().unwrap();
    let f2 = b.create().unwrap();
    assert_ne!(f1.id(), f2.id());
    let (_, n1) = b.complete(f1);
    assert!(n1.ends_with(".feldera"));
    assert_eq!(n1.len(), 44);
    assert!(b.delete_mut(f2).is_ok());
}

#[test]
fn counter_increments() {
    let c = AtomicIncrementOnlyI64::new();
    assert_eq!(c.increment(), 0);
    assert_eq!(c.increment(), 1);
}

#[test]
fn buffers_start_empty() {
    let b = allocate_buffer(4096);
    assert!(b.is_empty());
    assert!(b.capacity() >= 4096);
}
