//! The random access file over an in-memory backend: constructors, block
//! reads and writes, and the lease protocol driven through explicit tokens.

use randfile::lease::RandError;
use randfile::mode::{ReadOnly, ReadWrite};
use randfile::randfile::RandFile;

#[test]
fn test_from_inner() {
    let backend = vec![0u8; 1024];
    let _rand_file: RandFile<ReadOnly, u32> = RandFile::for_read_only(backend);

    let backend = vec![0u8; 1024];
    let _rand_file: RandFile<ReadWrite, u32> = RandFile::for_read_write(backend);
}

#[test]
fn test_read_write_blocks() {
    let backend = vec![0u8; 0];
    let mut rand_file: RandFile<ReadWrite, u32> = RandFile::for_read_write(backend);
    assert_eq!(0, rand_file.append_block(0, b"This is a test block").unwrap());
    assert_eq!(20, rand_file.append_block(0, b"This is a test block").unwrap());

    let mut buf = vec![0u8; 20];
    assert_eq!(20, rand_file.read_block(0, 0, &mut buf).unwrap());
    assert_eq!(b"This is a test block".to_vec(), buf);
}

#[test]
fn test_lock() {
    let backend = vec![0u8; 0];
    let mut rand_file: RandFile<ReadWrite, &str> = RandFile::for_read_write(backend);
    {
        // A nested handle, and a clone of it.
        let locked = rand_file.lock("update").unwrap();
        rand_file.retain(locked);

        rand_file.append_block(locked, b"a").unwrap();
        rand_file.append_block(locked, b"a").unwrap();

        rand_file.append_block(0, b"c").expect_err("Should be error!");

        // The clone goes away: the lease stays held, nothing fires.
        let fired = rand_file.release(locked);
        assert!(fired.is_empty());
        // The last handle of the lease goes away: its callback comes back,
        // exactly once.
        let fired = rand_file.release(locked);
        assert_eq!(vec!["update"], fired);
    }
    rand_file.append_block(0, b"c").unwrap();
}

#[test]
fn append_blocks_land_end_to_end() {
    let mut f: RandFile<ReadWrite, u32> = RandFile::for_read_write(vec![]);
    assert_eq!(0, f.append_block(0, b"abc").unwrap());
    assert_eq!(3, f.append_block(0, b"de").unwrap());
    let mut buf = vec![0u8; 5];
    assert_eq!(5, f.read_block(0, 0, &mut buf).unwrap());
    assert_eq!(b"abcde".to_vec(), buf);
}

#[test]
fn read_block_is_short_at_end_of_stream() {
    let mut f: RandFile<ReadWrite, u32> = RandFile::for_read_write(vec![]);
    f.append_block(0, b"abcde").unwrap();

    // Inside the stream, but fewer bytes left than asked for.
    let mut buf = vec![9u8; 4];
    assert_eq!(2, f.read_block(0, 3, &mut buf).unwrap());
    assert_eq!(vec![b'd', b'e', 9u8, 9u8], buf);

    // At the end: nothing to read, the buffer stays as it was.
    let mut buf = vec![7u8; 3];
    assert_eq!(0, f.read_block(0, 5, &mut buf).unwrap());
    assert_eq!(vec![7u8; 3], buf);

    // Far past the end: still not an error.
    assert_eq!(0, f.read_block(0, 1000, &mut buf).unwrap());
}

#[test]
fn size_reports_stream_length() {
    let mut f: RandFile<ReadWrite, u32> = RandFile::for_read_write(vec![]);
    assert_eq!(0, f.size(0).unwrap());
    f.append_block(0, b"abcd").unwrap();
    assert_eq!(4, f.size(0).unwrap());
}

#[test]
fn reserve_then_update_then_read() {
    let mut f: RandFile<ReadWrite, u32> = RandFile::for_read_write(vec![]);
    let a = f.reserve_block(0, 4).unwrap();
    assert_eq!(0, a);
    assert_eq!(4, f.size(0).unwrap());
    f.update_block(0, a, b"WXYZ").unwrap();
    let mut buf = vec![0u8; 4];
    assert_eq!(4, f.read_block(0, a, &mut buf).unwrap());
    assert_eq!(b"WXYZ".to_vec(), buf);
}

#[test]
fn reserve_zero_changes_nothing() {
    let mut f: RandFile<ReadWrite, u32> = RandFile::for_read_write(vec![]);
    f.append_block(0, b"ab").unwrap();
    assert_eq!(2, f.reserve_block(0, 0).unwrap());
    assert_eq!(2, f.size(0).unwrap());
}

#[test]
fn update_past_end_zero_fills_the_gap() {
    let mut f: RandFile<ReadWrite, u32> = RandFile::for_read_write(vec![]);
    f.update_block(0, 3, b"xy").unwrap();
    assert_eq!(5, f.size(0).unwrap());
    let mut buf = vec![1u8; 5];
    assert_eq!(5, f.read_block(0, 0, &mut buf).unwrap());
    assert_eq!(vec![0u8, 0u8, 0u8, b'x', b'y'], buf);
}

#[test]
fn stale_generation_is_rejected_everywhere() {
    let mut f: RandFile<ReadWrite, u32> = RandFile::for_read_write(vec![]);
    f.append_block(0, b"abc").unwrap();
    let t = f.lock(7).unwrap();

    assert_eq!(Err(RandError::GenerationMismatch), f.append_block(0, b"x"));
    assert_eq!(Err(RandError::GenerationMismatch), f.update_block(0, 0, b"x"));
    assert_eq!(Err(RandError::GenerationMismatch), f.reserve_block(0, 1));
    assert_eq!(Err(RandError::GenerationMismatch), f.size(0));
    let mut buf = vec![0u8; 1];
    assert_eq!(Err(RandError::GenerationMismatch), f.read_block(0, 0, &mut buf));

    // The leased generation itself is fine.
    assert_eq!(3, f.append_block(t, b"x").unwrap());
    f.release(t);
    assert_eq!(4, f.append_block(0, b"y").unwrap());
}

#[test]
fn nested_leases_fire_innermost_first() {
    let mut f: RandFile<ReadWrite, u32> = RandFile::for_read_write(vec![]);
    let t1 = f.lock(1).unwrap();
    let t2 = f.lock(2).unwrap();
    let t3 = f.lock(3).unwrap();

    // Only the innermost generation may operate.
    assert!(f.append_block(t1, b"a").is_err());
    assert!(f.append_block(t2, b"a").is_err());
    assert!(f.append_block(t3, b"a").is_ok());

    // Release out of order: a drained middle level waits for the levels
    // above it, and callbacks still come out innermost first.
    assert_eq!(Vec::<u32>::new(), f.release(t1));
    assert_eq!(vec![3], f.release(t3));
    assert_eq!(vec![2, 1], f.release(t2));

    // All levels gone: the base generation is current again.
    f.append_block(0, b"z").unwrap();
}

#[test]
fn clone_keeps_the_handle_alive() {
    let mut f: RandFile<ReadWrite, u32> = RandFile::for_read_write(vec![]);
    // A clone of the base handle, then the original goes away: the clone
    // still works.
    f.retain(0);
    let fired = f.release(0);
    assert!(fired.is_empty());
    assert_eq!(0, f.append_block(0, b"ok").unwrap());
}
