use jjp::map_file::{MapFile, SeekError, SeekFrom};
use memmap2::MmapMut;

fn mapped(bytes: usize, len: usize) -> MapFile {
    MapFile::new(MmapMut::map_anon(bytes).unwrap(), len)
}

fn write_all(file: &mut MapFile, mut data: &[u8]) -> bool {
    while !data.is_empty() {
        let n = file.poll_write(data);
        if n == 0 {
            return false;
        }
        data = &data[n..];
    }
    true
}

#[test]
fn map_write() {
    let map = MmapMut::map_anon(32).unwrap();
    let len = map.len();
    let mut map_file = MapFile::new(map, len);

    let data = [1, 2, 3, 4, 5, 6];
    assert!(write_all(&mut map_file, &data));

    let buf = &map_file.map()[..6];
    assert_eq!(buf, &data);
}

#[test]
fn map_seek() {
    let map = MmapMut::map_anon(32).unwrap();
    let len = map.len();
    let mut map_file = MapFile::new(map, len);

    let data = [1, 2, 3, 4, 5, 6];
    assert!(write_all(&mut map_file, &data));
    assert!(map_file.start_seek(SeekFrom::Start(4)).is_ok());
    assert_eq!(map_file.poll_complete(), 4);
    assert!(write_all(&mut map_file, &data));

    let ok = map_file.start_seek(SeekFrom::End(1));
    assert!(ok.is_err());
    let ok = map_file.start_seek(SeekFrom::Current(22));
    assert!(ok.is_ok());

    let buf = &map_file.map()[4..10];
    assert_eq!(buf, &data);
}

#[test]
fn write_is_cut_at_the_length() {
    let mut file = mapped(32, 8);
    assert_eq!(file.poll_write(&[7; 5]), 5);
    assert_eq!(file.poll_write(&[9; 5]), 3);
    assert_eq!(file.poll_write(&[1; 5]), 0);
    assert_eq!(file.poll_complete(), 8);
    assert_eq!(&file.map()[..], &[
        7, 7, 7, 7, 7, 9, 9, 9, 0, 0, 0, 0, 0, 0, 0, 0, 0, 0, 0, 0, 0, 0, 0, 0, 0, 0, 0, 0, 0, 0, 0, 0,
    ]);
}

#[test]
fn two_writes_do_what_one_does() {
    let mut two = mapped(16, 10);
    two.poll_write(&[1, 2, 3]);
    two.poll_write(&[4, 5, 6, 7, 8, 9, 10, 11]);
    let mut one = mapped(16, 10);
    one.poll_write(&[1, 2, 3, 4, 5, 6, 7, 8, 9, 10, 11]);
    assert_eq!(&two.map()[..], &one.map()[..]);
    assert_eq!(two.poll_complete(), one.poll_complete());
}

#[test]
fn seeks_from_everywhere() {
    let mut file = mapped(32, 20);
    assert_eq!(file.start_seek(SeekFrom::Start(20)), Ok(()));
    assert_eq!(file.poll_complete(), 20);
    assert_eq!(file.start_seek(SeekFrom::Start(21)), Err(SeekError::OutOfRange));
    assert_eq!(file.poll_complete(), 20);
    assert_eq!(file.start_seek(SeekFrom::End(0)), Ok(()));
    assert_eq!(file.poll_complete(), 20);
    assert_eq!(file.start_seek(SeekFrom::End(-20)), Ok(()));
    assert_eq!(file.poll_complete(), 0);
    assert_eq!(file.start_seek(SeekFrom::End(-21)), Err(SeekError::OutOfRange));
    assert_eq!(file.start_seek(SeekFrom::End(i64::MIN)), Err(SeekError::OutOfRange));
    assert_eq!(file.start_seek(SeekFrom::End(i64::MAX)), Err(SeekError::OutOfRange));
    assert_eq!(file.start_seek(SeekFrom::Current(5)), Ok(()));
    assert_eq!(file.start_seek(SeekFrom::Current(-6)), Err(SeekError::OutOfRange));
    assert_eq!(file.poll_complete(), 5);
    assert_eq!(file.start_seek(SeekFrom::Current(-2)), Ok(()));
    assert_eq!(file.poll_complete(), 3);
    assert_eq!(file.start_seek(SeekFrom::Current(i64::MIN)), Err(SeekError::OutOfRange));
}

#[test]
fn seek_from_the_position_can_leave_the_file() {
    let mut file = mapped(32, 20);
    assert_eq!(file.start_seek(SeekFrom::Current(21)), Ok(()));
    assert!(!file.is_writable());
    assert_eq!(file.start_seek(SeekFrom::Current(-1)), Ok(()));
    assert!(file.is_writable());
    assert_eq!(file.start_seek(SeekFrom::Current(i64::MAX)), Ok(()));
    assert_eq!(file.poll_complete(), 20 + i64::MAX as u64);
    assert_eq!(file.start_seek(SeekFrom::Current(i64::MAX)), Err(SeekError::OutOfRange));
    assert_eq!(file.poll_complete(), 20 + i64::MAX as u64);
}

#[test]
fn flush_covers_what_was_written() {
    let mut file = mapped(32, 32);
    assert_eq!(file.flush_range(), (0, 0));
    file.poll_write(&[1; 7]);
    assert_eq!(file.flush_range(), (0, 7));
    file.flushed();
    assert_eq!(file.flush_range(), (7, 0));
    file.poll_write(&[1; 3]);
    assert_eq!(file.flush_range(), (7, 3));
    assert_eq!(file.start_seek(SeekFrom::Start(2)), Ok(()));
    assert_eq!(file.flush_range(), (2, 0));
    file.poll_write(&[1; 1]);
    assert_eq!(file.start_seek(SeekFrom::Start(33)), Err(SeekError::OutOfRange));
    assert_eq!(file.flush_range(), (2, 1));
}

#[test]
fn file_has_to_fit_the_map() {
    assert!(MapFile::try_new(MmapMut::map_anon(32).unwrap(), 32).is_some());
    assert!(MapFile::try_new(MmapMut::map_anon(32).unwrap(), 33).is_none());
}
