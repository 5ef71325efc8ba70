use memmap2::MmapMut;
use rapiddb::errors::{Error, MMAVError};
use rapiddb::mmav_unit::{MMAVUnit, DATA_START, MAX_RECORDS_PER_SEGMENT, SEGMENT_SIZE};

fn fresh() -> MMAVUnit {
    let map = MmapMut::map_anon(SEGMENT_SIZE).unwrap();
    MMAVUnit::new(map, false, DATA_START).ok().unwrap()
}

fn le(v: u32) -> [u8; 4] {
    v.to_le_bytes()
}

#[test]
fn fresh_segment_is_empty() {
    let unit = fresh();
    assert_eq!(unit.len(), 0);
    assert_eq!(unit.last(), Vec::<u8>::new());
    assert_eq!(unit.get(0).err(), Some(MMAVError::ArrayEmpty));
    assert_eq!(unit.byte_len(), SEGMENT_SIZE);
}

#[test]
fn push_then_get_round_trip() {
    let mut unit = fresh();
    let data = b"{\"key\":\"value\"}";
    assert!(unit.push(data).is_ok());
    assert_eq!(unit.len(), 1);
    assert_eq!(unit.get(0).ok().unwrap(), data.to_vec());
    assert_eq!(unit.last(), data.to_vec());
    assert!(unit.push(b"second").is_ok());
    assert_eq!(unit.get(1).ok().unwrap(), b"second".to_vec());
    assert_eq!(unit.get(0).ok().unwrap(), data.to_vec());
    assert_eq!(unit.last(), b"second".to_vec());
}

#[test]
fn get_reports_out_of_bounds_and_out_of_range() {
    let mut unit = fresh();
    unit.push(b"a").ok().unwrap();
    assert_eq!(unit.get(1).err(), Some(MMAVError::IndexOutOfBounds));
    assert_eq!(unit.get(10_000).err(), Some(MMAVError::IndexOutOfRange));
    assert_eq!(unit.get(9_999).err(), Some(MMAVError::IndexOutOfBounds));
}

#[test]
fn header_and_index_are_little_endian() {
    let mut unit = fresh();
    unit.push(b"abc").ok().unwrap();
    let map = unit.into_map();
    let start = DATA_START as u32;
    assert_eq!(map[0..4], le(start + 3));
    assert_eq!(map[4..8], le(16));
    assert_eq!(map[8..12], le(start));
    assert_eq!(map[12..16], le(start + 3));
    assert_eq!(&map[DATA_START..DATA_START + 3], b"abc");
}

#[test]
fn record_filling_the_data_region_fits() {
    let mut unit = fresh();
    let big = vec![7u8; SEGMENT_SIZE - DATA_START];
    assert!(unit.push(&big).is_ok());
    assert_eq!(unit.len(), 1);
    assert_eq!(unit.get(0).ok().unwrap().len(), SEGMENT_SIZE - DATA_START);
    assert_eq!(unit.push(b"x").err(), Some(MMAVError::FileFull));
    assert_eq!(unit.len(), 1);
}

#[test]
fn oversize_record_is_refused_whole() {
    let mut unit = fresh();
    let big = vec![1u8; SEGMENT_SIZE - DATA_START + 1];
    assert_eq!(unit.push(&big).err(), Some(MMAVError::FileFull));
    assert_eq!(unit.len(), 0);
    assert_eq!(unit.last(), Vec::<u8>::new());
}

#[test]
fn segment_holds_at_most_max_records() {
    let mut unit = fresh();
    for i in 0..MAX_RECORDS_PER_SEGMENT {
        assert!(unit.push(&[(i % 256) as u8]).is_ok());
    }
    assert_eq!(unit.len(), MAX_RECORDS_PER_SEGMENT);
    assert_eq!(unit.push(b"y").err(), Some(MMAVError::ArrayFull));
    assert_eq!(unit.len(), MAX_RECORDS_PER_SEGMENT);
    assert_eq!(unit.get(9_999).ok().unwrap(), vec![(9_999 % 256) as u8]);
}

#[test]
fn reopening_the_same_bytes_restores_the_records() {
    let mut unit = fresh();
    unit.push(b"A").ok().unwrap();
    unit.push(b"BB").ok().unwrap();
    unit.push(b"CCC").ok().unwrap();
    let map = unit.into_map();
    let again = MMAVUnit::new(map, true, DATA_START).ok().unwrap();
    assert_eq!(again.len(), 3);
    assert_eq!(again.get(0).ok().unwrap(), b"A".to_vec());
    assert_eq!(again.get(1).ok().unwrap(), b"BB".to_vec());
    assert_eq!(again.get(2).ok().unwrap(), b"CCC".to_vec());
    assert_eq!(again.last(), b"CCC".to_vec());
}

#[test]
fn reopening_an_unwritten_segment_starts_empty() {
    let map = MmapMut::map_anon(SEGMENT_SIZE).unwrap();
    let mut unit = MMAVUnit::new(map, true, DATA_START).ok().unwrap();
    assert_eq!(unit.len(), 0);
    unit.push(b"first").ok().unwrap();
    assert_eq!(unit.get(0).ok().unwrap(), b"first".to_vec());
}

#[test]
fn corrupt_data_seek_is_refused() {
    let mut map = MmapMut::map_anon(SEGMENT_SIZE).unwrap();
    map[0..4].copy_from_slice(&le(SEGMENT_SIZE as u32 + 1));
    map[4..8].copy_from_slice(&le(8));
    assert_eq!(MMAVUnit::new(map, true, DATA_START).err(), Some(Error::SizeCorrupted));
}

#[test]
fn corrupt_index_seek_is_refused() {
    let mut map = MmapMut::map_anon(SEGMENT_SIZE).unwrap();
    map[0..4].copy_from_slice(&le(DATA_START as u32));
    map[4..8].copy_from_slice(&le(DATA_START as u32 + 8));
    assert_eq!(MMAVUnit::new(map, true, DATA_START).err(), Some(Error::SeekCorrupted));
}

#[test]
fn invalid_index_entry_reads_as_out_of_range() {
    let mut unit = fresh();
    unit.push(b"ok").ok().unwrap();
    let mut map = unit.into_map();
    map[8..12].copy_from_slice(&le(3));
    let again = MMAVUnit::new(map, true, DATA_START).ok().unwrap();
    assert_eq!(again.get(0).err(), Some(MMAVError::IndexOutOfRange));
    assert_eq!(again.last(), Vec::<u8>::new());
}

#[test]
fn map_smaller_than_the_index_is_refused() {
    let map = MmapMut::map_anon(DATA_START - 1).unwrap();
    assert_eq!(MMAVUnit::new(map, false, DATA_START).err(), Some(Error::SizeCorrupted));
}

#[test]
fn error_messages() {
    assert_eq!(MMAVError::FileFull.message(), "File is full");
    assert_eq!(Error::Unavailable.message(), "Segment unavailable");
    assert_eq!(Error::SeekCorrupted.message(), "Seek corrupted");
}
