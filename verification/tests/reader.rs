use exact_reader::ExactReader;
use exact_reader::File;
use exact_reader::MultiFile;
use exact_reader::SeekError;
use exact_reader::SeekFrom;

fn two_source_reader() -> ExactReader {
    let a = File::new(vec![1u8, 2, 3], "a".to_string());
    let b = File::new(vec![4u8, 5, 6], "b".to_string());
    ExactReader::new_multi(MultiFile::new(vec![a, b]))
}

#[test]
fn reader_round_trip_across_sources() {
    let mut r = two_source_reader();
    assert_eq!(r.size(), 6);

    let mut buf = vec![0u8; 3];
    let n = r.read(&mut buf);
    assert_eq!(n, 3);
    assert_eq!(buf, vec![1, 2, 3]);

    let mut buf = vec![0u8; 1];
    let n = r.read(&mut buf);
    assert_eq!(n, 1);
    assert_eq!(buf, vec![4]);

    let mut buf = vec![0u8; 5];
    let n = r.read(&mut buf);
    assert_eq!(n, 2);
    assert_eq!(buf, vec![5, 6, 0, 0, 0]);
}

#[test]
fn reader_seek_then_read_across_sources() {
    let mut r = two_source_reader();

    let mut buf = vec![0u8; 1];
    assert_eq!(r.seek(SeekFrom::Start(3)), Ok(3));
    let n = r.read(&mut buf);
    assert_eq!(n, 1);
    assert_eq!(buf, vec![4]);

    let mut buf = vec![0u8; 2];
    assert_eq!(r.seek(SeekFrom::Current(-1)), Ok(3));
    let n = r.read(&mut buf);
    assert_eq!(n, 2);
    assert_eq!(buf, vec![4, 5]);

    let mut buf = vec![0u8; 5];
    assert_eq!(r.seek(SeekFrom::Start(0)), Ok(0));
    let n = r.read(&mut buf);
    assert_eq!(n, 5);
    assert_eq!(buf, vec![1, 2, 3, 4, 5]);
}

#[test]
fn reader_seek_near_end_of_single_source() {
    let f = File::new(vec![7u8, 8, 9], "only".to_string());
    let mut r = ExactReader::new_single(f);
    assert_eq!(r.size(), 3);

    assert_eq!(r.seek(SeekFrom::End(-2)), Ok(1));
    let mut buf = vec![0u8; 2];
    let n = r.read(&mut buf);
    assert_eq!(n, 2);
    assert_eq!(buf, vec![8, 9]);
}

#[test]
fn reader_absolute_seek_reports_position() {
    let mut r = two_source_reader();
    let total = r.size() as u64;
    let mut p: u64 = 0;
    while p <= total {
        assert_eq!(r.seek(SeekFrom::Start(p)), Ok(p));
        assert_eq!(r.current_position() as u64, p);
        assert_eq!(r.stream_position(), p);
        p += 1;
    }
}

#[test]
fn reader_current_relative_zero_is_idempotent() {
    let mut r = two_source_reader();
    let mut buf = vec![0u8; 2];
    r.read(&mut buf);
    assert_eq!(r.current_position(), 2);

    assert_eq!(r.seek(SeekFrom::Current(0)), Ok(2));
    assert_eq!(r.current_position(), 2);
    assert_eq!(r.seek(SeekFrom::Current(0)), Ok(2));
    assert_eq!(r.current_position(), 2);

    let n = r.read(&mut buf);
    assert_eq!(n, 2);
    assert_eq!(buf, vec![3, 4]);
}

#[test]
fn reader_sequential_reads_concatenate() {
    let mut pieces = two_source_reader();
    let mut gathered: Vec<u8> = Vec::new();
    for chunk in [1usize, 2, 3] {
        let mut buf = vec![0u8; chunk];
        let n = pieces.read(&mut buf);
        assert_eq!(n, chunk);
        gathered.extend_from_slice(&buf);
    }

    let mut whole = two_source_reader();
    let mut buf = vec![0u8; 6];
    let n = whole.read(&mut buf);
    assert_eq!(n, 6);
    assert_eq!(gathered, buf);
}

#[test]
fn reader_backward_seek_rereads_the_same_bytes() {
    let mut r = two_source_reader();
    let mut first = vec![0u8; 5];
    let n = r.read(&mut first);
    assert_eq!(n, 5);

    assert_eq!(r.seek(SeekFrom::Start(1)), Ok(1));
    let mut again = vec![0u8; 3];
    let n = r.read(&mut again);
    assert_eq!(n, 3);
    assert_eq!(again, first[1..4].to_vec());

    assert_eq!(r.seek(SeekFrom::Start(0)), Ok(0));
    let mut front = vec![0u8; 1];
    let n = r.read(&mut front);
    assert_eq!(n, 1);
    assert_eq!(front, vec![1]);
}

#[test]
fn reader_seek_past_end_reads_nothing() {
    let mut r = two_source_reader();
    assert_eq!(r.seek(SeekFrom::Start(10)), Ok(10));
    assert_eq!(r.current_position(), 10);
    let mut buf = vec![3u8; 2];
    let n = r.read(&mut buf);
    assert_eq!(n, 0);
    assert_eq!(buf, vec![3, 3]);
    assert_eq!(r.current_position(), 10);
}

#[test]
fn reader_negative_seek_is_an_error() {
    let mut r = two_source_reader();
    assert_eq!(r.seek(SeekFrom::End(-7)), Err(SeekError::NegativePosition));
    assert_eq!(r.seek(SeekFrom::Current(-1)), Err(SeekError::NegativePosition));
    assert_eq!(r.current_position(), 0);
}

#[test]
fn reader_reserve_then_short_reads() {
    let mut r = two_source_reader();
    r.reserve(4);
    let mut buf = vec![0u8; 2];
    let n = r.read(&mut buf);
    assert_eq!(n, 2);
    assert_eq!(buf, vec![1, 2]);
    let n = r.read(&mut buf);
    assert_eq!(n, 2);
    assert_eq!(buf, vec![3, 4]);
}

#[test]
fn reader_front_extension_keeps_cached_suffix() {
    let mut r = two_source_reader();
    assert_eq!(r.seek(SeekFrom::Start(3)), Ok(3));
    let mut buf = vec![0u8; 3];
    let n = r.read(&mut buf);
    assert_eq!(n, 3);
    assert_eq!(buf, vec![4, 5, 6]);

    assert_eq!(r.seek(SeekFrom::Start(1)), Ok(1));
    let mut buf = vec![0u8; 4];
    let n = r.read(&mut buf);
    assert_eq!(n, 4);
    assert_eq!(buf, vec![2, 3, 4, 5]);
}
