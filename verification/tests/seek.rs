use exact_reader::SeekError;
use exact_reader::SeekFrom;
use exact_reader::calculate_seek;

#[test]
fn calculate_seek_resolves_each_base() {
    assert_eq!(calculate_seek(10, 5, SeekFrom::Start(4)), Ok(4));
    assert_eq!(calculate_seek(10, 5, SeekFrom::End(-3)), Ok(7));
    assert_eq!(calculate_seek(10, 5, SeekFrom::End(2)), Ok(12));
    assert_eq!(calculate_seek(10, 5, SeekFrom::Current(-2)), Ok(3));
    assert_eq!(calculate_seek(10, 5, SeekFrom::Current(0)), Ok(5));
}

#[test]
fn calculate_seek_rejects_negative_positions() {
    assert_eq!(
        calculate_seek(10, 5, SeekFrom::End(-11)),
        Err(SeekError::NegativePosition)
    );
    assert_eq!(
        calculate_seek(10, 5, SeekFrom::Current(-6)),
        Err(SeekError::NegativePosition)
    );
    assert_eq!(
        calculate_seek(10, 5, SeekFrom::Start(u64::MAX)),
        Err(SeekError::NegativePosition)
    );
    assert_eq!(calculate_seek(0, 0, SeekFrom::End(0)), Ok(0));
}
