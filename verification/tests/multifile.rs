use exact_reader::File;
use exact_reader::MultiFile;
use exact_reader::SeekFrom;

fn new_file() -> MultiFile {
    let a = File::new(vec![1u8, 2, 3], "cursor".to_string());
    let b = File::new(vec![4u8, 5, 6], "cursor".to_string());
    MultiFile::new(vec![a, b])
}

#[test]
fn test_read1() {
    let a = File::new(vec![1u8, 2, 3], "cursor".to_string());
    let mut file = MultiFile::new(vec![a]);

    {
        let mut buf = vec![0u8; 2];
        let _ = file.seek(SeekFrom::End(-2));

        let _ = file.read(&mut buf);
        assert_eq!(buf, vec![2, 3])
    }
}

#[test]
fn test_read2() {
    let mut file = new_file();

    {
        let mut buf = vec![0u8; 3];
        file.read(&mut buf);
        assert_eq!(buf, vec![1, 2, 3])
    }

    {
        let mut buf = vec![0u8; 1];
        file.read(&mut buf);
        assert_eq!(buf, vec![4])
    }

    {
        let mut buf = vec![0u8; 5];
        file.read(&mut buf);
        assert_eq!(buf, vec![5, 6, 0, 0, 0])
    }
}

#[test]
fn multifile_test_seek() {
    let mut file = new_file();

    {
        let mut buf = vec![0u8; 1];

        let _ = file.seek(SeekFrom::Start(3));

        let _ = file.read(&mut buf);
        assert_eq!(buf, vec![4])
    }

    {
        let mut buf = vec![0u8; 1];

        let _ = file.seek(SeekFrom::Current(0));

        let _ = file.read(&mut buf);
        assert_eq!(buf, vec![5])
    }
    {
        let mut buf = vec![0u8; 2];

        let _ = file.seek(SeekFrom::Current(-1));

        let _ = file.read(&mut buf);
        assert_eq!(buf, vec![5, 6])
    }

    {
        let mut buf = vec![0u8; 5];

        let _ = file.seek(SeekFrom::Start(0));

        let _ = file.read(&mut buf);
        assert_eq!(buf, vec![1, 2, 3, 4, 5])
    }
}

#[test]
fn test_seek2() {
    let mut file = new_file();

    {
        let mut buf = vec![0u8; 1];

        let _ = file.seek(SeekFrom::Start(0));

        let _ = file.read(&mut buf);
        assert_eq!(buf, vec![1])
    }

    {
        let mut buf = vec![0u8; 2];

        let _ = file.seek(SeekFrom::Start(0));

        let _ = file.read(&mut buf);
        assert_eq!(buf, vec![1, 2])
    }
}

#[test]
fn test_read() {
    let mut file = new_file();

    {
        let mut buf = vec![0u8; 3];
        file.read(&mut buf);
        assert_eq!(buf, vec![1, 2, 3])
    }

    {
        let mut buf = vec![0u8; 1];
        file.read(&mut buf);
        assert_eq!(buf, vec![4])
    }

    {
        let mut buf = vec![0u8; 5];
        file.read(&mut buf);
        assert_eq!(buf, vec![5, 6, 0, 0, 0])
    }
}

#[test]
fn multifile_reader_test_seek() {
    let mut file = new_file();

    {
        let mut buf = vec![0u8; 1];

        let _ = file.seek(SeekFrom::Start(3));

        file.read(&mut buf);
        assert_eq!(buf, vec![4])
    }

    {
        let mut buf = vec![0u8; 2];

        let _ = file.seek(SeekFrom::Current(-1));

        file.read(&mut buf);
        assert_eq!(buf, vec![4, 5])
    }

    {
        let mut buf = vec![0u8; 5];

        let _ = file.seek(SeekFrom::Start(0));

        file.read(&mut buf);
        assert_eq!(buf, vec![1, 2, 3, 4, 5])
    }
}

#[test]
fn multifile_read_returns_count_and_short_reads_at_end() {
    let mut file = new_file();
    assert_eq!(file.size(), 6);

    let mut buf = vec![0u8; 4];
    let n = file.read(&mut buf);
    assert_eq!(n, 4);
    assert_eq!(buf, vec![1, 2, 3, 4]);
    assert_eq!(file.stream_position(), 4);

    let mut buf = vec![9u8; 4];
    let n = file.read(&mut buf);
    assert_eq!(n, 2);
    assert_eq!(buf, vec![5, 6, 9, 9]);
    assert_eq!(file.stream_position(), 6);

    let mut buf = vec![7u8; 2];
    let n = file.read(&mut buf);
    assert_eq!(n, 0);
    assert_eq!(buf, vec![7, 7]);
}

#[test]
fn multifile_seek_negative_is_an_error() {
    let mut file = new_file();
    let r = file.seek(SeekFrom::End(-7));
    assert_eq!(r, Err(exact_reader::SeekError::NegativePosition));
    let r = file.seek(SeekFrom::Current(-1));
    assert_eq!(r, Err(exact_reader::SeekError::NegativePosition));
    assert_eq!(file.stream_position(), 0);

    let r = file.seek(SeekFrom::End(0));
    assert_eq!(r, Ok(6));
    assert_eq!(file.stream_position(), 6);
}

#[test]
fn file_read_and_seek_like_a_cursor() {
    let mut f = File::new(vec![10u8, 20, 30, 40], "one".to_string());
    assert_eq!(f.size(), 4);
    assert_eq!(f.filename().as_str(), "one");

    let mut buf = vec![0u8; 2];
    let n = f.read(&mut buf);
    assert_eq!(n, 2);
    assert_eq!(buf, vec![10, 20]);
    assert_eq!(f.position(), 2);

    let r = f.seek(SeekFrom::End(-1));
    assert_eq!(r, Ok(3));
    let n = f.read(&mut buf);
    assert_eq!(n, 1);
    assert_eq!(buf, vec![40, 20]);

    let r = f.seek(SeekFrom::Start(9));
    assert_eq!(r, Ok(9));
    let n = f.read(&mut buf);
    assert_eq!(n, 0);
}
