use piretoutpire::file_chunk::{MemoryChunks, DEFAULT_CHUNK_SIZE};

#[test]
fn test_read_one_big_chunk() {
    let data: Vec<u8> = vec![0, 1, 2, 3, 4];
    let mut fc =
        MemoryChunks::open_new(DEFAULT_CHUNK_SIZE, data.len() as u64).expect("store must open");

    fc.write_chunk(0, &data).unwrap();
    let got = fc.read_chunk(0).unwrap();

    assert_eq!(data, got);
}

#[test]
fn test_read_no_remains_chunks() {
    let data: Vec<u8> = vec![0, 1, 2, 3, 4];
    let mut fc = MemoryChunks::open_new(1, data.len() as u64).expect("store must open");

    for (idx, item) in data.iter().enumerate() {
        fc.write_chunk(idx as u64, &[*item]).unwrap();
    }

    for (idx, expected) in data.iter().enumerate() {
        let got = fc.read_chunk(idx as u64).unwrap();
        assert_eq!(vec![*expected], got);
    }
}

#[test]
fn test_read_with_remains_chunks() {
    let data: Vec<u8> = vec![0, 1, 2, 3, 4];
    let mut fc = MemoryChunks::open_new(2, data.len() as u64).expect("store must open");

    fc.write_chunk(0, &data[0..2]).unwrap();
    fc.write_chunk(1, &data[2..4]).unwrap();
    fc.write_chunk(2, &data[4..5]).unwrap();

    assert_eq!(&data[0..2], fc.read_chunk(0).unwrap().as_slice());
    assert_eq!(&data[2..4], fc.read_chunk(1).unwrap().as_slice());
    assert_eq!(&data[4..5], fc.read_chunk(2).unwrap().as_slice());
}

#[test]
fn test_read_existing_file() {
    let data: Vec<u8> = vec![0, 1, 2, 3, 4];

    let stored = {
        let mut fc =
            MemoryChunks::open_new(DEFAULT_CHUNK_SIZE, data.len() as u64).expect("store must open");
        fc.write_chunk(0, &data).unwrap();
        fc.data
    };

    let fc = MemoryChunks::open_existing(DEFAULT_CHUNK_SIZE, stored).expect("store must open");
    let got = fc.read_chunk(0).unwrap();
    assert_eq!(data, got);
}

#[test]
fn test_invalid_init() {
    let fc = MemoryChunks::open_new(DEFAULT_CHUNK_SIZE, 0);
    assert!(fc.is_err());
}

#[test]
fn test_invalid_chunk_index() {
    let data: Vec<u8> = vec![0, 1, 2, 3, 4];
    let mut fc =
        MemoryChunks::open_new(DEFAULT_CHUNK_SIZE, data.len() as u64).expect("store must open");

    let res = fc.write_chunk(42, &data);
    assert!(res.is_err());

    let got = fc.read_chunk(42);
    assert!(got.is_err());

    let res = fc.write_chunk(42, &data);
    assert!(res.is_err());
}

#[test]
fn test_nb_chunks() {
    {
        let fc = MemoryChunks::open_new(DEFAULT_CHUNK_SIZE, 5).expect("store must open");
        assert_eq!(1, fc.nb_chunks());
    }
    {
        let fc = MemoryChunks::open_new(1, 5).expect("store must open");
        assert_eq!(5, fc.nb_chunks());
    }
    {
        let fc = MemoryChunks::open_new(2, 5).expect("store must open");
        assert_eq!(3, fc.nb_chunks());
    }
}

#[test]
fn test_chunking_round_trip() {
    // Writing every chunk of a file and reading them all back yields the
    // original bytes; the last chunk holds the leftover.
    let data: Vec<u8> = (0..23).collect();
    let chunk_size: u64 = 4;
    let mut fc = MemoryChunks::open_new(chunk_size, data.len() as u64).expect("store must open");
    let nb = fc.nb_chunks();
    assert_eq!(6, nb);
    for chunk_id in 0..nb {
        let from = (chunk_id * chunk_size) as usize;
        let to = usize::min(from + chunk_size as usize, data.len());
        fc.write_chunk(chunk_id, &data[from..to]).unwrap();
    }
    let mut rebuilt: Vec<u8> = Vec::new();
    for chunk_id in 0..nb {
        rebuilt.extend(fc.read_chunk(chunk_id).unwrap());
    }
    assert_eq!(data, rebuilt);
    // The last chunk's size is the residue.
    assert_eq!(3, fc.read_chunk(nb - 1).unwrap().len());
}
