use piretoutpire::torrent::TorrentFile;

#[test]
fn test_create_metadata_from_one_chunk_file() {
    let data: Vec<u8> = vec![0, 1, 2, 3, 4];
    let torrent = TorrentFile::new(
        "file.torrent".to_owned(),
        "file".to_owned(),
        "file".to_owned(),
        &data,
    )
    .unwrap();
    assert_eq!(1364906956, torrent.metadata.file_crc);
    assert_eq!(5, torrent.metadata.file_size);
    assert_eq!(1048576, torrent.metadata.chunk_size);
    assert_eq!(vec![Some(1364906956)], torrent.metadata.completed_chunks);
}

#[test]
fn test_create_metadata_from_many_chunks_file() {
    let data: Vec<u8> = vec![0, 1, 2, 3, 4];
    let torrent = TorrentFile::new_with_chunk_size(
        "file.torrent".to_owned(),
        "file".to_owned(),
        "file".to_owned(),
        &data,
        1,
    )
    .unwrap();
    assert_eq!(1364906956, torrent.metadata.file_crc);
    assert_eq!(5, torrent.metadata.file_size);
    assert_eq!(1, torrent.metadata.chunk_size);
    assert_eq!(
        vec![
            Some(3523407757),
            Some(2768625435),
            Some(1007455905),
            Some(1259060791),
            Some(3580832660)
        ],
        torrent.metadata.completed_chunks
    );
}

#[test]
fn test_reload_existing_torrent() {
    let data: Vec<u8> = vec![0, 1, 2, 3, 4];
    let torrent = TorrentFile::new(
        "file.torrent".to_owned(),
        "file".to_owned(),
        "file".to_owned(),
        &data,
    )
    .unwrap();

    // Loading checks the data against the recorded whole-file checksum.
    assert!(torrent.metadata.check_file_crc(&data).is_ok());
    assert_eq!(1364906956, torrent.metadata.file_crc);
    assert_eq!(5, torrent.metadata.file_size);
    assert_eq!(1048576, torrent.metadata.chunk_size);
    assert_eq!(vec![Some(1364906956)], torrent.metadata.completed_chunks);
}

#[test]
fn test_reload_existing_torrent_but_invalid_crc_file() {
    let data: Vec<u8> = vec![0, 1, 2, 3, 4];
    let torrent = TorrentFile::new(
        "file.torrent".to_owned(),
        "file".to_owned(),
        "file".to_owned(),
        &data,
    )
    .unwrap();

    // Corrupt the data: reloading must fail on the checksum.
    let tampered: Vec<u8> = vec![4, 2, 1, 1, 1];
    assert!(torrent.metadata.check_file_crc(&tampered).is_err());
}

#[test]
fn test_preallocate_metadata() {
    let torrent = TorrentFile::preallocate(
        "file.torrent".to_owned(),
        "file".to_owned(),
        "file".to_owned(),
        5,
        1364906956,
        2,
    )
    .unwrap();
    assert_eq!(1364906956, torrent.metadata.file_crc);
    assert_eq!(5, torrent.metadata.file_size);
    assert_eq!(2, torrent.metadata.chunk_size);
    assert_eq!(vec![None, None, None], torrent.metadata.completed_chunks);

    // A zero chunk size is refused.
    assert!(TorrentFile::preallocate(
        "file.torrent".to_owned(),
        "file".to_owned(),
        "file".to_owned(),
        5,
        0,
        0
    )
    .is_err());
}

#[test]
fn test_record_chunk() {
    let mut torrent = TorrentFile::preallocate(
        "file.torrent".to_owned(),
        "file".to_owned(),
        "file".to_owned(),
        5,
        1364906956,
        1,
    )
    .unwrap();
    // Recording the first chunk of the known file stores its checksum.
    assert!(torrent.metadata.record_chunk(0, &[0]).is_ok());
    assert_eq!(Some(3523407757), torrent.metadata.completed_chunks[0]);
    // An index outside the chunk list is refused.
    assert!(torrent.metadata.record_chunk(42, &[0]).is_err());
}
