use piretoutpire::chunk_pieces::{ChunkPieces, ChunkRange};
use piretoutpire::file_sharing::{FileSharing, FileSharingMock};

#[test]
fn test_simple_share() {
    let _share = FileSharing::new();
    let _mock = FileSharingMock::new(vec![0, 1, 2, 3, 4]);
}

#[test]
fn test_chunk_pieces() {
    // Only a from-bound at or above the to-bound is accepted.
    assert!(ChunkRange::new(0, 1).is_err());
    let range = ChunkRange::new(3, 1).unwrap();
    assert_eq!((3, 1), range.get());

    let mut pieces = ChunkPieces::new();
    pieces.add(range);
    pieces.add(ChunkRange::new(5, 5).unwrap());
    let all = pieces.iter();
    assert_eq!(2, all.len());
    assert_eq!((3, 1), all[0].get());
    assert_eq!((5, 5), all[1].get());
}
