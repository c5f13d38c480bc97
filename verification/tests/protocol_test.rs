use piretoutpire::protocol::{decode_command, encode_command, Command, ErrorCode, FileInfo, Peer};

#[test]
fn test_file_info_protocol() {
    let file_info = FileInfo {
        file_size: 1234,
        chunk_size: 2,
        file_crc: 3613099103,
        original_filename: "my_file.txt".to_owned(),
    };

    let raw_buf = encode_command(&Command::FileInfoResponse(file_info));
    assert_eq!(
        &[
            0, 0, 4, 210,
            0, 0, 0, 2,
            215, 91, 132, 95,
            0, 0, 0, 11, 109, 121, 95, 102, 105, 108, 101, 46, 116, 120, 116
        ],
        &raw_buf[1..]
    );

    match decode_command(raw_buf.as_slice()).unwrap() {
        Command::FileInfoResponse(decoded) => {
            assert_eq!(1234, decoded.file_size);
            assert_eq!(2, decoded.chunk_size);
            assert_eq!(3613099103, decoded.file_crc);
            assert_eq!("my_file.txt".to_owned(), decoded.original_filename);
        },
        _ => panic!(),
    }
}

#[test]
fn test_peer_protocol() {
    let peer = Peer {
        id: 1234,
        addr: "127.0.0.1:4000".to_owned(),
    };

    let raw_buf = encode_command(&Command::PingRequest(peer.clone()));
    assert_eq!(
        &[
            0, 0, 4, 210,
            0, 0, 0, 14, 49, 50, 55, 46, 48, 46, 48, 46, 49, 58, 52, 48, 48, 48
        ],
        &raw_buf[1..]
    );

    match decode_command(raw_buf.as_slice()).unwrap() {
        Command::PingRequest(decoded) => {
            assert_eq!(1234, decoded.id);
            assert_eq!("127.0.0.1:4000", decoded.addr);
        },
        _ => panic!(),
    }
}

#[test]
fn test_file_info_request_protocol() {
    let cmd = Command::FileInfoRequest(1234);
    let raw_buf = encode_command(&cmd);

    assert_eq!(&[1, 0, 0, 4, 210], raw_buf.as_slice());

    match decode_command(raw_buf.as_slice()).unwrap() {
        Command::FileInfoRequest(crc) => assert_eq!(1234, crc),
        _ => panic!(),
    }
}

#[test]
fn test_file_info_response_protocol() {
    let cmd = Command::FileInfoResponse(FileInfo {
        file_size: 38,
        chunk_size: 42,
        file_crc: 99887766,
        original_filename: "filename".to_owned(),
    });
    let raw_buf = encode_command(&cmd);

    assert_eq!(
        &[
            2,
            0, 0, 0, 38,
            0, 0, 0, 42,
            5, 244, 42, 150,
            0, 0, 0, 8, 102, 105, 108, 101, 110, 97, 109, 101
        ],
        raw_buf.as_slice()
    );

    match decode_command(raw_buf.as_slice()).unwrap() {
        Command::FileInfoResponse(file_info) => {
            assert_eq!(38, file_info.file_size);
            assert_eq!(42, file_info.chunk_size);
            assert_eq!(99887766, file_info.file_crc);
            assert_eq!("filename", file_info.original_filename);
        },
        _ => panic!(),
    }
}

#[test]
fn test_chunk_request_protocol() {
    let cmd = Command::ChunkRequest(1234, 4567);
    let raw_buf = encode_command(&cmd);

    assert_eq!(&[3, 0, 0, 4, 210, 0, 0, 17, 215], raw_buf.as_slice());

    match decode_command(raw_buf.as_slice()).unwrap() {
        Command::ChunkRequest(crc, chunk_id) => {
            assert_eq!(1234, crc);
            assert_eq!(4567, chunk_id);
        },
        _ => panic!(),
    }
}

#[test]
fn test_chunk_response_protocol() {
    let cmd = Command::ChunkResponse(1234, 4567, vec![90, 48, 234]);
    let raw_buf = encode_command(&cmd);

    assert_eq!(
        &[4, 0, 0, 4, 210, 0, 0, 17, 215, 90, 48, 234],
        raw_buf.as_slice()
    );

    match decode_command(raw_buf.as_slice()).unwrap() {
        Command::ChunkResponse(crc, chunk_id, chunk) => {
            assert_eq!(1234, crc);
            assert_eq!(4567, chunk_id);
            assert_eq!(vec![90, 48, 234], chunk);
        },
        _ => panic!(),
    }
}

#[test]
fn test_ping_request_protocol() {
    let peer = Peer {
        id: 1234,
        addr: "127.0.0.1:4000".to_owned(),
    };

    let cmd = Command::PingRequest(peer.clone());
    let raw_buf = encode_command(&cmd);

    assert_eq!(
        &[
            5,
            0, 0, 4, 210,
            0, 0, 0, 14, 49, 50, 55, 46, 48, 46, 48, 46, 49, 58, 52, 48, 48, 48,
        ],
        raw_buf.as_slice()
    );

    match decode_command(raw_buf.as_slice()).unwrap() {
        Command::PingRequest(sender) => {
            assert_eq!(peer, sender);
        },
        _ => panic!(),
    }
}

#[test]
fn test_ping_response_protocol() {
    let cmd = Command::PingResponse(1234);
    let raw_buf = encode_command(&cmd);

    assert_eq!(&[6, 0, 0, 4, 210], raw_buf.as_slice());

    match decode_command(raw_buf.as_slice()).unwrap() {
        Command::PingResponse(target) => {
            assert_eq!(1234, target);
        },
        _ => panic!(),
    }
}

#[test]
fn test_find_node_request_protocol() {
    let peer = Peer {
        id: 1234,
        addr: "127.0.0.1:4000".to_owned(),
    };

    let cmd = Command::FindNodeRequest(peer.clone(), 4567);
    let raw_buf = encode_command(&cmd);

    assert_eq!(
        &[
            9,
            0, 0, 4, 210,
            0, 0, 0, 14, 49, 50, 55, 46, 48, 46, 48, 46, 49, 58, 52, 48, 48, 48,
            0, 0, 17, 215,
        ],
        raw_buf.as_slice()
    );

    match decode_command(raw_buf.as_slice()).unwrap() {
        Command::FindNodeRequest(sender, target) => {
            assert_eq!(peer, sender);
            assert_eq!(4567, target);
        },
        _ => panic!(),
    }
}

#[test]
fn test_find_node_response_protocol() {
    let cmd = Command::FindNodeResponse(vec![Peer {
        id: 1234,
        addr: "127.0.0.1:4000".to_owned(),
    }]);
    let raw_buf = encode_command(&cmd);

    assert_eq!(
        &[
            10,
            0, 0, 0, 1,
            0, 0, 4, 210,
            0, 0, 0, 14, 49, 50, 55, 46, 48, 46, 48, 46, 49, 58, 52, 48, 48, 48
        ],
        raw_buf.as_slice()
    );

    match decode_command(raw_buf.as_slice()).unwrap() {
        Command::FindNodeResponse(peers) => {
            assert_eq!(1, peers.len());
            let peer = &peers[0];
            assert_eq!(1234, peer.id);
            assert_eq!("127.0.0.1:4000", peer.addr);
        },
        _ => panic!(),
    }
}

#[test]
fn test_find_node_list_response_protocol() {
    let cmd = Command::FindNodeResponse(vec![
        Peer {
            id: 1234,
            addr: "127.0.0.1:4000".to_owned(),
        },
        Peer {
            id: 4567,
            addr: "127.0.0.1:5000".to_owned(),
        },
    ]);
    let raw_buf = encode_command(&cmd);

    assert_eq!(
        &[
            10,
            0, 0, 0, 2,
            0, 0, 4, 210,
            0, 0, 0, 14, 49, 50, 55, 46, 48, 46, 48, 46, 49, 58, 52, 48, 48, 48,
            0, 0, 17, 215,
            0, 0, 0, 14, 49, 50, 55, 46, 48, 46, 48, 46, 49, 58, 53, 48, 48, 48
        ],
        raw_buf.as_slice()
    );

    match decode_command(raw_buf.as_slice()).unwrap() {
        Command::FindNodeResponse(peers) => {
            assert_eq!(2, peers.len());
            let peer = &peers[0];
            assert_eq!(1234, peer.id);
            assert_eq!("127.0.0.1:4000", peer.addr);
            let peer = &peers[1];
            assert_eq!(4567, peer.id);
            assert_eq!("127.0.0.1:5000", peer.addr);
        },
        _ => panic!(),
    }
}

#[test]
fn test_store_request_protocol() {
    let peer = Peer {
        id: 1234,
        addr: "127.0.0.1:4000".to_owned(),
    };

    let cmd = Command::StoreRequest(peer.clone(), 666, "hello".to_owned());
    let raw_buf = encode_command(&cmd);

    assert_eq!(
        &[
            7,
            0, 0, 4, 210,
            0, 0, 0, 14, 49, 50, 55, 46, 48, 46, 48, 46, 49, 58, 52, 48, 48, 48,
            0, 0, 2, 154,
            0, 0, 0, 5, 104, 101, 108, 108, 111
        ],
        raw_buf.as_slice()
    );

    match decode_command(raw_buf.as_slice()).unwrap() {
        Command::StoreRequest(sender, key, message) => {
            assert_eq!(peer, sender);
            assert_eq!(666, key);
            assert_eq!("hello", message);
        },
        _ => panic!(),
    }
}

#[test]
fn test_store_response_protocol() {
    let cmd = Command::StoreResponse();
    let raw_buf = encode_command(&cmd);

    assert_eq!(&[8], raw_buf.as_slice());

    match decode_command(raw_buf.as_slice()).unwrap() {
        Command::StoreResponse() => {},
        _ => panic!(),
    }
}

#[test]
fn test_find_value_request_protocol() {
    let peer = Peer {
        id: 1234,
        addr: "127.0.0.1:4000".to_owned(),
    };

    let cmd = Command::FindValueRequest(peer.clone(), 666);
    let raw_buf = encode_command(&cmd);

    assert_eq!(
        &[
            11,
            0, 0, 4, 210,
            0, 0, 0, 14, 49, 50, 55, 46, 48, 46, 48, 46, 49, 58, 52, 48, 48, 48,
            0, 0, 2, 154
        ],
        raw_buf.as_slice()
    );

    match decode_command(raw_buf.as_slice()).unwrap() {
        Command::FindValueRequest(sender, key) => {
            assert_eq!(peer, sender);
            assert_eq!(666, key);
        },
        _ => panic!(),
    }
}

#[test]
fn test_find_value_response_protocol() {
    let cmd = Command::FindValueResponse("hello".to_owned());
    let raw_buf = encode_command(&cmd);

    assert_eq!(&[12, 0, 0, 0, 5, 104, 101, 108, 108, 111], raw_buf.as_slice());

    match decode_command(raw_buf.as_slice()).unwrap() {
        Command::FindValueResponse(message) => {
            assert_eq!("hello", message);
        },
        _ => panic!(),
    }
}

#[test]
fn test_message_request_protocol() {
    let cmd = Command::MessageRequest("hello".to_owned());
    let raw_buf = encode_command(&cmd);

    assert_eq!(&[13, 0, 0, 0, 5, 104, 101, 108, 108, 111], raw_buf.as_slice());

    match decode_command(raw_buf.as_slice()).unwrap() {
        Command::MessageRequest(message) => {
            assert_eq!("hello", message);
        },
        _ => panic!(),
    }
}

#[test]
fn test_message_response_protocol() {
    let cmd = Command::MessageResponse();
    let raw_buf = encode_command(&cmd);

    assert_eq!(&[14], raw_buf.as_slice());

    match decode_command(raw_buf.as_slice()).unwrap() {
        Command::MessageResponse() => {},
        _ => panic!(),
    }
}

#[test]
fn test_announce_request_protocol() {
    let peer = Peer {
        id: 1234,
        addr: "127.0.0.1:4000".to_owned(),
    };

    let cmd = Command::AnnounceRequest(peer.clone(), 4567);
    let raw_buf = encode_command(&cmd);

    assert_eq!(
        &[
            15,
            0, 0, 4, 210,
            0, 0, 0, 14, 49, 50, 55, 46, 48, 46, 48, 46, 49, 58, 52, 48, 48, 48,
            0, 0, 17, 215
        ],
        raw_buf.as_slice()
    );

    match decode_command(raw_buf.as_slice()).unwrap() {
        Command::AnnounceRequest(sender, crc) => {
            assert_eq!(peer, sender);
            assert_eq!(4567, crc);
        },
        _ => panic!(),
    }
}

#[test]
fn test_announce_response_protocol() {
    let cmd = Command::AnnounceResponse();
    let raw_buf = encode_command(&cmd);

    assert_eq!(&[16], raw_buf.as_slice());

    match decode_command(raw_buf.as_slice()).unwrap() {
        Command::AnnounceResponse() => {},
        _ => panic!(),
    }
}

#[test]
fn test_get_peers_request_protocol() {
    let cmd = Command::GetPeersRequest(1234);
    let raw_buf = encode_command(&cmd);

    assert_eq!(&[17, 0, 0, 4, 210], raw_buf.as_slice());

    match decode_command(raw_buf.as_slice()).unwrap() {
        Command::GetPeersRequest(crc) => assert_eq!(1234, crc),
        _ => panic!(),
    }
}

#[test]
fn test_get_peers_response_protocol() {
    let cmd = Command::GetPeersResponse(vec![Peer {
        id: 1234,
        addr: "127.0.0.1:4000".to_owned(),
    }]);
    let raw_buf = encode_command(&cmd);

    assert_eq!(
        &[
            18,
            0, 0, 0, 1,
            0, 0, 4, 210,
            0, 0, 0, 14, 49, 50, 55, 46, 48, 46, 48, 46, 49, 58, 52, 48, 48, 48
        ],
        raw_buf.as_slice()
    );

    match decode_command(raw_buf.as_slice()).unwrap() {
        Command::GetPeersResponse(peers) => {
            assert_eq!(1, peers.len());
            let peer = &peers[0];
            assert_eq!(1234, peer.id);
            assert_eq!("127.0.0.1:4000", peer.addr);
        },
        _ => panic!(),
    }
}

#[test]
fn test_get_peers_list_response_protocol() {
    let cmd = Command::GetPeersResponse(vec![
        Peer {
            id: 1234,
            addr: "127.0.0.1:4000".to_owned(),
        },
        Peer {
            id: 4567,
            addr: "127.0.0.1:5000".to_owned(),
        },
    ]);
    let raw_buf = encode_command(&cmd);

    assert_eq!(
        &[
            18,
            0, 0, 0, 2,
            0, 0, 4, 210,
            0, 0, 0, 14, 49, 50, 55, 46, 48, 46, 48, 46, 49, 58, 52, 48, 48, 48,
            0, 0, 17, 215,
            0, 0, 0, 14, 49, 50, 55, 46, 48, 46, 48, 46, 49, 58, 53, 48, 48, 48
        ],
        raw_buf.as_slice()
    );

    match decode_command(raw_buf.as_slice()).unwrap() {
        Command::GetPeersResponse(peers) => {
            assert_eq!(2, peers.len());
            let peer = &peers[0];
            assert_eq!(1234, peer.id);
            assert_eq!("127.0.0.1:4000", peer.addr);
            let peer = &peers[1];
            assert_eq!(4567, peer.id);
            assert_eq!("127.0.0.1:5000", peer.addr);
        },
        _ => panic!(),
    }
}

#[test]
fn test_error_codes_protocol() {
    for code in [
        ErrorCode::Unknown,
        ErrorCode::FileNotFound,
        ErrorCode::ChunkNotFound,
        ErrorCode::InvalidChunk,
        ErrorCode::KeyNotFound,
    ] {
        let raw_buf = encode_command(&Command::ErrorOccured(code));
        assert_eq!(1, raw_buf.len());
        assert!(raw_buf[0] >= 0x80);
        match decode_command(raw_buf.as_slice()).unwrap() {
            Command::ErrorOccured(decoded) => assert_eq!(code, decoded),
            _ => panic!(),
        }
    }
}

#[test]
fn test_decode_failures() {
    // An empty buffer.
    assert!(decode_command(&[]).is_err());
    // One byte short of each fixed minimum.
    assert!(decode_command(&[1, 0, 0, 4]).is_err());
    assert!(decode_command(&[3, 0, 0, 4, 210, 0, 0, 17]).is_err());
    assert!(decode_command(&[6, 0, 0, 4]).is_err());
    assert!(decode_command(&[17, 0, 0, 4]).is_err());
    // An unassigned opcode.
    assert!(decode_command(&[0x19, 0, 0, 0, 0]).is_err());
    assert!(decode_command(&[0]).is_err());
    // A string length prefix that disagrees with the residue.
    assert!(decode_command(&[13, 0, 0, 0, 9, 104, 105]).is_err());
    // A peer whose address length overruns the buffer.
    assert!(decode_command(&[5, 0, 0, 4, 210, 0, 0, 0, 99, 49]).is_err());
    // A message whose payload is not valid UTF-8.
    assert!(decode_command(&[13, 0, 0, 0, 2, 0xC3, 0x28]).is_err());
}
