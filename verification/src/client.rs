//! The client side: interpret the response frame of each remote call.
//!
//! Expected absence (a file, chunk or key the remote does not have) maps
//! to `None`; a remote error of any other kind, or a frame of the wrong
//! kind, is a hard error.

use vstd::prelude::*;

use crate::protocol::{peer_models, Command, CommandModel, ErrorCode, FileInfo, Peer};

verus! {

/// Why a remote call failed.
#[derive(Debug, PartialEq, Eq, Clone, Copy, Structural)]
pub enum RpcError {
    /// The remote answered with this error kind.
    Remote(ErrorCode),
    /// The remote answered with a frame of the wrong kind.
    WrongCommand,
}

/// The peers of a find-node response.
pub fn interpret_find_node_response(c: Command) -> (r: Result<Vec<Peer>, RpcError>)
    ensures
        match r {
            Ok(ps) => (c@ matches CommandModel::FindNodeResponse(m) && peer_models(ps@) == m),
            Err(e) => !(c@ is FindNodeResponse) && e == spec_rpc_error(c@),
        },
{
    match c {
        Command::FindNodeResponse(ps) => Ok(ps),
        Command::ErrorOccured(e) => Err(RpcError::Remote(e)),
        _ => Err(RpcError::WrongCommand),
    }
}

/// The error an unexpected frame maps to.
pub open spec fn spec_rpc_error(c: CommandModel) -> RpcError {
    match c {
        CommandModel::ErrorOccured(e) => RpcError::Remote(e),
        _ => RpcError::WrongCommand,
    }
}

/// The responder's identifier out of a ping response.
pub fn interpret_ping_response(c: Command) -> (r: Result<u32, RpcError>)
    ensures
        match r {
            Ok(id) => c@ == CommandModel::PingResponse(id),
            Err(e) => !(c@ is PingResponse) && e == spec_rpc_error(c@),
        },
{
    match c {
        Command::PingResponse(id) => Ok(id),
        Command::ErrorOccured(e) => Err(RpcError::Remote(e)),
        _ => Err(RpcError::WrongCommand),
    }
}

/// The plain acknowledgement of a store request.
pub fn interpret_store_response(c: Command) -> (r: Result<(), RpcError>)
    ensures
        match r {
            Ok(_) => c@ == CommandModel::StoreResponse,
            Err(e) => !(c@ is StoreResponse) && e == spec_rpc_error(c@),
        },
{
    match c {
        Command::StoreResponse() => Ok(()),
        Command::ErrorOccured(e) => Err(RpcError::Remote(e)),
        _ => Err(RpcError::WrongCommand),
    }
}

/// The value out of a find-value response; an unknown key is a plain
/// `None`.
pub fn interpret_find_value_response(c: Command) -> (r: Result<Option<String>, RpcError>)
    ensures
        match r {
            Ok(v) => match v {
                Some(s) => (c@ matches CommandModel::FindValueResponse(m) && s@ == m),
                None => c@ == CommandModel::ErrorOccured(ErrorCode::KeyNotFound),
            },
            Err(e) => !(c@ is FindValueResponse) && c@ != CommandModel::ErrorOccured(
                ErrorCode::KeyNotFound,
            ) && e == spec_rpc_error(c@),
        },
{
    match c {
        Command::FindValueResponse(s) => Ok(Some(s)),
        Command::ErrorOccured(e) => {
            if e == ErrorCode::KeyNotFound {
                Ok(None)
            } else {
                Err(RpcError::Remote(e))
            }
        },
        _ => Err(RpcError::WrongCommand),
    }
}

/// The plain acknowledgement of a message.
pub fn interpret_message_response(c: Command) -> (r: Result<(), RpcError>)
    ensures
        match r {
            Ok(_) => c@ == CommandModel::MessageResponse,
            Err(e) => !(c@ is MessageResponse) && e == spec_rpc_error(c@),
        },
{
    match c {
        Command::MessageResponse() => Ok(()),
        Command::ErrorOccured(e) => Err(RpcError::Remote(e)),
        _ => Err(RpcError::WrongCommand),
    }
}

/// The plain acknowledgement of an announcement.
pub fn interpret_announce_response(c: Command) -> (r: Result<(), RpcError>)
    ensures
        match r {
            Ok(_) => c@ == CommandModel::AnnounceResponse,
            Err(e) => !(c@ is AnnounceResponse) && e == spec_rpc_error(c@),
        },
{
    match c {
        Command::AnnounceResponse() => Ok(()),
        Command::ErrorOccured(e) => Err(RpcError::Remote(e)),
        _ => Err(RpcError::WrongCommand),
    }
}

/// The owners out of a get-peers response; an unknown file is a plain
/// `None`.
pub fn interpret_get_peers_response(c: Command) -> (r: Result<Option<Vec<Peer>>, RpcError>)
    ensures
        match r {
            Ok(v) => match v {
                Some(ps) => (c@ matches CommandModel::GetPeersResponse(m) && peer_models(ps@)
                    == m),
                None => c@ == CommandModel::ErrorOccured(ErrorCode::FileNotFound),
            },
            Err(e) => !(c@ is GetPeersResponse) && c@ != CommandModel::ErrorOccured(
                ErrorCode::FileNotFound,
            ) && e == spec_rpc_error(c@),
        },
{
    match c {
        Command::GetPeersResponse(ps) => Ok(Some(ps)),
        Command::ErrorOccured(e) => {
            if e == ErrorCode::FileNotFound {
                Ok(None)
            } else {
                Err(RpcError::Remote(e))
            }
        },
        _ => Err(RpcError::WrongCommand),
    }
}

/// The metadata out of a file-info response; an unknown file is a plain
/// `None`.
pub fn interpret_file_info_response(c: Command) -> (r: Result<Option<FileInfo>, RpcError>)
    ensures
        match r {
            Ok(v) => match v {
                Some(fi) => (c@ matches CommandModel::FileInfoResponse(m) && fi@ == m),
                None => c@ == CommandModel::ErrorOccured(ErrorCode::FileNotFound),
            },
            Err(e) => !(c@ is FileInfoResponse) && c@ != CommandModel::ErrorOccured(
                ErrorCode::FileNotFound,
            ) && e == spec_rpc_error(c@),
        },
{
    match c {
        Command::FileInfoResponse(fi) => Ok(Some(fi)),
        Command::ErrorOccured(e) => {
            if e == ErrorCode::FileNotFound {
                Ok(None)
            } else {
                Err(RpcError::Remote(e))
            }
        },
        _ => Err(RpcError::WrongCommand),
    }
}

/// The chunk out of a chunk response; a file or chunk the remote does not
/// have is a plain `None`.
pub fn interpret_chunk_response(c: Command) -> (r: Result<Option<(u32, u32, Vec<u8>)>, RpcError>)
    ensures
        match r {
            Ok(v) => match v {
                Some(t) => c@ == CommandModel::ChunkResponse(t.0, t.1, t.2@),
                None => (c@ == CommandModel::ErrorOccured(ErrorCode::ChunkNotFound) || c@
                    == CommandModel::ErrorOccured(ErrorCode::FileNotFound)),
            },
            Err(e) => !(c@ is ChunkResponse) && c@ != CommandModel::ErrorOccured(
                ErrorCode::ChunkNotFound,
            ) && c@ != CommandModel::ErrorOccured(ErrorCode::FileNotFound) && e == spec_rpc_error(
                c@,
            ),
        },
{
    match c {
        Command::ChunkResponse(crc, chunk_id, bytes) => Ok(Some((crc, chunk_id, bytes))),
        Command::ErrorOccured(e) => {
            if e == ErrorCode::ChunkNotFound || e == ErrorCode::FileNotFound {
                Ok(None)
            } else {
                Err(RpcError::Remote(e))
            }
        },
        _ => Err(RpcError::WrongCommand),
    }
}

} // verus!
