use vstd::prelude::*;

verus! {

/// Size of a datagram buffer.
pub const PACKET_SIZE: usize = 4096;

/// An operation a client asks the file server to run.
#[derive(Debug)]
pub enum OperationReq {
    /// Open a path with an `fopen`-style mode string.
    Open(String, String),
    /// Read up to this many bytes.
    Read(usize),
    Write(Vec<u8>),
    Lseek(SeekFrom),
    /// Change the permission bits of a path.
    Chmod(String, u16),
    Unlink(String),
    Rename(String, String),
}

pub type RpcResult<T> = Result<T, RpcError>;

/// The server's answer to an operation.
#[derive(Debug)]
pub enum OperationResp {
    Open(RpcResult<()>),
    Read(RpcResult<Vec<u8>>),
    Write(RpcResult<u64>),
    Lseek(RpcResult<u64>),
    Chmod(RpcResult<()>),
    Unlink(RpcResult<()>),
    Rename(RpcResult<()>),
    /// An error that no operation produced (decoding, authorisation).
    JustErrors(RpcResult<()>),
}

#[derive(Debug)]
pub struct Request {
    pub auth_token: u64,
    pub seq: u64,
    pub operation: OperationReq,
}

/// Valid sequence numbers start at 1; sequence number 0 answers a request that
/// could not be decoded.
#[derive(Debug)]
pub struct Response {
    pub seq: u64,
    pub operation: OperationResp,
}

#[derive(Clone, Copy, Debug, PartialEq, Eq, Structural)]
pub enum RpcError {
    InvalidMode,
    Open,
    NoFile,
    Read,
    InvalidBufferSize,
    Write,
    Lseek,
    Chmod,
    InvalidMod,
    Unlink,
    Rename,
    NoInputs,
    UnauthorizedAccess,
    InvalidResponse,
    DecodeError,
    UnknownError,
}

#[derive(Clone, Copy, Debug, PartialEq, Eq, Structural)]
pub enum SeekFrom {
    Start(u64),
    End(u64),
    Current(u64),
}

/// The abstract value of a response: bytes as a sequence.
pub enum RespModel {
    Open(RpcResult<()>),
    Read(RpcResult<Seq<u8>>),
    Write(RpcResult<u64>),
    Lseek(RpcResult<u64>),
    Chmod(RpcResult<()>),
    Unlink(RpcResult<()>),
    Rename(RpcResult<()>),
    JustErrors(RpcResult<()>),
}

impl View for OperationResp {
    type V = RespModel;

    open spec fn view(&self) -> RespModel {
        match self {
            OperationResp::Open(r) => RespModel::Open(*r),
            OperationResp::Read(r) => RespModel::Read(
                match r {
                    Ok(v) => Ok(v@),
                    Err(e) => Err(*e),
                },
            ),
            OperationResp::Write(r) => RespModel::Write(*r),
            OperationResp::Lseek(r) => RespModel::Lseek(*r),
            OperationResp::Chmod(r) => RespModel::Chmod(*r),
            OperationResp::Unlink(r) => RespModel::Unlink(*r),
            OperationResp::Rename(r) => RespModel::Rename(*r),
            OperationResp::JustErrors(r) => RespModel::JustErrors(*r),
        }
    }
}

impl OperationResp {
    /// A copy of this response.
    pub fn duplicate(&self) -> (r: OperationResp)
        ensures
            r@ == self@,
    {
        match self {
            OperationResp::Open(r) => OperationResp::Open(*r),
            OperationResp::Read(r) => OperationResp::Read(
                match r {
                    Ok(v) => {
                        let c = v.clone();
                        assert(c@ =~= v@);
                        Ok(c)
                    },
                    Err(e) => Err(*e),
                },
            ),
            OperationResp::Write(r) => OperationResp::Write(*r),
            OperationResp::Lseek(r) => OperationResp::Lseek(*r),
            OperationResp::Chmod(r) => OperationResp::Chmod(*r),
            OperationResp::Unlink(r) => OperationResp::Unlink(*r),
            OperationResp::Rename(r) => OperationResp::Rename(*r),
            OperationResp::JustErrors(r) => OperationResp::JustErrors(*r),
        }
    }
}

} // verus!
