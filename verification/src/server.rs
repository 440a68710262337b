use vstd::prelude::*;

use crate::rpc::{OperationResp, Response, RpcError, RpcResult};

verus! {

/// How the open file may be used.
#[derive(Clone, Copy, Debug, PartialEq, Eq, Structural)]
pub enum Mode {
    Read,
    Write,
    ReadAndWrite,
}

/// How a file is to be opened.
#[derive(Clone, Copy, Debug, PartialEq, Eq, Structural)]
pub struct OpenFlags {
    pub read: bool,
    pub write: bool,
    pub append: bool,
    pub truncate: bool,
    pub create: bool,
}

pub open spec fn flags(read: bool, write: bool, append: bool, truncate: bool, create: bool) -> OpenFlags {
    OpenFlags { read, write, append, truncate, create }
}

/// The meaning of an `fopen`-style mode string: `r`, `r+`, `w`, `w+`, `a`, `a+`.
pub open spec fn open_plan_spec(mode: Seq<char>) -> Result<(Mode, OpenFlags), RpcError> {
    if mode == seq!['r'] {
        Ok((Mode::Read, flags(true, false, false, false, false)))
    } else if mode == seq!['r', '+'] {
        Ok((Mode::ReadAndWrite, flags(true, true, false, false, false)))
    } else if mode == seq!['w'] {
        Ok((Mode::Write, flags(false, true, false, true, true)))
    } else if mode == seq!['w', '+'] {
        Ok((Mode::ReadAndWrite, flags(true, true, false, true, true)))
    } else if mode == seq!['a'] {
        Ok((Mode::Write, flags(false, false, true, false, true)))
    } else if mode == seq!['a', '+'] {
        Ok((Mode::ReadAndWrite, flags(true, false, true, false, true)))
    } else {
        Err(RpcError::InvalidMode)
    }
}

/// The access mode and open options for a mode string, or `InvalidMode`.
pub fn open_plan(mode_str: &String) -> (r: Result<(Mode, OpenFlags), RpcError>)
    ensures
        r == open_plan_spec(mode_str@),
{
    let r = "r".to_owned();
    let rp = "r+".to_owned();
    let w = "w".to_owned();
    let wp = "w+".to_owned();
    let a = "a".to_owned();
    let ap = "a+".to_owned();
    proof {
        reveal_strlit("r");
        reveal_strlit("r+");
        reveal_strlit("w");
        reveal_strlit("w+");
        reveal_strlit("a");
        reveal_strlit("a+");
        assert(r@ =~= seq!['r']);
        assert(rp@ =~= seq!['r', '+']);
        assert(w@ =~= seq!['w']);
        assert(wp@ =~= seq!['w', '+']);
        assert(a@ =~= seq!['a']);
        assert(ap@ =~= seq!['a', '+']);
    }
    if *mode_str == r {
        Ok((Mode::Read, OpenFlags { read: true, write: false, append: false, truncate: false, create: false }))
    } else if *mode_str == rp {
        Ok((Mode::ReadAndWrite, OpenFlags { read: true, write: true, append: false, truncate: false, create: false }))
    } else if *mode_str == w {
        Ok((Mode::Write, OpenFlags { read: false, write: true, append: false, truncate: true, create: true }))
    } else if *mode_str == wp {
        Ok((Mode::ReadAndWrite, OpenFlags { read: true, write: true, append: false, truncate: true, create: true }))
    } else if *mode_str == a {
        Ok((Mode::Write, OpenFlags { read: false, write: false, append: true, truncate: false, create: true }))
    } else if *mode_str == ap {
        Ok((Mode::ReadAndWrite, OpenFlags { read: true, write: false, append: true, truncate: false, create: true }))
    } else {
        Err(RpcError::InvalidMode)
    }
}

/// After an open with a valid mode: the mode kept, and the answer.
pub fn after_open(mode: Mode, opened: bool) -> (r: (Option<Mode>, RpcResult<()>))
    ensures
        opened ==> r == (Some(mode), Ok::<(), RpcError>(())),
        !opened ==> r == (None::<Mode>, Err::<(), RpcError>(RpcError::Open)),
{
    if opened {
        (Some(mode), Ok(()))
    } else {
        (None, Err(RpcError::Open))
    }
}

/// Whether a read may go ahead: a file must be open, and not write-only.
pub fn read_gate(has_file: bool, mode: Option<Mode>) -> (r: RpcResult<()>)
    requires
        has_file ==> mode is Some,
    ensures
        !has_file ==> r == Err::<(), RpcError>(RpcError::NoFile),
        has_file && mode == Some(Mode::Write) ==> r == Err::<(), RpcError>(RpcError::InvalidMode),
        has_file && mode != Some(Mode::Write) ==> r is Ok,
{
    if !has_file {
        return Err(RpcError::NoFile);
    }
    match mode {
        Some(Mode::Write) => Err(RpcError::InvalidMode),
        _ => Ok(()),
    }
}

/// The answer to a read into `buffer`: the bytes read, or `Read` on failure.
pub fn read_reply(buffer: Vec<u8>, bytes_read: Option<usize>) -> (r: RpcResult<Vec<u8>>)
    requires
        bytes_read matches Some(n) ==> n <= buffer@.len(),
    ensures
        match bytes_read {
            Some(n) => r matches Ok(v) && v@ == buffer@.take(n as int),
            None => r == Err::<Vec<u8>, RpcError>(RpcError::Read),
        },
{
    match bytes_read {
        Some(n) => {
            let mut out: Vec<u8> = Vec::new();
            let mut k: usize = 0;
            while k < n
                invariant
                    0 <= k <= n,
                    n <= buffer@.len(),
                    out@ == buffer@.take(k as int),
                decreases n - k,
            {
                out.push(buffer[k]);
                k = k + 1;
                assert(out@ =~= buffer@.take(k as int));
            }
            Ok(out)
        },
        None => Err(RpcError::Read),
    }
}

/// Whether a write may go ahead: a file must be open, and not read-only.
pub fn write_gate(has_file: bool, mode: Option<Mode>) -> (r: RpcResult<()>)
    requires
        has_file ==> mode is Some,
    ensures
        !has_file ==> r == Err::<(), RpcError>(RpcError::NoFile),
        has_file && mode == Some(Mode::Read) ==> r == Err::<(), RpcError>(RpcError::InvalidMode),
        has_file && mode != Some(Mode::Read) ==> r is Ok,
{
    if !has_file {
        return Err(RpcError::NoFile);
    }
    match mode {
        Some(Mode::Read) => Err(RpcError::InvalidMode),
        _ => Ok(()),
    }
}

/// The answer to a write of `len` bytes: the count, or `Write` on failure.
pub fn write_reply(len: usize, written: bool) -> (r: RpcResult<u64>)
    ensures
        written ==> r == Ok::<u64, RpcError>(len as u64),
        !written ==> r == Err::<u64, RpcError>(RpcError::Write),
{
    if written {
        Ok(len as u64)
    } else {
        Err(RpcError::Write)
    }
}

/// Whether a seek may go ahead: a file must be open.
pub fn lseek_gate(has_file: bool) -> (r: RpcResult<()>)
    ensures
        !has_file ==> r == Err::<(), RpcError>(RpcError::NoFile),
        has_file ==> r is Ok,
{
    if has_file {
        Ok(())
    } else {
        Err(RpcError::NoFile)
    }
}

/// The answer to a seek: the new position, or `Lseek` on failure.
pub fn lseek_reply(position: Option<u64>) -> (r: RpcResult<u64>)
    ensures
        match position {
            Some(p) => r == Ok::<u64, RpcError>(p),
            None => r == Err::<u64, RpcError>(RpcError::Lseek),
        },
{
    match position {
        Some(p) => Ok(p),
        None => Err(RpcError::Lseek),
    }
}

/// Largest permission value `chmod` accepts.
pub const MAX_PERMISSIONS: u32 = 0o7777;

/// Whether a permission value is acceptable.
pub fn chmod_gate(permissions: u32) -> (r: RpcResult<()>)
    ensures
        permissions > MAX_PERMISSIONS ==> r == Err::<(), RpcError>(RpcError::InvalidMod),
        permissions <= MAX_PERMISSIONS ==> r is Ok,
{
    if permissions > MAX_PERMISSIONS {
        Err(RpcError::InvalidMod)
    } else {
        Ok(())
    }
}

/// The answer to a file-system call that succeeded or failed with `error`.
pub fn fs_reply(succeeded: bool, error: RpcError) -> (r: RpcResult<()>)
    ensures
        succeeded ==> r == Ok::<(), RpcError>(()),
        !succeeded ==> r == Err::<(), RpcError>(error),
{
    if succeeded {
        Ok(())
    } else {
        Err(error)
    }
}

/// Which tokens the server accepts: every token, for now.
pub open spec fn authorized(auth_token: u64) -> bool {
    true
}

/// Whether a client may use the server.
pub fn authorize(auth_token: u64) -> (b: bool)
    ensures
        b == authorized(auth_token),
{
    true
}

/// What the server does with an incoming datagram.
pub enum Verdict {
    /// Send this response.
    Reply(Response),
    /// Drop the request: a later one has been served already.
    Skip,
    /// Run the request's operation, then `record` its answer.
    Execute(u64),
}

/// The abstract value of a verdict.
pub enum VerdictModel {
    Reply(u64, crate::rpc::RespModel),
    Skip,
    Execute(u64),
}

impl View for Verdict {
    type V = VerdictModel;

    open spec fn view(&self) -> VerdictModel {
        match self {
            Verdict::Reply(r) => VerdictModel::Reply(r.seq, r.operation@),
            Verdict::Skip => VerdictModel::Skip,
            Verdict::Execute(s) => VerdictModel::Execute(*s),
        }
    }
}

/// The answer to the last operation run, kept so that a repeated request is
/// answered without running it again.
pub struct CallCache {
    last_call: Option<(u64, OperationResp)>,
}

impl View for CallCache {
    type V = Option<(u64, crate::rpc::RespModel)>;

    closed spec fn view(&self) -> Option<(u64, crate::rpc::RespModel)> {
        match self.last_call {
            Some((s, r)) => Some((s, r@)),
            None => None,
        }
    }
}

/// The verdict on a request: `decoded` holds its token and sequence number, or
/// is `None` when the datagram could not be decoded.
pub open spec fn verdict_spec(cache: Option<(u64, crate::rpc::RespModel)>, decoded: Option<(u64, u64)>) -> VerdictModel {
    match decoded {
        None => VerdictModel::Reply(0, crate::rpc::RespModel::JustErrors(Err(RpcError::DecodeError))),
        Some((token, seq)) => if !authorized(token) {
            VerdictModel::Reply(seq, crate::rpc::RespModel::JustErrors(Err(RpcError::UnauthorizedAccess)))
        } else {
            match cache {
            Some((last_seq, last_resp)) => if last_seq > seq {
                VerdictModel::Skip
            } else if last_seq == seq {
                VerdictModel::Reply(seq, last_resp)
            } else {
                VerdictModel::Execute(seq)
            },
            None => VerdictModel::Execute(seq),
            }
        },
    }
}

/// A request repeated after its answer was recorded gets that answer again,
/// without the operation being run again; an older request is dropped, and a
/// newer one is run.
pub proof fn lemma_replay(seq: u64, resp: crate::rpc::RespModel, token: u64, next: u64)
    requires
        authorized(token),
    ensures
        verdict_spec(Some((seq, resp)), Some((token, seq))) == VerdictModel::Reply(seq, resp),
        next < seq ==> verdict_spec(Some((seq, resp)), Some((token, next))) == VerdictModel::Skip,
        next > seq ==> verdict_spec(Some((seq, resp)), Some((token, next))) == VerdictModel::Execute(next),
{
}

impl CallCache {
    pub fn new() -> (c: CallCache)
        ensures
            c@ is None,
    {
        CallCache { last_call: None }
    }

    /// Decides what to do with a request.
    pub fn on_request(&self, decoded: Option<(u64, u64)>) -> (v: Verdict)
        ensures
            v@ == verdict_spec(self@, decoded),
    {
        match decoded {
            None => Verdict::Reply(
                Response { seq: 0, operation: OperationResp::JustErrors(Err(RpcError::DecodeError)) },
            ),
            Some((token, seq)) => {
                if !authorize(token) {
                    return Verdict::Reply(
                        Response { seq, operation: OperationResp::JustErrors(Err(RpcError::UnauthorizedAccess)) },
                    );
                }
                match &self.last_call {
                    Some((last_seq, last_resp)) => {
                        if *last_seq > seq {
                            Verdict::Skip
                        } else if *last_seq == seq {
                            Verdict::Reply(Response { seq, operation: last_resp.duplicate() })
                        } else {
                            Verdict::Execute(seq)
                        }
                    },
                    None => Verdict::Execute(seq),
                }
            },
        }
    }

    /// Keeps the answer to operation `seq` and returns the response to send.
    pub fn record(&mut self, seq: u64, resp: OperationResp) -> (r: Response)
        ensures
            final(self)@ == Some((seq, resp@)),
            r.seq == seq,
            r.operation@ == resp@,
    {
        let copy = resp.duplicate();
        self.last_call = Some((seq, resp));
        Response { seq, operation: copy }
    }
}

} // verus!
