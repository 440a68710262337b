use vstd::prelude::*;

use crate::rpc::{OperationResp, RespModel, RpcError, RpcResult, PACKET_SIZE};

verus! {

/// Largest chunk one write request carries: a packet less the token and
/// sequence number, the operation tag and the length of the bytes.
pub const MAX_WRITE_BUFFER: usize = PACKET_SIZE - (2 * 8 + 4 + 8);

/// Largest chunk one read request asks for: a packet less the sequence number,
/// the operation and result tags and the length of the bytes.
pub const MAX_READ_BUFFER: usize = PACKET_SIZE - (8 + 4 + 4 + 8);

/// How many times a request is sent before the client gives up.
pub const MAX_ATTEMPTS: usize = 3;

#[derive(Clone, Copy, Debug, PartialEq, Eq, Structural)]
pub enum ClientError {
    Timeout,
    EncodeError,
    DecodeError,
    InvlaidSeq,
    UnknownError,
}

/// What came of one attempt to send a request and receive its answer.
#[derive(Clone, Copy, Debug, PartialEq, Eq, Structural)]
pub enum Attempt {
    /// The request could not be sent.
    SendFailed,
    /// An answer with this sequence number arrived and was decoded.
    Answered(u64),
    /// An answer arrived but could not be decoded.
    Undecodable,
    /// Nothing arrived in time.
    TimedOut,
    /// Receiving failed otherwise.
    Failed,
}

/// What the client does after an attempt.
#[derive(Clone, Copy, Debug, PartialEq, Eq, Structural)]
pub enum Step {
    /// Take the answer.
    Accept,
    /// Give up with this error.
    GiveUp(ClientError),
    /// Send the request again.
    Retry,
}

/// An answer belongs to request `seq` when it carries `seq`, or 0 (the
/// server's answer to a request it could not decode).
pub open spec fn answers(resp_seq: u64, seq: u64) -> bool {
    resp_seq == seq || resp_seq == 0
}

pub open spec fn step_spec(seq: u64, attempt: Attempt) -> Step {
    match attempt {
        Attempt::SendFailed => Step::GiveUp(ClientError::Timeout),
        Attempt::Answered(s) => if answers(s, seq) {
            Step::Accept
        } else {
            Step::GiveUp(ClientError::InvlaidSeq)
        },
        Attempt::Undecodable => Step::GiveUp(ClientError::DecodeError),
        Attempt::TimedOut => Step::Retry,
        Attempt::Failed => Step::GiveUp(ClientError::UnknownError),
    }
}

/// Decides what follows an attempt of request `seq`.
pub fn on_attempt(seq: u64, attempt: Attempt) -> (s: Step)
    ensures
        s == step_spec(seq, attempt),
{
    match attempt {
        Attempt::SendFailed => Step::GiveUp(ClientError::Timeout),
        Attempt::Answered(s) => if s == seq || s == 0 {
            Step::Accept
        } else {
            Step::GiveUp(ClientError::InvlaidSeq)
        },
        Attempt::Undecodable => Step::GiveUp(ClientError::DecodeError),
        Attempt::TimedOut => Step::Retry,
        Attempt::Failed => Step::GiveUp(ClientError::UnknownError),
    }
}

/// An answer is taken exactly when it carries the request's sequence number or
/// 0; any other answer, a late one to an earlier request among them, ends the
/// call with `InvlaidSeq`. The outcome of an answer never depends on anything
/// but the two numbers, and never asks for a retry.
pub proof fn lemma_answer_law(seq: u64, s: u64)
    ensures
        (step_spec(seq, Attempt::Answered(s)) == Step::Accept) <==> (s == seq || s == 0),
        !(s == seq || s == 0) ==> step_spec(seq, Attempt::Answered(s)) == Step::GiveUp(ClientError::InvlaidSeq),
        step_spec(seq, Attempt::Answered(s)) != Step::Retry,
        forall|made: usize|
            1 <= made <= MAX_ATTEMPTS ==> (#[trigger] after_attempt_spec(seq, Attempt::Answered(s), made) == Step::Accept
                <==> (s == seq || s == 0)),
{
}

/// Retries: a request is sent again only after a timeout and only while
/// attempts are left; a timeout on the last allowed attempt gives up with
/// `Timeout`; every other outcome ends the call, the same whatever the attempt.
pub proof fn lemma_retry_law(seq: u64, attempt: Attempt, made: usize, other: usize)
    requires
        1 <= made <= MAX_ATTEMPTS,
        1 <= other <= MAX_ATTEMPTS,
    ensures
        (after_attempt_spec(seq, attempt, made) == Step::Retry) <==> (attempt == Attempt::TimedOut && made < MAX_ATTEMPTS),
        attempt == Attempt::TimedOut && made == MAX_ATTEMPTS ==> after_attempt_spec(seq, attempt, made) == Step::GiveUp(
            ClientError::Timeout,
        ),
        attempt != Attempt::TimedOut ==> after_attempt_spec(seq, attempt, made) == after_attempt_spec(seq, attempt, other),
        attempt == Attempt::SendFailed ==> after_attempt_spec(seq, attempt, made) == Step::GiveUp(ClientError::Timeout),
        attempt == Attempt::Undecodable ==> after_attempt_spec(seq, attempt, made) == Step::GiveUp(ClientError::DecodeError),
        attempt == Attempt::Failed ==> after_attempt_spec(seq, attempt, made) == Step::GiveUp(ClientError::UnknownError),
{
}

/// What `after_attempt` returns.
pub open spec fn after_attempt_spec(seq: u64, attempt: Attempt, made: usize) -> Step {
    if step_spec(seq, attempt) == Step::Retry && made >= MAX_ATTEMPTS {
        Step::GiveUp(ClientError::Timeout)
    } else {
        step_spec(seq, attempt)
    }
}

/// What follows the `made`-th attempt of request `seq`: as `on_attempt`, but
/// a timeout on the last allowed attempt gives up with `Timeout`.
pub fn after_attempt(seq: u64, attempt: Attempt, made: usize) -> (s: Step)
    requires
        1 <= made <= MAX_ATTEMPTS,
    ensures
        s == after_attempt_spec(seq, attempt, made),
{
    let step = on_attempt(seq, attempt);
    match step {
        Step::Retry => if made >= MAX_ATTEMPTS {
            Step::GiveUp(ClientError::Timeout)
        } else {
            Step::Retry
        },
        _ => step,
    }
}

/// The sequence number of the next request, and the one after it.
pub fn take_seq(next: u64) -> (r: (u64, u64))
    requires
        next < u64::MAX,
    ensures
        r == (next, (next + 1) as u64),
{
    (next, next + 1)
}

/// The result of an `open` answer; any other answer is `InvalidResponse`.
pub fn open_response(resp: OperationResp) -> (r: RpcResult<()>)
    ensures
        match resp@ {
            RespModel::Open(x) => r == x,
            _ => r == Err::<(), RpcError>(RpcError::InvalidResponse),
        },
{
    match resp {
        OperationResp::Open(res) => res,
        _ => Err(RpcError::InvalidResponse),
    }
}

/// The result of an `lseek` answer; any other answer is `InvalidResponse`.
pub fn lseek_response(resp: OperationResp) -> (r: RpcResult<u64>)
    ensures
        match resp@ {
            RespModel::Lseek(x) => r == x,
            _ => r == Err::<u64, RpcError>(RpcError::InvalidResponse),
        },
{
    match resp {
        OperationResp::Lseek(res) => res,
        _ => Err(RpcError::InvalidResponse),
    }
}

/// The result of a `chmod` answer; any other answer is `InvalidResponse`.
pub fn chmod_response(resp: OperationResp) -> (r: RpcResult<()>)
    ensures
        match resp@ {
            RespModel::Chmod(x) => r == x,
            _ => r == Err::<(), RpcError>(RpcError::InvalidResponse),
        },
{
    match resp {
        OperationResp::Chmod(res) => res,
        _ => Err(RpcError::InvalidResponse),
    }
}

/// The result of an `unlink` request. The client takes a `Chmod` answer here;
/// the server's `Unlink` answer is reported as `InvalidResponse`.
pub fn unlink_response(resp: OperationResp) -> (r: RpcResult<()>)
    ensures
        match resp@ {
            RespModel::Chmod(x) => r == x,
            _ => r == Err::<(), RpcError>(RpcError::InvalidResponse),
        },
{
    match resp {
        OperationResp::Chmod(res) => res,
        _ => Err(RpcError::InvalidResponse),
    }
}

/// The result of a `rename` request. The client takes an `Open` answer here;
/// the server's `Rename` answer is reported as `InvalidResponse`.
pub fn rename_response(resp: OperationResp) -> (r: RpcResult<()>)
    ensures
        match resp@ {
            RespModel::Open(x) => r == x,
            _ => r == Err::<(), RpcError>(RpcError::InvalidResponse),
        },
{
    match resp {
        OperationResp::Open(res) => res,
        _ => Err(RpcError::InvalidResponse),
    }
}

/// The abstract value of a chunked read.
pub struct ReadModel {
    /// Bytes not asked for yet.
    pub remaining: usize,
    /// Bytes received so far.
    pub data: Seq<u8>,
    /// A short read or an error ended the read early.
    pub finished: bool,
}

/// The next chunk a read asks for, and the read afterwards: none once the read
/// is finished or nothing remains, else as much as remains, up to
/// `MAX_READ_BUFFER`.
pub open spec fn read_next(m: ReadModel) -> (Option<usize>, ReadModel) {
    if m.finished || m.remaining == 0 {
        (None, m)
    } else {
        let k = min(m.remaining, MAX_READ_BUFFER);
        (Some(k), ReadModel { remaining: (m.remaining - k) as usize, ..m })
    }
}

/// Chunked reads ask for the whole length: each chunk asked for is non-empty,
/// at most `MAX_READ_BUFFER`, and short only when it is the last; what
/// remains drops by its size; and nothing is asked for once the read is
/// finished or nothing remains.
pub proof fn lemma_read_chunks(m: ReadModel)
    ensures
        read_next(m).0 is None <==> (m.finished || m.remaining == 0),
        read_next(m).0 is None ==> read_next(m).1 == m,
        read_next(m).0 matches Some(k) ==> 0 < k <= MAX_READ_BUFFER && read_next(m).1.remaining + k == m.remaining && (k
            == MAX_READ_BUFFER || read_next(m).1.remaining == 0) && read_next(m).1.data == m.data
            && read_next(m).1.finished == m.finished,
{
}

/// The next chunk a write sends, and the write afterwards: none once the
/// write is finished or every byte was handed out, else the next bytes, up to
/// `MAX_WRITE_BUFFER` of them.
pub open spec fn write_next(m: WriteModel) -> (Option<Seq<u8>>, WriteModel) {
    if m.finished || m.offset == m.data.len() {
        (None, m)
    } else {
        let end = min((m.data.len() - m.offset) as usize, MAX_WRITE_BUFFER) + m.offset;
        (Some(m.data.subrange(m.offset as int, end)), WriteModel { offset: end as usize, ..m })
    }
}

/// Chunked writes send every byte once, in order: each chunk is the bytes
/// right after those already handed out, non-empty, at most
/// `MAX_WRITE_BUFFER` long and short only when it is the last; and nothing is
/// sent once the write is finished or every byte was handed out.
pub proof fn lemma_write_chunks(m: WriteModel)
    requires
        m.offset <= m.data.len() <= usize::MAX,
    ensures
        write_next(m).0 is None <==> (m.finished || m.offset == m.data.len()),
        write_next(m).0 is None ==> write_next(m).1 == m,
        write_next(m).0 matches Some(c) ==> {
            let m2 = write_next(m).1;
            &&& c.len() == m2.offset - m.offset
            &&& 0 < c.len() <= MAX_WRITE_BUFFER
            &&& m2.offset == m.offset + c.len() <= m.data.len()
            &&& forall|j: int| 0 <= j < c.len() ==> #[trigger] c[j] == m.data[m.offset + j]
            &&& c.len() == MAX_WRITE_BUFFER || m2.offset == m.data.len()
            &&& m2.data == m.data && m2.sum == m.sum && m2.finished == m.finished
        },
{
}

/// A read of many bytes, asked for in chunks of at most `MAX_READ_BUFFER`.
pub struct ReadSession {
    remaining: usize,
    data: Vec<u8>,
    finished: bool,
}

impl View for ReadSession {
    type V = ReadModel;

    closed spec fn view(&self) -> ReadModel {
        ReadModel { remaining: self.remaining, data: self.data@, finished: self.finished }
    }
}

pub open spec fn min(a: usize, b: usize) -> usize {
    if a < b { a } else { b }
}

impl ReadSession {
    pub fn new(len: usize) -> (s: ReadSession)
        ensures
            s@ == (ReadModel { remaining: len, data: seq![], finished: false }),
    {
        let s = ReadSession { remaining: len, data: Vec::new(), finished: false };
        assert(s@.data =~= seq![]);
        s
    }

    /// The size of the next chunk to ask for, if any.
    pub fn next_request(&mut self) -> (r: Option<usize>)
        ensures
            (r, final(self)@) == read_next(old(self)@),
    {
        if self.finished || self.remaining == 0 {
            return None;
        }
        let k = if self.remaining < MAX_READ_BUFFER { self.remaining } else { MAX_READ_BUFFER };
        self.remaining = self.remaining - k;
        Some(k)
    }

    /// Takes the answer to a chunk of `requested` bytes. Returns the final
    /// result when an error ends the read before any byte arrived.
    pub fn on_response(&mut self, requested: usize, resp: OperationResp) -> (r: Option<RpcResult<Vec<u8>>>)
        ensures
            match resp@ {
                RespModel::Read(Ok(buf)) => r is None && final(self)@ == (ReadModel {
                    data: old(self)@.data + buf,
                    finished: old(self)@.finished || buf.len() != requested,
                    ..old(self)@
                }),
                RespModel::Read(Err(e)) => if old(self)@.data.len() == 0 {
                    r matches Some(Err(x)) && x == e && final(self)@ == old(self)@
                } else {
                    r is None && final(self)@ == (ReadModel { finished: true, ..old(self)@ })
                },
                _ => if old(self)@.data.len() == 0 {
                    r matches Some(Err(x)) && x == RpcError::InvalidResponse && final(self)@ == old(self)@
                } else {
                    r is None && final(self)@ == (ReadModel { finished: true, ..old(self)@ })
                },
            },
    {
        match resp {
            OperationResp::Read(Ok(buf)) => {
                let got = buf.len();
                let mut more = buf;
                self.data.append(&mut more);
                if got != requested {
                    self.finished = true;
                }
                None
            },
            OperationResp::Read(Err(e)) => {
                if self.data.len() == 0 {
                    Some(Err(e))
                } else {
                    self.finished = true;
                    None
                }
            },
            _ => {
                if self.data.len() == 0 {
                    Some(Err(RpcError::InvalidResponse))
                } else {
                    self.finished = true;
                    None
                }
            },
        }
    }

    /// The bytes received.
    pub fn finish(self) -> (v: Vec<u8>)
        ensures
            v@ == self@.data,
    {
        self.data
    }
}

/// The abstract value of a chunked write.
pub struct WriteModel {
    pub data: Seq<u8>,
    /// Bytes handed out in chunks so far.
    pub offset: usize,
    /// Bytes the server reported written.
    pub sum: u64,
    /// A short write or an error ended the write early.
    pub finished: bool,
}

/// A write of many bytes, sent in chunks of at most `MAX_WRITE_BUFFER`.
pub struct WriteSession {
    data: Vec<u8>,
    offset: usize,
    sum: u64,
    finished: bool,
}

impl View for WriteSession {
    type V = WriteModel;

    closed spec fn view(&self) -> WriteModel {
        WriteModel { data: self.data@, offset: self.offset, sum: self.sum, finished: self.finished }
    }
}

impl WriteSession {
    pub fn new(data: Vec<u8>) -> (s: WriteSession)
        ensures
            s@ == (WriteModel { data: data@, offset: 0, sum: 0, finished: false }),
    {
        WriteSession { data, offset: 0, sum: 0, finished: false }
    }

    /// The next chunk to send, if any.
    pub fn next_chunk(&mut self) -> (r: Option<Vec<u8>>)
        requires
            old(self)@.offset <= old(self)@.data.len(),
        ensures
            final(self)@.offset <= final(self)@.data.len(),
            final(self)@ == write_next(old(self)@).1,
            match r {
                Some(c) => write_next(old(self)@).0 == Some(c@),
                None => write_next(old(self)@).0 is None,
            },
    {
        if self.finished || self.offset == self.data.len() {
            return None;
        }
        let left = self.data.len() - self.offset;
        let k = if left < MAX_WRITE_BUFFER { left } else { MAX_WRITE_BUFFER };
        let end = self.offset + k;
        let mut chunk: Vec<u8> = Vec::new();
        let mut i = self.offset;
        while i < end
            invariant
                self.offset <= i <= end,
                end <= self.data@.len(),
                chunk@ == self.data@.subrange(self.offset as int, i as int),
            decreases end - i,
        {
            chunk.push(self.data[i]);
            i = i + 1;
            assert(chunk@ =~= self.data@.subrange(self.offset as int, i as int));
        }
        self.offset = end;
        Some(chunk)
    }

    /// Takes the answer to a chunk of `chunk_len` bytes. Returns the final
    /// result when an error ends the write before any byte was written.
    pub fn on_response(&mut self, chunk_len: usize, resp: OperationResp) -> (r: Option<RpcResult<u64>>)
        requires
            resp@ matches RespModel::Write(Ok(val)) ==> old(self)@.sum + val <= u64::MAX,
        ensures
            final(self)@.offset == old(self)@.offset,
            final(self)@.data == old(self)@.data,
            match resp@ {
                RespModel::Write(Ok(val)) => r is None && final(self)@ == (WriteModel {
                    sum: (old(self)@.sum + val) as u64,
                    finished: old(self)@.finished || val != chunk_len,
                    ..old(self)@
                }),
                RespModel::Write(Err(e)) => if old(self)@.sum == 0 {
                    r matches Some(Err(x)) && x == e && final(self)@ == old(self)@
                } else {
                    r is None && final(self)@ == (WriteModel { finished: true, ..old(self)@ })
                },
                _ => if old(self)@.sum == 0 {
                    r matches Some(Err(x)) && x == RpcError::InvalidResponse && final(self)@ == old(self)@
                } else {
                    r is None && final(self)@ == (WriteModel { finished: true, ..old(self)@ })
                },
            },
    {
        match resp {
            OperationResp::Write(Ok(val)) => {
                self.sum = self.sum + val;
                if val != chunk_len as u64 {
                    self.finished = true;
                }
                None
            },
            OperationResp::Write(Err(e)) => {
                if self.sum == 0 {
                    Some(Err(e))
                } else {
                    self.finished = true;
                    None
                }
            },
            _ => {
                if self.sum == 0 {
                    Some(Err(RpcError::InvalidResponse))
                } else {
                    self.finished = true;
                    None
                }
            },
        }
    }

    /// Bytes the server reported written.
    pub fn sum(&self) -> (s: u64)
        ensures
            s == self@.sum,
    {
        self.sum
    }

    /// Whether adding `val` to the written count stays in range.
    pub fn can_add(&self, val: u64) -> (b: bool)
        ensures
            b == (self@.sum + val <= u64::MAX),
    {
        self.sum <= u64::MAX - val
    }
}

} // verus!
