use micro_service_sim::client::{
    after_attempt, chmod_response, lseek_response, on_attempt, take_seq, open_response, rename_response,
    unlink_response, Attempt, ClientError, ReadSession, Step, WriteSession, MAX_READ_BUFFER,
    MAX_WRITE_BUFFER,
};
use micro_service_sim::rpc::{OperationResp, RpcError, PACKET_SIZE};
use micro_service_sim::server::{
    after_open, authorize, chmod_gate, fs_reply, lseek_gate, lseek_reply, open_plan, read_gate,
    read_reply, write_gate, write_reply, CallCache, Mode, OpenFlags, Verdict,
};

#[test]
fn buffer_sizes() {
    assert_eq!(PACKET_SIZE, 4096);
    assert_eq!(MAX_WRITE_BUFFER, 4068);
    assert_eq!(MAX_READ_BUFFER, 4072);
}

#[test]
fn open_modes() {
    let plan = |s: &str| open_plan(&s.to_string());
    assert_eq!(plan("r"), Ok((Mode::Read, OpenFlags { read: true, write: false, append: false, truncate: false, create: false })));
    assert_eq!(plan("r+"), Ok((Mode::ReadAndWrite, OpenFlags { read: true, write: true, append: false, truncate: false, create: false })));
    assert_eq!(plan("w"), Ok((Mode::Write, OpenFlags { read: false, write: true, append: false, truncate: true, create: true })));
    assert_eq!(plan("w+"), Ok((Mode::ReadAndWrite, OpenFlags { read: true, write: true, append: false, truncate: true, create: true })));
    assert_eq!(plan("a"), Ok((Mode::Write, OpenFlags { read: false, write: false, append: true, truncate: false, create: true })));
    assert_eq!(plan("a+"), Ok((Mode::ReadAndWrite, OpenFlags { read: true, write: false, append: true, truncate: false, create: true })));
    assert_eq!(plan("x"), Err(RpcError::InvalidMode));
    assert_eq!(plan(""), Err(RpcError::InvalidMode));
    assert_eq!(plan("rw"), Err(RpcError::InvalidMode));
}

#[test]
fn open_outcome() {
    assert_eq!(after_open(Mode::Write, true), (Some(Mode::Write), Ok(())));
    assert_eq!(after_open(Mode::Write, false), (None, Err(RpcError::Open)));
}

#[test]
fn gates() {
    assert_eq!(read_gate(false, None), Err(RpcError::NoFile));
    assert_eq!(read_gate(true, Some(Mode::Write)), Err(RpcError::InvalidMode));
    assert_eq!(read_gate(true, Some(Mode::ReadAndWrite)), Ok(()));
    assert_eq!(write_gate(false, None), Err(RpcError::NoFile));
    assert_eq!(write_gate(true, Some(Mode::Read)), Err(RpcError::InvalidMode));
    assert_eq!(write_gate(true, Some(Mode::Write)), Ok(()));
    assert_eq!(lseek_gate(false), Err(RpcError::NoFile));
    assert_eq!(lseek_gate(true), Ok(()));
    assert_eq!(chmod_gate(0o7777), Ok(()));
    assert_eq!(chmod_gate(0o10000), Err(RpcError::InvalidMod));
    assert!(authorize(12345));
}

#[test]
fn replies() {
    assert_eq!(read_reply(vec![1, 2, 3, 4], Some(2)), Ok(vec![1, 2]));
    assert_eq!(read_reply(vec![1, 2, 3, 4], None), Err(RpcError::Read));
    assert_eq!(write_reply(17, true), Ok(17));
    assert_eq!(write_reply(17, false), Err(RpcError::Write));
    assert_eq!(lseek_reply(Some(9)), Ok(9));
    assert_eq!(lseek_reply(None), Err(RpcError::Lseek));
    assert_eq!(fs_reply(true, RpcError::Unlink), Ok(()));
    assert_eq!(fs_reply(false, RpcError::Rename), Err(RpcError::Rename));
}

fn is_reply_with(v: &Verdict, seq: u64, expected: &OperationResp) -> bool {
    match v {
        Verdict::Reply(r) => r.seq == seq && format!("{:?}", r.operation) == format!("{:?}", expected),
        _ => false,
    }
}

#[test]
fn cache_replays_skips_and_executes() {
    let mut cache = CallCache::new();
    assert!(matches!(cache.on_request(Some((1, 1))), Verdict::Execute(1)));
    let resp = cache.record(1, OperationResp::Write(Ok(5)));
    assert_eq!(resp.seq, 1);
    assert!(is_reply_with(&cache.on_request(Some((1, 1))), 1, &OperationResp::Write(Ok(5))));
    assert!(matches!(cache.on_request(Some((1, 0))), Verdict::Skip));
    assert!(matches!(cache.on_request(Some((1, 2))), Verdict::Execute(2)));
    assert!(is_reply_with(&cache.on_request(None), 0, &OperationResp::JustErrors(Err(RpcError::DecodeError))));
}

#[test]
fn attempts() {
    assert_eq!(on_attempt(5, Attempt::Answered(5)), Step::Accept);
    assert_eq!(on_attempt(5, Attempt::Answered(0)), Step::Accept);
    assert_eq!(on_attempt(5, Attempt::Answered(4)), Step::GiveUp(ClientError::InvlaidSeq));
    assert_eq!(on_attempt(5, Attempt::Undecodable), Step::GiveUp(ClientError::DecodeError));
    assert_eq!(on_attempt(5, Attempt::TimedOut), Step::Retry);
    assert_eq!(on_attempt(5, Attempt::Failed), Step::GiveUp(ClientError::UnknownError));
    assert_eq!(on_attempt(5, Attempt::SendFailed), Step::GiveUp(ClientError::Timeout));
    assert_eq!(after_attempt(5, Attempt::TimedOut, 1), Step::Retry);
    assert_eq!(after_attempt(5, Attempt::TimedOut, 2), Step::Retry);
    assert_eq!(after_attempt(5, Attempt::TimedOut, 3), Step::GiveUp(ClientError::Timeout));
    assert_eq!(after_attempt(5, Attempt::Answered(5), 3), Step::Accept);
    assert_eq!(take_seq(1), (1, 2));
}

#[test]
fn response_mapping() {
    assert_eq!(open_response(OperationResp::Open(Ok(()))), Ok(()));
    assert_eq!(open_response(OperationResp::Read(Ok(vec![]))), Err(RpcError::InvalidResponse));
    assert_eq!(lseek_response(OperationResp::Lseek(Ok(3))), Ok(3));
    assert_eq!(lseek_response(OperationResp::Open(Ok(()))), Err(RpcError::InvalidResponse));
    assert_eq!(chmod_response(OperationResp::Chmod(Err(RpcError::Chmod))), Err(RpcError::Chmod));
    assert_eq!(unlink_response(OperationResp::Chmod(Ok(()))), Ok(()));
    assert_eq!(unlink_response(OperationResp::Unlink(Ok(()))), Err(RpcError::InvalidResponse));
    assert_eq!(rename_response(OperationResp::Open(Ok(()))), Ok(()));
    assert_eq!(rename_response(OperationResp::Rename(Ok(()))), Err(RpcError::InvalidResponse));
}

#[test]
fn chunked_read_stops_at_short_read() {
    let mut s = ReadSession::new(10000);
    assert_eq!(s.next_request(), Some(4072));
    assert!(s.on_response(4072, OperationResp::Read(Ok(vec![1; 4072]))).is_none());
    assert_eq!(s.next_request(), Some(4072));
    assert!(s.on_response(4072, OperationResp::Read(Ok(vec![2; 4072]))).is_none());
    assert_eq!(s.next_request(), Some(1856));
    assert!(s.on_response(1856, OperationResp::Read(Ok(vec![3; 100]))).is_none());
    assert_eq!(s.next_request(), None);
    let data = s.finish();
    assert_eq!(data.len(), 8244);
    assert_eq!(data[8243], 3);
}

#[test]
fn chunked_read_errors() {
    let mut s = ReadSession::new(5);
    assert_eq!(s.next_request(), Some(5));
    assert_eq!(s.on_response(5, OperationResp::Read(Err(RpcError::NoFile))), Some(Err(RpcError::NoFile)));
    let mut s = ReadSession::new(5);
    s.next_request();
    assert_eq!(s.on_response(5, OperationResp::Open(Ok(()))), Some(Err(RpcError::InvalidResponse)));
    let mut s = ReadSession::new(0);
    assert_eq!(s.next_request(), None);
    assert!(s.finish().is_empty());
}

#[test]
fn chunked_write() {
    let mut s = WriteSession::new(vec![7; 5000]);
    let c = s.next_chunk().unwrap();
    assert_eq!(c.len(), 4068);
    assert!(s.on_response(c.len(), OperationResp::Write(Ok(4068))).is_none());
    let c = s.next_chunk().unwrap();
    assert_eq!(c.len(), 932);
    assert!(s.can_add(932));
    assert!(s.on_response(c.len(), OperationResp::Write(Ok(932))).is_none());
    assert!(s.next_chunk().is_none());
    assert_eq!(s.sum(), 5000);
}

#[test]
fn chunked_write_short_and_errors() {
    let mut s = WriteSession::new(vec![1; 9000]);
    let c = s.next_chunk().unwrap();
    assert!(s.on_response(c.len(), OperationResp::Write(Ok(10))).is_none());
    assert!(s.next_chunk().is_none());
    assert_eq!(s.sum(), 10);
    let mut s = WriteSession::new(vec![1; 10]);
    let c = s.next_chunk().unwrap();
    assert_eq!(s.on_response(c.len(), OperationResp::Write(Err(RpcError::NoFile))), Some(Err(RpcError::NoFile)));
    let mut s = WriteSession::new(vec![]);
    assert!(s.next_chunk().is_none());
    assert_eq!(s.sum(), 0);
}
