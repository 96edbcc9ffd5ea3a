use aicirt::api::{SequenceResult, StorageCmd, StorageOp};
use aicirt::dispatch::{
    epochs_for_ms, json_error, limits_from, pool_sizes, request_op, respond, served_on, Plane,
    RequestOp, ResponseKind, MEGABYTE,
};

#[test]
fn rid_is_echoed() {
    let ok = respond(Some("abc".to_string()), Ok::<u32, String>(5));
    assert_eq!(ok.kind, ResponseKind::Success);
    assert_eq!(ok.kind.as_str(), "ok");
    assert_eq!(ok.rid.as_deref(), Some("abc"));
    assert_eq!(ok.data, Some(5));
    let err = respond::<u32>(Some("x1".to_string()), Err("bad op".to_string()));
    assert_eq!(err.kind.as_str(), "error");
    assert_eq!(err.rid.as_deref(), Some("x1"));
    assert_eq!(err.error.as_deref(), Some("bad op"));
    let none = respond(None, Ok::<u32, String>(1));
    assert!(none.rid.is_none());
}

#[test]
fn json_error_response() {
    let r = json_error::<u32>("expected value".to_string());
    assert_eq!(r.kind.as_str(), "json-error");
    assert!(r.rid.is_none());
    assert!(r.data.is_none());
}

#[test]
fn epochs_and_limits() {
    assert_eq!(epochs_for_ms(50), 51);
    assert_eq!(epochs_for_ms(0), 1);
    assert_eq!(epochs_for_ms(u64::MAX), u64::MAX);
    let l = limits_from(64, 50, 1000).unwrap();
    assert_eq!(l.max_memory_bytes, 64 * MEGABYTE);
    assert_eq!(l.max_step_epochs, 51);
    assert_eq!(l.max_init_epochs, 1001);
    assert!(limits_from(usize::MAX, 1, 1).is_none());
}

#[test]
fn pools() {
    assert_eq!(pool_sizes(8), (4, 7));
    assert_eq!(pool_sizes(1), (0, 0));
    assert_eq!(pool_sizes(16), (8, 14));
    assert_eq!(pool_sizes(usize::MAX).0, usize::MAX / 2);
}

#[test]
fn clone_with_keeps_everything_but_result() {
    let r: SequenceResult<u32> = SequenceResult {
        is_success: false,
        result: Some(3),
        storage: vec![
            StorageCmd::ReadVar { name: "v".to_string() },
            StorageCmd::WriteVar {
                name: "w".to_string(),
                value: vec![1, 2],
                op: StorageOp::Append,
                when_version_is: Some(4),
            },
        ],
        logs: "hello\n".to_string(),
        micros: 51000,
    };
    let c: SequenceResult<String> = r.clone_with(Some("x".to_string()));
    assert!(!c.is_success);
    assert_eq!(c.result.as_deref(), Some("x"));
    assert_eq!(c.logs, "hello\n");
    assert_eq!(c.micros, 51000);
    assert_eq!(c.storage.len(), 2);
    match &c.storage[1] {
        StorageCmd::WriteVar { name, value, op, when_version_is } => {
            assert_eq!(name, "w");
            assert_eq!(value, &vec![1, 2]);
            assert_eq!(*op, StorageOp::Append);
            assert_eq!(*when_version_is, Some(4));
        }
        _ => panic!("a write"),
    }
}

#[test]
fn ops_by_name_and_plane() {
    assert_eq!(request_op(Some("ping")), RequestOp::Ping);
    assert_eq!(request_op(Some("stop")), RequestOp::Stop);
    assert_eq!(request_op(Some("step")), RequestOp::Step);
    assert_eq!(request_op(Some("tokens")), RequestOp::Tokens);
    assert_eq!(request_op(Some("mk_module")), RequestOp::MkModule);
    assert_eq!(request_op(Some("instantiate")), RequestOp::Instantiate);
    assert_eq!(request_op(Some("Step")), RequestOp::Unknown);
    assert_eq!(request_op(None), RequestOp::Unknown);
    assert!(served_on(Plane::Data, RequestOp::Step));
    assert!(!served_on(Plane::Control, RequestOp::Step));
    assert!(served_on(Plane::Control, RequestOp::MkModule));
    assert!(!served_on(Plane::Data, RequestOp::Instantiate));
    assert!(served_on(Plane::Data, RequestOp::Ping));
    assert!(!served_on(Plane::Data, RequestOp::Unknown));
}
