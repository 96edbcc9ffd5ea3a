//! The response envelope of both command channels, and the sizes and time
//! budgets the runtime starts with.
use vstd::prelude::*;
use vstd::string::StringExecFns;

verus! {

/// The `type` of a response.
#[derive(Clone, Copy, Debug, PartialEq, Eq, Structural)]
pub enum ResponseKind {
    /// `{"type": "ok", "data": ...}`
    Success,
    /// `{"type": "error", "error": ...}`
    Error,
    /// `{"type": "json-error", "error": ...}`: the request was not JSON.
    JsonError,
}

impl ResponseKind {
    pub fn as_str(&self) -> (r: &'static str)
        ensures
            *self == ResponseKind::Success ==> r@ == "ok"@,
            *self == ResponseKind::Error ==> r@ == "error"@,
            *self == ResponseKind::JsonError ==> r@ == "json-error"@,
    {
        proof {
            reveal_strlit("ok");
            reveal_strlit("error");
            reveal_strlit("json-error");
        }
        match self {
            ResponseKind::Success => "ok",
            ResponseKind::Error => "error",
            ResponseKind::JsonError => "json-error",
        }
    }
}

/// A response on a command channel, carrying the request's `$rid` back.
pub struct Response<D> {
    pub kind: ResponseKind,
    pub data: Option<D>,
    pub error: Option<String>,
    pub rid: Option<String>,
}

pub open spec fn rid_view(rid: Option<String>) -> Option<Seq<char>> {
    match rid {
        Some(s) => Some(s@),
        None => None,
    }
}

/// The response to a request with correlation id `rid` whose handling gave
/// `outcome`; whatever the outcome, the response carries `rid` back unchanged.
pub fn respond<D>(rid: Option<String>, outcome: Result<D, String>) -> (r: Response<D>)
    ensures
        rid_view(r.rid) == rid_view(rid),
        outcome is Ok ==> r.kind == ResponseKind::Success && r.data == Some(outcome->Ok_0) && r.error is None,
        outcome matches Err(e) ==> r.kind == ResponseKind::Error && r.data is None && (r.error matches Some(
            m) && m@ == e@),
{
    match outcome {
        Ok(d) => Response { kind: ResponseKind::Success, data: Some(d), error: None, rid },
        Err(e) => Response { kind: ResponseKind::Error, data: None, error: Some(e), rid },
    }
}

/// The response to a message that is not JSON: it has no `$rid` to echo.
pub fn json_error<D>(message: String) -> (r: Response<D>)
    ensures
        r.kind == ResponseKind::JsonError,
        r.data is None,
        r.error matches Some(m) && m@ == message@,
        r.rid is None,
{
    Response { kind: ResponseKind::JsonError, data: None, error: Some(message), rid: None }
}

/// How often the epoch counter advances, in milliseconds.
pub const WASMTIME_EPOCH_MS: u64 = 1;

pub const MEGABYTE: usize = 1048576;

/// Memory and time limits of every instance.
#[derive(Clone, Copy, Debug, PartialEq, Eq, Structural)]
pub struct AiciLimits {
    pub max_memory_bytes: usize,
    pub max_init_epochs: u64,
    pub max_step_epochs: u64,
}

/// The deadline in epochs for a budget of `ms` milliseconds: one more than
/// the number of whole epochs in it (at most `u64::MAX`).
pub fn epochs_for_ms(ms: u64) -> (r: u64)
    ensures
        ms / WASMTIME_EPOCH_MS < u64::MAX ==> r == ms / WASMTIME_EPOCH_MS + 1,
        ms / WASMTIME_EPOCH_MS == u64::MAX ==> r == u64::MAX,
{
    let q = ms / WASMTIME_EPOCH_MS;
    if q < u64::MAX {
        q + 1
    } else {
        u64::MAX
    }
}

/// The limits for a memory cap of `max_memory_mb` MiB and the given step and
/// init budgets in milliseconds; `None` when the cap does not fit in `usize`.
pub fn limits_from(max_memory_mb: usize, max_step_ms: u64, max_init_ms: u64) -> (r: Option<AiciLimits>)
    ensures
        max_memory_mb * MEGABYTE > usize::MAX ==> r is None,
        max_memory_mb * MEGABYTE <= usize::MAX ==> (r matches Some(l) && l.max_memory_bytes == max_memory_mb
            * MEGABYTE && l.max_init_epochs == (if max_init_ms / WASMTIME_EPOCH_MS < u64::MAX {
            (max_init_ms / WASMTIME_EPOCH_MS + 1) as int
        } else {
            u64::MAX as int
        }) && l.max_step_epochs == (if max_step_ms / WASMTIME_EPOCH_MS < u64::MAX {
            (max_step_ms / WASMTIME_EPOCH_MS + 1) as int
        } else {
            u64::MAX as int
        })),
{
    if max_memory_mb > usize::MAX / MEGABYTE {
        proof {
            assert(max_memory_mb * MEGABYTE > usize::MAX) by (nonlinear_arith)
                requires
                    max_memory_mb > usize::MAX / MEGABYTE,
                    MEGABYTE == 1048576,
            ;
        }
        return None;
    }
    proof {
        assert(max_memory_mb * MEGABYTE <= usize::MAX) by (nonlinear_arith)
            requires
                max_memory_mb <= usize::MAX / MEGABYTE,
                MEGABYTE == 1048576,
        ;
    }
    Some(
        AiciLimits {
            max_memory_bytes: max_memory_mb * MEGABYTE,
            max_init_epochs: epochs_for_ms(max_init_ms),
            max_step_epochs: epochs_for_ms(max_step_ms),
        },
    )
}

/// Worker counts for `cores` cores: half of them for the control plane and
/// nine tenths for the step pool, rounded down.
pub fn pool_sizes(cores: usize) -> (r: (usize, usize))
    ensures
        r.0 == (50 * cores as int) / 100,
        r.1 == (90 * cores as int) / 100,
{
    let bg = cores / 2;
    let step = 9 * (cores / 10) + (9 * (cores % 10)) / 10;
    proof {
        let c = cores as int;
        assert((50 * c) / 100 == c / 2) by (nonlinear_arith)
            requires
                c >= 0,
        ;
        assert(9 * (c / 10) + (9 * (c % 10)) / 10 == (90 * c) / 100) by (nonlinear_arith)
            requires
                c >= 0,
        ;
    }
    (bg, step)
}

/// What a request asks for, by its `op` field.
#[derive(Clone, Copy, Debug, PartialEq, Eq, Structural)]
pub enum RequestOp {
    Ping,
    Stop,
    Tokens,
    Step,
    MkModule,
    Instantiate,
    /// Missing, or not a known op.
    Unknown,
}

/// The op named by `op`.
pub fn request_op(op: Option<&str>) -> (r: RequestOp)
    ensures
        op is None ==> r == RequestOp::Unknown,
        op matches Some(s) ==> r == (if s@ == "ping"@ {
            RequestOp::Ping
        } else if s@ == "stop"@ {
            RequestOp::Stop
        } else if s@ == "tokens"@ {
            RequestOp::Tokens
        } else if s@ == "step"@ {
            RequestOp::Step
        } else if s@ == "mk_module"@ {
            RequestOp::MkModule
        } else if s@ == "instantiate"@ {
            RequestOp::Instantiate
        } else {
            RequestOp::Unknown
        }),
{
    match op {
        None => RequestOp::Unknown,
        Some(s) => {
            let name = String::from_str(s);
            if name == String::from_str("ping") {
                RequestOp::Ping
            } else if name == String::from_str("stop") {
                RequestOp::Stop
            } else if name == String::from_str("tokens") {
                RequestOp::Tokens
            } else if name == String::from_str("step") {
                RequestOp::Step
            } else if name == String::from_str("mk_module") {
                RequestOp::MkModule
            } else if name == String::from_str("instantiate") {
                RequestOp::Instantiate
            } else {
                RequestOp::Unknown
            }
        },
    }
}

/// The channel a request is served on.
#[derive(Clone, Copy, Debug, PartialEq, Eq, Structural)]
pub enum Plane {
    /// `cmd`/`resp`: steps and vocabulary queries, on the realtime pool.
    Data,
    /// `cmd-side`/`resp-side`: module creation and instantiation.
    Control,
}

/// Whether `op` is served on `plane`; `ping` and `stop` are served on both,
/// `tokens` on both, `step` only on the data plane, `mk_module` and
/// `instantiate` only on the control plane.
pub fn served_on(plane: Plane, op: RequestOp) -> (r: bool)
    ensures
        r == match op {
            RequestOp::Ping | RequestOp::Stop | RequestOp::Tokens => true,
            RequestOp::Step => plane == Plane::Data,
            RequestOp::MkModule | RequestOp::Instantiate => plane == Plane::Control,
            RequestOp::Unknown => false,
        },
{
    match op {
        RequestOp::Ping | RequestOp::Stop | RequestOp::Tokens => true,
        RequestOp::Step => plane == Plane::Data,
        RequestOp::MkModule | RequestOp::Instantiate => plane == Plane::Control,
        RequestOp::Unknown => false,
    }
}

} // verus!
