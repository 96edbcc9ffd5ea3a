//! Requests and responses exchanged with the inference engine.
use vstd::prelude::*;
use std::collections::HashMap;
use crate::protocol::TokenId;

verus! {

/// Id the engine gives to a live controller instance.
pub type ModuleInstId = usize;

pub type Token = TokenId;

/// How a write changes a stored variable.
#[derive(Clone, Copy, Debug, PartialEq, Eq, Structural)]
pub enum StorageOp {
    /// Replace the value.
    Assign,
    /// Append to the value.
    Append,
}

/// A variable-storage command issued by a controller.
pub enum StorageCmd {
    /// Read without being journaled.
    ReadVar { name: String },
    /// Write, journaled and reported to the engine.
    WriteVar { name: String, value: Vec<u8>, op: StorageOp, when_version_is: Option<u64> },
}

pub enum StorageCmdView {
    ReadVar { name: Seq<char> },
    WriteVar { name: Seq<char>, value: Seq<u8>, op: StorageOp, when_version_is: Option<u64> },
}

impl View for StorageCmd {
    type V = StorageCmdView;

    open spec fn view(&self) -> StorageCmdView {
        match self {
            StorageCmd::ReadVar { name } => StorageCmdView::ReadVar { name: name@ },
            StorageCmd::WriteVar { name, value, op, when_version_is } => StorageCmdView::WriteVar {
                name: name@,
                value: value@,
                op: *op,
                when_version_is: *when_version_is,
            },
        }
    }
}

fn copy_bytes(v: &Vec<u8>) -> (r: Vec<u8>)
    ensures
        r@ == v@,
{
    let mut r: Vec<u8> = Vec::new();
    for i in 0..v.len()
        invariant
            r@ == v@.subrange(0, i as int),
    {
        r.push(v[i]);
        assert(r@ =~= v@.subrange(0, i + 1));
    }
    assert(v@.subrange(0, v@.len() as int) =~= v@);
    r
}

impl StorageCmd {
    pub fn duplicate(&self) -> (r: StorageCmd)
        ensures
            r@ == self@,
    {
        match self {
            StorageCmd::ReadVar { name } => StorageCmd::ReadVar { name: name.clone() },
            StorageCmd::WriteVar { name, value, op, when_version_is } => StorageCmd::WriteVar {
                name: name.clone(),
                value: copy_bytes(value),
                op: *op,
                when_version_is: *when_version_is,
            },
        }
    }
}

pub open spec fn storage_view(s: Seq<StorageCmd>) -> Seq<StorageCmdView> {
    s.map_values(|c: StorageCmd| c@)
}

/// The outcome of one lifecycle call for one sequence.
pub struct SequenceResult<T> {
    pub is_success: bool,
    pub result: Option<T>,
    /// Journaled storage commands (reads are not recorded).
    pub storage: Vec<StorageCmd>,
    pub logs: String,
    pub micros: u64,
}

impl<T> SequenceResult<T> {
    /// The same outcome with `result` in place of the result.
    pub fn clone_with<S>(&self, result: Option<S>) -> (r: SequenceResult<S>)
        ensures
            r.is_success == self.is_success,
            r.result == result,
            storage_view(r.storage@) == storage_view(self.storage@),
            r.logs@ == self.logs@,
            r.micros == self.micros,
    {
        let mut storage: Vec<StorageCmd> = Vec::new();
        for i in 0..self.storage.len()
            invariant
                storage@.len() == i,
                forall|k: int| 0 <= k < i ==> (#[trigger] storage@[k])@ == self.storage@[k]@,
        {
            storage.push(self.storage[i].duplicate());
        }
        assert(storage_view(storage@) =~= storage_view(self.storage@));
        SequenceResult {
            is_success: self.is_success,
            result,
            storage,
            logs: self.logs.clone(),
            micros: self.micros,
        }
    }
}

pub struct AiciPreOp {
    pub id: ModuleInstId,
    pub req_id: Option<String>,
}

pub struct AiciMidOp {
    pub id: ModuleInstId,
    pub clone_id: Option<ModuleInstId>,
}

pub struct AiciPostOp {
    pub id: ModuleInstId,
    pub tokens: Vec<Token>,
    pub backtrack: u32,
    pub clone_id: Option<ModuleInstId>,
}

pub struct AiciPreProcessReq {
    /// In tokens.
    pub max_context_len: usize,
    pub freed: Vec<ModuleInstId>,
    pub ops: Vec<AiciPreOp>,
}

pub struct AiciPreProcessResultInner {
    pub suspend: bool,
    pub num_forks: usize,
}

pub struct AiciPreProcessResp {
    pub seqs: HashMap<ModuleInstId, SequenceResult<AiciPreProcessResultInner>>,
    pub fork_map: Vec<usize>,
    pub suspend_ids: Vec<ModuleInstId>,
}

pub struct AiciMidProcessReq {
    pub ops: Vec<AiciMidOp>,
}

pub struct AiciMidProcessResultInner {
    pub ff_tokens: Vec<TokenId>,
    pub backtrack: u32,
}

pub struct AiciMidProcessResp {
    pub seqs: HashMap<ModuleInstId, SequenceResult<AiciMidProcessResultInner>>,
    pub num_seqs: usize,
}

pub struct AiciPostProcessReq {
    pub ops: Vec<AiciPostOp>,
}

pub struct AiciPostProcessResultInner {
    pub stop: bool,
}

pub struct AiciPostProcessResp {
    pub seqs: HashMap<ModuleInstId, SequenceResult<AiciPostProcessResultInner>>,
}

/// Response to `mk_module`.
pub struct MkModuleResp {
    pub module_id: String,
    pub wasm_size: usize,
    pub meta_size: usize,
    pub compiled_size: usize,
    /// Compile time in milliseconds; 0 when the module was cached.
    pub time: u64,
}

/// Response to `tokens`.
pub struct TokensResp {
    pub vocab_size: u32,
}

} // verus!
