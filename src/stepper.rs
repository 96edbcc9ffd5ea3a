//! The step scheduler: it owns the live controller instances, applies the
//! frees, prompts and forks of each step, and hands every op an arena slot.
use vstd::prelude::*;
use crate::api::{ModuleInstId, Token};
use crate::registry::PendingTable;
use std::collections::HashMap;

verus! {

broadcast use vstd::std_specs::hash::group_hash_axioms;

/// The live instances of the scheduler, by instance id.
pub struct LiveTable<T> {
    entries: HashMap<ModuleInstId, T>,
}

impl<T> LiveTable<T> {
    /// The live instances by id.
    pub closed spec fn view(self) -> Map<ModuleInstId, T> {
        self.entries@
    }

    pub fn new() -> (r: Self)
        ensures
            r.view() == Map::<ModuleInstId, T>::empty(),
    {
        LiveTable { entries: HashMap::new() }
    }

    /// Whether instance `id` is live.
    pub fn contains(&self, id: ModuleInstId) -> (r: bool)
        ensures
            r == self.view().contains_key(id),
    {
        self.entries.contains_key(&id)
    }

    /// The number of live instances.
    pub fn len(&self) -> (r: usize)
        ensures
            r == self.view().dom().len(),
    {
        self.entries.len()
    }

    /// Makes `inst` live under `id`, replacing any instance there.
    pub fn insert(&mut self, id: ModuleInstId, inst: T)
        ensures
            final(self).view() == old(self).view().insert(id, inst),
    {
        let _ = self.entries.insert(id, inst);
    }

    /// Removes instance `id`, if live, and hands it back; every other entry
    /// stays as it was, and an unknown id changes nothing.
    pub fn remove(&mut self, id: ModuleInstId) -> (r: Option<T>)
        ensures
            r == (if old(self).view().contains_key(id) {
                Some(old(self).view()[id])
            } else {
                None
            }),
            final(self).view() == old(self).view().remove(id),
    {
        self.entries.remove(&id)
    }

    /// The instance live under `id`, if any.
    pub fn get(&self, id: ModuleInstId) -> (r: Option<&T>)
        ensures
            r is None <==> !self.view().contains_key(id),
            r matches Some(t) ==> *t == self.view()[id],
    {
        self.entries.get(&id)
    }
}

/// Duplicates a live instance into an independent one with the same state.
pub trait Fork: Sized {
    fn fork(&self, id: ModuleInstId) -> Result<Self, String>;
}

/// One op of a step.
pub enum AiciOp {
    /// First step of the instance parked under `req_id`, which becomes live
    /// as `id`; `prompt` is not used (the prompt came with `instantiate`).
    Prompt { id: ModuleInstId, prompt: Option<Vec<Token>>, req_id: String },
    /// A generation step of `id`, which is first forked from `clone_id` when given.
    Gen { id: ModuleInstId, gen: Token, clone_id: Option<ModuleInstId> },
}

/// What an instance is asked to do in a step.
#[derive(Clone, Copy, Debug, PartialEq, Eq, Structural)]
pub enum ThreadOp {
    Prompt,
    Gen { gen: Token },
}

impl AiciOp {
    pub open spec fn id_spec(&self) -> ModuleInstId {
        match self {
            AiciOp::Prompt { id, .. } => *id,
            AiciOp::Gen { id, .. } => *id,
        }
    }

    pub open spec fn thread_op_spec(&self) -> ThreadOp {
        match self {
            AiciOp::Prompt { .. } => ThreadOp::Prompt,
            AiciOp::Gen { gen, .. } => ThreadOp::Gen { gen: *gen },
        }
    }

    pub fn inst_id(&self) -> (r: ModuleInstId)
        ensures
            r == self.id_spec(),
    {
        match self {
            AiciOp::Prompt { id, .. } => *id,
            AiciOp::Gen { id, .. } => *id,
        }
    }

    pub fn to_thread_op(&self) -> (r: ThreadOp)
        ensures
            r == self.thread_op_spec(),
    {
        match self {
            AiciOp::Prompt { .. } => ThreadOp::Prompt,
            AiciOp::Gen { gen, .. } => ThreadOp::Gen { gen: *gen },
        }
    }
}

/// A `step` request.
pub struct AiciStepReq {
    pub freed: Vec<ModuleInstId>,
    pub ops: Vec<AiciOp>,
}

/// Why one op of a step cannot be applied.
#[derive(Clone, Copy, Debug, PartialEq, Eq, Structural)]
pub enum OpFault {
    /// No instance is parked under the op's request id.
    InvalidReqId,
    /// The op's id is live already.
    DuplicateId,
    /// The instance to fork from is not live.
    InvalidCloneId,
    /// A generation step for an id that is not live.
    NotLive,
}

pub enum StepError {
    /// Op number `op` cannot be applied; nothing was changed.
    Op { op: usize, fault: OpFault },
    /// The arena has fewer slots than the step has ops; nothing was changed.
    ArenaTooSmall,
    /// Forking for op number `op` failed.
    Fork { op: usize, message: String },
}

/// A unit of work for the executor: run `op` on instance `id`, writing any
/// bias into the `slot_len` bytes of the arena at `slot_offset`.
pub struct StepTask {
    pub id: ModuleInstId,
    pub slot_offset: usize,
    pub slot_len: usize,
    pub op: ThreadOp,
}

/// The live ids and pending request ids after `op`, or why it cannot apply.
pub open spec fn op_effect(l: Set<ModuleInstId>, p: Set<Seq<char>>, op: AiciOp) -> Result<
    (Set<ModuleInstId>, Set<Seq<char>>),
    OpFault,
> {
    match op {
        AiciOp::Prompt { id, req_id, .. } => if !p.contains(req_id@) {
            Err(OpFault::InvalidReqId)
        } else if l.contains(id) {
            Err(OpFault::DuplicateId)
        } else {
            Ok((l.insert(id), p.remove(req_id@)))
        },
        AiciOp::Gen { id, clone_id, .. } => match clone_id {
            Some(c) => if l.contains(id) {
                Err(OpFault::DuplicateId)
            } else if !l.contains(c) {
                Err(OpFault::InvalidCloneId)
            } else {
                Ok((l.insert(id), p))
            },
            None => if !l.contains(id) {
                Err(OpFault::NotLive)
            } else {
                Ok((l, p))
            },
        },
    }
}

/// The first `i` ops applied in order from live ids `l` and pending ids `p`;
/// the first op that cannot apply stops it, with its index.
pub open spec fn apply_ops(l: Set<ModuleInstId>, p: Set<Seq<char>>, ops: Seq<AiciOp>, i: int) -> Result<
    (Set<ModuleInstId>, Set<Seq<char>>),
    (int, OpFault),
>
    decreases i,
{
    if i <= 0 {
        Ok((l, p))
    } else {
        match apply_ops(l, p, ops, i - 1) {
            Err(e) => Err(e),
            Ok((l2, p2)) => match op_effect(l2, p2, ops[i - 1]) {
                Ok(s) => Ok(s),
                Err(f) => Err((i - 1, f)),
            },
        }
    }
}

proof fn lemma_apply_err_stays(l: Set<ModuleInstId>, p: Set<Seq<char>>, ops: Seq<AiciOp>, i: int, n: int)
    requires
        0 <= i <= n,
        apply_ops(l, p, ops, i) is Err,
    ensures
        apply_ops(l, p, ops, n) == apply_ops(l, p, ops, i),
    decreases n - i,
{
    if i < n {
        lemma_apply_err_stays(l, p, ops, i, n - 1);
    }
}

fn contains_id(v: &Vec<ModuleInstId>, x: ModuleInstId) -> (r: bool)
    ensures
        r == v@.contains(x),
{
    let mut i: usize = 0;
    while i < v.len()
        invariant
            0 <= i <= v@.len(),
            forall|k: int| 0 <= k < i ==> v@[k] != x,
        decreases v@.len() - i,
    {
        if v[i] == x {
            assert(v@[i as int] == x);
            return true;
        }
        i = i + 1;
    }
    false
}

pub open spec fn str_views(v: Seq<String>) -> Seq<Seq<char>> {
    v.map_values(|s: String| s@)
}

fn contains_str(v: &Vec<String>, x: &String) -> (r: bool)
    ensures
        r == str_views(v@).contains(x@),
{
    let mut i: usize = 0;
    while i < v.len()
        invariant
            0 <= i <= v@.len(),
            forall|k: int| 0 <= k < i ==> str_views(v@)[k] != x@,
        decreases v@.len() - i,
    {
        if v[i] == *x {
            assert(str_views(v@)[i as int] == x@);
            return true;
        }
        i = i + 1;
    }
    false
}

/// The tables `live` and `pend` are what the first `k` ops make of the
/// tables `old_live` (after the frees, which leave the ids `l0`) and
/// `old_pend`: the ids are those of [`apply_ops`], instances live before keep
/// their values, parked instances that stay parked keep theirs, and each
/// `Prompt` op among them made its parked instance live.
pub open spec fn tables_after<T>(
    l0: Set<ModuleInstId>,
    old_live: Map<ModuleInstId, T>,
    old_pend: Map<Seq<char>, T>,
    ops: Seq<AiciOp>,
    k: int,
    live: Map<ModuleInstId, T>,
    pend: Map<Seq<char>, T>,
) -> bool {
    &&& apply_ops(l0, old_pend.dom(), ops, k) matches Ok((l, p))
    &&& live.dom() == l
    &&& pend.dom() == p
    &&& forall|x: ModuleInstId| #[trigger] l0.contains(x) ==> live[x] == old_live[x]
    &&& forall|key: Seq<char>| #[trigger] p.contains(key) ==> pend[key] == old_pend[key]
    &&& forall|j: int| 0 <= j < k ==> (#[trigger] ops[j] matches AiciOp::Prompt { id, req_id, .. } ==> live[id]
        == old_pend[req_id@])
}

/// Slot `k` of an arena cut into slots of `block_len` bytes.
pub open spec fn slot_offset(k: int, block_len: int) -> int {
    k * block_len
}

/// The scheduler: the live instances, by id.
pub struct Stepper<T> {
    pub instances: LiveTable<T>,
}

impl<T: Fork> Stepper<T> {
    pub fn new() -> (r: Self)
        ensures
            r.instances.view() == Map::<ModuleInstId, T>::empty(),
    {
        Stepper { instances: LiveTable::new() }
    }

    /// Checks every op of `req` in order against the live ids left after
    /// the frees and the parked request ids, without changing anything.
    fn check_ops(&self, pending: &PendingTable<T>, req: &AiciStepReq) -> (r: Result<(), StepError>)
        requires
            pending.wf(),
        ensures
            ({
                let l0 = self.instances.view().dom().difference(req.freed@.to_set());
                match apply_ops(l0, pending.view().dom(), req.ops@, req.ops@.len() as int) {
                    Ok(_) => r is Ok,
                    Err((i, f)) => r matches Err(StepError::Op { op, fault }) && op == i && fault == f,
                }
            }),
    {
        let ghost l0 = self.instances.view().dom().difference(req.freed@.to_set());
        let ghost p0 = pending.view().dom();
        let mut added: Vec<ModuleInstId> = Vec::new();
        let mut taken: Vec<String> = Vec::new();
        let mut i: usize = 0;
        while i < req.ops.len()
            invariant
                pending.wf(),
                l0 == self.instances.view().dom().difference(req.freed@.to_set()),
                p0 == pending.view().dom(),
                0 <= i <= req.ops@.len(),
                apply_ops(l0, p0, req.ops@, i as int) matches Ok((l, p)) && (forall|x: ModuleInstId|
                    #[trigger] l.contains(x) <==> (l0.contains(x) || added@.contains(x))) && (forall|k: Seq<char>|
                    #[trigger] p.contains(k) <==> (p0.contains(k) && !str_views(taken@).contains(k))),
            decreases req.ops@.len() - i,
        {
            let ghost (l, p) = apply_ops(l0, p0, req.ops@, i as int)->Ok_0;
            let op = &req.ops[i];
            match op {
                AiciOp::Prompt { id, req_id, .. } => {
                    let pending_ok = pending.contains(req_id) && !contains_str(&taken, req_id);
                    if !pending_ok {
                        proof {
                            lemma_apply_err_stays(l0, p0, req.ops@, i + 1, req.ops@.len() as int);
                        }
                        return Err(StepError::Op { op: i, fault: OpFault::InvalidReqId });
                    }
                    let live = (self.instances.contains(*id) && !contains_id(&req.freed, *id)) || contains_id(&added, *id);
                    proof {
                        assert(l0.contains(*id) == (self.instances.view().dom().contains(*id) && !req.freed@.to_set().contains(*id)));
                    }
                    if live {
                        proof {
                            lemma_apply_err_stays(l0, p0, req.ops@, i + 1, req.ops@.len() as int);
                        }
                        return Err(StepError::Op { op: i, fault: OpFault::DuplicateId });
                    }
                    let ghost (ta, ad) = (taken@, added@);
                    added.push(*id);
                    taken.push(req_id.clone());
                    proof {
                        assert(str_views(taken@) == str_views(ta).push(req_id@)) by {
                            assert(str_views(taken@) =~= str_views(ta).push(req_id@));
                        }
                        assert forall|x: ModuleInstId| #[trigger] added@.contains(x) <==> (ad.contains(x) || x == *id) by {
                            if added@.contains(x) {
                                let k = choose|k: int| 0 <= k < added@.len() && added@[k] == x;
                                if k < ad.len() {
                                    assert(ad[k] == x);
                                }
                            }
                            if ad.contains(x) {
                                let k = choose|k: int| 0 <= k < ad.len() && ad[k] == x;
                                assert(added@[k] == x);
                            }
                            if x == *id {
                                assert(added@[ad.len() as int] == x);
                            }
                        }
                        assert forall|k: Seq<char>| #[trigger] str_views(taken@).contains(k) <==> (str_views(ta).contains(k) || k == req_id@) by {
                            let tv = str_views(taken@);
                            let tv0 = str_views(ta);
                            if tv.contains(k) {
                                let j = choose|j: int| 0 <= j < tv.len() && tv[j] == k;
                                if j < tv0.len() {
                                    assert(tv0[j] == k);
                                }
                            }
                            if tv0.contains(k) {
                                let j = choose|j: int| 0 <= j < tv0.len() && tv0[j] == k;
                                assert(tv[j] == k);
                            }
                            if k == req_id@ {
                                assert(tv[tv0.len() as int] == k);
                            }
                        }
                    }
                },
                AiciOp::Gen { id, clone_id, .. } => {
                    let live = (self.instances.contains(*id) && !contains_id(&req.freed, *id)) || contains_id(&added, *id);
                    proof {
                        assert(l0.contains(*id) == (self.instances.view().dom().contains(*id) && !req.freed@.to_set().contains(*id)));
                    }
                    match clone_id {
                        Some(c) => {
                            if live {
                                proof {
                                    lemma_apply_err_stays(l0, p0, req.ops@, i + 1, req.ops@.len() as int);
                                }
                                return Err(StepError::Op { op: i, fault: OpFault::DuplicateId });
                            }
                            let parent_live = (self.instances.contains(*c) && !contains_id(&req.freed, *c))
                                || contains_id(&added, *c);
                            proof {
                                assert(l0.contains(*c) == (self.instances.view().dom().contains(*c) && !req.freed@.to_set().contains(*c)));
                            }
                            if !parent_live {
                                proof {
                                    lemma_apply_err_stays(l0, p0, req.ops@, i + 1, req.ops@.len() as int);
                                }
                                return Err(StepError::Op { op: i, fault: OpFault::InvalidCloneId });
                            }
                            let ghost ad = added@;
                            added.push(*id);
                            proof {
                                assert forall|x: ModuleInstId| #[trigger] added@.contains(x) <==> (ad.contains(x) || x == *id) by {
                                    if added@.contains(x) {
                                        let k = choose|k: int| 0 <= k < added@.len() && added@[k] == x;
                                        if k < ad.len() {
                                            assert(ad[k] == x);
                                        }
                                    }
                                    if ad.contains(x) {
                                        let k = choose|k: int| 0 <= k < ad.len() && ad[k] == x;
                                        assert(added@[k] == x);
                                    }
                                    if x == *id {
                                        assert(added@[ad.len() as int] == x);
                                    }
                                }
                            }
                        },
                        None => {
                            if !live {
                                proof {
                                    lemma_apply_err_stays(l0, p0, req.ops@, i + 1, req.ops@.len() as int);
                                }
                                return Err(StepError::Op { op: i, fault: OpFault::NotLive });
                            }
                        },
                    }
                },
            }
            i = i + 1;
        }
        Ok(())
    }

    /// Applies one step. Every op is checked first, against the live ids left
    /// after the frees and the parked request ids; the arena must have a slot
    /// of `4 * vocab_size` bytes for each op. On either failure nothing
    /// changes. Then the freed ids are dropped, each op in order makes its
    /// instance live (taken from `pending`, or forked), and op `k` gets the
    /// task for its instance with slot `k` of the arena. The step succeeds
    /// unless a fork fails; then the tables are as the ops before the forking
    /// one left them.
    pub fn aici_step(
        &mut self,
        pending: &mut PendingTable<T>,
        req: &AiciStepReq,
        vocab_size: usize,
        arena_size: usize,
    ) -> (r: Result<Vec<StepTask>, StepError>)
        requires
            old(pending).wf(),
            vocab_size > 0,
        ensures
            final(pending).wf(),
            ({
                let l0 = old(self).instances.view().dom().difference(req.freed@.to_set());
                let n = req.ops@.len() as int;
                let block: int = 4 * vocab_size;
                match apply_ops(l0, old(pending).view().dom(), req.ops@, n) {
                    Err((i, f)) => r matches Err(StepError::Op { op, fault }) && op == i && fault == f
                        && final(self).instances.view() == old(self).instances.view()
                        && final(pending).view() == old(pending).view(),
                    Ok((l, p)) => if n > 0 && (block > usize::MAX || (arena_size as int) / block < n) {
                        r is Err && r->Err_0 is ArenaTooSmall
                            && final(self).instances.view() == old(self).instances.view()
                            && final(pending).view() == old(pending).view()
                    } else {
                        match r {
                            Ok(tasks) => {
                                &&& tasks@.len() == n
                                &&& n * block <= arena_size
                                &&& forall|k: int| 0 <= k < n ==> {
                                    &&& (#[trigger] tasks@[k]).id == req.ops@[k].id_spec()
                                    &&& tasks@[k].slot_offset == slot_offset(k, block)
                                    &&& tasks@[k].slot_len == block
                                    &&& tasks@[k].op == req.ops@[k].thread_op_spec()
                                }
                                &&& tables_after(
                                    l0,
                                    old(self).instances.view(),
                                    old(pending).view(),
                                    req.ops@,
                                    n,
                                    final(self).instances.view(),
                                    final(pending).view(),
                                )
                            },
                            Err(e) => match e {
                                StepError::Fork { op, .. } => {
                                    &&& op < n
                                    &&& req.ops@[op as int] matches AiciOp::Gen { clone_id: Some(_), .. }
                                    &&& tables_after(
                                        l0,
                                        old(self).instances.view(),
                                        old(pending).view(),
                                        req.ops@,
                                        op as int,
                                        final(self).instances.view(),
                                        final(pending).view(),
                                    )
                                },
                                _ => false,
                            },
                        }
                    },
                }
            }),
    {
        let ghost l0 = self.instances.view().dom().difference(req.freed@.to_set());
        let ghost p0 = pending.view().dom();
        let ghost old_live = self.instances.view();
        let ghost old_pend = pending.view();
        let ghost n = req.ops@.len() as int;
        match self.check_ops(pending, req) {
            Ok(()) => {},
            Err(e) => {
                return Err(e);
            },
        }
        let num_ops = req.ops.len();
        if num_ops > 0 && (vocab_size > usize::MAX / 4 || arena_size / (4 * vocab_size) < num_ops) {
            return Err(StepError::ArenaTooSmall);
        }
        let block: usize = if num_ops > 0 { 4 * vocab_size } else { 0 };
        proof {
            if num_ops > 0 {
                assert(4 * vocab_size <= usize::MAX);
                assert(!(n > 0 && (4 * vocab_size > usize::MAX || (arena_size as int) / (4 * vocab_size as int) < n)));
            }
            if num_ops > 0 {
                lemma_slots_fit(num_ops as int, block as int, arena_size as int);
            }
        }
        // drop the freed instances
        let mut f: usize = 0;
        while f < req.freed.len()
            invariant
                pending.wf(),
                pending.view() == old_pend,
                p0 == old_pend.dom(),
                p0 == old(pending).view().dom(),
                old_pend == old(pending).view(),
                old_live == old(self).instances.view(),
                l0 == old(self).instances.view().dom().difference(req.freed@.to_set()),
                n == req.ops@.len(),
                apply_ops(l0, p0, req.ops@, n) is Ok,
                !(n > 0 && (4 * vocab_size > usize::MAX || (arena_size as int) / (4 * vocab_size as int) < n)),
                0 <= f <= req.freed@.len(),
                forall|x: ModuleInstId| #[trigger] self.instances.view().contains_key(x) <==> (old_live.contains_key(x)
                    && !req.freed@.subrange(0, f as int).contains(x)),
                forall|x: ModuleInstId| #[trigger] self.instances.view().contains_key(x) ==> self.instances.view()[x]
                    == old_live[x],
            decreases req.freed@.len() - f,
        {
            let _ = self.instances.remove(req.freed[f]);
            proof {
                let pre = req.freed@.subrange(0, f as int);
                let post = req.freed@.subrange(0, f + 1);
                assert(post == pre.push(req.freed@[f as int]));
                assert forall|x: ModuleInstId| #[trigger] post.contains(x) <==> (pre.contains(x) || x == req.freed@[f as int]) by {
                    if post.contains(x) {
                        let k = choose|k: int| 0 <= k < post.len() && post[k] == x;
                        if k < pre.len() {
                            assert(pre[k] == x);
                        }
                    }
                    if pre.contains(x) {
                        let k = choose|k: int| 0 <= k < pre.len() && pre[k] == x;
                        assert(post[k] == x);
                    }
                    if x == req.freed@[f as int] {
                        assert(post[f as int] == x);
                    }
                }
            }
            f = f + 1;
        }
        proof {
            assert(req.freed@.subrange(0, req.freed@.len() as int) =~= req.freed@);
            assert(self.instances.view().dom() =~= l0);
        }
        // make the instances of the ops live, in order
        let mut tasks: Vec<StepTask> = Vec::new();
        let mut i: usize = 0;
        while i < num_ops
            invariant
                pending.wf(),
                num_ops == req.ops@.len(),
                n == num_ops,
                p0 == old(pending).view().dom(),
                old_pend == old(pending).view(),
                old_live == old(self).instances.view(),
                l0 == old(self).instances.view().dom().difference(req.freed@.to_set()),
                !(n > 0 && (4 * vocab_size > usize::MAX || (arena_size as int) / (4 * vocab_size as int) < n)),
                num_ops > 0 ==> block == 4 * vocab_size && num_ops * block <= arena_size,
                0 <= i <= num_ops,
                apply_ops(l0, p0, req.ops@, n) is Ok,
                apply_ops(l0, p0, req.ops@, i as int) matches Ok((l, p)) && self.instances.view().dom() == l
                    && pending.view().dom() == p,
                forall|x: ModuleInstId| #[trigger] l0.contains(x) ==> self.instances.view()[x] == old_live[x],
                forall|key: Seq<char>| #[trigger] pending.view().contains_key(key) ==> pending.view()[key]
                    == old_pend[key],
                forall|k: int| 0 <= k < i ==> (#[trigger] req.ops@[k] matches AiciOp::Prompt { id, req_id, .. }
                    ==> self.instances.view()[id] == old_pend[req_id@]),
                tasks@.len() == i,
                forall|k: int| 0 <= k < i ==> {
                    &&& (#[trigger] tasks@[k]).id == req.ops@[k].id_spec()
                    &&& tasks@[k].slot_offset == slot_offset(k, block as int)
                    &&& tasks@[k].slot_len == block
                    &&& tasks@[k].op == req.ops@[k].thread_op_spec()
                },
            decreases num_ops - i,
        {
            proof {
                if apply_ops(l0, p0, req.ops@, i + 1) is Err {
                    lemma_apply_err_stays(l0, p0, req.ops@, i + 1, n);
                }
            }
            let ghost (l, p) = apply_ops(l0, p0, req.ops@, i as int)->Ok_0;
            let ghost live_before = self.instances.view();
            let op = &req.ops[i];
            match op {
                AiciOp::Prompt { id, req_id, .. } => {
                    let inst = pending.take(req_id);
                    match inst {
                        Some(inst) => {
                            self.instances.insert(*id, inst);
                        },
                        None => {
                            assert(false);
                        },
                    }
                },
                AiciOp::Gen { id, clone_id, .. } => {
                    match clone_id {
                        Some(c) => {
                            let child = match self.instances.get(*c) {
                                Some(parent) => parent.fork(*id),
                                None => {
                                    assert(false);
                                    Err(String::new())
                                },
                            };
                            match child {
                                Ok(child) => {
                                    self.instances.insert(*id, child);
                                },
                                Err(message) => {
                                    proof {
                                        assert(self.instances.view() == live_before);
                                        assert(tables_after(l0, old_live, old_pend, req.ops@, i as int,
                                            self.instances.view(), pending.view()));
                                    }
                                    return Err(StepError::Fork { op: i, message });
                                },
                            }
                        },
                        None => {},
                    }
                },
            }
            proof {
                lemma_slot_below(i as int, num_ops as int, block as int, arena_size as int);
                lemma_apply_grows(l0, p0, req.ops@, i as int);
                assert forall|x: ModuleInstId| #[trigger] l0.contains(x) implies self.instances.view()[x] == old_live[x] by {
                    assert(l.contains(x));
                    assert(live_before[x] == old_live[x]);
                }
            }
            let offset = i * block;
            tasks.push(StepTask { id: op.inst_id(), slot_offset: offset, slot_len: block, op: op.to_thread_op() });
            proof {
                assert forall|k: int| 0 <= k < i + 1 implies (#[trigger] req.ops@[k] matches AiciOp::Prompt {
                    id, req_id, .. } ==> self.instances.view()[id] == old_pend[req_id@]) by {
                    if k < i {
                        if let AiciOp::Prompt { id: idk, .. } = req.ops@[k] {
                            lemma_prompt_id_live(l0, p0, req.ops@, k, i as int);
                        }
                    }
                }
                assert(self.instances.view().dom() =~= apply_ops(l0, p0, req.ops@, i + 1)->Ok_0.0);
                assert(pending.view().dom() =~= apply_ops(l0, p0, req.ops@, i + 1)->Ok_0.1);
            }
            i = i + 1;
        }
        proof {
            assert(tables_after(l0, old_live, old_pend, req.ops@, n, self.instances.view(), pending.view()));
            let b4 = 4 * vocab_size as int;
            if num_ops > 0 {
                assert(block as int == b4);
                assert(n * b4 <= arena_size);
            } else {
                assert(n * b4 == 0) by (nonlinear_arith)
                    requires
                        n == 0,
                ;
            }
        }
        Ok(tasks)
    }
}

/// Applying ops only adds live ids.
proof fn lemma_apply_grows(l0: Set<ModuleInstId>, p0: Set<Seq<char>>, ops: Seq<AiciOp>, i: int)
    requires
        apply_ops(l0, p0, ops, i) is Ok,
    ensures
        forall|x: ModuleInstId| #[trigger] l0.contains(x) ==> apply_ops(l0, p0, ops, i)->Ok_0.0.contains(x),
    decreases i,
{
    if i > 0 {
        if apply_ops(l0, p0, ops, i - 1) is Err {
            lemma_apply_err_stays(l0, p0, ops, i - 1, i);
        }
        lemma_apply_grows(l0, p0, ops, i - 1);
    }
}

/// Op `k` that applied makes its id live, so it is live after op `i`.
proof fn lemma_prompt_id_live(l0: Set<ModuleInstId>, p0: Set<Seq<char>>, ops: Seq<AiciOp>, k: int, i: int)
    requires
        0 <= k < i,
        apply_ops(l0, p0, ops, i) is Ok,
    ensures
        apply_ops(l0, p0, ops, i)->Ok_0.0.contains(ops[k].id_spec()),
    decreases i - k,
{
    if apply_ops(l0, p0, ops, i - 1) is Err {
        lemma_apply_err_stays(l0, p0, ops, i - 1, i);
    }
    if k < i - 1 {
        lemma_prompt_id_live(l0, p0, ops, k, i - 1);
    }
}

proof fn lemma_slots_fit(n: int, block: int, arena: int)
    requires
        n > 0,
        block > 0,
        arena >= 0,
        arena / block >= n,
    ensures
        n * block <= arena,
{
    assert(n * block <= (arena / block) * block) by (nonlinear_arith)
        requires
            n <= arena / block,
            block > 0,
    ;
    assert((arena / block) * block <= arena) by (nonlinear_arith)
        requires
            block > 0,
            arena >= 0,
    ;
}

proof fn lemma_slot_below(k: int, n: int, block: int, arena: int)
    requires
        0 <= k < n,
        block >= 0,
        n * block <= arena,
    ensures
        k * block + block <= arena,
{
    assert(k * block + block <= n * block) by (nonlinear_arith)
        requires
            0 <= k < n,
            block >= 0,
    ;
}

pub open spec fn names_req(op: AiciOp, k: Seq<char>) -> bool {
    op matches AiciOp::Prompt { req_id, .. } && req_id@ == k
}

proof fn lemma_pending_prefix(l0: Set<ModuleInstId>, p0: Set<Seq<char>>, ops: Seq<AiciOp>, k: Seq<char>, i: int)
    requires
        0 <= i,
        apply_ops(l0, p0, ops, i) is Ok,
    ensures
        (forall|j: int| 0 <= j < i ==> !names_req(#[trigger] ops[j], k)) ==> apply_ops(l0, p0, ops, i)->Ok_0.1.contains(k)
            == p0.contains(k),
        (exists|j: int| 0 <= j < i && names_req(#[trigger] ops[j], k)) ==> !apply_ops(l0, p0, ops, i)->Ok_0.1.contains(k),
    decreases i,
{
    if i > 0 {
        if apply_ops(l0, p0, ops, i - 1) is Err {
            lemma_apply_err_stays(l0, p0, ops, i - 1, i);
        }
        lemma_pending_prefix(l0, p0, ops, k, i - 1);
        if exists|j: int| 0 <= j < i && names_req(#[trigger] ops[j], k) {
            let j = choose|j: int| 0 <= j < i && names_req(#[trigger] ops[j], k);
            if j < i - 1 {
                assert(exists|j2: int| 0 <= j2 < i - 1 && names_req(#[trigger] ops[j2], k));
            }
        }
        if forall|j: int| 0 <= j < i ==> !names_req(#[trigger] ops[j], k) {
            assert(!names_req(ops[i - 1], k));
        }
    }
}

/// Instantiation isolation: when the ops of a step apply, a request id that
/// no `Prompt` op names is pending afterwards exactly when it was before (and
/// `aici_step` keeps its instance), while one that a `Prompt` op names is no
/// longer pending, so a later step that names it again fails.
pub proof fn instantiation_isolation(l0: Set<ModuleInstId>, p0: Set<Seq<char>>, ops: Seq<AiciOp>, k: Seq<char>)
    requires
        apply_ops(l0, p0, ops, ops.len() as int) is Ok,
    ensures
        (forall|j: int| 0 <= j < ops.len() ==> !names_req(#[trigger] ops[j], k)) ==> apply_ops(
            l0,
            p0,
            ops,
            ops.len() as int,
        )->Ok_0.1.contains(k) == p0.contains(k),
        (exists|j: int| 0 <= j < ops.len() && names_req(#[trigger] ops[j], k)) ==> !apply_ops(
            l0,
            p0,
            ops,
            ops.len() as int,
        )->Ok_0.1.contains(k),
{
    lemma_pending_prefix(l0, p0, ops, k, ops.len() as int);
}

/// Bias arena disjointness: with slots of `4 * vocab_size` bytes handed to
/// the ops of a step that fits in the arena, the slots of two different ops
/// do not overlap, every slot lies inside the arena, and a slot has room for
/// a mask of one bit per token.
pub proof fn bias_arena_disjointness(n: int, vocab_size: int, arena_size: int, i: int, j: int)
    requires
        vocab_size > 0,
        n * (4 * vocab_size) <= arena_size,
        0 <= i < j < n,
    ensures
        0 <= slot_offset(i, 4 * vocab_size),
        slot_offset(i, 4 * vocab_size) + 4 * vocab_size <= slot_offset(j, 4 * vocab_size),
        slot_offset(j, 4 * vocab_size) + 4 * vocab_size <= arena_size,
        4 * vocab_size >= (vocab_size + 7) / 8,
{
    let b = 4 * vocab_size;
    assert(0 <= i * b) by (nonlinear_arith)
        requires
            0 <= i,
            b > 0,
    ;
    assert(i * b + b <= j * b) by (nonlinear_arith)
        requires
            i < j,
            b > 0,
    ;
    lemma_slot_below(j, n, b, arena_size);
}

/// Idempotent free: freeing ids that are not live leaves the live ids as
/// they were (and `LiveTable::remove` of an unknown id changes nothing).
pub proof fn free_unknown_is_noop<T>(live: Map<ModuleInstId, T>, freed: Seq<ModuleInstId>)
    requires
        forall|k: int| 0 <= k < freed.len() ==> !live.contains_key(#[trigger] freed[k]),
    ensures
        live.dom().difference(freed.to_set()) == live.dom(),
        forall|k: int| 0 <= k < freed.len() ==> live.remove(#[trigger] freed[k]) == live,
{
    assert forall|x: ModuleInstId| #[trigger] live.dom().contains(x) implies !freed.to_set().contains(x) by {
        if freed.contains(x) {
            let k = choose|k: int| 0 <= k < freed.len() && freed[k] == x;
        }
    }
    assert(live.dom().difference(freed.to_set()) =~= live.dom());
    assert forall|k: int| 0 <= k < freed.len() implies live.remove(#[trigger] freed[k]) == live by {
        assert(live.remove(freed[k]) =~= live);
    }
}

/// The step's results keyed by instance id: the result of task `k` goes
/// under the id of task `k`.
pub fn collect_results<R>(tasks: &Vec<StepTask>, results: Vec<R>) -> (r: Vec<(ModuleInstId, R)>)
    requires
        results@.len() == tasks@.len(),
    ensures
        r@.len() == tasks@.len(),
        forall|k: int| 0 <= k < r@.len() ==> (#[trigger] r@[k]).0 == tasks@[k].id && r@[k].1 == results@[k],
{
    let mut out: Vec<(ModuleInstId, R)> = Vec::new();
    let mut rest = results;
    let ghost orig = rest@;
    let mut i: usize = 0;
    while i < tasks.len()
        invariant
            orig.len() == tasks@.len(),
            0 <= i <= tasks@.len(),
            rest@ == orig.subrange(i as int, orig.len() as int),
            out@.len() == i,
            forall|k: int| 0 <= k < i ==> (#[trigger] out@[k]).0 == tasks@[k].id && out@[k].1 == orig[k],
        decreases tasks@.len() - i,
    {
        let x = rest.remove(0);
        out.push((tasks[i].id, x));
        i = i + 1;
    }
    out
}

} // verus!
