use aicirt::registry::PendingTable;
use aicirt::stepper::{
    collect_results, AiciOp, AiciStepReq, Fork, OpFault, StepError, Stepper, ThreadOp,
};

#[derive(Debug, PartialEq)]
struct Inst {
    tag: u32,
    forked_as: Option<usize>,
}

impl Fork for Inst {
    fn fork(&self, id: usize) -> Result<Self, String> {
        if self.tag == 666 {
            return Err("cannot fork".to_string());
        }
        Ok(Inst { tag: self.tag, forked_as: Some(id) })
    }
}

fn prompt(id: usize, req_id: &str) -> AiciOp {
    AiciOp::Prompt { id, prompt: None, req_id: req_id.to_string() }
}

fn gen(id: usize, clone_id: Option<usize>) -> AiciOp {
    AiciOp::Gen { id, gen: 0, clone_id }
}

const VOCAB: usize = 100;
const ARENA: usize = 4 * VOCAB * 8;

fn fault(r: Result<Vec<aicirt::stepper::StepTask>, StepError>) -> Option<(usize, OpFault)> {
    match r {
        Err(StepError::Op { op, fault }) => Some((op, fault)),
        _ => None,
    }
}

#[test]
fn free_on_empty_table_gives_empty_result() {
    let mut st: Stepper<Inst> = Stepper::new();
    let mut pending: PendingTable<Inst> = PendingTable::new();
    let req = AiciStepReq { freed: vec![5], ops: vec![] };
    let tasks = st.aici_step(&mut pending, &req, VOCAB, ARENA).ok().unwrap();
    assert!(tasks.is_empty());
    assert_eq!(st.instances.len(), 0);
}

#[test]
fn prompt_takes_the_parked_instance_once() {
    let mut st: Stepper<Inst> = Stepper::new();
    let mut pending = PendingTable::new();
    pending.park("r1".to_string(), Inst { tag: 1, forked_as: None });
    let req = AiciStepReq { freed: vec![], ops: vec![prompt(7, "r1")] };
    let tasks = st.aici_step(&mut pending, &req, VOCAB, ARENA).ok().unwrap();
    assert_eq!(tasks.len(), 1);
    assert_eq!(tasks[0].id, 7);
    assert_eq!(tasks[0].slot_offset, 0);
    assert_eq!(tasks[0].slot_len, 4 * VOCAB);
    assert_eq!(tasks[0].op, ThreadOp::Prompt);
    assert_eq!(st.instances.get(7), Some(&Inst { tag: 1, forked_as: None }));
    assert!(!pending.contains(&"r1".to_string()));
    // the request id was consumed
    let again = st.aici_step(&mut pending, &req, VOCAB, ARENA);
    assert_eq!(fault(again), Some((0, OpFault::InvalidReqId)));
}

#[test]
fn unmentioned_request_stays_parked() {
    let mut st: Stepper<Inst> = Stepper::new();
    let mut pending = PendingTable::new();
    pending.park("a".to_string(), Inst { tag: 1, forked_as: None });
    pending.park("b".to_string(), Inst { tag: 2, forked_as: None });
    let req = AiciStepReq { freed: vec![], ops: vec![prompt(1, "a")] };
    st.aici_step(&mut pending, &req, VOCAB, ARENA).ok().unwrap();
    assert!(pending.contains(&"b".to_string()));
    let req2 = AiciStepReq { freed: vec![], ops: vec![gen(1, None), prompt(2, "b")] };
    let tasks = st.aici_step(&mut pending, &req2, VOCAB, ARENA).ok().unwrap();
    assert_eq!(tasks[1].id, 2);
    assert_eq!(tasks[1].slot_offset, 4 * VOCAB);
    assert_eq!(st.instances.get(2).unwrap().tag, 2);
}

#[test]
fn fork_makes_an_independent_child() {
    let mut st: Stepper<Inst> = Stepper::new();
    let mut pending = PendingTable::new();
    pending.park("r".to_string(), Inst { tag: 9, forked_as: None });
    st.aici_step(&mut pending, &AiciStepReq { freed: vec![], ops: vec![prompt(1, "r")] }, VOCAB, ARENA)
        .ok()
        .unwrap();
    let req = AiciStepReq { freed: vec![], ops: vec![gen(1, None), gen(2, Some(1))] };
    let tasks = st.aici_step(&mut pending, &req, VOCAB, ARENA).ok().unwrap();
    assert_eq!(tasks.len(), 2);
    assert_eq!(tasks[0].op, ThreadOp::Gen { gen: 0 });
    assert_ne!(tasks[0].slot_offset, tasks[1].slot_offset);
    assert_eq!(st.instances.get(2), Some(&Inst { tag: 9, forked_as: Some(2) }));
    assert_eq!(st.instances.get(1), Some(&Inst { tag: 9, forked_as: None }));
    // freeing the parent leaves the child
    st.aici_step(&mut pending, &AiciStepReq { freed: vec![1], ops: vec![] }, VOCAB, ARENA)
        .ok()
        .unwrap();
    assert!(!st.instances.contains(1));
    assert!(st.instances.contains(2));
}

#[test]
fn op_errors_change_nothing() {
    let mut st: Stepper<Inst> = Stepper::new();
    let mut pending = PendingTable::new();
    pending.park("r".to_string(), Inst { tag: 1, forked_as: None });
    pending.park("s".to_string(), Inst { tag: 2, forked_as: None });
    st.aici_step(&mut pending, &AiciStepReq { freed: vec![], ops: vec![prompt(1, "r")] }, VOCAB, ARENA)
        .ok()
        .unwrap();
    let dup = AiciStepReq { freed: vec![], ops: vec![prompt(1, "s")] };
    assert_eq!(fault(st.aici_step(&mut pending, &dup, VOCAB, ARENA)), Some((0, OpFault::DuplicateId)));
    assert!(pending.contains(&"s".to_string()));
    let bad_clone = AiciStepReq { freed: vec![], ops: vec![gen(1, None), gen(3, Some(8))] };
    assert_eq!(
        fault(st.aici_step(&mut pending, &bad_clone, VOCAB, ARENA)),
        Some((1, OpFault::InvalidCloneId))
    );
    let not_live = AiciStepReq { freed: vec![1], ops: vec![gen(1, None)] };
    assert_eq!(fault(st.aici_step(&mut pending, &not_live, VOCAB, ARENA)), Some((0, OpFault::NotLive)));
    // the failed step did not free instance 1
    assert!(st.instances.contains(1));
    let clone_dup = AiciStepReq { freed: vec![], ops: vec![gen(1, Some(1))] };
    assert_eq!(
        fault(st.aici_step(&mut pending, &clone_dup, VOCAB, ARENA)),
        Some((0, OpFault::DuplicateId))
    );
}

#[test]
fn arena_must_hold_a_slot_per_op() {
    let mut st: Stepper<Inst> = Stepper::new();
    let mut pending = PendingTable::new();
    pending.park("r".to_string(), Inst { tag: 1, forked_as: None });
    let req = AiciStepReq { freed: vec![], ops: vec![prompt(1, "r")] };
    let r = st.aici_step(&mut pending, &req, VOCAB, 4 * VOCAB - 1);
    assert!(matches!(r, Err(StepError::ArenaTooSmall)));
    assert!(pending.contains(&"r".to_string()));
    assert_eq!(st.instances.len(), 0);
}

#[test]
fn failed_fork_is_reported() {
    let mut st: Stepper<Inst> = Stepper::new();
    let mut pending = PendingTable::new();
    pending.park("r".to_string(), Inst { tag: 666, forked_as: None });
    st.aici_step(&mut pending, &AiciStepReq { freed: vec![], ops: vec![prompt(1, "r")] }, VOCAB, ARENA)
        .ok()
        .unwrap();
    let req = AiciStepReq { freed: vec![], ops: vec![gen(2, Some(1))] };
    match st.aici_step(&mut pending, &req, VOCAB, ARENA) {
        Err(StepError::Fork { op, message }) => {
            assert_eq!(op, 0);
            assert_eq!(message, "cannot fork");
        }
        _ => panic!("fork failure expected"),
    }
}

#[test]
fn slots_are_disjoint_and_inside() {
    let mut st: Stepper<Inst> = Stepper::new();
    let mut pending = PendingTable::new();
    let mut ops = vec![];
    for k in 0..8 {
        let name = format!("r{k}");
        pending.park(name.clone(), Inst { tag: k as u32, forked_as: None });
        ops.push(prompt(10 + k, &name));
    }
    let tasks = st.aici_step(&mut pending, &AiciStepReq { freed: vec![], ops }, VOCAB, ARENA).ok().unwrap();
    for (k, t) in tasks.iter().enumerate() {
        assert_eq!(t.slot_offset, k * 4 * VOCAB);
        assert!(t.slot_offset + t.slot_len <= ARENA);
        assert!(t.slot_len >= (VOCAB + 7) / 8);
    }
}

#[test]
fn results_are_keyed_by_instance_id() {
    let mut st: Stepper<Inst> = Stepper::new();
    let mut pending = PendingTable::new();
    pending.park("a".to_string(), Inst { tag: 1, forked_as: None });
    pending.park("b".to_string(), Inst { tag: 2, forked_as: None });
    let req = AiciStepReq { freed: vec![], ops: vec![prompt(7, "a"), prompt(3, "b")] };
    let tasks = st.aici_step(&mut pending, &req, VOCAB, ARENA).ok().unwrap();
    let keyed = collect_results(&tasks, vec!["first", "second"]);
    assert_eq!(keyed, vec![(7, "first"), (3, "second")]);
}
