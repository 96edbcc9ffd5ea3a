use aicirt::protocol::{
    Branch, InitPromptArg, InitPromptResult, MidProcessArg, MidProcessResult, PostProcessArg,
    PostProcessResult, PreProcessResult, SeqId, Splice,
};

fn mid_arg(backtrack: u32, tokens: Vec<u32>) -> MidProcessArg {
    MidProcessArg { backtrack, tokens, sampled: None, fork_group: vec![SeqId(1)] }
}

#[test]
fn save_tokens_backtracks_then_appends() {
    let mut acc = vec![1, 2, 3, 4];
    mid_arg(2, vec![7, 8, 9]).save_tokens(&mut acc);
    assert_eq!(acc, vec![1, 2, 7, 8, 9]);
    assert_eq!(acc.len(), 4 - 2 + 3);
}

#[test]
fn save_tokens_edges() {
    let mut acc = vec![5, 6];
    mid_arg(2, vec![]).save_tokens(&mut acc);
    assert!(acc.is_empty());
    let mut acc2: Vec<u32> = vec![];
    mid_arg(0, vec![3]).save_tokens(&mut acc2);
    assert_eq!(acc2, vec![3]);
}

#[test]
fn splice_forces_token() {
    // a controller that splices in token 42 without backtracking
    let res = MidProcessResult::splice(0, vec![42]);
    assert_eq!(res.branches.len(), 1);
    let mut seq = vec![10, 11];
    match &res.branches[0] {
        Branch::Splice(s) => s.apply(&mut seq),
        _ => panic!("a splice"),
    }
    assert_eq!(seq, vec![10, 11, 42]);
    let eos = 2;
    let post = PostProcessResult::from_arg(&PostProcessArg { tokens: vec![42], backtrack: 0 }, eos);
    assert!(!post.stop);
    let post_eos = PostProcessResult::from_arg(&PostProcessArg { tokens: vec![42], backtrack: 0 }, 42);
    assert!(post_eos.stop);
}

#[test]
fn splice_apply_law_lengths() {
    let s = Splice { backtrack: 3, ff_tokens: vec![1, 2] };
    let mut acc = vec![9, 9, 9, 9, 9];
    s.apply(&mut acc);
    assert_eq!(acc, vec![9, 9, 1, 2]);
}

#[test]
fn has_eos_checks_new_tokens() {
    let arg = mid_arg(0, vec![4, 5, 6]);
    assert!(arg.has_eos(5));
    assert!(!arg.has_eos(7));
}

#[test]
fn post_process_constructors() {
    assert!(PostProcessResult::stop().stop);
    assert!(!PostProcessResult::continue_().stop);
    assert_eq!(PostProcessResult::stop(), PostProcessResult { stop: true });
}

#[test]
fn init_prompt_keeps_prompt() {
    let r = InitPromptResult::from_arg(InitPromptArg { prompt: vec![1, 2, 3] });
    assert_eq!(r.prompt, vec![1, 2, 3]);
}

#[test]
fn mid_process_result_constructors() {
    assert!(MidProcessResult::stop().is_stop());
    assert!(MidProcessResult::from_branch(Branch::Stop).is_stop());
    let noop = MidProcessResult::noop();
    assert!(!noop.is_stop());
    match &noop.branches[0] {
        Branch::Splice(s) => {
            assert_eq!(s.backtrack, 0);
            assert!(s.ff_tokens.is_empty());
        }
        _ => panic!("a splice"),
    }
    let t = 0.5f32.to_bits();
    let s = MidProcessResult::sample_with_temp(vec![0xff], Some(t));
    match &s.branches[0] {
        Branch::Sample { mask, temperature } => {
            assert_eq!(mask, &vec![0xff]);
            assert_eq!(*temperature, Some(t));
        }
        _ => panic!("a sample"),
    }
    assert!(MidProcessResult::sample(vec![1]).sample_mask().is_some());
    assert!(MidProcessResult::noop().sample_mask().is_none());
}

#[test]
fn two_branches_carry_through_offsets() {
    let res = MidProcessResult {
        branches: vec![
            Branch::Sample { mask: vec![1, 2], temperature: None },
            Branch::Splice(Splice { backtrack: 1, ff_tokens: vec![5] }),
        ],
    };
    let out = res.into_offsets(4096).unwrap();
    assert_eq!(out.branches.len(), 2);
    match &out.branches[0] {
        Branch::Sample { mask, temperature } => {
            assert_eq!(*mask, 4096);
            assert!(temperature.is_none());
        }
        _ => panic!("a sample"),
    }
    match &out.branches[1] {
        Branch::Splice(s) => {
            assert_eq!(s.backtrack, 1);
            assert_eq!(s.ff_tokens, vec![5]);
        }
        _ => panic!("a splice"),
    }
}

#[test]
fn two_sampling_branches_are_refused() {
    let res = MidProcessResult {
        branches: vec![
            Branch::Sample { mask: vec![1], temperature: None },
            Branch::Sample { mask: vec![2], temperature: None },
        ],
    };
    assert!(res.into_offsets(0).is_none());
}

#[test]
fn pre_process_results() {
    let c = PreProcessResult::continue_();
    assert_eq!(c.attention_masks.len(), 1);
    assert!(c.attention_masks[0].is_empty());
    assert!(!c.suspend);
    let s = PreProcessResult::suspend();
    assert!(s.suspend);
    assert_eq!(s.attention_masks.len(), 1);
    assert!(PreProcessResult::stop().attention_masks.is_empty());
    let fork = PreProcessResult::new(vec![vec![], vec![1.0f32.to_bits(), 0.0f32.to_bits()]]);
    assert_eq!(fork.attention_masks.len(), 2);
    assert_eq!(f32::from_bits(fork.attention_masks[1][0]), 1.0);
}
