//! Values exchanged between the host and a controller on each lifecycle call.
use vstd::prelude::*;

verus! {

/// Index into the vocabulary.
pub type TokenId = u32;

/// Id of a sequence, assigned by the inference engine.
#[derive(Clone, Copy, Debug, PartialEq, Eq, Structural)]
pub struct SeqId(pub u32);

/// Argument of `init_prompt`.
pub struct InitPromptArg {
    pub prompt: Vec<TokenId>,
}

/// Result of `init_prompt`: the prompt that replaces the one given.
pub struct InitPromptResult {
    pub prompt: Vec<TokenId>,
}

impl InitPromptResult {
    /// Keeps the prompt as it was given.
    pub fn from_arg(arg: InitPromptArg) -> (r: Self)
        ensures
            r.prompt@ == arg.prompt@,
    {
        InitPromptResult { prompt: arg.prompt }
    }
}

/// Argument of the legacy `pre_process` call.
pub struct PreProcessArg {}

/// Argument of `mid_process`: what happened to the sequence since the last step.
pub struct MidProcessArg {
    /// Number of tokens removed from the end of the sequence.
    pub backtrack: u32,
    /// Tokens appended after the removal.
    pub tokens: Vec<TokenId>,
    /// The token the model sampled, before any splice was applied.
    pub sampled: Option<TokenId>,
    /// The sequences forked from this one in this step.
    pub fork_group: Vec<SeqId>,
}

/// `acc` with its last `backtrack` tokens removed and `tokens` appended.
pub open spec fn spliced(acc: Seq<TokenId>, backtrack: nat, tokens: Seq<TokenId>) -> Seq<TokenId> {
    acc.subrange(0, acc.len() - backtrack) + tokens
}

/// Removes the last `backtrack` tokens of `acc` and appends `tokens`.
fn splice_into(acc: &mut Vec<TokenId>, backtrack: u32, tokens: &Vec<TokenId>)
    requires
        backtrack <= old(acc)@.len(),
    ensures
        final(acc)@ == spliced(old(acc)@, backtrack as nat, tokens@),
{
    let keep = acc.len() - backtrack as usize;
    acc.truncate(keep);
    let mut i: usize = 0;
    while i < tokens.len()
        invariant
            0 <= i <= tokens@.len(),
            keep == old(acc)@.len() - backtrack,
            acc@ == old(acc)@.subrange(0, keep as int) + tokens@.subrange(0, i as int),
        decreases tokens@.len() - i,
    {
        acc.push(tokens[i]);
        i = i + 1;
        assert(acc@ =~= old(acc)@.subrange(0, keep as int) + tokens@.subrange(0, i as int));
    }
    assert(tokens@.subrange(0, tokens@.len() as int) =~= tokens@);
}

impl MidProcessArg {
    /// Whether `eos` is among the new tokens.
    pub fn has_eos(&self, eos: TokenId) -> (r: bool)
        ensures
            r == self.tokens@.contains(eos),
    {
        let mut i: usize = 0;
        while i < self.tokens.len()
            invariant
                0 <= i <= self.tokens@.len(),
                forall|k: int| 0 <= k < i ==> self.tokens@[k] != eos,
            decreases self.tokens@.len() - i,
        {
            if self.tokens[i] == eos {
                assert(self.tokens@[i as int] == eos);
                return true;
            }
            i = i + 1;
        }
        false
    }

    /// Applies this step's backtrack and new tokens to the accumulated tokens.
    pub fn save_tokens(&self, acc_tokens: &mut Vec<TokenId>)
        requires
            self.backtrack <= old(acc_tokens)@.len(),
        ensures
            final(acc_tokens)@ == spliced(old(acc_tokens)@, self.backtrack as nat, self.tokens@),
            final(acc_tokens)@.len() == old(acc_tokens)@.len() - self.backtrack + self.tokens@.len(),
    {
        splice_into(acc_tokens, self.backtrack, &self.tokens);
    }
}

/// Remove the last `backtrack` tokens (counting the one about to be
/// sampled), then force `ff_tokens`.
pub struct Splice {
    pub backtrack: u32,
    pub ff_tokens: Vec<TokenId>,
}

impl Splice {
    /// Applies the splice to the accumulated tokens.
    pub fn apply(&self, acc_tokens: &mut Vec<TokenId>)
        requires
            self.backtrack <= old(acc_tokens)@.len(),
        ensures
            final(acc_tokens)@ == spliced(old(acc_tokens)@, self.backtrack as nat, self.ff_tokens@),
            final(acc_tokens)@.len() == old(acc_tokens)@.len() - self.backtrack + self.ff_tokens@.len(),
    {
        splice_into(acc_tokens, self.backtrack, &self.ff_tokens);
    }
}

/// Applying a splice that backtracks `b` tokens and forces `t` to a list of
/// length `L` (with `b <= L`) yields a list of length `L - b + |t|`, which
/// starts with the first `L - b` tokens of the list and ends with `t`.
pub proof fn splice_law(acc: Seq<TokenId>, b: nat, t: Seq<TokenId>)
    requires
        b <= acc.len(),
    ensures
        spliced(acc, b, t).len() == acc.len() - b + t.len(),
        spliced(acc, b, t).subrange(0, acc.len() - b) == acc.subrange(0, acc.len() - b),
        spliced(acc, b, t).subrange(acc.len() - b, spliced(acc, b, t).len() as int) == t,
{
    let s = spliced(acc, b, t);
    assert(s.subrange(0, acc.len() - b) =~= acc.subrange(0, acc.len() - b));
    assert(s.subrange(acc.len() - b, s.len() as int) =~= t);
}

/// What a controller asks for one sequence in one step. `S` is the form of
/// the allowed-token mask: the bit words themselves, or their byte offset in
/// the bias arena once written there.
pub enum Branch<S> {
    /// Terminate the sequence.
    Stop,
    /// Sample the next token among those allowed by `mask`; `temperature` is
    /// the bit pattern of an `f32`.
    Sample { mask: S, temperature: Option<u32> },
    /// Backtrack and force tokens.
    Splice(Splice),
}

impl<S> Branch<S> {
    pub open spec fn is_stop_spec(&self) -> bool {
        self is Stop
    }

    pub fn is_stop(&self) -> (r: bool)
        ensures
            r == self.is_stop_spec(),
    {
        match self {
            Branch::Stop => true,
            _ => false,
        }
    }
}

/// Result of `mid_process`. No branch stops the sequence; more than one forks it.
pub struct MidProcessResult {
    pub branches: Vec<Branch<Vec<u32>>>,
}

/// The branches with the mask of every sampling branch replaced by its
/// byte offset in the bias arena.
pub struct ProcessResultOffset {
    pub branches: Vec<Branch<usize>>,
}

pub open spec fn is_sample<S>(b: Branch<S>) -> bool {
    b is Sample
}

impl MidProcessResult {
    pub fn from_branch(branch: Branch<Vec<u32>>) -> (r: Self)
        ensures
            branch.is_stop_spec() ==> r.branches@.len() == 0,
            !branch.is_stop_spec() ==> r.branches@ == seq![branch],
    {
        if branch.is_stop() {
            Self::stop()
        } else {
            MidProcessResult { branches: vec![branch] }
        }
    }

    pub fn stop() -> (r: Self)
        ensures
            r.branches@.len() == 0,
    {
        MidProcessResult { branches: Vec::new() }
    }

    pub fn sample(set: Vec<u32>) -> (r: Self)
        ensures
            r.branches@.len() == 1,
            r.branches@[0] matches Branch::Sample { mask, temperature } && mask@ == set@ && temperature is None,
    {
        Self::sample_with_temp(set, None)
    }

    /// `temperature` is the bit pattern of an `f32`.
    pub fn sample_with_temp(set: Vec<u32>, temperature: Option<u32>) -> (r: Self)
        ensures
            r.branches@.len() == 1,
            r.branches@[0] matches Branch::Sample { mask, temperature: t } && mask@ == set@ && t == temperature,
    {
        Self::from_branch(Branch::Sample { mask: set, temperature })
    }

    pub fn splice(backtrack: u32, ff_tokens: Vec<TokenId>) -> (r: Self)
        ensures
            r.branches@.len() == 1,
            r.branches@[0] matches Branch::Splice(s) && s.backtrack == backtrack && s.ff_tokens@
                == ff_tokens@,
    {
        Self::from_branch(Branch::Splice(Splice { backtrack, ff_tokens }))
    }

    /// A splice that changes nothing.
    pub fn noop() -> (r: Self)
        ensures
            r.branches@.len() == 1,
            r.branches@[0] matches Branch::Splice(s) && s.backtrack == 0 && s.ff_tokens@.len() == 0,
    {
        Self::splice(0, Vec::new())
    }

    pub fn is_stop(&self) -> (r: bool)
        ensures
            r == (self.branches@.len() == 0),
    {
        self.branches.len() == 0
    }

    pub open spec fn num_samples(branches: Seq<Branch<Vec<u32>>>) -> nat
        decreases branches.len(),
    {
        if branches.len() == 0 {
            0
        } else {
            Self::num_samples(branches.drop_last()) + if is_sample(branches.last()) {
                1nat
            } else {
                0nat
            }
        }
    }

    /// The mask of the first sampling branch, if any.
    pub fn sample_mask(&self) -> (r: Option<&Vec<u32>>)
        ensures
            r is None <==> forall|k: int| 0 <= k < self.branches@.len() ==> !is_sample(#[trigger] self.branches@[k]),
            r matches Some(m) ==> exists|k: int|
                0 <= k < self.branches@.len() && (#[trigger] self.branches@[k] matches Branch::Sample { mask, .. }
                    && mask == m) && forall|j: int| 0 <= j < k ==> !is_sample(#[trigger] self.branches@[j]),
    {
        let mut i: usize = 0;
        while i < self.branches.len()
            invariant
                0 <= i <= self.branches@.len(),
                forall|k: int| 0 <= k < i ==> !is_sample(#[trigger] self.branches@[k]),
            decreases self.branches@.len() - i,
        {
            match &self.branches[i] {
                Branch::Sample { mask, .. } => {
                    assert(is_sample(self.branches@[i as int]));
                    return Some(mask);
                },
                _ => {},
            }
            i = i + 1;
        }
        None
    }

    /// Replaces the mask of the sampling branch by `offset`, where the host
    /// wrote it. `None` when more than one branch samples.
    pub fn into_offsets(self, offset: usize) -> (r: Option<ProcessResultOffset>)
        ensures
            r is None <==> Self::num_samples(self.branches@) > 1,
            r matches Some(p) ==> p.branches@.len() == self.branches@.len() && forall|k: int|
                0 <= k < self.branches@.len() ==> match (#[trigger] self.branches@[k], p.branches@[k]) {
                    (Branch::Stop, Branch::Stop) => true,
                    (Branch::Sample { temperature: t1, .. }, Branch::Sample { mask, temperature: t2 }) => mask
                        == offset && t1 == t2,
                    (Branch::Splice(s1), Branch::Splice(s2)) => s1.backtrack == s2.backtrack && s1.ff_tokens@
                        == s2.ff_tokens@,
                    _ => false,
                },
    {
        let ghost orig = self.branches@;
        let mut out: Vec<Branch<usize>> = Vec::new();
        let mut used_logits = false;
        let mut branches = self.branches;
        let mut i: usize = 0;
        let n = branches.len();
        while i < n
            invariant
                n == orig.len(),
                orig == self.branches@,
                0 <= i <= n,
                branches@ == orig.subrange(i as int, n as int),
                out@.len() == i,
                used_logits == (Self::num_samples(orig.subrange(0, i as int)) == 1),
                Self::num_samples(orig.subrange(0, i as int)) <= 1,
                forall|k: int|
                    0 <= k < i ==> match (#[trigger] orig[k], out@[k]) {
                        (Branch::Stop, Branch::Stop) => true,
                        (Branch::Sample { temperature: t1, .. }, Branch::Sample { mask, temperature: t2 }) => mask
                            == offset && t1 == t2,
                        (Branch::Splice(s1), Branch::Splice(s2)) => s1.backtrack == s2.backtrack
                            && s1.ff_tokens@ == s2.ff_tokens@,
                        _ => false,
                    },
            decreases n - i,
        {
            let b = branches.remove(0);
            proof {
                assert(b == orig[i as int]);
                assert(orig.subrange(0, i + 1).drop_last() =~= orig.subrange(0, i as int));
                assert(orig.subrange(0, i + 1).last() == b);
                assert(Self::num_samples(orig.subrange(0, i + 1)) == Self::num_samples(orig.subrange(0, i as int))
                    + if is_sample(b) { 1nat } else { 0nat });
            }
            let mapped = match b {
                Branch::Stop => Branch::Stop,
                Branch::Sample { mask: _, temperature } => {
                    if used_logits {
                        proof {
                            lemma_num_samples_prefix(orig, i as int + 1);
                        }
                        return None;
                    }
                    used_logits = true;
                    Branch::Sample { mask: offset, temperature }
                },
                Branch::Splice(s) => Branch::Splice(s),
            };
            out.push(mapped);
            i = i + 1;
        }
        proof {
            assert(orig.subrange(0, n as int) =~= orig);
        }
        Some(ProcessResultOffset { branches: out })
    }
}

proof fn lemma_num_samples_prefix(s: Seq<Branch<Vec<u32>>>, i: int)
    requires
        0 <= i <= s.len(),
    ensures
        MidProcessResult::num_samples(s.subrange(0, i)) <= MidProcessResult::num_samples(s),
    decreases s.len() - i,
{
    if i < s.len() {
        lemma_num_samples_prefix(s, i + 1);
        assert(s.subrange(0, i + 1).drop_last() =~= s.subrange(0, i));
    } else {
        assert(s.subrange(0, i) =~= s);
    }
}

/// Argument of `post_process`.
pub struct PostProcessArg {
    pub tokens: Vec<TokenId>,
    pub backtrack: u32,
}

/// Result of `post_process`.
#[derive(Debug, PartialEq, Eq, Structural)]
pub struct PostProcessResult {
    pub stop: bool,
}

impl PostProcessResult {
    pub fn stop() -> (r: Self)
        ensures
            r.stop,
    {
        PostProcessResult { stop: true }
    }

    pub fn continue_() -> (r: Self)
        ensures
            !r.stop,
    {
        PostProcessResult { stop: false }
    }

    /// The default: stop exactly when `eos` is among the new tokens.
    pub fn from_arg(arg: &PostProcessArg, eos: TokenId) -> (r: Self)
        ensures
            r.stop == arg.tokens@.contains(eos),
    {
        let mut i: usize = 0;
        while i < arg.tokens.len()
            invariant
                0 <= i <= arg.tokens@.len(),
                forall|k: int| 0 <= k < i ==> arg.tokens@[k] != eos,
            decreases arg.tokens@.len() - i,
        {
            if arg.tokens[i] == eos {
                assert(arg.tokens@[i as int] == eos);
                return PostProcessResult { stop: true };
            }
            i = i + 1;
        }
        PostProcessResult { stop: false }
    }
}

/// Result of the legacy `pre_process` call. No mask stops the sequence, one
/// continues it, more fork it that many ways. A mask holds the bit patterns of
/// `f32` weights, one per token of the sequence, or is empty for all ones.
pub struct PreProcessResult {
    pub attention_masks: Vec<Vec<u32>>,
    /// Pause this sequence for the next step.
    pub suspend: bool,
}

impl PreProcessResult {
    pub fn new(attention_masks: Vec<Vec<u32>>) -> (r: Self)
        ensures
            r.attention_masks@ == attention_masks@,
            !r.suspend,
    {
        PreProcessResult { attention_masks, suspend: false }
    }

    /// Continue with one all-ones mask.
    pub fn continue_() -> (r: Self)
        ensures
            r.attention_masks@.len() == 1,
            r.attention_masks@[0]@.len() == 0,
            !r.suspend,
    {
        PreProcessResult::new(vec![Vec::new()])
    }

    /// Continue with one all-ones mask, but pause for the next step.
    pub fn suspend() -> (r: Self)
        ensures
            r.attention_masks@.len() == 1,
            r.attention_masks@[0]@.len() == 0,
            r.suspend,
    {
        PreProcessResult { attention_masks: vec![Vec::new()], suspend: true }
    }

    pub fn stop() -> (r: Self)
        ensures
            r.attention_masks@.len() == 0,
            !r.suspend,
    {
        PreProcessResult::new(Vec::new())
    }
}

} // verus!
