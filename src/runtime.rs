use vstd::prelude::*;

verus! {

/// How strictly the policy layer treats compatibility issues.
#[derive(Debug, Clone, Copy, PartialEq, Eq, Structural)]
pub enum RuntimeMode {
    Strict,
    Hardened,
}

#[derive(Debug, Clone, Copy, PartialEq, Eq, Structural)]
pub enum DecisionAction {
    Allow,
    Reject,
    Repair,
}

#[derive(Debug, Clone, Copy, PartialEq, Eq, Structural)]
pub enum IssueKind {
    UnknownFeature,
    MalformedInput,
    JoinCardinality,
    PolicyOverride,
}

#[derive(Debug, Clone, PartialEq, Eq)]
pub struct CompatibilityIssue {
    pub kind: IssueKind,
    pub subject: String,
    pub detail: String,
}

/// A decision explained in four lines.
#[derive(Debug, Clone, PartialEq, Eq)]
pub struct GalaxyBrainCard {
    pub title: String,
    pub equation: String,
    pub substitution: String,
    pub intuition: String,
}

impl GalaxyBrainCard {
    /// `[title]`, then the equation, the substitution and the intuition, one per line.
    pub fn render_plain(&self) -> (r: String)
        ensures
            r@ == seq!['['] + self.title@ + seq![']', '\n'] + self.equation@ + seq!['\n']
                + self.substitution@ + seq!['\n'] + self.intuition@,
    {
        let mut out = String::from_str("[");
        out.append(self.title.as_str());
        out.append("]\n");
        out.append(self.equation.as_str());
        out.append("\n");
        out.append(self.substitution.as_str());
        out.append("\n");
        out.append(self.intuition.as_str());
        proof {
            reveal_strlit("[");
            reveal_strlit("]\n");
            reveal_strlit("\n");
            assert(out@ =~= seq!['['] + self.title@ + seq![']', '\n'] + self.equation@ + seq!['\n']
                + self.substitution@ + seq!['\n'] + self.intuition@);
        }
        out
    }
}

/// The two facts the policy layer decides on, and its mode.
#[derive(Debug, Clone, PartialEq, Eq)]
pub struct RuntimePolicy {
    pub mode: RuntimeMode,
    pub fail_closed_unknown_features: bool,
    pub hardened_join_row_cap: Option<usize>,
}

impl RuntimePolicy {
    pub fn strict() -> (r: RuntimePolicy)
        ensures
            r.mode == RuntimeMode::Strict,
            r.fail_closed_unknown_features,
            r.hardened_join_row_cap is None,
    {
        RuntimePolicy {
            mode: RuntimeMode::Strict,
            fail_closed_unknown_features: true,
            hardened_join_row_cap: None,
        }
    }

    pub fn hardened(join_row_cap: Option<usize>) -> (r: RuntimePolicy)
        ensures
            r.mode == RuntimeMode::Hardened,
            !r.fail_closed_unknown_features,
            r.hardened_join_row_cap == join_row_cap,
    {
        RuntimePolicy {
            mode: RuntimeMode::Hardened,
            fail_closed_unknown_features: false,
            hardened_join_row_cap: join_row_cap,
        }
    }
}

#[derive(Debug, Clone, Copy, PartialEq, Eq, Structural)]
pub enum RuntimeError {
    ClockSkew,
}

#[derive(Debug, Clone, PartialEq, Eq)]
pub struct ScrubStatus {
    pub last_ok_unix_ms: u64,
    pub status: String,
}

#[derive(Debug, Clone, PartialEq, Eq)]
pub struct DecodeProof {
    pub ts_unix_ms: u64,
    pub reason: String,
    pub recovered_blocks: u32,
    pub proof_hash: String,
}

} // verus!
