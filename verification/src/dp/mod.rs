//! Generic dynamic-programming engines over lazily discovered state graphs.

pub mod bucked_dp;
pub mod buckets;
pub mod digit_dp;
pub mod discovery;
pub mod dp;
pub mod memorized_dfs;
pub mod pull_dp;
pub mod push_dp;
pub mod push_laws;
pub mod topological_dp;

pub use bucked_dp::{DagDPRules, Engine};
pub use digit_dp::{DigitDP, DigitDPRules};
pub use dp::{DpTable, DpValue, DP};
pub use memorized_dfs::{BestSearchable, MemoizedDFS, Searchable};
pub use pull_dp::{ChildRef, Plan, PullDPRules, PullDpEngine};
pub use push_dp::{PushDPRules, PushDpEngine, PushDpEngineEnhanced};
pub use topological_dp::{TopologicalDPRules, TopologicalDPSolver};
