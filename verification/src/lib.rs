pub mod account;
pub mod args;
pub mod engine;
pub mod laws;
pub mod meminfo;
pub mod ratio;
pub mod text;
pub mod threshold;

pub use args::{argvec_asks_for_help, validate, ComparationMode, InputError, Invocation};
pub use engine::{conclude, launch, plan, start, ChildReport, Failure, Outcome, Plan, Step};
pub use meminfo::{find_i64_in_line_starting_with, find_line_starting_with, MemoryStats};
pub use ratio::{Ratio, UsageRatios};
pub use threshold::{Threshold, ThresholdError};
