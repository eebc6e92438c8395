//! What holds of the library as a whole: laws that relate several operations.
pub mod admission;
pub mod asking;
pub mod attention;
pub mod bookkeeping;
pub mod calls;
pub mod completion;
pub mod config;
pub mod conservation;
pub mod delivery;
pub mod depth;
pub mod ending;
pub mod fidelity;
pub mod invariants;
pub mod limits;
pub mod order;
pub mod politeness;
pub mod progress;
pub mod reading;
pub mod replies;
pub mod respect;
pub mod settings;
pub mod spans;
pub mod texts;
