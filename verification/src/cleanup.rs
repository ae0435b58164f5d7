//! Cleaning what the modules found: a batch of requests, planned through the modules and run
//! through the guards of [`crate::action`].
//!
//! The Explorer's engine deletes paths the user picked; this one runs the steps a module
//! planned for the items the user picked. What they share is the part that decides what may
//! be touched at all, the guards, the stat and the kind before every deletion, and it is the
//! Explorer's code, called from here.

pub mod engine;
pub mod laws;
pub mod model;
pub mod run;

pub use engine::{preview, reversible, screen, Held, Screened};
pub use model::{CleanupEntry, CleanupEntryOutcome, CleanupOutcome, CleanupPreview, EffectView};
pub use model::{Progress, Request, StepView};
pub use run::{execute, STEP_TIMEOUT};
