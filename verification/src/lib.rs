//! Cycle-aligned comparison of two digital simulation traces.
//!
//! The crate models a trace as a plain table of signals, each with a
//! time-ordered list of recorded value changes.  On top of that model it
//! provides four-state value classification, hierarchical signal identities,
//! clock-edge calibration, per-cycle snapshot extraction, instance rebasing,
//! and the divergence engine that reports, per signal, the first clock cycle
//! at which two traces disagree.

pub mod engine;
pub mod four_state;
pub mod signal;
pub mod strutil;
pub mod table;
pub mod trace;

pub use engine::find_divergences;
pub use engine::DivergenceMap;
pub use engine::DivergenceRecord;
pub use engine::DIVERGENCE_THRESHOLD;
pub use four_state::Bit;
pub use four_state::FourStateBit;
pub use signal::WaveformSignal;
pub use table::RebasedMap;
pub use table::SignalMap;
pub use trace::SignalChange;
pub use trace::TimeStampInfo;
pub use trace::TraceVariable;
pub use trace::WaveformDB;
