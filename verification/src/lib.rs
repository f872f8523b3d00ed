//! Push-style lazy pipelines: the source drives a chain of stages through a
//! receiver, and any stage may ask for the run to end early.
//!
//! A [`Generator`] delivers its values by calling a [`Receiver`], which
//! answers each value with a [`ValueResult`]; a run ends with a
//! [`GeneratorResult`]. A run that was stopped can be taken up again: the next
//! run goes on with the value after the last one delivered. [`StageExt`]
//! chains stages behind a generator, [`Flatten`] walks a generator of
//! generators, and [`IteratorAdaptor`] hands a generator out one value at a
//! time.
//!
//! Every generator is described by the values it has still to deliver, and
//! every receiver and stage by a deterministic machine; the contracts of the
//! functions say what a run does in those terms.
pub mod callable;
pub mod generator;
pub mod laws;
pub mod receiver;
pub mod signal;
pub mod slice;
pub mod stage;
pub mod stage_ext;
pub mod stopping;
pub mod structs;

pub use callable::{Combiner, Mapper, Predicate};
pub use generator::Generator;
pub use receiver::Receiver;
pub use signal::{GeneratorResult, ValueResult};
pub use slice::SliceGenerator;
pub use stage::{Stage, Then};
pub use stage_ext::StageExt;
pub use stopping::StoppingGen;
pub use structs::dedup::Dedup;
pub use structs::filter::Filter;
pub use structs::flatten::Flatten;
pub use structs::iterator::IteratorAdaptor;
pub use structs::sink::{Collect, End};
pub use structs::skip::Skip;
pub use structs::take::Take;
pub use structs::transform::Transform;
