//! A multi-connection download engine: segment planning, the durable job
//! ledger, rate limiting, progress accounting and the decisions of the
//! control surface, each stated and proved over a mathematical model.

pub mod control;
pub mod error;
pub mod extractor;
pub mod formats;
pub mod ledger;
pub mod names;
pub mod plan;
pub mod probe;
pub mod progress;
pub mod settings;
pub mod sys;
pub mod text;
pub mod throttle;
pub mod transfer;
pub mod video;
