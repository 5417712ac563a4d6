//! The core of an embeddable scripting host: the tagged values that cross
//! between host and script, the plans of engine calls that carry them over,
//! and the bookkeeping of native functions and objects.
//!
//! Nothing in this crate touches a script engine. Every operation either
//! computes the sequence of engine calls to make ([`engine::Op`]), asks the
//! engine a question and takes the answer ([`reader::Ask`]), or interprets
//! what was read from the engine ([`engine::Slot`]); a driver performs the
//! calls. What the calls do to an engine is written down as a model
//! ([`engine::Engine`]), against which the plans are proved ([`laws`]).

pub mod error;
pub mod number;
pub mod decimal;
pub mod bignum;
pub mod value;
pub mod convert;
pub mod transcode;
pub mod engine;
pub mod marshal;
pub mod reader;
pub mod registry;
pub mod object_builder;
pub mod types;
pub mod invocation;
pub mod rubtle;
pub mod bridge;
pub mod laws;
pub mod debug;

pub use error::Error;
pub use invocation::Invocation;
pub use number::Number;
pub use object_builder::{Object, ObjectBuilder};
pub use rubtle::Rubtle;
pub use types::CallbackResult;
pub use value::{Value, ValueView};
