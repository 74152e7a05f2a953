//! An in-memory XML element tree.
//!
//! A linear stream of lexical events (start tag, end tag, text, ...) is
//! folded into a tree of [`Element`] nodes, and a tree is unfolded back into
//! an equivalent event stream.  Lexical scanning of bytes into events is the
//! business of an outside tokenizer; emitting events as bytes is the
//! business of an outside emitter.

pub mod builder;
pub mod element;
pub mod event;
pub mod grammar;
pub mod laws;
pub mod model;
pub mod serializer;
pub mod tokenizer;

pub use builder::ParseError;
pub use element::Element;
pub use event::Event;
pub use model::ElemModel;
pub use model::EventModel;
pub use model::ParseErrModel;
