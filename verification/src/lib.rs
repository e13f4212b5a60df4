//! Composable pull streams of bytes, characters, numbers and grouped items.
//!
//! A pipeline is a chain of stages, each of which pulls items from the stage
//! before it. Every stage states, through the [`stream::Stream`] trait, what
//! kind of item it announces, which items it can ever yield, and exactly how
//! each call of `next` relates to what it pulled from its input.
pub mod item;
pub mod stream;
pub mod source;
pub mod codec;
pub mod convert;
pub mod text;
pub mod window;
pub mod group;
pub mod ends;
