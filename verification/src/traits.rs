//! What can be drawn, and what it is drawn on.

use crate::chunk_iter::Source;
use vstd::prelude::*;

verus! {

/// Something that is drawn as a sequence of primitives.
pub trait Renderble {
    type Primitive;

    /// The primitives that draw `self`, in order.
    fn render(&self) -> Vec<Self::Primitive>;
}

/// A surface that takes primitives of type `P`. Each step may fail with an
/// error of the target's own.
pub trait RenderTarget<P: DeepView> {
    type Error;

    fn init(&self) -> Result<(), Self::Error>;

    fn exit(&self) -> Result<(), Self::Error>;

    fn draw<I>(&mut self, items: I) -> Result<(), Self::Error> where I: Source<Item = P>;
}

} // verus!
