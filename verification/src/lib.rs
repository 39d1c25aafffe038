//! Railway: a compact, resolution-independent 2D vector-graphic format.
//!
//! A Railway file holds a program: named arguments, a tape of instructions over
//! two-component values, and rendering steps that draw filled and stroked shapes
//! from the computed values. This crate holds the binary container, the value
//! machine's dispatch and change tracking, and the compositor.
//!
//! Every numeric value is an IEEE-754 binary32 number held as its bit pattern:
//! the container stores it that way, and the machine moves and compares it
//! without arithmetic. The operations that calculate are evaluated by a
//! function that the caller hands to the machine.
//!
//! - [`ieee`]: order and equality of binary32 numbers on their bit patterns.
//! - [`computing`]: couples, operations, instructions, and the run of a tape
//!   over a stack with its change flags.
//! - [`primitive`], [`drawing`]: what a program draws.
//! - [`wire`], [`layout`]: the words and the sections of a file.
//! - [`reading`], [`format`]: from bytes to a [`Program`], with every check.
//! - [`writing`], [`format`]: from a [`Program`] to bytes.
//! - [`roundtrip`]: what is written is read back.
//! - [`serialized`]: a program kept as its bytes and read on demand.
//! - [`authoring`]: a file from drawings in direct form, each record once.
//! - [`rendering`]: blending through a mask, and the session of a renderer.

pub mod ieee;
pub mod computing;
pub mod primitive;
pub mod drawing;
pub mod wire;
pub mod layout;
pub mod format;
pub mod reading;
pub mod writing;
pub mod roundtrip;
pub mod serialized;
pub mod rendering;
pub mod authoring;

pub use authoring::{assemble, serialize, Drawing};
pub use computing::{
    Address, Argument, ColorAddress, Couple, Instruction, Operation, Output, ParsingError,
    ParsingResult,
};
pub use drawing::{
    Background, Path, PathStep, RawRenderingStep, RenderingStep, StepType, Stroker, Triangle,
};
pub use format::Program;
pub use primitive::{Arc, CubicCurve, Line, QuadraticCurve};
pub use rendering::{blend_pixel, NaiveRenderer, Pixel};
pub use serialized::{
    BackgroundIterator, PathIterator, RawBackground, RawPath, SerializedProgram,
};
