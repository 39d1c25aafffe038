//! What a program draws: paths made of primitives, filled through triangles
//! or stroked.

use vstd::prelude::*;
use crate::computing::{Address, ColorAddress};
use crate::primitive::{Arc, CubicCurve, Line, QuadraticCurve};

verus! {

/// How a path is stroked.
#[derive(Debug, Copy, Clone, PartialEq)]
pub struct Stroker {
    /// The dash pattern; reserved.
    pub pattern: Address,
    /// The stroke's width is the sum of X and Y at this address.
    pub width: Address,
    pub color: ColorAddress,
}

/// A triangle with a color at each corner.
#[derive(Debug, Copy, Clone, PartialEq)]
pub struct Triangle {
    pub points: [Address; 3],
    pub colors: [ColorAddress; 3],
}

/// The kind of primitive that a step of a path names.
#[derive(Debug, Copy, Clone, PartialEq, Eq, Structural)]
pub enum StepType {
    Arc,
    CubicCurve,
    QuadraticCurve,
    Line,
}

/// How many kinds of step there are: their codes are the numbers below it.
pub const STEP_TYPE_COUNT: u32 = 4;

/// The index of a triangle in the table of triangles.
pub type TriangleIndex = u32;

/// The index of a primitive in the table of its kind.
pub type StepIndex = u32;

/// A path, as the kind and index of each of its primitives.
pub type Path = Vec<(StepType, StepIndex)>;

/// The index of a path in the table of paths.
pub type PathIndex = u32;

/// A background, as the indices of its triangles.
pub type Background = Vec<TriangleIndex>;

/// The index of a background in the table of backgrounds.
pub type BackgroundIndex = u32;

/// The index of a stroker in the table of strokers.
pub type StrokerIndex = u32;

impl StepType {
    /// The code that stands for the kind in a file.
    pub open spec fn code(self) -> u32 {
        match self {
            StepType::Arc => 0,
            StepType::CubicCurve => 1,
            StepType::QuadraticCurve => 2,
            StepType::Line => 3,
        }
    }

    /// The kind that a code stands for; `Line` stands in for the codes that name none.
    pub open spec fn of_code(code: u32) -> StepType {
        if code == 0 {
            StepType::Arc
        } else if code == 1 {
            StepType::CubicCurve
        } else if code == 2 {
            StepType::QuadraticCurve
        } else {
            StepType::Line
        }
    }

    /// The code that stands for the kind in a file.
    pub fn as_u32(self) -> (code: u32)
        ensures
            code == self.code(),
            code < STEP_TYPE_COUNT,
            StepType::of_code(code) == self,
    {
        match self {
            StepType::Arc => 0,
            StepType::CubicCurve => 1,
            StepType::QuadraticCurve => 2,
            StepType::Line => 3,
        }
    }

    /// The kind that a code stands for, if it stands for one.
    pub fn from_u32(code: u32) -> (r: Option<StepType>)
        ensures
            r is Some <==> code < STEP_TYPE_COUNT,
            r matches Some(kind) ==> kind == StepType::of_code(code) && kind.code() == code,
    {
        match code {
            0 => Some(StepType::Arc),
            1 => Some(StepType::CubicCurve),
            2 => Some(StepType::QuadraticCurve),
            3 => Some(StepType::Line),
            _ => None,
        }
    }
}

/// A step of a path with its primitive written out.
#[derive(Debug, Copy, Clone, PartialEq)]
pub enum PathStep {
    Arc(Arc),
    CubicCurve(CubicCurve),
    QuadraticCurve(QuadraticCurve),
    Line(Line),
}

/// A rendering step over a path `P` and, where it fills, a background `B`.
#[derive(Debug, PartialEq)]
pub enum RenderingStep<P, B> {
    /// Fill the path, shading its inside through the background's triangles.
    Clip(P, B),
    /// Draw the outline of the path.
    Stroke(P, Stroker),
}

impl<P: Clone, B: Clone> Clone for RenderingStep<P, B> {
    /// A copy of the step: of the same kind, over copies of its path and
    /// background, with the same stroker.
    fn clone(&self) -> (copy: Self)
        ensures
            self is Clip <==> copy is Clip,
            self matches RenderingStep::Stroke(_, stroker) ==> copy matches RenderingStep::Stroke(
                _,
                other,
            ) && other == stroker,
    {
        match self {
            RenderingStep::Clip(path, background) => RenderingStep::Clip(
                path.clone(),
                background.clone(),
            ),
            RenderingStep::Stroke(path, stroker) => RenderingStep::Stroke(path.clone(), *stroker),
        }
    }
}

impl<P: Copy, B: Copy> Copy for RenderingStep<P, B> {

}

/// A rendering step as a file holds it: by index.
#[derive(Debug, Copy, Clone, PartialEq, Eq, Structural)]
pub enum RawRenderingStep {
    /// Fill: the path's index, then the background's.
    Clip(PathIndex, BackgroundIndex),
    /// Outline: the path's index, then the stroker's.
    Stroke(PathIndex, StrokerIndex),
}

} // verus!
