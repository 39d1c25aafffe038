//! The shape of a Railway file, as functions of its bytes.
//!
//! A file is the magic `RWY0`, fourteen tables of big-endian 32-bit words, and
//! a section of names. A table is a count and that many rows of a fixed width.
//! The names follow a byte count; each is UTF-8 and ends with a zero byte, and
//! a row names one by the offset of its first byte.

use vstd::prelude::*;
use vstd::utf8::{decode_utf8, valid_utf8};
use crate::computing::{ArgumentView, Couple, Instruction, Operation, OutputView, OPERATION_COUNT};
use crate::drawing::{RawRenderingStep, StepType, Stroker, Triangle, STEP_TYPE_COUNT};
use crate::primitive::{Arc, CubicCurve, Line, QuadraticCurve};
use crate::wire::word_at;

verus! {

/// The table of arguments: the first section.
pub const ARGUMENTS: usize = 0;

/// The table of instructions.
pub const INSTRUCTIONS: usize = 1;

/// The table of outputs.
pub const OUTPUTS: usize = 2;

/// The table of triangles.
pub const TRIANGLES: usize = 3;

/// The table of arcs.
pub const ARCS: usize = 4;

/// The table of cubic curves.
pub const CUBIC_CURVES: usize = 5;

/// The table of quadratic curves.
pub const QUADRATIC_CURVES: usize = 6;

/// The table of lines.
pub const LINES: usize = 7;

/// The table of strokers.
pub const STROKERS: usize = 8;

/// The pool of steps, which the paths are runs of.
pub const STEPS: usize = 9;

/// The table of paths.
pub const PATHS: usize = 10;

/// The pool of triangle indices, which the backgrounds are runs of.
pub const TRIANGLE_INDEXES: usize = 11;

/// The table of backgrounds.
pub const BACKGROUNDS: usize = 12;

/// The table of rendering steps.
pub const RENDERING_STEPS: usize = 13;

/// The section of names, after the fourteen tables.
pub const STRINGS: usize = 14;

/// The name offset of a row that has no name.
pub const NO_NAME: u32 = 0xFFFF_FFFF;

/// The tag of a rendering step that fills.
pub const CLIP: u32 = 0;

/// The tag of a rendering step that strokes.
pub const STROKE: u32 = 1;

/// What a program is: its twelve tables, with each path and background
/// written out and each name as characters.
pub struct ProgramView {
    pub arguments: Seq<ArgumentView>,
    pub instructions: Seq<Instruction>,
    pub outputs: Seq<OutputView>,
    pub triangles: Seq<Triangle>,
    pub arcs: Seq<Arc>,
    pub cubic_curves: Seq<CubicCurve>,
    pub quadratic_curves: Seq<QuadraticCurve>,
    pub lines: Seq<Line>,
    pub strokers: Seq<Stroker>,
    pub paths: Seq<Seq<(StepType, u32)>>,
    pub backgrounds: Seq<Seq<u32>>,
    pub rendering_steps: Seq<RawRenderingStep>,
}

impl ProgramView {
    /// How many values the stack of the program holds: one for each argument,
    /// then one for each instruction.
    pub open spec fn stack_size(self) -> nat {
        self.arguments.len() + self.instructions.len()
    }

    /// True when the operands of instruction `i` are all defined before it.
    pub open spec fn instruction_ok(self, i: int) -> bool {
        let limit = self.arguments.len() + i;
        let operands = self.instructions[i].operands;
        operands[0] < limit && operands[1] < limit && operands[2] < limit
    }

    /// True when the addresses of the triangle are all in the stack.
    pub open spec fn triangle_ok(self, triangle: Triangle) -> bool {
        let limit = self.stack_size();
        &&& triangle.points[0] < limit
        &&& triangle.points[1] < limit
        &&& triangle.points[2] < limit
        &&& triangle.colors[0][0] < limit
        &&& triangle.colors[0][1] < limit
        &&& triangle.colors[1][0] < limit
        &&& triangle.colors[1][1] < limit
        &&& triangle.colors[2][0] < limit
        &&& triangle.colors[2][1] < limit
    }

    /// True when the addresses of the arc are all in the stack.
    pub open spec fn arc_ok(self, arc: Arc) -> bool {
        let limit = self.stack_size();
        arc.start_point < limit && arc.center < limit && arc.deltas < limit
    }

    /// True when the addresses of the curve are all in the stack.
    pub open spec fn cubic_curve_ok(self, curve: CubicCurve) -> bool {
        let limit = self.stack_size();
        &&& curve.points[0] < limit
        &&& curve.points[1] < limit
        &&& curve.points[2] < limit
        &&& curve.points[3] < limit
    }

    /// True when the addresses of the curve are all in the stack.
    pub open spec fn quadratic_curve_ok(self, curve: QuadraticCurve) -> bool {
        let limit = self.stack_size();
        curve.points[0] < limit && curve.points[1] < limit && curve.points[2] < limit
    }

    /// True when the addresses of the line are both in the stack.
    pub open spec fn line_ok(self, line: Line) -> bool {
        let limit = self.stack_size();
        line.points[0] < limit && line.points[1] < limit
    }

    /// True when the addresses of the stroker are all in the stack.
    pub open spec fn stroker_ok(self, stroker: Stroker) -> bool {
        let limit = self.stack_size();
        &&& stroker.pattern < limit
        &&& stroker.width < limit
        &&& stroker.color[0] < limit
        &&& stroker.color[1] < limit
    }

    /// True when the step names a primitive that the program has.
    pub open spec fn step_ok(self, step: (StepType, u32)) -> bool {
        match step.0 {
            StepType::Arc => step.1 < self.arcs.len(),
            StepType::CubicCurve => step.1 < self.cubic_curves.len(),
            StepType::QuadraticCurve => step.1 < self.quadratic_curves.len(),
            StepType::Line => step.1 < self.lines.len(),
        }
    }

    /// True when the rendering step names a path and a background or stroker
    /// that the program has.
    pub open spec fn rendering_step_ok(self, step: RawRenderingStep) -> bool {
        match step {
            RawRenderingStep::Clip(path, background) => path < self.paths.len() && background
                < self.backgrounds.len(),
            RawRenderingStep::Stroke(path, stroker) => path < self.paths.len() && stroker
                < self.strokers.len(),
        }
    }

    /// True when every address and index of the program has its referent: an
    /// instruction reads only what is defined before it, every other address
    /// is in the stack, and every index is in the table that it names.
    pub open spec fn indexed(self) -> bool {
        &&& forall|i: int| 0 <= i < self.instructions.len() ==> self.instruction_ok(i)
        &&& forall|i: int|
            0 <= i < self.outputs.len() ==> (#[trigger] self.outputs[i]).address < self.stack_size()
        &&& forall|i: int|
            0 <= i < self.triangles.len() ==> self.triangle_ok(#[trigger] self.triangles[i])
        &&& forall|i: int| 0 <= i < self.arcs.len() ==> self.arc_ok(#[trigger] self.arcs[i])
        &&& forall|i: int|
            0 <= i < self.cubic_curves.len() ==> self.cubic_curve_ok(#[trigger] self.cubic_curves[i])
        &&& forall|i: int|
            0 <= i < self.quadratic_curves.len() ==> self.quadratic_curve_ok(
                #[trigger] self.quadratic_curves[i],
            )
        &&& forall|i: int| 0 <= i < self.lines.len() ==> self.line_ok(#[trigger] self.lines[i])
        &&& forall|i: int|
            0 <= i < self.strokers.len() ==> self.stroker_ok(#[trigger] self.strokers[i])
        &&& forall|p: int, k: int|
            0 <= p < self.paths.len() && 0 <= k < self.paths[p].len() ==> self.step_ok(
                #[trigger] self.paths[p][k],
            )
        &&& forall|g: int, k: int|
            0 <= g < self.backgrounds.len() && 0 <= k < self.backgrounds[g].len()
                ==> #[trigger] self.backgrounds[g][k] < self.triangles.len()
        &&& forall|i: int|
            0 <= i < self.rendering_steps.len() ==> self.rendering_step_ok(
                #[trigger] self.rendering_steps[i],
            )
    }
}

/// The words in a row of each table; the names are counted in bytes.
pub open spec fn width(section: int) -> int {
    if section == ARGUMENTS {
        7
    } else if section == INSTRUCTIONS {
        4
    } else if section == OUTPUTS {
        2
    } else if section == TRIANGLES {
        9
    } else if section == ARCS {
        3
    } else if section == CUBIC_CURVES {
        4
    } else if section == QUADRATIC_CURVES {
        3
    } else if section == LINES {
        2
    } else if section == STROKERS {
        4
    } else if section == STEPS {
        2
    } else if section == PATHS {
        2
    } else if section == TRIANGLE_INDEXES {
        1
    } else if section == BACKGROUNDS {
        2
    } else {
        3
    }
}

/// True when the file begins with `RWY0`.
pub open spec fn has_magic(file: Seq<u8>) -> bool {
    &&& file.len() >= 4
    &&& file[0] == 0x52
    &&& file[1] == 0x57
    &&& file[2] == 0x59
    &&& file[3] == 0x30
}

/// The word at place `k` after the magic.
pub open spec fn word(file: Seq<u8>, k: int) -> u32 {
    word_at(file, 4 + 4 * k)
}

/// How many whole words follow the magic.
pub open spec fn capacity(file: Seq<u8>) -> int {
    (file.len() - 4) / 4
}

/// The place of a section's count, in words after the magic: each section
/// begins where the one before it ends.
pub open spec fn start(file: Seq<u8>, section: int) -> int
    decreases section,
{
    if section <= 0 {
        0
    } else {
        start(file, section - 1) + 1 + word(file, start(file, section - 1)) * width(section - 1)
    }
}

/// How many rows a table has; for the names, how many bytes.
pub open spec fn count(file: Seq<u8>, section: int) -> u32 {
    word(file, start(file, section))
}

/// The word in a column of a row of a table.
pub open spec fn cell(file: Seq<u8>, section: int, row: int, column: int) -> u32 {
    word(file, start(file, section) + 1 + row * width(section) + column)
}

/// Where the file should end: after the bytes of the names.
pub open spec fn end(file: Seq<u8>) -> int {
    4 + 4 * (start(file, STRINGS as int) + 1) + count(file, STRINGS as int)
}

/// True when a count or a row that the counts announce lies beyond the end of the file.
pub open spec fn truncated(file: Seq<u8>) -> bool {
    ||| exists|section: int| 0 <= section <= STRINGS && start(file, section) >= capacity(file)
    ||| end(file) > file.len()
}

/// True when the file has exactly the bytes that its counts announce.
pub open spec fn framed(file: Seq<u8>) -> bool {
    &&& has_magic(file)
    &&& forall|section: int| 0 <= section <= STRINGS ==> start(file, section) < capacity(file)
    &&& end(file) == file.len()
}

/// The bytes of the names.
pub open spec fn names(file: Seq<u8>) -> Seq<u8> {
    file.subrange(end(file) - count(file, STRINGS as int), end(file))
}

/// The place of the first zero byte at or after `from`; a place at or beyond
/// the end of `text` when there is none.
pub open spec fn terminator(text: Seq<u8>, from: int) -> int
    decreases text.len() - from,
{
    if from >= text.len() {
        from
    } else if text[from] == 0 {
        from
    } else {
        terminator(text, from + 1)
    }
}

/// The bytes of the name that begins at `offset`: those before the next zero byte.
pub open spec fn name_bytes(text: Seq<u8>, offset: int) -> Seq<u8> {
    text.subrange(offset, terminator(text, offset))
}

/// True when `offset` names nothing, or a run of UTF-8 that a zero byte ends
/// inside `text`.
pub open spec fn name_ok(text: Seq<u8>, offset: u32) -> bool {
    offset != NO_NAME ==> {
        &&& offset < text.len()
        &&& terminator(text, offset as int) < text.len()
        &&& valid_utf8(name_bytes(text, offset as int))
    }
}

/// The name that `offset` stands for.
pub open spec fn name_of(text: Seq<u8>, offset: u32) -> Option<Seq<char>> {
    if offset == NO_NAME {
        None
    } else {
        Some(decode_utf8(name_bytes(text, offset as int)))
    }
}

/// The argument that a row of the table of arguments holds: the offset of
/// its name, its value, then the least and the greatest of its range, X
/// before Y.
pub open spec fn argument_at(file: Seq<u8>, row: int) -> ArgumentView {
    let s = ARGUMENTS as int;
    ArgumentView {
        name: name_of(names(file), cell(file, s, row, 0)),
        value: Couple { x: cell(file, s, row, 1), y: cell(file, s, row, 2) },
        range: (
            Couple { x: cell(file, s, row, 3), y: cell(file, s, row, 5) },
            Couple { x: cell(file, s, row, 4), y: cell(file, s, row, 6) },
        ),
    }
}

/// The instruction that a row holds: the code of its operation and its
/// three operands.
pub open spec fn instruction_at(file: Seq<u8>, row: int) -> Instruction {
    let s = INSTRUCTIONS as int;
    Instruction {
        operation: Operation::of_code(cell(file, s, row, 0)),
        operands: [cell(file, s, row, 1), cell(file, s, row, 2), cell(file, s, row, 3)],
    }
}

/// The output that a row holds: the offset of its name and its address.
pub open spec fn output_at(file: Seq<u8>, row: int) -> OutputView {
    let s = OUTPUTS as int;
    OutputView { name: name_of(names(file), cell(file, s, row, 0)), address: cell(file, s, row, 1) }
}

/// The triangle that a row holds: its three points, then the two color
/// addresses of each point.
pub open spec fn triangle_at(file: Seq<u8>, row: int) -> Triangle {
    let s = TRIANGLES as int;
    Triangle {
        points: [cell(file, s, row, 0), cell(file, s, row, 1), cell(file, s, row, 2)],
        colors: [
            [cell(file, s, row, 3), cell(file, s, row, 4)],
            [cell(file, s, row, 5), cell(file, s, row, 6)],
            [cell(file, s, row, 7), cell(file, s, row, 8)],
        ],
    }
}

/// The arc that a row holds: its start, its center and its deltas.
pub open spec fn arc_at(file: Seq<u8>, row: int) -> Arc {
    let s = ARCS as int;
    Arc {
        start_point: cell(file, s, row, 0),
        center: cell(file, s, row, 1),
        deltas: cell(file, s, row, 2),
    }
}

/// The cubic curve that a row holds: its four points.
pub open spec fn cubic_curve_at(file: Seq<u8>, row: int) -> CubicCurve {
    let s = CUBIC_CURVES as int;
    CubicCurve {
        points: [
            cell(file, s, row, 0),
            cell(file, s, row, 1),
            cell(file, s, row, 2),
            cell(file, s, row, 3),
        ],
    }
}

/// The quadratic curve that a row holds: its three points.
pub open spec fn quadratic_curve_at(file: Seq<u8>, row: int) -> QuadraticCurve {
    let s = QUADRATIC_CURVES as int;
    QuadraticCurve { points: [cell(file, s, row, 0), cell(file, s, row, 1), cell(file, s, row, 2)] }
}

/// The line that a row holds: its two points.
pub open spec fn line_at(file: Seq<u8>, row: int) -> Line {
    let s = LINES as int;
    Line { points: [cell(file, s, row, 0), cell(file, s, row, 1)] }
}

/// The stroker that a row holds: its pattern, its width and its two color
/// addresses.
pub open spec fn stroker_at(file: Seq<u8>, row: int) -> Stroker {
    let s = STROKERS as int;
    Stroker {
        pattern: cell(file, s, row, 0),
        width: cell(file, s, row, 1),
        color: [cell(file, s, row, 2), cell(file, s, row, 3)],
    }
}

/// A row of the pool of steps: the kind of a primitive and its index.
pub open spec fn step_at(file: Seq<u8>, row: int) -> (StepType, u32) {
    (StepType::of_code(cell(file, STEPS as int, row, 0)), cell(file, STEPS as int, row, 1))
}

/// A path: the run of the pool of steps that its row gives by first row and length.
pub open spec fn path_at(file: Seq<u8>, row: int) -> Seq<(StepType, u32)> {
    let first = cell(file, PATHS as int, row, 0);
    Seq::new(cell(file, PATHS as int, row, 1) as nat, |k: int| step_at(file, first + k))
}

/// A background: the run of the pool of triangle indices that its row gives.
pub open spec fn background_at(file: Seq<u8>, row: int) -> Seq<u32> {
    let first = cell(file, BACKGROUNDS as int, row, 0);
    Seq::new(
        cell(file, BACKGROUNDS as int, row, 1) as nat,
        |k: int| cell(file, TRIANGLE_INDEXES as int, first + k, 0),
    )
}

/// The rendering step that a row holds: its tag, the index of its path,
/// and the index of its background or stroker.
pub open spec fn rendering_step_at(file: Seq<u8>, row: int) -> RawRenderingStep {
    let s = RENDERING_STEPS as int;
    if cell(file, s, row, 0) == CLIP {
        RawRenderingStep::Clip(cell(file, s, row, 1), cell(file, s, row, 2))
    } else {
        RawRenderingStep::Stroke(cell(file, s, row, 1), cell(file, s, row, 2))
    }
}

/// The program that a file holds.
pub open spec fn decoded(file: Seq<u8>) -> ProgramView {
    ProgramView {
        arguments: Seq::new(count(file, ARGUMENTS as int) as nat, |i: int| argument_at(file, i)),
        instructions: Seq::new(
            count(file, INSTRUCTIONS as int) as nat,
            |i: int| instruction_at(file, i),
        ),
        outputs: Seq::new(count(file, OUTPUTS as int) as nat, |i: int| output_at(file, i)),
        triangles: Seq::new(count(file, TRIANGLES as int) as nat, |i: int| triangle_at(file, i)),
        arcs: Seq::new(count(file, ARCS as int) as nat, |i: int| arc_at(file, i)),
        cubic_curves: Seq::new(
            count(file, CUBIC_CURVES as int) as nat,
            |i: int| cubic_curve_at(file, i),
        ),
        quadratic_curves: Seq::new(
            count(file, QUADRATIC_CURVES as int) as nat,
            |i: int| quadratic_curve_at(file, i),
        ),
        lines: Seq::new(count(file, LINES as int) as nat, |i: int| line_at(file, i)),
        strokers: Seq::new(count(file, STROKERS as int) as nat, |i: int| stroker_at(file, i)),
        paths: Seq::new(count(file, PATHS as int) as nat, |i: int| path_at(file, i)),
        backgrounds: Seq::new(
            count(file, BACKGROUNDS as int) as nat,
            |i: int| background_at(file, i),
        ),
        rendering_steps: Seq::new(
            count(file, RENDERING_STEPS as int) as nat,
            |i: int| rendering_step_at(file, i),
        ),
    }
}

/// True when every instruction's code names an operation.
pub open spec fn opcodes_ok(file: Seq<u8>) -> bool {
    forall|i: int|
        0 <= i < count(file, INSTRUCTIONS as int) ==> #[trigger] cell(
            file,
            INSTRUCTIONS as int,
            i,
            0,
        ) < OPERATION_COUNT
}

/// True when every step's code names a kind of primitive.
pub open spec fn step_types_ok(file: Seq<u8>) -> bool {
    forall|i: int|
        0 <= i < count(file, STEPS as int) ==> #[trigger] cell(file, STEPS as int, i, 0)
            < STEP_TYPE_COUNT
}

/// True when every rendering step's tag is that of a fill or of a stroke.
pub open spec fn tags_ok(file: Seq<u8>) -> bool {
    forall|i: int|
        0 <= i < count(file, RENDERING_STEPS as int) ==> #[trigger] cell(
            file,
            RENDERING_STEPS as int,
            i,
            0,
        ) <= STROKE
}

/// True when the name of every argument and output is well formed.
pub open spec fn names_ok(file: Seq<u8>) -> bool {
    &&& forall|i: int|
        0 <= i < count(file, ARGUMENTS as int) ==> name_ok(
            names(file),
            #[trigger] cell(file, ARGUMENTS as int, i, 0),
        )
    &&& forall|i: int|
        0 <= i < count(file, OUTPUTS as int) ==> name_ok(
            names(file),
            #[trigger] cell(file, OUTPUTS as int, i, 0),
        )
}

/// True when every path and background is a run inside its pool.
pub open spec fn runs_ok(file: Seq<u8>) -> bool {
    &&& forall|i: int|
        0 <= i < count(file, PATHS as int) ==> #[trigger] cell(file, PATHS as int, i, 0) + cell(
            file,
            PATHS as int,
            i,
            1,
        ) <= count(file, STEPS as int)
    &&& forall|i: int|
        0 <= i < count(file, BACKGROUNDS as int) ==> #[trigger] cell(
            file,
            BACKGROUNDS as int,
            i,
            0,
        ) + cell(file, BACKGROUNDS as int, i, 1) <= count(file, TRIANGLE_INDEXES as int)
}

/// Each section begins where the one before it ends.
pub proof fn lemma_start_next(file: Seq<u8>, section: int)
    requires
        0 <= section,
    ensures
        start(file, section + 1) == start(file, section) + 1 + count(file, section) * width(
            section,
        ),
{
}

/// Where the search for a zero byte stops, given that it has passed none yet.
pub proof fn lemma_terminator(text: Seq<u8>, from: int, at: int)
    requires
        0 <= from <= at <= text.len(),
        forall|k: int| from <= k < at ==> text[k] != 0,
        at < text.len() ==> text[at] == 0,
    ensures
        terminator(text, from) == at,
    decreases at - from,
{
    if from < at {
        lemma_terminator(text, from + 1, at);
    }
}

/// What `indexed` says of one row of each table.
pub proof fn lemma_indexed_rows(program: ProgramView, i: int)
    requires
        program.indexed(),
        0 <= i,
    ensures
        i < program.instructions.len() ==> program.instruction_ok(i),
        i < program.outputs.len() ==> program.outputs[i].address < program.stack_size(),
        i < program.triangles.len() ==> program.triangle_ok(program.triangles[i]),
        i < program.arcs.len() ==> program.arc_ok(program.arcs[i]),
        i < program.cubic_curves.len() ==> program.cubic_curve_ok(program.cubic_curves[i]),
        i < program.quadratic_curves.len() ==> program.quadratic_curve_ok(
            program.quadratic_curves[i],
        ),
        i < program.lines.len() ==> program.line_ok(program.lines[i]),
        i < program.strokers.len() ==> program.stroker_ok(program.strokers[i]),
        i < program.rendering_steps.len() ==> program.rendering_step_ok(
            program.rendering_steps[i],
        ),
{
}

/// What `indexed` says of one step of a path and of one triangle of a background.
pub proof fn lemma_indexed_runs(program: ProgramView, i: int, k: int)
    requires
        program.indexed(),
        0 <= i,
        0 <= k,
    ensures
        i < program.paths.len() && k < program.paths[i].len() ==> program.step_ok(
            program.paths[i][k],
        ),
        i < program.backgrounds.len() && k < program.backgrounds[i].len()
            ==> program.backgrounds[i][k] < program.triangles.len(),
{
}

} // verus!
