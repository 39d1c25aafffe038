//! A program as tables in memory, and its passage to and from the bytes of a file.

use vstd::prelude::*;
use crate::computing::{
    computed, first_fault, flagged, lemma_sound_tape_has_no_fault, operands_below, run_tape,
    tape_sound, total, Address, Argument, Couple, Instruction, Operation, Output, ParsingError,
    ParsingResult,
};
use crate::drawing::{
    Background,
    Path,
    RawRenderingStep,
    StepType,
    Stroker,
    Triangle,
};
use crate::layout::{
    arc_at, argument_at, background_at, count, cubic_curve_at, decoded, instruction_at, line_at,
    names_ok, opcodes_ok, output_at, path_at, quadratic_curve_at, rendering_step_at, runs_ok,
    step_types_ok, stroker_at, tags_ok, triangle_at, ProgramView, ARCS, ARGUMENTS, BACKGROUNDS,
    CUBIC_CURVES, INSTRUCTIONS, LINES, OUTPUTS, PATHS, QUADRATIC_CURVES, RENDERING_STEPS,
    STROKERS, TRIANGLES,
};
use crate::primitive::{Arc, CubicCurve, Line, QuadraticCurve};
use crate::roundtrip::lemma_round_trip;
use crate::wire::{lemma_words_bytes, to_bytes};
use crate::writing::{encodable, encoding, layout, refusal, text, words};
use crate::reading::{
    check_rows, frame, placed, read_arc, read_argument, read_background, read_cubic_curve,
    read_instruction, read_line, read_output, read_path, read_quadratic_curve,
    read_rendering_step, read_stroker, read_triangle, rows_of, verdict,
};

verus! {

/// A program: the arguments and the tape of the value machine, the named
/// outputs, the primitives, and what is drawn from them.
#[derive(Debug, PartialEq)]
pub struct Program {
    pub arguments: Vec<Argument>,
    pub instructions: Vec<Instruction>,
    pub outputs: Vec<Output>,
    pub arcs: Vec<Arc>,
    pub cubic_curves: Vec<CubicCurve>,
    pub quadratic_curves: Vec<QuadraticCurve>,
    pub lines: Vec<Line>,
    pub triangles: Vec<Triangle>,
    pub strokers: Vec<Stroker>,
    pub paths: Vec<Path>,
    pub backgrounds: Vec<Background>,
    pub rendering_steps: Vec<RawRenderingStep>,
}

impl View for Program {
    type V = ProgramView;

    open spec fn view(&self) -> ProgramView {
        ProgramView {
            arguments: Seq::new(self.arguments.len() as nat, |i: int| self.arguments[i]@),
            instructions: self.instructions@,
            outputs: Seq::new(self.outputs.len() as nat, |i: int| self.outputs[i]@),
            triangles: self.triangles@,
            arcs: self.arcs@,
            cubic_curves: self.cubic_curves@,
            quadratic_curves: self.quadratic_curves@,
            lines: self.lines@,
            strokers: self.strokers@,
            paths: Seq::new(self.paths.len() as nat, |i: int| self.paths[i]@),
            backgrounds: Seq::new(self.backgrounds.len() as nat, |i: int| self.backgrounds[i]@),
            rendering_steps: self.rendering_steps@,
        }
    }
}

/// A count as far as addresses can tell: the count, or 2^32 where it is
/// beyond every address.
pub open spec fn capped(count: int) -> int {
    if count >= 0x1_0000_0000 {
        0x1_0000_0000
    } else {
        count
    }
}

fn address_limit(a: usize, b: usize) -> (limit: u64)
    ensures
        limit == capped(a + b),
{
    if a > 0xFFFF_FFFF || b > 0xFFFF_FFFF {
        0x1_0000_0000
    } else {
        let sum: u64 = a as u64 + b as u64;
        if sum >= 0x1_0000_0000 {
            0x1_0000_0000
        } else {
            sum
        }
    }
}

fn below(address: Address, limit: u64) -> (r: bool)
    ensures
        r == (address < limit),
{
    (address as u64) < limit
}

impl Program {
    /// The program that has nothing.
    pub fn new() -> (program: Program)
        ensures
            program@.arguments.len() == 0,
            program@.instructions.len() == 0,
            program@.outputs.len() == 0,
            program@.triangles.len() == 0,
            program@.arcs.len() == 0,
            program@.cubic_curves.len() == 0,
            program@.quadratic_curves.len() == 0,
            program@.lines.len() == 0,
            program@.strokers.len() == 0,
            program@.paths.len() == 0,
            program@.backgrounds.len() == 0,
            program@.rendering_steps.len() == 0,
            program@.indexed(),
    {
        Program {
            arguments: Vec::new(),
            instructions: Vec::new(),
            outputs: Vec::new(),
            arcs: Vec::new(),
            cubic_curves: Vec::new(),
            quadratic_curves: Vec::new(),
            lines: Vec::new(),
            triangles: Vec::new(),
            strokers: Vec::new(),
            paths: Vec::new(),
            backgrounds: Vec::new(),
            rendering_steps: Vec::new(),
        }
    }

    fn instructions_indexed(&self) -> (r: bool)
        ensures
            r == (forall|i: int| 0 <= i < self@.instructions.len() ==> self@.instruction_ok(i)),
    {
        let mut i: usize = 0;
        while i < self.instructions.len()
            invariant
                i <= self.instructions.len(),
                forall|k: int| 0 <= k < i ==> self@.instruction_ok(k),
            decreases self.instructions.len() - i,
        {
            let limit: u64 = address_limit(self.arguments.len(), i);
            let operands = self.instructions[i].operands;
            if !(below(operands[0], limit) && below(operands[1], limit) && below(
                operands[2],
                limit,
            )) {
                assert(!self@.instruction_ok(i as int));
                return false;
            }
            assert(self@.instruction_ok(i as int));
            i += 1;
        }
        true
    }

    fn outputs_indexed(&self, limit: u64) -> (r: bool)
        requires
            limit == capped(self@.stack_size() as int),
        ensures
            r == (forall|i: int|
                0 <= i < self@.outputs.len() ==> (#[trigger] self@.outputs[i]).address
                    < self@.stack_size()),
    {
        let mut i: usize = 0;
        while i < self.outputs.len()
            invariant
                i <= self.outputs.len(),
                limit == capped(self@.stack_size() as int),
                forall|k: int|
                    0 <= k < i ==> (#[trigger] self@.outputs[k]).address < self@.stack_size(),
            decreases self.outputs.len() - i,
        {
            if !below(self.outputs[i].address, limit) {
                assert(!((#[trigger] self@.outputs[i as int]).address < self@.stack_size()));
                return false;
            }
            assert(self@.outputs[i as int].address < self@.stack_size());
            i += 1;
        }
        true
    }

    fn triangles_indexed(&self, limit: u64) -> (r: bool)
        requires
            limit == capped(self@.stack_size() as int),
        ensures
            r == (forall|i: int|
                0 <= i < self@.triangles.len() ==> self@.triangle_ok(#[trigger] self@.triangles[i])),
    {
        let mut i: usize = 0;
        while i < self.triangles.len()
            invariant
                i <= self.triangles.len(),
                limit == capped(self@.stack_size() as int),
                forall|k: int| 0 <= k < i ==> self@.triangle_ok(#[trigger] self@.triangles[k]),
            decreases self.triangles.len() - i,
        {
            let t = self.triangles[i];
            if !(below(t.points[0], limit) && below(t.points[1], limit) && below(
                t.points[2],
                limit,
            ) && below(t.colors[0][0], limit) && below(t.colors[0][1], limit) && below(
                t.colors[1][0],
                limit,
            ) && below(t.colors[1][1], limit) && below(t.colors[2][0], limit) && below(
                t.colors[2][1],
                limit,
            )) {
                assert(!self@.triangle_ok(self@.triangles[i as int]));
                return false;
            }
            assert(self@.triangle_ok(self@.triangles[i as int]));
            i += 1;
        }
        true
    }

    fn arcs_indexed(&self, limit: u64) -> (r: bool)
        requires
            limit == capped(self@.stack_size() as int),
        ensures
            r == (forall|i: int| 0 <= i < self@.arcs.len() ==> self@.arc_ok(#[trigger] self@.arcs[i])),
    {
        let mut i: usize = 0;
        while i < self.arcs.len()
            invariant
                i <= self.arcs.len(),
                limit == capped(self@.stack_size() as int),
                forall|k: int| 0 <= k < i ==> self@.arc_ok(#[trigger] self@.arcs[k]),
            decreases self.arcs.len() - i,
        {
            let a = self.arcs[i];
            if !(below(a.start_point, limit) && below(a.center, limit) && below(a.deltas, limit)) {
                assert(!self@.arc_ok(self@.arcs[i as int]));
                return false;
            }
            assert(self@.arc_ok(self@.arcs[i as int]));
            i += 1;
        }
        true
    }

    fn cubic_curves_indexed(&self, limit: u64) -> (r: bool)
        requires
            limit == capped(self@.stack_size() as int),
        ensures
            r == (forall|i: int|
                0 <= i < self@.cubic_curves.len() ==> self@.cubic_curve_ok(
                    #[trigger] self@.cubic_curves[i],
                )),
    {
        let mut i: usize = 0;
        while i < self.cubic_curves.len()
            invariant
                i <= self.cubic_curves.len(),
                limit == capped(self@.stack_size() as int),
                forall|k: int|
                    0 <= k < i ==> self@.cubic_curve_ok(#[trigger] self@.cubic_curves[k]),
            decreases self.cubic_curves.len() - i,
        {
            let c = self.cubic_curves[i];
            if !(below(c.points[0], limit) && below(c.points[1], limit) && below(
                c.points[2],
                limit,
            ) && below(c.points[3], limit)) {
                assert(!self@.cubic_curve_ok(self@.cubic_curves[i as int]));
                return false;
            }
            assert(self@.cubic_curve_ok(self@.cubic_curves[i as int]));
            i += 1;
        }
        true
    }

    fn quadratic_curves_indexed(&self, limit: u64) -> (r: bool)
        requires
            limit == capped(self@.stack_size() as int),
        ensures
            r == (forall|i: int|
                0 <= i < self@.quadratic_curves.len() ==> self@.quadratic_curve_ok(
                    #[trigger] self@.quadratic_curves[i],
                )),
    {
        let mut i: usize = 0;
        while i < self.quadratic_curves.len()
            invariant
                i <= self.quadratic_curves.len(),
                limit == capped(self@.stack_size() as int),
                forall|k: int|
                    0 <= k < i ==> self@.quadratic_curve_ok(#[trigger] self@.quadratic_curves[k]),
            decreases self.quadratic_curves.len() - i,
        {
            let c = self.quadratic_curves[i];
            if !(below(c.points[0], limit) && below(c.points[1], limit) && below(
                c.points[2],
                limit,
            )) {
                assert(!self@.quadratic_curve_ok(self@.quadratic_curves[i as int]));
                return false;
            }
            assert(self@.quadratic_curve_ok(self@.quadratic_curves[i as int]));
            i += 1;
        }
        true
    }

    fn lines_indexed(&self, limit: u64) -> (r: bool)
        requires
            limit == capped(self@.stack_size() as int),
        ensures
            r == (forall|i: int|
                0 <= i < self@.lines.len() ==> self@.line_ok(#[trigger] self@.lines[i])),
    {
        let mut i: usize = 0;
        while i < self.lines.len()
            invariant
                i <= self.lines.len(),
                limit == capped(self@.stack_size() as int),
                forall|k: int| 0 <= k < i ==> self@.line_ok(#[trigger] self@.lines[k]),
            decreases self.lines.len() - i,
        {
            let l = self.lines[i];
            if !(below(l.points[0], limit) && below(l.points[1], limit)) {
                assert(!self@.line_ok(self@.lines[i as int]));
                return false;
            }
            assert(self@.line_ok(self@.lines[i as int]));
            i += 1;
        }
        true
    }

    fn strokers_indexed(&self, limit: u64) -> (r: bool)
        requires
            limit == capped(self@.stack_size() as int),
        ensures
            r == (forall|i: int|
                0 <= i < self@.strokers.len() ==> self@.stroker_ok(#[trigger] self@.strokers[i])),
    {
        let mut i: usize = 0;
        while i < self.strokers.len()
            invariant
                i <= self.strokers.len(),
                limit == capped(self@.stack_size() as int),
                forall|k: int| 0 <= k < i ==> self@.stroker_ok(#[trigger] self@.strokers[k]),
            decreases self.strokers.len() - i,
        {
            let s = self.strokers[i];
            if !(below(s.pattern, limit) && below(s.width, limit) && below(s.color[0], limit)
                && below(s.color[1], limit)) {
                assert(!self@.stroker_ok(self@.strokers[i as int]));
                return false;
            }
            assert(self@.stroker_ok(self@.strokers[i as int]));
            i += 1;
        }
        true
    }

    fn step_indexed(&self, step: (StepType, u32)) -> (r: bool)
        ensures
            r == self@.step_ok(step),
    {
        match step.0 {
            StepType::Arc => (step.1 as usize) < self.arcs.len(),
            StepType::CubicCurve => (step.1 as usize) < self.cubic_curves.len(),
            StepType::QuadraticCurve => (step.1 as usize) < self.quadratic_curves.len(),
            StepType::Line => (step.1 as usize) < self.lines.len(),
        }
    }

    fn paths_indexed(&self) -> (r: bool)
        ensures
            r == (forall|p: int, k: int|
                0 <= p < self@.paths.len() && 0 <= k < self@.paths[p].len() ==> self@.step_ok(
                    #[trigger] self@.paths[p][k],
                )),
    {
        let mut p: usize = 0;
        while p < self.paths.len()
            invariant
                p <= self.paths.len(),
                forall|q: int, k: int|
                    0 <= q < p && 0 <= k < self@.paths[q].len() ==> self@.step_ok(
                        #[trigger] self@.paths[q][k],
                    ),
            decreases self.paths.len() - p,
        {
            let path = &self.paths[p];
            let mut k: usize = 0;
            while k < path.len()
                invariant
                    p < self.paths.len(),
                    path@ == self@.paths[p as int],
                    k <= path.len(),
                    forall|j: int| 0 <= j < k ==> self@.step_ok(#[trigger] self@.paths[p as int][j]),
                decreases path.len() - k,
            {
                if !self.step_indexed(path[k]) {
                    assert(!self@.step_ok(self@.paths[p as int][k as int]));
                    return false;
                }
                k += 1;
            }
            p += 1;
        }
        true
    }

    fn backgrounds_indexed(&self) -> (r: bool)
        ensures
            r == (forall|g: int, k: int|
                0 <= g < self@.backgrounds.len() && 0 <= k < self@.backgrounds[g].len()
                    ==> #[trigger] self@.backgrounds[g][k] < self@.triangles.len()),
    {
        let mut g: usize = 0;
        while g < self.backgrounds.len()
            invariant
                g <= self.backgrounds.len(),
                forall|q: int, k: int|
                    0 <= q < g && 0 <= k < self@.backgrounds[q].len()
                        ==> #[trigger] self@.backgrounds[q][k] < self@.triangles.len(),
            decreases self.backgrounds.len() - g,
        {
            let background = &self.backgrounds[g];
            let mut k: usize = 0;
            while k < background.len()
                invariant
                    g < self.backgrounds.len(),
                    background@ == self@.backgrounds[g as int],
                    k <= background.len(),
                    forall|j: int|
                        0 <= j < k ==> #[trigger] self@.backgrounds[g as int][j]
                            < self@.triangles.len(),
                decreases background.len() - k,
            {
                if !((background[k] as usize) < self.triangles.len()) {
                    assert(!(self@.backgrounds[g as int][k as int] < self@.triangles.len()));
                    return false;
                }
                k += 1;
            }
            g += 1;
        }
        true
    }

    fn rendering_steps_indexed(&self) -> (r: bool)
        ensures
            r == (forall|i: int|
                0 <= i < self@.rendering_steps.len() ==> self@.rendering_step_ok(
                    #[trigger] self@.rendering_steps[i],
                )),
    {
        let mut i: usize = 0;
        while i < self.rendering_steps.len()
            invariant
                i <= self.rendering_steps.len(),
                forall|k: int|
                    0 <= k < i ==> self@.rendering_step_ok(#[trigger] self@.rendering_steps[k]),
            decreases self.rendering_steps.len() - i,
        {
            let ok = match self.rendering_steps[i] {
                RawRenderingStep::Clip(path, background) => (path as usize) < self.paths.len() && (
                background as usize) < self.backgrounds.len(),
                RawRenderingStep::Stroke(path, stroker) => (path as usize) < self.paths.len() && (
                stroker as usize) < self.strokers.len(),
            };
            if !ok {
                assert(!self@.rendering_step_ok(self@.rendering_steps[i as int]));
                return false;
            }
            i += 1;
        }
        true
    }

    /// Checks every address and index of the program against what it refers to.
    pub fn validate(&self) -> (r: Result<(), ParsingError>)
        ensures
            r is Ok <==> self@.indexed(),
            r is Err ==> r == Err::<(), ParsingError>(ParsingError::InvalidIndex),
    {
        let limit: u64 = address_limit(self.arguments.len(), self.instructions.len());
        if self.instructions_indexed() && self.outputs_indexed(limit) && self.triangles_indexed(
            limit,
        ) && self.arcs_indexed(limit) && self.cubic_curves_indexed(limit)
            && self.quadratic_curves_indexed(limit) && self.lines_indexed(limit)
            && self.strokers_indexed(limit) && self.paths_indexed() && self.backgrounds_indexed()
            && self.rendering_steps_indexed() {
            Ok(())
        } else {
            Err(ParsingError::InvalidIndex)
        }
    }
}

fn take_arguments(bytes: &[u8], places: &[usize; 15]) -> (table: Vec<Argument>)
    requires
        placed(bytes@, *places),
        names_ok(bytes@),
    ensures
        table.len() == count(bytes@, ARGUMENTS as int),
        forall|i: int| 0 <= i < table.len() ==> table[i]@ == argument_at(bytes@, i),
{
    let n: usize = rows_of(bytes, places, ARGUMENTS);
    let mut table: Vec<Argument> = Vec::new();
    let mut i: usize = 0;
    while i < n
        invariant
            placed(bytes@, *places),
            names_ok(bytes@),
            n == count(bytes@, ARGUMENTS as int),
            i <= n,
            table.len() == i,
            forall|k: int| 0 <= k < i ==> table[k]@ == argument_at(bytes@, k),
        decreases n - i,
    {
        table.push(read_argument(bytes, places, i));
        i += 1;
    }
    table
}

fn take_instructions(bytes: &[u8], places: &[usize; 15]) -> (table: Vec<Instruction>)
    requires
        placed(bytes@, *places),
        opcodes_ok(bytes@),
    ensures
        table@ == decoded(bytes@).instructions,
{
    let n: usize = rows_of(bytes, places, INSTRUCTIONS);
    let mut table: Vec<Instruction> = Vec::new();
    let mut i: usize = 0;
    while i < n
        invariant
            placed(bytes@, *places),
            opcodes_ok(bytes@),
            n == count(bytes@, INSTRUCTIONS as int),
            i <= n,
            table.len() == i,
            forall|k: int| 0 <= k < i ==> table[k] == instruction_at(bytes@, k),
        decreases n - i,
    {
        table.push(read_instruction(bytes, places, i));
        i += 1;
    }
    assert(table@ =~= decoded(bytes@).instructions);
    table
}

fn take_outputs(bytes: &[u8], places: &[usize; 15]) -> (table: Vec<Output>)
    requires
        placed(bytes@, *places),
        names_ok(bytes@),
    ensures
        table.len() == count(bytes@, OUTPUTS as int),
        forall|i: int| 0 <= i < table.len() ==> table[i]@ == output_at(bytes@, i),
{
    let n: usize = rows_of(bytes, places, OUTPUTS);
    let mut table: Vec<Output> = Vec::new();
    let mut i: usize = 0;
    while i < n
        invariant
            placed(bytes@, *places),
            names_ok(bytes@),
            n == count(bytes@, OUTPUTS as int),
            i <= n,
            table.len() == i,
            forall|k: int| 0 <= k < i ==> table[k]@ == output_at(bytes@, k),
        decreases n - i,
    {
        table.push(read_output(bytes, places, i));
        i += 1;
    }
    table
}

fn take_triangles(bytes: &[u8], places: &[usize; 15]) -> (table: Vec<Triangle>)
    requires
        placed(bytes@, *places),
    ensures
        table@ == decoded(bytes@).triangles,
{
    let n: usize = rows_of(bytes, places, TRIANGLES);
    let mut table: Vec<Triangle> = Vec::new();
    let mut i: usize = 0;
    while i < n
        invariant
            placed(bytes@, *places),
            n == count(bytes@, TRIANGLES as int),
            i <= n,
            table.len() == i,
            forall|k: int| 0 <= k < i ==> table[k] == triangle_at(bytes@, k),
        decreases n - i,
    {
        table.push(read_triangle(bytes, places, i));
        i += 1;
    }
    assert(table@ =~= decoded(bytes@).triangles);
    table
}

fn take_arcs(bytes: &[u8], places: &[usize; 15]) -> (table: Vec<Arc>)
    requires
        placed(bytes@, *places),
    ensures
        table@ == decoded(bytes@).arcs,
{
    let n: usize = rows_of(bytes, places, ARCS);
    let mut table: Vec<Arc> = Vec::new();
    let mut i: usize = 0;
    while i < n
        invariant
            placed(bytes@, *places),
            n == count(bytes@, ARCS as int),
            i <= n,
            table.len() == i,
            forall|k: int| 0 <= k < i ==> table[k] == arc_at(bytes@, k),
        decreases n - i,
    {
        table.push(read_arc(bytes, places, i));
        i += 1;
    }
    assert(table@ =~= decoded(bytes@).arcs);
    table
}

fn take_cubic_curves(bytes: &[u8], places: &[usize; 15]) -> (table: Vec<CubicCurve>)
    requires
        placed(bytes@, *places),
    ensures
        table@ == decoded(bytes@).cubic_curves,
{
    let n: usize = rows_of(bytes, places, CUBIC_CURVES);
    let mut table: Vec<CubicCurve> = Vec::new();
    let mut i: usize = 0;
    while i < n
        invariant
            placed(bytes@, *places),
            n == count(bytes@, CUBIC_CURVES as int),
            i <= n,
            table.len() == i,
            forall|k: int| 0 <= k < i ==> table[k] == cubic_curve_at(bytes@, k),
        decreases n - i,
    {
        table.push(read_cubic_curve(bytes, places, i));
        i += 1;
    }
    assert(table@ =~= decoded(bytes@).cubic_curves);
    table
}

fn take_quadratic_curves(bytes: &[u8], places: &[usize; 15]) -> (table: Vec<QuadraticCurve>)
    requires
        placed(bytes@, *places),
    ensures
        table@ == decoded(bytes@).quadratic_curves,
{
    let n: usize = rows_of(bytes, places, QUADRATIC_CURVES);
    let mut table: Vec<QuadraticCurve> = Vec::new();
    let mut i: usize = 0;
    while i < n
        invariant
            placed(bytes@, *places),
            n == count(bytes@, QUADRATIC_CURVES as int),
            i <= n,
            table.len() == i,
            forall|k: int| 0 <= k < i ==> table[k] == quadratic_curve_at(bytes@, k),
        decreases n - i,
    {
        table.push(read_quadratic_curve(bytes, places, i));
        i += 1;
    }
    assert(table@ =~= decoded(bytes@).quadratic_curves);
    table
}

fn take_lines(bytes: &[u8], places: &[usize; 15]) -> (table: Vec<Line>)
    requires
        placed(bytes@, *places),
    ensures
        table@ == decoded(bytes@).lines,
{
    let n: usize = rows_of(bytes, places, LINES);
    let mut table: Vec<Line> = Vec::new();
    let mut i: usize = 0;
    while i < n
        invariant
            placed(bytes@, *places),
            n == count(bytes@, LINES as int),
            i <= n,
            table.len() == i,
            forall|k: int| 0 <= k < i ==> table[k] == line_at(bytes@, k),
        decreases n - i,
    {
        table.push(read_line(bytes, places, i));
        i += 1;
    }
    assert(table@ =~= decoded(bytes@).lines);
    table
}

fn take_strokers(bytes: &[u8], places: &[usize; 15]) -> (table: Vec<Stroker>)
    requires
        placed(bytes@, *places),
    ensures
        table@ == decoded(bytes@).strokers,
{
    let n: usize = rows_of(bytes, places, STROKERS);
    let mut table: Vec<Stroker> = Vec::new();
    let mut i: usize = 0;
    while i < n
        invariant
            placed(bytes@, *places),
            n == count(bytes@, STROKERS as int),
            i <= n,
            table.len() == i,
            forall|k: int| 0 <= k < i ==> table[k] == stroker_at(bytes@, k),
        decreases n - i,
    {
        table.push(read_stroker(bytes, places, i));
        i += 1;
    }
    assert(table@ =~= decoded(bytes@).strokers);
    table
}

fn take_paths(bytes: &[u8], places: &[usize; 15]) -> (table: Vec<Path>)
    requires
        placed(bytes@, *places),
        step_types_ok(bytes@),
        runs_ok(bytes@),
    ensures
        table.len() == count(bytes@, PATHS as int),
        forall|i: int| 0 <= i < table.len() ==> table[i]@ == path_at(bytes@, i),
{
    let n: usize = rows_of(bytes, places, PATHS);
    let mut table: Vec<Path> = Vec::new();
    let mut i: usize = 0;
    while i < n
        invariant
            placed(bytes@, *places),
            step_types_ok(bytes@),
            runs_ok(bytes@),
            n == count(bytes@, PATHS as int),
            i <= n,
            table.len() == i,
            forall|k: int| 0 <= k < i ==> table[k]@ == path_at(bytes@, k),
        decreases n - i,
    {
        table.push(read_path(bytes, places, i));
        i += 1;
    }
    table
}

fn take_backgrounds(bytes: &[u8], places: &[usize; 15]) -> (table: Vec<Background>)
    requires
        placed(bytes@, *places),
        runs_ok(bytes@),
    ensures
        table.len() == count(bytes@, BACKGROUNDS as int),
        forall|i: int| 0 <= i < table.len() ==> table[i]@ == background_at(bytes@, i),
{
    let n: usize = rows_of(bytes, places, BACKGROUNDS);
    let mut table: Vec<Background> = Vec::new();
    let mut i: usize = 0;
    while i < n
        invariant
            placed(bytes@, *places),
            runs_ok(bytes@),
            n == count(bytes@, BACKGROUNDS as int),
            i <= n,
            table.len() == i,
            forall|k: int| 0 <= k < i ==> table[k]@ == background_at(bytes@, k),
        decreases n - i,
    {
        table.push(read_background(bytes, places, i));
        i += 1;
    }
    table
}

fn take_rendering_steps(bytes: &[u8], places: &[usize; 15]) -> (table: Vec<RawRenderingStep>)
    requires
        placed(bytes@, *places),
        tags_ok(bytes@),
    ensures
        table@ == decoded(bytes@).rendering_steps,
{
    let n: usize = rows_of(bytes, places, RENDERING_STEPS);
    let mut table: Vec<RawRenderingStep> = Vec::new();
    let mut i: usize = 0;
    while i < n
        invariant
            placed(bytes@, *places),
            tags_ok(bytes@),
            n == count(bytes@, RENDERING_STEPS as int),
            i <= n,
            table.len() == i,
            forall|k: int| 0 <= k < i ==> table[k] == rendering_step_at(bytes@, k),
        decreases n - i,
    {
        table.push(read_rendering_step(bytes, places, i));
        i += 1;
    }
    assert(table@ =~= decoded(bytes@).rendering_steps);
    table
}

/// Takes every table out of a file whose rows have been checked.
fn decode(bytes: &[u8], places: &[usize; 15]) -> (program: Program)
    requires
        placed(bytes@, *places),
        opcodes_ok(bytes@),
        step_types_ok(bytes@),
        tags_ok(bytes@),
        names_ok(bytes@),
        runs_ok(bytes@),
    ensures
        program@ == decoded(bytes@),
{
    let program = Program {
        arguments: take_arguments(bytes, places),
        instructions: take_instructions(bytes, places),
        outputs: take_outputs(bytes, places),
        arcs: take_arcs(bytes, places),
        cubic_curves: take_cubic_curves(bytes, places),
        quadratic_curves: take_quadratic_curves(bytes, places),
        lines: take_lines(bytes, places),
        triangles: take_triangles(bytes, places),
        strokers: take_strokers(bytes, places),
        paths: take_paths(bytes, places),
        backgrounds: take_backgrounds(bytes, places),
        rendering_steps: take_rendering_steps(bytes, places),
    };
    proof {
        let view = program@;
        let file = decoded(bytes@);
        assert(view.arguments =~= file.arguments);
        assert(view.outputs =~= file.outputs);
        assert(view.paths =~= file.paths);
        assert(view.backgrounds =~= file.backgrounds);
    }
    program
}

/// Finds the sections of a file, checks all that it holds, and takes its tables out.
pub(crate) fn inspect(bytes: &[u8]) -> (r: ParsingResult<([usize; 15], Program)>)
    ensures
        r matches Ok((places, program)) ==> {
            &&& verdict(bytes@) is None
            &&& placed(bytes@, places)
            &&& program@ == decoded(bytes@)
        },
        r matches Err(e) ==> verdict(bytes@) == Some(e),
{
    let places = match frame(bytes) {
        Ok(places) => places,
        Err(e) => {
            return Err(e);
        },
    };
    match check_rows(bytes, &places) {
        Ok(()) => {},
        Err(e) => {
            return Err(e);
        },
    }
    let program = decode(bytes, &places);
    match program.validate() {
        Ok(()) => Ok((places, program)),
        Err(e) => Err(e),
    }
}

impl Program {
    /// Reads a program from the bytes of a file. Every address and index of
    /// the program that comes back has its referent.
    pub fn parse(bytes: &[u8]) -> (r: ParsingResult<Program>)
        ensures
            r matches Ok(program) ==> verdict(bytes@) is None && program@ == decoded(bytes@)
                && program@.indexed(),
            r matches Err(e) ==> verdict(bytes@) == Some(e),
    {
        match inspect(bytes) {
            Ok((_, program)) => Ok(program),
            Err(e) => Err(e),
        }
    }
}

/// Reads a program from the bytes of a file.
pub fn parse(bytes: &[u8]) -> (r: ParsingResult<Program>)
    ensures
        r matches Ok(program) ==> verdict(bytes@) is None && program@ == decoded(bytes@)
            && program@.indexed(),
        r matches Err(e) ==> verdict(bytes@) == Some(e),
{
    Program::parse(bytes)
}

/// How many bytes the file of a program has: the magic, four for each word,
/// and the bytes of the names.
pub open spec fn file_length(program: ProgramView) -> nat {
    4 + 4 * words(program).len() + text(program).len()
}

/// The file of a program has as many bytes as [`file_length`] says.
pub proof fn lemma_size_agreement(program: ProgramView)
    ensures
        encoding(program).len() == file_length(program),
{
    lemma_words_bytes(words(program));
}

impl Program {
    /// Appends the file of the program to `dst` and tells how many bytes it
    /// is. A program that cannot be written leaves `dst` as it was. What is
    /// written passes every check of `parse`, which reads the same program
    /// back from it.
    pub fn dump(&self, dst: &mut Vec<u8>) -> (r: ParsingResult<usize>)
        ensures
            r matches Ok(n) ==> {
                &&& encodable(self@)
                &&& final(dst)@ == old(dst)@ + encoding(self@)
                &&& n == file_length(self@)
                &&& verdict(encoding(self@)) is None
                &&& decoded(encoding(self@)) == self@
            },
            r matches Err(e) ==> refusal(self@) == Some(e) && final(dst)@ == old(dst)@,
    {
        let (file, names) = match layout(self) {
            Ok(laid) => laid,
            Err(e) => {
                return Err(e);
            },
        };
        let ghost before = dst@;
        let first: usize = dst.len();
        dst.push(0x52);
        dst.push(0x57);
        dst.push(0x59);
        dst.push(0x30);
        to_bytes(&file, dst);
        dst.extend_from_slice(names.as_slice());
        proof {
            lemma_size_agreement(self@);
            assert(dst@ =~= before + encoding(self@));
        }
        let written: usize = dst.len() - first;
        assert(verdict(encoding(self@)) is None && decoded(encoding(self@)) == self@) by {
            lemma_round_trip(self@);
        }
        Ok(written)
    }

    /// How many bytes the file of the program has. Beside the programs that
    /// cannot be written, one whose file is too long for the machine to count
    /// is refused with `InvalidIndex`.
    pub fn file_size(&self) -> (r: ParsingResult<usize>)
        ensures
            r matches Ok(n) ==> encodable(self@) && n == file_length(self@),
            r matches Err(e) ==> refusal(self@) == Some(e) || (encodable(self@) && e
                == ParsingError::InvalidIndex && file_length(self@) > usize::MAX),
    {
        let (file, names) = match layout(self) {
            Ok(laid) => laid,
            Err(e) => {
                return Err(e);
            },
        };
        let tail: usize = names.len();
        if tail > usize::MAX - 4 {
            return Err(ParsingError::InvalidIndex);
        }
        let room: usize = (usize::MAX - 4 - tail) / 4;
        if file.len() > room {
            return Err(ParsingError::InvalidIndex);
        }
        Ok(4 + 4 * file.len() + tail)
    }
}

/// Appends the file of a program to `dst` and tells how many bytes it is.
pub fn dump(src: &Program, dst: &mut Vec<u8>) -> (r: ParsingResult<usize>)
    ensures
        r matches Ok(n) ==> {
            &&& encodable(src@)
            &&& final(dst)@ == old(dst)@ + encoding(src@)
            &&& n == file_length(src@)
            &&& verdict(encoding(src@)) is None
            &&& decoded(encoding(src@)) == src@
        },
        r matches Err(e) ==> refusal(src@) == Some(e) && final(dst)@ == old(dst)@,
{
    src.dump(dst)
}

/// How many bytes the file of a program has.
pub fn size(p: &Program) -> (r: ParsingResult<usize>)
    ensures
        r matches Ok(n) ==> encodable(p@) && n == file_length(p@),
        r matches Err(e) ==> refusal(p@) == Some(e) || (encodable(p@) && e
            == ParsingError::InvalidIndex && file_length(p@) > usize::MAX),
{
    p.file_size()
}

impl Program {
    /// A stack for the program: the value of each argument, then (0, 0) for
    /// each instruction.
    pub fn create_stack(&self) -> (stack: Vec<Couple>)
        ensures
            stack.len() == self@.stack_size(),
            forall|i: int| 0 <= i < self@.arguments.len() ==> stack[i] == self@.arguments[i].value,
            forall|i: int|
                self@.arguments.len() <= i < stack.len() ==> stack[i] == (Couple { x: 0, y: 0 }),
    {
        let mut stack: Vec<Couple> = Vec::new();
        let mut i: usize = 0;
        while i < self.arguments.len()
            invariant
                i <= self.arguments.len(),
                stack.len() == i,
                forall|k: int| 0 <= k < i ==> stack[k] == self@.arguments[k].value,
            decreases self.arguments.len() - i,
        {
            stack.push(self.arguments[i].value);
            i += 1;
        }
        let mut j: usize = 0;
        while j < self.instructions.len()
            invariant
                j <= self.instructions.len(),
                stack.len() == self.arguments.len() + j,
                forall|k: int|
                    0 <= k < self@.arguments.len() ==> stack[k] == self@.arguments[k].value,
                forall|k: int|
                    self@.arguments.len() <= k < stack.len() ==> stack[k] == (Couple {
                        x: 0,
                        y: 0,
                    }),
            decreases self.instructions.len() - j,
        {
            stack.push(Couple::zero());
            j += 1;
        }
        stack
    }

    /// Runs the tape of the program over `stack`, up to the first
    /// instruction that reads a slot not defined before it: such an
    /// instruction ends the run with `InvalidOperation`. `arithmetic`
    /// evaluates the operations that calculate. With `changes`, the flag of
    /// each slot whose new value is unlike the old one is raised.
    pub fn compute<F: Fn(Operation, Couple, Couple, Couple) -> Couple>(
        &self,
        stack: &mut Vec<Couple>,
        changes: Option<&mut Vec<bool>>,
        arithmetic: F,
    ) -> (r: ParsingResult<()>)
        requires
            old(stack).len() == self@.stack_size(),
            changes matches Some(flags) ==> flags.len() == old(stack).len(),
            total(arithmetic),
        ensures
            r is Ok <==> first_fault(self@.instructions, self@.arguments.len() as int, 0)
                == self@.instructions.len(),
            self@.indexed() ==> r is Ok,
            r is Err ==> r == Err::<(), ParsingError>(ParsingError::InvalidOperation),
            computed(
                self@.instructions,
                self@.arguments.len() as int,
                old(stack)@,
                final(stack)@,
                first_fault(self@.instructions, self@.arguments.len() as int, 0),
                arithmetic,
            ),
            changes matches Some(flags) ==> flagged(
                self@.arguments.len() as int,
                old(stack)@,
                final(stack)@,
                first_fault(self@.instructions, self@.arguments.len() as int, 0),
                flags@,
                final(flags)@,
            ),
    {
        let ran: usize = match changes {
            Some(flags) => run_tape(
                &self.instructions,
                self.arguments.len(),
                stack,
                flags,
                true,
                &arithmetic,
            ),
            None => {
                let mut none: Vec<bool> = Vec::new();
                run_tape(
                    &self.instructions,
                    self.arguments.len(),
                    stack,
                    &mut none,
                    false,
                    &arithmetic,
                )
            },
        };
        proof {
            if self@.indexed() {
                lemma_indexed_tape_is_sound(self@);
                lemma_sound_tape_has_no_fault(
                    self@.instructions,
                    self@.arguments.len() as int,
                    0,
                );
            }
        }
        if ran == self.instructions.len() {
            Ok(())
        } else {
            Err(ParsingError::InvalidOperation)
        }
    }
}

/// The tape of a program whose addresses and indices have their referents
/// is sound: no instruction reads a slot that is not defined before it.
pub proof fn lemma_indexed_tape_is_sound(program: ProgramView)
    requires
        program.indexed(),
    ensures
        tape_sound(
            program.instructions,
            program.arguments.len() as int,
            program.instructions.len() as int,
        ),
{
    assert forall|i: int| 0 <= i < program.instructions.len() implies operands_below(
        #[trigger] program.instructions[i],
        program.arguments.len() + i,
    ) by {
        assert(program.instruction_ok(i));
    }
}

} // verus!
