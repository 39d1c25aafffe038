//! A program kept as the bytes of its file, read row by row on demand.

use vstd::prelude::*;
use crate::computing::{
    computed, execute, flagged, lemma_computed_next, lemma_flagged_next, operands_below,
    tape_sound, total, Argument, Couple, Instruction, Operation, Output, ParsingError,
    ParsingResult,
};
use crate::drawing::{PathStep, RawRenderingStep, RenderingStep, StepType, Stroker, Triangle};
use crate::format::inspect;
use crate::layout::{
    cell, count, decoded, lemma_indexed_rows, lemma_indexed_runs, step_at, ProgramView, ARCS, ARGUMENTS, BACKGROUNDS, CUBIC_CURVES,
    INSTRUCTIONS, LINES, OUTPUTS, PATHS, QUADRATIC_CURVES, RENDERING_STEPS, STEPS, STROKERS,
    TRIANGLES, TRIANGLE_INDEXES,
};
use crate::primitive::{Arc, CubicCurve, Line, QuadraticCurve};
use crate::reading::{
    cell_of, placed, read_arc, read_argument, read_cubic_curve, read_instruction, read_line,
    read_output, read_quadratic_curve, read_rendering_step, read_step, read_stroker,
    read_triangle, read_triangle_index, rows_of, verdict,
};

verus! {

/// A program as the bytes of a file that has passed every check.
#[derive(Debug, PartialEq)]
pub struct SerializedProgram {
    storage: Vec<u8>,
    places: [usize; 15],
}

/// The run of the pool of steps that is a path: its first row, and the row
/// after its last.
pub struct RawPath {
    pub step_offset: usize,
    pub stop_before: usize,
}

/// The run of the pool of triangle indices that is a background: its first
/// row, and the row after its last.
pub struct RawBackground {
    pub triangle_index_offset: usize,
    pub stop_before: usize,
}

/// The step with its primitive written out.
pub open spec fn resolved(program: ProgramView, step: (StepType, u32)) -> PathStep {
    match step.0 {
        StepType::Arc => PathStep::Arc(program.arcs[step.1 as int]),
        StepType::CubicCurve => PathStep::CubicCurve(program.cubic_curves[step.1 as int]),
        StepType::QuadraticCurve => PathStep::QuadraticCurve(
            program.quadratic_curves[step.1 as int],
        ),
        StepType::Line => PathStep::Line(program.lines[step.1 as int]),
    }
}

/// A path with the primitive of each step written out.
pub open spec fn resolved_path(program: ProgramView, path: Seq<(StepType, u32)>) -> Seq<PathStep> {
    Seq::new(path.len(), |k: int| resolved(program, path[k]))
}

/// A background with each of its triangles written out.
pub open spec fn resolved_background(program: ProgramView, background: Seq<u32>) -> Seq<Triangle> {
    Seq::new(background.len(), |k: int| program.triangles[background[k] as int])
}

impl View for SerializedProgram {
    type V = ProgramView;

    /// The program that the bytes hold.
    open spec fn view(&self) -> ProgramView {
        decoded(self.file())
    }
}

impl SerializedProgram {
    #[verifier::type_invariant]
    spec fn well_formed(&self) -> bool {
        &&& verdict(self.storage@) is None
        &&& placed(self.storage@, self.places)
    }

    /// The bytes of the file.
    pub closed spec fn file(&self) -> Seq<u8> {
        self.storage@
    }

    /// Takes the bytes of a file as a program, if they pass every check.
    pub fn new(storage: Vec<u8>) -> (r: ParsingResult<SerializedProgram>)
        ensures
            r matches Ok(program) ==> verdict(storage@) is None && program.file() == storage@,
            r matches Err(e) ==> verdict(storage@) == Some(e),
    {
        match inspect(storage.as_slice()) {
            Ok((places, _)) => Ok(SerializedProgram { storage, places }),
            Err(e) => Err(e),
        }
    }

    /// The bytes of the file. They pass every check, so every address and
    /// index of the program has its referent.
    pub fn bytes(&self) -> (bytes: &[u8])
        ensures
            bytes@ == self.file(),
            verdict(self.file()) is None,
            self@.indexed(),
    {
        proof {
            use_type_invariant(self);
        }
        self.storage.as_slice()
    }

    /// How many values the stack of the program holds.
    pub fn stack_size(&self) -> (n: usize)
        ensures
            n == self@.stack_size(),
            self@.indexed(),
    {
        proof {
            use_type_invariant(self);
        }
        rows_of(self.storage.as_slice(), &self.places, ARGUMENTS) + rows_of(
            self.storage.as_slice(),
            &self.places,
            INSTRUCTIONS,
        )
    }

    /// How many arguments the program has.
    pub fn arguments(&self) -> (n: usize)
        ensures
            n == self@.arguments.len(),
    {
        proof {
            use_type_invariant(self);
        }
        rows_of(self.storage.as_slice(), &self.places, ARGUMENTS)
    }

    /// Argument `i`; `InvalidIndex` where the program has no such argument.
    pub fn argument(&self, i: usize) -> (r: ParsingResult<Argument>)
        ensures
            match r {
                Ok(argument) => i < self@.arguments.len() && argument@ == self@.arguments[i as int],
                Err(e) => i >= self@.arguments.len() && e == ParsingError::InvalidIndex,
            },
    {
        proof {
            use_type_invariant(self);
        }
        if i >= self.arguments() {
            return Err(ParsingError::InvalidIndex);
        }
        Ok(read_argument(self.storage.as_slice(), &self.places, i))
    }

    /// How many instructions the program has.
    pub fn instructions(&self) -> (n: usize)
        ensures
            n == self@.instructions.len(),
    {
        proof {
            use_type_invariant(self);
        }
        rows_of(self.storage.as_slice(), &self.places, INSTRUCTIONS)
    }

    /// Instruction `i`; `InvalidIndex` where the program has no such instruction.
    pub fn instruction(&self, i: usize) -> (r: ParsingResult<Instruction>)
        ensures
            match r {
                Ok(instruction) => i < self@.instructions.len() && instruction
                    == self@.instructions[i as int],
                Err(e) => i >= self@.instructions.len() && e == ParsingError::InvalidIndex,
            },
    {
        proof {
            use_type_invariant(self);
        }
        if i >= self.instructions() {
            return Err(ParsingError::InvalidIndex);
        }
        Ok(read_instruction(self.storage.as_slice(), &self.places, i))
    }

    /// How many outputs the program has.
    pub fn outputs(&self) -> (n: usize)
        ensures
            n == self@.outputs.len(),
    {
        proof {
            use_type_invariant(self);
        }
        rows_of(self.storage.as_slice(), &self.places, OUTPUTS)
    }

    /// Output `i`; `InvalidIndex` where the program has no such output.
    pub fn output(&self, i: usize) -> (r: ParsingResult<Output>)
        ensures
            match r {
                Ok(output) => i < self@.outputs.len() && output@ == self@.outputs[i as int],
                Err(e) => i >= self@.outputs.len() && e == ParsingError::InvalidIndex,
            },
    {
        proof {
            use_type_invariant(self);
        }
        if i >= self.outputs() {
            return Err(ParsingError::InvalidIndex);
        }
        Ok(read_output(self.storage.as_slice(), &self.places, i))
    }

    /// How many rendering steps the program has.
    pub fn rendering_steps(&self) -> (n: usize)
        ensures
            n == self@.rendering_steps.len(),
    {
        proof {
            use_type_invariant(self);
        }
        rows_of(self.storage.as_slice(), &self.places, RENDERING_STEPS)
    }

    /// Rendering step `i`, by index of its path and of its background or
    /// stroker; `InvalidIndex` where the program has no such step.
    pub fn raw_rendering_step(&self, i: usize) -> (r: ParsingResult<RawRenderingStep>)
        ensures
            match r {
                Ok(step) => i < self@.rendering_steps.len() && step
                    == self@.rendering_steps[i as int] && self@.rendering_step_ok(step),
                Err(e) => i >= self@.rendering_steps.len() && e == ParsingError::InvalidIndex,
            },
    {
        proof {
            use_type_invariant(self);
        }
        if i >= self.rendering_steps() {
            return Err(ParsingError::InvalidIndex);
        }
        proof {
            lemma_indexed_rows(decoded(self.storage@), i as int);
        }
        Ok(read_rendering_step(self.storage.as_slice(), &self.places, i))
    }

    /// How many triangles the program has.
    pub fn triangles(&self) -> (n: usize)
        ensures
            n == self@.triangles.len(),
    {
        proof {
            use_type_invariant(self);
        }
        rows_of(self.storage.as_slice(), &self.places, TRIANGLES)
    }

    /// Triangle `i`; `InvalidIndex` where the program has no such triangle.
    pub fn triangle(&self, i: usize) -> (r: ParsingResult<Triangle>)
        ensures
            match r {
                Ok(triangle) => i < self@.triangles.len() && triangle == self@.triangles[i as int]
                    && self@.triangle_ok(triangle),
                Err(e) => i >= self@.triangles.len() && e == ParsingError::InvalidIndex,
            },
    {
        proof {
            use_type_invariant(self);
        }
        if i >= self.triangles() {
            return Err(ParsingError::InvalidIndex);
        }
        proof {
            lemma_indexed_rows(decoded(self.storage@), i as int);
        }
        Ok(read_triangle(self.storage.as_slice(), &self.places, i))
    }

    /// How many cubic curves the program has.
    pub fn cubic_curves(&self) -> (n: usize)
        ensures
            n == self@.cubic_curves.len(),
    {
        proof {
            use_type_invariant(self);
        }
        rows_of(self.storage.as_slice(), &self.places, CUBIC_CURVES)
    }

    /// Cubic curve `i`; `InvalidIndex` where the program has no such curve.
    pub fn cubic_curve(&self, i: usize) -> (r: ParsingResult<CubicCurve>)
        ensures
            match r {
                Ok(curve) => i < self@.cubic_curves.len() && curve == self@.cubic_curves[i as int]
                    && self@.cubic_curve_ok(curve),
                Err(e) => i >= self@.cubic_curves.len() && e == ParsingError::InvalidIndex,
            },
    {
        proof {
            use_type_invariant(self);
        }
        if i >= self.cubic_curves() {
            return Err(ParsingError::InvalidIndex);
        }
        proof {
            lemma_indexed_rows(decoded(self.storage@), i as int);
        }
        Ok(read_cubic_curve(self.storage.as_slice(), &self.places, i))
    }

    /// How many arcs the program has.
    pub fn arcs(&self) -> (n: usize)
        ensures
            n == self@.arcs.len(),
    {
        proof {
            use_type_invariant(self);
        }
        rows_of(self.storage.as_slice(), &self.places, ARCS)
    }

    /// Arc `i`; `InvalidIndex` where the program has no such arc.
    pub fn arc(&self, i: usize) -> (r: ParsingResult<Arc>)
        ensures
            match r {
                Ok(arc) => i < self@.arcs.len() && arc == self@.arcs[i as int] && self@.arc_ok(arc),
                Err(e) => i >= self@.arcs.len() && e == ParsingError::InvalidIndex,
            },
    {
        proof {
            use_type_invariant(self);
        }
        if i >= self.arcs() {
            return Err(ParsingError::InvalidIndex);
        }
        proof {
            lemma_indexed_rows(decoded(self.storage@), i as int);
        }
        Ok(read_arc(self.storage.as_slice(), &self.places, i))
    }

    /// How many quadratic curves the program has.
    pub fn quadratic_curves(&self) -> (n: usize)
        ensures
            n == self@.quadratic_curves.len(),
    {
        proof {
            use_type_invariant(self);
        }
        rows_of(self.storage.as_slice(), &self.places, QUADRATIC_CURVES)
    }

    /// Quadratic curve `i`; `InvalidIndex` where the program has no such curve.
    pub fn quadratic_curve(&self, i: usize) -> (r: ParsingResult<QuadraticCurve>)
        ensures
            match r {
                Ok(curve) => i < self@.quadratic_curves.len() && curve
                    == self@.quadratic_curves[i as int] && self@.quadratic_curve_ok(curve),
                Err(e) => i >= self@.quadratic_curves.len() && e == ParsingError::InvalidIndex,
            },
    {
        proof {
            use_type_invariant(self);
        }
        if i >= self.quadratic_curves() {
            return Err(ParsingError::InvalidIndex);
        }
        proof {
            lemma_indexed_rows(decoded(self.storage@), i as int);
        }
        Ok(read_quadratic_curve(self.storage.as_slice(), &self.places, i))
    }

    /// How many lines the program has.
    pub fn lines(&self) -> (n: usize)
        ensures
            n == self@.lines.len(),
    {
        proof {
            use_type_invariant(self);
        }
        rows_of(self.storage.as_slice(), &self.places, LINES)
    }

    /// Line `i`; `InvalidIndex` where the program has no such line.
    pub fn line(&self, i: usize) -> (r: ParsingResult<Line>)
        ensures
            match r {
                Ok(line) => i < self@.lines.len() && line == self@.lines[i as int]
                    && self@.line_ok(line),
                Err(e) => i >= self@.lines.len() && e == ParsingError::InvalidIndex,
            },
    {
        proof {
            use_type_invariant(self);
        }
        if i >= self.lines() {
            return Err(ParsingError::InvalidIndex);
        }
        proof {
            lemma_indexed_rows(decoded(self.storage@), i as int);
        }
        Ok(read_line(self.storage.as_slice(), &self.places, i))
    }

    /// How many strokers the program has.
    pub fn strokers(&self) -> (n: usize)
        ensures
            n == self@.strokers.len(),
    {
        proof {
            use_type_invariant(self);
        }
        rows_of(self.storage.as_slice(), &self.places, STROKERS)
    }

    /// Stroker `i`; `InvalidIndex` where the program has no such stroker.
    pub fn stroker(&self, i: usize) -> (r: ParsingResult<Stroker>)
        ensures
            match r {
                Ok(stroker) => i < self@.strokers.len() && stroker == self@.strokers[i as int]
                    && self@.stroker_ok(stroker),
                Err(e) => i >= self@.strokers.len() && e == ParsingError::InvalidIndex,
            },
    {
        proof {
            use_type_invariant(self);
        }
        if i >= self.strokers() {
            return Err(ParsingError::InvalidIndex);
        }
        proof {
            lemma_indexed_rows(decoded(self.storage@), i as int);
        }
        Ok(read_stroker(self.storage.as_slice(), &self.places, i))
    }

    /// How many paths the program has.
    pub fn paths(&self) -> (n: usize)
        ensures
            n == self@.paths.len(),
    {
        proof {
            use_type_invariant(self);
        }
        rows_of(self.storage.as_slice(), &self.places, PATHS)
    }

    /// How many rows the pool of steps has.
    pub closed spec fn spec_steps(&self) -> nat {
        count(self.storage@, STEPS as int) as nat
    }

    /// The row of the pool of steps, with its primitive written out.
    pub closed spec fn spec_step(&self, row: int) -> PathStep {
        resolved(decoded(self.storage@), step_at(self.storage@, row))
    }

    /// Where path `i` begins in the pool of steps.
    pub closed spec fn spec_path_offset(&self, i: int) -> nat {
        cell(self.storage@, PATHS as int, i, 0) as nat
    }

    /// Path `i` as a run of the pool of steps; `InvalidIndex` where the
    /// program has no such path.
    pub fn raw_path(&self, i: usize) -> (r: ParsingResult<RawPath>)
        ensures
            match r {
                Ok(raw) => {
                    &&& i < self@.paths.len()
                    &&& raw.step_offset == self.spec_path_offset(i as int)
                    &&& raw.stop_before == raw.step_offset + self@.paths[i as int].len()
                    &&& raw.stop_before <= self.spec_steps()
                    &&& forall|k: int|
                        0 <= k < self@.paths[i as int].len() ==> self.spec_step(
                            raw.step_offset + k,
                        ) == resolved(self@, #[trigger] self@.paths[i as int][k])
                },
                Err(e) => i >= self@.paths.len() && e == ParsingError::InvalidIndex,
            },
    {
        proof {
            use_type_invariant(self);
        }
        if i >= self.paths() {
            return Err(ParsingError::InvalidIndex);
        }
        let bytes = self.storage.as_slice();
        let first: usize = cell_of(bytes, &self.places, PATHS, i, 0) as usize;
        let length: usize = cell_of(bytes, &self.places, PATHS, i, 1) as usize;
        Ok(RawPath { step_offset: first, stop_before: first + length })
    }

    /// How many rows the pool of triangle indices has.
    pub fn triangle_indexes(&self) -> (n: usize)
        ensures
            n == self.spec_triangle_indexes(),
    {
        proof {
            use_type_invariant(self);
        }
        rows_of(self.storage.as_slice(), &self.places, TRIANGLE_INDEXES)
    }

    /// How many rows the pool of triangle indices has.
    pub closed spec fn spec_triangle_indexes(&self) -> nat {
        count(self.storage@, TRIANGLE_INDEXES as int) as nat
    }

    /// The row of the pool of triangle indices.
    pub closed spec fn spec_triangle_index(&self, row: int) -> u32 {
        cell(self.storage@, TRIANGLE_INDEXES as int, row, 0)
    }

    /// Row `i` of the pool of triangle indices; `InvalidIndex` where the
    /// pool has no such row.
    pub fn triangle_index(&self, i: usize) -> (r: ParsingResult<usize>)
        ensures
            match r {
                Ok(index) => i < self.spec_triangle_indexes() && index == self.spec_triangle_index(
                    i as int,
                ),
                Err(e) => i >= self.spec_triangle_indexes() && e == ParsingError::InvalidIndex,
            },
    {
        proof {
            use_type_invariant(self);
        }
        if i >= self.triangle_indexes() {
            return Err(ParsingError::InvalidIndex);
        }
        Ok(read_triangle_index(self.storage.as_slice(), &self.places, i) as usize)
    }

    /// How many backgrounds the program has.
    pub fn backgrounds(&self) -> (n: usize)
        ensures
            n == self@.backgrounds.len(),
    {
        proof {
            use_type_invariant(self);
        }
        rows_of(self.storage.as_slice(), &self.places, BACKGROUNDS)
    }

    /// Background `i` as a run of the pool of triangle indices;
    /// `InvalidIndex` where the program has no such background.
    pub fn raw_background(&self, i: usize) -> (r: ParsingResult<RawBackground>)
        ensures
            match r {
                Ok(raw) => {
                    &&& i < self@.backgrounds.len()
                    &&& raw.stop_before == raw.triangle_index_offset
                        + self@.backgrounds[i as int].len()
                    &&& raw.stop_before <= self.spec_triangle_indexes()
                    &&& forall|k: int|
                        0 <= k < self@.backgrounds[i as int].len() ==> self.spec_triangle_index(
                            raw.triangle_index_offset + k,
                        ) == #[trigger] self@.backgrounds[i as int][k]
                    &&& forall|k: int|
                        0 <= k < self@.backgrounds[i as int].len()
                            ==> #[trigger] self@.backgrounds[i as int][k] < self@.triangles.len()
                },
                Err(e) => i >= self@.backgrounds.len() && e == ParsingError::InvalidIndex,
            },
    {
        proof {
            use_type_invariant(self);
        }
        if i >= self.backgrounds() {
            return Err(ParsingError::InvalidIndex);
        }
        let bytes = self.storage.as_slice();
        let first: usize = cell_of(bytes, &self.places, BACKGROUNDS, i, 0) as usize;
        let length: usize = cell_of(bytes, &self.places, BACKGROUNDS, i, 1) as usize;
        Ok(RawBackground { triangle_index_offset: first, stop_before: first + length })
    }
}

impl SerializedProgram {
    /// Runs the tape of the program over `stack`; with `track`, raises in
    /// `changes` the flag of each slot whose new value is unlike the old one.
    pub fn run<F: Fn(Operation, Couple, Couple, Couple) -> Couple>(
        &self,
        stack: &mut Vec<Couple>,
        changes: &mut Vec<bool>,
        track: bool,
        arithmetic: &F,
    )
        requires
            old(stack).len() == self@.stack_size(),
            track ==> old(changes).len() == old(stack).len(),
            total(*arithmetic),
        ensures
            computed(
                self@.instructions,
                self@.arguments.len() as int,
                old(stack)@,
                final(stack)@,
                self@.instructions.len() as int,
                *arithmetic,
            ),
            track ==> flagged(
                self@.arguments.len() as int,
                old(stack)@,
                final(stack)@,
                self@.instructions.len() as int,
                old(changes)@,
                final(changes)@,
            ),
            !track ==> final(changes)@ == old(changes)@,
    {
        proof {
            use_type_invariant(self);
        }
        let ghost before = stack@;
        let ghost flags = changes@;
        let ghost tape = self@.instructions;
        let arguments: usize = self.arguments();
        let count: usize = self.instructions();
        let mut i: usize = 0;
        while i < count
            invariant
                i <= count,
                tape == self@.instructions,
                self.well_formed(),
                self@.indexed(),
                count == tape.len(),
                arguments == self@.arguments.len(),
                stack.len() == arguments + count,
                before == old(stack)@,
                flags == old(changes)@,
                before.len() == stack.len(),
                track ==> changes.len() == stack.len(),
                track ==> flags.len() == stack.len(),
                total(*arithmetic),
                tape_sound(tape, arguments as int, i as int),
                computed(tape, arguments as int, before, stack@, i as int, *arithmetic),
                track ==> flagged(arguments as int, before, stack@, i as int, flags, changes@),
                !track ==> changes@ == flags,
            decreases count - i,
        {
            let instruction = read_instruction(self.storage.as_slice(), &self.places, i);
            let slot: usize = arguments + i;
            proof {
                lemma_indexed_rows(self@, i as int);
                assert(operands_below(tape[i as int], arguments + i));
            }
            let ghost held = stack@;
            let ghost raised = changes@;
            assert(held[slot as int] == before[slot as int]);
            execute(instruction, slot, stack, changes, track, arithmetic);
            proof {
                lemma_computed_next(
                    tape,
                    arguments as int,
                    before,
                    held,
                    stack@,
                    i as int,
                    *arithmetic,
                );
                if track {
                    lemma_flagged_next(
                        arguments as int,
                        before,
                        held,
                        stack@,
                        i as int,
                        flags,
                        raised,
                        changes@,
                    );
                }
            }
            i += 1;
        }
    }

    /// Runs the tape of the program over `stack`: each instruction in turn
    /// reads its operands from the stack and writes its result to its slot.
    /// `arithmetic` evaluates the operations that calculate. With `changes`,
    /// the flag of each slot whose new value is unlike the old one is raised.
    pub fn compute<F: Fn(Operation, Couple, Couple, Couple) -> Couple>(
        &self,
        stack: &mut Vec<Couple>,
        changes: Option<&mut Vec<bool>>,
        arithmetic: F,
    ) -> (r: ParsingResult<()>)
        requires
            old(stack).len() == self@.stack_size(),
            changes matches Some(flags) ==> flags.len() == old(stack).len(),
            total(arithmetic),
        ensures
            r is Ok,
            computed(
                self@.instructions,
                self@.arguments.len() as int,
                old(stack)@,
                final(stack)@,
                self@.instructions.len() as int,
                arithmetic,
            ),
            changes matches Some(flags) ==> flagged(
                self@.arguments.len() as int,
                old(stack)@,
                final(stack)@,
                self@.instructions.len() as int,
                flags@,
                final(flags)@,
            ),
    {
        match changes {
            Some(flags) => {
                self.run(stack, flags, true, &arithmetic);
            },
            None => {
                let mut none: Vec<bool> = Vec::new();
                self.run(stack, &mut none, false, &arithmetic);
            },
        }
        Ok(())
    }
}

impl Clone for SerializedProgram {
    fn clone(&self) -> (copy: SerializedProgram)
        ensures
            copy.file() == self.file(),
    {
        proof {
            use_type_invariant(self);
        }
        let mut storage: Vec<u8> = Vec::new();
        storage.extend_from_slice(self.storage.as_slice());
        assert(storage@ =~= self.storage@);
        SerializedProgram { storage, places: self.places }
    }
}

/// Walks the steps of a path, each with its primitive written out.
pub struct PathIterator<'a> {
    program: &'a SerializedProgram,
    step_offset: usize,
    stop_before: usize,
}

impl<'a> PathIterator<'a> {
    #[verifier::type_invariant]
    spec fn well_formed(&self) -> bool {
        &&& self.program.well_formed()
        &&& self.step_offset <= self.stop_before <= count(self.program.storage@, STEPS as int)
        &&& forall|row: int|
            self.step_offset <= row < self.stop_before ==> decoded(self.program.storage@).step_ok(
                #[trigger] step_at(self.program.storage@, row),
            )
    }

    /// The steps that are left, in order.
    pub closed spec fn view(&self) -> Seq<PathStep> {
        Seq::new(
            (self.stop_before - self.step_offset) as nat,
            |k: int| self.program.spec_step(self.step_offset + k),
        )
    }

    /// Takes the next step off the path; nothing once the path is walked.
    pub fn next(&mut self) -> (r: Option<ParsingResult<PathStep>>)
        ensures
            match r {
                None => old(self)@.len() == 0 && final(self)@ == old(self)@,
                Some(Ok(step)) => old(self)@.len() > 0 && step == old(self)@[0] && final(self)@
                    == old(self)@.drop_first(),
                Some(Err(_)) => false,
            },
    {
        proof {
            use_type_invariant(&*self);
        }
        if self.step_offset < self.stop_before {
            let bytes = self.program.storage.as_slice();
            let places = &self.program.places;
            let step = read_step(bytes, places, self.step_offset);
            assert(decoded(bytes@).step_ok(step_at(bytes@, self.step_offset as int)));
            let index: usize = step.1 as usize;
            let found = match step.0 {
                StepType::Arc => PathStep::Arc(read_arc(bytes, places, index)),
                StepType::CubicCurve => PathStep::CubicCurve(read_cubic_curve(bytes, places, index)),
                StepType::QuadraticCurve => PathStep::QuadraticCurve(
                    read_quadratic_curve(bytes, places, index),
                ),
                StepType::Line => PathStep::Line(read_line(bytes, places, index)),
            };
            self.step_offset = self.step_offset + 1;
            assert(self@ =~= old(self)@.drop_first());
            Some(Ok(found))
        } else {
            None
        }
    }
}

/// Walks the triangles of a background.
pub struct BackgroundIterator<'a> {
    program: &'a SerializedProgram,
    triangle_index_offset: usize,
    stop_before: usize,
}

impl<'a> BackgroundIterator<'a> {
    #[verifier::type_invariant]
    spec fn well_formed(&self) -> bool {
        &&& self.program.well_formed()
        &&& self.triangle_index_offset <= self.stop_before <= count(
            self.program.storage@,
            TRIANGLE_INDEXES as int,
        )
        &&& forall|row: int|
            self.triangle_index_offset <= row < self.stop_before ==> #[trigger] cell(
                self.program.storage@,
                TRIANGLE_INDEXES as int,
                row,
                0,
            ) < count(self.program.storage@, TRIANGLES as int)
    }

    /// The triangles that are left, in order.
    pub closed spec fn view(&self) -> Seq<Triangle> {
        Seq::new(
            (self.stop_before - self.triangle_index_offset) as nat,
            |k: int|
                decoded(self.program.storage@).triangles[self.program.spec_triangle_index(
                    self.triangle_index_offset + k,
                ) as int],
        )
    }

    /// Takes the next triangle off the background; nothing once it is walked.
    pub fn next(&mut self) -> (r: Option<ParsingResult<Triangle>>)
        ensures
            match r {
                None => old(self)@.len() == 0 && final(self)@ == old(self)@,
                Some(Ok(triangle)) => old(self)@.len() > 0 && triangle == old(self)@[0]
                    && final(self)@ == old(self)@.drop_first(),
                Some(Err(_)) => false,
            },
    {
        proof {
            use_type_invariant(&*self);
        }
        if self.triangle_index_offset < self.stop_before {
            let bytes = self.program.storage.as_slice();
            let places = &self.program.places;
            let index: usize = read_triangle_index(bytes, places, self.triangle_index_offset) as usize;
            let triangle = read_triangle(bytes, places, index);
            self.triangle_index_offset = self.triangle_index_offset + 1;
            assert(self@ =~= old(self)@.drop_first());
            Some(Ok(triangle))
        } else {
            None
        }
    }
}

impl SerializedProgram {
    /// The steps of path `i`, to be walked.
    pub fn path<'a>(&'a self, i: usize) -> (r: ParsingResult<PathIterator<'a>>)
        ensures
            match r {
                Ok(steps) => i < self@.paths.len() && steps@ == resolved_path(
                    self@,
                    self@.paths[i as int],
                ),
                Err(e) => i >= self@.paths.len() && e == ParsingError::InvalidIndex,
            },
    {
        proof {
            use_type_invariant(self);
        }
        if i >= self.paths() {
            return Err(ParsingError::InvalidIndex);
        }
        let bytes = self.storage.as_slice();
        let first: usize = cell_of(bytes, &self.places, PATHS, i, 0) as usize;
        let length: usize = cell_of(bytes, &self.places, PATHS, i, 1) as usize;
        proof {
            assert forall|row: int| first <= row < first + length implies decoded(
                self.storage@,
            ).step_ok(#[trigger] step_at(self.storage@, row)) by {
                lemma_indexed_runs(decoded(self.storage@), i as int, row - first);
                assert(self@.paths[i as int][row - first] == step_at(self.storage@, row));
            }
        }
        let steps = PathIterator { program: self, step_offset: first, stop_before: first + length };
        assert(steps@ =~= resolved_path(self@, self@.paths[i as int]));
        Ok(steps)
    }

    /// The triangles of background `i`, to be walked.
    pub fn background<'a>(&'a self, i: usize) -> (r: ParsingResult<BackgroundIterator<'a>>)
        ensures
            match r {
                Ok(triangles) => i < self@.backgrounds.len() && triangles@ == resolved_background(
                    self@,
                    self@.backgrounds[i as int],
                ),
                Err(e) => i >= self@.backgrounds.len() && e == ParsingError::InvalidIndex,
            },
    {
        proof {
            use_type_invariant(self);
        }
        if i >= self.backgrounds() {
            return Err(ParsingError::InvalidIndex);
        }
        let bytes = self.storage.as_slice();
        let first: usize = cell_of(bytes, &self.places, BACKGROUNDS, i, 0) as usize;
        let length: usize = cell_of(bytes, &self.places, BACKGROUNDS, i, 1) as usize;
        proof {
            assert forall|row: int| first <= row < first + length implies #[trigger] cell(
                self.storage@,
                TRIANGLE_INDEXES as int,
                row,
                0,
            ) < count(self.storage@, TRIANGLES as int) by {
                lemma_indexed_runs(decoded(self.storage@), i as int, row - first);
                assert(self@.backgrounds[i as int][row - first] == cell(
                    self.storage@,
                    TRIANGLE_INDEXES as int,
                    row,
                    0,
                ));
            }
        }
        let triangles = BackgroundIterator {
            program: self,
            triangle_index_offset: first,
            stop_before: first + length,
        };
        assert(triangles@ =~= resolved_background(self@, self@.backgrounds[i as int]));
        Ok(triangles)
    }

    /// Rendering step `i`, with its path and its background or stroker written out.
    pub fn rendering_step<'a>(&'a self, i: usize) -> (r: ParsingResult<
        RenderingStep<PathIterator<'a>, BackgroundIterator<'a>>,
    >)
        ensures
            match r {
                Ok(RenderingStep::Clip(path, background)) => {
                    &&& i < self@.rendering_steps.len()
                    &&& self@.rendering_steps[i as int] matches RawRenderingStep::Clip(p, b)
                    &&& path@ == resolved_path(self@, self@.paths[p as int])
                    &&& background@ == resolved_background(self@, self@.backgrounds[b as int])
                },
                Ok(RenderingStep::Stroke(path, stroker)) => {
                    &&& i < self@.rendering_steps.len()
                    &&& self@.rendering_steps[i as int] matches RawRenderingStep::Stroke(p, s)
                    &&& path@ == resolved_path(self@, self@.paths[p as int])
                    &&& stroker == self@.strokers[s as int]
                },
                Err(e) => i >= self@.rendering_steps.len() && e == ParsingError::InvalidIndex,
            },
    {
        let raw = match self.raw_rendering_step(i) {
            Ok(raw) => raw,
            Err(e) => {
                return Err(e);
            },
        };
        match raw {
            RawRenderingStep::Clip(p, b) => {
                let path = match self.path(p as usize) {
                    Ok(path) => path,
                    Err(e) => {
                        return Err(e);
                    },
                };
                let background = match self.background(b as usize) {
                    Ok(background) => background,
                    Err(e) => {
                        return Err(e);
                    },
                };
                Ok(RenderingStep::Clip(path, background))
            },
            RawRenderingStep::Stroke(p, s) => {
                let path = match self.path(p as usize) {
                    Ok(path) => path,
                    Err(e) => {
                        return Err(e);
                    },
                };
                let stroker = match self.stroker(s as usize) {
                    Ok(stroker) => stroker,
                    Err(e) => {
                        return Err(e);
                    },
                };
                Ok(RenderingStep::Stroke(path, stroker))
            },
        }
    }
}

} // verus!
