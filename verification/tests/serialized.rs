use railway::computing::{Argument, Couple, Instruction, Operation, Output};
use railway::drawing::{PathStep, RawRenderingStep, RenderingStep, StepType, Stroker, Triangle};
use railway::format::Program;
use railway::primitive::{Arc, CubicCurve, Line, QuadraticCurve};
use railway::serialized::SerializedProgram;
use railway::ParsingError;

fn couple(x: f32, y: f32) -> Couple {
    Couple::new(x.to_bits(), y.to_bits())
}

fn adding(operation: Operation, a: Couple, b: Couple, _c: Couple) -> Couple {
    match operation {
        Operation::Add2 => couple(
            f32::from_bits(a.x) + f32::from_bits(b.x),
            f32::from_bits(a.y) + f32::from_bits(b.y),
        ),
        _ => panic!("not used here"),
    }
}

fn program() -> Program {
    let mut p = Program::new();
    p.arguments.push(Argument {
        name: Some("size".to_string()),
        value: couple(1.0, 2.0),
        range: (couple(0.0, 0.5), couple(3.0, 4.0)),
    });
    p.arguments.push(Argument::unnamed(couple(10.0, 20.0)));
    p.instructions
        .push(Instruction::new(Operation::Add2, 0, 1, 0));
    p.instructions
        .push(Instruction::new(Operation::Swap1, 2, 0, 0));
    p.outputs.push(Output {
        name: Some("sum".to_string()),
        address: 2,
    });
    p.outputs.push(Output {
        name: None,
        address: 3,
    });
    p.triangles.push(Triangle {
        points: [0, 1, 2],
        colors: [[3, 0], [1, 2], [3, 3]],
    });
    p.triangles.push(Triangle {
        points: [3, 2, 1],
        colors: [[0, 0], [0, 0], [0, 0]],
    });
    p.arcs.push(Arc {
        start_point: 1,
        center: 2,
        deltas: 3,
    });
    p.cubic_curves.push(CubicCurve {
        points: [0, 1, 2, 3],
    });
    p.quadratic_curves
        .push(QuadraticCurve { points: [3, 2, 1] });
    p.lines.push(Line { points: [0, 3] });
    p.lines.push(Line { points: [2, 1] });
    p.strokers.push(Stroker {
        pattern: 0,
        width: 1,
        color: [2, 3],
    });
    p.paths.push(vec![
        (StepType::Line, 1),
        (StepType::Arc, 0),
        (StepType::CubicCurve, 0),
        (StepType::QuadraticCurve, 0),
    ]);
    p.paths.push(vec![(StepType::Line, 0)]);
    p.backgrounds.push(vec![1, 0, 1]);
    p.rendering_steps.push(RawRenderingStep::Clip(0, 0));
    p.rendering_steps.push(RawRenderingStep::Stroke(1, 0));
    p
}

fn serialized() -> SerializedProgram {
    let mut bytes = Vec::new();
    program().dump(&mut bytes).unwrap();
    SerializedProgram::new(bytes).unwrap()
}

#[test]
fn new_refuses_what_parse_refuses() {
    assert_eq!(
        SerializedProgram::new(b"RWY1".to_vec()).err(),
        Some(ParsingError::NotARailwayFile)
    );
    assert_eq!(
        SerializedProgram::new(b"RWY0".to_vec()).err(),
        Some(ParsingError::TooShort)
    );
    let mut bytes = Vec::new();
    program().dump(&mut bytes).unwrap();
    bytes.push(0);
    assert_eq!(
        SerializedProgram::new(bytes.clone()).err(),
        Some(ParsingError::ExcessBytes)
    );
    bytes.pop();
    // The first operand of the first instruction.
    let operand = 4 + 4 * (1 + 14 + 1 + 1);
    bytes[operand..operand + 4].copy_from_slice(&u32::MAX.to_be_bytes());
    assert_eq!(
        SerializedProgram::new(bytes).err(),
        Some(ParsingError::InvalidIndex)
    );
}

#[test]
fn the_bytes_are_kept() {
    let mut bytes = Vec::new();
    program().dump(&mut bytes).unwrap();
    let s = SerializedProgram::new(bytes.clone()).unwrap();
    assert_eq!(s.bytes(), &bytes[..]);
    assert_eq!(s.clone(), s);
}

#[test]
fn counts_are_those_of_the_tables() {
    let s = serialized();
    assert_eq!(s.stack_size(), 4);
    assert_eq!(s.arguments(), 2);
    assert_eq!(s.instructions(), 2);
    assert_eq!(s.outputs(), 2);
    assert_eq!(s.triangles(), 2);
    assert_eq!(s.arcs(), 1);
    assert_eq!(s.cubic_curves(), 1);
    assert_eq!(s.quadratic_curves(), 1);
    assert_eq!(s.lines(), 2);
    assert_eq!(s.strokers(), 1);
    assert_eq!(s.paths(), 2);
    assert_eq!(s.triangle_indexes(), 3);
    assert_eq!(s.backgrounds(), 1);
    assert_eq!(s.rendering_steps(), 2);
}

#[test]
fn rows_are_read_by_index() {
    let s = serialized();
    let p = program();
    assert_eq!(s.argument(0), Ok(p.arguments[0].clone()));
    assert_eq!(s.argument(1), Ok(p.arguments[1].clone()));
    assert_eq!(s.instruction(0), Ok(p.instructions[0]));
    assert_eq!(s.instruction(1), Ok(p.instructions[1]));
    assert_eq!(s.output(0), Ok(p.outputs[0].clone()));
    assert_eq!(s.output(1), Ok(p.outputs[1].clone()));
    assert_eq!(s.triangle(0), Ok(p.triangles[0]));
    assert_eq!(s.triangle(1), Ok(p.triangles[1]));
    assert_eq!(s.arc(0), Ok(p.arcs[0]));
    assert_eq!(s.cubic_curve(0), Ok(p.cubic_curves[0]));
    assert_eq!(s.quadratic_curve(0), Ok(p.quadratic_curves[0]));
    assert_eq!(s.line(0), Ok(p.lines[0]));
    assert_eq!(s.line(1), Ok(p.lines[1]));
    assert_eq!(s.stroker(0), Ok(p.strokers[0]));
    assert_eq!(s.raw_rendering_step(0), Ok(RawRenderingStep::Clip(0, 0)));
    assert_eq!(s.raw_rendering_step(1), Ok(RawRenderingStep::Stroke(1, 0)));
    assert_eq!(s.triangle_index(0), Ok(1));
    assert_eq!(s.triangle_index(1), Ok(0));
    assert_eq!(s.triangle_index(2), Ok(1));
}

#[test]
fn an_index_at_or_beyond_the_count_is_invalid() {
    let s = serialized();
    let e = ParsingError::InvalidIndex;
    assert_eq!(s.argument(2), Err(e));
    assert_eq!(s.instruction(2), Err(e));
    assert_eq!(s.output(2), Err(e));
    assert_eq!(s.triangle(2), Err(e));
    assert_eq!(s.arc(1), Err(e));
    assert_eq!(s.cubic_curve(1), Err(e));
    assert_eq!(s.quadratic_curve(1), Err(e));
    assert_eq!(s.line(2), Err(e));
    assert_eq!(s.stroker(1), Err(e));
    assert_eq!(s.raw_rendering_step(2), Err(e));
    assert_eq!(s.triangle_index(3), Err(e));
    assert_eq!(s.triangle_index(usize::MAX), Err(e));
    assert!(matches!(s.raw_path(2), Err(ParsingError::InvalidIndex)));
    assert!(matches!(s.raw_background(1), Err(ParsingError::InvalidIndex)));
    assert!(matches!(s.path(2), Err(ParsingError::InvalidIndex)));
    assert!(matches!(s.background(1), Err(ParsingError::InvalidIndex)));
    assert!(matches!(s.rendering_step(2), Err(ParsingError::InvalidIndex)));
}

#[test]
fn raw_runs_are_rows_of_the_pools() {
    let s = serialized();
    let first = s.raw_path(0).ok().unwrap();
    assert_eq!((first.step_offset, first.stop_before), (0, 4));
    let second = s.raw_path(1).ok().unwrap();
    assert_eq!((second.step_offset, second.stop_before), (4, 5));
    let background = s.raw_background(0).ok().unwrap();
    assert_eq!(
        (background.triangle_index_offset, background.stop_before),
        (0, 3)
    );
}

#[test]
fn a_path_is_walked_step_by_step() {
    let s = serialized();
    let p = program();
    let mut steps = s.path(0).ok().unwrap();
    assert_eq!(steps.next(), Some(Ok(PathStep::Line(p.lines[1]))));
    assert_eq!(steps.next(), Some(Ok(PathStep::Arc(p.arcs[0]))));
    assert_eq!(
        steps.next(),
        Some(Ok(PathStep::CubicCurve(p.cubic_curves[0])))
    );
    assert_eq!(
        steps.next(),
        Some(Ok(PathStep::QuadraticCurve(p.quadratic_curves[0])))
    );
    assert_eq!(steps.next(), None);
    assert_eq!(steps.next(), None);
}

#[test]
fn a_background_is_walked_triangle_by_triangle() {
    let s = serialized();
    let p = program();
    let mut triangles = s.background(0).ok().unwrap();
    assert_eq!(triangles.next(), Some(Ok(p.triangles[1])));
    assert_eq!(triangles.next(), Some(Ok(p.triangles[0])));
    assert_eq!(triangles.next(), Some(Ok(p.triangles[1])));
    assert_eq!(triangles.next(), None);
}

#[test]
fn rendering_steps_come_with_their_path() {
    let s = serialized();
    let p = program();
    match s.rendering_step(0) {
        Ok(RenderingStep::Clip(mut path, mut background)) => {
            assert_eq!(path.next(), Some(Ok(PathStep::Line(p.lines[1]))));
            assert_eq!(background.next(), Some(Ok(p.triangles[1])));
        }
        _ => panic!("a clip was expected"),
    }
    match s.rendering_step(1) {
        Ok(RenderingStep::Stroke(mut path, stroker)) => {
            assert_eq!(path.next(), Some(Ok(PathStep::Line(p.lines[0]))));
            assert_eq!(path.next(), None);
            assert_eq!(stroker, p.strokers[0]);
        }
        _ => panic!("a stroke was expected"),
    }
}

#[test]
fn the_tape_runs_over_a_stack() {
    let s = serialized();
    let mut stack = vec![couple(1.0, 2.0), couple(10.0, 20.0), Couple::zero(), Couple::zero()];
    let mut changes = vec![false; 4];
    assert_eq!(s.compute(&mut stack, Some(&mut changes), adding), Ok(()));
    assert_eq!(stack[2], couple(11.0, 22.0));
    assert_eq!(stack[3], couple(22.0, 11.0));
    assert_eq!(changes, vec![false, false, true, true]);
    let mut untracked = stack.clone();
    untracked[0] = couple(2.0, 2.0);
    assert_eq!(s.compute(&mut untracked, None, adding), Ok(()));
    assert_eq!(untracked[2], couple(12.0, 22.0));
    assert_eq!(untracked[3], couple(22.0, 12.0));
}
