use railway::computing::{Argument, Couple, Instruction, Operation};
use railway::format::Program;
use railway::primitive::{Arc, CubicCurve, Line, QuadraticCurve};

fn couple(x: f32, y: f32) -> Couple {
    Couple::new(x.to_bits(), y.to_bits())
}

fn arithmetic(operation: Operation, a: Couple, b: Couple, _c: Couple) -> Couple {
    let (ax, ay) = (f32::from_bits(a.x), f32::from_bits(a.y));
    let (bx, by) = (f32::from_bits(b.x), f32::from_bits(b.y));
    match operation {
        Operation::Add2 => couple(ax + bx, ay + by),
        Operation::Multiply2 => couple(ax * bx, ay * by),
        _ => panic!("not used here"),
    }
}

fn serialize_deserialize(p: &Program) -> Option<Program> {
    let sz = p.file_size().unwrap();
    let mut buffer = Vec::with_capacity(sz);
    match sz == p.dump(&mut buffer).unwrap() {
        true => Some(Program::parse(&buffer).unwrap()),
        false => None,
    }
}

#[test]
fn partial_eq() {
    assert_eq!(Program::new(), Program::new());
}

#[test]
fn round_trip() {
    let a = Program::new();
    assert_eq!(a, serialize_deserialize(&a).unwrap());
}

#[test]
fn arguments() {
    let mut a = Program::new();
    a.arguments.push(Argument {
        name: None,
        value: couple(9999999.0, -1.0 / 3.0),
        range: (couple(0.0, -10.0), couple(10000000.0, 0.0)),
    });
    a.arguments.push(Argument {
        name: Some("Shortie No Mass".into()),
        value: Couple::zero(),
        range: (Couple::zero(), Couple::zero()),
    });
    assert_eq!(a, serialize_deserialize(&a).unwrap());
}

#[test]
fn instructions() {
    let mut a = Program::new();
    let c = couple(5.0, 10.0);
    a.arguments.push(Argument {
        name: None,
        value: c,
        range: (c, c),
    });
    a.instructions.push(Instruction {
        operation: Operation::Multiply2,
        operands: [0, 0, 0],
    });
    a.instructions.push(Instruction {
        operation: Operation::Add2,
        operands: [1, 0, 0],
    });
    assert_eq!(a, serialize_deserialize(&a).unwrap());

    let mut stack = a.create_stack();
    a.compute(&mut stack, None, arithmetic).unwrap();
    assert_eq!(stack[2], couple(30.0, 110.0));
}

#[test]
fn primitives() {
    let mut a = Program::new();
    for _ in 0..12 {
        a.arguments.push(Argument {
            name: None,
            value: Couple::zero(),
            range: (Couple::zero(), Couple::zero()),
        });
    }
    a.arcs.push(Arc {
        start_point: 0,
        center: 1,
        deltas: 2,
    });
    a.cubic_curves.push(CubicCurve {
        points: [3, 4, 5, 6],
    });
    a.quadratic_curves
        .push(QuadraticCurve { points: [7, 8, 9] });
    a.lines.push(Line { points: [10, 11] });
    assert_eq!(a, serialize_deserialize(&a).unwrap());
}
