use railway::computing::{
    compute, execute, run_tape, select, Argument, Couple, Instruction, Operation,
};
use railway::format::Program;
use railway::ParsingError;

fn couple(x: f32, y: f32) -> Couple {
    Couple::new(x.to_bits(), y.to_bits())
}

fn numbers(c: Couple) -> (f32, f32) {
    (f32::from_bits(c.x), f32::from_bits(c.y))
}

fn arithmetic(operation: Operation, a: Couple, b: Couple, c: Couple) -> Couple {
    let (ax, ay) = numbers(a);
    let (bx, by) = numbers(b);
    let (cx, cy) = numbers(c);
    match operation {
        Operation::Add2 => couple(ax + bx, ay + by),
        Operation::Subtract2 => couple(ax - bx, ay - by),
        Operation::Multiply2 => couple(ax * bx, ay * by),
        Operation::Divide2 => couple(ax / bx, ay / by),
        Operation::Polar1 => couple((-ay).atan2(ax), (ax * ax + ay * ay).sqrt()),
        Operation::Cartesian1 => {
            let (sin, cos) = ax.sin_cos();
            couple(cos * ay, -sin * ay)
        }
        Operation::Cartesian2 => {
            let (sin, cos) = ax.sin_cos();
            couple(cos * ay + bx, -sin * ay + by)
        }
        Operation::Adjusted3 => couple(ax * cx + bx * cy, ay * cx + by * cy),
        _ => panic!("decided by the machine"),
    }
}

fn unnamed(value: Couple) -> Argument {
    Argument::unnamed(value)
}

const ALL: [Operation; 14] = [
    Operation::Add2,
    Operation::Subtract2,
    Operation::Multiply2,
    Operation::Divide2,
    Operation::Select2,
    Operation::EachX2,
    Operation::EachY2,
    Operation::Polar1,
    Operation::Cartesian1,
    Operation::Cartesian2,
    Operation::Inside3,
    Operation::Swap1,
    Operation::Adjusted3,
    Operation::Clamp3,
];

#[test]
fn opcodes_are_fixed() {
    let codes: Vec<u32> = ALL.iter().map(|o| o.opcode()).collect();
    assert_eq!(codes, vec![0, 1, 2, 3, 4, 5, 6, 7, 8, 9, 10, 11, 12, 13]);
    for operation in ALL {
        assert_eq!(Operation::from_opcode(operation.opcode()), Some(operation));
    }
    assert_eq!(Operation::from_opcode(14), None);
    assert_eq!(Operation::from_opcode(u32::MAX), None);
}

#[test]
fn arities_are_those_of_the_table() {
    let arities: Vec<u32> = ALL.iter().map(|o| o.number_of_operands()).collect();
    assert_eq!(arities, vec![2, 2, 2, 2, 2, 2, 2, 1, 1, 2, 3, 1, 3, 3]);
}

#[test]
fn names_are_those_of_the_operations() {
    let names: Vec<&str> = ALL.iter().map(|o| o.as_text()).collect();
    assert_eq!(
        names,
        vec![
            "Add2",
            "Subtract2",
            "Multiply2",
            "Divide2",
            "Select2",
            "EachX2",
            "EachY2",
            "Polar1",
            "Cartesian1",
            "Cartesian2",
            "Inside3",
            "Swap1",
            "Adjusted3",
            "Clamp3"
        ]
    );
}

#[test]
fn six_operations_do_not_calculate() {
    let calculating: Vec<bool> = ALL.iter().map(|o| o.calculates()).collect();
    assert_eq!(
        calculating,
        vec![true, true, true, true, false, false, false, true, true, true, false, false, true, false]
    );
}

#[test]
fn instruction_new_keeps_its_operands() {
    let i = Instruction::new(Operation::Inside3, 7, 8, 9);
    assert_eq!(i.operation, Operation::Inside3);
    assert_eq!(i.operands, [7, 8, 9]);
}

#[test]
fn argument_builders() {
    let v = couple(3.0, 4.0);
    let a = Argument::named("size".to_string(), v);
    assert_eq!(a.name, Some("size".to_string()));
    assert_eq!(a.value, v);
    assert_eq!(a.range, (v, v));
    let b = Argument::unnamed(v);
    assert_eq!(b.name, None);
    assert_eq!(b.value, v);
    assert_eq!(b.range, (v, v));
}

#[test]
fn selecting_operations_pick_components() {
    let a = couple(1.0, 2.0);
    let b = couple(3.0, 4.0);
    let c = couple(5.0, 6.0);
    assert_eq!(select(Operation::Select2, a, b, c), Some(couple(1.0, 4.0)));
    assert_eq!(select(Operation::EachX2, a, b, c), Some(couple(1.0, 3.0)));
    assert_eq!(select(Operation::EachY2, a, b, c), Some(couple(2.0, 4.0)));
    assert_eq!(select(Operation::Swap1, a, b, c), Some(couple(2.0, 1.0)));
    assert_eq!(select(Operation::Add2, a, b, c), None);
    assert_eq!(select(Operation::Polar1, a, b, c), None);
}

#[test]
fn inside3_strictly_inside() {
    let r = select(
        Operation::Inside3,
        couple(1.5, 1.0),
        couple(1.0, 0.0),
        couple(2.0, 2.0),
    );
    assert_eq!(r, Some(couple(1.0, 0.0)));
}

#[test]
fn inside3_boundary_is_outside() {
    let r = select(
        Operation::Inside3,
        couple(1.0, 1.0),
        couple(1.0, 0.0),
        couple(2.0, 2.0),
    );
    assert_eq!(r, Some(couple(0.0, 1.0)));
    let upper = select(
        Operation::Inside3,
        couple(1.5, 2.0),
        couple(1.0, 0.0),
        couple(2.0, 2.0),
    );
    assert_eq!(upper, Some(couple(0.0, 1.0)));
}

#[test]
fn inside3_nan_is_outside() {
    let r = select(
        Operation::Inside3,
        couple(f32::NAN, 1.0),
        couple(1.0, 0.0),
        couple(2.0, 2.0),
    );
    assert_eq!(r, Some(couple(0.0, 1.0)));
    let bound = select(
        Operation::Inside3,
        couple(1.5, 1.0),
        couple(1.0, f32::NAN),
        couple(2.0, 2.0),
    );
    assert_eq!(bound, Some(couple(0.0, 1.0)));
}

#[test]
fn clamp3_clamps_each_component() {
    let r = select(
        Operation::Clamp3,
        couple(-3.0, 9.0),
        couple(0.0, 0.0),
        couple(1.0, 5.0),
    );
    assert_eq!(r, Some(couple(0.0, 5.0)));
}

#[test]
fn compute_hands_arithmetic_out_and_decides_the_rest() {
    let operands = [couple(1.0, 2.0), couple(3.0, 5.0), couple(0.0, 0.0)];
    let add = compute(Instruction::new(Operation::Add2, 0, 0, 0), operands, &arithmetic);
    assert_eq!(add, couple(4.0, 7.0));
    let swap = compute(Instruction::new(Operation::Swap1, 0, 0, 0), operands, &arithmetic);
    assert_eq!(swap, couple(2.0, 1.0));
    let divide = compute(Instruction::new(Operation::Divide2, 0, 0, 0), operands, &arithmetic);
    assert_eq!(divide, couple(1.0 / 3.0, 2.0 / 5.0));
}

#[test]
fn size_times_unit_top_left() {
    let mut q = Program::new();
    q.arguments
        .push(Argument::named("size".to_string(), couple(200.0, 200.0)));
    q.arguments.push(unnamed(couple(0.05, 0.05)));
    q.instructions
        .push(Instruction::new(Operation::Multiply2, 0, 1, 0));
    let mut stack = q.create_stack();
    assert_eq!(stack.len(), 3);
    assert_eq!(stack[2], Couple::zero());
    assert_eq!(q.compute(&mut stack, None, arithmetic), Ok(()));
    let (x, y) = numbers(stack[2]);
    assert_eq!((x, y), (200.0f32 * 0.05f32, 200.0f32 * 0.05f32));
    assert!((x - 10.0).abs() < 1e-5 && (y - 10.0).abs() < 1e-5);
}

#[test]
fn create_stack_seeds_the_arguments() {
    let mut p = Program::new();
    p.arguments.push(unnamed(couple(7.0, 8.0)));
    p.arguments.push(unnamed(couple(-1.0, 0.5)));
    p.instructions
        .push(Instruction::new(Operation::Add2, 0, 1, 0));
    p.instructions
        .push(Instruction::new(Operation::Swap1, 2, 0, 0));
    let stack = p.create_stack();
    assert_eq!(
        stack,
        vec![couple(7.0, 8.0), couple(-1.0, 0.5), Couple::zero(), Couple::zero()]
    );
}

#[test]
fn changes_are_flagged_where_a_slot_changes() {
    let mut p = Program::new();
    p.arguments.push(unnamed(couple(7.0, 8.0)));
    p.arguments.push(unnamed(couple(0.0, 0.0)));
    p.instructions
        .push(Instruction::new(Operation::Add2, 0, 1, 0));
    p.instructions
        .push(Instruction::new(Operation::Multiply2, 1, 1, 0));
    p.instructions
        .push(Instruction::new(Operation::Swap1, 2, 0, 0));
    let mut stack = p.create_stack();
    let mut changes = vec![false; 5];
    assert_eq!(p.compute(&mut stack, Some(&mut changes), arithmetic), Ok(()));
    assert_eq!(stack[2], couple(7.0, 8.0));
    assert_eq!(stack[3], couple(0.0, 0.0));
    assert_eq!(stack[4], couple(8.0, 7.0));
    assert_eq!(changes, vec![false, false, true, false, true]);

    let mut again = vec![false; 5];
    assert_eq!(p.compute(&mut stack, Some(&mut again), arithmetic), Ok(()));
    assert_eq!(again, vec![false; 5]);

    let mut kept = vec![true, false, false, true, false];
    assert_eq!(p.compute(&mut stack, Some(&mut kept), arithmetic), Ok(()));
    assert_eq!(kept, vec![true, false, false, true, false]);
}

#[test]
fn a_nan_result_is_flagged_each_time() {
    let mut p = Program::new();
    p.arguments.push(unnamed(couple(0.0, 1.0)));
    p.instructions
        .push(Instruction::new(Operation::Divide2, 0, 0, 0));
    let mut stack = p.create_stack();
    let mut changes = vec![false; 2];
    assert_eq!(p.compute(&mut stack, Some(&mut changes), arithmetic), Ok(()));
    let (x, y) = numbers(stack[1]);
    assert!(x.is_nan());
    assert_eq!(y, 1.0);
    assert_eq!(changes, vec![false, true]);
    let mut again = vec![false; 2];
    assert_eq!(p.compute(&mut stack, Some(&mut again), arithmetic), Ok(()));
    assert_eq!(again, vec![false, true]);
}

#[test]
fn division_by_zero_is_no_error() {
    let mut p = Program::new();
    p.arguments.push(unnamed(couple(1.0, -1.0)));
    p.arguments.push(unnamed(couple(0.0, 0.0)));
    p.instructions
        .push(Instruction::new(Operation::Divide2, 0, 1, 0));
    let mut stack = p.create_stack();
    assert_eq!(p.compute(&mut stack, None, arithmetic), Ok(()));
    assert_eq!(numbers(stack[2]), (f32::INFINITY, f32::NEG_INFINITY));
}

#[test]
fn two_runs_on_equal_stacks_leave_equal_stacks() {
    let mut p = Program::new();
    p.arguments.push(unnamed(couple(0.3, 2.0)));
    p.arguments.push(unnamed(couple(1.0, -4.0)));
    p.instructions
        .push(Instruction::new(Operation::Cartesian2, 0, 1, 0));
    p.instructions
        .push(Instruction::new(Operation::Polar1, 2, 0, 0));
    p.instructions
        .push(Instruction::new(Operation::Adjusted3, 2, 3, 1));
    p.instructions
        .push(Instruction::new(Operation::Clamp3, 4, 0, 1));
    let mut first = p.create_stack();
    let mut second = p.create_stack();
    assert_eq!(p.compute(&mut first, None, arithmetic), Ok(()));
    assert_eq!(p.compute(&mut second, None, arithmetic), Ok(()));
    assert_eq!(first, second);
}

#[test]
fn an_operand_not_yet_defined_stops_the_run() {
    let mut p = Program::new();
    p.arguments.push(unnamed(couple(1.0, 2.0)));
    p.instructions
        .push(Instruction::new(Operation::Swap1, 0, 0, 0));
    p.instructions
        .push(Instruction::new(Operation::Swap1, 2, 0, 0));
    p.instructions
        .push(Instruction::new(Operation::Swap1, 0, 0, 0));
    let mut stack = p.create_stack();
    assert_eq!(
        p.compute(&mut stack, None, arithmetic),
        Err(ParsingError::InvalidOperation)
    );
    assert_eq!(
        stack,
        vec![couple(1.0, 2.0), couple(2.0, 1.0), Couple::zero(), Couple::zero()]
    );
}

#[test]
fn run_tape_tells_how_far_it_ran() {
    let tape = vec![
        Instruction::new(Operation::Swap1, 0, 0, 0),
        Instruction::new(Operation::Swap1, 1, 1, 5),
    ];
    let mut stack = vec![couple(1.0, 2.0), Couple::zero(), Couple::zero()];
    let mut changes = vec![false; 3];
    let ran = run_tape(&tape, 1, &mut stack, &mut changes, true, &arithmetic);
    assert_eq!(ran, 1);
    assert_eq!(stack, vec![couple(1.0, 2.0), couple(2.0, 1.0), Couple::zero()]);
    assert_eq!(changes, vec![false, true, false]);
}

#[test]
fn execute_writes_one_slot() {
    let mut stack = vec![couple(1.0, 2.0), couple(3.0, 4.0), couple(9.0, 9.0)];
    let mut changes = vec![false; 3];
    execute(
        Instruction::new(Operation::Select2, 0, 1, 1),
        2,
        &mut stack,
        &mut changes,
        true,
        &arithmetic,
    );
    assert_eq!(stack, vec![couple(1.0, 2.0), couple(3.0, 4.0), couple(1.0, 4.0)]);
    assert_eq!(changes, vec![false, false, true]);
    let mut untracked: Vec<bool> = Vec::new();
    execute(
        Instruction::new(Operation::Subtract2, 1, 0, 0),
        2,
        &mut stack,
        &mut untracked,
        false,
        &arithmetic,
    );
    assert_eq!(stack[2], couple(2.0, 2.0));
    assert!(untracked.is_empty());
}

#[test]
fn couples_differ_as_numbers_do() {
    assert!(!couple(0.0, 1.0).is_unlike(&couple(-0.0, 1.0)));
    assert!(couple(f32::NAN, 1.0).is_unlike(&couple(f32::NAN, 1.0)));
    assert!(couple(1.0, 1.0).is_unlike(&couple(1.0, 1.5)));
    assert!(!couple(1.0, 1.5).is_unlike(&couple(1.0, 1.5)));
    assert_eq!(Couple::zero(), Couple::new(0, 0));
}
