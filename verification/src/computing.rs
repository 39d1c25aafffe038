//! The value machine: two-component values, the closed set of operations, and
//! the evaluation of a tape of instructions over a stack of values.

use vstd::prelude::*;
use crate::ieee;

verus! {

/// An index into the value stack.
pub type Address = u32;

/// Two addresses: where the (red, green) couple is, and where the (blue, alpha) one.
pub type ColorAddress = [Address; 2];

/// The universal value: an ordered pair of binary32 numbers, each held as its
/// IEEE-754 bit pattern.
#[derive(Clone, Copy, Debug, PartialEq, Eq, Structural)]
pub struct Couple {
    pub x: u32,
    pub y: u32,
}

impl Couple {
    /// The couple of two bit patterns.
    pub fn new(x: u32, y: u32) -> (c: Couple)
        ensures
            c == (Couple { x, y }),
    {
        Couple { x, y }
    }

    /// The couple (0.0, 0.0).
    pub fn zero() -> (c: Couple)
        ensures
            c == (Couple { x: ieee::ZERO, y: ieee::ZERO }),
    {
        Couple { x: ieee::ZERO, y: ieee::ZERO }
    }

    /// True when the two couples are unequal as pairs of numbers: some
    /// component is not equal to its counterpart. A NaN is unequal to itself;
    /// the two zeros are equal.
    pub open spec fn differs(self, other: Couple) -> bool {
        !(ieee::equal(self.x, other.x) && ieee::equal(self.y, other.y))
    }

    /// Tells whether the two couples are unequal as pairs of numbers.
    pub fn is_unlike(&self, other: &Couple) -> (r: bool)
        ensures
            r == self.differs(*other),
    {
        !(ieee::eq(self.x, other.x) && ieee::eq(self.y, other.y))
    }
}

/// A name, or the lack of one, as characters.
pub open spec fn name_view(name: Option<String>) -> Option<Seq<char>> {
    match name {
        Some(s) => Some(s@),
        None => None,
    }
}

/// A named input of a program.
#[derive(Debug, PartialEq)]
pub struct Argument {
    pub name: Option<String>,
    /// The value the argument has until a caller sets another.
    pub value: Couple,
    /// Advisory bounds: (minimum, maximum).
    pub range: (Couple, Couple),
}

/// What an [`Argument`] is, with its name as a sequence of characters.
pub struct ArgumentView {
    pub name: Option<Seq<char>>,
    pub value: Couple,
    pub range: (Couple, Couple),
}

impl View for Argument {
    type V = ArgumentView;

    open spec fn view(&self) -> ArgumentView {
        ArgumentView {
            name: name_view(self.name),
            value: self.value,
            range: self.range,
        }
    }
}

impl Clone for Argument {
    fn clone(&self) -> (copy: Argument)
        ensures
            copy@ == self@,
    {
        let name = match &self.name {
            Some(s) => Some(s.clone()),
            None => None,
        };
        Argument { name, value: self.value, range: (self.range.0, self.range.1) }
    }
}

impl Argument {
    /// An argument with a name, whose range is its value alone.
    pub fn named(name: String, value: Couple) -> (a: Argument)
        ensures
            a@ == (ArgumentView { name: Some(name@), value, range: (value, value) }),
    {
        Argument { name: Some(name), value, range: (value, value) }
    }

    /// An argument without a name, whose range is its value alone.
    pub fn unnamed(value: Couple) -> (a: Argument)
        ensures
            a@ == (ArgumentView { name: None, value, range: (value, value) }),
    {
        Argument { name: None, value, range: (value, value) }
    }
}

/// A named place of the stack that callers may read.
#[derive(Debug, PartialEq)]
pub struct Output {
    pub name: Option<String>,
    pub address: Address,
}

/// What an [`Output`] is, with its name as a sequence of characters.
pub struct OutputView {
    pub name: Option<Seq<char>>,
    pub address: Address,
}

impl View for Output {
    type V = OutputView;

    open spec fn view(&self) -> OutputView {
        OutputView {
            name: name_view(self.name),
            address: self.address,
        }
    }
}

impl Clone for Output {
    fn clone(&self) -> (copy: Output)
        ensures
            copy@ == self@,
    {
        let name = match &self.name {
            Some(s) => Some(s.clone()),
            None => None,
        };
        Output { name, address: self.address }
    }
}

/// Why a file is not a program.
#[derive(Debug, Copy, Clone, PartialEq, Eq, Structural)]
pub enum ParsingError {
    /// The file does not begin with the magic.
    NotARailwayFile,
    /// The file ends before what its counts announce.
    TooShort,
    /// The file goes on after what its counts announce.
    ExcessBytes,
    /// A step's code names no kind of primitive.
    InvalidStepType,
    /// An instruction's code names no operation.
    InvalidOperation,
    /// A rendering step's tag is neither that of a fill nor that of a stroke.
    InvalidRenderingStep,
    /// A name is not UTF-8 that a zero byte ends.
    InvalidName,
    /// The program has no arguments.
    NoArguments,
    /// An address or an index has no referent.
    InvalidIndex,
}

/// What reading gives: a value, or why the file is not a program.
pub type ParsingResult<T> = Result<T, ParsingError>;

/// The operations of the machine. Their codes are fixed; a new one takes the next code.
#[derive(Clone, Copy, Debug, PartialEq, Eq, Structural)]
pub enum Operation {
    /// a + b
    Add2,
    /// a - b
    Subtract2,
    /// a * b, component by component
    Multiply2,
    /// a / b, component by component
    Divide2,
    /// (a.x, b.y)
    Select2,
    /// (a.x, b.x)
    EachX2,
    /// (a.y, b.y)
    EachY2,
    /// cartesian a as (angle, length)
    Polar1,
    /// polar a as (x, y)
    Cartesian1,
    /// polar a as (x, y), plus b
    Cartesian2,
    /// (1, 0) if a lies strictly inside the rectangle from b to c, else (0, 1)
    Inside3,
    /// (a.y, a.x)
    Swap1,
    /// a * c.x + b * c.y
    Adjusted3,
    /// a, clamped between b and c
    Clamp3,
}

/// How many operations there are: the codes are the numbers below it.
pub const OPERATION_COUNT: u32 = 14;

impl Operation {
    /// The code that stands for the operation in a file.
    pub open spec fn code(self) -> u32 {
        match self {
            Operation::Add2 => 0x0,
            Operation::Subtract2 => 0x1,
            Operation::Multiply2 => 0x2,
            Operation::Divide2 => 0x3,
            Operation::Select2 => 0x4,
            Operation::EachX2 => 0x5,
            Operation::EachY2 => 0x6,
            Operation::Polar1 => 0x7,
            Operation::Cartesian1 => 0x8,
            Operation::Cartesian2 => 0x9,
            Operation::Inside3 => 0xA,
            Operation::Swap1 => 0xB,
            Operation::Adjusted3 => 0xC,
            Operation::Clamp3 => 0xD,
        }
    }

    /// The operation that a code stands for; `Clamp3` stands in for the codes that name none.
    pub open spec fn of_code(code: u32) -> Operation {
        if code == 0x0 {
            Operation::Add2
        } else if code == 0x1 {
            Operation::Subtract2
        } else if code == 0x2 {
            Operation::Multiply2
        } else if code == 0x3 {
            Operation::Divide2
        } else if code == 0x4 {
            Operation::Select2
        } else if code == 0x5 {
            Operation::EachX2
        } else if code == 0x6 {
            Operation::EachY2
        } else if code == 0x7 {
            Operation::Polar1
        } else if code == 0x8 {
            Operation::Cartesian1
        } else if code == 0x9 {
            Operation::Cartesian2
        } else if code == 0xA {
            Operation::Inside3
        } else if code == 0xB {
            Operation::Swap1
        } else if code == 0xC {
            Operation::Adjusted3
        } else {
            Operation::Clamp3
        }
    }

    /// How many of an instruction's three operands the operation reads.
    pub open spec fn arity(self) -> u32 {
        match self {
            Operation::Polar1 | Operation::Cartesian1 | Operation::Swap1 => 1,
            Operation::Inside3 | Operation::Adjusted3 | Operation::Clamp3 => 3,
            _ => 2,
        }
    }

    /// True of the operations that calculate; the others only pick and compare.
    pub open spec fn is_arithmetic(self) -> bool {
        match self {
            Operation::Select2
            | Operation::EachX2
            | Operation::EachY2
            | Operation::Inside3
            | Operation::Swap1
            | Operation::Clamp3 => false,
            _ => true,
        }
    }

    /// The name of the operation.
    pub open spec fn text(self) -> Seq<char> {
        match self {
            Operation::Add2 => "Add2"@,
            Operation::Subtract2 => "Subtract2"@,
            Operation::Multiply2 => "Multiply2"@,
            Operation::Divide2 => "Divide2"@,
            Operation::Select2 => "Select2"@,
            Operation::EachX2 => "EachX2"@,
            Operation::EachY2 => "EachY2"@,
            Operation::Polar1 => "Polar1"@,
            Operation::Cartesian1 => "Cartesian1"@,
            Operation::Cartesian2 => "Cartesian2"@,
            Operation::Inside3 => "Inside3"@,
            Operation::Swap1 => "Swap1"@,
            Operation::Adjusted3 => "Adjusted3"@,
            Operation::Clamp3 => "Clamp3"@,
        }
    }

    /// The code that stands for the operation in a file.
    pub fn opcode(self) -> (code: u32)
        ensures
            code == self.code(),
            code < OPERATION_COUNT,
            Operation::of_code(code) == self,
    {
        match self {
            Operation::Add2 => 0x0,
            Operation::Subtract2 => 0x1,
            Operation::Multiply2 => 0x2,
            Operation::Divide2 => 0x3,
            Operation::Select2 => 0x4,
            Operation::EachX2 => 0x5,
            Operation::EachY2 => 0x6,
            Operation::Polar1 => 0x7,
            Operation::Cartesian1 => 0x8,
            Operation::Cartesian2 => 0x9,
            Operation::Inside3 => 0xA,
            Operation::Swap1 => 0xB,
            Operation::Adjusted3 => 0xC,
            Operation::Clamp3 => 0xD,
        }
    }

    /// The operation that a code stands for, if it stands for one.
    pub fn from_opcode(code: u32) -> (r: Option<Operation>)
        ensures
            r is Some <==> code < OPERATION_COUNT,
            r matches Some(op) ==> op == Operation::of_code(code) && op.code() == code,
    {
        match code {
            0x0 => Some(Operation::Add2),
            0x1 => Some(Operation::Subtract2),
            0x2 => Some(Operation::Multiply2),
            0x3 => Some(Operation::Divide2),
            0x4 => Some(Operation::Select2),
            0x5 => Some(Operation::EachX2),
            0x6 => Some(Operation::EachY2),
            0x7 => Some(Operation::Polar1),
            0x8 => Some(Operation::Cartesian1),
            0x9 => Some(Operation::Cartesian2),
            0xA => Some(Operation::Inside3),
            0xB => Some(Operation::Swap1),
            0xC => Some(Operation::Adjusted3),
            0xD => Some(Operation::Clamp3),
            _ => None,
        }
    }

    /// How many of an instruction's three operands the operation reads.
    pub fn number_of_operands(self) -> (n: u32)
        ensures
            n == self.arity(),
            1 <= n <= 3,
    {
        match self {
            Operation::Add2 => 2,
            Operation::Subtract2 => 2,
            Operation::Multiply2 => 2,
            Operation::Divide2 => 2,
            Operation::Select2 => 2,
            Operation::EachX2 => 2,
            Operation::EachY2 => 2,
            Operation::Polar1 => 1,
            Operation::Cartesian1 => 1,
            Operation::Cartesian2 => 2,
            Operation::Inside3 => 3,
            Operation::Swap1 => 1,
            Operation::Adjusted3 => 3,
            Operation::Clamp3 => 3,
        }
    }

    /// The name of the operation.
    pub fn as_text(self) -> (text: &'static str)
        ensures
            text@ == self.text(),
    {
        match self {
            Operation::Add2 => "Add2",
            Operation::Subtract2 => "Subtract2",
            Operation::Multiply2 => "Multiply2",
            Operation::Divide2 => "Divide2",
            Operation::Select2 => "Select2",
            Operation::EachX2 => "EachX2",
            Operation::EachY2 => "EachY2",
            Operation::Polar1 => "Polar1",
            Operation::Cartesian1 => "Cartesian1",
            Operation::Cartesian2 => "Cartesian2",
            Operation::Inside3 => "Inside3",
            Operation::Swap1 => "Swap1",
            Operation::Adjusted3 => "Adjusted3",
            Operation::Clamp3 => "Clamp3",
        }
    }

    /// Tells whether the operation calculates.
    pub fn calculates(self) -> (r: bool)
        ensures
            r == self.is_arithmetic(),
    {
        match self {
            Operation::Select2 => false,
            Operation::EachX2 => false,
            Operation::EachY2 => false,
            Operation::Inside3 => false,
            Operation::Swap1 => false,
            Operation::Clamp3 => false,
            _ => true,
        }
    }
}

/// One cell of the tape: an operation and the addresses of its three operands.
/// An operation of lower arity ignores the operands it does not read.
#[derive(Clone, Copy, Debug, PartialEq)]
pub struct Instruction {
    pub operation: Operation,
    pub operands: [Address; 3],
}

impl Instruction {
    /// The instruction that applies `operation` to the values at the three addresses.
    pub fn new(operation: Operation, arg0: Address, arg1: Address, arg2: Address) -> (i: Instruction)
        ensures
            i.operation == operation,
            i.operands@ == seq![arg0, arg1, arg2],
    {
        Instruction { operation, operands: [arg0, arg1, arg2] }
    }
}

/// True when `a` lies strictly inside the rectangle whose least corner is `b`
/// and whose greatest corner is `c`: `b.x < a.x < c.x` and `b.y < a.y < c.y`.
/// A NaN among the six numbers that are compared makes it false.
pub open spec fn inside(a: Couple, b: Couple, c: Couple) -> bool {
    &&& ieee::less(b.x, a.x)
    &&& ieee::less(a.x, c.x)
    &&& ieee::less(b.y, a.y)
    &&& ieee::less(a.y, c.y)
}

/// What an operation that only picks and compares yields; `None` for the
/// operations that calculate.
pub open spec fn selection(operation: Operation, a: Couple, b: Couple, c: Couple) -> Option<
    Couple,
> {
    match operation {
        Operation::Select2 => Some(Couple { x: a.x, y: b.y }),
        Operation::EachX2 => Some(Couple { x: a.x, y: b.x }),
        Operation::EachY2 => Some(Couple { x: a.y, y: b.y }),
        Operation::Inside3 => Some(
            if inside(a, b, c) {
                Couple { x: ieee::ONE, y: ieee::ZERO }
            } else {
                Couple { x: ieee::ZERO, y: ieee::ONE }
            },
        ),
        Operation::Swap1 => Some(Couple { x: a.y, y: a.x }),
        Operation::Clamp3 => Some(
            Couple { x: ieee::clamped(a.x, b.x, c.x), y: ieee::clamped(a.y, b.y, c.y) },
        ),
        _ => None,
    }
}

/// True when `result` is what `operation` yields on the operands `a`, `b`, `c`,
/// given that `arithmetic` evaluates the operations that calculate.
pub open spec fn yields<F: Fn(Operation, Couple, Couple, Couple) -> Couple>(
    operation: Operation,
    a: Couple,
    b: Couple,
    c: Couple,
    result: Couple,
    arithmetic: F,
) -> bool {
    match selection(operation, a, b, c) {
        Some(value) => result == value,
        None => arithmetic.ensures((operation, a, b, c), result),
    }
}

/// True when `arithmetic` can be called on every operation and operands.
pub open spec fn total<F: Fn(Operation, Couple, Couple, Couple) -> Couple>(arithmetic: F) -> bool {
    forall|operation: Operation, a: Couple, b: Couple, c: Couple|
        arithmetic.requires((operation, a, b, c))
}

/// Evaluates an operation that only picks and compares.
pub fn select(operation: Operation, a: Couple, b: Couple, c: Couple) -> (r: Option<Couple>)
    ensures
        r == selection(operation, a, b, c),
        r is None <==> operation.is_arithmetic(),
{
    match operation {
        Operation::Select2 => Some(Couple { x: a.x, y: b.y }),
        Operation::EachX2 => Some(Couple { x: a.x, y: b.x }),
        Operation::EachY2 => Some(Couple { x: a.y, y: b.y }),
        Operation::Inside3 => {
            if ieee::lt(b.x, a.x) && ieee::lt(a.x, c.x) && ieee::lt(b.y, a.y) && ieee::lt(
                a.y,
                c.y,
            ) {
                Some(Couple { x: ieee::ONE, y: ieee::ZERO })
            } else {
                Some(Couple { x: ieee::ZERO, y: ieee::ONE })
            }
        },
        Operation::Swap1 => Some(Couple { x: a.y, y: a.x }),
        Operation::Clamp3 => Some(
            Couple { x: ieee::clamp(a.x, b.x, c.x), y: ieee::clamp(a.y, b.y, c.y) },
        ),
        _ => None,
    }
}

/// Evaluates one instruction on the values of its operands. The operations
/// that calculate are handed to `arithmetic`; the others are decided here.
pub fn compute<F: Fn(Operation, Couple, Couple, Couple) -> Couple>(
    instruction: Instruction,
    operands: [Couple; 3],
    arithmetic: &F,
) -> (result: Couple)
    requires
        total(*arithmetic),
    ensures
        yields(instruction.operation, operands[0], operands[1], operands[2], result, *arithmetic),
{
    let a = operands[0];
    let b = operands[1];
    let c = operands[2];
    match select(instruction.operation, a, b, c) {
        Some(value) => value,
        None => arithmetic(instruction.operation, a, b, c),
    }
}

/// `Inside3` yields (1, 0) exactly when the point lies strictly between the
/// corners on both axes, and (0, 1) otherwise: a point on the boundary is outside.
pub proof fn lemma_inside_is_strict(a: Couple, b: Couple, c: Couple)
    ensures
        selection(Operation::Inside3, a, b, c) == Some(Couple { x: ieee::ONE, y: ieee::ZERO })
            <==> ieee::less(b.x, a.x) && ieee::less(a.x, c.x) && ieee::less(b.y, a.y)
            && ieee::less(a.y, c.y),
        !inside(a, b, c) ==> selection(Operation::Inside3, a, b, c) == Some(
            Couple { x: ieee::ZERO, y: ieee::ONE },
        ),
        ieee::equal(a.x, b.x) || ieee::equal(a.x, c.x) || ieee::equal(a.y, b.y) || ieee::equal(
            a.y,
            c.y,
        ) ==> !inside(a, b, c),
{
}

/// True when the three operands of the instruction are below `limit`.
pub open spec fn operands_below(instruction: Instruction, limit: int) -> bool {
    &&& instruction.operands[0] < limit
    &&& instruction.operands[1] < limit
    &&& instruction.operands[2] < limit
}

/// True when every instruction of the tape before place `upto` reads only
/// what is defined before it.
pub open spec fn tape_sound(instructions: Seq<Instruction>, arguments: int, upto: int) -> bool {
    forall|i: int| 0 <= i < upto ==> operands_below(#[trigger] instructions[i], arguments + i)
}

/// True when the slot of instruction `i` holds what the instruction yields
/// on the values that the stack holds for its operands.
pub open spec fn slot_computed<F: Fn(Operation, Couple, Couple, Couple) -> Couple>(
    instructions: Seq<Instruction>,
    arguments: int,
    stack: Seq<Couple>,
    i: int,
    arithmetic: F,
) -> bool {
    let instruction = instructions[i];
    yields(
        instruction.operation,
        stack[instruction.operands[0] as int],
        stack[instruction.operands[1] as int],
        stack[instruction.operands[2] as int],
        stack[arguments + i],
        arithmetic,
    )
}

/// True when `after` is what the machine leaves of the stack `before` once it
/// has run the first `upto` instructions: their slots are computed, in order,
/// and every other slot is as it was.
pub open spec fn computed<F: Fn(Operation, Couple, Couple, Couple) -> Couple>(
    instructions: Seq<Instruction>,
    arguments: int,
    before: Seq<Couple>,
    after: Seq<Couple>,
    upto: int,
    arithmetic: F,
) -> bool {
    &&& after.len() == before.len()
    &&& forall|s: int|
        0 <= s < after.len() && !(arguments <= s < arguments + upto) ==> #[trigger] after[s]
            == before[s]
    &&& forall|i: int|
        0 <= i < upto ==> #[trigger] slot_computed(instructions, arguments, after, i, arithmetic)
}

/// True when the flags `raised` are `flags` with one more for each of the
/// first `upto` instructions whose slot holds a value unlike the one before.
pub open spec fn flagged(
    arguments: int,
    before: Seq<Couple>,
    after: Seq<Couple>,
    upto: int,
    flags: Seq<bool>,
    raised: Seq<bool>,
) -> bool {
    &&& raised.len() == flags.len()
    &&& forall|s: int|
        0 <= s < raised.len() ==> #[trigger] raised[s] == (flags[s] || (arguments <= s < arguments
            + upto && after[s].differs(before[s])))
}

/// True when `arithmetic` gives one result only for each operation and operands.
pub open spec fn functional<F: Fn(Operation, Couple, Couple, Couple) -> Couple>(
    arithmetic: F,
) -> bool {
    forall|operation: Operation, a: Couple, b: Couple, c: Couple, first: Couple, second: Couple|
        #![trigger arithmetic.ensures((operation, a, b, c), first), arithmetic.ensures((operation, a, b, c), second)]
        arithmetic.ensures((operation, a, b, c), first) && arithmetic.ensures(
            (operation, a, b, c),
            second,
        ) ==> first == second
}

/// Runs one instruction: reads its operands, evaluates it, and writes the
/// result to its slot. With `track`, the flag of the slot is raised where the
/// result is unlike what the slot held.
pub fn execute<F: Fn(Operation, Couple, Couple, Couple) -> Couple>(
    instruction: Instruction,
    slot: usize,
    stack: &mut Vec<Couple>,
    changes: &mut Vec<bool>,
    track: bool,
    arithmetic: &F,
)
    requires
        slot < old(stack).len(),
        operands_below(instruction, slot as int),
        track ==> old(changes).len() == old(stack).len(),
        total(*arithmetic),
    ensures
        final(stack)@ == old(stack)@.update(slot as int, final(stack)@[slot as int]),
        yields(
            instruction.operation,
            old(stack)@[instruction.operands[0] as int],
            old(stack)@[instruction.operands[1] as int],
            old(stack)@[instruction.operands[2] as int],
            final(stack)@[slot as int],
            *arithmetic,
        ),
        track ==> final(changes)@ == old(changes)@.update(
            slot as int,
            old(changes)@[slot as int] || final(stack)@[slot as int].differs(
                old(stack)@[slot as int],
            ),
        ),
        !track ==> final(changes)@ == old(changes)@,
{
    let operands = [
        stack[instruction.operands[0] as usize],
        stack[instruction.operands[1] as usize],
        stack[instruction.operands[2] as usize],
    ];
    let result = compute(instruction, operands, arithmetic);
    if track {
        if result.is_unlike(&stack[slot]) {
            changes[slot] = true;
        }
        assert(changes@ =~= old(changes)@.update(
            slot as int,
            old(changes)@[slot as int] || result.differs(old(stack)@[slot as int]),
        ));
    }
    stack[slot] = result;
}

/// One more instruction run leaves the stack computed one instruction further.
pub proof fn lemma_computed_next<F: Fn(Operation, Couple, Couple, Couple) -> Couple>(
    instructions: Seq<Instruction>,
    arguments: int,
    before: Seq<Couple>,
    stack: Seq<Couple>,
    next: Seq<Couple>,
    i: int,
    arithmetic: F,
)
    requires
        0 <= arguments,
        0 <= i < instructions.len(),
        arguments + i < stack.len(),
        tape_sound(instructions, arguments, i + 1),
        computed(instructions, arguments, before, stack, i, arithmetic),
        next == stack.update(arguments + i, next[arguments + i]),
        yields(
            instructions[i].operation,
            stack[instructions[i].operands[0] as int],
            stack[instructions[i].operands[1] as int],
            stack[instructions[i].operands[2] as int],
            next[arguments + i],
            arithmetic,
        ),
    ensures
        computed(instructions, arguments, before, next, i + 1, arithmetic),
{
    assert forall|j: int| 0 <= j < i + 1 implies #[trigger] slot_computed(
        instructions,
        arguments,
        next,
        j,
        arithmetic,
    ) by {
        assert(operands_below(instructions[j], arguments + j));
        if j < i {
            assert(slot_computed(instructions, arguments, stack, j, arithmetic));
        }
    }
}

/// One more instruction run leaves the flags raised one instruction further.
pub proof fn lemma_flagged_next(
    arguments: int,
    before: Seq<Couple>,
    stack: Seq<Couple>,
    next: Seq<Couple>,
    i: int,
    flags: Seq<bool>,
    raised: Seq<bool>,
    after: Seq<bool>,
)
    requires
        0 <= arguments,
        0 <= i,
        arguments + i < stack.len(),
        stack.len() == before.len(),
        flags.len() == stack.len(),
        stack[arguments + i] == before[arguments + i],
        flagged(arguments, before, stack, i, flags, raised),
        next == stack.update(arguments + i, next[arguments + i]),
        after == raised.update(
            arguments + i,
            raised[arguments + i] || next[arguments + i].differs(stack[arguments + i]),
        ),
    ensures
        flagged(arguments, before, next, i + 1, flags, after),
{
}

/// The machine is deterministic: where the arithmetic gives one result only,
/// two runs of a sound tape on one stack leave the same stack.
pub proof fn lemma_compute_is_deterministic<F: Fn(Operation, Couple, Couple, Couple) -> Couple>(
    instructions: Seq<Instruction>,
    arguments: int,
    before: Seq<Couple>,
    first: Seq<Couple>,
    second: Seq<Couple>,
    upto: int,
    arithmetic: F,
)
    requires
        0 <= arguments,
        0 <= upto <= instructions.len(),
        arguments + upto <= before.len(),
        tape_sound(instructions, arguments, upto),
        functional(arithmetic),
        computed(instructions, arguments, before, first, upto, arithmetic),
        computed(instructions, arguments, before, second, upto, arithmetic),
    ensures
        first == second,
{
    lemma_slots_agree(instructions, arguments, before, first, second, upto, upto, arithmetic);
    assert(first =~= second);
}

/// Two runs agree on the slots of the first `k` instructions.
proof fn lemma_slots_agree<F: Fn(Operation, Couple, Couple, Couple) -> Couple>(
    instructions: Seq<Instruction>,
    arguments: int,
    before: Seq<Couple>,
    first: Seq<Couple>,
    second: Seq<Couple>,
    upto: int,
    k: int,
    arithmetic: F,
)
    requires
        0 <= arguments,
        0 <= k <= upto <= instructions.len(),
        arguments + upto <= before.len(),
        tape_sound(instructions, arguments, upto),
        functional(arithmetic),
        computed(instructions, arguments, before, first, upto, arithmetic),
        computed(instructions, arguments, before, second, upto, arithmetic),
    ensures
        forall|s: int| 0 <= s < arguments + k ==> first[s] == second[s],
    decreases k,
{
    if k == 0 {
        assert forall|s: int| 0 <= s < arguments implies first[s] == second[s] by {
            assert(first[s] == before[s]);
            assert(second[s] == before[s]);
        }
    } else {
        lemma_slots_agree(instructions, arguments, before, first, second, upto, k - 1, arithmetic);
        let i = k - 1;
        let instruction = instructions[i];
        assert(operands_below(instruction, arguments + i));
        assert(slot_computed(instructions, arguments, first, i, arithmetic));
        assert(slot_computed(instructions, arguments, second, i, arithmetic));
        let a = first[instruction.operands[0] as int];
        let b = first[instruction.operands[1] as int];
        let c = first[instruction.operands[2] as int];
        assert(a == second[instruction.operands[0] as int]);
        assert(b == second[instruction.operands[1] as int]);
        assert(c == second[instruction.operands[2] as int]);
        if selection(instruction.operation, a, b, c) is None {
            assert(arithmetic.ensures((instruction.operation, a, b, c), first[arguments + i]));
            assert(arithmetic.ensures((instruction.operation, a, b, c), second[arguments + i]));
        }
        assert(first[arguments + i] == second[arguments + i]);
    }
}

/// Change tracking is sound: a slot whose flag is down after a run holds what
/// it held before, bit for bit or as an equal pair of numbers.
pub proof fn lemma_unflagged_is_unchanged<F: Fn(Operation, Couple, Couple, Couple) -> Couple>(
    instructions: Seq<Instruction>,
    arguments: int,
    before: Seq<Couple>,
    after: Seq<Couple>,
    upto: int,
    flags: Seq<bool>,
    raised: Seq<bool>,
    arithmetic: F,
    s: int,
)
    requires
        computed(instructions, arguments, before, after, upto, arithmetic),
        flagged(arguments, before, after, upto, flags, raised),
        raised.len() == after.len(),
        0 <= s < after.len(),
        !raised[s],
    ensures
        !flags[s],
        after[s] == before[s] || !after[s].differs(before[s]),
{
}

/// The place of the first instruction at or after `from` that reads a slot
/// not defined before it; the length of the tape where there is none.
pub open spec fn first_fault(instructions: Seq<Instruction>, arguments: int, from: int) -> int
    decreases instructions.len() - from,
{
    if from >= instructions.len() {
        instructions.len() as int
    } else if !operands_below(instructions[from], arguments + from) {
        from
    } else {
        first_fault(instructions, arguments, from + 1)
    }
}

/// A sound tape has no fault.
pub proof fn lemma_sound_tape_has_no_fault(instructions: Seq<Instruction>, arguments: int, from: int)
    requires
        0 <= from,
        tape_sound(instructions, arguments, instructions.len() as int),
    ensures
        first_fault(instructions, arguments, from) == instructions.len(),
    decreases instructions.len() - from,
{
    if from < instructions.len() {
        assert(operands_below(instructions[from], arguments + from));
        lemma_sound_tape_has_no_fault(instructions, arguments, from + 1);
    }
}

fn operands_are_below(instruction: &Instruction, limit: usize) -> (r: bool)
    ensures
        r == operands_below(*instruction, limit as int),
{
    (instruction.operands[0] as usize) < limit && (instruction.operands[1] as usize) < limit && (
    instruction.operands[2] as usize) < limit
}

/// Runs a tape over a stack whose first `arguments` slots are the arguments,
/// up to the first instruction that reads a slot not defined before it, and
/// tells how many instructions it has run.
pub fn run_tape<F: Fn(Operation, Couple, Couple, Couple) -> Couple>(
    instructions: &Vec<Instruction>,
    arguments: usize,
    stack: &mut Vec<Couple>,
    changes: &mut Vec<bool>,
    track: bool,
    arithmetic: &F,
) -> (ran: usize)
    requires
        old(stack).len() == arguments + instructions.len(),
        track ==> old(changes).len() == old(stack).len(),
        total(*arithmetic),
    ensures
        ran == first_fault(instructions@, arguments as int, 0),
        tape_sound(instructions@, arguments as int, ran as int),
        computed(
            instructions@,
            arguments as int,
            old(stack)@,
            final(stack)@,
            ran as int,
            *arithmetic,
        ),
        track ==> flagged(
            arguments as int,
            old(stack)@,
            final(stack)@,
            ran as int,
            old(changes)@,
            final(changes)@,
        ),
        !track ==> final(changes)@ == old(changes)@,
{
    let ghost before = stack@;
    let ghost flags = changes@;
    let mut i: usize = 0;
    while i < instructions.len()
        invariant
            i <= instructions.len(),
            stack.len() == arguments + instructions.len(),
            before == old(stack)@,
            flags == old(changes)@,
            before.len() == stack.len(),
            track ==> changes.len() == stack.len(),
            track ==> flags.len() == stack.len(),
            total(*arithmetic),
            first_fault(instructions@, arguments as int, 0) == first_fault(
                instructions@,
                arguments as int,
                i as int,
            ),
            tape_sound(instructions@, arguments as int, i as int),
            computed(instructions@, arguments as int, before, stack@, i as int, *arithmetic),
            track ==> flagged(arguments as int, before, stack@, i as int, flags, changes@),
            !track ==> changes@ == flags,
        decreases instructions.len() - i,
    {
        let instruction = instructions[i];
        let slot: usize = arguments + i;
        if !operands_are_below(&instruction, slot) {
            return i;
        }
        let ghost held = stack@;
        let ghost raised = changes@;
        assert(held[slot as int] == before[slot as int]);
        execute(instruction, slot, stack, changes, track, arithmetic);
        proof {
            lemma_computed_next(
                instructions@,
                arguments as int,
                before,
                held,
                stack@,
                i as int,
                *arithmetic,
            );
            if track {
                lemma_flagged_next(
                    arguments as int,
                    before,
                    held,
                    stack@,
                    i as int,
                    flags,
                    raised,
                    changes@,
                );
            }
        }
        i += 1;
    }
    i
}

} // verus!
