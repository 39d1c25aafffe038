//! Reading a Railway file: finding its sections, checking what the rows hold,
//! and taking the rows out.

use vstd::prelude::*;
use vstd::utf8::{decode_utf8, valid_utf8};
use vstd::slice::slice_subrange;
use crate::computing::{Argument, Couple, Instruction, Operation, Output, ParsingError, ParsingResult};
use crate::drawing::{RawRenderingStep, StepType, Stroker, Triangle};
use crate::layout::{
    argument_at, arc_at, background_at, capacity, cell, count, cubic_curve_at, decoded, end,
    framed, has_magic, instruction_at, lemma_start_next, lemma_terminator, line_at, name_of,
    name_ok, names, names_ok, opcodes_ok, output_at, path_at, quadratic_curve_at,
    rendering_step_at, runs_ok, start, step_at, step_types_ok, stroker_at, tags_ok, triangle_at,
    truncated, width, word, ARCS, ARGUMENTS, BACKGROUNDS, CLIP, CUBIC_CURVES, INSTRUCTIONS,
    LINES, NO_NAME, OUTPUTS, PATHS, QUADRATIC_CURVES, RENDERING_STEPS, STEPS, STRINGS, STROKERS,
    TRIANGLES, TRIANGLE_INDEXES,
};
use crate::primitive::{Arc, CubicCurve, Line, QuadraticCurve};
use crate::wire::read_word;

verus! {

/// What is wrong with the frame of a file, if anything: the magic, then the
/// reach of the counts, then bytes left over.
pub open spec fn frame_verdict(file: Seq<u8>) -> Option<ParsingError> {
    if !has_magic(file) {
        Some(ParsingError::NotARailwayFile)
    } else if truncated(file) {
        Some(ParsingError::TooShort)
    } else if end(file) < file.len() {
        Some(ParsingError::ExcessBytes)
    } else {
        None
    }
}

/// Why a file is not a program, if it is not: the first of the checks that
/// fails, in this order.
pub open spec fn verdict(file: Seq<u8>) -> Option<ParsingError> {
    if frame_verdict(file) is Some {
        frame_verdict(file)
    } else if !opcodes_ok(file) {
        Some(ParsingError::InvalidOperation)
    } else if !step_types_ok(file) {
        Some(ParsingError::InvalidStepType)
    } else if !tags_ok(file) {
        Some(ParsingError::InvalidRenderingStep)
    } else if !names_ok(file) {
        Some(ParsingError::InvalidName)
    } else if !runs_ok(file) || !decoded(file).indexed() {
        Some(ParsingError::InvalidIndex)
    } else {
        None
    }
}

/// The words in a row of a table.
pub(crate) fn row_width(section: usize) -> (w: usize)
    requires
        section < STRINGS,
    ensures
        w == width(section as int),
        1 <= w <= 9,
{
    if section == ARGUMENTS {
        7
    } else if section == INSTRUCTIONS {
        4
    } else if section == OUTPUTS {
        2
    } else if section == TRIANGLES {
        9
    } else if section == ARCS {
        3
    } else if section == CUBIC_CURVES {
        4
    } else if section == QUADRATIC_CURVES {
        3
    } else if section == LINES {
        2
    } else if section == STROKERS {
        4
    } else if section == STEPS {
        2
    } else if section == PATHS {
        2
    } else if section == TRIANGLE_INDEXES {
        1
    } else if section == BACKGROUNDS {
        2
    } else {
        3
    }
}

/// The word at place `k` after the magic.
pub(crate) fn word_of(bytes: &[u8], k: usize) -> (value: u32)
    requires
        bytes.len() >= 4,
        k < capacity(bytes@),
    ensures
        value == word(bytes@, k as int),
{
    read_word(bytes, 4 + 4 * k)
}

/// Reads the count of the table that begins at `place` and gives the place
/// where the next section begins.
pub(crate) fn discover_section(bytes: &[u8], place: usize, section: usize) -> (r: ParsingResult<usize>)
    requires
        bytes.len() >= 4,
        section < STRINGS,
        place == start(bytes@, section as int),
    ensures
        r matches Ok(next) ==> {
            &&& place < capacity(bytes@)
            &&& next == start(bytes@, section + 1)
            &&& next <= capacity(bytes@)
        },
        r matches Err(e) ==> {
            &&& e == ParsingError::TooShort
            &&& (place >= capacity(bytes@) || start(bytes@, section + 1) > capacity(bytes@))
        },
{
    let room: usize = (bytes.len() - 4) / 4;
    if place >= room {
        return Err(ParsingError::TooShort);
    }
    let rows: u32 = word_of(bytes, place);
    let w: usize = row_width(section);
    assert(rows as u64 * w as u64 <= 0xFFFF_FFFF * 9) by (nonlinear_arith)
        requires
            rows <= 0xFFFF_FFFF,
            w <= 9,
    ;
    let body: u64 = rows as u64 * w as u64;
    proof {
        lemma_start_next(bytes@, section as int);
    }
    if body > (room - place - 1) as u64 {
        return Err(ParsingError::TooShort);
    }
    Ok(place + 1 + body as usize)
}

/// Finds the place of every section and checks that the file ends where the
/// names do.
pub(crate) fn frame(bytes: &[u8]) -> (r: ParsingResult<[usize; 15]>)
    ensures
        r matches Ok(places) ==> {
            &&& framed(bytes@)
            &&& frame_verdict(bytes@) is None
            &&& forall|s: int| 0 <= s <= STRINGS ==> places[s] == start(bytes@, s)
        },
        r matches Err(e) ==> frame_verdict(bytes@) == Some(e),
{
    if bytes.len() < 4 || bytes[0] != 0x52 || bytes[1] != 0x57 || bytes[2] != 0x59 || bytes[3]
        != 0x30 {
        return Err(ParsingError::NotARailwayFile);
    }
    let room: usize = (bytes.len() - 4) / 4;
    let mut places: [usize; 15] = [0usize;15];
    let mut place: usize = 0;
    let mut section: usize = 0;
    while section < STRINGS
        invariant
            bytes.len() >= 4,
            has_magic(bytes@),
            room == capacity(bytes@),
            section <= STRINGS,
            place == start(bytes@, section as int),
            place <= room,
            forall|s: int| 0 <= s < section ==> places[s] == start(bytes@, s),
            forall|s: int| 0 <= s < section ==> start(bytes@, s) < capacity(bytes@),
        decreases STRINGS - section,
    {
        match discover_section(bytes, place, section) {
            Ok(next) => {
                places[section] = place;
                place = next;
            },
            Err(e) => {
                assert(start(bytes@, section as int) >= capacity(bytes@) || start(
                    bytes@,
                    section + 1,
                ) >= capacity(bytes@));
                assert(truncated(bytes@));
                return Err(e);
            },
        }
        section += 1;
    }
    if place >= room {
        assert(start(bytes@, STRINGS as int) >= capacity(bytes@));
        assert(truncated(bytes@));
        return Err(ParsingError::TooShort);
    }
    let length: u32 = word_of(bytes, place);
    places[STRINGS] = place;
    let left: usize = bytes.len() - (4 + 4 * (place + 1));
    if length as usize > left {
        assert(end(bytes@) > bytes@.len());
        return Err(ParsingError::TooShort);
    }
    if (length as usize) < left {
        assert(!truncated(bytes@));
        return Err(ParsingError::ExcessBytes);
    }
    assert(!truncated(bytes@));
    Ok(places)
}

/// True when `places` holds the place of every section of a file that is framed.
pub open spec fn placed(file: Seq<u8>, places: [usize; 15]) -> bool {
    &&& framed(file)
    &&& forall|s: int| 0 <= s <= STRINGS ==> places[s] == start(file, s)
}

/// A row that a count announces lies inside the file, before the next section.
pub proof fn lemma_cell_in_file(file: Seq<u8>, section: int, row: int, column: int)
    requires
        framed(file),
        0 <= section < STRINGS,
        0 <= row < count(file, section),
        0 <= column < width(section),
    ensures
        0 <= row * width(section),
        start(file, section) + 1 + row * width(section) + column < start(file, section + 1),
        start(file, section + 1) < capacity(file),
        0 <= start(file, section),
{
    lemma_start_next(file, section);
    let w = width(section);
    let n = count(file, section) as int;
    assert(row * w + column < n * w) by (nonlinear_arith)
        requires
            0 <= row < n,
            0 <= column < w,
    ;
    assert(0 <= row * w) by (nonlinear_arith)
        requires
            0 <= row,
            0 <= w,
    ;
    assert(start(file, section) < capacity(file));
    assert(start(file, 0) == 0);
    lemma_start_nonnegative(file, section);
}

/// No section begins before the first.
pub proof fn lemma_start_nonnegative(file: Seq<u8>, section: int)
    ensures
        0 <= start(file, section),
    decreases section,
{
    if section > 0 {
        lemma_start_nonnegative(file, section - 1);
        let n = word(file, start(file, section - 1)) as int;
        let w = width(section - 1);
        assert(0 <= n * w) by (nonlinear_arith)
            requires
                0 <= n,
                0 <= w,
        ;
    }
}

/// How many rows a table has; for the names, how many bytes.
pub(crate) fn rows_of(bytes: &[u8], places: &[usize; 15], section: usize) -> (n: usize)
    requires
        placed(bytes@, *places),
        section <= STRINGS,
    ensures
        n == count(bytes@, section as int),
{
    assert(places[section as int] == start(bytes@, section as int));
    word_of(bytes, places[section]) as usize
}

/// The word in a column of a row of a table.
pub(crate) fn cell_of(bytes: &[u8], places: &[usize; 15], section: usize, row: usize, column: usize) -> (value:
    u32)
    requires
        placed(bytes@, *places),
        section < STRINGS,
        row < count(bytes@, section as int),
        column < width(section as int),
    ensures
        value == cell(bytes@, section as int, row as int, column as int),
{
    proof {
        lemma_cell_in_file(bytes@, section as int, row as int, column as int);
    }
    assert(places[section as int] == start(bytes@, section as int));
    let w: usize = row_width(section);
    word_of(bytes, places[section] + 1 + row * w + column)
}

/// Tells whether the first word of every row of a table is below `limit`.
fn codes_below(bytes: &[u8], places: &[usize; 15], section: usize, limit: u32) -> (r: bool)
    requires
        placed(bytes@, *places),
        section < STRINGS,
    ensures
        r == (forall|i: int|
            0 <= i < count(bytes@, section as int) ==> #[trigger] cell(
                bytes@,
                section as int,
                i,
                0,
            ) < limit),
{
    let n: usize = rows_of(bytes, places, section);
    let mut i: usize = 0;
    while i < n
        invariant
            placed(bytes@, *places),
            section < STRINGS,
            n == count(bytes@, section as int),
            i <= n,
            forall|k: int| 0 <= k < i ==> #[trigger] cell(bytes@, section as int, k, 0) < limit,
        decreases n - i,
    {
        if cell_of(bytes, places, section, i, 0) >= limit {
            return false;
        }
        i += 1;
    }
    true
}

/// Tells whether every row of `table` gives a run inside `pool`, by first row and length.
fn runs_inside(bytes: &[u8], places: &[usize; 15], table: usize, pool: usize) -> (r: bool)
    requires
        placed(bytes@, *places),
        table < STRINGS,
        pool < STRINGS,
        width(table as int) == 2,
    ensures
        r == (forall|i: int|
            0 <= i < count(bytes@, table as int) ==> #[trigger] cell(bytes@, table as int, i, 0)
                + cell(bytes@, table as int, i, 1) <= count(bytes@, pool as int)),
{
    let n: usize = rows_of(bytes, places, table);
    let size: u64 = rows_of(bytes, places, pool) as u64;
    let mut i: usize = 0;
    while i < n
        invariant
            placed(bytes@, *places),
            table < STRINGS,
            width(table as int) == 2,
            n == count(bytes@, table as int),
            size == count(bytes@, pool as int),
            i <= n,
            forall|k: int|
                0 <= k < i ==> #[trigger] cell(bytes@, table as int, k, 0) + cell(
                    bytes@,
                    table as int,
                    k,
                    1,
                ) <= count(bytes@, pool as int),
        decreases n - i,
    {
        let first: u64 = cell_of(bytes, places, table, i, 0) as u64;
        let length: u64 = cell_of(bytes, places, table, i, 1) as u64;
        if first + length > size {
            return false;
        }
        i += 1;
    }
    true
}

/// `core::str::from_utf8`: the bytes as a string slice where they are
/// well-formed UTF-8, and nothing where they are not. The slice holds the
/// characters that the bytes encode.
#[verifier::external_body]
fn str_from_utf8(bytes: &[u8]) -> (r: Option<&str>)
    ensures
        r is Some <==> valid_utf8(bytes@),
        r matches Some(text) ==> text@ == decode_utf8(bytes@),
{
    core::str::from_utf8(bytes).ok()
}

/// The bytes of the names of a framed file.
fn names_of<'a>(bytes: &'a [u8], places: &[usize; 15]) -> (text: &'a [u8])
    requires
        placed(bytes@, *places),
    ensures
        text@ == names(bytes@),
{
    assert(places[STRINGS as int] == start(bytes@, STRINGS as int));
    assert(start(bytes@, STRINGS as int) < capacity(bytes@));
    let total: usize = bytes.len();
    let first: usize = 4 + 4 * (places[STRINGS] + 1);
    slice_subrange(bytes, first, total)
}

/// Takes out the name that `offset` stands for, if it is well formed.
fn name_in(text: &[u8], offset: u32) -> (r: Option<Option<String>>)
    ensures
        r is Some <==> name_ok(text@, offset),
        r matches Some(name) ==> match name {
            Some(s) => name_of(text@, offset) == Some(s@),
            None => name_of(text@, offset) is None,
        },
{
    if offset == NO_NAME {
        return Some(None);
    }
    let first: usize = offset as usize;
    if first >= text.len() {
        return None;
    }
    let mut at: usize = first;
    while at < text.len() && text[at] != 0
        invariant
            first <= at <= text.len(),
            forall|k: int| first <= k < at ==> text@[k] != 0,
        decreases text.len() - at,
    {
        at += 1;
    }
    proof {
        lemma_terminator(text@, first as int, at as int);
    }
    if at >= text.len() {
        return None;
    }
    let run = slice_subrange(text, first, at);
    match str_from_utf8(run) {
        Some(s) => Some(Some(s.to_owned())),
        None => None,
    }
}

/// Tells whether the name of every row of a table is well formed.
fn names_well_formed(bytes: &[u8], places: &[usize; 15], section: usize) -> (r: bool)
    requires
        placed(bytes@, *places),
        section == ARGUMENTS || section == OUTPUTS,
    ensures
        r == (forall|i: int|
            0 <= i < count(bytes@, section as int) ==> name_ok(
                names(bytes@),
                #[trigger] cell(bytes@, section as int, i, 0),
            )),
{
    let text = names_of(bytes, places);
    let n: usize = rows_of(bytes, places, section);
    let mut i: usize = 0;
    while i < n
        invariant
            placed(bytes@, *places),
            section == ARGUMENTS || section == OUTPUTS,
            text@ == names(bytes@),
            n == count(bytes@, section as int),
            i <= n,
            forall|k: int|
                0 <= k < i ==> name_ok(
                    names(bytes@),
                    #[trigger] cell(bytes@, section as int, k, 0),
                ),
        decreases n - i,
    {
        let offset: u32 = cell_of(bytes, places, section, i, 0);
        if name_in(text, offset).is_none() {
            return false;
        }
        i += 1;
    }
    true
}

/// Checks what the rows of a framed file hold, short of the addresses and indices.
pub(crate) fn check_rows(bytes: &[u8], places: &[usize; 15]) -> (r: ParsingResult<()>)
    requires
        placed(bytes@, *places),
    ensures
        r is Ok ==> opcodes_ok(bytes@) && step_types_ok(bytes@) && tags_ok(bytes@) && names_ok(
            bytes@,
        ) && runs_ok(bytes@),
        r matches Err(e) ==> verdict(bytes@) == Some(e),
{
    if !codes_below(bytes, places, INSTRUCTIONS, 14) {
        return Err(ParsingError::InvalidOperation);
    }
    if !codes_below(bytes, places, STEPS, 4) {
        return Err(ParsingError::InvalidStepType);
    }
    if !codes_below(bytes, places, RENDERING_STEPS, 2) {
        return Err(ParsingError::InvalidRenderingStep);
    }
    if !(names_well_formed(bytes, places, ARGUMENTS) && names_well_formed(bytes, places, OUTPUTS)) {
        return Err(ParsingError::InvalidName);
    }
    if !(runs_inside(bytes, places, PATHS, STEPS) && runs_inside(
        bytes,
        places,
        BACKGROUNDS,
        TRIANGLE_INDEXES,
    )) {
        return Err(ParsingError::InvalidIndex);
    }
    Ok(())
}

/// True when a file is framed and its rows hold codes, names and runs that
/// can be taken out.
pub open spec fn legible(file: Seq<u8>) -> bool {
    &&& framed(file)
    &&& opcodes_ok(file)
    &&& step_types_ok(file)
    &&& tags_ok(file)
    &&& names_ok(file)
    &&& runs_ok(file)
}

/// Takes an argument out of its row.
pub(crate) fn read_argument(bytes: &[u8], places: &[usize; 15], row: usize) -> (argument: Argument)
    requires
        placed(bytes@, *places),
        names_ok(bytes@),
        row < count(bytes@, ARGUMENTS as int),
    ensures
        argument@ == argument_at(bytes@, row as int),
{
    let text = names_of(bytes, places);
    let offset: u32 = cell_of(bytes, places, ARGUMENTS, row, 0);
    let x: u32 = cell_of(bytes, places, ARGUMENTS, row, 1);
    let y: u32 = cell_of(bytes, places, ARGUMENTS, row, 2);
    let min_x: u32 = cell_of(bytes, places, ARGUMENTS, row, 3);
    let max_x: u32 = cell_of(bytes, places, ARGUMENTS, row, 4);
    let min_y: u32 = cell_of(bytes, places, ARGUMENTS, row, 5);
    let max_y: u32 = cell_of(bytes, places, ARGUMENTS, row, 6);
    let name = match name_in(text, offset) {
        Some(name) => name,
        None => None,
    };
    Argument {
        name,
        value: Couple { x, y },
        range: (Couple { x: min_x, y: min_y }, Couple { x: max_x, y: max_y }),
    }
}

/// Takes an instruction out of its row.
pub(crate) fn read_instruction(bytes: &[u8], places: &[usize; 15], row: usize) -> (instruction:
    Instruction)
    requires
        placed(bytes@, *places),
        opcodes_ok(bytes@),
        row < count(bytes@, INSTRUCTIONS as int),
    ensures
        instruction == instruction_at(bytes@, row as int),
{
    let code: u32 = cell_of(bytes, places, INSTRUCTIONS, row, 0);
    let a: u32 = cell_of(bytes, places, INSTRUCTIONS, row, 1);
    let b: u32 = cell_of(bytes, places, INSTRUCTIONS, row, 2);
    let c: u32 = cell_of(bytes, places, INSTRUCTIONS, row, 3);
    let operation = match Operation::from_opcode(code) {
        Some(operation) => operation,
        None => Operation::Clamp3,
    };
    let instruction = Instruction { operation, operands: [a, b, c] };
    assert(instruction.operands =~= instruction_at(bytes@, row as int).operands);
    instruction
}

/// Takes an output out of its row.
pub(crate) fn read_output(bytes: &[u8], places: &[usize; 15], row: usize) -> (output: Output)
    requires
        placed(bytes@, *places),
        names_ok(bytes@),
        row < count(bytes@, OUTPUTS as int),
    ensures
        output@ == output_at(bytes@, row as int),
{
    let text = names_of(bytes, places);
    let offset: u32 = cell_of(bytes, places, OUTPUTS, row, 0);
    let address: u32 = cell_of(bytes, places, OUTPUTS, row, 1);
    let name = match name_in(text, offset) {
        Some(name) => name,
        None => None,
    };
    Output { name, address }
}

/// Takes a triangle out of its row.
pub(crate) fn read_triangle(bytes: &[u8], places: &[usize; 15], row: usize) -> (triangle: Triangle)
    requires
        placed(bytes@, *places),
        row < count(bytes@, TRIANGLES as int),
    ensures
        triangle == triangle_at(bytes@, row as int),
{
    let p0: u32 = cell_of(bytes, places, TRIANGLES, row, 0);
    let p1: u32 = cell_of(bytes, places, TRIANGLES, row, 1);
    let p2: u32 = cell_of(bytes, places, TRIANGLES, row, 2);
    let p0_rg: u32 = cell_of(bytes, places, TRIANGLES, row, 3);
    let p0_ba: u32 = cell_of(bytes, places, TRIANGLES, row, 4);
    let p1_rg: u32 = cell_of(bytes, places, TRIANGLES, row, 5);
    let p1_ba: u32 = cell_of(bytes, places, TRIANGLES, row, 6);
    let p2_rg: u32 = cell_of(bytes, places, TRIANGLES, row, 7);
    let p2_ba: u32 = cell_of(bytes, places, TRIANGLES, row, 8);
    let triangle = Triangle {
        points: [p0, p1, p2],
        colors: [[p0_rg, p0_ba], [p1_rg, p1_ba], [p2_rg, p2_ba]],
    };
    proof {
        let other = triangle_at(bytes@, row as int);
        assert(triangle.points =~= other.points);
        assert(triangle.colors[0] =~= other.colors[0]);
        assert(triangle.colors[1] =~= other.colors[1]);
        assert(triangle.colors[2] =~= other.colors[2]);
        assert(triangle.colors =~= other.colors);
    }
    triangle
}

/// Takes an arc out of its row.
pub(crate) fn read_arc(bytes: &[u8], places: &[usize; 15], row: usize) -> (arc: Arc)
    requires
        placed(bytes@, *places),
        row < count(bytes@, ARCS as int),
    ensures
        arc == arc_at(bytes@, row as int),
{
    let start_point: u32 = cell_of(bytes, places, ARCS, row, 0);
    let center: u32 = cell_of(bytes, places, ARCS, row, 1);
    let deltas: u32 = cell_of(bytes, places, ARCS, row, 2);
    Arc { start_point, center, deltas }
}

/// Takes a cubic curve out of its row.
pub(crate) fn read_cubic_curve(bytes: &[u8], places: &[usize; 15], row: usize) -> (curve: CubicCurve)
    requires
        placed(bytes@, *places),
        row < count(bytes@, CUBIC_CURVES as int),
    ensures
        curve == cubic_curve_at(bytes@, row as int),
{
    let p0: u32 = cell_of(bytes, places, CUBIC_CURVES, row, 0);
    let p1: u32 = cell_of(bytes, places, CUBIC_CURVES, row, 1);
    let p2: u32 = cell_of(bytes, places, CUBIC_CURVES, row, 2);
    let p3: u32 = cell_of(bytes, places, CUBIC_CURVES, row, 3);
    let curve = CubicCurve { points: [p0, p1, p2, p3] };
    assert(curve.points =~= cubic_curve_at(bytes@, row as int).points);
    curve
}

/// Takes a quadratic curve out of its row.
pub(crate) fn read_quadratic_curve(bytes: &[u8], places: &[usize; 15], row: usize) -> (curve:
    QuadraticCurve)
    requires
        placed(bytes@, *places),
        row < count(bytes@, QUADRATIC_CURVES as int),
    ensures
        curve == quadratic_curve_at(bytes@, row as int),
{
    let p0: u32 = cell_of(bytes, places, QUADRATIC_CURVES, row, 0);
    let p1: u32 = cell_of(bytes, places, QUADRATIC_CURVES, row, 1);
    let p2: u32 = cell_of(bytes, places, QUADRATIC_CURVES, row, 2);
    let curve = QuadraticCurve { points: [p0, p1, p2] };
    assert(curve.points =~= quadratic_curve_at(bytes@, row as int).points);
    curve
}

/// Takes a line out of its row.
pub(crate) fn read_line(bytes: &[u8], places: &[usize; 15], row: usize) -> (line: Line)
    requires
        placed(bytes@, *places),
        row < count(bytes@, LINES as int),
    ensures
        line == line_at(bytes@, row as int),
{
    let p0: u32 = cell_of(bytes, places, LINES, row, 0);
    let p1: u32 = cell_of(bytes, places, LINES, row, 1);
    let line = Line { points: [p0, p1] };
    assert(line.points =~= line_at(bytes@, row as int).points);
    line
}

/// Takes a stroker out of its row.
pub(crate) fn read_stroker(bytes: &[u8], places: &[usize; 15], row: usize) -> (stroker: Stroker)
    requires
        placed(bytes@, *places),
        row < count(bytes@, STROKERS as int),
    ensures
        stroker == stroker_at(bytes@, row as int),
{
    let pattern: u32 = cell_of(bytes, places, STROKERS, row, 0);
    let width: u32 = cell_of(bytes, places, STROKERS, row, 1);
    let rg: u32 = cell_of(bytes, places, STROKERS, row, 2);
    let ba: u32 = cell_of(bytes, places, STROKERS, row, 3);
    let stroker = Stroker { pattern, width, color: [rg, ba] };
    assert(stroker.color =~= stroker_at(bytes@, row as int).color);
    stroker
}

/// Takes a step out of its row of the pool of steps.
pub(crate) fn read_step(bytes: &[u8], places: &[usize; 15], row: usize) -> (step: (StepType, u32))
    requires
        placed(bytes@, *places),
        step_types_ok(bytes@),
        row < count(bytes@, STEPS as int),
    ensures
        step == step_at(bytes@, row as int),
{
    let code: u32 = cell_of(bytes, places, STEPS, row, 0);
    let index: u32 = cell_of(bytes, places, STEPS, row, 1);
    let kind = match StepType::from_u32(code) {
        Some(kind) => kind,
        None => StepType::Line,
    };
    (kind, index)
}

/// Takes a path out of its run of the pool of steps.
pub(crate) fn read_path(bytes: &[u8], places: &[usize; 15], row: usize) -> (path: Vec<(StepType, u32)>)
    requires
        placed(bytes@, *places),
        step_types_ok(bytes@),
        runs_ok(bytes@),
        row < count(bytes@, PATHS as int),
    ensures
        path@ == path_at(bytes@, row as int),
{
    let first: usize = cell_of(bytes, places, PATHS, row, 0) as usize;
    let length: usize = cell_of(bytes, places, PATHS, row, 1) as usize;
    let mut path: Vec<(StepType, u32)> = Vec::new();
    let mut k: usize = 0;
    while k < length
        invariant
            placed(bytes@, *places),
            step_types_ok(bytes@),
            first + length <= count(bytes@, STEPS as int),
            k <= length,
            path@.len() == k,
            forall|j: int| 0 <= j < k ==> path@[j] == step_at(bytes@, first + j),
        decreases length - k,
    {
        let step = read_step(bytes, places, first + k);
        path.push(step);
        k += 1;
    }
    assert(path@ =~= path_at(bytes@, row as int));
    path
}

/// Takes a triangle index out of its row of the pool.
pub(crate) fn read_triangle_index(bytes: &[u8], places: &[usize; 15], row: usize) -> (index: u32)
    requires
        placed(bytes@, *places),
        row < count(bytes@, TRIANGLE_INDEXES as int),
    ensures
        index == cell(bytes@, TRIANGLE_INDEXES as int, row as int, 0),
{
    cell_of(bytes, places, TRIANGLE_INDEXES, row, 0)
}

/// Takes a background out of its run of the pool of triangle indices.
pub(crate) fn read_background(bytes: &[u8], places: &[usize; 15], row: usize) -> (background: Vec<u32>)
    requires
        placed(bytes@, *places),
        runs_ok(bytes@),
        row < count(bytes@, BACKGROUNDS as int),
    ensures
        background@ == background_at(bytes@, row as int),
{
    let first: usize = cell_of(bytes, places, BACKGROUNDS, row, 0) as usize;
    let length: usize = cell_of(bytes, places, BACKGROUNDS, row, 1) as usize;
    let mut background: Vec<u32> = Vec::new();
    let mut k: usize = 0;
    while k < length
        invariant
            placed(bytes@, *places),
            first + length <= count(bytes@, TRIANGLE_INDEXES as int),
            k <= length,
            background@.len() == k,
            forall|j: int|
                0 <= j < k ==> background@[j] == cell(
                    bytes@,
                    TRIANGLE_INDEXES as int,
                    first + j,
                    0,
                ),
        decreases length - k,
    {
        let index = read_triangle_index(bytes, places, first + k);
        background.push(index);
        k += 1;
    }
    assert(background@ =~= background_at(bytes@, row as int));
    background
}

/// Takes a rendering step out of its row.
pub(crate) fn read_rendering_step(bytes: &[u8], places: &[usize; 15], row: usize) -> (step:
    RawRenderingStep)
    requires
        placed(bytes@, *places),
        tags_ok(bytes@),
        row < count(bytes@, RENDERING_STEPS as int),
    ensures
        step == rendering_step_at(bytes@, row as int),
{
    let tag: u32 = cell_of(bytes, places, RENDERING_STEPS, row, 0);
    let path: u32 = cell_of(bytes, places, RENDERING_STEPS, row, 1);
    let other: u32 = cell_of(bytes, places, RENDERING_STEPS, row, 2);
    if tag == CLIP {
        RawRenderingStep::Clip(path, other)
    } else {
        RawRenderingStep::Stroke(path, other)
    }
}

} // verus!
