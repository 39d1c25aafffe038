//! Writing a program as a Railway file: what the file holds, word for word.
//!
//! The names are laid out in the order of the arguments, then of the outputs.
//! The steps of the paths share one pool, and so do the triangle indices of the
//! backgrounds: a run is added to its pool only where the pool does not hold
//! it already.

use vstd::prelude::*;
use vstd::utf8::encode_utf8;
use crate::computing::{name_view, ArgumentView, Instruction, OutputView, ParsingError, ParsingResult};
use crate::format::Program;
use crate::drawing::{RawRenderingStep, StepType, Stroker, Triangle};
use crate::layout::{
    width, ProgramView, ARCS, ARGUMENTS, BACKGROUNDS, CLIP, CUBIC_CURVES, INSTRUCTIONS, LINES,
    NO_NAME, OUTPUTS, PATHS, QUADRATIC_CURVES, RENDERING_STEPS, STEPS, STRINGS, STROKE,
    STROKERS, TRIANGLES, TRIANGLE_INDEXES,
};
use crate::primitive::{Arc, CubicCurve, Line, QuadraticCurve};
use crate::wire::words_bytes;

verus! {

/// The bytes of one name in the file: its UTF-8 and a zero byte; nothing
/// where there is no name.
pub open spec fn name_run(name: Option<Seq<char>>) -> Seq<u8> {
    match name {
        Some(s) => encode_utf8(s).push(0u8),
        None => Seq::empty(),
    }
}

/// True when the UTF-8 of the name holds no zero byte, so that a zero byte can end it.
pub open spec fn plain(name: Seq<char>) -> bool {
    forall|j: int| 0 <= j < encode_utf8(name).len() ==> encode_utf8(name)[j] != 0
}

/// The names of the arguments, then those of the outputs.
pub open spec fn all_names(program: ProgramView) -> Seq<Option<Seq<char>>> {
    Seq::new(
        program.arguments.len() + program.outputs.len(),
        |i: int|
            if i < program.arguments.len() {
                program.arguments[i].name
            } else {
                program.outputs[i - program.arguments.len()].name
            },
    )
}

/// True when every name of the program is plain.
pub open spec fn names_plain(program: ProgramView) -> bool {
    forall|k: int|
        0 <= k < all_names(program).len() ==> (#[trigger] all_names(program)[k] matches Some(s)
            ==> plain(s))
}

/// The bytes of the first `k` names, one after the other.
pub open spec fn text_upto(names: Seq<Option<Seq<char>>>, k: int) -> Seq<u8>
    decreases k,
{
    if k <= 0 {
        Seq::empty()
    } else {
        text_upto(names, k - 1) + name_run(names[k - 1])
    }
}

/// The bytes of all the names of the program.
pub open spec fn text(program: ProgramView) -> Seq<u8> {
    text_upto(all_names(program), all_names(program).len() as int)
}

/// What a row holds for name `k`: where its bytes begin, or the mark of no name.
pub open spec fn name_offset(names: Seq<Option<Seq<char>>>, k: int) -> u32 {
    match names[k] {
        Some(_) => text_upto(names, k).len() as u32,
        None => NO_NAME,
    }
}

/// True when `pool` holds `run` from place `at` on.
pub open spec fn occurs_at(pool: Seq<u32>, run: Seq<u32>, at: int) -> bool {
    &&& 0 <= at
    &&& at + run.len() <= pool.len()
    &&& pool.subrange(at, at + run.len()) == run
}

/// The first place at or after `from`, in steps of `stride`, where `pool`
/// holds `run`; the length of the pool where it holds it at none.
pub open spec fn search(pool: Seq<u32>, run: Seq<u32>, stride: int, from: int) -> int
    decreases pool.len() - from + stride,
{
    if from < 0 || stride <= 0 || from + run.len() > pool.len() {
        pool.len() as int
    } else if occurs_at(pool, run, from) {
        from
    } else {
        search(pool, run, stride, from + stride)
    }
}

/// Where `run` stands once it is in the pool: at its first occurrence, or at
/// the end where it has to be added.
pub open spec fn place(pool: Seq<u32>, run: Seq<u32>, stride: int) -> int {
    search(pool, run, stride, 0)
}

/// The pool once `run` is in it: unchanged where it held the run already.
pub open spec fn grown(pool: Seq<u32>, run: Seq<u32>, stride: int) -> Seq<u32> {
    if occurs_at(pool, run, place(pool, run, stride)) {
        pool
    } else {
        pool + run
    }
}

/// The pool that holds the first `k` runs, each put in after those before it.
pub open spec fn pool_upto(runs: Seq<Seq<u32>>, stride: int, k: int) -> Seq<u32>
    decreases k,
{
    if k <= 0 {
        Seq::empty()
    } else {
        grown(pool_upto(runs, stride, k - 1), runs[k - 1], stride)
    }
}

/// The pool that holds all the runs.
pub open spec fn pool(runs: Seq<Seq<u32>>, stride: int) -> Seq<u32> {
    pool_upto(runs, stride, runs.len() as int)
}

/// Where run `k` stands in the pool.
pub open spec fn place_in_pool(runs: Seq<Seq<u32>>, stride: int, k: int) -> int {
    place(pool_upto(runs, stride, k), runs[k], stride)
}

/// The words of a path: for each step, the code of its kind, then its index.
pub open spec fn path_words(path: Seq<(StepType, u32)>) -> Seq<u32> {
    Seq::new(
        2 * path.len(),
        |j: int|
            if j % 2 == 0 {
                path[j / 2].0.code()
            } else {
                path[j / 2].1
            },
    )
}

/// The words of every path of the program.
pub open spec fn step_runs(program: ProgramView) -> Seq<Seq<u32>> {
    Seq::new(program.paths.len(), |i: int| path_words(program.paths[i]))
}

/// The words of the row of an argument whose name stands at `offset`.
pub open spec fn argument_row(argument: ArgumentView, offset: u32) -> Seq<u32> {
    seq![
        offset,
        argument.value.x,
        argument.value.y,
        argument.range.0.x,
        argument.range.1.x,
        argument.range.0.y,
        argument.range.1.y,
    ]
}

/// The words of the row of an instruction.
pub open spec fn instruction_row(instruction: Instruction) -> Seq<u32> {
    seq![
        instruction.operation.code(),
        instruction.operands[0],
        instruction.operands[1],
        instruction.operands[2],
    ]
}

/// The words of the row of an output whose name stands at `offset`.
pub open spec fn output_row(output: OutputView, offset: u32) -> Seq<u32> {
    seq![offset, output.address]
}

/// The words of the row of a triangle.
pub open spec fn triangle_row(triangle: Triangle) -> Seq<u32> {
    seq![
        triangle.points[0],
        triangle.points[1],
        triangle.points[2],
        triangle.colors[0][0],
        triangle.colors[0][1],
        triangle.colors[1][0],
        triangle.colors[1][1],
        triangle.colors[2][0],
        triangle.colors[2][1],
    ]
}

/// The words of the row of an arc.
pub open spec fn arc_row(arc: Arc) -> Seq<u32> {
    seq![arc.start_point, arc.center, arc.deltas]
}

/// The words of the row of a cubic curve.
pub open spec fn cubic_curve_row(curve: CubicCurve) -> Seq<u32> {
    seq![curve.points[0], curve.points[1], curve.points[2], curve.points[3]]
}

/// The words of the row of a quadratic curve.
pub open spec fn quadratic_curve_row(curve: QuadraticCurve) -> Seq<u32> {
    seq![curve.points[0], curve.points[1], curve.points[2]]
}

/// The words of the row of a line.
pub open spec fn line_row(line: Line) -> Seq<u32> {
    seq![line.points[0], line.points[1]]
}

/// The words of the row of a stroker.
pub open spec fn stroker_row(stroker: Stroker) -> Seq<u32> {
    seq![stroker.pattern, stroker.width, stroker.color[0], stroker.color[1]]
}

/// The words of the row of a rendering step.
pub open spec fn rendering_step_row(step: RawRenderingStep) -> Seq<u32> {
    match step {
        RawRenderingStep::Clip(path, background) => seq![CLIP, path, background],
        RawRenderingStep::Stroke(path, stroker) => seq![STROKE, path, stroker],
    }
}

/// The rows of a table of the program, each as its words. The two pools
/// have no rows of their own here: see [`table`].
pub open spec fn rows(program: ProgramView, section: int) -> Seq<Seq<u32>> {
    if section == ARGUMENTS {
        Seq::new(
            program.arguments.len(),
            |i: int| argument_row(program.arguments[i], name_offset(all_names(program), i)),
        )
    } else if section == INSTRUCTIONS {
        Seq::new(program.instructions.len(), |i: int| instruction_row(program.instructions[i]))
    } else if section == OUTPUTS {
        Seq::new(
            program.outputs.len(),
            |i: int|
                output_row(
                    program.outputs[i],
                    name_offset(all_names(program), program.arguments.len() + i),
                ),
        )
    } else if section == TRIANGLES {
        Seq::new(program.triangles.len(), |i: int| triangle_row(program.triangles[i]))
    } else if section == ARCS {
        Seq::new(program.arcs.len(), |i: int| arc_row(program.arcs[i]))
    } else if section == CUBIC_CURVES {
        Seq::new(program.cubic_curves.len(), |i: int| cubic_curve_row(program.cubic_curves[i]))
    } else if section == QUADRATIC_CURVES {
        Seq::new(
            program.quadratic_curves.len(),
            |i: int| quadratic_curve_row(program.quadratic_curves[i]),
        )
    } else if section == LINES {
        Seq::new(program.lines.len(), |i: int| line_row(program.lines[i]))
    } else if section == STROKERS {
        Seq::new(program.strokers.len(), |i: int| stroker_row(program.strokers[i]))
    } else if section == PATHS {
        Seq::new(
            program.paths.len(),
            |i: int|
                seq![
                    (place_in_pool(step_runs(program), 2, i) / 2) as u32,
                    program.paths[i].len() as u32,
                ],
        )
    } else if section == BACKGROUNDS {
        Seq::new(
            program.backgrounds.len(),
            |i: int|
                seq![
                    place_in_pool(program.backgrounds, 1, i) as u32,
                    program.backgrounds[i].len() as u32,
                ],
        )
    } else if section == RENDERING_STEPS {
        Seq::new(
            program.rendering_steps.len(),
            |i: int| rendering_step_row(program.rendering_steps[i]),
        )
    } else {
        Seq::empty()
    }
}

/// The words of some rows, one row after the other.
pub open spec fn flat(rows: Seq<Seq<u32>>) -> Seq<u32>
    decreases rows.len(),
{
    if rows.len() == 0 {
        Seq::empty()
    } else {
        flat(rows.drop_last()) + rows.last()
    }
}

/// The words of a table of the program, without its count.
pub open spec fn table(program: ProgramView, section: int) -> Seq<u32> {
    if section == STEPS {
        pool(step_runs(program), 2)
    } else if section == TRIANGLE_INDEXES {
        pool(program.backgrounds, 1)
    } else {
        flat(rows(program, section))
    }
}

/// How many rows a table of the program has.
pub open spec fn height(program: ProgramView, section: int) -> int {
    if section == STEPS {
        pool(step_runs(program), 2).len() as int / 2
    } else if section == TRIANGLE_INDEXES {
        pool(program.backgrounds, 1).len() as int
    } else {
        rows(program, section).len() as int
    }
}

/// The words of the first `upto` tables, each after its count.
pub open spec fn image(program: ProgramView, upto: int) -> Seq<u32>
    decreases upto,
{
    if upto <= 0 {
        Seq::empty()
    } else {
        image(program, upto - 1) + seq![height(program, upto - 1) as u32] + table(
            program,
            upto - 1,
        )
    }
}

/// True when every count of the file fits the 32 bits that it has.
pub open spec fn sized(program: ProgramView) -> bool {
    &&& forall|section: int|
        0 <= section < STRINGS ==> #[trigger] height(program, section) <= 0xFFFF_FFFF
    &&& text(program).len() <= 0xFFFF_FFFF
}

/// The words of the file: the fourteen tables, then the count of the bytes of the names.
pub open spec fn words(program: ProgramView) -> Seq<u32> {
    image(program, STRINGS as int).push(text(program).len() as u32)
}

/// The bytes of the file that holds the program.
pub open spec fn encoding(program: ProgramView) -> Seq<u8> {
    seq![0x52u8, 0x57u8, 0x59u8, 0x30u8] + words_bytes(words(program)) + text(program)
}

/// True when the program can be written: its addresses and indices have
/// their referents, its names are plain, and its counts fit.
pub open spec fn encodable(program: ProgramView) -> bool {
    program.indexed() && names_plain(program) && sized(program)
}

/// The runs of a vector of vectors, as sequences.
pub open spec fn runs_of(runs: Vec<Vec<u32>>) -> Seq<Seq<u32>> {
    Seq::new(runs.len() as nat, |i: int| runs[i]@)
}

/// A pool only grows: what holds fewer runs is the beginning of what holds more.
pub proof fn lemma_pool_grows(runs: Seq<Seq<u32>>, stride: int, k: int, n: int)
    requires
        0 <= k <= n,
    ensures
        pool_upto(runs, stride, k).len() <= pool_upto(runs, stride, n).len(),
        pool_upto(runs, stride, n).subrange(0, pool_upto(runs, stride, k).len() as int)
            == pool_upto(runs, stride, k),
    decreases n - k,
{
    let small = pool_upto(runs, stride, k);
    if k == n {
        assert(small.subrange(0, small.len() as int) =~= small);
    } else {
        lemma_pool_grows(runs, stride, k, n - 1);
        let before = pool_upto(runs, stride, n - 1);
        let after = pool_upto(runs, stride, n);
        assert(after == grown(before, runs[n - 1], stride));
        assert(after.subrange(0, small.len() as int) =~= before.subrange(0, small.len() as int));
    }
}

/// Once a run is in the pool, the pool holds it at its place.
pub proof fn lemma_grown_holds(pool: Seq<u32>, run: Seq<u32>, stride: int)
    requires
        stride > 0,
    ensures
        occurs_at(grown(pool, run, stride), run, place(pool, run, stride)),
        0 <= place(pool, run, stride) <= pool.len(),
{
    lemma_search_bounds(pool, run, stride, 0);
    let at = place(pool, run, stride);
    if !occurs_at(pool, run, at) {
        lemma_search_misses(pool, run, stride, 0);
        assert(at == pool.len());
        assert((pool + run).subrange(at, at + run.len()) =~= run);
    }
}

/// A search ends between where it began and the end of the pool.
pub proof fn lemma_search_bounds(pool: Seq<u32>, run: Seq<u32>, stride: int, from: int)
    requires
        0 <= from,
        stride > 0,
    ensures
        search(pool, run, stride, from) <= pool.len(),
        from <= pool.len() ==> from <= search(pool, run, stride, from),
    decreases pool.len() - from + stride,
{
    if from + run.len() <= pool.len() && !occurs_at(pool, run, from) {
        lemma_search_bounds(pool, run, stride, from + stride);
    }
}

/// A search that ends where the pool does not hold the run has come to the
/// end of the pool.
pub proof fn lemma_search_misses(pool: Seq<u32>, run: Seq<u32>, stride: int, from: int)
    requires
        0 <= from,
        stride > 0,
        !occurs_at(pool, run, search(pool, run, stride, from)),
    ensures
        search(pool, run, stride, from) == pool.len(),
    decreases pool.len() - from + stride,
{
    if from + run.len() <= pool.len() && !occurs_at(pool, run, from) {
        lemma_search_misses(pool, run, stride, from + stride);
    }
}

/// The search finds the first occurrence: the pool holds the run at no
/// earlier place that the stride reaches.
pub proof fn lemma_search_is_first(
    pool: Seq<u32>,
    run: Seq<u32>,
    stride: int,
    from: int,
    earlier: int,
)
    requires
        0 <= from,
        stride > 0,
        from <= earlier < search(pool, run, stride, from),
        (earlier - from) % stride == 0,
    ensures
        !occurs_at(pool, run, earlier),
    decreases pool.len() - from + stride,
{
    lemma_search_bounds(pool, run, stride, from);
    if from + run.len() <= pool.len() && !occurs_at(pool, run, from) {
        if earlier > from {
            assert(earlier - from >= stride) by {
                if earlier - from < stride {
                    assert((earlier - from) % stride == earlier - from) by (nonlinear_arith)
                        requires
                            0 <= earlier - from < stride,
                    ;
                }
            }
            assert((earlier - (from + stride)) % stride == 0) by (nonlinear_arith)
                requires
                    (earlier - from) % stride == 0,
                    stride > 0,
            ;
            lemma_search_is_first(pool, run, stride, from + stride, earlier);
        }
    }
}

/// A pool is left as it is by a run that it holds at a place that the stride
/// reaches, and the run is given a place no later than that one.
pub proof fn lemma_held_run_adds_nothing(pool: Seq<u32>, run: Seq<u32>, stride: int, at: int)
    requires
        stride > 0,
        0 <= at,
        at % stride == 0,
        occurs_at(pool, run, at),
    ensures
        grown(pool, run, stride) == pool,
        place(pool, run, stride) <= at,
{
    let found = place(pool, run, stride);
    lemma_search_bounds(pool, run, stride, 0);
    if found > at {
        lemma_search_is_first(pool, run, stride, 0, at);
    }
    if !occurs_at(pool, run, found) {
        lemma_search_misses(pool, run, stride, 0);
    }
}

/// Tells whether `pool` holds `run` from place `at` on.
fn run_at(pool: &Vec<u32>, run: &Vec<u32>, at: usize) -> (r: bool)
    requires
        at + run.len() <= pool.len(),
    ensures
        r == occurs_at(pool@, run@, at as int),
{
    let mut k: usize = 0;
    while k < run.len()
        invariant
            at + run.len() <= pool.len(),
            k <= run.len(),
            forall|j: int| 0 <= j < k ==> pool@[at + j] == run@[j],
        decreases run.len() - k,
    {
        if pool[at + k] != run[k] {
            assert(pool@.subrange(at as int, at + run.len())[k as int] != run@[k as int]);
            return false;
        }
        k += 1;
    }
    assert(pool@.subrange(at as int, at + run.len()) =~= run@);
    true
}

/// Finds where `run` stands, or would stand, in `pool`.
fn find(pool: &Vec<u32>, run: &Vec<u32>, stride: usize) -> (at: usize)
    requires
        0 < stride <= 2,
    ensures
        at == place(pool@, run@, stride as int),
        at <= pool.len(),
{
    proof {
        lemma_search_bounds(pool@, run@, stride as int, 0);
    }
    if run.len() > pool.len() {
        return pool.len();
    }
    let last: usize = pool.len() - run.len();
    let mut at: usize = 0;
    while at <= last
        invariant
            0 < stride <= 2,
            last == pool.len() - run.len(),
            run.len() <= pool.len(),
            search(pool@, run@, stride as int, at as int) == place(pool@, run@, stride as int),
            at <= last + stride,
        decreases last + stride - at,
    {
        if run_at(pool, run, at) {
            return at;
        }
        if at > usize::MAX - stride {
            assert(search(pool@, run@, stride as int, at + stride) == pool@.len());
            return pool.len();
        }
        at += stride;
    }
    pool.len()
}

/// Puts `run` into `pool` unless the pool holds it already, and tells where it stands.
fn insert(pool: &mut Vec<u32>, run: &Vec<u32>, stride: usize) -> (at: usize)
    requires
        0 < stride <= 2,
    ensures
        at == place(old(pool)@, run@, stride as int),
        final(pool)@ == grown(old(pool)@, run@, stride as int),
        at + run.len() <= final(pool).len(),
{
    let at: usize = find(pool, run, stride);
    proof {
        lemma_grown_holds(pool@, run@, stride as int);
    }
    let held: bool = if run.len() <= pool.len() - at {
        run_at(pool, run, at)
    } else {
        false
    };
    if !held {
        pool.extend_from_slice(run.as_slice());
    }
    at
}

/// The pool of some runs, and the place of each run in it; nothing where
/// the pool would have more than `limit` words.
fn pool_of(runs: &Vec<Vec<u32>>, stride: usize, limit: u64) -> (r: Option<(Vec<u32>, Vec<usize>)>)
    requires
        0 < stride <= 2,
    ensures
        r is Some <==> pool(runs_of(*runs), stride as int).len() <= limit,
        r matches Some((words, places)) ==> {
            &&& words@ == pool(runs_of(*runs), stride as int)
            &&& places.len() == runs.len()
            &&& forall|k: int|
                0 <= k < runs.len() ==> places[k] == place_in_pool(
                    runs_of(*runs),
                    stride as int,
                    k,
                )
            &&& forall|k: int|
                0 <= k < runs.len() ==> #[trigger] places[k] + runs[k].len() <= words.len()
        },
{
    let ghost all = runs_of(*runs);
    let mut words: Vec<u32> = Vec::new();
    let mut places: Vec<usize> = Vec::new();
    let mut k: usize = 0;
    while k < runs.len()
        invariant
            0 < stride <= 2,
            all == runs_of(*runs),
            k <= runs.len(),
            words@ == pool_upto(all, stride as int, k as int),
            words.len() <= limit,
            places.len() == k,
            forall|j: int| 0 <= j < k ==> places[j] == place_in_pool(all, stride as int, j),
            forall|j: int| 0 <= j < k ==> #[trigger] places[j] + runs[j].len() <= words.len(),
        decreases runs.len() - k,
    {
        let at: usize = insert(&mut words, &runs[k], stride);
        assert(all[k as int] == runs[k as int]@);
        assert(words@ == pool_upto(all, stride as int, k + 1));
        if words.len() as u64 > limit {
            proof {
                lemma_pool_grows(all, stride as int, k + 1, runs.len() as int);
            }
            return None;
        }
        places.push(at);
        k += 1;
    }
    Some((words, places))
}

/// The bytes of the names only grow with each name.
pub proof fn lemma_text_grows(names: Seq<Option<Seq<char>>>, k: int, n: int)
    requires
        0 <= k <= n,
    ensures
        text_upto(names, k).len() <= text_upto(names, n).len(),
    decreases n - k,
{
    if k < n {
        lemma_text_grows(names, k, n - 1);
    }
}

/// Tells whether the UTF-8 of a name holds no zero byte.
fn name_is_plain(name: &String) -> (r: bool)
    ensures
        r == plain(name@),
{
    let bytes = name.as_str().as_bytes();
    let mut j: usize = 0;
    while j < bytes.len()
        invariant
            bytes@ == encode_utf8(name@),
            j <= bytes.len(),
            forall|i: int| 0 <= i < j ==> bytes@[i] != 0,
        decreases bytes.len() - j,
    {
        if bytes[j] == 0 {
            return false;
        }
        j += 1;
    }
    true
}

/// Tells whether every name of the program is plain.
fn names_are_plain(program: &Program) -> (r: bool)
    ensures
        r == names_plain(program@),
{
    let ghost names = all_names(program@);
    let mut i: usize = 0;
    while i < program.arguments.len()
        invariant
            names == all_names(program@),
            i <= program.arguments.len(),
            forall|k: int| 0 <= k < i ==> (#[trigger] names[k] matches Some(s) ==> plain(s)),
        decreases program.arguments.len() - i,
    {
        assert(names[i as int] == name_view(program.arguments[i as int].name));
        match &program.arguments[i].name {
            Some(name) => {
                if !name_is_plain(name) {
                    return false;
                }
            },
            None => {},
        }
        i += 1;
    }
    let mut j: usize = 0;
    while j < program.outputs.len()
        invariant
            names == all_names(program@),
            j <= program.outputs.len(),
            forall|k: int|
                0 <= k < program.arguments.len() + j ==> (#[trigger] names[k] matches Some(s)
                    ==> plain(s)),
        decreases program.outputs.len() - j,
    {
        assert(names[program.arguments.len() + j] == name_view(program.outputs[j as int].name));
        match &program.outputs[j].name {
            Some(name) => {
                if !name_is_plain(name) {
                    return false;
                }
            },
            None => {},
        }
        j += 1;
    }
    true
}

/// Adds the bytes of a name to those of the names before it, and gives what
/// a row holds for the name; nothing where the bytes would be too many to count.
fn put_name(bytes: &mut Vec<u8>, name: &Option<String>) -> (offset: Option<u32>)
    requires
        old(bytes).len() <= 0xFFFF_FFFF,
    ensures
        final(bytes)@ == old(bytes)@ + name_run(name_view(*name)),
        offset is Some <==> final(bytes).len() <= 0xFFFF_FFFF,
        offset matches Some(o) ==> o == (match name {
            Some(_) => old(bytes).len() as u32,
            None => NO_NAME,
        }),
{
    match name {
        Some(s) => {
            let at: u32 = bytes.len() as u32;
            bytes.extend_from_slice(s.as_str().as_bytes());
            bytes.push(0);
            if bytes.len() > 0xFFFF_FFFF {
                None
            } else {
                Some(at)
            }
        },
        None => {
            assert(bytes@ + Seq::<u8>::empty() =~= bytes@);
            Some(NO_NAME)
        },
    }
}

/// The bytes of the names of the program and what each row holds for its
/// name; nothing where the bytes are too many to count.
fn write_names(program: &Program) -> (r: Option<(Vec<u8>, Vec<u32>)>)
    ensures
        r is Some <==> text(program@).len() <= 0xFFFF_FFFF,
        r matches Some((bytes, offsets)) ==> {
            &&& bytes@ == text(program@)
            &&& offsets.len() == all_names(program@).len()
            &&& forall|k: int|
                0 <= k < offsets.len() ==> offsets[k] == name_offset(all_names(program@), k)
        },
{
    let ghost names = all_names(program@);
    let mut bytes: Vec<u8> = Vec::new();
    let mut offsets: Vec<u32> = Vec::new();
    let mut i: usize = 0;
    while i < program.arguments.len()
        invariant
            names == all_names(program@),
            i <= program.arguments.len(),
            bytes@ == text_upto(names, i as int),
            bytes.len() <= 0xFFFF_FFFF,
            offsets.len() == i,
            forall|k: int| 0 <= k < i ==> offsets[k] == name_offset(names, k),
        decreases program.arguments.len() - i,
    {
        assert(names[i as int] == name_view(program.arguments[i as int].name));
        match put_name(&mut bytes, &program.arguments[i].name) {
            Some(offset) => {
                offsets.push(offset);
            },
            None => {
                proof {
                    lemma_text_grows(names, i + 1, names.len() as int);
                }
                return None;
            },
        }
        i += 1;
    }
    let first: usize = program.arguments.len();
    let mut j: usize = 0;
    while j < program.outputs.len()
        invariant
            names == all_names(program@),
            first == program.arguments.len(),
            j <= program.outputs.len(),
            bytes@ == text_upto(names, first + j),
            bytes.len() <= 0xFFFF_FFFF,
            offsets.len() == first + j,
            forall|k: int| 0 <= k < first + j ==> offsets[k] == name_offset(names, k),
        decreases program.outputs.len() - j,
    {
        assert(names[first + j] == name_view(program.outputs[j as int].name));
        match put_name(&mut bytes, &program.outputs[j].name) {
            Some(offset) => {
                offsets.push(offset);
            },
            None => {
                proof {
                    lemma_text_grows(names, first + j + 1, names.len() as int);
                }
                return None;
            },
        }
        j += 1;
    }
    Some((bytes, offsets))
}

/// The words of the rows up to and with row `k` are those of the rows before
/// it, then its own.
pub proof fn lemma_flat_next(rows: Seq<Seq<u32>>, k: int)
    requires
        0 <= k < rows.len(),
    ensures
        flat(rows.take(k + 1)) == flat(rows.take(k)) + rows[k],
{
    assert(rows.take(k + 1).drop_last() =~= rows.take(k));
    assert(rows.take(k + 1).last() == rows[k]);
}

/// Rows of one width lie in their table one after the other: the table has
/// the width for each row, and a row's words stand at its index times the width.
pub proof fn lemma_flat_rows(rows: Seq<Seq<u32>>, w: int)
    requires
        0 < w,
        forall|i: int| 0 <= i < rows.len() ==> (#[trigger] rows[i]).len() == w,
    ensures
        flat(rows).len() == rows.len() * w,
        forall|i: int, c: int|
            0 <= i < rows.len() && 0 <= c < w ==> flat(rows)[i * w + c] == #[trigger] rows[i][c],
    decreases rows.len(),
{
    if rows.len() > 0 {
        let init = rows.drop_last();
        lemma_flat_rows(init, w);
        assert(init.len() * w + w == rows.len() * w) by (nonlinear_arith)
            requires
                init.len() + 1 == rows.len(),
        ;
        assert forall|i: int, c: int| 0 <= i < rows.len() && 0 <= c < w implies flat(rows)[i * w
            + c] == #[trigger] rows[i][c] by {
            if i < init.len() {
                assert(i * w + c < init.len() * w) by (nonlinear_arith)
                    requires
                        0 <= i < init.len(),
                        0 <= c < w,
                ;
                assert(0 <= i * w + c) by (nonlinear_arith)
                    requires
                        0 <= i,
                        0 <= c,
                        0 < w,
                ;
                assert(init[i] == rows[i]);
                assert(flat(init)[i * w + c] == init[i][c]);
            } else {
                assert(i * w == init.len() * w);
            }
        }
    } else {
        assert(rows.len() * w == 0) by (nonlinear_arith)
            requires
                rows.len() == 0,
        ;
    }
}

/// The words of the paths of the program, each as a run of its own.
fn path_runs(program: &Program) -> (runs: Vec<Vec<u32>>)
    ensures
        runs_of(runs) == step_runs(program@),
{
    let mut runs: Vec<Vec<u32>> = Vec::new();
    let mut i: usize = 0;
    while i < program.paths.len()
        invariant
            i <= program.paths.len(),
            runs.len() == i,
            forall|k: int| 0 <= k < i ==> runs[k]@ == path_words(program.paths[k]@),
        decreases program.paths.len() - i,
    {
        let path = &program.paths[i];
        let mut run: Vec<u32> = Vec::new();
        let mut k: usize = 0;
        while k < path.len()
            invariant
                k <= path.len(),
                run.len() == 2 * k,
                forall|j: int|
                    0 <= j < 2 * k ==> run@[j] == (if j % 2 == 0 {
                        path@[j / 2].0.code()
                    } else {
                        path@[j / 2].1
                    }),
            decreases path.len() - k,
        {
            let step = path[k];
            run.push(step.0.as_u32());
            run.push(step.1);
            k += 1;
        }
        assert(run@ =~= path_words(path@));
        runs.push(run);
        i += 1;
    }
    assert(runs_of(runs) =~= step_runs(program@));
    runs
}

fn put_arguments(program: &Program, offsets: &Vec<u32>, out: &mut Vec<u32>)
    requires
        program.arguments.len() <= 0xFFFF_FFFF,
        offsets.len() == all_names(program@).len(),
        forall|k: int| 0 <= k < offsets.len() ==> offsets[k] == name_offset(all_names(program@), k),
    ensures
        final(out)@ == old(out)@ + seq![program.arguments.len() as u32] + table(
            program@,
            ARGUMENTS as int,
        ),
{
    let ghost before = out@;
    let ghost all = rows(program@, ARGUMENTS as int);
    let n: usize = program.arguments.len();
    out.push(n as u32);
    assert(all.take(0) =~= Seq::<Seq<u32>>::empty());
    assert(out@ =~= before + seq![n as u32] + flat(all.take(0)));
    let mut i: usize = 0;
    while i < n
        invariant
            n == program.arguments.len(),
            all == rows(program@, ARGUMENTS as int),
            all.len() == n,
            i <= n,
            offsets.len() == all_names(program@).len(),
            forall|k: int|
                0 <= k < offsets.len() ==> offsets[k] == name_offset(all_names(program@), k),
            out@ == before + seq![n as u32] + flat(all.take(i as int)),
        decreases n - i,
    {
        let a = &program.arguments[i];
        let ghost prior = out@;
        out.push(offsets[i]);
        out.push(a.value.x);
        out.push(a.value.y);
        out.push(a.range.0.x);
        out.push(a.range.1.x);
        out.push(a.range.0.y);
        out.push(a.range.1.y);
        proof {
            lemma_flat_next(all, i as int);
            assert(out@ =~= prior + all[i as int]);
            assert(out@ =~= before + seq![n as u32] + flat(all.take(i + 1)));
        }
        i += 1;
    }
    assert(all.take(n as int) =~= all);
}

fn put_instructions(program: &Program, out: &mut Vec<u32>)
    requires
        program.instructions.len() <= 0xFFFF_FFFF,
    ensures
        final(out)@ == old(out)@ + seq![program.instructions.len() as u32] + table(
            program@,
            INSTRUCTIONS as int,
        ),
{
    let ghost before = out@;
    let ghost all = rows(program@, INSTRUCTIONS as int);
    let n: usize = program.instructions.len();
    out.push(n as u32);
    assert(all.take(0) =~= Seq::<Seq<u32>>::empty());
    assert(out@ =~= before + seq![n as u32] + flat(all.take(0)));
    let mut i: usize = 0;
    while i < n
        invariant
            n == program.instructions.len(),
            all == rows(program@, INSTRUCTIONS as int),
            all.len() == n,
            i <= n,
            out@ == before + seq![n as u32] + flat(all.take(i as int)),
        decreases n - i,
    {
        let r = program.instructions[i];
        let ghost prior = out@;
        out.push(r.operation.opcode());
        out.push(r.operands[0]);
        out.push(r.operands[1]);
        out.push(r.operands[2]);
        proof {
            lemma_flat_next(all, i as int);
            assert(out@ =~= prior + all[i as int]);
            assert(out@ =~= before + seq![n as u32] + flat(all.take(i + 1)));
        }
        i += 1;
    }
    assert(all.take(n as int) =~= all);
}

fn put_outputs(program: &Program, offsets: &Vec<u32>, out: &mut Vec<u32>)
    requires
        program.outputs.len() <= 0xFFFF_FFFF,
        offsets.len() == all_names(program@).len(),
        forall|k: int| 0 <= k < offsets.len() ==> offsets[k] == name_offset(all_names(program@), k),
    ensures
        final(out)@ == old(out)@ + seq![program.outputs.len() as u32] + table(
            program@,
            OUTPUTS as int,
        ),
{
    let ghost before = out@;
    let ghost all = rows(program@, OUTPUTS as int);
    let n: usize = program.outputs.len();
    let first: usize = program.arguments.len();
    out.push(n as u32);
    assert(all.take(0) =~= Seq::<Seq<u32>>::empty());
    assert(out@ =~= before + seq![n as u32] + flat(all.take(0)));
    let mut i: usize = 0;
    while i < n
        invariant
            n == program.outputs.len(),
            first == program.arguments.len(),
            all == rows(program@, OUTPUTS as int),
            all.len() == n,
            i <= n,
            offsets.len() == all_names(program@).len(),
            forall|k: int|
                0 <= k < offsets.len() ==> offsets[k] == name_offset(all_names(program@), k),
            out@ == before + seq![n as u32] + flat(all.take(i as int)),
        decreases n - i,
    {
        let o = &program.outputs[i];
        let ghost prior = out@;
        out.push(offsets[first + i]);
        out.push(o.address);
        proof {
            lemma_flat_next(all, i as int);
            assert(out@ =~= prior + all[i as int]);
            assert(out@ =~= before + seq![n as u32] + flat(all.take(i + 1)));
        }
        i += 1;
    }
    assert(all.take(n as int) =~= all);
}

fn put_triangles(program: &Program, out: &mut Vec<u32>)
    requires
        program.triangles.len() <= 0xFFFF_FFFF,
    ensures
        final(out)@ == old(out)@ + seq![program.triangles.len() as u32] + table(
            program@,
            TRIANGLES as int,
        ),
{
    let ghost before = out@;
    let ghost all = rows(program@, TRIANGLES as int);
    let n: usize = program.triangles.len();
    out.push(n as u32);
    assert(all.take(0) =~= Seq::<Seq<u32>>::empty());
    assert(out@ =~= before + seq![n as u32] + flat(all.take(0)));
    let mut i: usize = 0;
    while i < n
        invariant
            n == program.triangles.len(),
            all == rows(program@, TRIANGLES as int),
            all.len() == n,
            i <= n,
            out@ == before + seq![n as u32] + flat(all.take(i as int)),
        decreases n - i,
    {
        let r = program.triangles[i];
        let ghost prior = out@;
        out.push(r.points[0]);
        out.push(r.points[1]);
        out.push(r.points[2]);
        out.push(r.colors[0][0]);
        out.push(r.colors[0][1]);
        out.push(r.colors[1][0]);
        out.push(r.colors[1][1]);
        out.push(r.colors[2][0]);
        out.push(r.colors[2][1]);
        proof {
            lemma_flat_next(all, i as int);
            assert(out@ =~= prior + all[i as int]);
            assert(out@ =~= before + seq![n as u32] + flat(all.take(i + 1)));
        }
        i += 1;
    }
    assert(all.take(n as int) =~= all);
}

fn put_arcs(program: &Program, out: &mut Vec<u32>)
    requires
        program.arcs.len() <= 0xFFFF_FFFF,
    ensures
        final(out)@ == old(out)@ + seq![program.arcs.len() as u32] + table(program@, ARCS as int),
{
    let ghost before = out@;
    let ghost all = rows(program@, ARCS as int);
    let n: usize = program.arcs.len();
    out.push(n as u32);
    assert(all.take(0) =~= Seq::<Seq<u32>>::empty());
    assert(out@ =~= before + seq![n as u32] + flat(all.take(0)));
    let mut i: usize = 0;
    while i < n
        invariant
            n == program.arcs.len(),
            all == rows(program@, ARCS as int),
            all.len() == n,
            i <= n,
            out@ == before + seq![n as u32] + flat(all.take(i as int)),
        decreases n - i,
    {
        let r = program.arcs[i];
        let ghost prior = out@;
        out.push(r.start_point);
        out.push(r.center);
        out.push(r.deltas);
        proof {
            lemma_flat_next(all, i as int);
            assert(out@ =~= prior + all[i as int]);
            assert(out@ =~= before + seq![n as u32] + flat(all.take(i + 1)));
        }
        i += 1;
    }
    assert(all.take(n as int) =~= all);
}

fn put_cubic_curves(program: &Program, out: &mut Vec<u32>)
    requires
        program.cubic_curves.len() <= 0xFFFF_FFFF,
    ensures
        final(out)@ == old(out)@ + seq![program.cubic_curves.len() as u32] + table(
            program@,
            CUBIC_CURVES as int,
        ),
{
    let ghost before = out@;
    let ghost all = rows(program@, CUBIC_CURVES as int);
    let n: usize = program.cubic_curves.len();
    out.push(n as u32);
    assert(all.take(0) =~= Seq::<Seq<u32>>::empty());
    assert(out@ =~= before + seq![n as u32] + flat(all.take(0)));
    let mut i: usize = 0;
    while i < n
        invariant
            n == program.cubic_curves.len(),
            all == rows(program@, CUBIC_CURVES as int),
            all.len() == n,
            i <= n,
            out@ == before + seq![n as u32] + flat(all.take(i as int)),
        decreases n - i,
    {
        let r = program.cubic_curves[i];
        let ghost prior = out@;
        out.push(r.points[0]);
        out.push(r.points[1]);
        out.push(r.points[2]);
        out.push(r.points[3]);
        proof {
            lemma_flat_next(all, i as int);
            assert(out@ =~= prior + all[i as int]);
            assert(out@ =~= before + seq![n as u32] + flat(all.take(i + 1)));
        }
        i += 1;
    }
    assert(all.take(n as int) =~= all);
}

fn put_quadratic_curves(program: &Program, out: &mut Vec<u32>)
    requires
        program.quadratic_curves.len() <= 0xFFFF_FFFF,
    ensures
        final(out)@ == old(out)@ + seq![program.quadratic_curves.len() as u32] + table(
            program@,
            QUADRATIC_CURVES as int,
        ),
{
    let ghost before = out@;
    let ghost all = rows(program@, QUADRATIC_CURVES as int);
    let n: usize = program.quadratic_curves.len();
    out.push(n as u32);
    assert(all.take(0) =~= Seq::<Seq<u32>>::empty());
    assert(out@ =~= before + seq![n as u32] + flat(all.take(0)));
    let mut i: usize = 0;
    while i < n
        invariant
            n == program.quadratic_curves.len(),
            all == rows(program@, QUADRATIC_CURVES as int),
            all.len() == n,
            i <= n,
            out@ == before + seq![n as u32] + flat(all.take(i as int)),
        decreases n - i,
    {
        let r = program.quadratic_curves[i];
        let ghost prior = out@;
        out.push(r.points[0]);
        out.push(r.points[1]);
        out.push(r.points[2]);
        proof {
            lemma_flat_next(all, i as int);
            assert(out@ =~= prior + all[i as int]);
            assert(out@ =~= before + seq![n as u32] + flat(all.take(i + 1)));
        }
        i += 1;
    }
    assert(all.take(n as int) =~= all);
}

fn put_lines(program: &Program, out: &mut Vec<u32>)
    requires
        program.lines.len() <= 0xFFFF_FFFF,
    ensures
        final(out)@ == old(out)@ + seq![program.lines.len() as u32] + table(
            program@,
            LINES as int,
        ),
{
    let ghost before = out@;
    let ghost all = rows(program@, LINES as int);
    let n: usize = program.lines.len();
    out.push(n as u32);
    assert(all.take(0) =~= Seq::<Seq<u32>>::empty());
    assert(out@ =~= before + seq![n as u32] + flat(all.take(0)));
    let mut i: usize = 0;
    while i < n
        invariant
            n == program.lines.len(),
            all == rows(program@, LINES as int),
            all.len() == n,
            i <= n,
            out@ == before + seq![n as u32] + flat(all.take(i as int)),
        decreases n - i,
    {
        let r = program.lines[i];
        let ghost prior = out@;
        out.push(r.points[0]);
        out.push(r.points[1]);
        proof {
            lemma_flat_next(all, i as int);
            assert(out@ =~= prior + all[i as int]);
            assert(out@ =~= before + seq![n as u32] + flat(all.take(i + 1)));
        }
        i += 1;
    }
    assert(all.take(n as int) =~= all);
}

fn put_strokers(program: &Program, out: &mut Vec<u32>)
    requires
        program.strokers.len() <= 0xFFFF_FFFF,
    ensures
        final(out)@ == old(out)@ + seq![program.strokers.len() as u32] + table(
            program@,
            STROKERS as int,
        ),
{
    let ghost before = out@;
    let ghost all = rows(program@, STROKERS as int);
    let n: usize = program.strokers.len();
    out.push(n as u32);
    assert(all.take(0) =~= Seq::<Seq<u32>>::empty());
    assert(out@ =~= before + seq![n as u32] + flat(all.take(0)));
    let mut i: usize = 0;
    while i < n
        invariant
            n == program.strokers.len(),
            all == rows(program@, STROKERS as int),
            all.len() == n,
            i <= n,
            out@ == before + seq![n as u32] + flat(all.take(i as int)),
        decreases n - i,
    {
        let r = program.strokers[i];
        let ghost prior = out@;
        out.push(r.pattern);
        out.push(r.width);
        out.push(r.color[0]);
        out.push(r.color[1]);
        proof {
            lemma_flat_next(all, i as int);
            assert(out@ =~= prior + all[i as int]);
            assert(out@ =~= before + seq![n as u32] + flat(all.take(i + 1)));
        }
        i += 1;
    }
    assert(all.take(n as int) =~= all);
}

fn put_rendering_steps(program: &Program, out: &mut Vec<u32>)
    requires
        program.rendering_steps.len() <= 0xFFFF_FFFF,
    ensures
        final(out)@ == old(out)@ + seq![program.rendering_steps.len() as u32] + table(
            program@,
            RENDERING_STEPS as int,
        ),
{
    let ghost before = out@;
    let ghost all = rows(program@, RENDERING_STEPS as int);
    let n: usize = program.rendering_steps.len();
    out.push(n as u32);
    assert(all.take(0) =~= Seq::<Seq<u32>>::empty());
    assert(out@ =~= before + seq![n as u32] + flat(all.take(0)));
    let mut i: usize = 0;
    while i < n
        invariant
            n == program.rendering_steps.len(),
            all == rows(program@, RENDERING_STEPS as int),
            all.len() == n,
            i <= n,
            out@ == before + seq![n as u32] + flat(all.take(i as int)),
        decreases n - i,
    {
        let ghost prior = out@;
        match program.rendering_steps[i] {
            RawRenderingStep::Clip(path, background) => {
                out.push(CLIP);
                out.push(path);
                out.push(background);
            },
            RawRenderingStep::Stroke(path, stroker) => {
                out.push(STROKE);
                out.push(path);
                out.push(stroker);
            },
        }
        proof {
            lemma_flat_next(all, i as int);
            assert(out@ =~= prior + all[i as int]);
            assert(out@ =~= before + seq![n as u32] + flat(all.take(i + 1)));
        }
        i += 1;
    }
    assert(all.take(n as int) =~= all);
}

fn put_paths(program: &Program, places: &Vec<usize>, out: &mut Vec<u32>)
    requires
        program.paths.len() <= 0xFFFF_FFFF,
        places.len() == program.paths.len(),
        forall|k: int|
            0 <= k < places.len() ==> places[k] == place_in_pool(step_runs(program@), 2, k),
        forall|k: int|
            0 <= k < places.len() ==> #[trigger] places[k] + 2 * program.paths[k].len() <= 2
                * 0xFFFF_FFFF + 1,
    ensures
        final(out)@ == old(out)@ + seq![program.paths.len() as u32] + table(
            program@,
            PATHS as int,
        ),
{
    let ghost before = out@;
    let ghost all = rows(program@, PATHS as int);
    let n: usize = program.paths.len();
    out.push(n as u32);
    assert(all.take(0) =~= Seq::<Seq<u32>>::empty());
    assert(out@ =~= before + seq![n as u32] + flat(all.take(0)));
    let mut i: usize = 0;
    while i < n
        invariant
            n == program.paths.len(),
            all == rows(program@, PATHS as int),
            all.len() == n,
            i <= n,
            places.len() == n,
            forall|k: int|
                0 <= k < places.len() ==> places[k] == place_in_pool(step_runs(program@), 2, k),
            forall|k: int|
                0 <= k < places.len() ==> #[trigger] places[k] + 2 * program.paths[k].len() <= 2
                    * 0xFFFF_FFFF + 1,
            out@ == before + seq![n as u32] + flat(all.take(i as int)),
        decreases n - i,
    {
        let ghost prior = out@;
        assert(places[i as int] + 2 * program.paths[i as int].len() <= 2 * 0xFFFF_FFFF + 1);
        out.push((places[i] / 2) as u32);
        out.push(program.paths[i].len() as u32);
        proof {
            lemma_flat_next(all, i as int);
            assert(program@.paths[i as int] == program.paths[i as int]@);
            assert(out@ =~= prior + all[i as int]);
            assert(out@ =~= before + seq![n as u32] + flat(all.take(i + 1)));
        }
        i += 1;
    }
    assert(all.take(n as int) =~= all);
}

fn put_backgrounds(program: &Program, places: &Vec<usize>, out: &mut Vec<u32>)
    requires
        program.backgrounds.len() <= 0xFFFF_FFFF,
        places.len() == program.backgrounds.len(),
        forall|k: int|
            0 <= k < places.len() ==> places[k] == place_in_pool(program@.backgrounds, 1, k),
        forall|k: int|
            0 <= k < places.len() ==> #[trigger] places[k] + program.backgrounds[k].len()
                <= 0xFFFF_FFFF,
    ensures
        final(out)@ == old(out)@ + seq![program.backgrounds.len() as u32] + table(
            program@,
            BACKGROUNDS as int,
        ),
{
    let ghost before = out@;
    let ghost all = rows(program@, BACKGROUNDS as int);
    let n: usize = program.backgrounds.len();
    out.push(n as u32);
    assert(all.take(0) =~= Seq::<Seq<u32>>::empty());
    assert(out@ =~= before + seq![n as u32] + flat(all.take(0)));
    let mut i: usize = 0;
    while i < n
        invariant
            n == program.backgrounds.len(),
            all == rows(program@, BACKGROUNDS as int),
            all.len() == n,
            i <= n,
            places.len() == n,
            forall|k: int|
                0 <= k < places.len() ==> places[k] == place_in_pool(program@.backgrounds, 1, k),
            forall|k: int|
                0 <= k < places.len() ==> #[trigger] places[k] + program.backgrounds[k].len()
                    <= 0xFFFF_FFFF,
            out@ == before + seq![n as u32] + flat(all.take(i as int)),
        decreases n - i,
    {
        let ghost prior = out@;
        assert(places[i as int] + program.backgrounds[i as int].len() <= 0xFFFF_FFFF);
        out.push(places[i] as u32);
        out.push(program.backgrounds[i].len() as u32);
        proof {
            lemma_flat_next(all, i as int);
            assert(program@.backgrounds[i as int] == program.backgrounds[i as int]@);
            assert(out@ =~= prior + all[i as int]);
            assert(out@ =~= before + seq![n as u32] + flat(all.take(i + 1)));
        }
        i += 1;
    }
    assert(all.take(n as int) =~= all);
}

/// Adds a pool after the count of its rows.
fn put_pool(words: &Vec<u32>, stride: usize, out: &mut Vec<u32>)
    requires
        0 < stride <= 2,
        words.len() / stride <= 0xFFFF_FFFF,
    ensures
        final(out)@ == old(out)@ + seq![(words.len() / stride) as u32] + words@,
{
    out.push((words.len() / stride) as u32);
    out.extend_from_slice(words.as_slice());
}

/// Why a program cannot be written, if it cannot.
pub open spec fn refusal(program: ProgramView) -> Option<ParsingError> {
    if !program.indexed() {
        Some(ParsingError::InvalidIndex)
    } else if !names_plain(program) {
        Some(ParsingError::InvalidName)
    } else if !sized(program) {
        Some(ParsingError::InvalidIndex)
    } else {
        None
    }
}

/// Tells whether every table that is written row by row has a count that fits.
fn tables_fit(program: &Program) -> (r: bool)
    ensures
        r == (forall|section: int|
            0 <= section < STRINGS && section != STEPS && section != TRIANGLE_INDEXES
                ==> #[trigger] height(program@, section) <= 0xFFFF_FFFF),
        r ==> {
            &&& program.arguments.len() <= 0xFFFF_FFFF
            &&& program.instructions.len() <= 0xFFFF_FFFF
            &&& program.outputs.len() <= 0xFFFF_FFFF
            &&& program.triangles.len() <= 0xFFFF_FFFF
            &&& program.arcs.len() <= 0xFFFF_FFFF
            &&& program.cubic_curves.len() <= 0xFFFF_FFFF
            &&& program.quadratic_curves.len() <= 0xFFFF_FFFF
            &&& program.lines.len() <= 0xFFFF_FFFF
            &&& program.strokers.len() <= 0xFFFF_FFFF
            &&& program.paths.len() <= 0xFFFF_FFFF
            &&& program.backgrounds.len() <= 0xFFFF_FFFF
            &&& program.rendering_steps.len() <= 0xFFFF_FFFF
        },
{
    let limit: usize = 0xFFFF_FFFF;
    let fit: bool = program.arguments.len() <= limit && program.instructions.len() <= limit
        && program.outputs.len() <= limit && program.triangles.len() <= limit
        && program.arcs.len() <= limit && program.cubic_curves.len() <= limit
        && program.quadratic_curves.len() <= limit && program.lines.len() <= limit
        && program.strokers.len() <= limit && program.paths.len() <= limit
        && program.backgrounds.len() <= limit && program.rendering_steps.len() <= limit;
    proof {
        let p = program@;
        assert(height(p, ARGUMENTS as int) == program.arguments.len());
        assert(height(p, INSTRUCTIONS as int) == program.instructions.len());
        assert(height(p, OUTPUTS as int) == program.outputs.len());
        assert(height(p, TRIANGLES as int) == program.triangles.len());
        assert(height(p, ARCS as int) == program.arcs.len());
        assert(height(p, CUBIC_CURVES as int) == program.cubic_curves.len());
        assert(height(p, QUADRATIC_CURVES as int) == program.quadratic_curves.len());
        assert(height(p, LINES as int) == program.lines.len());
        assert(height(p, STROKERS as int) == program.strokers.len());
        assert(height(p, PATHS as int) == program.paths.len());
        assert(height(p, BACKGROUNDS as int) == program.backgrounds.len());
        assert(height(p, RENDERING_STEPS as int) == program.rendering_steps.len());
    }
    fit
}

/// Lays the program out as the words of a file and the bytes of its names,
/// or tells why it cannot be written.
pub(crate) fn layout(program: &Program) -> (r: ParsingResult<(Vec<u32>, Vec<u8>)>)
    ensures
        r matches Ok((file, names)) ==> {
            &&& encodable(program@)
            &&& file@ == words(program@)
            &&& names@ == text(program@)
        },
        r matches Err(e) ==> refusal(program@) == Some(e),
{
    match program.validate() {
        Ok(()) => {},
        Err(e) => {
            return Err(e);
        },
    }
    if !names_are_plain(program) {
        return Err(ParsingError::InvalidName);
    }
    let (names, offsets) = match write_names(program) {
        Some(written) => written,
        None => {
            return Err(ParsingError::InvalidIndex);
        },
    };
    if !tables_fit(program) {
        return Err(ParsingError::InvalidIndex);
    }
    let runs = path_runs(program);
    let (steps, step_places) = match pool_of(&runs, 2, 2 * 0xFFFF_FFFF + 1) {
        Some(pooled) => pooled,
        None => {
            assert(height(program@, STEPS as int) > 0xFFFF_FFFF);
            return Err(ParsingError::InvalidIndex);
        },
    };
    assert(runs_of(program.backgrounds) =~= program@.backgrounds);
    let (indexes, index_places) = match pool_of(&program.backgrounds, 1, 0xFFFF_FFFF) {
        Some(pooled) => pooled,
        None => {
            assert(height(program@, TRIANGLE_INDEXES as int) > 0xFFFF_FFFF);
            return Err(ParsingError::InvalidIndex);
        },
    };
    proof {
        assert(height(program@, STEPS as int) <= 0xFFFF_FFFF);
        assert(height(program@, TRIANGLE_INDEXES as int) <= 0xFFFF_FFFF);
        assert(sized(program@));
        assert forall|k: int| 0 <= k < step_places.len() implies #[trigger] step_places[k] + 2
            * program.paths[k].len() <= 2 * 0xFFFF_FFFF + 1 by {
            assert(runs[k]@ == step_runs(program@)[k]);
            assert(step_places[k] + runs[k].len() <= steps.len());
        }
        assert forall|k: int| 0 <= k < index_places.len() implies #[trigger] index_places[k]
            + program.backgrounds[k].len() <= 0xFFFF_FFFF by {
            assert(index_places[k] + program.backgrounds[k].len() <= indexes.len());
        }
    }
    let mut out: Vec<u32> = Vec::new();
    let ghost p = program@;
    assert(out@ =~= image(p, 0));
    put_arguments(program, &offsets, &mut out);
    assert(out@ =~= image(p, 1));
    put_instructions(program, &mut out);
    assert(out@ =~= image(p, 2));
    put_outputs(program, &offsets, &mut out);
    assert(out@ =~= image(p, 3));
    put_triangles(program, &mut out);
    assert(out@ =~= image(p, 4));
    put_arcs(program, &mut out);
    assert(out@ =~= image(p, 5));
    put_cubic_curves(program, &mut out);
    assert(out@ =~= image(p, 6));
    put_quadratic_curves(program, &mut out);
    assert(out@ =~= image(p, 7));
    put_lines(program, &mut out);
    assert(out@ =~= image(p, 8));
    put_strokers(program, &mut out);
    assert(out@ =~= image(p, 9));
    put_pool(&steps, 2, &mut out);
    assert(out@ =~= image(p, 10));
    put_paths(program, &step_places, &mut out);
    assert(out@ =~= image(p, 11));
    put_pool(&indexes, 1, &mut out);
    assert(out@ =~= image(p, 12));
    put_backgrounds(program, &index_places, &mut out);
    assert(out@ =~= image(p, 13));
    put_rendering_steps(program, &mut out);
    assert(out@ =~= image(p, 14));
    out.push(names.len() as u32);
    Ok((out, names))
}

} // verus!
