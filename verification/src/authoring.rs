//! Writing a file from a drawing in direct form: rendering steps whose paths
//! and backgrounds hold their primitives and triangles themselves. The
//! tables of the file are gathered from them, each record once.

use vstd::prelude::*;
use crate::computing::{
    Argument, ArgumentView, Instruction, Output, OutputView, ParsingError, ParsingResult,
};
use crate::drawing::{PathStep, RawRenderingStep, RenderingStep, StepType, Stroker, Triangle};
use crate::format::Program;
use crate::layout::ProgramView;
use crate::primitive::{Arc, CubicCurve, Line, QuadraticCurve};
use crate::serialized::{resolved, resolved_background, resolved_path};
use crate::writing::{encodable, encoding, refusal};

verus! {

/// Values that can be told apart by what they stand for.
pub trait Alike: Sized {
    /// What the value stands for.
    type Model;

    spec fn model(&self) -> Self::Model;

    /// Tells whether the two values stand for the same.
    fn alike(&self, other: &Self) -> (r: bool)
        ensures
            r == (self.model() == other.model()),
    ;
}

impl Alike for Arc {
    type Model = Arc;

    open spec fn model(&self) -> Arc {
        *self
    }

    fn alike(&self, other: &Arc) -> (r: bool) {
        self.start_point == other.start_point && self.center == other.center && self.deltas
            == other.deltas
    }
}

impl Alike for CubicCurve {
    type Model = CubicCurve;

    open spec fn model(&self) -> CubicCurve {
        *self
    }

    fn alike(&self, other: &CubicCurve) -> (r: bool) {
        let r = self.points[0] == other.points[0] && self.points[1] == other.points[1]
            && self.points[2] == other.points[2] && self.points[3] == other.points[3];
        assert(r ==> self.points =~= other.points);
        r
    }
}

impl Alike for QuadraticCurve {
    type Model = QuadraticCurve;

    open spec fn model(&self) -> QuadraticCurve {
        *self
    }

    fn alike(&self, other: &QuadraticCurve) -> (r: bool) {
        let r = self.points[0] == other.points[0] && self.points[1] == other.points[1]
            && self.points[2] == other.points[2];
        assert(r ==> self.points =~= other.points);
        r
    }
}

impl Alike for Line {
    type Model = Line;

    open spec fn model(&self) -> Line {
        *self
    }

    fn alike(&self, other: &Line) -> (r: bool) {
        let r = self.points[0] == other.points[0] && self.points[1] == other.points[1];
        assert(r ==> self.points =~= other.points);
        r
    }
}

impl Alike for Stroker {
    type Model = Stroker;

    open spec fn model(&self) -> Stroker {
        *self
    }

    fn alike(&self, other: &Stroker) -> (r: bool) {
        let r = self.pattern == other.pattern && self.width == other.width && self.color[0]
            == other.color[0] && self.color[1] == other.color[1];
        assert(r ==> self.color =~= other.color);
        r
    }
}

impl Alike for Triangle {
    type Model = Triangle;

    open spec fn model(&self) -> Triangle {
        *self
    }

    fn alike(&self, other: &Triangle) -> (r: bool) {
        let r = self.points[0] == other.points[0] && self.points[1] == other.points[1]
            && self.points[2] == other.points[2] && self.colors[0][0] == other.colors[0][0]
            && self.colors[0][1] == other.colors[0][1] && self.colors[1][0] == other.colors[1][0]
            && self.colors[1][1] == other.colors[1][1] && self.colors[2][0] == other.colors[2][0]
            && self.colors[2][1] == other.colors[2][1];
        proof {
            if r {
                assert(self.points =~= other.points);
                assert(self.colors[0] =~= other.colors[0]);
                assert(self.colors[1] =~= other.colors[1]);
                assert(self.colors[2] =~= other.colors[2]);
                assert(self.colors =~= other.colors);
            }
        }
        r
    }
}

impl Alike for Vec<u32> {
    type Model = Seq<u32>;

    open spec fn model(&self) -> Seq<u32> {
        self@
    }

    fn alike(&self, other: &Vec<u32>) -> (r: bool) {
        if self.len() != other.len() {
            return false;
        }
        let mut k: usize = 0;
        while k < self.len()
            invariant
                self.len() == other.len(),
                k <= self.len(),
                forall|j: int| 0 <= j < k ==> self@[j] == other@[j],
            decreases self.len() - k,
        {
            if self[k] != other[k] {
                return false;
            }
            k += 1;
        }
        assert(self@ =~= other@);
        true
    }
}

impl Alike for Vec<(StepType, u32)> {
    type Model = Seq<(StepType, u32)>;

    open spec fn model(&self) -> Seq<(StepType, u32)> {
        self@
    }

    fn alike(&self, other: &Vec<(StepType, u32)>) -> (r: bool) {
        if self.len() != other.len() {
            return false;
        }
        let mut k: usize = 0;
        while k < self.len()
            invariant
                self.len() == other.len(),
                k <= self.len(),
                forall|j: int| 0 <= j < k ==> self@[j] == other@[j],
            decreases self.len() - k,
        {
            let a = self[k];
            let b = other[k];
            if !(a.0 == b.0 && a.1 == b.1) {
                return false;
            }
            k += 1;
        }
        assert(self@ =~= other@);
        true
    }
}

/// What the values of a table stand for, in order.
pub open spec fn models<T: Alike>(table: Vec<T>) -> Seq<T::Model> {
    Seq::new(table.len() as nat, |i: int| table[i].model())
}

/// True when no two places of the table hold the same.
pub open spec fn no_twice<M>(table: Seq<M>) -> bool {
    forall|i: int, j: int| 0 <= i < j < table.len() ==> table[i] != table[j]
}

/// True when `short` is the beginning of `long`.
pub open spec fn begins<M>(long: Seq<M>, short: Seq<M>) -> bool {
    &&& short.len() <= long.len()
    &&& forall|i: int| 0 <= i < short.len() ==> long[i] == short[i]
}

/// The table with `item` in it: as it is where it holds the item, with the
/// item at its end where it does not.
pub open spec fn with_item<M>(table: Seq<M>, item: M) -> Seq<M> {
    if table.contains(item) {
        table
    } else {
        table.push(item)
    }
}

/// The table with each of `items` put in, in order, unless the table holds
/// it by then.
pub open spec fn extended<M>(table: Seq<M>, items: Seq<M>) -> Seq<M>
    decreases items.len(),
{
    if items.len() == 0 {
        table
    } else {
        with_item(extended(table, items.drop_last()), items.last())
    }
}

/// The items without their repetitions, each where it comes first.
pub open spec fn distinct_of<M>(items: Seq<M>) -> Seq<M> {
    extended(Seq::empty(), items)
}

/// The place of `item` in a table that holds it.
pub open spec fn position<M>(table: Seq<M>, item: M) -> int {
    choose|i: int| 0 <= i < table.len() && table[i] == item
}

/// In a table that holds nothing twice, an item has one place only.
pub proof fn lemma_position<M>(table: Seq<M>, item: M, at: int)
    requires
        no_twice(table),
        0 <= at < table.len(),
        table[at] == item,
    ensures
        position(table, item) == at,
        table.contains(item),
{
    let found = position(table, item);
    assert(0 <= found < table.len() && table[found] == item);
    if found < at {
        assert(table[found] != table[at]);
    } else if at < found {
        assert(table[at] != table[found]);
    }
}

/// An item keeps its place when the table grows at its end.
pub proof fn lemma_position_kept<M>(longer: Seq<M>, table: Seq<M>, item: M)
    requires
        begins(longer, table),
        no_twice(longer),
        table.contains(item),
    ensures
        position(longer, item) == position(table, item),
        longer.contains(item),
{
    let at = choose|i: int| 0 <= i < table.len() && table[i] == item;
    assert(longer[at] == item);
    lemma_position(longer, item, at);
}

/// Putting in one list of items and then another is putting in the two, one
/// after the other.
pub proof fn lemma_extended_twice<M>(table: Seq<M>, first: Seq<M>, second: Seq<M>)
    ensures
        extended(extended(table, first), second) == extended(table, first + second),
    decreases second.len(),
{
    if second.len() == 0 {
        assert(first + second =~= first);
    } else {
        lemma_extended_twice(table, first, second.drop_last());
        assert((first + second).drop_last() =~= first + second.drop_last());
        assert((first + second).last() == second.last());
    }
}

/// A table with an item in it holds the item.
pub proof fn lemma_with_item_holds<M>(table: Seq<M>, item: M)
    ensures
        with_item(table, item).contains(item),
{
    if !table.contains(item) {
        assert(table.push(item)[table.len() as int] == item);
    }
}

/// Putting in one more item after a list of items.
pub proof fn lemma_extended_push<M>(table: Seq<M>, items: Seq<M>, item: M)
    ensures
        extended(table, items.push(item)) == with_item(extended(table, items), item),
{
    assert(items.push(item).drop_last() =~= items);
    assert(items.push(item).last() == item);
}

/// Finds the place of what `item` stands for in the table, adding the item
/// at the end where the table does not hold it.
pub fn find_or_push<T: Alike>(table: &mut Vec<T>, item: T) -> (at: usize)
    requires
        no_twice(models(*old(table))),
    ensures
        at < final(table).len(),
        models(*final(table)) == with_item(models(*old(table)), item.model()),
        models(*final(table))[at as int] == item.model(),
        at == position(models(*final(table)), item.model()),
        no_twice(models(*final(table))),
        begins(models(*final(table)), models(*old(table))),
        final(table).len() <= old(table).len() + 1,
        final(table).len() == old(table).len() + 1 ==> at == old(table).len(),
{
    let mut i: usize = 0;
    while i < table.len()
        invariant
            table == old(table),
            no_twice(models(*old(table))),
            i <= table.len(),
            forall|j: int| 0 <= j < i ==> models(*table)[j] != item.model(),
        decreases table.len() - i,
    {
        if table[i].alike(&item) {
            proof {
                lemma_position(models(*table), item.model(), i as int);
            }
            return i;
        }
        i += 1;
    }
    let ghost before = models(*table);
    table.push(item);
    proof {
        let after = models(*table);
        assert forall|j: int| 0 <= j < before.len() implies after[j] == before[j] by {
            assert(table[j] == old(table)[j]);
        }
        assert(after[before.len() as int] == item.model());
        assert(after =~= before.push(item.model()));
        assert(!before.contains(item.model()));
        lemma_position(after, item.model(), i as int);
    }
    i
}

/// A rendering step in direct form: its path holds its primitives, and its
/// background its triangles.
pub type Drawing = RenderingStep<Vec<PathStep>, Vec<Triangle>>;

/// A rendering step in direct form, as sequences.
pub type DrawingView = RenderingStep<Seq<PathStep>, Seq<Triangle>>;

/// The rendering step as sequences.
pub open spec fn drawing_view(drawing: Drawing) -> DrawingView {
    match drawing {
        RenderingStep::Clip(path, background) => RenderingStep::Clip(path@, background@),
        RenderingStep::Stroke(path, stroker) => RenderingStep::Stroke(path@, stroker),
    }
}

/// How many records a drawing can add to the tables at most: one for each
/// step of its path and each triangle of its background, and one each for
/// the path and the background or stroker.
pub open spec fn load_of(drawing: DrawingView) -> nat {
    match drawing {
        RenderingStep::Clip(path, background) => path.len() + background.len() + 2,
        RenderingStep::Stroke(path, _) => path.len() + 2,
    }
}

/// How many records the first `k` drawings can add to the tables at most.
pub open spec fn load(drawings: Seq<DrawingView>, k: int) -> nat
    decreases k,
{
    if k <= 0 {
        0
    } else {
        load(drawings, k - 1) + load_of(drawings[k - 1])
    }
}

/// The load only grows with each drawing.
pub proof fn lemma_load_grows(drawings: Seq<DrawingView>, k: int, n: int)
    requires
        0 <= k <= n,
    ensures
        load(drawings, k) <= load(drawings, n),
    decreases n - k,
{
    if k < n {
        lemma_load_grows(drawings, k, n - 1);
    }
}

/// How many records the tables of primitives, triangles, strokers, paths
/// and backgrounds hold together.
pub open spec fn weight(program: ProgramView) -> nat {
    program.arcs.len() + program.cubic_curves.len() + program.quadratic_curves.len()
        + program.lines.len() + program.triangles.len() + program.strokers.len()
        + program.paths.len() + program.backgrounds.len()
}

/// True when `after` has the arguments, instructions and outputs of
/// `before`, and every other table of `before` is the beginning of that
/// table of `after`.
pub open spec fn extends(after: ProgramView, before: ProgramView) -> bool {
    &&& after.arguments == before.arguments
    &&& after.instructions == before.instructions
    &&& after.outputs == before.outputs
    &&& begins(after.arcs, before.arcs)
    &&& begins(after.cubic_curves, before.cubic_curves)
    &&& begins(after.quadratic_curves, before.quadratic_curves)
    &&& begins(after.lines, before.lines)
    &&& begins(after.triangles, before.triangles)
    &&& begins(after.strokers, before.strokers)
    &&& begins(after.paths, before.paths)
    &&& begins(after.backgrounds, before.backgrounds)
    &&& begins(after.rendering_steps, before.rendering_steps)
}

/// True when no table of primitives, triangles, strokers, paths or
/// backgrounds holds a record twice.
pub open spec fn canonical(program: ProgramView) -> bool {
    &&& no_twice(program.arcs)
    &&& no_twice(program.cubic_curves)
    &&& no_twice(program.quadratic_curves)
    &&& no_twice(program.lines)
    &&& no_twice(program.triangles)
    &&& no_twice(program.strokers)
    &&& no_twice(program.paths)
    &&& no_twice(program.backgrounds)
}

/// True when every index of the paths, the backgrounds and the rendering
/// steps is in the table that it names.
pub open spec fn drawable(program: ProgramView) -> bool {
    &&& forall|p: int, k: int|
        0 <= p < program.paths.len() && 0 <= k < program.paths[p].len() ==> program.step_ok(
            #[trigger] program.paths[p][k],
        )
    &&& forall|g: int, k: int|
        0 <= g < program.backgrounds.len() && 0 <= k < program.backgrounds[g].len()
            ==> #[trigger] program.backgrounds[g][k] < program.triangles.len()
    &&& forall|i: int|
        0 <= i < program.rendering_steps.len() ==> program.rendering_step_ok(
            #[trigger] program.rendering_steps[i],
        )
}

/// The rendering step with its path and its background or stroker written out.
pub open spec fn drawn(program: ProgramView, step: RawRenderingStep) -> DrawingView {
    match step {
        RawRenderingStep::Clip(path, background) => RenderingStep::Clip(
            resolved_path(program, program.paths[path as int]),
            resolved_background(program, program.backgrounds[background as int]),
        ),
        RawRenderingStep::Stroke(path, stroker) => RenderingStep::Stroke(
            resolved_path(program, program.paths[path as int]),
            program.strokers[stroker as int],
        ),
    }
}

/// A step that names a primitive of a program names the same primitive in
/// every program that extends it.
pub proof fn lemma_step_kept(after: ProgramView, before: ProgramView, step: (StepType, u32))
    requires
        extends(after, before),
        before.step_ok(step),
    ensures
        after.step_ok(step),
        resolved(after, step) == resolved(before, step),
{
}

/// A path whose steps name primitives of a program is the same path in every
/// program that extends it.
pub proof fn lemma_path_kept(after: ProgramView, before: ProgramView, path: Seq<(StepType, u32)>)
    requires
        extends(after, before),
        forall|k: int| 0 <= k < path.len() ==> before.step_ok(#[trigger] path[k]),
    ensures
        forall|k: int| 0 <= k < path.len() ==> after.step_ok(#[trigger] path[k]),
        resolved_path(after, path) == resolved_path(before, path),
{
    assert forall|k: int| 0 <= k < path.len() implies after.step_ok(#[trigger] path[k])
        && resolved(after, path[k]) == resolved(before, path[k]) by {
        lemma_step_kept(after, before, path[k]);
    }
    assert(resolved_path(after, path) =~= resolved_path(before, path));
}

/// A background whose indices name triangles of a program is the same
/// background in every program that extends it.
pub proof fn lemma_background_kept(after: ProgramView, before: ProgramView, background: Seq<u32>)
    requires
        extends(after, before),
        forall|k: int| 0 <= k < background.len() ==> #[trigger] background[k] < before.triangles.len(),
    ensures
        forall|k: int| 0 <= k < background.len() ==> #[trigger] background[k] < after.triangles.len(),
        resolved_background(after, background) == resolved_background(before, background),
{
    assert(resolved_background(after, background) =~= resolved_background(before, background));
}

/// What can be drawn from a program can be drawn from every program that
/// extends it, and every rendering step draws the same.
pub proof fn lemma_drawing_kept(after: ProgramView, before: ProgramView)
    requires
        extends(after, before),
        drawable(before),
        forall|p: int, k: int|
            before.paths.len() <= p < after.paths.len() && 0 <= k < after.paths[p].len()
                ==> after.step_ok(#[trigger] after.paths[p][k]),
        forall|g: int, k: int|
            before.backgrounds.len() <= g < after.backgrounds.len() && 0 <= k
                < after.backgrounds[g].len() ==> #[trigger] after.backgrounds[g][k]
                < after.triangles.len(),
        forall|i: int|
            before.rendering_steps.len() <= i < after.rendering_steps.len()
                ==> after.rendering_step_ok(#[trigger] after.rendering_steps[i]),
    ensures
        drawable(after),
        forall|i: int|
            0 <= i < before.rendering_steps.len() ==> drawn(
                after,
                #[trigger] before.rendering_steps[i],
            ) == drawn(before, before.rendering_steps[i]),
{
    assert forall|p: int, k: int|
        0 <= p < after.paths.len() && 0 <= k < after.paths[p].len() implies after.step_ok(
        #[trigger] after.paths[p][k],
    ) by {
        if p < before.paths.len() {
            assert(after.paths[p] == before.paths[p]);
            lemma_step_kept(after, before, before.paths[p][k]);
        }
    }
    assert forall|g: int, k: int|
        0 <= g < after.backgrounds.len() && 0 <= k
            < after.backgrounds[g].len() implies #[trigger] after.backgrounds[g][k]
        < after.triangles.len() by {
        if g < before.backgrounds.len() {
            assert(after.backgrounds[g] == before.backgrounds[g]);
            assert(before.backgrounds[g][k] < before.triangles.len());
        }
    }
    assert forall|i: int| 0 <= i < after.rendering_steps.len() implies after.rendering_step_ok(
        #[trigger] after.rendering_steps[i],
    ) by {
        if i < before.rendering_steps.len() {
            assert(after.rendering_steps[i] == before.rendering_steps[i]);
            assert(before.rendering_step_ok(before.rendering_steps[i]));
        }
    }
    assert forall|i: int| 0 <= i < before.rendering_steps.len() implies drawn(
        after,
        #[trigger] before.rendering_steps[i],
    ) == drawn(before, before.rendering_steps[i]) by {
        let step = before.rendering_steps[i];
        assert(before.rendering_step_ok(step));
        match step {
            RawRenderingStep::Clip(path, background) => {
                assert(after.paths[path as int] == before.paths[path as int]);
                assert(after.backgrounds[background as int] == before.backgrounds[background as int]);
                lemma_path_kept(after, before, before.paths[path as int]);
                lemma_background_kept(after, before, before.backgrounds[background as int]);
            },
            RawRenderingStep::Stroke(path, stroker) => {
                assert(after.paths[path as int] == before.paths[path as int]);
                lemma_path_kept(after, before, before.paths[path as int]);
            },
        }
    }
}

/// The path of a drawing.
pub open spec fn path_of(drawing: DrawingView) -> Seq<PathStep> {
    match drawing {
        RenderingStep::Clip(path, _) => path,
        RenderingStep::Stroke(path, _) => path,
    }
}

/// The four tables of primitives.
pub struct Primitives {
    pub arcs: Seq<Arc>,
    pub cubic_curves: Seq<CubicCurve>,
    pub quadratic_curves: Seq<QuadraticCurve>,
    pub lines: Seq<Line>,
}

/// The four tables of primitives of a program.
pub open spec fn primitives_of(program: ProgramView) -> Primitives {
    Primitives {
        arcs: program.arcs,
        cubic_curves: program.cubic_curves,
        quadratic_curves: program.quadratic_curves,
        lines: program.lines,
    }
}

/// The tables with the primitive of a step put into the table of its kind.
pub open spec fn put_step(tables: Primitives, step: PathStep) -> Primitives {
    match step {
        PathStep::Arc(arc) => Primitives { arcs: with_item(tables.arcs, arc), ..tables },
        PathStep::CubicCurve(curve) => Primitives {
            cubic_curves: with_item(tables.cubic_curves, curve),
            ..tables
        },
        PathStep::QuadraticCurve(curve) => Primitives {
            quadratic_curves: with_item(tables.quadratic_curves, curve),
            ..tables
        },
        PathStep::Line(line) => Primitives { lines: with_item(tables.lines, line), ..tables },
    }
}

/// The tables with the primitives of some steps put in, in order.
pub open spec fn put_steps(tables: Primitives, steps: Seq<PathStep>) -> Primitives
    decreases steps.len(),
{
    if steps.len() == 0 {
        tables
    } else {
        put_step(put_steps(tables, steps.drop_last()), steps.last())
    }
}

/// True when the table of its kind holds the primitive of the step.
pub open spec fn step_present(tables: Primitives, step: PathStep) -> bool {
    match step {
        PathStep::Arc(arc) => tables.arcs.contains(arc),
        PathStep::CubicCurve(curve) => tables.cubic_curves.contains(curve),
        PathStep::QuadraticCurve(curve) => tables.quadratic_curves.contains(curve),
        PathStep::Line(line) => tables.lines.contains(line),
    }
}

/// The step by kind and index: where its primitive stands in the table of its kind.
pub open spec fn step_index(tables: Primitives, step: PathStep) -> (StepType, u32) {
    match step {
        PathStep::Arc(arc) => (StepType::Arc, position(tables.arcs, arc) as u32),
        PathStep::CubicCurve(curve) => (
            StepType::CubicCurve,
            position(tables.cubic_curves, curve) as u32,
        ),
        PathStep::QuadraticCurve(curve) => (
            StepType::QuadraticCurve,
            position(tables.quadratic_curves, curve) as u32,
        ),
        PathStep::Line(line) => (StepType::Line, position(tables.lines, line) as u32),
    }
}

/// The path by kind and index of each of its steps.
pub open spec fn path_indices(tables: Primitives, path: Seq<PathStep>) -> Seq<(StepType, u32)> {
    Seq::new(path.len(), |j: int| step_index(tables, path[j]))
}

/// The background by the index of each of its triangles.
pub open spec fn background_indices(triangles: Seq<Triangle>, background: Seq<Triangle>) -> Seq<
    u32,
> {
    Seq::new(background.len(), |j: int| position(triangles, background[j]) as u32)
}

/// The steps of the paths of the first `k` drawings, one path after the other.
pub open spec fn steps_upto(drawings: Seq<DrawingView>, k: int) -> Seq<PathStep>
    decreases k,
{
    if k <= 0 {
        Seq::empty()
    } else {
        steps_upto(drawings, k - 1) + path_of(drawings[k - 1])
    }
}

/// The triangles of the backgrounds of the first `k` drawings, one
/// background after the other.
pub open spec fn triangles_upto(drawings: Seq<DrawingView>, k: int) -> Seq<Triangle>
    decreases k,
{
    if k <= 0 {
        Seq::empty()
    } else {
        match drawings[k - 1] {
            RenderingStep::Clip(_, background) => triangles_upto(drawings, k - 1) + background,
            RenderingStep::Stroke(_, _) => triangles_upto(drawings, k - 1),
        }
    }
}

/// The strokers of the first `k` drawings, in order.
pub open spec fn strokers_upto(drawings: Seq<DrawingView>, k: int) -> Seq<Stroker>
    decreases k,
{
    if k <= 0 {
        Seq::empty()
    } else {
        match drawings[k - 1] {
            RenderingStep::Clip(_, _) => strokers_upto(drawings, k - 1),
            RenderingStep::Stroke(_, stroker) => strokers_upto(drawings, k - 1).push(stroker),
        }
    }
}

/// The paths of the first `k` drawings, each by kind and index of its steps.
pub open spec fn path_uses(tables: Primitives, drawings: Seq<DrawingView>, k: int) -> Seq<
    Seq<(StepType, u32)>,
> {
    Seq::new(k as nat, |i: int| path_indices(tables, path_of(drawings[i])))
}

/// The backgrounds of the first `k` drawings, each by the index of its triangles.
pub open spec fn background_uses(
    triangles: Seq<Triangle>,
    drawings: Seq<DrawingView>,
    k: int,
) -> Seq<Seq<u32>>
    decreases k,
{
    if k <= 0 {
        Seq::empty()
    } else {
        match drawings[k - 1] {
            RenderingStep::Clip(_, background) => background_uses(triangles, drawings, k - 1).push(
                background_indices(triangles, background),
            ),
            RenderingStep::Stroke(_, _) => background_uses(triangles, drawings, k - 1),
        }
    }
}

/// The rendering step of a drawing: its path, and its background or
/// stroker, each by where it stands in its table.
pub open spec fn raw_step(program: ProgramView, drawing: DrawingView) -> RawRenderingStep {
    match drawing {
        RenderingStep::Clip(path, background) => RawRenderingStep::Clip(
            position(program.paths, path_indices(primitives_of(program), path)) as u32,
            position(
                program.backgrounds,
                background_indices(program.triangles, background),
            ) as u32,
        ),
        RenderingStep::Stroke(path, stroker) => RawRenderingStep::Stroke(
            position(program.paths, path_indices(primitives_of(program), path)) as u32,
            position(program.strokers, stroker) as u32,
        ),
    }
}

/// The program that is gathered from drawings in direct form. Each table
/// holds what the drawings use, without repetition, each record where it is
/// first used: the primitives of the steps of the paths, the triangles of
/// the backgrounds, the strokers, then the paths and the backgrounds
/// themselves by index. The rendering steps name them by their place.
pub open spec fn assembled(
    arguments: Seq<ArgumentView>,
    instructions: Seq<Instruction>,
    outputs: Seq<OutputView>,
    drawings: Seq<DrawingView>,
) -> ProgramView {
    let n = drawings.len() as int;
    let tables = put_steps(no_primitives(), steps_upto(drawings, n));
    let triangles = distinct_of(triangles_upto(drawings, n));
    let tabled = ProgramView {
        arguments,
        instructions,
        outputs,
        triangles,
        arcs: tables.arcs,
        cubic_curves: tables.cubic_curves,
        quadratic_curves: tables.quadratic_curves,
        lines: tables.lines,
        strokers: distinct_of(strokers_upto(drawings, n)),
        paths: distinct_of(path_uses(tables, drawings, n)),
        backgrounds: distinct_of(background_uses(triangles, drawings, n)),
        rendering_steps: Seq::empty(),
    };
    ProgramView {
        rendering_steps: Seq::new(n as nat, |i: int| raw_step(tabled, drawings[i])),
        ..tabled
    }
}

/// True when the tables of the program hold all that the drawing uses: the
/// primitives of its path and the path itself, and its triangles and
/// background or its stroker.
pub open spec fn present(program: ProgramView, drawing: DrawingView) -> bool {
    let tables = primitives_of(program);
    &&& forall|j: int|
        0 <= j < path_of(drawing).len() ==> step_present(tables, #[trigger] path_of(drawing)[j])
    &&& program.paths.contains(path_indices(tables, path_of(drawing)))
    &&& match drawing {
        RenderingStep::Clip(_, background) => {
            &&& forall|j: int|
                0 <= j < background.len() ==> program.triangles.contains(#[trigger] background[j])
            &&& program.backgrounds.contains(background_indices(program.triangles, background))
        },
        RenderingStep::Stroke(_, stroker) => program.strokers.contains(stroker),
    }
}

/// A step keeps its index when the tables of primitives grow.
pub proof fn lemma_step_index_kept(after: Primitives, before: Primitives, step: PathStep)
    requires
        begins(after.arcs, before.arcs),
        begins(after.cubic_curves, before.cubic_curves),
        begins(after.quadratic_curves, before.quadratic_curves),
        begins(after.lines, before.lines),
        no_twice(after.arcs),
        no_twice(after.cubic_curves),
        no_twice(after.quadratic_curves),
        no_twice(after.lines),
        step_present(before, step),
    ensures
        step_present(after, step),
        step_index(after, step) == step_index(before, step),
{
    match step {
        PathStep::Arc(arc) => lemma_position_kept(after.arcs, before.arcs, arc),
        PathStep::CubicCurve(curve) => lemma_position_kept(
            after.cubic_curves,
            before.cubic_curves,
            curve,
        ),
        PathStep::QuadraticCurve(curve) => lemma_position_kept(
            after.quadratic_curves,
            before.quadratic_curves,
            curve,
        ),
        PathStep::Line(line) => lemma_position_kept(after.lines, before.lines, line),
    }
}

/// A path keeps its indices when the tables of primitives grow.
pub proof fn lemma_path_indices_kept(after: Primitives, before: Primitives, path: Seq<PathStep>)
    requires
        begins(after.arcs, before.arcs),
        begins(after.cubic_curves, before.cubic_curves),
        begins(after.quadratic_curves, before.quadratic_curves),
        begins(after.lines, before.lines),
        no_twice(after.arcs),
        no_twice(after.cubic_curves),
        no_twice(after.quadratic_curves),
        no_twice(after.lines),
        forall|j: int| 0 <= j < path.len() ==> step_present(before, #[trigger] path[j]),
    ensures
        forall|j: int| 0 <= j < path.len() ==> step_present(after, #[trigger] path[j]),
        path_indices(after, path) == path_indices(before, path),
{
    assert forall|j: int| 0 <= j < path.len() implies step_present(after, #[trigger] path[j])
        && step_index(after, path[j]) == step_index(before, path[j]) by {
        lemma_step_index_kept(after, before, path[j]);
    }
    assert(path_indices(after, path) =~= path_indices(before, path));
}

/// A background keeps its indices when the table of triangles grows.
pub proof fn lemma_background_indices_kept(
    after: Seq<Triangle>,
    before: Seq<Triangle>,
    background: Seq<Triangle>,
)
    requires
        begins(after, before),
        no_twice(after),
        forall|j: int| 0 <= j < background.len() ==> before.contains(#[trigger] background[j]),
    ensures
        forall|j: int| 0 <= j < background.len() ==> after.contains(#[trigger] background[j]),
        background_indices(after, background) == background_indices(before, background),
{
    assert forall|j: int| 0 <= j < background.len() implies after.contains(
        #[trigger] background[j],
    ) && position(after, background[j]) == position(before, background[j]) by {
        lemma_position_kept(after, before, background[j]);
    }
    assert(background_indices(after, background) =~= background_indices(before, background));
}

/// What a program holds of a drawing, every program that extends it holds
/// at the same places.
pub proof fn lemma_present_kept(after: ProgramView, before: ProgramView, drawing: DrawingView)
    requires
        extends(after, before),
        canonical(after),
        present(before, drawing),
    ensures
        present(after, drawing),
        path_indices(primitives_of(after), path_of(drawing)) == path_indices(
            primitives_of(before),
            path_of(drawing),
        ),
        drawing matches RenderingStep::Clip(_, background) ==> background_indices(
            after.triangles,
            background,
        ) == background_indices(before.triangles, background),
        raw_step(after, drawing) == raw_step(before, drawing),
{
    lemma_path_indices_kept(primitives_of(after), primitives_of(before), path_of(drawing));
    let path = path_indices(primitives_of(before), path_of(drawing));
    lemma_position_kept(after.paths, before.paths, path);
    match drawing {
        RenderingStep::Clip(_, background) => {
            lemma_background_indices_kept(after.triangles, before.triangles, background);
            lemma_position_kept(
                after.backgrounds,
                before.backgrounds,
                background_indices(before.triangles, background),
            );
        },
        RenderingStep::Stroke(_, stroker) => {
            lemma_position_kept(after.strokers, before.strokers, stroker);
        },
    }
}

/// The backgrounds that were used keep their indices when the table of
/// triangles grows.
pub proof fn lemma_background_uses_kept(
    after: Seq<Triangle>,
    before: Seq<Triangle>,
    drawings: Seq<DrawingView>,
    k: int,
)
    requires
        0 <= k <= drawings.len(),
        begins(after, before),
        no_twice(after),
        forall|i: int|
            0 <= i < k ==> (#[trigger] drawings[i] matches RenderingStep::Clip(_, background)
                ==> forall|j: int|
                0 <= j < background.len() ==> before.contains(#[trigger] background[j])),
    ensures
        background_uses(after, drawings, k) == background_uses(before, drawings, k),
    decreases k,
{
    if k > 0 {
        lemma_background_uses_kept(after, before, drawings, k - 1);
        match drawings[k - 1] {
            RenderingStep::Clip(_, background) => {
                lemma_background_indices_kept(after, before, background);
            },
            RenderingStep::Stroke(_, _) => {},
        }
    }
}

/// Putting in the primitives of one run of steps and then of another is
/// putting in those of the two, one after the other.
pub proof fn lemma_put_steps_twice(tables: Primitives, first: Seq<PathStep>, second: Seq<PathStep>)
    ensures
        put_steps(put_steps(tables, first), second) == put_steps(tables, first + second),
    decreases second.len(),
{
    if second.len() == 0 {
        assert(first + second =~= first);
    } else {
        lemma_put_steps_twice(tables, first, second.drop_last());
        assert((first + second).drop_last() =~= first + second.drop_last());
        assert((first + second).last() == second.last());
    }
}

/// The tables of primitives with nothing in them.
pub open spec fn no_primitives() -> Primitives {
    Primitives {
        arcs: Seq::empty(),
        cubic_curves: Seq::empty(),
        quadratic_curves: Seq::empty(),
        lines: Seq::empty(),
    }
}

/// True when the tables of the program are those gathered from the first
/// `k` drawings.
pub open spec fn gathered(program: ProgramView, drawings: Seq<DrawingView>, k: int) -> bool {
    &&& primitives_of(program) == put_steps(no_primitives(), steps_upto(drawings, k))
    &&& program.triangles == distinct_of(triangles_upto(drawings, k))
    &&& program.strokers == distinct_of(strokers_upto(drawings, k))
    &&& program.paths == distinct_of(path_uses(primitives_of(program), drawings, k))
    &&& program.backgrounds == distinct_of(background_uses(program.triangles, drawings, k))
    &&& program.rendering_steps.len() == k
    &&& forall|i: int| 0 <= i < k ==> present(program, #[trigger] drawings[i])
    &&& forall|i: int|
        0 <= i < k ==> #[trigger] program.rendering_steps[i] == raw_step(program, drawings[i])
}

/// A program whose tables are gathered from all the drawings is the program
/// that is gathered from them.
pub proof fn lemma_gathered_is_assembled(program: ProgramView, drawings: Seq<DrawingView>)
    requires
        gathered(program, drawings, drawings.len() as int),
    ensures
        program == assembled(program.arguments, program.instructions, program.outputs, drawings),
{
    let n = drawings.len() as int;
    let whole = assembled(program.arguments, program.instructions, program.outputs, drawings);
    let tables = put_steps(no_primitives(), steps_upto(drawings, n));
    assert(primitives_of(program) == tables);
    assert(whole.paths == program.paths);
    assert(whole.backgrounds == program.backgrounds);
    assert forall|i: int| 0 <= i < n implies whole.rendering_steps[i]
        == program.rendering_steps[i] by {
        let tabled = ProgramView { rendering_steps: Seq::empty(), ..program };
        assert(primitives_of(tabled) == primitives_of(program));
        assert(raw_step(tabled, drawings[i]) == raw_step(program, drawings[i]));
    }
    assert(whole.rendering_steps =~= program.rendering_steps);
}

/// The tables gathered from the first drawings, once a background and a
/// path have been put in and their rendering step is added, are those
/// gathered from one drawing more.
pub proof fn lemma_gathered_clip(
    first: ProgramView,
    middle: ProgramView,
    ready: ProgramView,
    last: ProgramView,
    drawings: Seq<DrawingView>,
    k: int,
    path: Seq<PathStep>,
    background: Seq<Triangle>,
    p: u32,
    b: u32,
)
    requires
        0 <= k < drawings.len(),
        drawings[k] == RenderingStep::<Seq<PathStep>, Seq<Triangle>>::Clip(path, background),
        gathered(first, drawings, k),
        extends(middle, first),
        canonical(middle),
        primitives_of(middle) == primitives_of(first),
        middle.strokers == first.strokers,
        middle.paths == first.paths,
        middle.triangles == extended(first.triangles, background),
        forall|j: int| 0 <= j < background.len() ==> middle.triangles.contains(#[trigger] background[j]),
        middle.backgrounds == with_item(
            first.backgrounds,
            background_indices(middle.triangles, background),
        ),
        b == position(middle.backgrounds, background_indices(middle.triangles, background)),
        extends(ready, middle),
        canonical(ready),
        ready.triangles == middle.triangles,
        ready.strokers == middle.strokers,
        ready.backgrounds == middle.backgrounds,
        primitives_of(ready) == put_steps(primitives_of(middle), path),
        forall|j: int| 0 <= j < path.len() ==> step_present(primitives_of(ready), #[trigger] path[j]),
        ready.paths == with_item(middle.paths, path_indices(primitives_of(ready), path)),
        p == position(ready.paths, path_indices(primitives_of(ready), path)),
        ready.rendering_steps == first.rendering_steps,
        last == (ProgramView {
            rendering_steps: ready.rendering_steps.push(RawRenderingStep::Clip(p, b)),
            ..ready
        }),
    ensures
        gathered(last, drawings, k + 1),
{
    let now = RenderingStep::<Seq<PathStep>, Seq<Triangle>>::Clip(path, background);
    // The triangles.
    lemma_extended_twice(Seq::empty(), triangles_upto(drawings, k), background);
    // The backgrounds.
    assert forall|i: int| 0 <= i < k implies (#[trigger] drawings[i] matches RenderingStep::Clip(
        _,
        other,
    ) ==> forall|j: int| 0 <= j < other.len() ==> first.triangles.contains(#[trigger] other[j])) by {
        assert(present(first, drawings[i]));
    }
    lemma_background_uses_kept(middle.triangles, first.triangles, drawings, k);
    lemma_extended_push(
        Seq::empty(),
        background_uses(middle.triangles, drawings, k),
        background_indices(middle.triangles, background),
    );
    // The primitives.
    lemma_put_steps_twice(no_primitives(), steps_upto(drawings, k), path);
    // The paths.
    assert forall|i: int| 0 <= i < k implies present(ready, #[trigger] drawings[i])
        && path_indices(primitives_of(ready), path_of(drawings[i])) == path_indices(
        primitives_of(first),
        path_of(drawings[i]),
    ) && raw_step(ready, drawings[i]) == raw_step(first, drawings[i]) by {
        lemma_present_kept(middle, first, drawings[i]);
        lemma_present_kept(ready, middle, drawings[i]);
    }
    assert(path_uses(primitives_of(ready), drawings, k) =~= path_uses(
        primitives_of(first),
        drawings,
        k,
    ));
    lemma_extended_push(
        Seq::empty(),
        path_uses(primitives_of(ready), drawings, k),
        path_indices(primitives_of(ready), path),
    );
    assert(path_uses(primitives_of(ready), drawings, k + 1) =~= path_uses(
        primitives_of(ready),
        drawings,
        k,
    ).push(path_indices(primitives_of(ready), path)));
    // What holds of the program with its new rendering step.
    assert(primitives_of(last) == primitives_of(ready));
    lemma_with_item_holds(middle.paths, path_indices(primitives_of(ready), path));
    lemma_with_item_holds(first.backgrounds, background_indices(middle.triangles, background));
    assert(path_of(now) == path);
    assert(present(ready, now));
    assert(raw_step(ready, now) == RawRenderingStep::Clip(p, b));
    assert forall|i: int| 0 <= i < k + 1 implies present(last, #[trigger] drawings[i]) by {
        assert(present(ready, drawings[i]));
    }
    assert forall|i: int| 0 <= i < k + 1 implies #[trigger] last.rendering_steps[i] == raw_step(
        last,
        drawings[i],
    ) by {
        assert(raw_step(last, drawings[i]) == raw_step(ready, drawings[i]));
        if i < k {
            assert(last.rendering_steps[i] == first.rendering_steps[i]);
        }
    }
}

/// The tables gathered from the first drawings, once a stroker and a path
/// have been put in and their rendering step is added, are those gathered
/// from one drawing more.
pub proof fn lemma_gathered_stroke(
    first: ProgramView,
    middle: ProgramView,
    ready: ProgramView,
    last: ProgramView,
    drawings: Seq<DrawingView>,
    k: int,
    path: Seq<PathStep>,
    stroker: Stroker,
    p: u32,
    s: u32,
)
    requires
        0 <= k < drawings.len(),
        drawings[k] == RenderingStep::<Seq<PathStep>, Seq<Triangle>>::Stroke(path, stroker),
        gathered(first, drawings, k),
        extends(middle, first),
        canonical(middle),
        primitives_of(middle) == primitives_of(first),
        middle.triangles == first.triangles,
        middle.backgrounds == first.backgrounds,
        middle.paths == first.paths,
        middle.strokers == with_item(first.strokers, stroker),
        s == position(middle.strokers, stroker),
        extends(ready, middle),
        canonical(ready),
        ready.triangles == middle.triangles,
        ready.strokers == middle.strokers,
        ready.backgrounds == middle.backgrounds,
        primitives_of(ready) == put_steps(primitives_of(middle), path),
        forall|j: int| 0 <= j < path.len() ==> step_present(primitives_of(ready), #[trigger] path[j]),
        ready.paths == with_item(middle.paths, path_indices(primitives_of(ready), path)),
        p == position(ready.paths, path_indices(primitives_of(ready), path)),
        ready.rendering_steps == first.rendering_steps,
        last == (ProgramView {
            rendering_steps: ready.rendering_steps.push(RawRenderingStep::Stroke(p, s)),
            ..ready
        }),
    ensures
        gathered(last, drawings, k + 1),
{
    let now = RenderingStep::<Seq<PathStep>, Seq<Triangle>>::Stroke(path, stroker);
    // The strokers.
    lemma_extended_push(Seq::empty(), strokers_upto(drawings, k), stroker);
    // The primitives.
    lemma_put_steps_twice(no_primitives(), steps_upto(drawings, k), path);
    // The paths.
    assert forall|i: int| 0 <= i < k implies present(ready, #[trigger] drawings[i])
        && path_indices(primitives_of(ready), path_of(drawings[i])) == path_indices(
        primitives_of(first),
        path_of(drawings[i]),
    ) && raw_step(ready, drawings[i]) == raw_step(first, drawings[i]) by {
        lemma_present_kept(middle, first, drawings[i]);
        lemma_present_kept(ready, middle, drawings[i]);
    }
    assert(path_uses(primitives_of(ready), drawings, k) =~= path_uses(
        primitives_of(first),
        drawings,
        k,
    ));
    lemma_extended_push(
        Seq::empty(),
        path_uses(primitives_of(ready), drawings, k),
        path_indices(primitives_of(ready), path),
    );
    assert(path_uses(primitives_of(ready), drawings, k + 1) =~= path_uses(
        primitives_of(ready),
        drawings,
        k,
    ).push(path_indices(primitives_of(ready), path)));
    // What holds of the program with its new rendering step.
    assert(primitives_of(last) == primitives_of(ready));
    lemma_with_item_holds(middle.paths, path_indices(primitives_of(ready), path));
    lemma_with_item_holds(first.strokers, stroker);
    assert(path_of(now) == path);
    assert(present(ready, now));
    assert(raw_step(ready, now) == RawRenderingStep::Stroke(p, s));
    assert forall|i: int| 0 <= i < k + 1 implies present(last, #[trigger] drawings[i]) by {
        assert(present(ready, drawings[i]));
    }
    assert forall|i: int| 0 <= i < k + 1 implies #[trigger] last.rendering_steps[i] == raw_step(
        last,
        drawings[i],
    ) by {
        assert(raw_step(last, drawings[i]) == raw_step(ready, drawings[i]));
        if i < k {
            assert(last.rendering_steps[i] == first.rendering_steps[i]);
        }
    }
}

/// True when `after` differs from `before` in its tables of primitives only.
pub open spec fn same_drawing(after: ProgramView, before: ProgramView) -> bool {
    &&& after.triangles == before.triangles
    &&& after.strokers == before.strokers
    &&& after.paths == before.paths
    &&& after.backgrounds == before.backgrounds
    &&& after.rendering_steps == before.rendering_steps
}

/// Puts the primitive of a step into its table, unless the table holds it,
/// and gives the step by kind and index; nothing where the index does not
/// fit 32 bits.
fn add_primitive(program: &mut Program, step: &PathStep) -> (r: Option<(StepType, u32)>)
    requires
        canonical(old(program)@),
    ensures
        extends(final(program)@, old(program)@),
        same_drawing(final(program)@, old(program)@),
        canonical(final(program)@),
        weight(final(program)@) <= weight(old(program)@) + 1,
        r matches Some(s) ==> final(program)@.step_ok(s) && resolved(final(program)@, s) == *step,
        r is None ==> weight(final(program)@) > 0xFFFF_FFFF,
        primitives_of(final(program)@) == put_step(primitives_of(old(program)@), *step),
        step_present(primitives_of(final(program)@), *step),
        r matches Some(s) ==> s == step_index(primitives_of(final(program)@), *step),
{
    proof {
        assert(models(program.arcs) =~= program@.arcs);
        assert(models(program.cubic_curves) =~= program@.cubic_curves);
        assert(models(program.quadratic_curves) =~= program@.quadratic_curves);
        assert(models(program.lines) =~= program@.lines);
    }
    let (kind, at) = match step {
        PathStep::Arc(arc) => {
            let at = find_or_push(&mut program.arcs, *arc);
            assert(models(program.arcs) =~= program@.arcs);
            (StepType::Arc, at)
        },
        PathStep::CubicCurve(curve) => {
            let at = find_or_push(&mut program.cubic_curves, *curve);
            assert(models(program.cubic_curves) =~= program@.cubic_curves);
            (StepType::CubicCurve, at)
        },
        PathStep::QuadraticCurve(curve) => {
            let at = find_or_push(&mut program.quadratic_curves, *curve);
            assert(models(program.quadratic_curves) =~= program@.quadratic_curves);
            (StepType::QuadraticCurve, at)
        },
        PathStep::Line(line) => {
            let at = find_or_push(&mut program.lines, *line);
            assert(models(program.lines) =~= program@.lines);
            (StepType::Line, at)
        },
    };
    proof {
        assert(program@.arguments =~= old(program)@.arguments);
        assert(program@.outputs =~= old(program)@.outputs);
        assert(program@.paths =~= old(program)@.paths);
        assert(program@.backgrounds =~= old(program)@.backgrounds);
    }
    if at > 0xFFFF_FFFF {
        None
    } else {
        Some((kind, at as u32))
    }
}

/// Puts a path into the table of paths, unless the table holds it, with
/// the primitives of its steps, and gives its index; nothing where an index
/// does not fit 32 bits.
fn add_path(program: &mut Program, path: &Vec<PathStep>) -> (r: Option<u32>)
    requires
        canonical(old(program)@),
        drawable(old(program)@),
    ensures
        extends(final(program)@, old(program)@),
        final(program)@.triangles == old(program)@.triangles,
        final(program)@.strokers == old(program)@.strokers,
        final(program)@.backgrounds == old(program)@.backgrounds,
        final(program)@.rendering_steps == old(program)@.rendering_steps,
        canonical(final(program)@),
        drawable(final(program)@),
        forall|i: int|
            0 <= i < old(program)@.rendering_steps.len() ==> drawn(
                final(program)@,
                #[trigger] old(program)@.rendering_steps[i],
            ) == drawn(old(program)@, old(program)@.rendering_steps[i]),
        weight(final(program)@) <= weight(old(program)@) + path.len() + 1,
        r matches Some(i) ==> i < final(program)@.paths.len() && resolved_path(
            final(program)@,
            final(program)@.paths[i as int],
        ) == path@,
        r is None ==> weight(final(program)@) > 0xFFFF_FFFF,
        r matches Some(i) ==> {
            &&& primitives_of(final(program)@) == put_steps(primitives_of(old(program)@), path@)
            &&& forall|j: int|
                0 <= j < path.len() ==> step_present(
                    primitives_of(final(program)@),
                    #[trigger] path@[j],
                )
            &&& final(program)@.paths == with_item(
                old(program)@.paths,
                path_indices(primitives_of(final(program)@), path@),
            )
            &&& i == position(
                final(program)@.paths,
                path_indices(primitives_of(final(program)@), path@),
            )
        },
{
    let ghost first = program@;
    let mut steps: Vec<(StepType, u32)> = Vec::new();
    let mut k: usize = 0;
    while k < path.len()
        invariant
            first == old(program)@,
            canonical(first),
            drawable(first),
            k <= path.len(),
            extends(program@, first),
            same_drawing(program@, first),
            canonical(program@),
            weight(program@) <= weight(first) + k,
            steps.len() == k,
            forall|j: int| 0 <= j < k ==> program@.step_ok(#[trigger] steps@[j]),
            forall|j: int| 0 <= j < k ==> resolved(program@, #[trigger] steps@[j]) == path@[j],
            primitives_of(program@) == put_steps(primitives_of(first), path@.take(k as int)),
            forall|j: int|
                0 <= j < k ==> step_present(primitives_of(program@), #[trigger] path@[j]),
            steps@ == path_indices(primitives_of(program@), path@.take(k as int)),
        decreases path.len() - k,
    {
        let ghost held = program@;
        let ghost walked = steps@;
        match add_primitive(program, &path[k]) {
            Some(step) => {
                proof {
                    assert forall|j: int| 0 <= j < k implies program@.step_ok(
                        #[trigger] steps@[j],
                    ) && resolved(program@, steps@[j]) == path@[j] by {
                        lemma_step_kept(program@, held, steps@[j]);
                    }
                    let before = path@.take(k as int);
                    let after = path@.take(k + 1);
                    assert(after.drop_last() =~= before);
                    assert(after.last() == path@[k as int]);
                    assert forall|j: int| 0 <= j < before.len() implies step_present(
                        primitives_of(held),
                        #[trigger] before[j],
                    ) by {
                        assert(before[j] == path@[j]);
                    }
                    lemma_path_indices_kept(primitives_of(program@), primitives_of(held), before);
                    assert forall|j: int| 0 <= j < k + 1 implies step_present(
                        primitives_of(program@),
                        #[trigger] path@[j],
                    ) by {
                        if j < k {
                            assert(before[j] == path@[j]);
                        }
                    }
                    assert(walked.push(step) =~= path_indices(primitives_of(program@), after));
                }
                steps.push(step);
            },
            None => {
                proof {
                    lemma_drawing_kept(program@, first);
                }
                return None;
            },
        }
        k += 1;
    }
    let ghost held = program@;
    let ghost indices = steps@;
    proof {
        assert(models(program.paths) =~= program@.paths);
        assert(path@.take(path.len() as int) =~= path@);
    }
    let at = find_or_push(&mut program.paths, steps);
    proof {
        assert(models(program.paths) =~= program@.paths);
        assert(primitives_of(program@) == primitives_of(held));
        assert(program@.arguments =~= held.arguments);
        assert(program@.outputs =~= held.outputs);
        assert(program@.backgrounds =~= held.backgrounds);
        assert(program@.paths[at as int] == indices);
        assert forall|p: int, j: int|
            first.paths.len() <= p < program@.paths.len() && 0 <= j
                < program@.paths[p].len() implies program@.step_ok(
            #[trigger] program@.paths[p][j],
        ) by {
            assert(p == at);
        }
        lemma_drawing_kept(program@, first);
        assert(resolved_path(program@, indices) =~= path@);
    }
    if at > 0xFFFF_FFFF {
        None
    } else {
        Some(at as u32)
    }
}

/// Puts a background into the table of backgrounds, unless the table holds
/// it, with its triangles, and gives its index; nothing where an index does
/// not fit 32 bits.
fn add_background(program: &mut Program, background: &Vec<Triangle>) -> (r: Option<u32>)
    requires
        canonical(old(program)@),
        drawable(old(program)@),
    ensures
        extends(final(program)@, old(program)@),
        final(program)@.arcs == old(program)@.arcs,
        final(program)@.cubic_curves == old(program)@.cubic_curves,
        final(program)@.quadratic_curves == old(program)@.quadratic_curves,
        final(program)@.lines == old(program)@.lines,
        final(program)@.strokers == old(program)@.strokers,
        final(program)@.paths == old(program)@.paths,
        final(program)@.rendering_steps == old(program)@.rendering_steps,
        canonical(final(program)@),
        drawable(final(program)@),
        forall|i: int|
            0 <= i < old(program)@.rendering_steps.len() ==> drawn(
                final(program)@,
                #[trigger] old(program)@.rendering_steps[i],
            ) == drawn(old(program)@, old(program)@.rendering_steps[i]),
        weight(final(program)@) <= weight(old(program)@) + background.len() + 1,
        r matches Some(i) ==> i < final(program)@.backgrounds.len() && resolved_background(
            final(program)@,
            final(program)@.backgrounds[i as int],
        ) == background@,
        r is None ==> weight(final(program)@) > 0xFFFF_FFFF,
        r matches Some(i) ==> {
            &&& final(program)@.triangles == extended(old(program)@.triangles, background@)
            &&& forall|j: int|
                0 <= j < background.len() ==> final(program)@.triangles.contains(
                    #[trigger] background@[j],
                )
            &&& final(program)@.backgrounds == with_item(
                old(program)@.backgrounds,
                background_indices(final(program)@.triangles, background@),
            )
            &&& i == position(
                final(program)@.backgrounds,
                background_indices(final(program)@.triangles, background@),
            )
        },
{
    let ghost first = program@;
    let mut indexes: Vec<u32> = Vec::new();
    let mut k: usize = 0;
    while k < background.len()
        invariant
            first == old(program)@,
            canonical(first),
            drawable(first),
            k <= background.len(),
            extends(program@, first),
            program@.arcs == first.arcs,
            program@.cubic_curves == first.cubic_curves,
            program@.quadratic_curves == first.quadratic_curves,
            program@.lines == first.lines,
            program@.strokers == first.strokers,
            program@.paths == first.paths,
            program@.backgrounds == first.backgrounds,
            program@.rendering_steps == first.rendering_steps,
            canonical(program@),
            weight(program@) <= weight(first) + k,
            indexes.len() == k,
            forall|j: int| 0 <= j < k ==> #[trigger] indexes@[j] < program@.triangles.len(),
            forall|j: int|
                0 <= j < k ==> program@.triangles[#[trigger] indexes@[j] as int] == background@[j],
            program@.triangles == extended(first.triangles, background@.take(k as int)),
            forall|j: int| 0 <= j < k ==> program@.triangles.contains(#[trigger] background@[j]),
            indexes@ == background_indices(program@.triangles, background@.take(k as int)),
        decreases background.len() - k,
    {
        let ghost held = program@;
        let ghost walked = indexes@;
        proof {
            assert(models(program.triangles) =~= program@.triangles);
        }
        let at = find_or_push(&mut program.triangles, background[k]);
        proof {
            assert(models(program.triangles) =~= program@.triangles);
            let before = background@.take(k as int);
            let after = background@.take(k + 1);
            assert(after.drop_last() =~= before);
            assert(after.last() == background@[k as int]);
            assert forall|j: int| 0 <= j < before.len() implies held.triangles.contains(
                #[trigger] before[j],
            ) by {
                assert(before[j] == background@[j]);
            }
            lemma_background_indices_kept(program@.triangles, held.triangles, before);
            assert forall|j: int| 0 <= j < k + 1 implies program@.triangles.contains(
                #[trigger] background@[j],
            ) by {
                if j < k {
                    assert(before[j] == background@[j]);
                }
            }
            assert(walked.push(at as u32) =~= background_indices(program@.triangles, after));
            assert(program@.arguments =~= held.arguments);
            assert(program@.outputs =~= held.outputs);
            assert(program@.paths =~= held.paths);
            assert(program@.backgrounds =~= held.backgrounds);
        }
        if at > 0xFFFF_FFFF {
            proof {
                lemma_drawing_kept(program@, first);
            }
            return None;
        }
        indexes.push(at as u32);
        k += 1;
    }
    let ghost held = program@;
    let ghost run = indexes@;
    proof {
        assert(models(program.backgrounds) =~= program@.backgrounds);
        assert(background@.take(background.len() as int) =~= background@);
    }
    let at = find_or_push(&mut program.backgrounds, indexes);
    proof {
        assert(models(program.backgrounds) =~= program@.backgrounds);
        assert(program@.triangles == held.triangles);
        assert(program@.arguments =~= held.arguments);
        assert(program@.outputs =~= held.outputs);
        assert(program@.paths =~= held.paths);
        assert(program@.backgrounds[at as int] == run);
        assert forall|g: int, j: int|
            first.backgrounds.len() <= g < program@.backgrounds.len() && 0 <= j
                < program@.backgrounds[g].len() implies #[trigger] program@.backgrounds[g][j]
            < program@.triangles.len() by {
            assert(g == at);
        }
        lemma_drawing_kept(program@, first);
        assert(resolved_background(program@, run) =~= background@);
    }
    if at > 0xFFFF_FFFF {
        None
    } else {
        Some(at as u32)
    }
}

/// Puts a stroker into the table of strokers, unless the table holds it,
/// and gives its index; nothing where the index does not fit 32 bits.
fn add_stroker(program: &mut Program, stroker: Stroker) -> (r: Option<u32>)
    requires
        canonical(old(program)@),
        drawable(old(program)@),
    ensures
        extends(final(program)@, old(program)@),
        final(program)@.arcs == old(program)@.arcs,
        final(program)@.cubic_curves == old(program)@.cubic_curves,
        final(program)@.quadratic_curves == old(program)@.quadratic_curves,
        final(program)@.lines == old(program)@.lines,
        final(program)@.triangles == old(program)@.triangles,
        final(program)@.paths == old(program)@.paths,
        final(program)@.backgrounds == old(program)@.backgrounds,
        final(program)@.rendering_steps == old(program)@.rendering_steps,
        canonical(final(program)@),
        drawable(final(program)@),
        forall|i: int|
            0 <= i < old(program)@.rendering_steps.len() ==> drawn(
                final(program)@,
                #[trigger] old(program)@.rendering_steps[i],
            ) == drawn(old(program)@, old(program)@.rendering_steps[i]),
        weight(final(program)@) <= weight(old(program)@) + 1,
        r matches Some(i) ==> i < final(program)@.strokers.len()
            && final(program)@.strokers[i as int] == stroker,
        r is None ==> weight(final(program)@) > 0xFFFF_FFFF,
        final(program)@.strokers == with_item(old(program)@.strokers, stroker),
        r matches Some(i) ==> i == position(final(program)@.strokers, stroker),
{
    let ghost first = program@;
    proof {
        assert(models(program.strokers) =~= program@.strokers);
    }
    let at = find_or_push(&mut program.strokers, stroker);
    proof {
        assert(models(program.strokers) =~= program@.strokers);
        assert(program@.arguments =~= first.arguments);
        assert(program@.outputs =~= first.outputs);
        assert(program@.paths =~= first.paths);
        assert(program@.backgrounds =~= first.backgrounds);
        lemma_drawing_kept(program@, first);
    }
    if at > 0xFFFF_FFFF {
        None
    } else {
        Some(at as u32)
    }
}

/// The drawings as sequences.
pub open spec fn drawings_view(drawings: Vec<Drawing>) -> Seq<DrawingView> {
    Seq::new(drawings.len() as nat, |i: int| drawing_view(drawings[i]))
}

/// True when the program has these arguments, instructions and outputs, and
/// each of its rendering steps draws what the drawing at its place says.
pub open spec fn means(
    program: ProgramView,
    arguments: Vec<Argument>,
    instructions: Vec<Instruction>,
    outputs: Vec<Output>,
    drawings: Vec<Drawing>,
) -> bool {
    &&& program.arguments == Seq::new(arguments.len() as nat, |i: int| arguments[i]@)
    &&& program.instructions == instructions@
    &&& program.outputs == Seq::new(outputs.len() as nat, |i: int| outputs[i]@)
    &&& drawable(program)
    &&& program.rendering_steps.len() == drawings.len()
    &&& forall|i: int|
        0 <= i < drawings.len() ==> drawn(program, #[trigger] program.rendering_steps[i])
            == drawing_view(drawings[i])
}

/// The arguments as they are in a program.
pub open spec fn arguments_view(arguments: Vec<Argument>) -> Seq<ArgumentView> {
    Seq::new(arguments.len() as nat, |i: int| arguments[i]@)
}

/// The outputs as they are in a program.
pub open spec fn outputs_view(outputs: Vec<Output>) -> Seq<OutputView> {
    Seq::new(outputs.len() as nat, |i: int| outputs[i]@)
}

/// Gathers the tables of a program from drawings in direct form: each
/// primitive, triangle, stroker, path and background stands once in its
/// table, where it is first used, and the rendering steps name them by
/// index. Drawings that weigh more than 32-bit indices can count are refused.
pub fn assemble(
    arguments: &Vec<Argument>,
    instructions: &Vec<Instruction>,
    outputs: &Vec<Output>,
    rendering_steps: &Vec<Drawing>,
) -> (r: ParsingResult<Program>)
    ensures
        r matches Ok(program) ==> {
            &&& program@ == assembled(
                arguments_view(*arguments),
                instructions@,
                outputs_view(*outputs),
                drawings_view(*rendering_steps),
            )
            &&& means(program@, *arguments, *instructions, *outputs, *rendering_steps)
            &&& canonical(program@)
        },
        r matches Err(e) ==> e == ParsingError::InvalidIndex && load(
            drawings_view(*rendering_steps),
            rendering_steps.len() as int,
        ) > 0xFFFF_FFFF,
{
    let mut program = Program::new();
    let mut a: usize = 0;
    while a < arguments.len()
        invariant
            a <= arguments.len(),
            program.arguments.len() == a,
            forall|i: int| 0 <= i < a ==> program.arguments[i]@ == arguments[i]@,
            program.instructions.len() == 0,
            program.outputs.len() == 0,
            program@.rendering_steps.len() == 0,
            weight(program@) == 0,
        decreases arguments.len() - a,
    {
        program.arguments.push(arguments[a].clone());
        a += 1;
    }
    let mut b: usize = 0;
    while b < instructions.len()
        invariant
            b <= instructions.len(),
            program.arguments.len() == arguments.len(),
            forall|i: int| 0 <= i < arguments.len() ==> program.arguments[i]@ == arguments[i]@,
            program.instructions.len() == b,
            forall|i: int| 0 <= i < b ==> program.instructions[i] == instructions[i],
            program.outputs.len() == 0,
            program@.rendering_steps.len() == 0,
            weight(program@) == 0,
        decreases instructions.len() - b,
    {
        program.instructions.push(instructions[b]);
        b += 1;
    }
    let mut c: usize = 0;
    while c < outputs.len()
        invariant
            c <= outputs.len(),
            program.arguments.len() == arguments.len(),
            forall|i: int| 0 <= i < arguments.len() ==> program.arguments[i]@ == arguments[i]@,
            program.instructions@ == instructions@,
            program.outputs.len() == c,
            forall|i: int| 0 <= i < c ==> program.outputs[i]@ == outputs[i]@,
            program@.rendering_steps.len() == 0,
            weight(program@) == 0,
        decreases outputs.len() - c,
    {
        program.outputs.push(outputs[c].clone());
        c += 1;
    }
    assert(program.instructions@ =~= instructions@);
    let ghost drawings = drawings_view(*rendering_steps);
    let ghost first = program@;
    proof {
        assert(first.arguments =~= Seq::new(arguments.len() as nat, |i: int| arguments[i]@));
        assert(first.outputs =~= Seq::new(outputs.len() as nat, |i: int| outputs[i]@));
        assert(first.arcs =~= Seq::empty());
        assert(first.cubic_curves =~= Seq::empty());
        assert(first.quadratic_curves =~= Seq::empty());
        assert(first.lines =~= Seq::empty());
        assert(first.triangles =~= Seq::empty());
        assert(first.strokers =~= Seq::empty());
        assert(first.paths =~= Seq::empty());
        assert(first.backgrounds =~= Seq::empty());
        assert(path_uses(primitives_of(first), drawings, 0) =~= Seq::empty());
        assert(gathered(first, drawings, 0));
    }
    let mut k: usize = 0;
    while k < rendering_steps.len()
        invariant
            k <= rendering_steps.len(),
            drawings == drawings_view(*rendering_steps),
            first.arguments == Seq::new(arguments.len() as nat, |i: int| arguments[i]@),
            first.instructions == instructions@,
            first.outputs == Seq::new(outputs.len() as nat, |i: int| outputs[i]@),
            program@.arguments == first.arguments,
            program@.instructions == first.instructions,
            program@.outputs == first.outputs,
            canonical(program@),
            drawable(program@),
            weight(program@) <= load(drawings, k as int),
            program@.rendering_steps.len() == k,
            forall|i: int|
                0 <= i < k ==> drawn(program@, #[trigger] program@.rendering_steps[i])
                    == drawings[i],
            gathered(program@, drawings, k as int),
        decreases rendering_steps.len() - k,
    {
        let ghost held = program@;
        proof {
            lemma_load_grows(drawings, k + 1, rendering_steps.len() as int);
            assert(drawings[k as int] == drawing_view(rendering_steps[k as int]));
        }
        let ghost middle;
        let step = match &rendering_steps[k] {
            RenderingStep::Clip(path, background) => {
                let b = match add_background(&mut program, background) {
                    Some(b) => b,
                    None => {
                        return Err(ParsingError::InvalidIndex);
                    },
                };
                proof {
                    middle = program@;
                }
                let p = match add_path(&mut program, path) {
                    Some(p) => p,
                    None => {
                        return Err(ParsingError::InvalidIndex);
                    },
                };
                proof {
                    lemma_background_kept(program@, middle, middle.backgrounds[b as int]);
                }
                RawRenderingStep::Clip(p, b)
            },
            RenderingStep::Stroke(path, stroker) => {
                let s = match add_stroker(&mut program, *stroker) {
                    Some(s) => s,
                    None => {
                        return Err(ParsingError::InvalidIndex);
                    },
                };
                proof {
                    middle = program@;
                }
                let p = match add_path(&mut program, path) {
                    Some(p) => p,
                    None => {
                        return Err(ParsingError::InvalidIndex);
                    },
                };
                RawRenderingStep::Stroke(p, s)
            },
        };
        let ghost ready = program@;
        assert(drawn(ready, step) == drawings[k as int]);
        assert(ready.rendering_step_ok(step));
        program.rendering_steps.push(step);
        proof {
            let now = program@;
            assert(now.arguments =~= ready.arguments);
            assert(now.outputs =~= ready.outputs);
            assert(now.paths =~= ready.paths);
            assert(now.backgrounds =~= ready.backgrounds);
            assert(now == (ProgramView {
                rendering_steps: ready.rendering_steps.push(step),
                ..ready
            }));
            match drawings[k as int] {
                RenderingStep::Clip(path, background) => {
                    match step {
                        RawRenderingStep::Clip(p, b) => {
                            lemma_gathered_clip(
                                held,
                                middle,
                                ready,
                                now,
                                drawings,
                                k as int,
                                path,
                                background,
                                p,
                                b,
                            );
                        },
                        RawRenderingStep::Stroke(_, _) => {},
                    }
                },
                RenderingStep::Stroke(path, stroker) => {
                    match step {
                        RawRenderingStep::Stroke(p, s) => {
                            lemma_gathered_stroke(
                                held,
                                middle,
                                ready,
                                now,
                                drawings,
                                k as int,
                                path,
                                stroker,
                                p,
                                s,
                            );
                        },
                        RawRenderingStep::Clip(_, _) => {},
                    }
                },
            }
            assert(extends(now, ready));
            lemma_drawing_kept(now, ready);
            match step {
                RawRenderingStep::Clip(p, b) => {
                    lemma_path_kept(now, ready, ready.paths[p as int]);
                    lemma_background_kept(now, ready, ready.backgrounds[b as int]);
                },
                RawRenderingStep::Stroke(p, _) => {
                    lemma_path_kept(now, ready, ready.paths[p as int]);
                },
            }
            assert(drawn(now, step) == drawn(ready, step));
            assert forall|i: int| 0 <= i < k + 1 implies drawn(
                now,
                #[trigger] now.rendering_steps[i],
            ) == drawings[i] by {
                if i < k {
                    assert(now.rendering_steps[i] == held.rendering_steps[i]);
                    assert(drawn(ready, held.rendering_steps[i]) == drawn(
                        held,
                        held.rendering_steps[i],
                    ));
                    assert(ready.rendering_steps[i] == held.rendering_steps[i]);
                    assert(drawn(now, ready.rendering_steps[i]) == drawn(
                        ready,
                        ready.rendering_steps[i],
                    ));
                }
            }
            assert forall|i: int| 0 <= i < now.rendering_steps.len() implies now.rendering_step_ok(
                #[trigger] now.rendering_steps[i],
            ) by {
                if i < k {
                    assert(ready.rendering_step_ok(ready.rendering_steps[i]));
                }
            }
        }
        k += 1;
    }
    proof {
        lemma_gathered_is_assembled(program@, drawings);
    }
    Ok(program)
}

/// Writes the file of drawings in direct form: gathers the tables of the
/// program that they make, each record once and where it is first used,
/// and writes that program. Drawings that weigh more than 32-bit indices
/// can count are refused with `InvalidIndex`.
pub fn serialize(
    arguments: &Vec<Argument>,
    instructions: &Vec<Instruction>,
    outputs: &Vec<Output>,
    rendering_steps: &Vec<Drawing>,
) -> (r: ParsingResult<Vec<u8>>)
    ensures
        r matches Ok(bytes) ==> {
            let program = assembled(
                arguments_view(*arguments),
                instructions@,
                outputs_view(*outputs),
                drawings_view(*rendering_steps),
            );
            &&& encodable(program)
            &&& bytes@ == encoding(program)
            &&& means(program, *arguments, *instructions, *outputs, *rendering_steps)
            &&& canonical(program)
        },
        r matches Err(e) ==> (e == ParsingError::InvalidIndex && load(
            drawings_view(*rendering_steps),
            rendering_steps.len() as int,
        ) > 0xFFFF_FFFF) || refusal(
            assembled(
                arguments_view(*arguments),
                instructions@,
                outputs_view(*outputs),
                drawings_view(*rendering_steps),
            ),
        ) == Some(e),
{
    let program = match assemble(arguments, instructions, outputs, rendering_steps) {
        Ok(program) => program,
        Err(e) => {
            return Err(e);
        },
    };
    let mut bytes: Vec<u8> = Vec::new();
    match program.dump(&mut bytes) {
        Ok(_) => {
            assert(bytes@ =~= encoding(program@));
            Ok(bytes)
        },
        Err(e) => Err(e),
    }
}

} // verus!
