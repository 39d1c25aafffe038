//! What is written is read back: the file of a program holds that program.

use vstd::prelude::*;
use vstd::utf8::{
    decode_utf8_encode_utf8, encode_utf8, encode_utf8_decode_utf8, encode_utf8_valid_utf8,
};

use crate::layout::{
    arc_at, argument_at, background_at, cubic_curve_at, instruction_at, line_at, output_at,
    path_at, quadratic_curve_at, rendering_step_at, step_at, stroker_at, triangle_at,
    capacity, cell, count, decoded, end, framed, has_magic, lemma_start_next, lemma_terminator,
    name_bytes, name_of, name_ok, names, names_ok, opcodes_ok, runs_ok, start, step_types_ok,
    tags_ok, terminator, truncated, width, word, ProgramView, ARCS, ARGUMENTS, BACKGROUNDS,
    CUBIC_CURVES, INSTRUCTIONS, LINES, NO_NAME, OUTPUTS, PATHS, QUADRATIC_CURVES,
    RENDERING_STEPS, STEPS, STRINGS, STROKERS, TRIANGLES, TRIANGLE_INDEXES,
};
use crate::format::file_length;
use crate::reading::{frame_verdict, verdict};
use crate::wire::{lemma_words_bytes, word_at, words_bytes};
use crate::writing::{
    all_names, encodable, encoding, grown, height, image, lemma_flat_rows, lemma_grown_holds,
    lemma_pool_grows, lemma_search_bounds, name_offset, names_plain, occurs_at, place,
    place_in_pool, plain, pool, pool_upto, rows, search, sized, step_runs, table, text,
    text_upto, words,
};

verus! {

/// The words of the file are read back where they were written.
pub proof fn lemma_word(program: ProgramView, k: int)
    requires
        0 <= k < words(program).len(),
    ensures
        word(encoding(program), k) == words(program)[k],
        encoding(program).len() == 4 + 4 * words(program).len() + text(program).len(),
{
    let all = words(program);
    let file = encoding(program);
    lemma_words_bytes(all);
    let inner = words_bytes(all);
    assert(file[4 + 4 * k] == inner[4 * k]);
    assert(file[4 + 4 * k + 1] == inner[4 * k + 1]);
    assert(file[4 + 4 * k + 2] == inner[4 * k + 2]);
    assert(file[4 + 4 * k + 3] == inner[4 * k + 3]);
    assert(word_at(inner, 4 * k) == all[k]);
}

/// The words of fewer tables are the beginning of the words of more.
pub proof fn lemma_image_prefix(program: ProgramView, k: int, n: int)
    requires
        0 <= k <= n,
    ensures
        image(program, k).len() <= image(program, n).len(),
        forall|j: int|
            0 <= j < image(program, k).len() ==> image(program, n)[j] == image(program, k)[j],
    decreases n - k,
{
    if k < n {
        lemma_image_prefix(program, k, n - 1);
    }
}

/// A pool of runs of even length has an even length.
pub proof fn lemma_pool_even(runs: Seq<Seq<u32>>, k: int)
    requires
        0 <= k <= runs.len(),
        forall|i: int| 0 <= i < runs.len() ==> (#[trigger] runs[i]).len() % 2 == 0,
    ensures
        pool_upto(runs, 2, k).len() % 2 == 0,
    decreases k,
{
    if k > 0 {
        lemma_pool_even(runs, k - 1);
        assert(runs[k - 1].len() % 2 == 0);
    }
}

/// The runs of the paths have two words for each step.
pub proof fn lemma_step_runs_even(program: ProgramView)
    ensures
        forall|i: int|
            0 <= i < step_runs(program).len() ==> (#[trigger] step_runs(program)[i]).len() % 2 == 0,
{
}

/// Every row of a table has the width of the table.
pub proof fn lemma_rows_width(program: ProgramView, section: int)
    requires
        0 <= section < STRINGS,
    ensures
        forall|i: int|
            0 <= i < rows(program, section).len() ==> (#[trigger] rows(program, section)[i]).len()
                == width(section),
{
}

/// A table has the width of a row for each of its rows.
pub proof fn lemma_table_len(program: ProgramView, section: int)
    requires
        0 <= section < STRINGS,
    ensures
        table(program, section).len() == height(program, section) * width(section),
        0 <= height(program, section),
{
    if section == STEPS {
        lemma_step_runs_even(program);
        lemma_pool_even(step_runs(program), step_runs(program).len() as int);
    } else if section == TRIANGLE_INDEXES {
    } else {
        lemma_rows_width(program, section);
        lemma_flat_rows(rows(program, section), width(section));
    }
}

/// Each section of the file begins where the words of the tables before it
/// end, and its count is the height of its table.
pub proof fn lemma_sections(program: ProgramView, section: int)
    requires
        sized(program),
        0 <= section <= STRINGS,
    ensures
        start(encoding(program), section) == image(program, section).len(),
        section < STRINGS ==> count(encoding(program), section) == height(program, section),
        section == STRINGS ==> count(encoding(program), section) == text(program).len(),
        image(program, section).len() < words(program).len(),
    decreases section,
{
    let file = encoding(program);
    let all = words(program);
    lemma_image_prefix(program, section, STRINGS as int);
    if section > 0 {
        lemma_sections(program, section - 1);
        lemma_start_next(file, section - 1);
        lemma_table_len(program, section - 1);
    }
    let at = image(program, section).len() as int;
    assert(start(file, section) == at);
    lemma_word(program, at);
    if section < STRINGS {
        lemma_image_prefix(program, section + 1, STRINGS as int);
        lemma_table_len(program, section);
        assert(image(program, section + 1)[at] == height(program, section) as u32);
        assert(all[at] == image(program, STRINGS as int)[at]);
        assert(height(program, section) <= 0xFFFF_FFFF);
    } else {
        assert(all[at] == text(program).len() as u32);
    }
}

/// A word of a table is read back from its row and column.
pub proof fn lemma_cell(program: ProgramView, section: int, row: int, column: int)
    requires
        sized(program),
        0 <= section < STRINGS,
        0 <= row < height(program, section),
        0 <= column < width(section),
    ensures
        0 <= row * width(section) + column < table(program, section).len(),
        cell(encoding(program), section, row, column) == table(program, section)[row * width(
            section,
        ) + column],
{
    let file = encoding(program);
    let w = width(section);
    let h = height(program, section);
    lemma_sections(program, section);
    lemma_table_len(program, section);
    lemma_image_prefix(program, section + 1, STRINGS as int);
    assert(0 <= row * w + column < h * w) by (nonlinear_arith)
        requires
            0 <= row < h,
            0 <= column < w,
    ;
    let at = image(program, section).len() + 1 + row * w + column;
    assert(at < image(program, section + 1).len());
    lemma_word(program, at);
    assert(words(program)[at] == image(program, STRINGS as int)[at]);
    assert(image(program, section + 1)[at] == table(program, section)[row * w + column]);
}

/// A word of a table that is written row by row is read back from its row.
pub proof fn lemma_row_cell(program: ProgramView, section: int, row: int, column: int)
    requires
        sized(program),
        0 <= section < STRINGS,
        section != STEPS,
        section != TRIANGLE_INDEXES,
        0 <= row < rows(program, section).len(),
        0 <= column < width(section),
    ensures
        cell(encoding(program), section, row, column) == rows(program, section)[row][column],
{
    lemma_cell(program, section, row, column);
    lemma_rows_width(program, section);
    lemma_flat_rows(rows(program, section), width(section));
}

/// The file of a program has exactly the bytes that its counts announce, and
/// its names are those of the program.
pub proof fn lemma_frame(program: ProgramView)
    requires
        sized(program),
    ensures
        framed(encoding(program)),
        frame_verdict(encoding(program)) is None,
        names(encoding(program)) == text(program),
{
    let file = encoding(program);
    let all = words(program);
    lemma_word(program, 0);
    assert(has_magic(file));
    assert(capacity(file) >= all.len());
    assert forall|section: int| 0 <= section <= STRINGS implies start(file, section) < capacity(
        file,
    ) by {
        lemma_sections(program, section);
    }
    lemma_sections(program, STRINGS as int);
    assert(end(file) == file.len());
    assert(names(file) =~= text(program));
    assert(!truncated(file));
}

/// The bytes of fewer names are the beginning of the bytes of more.
pub proof fn lemma_text_prefix(all: Seq<Option<Seq<char>>>, k: int, n: int)
    requires
        0 <= k <= n,
    ensures
        text_upto(all, k).len() <= text_upto(all, n).len(),
        forall|j: int| 0 <= j < text_upto(all, k).len() ==> text_upto(all, n)[j] == text_upto(
            all,
            k,
        )[j],
    decreases n - k,
{
    if k < n {
        lemma_text_prefix(all, k, n - 1);
    }
}

/// A plain name is read back from the offset that its row holds.
pub proof fn lemma_name(all: Seq<Option<Seq<char>>>, k: int)
    requires
        0 <= k < all.len(),
        text_upto(all, all.len() as int).len() <= 0xFFFF_FFFF,
        all[k] matches Some(s) ==> plain(s),
    ensures
        name_ok(text_upto(all, all.len() as int), name_offset(all, k)),
        name_of(text_upto(all, all.len() as int), name_offset(all, k)) == all[k],
{
    let whole = text_upto(all, all.len() as int);
    match all[k] {
        Some(s) => {
            let first = text_upto(all, k).len() as int;
            let bytes = encode_utf8(s);
            let next = text_upto(all, k + 1);
            lemma_text_prefix(all, k + 1, all.len() as int);
            assert(next == text_upto(all, k) + bytes.push(0u8));
            assert forall|j: int| 0 <= j < bytes.len() implies whole[first + j] == bytes[j] by {
                assert(next[first + j] == bytes[j]);
            }
            assert(whole[first + bytes.len()] == 0) by {
                assert(next[first + bytes.len()] == 0);
            }
            lemma_terminator(whole, first, first + bytes.len());
            assert(name_bytes(whole, first) =~= bytes);
            encode_utf8_valid_utf8(s);
            encode_utf8_decode_utf8(s);
            assert(name_offset(all, k) == first);
        },
        None => {},
    }
}

/// The names of the arguments and outputs are read back.
pub proof fn lemma_names(program: ProgramView)
    requires
        sized(program),
        names_plain(program),
    ensures
        names_ok(encoding(program)),
        forall|i: int|
            0 <= i < program.arguments.len() ==> name_of(
                text(program),
                #[trigger] cell(encoding(program), ARGUMENTS as int, i, 0),
            ) == program.arguments[i].name,
        forall|i: int|
            0 <= i < program.outputs.len() ==> name_of(
                text(program),
                #[trigger] cell(encoding(program), OUTPUTS as int, i, 0),
            ) == program.outputs[i].name,
{
    let file = encoding(program);
    let all = all_names(program);
    lemma_frame(program);
    lemma_sections(program, ARGUMENTS as int);
    lemma_sections(program, OUTPUTS as int);
    assert forall|i: int| 0 <= i < program.arguments.len() implies name_ok(
        names(file),
        #[trigger] cell(file, ARGUMENTS as int, i, 0),
    ) && name_of(text(program), cell(file, ARGUMENTS as int, i, 0))
        == program.arguments[i].name by {
        lemma_row_cell(program, ARGUMENTS as int, i, 0);
        assert(all[i] == program.arguments[i].name);
        lemma_name(all, i);
    }
    assert forall|i: int| 0 <= i < program.outputs.len() implies name_ok(
        names(file),
        #[trigger] cell(file, OUTPUTS as int, i, 0),
    ) && name_of(text(program), cell(file, OUTPUTS as int, i, 0)) == program.outputs[i].name by {
        lemma_row_cell(program, OUTPUTS as int, i, 0);
        assert(all[program.arguments.len() + i] == program.outputs[i].name);
        lemma_name(all, program.arguments.len() + i);
    }
}

/// The arguments are read back.
pub proof fn lemma_arguments(program: ProgramView)
    requires
        sized(program),
        names_plain(program),
    ensures
        decoded(encoding(program)).arguments == program.arguments,
{
    let file = encoding(program);
    let s = ARGUMENTS as int;
    lemma_sections(program, s);
    lemma_names(program);
    lemma_frame(program);
    assert forall|i: int| 0 <= i < program.arguments.len() implies argument_at(file, i)
        == program.arguments[i] by {
        lemma_row_cell(program, s, i, 0);
        lemma_row_cell(program, s, i, 1);
        lemma_row_cell(program, s, i, 2);
        lemma_row_cell(program, s, i, 3);
        lemma_row_cell(program, s, i, 4);
        lemma_row_cell(program, s, i, 5);
        lemma_row_cell(program, s, i, 6);
    }
    assert(decoded(file).arguments =~= program.arguments);
}

/// The instructions are read back, and their codes name operations.
pub proof fn lemma_instructions(program: ProgramView)
    requires
        sized(program),
    ensures
        decoded(encoding(program)).instructions == program.instructions,
        opcodes_ok(encoding(program)),
{
    let file = encoding(program);
    let s = INSTRUCTIONS as int;
    lemma_sections(program, s);
    assert forall|i: int| 0 <= i < program.instructions.len() implies instruction_at(file, i)
        == program.instructions[i] && #[trigger] cell(file, s, i, 0) < 14 by {
        lemma_row_cell(program, s, i, 0);
        lemma_row_cell(program, s, i, 1);
        lemma_row_cell(program, s, i, 2);
        lemma_row_cell(program, s, i, 3);
        assert(instruction_at(file, i).operands =~= program.instructions[i].operands);
    }
    assert(decoded(file).instructions =~= program.instructions);
}

/// The outputs are read back.
pub proof fn lemma_outputs(program: ProgramView)
    requires
        sized(program),
        names_plain(program),
    ensures
        decoded(encoding(program)).outputs == program.outputs,
{
    let file = encoding(program);
    let s = OUTPUTS as int;
    lemma_sections(program, s);
    lemma_names(program);
    lemma_frame(program);
    assert forall|i: int| 0 <= i < program.outputs.len() implies output_at(file, i)
        == program.outputs[i] by {
        lemma_row_cell(program, s, i, 0);
        lemma_row_cell(program, s, i, 1);
    }
    assert(decoded(file).outputs =~= program.outputs);
}

/// The triangles are read back.
pub proof fn lemma_triangles(program: ProgramView)
    requires
        sized(program),
    ensures
        decoded(encoding(program)).triangles == program.triangles,
{
    let file = encoding(program);
    let s = TRIANGLES as int;
    lemma_sections(program, s);
    assert forall|i: int| 0 <= i < program.triangles.len() implies triangle_at(file, i)
        == program.triangles[i] by {
        lemma_row_cell(program, s, i, 0);
        lemma_row_cell(program, s, i, 1);
        lemma_row_cell(program, s, i, 2);
        lemma_row_cell(program, s, i, 3);
        lemma_row_cell(program, s, i, 4);
        lemma_row_cell(program, s, i, 5);
        lemma_row_cell(program, s, i, 6);
        lemma_row_cell(program, s, i, 7);
        lemma_row_cell(program, s, i, 8);
        let read = triangle_at(file, i);
        let held = program.triangles[i];
        assert(read.points =~= held.points);
        assert(read.colors[0] =~= held.colors[0]);
        assert(read.colors[1] =~= held.colors[1]);
        assert(read.colors[2] =~= held.colors[2]);
        assert(read.colors =~= held.colors);
    }
    assert(decoded(file).triangles =~= program.triangles);
}

/// The arcs are read back.
pub proof fn lemma_arcs(program: ProgramView)
    requires
        sized(program),
    ensures
        decoded(encoding(program)).arcs == program.arcs,
{
    let file = encoding(program);
    let s = ARCS as int;
    lemma_sections(program, s);
    assert forall|i: int| 0 <= i < program.arcs.len() implies arc_at(file, i)
        == program.arcs[i] by {
        lemma_row_cell(program, s, i, 0);
        lemma_row_cell(program, s, i, 1);
        lemma_row_cell(program, s, i, 2);
    }
    assert(decoded(file).arcs =~= program.arcs);
}

/// The cubic curves are read back.
pub proof fn lemma_cubic_curves(program: ProgramView)
    requires
        sized(program),
    ensures
        decoded(encoding(program)).cubic_curves == program.cubic_curves,
{
    let file = encoding(program);
    let s = CUBIC_CURVES as int;
    lemma_sections(program, s);
    assert forall|i: int| 0 <= i < program.cubic_curves.len() implies cubic_curve_at(file, i)
        == program.cubic_curves[i] by {
        lemma_row_cell(program, s, i, 0);
        lemma_row_cell(program, s, i, 1);
        lemma_row_cell(program, s, i, 2);
        lemma_row_cell(program, s, i, 3);
        assert(cubic_curve_at(file, i).points =~= program.cubic_curves[i].points);
    }
    assert(decoded(file).cubic_curves =~= program.cubic_curves);
}

/// The quadratic curves are read back.
pub proof fn lemma_quadratic_curves(program: ProgramView)
    requires
        sized(program),
    ensures
        decoded(encoding(program)).quadratic_curves == program.quadratic_curves,
{
    let file = encoding(program);
    let s = QUADRATIC_CURVES as int;
    lemma_sections(program, s);
    assert forall|i: int|
        0 <= i < program.quadratic_curves.len() implies quadratic_curve_at(file, i)
        == program.quadratic_curves[i] by {
        lemma_row_cell(program, s, i, 0);
        lemma_row_cell(program, s, i, 1);
        lemma_row_cell(program, s, i, 2);
        assert(quadratic_curve_at(file, i).points =~= program.quadratic_curves[i].points);
    }
    assert(decoded(file).quadratic_curves =~= program.quadratic_curves);
}

/// The lines are read back.
pub proof fn lemma_lines(program: ProgramView)
    requires
        sized(program),
    ensures
        decoded(encoding(program)).lines == program.lines,
{
    let file = encoding(program);
    let s = LINES as int;
    lemma_sections(program, s);
    assert forall|i: int| 0 <= i < program.lines.len() implies line_at(file, i)
        == program.lines[i] by {
        lemma_row_cell(program, s, i, 0);
        lemma_row_cell(program, s, i, 1);
        assert(line_at(file, i).points =~= program.lines[i].points);
    }
    assert(decoded(file).lines =~= program.lines);
}

/// The strokers are read back.
pub proof fn lemma_strokers(program: ProgramView)
    requires
        sized(program),
    ensures
        decoded(encoding(program)).strokers == program.strokers,
{
    let file = encoding(program);
    let s = STROKERS as int;
    lemma_sections(program, s);
    assert forall|i: int| 0 <= i < program.strokers.len() implies stroker_at(file, i)
        == program.strokers[i] by {
        lemma_row_cell(program, s, i, 0);
        lemma_row_cell(program, s, i, 1);
        lemma_row_cell(program, s, i, 2);
        lemma_row_cell(program, s, i, 3);
        assert(stroker_at(file, i).color =~= program.strokers[i].color);
    }
    assert(decoded(file).strokers =~= program.strokers);
}

/// The rendering steps are read back, and their tags are those of a fill or a stroke.
pub proof fn lemma_rendering_steps(program: ProgramView)
    requires
        sized(program),
    ensures
        decoded(encoding(program)).rendering_steps == program.rendering_steps,
        tags_ok(encoding(program)),
{
    let file = encoding(program);
    let s = RENDERING_STEPS as int;
    lemma_sections(program, s);
    assert forall|i: int|
        0 <= i < program.rendering_steps.len() implies rendering_step_at(file, i)
        == program.rendering_steps[i] && #[trigger] cell(file, s, i, 0) <= 1 by {
        lemma_row_cell(program, s, i, 0);
        lemma_row_cell(program, s, i, 1);
        lemma_row_cell(program, s, i, 2);
    }
    assert(decoded(file).rendering_steps =~= program.rendering_steps);
}

/// What a pool holds at a place, a longer pool that begins with it holds there too.
pub proof fn lemma_occurs_in_longer(small: Seq<u32>, whole: Seq<u32>, run: Seq<u32>, at: int)
    requires
        occurs_at(small, run, at),
        small.len() <= whole.len(),
        whole.subrange(0, small.len() as int) == small,
    ensures
        occurs_at(whole, run, at),
{
    let head = whole.subrange(0, small.len() as int);
    assert forall|j: int| 0 <= j < run.len() implies whole[at + j] == run[j] by {
        assert(head[at + j] == whole[at + j]);
        assert(small.subrange(at, at + run.len())[j] == small[at + j]);
    }
    assert(whole.subrange(at, at + run.len()) =~= run);
}

/// A run stays where it was put: the whole pool holds it at its place.
pub proof fn lemma_run_in_pool(runs: Seq<Seq<u32>>, stride: int, k: int)
    requires
        0 <= k < runs.len(),
        stride > 0,
    ensures
        occurs_at(pool(runs, stride), runs[k], place_in_pool(runs, stride, k)),
{
    let before = pool_upto(runs, stride, k);
    let after = pool_upto(runs, stride, k + 1);
    assert(after == grown(before, runs[k], stride));
    lemma_grown_holds(before, runs[k], stride);
    lemma_pool_grows(runs, stride, k + 1, runs.len() as int);
    lemma_occurs_in_longer(after, pool(runs, stride), runs[k], place(before, runs[k], stride));
}

/// In a pool of even length, a search by twos from an even place ends at an even place.
pub proof fn lemma_search_even(pool: Seq<u32>, run: Seq<u32>, from: int)
    requires
        0 <= from,
        from % 2 == 0,
        pool.len() % 2 == 0,
    ensures
        search(pool, run, 2, from) % 2 == 0,
    decreases pool.len() - from + 2,
{
    if from + run.len() <= pool.len() && !occurs_at(pool, run, from) {
        lemma_search_even(pool, run, from + 2);
    }
}

/// The place of a path in the pool of steps is even: it is the place of a row.
pub proof fn lemma_path_place_even(program: ProgramView, k: int)
    requires
        0 <= k < program.paths.len(),
    ensures
        place_in_pool(step_runs(program), 2, k) % 2 == 0,
{
    lemma_step_runs_even(program);
    lemma_pool_even(step_runs(program), k);
    lemma_search_even(pool_upto(step_runs(program), 2, k), step_runs(program)[k], 0);
}

/// Every row of the pool of steps begins with the code of a kind of primitive.
pub proof fn lemma_pool_codes(program: ProgramView, k: int)
    requires
        0 <= k <= program.paths.len(),
    ensures
        forall|j: int|
            0 <= j < pool_upto(step_runs(program), 2, k).len() && j % 2 == 0 ==> #[trigger] pool_upto(
                step_runs(program),
                2,
                k,
            )[j] < 4,
    decreases k,
{
    if k > 0 {
        let runs = step_runs(program);
        lemma_pool_codes(program, k - 1);
        lemma_step_runs_even(program);
        lemma_pool_even(runs, k - 1);
        let before = pool_upto(runs, 2, k - 1);
        let after = pool_upto(runs, 2, k);
        let run = runs[k - 1];
        assert forall|j: int| 0 <= j < after.len() && j % 2 == 0 implies #[trigger] after[j]
            < 4 by {
            if j >= before.len() {
                let at = j - before.len();
                assert(after[j] == run[at]);
                assert(run[at] == program.paths[k - 1][at / 2].0.code());
            } else {
                assert(after[j] == before[j]);
            }
        }
    }
}

/// The paths are read back, each from its run of the pool of steps.
pub proof fn lemma_paths(program: ProgramView)
    requires
        sized(program),
    ensures
        decoded(encoding(program)).paths == program.paths,
        step_types_ok(encoding(program)),
        forall|i: int|
            0 <= i < count(encoding(program), PATHS as int) ==> #[trigger] cell(
                encoding(program),
                PATHS as int,
                i,
                0,
            ) + cell(encoding(program), PATHS as int, i, 1) <= count(
                encoding(program),
                STEPS as int,
            ),
{
    let file = encoding(program);
    let runs = step_runs(program);
    let whole = pool(runs, 2);
    lemma_sections(program, PATHS as int);
    lemma_sections(program, STEPS as int);
    lemma_table_len(program, STEPS as int);
    let h = height(program, STEPS as int);
    assert(whole.len() == h * 2);
    assert forall|r: int| 0 <= r < h implies #[trigger] cell(file, STEPS as int, r, 0) < 4 by {
        lemma_cell(program, STEPS as int, r, 0);
        lemma_pool_codes(program, program.paths.len() as int);
        assert(whole[2 * r] < 4);
    }
    assert forall|i: int| 0 <= i < program.paths.len() implies path_at(file, i)
        == program.paths[i] && #[trigger] cell(file, PATHS as int, i, 0) + cell(
        file,
        PATHS as int,
        i,
        1,
    ) <= count(file, STEPS as int) by {
        let path = program.paths[i];
        let run = runs[i];
        let at = place_in_pool(runs, 2, i);
        lemma_row_cell(program, PATHS as int, i, 0);
        lemma_row_cell(program, PATHS as int, i, 1);
        lemma_run_in_pool(runs, 2, i);
        lemma_path_place_even(program, i);
        assert(run.len() == 2 * path.len());
        assert(at + 2 * path.len() <= whole.len());
        let first = cell(file, PATHS as int, i, 0);
        let length = cell(file, PATHS as int, i, 1);
        assert(first == at / 2);
        assert(length == path.len());
        assert forall|k: int| 0 <= k < path.len() implies step_at(file, first + k) == path[k] by {
            let r = first + k;
            lemma_cell(program, STEPS as int, r, 0);
            lemma_cell(program, STEPS as int, r, 1);
            assert(whole.subrange(at, at + run.len())[2 * k] == whole[at + 2 * k]);
            assert(whole.subrange(at, at + run.len())[2 * k + 1] == whole[at + 2 * k + 1]);
            assert(run[2 * k] == path[k].0.code());
            assert(run[2 * k + 1] == path[k].1);
        }
        assert(path_at(file, i) =~= path);
    }
    assert(decoded(file).paths =~= program.paths);
}

/// The backgrounds are read back, each from its run of the pool of triangle indices.
pub proof fn lemma_backgrounds(program: ProgramView)
    requires
        sized(program),
    ensures
        decoded(encoding(program)).backgrounds == program.backgrounds,
        forall|i: int|
            0 <= i < count(encoding(program), BACKGROUNDS as int) ==> #[trigger] cell(
                encoding(program),
                BACKGROUNDS as int,
                i,
                0,
            ) + cell(encoding(program), BACKGROUNDS as int, i, 1) <= count(
                encoding(program),
                TRIANGLE_INDEXES as int,
            ),
{
    let file = encoding(program);
    let runs = program.backgrounds;
    let whole = pool(runs, 1);
    lemma_sections(program, BACKGROUNDS as int);
    lemma_sections(program, TRIANGLE_INDEXES as int);
    lemma_table_len(program, TRIANGLE_INDEXES as int);
    assert forall|i: int| 0 <= i < program.backgrounds.len() implies background_at(file, i)
        == program.backgrounds[i] && #[trigger] cell(file, BACKGROUNDS as int, i, 0) + cell(
        file,
        BACKGROUNDS as int,
        i,
        1,
    ) <= count(file, TRIANGLE_INDEXES as int) by {
        let run = runs[i];
        let at = place_in_pool(runs, 1, i);
        lemma_row_cell(program, BACKGROUNDS as int, i, 0);
        lemma_row_cell(program, BACKGROUNDS as int, i, 1);
        lemma_run_in_pool(runs, 1, i);
        lemma_search_bounds(pool_upto(runs, 1, i), run, 1, 0);
        assert(at + run.len() <= whole.len());
        let first = cell(file, BACKGROUNDS as int, i, 0);
        assert(first == at);
        assert forall|k: int| 0 <= k < run.len() implies cell(
            file,
            TRIANGLE_INDEXES as int,
            first + k,
            0,
        ) == run[k] by {
            lemma_cell(program, TRIANGLE_INDEXES as int, first + k, 0);
            assert(whole.subrange(at, at + run.len())[k] == whole[at + k]);
        }
        assert(background_at(file, i) =~= run);
    }
    assert(decoded(file).backgrounds =~= program.backgrounds);
}

/// Reading gives back what was written: the file of a program that can be
/// written passes every check, and the program that it holds is that program.
pub proof fn lemma_round_trip(program: ProgramView)
    requires
        encodable(program),
    ensures
        verdict(encoding(program)) is None,
        decoded(encoding(program)) == program,
        encoding(decoded(encoding(program))) == encoding(program),
{
    let file = encoding(program);
    lemma_frame(program);
    lemma_names(program);
    lemma_arguments(program);
    lemma_instructions(program);
    lemma_outputs(program);
    lemma_triangles(program);
    lemma_arcs(program);
    lemma_cubic_curves(program);
    lemma_quadratic_curves(program);
    lemma_lines(program);
    lemma_strokers(program);
    lemma_paths(program);
    lemma_backgrounds(program);
    lemma_rendering_steps(program);
    assert(runs_ok(file));
}

/// No byte before the terminator of a name is zero.
pub proof fn lemma_name_has_no_zero(text: Seq<u8>, from: int, k: int)
    requires
        0 <= from <= k < terminator(text, from),
    ensures
        k < text.len(),
        text[k] != 0,
    decreases text.len() - from,
{
    if from < text.len() && text[from] != 0 && from < k {
        lemma_name_has_no_zero(text, from + 1, k);
    }
}

/// The terminator of a name is not before the name.
pub proof fn lemma_terminator_after(text: Seq<u8>, from: int)
    ensures
        from <= terminator(text, from),
    decreases text.len() - from,
{
    if from < text.len() && text[from] != 0 {
        lemma_terminator_after(text, from + 1);
    }
}

/// A name that was read from a file is plain.
pub proof fn lemma_read_name_is_plain(text: Seq<u8>, offset: u32)
    requires
        name_ok(text, offset),
    ensures
        name_of(text, offset) matches Some(name) ==> plain(name),
{
    if offset != NO_NAME {
        let bytes = name_bytes(text, offset as int);
        decode_utf8_encode_utf8(bytes);
        lemma_terminator_after(text, offset as int);
        assert(bytes.len() == terminator(text, offset as int) - offset);
        assert forall|j: int| 0 <= j < bytes.len() implies bytes[j] != 0 by {
            lemma_name_has_no_zero(text, offset as int, offset + j);
        }
    }
}

/// The program that a file holds can be written again, if its counts fit
/// once its names and runs are laid out anew; and what is written holds the
/// same program.
pub proof fn lemma_parsed_round_trip(file: Seq<u8>)
    requires
        verdict(file) is None,
        sized(decoded(file)),
    ensures
        encodable(decoded(file)),
        verdict(encoding(decoded(file))) is None,
        decoded(encoding(decoded(file))) == decoded(file),
{
    let program = decoded(file);
    let all = all_names(program);
    assert forall|k: int| 0 <= k < all.len() implies (#[trigger] all[k] matches Some(s) ==> plain(
        s,
    )) by {
        if k < program.arguments.len() {
            let offset = cell(file, ARGUMENTS as int, k, 0);
            assert(name_ok(names(file), offset));
            lemma_read_name_is_plain(names(file), offset);
            assert(all[k] == argument_at(file, k).name);
        } else {
            let i = k - program.arguments.len();
            let offset = cell(file, OUTPUTS as int, i, 0);
            assert(name_ok(names(file), offset));
            lemma_read_name_is_plain(names(file), offset);
            assert(all[k] == output_at(file, i).name);
        }
    }
    lemma_round_trip(program);
}

/// How many words the first `upto` tables take in the file: for each, its
/// count and the words of its rows.
pub open spec fn image_length(program: ProgramView, upto: int) -> int
    decreases upto,
{
    if upto <= 0 {
        0
    } else {
        image_length(program, upto - 1) + 1 + height(program, upto - 1) * width(upto - 1)
    }
}

/// The words of the tables are as many as their counts and rows make.
pub proof fn lemma_image_length(program: ProgramView, upto: int)
    requires
        0 <= upto <= STRINGS,
    ensures
        image(program, upto).len() == image_length(program, upto),
    decreases upto,
{
    if upto > 0 {
        lemma_image_length(program, upto - 1);
        lemma_table_len(program, upto - 1);
    }
}

/// The size of the file of a program, table by table: four bytes of magic;
/// four bytes for each of the fifteen counts; for each row, four bytes
/// times the width of its table; and the bytes of the names.
pub proof fn lemma_file_length_by_tables(program: ProgramView)
    ensures
        file_length(program) == 4 + 4 * (15 + 7 * program.arguments.len() + 4
            * program.instructions.len() + 2 * program.outputs.len() + 9
            * program.triangles.len() + 3 * program.arcs.len() + 4 * program.cubic_curves.len()
            + 3 * program.quadratic_curves.len() + 2 * program.lines.len() + 4
            * program.strokers.len() + pool(step_runs(program), 2).len() + 2
            * program.paths.len() + pool(program.backgrounds, 1).len() + 2
            * program.backgrounds.len() + 3 * program.rendering_steps.len()) + text(
            program,
        ).len(),
        encoding(program).len() == file_length(program),
{
    lemma_words_bytes(words(program));
    lemma_image_length(program, STRINGS as int);
    lemma_table_len(program, STEPS as int);
    assert(image_length(program, 0) == 0);
    assert(height(program, 0) == program.arguments.len() && width(0) == 7);
    assert(height(program, 1) == program.instructions.len() && width(1) == 4);
    assert(height(program, 2) == program.outputs.len() && width(2) == 2);
    assert(height(program, 3) == program.triangles.len() && width(3) == 9);
    assert(height(program, 4) == program.arcs.len() && width(4) == 3);
    assert(height(program, 5) == program.cubic_curves.len() && width(5) == 4);
    assert(height(program, 6) == program.quadratic_curves.len() && width(6) == 3);
    assert(height(program, 7) == program.lines.len() && width(7) == 2);
    assert(height(program, 8) == program.strokers.len() && width(8) == 4);
    assert(height(program, 9) * 2 == pool(step_runs(program), 2).len() && width(9) == 2);
    assert(height(program, 10) == program.paths.len() && width(10) == 2);
    assert(height(program, 11) == pool(program.backgrounds, 1).len() && width(11) == 1);
    assert(height(program, 12) == program.backgrounds.len() && width(12) == 2);
    assert(height(program, 13) == program.rendering_steps.len() && width(13) == 3);
    assert(image_length(program, 1) == 1 + 7 * program.arguments.len());
    assert(image_length(program, 2) == image_length(program, 1) + 1 + 4
        * program.instructions.len());
    assert(image_length(program, 3) == image_length(program, 2) + 1 + 2 * program.outputs.len());
    assert(image_length(program, 4) == image_length(program, 3) + 1 + 9
        * program.triangles.len());
    assert(image_length(program, 5) == image_length(program, 4) + 1 + 3 * program.arcs.len());
    assert(image_length(program, 6) == image_length(program, 5) + 1 + 4
        * program.cubic_curves.len());
    assert(image_length(program, 7) == image_length(program, 6) + 1 + 3
        * program.quadratic_curves.len());
    assert(image_length(program, 8) == image_length(program, 7) + 1 + 2 * program.lines.len());
    assert(image_length(program, 9) == image_length(program, 8) + 1 + 4
        * program.strokers.len());
    assert(image_length(program, 10) == image_length(program, 9) + 1 + pool(
        step_runs(program),
        2,
    ).len());
    assert(image_length(program, 11) == image_length(program, 10) + 1 + 2
        * program.paths.len());
    assert(image_length(program, 12) == image_length(program, 11) + 1 + pool(
        program.backgrounds,
        1,
    ).len());
    assert(image_length(program, 13) == image_length(program, 12) + 1 + 2
        * program.backgrounds.len());
    assert(image_length(program, 14) == image_length(program, 13) + 1 + 3
        * program.rendering_steps.len());
}

} // verus!
