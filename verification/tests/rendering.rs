use railway::computing::{Argument, Couple, Instruction, Operation, Output};
use railway::drawing::{RawRenderingStep, StepType, Triangle};
use railway::format::Program;
use railway::primitive::{Arc, Line};
use railway::rendering::{
    blend, blend_each, blend_flat, blend_pixel, clear_window, paint, Ink, NaiveRenderer, Pixel,
};
use railway::serialized::SerializedProgram;
use railway::ParsingError;

fn couple(x: f32, y: f32) -> Couple {
    Couple::new(x.to_bits(), y.to_bits())
}

fn px(r: u8, g: u8, b: u8, a: u8) -> Pixel {
    Pixel { r, g, b, a }
}

fn adding(operation: Operation, a: Couple, b: Couple, _c: Couple) -> Couple {
    match operation {
        Operation::Add2 => couple(
            f32::from_bits(a.x) + f32::from_bits(b.x),
            f32::from_bits(a.y) + f32::from_bits(b.y),
        ),
        _ => panic!("not used here"),
    }
}

fn session() -> NaiveRenderer {
    let mut p = Program::new();
    p.arguments
        .push(Argument::named("size".to_string(), couple(200.0, 100.0)));
    p.arguments.push(Argument::unnamed(couple(1.0, 1.0)));
    p.arguments
        .push(Argument::named("size".to_string(), couple(7.0, 7.0)));
    p.arguments
        .push(Argument::named("shift".to_string(), couple(0.0, 0.0)));
    p.instructions
        .push(Instruction::new(Operation::Add2, 0, 1, 0));
    p.instructions
        .push(Instruction::new(Operation::Add2, 3, 3, 0));
    p.outputs.push(Output {
        name: Some("grown".to_string()),
        address: 4,
    });
    p.outputs.push(Output {
        name: Some("first".to_string()),
        address: 0,
    });
    p.lines.push(Line { points: [0, 1] });
    p.lines.push(Line { points: [4, 4] });
    p.arcs.push(Arc {
        start_point: 5,
        center: 3,
        deltas: 3,
    });
    p.triangles.push(Triangle {
        points: [0, 1, 2],
        colors: [[3, 3], [3, 3], [3, 5]],
    });
    p.triangles.push(Triangle {
        points: [4, 1, 2],
        colors: [[1, 1], [1, 1], [1, 1]],
    });
    p.paths.push(vec![(StepType::Line, 0)]);
    p.paths
        .push(vec![(StepType::Line, 0), (StepType::Line, 1)]);
    p.paths.push(vec![(StepType::Arc, 0)]);
    p.paths.push(vec![]);
    p.backgrounds.push(vec![0, 1]);
    p.rendering_steps.push(RawRenderingStep::Clip(1, 0));
    let mut bytes = Vec::new();
    p.dump(&mut bytes).unwrap();
    NaiveRenderer::parse(bytes).ok().unwrap()
}

#[test]
fn full_coverage_of_an_opaque_color_writes_it() {
    let mut dst = px(1, 2, 3, 4);
    blend_pixel(&mut dst, px(10, 20, 30, 255), 255, true);
    assert_eq!(dst, px(10, 20, 30, 255));
    let mut other = px(1, 2, 3, 4);
    blend_pixel(&mut other, px(10, 20, 30, 255), 255, false);
    assert_eq!(other, px(10, 20, 30, 255));
}

#[test]
fn writing_at_full_coverage_is_verbatim() {
    let mut dst = px(9, 9, 9, 9);
    blend_pixel(&mut dst, px(10, 20, 30, 40), 255, false);
    assert_eq!(dst, px(10, 20, 30, 40));
}

#[test]
fn writing_scales_by_the_coverage() {
    let mut dst = px(9, 9, 9, 9);
    blend_pixel(&mut dst, px(255, 100, 51, 200), 128, false);
    assert_eq!(dst, px(128, 50, 25, 100));
    let mut none = px(9, 9, 9, 9);
    blend_pixel(&mut none, px(255, 100, 51, 200), 0, false);
    assert_eq!(none, px(0, 0, 0, 0));
}

#[test]
fn blending_mixes_at_the_effective_alpha() {
    // alpha = 200 * 128 / 255 = 100
    let mut dst = px(0, 255, 100, 50);
    blend_pixel(&mut dst, px(255, 0, 100, 200), 128, true);
    assert_eq!(
        dst,
        px(
            ((255 * 100) / 255) as u8,
            ((255 * 155) / 255) as u8,
            ((100 * 100 + 100 * 155) / 255) as u8,
            ((200 * 100 + 50 * 155) / 255) as u8
        )
    );
    assert_eq!(dst, px(100, 155, 100, 108));
    assert_eq!(
        blend(px(0, 255, 100, 50), px(255, 0, 100, 200), 128, true),
        px(100, 155, 100, 108)
    );
}

#[test]
fn blending_with_no_coverage_changes_nothing() {
    let mut dst = px(1, 2, 3, 4);
    blend_pixel(&mut dst, px(200, 200, 200, 255), 0, true);
    assert_eq!(dst, px(1, 2, 3, 4));
}

#[test]
fn the_window_is_cleared_and_the_rest_is_kept() {
    let mut dst = vec![px(1, 1, 1, 1); 12];
    clear_window(&mut dst, 2, 3, 4);
    let z = px(0, 0, 0, 0);
    let k = px(1, 1, 1, 1);
    assert_eq!(dst, vec![z, z, k, k, z, z, k, k, z, z, k, k]);
    let mut tight = vec![k; 10];
    clear_window(&mut tight, 2, 3, 4);
    assert_eq!(tight, vec![z, z, k, k, z, z, k, k, z, z]);
    let mut untouched = vec![k; 3];
    clear_window(&mut untouched, 0, 5, 0);
    assert_eq!(untouched, vec![k; 3]);
    clear_window(&mut untouched, 3, 0, 3);
    assert_eq!(untouched, vec![k; 3]);
}

#[test]
fn a_flat_color_goes_where_the_mask_covers() {
    let k = px(0, 0, 0, 0);
    let mut dst = vec![k; 6];
    let mask = vec![255u8, 0, 0, 128];
    blend_flat(&mut dst, &mask, 2, 2, 3, px(255, 0, 0, 255), true);
    assert_eq!(
        dst,
        vec![px(255, 0, 0, 255), k, k, k, px(128, 0, 0, 128), k]
    );
}

#[test]
fn each_pixel_gets_its_own_color() {
    let k = px(5, 5, 5, 5);
    let mut dst = vec![k; 8];
    let mask = vec![255u8, 255, 255, 0, 255, 255];
    let colors = vec![
        Some(px(1, 2, 3, 255)),
        None,
        Some(px(4, 5, 6, 255)),
        Some(px(9, 9, 9, 255)),
        None,
        Some(px(7, 8, 9, 255)),
    ];
    blend_each(&mut dst, &mask, &colors, 3, 2, 4, false);
    assert_eq!(
        dst,
        vec![
            px(1, 2, 3, 255),
            k,
            px(4, 5, 6, 255),
            k,
            k,
            k,
            px(7, 8, 9, 255),
            k
        ]
    );
}

#[test]
fn ink_is_laid_by_rows() {
    let k = px(5, 5, 5, 5);
    let mut dst = vec![k; 4];
    let mask = vec![0u8, 255, 255, 255];
    paint(&mut dst, 2, 2, 2, &Ink::Flat(&mask, px(1, 1, 1, 255), true));
    assert_eq!(dst, vec![k, px(1, 1, 1, 255), px(1, 1, 1, 255), px(1, 1, 1, 255)]);
    paint(&mut dst, 1, 2, 2, &Ink::Erase);
    assert_eq!(
        dst,
        vec![px(0, 0, 0, 0), px(1, 1, 1, 255), px(0, 0, 0, 0), px(1, 1, 1, 255)]
    );
}

#[test]
fn a_session_begins_with_the_defaults_and_every_flag_up() {
    let s = session();
    assert_eq!(
        s.get_stack(),
        &vec![
            couple(200.0, 100.0),
            couple(1.0, 1.0),
            couple(7.0, 7.0),
            couple(0.0, 0.0),
            Couple::zero(),
            Couple::zero()
        ]
    );
    assert_eq!(s.get_changes(), &vec![true; 6]);
    assert_eq!(s.get_program().stack_size(), 6);
}

#[test]
fn a_session_is_opened_on_a_program_too() {
    let mut bytes = Vec::new();
    Program::new().dump(&mut bytes).unwrap();
    let program = SerializedProgram::new(bytes).unwrap();
    let s = NaiveRenderer::new(program.clone()).ok().unwrap();
    assert!(s.get_stack().is_empty());
    assert!(s.get_changes().is_empty());
    assert_eq!(s.get_program(), &program);
}

#[test]
fn parse_refuses_a_bad_file() {
    assert_eq!(
        NaiveRenderer::parse(b"RWY".to_vec()).err(),
        Some(ParsingError::NotARailwayFile)
    );
    assert_eq!(
        NaiveRenderer::parse(b"RWY0\0\0\0".to_vec()).err(),
        Some(ParsingError::TooShort)
    );
}

#[test]
fn arguments_are_read_by_name() {
    let s = session();
    assert_eq!(s.get_argument("size"), Ok(Some(couple(200.0, 100.0))));
    assert_eq!(s.get_argument("shift"), Ok(Some(couple(0.0, 0.0))));
    assert_eq!(s.get_argument("siz"), Ok(None));
    assert_eq!(s.get_argument("sizes"), Ok(None));
    assert_eq!(s.get_argument(""), Ok(None));
}

#[test]
fn setting_an_argument_flags_its_slot() {
    let mut s = session();
    s.clear_changes();
    assert_eq!(s.get_changes(), &vec![false; 6]);
    assert_eq!(s.set_argument("size", couple(300.0, 300.0)), Ok(true));
    assert_eq!(s.get_argument("size"), Ok(Some(couple(300.0, 300.0))));
    assert_eq!(
        s.get_changes(),
        &vec![true, false, false, false, false, false]
    );
    assert_eq!(s.get_stack()[2], couple(7.0, 7.0));
}

#[test]
fn setting_the_same_value_changes_nothing() {
    let mut s = session();
    s.clear_changes();
    assert_eq!(s.set_argument("size", couple(200.0, 100.0)), Ok(true));
    assert_eq!(s.get_changes(), &vec![false; 6]);
    assert_eq!(s.set_argument("shift", couple(-0.0, 0.0)), Ok(true));
    assert_eq!(s.get_changes(), &vec![false; 6]);
    assert_eq!(s.get_stack()[3], couple(0.0, 0.0));
}

#[test]
fn setting_an_unknown_name_is_not_found() {
    let mut s = session();
    s.clear_changes();
    let before = s.get_stack().clone();
    assert_eq!(s.set_argument("width", couple(1.0, 1.0)), Ok(false));
    assert_eq!(s.get_stack(), &before);
    assert_eq!(s.get_changes(), &vec![false; 6]);
}

#[test]
fn outputs_are_read_through_their_address() {
    let mut s = session();
    assert_eq!(s.output("grown"), Ok(Some(Couple::zero())));
    assert_eq!(s.compute(adding), Ok(()));
    assert_eq!(s.output("grown"), Ok(Some(couple(201.0, 101.0))));
    assert_eq!(s.output("first"), Ok(Some(couple(200.0, 100.0))));
    assert_eq!(s.output("size"), Ok(None));
}

#[test]
fn computing_flags_what_changes() {
    let mut s = session();
    s.clear_changes();
    assert_eq!(s.compute(adding), Ok(()));
    assert_eq!(
        s.get_changes(),
        &vec![false, false, false, false, true, false]
    );
    s.clear_changes();
    assert_eq!(s.compute(adding), Ok(()));
    assert_eq!(s.get_changes(), &vec![false; 6]);
    assert_eq!(s.set_argument("size", couple(1.0, 1.0)), Ok(true));
    assert_eq!(s.compute(adding), Ok(()));
    assert_eq!(
        s.get_changes(),
        &vec![true, false, false, false, true, false]
    );
}

#[test]
fn a_path_is_stale_when_an_address_of_its_steps_is_flagged() {
    let mut s = session();
    assert_eq!(s.path_changed(0), Ok(true));
    assert_eq!(s.path_changed(3), Ok(false));
    s.clear_changes();
    for p in 0..4 {
        assert_eq!(s.path_changed(p), Ok(false));
    }
    assert_eq!(s.path_changed(4), Err(ParsingError::InvalidIndex));
    assert_eq!(s.set_argument("shift", couple(1.0, 0.0)), Ok(true));
    assert_eq!(s.path_changed(0), Ok(false));
    assert_eq!(s.path_changed(1), Ok(false));
    assert_eq!(s.path_changed(2), Ok(true));
    assert_eq!(s.path_changed(3), Ok(false));
    s.clear_changes();
    assert_eq!(s.set_argument("size", couple(1.0, 0.0)), Ok(true));
    assert_eq!(s.compute(adding), Ok(()));
    assert_eq!(s.path_changed(0), Ok(true));
    assert_eq!(s.path_changed(1), Ok(true));
    // The slot of the second instruction is computed from the shift for the
    // first time, so the arc that starts there is stale too.
    assert_eq!(s.path_changed(2), Ok(true));
    s.clear_changes();
    assert_eq!(s.set_argument("size", couple(0.0, 0.0)), Ok(true));
    s.clear_changes();
    assert_eq!(s.compute(adding), Ok(()));
    assert_eq!(s.path_changed(0), Ok(false));
    assert_eq!(s.path_changed(1), Ok(true));
    assert_eq!(s.path_changed(2), Ok(false));
}

#[test]
fn a_triangle_tells_its_points_from_its_colors() {
    let mut s = session();
    assert_eq!(s.triangle_changed(0), Ok((true, true)));
    s.clear_changes();
    assert_eq!(s.triangle_changed(0), Ok((false, false)));
    assert_eq!(s.triangle_changed(2), Err(ParsingError::InvalidIndex));
    assert_eq!(s.set_argument("shift", couple(1.0, 0.0)), Ok(true));
    assert_eq!(s.triangle_changed(0), Ok((false, true)));
    assert_eq!(s.triangle_changed(1), Ok((false, false)));
    s.clear_changes();
    assert_eq!(s.set_argument("size", couple(1.0, 0.0)), Ok(true));
    assert_eq!(s.triangle_changed(0), Ok((true, false)));
    assert_eq!(s.triangle_changed(1), Ok((false, false)));
    assert_eq!(s.compute(adding), Ok(()));
    assert_eq!(s.triangle_changed(1), Ok((true, false)));
}
