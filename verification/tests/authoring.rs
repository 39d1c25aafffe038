use railway::authoring::{assemble, find_or_push, serialize, Alike, Drawing};
use railway::computing::{Argument, Couple, Instruction, Operation, Output};
use railway::drawing::{PathStep, RawRenderingStep, RenderingStep, StepType, Stroker, Triangle};
use railway::format::Program;
use railway::primitive::{Arc, CubicCurve, Line, QuadraticCurve};
use railway::serialized::SerializedProgram;
use railway::ParsingError;

fn couple(x: f32, y: f32) -> Couple {
    Couple::new(x.to_bits(), y.to_bits())
}

fn arg(name: Option<&str>, value: Couple) -> Argument {
    Argument {
        name: name.map(|n| n.to_string()),
        value,
        range: (value, value),
    }
}

struct Scene {
    arguments: Vec<Argument>,
    instructions: Vec<Instruction>,
    outputs: Vec<Output>,
    steps: Vec<Drawing>,
    slope: Vec<PathStep>,
    disk: Vec<PathStep>,
    background: Vec<Triangle>,
    line_style: Stroker,
}

fn scene() -> Scene {
    let tau = core::f32::consts::TAU;
    let mut arguments = Vec::new();
    arguments.push(arg(None, Couple::zero()));
    let size = arguments.len() as u32;
    arguments.push(arg(Some("size"), couple(200.0, 200.0)));
    let top_left_f = arguments.len() as u32;
    arguments.push(arg(None, couple(0.05, 0.05)));
    let bottom_right_f = arguments.len() as u32;
    arguments.push(arg(None, couple(0.95, 0.95)));
    let contour_rg = arguments.len() as u32;
    arguments.push(arg(None, couple(0.5, 0.1)));
    let contour_ba = arguments.len() as u32;
    arguments.push(arg(None, couple(0.5, 1.0)));
    let pattern = arguments.len() as u32;
    arguments.push(arg(None, couple(100.0, 0.0)));
    let width = arguments.len() as u32;
    arguments.push(arg(None, couple(4.0, 0.0)));
    let inverted_rg = arguments.len() as u32;
    arguments.push(arg(None, couple(0.1, 0.5)));
    let deltas = arguments.len() as u32;
    arguments.push(arg(None, couple(tau, 0.0)));
    let radius = arguments.len() as u32;
    arguments.push(arg(None, couple(0.0, -40.0)));
    let center_f = arguments.len() as u32;
    arguments.push(arg(None, couple(0.75, 0.25)));

    let n = arguments.len() as u32;
    let mut instructions = Vec::new();
    let top_left = n + instructions.len() as u32;
    instructions.push(Instruction::new(Operation::Multiply2, size, top_left_f, 0));
    let bottom_right = n + instructions.len() as u32;
    instructions.push(Instruction::new(Operation::Multiply2, size, bottom_right_f, 0));
    let bottom_left = n + instructions.len() as u32;
    instructions.push(Instruction::new(Operation::Select2, top_left, bottom_right, 0));
    let top_right = n + instructions.len() as u32;
    instructions.push(Instruction::new(Operation::Select2, bottom_right, top_left, 0));
    let center = n + instructions.len() as u32;
    instructions.push(Instruction::new(Operation::Multiply2, size, center_f, 0));
    let start_point = n + instructions.len() as u32;
    instructions.push(Instruction::new(Operation::Add2, center, radius, 0));

    let contour = [contour_rg, contour_ba];
    let line_style = Stroker {
        pattern,
        width,
        color: contour,
    };
    let background = vec![
        Triangle {
            points: [top_left, bottom_left, bottom_right],
            colors: [contour, [inverted_rg, contour_ba], contour],
        },
        Triangle {
            points: [top_left, top_right, bottom_right],
            colors: [contour, [inverted_rg, contour_ba], contour],
        },
    ];
    let slope = vec![
        PathStep::Line(Line {
            points: [bottom_left, top_left],
        }),
        PathStep::QuadraticCurve(QuadraticCurve {
            points: [top_left, bottom_left, bottom_right],
        }),
        PathStep::Line(Line {
            points: [bottom_right, bottom_left],
        }),
    ];
    let disk = vec![PathStep::Arc(Arc {
        start_point,
        center,
        deltas,
    })];
    let steps = vec![
        RenderingStep::Clip(slope.clone(), background.clone()),
        RenderingStep::Stroke(slope.clone(), line_style),
        RenderingStep::Clip(disk.clone(), background.clone()),
        RenderingStep::Stroke(disk.clone(), line_style),
    ];
    Scene {
        arguments,
        instructions,
        outputs: vec![Output {
            name: Some("corner".to_string()),
            address: top_left,
        }],
        steps,
        slope,
        disk,
        background,
        line_style,
    }
}

fn walk_path(program: &SerializedProgram, i: usize) -> Vec<PathStep> {
    let mut steps = program.path(i).ok().unwrap();
    let mut all = Vec::new();
    while let Some(step) = steps.next() {
        all.push(step.unwrap());
    }
    all
}

fn walk_background(program: &SerializedProgram, i: usize) -> Vec<Triangle> {
    let mut triangles = program.background(i).ok().unwrap();
    let mut all = Vec::new();
    while let Some(triangle) = triangles.next() {
        all.push(triangle.unwrap());
    }
    all
}

#[test]
fn each_record_stands_once() {
    let s = scene();
    let program = assemble(&s.arguments, &s.instructions, &s.outputs, &s.steps).unwrap();
    assert_eq!(program.arguments, s.arguments);
    assert_eq!(program.instructions, s.instructions);
    assert_eq!(program.outputs, s.outputs);
    assert_eq!(program.triangles, s.background);
    assert_eq!(program.strokers, vec![s.line_style]);
    assert_eq!(program.lines.len(), 2);
    assert_eq!(program.quadratic_curves.len(), 1);
    assert_eq!(program.arcs.len(), 1);
    assert_eq!(program.cubic_curves.len(), 0);
    assert_eq!(
        program.paths,
        vec![
            vec![
                (StepType::Line, 0),
                (StepType::QuadraticCurve, 0),
                (StepType::Line, 1)
            ],
            vec![(StepType::Arc, 0)]
        ]
    );
    assert_eq!(program.backgrounds, vec![vec![0, 1]]);
    assert_eq!(
        program.rendering_steps,
        vec![
            RawRenderingStep::Clip(0, 0),
            RawRenderingStep::Stroke(0, 0),
            RawRenderingStep::Clip(1, 0),
            RawRenderingStep::Stroke(1, 0)
        ]
    );
    assert_eq!(program.validate(), Ok(()));
}

#[test]
fn the_file_means_the_drawings() {
    let s = scene();
    let bytes = serialize(&s.arguments, &s.instructions, &s.outputs, &s.steps).unwrap();
    let program = SerializedProgram::new(bytes).unwrap();
    assert_eq!(program.rendering_steps(), 4);
    for (i, step) in s.steps.iter().enumerate() {
        match (program.raw_rendering_step(i).unwrap(), step) {
            (RawRenderingStep::Clip(p, b), RenderingStep::Clip(path, background)) => {
                assert_eq!(&walk_path(&program, p as usize), path);
                assert_eq!(&walk_background(&program, b as usize), background);
            }
            (RawRenderingStep::Stroke(p, k), RenderingStep::Stroke(path, stroker)) => {
                assert_eq!(&walk_path(&program, p as usize), path);
                assert_eq!(program.stroker(k as usize), Ok(*stroker));
            }
            _ => panic!("step {} is of the other kind", i),
        }
    }
    assert_eq!(walk_path(&program, 0), s.slope);
    assert_eq!(walk_path(&program, 1), s.disk);
    assert_eq!(program.argument(1).unwrap().name, Some("size".to_string()));
    assert_eq!(program.output(0).unwrap().name, Some("corner".to_string()));
}

#[test]
fn writing_again_a_file_that_was_serialized_changes_nothing() {
    let s = scene();
    let bytes = serialize(&s.arguments, &s.instructions, &s.outputs, &s.steps).unwrap();
    let read = Program::parse(&bytes).unwrap();
    let mut again = Vec::new();
    read.dump(&mut again).unwrap();
    assert_eq!(again, bytes);
    assert_eq!(read.file_size(), Ok(bytes.len()));
}

#[test]
fn nothing_to_draw_is_the_tables_of_values_alone() {
    let arguments = vec![arg(Some("x"), couple(1.0, 2.0))];
    let bytes = serialize(&arguments, &vec![], &vec![], &vec![]).unwrap();
    let mut expected = Program::new();
    expected.arguments = arguments;
    let mut direct = Vec::new();
    expected.dump(&mut direct).unwrap();
    assert_eq!(bytes, direct);
}

#[test]
fn an_empty_path_and_an_empty_background_are_kept() {
    let arguments = vec![arg(None, Couple::zero())];
    let steps: Vec<Drawing> = vec![
        RenderingStep::Clip(vec![], vec![]),
        RenderingStep::Clip(vec![], vec![]),
    ];
    let program = assemble(&arguments, &vec![], &vec![], &steps).unwrap();
    assert_eq!(program.paths, vec![Vec::<(StepType, u32)>::new()]);
    assert_eq!(program.backgrounds, vec![Vec::<u32>::new()]);
    assert_eq!(
        program.rendering_steps,
        vec![RawRenderingStep::Clip(0, 0), RawRenderingStep::Clip(0, 0)]
    );
    let bytes = serialize(&arguments, &vec![], &vec![], &steps).unwrap();
    assert_eq!(Program::parse(&bytes), Ok(program));
}

#[test]
fn an_address_beyond_the_stack_is_refused() {
    let arguments = vec![arg(None, Couple::zero())];
    let steps: Vec<Drawing> = vec![RenderingStep::Stroke(
        vec![PathStep::Line(Line { points: [0, 1] })],
        Stroker {
            pattern: 0,
            width: 0,
            color: [0, 0],
        },
    )];
    assert_eq!(
        serialize(&arguments, &vec![], &vec![], &steps),
        Err(ParsingError::InvalidIndex)
    );
}

#[test]
fn a_name_with_a_zero_byte_is_refused() {
    let arguments = vec![arg(Some("a\0b"), Couple::zero())];
    assert_eq!(
        serialize(&arguments, &vec![], &vec![], &vec![]),
        Err(ParsingError::InvalidName)
    );
}

#[test]
fn find_or_push_keeps_the_first_of_two_alike() {
    let mut table = vec![Line { points: [1, 2] }, Line { points: [3, 4] }];
    assert_eq!(find_or_push(&mut table, Line { points: [3, 4] }), 1);
    assert_eq!(table.len(), 2);
    assert_eq!(find_or_push(&mut table, Line { points: [4, 3] }), 2);
    assert_eq!(table.len(), 3);
    assert_eq!(find_or_push(&mut table, Line { points: [1, 2] }), 0);
    let mut runs: Vec<Vec<u32>> = vec![vec![1, 2], vec![]];
    assert_eq!(find_or_push(&mut runs, vec![]), 1);
    assert_eq!(find_or_push(&mut runs, vec![1]), 2);
    assert_eq!(find_or_push(&mut runs, vec![1, 2]), 0);
}

#[test]
fn records_are_alike_when_every_field_is() {
    let arc = Arc {
        start_point: 1,
        center: 2,
        deltas: 3,
    };
    assert!(arc.alike(&arc));
    assert!(!arc.alike(&Arc { deltas: 4, ..arc }));
    assert!(!arc.alike(&Arc { center: 4, ..arc }));
    assert!(!arc.alike(&Arc {
        start_point: 4,
        ..arc
    }));
    let cubic = CubicCurve {
        points: [1, 2, 3, 4],
    };
    assert!(cubic.alike(&cubic));
    assert!(!cubic.alike(&CubicCurve {
        points: [1, 2, 3, 5]
    }));
    let quadratic = QuadraticCurve { points: [1, 2, 3] };
    assert!(quadratic.alike(&quadratic));
    assert!(!quadratic.alike(&QuadraticCurve { points: [0, 2, 3] }));
    let stroker = Stroker {
        pattern: 1,
        width: 2,
        color: [3, 4],
    };
    assert!(stroker.alike(&stroker));
    assert!(!stroker.alike(&Stroker {
        color: [3, 5],
        ..stroker
    }));
    let triangle = Triangle {
        points: [1, 2, 3],
        colors: [[4, 5], [6, 7], [8, 9]],
    };
    assert!(triangle.alike(&triangle));
    assert!(!triangle.alike(&Triangle {
        colors: [[4, 5], [6, 7], [8, 0]],
        ..triangle
    }));
    assert!(!triangle.alike(&Triangle {
        points: [1, 0, 3],
        ..triangle
    }));
    let path = vec![(StepType::Line, 1), (StepType::Arc, 0)];
    assert!(path.alike(&path.clone()));
    assert!(!path.alike(&vec![(StepType::Line, 1), (StepType::CubicCurve, 0)]));
    assert!(!path.alike(&vec![(StepType::Line, 1)]));
}
