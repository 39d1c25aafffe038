use railway::computing::{Argument, Couple, Instruction, Operation};
use railway::drawing::{PathStep, RawRenderingStep, RenderingStep, Stroker, Triangle};
use railway::format::Program;
use railway::primitive::Line;
use railway::rendering::{blend_each, blend_flat, clear_window, NaiveRenderer, Pixel};
use railway::{serialize, Drawing};
use zeno::{Command, Fill, Mask, PathBuilder, Stroke};

fn couple(x: f32, y: f32) -> Couple {
    Couple::new(x.to_bits(), y.to_bits())
}

fn numbers(c: Couple) -> (f32, f32) {
    (f32::from_bits(c.x), f32::from_bits(c.y))
}

fn arithmetic(operation: Operation, a: Couple, b: Couple, _c: Couple) -> Couple {
    let (ax, ay) = numbers(a);
    let (bx, by) = numbers(b);
    match operation {
        Operation::Multiply2 => couple(ax * bx, ay * by),
        Operation::Add2 => couple(ax + bx, ay + by),
        _ => panic!("not used here"),
    }
}

fn unnamed(x: f32, y: f32) -> Argument {
    Argument::unnamed(couple(x, y))
}

/// A square from 5% to 95% of the size, filled with opaque red through one
/// triangle that covers it, then outlined in opaque black.
fn square(stroked: bool) -> Vec<u8> {
    let arguments = vec![
        Argument::named("size".to_string(), couple(100.0, 100.0)), // 0
        unnamed(0.05, 0.05),                                       // 1
        unnamed(0.95, 0.95),                                       // 2
        unnamed(1.0, 0.0),                                         // 3: red, green
        unnamed(0.0, 1.0),                                         // 4: blue, alpha
        unnamed(-1000.0, -1000.0),                                 // 5
        unnamed(3000.0, -1000.0),                                  // 6
        unnamed(-1000.0, 3000.0),                                  // 7
        unnamed(4.0, 0.0),                                         // 8: width
        unnamed(0.0, 0.0),                                         // 9: pattern; red, green
    ];
    let instructions = vec![
        Instruction::new(Operation::Multiply2, 0, 1, 0), // 10: top left
        Instruction::new(Operation::Multiply2, 0, 2, 0), // 11: bottom right
        Instruction::new(Operation::Select2, 10, 11, 0), // 12: bottom left
        Instruction::new(Operation::Select2, 11, 10, 0), // 13: top right
    ];
    let path = vec![
        PathStep::Line(Line { points: [10, 13] }),
        PathStep::Line(Line { points: [11, 12] }),
    ];
    let background = vec![Triangle {
        points: [5, 6, 7],
        colors: [[3, 4], [3, 4], [3, 4]],
    }];
    let mut steps: Vec<Drawing> = vec![RenderingStep::Clip(path.clone(), background)];
    if stroked {
        steps.push(RenderingStep::Stroke(
            path,
            Stroker {
                pattern: 9,
                width: 8,
                color: [9, 4],
            },
        ));
    }
    serialize(&arguments, &instructions, &vec![], &steps).unwrap()
}

fn polyline(session: &NaiveRenderer, path: usize) -> Vec<Command> {
    let mut steps = session.get_program().path(path).ok().unwrap();
    let stack = session.get_stack();
    let mut points: Vec<(f32, f32)> = Vec::new();
    while let Some(step) = steps.next() {
        match step.unwrap() {
            PathStep::Line(line) => {
                points.push(numbers(stack[line.points[0] as usize]));
                points.push(numbers(stack[line.points[1] as usize]));
            }
            _ => panic!("lines only"),
        }
    }
    let mut commands: Vec<Command> = Vec::new();
    for (i, point) in points.iter().enumerate() {
        match i {
            0 => commands.move_to(*point),
            _ => commands.line_to(*point),
        };
    }
    commands.close();
    commands
}

fn inside(triangle: &Triangle, stack: &Vec<Couple>, x: f32, y: f32) -> bool {
    let p: Vec<(f32, f32)> = triangle
        .points
        .iter()
        .map(|a| numbers(stack[*a as usize]))
        .collect();
    let v0 = (p[1].0 - p[0].0, p[1].1 - p[0].1);
    let v1 = (p[2].0 - p[0].0, p[2].1 - p[0].1);
    let det = v0.0 * v1.1 - v1.0 * v0.1;
    let d = (x - p[0].0, y - p[0].1);
    let v = (d.0 * v1.1 - d.1 * v1.0) / det;
    let w = (d.1 * v0.0 - d.0 * v0.1) / det;
    let u = 1.0 - v - w;
    u >= 0.0 && v >= 0.0 && w >= 0.0
}

fn color_of(stack: &Vec<Couple>, address: [u32; 2]) -> Pixel {
    let (r, g) = numbers(stack[address[0] as usize]);
    let (b, a) = numbers(stack[address[1] as usize]);
    Pixel {
        r: (r * 255.0) as u8,
        g: (g * 255.0) as u8,
        b: (b * 255.0) as u8,
        a: (a * 255.0) as u8,
    }
}

fn render(session: &mut NaiveRenderer, dst: &mut Vec<Pixel>, w: usize, h: usize, stride: usize) {
    let mut mask = vec![0u8; w * h];
    clear_window(dst, w, h, stride);
    session.clear_changes();
    let program = session.get_program();
    for r in 0..program.rendering_steps() {
        mask.fill(0);
        match program.raw_rendering_step(r).unwrap() {
            RawRenderingStep::Clip(path, background) => {
                let commands = polyline(session, path as usize);
                Mask::new(&commands)
                    .size(w as u32, h as u32)
                    .style(Fill::NonZero)
                    .render_into(&mut mask, None);
                let mut colors: Vec<Option<Pixel>> = vec![None; w * h];
                for y in 0..h {
                    for x in 0..w {
                        if mask[y * w + x] != 0 {
                            let mut triangles =
                                program.background(background as usize).ok().unwrap();
                            while let Some(triangle) = triangles.next() {
                                let triangle = triangle.unwrap();
                                if inside(&triangle, session.get_stack(), x as f32, y as f32) {
                                    colors[y * w + x] =
                                        Some(color_of(session.get_stack(), triangle.colors[0]));
                                    break;
                                }
                            }
                        }
                    }
                }
                blend_each(dst, &mask, &colors, w, h, stride, true);
            }
            RawRenderingStep::Stroke(path, stroker) => {
                let commands = polyline(session, path as usize);
                let stroker = program.stroker(stroker as usize).unwrap();
                let (wx, wy) = numbers(session.get_stack()[stroker.width as usize]);
                Mask::new(&commands)
                    .size(w as u32, h as u32)
                    .style(Stroke::new(wx + wy))
                    .render_into(&mut mask, None);
                let color = color_of(session.get_stack(), stroker.color);
                blend_flat(dst, &mask, w, h, stride, color, true);
            }
        }
    }
}

#[test]
fn the_empty_program_renders_nothing() {
    let mut bytes = Vec::new();
    Program::new().dump(&mut bytes).unwrap();
    assert_eq!(Program::parse(&bytes), Ok(Program::new()));
    let mut session = NaiveRenderer::parse(bytes).ok().unwrap();
    assert_eq!(session.compute(arithmetic), Ok(()));
    let mut dst = vec![
        Pixel {
            r: 9,
            g: 9,
            b: 9,
            a: 9
        };
        100
    ];
    render(&mut session, &mut dst, 10, 10, 10);
    assert_eq!(
        dst,
        vec![
            Pixel {
                r: 0,
                g: 0,
                b: 0,
                a: 0
            };
            100
        ]
    );
}

#[test]
fn a_red_square_is_left_where_the_path_is() {
    let mut session = NaiveRenderer::parse(square(false)).ok().unwrap();
    assert_eq!(
        session.set_argument("size", couple(200.0, 200.0)),
        Ok(true)
    );
    assert_eq!(session.compute(arithmetic), Ok(()));
    assert_eq!(session.get_stack()[10], couple(200.0 * 0.05, 200.0 * 0.05));
    assert_eq!(session.get_stack()[11], couple(200.0 * 0.95, 200.0 * 0.95));
    let stride = 320;
    let grey = Pixel {
        r: 7,
        g: 7,
        b: 7,
        a: 7,
    };
    let mut dst = vec![grey; stride * 300];
    render(&mut session, &mut dst, 300, 300, stride);
    let red = Pixel {
        r: 255,
        g: 0,
        b: 0,
        a: 255,
    };
    let clear = Pixel {
        r: 0,
        g: 0,
        b: 0,
        a: 0,
    };
    for y in 0..300 {
        for x in 0..stride {
            let pixel = dst[y * stride + x];
            if x >= 300 {
                assert_eq!(pixel, grey, "({}, {}) is beyond the window", x, y);
            } else if (11..189).contains(&x) && (11..189).contains(&y) {
                assert_eq!(pixel, red, "({}, {}) is inside", x, y);
            } else if x < 9 || x > 190 || y < 9 || y > 190 {
                assert_eq!(pixel, clear, "({}, {}) is outside", x, y);
            }
        }
    }
}

#[test]
fn a_stroke_is_laid_over_the_fill() {
    let mut session = NaiveRenderer::parse(square(true)).ok().unwrap();
    assert_eq!(session.compute(arithmetic), Ok(()));
    let mut dst = vec![
        Pixel {
            r: 0,
            g: 0,
            b: 0,
            a: 0
        };
        100 * 100
    ];
    render(&mut session, &mut dst, 100, 100, 100);
    // The square goes from 5 to 95; its outline is 4 wide and black.
    assert_eq!(
        dst[50 * 100 + 50],
        Pixel {
            r: 255,
            g: 0,
            b: 0,
            a: 255
        }
    );
    assert_eq!(
        dst[50 * 100 + 5],
        Pixel {
            r: 0,
            g: 0,
            b: 0,
            a: 255
        }
    );
    assert_eq!(
        dst[5 * 100 + 50],
        Pixel {
            r: 0,
            g: 0,
            b: 0,
            a: 255
        }
    );
    assert_eq!(
        dst[50 * 100 + 1],
        Pixel {
            r: 0,
            g: 0,
            b: 0,
            a: 0
        }
    );
}
