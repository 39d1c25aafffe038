use railway::computing::{Argument, Couple, Instruction, Operation, Output};
use railway::drawing::{RawRenderingStep, StepType, Stroker, Triangle};
use railway::format::{dump, parse, size, Program};
use railway::primitive::{Arc, CubicCurve, Line, QuadraticCurve};
use railway::wire::{push_word, read_word, to_bytes};
use railway::ParsingError;

fn couple(x: f32, y: f32) -> Couple {
    Couple::new(x.to_bits(), y.to_bits())
}

fn file_of(words: &[u32], names: &[u8]) -> Vec<u8> {
    let mut bytes = b"RWY0".to_vec();
    for w in words {
        bytes.extend_from_slice(&w.to_be_bytes());
    }
    bytes.extend_from_slice(names);
    bytes
}

fn sample() -> Program {
    let mut p = Program::new();
    p.arguments.push(Argument {
        name: Some("a".to_string()),
        value: couple(1.0, 2.0),
        range: (couple(0.0, 0.0), couple(3.0, 4.0)),
    });
    p.instructions
        .push(Instruction::new(Operation::Swap1, 0, 0, 0));
    p.outputs.push(Output {
        name: Some("o".to_string()),
        address: 1,
    });
    p.triangles.push(Triangle {
        points: [0, 1, 0],
        colors: [[0, 1], [1, 0], [0, 0]],
    });
    p.arcs.push(Arc {
        start_point: 0,
        center: 1,
        deltas: 0,
    });
    p.cubic_curves.push(CubicCurve {
        points: [0, 1, 0, 1],
    });
    p.quadratic_curves
        .push(QuadraticCurve { points: [1, 0, 1] });
    p.lines.push(Line { points: [0, 1] });
    p.lines.push(Line { points: [1, 1] });
    p.strokers.push(Stroker {
        pattern: 0,
        width: 1,
        color: [0, 1],
    });
    p.paths
        .push(vec![(StepType::Line, 0), (StepType::Line, 1)]);
    p.paths.push(vec![(StepType::Line, 1)]);
    p.paths.push(vec![
        (StepType::Arc, 0),
        (StepType::Line, 0),
        (StepType::Line, 1),
    ]);
    p.backgrounds.push(vec![0]);
    p.backgrounds.push(vec![0, 0]);
    p.rendering_steps.push(RawRenderingStep::Clip(0, 0));
    p.rendering_steps.push(RawRenderingStep::Stroke(2, 0));
    p
}

fn sample_words() -> Vec<u32> {
    let f = |v: f32| v.to_bits();
    vec![
        // arguments
        1, 0, f(1.0), f(2.0), f(0.0), f(3.0), f(0.0), f(4.0),
        // instructions
        1, 0xB, 0, 0, 0,
        // outputs
        1, 2, 1,
        // triangles
        1, 0, 1, 0, 0, 1, 1, 0, 0, 0,
        // arcs
        1, 0, 1, 0,
        // cubic curves
        1, 0, 1, 0, 1,
        // quadratic curves
        1, 1, 0, 1,
        // lines
        2, 0, 1, 1, 1,
        // strokers
        1, 0, 1, 0, 1,
        // pool of steps
        5, 3, 0, 3, 1, 0, 0, 3, 0, 3, 1,
        // paths
        3, 0, 2, 1, 1, 2, 3,
        // pool of triangle indices
        3, 0, 0, 0,
        // backgrounds
        2, 0, 1, 1, 2,
        // rendering steps
        2, 0, 0, 0, 1, 2, 0,
        // names
        4,
    ]
}

fn sample_file() -> Vec<u8> {
    file_of(&sample_words(), b"a\0o\0")
}

fn encoded(p: &Program) -> Vec<u8> {
    let mut out = Vec::new();
    p.dump(&mut out).unwrap();
    out
}

#[test]
fn words_are_big_endian() {
    let mut out = vec![9u8];
    push_word(&mut out, 0x0102_0304);
    assert_eq!(out, vec![9, 1, 2, 3, 4]);
    assert_eq!(read_word(&out, 1), 0x0102_0304);
    let mut more = Vec::new();
    to_bytes(&vec![1, 0xFFFF_FFFF, 0x8000_0001], &mut more);
    assert_eq!(more, vec![0, 0, 0, 1, 255, 255, 255, 255, 128, 0, 0, 1]);
    assert_eq!(read_word(&more, 4), u32::MAX);
    assert_eq!(read_word(&more, 8), 0x8000_0001);
}

#[test]
fn the_empty_program_is_the_magic_and_fifteen_zero_counts() {
    let p = Program::new();
    let bytes = encoded(&p);
    assert_eq!(bytes, file_of(&[0; 15], b""));
    assert_eq!(bytes.len(), 64);
    assert_eq!(p.file_size(), Ok(64));
    assert_eq!(Program::parse(&bytes), Ok(Program::new()));
}

#[test]
fn the_sample_is_written_word_for_word() {
    assert_eq!(encoded(&sample()), sample_file());
}

#[test]
fn the_sample_is_read_back() {
    assert_eq!(Program::parse(&sample_file()), Ok(sample()));
    assert_eq!(parse(&sample_file()), Ok(sample()));
}

#[test]
fn writing_again_what_was_read_gives_the_same_bytes() {
    let bytes = encoded(&sample());
    let read = Program::parse(&bytes).unwrap();
    assert_eq!(encoded(&read), bytes);
}

#[test]
fn size_agrees_with_what_is_written() {
    let p = sample();
    let mut out = Vec::new();
    let written = p.dump(&mut out).unwrap();
    assert_eq!(written, out.len());
    assert_eq!(p.file_size(), Ok(out.len()));
    assert_eq!(size(&p), Ok(out.len()));
    assert_eq!(out.len(), 4 + 4 * sample_words().len() + 4);
}

#[test]
fn dump_appends_to_what_the_buffer_holds() {
    let p = sample();
    let mut out = vec![1u8, 2, 3];
    let written = dump(&p, &mut out).unwrap();
    assert_eq!(written, sample_file().len());
    assert_eq!(&out[..3], &[1, 2, 3]);
    assert_eq!(&out[3..], &sample_file()[..]);
}

#[test]
fn runs_share_the_pools() {
    let mut p = Program::new();
    p.arguments.push(Argument::unnamed(Couple::zero()));
    p.lines.push(Line { points: [0, 0] });
    p.triangles.push(Triangle {
        points: [0, 0, 0],
        colors: [[0, 0], [0, 0], [0, 0]],
    });
    p.paths.push(vec![(StepType::Line, 0)]);
    p.paths
        .push(vec![(StepType::Line, 0), (StepType::Line, 0)]);
    p.paths.push(vec![(StepType::Line, 0)]);
    p.paths.push(vec![]);
    p.backgrounds.push(vec![0, 0]);
    p.backgrounds.push(vec![0]);
    let bytes = encoded(&p);
    let words: Vec<u32> = bytes[4..]
        .chunks(4)
        .map(|c| u32::from_be_bytes([c[0], c[1], c[2], c[3]]))
        .collect();
    // After 1 argument (8 words), 11 words of counts and rows up to the lines,
    // an empty table of strokers, comes the pool of steps.
    let steps = 8 + 1 + 1 + (1 + 9) + 1 + 1 + 1 + (1 + 2) + 1;
    assert_eq!(&words[steps..steps + 7], &[3, 3, 0, 3, 0, 3, 0]);
    // The paths: the first at row 0; the second is not in the pool, and is
    // added after it; the third is found at row 0; the empty one at row 0.
    assert_eq!(
        &words[steps + 7..steps + 7 + 9],
        &[4, 0, 1, 1, 2, 0, 1, 0, 0]
    );
    let indexes = steps + 7 + 9;
    assert_eq!(&words[indexes..indexes + 3], &[2, 0, 0]);
    assert_eq!(&words[indexes + 3..indexes + 3 + 5], &[2, 0, 2, 0, 1]);
    assert_eq!(Program::parse(&bytes), Ok(p));
}

#[test]
fn every_shorter_file_is_too_short() {
    let bytes = sample_file();
    for len in 4..bytes.len() {
        assert_eq!(
            Program::parse(&bytes[..len]),
            Err(ParsingError::TooShort),
            "prefix of {} bytes",
            len
        );
    }
    let empty = encoded(&Program::new());
    assert_eq!(
        Program::parse(&empty[..empty.len() - 1]),
        Err(ParsingError::TooShort)
    );
}

#[test]
fn a_file_without_its_magic_is_no_railway_file() {
    let bytes = sample_file();
    for len in 0..4 {
        assert_eq!(
            Program::parse(&bytes[..len]),
            Err(ParsingError::NotARailwayFile)
        );
    }
    for i in 0..4 {
        let mut flipped = bytes.clone();
        flipped[i] ^= 0x20;
        assert_eq!(
            Program::parse(&flipped),
            Err(ParsingError::NotARailwayFile)
        );
    }
}

#[test]
fn a_byte_too_many_is_excess() {
    let mut bytes = sample_file();
    bytes.push(0);
    assert_eq!(Program::parse(&bytes), Err(ParsingError::ExcessBytes));
    let mut empty = encoded(&Program::new());
    empty.push(7);
    assert_eq!(Program::parse(&empty), Err(ParsingError::ExcessBytes));
}

#[test]
fn an_operand_beyond_the_stack_is_an_invalid_index() {
    let mut words = sample_words();
    words[10] = u32::MAX;
    assert_eq!(
        Program::parse(&file_of(&words, b"a\0o\0")),
        Err(ParsingError::InvalidIndex)
    );
    let mut own_slot = sample_words();
    own_slot[12] = 1;
    assert_eq!(
        Program::parse(&file_of(&own_slot, b"a\0o\0")),
        Err(ParsingError::InvalidIndex)
    );
}

#[test]
fn every_address_and_index_is_checked() {
    // The places of the words that hold an address or an index, and a value
    // that has no referent there.
    let places: [(usize, u32); 22] = [
        (15, 2),  // output
        (17, 2),  // triangle point
        (22, 2),  // triangle color
        (27, 2),  // arc
        (32, 2),  // cubic curve
        (36, 2),  // quadratic curve
        (40, 2),  // line
        (43, 2),  // line
        (45, 2),  // stroker pattern
        (48, 2),  // stroker color
        (51, 2),  // step: line index
        (55, 1),  // step: arc index
        (61, 6),  // path: first row
        (62, 6),  // path: length
        (66, 5),  // path: length
        (68, 1),  // triangle index
        (72, 4),  // background: first row
        (73, 4),  // background: length
        (78, 3),  // rendering step: path
        (79, 2),  // rendering step: background
        (81, 3),  // rendering step: path
        (82, 1),  // rendering step: stroker
    ];
    assert_eq!(Program::parse(&file_of(&sample_words(), b"a\0o\0")), Ok(sample()));
    for (place, value) in places {
        let mut words = sample_words();
        words[place] = value;
        assert_eq!(
            Program::parse(&file_of(&words, b"a\0o\0")),
            Err(ParsingError::InvalidIndex),
            "word {}",
            place
        );
    }
}

#[test]
fn a_code_that_names_no_operation_is_invalid() {
    let mut words = sample_words();
    words[9] = 14;
    assert_eq!(
        Program::parse(&file_of(&words, b"a\0o\0")),
        Err(ParsingError::InvalidOperation)
    );
    words[10] = u32::MAX;
    assert_eq!(
        Program::parse(&file_of(&words, b"a\0o\0")),
        Err(ParsingError::InvalidOperation)
    );
}

#[test]
fn a_code_that_names_no_step_type_is_invalid() {
    let mut words = sample_words();
    words[50] = 4;
    assert_eq!(
        Program::parse(&file_of(&words, b"a\0o\0")),
        Err(ParsingError::InvalidStepType)
    );
}

#[test]
fn a_tag_that_is_neither_clip_nor_stroke_is_invalid() {
    let mut words = sample_words();
    words[77] = 2;
    assert_eq!(
        Program::parse(&file_of(&words, b"a\0o\0")),
        Err(ParsingError::InvalidRenderingStep)
    );
}

#[test]
fn names_must_be_terminated_utf8_inside_the_names() {
    let words = sample_words();
    assert_eq!(
        Program::parse(&file_of(&words, b"a\0\xff\0")),
        Err(ParsingError::InvalidName)
    );
    assert_eq!(
        Program::parse(&file_of(&words, b"a\0oo")),
        Err(ParsingError::InvalidName)
    );
    let mut beyond = sample_words();
    beyond[14] = 4;
    assert_eq!(
        Program::parse(&file_of(&beyond, b"a\0o\0")),
        Err(ParsingError::InvalidName)
    );
    let mut unnamed = sample_words();
    unnamed[14] = u32::MAX;
    let read = Program::parse(&file_of(&unnamed, b"a\0o\0")).unwrap();
    assert_eq!(read.outputs[0].name, None);
}

#[test]
fn names_are_read_as_text() {
    let mut words = sample_words();
    let last = words.len() - 1;
    words[last] = 14;
    words[1] = 2;
    words[14] = 9;
    let read = Program::parse(&file_of(&words, "a\0h\u{e9}llo\0\u{1F682}\0".as_bytes()))
        .unwrap();
    assert_eq!(read.arguments[0].name, Some("h\u{e9}llo".to_string()));
    assert_eq!(read.outputs[0].name, Some("\u{1F682}".to_string()));
    let shared = {
        let mut w = sample_words();
        w[14] = 0;
        w
    };
    let both = Program::parse(&file_of(&shared, b"a\0o\0")).unwrap();
    assert_eq!(both.arguments[0].name, Some("a".to_string()));
    assert_eq!(both.outputs[0].name, Some("a".to_string()));
}

#[test]
fn an_empty_name_is_a_name() {
    let mut p = Program::new();
    p.arguments.push(Argument::named(String::new(), Couple::zero()));
    p.arguments.push(Argument::unnamed(Couple::zero()));
    p.arguments
        .push(Argument::named("b".to_string(), Couple::zero()));
    let bytes = encoded(&p);
    assert_eq!(&bytes[bytes.len() - 7..], &[0, 0, 0, 3, 0, b'b', 0]);
    assert_eq!(Program::parse(&bytes), Ok(p));
}

#[test]
fn a_program_with_an_address_beyond_its_stack_is_not_written() {
    let mut p = sample();
    p.lines[1].points[0] = 2;
    assert_eq!(p.validate(), Err(ParsingError::InvalidIndex));
    let mut out = vec![5u8];
    assert_eq!(p.dump(&mut out), Err(ParsingError::InvalidIndex));
    assert_eq!(out, vec![5u8]);
    assert_eq!(p.file_size(), Err(ParsingError::InvalidIndex));
}

#[test]
fn a_program_with_a_zero_byte_in_a_name_is_not_written() {
    let mut p = sample();
    p.outputs[0].name = Some("o\0p".to_string());
    assert_eq!(p.validate(), Ok(()));
    let mut out = Vec::new();
    assert_eq!(p.dump(&mut out), Err(ParsingError::InvalidName));
    assert!(out.is_empty());
    p.lines[0].points[0] = 9;
    assert_eq!(p.dump(&mut out), Err(ParsingError::InvalidIndex));
}

#[test]
fn validation_checks_each_table() {
    assert_eq!(sample().validate(), Ok(()));
    assert_eq!(Program::new().validate(), Ok(()));
    let cases: Vec<Box<dyn Fn(&mut Program)>> = vec![
        Box::new(|p| p.instructions[0].operands[2] = 1),
        Box::new(|p| p.outputs[0].address = 2),
        Box::new(|p| p.triangles[0].points[2] = 2),
        Box::new(|p| p.triangles[0].colors[2][1] = 2),
        Box::new(|p| p.arcs[0].deltas = 2),
        Box::new(|p| p.cubic_curves[0].points[3] = 2),
        Box::new(|p| p.quadratic_curves[0].points[0] = 2),
        Box::new(|p| p.lines[0].points[1] = 2),
        Box::new(|p| p.strokers[0].pattern = 2),
        Box::new(|p| p.strokers[0].color[1] = 2),
        Box::new(|p| p.paths[2][0] = (StepType::Arc, 1)),
        Box::new(|p| p.paths[0][1] = (StepType::CubicCurve, 1)),
        Box::new(|p| p.paths[1][0] = (StepType::QuadraticCurve, 1)),
        Box::new(|p| p.paths[1][0] = (StepType::Line, 2)),
        Box::new(|p| p.backgrounds[1][1] = 1),
        Box::new(|p| p.rendering_steps[0] = RawRenderingStep::Clip(3, 0)),
        Box::new(|p| p.rendering_steps[0] = RawRenderingStep::Clip(0, 2)),
        Box::new(|p| p.rendering_steps[1] = RawRenderingStep::Stroke(3, 0)),
        Box::new(|p| p.rendering_steps[1] = RawRenderingStep::Stroke(0, 1)),
    ];
    for (i, change) in cases.iter().enumerate() {
        let mut p = sample();
        change(&mut p);
        assert_eq!(p.validate(), Err(ParsingError::InvalidIndex), "case {}", i);
    }
}

#[test]
fn step_types_have_fixed_codes() {
    assert_eq!(StepType::Arc.as_u32(), 0);
    assert_eq!(StepType::CubicCurve.as_u32(), 1);
    assert_eq!(StepType::QuadraticCurve.as_u32(), 2);
    assert_eq!(StepType::Line.as_u32(), 3);
    assert_eq!(StepType::from_u32(0), Some(StepType::Arc));
    assert_eq!(StepType::from_u32(1), Some(StepType::CubicCurve));
    assert_eq!(StepType::from_u32(2), Some(StepType::QuadraticCurve));
    assert_eq!(StepType::from_u32(3), Some(StepType::Line));
    assert_eq!(StepType::from_u32(4), None);
}
