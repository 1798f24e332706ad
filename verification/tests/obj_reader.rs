use tinyrender::numbers::{check_float_literal, parse_index, IndexError};
use tinyrender::obj::{parse, parse_line, Mesh, ObjError};

fn chars(s: &str) -> Vec<char> {
    s.chars().collect()
}

const CUBE_PART: &str = "# a comment\n\
v 1.0 -2.5 3e2\n\
v 0 0 0 1.0\n\
vn 0.0 1.0 0.0\n\
vt 0.5 0.5\n\
\n\
f 1/1/1 2//1 1\n\
   f\t2 1/5\r\n\
o object\n";

#[test]
fn parse_reads_vertices_normals_and_faces() {
    let mesh = parse(CUBE_PART).unwrap();
    assert_eq!(mesh.vertices.len(), 2);
    assert_eq!(mesh.vertices[0].x, "1.0");
    assert_eq!(mesh.vertices[0].y, "-2.5");
    assert_eq!(mesh.vertices[0].z, "3e2");
    assert_eq!(mesh.vertices[1].z, "0");
    assert_eq!(mesh.vertex_normals.len(), 1);
    assert_eq!(mesh.vertex_normals[0].y, "1.0");
    assert_eq!(mesh.faces.len(), 2);
    assert_eq!(mesh.faces[0].vertices, vec![0, 1, 0]);
    assert_eq!(mesh.faces[0].vertex_normals, vec![0, 0]);
    assert_eq!(mesh.faces[1].vertices, vec![1, 0]);
    assert!(mesh.faces[1].vertex_normals.is_empty());
}

#[test]
fn coordinates_are_valid_float_text() {
    let mesh = parse(CUBE_PART).unwrap();
    let v = mesh.vertex(0, 0);
    assert_eq!(v.x.parse::<f32>().unwrap(), 1.0);
    assert_eq!(v.y.parse::<f32>().unwrap(), -2.5);
    assert_eq!(v.z.parse::<f32>().unwrap(), 300.0);
}

#[test]
fn vertex_and_vertex_normal_follow_face_indices() {
    let mesh = parse(CUBE_PART).unwrap();
    let v = mesh.vertex(0, 1);
    assert_eq!((v.x.as_str(), v.y.as_str(), v.z.as_str()), ("0", "0", "0"));
    let n = mesh.vertex_normal(0, 1);
    assert_eq!((n.x.as_str(), n.y.as_str(), n.z.as_str()), ("0.0", "1.0", "0.0"));
}

#[test]
fn parse_of_empty_text_is_empty_mesh() {
    let mesh = parse("").unwrap();
    assert!(mesh.vertices.is_empty() && mesh.vertex_normals.is_empty() && mesh.faces.is_empty());
    let d = Mesh::default();
    assert!(d.vertices.is_empty() && d.faces.is_empty());
}

#[test]
fn line_by_line_equals_whole_text() {
    let mut mesh = Mesh::new();
    for l in CUBE_PART.split('\n') {
        parse_line(&mut mesh, l).unwrap();
    }
    let whole = parse(CUBE_PART).unwrap();
    assert_eq!(format!("{:?}", mesh), format!("{:?}", whole));
}

#[test]
fn parse_line_leaves_mesh_on_error() {
    let mut mesh = parse("v 1 2 3\n").unwrap();
    assert_eq!(parse_line(&mut mesh, "f 1 0"), Err(ObjError::ZeroIndex));
    assert_eq!(mesh.vertices.len(), 1);
    assert!(mesh.faces.is_empty());
}

#[test]
fn missing_coordinates() {
    assert_eq!(parse("v").unwrap_err(), ObjError::MissingX);
    assert_eq!(parse("v 1").unwrap_err(), ObjError::MissingY);
    assert_eq!(parse("vn 1 2").unwrap_err(), ObjError::MissingZ);
}

#[test]
fn invalid_coordinates() {
    assert_eq!(parse("v 1 x 3").unwrap_err(), ObjError::InvalidFloat);
    assert_eq!(parse("v 1e 2 3").unwrap_err(), ObjError::InvalidFloat);
    assert_eq!(parse("vn . 2 3").unwrap_err(), ObjError::InvalidFloat);
    // the missing z is reported only after y has been read
    assert_eq!(parse("v 1 y").unwrap_err(), ObjError::InvalidFloat);
}

#[test]
fn face_index_errors() {
    assert_eq!(parse("f 0").unwrap_err(), ObjError::ZeroIndex);
    assert_eq!(parse("f 1/0").unwrap_err(), ObjError::ZeroTextureIndex);
    assert_eq!(parse("f 1//0").unwrap_err(), ObjError::ZeroNormalIndex);
    assert_eq!(parse("f 1/2/0").unwrap_err(), ObjError::ZeroNormalIndex);
    assert_eq!(parse("f a").unwrap_err(), ObjError::InvalidIndex(IndexError::InvalidDigit));
    assert_eq!(parse("f /2").unwrap_err(), ObjError::InvalidIndex(IndexError::Empty));
    assert_eq!(parse("f 1/x").unwrap_err(), ObjError::InvalidIndex(IndexError::InvalidDigit));
    assert_eq!(
        parse("f 99999999999999999999999").unwrap_err(),
        ObjError::InvalidIndex(IndexError::Overflow)
    );
    assert_eq!(parse("f +").unwrap_err(), ObjError::InvalidIndex(IndexError::InvalidDigit));
    assert_eq!(parse("f -1").unwrap_err(), ObjError::InvalidIndex(IndexError::InvalidDigit));
}

#[test]
fn first_bad_line_decides_the_error() {
    assert_eq!(parse("f 0\nv 1").unwrap_err(), ObjError::ZeroIndex);
    assert_eq!(parse("v 1\nf 0").unwrap_err(), ObjError::MissingY);
    assert_eq!(parse("f 1 0 x").unwrap_err(), ObjError::ZeroIndex);
}

#[test]
fn extra_face_parts_are_ignored() {
    let mesh = parse("f +3/4/5/0 7///").unwrap();
    assert_eq!(mesh.faces[0].vertices, vec![2, 6]);
    assert_eq!(mesh.faces[0].vertex_normals, vec![4]);
}

#[test]
fn float_grammar_agrees_with_std() {
    let samples = [
        "0", "1", "-1", "+1", "1.", ".5", "1.5", "-.5", "1e5", "1E5", "1e+5", "1e-5", "1.5e3",
        "inf", "-inf", "+Inf", "INFINITY", "infinity", "NaN", "-nan", "nan", "", ".", "e5", "1e",
        "1e+", "+", "-", "--1", "+-1", "1.2.3", "1x", "in", "infinit", "infinityy", "nana", "0x10",
        "1_000", "١", "1e5.0", "..5", "5..", "1ee5", " 1", "1 ", "0.000001", "123456789012345678901234567890",
        "1e999999999999", "-0",
    ];
    for s in samples {
        assert_eq!(check_float_literal(&chars(s)), s.parse::<f32>().is_ok(), "text {:?}", s);
    }
}

#[test]
fn index_grammar_agrees_with_std() {
    let samples = [
        "0", "1", "42", "+7", "007", "", "+", "-", "-0", "-5", "1a", "a1", "1.0", " 1",
        "18446744073709551615", "18446744073709551616", "99999999999999999999999x", "x99999999999999999999999",
        "4294967295", "4294967296", "١",
    ];
    for s in samples {
        let ours = parse_index(&chars(s));
        match s.parse::<usize>() {
            Ok(v) => assert_eq!(ours, Ok(v), "text {:?}", s),
            Err(e) => {
                let kind = match e.kind() {
                    std::num::IntErrorKind::Empty => IndexError::Empty,
                    std::num::IntErrorKind::InvalidDigit => IndexError::InvalidDigit,
                    std::num::IntErrorKind::PosOverflow => IndexError::Overflow,
                    other => panic!("unexpected kind {:?}", other),
                };
                assert_eq!(ours, Err(kind), "text {:?}", s);
            }
        }
    }
}

#[test]
fn unicode_whitespace_separates_words() {
    let mesh = parse("v\u{3000}1\u{a0}2\u{2009}3\u{85}").unwrap();
    assert_eq!(mesh.vertices[0].x, "1");
    assert_eq!(mesh.vertices[0].z, "3");
    // a zero-width space is not whitespace: it stays inside the word
    assert_eq!(parse("v 1\u{200b} 2 3").unwrap_err(), ObjError::InvalidFloat);
    assert!(parse("v\u{200b} 1 2 3").unwrap().vertices.is_empty());
}

#[test]
fn reading_lines_with_newlines_equals_whole_text() {
    let text = "v 1 2 3\nvn 0 0 1\nf 1//1 1//1 1//1\n# done\n";
    let mut mesh = Mesh::new();
    for l in text.split_inclusive('\n') {
        assert!(l.ends_with('\n'));
        parse_line(&mut mesh, l).unwrap();
    }
    assert_eq!(format!("{:?}", mesh), format!("{:?}", parse(text).unwrap()));
    let mut one = Mesh::new();
    let mut two = Mesh::new();
    assert_eq!(parse_line(&mut one, "f 3 2 1\n"), parse_line(&mut two, "f 3 2 1"));
    assert_eq!(format!("{:?}", one), format!("{:?}", two));
}

#[test]
fn whitespace_splitting_agrees_with_std() {
    for code in 0u32..0x3100 {
        if let Some(c) = char::from_u32(code) {
            let text = format!("x{}y", c);
            let ours = tinyrender::text::split_words(&chars(&text));
            let std_words: Vec<Vec<char>> = text.split_whitespace().map(|w| w.chars().collect()).collect();
            assert_eq!(ours, std_words, "char {:#x}", code);
        }
    }
}

#[test]
fn reading_two_texts_in_turn_joins_the_meshes() {
    let s = "v 1 2 3\nvn 0 0 1\nf 1//1\n";
    let t = "v 4 5 6\nf 2 1\nvn 1 0 0";
    let a = parse(s).unwrap();
    let b = parse(t).unwrap();
    let both = parse(&format!("{}{}", s, t)).unwrap();
    let xs = |m: &Mesh| m.vertices.iter().map(|v| v.x.clone()).collect::<Vec<_>>();
    let ns = |m: &Mesh| m.vertex_normals.iter().map(|v| v.x.clone()).collect::<Vec<_>>();
    let fs = |m: &Mesh| m.faces.iter().map(|f| (f.vertices.clone(), f.vertex_normals.clone())).collect::<Vec<_>>();
    assert_eq!(xs(&both), [xs(&a), xs(&b)].concat());
    assert_eq!(ns(&both), [ns(&a), ns(&b)].concat());
    assert_eq!(fs(&both), [fs(&a), fs(&b)].concat());
    // the first error wins
    assert_eq!(parse("f 0\n").unwrap_err(), ObjError::ZeroIndex);
    assert_eq!(parse("f 0\nv").unwrap_err(), ObjError::ZeroIndex);
    assert_eq!(parse("v 1 2 3\nv").unwrap_err(), ObjError::MissingX);
}
