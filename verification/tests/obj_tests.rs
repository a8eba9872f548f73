use geo::mesh::obj::{vertex_position, Obj};
use geo::mesh::Error;
use geo::text::split_whitespace;

fn push(obj: &mut Obj, line: &str) -> Result<(), Error> {
    let chars: Vec<char> = line.chars().collect();
    let spans = split_whitespace(&chars);
    let ok: Vec<bool> = spans
        .iter()
        .map(|&(s, e)| chars[s..e].iter().collect::<String>().parse::<f64>().is_ok())
        .collect();
    obj.push_line(&chars, &spans, &ok)
}

fn word(w: &[char]) -> String {
    w.iter().collect()
}

#[test]
fn obj_reads_vertices_loops_and_comments() {
    let mut obj = Obj::new();
    push(&mut obj, "# a comment").unwrap();
    push(&mut obj, "v 1.0 2.0 3.0").unwrap();
    push(&mut obj, "v -1 0.5e1 7 extra").unwrap();
    push(&mut obj, "v 0 0 0").unwrap();
    push(&mut obj, "vn 0 0 1").unwrap();
    push(&mut obj, "vt 0.5 0.5").unwrap();
    push(&mut obj, "s off").unwrap();
    push(&mut obj, "f 1/1/1 2//3 -1").unwrap();
    push(&mut obj, "f 1 2 3 1").unwrap();

    assert_eq!(obj.comments().len(), 1);
    assert_eq!(word(&obj.comments()[0]), "# a comment");
    let vs: Vec<(String, String, String)> = obj
        .vertices()
        .iter()
        .map(|v| (word(&v.x), word(&v.y), word(&v.z)))
        .collect();
    assert_eq!(
        vs,
        vec![
            ("1.0".to_string(), "2.0".to_string(), "3.0".to_string()),
            ("-1".to_string(), "0.5e1".to_string(), "7".to_string()),
            ("0".to_string(), "0".to_string(), "0".to_string()),
        ]
    );
    assert_eq!(obj.loops(), &vec![vec![1, 2, -1], vec![1, 2, 3, 1]]);
    // the quad is skipped, the last vertex is -1
    assert_eq!(obj.triangles(), vec![[0, 1, 2]]);
}

#[test]
fn obj_errors_leave_mesh_unchanged() {
    let mut obj = Obj::new();
    assert!(matches!(push(&mut obj, ""), Err(Error::BadFormat)));
    assert!(matches!(push(&mut obj, "   "), Err(Error::BadFormat)));
    assert!(matches!(push(&mut obj, "#comment"), Err(Error::BadFormat)));
    assert!(matches!(push(&mut obj, "o name"), Err(Error::BadFormat)));
    assert!(matches!(push(&mut obj, "v 1 2"), Err(Error::BadFormat)));
    assert!(matches!(push(&mut obj, "v 1 x 2"), Err(Error::InvalidNumber)));
    assert!(matches!(push(&mut obj, "f 1 0 2"), Err(Error::BadFormat)));
    assert!(matches!(push(&mut obj, "f 1 a 0"), Err(Error::InvalidNumber)));
    assert!(matches!(push(&mut obj, "f /1"), Err(Error::InvalidNumber)));
    assert!(matches!(push(&mut obj, "f 99999999999999999999"), Err(Error::InvalidNumber)));
    assert!(obj.comments().is_empty());
    assert!(obj.vertices().is_empty());
    assert!(obj.loops().is_empty());
    // a face with no indices is a loop of none
    push(&mut obj, "f").unwrap();
    assert_eq!(obj.loops(), &vec![Vec::<isize>::new()]);
    assert!(obj.triangles().is_empty());
}

#[test]
fn obj_negative_indices_count_from_the_end() {
    assert_eq!(vertex_position(1, 5), 0);
    assert_eq!(vertex_position(5, 5), 4);
    assert_eq!(vertex_position(-1, 5), 4);
    assert_eq!(vertex_position(-5, 5), 0);

    let mut obj = Obj::new();
    for _ in 0..4 {
        push(&mut obj, "v 0 0 0").unwrap();
    }
    push(&mut obj, "f -4 -3 +4").unwrap();
    push(&mut obj, "f 1 2").unwrap();
    push(&mut obj, "f -1 -2 -3").unwrap();
    assert_eq!(obj.triangles(), vec![[0, 1, 3], [3, 2, 1]]);
}
