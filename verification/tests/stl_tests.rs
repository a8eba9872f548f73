use geo::mesh::stl::{
    guess_stl_format, load_ascii_stl, load_binary_stl, AsciiFacet, StlFormat, StlTriangle,
};
use geo::mesh::Error;
use geo::text::split_whitespace;

type V3 = (f64, f64, f64);

fn bits(v: &[u32; 3]) -> V3 {
    (
        f64::from(f32::from_bits(v[0])),
        f64::from(f32::from_bits(v[1])),
        f64::from(f32::from_bits(v[2])),
    )
}

fn binary_facet(t: &StlTriangle) -> (V3, [V3; 3], Vec<u8>) {
    (
        bits(&t.normal),
        [bits(&t.positions[0]), bits(&t.positions[1]), bits(&t.positions[2])],
        t.attributes.clone(),
    )
}

fn push_f32(out: &mut Vec<u8>, v: f32) {
    out.extend_from_slice(&v.to_le_bytes());
}

fn cube_facets() -> Vec<(V3, [V3; 3])> {
    vec![
        ((-1.0, 0.0, 0.0), [(-1.0, -1.0, -1.0), (-1.0, -1.0, 1.0), (-1.0, 1.0, 1.0)]),
        ((-1.0, 0.0, 0.0), [(-1.0, 1.0, 1.0), (-1.0, 1.0, -1.0), (-1.0, -1.0, -1.0)]),
        ((0.0, 1.0, 0.0), [(-1.0, 1.0, -1.0), (-1.0, 1.0, 1.0), (1.0, 1.0, 1.0)]),
        ((0.0, 1.0, 0.0), [(1.0, 1.0, 1.0), (1.0, 1.0, -1.0), (-1.0, 1.0, -1.0)]),
        ((1.0, 0.0, 0.0), [(1.0, 1.0, -1.0), (1.0, 1.0, 1.0), (1.0, -1.0, 1.0)]),
        ((1.0, 0.0, 0.0), [(1.0, -1.0, 1.0), (1.0, -1.0, -1.0), (1.0, 1.0, -1.0)]),
        ((0.0, -1.0, 0.0), [(-1.0, -1.0, 1.0), (-1.0, -1.0, -1.0), (1.0, -1.0, -1.0)]),
        ((0.0, -1.0, 0.0), [(1.0, -1.0, -1.0), (1.0, -1.0, 1.0), (-1.0, -1.0, 1.0)]),
        ((0.0, 0.0, -1.0), [(1.0, -1.0, -1.0), (-1.0, -1.0, -1.0), (-1.0, 1.0, -1.0)]),
        ((0.0, 0.0, -1.0), [(-1.0, 1.0, -1.0), (1.0, 1.0, -1.0), (1.0, -1.0, -1.0)]),
        ((0.0, 0.0, 1.0), [(1.0, 1.0, 1.0), (-1.0, 1.0, 1.0), (-1.0, -1.0, 1.0)]),
        ((0.0, 0.0, 1.0), [(-1.0, -1.0, 1.0), (1.0, -1.0, 1.0), (1.0, 1.0, 1.0)]),
    ]
}

fn cube_header() -> Vec<u8> {
    let mut h = b"Exported from Blender-2.79 (sub 0)".to_vec();
    h.resize(80, 0);
    h
}

fn cube_stl() -> Vec<u8> {
    let mut out = cube_header();
    let facets = cube_facets();
    out.extend_from_slice(&(facets.len() as u32).to_le_bytes());
    for (n, vs) in facets {
        for v in std::iter::once(n).chain(vs.iter().copied()) {
            push_f32(&mut out, v.0 as f32);
            push_f32(&mut out, v.1 as f32);
            push_f32(&mut out, v.2 as f32);
        }
        out.extend_from_slice(&0u16.to_le_bytes());
    }
    out
}

fn ascii_words(stl: &str) -> (Vec<char>, Vec<(usize, usize)>, Vec<bool>, Vec<String>) {
    let chars: Vec<char> = stl.chars().collect();
    let spans = split_whitespace(&chars);
    let words: Vec<String> = spans.iter().map(|&(s, e)| chars[s..e].iter().collect()).collect();
    let ok = words.iter().map(|w| w.parse::<f64>().is_ok()).collect();
    (chars, spans, ok, words)
}

fn ascii_vec(words: &[String], i: usize) -> V3 {
    (
        words[i].parse().unwrap(),
        words[i + 1].parse().unwrap(),
        words[i + 2].parse().unwrap(),
    )
}

#[test]
fn stl_test_load_binary_stl() {
    let cube = cube_stl();
    assert_eq!(guess_stl_format(&cube).unwrap(), StlFormat::Binary);

    let (header, tris) = load_binary_stl(&cube).unwrap();
    assert_eq!(&header[..], &cube_header()[..]);
    let got: Vec<_> = tris.iter().map(binary_facet).collect();
    let expected: Vec<_> = cube_facets().into_iter().map(|(n, vs)| (n, vs, vec![])).collect();
    assert_eq!(got, expected);

    // the streaming reader meets the same facets
    let (header2, mut it) = geo::stl::load_binary_stl(cube.clone()).unwrap();
    assert_eq!(header2, header);
    assert_eq!(it.size_hint(), (12, Some(12)));
    let mut streamed = vec![];
    while let Some(t) = it.next() {
        streamed.push(binary_facet(&t.unwrap()));
    }
    assert_eq!(streamed, expected);
    assert_eq!(it.size_hint(), (0, Some(0)));
    assert!(it.next().is_none());
}

const CUBE_CORNER: &str = r"solid cube_corner
            facet normal 0.0 -1.0 0.0
                outer loop
                    vertex 0.0 0.0 0.0
                    vertex 1.0 0.0 0.0
                    vertex 0.0 0.0 1.0
                endloop
            endfacet
            facet normal 0.0 0.0 -1.0e0
                outer loop
                    vertex 0.0 0.0 0.0
                    vertex 0.0 1.0 0.0
                    vertex 1.0 0.0 0.0
                endloop
            endfacet
            facet normal -1.0 0.0 0.0
                outer loop
                    vertex 0.0 0.0 0.0
                    vertex 0.0 0.0 1.0
                    vertex 0.0 1.0 0.0
                endloop
            endfacet
            facet normal 0.577 0.577 5.77e-1
                outer loop
                    vertex 1.0 0.0 0.0
                    vertex 0.0 1.0 0.0
                    vertex 0.0 0.0 1.0
                endloop
            endfacet
            endsolid
        ";

#[test]
fn stl_test_load_ascii_stl() {
    assert_eq!(guess_stl_format(CUBE_CORNER.as_bytes()).unwrap(), StlFormat::Ascii);

    let (chars, spans, ok, words) = ascii_words(CUBE_CORNER);
    let (name, tris) = load_ascii_stl(&chars, &spans, &ok).unwrap();
    assert_eq!(words[name.unwrap()], "cube_corner");

    let got: Vec<(V3, [V3; 3])> = tris
        .iter()
        .map(|f: &AsciiFacet| {
            (
                ascii_vec(&words, f.normal),
                [
                    ascii_vec(&words, f.vertices[0]),
                    ascii_vec(&words, f.vertices[1]),
                    ascii_vec(&words, f.vertices[2]),
                ],
            )
        })
        .collect();
    assert_eq!(
        got,
        vec![
            ((0.0, -1.0, 0.0), [(0.0, 0.0, 0.0), (1.0, 0.0, 0.0), (0.0, 0.0, 1.0)]),
            ((0.0, 0.0, -1.0), [(0.0, 0.0, 0.0), (0.0, 1.0, 0.0), (1.0, 0.0, 0.0)]),
            ((-1.0, 0.0, 0.0), [(0.0, 0.0, 0.0), (0.0, 0.0, 1.0), (0.0, 1.0, 0.0)]),
            ((0.577, 0.577, 0.577), [(1.0, 0.0, 0.0), (0.0, 1.0, 0.0), (0.0, 0.0, 1.0)]),
        ]
    );

    let old = geo::stl::load_ascii_stl(&chars, &spans, &ok).unwrap();
    assert_eq!(old.0, name);
    assert_eq!(old.1, tris);
}

fn ascii_result(stl: &str) -> Result<(Option<usize>, Vec<AsciiFacet>), Error> {
    let (chars, spans, ok, _) = ascii_words(stl);
    load_ascii_stl(&chars, &spans, &ok)
}

#[test]
fn ascii_stl_without_name_and_empty() {
    // the word after `solid` is its name, even when it is `endsolid`
    assert!(matches!(ascii_result("solid endsolid"), Err(Error::BadFormat)));
    let (name, tris) = ascii_result("solid name endsolid").unwrap();
    assert_eq!(name, Some(1));
    assert!(tris.is_empty());
    // words are split on any Unicode whitespace
    let (name, tris) = ascii_result("solid\u{3000}name\u{a0}endsolid").unwrap();
    assert_eq!(name, Some(1));
    assert!(tris.is_empty());

    let (name, tris) =
        ascii_result("solid facet normal 0 0 1 outer loop vertex 0 0 0 vertex 1 0 0 vertex 0 1 0 endloop endfacet endsolid")
            .unwrap();
    assert_eq!(name, None);
    assert_eq!(tris, vec![AsciiFacet { normal: 3, vertices: [9, 13, 17] }]);
}

#[test]
fn ascii_stl_errors() {
    assert!(matches!(ascii_result(""), Err(Error::BadFormat)));
    assert!(matches!(ascii_result("solid"), Err(Error::BadFormat)));
    assert!(matches!(ascii_result("solid x"), Err(Error::BadFormat)));
    assert!(matches!(ascii_result("sold x endsolid"), Err(Error::BadFormat)));
    assert!(matches!(ascii_result("solid x facet normal 0 0"), Err(Error::BadFormat)));
    assert!(matches!(
        ascii_result("solid x facet normal 0 zero 1 outer loop"),
        Err(Error::InvalidNumber)
    ));
    // a bad number comes before the bad keyword that follows it
    assert!(matches!(
        ascii_result("solid x facet normal 0 0 1 outer loop vertex a 0 0 vertex 0 0"),
        Err(Error::InvalidNumber)
    ));
    // two vertices only
    assert!(matches!(
        ascii_result("solid facet normal 0 0 1 outer loop vertex 0 0 0 vertex 1 0 0 endloop endfacet endsolid"),
        Err(Error::BadFormat)
    ));
    // missing endfacet
    assert!(matches!(
        ascii_result("solid facet normal 0 0 1 outer loop vertex 0 0 0 vertex 1 0 0 vertex 0 1 0 endloop endsolid"),
        Err(Error::BadFormat)
    ));
    let (chars, spans, ok, _) = ascii_words("solid x");
    assert!(geo::stl::load_ascii_stl(&chars, &spans, &ok).is_none());
}

#[test]
fn binary_stl_truncated_and_trailing() {
    let cube = cube_stl();
    // cut inside the last facet
    let cut = &cube[..cube.len() - 10];
    assert!(matches!(load_binary_stl(cut), Err(Error::IoError(_))));
    assert!(matches!(load_binary_stl(&cube[..83]), Err(Error::IoError(_))));
    // trailing bytes after the last facet are ignored
    let mut longer = cube.clone();
    longer.extend_from_slice(&[1, 2, 3]);
    assert_eq!(load_binary_stl(&longer).unwrap().1.len(), 12);

    // the streaming reader reports the cut facet and then the rest as errors
    let (_, mut it) = geo::stl::load_binary_stl(cut.to_vec()).unwrap();
    for _ in 0..11 {
        assert!(it.next().unwrap().is_ok());
    }
    let err = it.next().unwrap().unwrap_err();
    assert_eq!(err.kind(), std::io::ErrorKind::UnexpectedEof);
    assert!(it.next().is_none());
    assert!(geo::stl::load_binary_stl(vec![0; 83]).is_err());
}

#[test]
fn binary_stl_attributes() {
    let mut b = vec![0u8; 80];
    b.extend_from_slice(&1u32.to_le_bytes());
    for k in 0..12u32 {
        b.extend_from_slice(&(k as f32).to_le_bytes());
    }
    b.extend_from_slice(&3u16.to_le_bytes());
    b.extend_from_slice(&[7, 8, 9]);
    let (_, tris) = load_binary_stl(&b).unwrap();
    assert_eq!(tris.len(), 1);
    assert_eq!(tris[0].attributes, vec![7, 8, 9]);
    assert_eq!(binary_facet(&tris[0]).0, (0.0, 1.0, 2.0));
    assert_eq!(binary_facet(&tris[0]).1[2], (9.0, 10.0, 11.0));
    // one attribute byte missing
    assert!(load_binary_stl(&b[..b.len() - 1]).is_err());
}

#[test]
fn guess_format_edge_cases() {
    assert_eq!(guess_stl_format(b"solid").unwrap(), StlFormat::Ascii);
    assert_eq!(guess_stl_format(b"solix").unwrap(), StlFormat::Binary);
    assert_eq!(guess_stl_format(b"SOLID name").unwrap(), StlFormat::Binary);
    assert!(matches!(guess_stl_format(b"soli"), Err(Error::IoError(_))));
    assert!(geo::stl::guess_stl_format(b"sol").is_err());
    assert_eq!(geo::stl::guess_stl_format(b"solid x").unwrap(), StlFormat::Ascii);
}

/// Writes an ASCII STL with the given name and facets, Display-printing each
/// number, then reads it back.
fn written_stl(name: Option<&str>, tris: &[(V3, [V3; 3])]) -> String {
    let mut s = String::from("solid ");
    if let Some(n) = name {
        s.push_str(n);
        s.push(' ');
    }
    for (n, vs) in tris {
        s.push_str(&format!("facet normal {} {} {} outer loop ", n.0, n.1, n.2));
        for v in vs {
            s.push_str(&format!("vertex {} {} {} ", v.0, v.1, v.2));
        }
        s.push_str("endloop endfacet ");
    }
    s.push_str("endsolid");
    s
}

#[test]
fn ascii_stl_written_reads_back() {
    let tris = cube_facets();
    for name in [Some("cube"), None] {
        let s = written_stl(name, &tris);
        let (chars, spans, ok, words) = ascii_words(&s);
        let (n, facets) = load_ascii_stl(&chars, &spans, &ok).unwrap();
        let start = if name.is_some() { 2 } else { 1 };
        assert_eq!(n, if name.is_some() { Some(1) } else { None });
        assert_eq!(facets.len(), tris.len());
        for (g, f) in facets.iter().enumerate() {
            let b = start + 21 * g;
            assert_eq!(*f, AsciiFacet { normal: b + 2, vertices: [b + 8, b + 12, b + 16] });
            assert_eq!(ascii_vec(&words, f.normal), tris[g].0);
            for k in 0..3 {
                assert_eq!(ascii_vec(&words, f.vertices[k]), tris[g].1[k]);
            }
        }
    }
    // with neither name nor facet, `endsolid` reads as the name
    assert!(matches!(ascii_result("solid endsolid"), Err(Error::BadFormat)));
}
