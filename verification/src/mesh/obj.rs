//! Wavefront OBJ meshes: vertices and polygon loops.
//!
//! Only a subset of the format is read: vertices and loops. Vertex normals,
//! texture coordinates and smoothing groups are accepted and skipped; any
//! other statement is a format error. Vertex coordinates are kept as the
//! words that spell them.
use vstd::prelude::*;
use crate::mesh::Error;
use crate::text::{isize_of, parse_isize, spans_within, word_at_is, words_of};

verus! {

/// The three words that spell the coordinates of a vertex.
#[derive(Debug)]
pub struct VertexWords {
    pub x: Vec<char>,
    pub y: Vec<char>,
    pub z: Vec<char>,
}

/// Obj mesh read from an obj file, line by line.
#[derive(Debug)]
pub struct Obj {
    comments: Vec<Vec<char>>,
    vertices: Vec<VertexWords>,
    loops: Vec<Vec<isize>>,
}

/// What a line of an OBJ file holds.
pub enum ObjLine {
    Comment,
    Vertex(Seq<Seq<char>>),
    Face(Seq<isize>),
    Skipped,
}

/// The part of a word before its first `/` (the whole word when it has none).
pub open spec fn first_field(word: Seq<char>) -> Seq<char>
    decreases word.len(),
{
    if word.len() == 0 || word[0] == '/' {
        Seq::empty()
    } else {
        seq![word[0]] + first_field(word.skip(1))
    }
}

/// The first field of a word is the text before its first `/`: for `p`
/// without a `/`, the first field of `p / q` is `p`, whatever `q` holds, and
/// that of `p` alone is `p`.
pub proof fn lemma_first_field_before_slash(p: Seq<char>, q: Seq<char>)
    requires
        forall|i: int| 0 <= i < p.len() ==> #[trigger] p[i] != '/',
    ensures
        first_field(p + seq!['/'] + q) == p,
        first_field(p) == p,
    decreases p.len(),
{
    if p.len() == 0 {
        assert((p + seq!['/'] + q)[0] == '/');
    } else {
        let rest = p.skip(1);
        lemma_first_field_before_slash(rest, q);
        assert((p + seq!['/'] + q).skip(1) =~= rest + seq!['/'] + q);
        assert((p + seq!['/'] + q)[0] == p[0]);
        assert(seq![p[0]] + rest =~= p);
    }
}

/// Reading a coordinate at word `i` of a line.
pub open spec fn coordinate_at(w: Seq<Seq<char>>, ok: Seq<bool>, i: int) -> Result<(), Error> {
    if i >= w.len() {
        Err(Error::BadFormat)
    } else if !ok[i] {
        Err(Error::InvalidNumber)
    } else {
        Ok(())
    }
}

/// The vertex indices of a face from word `i` of the line on: the first
/// field of each word read as an `isize`, where 0 is not an index.
pub open spec fn face_indices(w: Seq<Seq<char>>, i: int) -> Result<Seq<isize>, Error>
    decreases w.len() - i,
{
    if i < 0 || i >= w.len() {
        Ok(Seq::empty())
    } else {
        match isize_of(first_field(w[i])) {
            None => Err(Error::InvalidNumber),
            Some(v) => if v == 0 {
                Err(Error::BadFormat)
            } else {
                match face_indices(w, i + 1) {
                    Ok(rest) => Ok(seq![v] + rest),
                    Err(e) => Err(e),
                }
            },
        }
    }
}

/// A line of an OBJ file read from its words `w`, where `ok[i]` tells
/// whether the `i`-th word is a number.
pub open spec fn obj_line(w: Seq<Seq<char>>, ok: Seq<bool>) -> Result<ObjLine, Error> {
    if w.len() == 0 {
        Err(Error::BadFormat)
    } else if w[0] == seq!['#'] {
        Ok(ObjLine::Comment)
    } else if w[0] == seq!['v'] {
        match coordinate_at(w, ok, 1) {
            Err(e) => Err(e),
            Ok(_) => match coordinate_at(w, ok, 2) {
                Err(e) => Err(e),
                Ok(_) => match coordinate_at(w, ok, 3) {
                    Err(e) => Err(e),
                    Ok(_) => Ok(ObjLine::Vertex(w.subrange(1, 4))),
                },
            },
        }
    } else if w[0] == seq!['f'] {
        match face_indices(w, 1) {
            Err(e) => Err(e),
            Ok(l) => Ok(ObjLine::Face(l)),
        }
    } else if w[0] == seq!['v', 'n'] || w[0] == seq!['v', 'p'] || w[0] == seq!['v', 't'] || w[0]
        == seq!['s'] {
        Ok(ObjLine::Skipped)
    } else {
        Err(Error::BadFormat)
    }
}

impl VertexWords {
    pub open spec fn view_words(&self) -> Seq<Seq<char>> {
        seq![self.x@, self.y@, self.z@]
    }
}

impl Obj {
    /// The comment lines read so far.
    pub closed spec fn spec_comments(&self) -> Seq<Seq<char>> {
        self.comments@.map_values(|c: Vec<char>| c@)
    }

    /// The coordinate words of each vertex read so far.
    pub closed spec fn spec_vertices(&self) -> Seq<Seq<Seq<char>>> {
        self.vertices@.map_values(|v: VertexWords| v.view_words())
    }

    /// The vertex indices of each loop read so far.
    pub closed spec fn spec_loops(&self) -> Seq<Seq<isize>> {
        self.loops@.map_values(|l: Vec<isize>| l@)
    }

    /// The comment lines, whole.
    pub fn comments(&self) -> (r: &Vec<Vec<char>>)
        ensures
            r@.map_values(|c: Vec<char>| c@) == self.spec_comments(),
    {
        &self.comments
    }

    /// The coordinate words of each vertex, in the order they were read.
    pub fn vertices(&self) -> (r: &Vec<VertexWords>)
        ensures
            r@.map_values(|v: VertexWords| v.view_words()) == self.spec_vertices(),
    {
        &self.vertices
    }

    /// The vertex indices of each loop, as written in the file.
    pub fn loops(&self) -> (r: &Vec<Vec<isize>>)
        ensures
            r@.map_values(|l: Vec<isize>| l@) == self.spec_loops(),
    {
        &self.loops
    }

    /// A mesh with nothing read yet.
    pub fn new() -> (r: Obj)
        ensures
            r.spec_comments() == Seq::<Seq<char>>::empty(),
            r.spec_vertices() == Seq::<Seq<Seq<char>>>::empty(),
            r.spec_loops() == Seq::<Seq<isize>>::empty(),
    {
        let r = Obj { comments: Vec::new(), vertices: Vec::new(), loops: Vec::new() };
        assert(r.spec_comments() =~= Seq::<Seq<char>>::empty());
        assert(r.spec_vertices() =~= Seq::<Seq<Seq<char>>>::empty());
        assert(r.spec_loops() =~= Seq::<Seq<isize>>::empty());
        r
    }
}

/// The end of the first field of the word `text[start..end]`: the index of
/// its first `/`, or `end`.
fn first_field_end(text: &[char], start: usize, end: usize) -> (r: usize)
    requires
        start <= end <= text@.len(),
    ensures
        start <= r <= end,
        text@.subrange(start as int, r as int) == first_field(text@.subrange(start as int, end as int)),
        r == end || text@[r as int] == '/',
        forall|i: int| start <= i < r ==> #[trigger] text@[i] != '/',
    decreases end - start,
{
    if start == end || text[start] == '/' {
        assert(text@.subrange(start as int, start as int) =~= Seq::<char>::empty());
        start
    } else {
        let r = first_field_end(text, start + 1, end);
        let ghost word = text@.subrange(start as int, end as int);
        assert(word.skip(1) =~= text@.subrange(start + 1, end as int));
        assert(text@.subrange(start as int, r as int) =~= seq![word[0]] + text@.subrange(start + 1, r as int));
        r
    }
}

/// `vs` followed by the indices `rest` gives, if it gives any.
pub open spec fn prepend_indices(vs: Seq<isize>, rest: Result<Seq<isize>, Error>) -> Result<Seq<isize>, Error> {
    match rest {
        Ok(r) => Ok(vs + r),
        Err(e) => Err(e),
    }
}

/// Read the vertex indices of a face from the second word of the line on.
fn read_face(text: &[char], spans: &Vec<(usize, usize)>) -> (r: Result<Vec<isize>, Error>)
    requires
        spans_within(text@, spans@),
    ensures
        face_indices(words_of(text@, spans@), 1) == match r {
            Ok(l) => Ok(l@),
            Err(e) => Err::<Seq<isize>, Error>(e),
        },
{
    let ghost w = words_of(text@, spans@);
    let mut out: Vec<isize> = Vec::new();
    let mut i: usize = 1;
    assert(face_indices(w, 1) == prepend_indices(out@, face_indices(w, 1))) by {
        if let Ok(r) = face_indices(w, 1) {
            assert(out@ + r =~= r);
        }
    }
    while i < spans.len()
        invariant
            spans_within(text@, spans@),
            w == words_of(text@, spans@),
            w.len() == spans@.len(),
            i >= 1,
            face_indices(w, 1) == prepend_indices(out@, face_indices(w, i as int)),
        decreases spans@.len() - i,
    {
        let (start, end) = spans[i];
        assert(spans@[i as int].0 <= spans@[i as int].1 <= text@.len());
        let stop = first_field_end(text, start, end);
        let field = &text[start..stop];
        assert(field@ =~= text@.subrange(start as int, stop as int));
        assert(w[i as int] == text@.subrange(start as int, end as int));
        match parse_isize(field) {
            None => {
                return Err(Error::InvalidNumber);
            },
            Some(v) => {
                if v == 0 {
                    return Err(Error::BadFormat);
                }
                let ghost before = out@;
                out.push(v);
                proof {
                    if let Ok(r) = face_indices(w, i + 1) {
                        assert(before + (seq![v] + r) =~= out@ + r);
                    }
                }
            },
        }
        i = i + 1;
    }
    assert(out@ + Seq::<isize>::empty() =~= out@);
    Ok(out)
}

/// The words of `text` that `span` delimits, copied out.
fn copy_word(text: &[char], span: (usize, usize)) -> (r: Vec<char>)
    requires
        span.0 <= span.1 <= text@.len(),
    ensures
        r@ == text@.subrange(span.0 as int, span.1 as int),
{
    let part = &text[span.0..span.1];
    vstd::slice::slice_to_vec(part)
}

impl Obj {
    /// Read one line of an OBJ file, given its characters, the spans of its
    /// words and, for each word, whether it is a number. On success the
    /// comment, vertex or loop the line holds is added; on error nothing
    /// changes.
    pub fn push_line(&mut self, line: &[char], spans: &Vec<(usize, usize)>, number_ok: &Vec<bool>) -> (r: Result<(), Error>)
        requires
            spans_within(line@, spans@),
            number_ok@.len() == spans@.len(),
        ensures
            match obj_line(words_of(line@, spans@), number_ok@) {
                Err(e) => r == Err::<(), Error>(e) && *final(self) == *old(self),
                Ok(kind) => r is Ok && match kind {
                    ObjLine::Comment => {
                        &&& final(self).spec_comments() == old(self).spec_comments().push(line@)
                        &&& final(self).spec_vertices() == old(self).spec_vertices()
                        &&& final(self).spec_loops() == old(self).spec_loops()
                    },
                    ObjLine::Vertex(v) => {
                        &&& final(self).spec_comments() == old(self).spec_comments()
                        &&& final(self).spec_vertices() == old(self).spec_vertices().push(v)
                        &&& final(self).spec_loops() == old(self).spec_loops()
                    },
                    ObjLine::Face(l) => {
                        &&& final(self).spec_comments() == old(self).spec_comments()
                        &&& final(self).spec_vertices() == old(self).spec_vertices()
                        &&& final(self).spec_loops() == old(self).spec_loops().push(l)
                    },
                    ObjLine::Skipped => *final(self) == *old(self),
                },
            },
    {
        let ghost w = words_of(line@, spans@);
        if spans.len() == 0 {
            return Err(Error::BadFormat);
        }
        assert(['#']@ =~= seq!['#']);
        assert(['v']@ =~= seq!['v']);
        assert(['f']@ =~= seq!['f']);
        assert(['v', 'n']@ =~= seq!['v', 'n']);
        assert(['v', 'p']@ =~= seq!['v', 'p']);
        assert(['v', 't']@ =~= seq!['v', 't']);
        assert(['s']@ =~= seq!['s']);
        if word_at_is(line, spans, 0, &['#']) {
            let ghost before = self.spec_comments();
            self.comments.push(vstd::slice::slice_to_vec(line));
            assert(self.spec_comments() =~= before.push(line@));
            Ok(())
        } else if word_at_is(line, spans, 0, &['v']) {
            let n = spans.len();
            if n < 2 {
                return Err(Error::BadFormat);
            }
            if !number_ok[1] {
                return Err(Error::InvalidNumber);
            }
            if n < 3 {
                return Err(Error::BadFormat);
            }
            if !number_ok[2] {
                return Err(Error::InvalidNumber);
            }
            if n < 4 {
                return Err(Error::BadFormat);
            }
            if !number_ok[3] {
                return Err(Error::InvalidNumber);
            }
            assert(spans@[1].0 <= spans@[1].1 <= line@.len());
            assert(spans@[2].0 <= spans@[2].1 <= line@.len());
            assert(spans@[3].0 <= spans@[3].1 <= line@.len());
            let v = VertexWords {
                x: copy_word(line, spans[1]),
                y: copy_word(line, spans[2]),
                z: copy_word(line, spans[3]),
            };
            let ghost before = self.spec_vertices();
            self.vertices.push(v);
            assert(v.view_words() =~= w.subrange(1, 4));
            assert(self.spec_vertices() =~= before.push(w.subrange(1, 4)));
            Ok(())
        } else if word_at_is(line, spans, 0, &['f']) {
            let l = read_face(line, spans)?;
            let ghost before = self.spec_loops();
            self.loops.push(l);
            assert(self.spec_loops() =~= before.push(l@));
            Ok(())
        } else if word_at_is(line, spans, 0, &['v', 'n']) || word_at_is(line, spans, 0, &['v', 'p'])
            || word_at_is(line, spans, 0, &['v', 't']) || word_at_is(line, spans, 0, &['s']) {
            Ok(())
        } else {
            Err(Error::BadFormat)
        }
    }
}

/// An OBJ vertex index (1 for the first vertex, -1 for the last one) that
/// names one of `n` vertices.
pub open spec fn index_resolves(i: isize, n: int) -> bool {
    (i > 0 && i <= n) || (i < 0 && -i <= n)
}

/// The position among `n` vertices that the OBJ index `i` names.
pub open spec fn resolved_index(i: isize, n: int) -> int {
    if i > 0 {
        i - 1
    } else {
        n + i
    }
}

/// A loop of exactly three vertices.
pub open spec fn is_triangle_loop(l: Seq<isize>) -> bool {
    l.len() == 3
}

/// The loops that are triangles.
pub open spec fn triangle_loops(loops: Seq<Seq<isize>>) -> Seq<Seq<isize>> {
    loops.filter(|l: Seq<isize>| is_triangle_loop(l))
}

/// The positions a triangle holds.
pub open spec fn triangle_view(t: [usize; 3]) -> Seq<int> {
    seq![t[0] as int, t[1] as int, t[2] as int]
}

/// The vertex positions of a triangle loop among `n` vertices.
pub open spec fn resolved_triangle(l: Seq<isize>, n: int) -> Seq<int> {
    seq![resolved_index(l[0], n), resolved_index(l[1], n), resolved_index(l[2], n)]
}

/// The position among `n` vertices that the OBJ index `i` names.
pub fn vertex_position(i: isize, n: usize) -> (r: usize)
    requires
        index_resolves(i, n as int),
    ensures
        r == resolved_index(i, n as int),
        r < n,
{
    if i > 0 {
        (i - 1) as usize
    } else {
        let magnitude: usize = ((-(i + 1)) as usize) + 1;
        n - magnitude
    }
}

impl Obj {
    /// Every loop that is a triangle names vertices that exist.
    pub open spec fn triangles_resolve(&self) -> bool {
        forall|k: int|
            0 <= k < self.spec_loops().len() && (#[trigger] self.spec_loops()[k]).len() == 3
                ==> forall|j: int| 0 <= j < 3 ==> index_resolves(#[trigger] self.spec_loops()[k][j], self.spec_vertices().len() as int)
    }

    /// The triangles of the mesh, as the positions of their vertices in the
    /// vertex list: one for each loop of exactly three vertices, in order;
    /// other loops are skipped.
    pub fn triangles(&self) -> (r: Vec<[usize; 3]>)
        requires
            self.triangles_resolve(),
        ensures
            r@.map_values(|t: [usize; 3]| triangle_view(t))
                == triangle_loops(self.spec_loops()).map_values(|l: Seq<isize>| resolved_triangle(l, self.spec_vertices().len() as int)),
    {
        let n = self.vertices.len();
        let ghost loops = self.spec_loops();
        let mut out: Vec<[usize; 3]> = Vec::new();
        let mut k: usize = 0;
        assert(loops.take(0).filter(|l: Seq<isize>| is_triangle_loop(l)) =~= Seq::<Seq<isize>>::empty()) by {
            reveal_with_fuel(Seq::filter, 1);
        }
        while k < self.loops.len()
            invariant
                n == self.spec_vertices().len(),
                loops == self.spec_loops(),
                loops.len() == self.loops@.len(),
                self.triangles_resolve(),
                k <= self.loops@.len(),
                out@.map_values(|t: [usize; 3]| triangle_view(t)) == loops.take(k as int).filter(|l: Seq<isize>| is_triangle_loop(l)).map_values(|l: Seq<isize>| resolved_triangle(l, n as int)),
            decreases self.loops@.len() - k,
        {
            let l = &self.loops[k];
            assert(loops[k as int] == l@);
            let ghost before = out@;
            if l.len() == 3 {
                assert(index_resolves(loops[k as int][0], n as int));
                assert(index_resolves(loops[k as int][1], n as int));
                assert(index_resolves(loops[k as int][2], n as int));
                let a = vertex_position(l[0], n);
                let b = vertex_position(l[1], n);
                let c = vertex_position(l[2], n);
                let t = [a, b, c];
                assert(t[0] == a && t[1] == b && t[2] == c);
                assert(triangle_view(t) =~= resolved_triangle(l@, n as int));
                out.push(t);
                assert(out@.map_values(|t: [usize; 3]| triangle_view(t)) =~= before.map_values(|t: [usize; 3]| triangle_view(t)).push(resolved_triangle(l@, n as int)));
            }
            proof {
                reveal_with_fuel(Seq::filter, 1);
                assert(loops.take(k + 1).drop_last() =~= loops.take(k as int));
                assert(loops.take(k + 1).last() == l@);
                if l@.len() == 3 {
                    assert(loops.take(k + 1).filter(|l: Seq<isize>| is_triangle_loop(l)) == loops.take(k as int).filter(|l: Seq<isize>| is_triangle_loop(l)).push(l@));
                    assert(loops.take(k as int).filter(|l: Seq<isize>| is_triangle_loop(l)).push(l@).map_values(|l: Seq<isize>| resolved_triangle(l, n as int))
                        =~= loops.take(k as int).filter(|l: Seq<isize>| is_triangle_loop(l)).map_values(|l: Seq<isize>| resolved_triangle(l, n as int)).push(resolved_triangle(l@, n as int)));
                } else {
                    assert(loops.take(k + 1).filter(|l: Seq<isize>| is_triangle_loop(l)) == loops.take(k as int).filter(|l: Seq<isize>| is_triangle_loop(l)));
                    assert(out@ == before);
                }
            }
            k = k + 1;
        }
        assert(loops.take(self.loops@.len() as int) =~= loops);
        out
    }
}

} // verus!
