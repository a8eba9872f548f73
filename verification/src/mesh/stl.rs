//! STL meshes, binary and ASCII.
//!
//! Coordinates are not decoded here: a binary facet keeps each coordinate as
//! the bit pattern of its IEEE-754 single precision value, and an ASCII facet
//! keeps the index of the word that spells it.
use vstd::prelude::*;
use crate::bytes::{le_u16_at, le_u32_at, u16_at, u32_at};
use crate::mesh::{unexpected_eof, Error};
use crate::text::{spans_within, word_at_is, words_of};

verus! {

/// A STL format type.
#[derive(Debug, PartialEq, Eq, Clone, Copy, Structural)]
pub enum StlFormat {
    Ascii,
    Binary,
}

/// A facet of a binary STL: its normal, its three vertices and its attribute
/// bytes. Each coordinate is the bit pattern of an `f32`.
#[derive(Debug)]
pub struct StlTriangle {
    pub normal: [u32; 3],
    pub positions: [[u32; 3]; 3],
    pub attributes: Vec<u8>,
}

/// Size of the header of a binary STL.
pub const HEADER_LEN: usize = 80;

/// Size of a binary facet record before its attribute bytes: four vectors of
/// three `f32` and the `u16` attribute count.
pub const FACET_LEN: usize = 50;

/// The three little-endian `u32` that start at `b[i]`.
pub open spec fn vector_at(b: Seq<u8>, i: int) -> Seq<u32> {
    seq![le_u32_at(b, i), le_u32_at(b, i + 4), le_u32_at(b, i + 8)]
}

/// The number of attribute bytes of the facet record at `b[pos]`.
pub open spec fn attribute_count_at(b: Seq<u8>, pos: int) -> int {
    le_u16_at(b, pos + 48) as int
}

/// `t` is the facet whose record starts at `b[pos]`.
pub open spec fn is_facet_at(t: StlTriangle, b: Seq<u8>, pos: int) -> bool {
    &&& t.normal@ == vector_at(b, pos)
    &&& t.positions[0]@ == vector_at(b, pos + 12)
    &&& t.positions[1]@ == vector_at(b, pos + 24)
    &&& t.positions[2]@ == vector_at(b, pos + 36)
    &&& t.attributes@ == b.subrange(pos + 50, pos + 50 + attribute_count_at(b, pos))
}

/// The offsets of `n` consecutive facet records starting at `b[pos]`, or
/// `None` when the bytes end before the last of them does.
pub open spec fn facet_offsets(b: Seq<u8>, pos: int, n: nat) -> Option<Seq<int>>
    decreases n,
{
    if n == 0 {
        Some(Seq::empty())
    } else if pos + 50 > b.len() {
        None
    } else {
        let next = pos + 50 + attribute_count_at(b, pos);
        if next > b.len() {
            None
        } else {
            match facet_offsets(b, next, (n - 1) as nat) {
                Some(rest) => Some(seq![pos] + rest),
                None => None,
            }
        }
    }
}

/// `offsets` followed by the offsets `rest` gives, if it gives any.
pub open spec fn prepend_offsets(offsets: Seq<int>, rest: Option<Seq<int>>) -> Option<Seq<int>> {
    match rest {
        Some(r) => Some(offsets + r),
        None => None,
    }
}

/// The number of facets a binary STL declares after its header.
pub open spec fn declared_facets(b: Seq<u8>) -> nat {
    le_u32_at(b, 80) as nat
}

/// The offsets of the facet records of the binary STL `b`, or `None` when `b`
/// is too short for its header, its count or one of its facets.
pub open spec fn binary_layout(b: Seq<u8>) -> Option<Seq<int>> {
    if b.len() < 84 {
        None
    } else {
        facet_offsets(b, 84, declared_facets(b))
    }
}

/// `n` facet offsets, each record starting at or after `pos` and ending
/// within the bytes.
pub proof fn lemma_facet_offsets_bounds(b: Seq<u8>, pos: int, n: nat)
    requires
        facet_offsets(b, pos, n) is Some,
    ensures
        facet_offsets(b, pos, n)->0.len() == n,
        forall|i: int|
            0 <= i < n ==> pos <= #[trigger] facet_offsets(b, pos, n)->0[i] && facet_offsets(b, pos, n)->0[i] + 50
                + attribute_count_at(b, facet_offsets(b, pos, n)->0[i]) <= b.len(),
    decreases n,
{
    if n > 0 {
        let next = pos + 50 + attribute_count_at(b, pos);
        lemma_facet_offsets_bounds(b, next, (n - 1) as nat);
        let rest = facet_offsets(b, next, (n - 1) as nat)->0;
        assert forall|i: int| 0 <= i < n implies pos <= #[trigger] facet_offsets(b, pos, n)->0[i]
            && facet_offsets(b, pos, n)->0[i] + 50 + attribute_count_at(b, facet_offsets(b, pos, n)->0[i])
            <= b.len() by {
            if i > 0 {
                assert(facet_offsets(b, pos, n)->0[i] == rest[i - 1]);
            }
        }
    }
}

/// Consecutive facet records: the first starts at `pos`, and each next one
/// starts right after the previous one's attribute bytes.
proof fn lemma_facet_offsets_chain(b: Seq<u8>, pos: int, n: nat)
    requires
        facet_offsets(b, pos, n) is Some,
    ensures
        n > 0 ==> facet_offsets(b, pos, n)->0[0] == pos,
        forall|k: int|
            0 <= k < n - 1 ==> #[trigger] facet_offsets(b, pos, n)->0[k + 1] == facet_offsets(b, pos, n)->0[k] + 50
                + attribute_count_at(b, facet_offsets(b, pos, n)->0[k]),
    decreases n,
{
    lemma_facet_offsets_bounds(b, pos, n);
    if n > 0 {
        let next = pos + 50 + attribute_count_at(b, pos);
        lemma_facet_offsets_chain(b, next, (n - 1) as nat);
        lemma_facet_offsets_bounds(b, next, (n - 1) as nat);
        let offs = facet_offsets(b, pos, n)->0;
        let rest = facet_offsets(b, next, (n - 1) as nat)->0;
        assert(offs =~= seq![pos] + rest);
        assert forall|k: int| 0 <= k < n - 1 implies #[trigger] offs[k + 1] == offs[k] + 50 + attribute_count_at(b, offs[k]) by {
            assert(offs[k + 1] == rest[k]);
            if k > 0 {
                assert(offs[k] == rest[k - 1]);
                assert(rest[(k - 1) + 1] == rest[k - 1] + 50 + attribute_count_at(b, rest[k - 1]));
            }
        }
    }
}

/// The layout of a binary STL: as many facet records as the little-endian
/// `u32` at bytes 80..84 says, the first at byte 84, each next one right
/// after the previous one's attribute bytes, all within the bytes.
pub proof fn lemma_binary_layout_records(b: Seq<u8>)
    requires
        binary_layout(b) is Some,
    ensures
        binary_layout(b)->0.len() == (b[80] + 256 * b[81] + 65536 * b[82] + 16777216 * b[83]),
        binary_layout(b)->0.len() == le_u32_at(b, 80),
        binary_layout(b)->0.len() > 0 ==> binary_layout(b)->0[0] == 84,
        forall|k: int|
            0 <= k < binary_layout(b)->0.len() - 1 ==> #[trigger] binary_layout(b)->0[k + 1] == binary_layout(b)->0[k]
                + 50 + b[binary_layout(b)->0[k] + 48] + 256 * b[binary_layout(b)->0[k] + 49],
        forall|k: int|
            0 <= k < binary_layout(b)->0.len() ==> 84 <= #[trigger] binary_layout(b)->0[k] && binary_layout(b)->0[k] + 50
                + b[binary_layout(b)->0[k] + 48] + 256 * b[binary_layout(b)->0[k] + 49] <= b.len(),
{
    let n = declared_facets(b);
    lemma_facet_offsets_bounds(b, 84, n);
    lemma_facet_offsets_chain(b, 84, n);
    let offs = binary_layout(b)->0;
    assert forall|k: int| 0 <= k < offs.len() implies attribute_count_at(b, offs[k]) == b[offs[k] + 48] + 256 * b[offs[k] + 49] by {
        let x = b[offs[k] + 48];
        let y = b[offs[k] + 49];
        assert((x + 256 * y) as u16 == x + 256 * y) by (bit_vector)
            requires
                x <= 255,
                y <= 255,
        ;
    }
    let (c0, c1, c2, c3) = (b[80], b[81], b[82], b[83]);
    assert((c0 + 256 * c1 + 65536 * c2 + 16777216 * c3) as u32 == c0 + 256 * c1 + 65536 * c2 + 16777216 * c3) by (bit_vector)
        requires
            c0 <= 255,
            c1 <= 255,
            c2 <= 255,
            c3 <= 255,
    ;
}

/// Read the facet record at `bytes[pos]`; `None` when the bytes end first.
/// Also gives the offset just past the record.
pub(crate) fn read_facet(bytes: &[u8], pos: usize) -> (r: Option<(StlTriangle, usize)>)
    ensures
        match r {
            Some((t, next)) => {
                &&& pos + 50 <= bytes@.len()
                &&& next == pos + 50 + attribute_count_at(bytes@, pos as int)
                &&& next <= bytes@.len()
                &&& is_facet_at(t, bytes@, pos as int)
            },
            None => pos + 50 > bytes@.len() || pos + 50 + attribute_count_at(bytes@, pos as int)
                > bytes@.len(),
        },
{
    let len = bytes.len();
    if pos > len || len - pos < FACET_LEN {
        return None;
    }
    let normal = [u32_at(bytes, pos), u32_at(bytes, pos + 4), u32_at(bytes, pos + 8)];
    let v0 = [u32_at(bytes, pos + 12), u32_at(bytes, pos + 16), u32_at(bytes, pos + 20)];
    let v1 = [u32_at(bytes, pos + 24), u32_at(bytes, pos + 28), u32_at(bytes, pos + 32)];
    let v2 = [u32_at(bytes, pos + 36), u32_at(bytes, pos + 40), u32_at(bytes, pos + 44)];
    let count = u16_at(bytes, pos + 48) as usize;
    let start = pos + FACET_LEN;
    if len - start < count {
        return None;
    }
    let attributes = vstd::slice::slice_to_vec(&bytes[start..start + count]);
    let t = StlTriangle { normal, positions: [v0, v1, v2], attributes };
    assert(t.normal@ =~= vector_at(bytes@, pos as int));
    assert(t.positions[0]@ =~= vector_at(bytes@, pos + 12));
    assert(t.positions[1]@ =~= vector_at(bytes@, pos + 24));
    assert(t.positions[2]@ =~= vector_at(bytes@, pos + 36));
    Some((t, start + count))
}

/// The format the first bytes of a STL announce: ASCII when they are
/// `solid`, binary otherwise.
pub open spec fn announced_format(b: Seq<u8>) -> StlFormat {
    if b.take(5) == seq![115u8, 111u8, 108u8, 105u8, 100u8] {
        StlFormat::Ascii
    } else {
        StlFormat::Binary
    }
}

/// Try to guess the format of a STL by looking at its first bytes. If they're
/// "solid" then it's probably an ASCII STL, binary otherwise. Fails as a
/// reader does when there are fewer than five bytes.
pub fn guess_stl_format(head: &[u8]) -> (r: Result<StlFormat, Error>)
    ensures
        head@.len() < 5 <==> r is Err,
        r is Err ==> r->Err_0 is IoError,
        r is Ok ==> r->Ok_0 == announced_format(head@),
{
    if head.len() < 5 {
        return Err(Error::IoError(unexpected_eof()));
    }
    let solid = head[0] == 115u8 && head[1] == 111u8 && head[2] == 108u8 && head[3] == 105u8
        && head[4] == 100u8;
    if solid {
        assert(head@.take(5) =~= seq![115u8, 111u8, 108u8, 105u8, 100u8]);
        Ok(StlFormat::Ascii)
    } else {
        assert(head@.take(5) != seq![115u8, 111u8, 108u8, 105u8, 100u8]) by {
            if head@.take(5) == seq![115u8, 111u8, 108u8, 105u8, 100u8] {
                assert(head@.take(5)[0] == head@[0]);
                assert(head@.take(5)[1] == head@[1]);
                assert(head@.take(5)[2] == head@[2]);
                assert(head@.take(5)[3] == head@[3]);
                assert(head@.take(5)[4] == head@[4]);
            }
        }
        Ok(StlFormat::Binary)
    }
}

/// Load a binary STL: its 80-byte header and all of its facets. Fails with an
/// I/O error, as a reader does, when the bytes end before the header, the
/// facet count or one of the facets does. Bytes after the last facet are
/// ignored.
pub fn load_binary_stl(bytes: &[u8]) -> (r: Result<([u8; 80], Vec<StlTriangle>), Error>)
    ensures
        r is Ok <==> binary_layout(bytes@) is Some,
        r is Err ==> r->Err_0 is IoError,
        r matches Ok((header, tris)) ==> {
            let offsets = binary_layout(bytes@)->0;
            &&& header@ == bytes@.take(80)
            &&& tris.len() == offsets.len()
            &&& tris.len() == le_u32_at(bytes@, 80)
            &&& forall|i: int| 0 <= i < tris.len() ==> is_facet_at(#[trigger] tris@[i], bytes@, offsets[i])
        },
{
    let len = bytes.len();
    if len < 84 {
        return Err(Error::IoError(unexpected_eof()));
    }
    let mut header = [0u8; 80];
    let mut i: usize = 0;
    while i < HEADER_LEN
        invariant
            i <= 80,
            len == bytes@.len(),
            len >= 84,
            forall|j: int| 0 <= j < i ==> header@[j] == bytes@[j],
        decreases 80 - i,
    {
        header[i] = bytes[i];
        i = i + 1;
    }
    assert(header@ =~= bytes@.take(80));
    let ntriangles = u32_at(bytes, HEADER_LEN);
    let ghost total = declared_facets(bytes@);
    let mut tris: Vec<StlTriangle> = Vec::new();
    let mut pos: usize = 84;
    let mut k: u32 = 0;
    let ghost mut done: Seq<int> = Seq::empty();
    assert(binary_layout(bytes@) == prepend_offsets(done, facet_offsets(bytes@, 84, total))) by {
        if let Some(o) = facet_offsets(bytes@, 84, total) {
            assert(done + o =~= o);
        }
    }
    while k < ntriangles
        invariant
            len == bytes@.len(),
            len >= 84,
            ntriangles == total,
            total == declared_facets(bytes@),
            k <= ntriangles,
            tris.len() == k,
            done.len() == k,
            header@ == bytes@.take(80),
            binary_layout(bytes@) == prepend_offsets(done, facet_offsets(bytes@, pos as int, (total - k) as nat)),
            forall|j: int| 0 <= j < k ==> is_facet_at(#[trigger] tris@[j], bytes@, done[j]),
        decreases ntriangles - k,
    {
        match read_facet(bytes, pos) {
            Some((t, next)) => {
                proof {
                    let n = (total - k) as nat;
                    let tail = facet_offsets(bytes@, next as int, (n - 1) as nat);
                    assert(facet_offsets(bytes@, pos as int, n) == prepend_offsets(seq![pos as int], tail));
                    if let Some(r) = tail {
                        assert(done + (seq![pos as int] + r) =~= done.push(pos as int) + r);
                    }
                    done = done.push(pos as int);
                }
                tris.push(t);
                pos = next;
                k = k + 1;
            },
            None => {
                assert(facet_offsets(bytes@, pos as int, (total - k) as nat) is None);
                return Err(Error::IoError(unexpected_eof()));
            },
        }
    }
    assert(done + Seq::<int>::empty() =~= done);
    proof {
        lemma_binary_layout_records(bytes@);
    }
    Ok((header, tris))
}

/// A facet of an ASCII STL. Each vector is given by the index of the word
/// that spells its x coordinate; y and z are the two words after it.
#[derive(Debug, PartialEq, Eq, Clone, Copy)]
pub struct AsciiFacet {
    pub normal: usize,
    pub vertices: [usize; 3],
}

/// A facet as the grammar describes it: the word index of its normal and of
/// each of its vertices.
pub type FacetWords = (int, Seq<int>);

pub open spec fn kw_solid() -> Seq<char> {
    seq!['s', 'o', 'l', 'i', 'd']
}

pub open spec fn kw_endsolid() -> Seq<char> {
    seq!['e', 'n', 'd', 's', 'o', 'l', 'i', 'd']
}

pub open spec fn kw_facet() -> Seq<char> {
    seq!['f', 'a', 'c', 'e', 't']
}

pub open spec fn kw_endfacet() -> Seq<char> {
    seq!['e', 'n', 'd', 'f', 'a', 'c', 'e', 't']
}

pub open spec fn kw_normal() -> Seq<char> {
    seq!['n', 'o', 'r', 'm', 'a', 'l']
}

pub open spec fn kw_outer() -> Seq<char> {
    seq!['o', 'u', 't', 'e', 'r']
}

pub open spec fn kw_loop() -> Seq<char> {
    seq!['l', 'o', 'o', 'p']
}

pub open spec fn kw_vertex() -> Seq<char> {
    seq!['v', 'e', 'r', 't', 'e', 'x']
}

pub open spec fn kw_endloop() -> Seq<char> {
    seq!['e', 'n', 'd', 'l', 'o', 'o', 'p']
}

/// There is an `i`-th word and it is `kw`.
pub open spec fn word_is_kw(w: Seq<Seq<char>>, i: int, kw: Seq<char>) -> bool {
    0 <= i < w.len() && w[i] == kw
}

/// Reading a number at word `i`: a missing word is a format error, a word
/// that is not a number (`ok[i]` false) is a number error.
pub open spec fn number_at(w: Seq<Seq<char>>, ok: Seq<bool>, i: int) -> Result<(), Error> {
    if i >= w.len() {
        Err(Error::BadFormat)
    } else if !ok[i] {
        Err(Error::InvalidNumber)
    } else {
        Ok(())
    }
}

/// Reading three numbers from word `i` on.
pub open spec fn vector_words(w: Seq<Seq<char>>, ok: Seq<bool>, i: int) -> Result<(), Error> {
    match number_at(w, ok, i) {
        Err(e) => Err(e),
        Ok(_) => match number_at(w, ok, i + 1) {
            Err(e) => Err(e),
            Ok(_) => number_at(w, ok, i + 2),
        },
    }
}

/// The `vertex x y z` entries from word `i` up to and including `endloop`:
/// the word after `endloop` and the index of each vertex's x.
pub open spec fn vertex_words(w: Seq<Seq<char>>, ok: Seq<bool>, i: int) -> Result<(int, Seq<int>), Error>
    decreases w.len() - i,
{
    if i < 0 || i >= w.len() {
        Err(Error::BadFormat)
    } else if w[i] == kw_endloop() {
        Ok((i + 1, Seq::empty()))
    } else if w[i] == kw_vertex() {
        match vector_words(w, ok, i + 1) {
            Err(e) => Err(e),
            Ok(_) => match vertex_words(w, ok, i + 4) {
                Err(e) => Err(e),
                Ok((next, vs)) => Ok((next, seq![i + 1] + vs)),
            },
        }
    } else {
        Err(Error::BadFormat)
    }
}

/// The vertex entries end after the word they start at, and within the
/// words; each takes four words.
pub proof fn lemma_vertex_words_advance(w: Seq<Seq<char>>, ok: Seq<bool>, i: int)
    ensures
        vertex_words(w, ok, i) matches Ok((next, vs)) ==> i < next <= w.len() && vs.len() * 4 + i
            + 1 == next,
    decreases w.len() - i,
{
    if 0 <= i < w.len() && w[i] != kw_endloop() && w[i] == kw_vertex() {
        if vector_words(w, ok, i + 1) is Ok {
            lemma_vertex_words_advance(w, ok, i + 4);
        }
    }
}

/// `facets` followed by the facets `rest` gives, if it gives any.
pub open spec fn prepend_facets(facets: Seq<FacetWords>, rest: Result<Seq<FacetWords>, Error>) -> Result<Seq<FacetWords>, Error> {
    match rest {
        Ok(r) => Ok(facets + r),
        Err(e) => Err(e),
    }
}

/// The facets from word `i` up to and including `endsolid`.
pub open spec fn facet_words(w: Seq<Seq<char>>, ok: Seq<bool>, i: int) -> Result<Seq<FacetWords>, Error>
    decreases w.len() - i,
{
    if i < 0 || i >= w.len() {
        Err(Error::BadFormat)
    } else if w[i] == kw_endsolid() {
        Ok(Seq::empty())
    } else if w[i] != kw_facet() {
        Err(Error::BadFormat)
    } else if !word_is_kw(w, i + 1, kw_normal()) {
        Err(Error::BadFormat)
    } else {
        match vector_words(w, ok, i + 2) {
            Err(e) => Err(e),
            Ok(_) => if !word_is_kw(w, i + 5, kw_outer()) {
                Err(Error::BadFormat)
            } else if !word_is_kw(w, i + 6, kw_loop()) {
                Err(Error::BadFormat)
            } else {
                match vertex_words(w, ok, i + 7) {
                    Err(e) => Err(e),
                    Ok((next, vs)) => if vs.len() != 3 {
                        Err(Error::BadFormat)
                    } else if !word_is_kw(w, next, kw_endfacet()) {
                        Err(Error::BadFormat)
                    } else {
                        proof {
                            lemma_vertex_words_advance(w, ok, i + 7);
                        }
                        prepend_facets(seq![(i + 2, vs)], facet_words(w, ok, next + 1))
                    },
                }
            },
        }
    }
}

/// An ASCII STL read from its words `w`, where `ok[i]` tells whether the
/// `i`-th word is a number: the index of the solid's name word (none when
/// the first facet follows `solid` directly) and the facets.
pub open spec fn ascii_stl_words(w: Seq<Seq<char>>, ok: Seq<bool>) -> Result<(Option<int>, Seq<FacetWords>), Error> {
    if !word_is_kw(w, 0, kw_solid()) {
        Err(Error::BadFormat)
    } else if w.len() < 2 {
        Err(Error::BadFormat)
    } else if w[1] == kw_facet() {
        match facet_words(w, ok, 1) {
            Ok(fs) => Ok((None, fs)),
            Err(e) => Err(e),
        }
    } else {
        match facet_words(w, ok, 2) {
            Ok(fs) => Ok((Some(1int), fs)),
            Err(e) => Err(e),
        }
    }
}

proof fn lemma_vector_words_extend(w: Seq<Seq<char>>, ok: Seq<bool>, t: Seq<Seq<char>>, okt: Seq<bool>, i: int)
    requires
        ok.len() == w.len(),
        0 <= i,
        vector_words(w, ok, i) is Ok,
    ensures
        vector_words(w + t, ok + okt, i) == vector_words(w, ok, i),
{
    assert((w + t)[i] == w[i] && (ok + okt)[i] == ok[i]);
    assert((w + t)[i + 1] == w[i + 1] && (ok + okt)[i + 1] == ok[i + 1]);
    assert((w + t)[i + 2] == w[i + 2] && (ok + okt)[i + 2] == ok[i + 2]);
}

proof fn lemma_vertex_words_extend(w: Seq<Seq<char>>, ok: Seq<bool>, t: Seq<Seq<char>>, okt: Seq<bool>, i: int)
    requires
        ok.len() == w.len(),
        vertex_words(w, ok, i) is Ok,
    ensures
        vertex_words(w + t, ok + okt, i) == vertex_words(w, ok, i),
    decreases w.len() - i,
{
    assert((w + t)[i] == w[i]);
    if w[i] != kw_endloop() {
        lemma_vector_words_extend(w, ok, t, okt, i + 1);
        lemma_vertex_words_extend(w, ok, t, okt, i + 4);
    }
}

proof fn lemma_facet_words_extend(w: Seq<Seq<char>>, ok: Seq<bool>, t: Seq<Seq<char>>, okt: Seq<bool>, i: int)
    requires
        ok.len() == w.len(),
        facet_words(w, ok, i) is Ok,
    ensures
        facet_words(w + t, ok + okt, i) == facet_words(w, ok, i),
    decreases w.len() - i,
{
    let w2 = w + t;
    let ok2 = ok + okt;
    assert(w2[i] == w[i]);
    if w[i] != kw_endsolid() {
        assert(w2[i + 1] == w[i + 1]);
        lemma_vector_words_extend(w, ok, t, okt, i + 2);
        assert(w2[i + 5] == w[i + 5]);
        assert(w2[i + 6] == w[i + 6]);
        lemma_vertex_words_extend(w, ok, t, okt, i + 7);
        let (next, vs) = vertex_words(w, ok, i + 7)->Ok_0;
        lemma_vertex_words_advance(w, ok, i + 7);
        assert(w2[next] == w[next]);
        lemma_facet_words_extend(w, ok, t, okt, next + 1);
    }
}

/// Reading stops at the `endsolid` that closes the facets: words after it,
/// whatever they are (such as the solid's name repeated, as writers put it),
/// do not change what an ASCII STL reads as.
pub proof fn lemma_words_after_endsolid_ignored(w: Seq<Seq<char>>, ok: Seq<bool>, t: Seq<Seq<char>>, okt: Seq<bool>)
    requires
        ok.len() == w.len(),
        ascii_stl_words(w, ok) is Ok,
    ensures
        ascii_stl_words(w + t, ok + okt) == ascii_stl_words(w, ok),
{
    let w2 = w + t;
    assert(w2[0] == w[0]);
    assert(w2[1] == w[1]);
    if w[1] == kw_facet() {
        lemma_facet_words_extend(w, ok, t, okt, 1);
    } else {
        lemma_facet_words_extend(w, ok, t, okt, 2);
    }
}

/// Word `o` (of 21) of a written facet whose twelve coordinates are `nums`:
/// `facet normal n n n outer loop vertex x y z vertex x y z vertex x y z
/// endloop endfacet`.
pub open spec fn facet_block_word(o: int, nums: Seq<Seq<char>>) -> Seq<char> {
    if o == 0 {
        kw_facet()
    } else if o == 1 {
        kw_normal()
    } else if 2 <= o <= 4 {
        nums[o - 2]
    } else if o == 5 {
        kw_outer()
    } else if o == 6 {
        kw_loop()
    } else if o == 7 || o == 11 || o == 15 {
        kw_vertex()
    } else if 8 <= o <= 10 {
        nums[o - 5]
    } else if 12 <= o <= 14 {
        nums[o - 6]
    } else if 16 <= o <= 18 {
        nums[o - 7]
    } else if o == 19 {
        kw_endloop()
    } else {
        kw_endfacet()
    }
}

/// Word `o` of a written facet holds a coordinate.
pub open spec fn is_number_slot(o: int) -> bool {
    2 <= o <= 4 || 8 <= o <= 10 || 12 <= o <= 14 || 16 <= o <= 18
}

/// Where the first facet of a written ASCII STL starts: after `solid` and
/// the name, if there is one.
pub open spec fn written_start(name: Option<Seq<char>>) -> int {
    if name is Some {
        2
    } else {
        1
    }
}

/// The words of an ASCII STL written with `name` and, for each facet, its
/// twelve coordinate words: `solid`, the name, each facet's 21 words, then
/// `endsolid`.
pub open spec fn written_ascii_stl(name: Option<Seq<char>>, facets: Seq<Seq<Seq<char>>>) -> Seq<Seq<char>> {
    let start = written_start(name);
    Seq::new(
        (start + 21 * facets.len() + 1) as nat,
        |i: int|
            if i == 0 {
                kw_solid()
            } else if i < start {
                name->0
            } else if i == start + 21 * facets.len() {
                kw_endsolid()
            } else {
                facet_block_word((i - start) % 21, facets[(i - start) / 21])
            },
    )
}

/// The facet that starts at word `b` of a written ASCII STL, as the grammar
/// gives it: its normal at `b + 2`, its vertices at `b + 8`, `b + 12` and
/// `b + 16`.
pub open spec fn written_facet(b: int) -> FacetWords {
    (b + 2, seq![b + 8, b + 12, b + 16])
}

proof fn lemma_written_word(name: Option<Seq<char>>, facets: Seq<Seq<Seq<char>>>, f: int, o: int)
    requires
        0 <= f < facets.len(),
        0 <= o < 21,
    ensures
        written_start(name) + 21 * f + o < written_ascii_stl(name, facets).len(),
        written_ascii_stl(name, facets)[written_start(name) + 21 * f + o] == facet_block_word(o, facets[f]),
{
    let start = written_start(name);
    let i = start + 21 * f + o;
    assert((21 * f + o) % 21 == o && (21 * f + o) / 21 == f) by (nonlinear_arith)
        requires
            0 <= o < 21,
            0 <= f,
    ;
    assert(21 * f + o < 21 * facets.len()) by (nonlinear_arith)
        requires
            0 <= o < 21,
            0 <= f < facets.len(),
    ;
    assert(i - start == 21 * f + o);
}

proof fn lemma_written_facets_read_back(name: Option<Seq<char>>, facets: Seq<Seq<Seq<char>>>, ok: Seq<bool>, f: int)
    requires
        0 <= f <= facets.len(),
        ok.len() == written_ascii_stl(name, facets).len(),
        forall|g: int, o: int|
            0 <= g < facets.len() && 0 <= o < 21 && is_number_slot(o) ==> #[trigger] ok[written_start(name)
                + 21 * g + o],
    ensures
        facet_words(written_ascii_stl(name, facets), ok, written_start(name) + 21 * f) == Ok::<Seq<FacetWords>, Error>(
            Seq::new((facets.len() - f) as nat, |g: int| written_facet(written_start(name) + 21 * (f + g))),
        ),
    decreases facets.len() - f,
{
    let w = written_ascii_stl(name, facets);
    let start = written_start(name);
    let b = start + 21 * f;
    assert(kw_facet().len() == 5 && kw_endsolid().len() == 8 && kw_endloop().len() == 7 && kw_vertex().len() == 6);
    if f == facets.len() {
        assert(w[b] == kw_endsolid());
        assert(Seq::new((facets.len() - f) as nat, |g: int| written_facet(start + 21 * (f + g))) =~= Seq::<FacetWords>::empty());
    } else {
        lemma_written_word(name, facets, f, 0);
        lemma_written_word(name, facets, f, 1);
        lemma_written_word(name, facets, f, 2);
        lemma_written_word(name, facets, f, 3);
        lemma_written_word(name, facets, f, 4);
        lemma_written_word(name, facets, f, 5);
        lemma_written_word(name, facets, f, 6);
        lemma_written_word(name, facets, f, 7);
        lemma_written_word(name, facets, f, 8);
        lemma_written_word(name, facets, f, 9);
        lemma_written_word(name, facets, f, 10);
        lemma_written_word(name, facets, f, 11);
        lemma_written_word(name, facets, f, 12);
        lemma_written_word(name, facets, f, 13);
        lemma_written_word(name, facets, f, 14);
        lemma_written_word(name, facets, f, 15);
        lemma_written_word(name, facets, f, 16);
        lemma_written_word(name, facets, f, 17);
        lemma_written_word(name, facets, f, 18);
        lemma_written_word(name, facets, f, 19);
        lemma_written_word(name, facets, f, 20);
        assert(ok[start + 21 * f + 2] && ok[start + 21 * f + 3] && ok[start + 21 * f + 4]);
        assert(ok[start + 21 * f + 8] && ok[start + 21 * f + 9] && ok[start + 21 * f + 10]);
        assert(ok[start + 21 * f + 12] && ok[start + 21 * f + 13] && ok[start + 21 * f + 14]);
        assert(ok[start + 21 * f + 16] && ok[start + 21 * f + 17] && ok[start + 21 * f + 18]);
        assert(w[b] != kw_endsolid());
        assert(vector_words(w, ok, b + 2) is Ok);
        assert(vector_words(w, ok, b + 8) is Ok);
        assert(vector_words(w, ok, b + 12) is Ok);
        assert(vector_words(w, ok, b + 16) is Ok);
        assert(w[b + 19] == kw_endloop());
        assert(vertex_words(w, ok, b + 19) == Ok::<(int, Seq<int>), Error>((b + 20, Seq::<int>::empty())));
        assert(w[b + 15] != kw_endloop());
        assert(vertex_words(w, ok, b + 15) == Ok::<(int, Seq<int>), Error>((b + 20, seq![b + 16] + Seq::<int>::empty())));
        assert(w[b + 11] != kw_endloop());
        assert(vertex_words(w, ok, b + 11) == Ok::<(int, Seq<int>), Error>((b + 20, seq![b + 12] + (seq![b + 16] + Seq::<int>::empty()))));
        assert(w[b + 7] != kw_endloop());
        let vs = seq![b + 8] + (seq![b + 12] + (seq![b + 16] + Seq::<int>::empty()));
        assert(vertex_words(w, ok, b + 7) == Ok::<(int, Seq<int>), Error>((b + 20, vs)));
        assert(vs =~= seq![b + 8, b + 12, b + 16]);
        lemma_written_facets_read_back(name, facets, ok, f + 1);
        assert(b + 21 == start + 21 * (f + 1));
        let rest = Seq::new((facets.len() - (f + 1)) as nat, |g: int| written_facet(start + 21 * (f + 1 + g)));
        let all = Seq::new((facets.len() - f) as nat, |g: int| written_facet(start + 21 * (f + g)));
        assert(all =~= seq![written_facet(b)] + rest) by {
            assert forall|g: int| 0 <= g < all.len() implies #[trigger] all[g] == (seq![written_facet(b)] + rest)[g] by {
                if g > 0 {
                    assert(start + 21 * (f + g) == start + 21 * (f + 1 + (g - 1)));
                }
            }
        }
        assert(facet_words(w, ok, b) == prepend_facets(seq![(b + 2, vs)], facet_words(w, ok, b + 21)));
    }
}

/// What a writer of ASCII STL produces reads back: the words of a file
/// written as `solid`, a name (which must not be `facet`, or it would read
/// as the first facet), each facet's 21 words, and `endsolid`, read with
/// every coordinate word a number, give back the name and one facet per
/// written facet, in order, with its normal and vertices at the words where
/// they were written. The name can be left out only when there is a facet:
/// `solid endsolid` reads `endsolid` as the name and then finds no end.
pub proof fn lemma_written_ascii_stl_reads_back(name: Option<Seq<char>>, facets: Seq<Seq<Seq<char>>>, ok: Seq<bool>)
    requires
        name matches Some(n) ==> n != kw_facet(),
        name is Some || facets.len() > 0,
        ok.len() == written_ascii_stl(name, facets).len(),
        forall|g: int, o: int|
            0 <= g < facets.len() && 0 <= o < 21 && is_number_slot(o) ==> #[trigger] ok[written_start(name)
                + 21 * g + o],
    ensures
        ascii_stl_words(written_ascii_stl(name, facets), ok) == Ok::<(Option<int>, Seq<FacetWords>), Error>(
            (
                if name is Some {
                    Some(1int)
                } else {
                    None
                },
                Seq::new(facets.len(), |g: int| written_facet(written_start(name) + 21 * g)),
            ),
        ),
{
    let w = written_ascii_stl(name, facets);
    let start = written_start(name);
    lemma_written_facets_read_back(name, facets, ok, 0);
    assert(Seq::new((facets.len() - 0) as nat, |g: int| written_facet(start + 21 * (0 + g))) =~= Seq::new(
        facets.len(),
        |g: int| written_facet(start + 21 * g),
    ));
    assert(w[0] == kw_solid());
    if name is Some {
        assert(w[1] == name->0);
    } else {
        lemma_written_word(name, facets, 0, 0);
        assert(w[1] == kw_facet());
    }
}

/// A written ASCII STL followed by more words, such as `endsolid` repeating
/// the name, reads back as the written file alone does.
pub proof fn lemma_written_ascii_stl_with_trailer(
    name: Option<Seq<char>>,
    facets: Seq<Seq<Seq<char>>>,
    ok: Seq<bool>,
    t: Seq<Seq<char>>,
    okt: Seq<bool>,
)
    requires
        name matches Some(n) ==> n != kw_facet(),
        name is Some || facets.len() > 0,
        ok.len() == written_ascii_stl(name, facets).len(),
        forall|g: int, o: int|
            0 <= g < facets.len() && 0 <= o < 21 && is_number_slot(o) ==> #[trigger] ok[written_start(name)
                + 21 * g + o],
    ensures
        ascii_stl_words(written_ascii_stl(name, facets) + t, ok + okt) == Ok::<(Option<int>, Seq<FacetWords>), Error>(
            (
                if name is Some {
                    Some(1int)
                } else {
                    None
                },
                Seq::new(facets.len(), |g: int| written_facet(written_start(name) + 21 * g)),
            ),
        ),
{
    lemma_written_ascii_stl_reads_back(name, facets, ok);
    lemma_words_after_endsolid_ignored(written_ascii_stl(name, facets), ok, t, okt);
}

/// The word indices that `f` holds.
pub open spec fn facet_view(f: AsciiFacet) -> FacetWords {
    (f.normal as int, seq![f.vertices[0] as int, f.vertices[1] as int, f.vertices[2] as int])
}

/// The exec result of reading an ASCII STL, seen as the grammar sees it.
pub open spec fn ascii_result_view(r: Result<(Option<usize>, Vec<AsciiFacet>), Error>) -> Result<(Option<int>, Seq<FacetWords>), Error> {
    match r {
        Ok((name, fs)) => Ok(
            (
                match name {
                    Some(n) => Some(n as int),
                    None => None,
                },
                fs@.map_values(|f: AsciiFacet| facet_view(f)),
            ),
        ),
        Err(e) => Err(e),
    }
}

/// Whether there is an `i`-th word and it is a number.
fn number_word(text: &[char], spans: &Vec<(usize, usize)>, number_ok: &Vec<bool>, i: usize) -> (r: Result<(), Error>)
    requires
        number_ok@.len() == spans@.len(),
    ensures
        r == number_at(words_of(text@, spans@), number_ok@, i as int),
{
    if i >= spans.len() {
        Err(Error::BadFormat)
    } else if !number_ok[i] {
        Err(Error::InvalidNumber)
    } else {
        Ok(())
    }
}

/// Whether the three words from the `i`-th on are numbers.
fn vector_word(text: &[char], spans: &Vec<(usize, usize)>, number_ok: &Vec<bool>, i: usize) -> (r: Result<(), Error>)
    requires
        number_ok@.len() == spans@.len(),
    ensures
        r == vector_words(words_of(text@, spans@), number_ok@, i as int),
        r is Ok ==> i + 3 <= spans@.len(),
{
    number_word(text, spans, number_ok, i)?;
    if i >= spans.len() - 1 {
        return Err(Error::BadFormat);
    }
    number_word(text, spans, number_ok, i + 1)?;
    if i + 1 >= spans.len() - 1 {
        return Err(Error::BadFormat);
    }
    number_word(text, spans, number_ok, i + 2)
}

/// `vs` followed by the vertices `rest` gives, if it gives any.
pub open spec fn prepend_vertices(vs: Seq<int>, rest: Result<(int, Seq<int>), Error>) -> Result<(int, Seq<int>), Error> {
    match rest {
        Ok((next, r)) => Ok((next, vs + r)),
        Err(e) => Err(e),
    }
}

/// Read the `vertex x y z` entries from the `i`-th word up to `endloop`.
fn read_vertices(text: &[char], spans: &Vec<(usize, usize)>, number_ok: &Vec<bool>, start: usize) -> (r: Result<(usize, Vec<usize>), Error>)
    requires
        spans_within(text@, spans@),
        number_ok@.len() == spans@.len(),
    ensures
        vertex_words(words_of(text@, spans@), number_ok@, start as int) == match r {
            Ok((next, vs)) => Ok((next as int, vs@.map_values(|v: usize| v as int))),
            Err(e) => Err(e),
        },
{
    let ghost w = words_of(text@, spans@);
    let mut vs: Vec<usize> = Vec::new();
    let mut i = start;
    assert(vs@.map_values(|v: usize| v as int) =~= Seq::<int>::empty());
    loop
        invariant
            spans_within(text@, spans@),
            number_ok@.len() == spans@.len(),
            w == words_of(text@, spans@),
            w.len() == spans@.len(),
            vertex_words(w, number_ok@, start as int) == prepend_vertices(
                vs@.map_values(|v: usize| v as int),
                vertex_words(w, number_ok@, i as int),
            ),
        decreases spans@.len() - i,
    {
        if i >= spans.len() {
            return Err(Error::BadFormat);
        }
        if word_at_is(text, spans, i, &['e', 'n', 'd', 'l', 'o', 'o', 'p']) {
            assert(['e', 'n', 'd', 'l', 'o', 'o', 'p']@ =~= kw_endloop());
            assert(vs@.map_values(|v: usize| v as int) + Seq::<int>::empty() =~= vs@.map_values(|v: usize| v as int));
            return Ok((i + 1, vs));
        }
        assert(['e', 'n', 'd', 'l', 'o', 'o', 'p']@ =~= kw_endloop());
        if !word_at_is(text, spans, i, &['v', 'e', 'r', 't', 'e', 'x']) {
            assert(['v', 'e', 'r', 't', 'e', 'x']@ =~= kw_vertex());
            return Err(Error::BadFormat);
        }
        assert(['v', 'e', 'r', 't', 'e', 'x']@ =~= kw_vertex());
        if i >= spans.len() - 1 {
            assert(vector_words(w, number_ok@, i + 1) is Err);
            return Err(Error::BadFormat);
        }
        match vector_word(text, spans, number_ok, i + 1) {
            Err(e) => {
                return Err(e);
            },
            Ok(_) => {},
        }
        let ghost old_vs = vs@.map_values(|v: usize| v as int);
        vs.push(i + 1);
        proof {
            let new_vs = vs@.map_values(|v: usize| v as int);
            assert(new_vs =~= old_vs.push(i + 1));
            match vertex_words(w, number_ok@, i + 4) {
                Ok((next, r)) => {
                    assert(old_vs + (seq![i + 1] + r) =~= new_vs + r);
                },
                Err(_) => {},
            }
        }
        i = i + 4;
    }
}

/// Load an ASCII STL from its text, the word spans of the text and, for each
/// word, whether it is a number. Returns the index of the word that names the
/// solid (none when the solid has no name) and the facets.
pub fn load_ascii_stl(text: &[char], spans: &Vec<(usize, usize)>, number_ok: &Vec<bool>) -> (r: Result<(Option<usize>, Vec<AsciiFacet>), Error>)
    requires
        spans_within(text@, spans@),
        number_ok@.len() == spans@.len(),
    ensures
        ascii_result_view(r) == ascii_stl_words(words_of(text@, spans@), number_ok@),
{
    let ghost w = words_of(text@, spans@);
    assert(['s', 'o', 'l', 'i', 'd']@ =~= kw_solid());
    assert(['f', 'a', 'c', 'e', 't']@ =~= kw_facet());
    if !word_at_is(text, spans, 0, &['s', 'o', 'l', 'i', 'd']) {
        return Err(Error::BadFormat);
    }
    if spans.len() < 2 {
        return Err(Error::BadFormat);
    }
    let (name, first): (Option<usize>, usize) = if word_at_is(text, spans, 1, &['f', 'a', 'c', 'e', 't']) {
        (None, 1)
    } else {
        (Some(1), 2)
    };
    let mut tris: Vec<AsciiFacet> = Vec::new();
    let mut i: usize = first;
    assert(tris@.map_values(|f: AsciiFacet| facet_view(f)) =~= Seq::<FacetWords>::empty());
    assert(facet_words(w, number_ok@, first as int) == prepend_facets(
        tris@.map_values(|f: AsciiFacet| facet_view(f)),
        facet_words(w, number_ok@, first as int),
    )) by {
        if let Ok(fs) = facet_words(w, number_ok@, first as int) {
            assert(Seq::<FacetWords>::empty() + fs =~= fs);
        }
    }
    loop
        invariant
            spans_within(text@, spans@),
            number_ok@.len() == spans@.len(),
            w == words_of(text@, spans@),
            w.len() == spans@.len(),
            w.len() >= 2,
            word_is_kw(w, 0, kw_solid()),
            (name is None) == (w[1] == kw_facet()),
            name is Some ==> name->0 == 1,
            first == (if name is None { 1int } else { 2 }),
            facet_words(w, number_ok@, first as int) == prepend_facets(
                tris@.map_values(|f: AsciiFacet| facet_view(f)),
                facet_words(w, number_ok@, i as int),
            ),
        decreases spans@.len() - i,
    {
        assert(['e', 'n', 'd', 's', 'o', 'l', 'i', 'd']@ =~= kw_endsolid());
        assert(['n', 'o', 'r', 'm', 'a', 'l']@ =~= kw_normal());
        assert(['o', 'u', 't', 'e', 'r']@ =~= kw_outer());
        assert(['l', 'o', 'o', 'p']@ =~= kw_loop());
        assert(['e', 'n', 'd', 'f', 'a', 'c', 'e', 't']@ =~= kw_endfacet());
        if i >= spans.len() {
            return Err(Error::BadFormat);
        }
        if word_at_is(text, spans, i, &['e', 'n', 'd', 's', 'o', 'l', 'i', 'd']) {
            let ghost done = tris@.map_values(|f: AsciiFacet| facet_view(f));
            assert(done + Seq::<FacetWords>::empty() =~= done);
            return Ok((name, tris));
        }
        if !word_at_is(text, spans, i, &['f', 'a', 'c', 'e', 't']) {
            return Err(Error::BadFormat);
        }
        if i >= spans.len() - 1 || !word_at_is(text, spans, i + 1, &['n', 'o', 'r', 'm', 'a', 'l']) {
            return Err(Error::BadFormat);
        }
        if i + 1 >= spans.len() - 1 {
            assert(vector_words(w, number_ok@, i + 2) is Err);
            return Err(Error::BadFormat);
        }
        match vector_word(text, spans, number_ok, i + 2) {
            Err(e) => {
                return Err(e);
            },
            Ok(_) => {},
        }
        if i + 4 >= spans.len() - 1 || !word_at_is(text, spans, i + 5, &['o', 'u', 't', 'e', 'r']) {
            return Err(Error::BadFormat);
        }
        if i + 5 >= spans.len() - 1 || !word_at_is(text, spans, i + 6, &['l', 'o', 'o', 'p']) {
            return Err(Error::BadFormat);
        }
        let (next, vs) = match read_vertices(text, spans, number_ok, i + 7) {
            Err(e) => {
                return Err(e);
            },
            Ok(r) => r,
        };
        proof {
            lemma_vertex_words_advance(w, number_ok@, i + 7);
        }
        if vs.len() != 3 {
            return Err(Error::BadFormat);
        }
        if !word_at_is(text, spans, next, &['e', 'n', 'd', 'f', 'a', 'c', 'e', 't']) {
            return Err(Error::BadFormat);
        }
        let facet = AsciiFacet { normal: i + 2, vertices: [vs[0], vs[1], vs[2]] };
        let ghost old_done = tris@.map_values(|f: AsciiFacet| facet_view(f));
        tris.push(facet);
        proof {
            let vw = vs@.map_values(|v: usize| v as int);
            assert(facet_view(facet).1 =~= vw);
            let done = tris@.map_values(|f: AsciiFacet| facet_view(f));
            assert(done =~= old_done.push((i + 2, vw)));
            match facet_words(w, number_ok@, next + 1) {
                Ok(r) => {
                    assert(old_done + (seq![(i + 2, vw)] + r) =~= done + r);
                },
                Err(_) => {},
            }
        }
        i = next + 1;
    }
}

} // verus!
