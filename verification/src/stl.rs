//! Streaming access to STL meshes: the facets of a binary STL are read one
//! at a time, and the ASCII loader reports failure as `None`.
use vstd::prelude::*;
use crate::mesh::stl::{
    ascii_result_view, ascii_stl_words, attribute_count_at, facet_offsets, is_facet_at,
    read_facet, AsciiFacet, FacetWords, StlTriangle,
};
use crate::mesh::{unexpected_eof, Error};
use crate::text::{spans_within, words_of};
use crate::bytes::le_u32_at;

pub use crate::mesh::stl::StlFormat;

verus! {

/// An iterator over the facets of a binary STL.
#[derive(Debug)]
pub struct BinaryStlIter {
    ntriangles: u32,
    input: Vec<u8>,
    pos: usize,
}

/// Whether a facet record fits at `b[pos]`, and where reading it leaves the
/// input: just past the record, or at the end of the input when it does not
/// fit (a reader consumes what is left before it fails).
pub open spec fn stream_step(b: Seq<u8>, pos: int) -> (bool, int) {
    if pos + 50 <= b.len() && pos + 50 + attribute_count_at(b, pos) <= b.len() {
        (true, pos + 50 + attribute_count_at(b, pos))
    } else {
        (false, b.len() as int)
    }
}

/// Where the input stands after `k` facets are read from `b[pos]` on.
pub open spec fn stream_pos(b: Seq<u8>, pos: int, k: nat) -> int
    decreases k,
{
    if k == 0 {
        pos
    } else {
        stream_step(b, stream_pos(b, pos, (k - 1) as nat)).1
    }
}

impl BinaryStlIter {
    /// The number of facets still to be read.
    pub closed spec fn remaining(&self) -> nat {
        self.ntriangles as nat
    }

    /// The bytes of the STL.
    pub closed spec fn spec_input(&self) -> Seq<u8> {
        self.input@
    }

    /// Where the next facet is read from.
    pub closed spec fn spec_pos(&self) -> int {
        self.pos as int
    }

    /// The position never passes the end of the input.
    pub closed spec fn wf(&self) -> bool {
        self.pos <= self.input@.len()
    }

    /// The next facet, or `None` once the declared number of facets has been
    /// read. A facet cut short by the end of the input gives an I/O error.
    pub fn next(&mut self) -> (r: Option<Result<StlTriangle, std::io::Error>>)
        requires
            old(self).wf(),
        ensures
            final(self).wf(),
            final(self).spec_input() == old(self).spec_input(),
            old(self).remaining() == 0 ==> r is None && final(self).remaining() == 0
                && final(self).spec_pos() == old(self).spec_pos(),
            old(self).remaining() > 0 ==> {
                let (fits, next) = stream_step(old(self).spec_input(), old(self).spec_pos());
                &&& final(self).remaining() == old(self).remaining() - 1
                &&& final(self).spec_pos() == next
                &&& r is Some
                &&& (r->0 is Ok) == fits
                &&& r->0 matches Ok(t) ==> is_facet_at(t, old(self).spec_input(), old(self).spec_pos())
            },
    {
        if self.ntriangles == 0 {
            return None;
        }
        self.ntriangles = self.ntriangles - 1;
        match read_facet(self.input.as_slice(), self.pos) {
            Some((t, next)) => {
                self.pos = next;
                Some(Ok(t))
            },
            None => {
                self.pos = self.input.len();
                Some(Err(unexpected_eof()))
            },
        }
    }

    /// The exact number of facets left: `(n, Some(n))`.
    pub fn size_hint(&self) -> (r: (usize, Option<usize>))
        ensures
            r.0 == self.remaining(),
            r.1 == Some(self.remaining() as usize),
    {
        (self.ntriangles as usize, Some(self.ntriangles as usize))
    }
}

/// Load a binary STL: its 80-byte header and an iterator over its facets.
/// Fails with an I/O error when the input ends before the header and the
/// facet count.
pub fn load_binary_stl(bytes: Vec<u8>) -> (r: Result<([u8; 80], BinaryStlIter), std::io::Error>)
    ensures
        r is Ok <==> bytes@.len() >= 84,
        r matches Ok((header, it)) ==> {
            &&& header@ == bytes@.take(80)
            &&& it.wf()
            &&& it.spec_input() == bytes@
            &&& it.spec_pos() == 84
            &&& it.remaining() == le_u32_at(bytes@, 80)
        },
{
    let len = bytes.len();
    if len < 84 {
        return Err(unexpected_eof());
    }
    let mut header = [0u8; 80];
    let mut i: usize = 0;
    while i < 80
        invariant
            i <= 80,
            len == bytes@.len(),
            len >= 84,
            forall|j: int| 0 <= j < i ==> header@[j] == bytes@[j],
        decreases 80 - i,
    {
        header[i] = bytes[i];
        i = i + 1;
    }
    assert(header@ =~= bytes@.take(80));
    let ntriangles = crate::bytes::u32_at(bytes.as_slice(), 80);
    Ok((header, BinaryStlIter { ntriangles, input: bytes, pos: 84 }))
}

/// Load an ASCII STL as `mesh::stl::load_ascii_stl` does, giving `None`
/// where that gives an error.
pub fn load_ascii_stl(text: &[char], spans: &Vec<(usize, usize)>, number_ok: &Vec<bool>) -> (r: Option<(Option<usize>, Vec<AsciiFacet>)>)
    requires
        spans_within(text@, spans@),
        number_ok@.len() == spans@.len(),
    ensures
        r is Some <==> ascii_stl_words(words_of(text@, spans@), number_ok@) is Ok,
        r matches Some(v) ==> ascii_result_view(Ok(v)) == ascii_stl_words(words_of(text@, spans@), number_ok@),
{
    match crate::mesh::stl::load_ascii_stl(text, spans, number_ok) {
        Ok(v) => Some(v),
        Err(_) => None,
    }
}

/// Try to guess the format of a STL by looking at its first bytes, as
/// `mesh::stl::guess_stl_format` does, with the bare I/O error on inputs
/// shorter than five bytes.
pub fn guess_stl_format(head: &[u8]) -> (r: Result<StlFormat, std::io::Error>)
    ensures
        r is Err <==> head@.len() < 5,
        r is Ok ==> r->Ok_0 == crate::mesh::stl::announced_format(head@),
{
    match crate::mesh::stl::guess_stl_format(head) {
        Ok(f) => Ok(f),
        Err(Error::IoError(e)) => Err(e),
        Err(_) => Err(unexpected_eof()),
    }
}

/// Reading the facets of a binary STL one at a time meets the same records
/// as loading them all at once: when `n` facet records follow one another
/// from `b[pos]`, the `k`-th read starts at the `k`-th of them and succeeds;
/// when they do not, one of the `n` reads fails.
pub proof fn lemma_stream_follows_layout(b: Seq<u8>, pos: int, n: nat)
    ensures
        facet_offsets(b, pos, n) matches Some(offsets) ==> forall|k: int|
            0 <= k < n ==> #[trigger] stream_pos(b, pos, k as nat) == offsets[k] && stream_step(b, offsets[k]).0,
        facet_offsets(b, pos, n) is None ==> exists|k: int|
            0 <= k < n && !(#[trigger] stream_step(b, stream_pos(b, pos, k as nat))).0,
    decreases n,
{
    if n > 0 {
        let (fits, next) = stream_step(b, pos);
        lemma_stream_follows_layout(b, next, (n - 1) as nat);
        assert forall|k: nat| 0 < k implies #[trigger] stream_pos(b, pos, k) == stream_pos(b, next, (k - 1) as nat) by {
            lemma_stream_pos_shift(b, pos, k);
        }
        if fits {
            if let Some(offsets) = facet_offsets(b, pos, n) {
                let rest = facet_offsets(b, next, (n - 1) as nat)->0;
                crate::mesh::stl::lemma_facet_offsets_bounds(b, next, (n - 1) as nat);
                assert(offsets =~= seq![pos] + rest);
                assert forall|k: int| 0 <= k < n implies #[trigger] stream_pos(b, pos, k as nat) == offsets[k]
                    && stream_step(b, offsets[k]).0 by {
                    if k > 0 {
                        assert(stream_pos(b, pos, k as nat) == stream_pos(b, next, (k - 1) as nat));
                        assert(offsets[k] == rest[k - 1]);
                    }
                }
            } else {
                let k = choose|k: int| 0 <= k < n - 1 && !(#[trigger] stream_step(b, stream_pos(b, next, k as nat))).0;
                assert(stream_pos(b, pos, (k + 1) as nat) == stream_pos(b, next, k as nat));
                let k1: int = k + 1;
                assert(!stream_step(b, stream_pos(b, pos, k1 as nat)).0);
            }
        } else {
            let k0: int = 0;
            assert(stream_pos(b, pos, k0 as nat) == pos);
            assert(!stream_step(b, stream_pos(b, pos, k0 as nat)).0);
        }
    }
}

proof fn lemma_stream_pos_shift(b: Seq<u8>, pos: int, k: nat)
    requires
        k > 0,
    ensures
        stream_pos(b, pos, k) == stream_pos(b, stream_step(b, pos).1, (k - 1) as nat),
    decreases k,
{
    assert(stream_pos(b, pos, 0) == pos);
    if k > 1 {
        lemma_stream_pos_shift(b, pos, (k - 1) as nat);
        assert(stream_pos(b, pos, k) == stream_step(b, stream_pos(b, pos, (k - 1) as nat)).1);
        assert(stream_pos(b, stream_step(b, pos).1, (k - 1) as nat) == stream_step(
            b,
            stream_pos(b, stream_step(b, pos).1, (k - 2) as nat),
        ).1);
    } else {
        assert(stream_pos(b, pos, 1) == stream_step(b, stream_pos(b, pos, 0)).1);
    }
}

} // verus!
