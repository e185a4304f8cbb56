//! The line-level grammar of a wavefront mesh file. Each line either names a
//! group (`g `), lists a polygon's vertex numbers (`f `), gives a vertex
//! (`v `, three real coordinates), or is ignored. The real-valued vertex
//! coordinates are read by the caller; everything discrete about a line --
//! which kind it is, the group name, the vertex numbers, and the fan
//! triangulation of a polygon -- is decided here.

use crate::text::first_index_of;
use crate::text::parse_usize;
use crate::text::trim_back;
use crate::text::trim_front;
use crate::text::trim_spaces;
use crate::text::spec_parse_usize;
use crate::text::split_bytes;
use crate::text::split_on;
use crate::text::starts_with;
use crate::text::starts_with_pair;
use crate::text::trim_pair;
use crate::text::trim_pair_prefix;
use vstd::prelude::*;

verus! {

/// A face field up to its first slash: the vertex number, with any texture
/// or normal references cut off.
pub open spec fn before_slash(s: Seq<u8>) -> Seq<u8> {
    s.take(first_index_of(s, 47) as int)
}

/// The vertex numbers a face's fields denote: each field is cut at its
/// first slash and kept when it reads as a number.
pub open spec fn face_indices(fields: Seq<Seq<u8>>) -> Seq<usize>
    decreases fields.len(),
{
    if fields.len() == 0 {
        Seq::empty()
    } else {
        face_indices(fields.drop_last()) + match spec_parse_usize(before_slash(fields.last())) {
            Some(n) => seq![n],
            None => Seq::empty(),
        }
    }
}

/// The group name of a `g ` line: the line with every leading `g ` removed,
/// or nothing when the line is no group statement.
pub fn parse_group(line: &[u8]) -> (r: Option<Vec<u8>>)
    ensures
        starts_with(line@, seq![103u8, 32u8]) ==> (r matches Some(g) && g@ == trim_pair(
            line@,
            103,
            32,
        )),
        !starts_with(line@, seq![103u8, 32u8]) ==> r is None,
{
    if starts_with_pair(line, 103, 32) {
        let rest = trim_pair_prefix(line, 103, 32);
        Some(vstd::slice::slice_to_vec(rest))
    } else {
        None
    }
}

/// The vertex numbers of an `f ` line, in order: the line with every leading
/// `f ` removed is cut at spaces, each piece is cut at its first slash (a
/// piece may carry `/texture/normal` references, which are ignored), and
/// whatever reads as a number is kept. A line that is no face statement
/// gives nothing.
pub fn parse_polygon(line: &[u8]) -> (r: Option<Vec<usize>>)
    ensures
        starts_with(line@, seq![102u8, 32u8]) ==> (r matches Some(p) && p@ == face_indices(
            split_bytes(trim_pair(line@, 102, 32), 32),
        )),
        !starts_with(line@, seq![102u8, 32u8]) ==> r is None,
{
    if !starts_with_pair(line, 102, 32) {
        return None;
    }
    let rest = trim_pair_prefix(line, 102, 32);
    let fields = split_on(rest, 32);
    let ghost fv = fields.deep_view();
    let mut out: Vec<usize> = Vec::new();
    let mut i: usize = 0;
    proof {
        assert(fv.take(0) =~= Seq::<Seq<u8>>::empty());
    }
    while i < fields.len()
        invariant
            i <= fields@.len(),
            fv == fields.deep_view(),
            fv == split_bytes(trim_pair(line@, 102, 32), 32),
            out@ == face_indices(fv.take(i as int)),
        decreases fields@.len() - i,
    {
        proof {
            assert(fv.take(i + 1).drop_last() =~= fv.take(i as int));
            assert(fv.take(i + 1).last() =~= fields@[i as int]@);
        }
        let pieces = split_on(fields[i].as_slice(), 47);
        proof {
            crate::text::lemma_split_first_piece(fields@[i as int]@, 47);
            assert(pieces.deep_view()[0] =~= pieces@[0]@);
        }
        match parse_usize(pieces[0].as_slice()) {
            Some(n) => {
                out.push(n);
                proof {
                    assert(out@ =~= face_indices(fv.take(i + 1)));
                }
            },
            None => {
                proof {
                    assert(out@ =~= face_indices(fv.take(i + 1)));
                }
            },
        }
        i = i + 1;
    }
    proof {
        assert(fv.take(fields@.len() as int) =~= fv);
    }
    Some(out)
}

/// The space-separated fields of a vertex statement: the line with every
/// leading `v ` removed is trimmed of surrounding whitespace and cut at
/// spaces. The caller reads the three real coordinates from the fields (a
/// line whose fields are no such numbers is no vertex statement).
pub fn vertex_fields(line: &[u8]) -> (r: Vec<Vec<u8>>)
    ensures
        r.deep_view() == split_bytes(trim_back(trim_front(trim_pair(line@, 118, 32))), 32),
{
    let rest = trim_pair_prefix(line, 118, 32);
    let rest = trim_spaces(rest);
    split_on(rest, 32)
}

/// The fan triangulation of a polygon: vertex numbers
/// `[a, b1, b2, ..., bn]` become the triangles `(a, b1, b2)`,
/// `(a, b2, b3)`, and so on; a mere edge gives no triangle.
pub fn fan_triangulation(polygon: &[usize]) -> (r: Vec<(usize, usize, usize)>)
    requires
        polygon@.len() >= 2,
    ensures
        r@.len() == polygon@.len() - 2,
        forall|k: int|
            0 <= k < r@.len() ==> r@[k] == (polygon@[0], polygon@[k + 1], polygon@[k + 2]),
{
    let first = polygon[0];
    let mut r: Vec<(usize, usize, usize)> = Vec::new();
    let mut j: usize = 2;
    while j < polygon.len()
        invariant
            2 <= j <= polygon@.len(),
            r@.len() == j - 2,
            first == polygon@[0],
            forall|k: int|
                0 <= k < r@.len() ==> r@[k] == (polygon@[0], polygon@[k + 1], polygon@[k + 2]),
        decreases polygon@.len() - j,
    {
        r.push((first, polygon[j - 1], polygon[j]));
        j = j + 1;
    }
    r
}

} // verus!
