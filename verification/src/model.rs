//! The records of a mesh file, and the table of faces they fill.

use crate::text::{
    bounded_number, lemma_field_not_empty, parse_bounded, skip_spaces, skip_spaces_from, token_end,
    token_end_from,
};
use vstd::prelude::*;

verus! {

/// Why a line of a mesh file cannot be read, or why a mesh is not sound.
#[derive(Debug, Clone, Copy, PartialEq, Eq)]
pub enum MeshError {
    /// A record has fewer fields than its kind needs, or a corner of a face
    /// has fewer than three indices.
    MissingField,
    /// An index of a face is not a positive decimal number.
    InvalidIndex,
    /// A face refers to a position, texture coordinate or normal that the
    /// mesh does not have.
    IndexOutOfRange,
}

/// A stretch of a line: the bytes from `start` up to but not including `end`.
#[derive(Debug, Clone, Copy, PartialEq, Eq)]
pub struct Span {
    pub start: usize,
    pub end: usize,
}

/// One corner of a face: where its position, texture coordinate and normal
/// stand in their lists, counted from zero.
#[derive(Debug, Clone, Copy, PartialEq, Eq)]
pub struct Corner {
    pub vertex: usize,
    pub uv: usize,
    pub normal: usize,
}

/// What one line of a mesh file says. Fields that hold real numbers are given
/// as the stretches of the line that spell them.
#[derive(Debug, Clone, Copy, PartialEq, Eq)]
pub enum Record {
    /// Nothing but separators.
    Blank,
    /// A record of a kind that is not used.
    Ignored,
    /// A position: x, y and z.
    Position(Span, Span, Span),
    /// A normal: x, y and z.
    Normal(Span, Span, Span),
    /// A texture coordinate: u and v.
    TexCoord(Span, Span),
    /// A triangle.
    Face(Corner, Corner, Corner),
}

/// The field that begins at or after `i`, if the line has one there.
pub open spec fn span_at(s: Seq<u8>, i: int) -> Option<Span> {
    let start = skip_spaces(s, i);
    if start < s.len() {
        Some(Span { start: start as usize, end: token_end(s, start) as usize })
    } else {
        None
    }
}

/// The two fields that begin at or after `i`.
pub open spec fn two_spans(s: Seq<u8>, i: int) -> Option<(Span, Span)> {
    match span_at(s, i) {
        None => None,
        Some(a) => match span_at(s, a.end as int) {
            None => None,
            Some(b) => Some((a, b)),
        },
    }
}

/// The three fields that begin at or after `i`.
pub open spec fn three_spans(s: Seq<u8>, i: int) -> Option<(Span, Span, Span)> {
    match two_spans(s, i) {
        None => None,
        Some((a, b)) => match span_at(s, b.end as int) {
            None => None,
            Some(c) => Some((a, b, c)),
        },
    }
}

/// First position in `[i, end)` that holds a slash; `end` if there is none.
pub open spec fn part_end(s: Seq<u8>, i: int, end: int) -> int
    decreases end - i,
{
    if 0 <= i < end && i < s.len() && s[i] != 47 {
        part_end(s, i + 1, end)
    } else {
        i
    }
}

/// The list position that a face index spells: the index is a decimal number
/// counted from one.
pub open spec fn index_of(part: Seq<u8>) -> Option<usize> {
    match bounded_number(part, usize::MAX as nat) {
        Some(n) => if n >= 1 {
            Some((n - 1) as usize)
        } else {
            None
        },
        None => None,
    }
}

/// The corner that a field of a face record spells: position, texture
/// coordinate and normal index, separated by slashes. What follows a third
/// slash is not read.
pub open spec fn corner_of(s: Seq<u8>, span: Span) -> Result<Corner, MeshError> {
    let e0 = part_end(s, span.start as int, span.end as int);
    match index_of(s.subrange(span.start as int, e0)) {
        None => Err(MeshError::InvalidIndex),
        Some(vertex) => if e0 >= span.end {
            Err(MeshError::MissingField)
        } else {
            let e1 = part_end(s, e0 + 1, span.end as int);
            match index_of(s.subrange(e0 + 1, e1)) {
                None => Err(MeshError::InvalidIndex),
                Some(uv) => if e1 >= span.end {
                    Err(MeshError::MissingField)
                } else {
                    let e2 = part_end(s, e1 + 1, span.end as int);
                    match index_of(s.subrange(e1 + 1, e2)) {
                        None => Err(MeshError::InvalidIndex),
                        Some(normal) => Ok(Corner { vertex, uv, normal }),
                    }
                },
            }
        },
    }
}

/// The face that the three fields at or after `i` spell.
pub open spec fn face_of(s: Seq<u8>, i: int) -> Result<Record, MeshError> {
    match span_at(s, i) {
        None => Err(MeshError::MissingField),
        Some(a) => match corner_of(s, a) {
            Err(e) => Err(e),
            Ok(ca) => match span_at(s, a.end as int) {
                None => Err(MeshError::MissingField),
                Some(b) => match corner_of(s, b) {
                    Err(e) => Err(e),
                    Ok(cb) => match span_at(s, b.end as int) {
                        None => Err(MeshError::MissingField),
                        Some(c) => match corner_of(s, c) {
                            Err(e) => Err(e),
                            Ok(cc) => Ok(Record::Face(ca, cb, cc)),
                        },
                    },
                },
            },
        },
    }
}

/// What a line says. The first field names the kind of record: `v` a
/// position, `vn` a normal, `vt` a texture coordinate, `f` a face. Fields
/// behind those that the kind needs are not read.
pub open spec fn record_of(s: Seq<u8>) -> Result<Record, MeshError> {
    match span_at(s, 0) {
        None => Ok(Record::Blank),
        Some(key) => {
            let word = s.subrange(key.start as int, key.end as int);
            let rest = key.end as int;
            if word == seq![118u8] {
                match three_spans(s, rest) {
                    Some((x, y, z)) => Ok(Record::Position(x, y, z)),
                    None => Err(MeshError::MissingField),
                }
            } else if word == seq![118u8, 110u8] {
                match three_spans(s, rest) {
                    Some((x, y, z)) => Ok(Record::Normal(x, y, z)),
                    None => Err(MeshError::MissingField),
                }
            } else if word == seq![118u8, 116u8] {
                match two_spans(s, rest) {
                    Some((u, v)) => Ok(Record::TexCoord(u, v)),
                    None => Err(MeshError::MissingField),
                }
            } else if word == seq![102u8] {
                face_of(s, rest)
            } else {
                Ok(Record::Ignored)
            }
        },
    }
}

fn next_span(line: &[u8], from: usize) -> (r: Option<Span>)
    requires
        from <= line@.len(),
    ensures
        r == span_at(line@, from as int),
        r matches Some(span) ==> from <= span.start < span.end <= line@.len(),
{
    let start: usize = skip_spaces_from(line, from);
    if start < line.len() {
        let end: usize = token_end_from(line, start);
        proof {
            lemma_field_not_empty(line@, from as int);
        }
        Some(Span { start, end })
    } else {
        None
    }
}

fn next_two(line: &[u8], from: usize) -> (r: Option<(Span, Span)>)
    requires
        from <= line@.len(),
    ensures
        r == two_spans(line@, from as int),
        r matches Some(found) ==> found.1.end <= line@.len(),
{
    let a = match next_span(line, from) {
        Some(span) => span,
        None => {
            return None;
        },
    };
    match next_span(line, a.end) {
        Some(b) => Some((a, b)),
        None => None,
    }
}

fn next_three(line: &[u8], from: usize) -> (r: Option<(Span, Span, Span)>)
    requires
        from <= line@.len(),
    ensures
        r == three_spans(line@, from as int),
{
    let (a, b) = match next_two(line, from) {
        Some(found) => found,
        None => {
            return None;
        },
    };
    match next_span(line, b.end) {
        Some(c) => Some((a, b, c)),
        None => None,
    }
}

fn part_end_from(line: &[u8], from: usize, end: usize) -> (i: usize)
    requires
        from <= end <= line@.len(),
    ensures
        i == part_end(line@, from as int, end as int),
        from <= i <= end,
{
    let mut i: usize = from;
    while i < end && line[i] != 47u8
        invariant
            from <= i <= end <= line@.len(),
            part_end(line@, from as int, end as int) == part_end(line@, i as int, end as int),
        decreases end - i,
    {
        i = i + 1;
    }
    i
}

fn parse_index(line: &[u8], start: usize, end: usize) -> (r: Option<usize>)
    requires
        start <= end <= line@.len(),
    ensures
        r == index_of(line@.subrange(start as int, end as int)),
{
    match parse_bounded(line, start, end, usize::MAX as u64) {
        Some(n) => if n >= 1 {
            Some((n - 1) as usize)
        } else {
            None
        },
        None => None,
    }
}

/// Reads the corner that a field of a face record spells.
pub fn parse_corner(line: &[u8], span: Span) -> (r: Result<Corner, MeshError>)
    requires
        span.start <= span.end <= line@.len(),
    ensures
        r == corner_of(line@, span),
{
    let e0: usize = part_end_from(line, span.start, span.end);
    let vertex: usize = match parse_index(line, span.start, e0) {
        Some(i) => i,
        None => {
            return Err(MeshError::InvalidIndex);
        },
    };
    if e0 >= span.end {
        return Err(MeshError::MissingField);
    }
    let e1: usize = part_end_from(line, e0 + 1, span.end);
    let uv: usize = match parse_index(line, e0 + 1, e1) {
        Some(i) => i,
        None => {
            return Err(MeshError::InvalidIndex);
        },
    };
    if e1 >= span.end {
        return Err(MeshError::MissingField);
    }
    let e2: usize = part_end_from(line, e1 + 1, span.end);
    match parse_index(line, e1 + 1, e2) {
        Some(normal) => Ok(Corner { vertex, uv, normal }),
        None => Err(MeshError::InvalidIndex),
    }
}

fn parse_face(line: &[u8], from: usize) -> (r: Result<Record, MeshError>)
    requires
        from <= line@.len(),
    ensures
        r == face_of(line@, from as int),
{
    let a = match next_span(line, from) {
        Some(span) => span,
        None => {
            return Err(MeshError::MissingField);
        },
    };
    let ca = match parse_corner(line, a) {
        Ok(corner) => corner,
        Err(e) => {
            return Err(e);
        },
    };
    let b = match next_span(line, a.end) {
        Some(span) => span,
        None => {
            return Err(MeshError::MissingField);
        },
    };
    let cb = match parse_corner(line, b) {
        Ok(corner) => corner,
        Err(e) => {
            return Err(e);
        },
    };
    let c = match next_span(line, b.end) {
        Some(span) => span,
        None => {
            return Err(MeshError::MissingField);
        },
    };
    match parse_corner(line, c) {
        Ok(cc) => Ok(Record::Face(ca, cb, cc)),
        Err(e) => Err(e),
    }
}

/// Reads one line of a mesh file.
pub fn parse_record(line: &[u8]) -> (r: Result<Record, MeshError>)
    ensures
        r == record_of(line@),
{
    let key = match next_span(line, 0) {
        Some(span) => span,
        None => {
            return Ok(Record::Blank);
        },
    };
    let ghost word = line@.subrange(key.start as int, key.end as int);
    let len: usize = key.end - key.start;
    let first: u8 = line[key.start];
    proof {
        assert(word.len() == len);
        assert(word[0] == first);
        if len == 2 {
            assert(word[1] == line@[key.start + 1]);
        }
        assert(seq![118u8].len() == 1 && seq![118u8][0] == 118u8);
        assert(seq![102u8].len() == 1 && seq![102u8][0] == 102u8);
        assert(seq![118u8, 110u8].len() == 2 && seq![118u8, 110u8][0] == 118u8 && seq![
            118u8,
            110u8,
        ][1] == 110u8);
        assert(seq![118u8, 116u8].len() == 2 && seq![118u8, 116u8][0] == 118u8 && seq![
            118u8,
            116u8,
        ][1] == 116u8);
    }
    if len == 1 && first == 118u8 {
        assert(word =~= seq![118u8]);
        match next_three(line, key.end) {
            Some((x, y, z)) => Ok(Record::Position(x, y, z)),
            None => Err(MeshError::MissingField),
        }
    } else if len == 2 && first == 118u8 && line[key.start + 1] == 110u8 {
        assert(word =~= seq![118u8, 110u8]);
        match next_three(line, key.end) {
            Some((x, y, z)) => Ok(Record::Normal(x, y, z)),
            None => Err(MeshError::MissingField),
        }
    } else if len == 2 && first == 118u8 && line[key.start + 1] == 116u8 {
        assert(word =~= seq![118u8, 116u8]);
        match next_two(line, key.end) {
            Some((u, v)) => Ok(Record::TexCoord(u, v)),
            None => Err(MeshError::MissingField),
        }
    } else if len == 1 && first == 102u8 {
        assert(word =~= seq![102u8]);
        parse_face(line, key.end)
    } else {
        Ok(Record::Ignored)
    }
}

/// The triangles of a mesh: for every corner of every face, where its
/// position, texture coordinate and normal stand in their lists. Three
/// entries of each table make one face.
pub struct FaceTable {
    pub facet_vrt: Vec<usize>,
    pub facet_tex: Vec<usize>,
    pub facet_nrm: Vec<usize>,
}

impl FaceTable {
    /// The three tables have one length, and it is a multiple of three.
    pub open spec fn wf(&self) -> bool {
        &&& self.facet_tex@.len() == self.facet_vrt@.len()
        &&& self.facet_nrm@.len() == self.facet_vrt@.len()
        &&& self.facet_vrt@.len() % 3 == 0
    }

    /// Number of faces.
    pub open spec fn face_count(&self) -> nat {
        self.facet_vrt@.len() / 3
    }

    /// Corner `nthvert` of face `iface`.
    pub open spec fn corner_at(&self, iface: int, nthvert: int) -> Corner {
        Corner {
            vertex: self.facet_vrt@[iface * 3 + nthvert],
            uv: self.facet_tex@[iface * 3 + nthvert],
            normal: self.facet_nrm@[iface * 3 + nthvert],
        }
    }

    /// Every corner of every face refers to an entry that a mesh with
    /// `nverts` positions, `nuvs` texture coordinates and `nnormals` normals
    /// has.
    pub open spec fn in_range(&self, nverts: int, nuvs: int, nnormals: int) -> bool {
        forall|iface: int, nthvert: int|
            0 <= iface < self.face_count() && 0 <= nthvert < 3 ==> {
                let c = #[trigger] self.corner_at(iface, nthvert);
                c.vertex < nverts && c.uv < nuvs && c.normal < nnormals
            }
    }

    /// A mesh without faces.
    pub fn new() -> (t: Self)
        ensures
            t.wf(),
            t.face_count() == 0,
    {
        FaceTable { facet_vrt: Vec::new(), facet_tex: Vec::new(), facet_nrm: Vec::new() }
    }

    /// Adds a face with the corners `a`, `b` and `c`.
    pub fn push_face(&mut self, a: Corner, b: Corner, c: Corner)
        requires
            old(self).wf(),
        ensures
            final(self).wf(),
            final(self).face_count() == old(self).face_count() + 1,
            forall|iface: int, nthvert: int|
                0 <= iface < old(self).face_count() && 0 <= nthvert < 3
                    ==> #[trigger] final(self).corner_at(iface, nthvert) == old(self).corner_at(
                    iface,
                    nthvert,
                ),
            final(self).corner_at(old(self).face_count() as int, 0) == a,
            final(self).corner_at(old(self).face_count() as int, 1) == b,
            final(self).corner_at(old(self).face_count() as int, 2) == c,
    {
        self.facet_vrt.push(a.vertex);
        self.facet_tex.push(a.uv);
        self.facet_nrm.push(a.normal);
        self.facet_vrt.push(b.vertex);
        self.facet_tex.push(b.uv);
        self.facet_nrm.push(b.normal);
        self.facet_vrt.push(c.vertex);
        self.facet_tex.push(c.uv);
        self.facet_nrm.push(c.normal);
    }

    /// Number of faces.
    pub fn nfaces(&self) -> (n: usize)
        ensures
            n == self.face_count(),
    {
        self.facet_vrt.len() / 3
    }

    /// Corner `nthvert` of face `iface`.
    pub fn corner(&self, iface: usize, nthvert: usize) -> (c: Corner)
        requires
            self.wf(),
            iface < self.face_count(),
            nthvert < 3,
        ensures
            c == self.corner_at(iface as int, nthvert as int),
    {
        assert(iface * 3 + nthvert < self.facet_vrt.len());
        let i: usize = iface * 3 + nthvert;
        Corner { vertex: self.facet_vrt[i], uv: self.facet_tex[i], normal: self.facet_nrm[i] }
    }

    /// Checks every face against the sizes of the three lists of a mesh.
    pub fn check_range(&self, nverts: usize, nuvs: usize, nnormals: usize) -> (r: Result<
        (),
        MeshError,
    >)
        requires
            self.wf(),
        ensures
            r is Ok <==> self.in_range(nverts as int, nuvs as int, nnormals as int),
            r matches Err(e) ==> e == MeshError::IndexOutOfRange,
    {
        let len: usize = self.facet_vrt.len();
        let mut i: usize = 0;
        while i < len
            invariant
                self.wf(),
                len == self.facet_vrt@.len(),
                0 <= i <= len,
                forall|j: int|
                    0 <= j < i ==> self.facet_vrt@[j] < nverts && self.facet_tex@[j] < nuvs
                        && self.facet_nrm@[j] < nnormals,
            decreases len - i,
        {
            if self.facet_vrt[i] >= nverts || self.facet_tex[i] >= nuvs || self.facet_nrm[i]
                >= nnormals {
                proof {
                    let iface = i as int / 3;
                    let nthvert = i as int % 3;
                    assert(iface * 3 + nthvert == i);
                    let c = self.corner_at(iface, nthvert);
                    assert(!(c.vertex < nverts && c.uv < nuvs && c.normal < nnormals));
                }
                return Err(MeshError::IndexOutOfRange);
            }
            i = i + 1;
        }
        proof {
            assert forall|iface: int, nthvert: int|
                0 <= iface < self.face_count() && 0 <= nthvert < 3 implies {
                let c = #[trigger] self.corner_at(iface, nthvert);
                c.vertex < nverts && c.uv < nuvs && c.normal < nnormals
            } by {
                let j = iface * 3 + nthvert;
                assert(0 <= j < len);
            }
        }
        Ok(())
    }
}

} // verus!
