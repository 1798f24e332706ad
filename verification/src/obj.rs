use vstd::prelude::*;

use crate::numbers::{check_float_literal, index_value, is_float_literal, parse_index, IndexError};
use crate::text::{
    char_seqs, chars_of, split_at_char, split_on, split_words, string_from_chars, words,
};

verus! {

/// A vertex or normal of a Wavefront OBJ mesh: its three coordinates as
/// written in the file, each a text that `f32::from_str` accepts.
#[derive(Clone, Debug)]
pub struct Vec3Text {
    pub x: String,
    pub y: String,
    pub z: String,
}

impl View for Vec3Text {
    type V = (Seq<char>, Seq<char>, Seq<char>);

    open spec fn view(&self) -> (Seq<char>, Seq<char>, Seq<char>) {
        (self.x@, self.y@, self.z@)
    }
}

impl Vec3Text {
    /// A copy of the three coordinates.
    pub fn duplicate(&self) -> (r: Vec3Text)
        ensures
            r@ == self@,
    {
        Vec3Text { x: self.x.clone(), y: self.y.clone(), z: self.z.clone() }
    }
}

/// A polygon of the mesh: zero-based indices into the vertex list and, for
/// the corners that name one, into the normal list.
#[derive(Clone, Debug)]
pub struct Face {
    pub vertices: Vec<usize>,
    pub vertex_normals: Vec<usize>,
}

#[verifier::ext_equal]
pub struct FaceModel {
    pub vertices: Seq<usize>,
    pub vertex_normals: Seq<usize>,
}

impl View for Face {
    type V = FaceModel;

    open spec fn view(&self) -> FaceModel {
        FaceModel { vertices: self.vertices@, vertex_normals: self.vertex_normals@ }
    }
}

/// The vertices, vertex normals and faces read from an OBJ file, in file order.
#[derive(Debug)]
pub struct Mesh {
    pub vertices: Vec<Vec3Text>,
    pub vertex_normals: Vec<Vec3Text>,
    pub faces: Vec<Face>,
}

#[verifier::ext_equal]
pub struct MeshModel {
    pub vertices: Seq<(Seq<char>, Seq<char>, Seq<char>)>,
    pub vertex_normals: Seq<(Seq<char>, Seq<char>, Seq<char>)>,
    pub faces: Seq<FaceModel>,
}

impl View for Mesh {
    type V = MeshModel;

    open spec fn view(&self) -> MeshModel {
        MeshModel {
            vertices: self.vertices@.map_values(|v: Vec3Text| v@),
            vertex_normals: self.vertex_normals@.map_values(|v: Vec3Text| v@),
            faces: self.faces@.map_values(|f: Face| f@),
        }
    }
}

/// The mesh with nothing in it.
pub open spec fn empty_mesh() -> MeshModel {
    MeshModel { vertices: seq![], vertex_normals: seq![], faces: seq![] }
}

/// Why an OBJ text was refused.
#[derive(Clone, Copy, Debug, PartialEq, Eq, Structural)]
pub enum ObjError {
    /// A `v` or `vn` line without an `x` coordinate.
    MissingX,
    /// A `v` or `vn` line without a `y` coordinate.
    MissingY,
    /// A `v` or `vn` line without a `z` coordinate.
    MissingZ,
    /// A coordinate that is not a floating-point number.
    InvalidFloat,
    /// A face index that is not a number of type `usize`.
    InvalidIndex(IndexError),
    /// A vertex index of 0 (indices count from 1).
    ZeroIndex,
    /// A texture index of 0.
    ZeroTextureIndex,
    /// A normal index of 0.
    ZeroNormalIndex,
}

/// The coordinates of a `v` or `vn` line, given its words: the three words
/// after the keyword, which must be numbers; further words are ignored.
pub open spec fn coords_of(w: Seq<Seq<char>>) -> Result<(Seq<char>, Seq<char>, Seq<char>), ObjError> {
    if w.len() < 2 {
        Err(ObjError::MissingX)
    } else if !is_float_literal(w[1]) {
        Err(ObjError::InvalidFloat)
    } else if w.len() < 3 {
        Err(ObjError::MissingY)
    } else if !is_float_literal(w[2]) {
        Err(ObjError::InvalidFloat)
    } else if w.len() < 4 {
        Err(ObjError::MissingZ)
    } else if !is_float_literal(w[3]) {
        Err(ObjError::InvalidFloat)
    } else {
        Ok((w[1], w[2], w[3]))
    }
}

/// A one-based index as a zero-based one; `zero` is the error for 0.
pub open spec fn zero_based(s: Seq<char>, zero: ObjError) -> Result<usize, ObjError> {
    match index_value(s) {
        Err(e) => Err(ObjError::InvalidIndex(e)),
        Ok(v) => if v == 0 {
            Err(zero)
        } else {
            Ok((v - 1) as usize)
        },
    }
}

/// One corner `v`, `v/t`, `v//n` or `v/t/n` of a face: the zero-based vertex
/// index and, when a normal index is given, the zero-based normal index. The
/// texture index is checked and dropped; parts after the third are ignored.
pub open spec fn face_corner(tok: Seq<char>) -> Result<(usize, Option<usize>), ObjError> {
    let parts = split_on(tok, '/');
    match zero_based(parts[0], ObjError::ZeroIndex) {
        Err(e) => Err(e),
        Ok(v) => if parts.len() > 1 && parts[1].len() > 0 && zero_based(
            parts[1],
            ObjError::ZeroTextureIndex,
        ) is Err {
            Err(zero_based(parts[1], ObjError::ZeroTextureIndex)->Err_0)
        } else if parts.len() > 2 && parts[2].len() > 0 {
            match zero_based(parts[2], ObjError::ZeroNormalIndex) {
                Err(e) => Err(e),
                Ok(n) => Ok((v, Some(n))),
            }
        } else {
            Ok((v, None))
        },
    }
}

/// The face whose corners are `toks`; the first bad corner decides the error.
pub open spec fn face_of(toks: Seq<Seq<char>>) -> Result<FaceModel, ObjError>
    decreases toks.len(),
{
    if toks.len() == 0 {
        Ok(FaceModel { vertices: seq![], vertex_normals: seq![] })
    } else {
        match face_of(toks.drop_last()) {
            Err(e) => Err(e),
            Ok(f) => match face_corner(toks.last()) {
                Err(e) => Err(e),
                Ok((v, n)) => Ok(
                    FaceModel {
                        vertices: f.vertices.push(v),
                        vertex_normals: match n {
                            Some(k) => f.vertex_normals.push(k),
                            None => f.vertex_normals,
                        },
                    },
                ),
            },
        }
    }
}

/// The mesh `m` after the OBJ line `line`: a `v` line adds a vertex, a `vn`
/// line a normal, an `f` line a face; any other line leaves it as it is.
pub open spec fn parse_line_model(m: MeshModel, line: Seq<char>) -> Result<MeshModel, ObjError> {
    let w = words(line);
    if w.len() == 0 {
        Ok(m)
    } else if w[0] == seq!['v'] {
        match coords_of(w) {
            Err(e) => Err(e),
            Ok(c) => Ok(MeshModel { vertices: m.vertices.push(c), ..m }),
        }
    } else if w[0] == seq!['v', 'n'] {
        match coords_of(w) {
            Err(e) => Err(e),
            Ok(c) => Ok(MeshModel { vertex_normals: m.vertex_normals.push(c), ..m }),
        }
    } else if w[0] == seq!['f'] {
        match face_of(w.skip(1)) {
            Err(e) => Err(e),
            Ok(f) => Ok(MeshModel { faces: m.faces.push(f), ..m }),
        }
    } else {
        Ok(m)
    }
}

/// The mesh read from `lines` in order; the first bad line decides the error.
pub open spec fn parse_lines_model(lines: Seq<Seq<char>>) -> Result<MeshModel, ObjError>
    decreases lines.len(),
{
    if lines.len() == 0 {
        Ok(empty_mesh())
    } else {
        match parse_lines_model(lines.drop_last()) {
            Err(e) => Err(e),
            Ok(m) => parse_line_model(m, lines.last()),
        }
    }
}

/// The mesh that the OBJ text `text` describes.
pub open spec fn parse_model(text: Seq<char>) -> Result<MeshModel, ObjError> {
    parse_lines_model(split_on(text, '\n'))
}

/// The coordinates of a `v` or `vn` line given its words.
fn parse_coords(w: &Vec<Vec<char>>) -> (r: Result<Vec3Text, ObjError>)
    ensures
        match r {
            Ok(v) => coords_of(char_seqs(w@)) == Ok::<_, ObjError>(v@),
            Err(e) => coords_of(char_seqs(w@)) == Err::<(Seq<char>, Seq<char>, Seq<char>), _>(e),
        },
{
    if w.len() < 2 {
        return Err(ObjError::MissingX);
    }
    if !check_float_literal(&w[1]) {
        return Err(ObjError::InvalidFloat);
    }
    if w.len() < 3 {
        return Err(ObjError::MissingY);
    }
    if !check_float_literal(&w[2]) {
        return Err(ObjError::InvalidFloat);
    }
    if w.len() < 4 {
        return Err(ObjError::MissingZ);
    }
    if !check_float_literal(&w[3]) {
        return Err(ObjError::InvalidFloat);
    }
    Ok(
        Vec3Text {
            x: string_from_chars(&w[1]),
            y: string_from_chars(&w[2]),
            z: string_from_chars(&w[3]),
        },
    )
}

/// A one-based index as a zero-based one.
fn parse_zero_based(s: &Vec<char>, zero: ObjError) -> (r: Result<usize, ObjError>)
    ensures
        r == zero_based(s@, zero),
{
    match parse_index(s) {
        Err(e) => Err(ObjError::InvalidIndex(e)),
        Ok(v) => if v == 0 {
            Err(zero)
        } else {
            Ok(v - 1)
        },
    }
}

/// One corner of a face.
fn parse_face_corner(tok: &Vec<char>) -> (r: Result<(usize, Option<usize>), ObjError>)
    ensures
        r == face_corner(tok@),
{
    let parts = split_at_char(tok, '/');
    proof {
        crate::text::lemma_split_on_nonempty(tok@, '/');
    }
    let v = match parse_zero_based(&parts[0], ObjError::ZeroIndex) {
        Err(e) => {
            return Err(e);
        },
        Ok(v) => v,
    };
    if parts.len() > 1 && parts[1].len() > 0 {
        if let Err(e) = parse_zero_based(&parts[1], ObjError::ZeroTextureIndex) {
            return Err(e);
        }
    }
    if parts.len() > 2 && parts[2].len() > 0 {
        match parse_zero_based(&parts[2], ObjError::ZeroNormalIndex) {
            Err(e) => Err(e),
            Ok(n) => Ok((v, Some(n))),
        }
    } else {
        Ok((v, None))
    }
}

/// The face whose corners are the words of `w` from the second on.
fn parse_face(w: &Vec<Vec<char>>) -> (r: Result<Face, ObjError>)
    requires
        w.len() >= 1,
    ensures
        match r {
            Ok(f) => face_of(char_seqs(w@).skip(1)) == Ok::<_, ObjError>(f@),
            Err(e) => face_of(char_seqs(w@).skip(1)) == Err::<FaceModel, _>(e),
        },
{
    let mut vertices: Vec<usize> = Vec::new();
    let mut vertex_normals: Vec<usize> = Vec::new();
    let ghost toks = char_seqs(w@).skip(1);
    let mut i: usize = 1;
    assert(toks.take(0) == Seq::<Seq<char>>::empty());
    while i < w.len()
        invariant
            1 <= i <= w.len(),
            toks == char_seqs(w@).skip(1),
            face_of(toks.take(i - 1)) == Ok::<_, ObjError>(
                FaceModel { vertices: vertices@, vertex_normals: vertex_normals@ },
            ),
        decreases w.len() - i,
    {
        let ghost prefix = toks.take(i as int);
        assert(prefix.drop_last() == toks.take(i - 1));
        assert(prefix.last() == w@[i as int]@);
        match parse_face_corner(&w[i]) {
            Err(e) => {
                proof {
                    lemma_face_error_persists(toks, i as int);
                }
                return Err(e);
            },
            Ok((v, n)) => {
                vertices.push(v);
                if let Some(k) = n {
                    vertex_normals.push(k);
                }
            },
        }
        i += 1;
    }
    assert(toks.take(w.len() - 1) == toks);
    Ok(Face { vertices, vertex_normals })
}

/// Once a prefix of the corners is refused, the whole face is refused with the same error.
proof fn lemma_face_error_persists(toks: Seq<Seq<char>>, n: int)
    requires
        0 <= n <= toks.len(),
        face_of(toks.take(n)) is Err,
    ensures
        face_of(toks) == face_of(toks.take(n)),
    decreases toks.len() - n,
{
    if n < toks.len() {
        assert(toks.take(n + 1).drop_last() == toks.take(n));
        lemma_face_error_persists(toks, n + 1);
    } else {
        assert(toks.take(n) == toks);
    }
}

/// Reads one OBJ line given as characters into `mesh`; on an error the mesh is left unchanged.
fn parse_line_chars(mesh: &mut Mesh, line: &Vec<char>) -> (r: Result<(), ObjError>)
    ensures
        match r {
            Ok(()) => parse_line_model(old(mesh)@, line@) == Ok::<_, ObjError>(final(mesh)@),
            Err(e) => parse_line_model(old(mesh)@, line@) == Err::<MeshModel, _>(e)
                && final(mesh)@ == old(mesh)@,
        },
{
    let w = split_words(line);
    let ghost ws = words(line@);
    assert(char_seqs(w@) == ws);
    if w.len() == 0 {
        return Ok(());
    }
    assert(ws[0] == w@[0]@);
    let n0 = w[0].len();
    let is_v = n0 == 1 && w[0][0] == 'v';
    let is_vn = n0 == 2 && w[0][0] == 'v' && w[0][1] == 'n';
    let is_f = n0 == 1 && w[0][0] == 'f';
    assert(is_v == (ws[0] == seq!['v'])) by {
        if is_v {
            assert(ws[0] =~= seq!['v']);
        }
    }
    assert(is_vn == (ws[0] == seq!['v', 'n'])) by {
        if is_vn {
            assert(ws[0] =~= seq!['v', 'n']);
        }
    }
    assert(is_f == (ws[0] == seq!['f'])) by {
        if is_f {
            assert(ws[0] =~= seq!['f']);
        }
    }
    if is_v {
        let c = match parse_coords(&w) {
            Err(e) => {
                return Err(e);
            },
            Ok(c) => c,
        };
        let ghost before = mesh@;
        mesh.vertices.push(c);
        assert(mesh@ =~= MeshModel { vertices: before.vertices.push(c@), ..before });
        Ok(())
    } else if is_vn {
        let c = match parse_coords(&w) {
            Err(e) => {
                return Err(e);
            },
            Ok(c) => c,
        };
        let ghost before = mesh@;
        mesh.vertex_normals.push(c);
        assert(mesh@ =~= MeshModel { vertex_normals: before.vertex_normals.push(c@), ..before });
        Ok(())
    } else if is_f {
        let f = match parse_face(&w) {
            Err(e) => {
                return Err(e);
            },
            Ok(f) => f,
        };
        let ghost before = mesh@;
        mesh.faces.push(f);
        assert(mesh@ =~= MeshModel { faces: before.faces.push(f@), ..before });
        Ok(())
    } else {
        Ok(())
    }
}

impl Mesh {
    /// The mesh with no vertices, normals or faces.
    pub fn new() -> (m: Mesh)
        ensures
            m@ == empty_mesh(),
    {
        let m = Mesh { vertices: Vec::new(), vertex_normals: Vec::new(), faces: Vec::new() };
        assert(m@ =~= empty_mesh());
        m
    }

    /// The vertex at corner `vertex_idx` of face `face_idx`.
    pub fn vertex(&self, face_idx: usize, vertex_idx: usize) -> (v: Vec3Text)
        requires
            face_idx < self@.faces.len(),
            vertex_idx < self@.faces[face_idx as int].vertices.len(),
            self@.faces[face_idx as int].vertices[vertex_idx as int] < self@.vertices.len(),
        ensures
            v@ == self@.vertices[self@.faces[face_idx as int].vertices[vertex_idx as int] as int],
    {
        let face = &self.faces[face_idx];
        let idx = face.vertices[vertex_idx];
        self.vertices[idx].duplicate()
    }

    /// The normal at the `vertex_idx`-th normal-carrying corner of face `face_idx`.
    pub fn vertex_normal(&self, face_idx: usize, vertex_idx: usize) -> (v: Vec3Text)
        requires
            face_idx < self@.faces.len(),
            vertex_idx < self@.faces[face_idx as int].vertex_normals.len(),
            self@.faces[face_idx as int].vertex_normals[vertex_idx as int]
                < self@.vertex_normals.len(),
        ensures
            v@ == self@.vertex_normals[self@.faces[face_idx as int].vertex_normals[vertex_idx as int] as int],
    {
        let face = &self.faces[face_idx];
        let idx = face.vertex_normals[vertex_idx];
        self.vertex_normals[idx].duplicate()
    }
}

impl Default for Mesh {
    /// The mesh with no vertices, normals or faces.
    fn default() -> (m: Mesh)
        ensures
            m@ == empty_mesh(),
    {
        Mesh::new()
    }
}

/// Reads one line of an OBJ file into `mesh`. On an error the mesh is left as it was.
pub fn parse_line(mesh: &mut Mesh, line: &str) -> (r: Result<(), ObjError>)
    ensures
        match r {
            Ok(()) => parse_line_model(old(mesh)@, line@) == Ok::<_, ObjError>(final(mesh)@),
            Err(e) => parse_line_model(old(mesh)@, line@) == Err::<MeshModel, _>(e)
                && final(mesh)@ == old(mesh)@,
        },
{
    let chars = chars_of(line);
    parse_line_chars(mesh, &chars)
}

/// Reads a whole OBJ text, line by line.
pub fn parse(text: &str) -> (r: Result<Mesh, ObjError>)
    ensures
        match r {
            Ok(m) => parse_model(text@) == Ok::<_, ObjError>(m@),
            Err(e) => parse_model(text@) == Err::<MeshModel, _>(e),
        },
{
    let chars = chars_of(text);
    let lines = split_at_char(&chars, '\n');
    let ghost ls = split_on(text@, '\n');
    let mut mesh = Mesh::new();
    let mut i: usize = 0;
    assert(ls.take(0) == Seq::<Seq<char>>::empty());
    while i < lines.len()
        invariant
            i <= lines.len(),
            ls == char_seqs(lines@),
            ls == split_on(text@, '\n'),
            parse_lines_model(ls.take(i as int)) == Ok::<_, ObjError>(mesh@),
        decreases lines.len() - i,
    {
        let ghost prefix = ls.take(i + 1);
        assert(prefix.drop_last() == ls.take(i as int));
        assert(prefix.last() == lines@[i as int]@);
        match parse_line_chars(&mut mesh, &lines[i]) {
            Err(e) => {
                proof {
                    lemma_lines_error_persists(ls, i + 1);
                }
                return Err(e);
            },
            Ok(()) => {},
        }
        i += 1;
    }
    assert(ls.take(lines.len() as int) == ls);
    Ok(mesh)
}

/// Once a prefix of the lines is refused, the whole text is refused with the same error.
proof fn lemma_lines_error_persists(lines: Seq<Seq<char>>, n: int)
    requires
        0 <= n <= lines.len(),
        parse_lines_model(lines.take(n)) is Err,
    ensures
        parse_lines_model(lines) == parse_lines_model(lines.take(n)),
    decreases lines.len() - n,
{
    if n < lines.len() {
        assert(lines.take(n + 1).drop_last() == lines.take(n));
        lemma_lines_error_persists(lines, n + 1);
    } else {
        assert(lines.take(n) == lines);
    }
}

} // verus!
