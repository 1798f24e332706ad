use vstd::prelude::*;

use crate::obj::{
    empty_mesh, face_of, parse_line_model, parse_lines_model, parse_model, MeshModel, ObjError,
};
use crate::numbers::{index_value, is_float_literal};
use crate::text::{is_unicode_whitespace, piece_len, split_on, word_len, words};

verus! {

/// The lines `lines`, each followed by a newline, one after the other.
pub open spec fn join_lines(lines: Seq<Seq<char>>) -> Seq<char>
    decreases lines.len(),
{
    if lines.len() == 0 {
        seq![]
    } else {
        lines[0].push('\n') + join_lines(lines.drop_first())
    }
}

/// Each of `lines` with its newline, as a buffered reader hands lines out.
pub open spec fn with_newlines(lines: Seq<Seq<char>>) -> Seq<Seq<char>> {
    lines.map_values(|l: Seq<char>| l.push('\n'))
}

proof fn lemma_word_len_push(s: Seq<char>, c: char)
    requires
        is_unicode_whitespace(c),
    ensures
        word_len(s.push(c)) == word_len(s),
    decreases s.len(),
{
    if s.len() > 0 && !is_unicode_whitespace(s[0]) {
        assert(s.push(c).drop_first() =~= s.drop_first().push(c));
        lemma_word_len_push(s.drop_first(), c);
    }
}

/// Whitespace at the end of a text adds no word.
pub proof fn lemma_words_trailing_whitespace(s: Seq<char>, c: char)
    requires
        is_unicode_whitespace(c),
    ensures
        words(s.push(c)) == words(s),
    decreases s.len(),
{
    if s.len() == 0 {
        assert(s.push(c).drop_first() =~= s);
    } else if is_unicode_whitespace(s[0]) {
        assert(s.push(c).drop_first() =~= s.drop_first().push(c));
        lemma_words_trailing_whitespace(s.drop_first(), c);
    } else {
        lemma_word_len_push(s, c);
        crate::text::lemma_word_len_bounds(s);
        let k = word_len(s) as int;
        assert(s.push(c).take(k) =~= s.take(k));
        assert(s.push(c).skip(k) =~= s.skip(k).push(c));
        lemma_words_trailing_whitespace(s.skip(k), c);
    }
}

/// A line read with its newline gives what the line without it gives.
pub proof fn lemma_parse_line_newline(m: MeshModel, line: Seq<char>)
    ensures
        parse_line_model(m, line.push('\n')) == parse_line_model(m, line),
{
    lemma_words_trailing_whitespace(line, '\n');
}

proof fn lemma_piece_len_line(l: Seq<char>, rest: Seq<char>)
    requires
        !l.contains('\n'),
    ensures
        piece_len(l.push('\n') + rest, '\n') == l.len(),
    decreases l.len(),
{
    let t = l.push('\n') + rest;
    if l.len() > 0 {
        assert(l[0] != '\n') by {
            assert(l.contains(l[0]));
        }
        assert(t.drop_first() =~= l.drop_first().push('\n') + rest);
        assert(!l.drop_first().contains('\n')) by {
            if l.drop_first().contains('\n') {
                let i = choose|i: int| 0 <= i < l.drop_first().len() && l.drop_first()[i] == '\n';
                assert(l[i + 1] == '\n');
            }
        }
        lemma_piece_len_line(l.drop_first(), rest);
    }
}

/// Splitting the joined lines at newlines gives the lines back, and one
/// empty piece after the last newline.
pub proof fn lemma_split_join(lines: Seq<Seq<char>>)
    requires
        forall|i: int| 0 <= i < lines.len() ==> !(#[trigger] lines[i]).contains('\n'),
    ensures
        split_on(join_lines(lines), '\n') == lines.push(seq![]),
    decreases lines.len(),
{
    if lines.len() == 0 {
        assert(split_on(seq![], '\n') == seq![Seq::<char>::empty()]);
        assert(lines.push(seq![]) =~= seq![Seq::<char>::empty()]);
    } else {
        let l = lines[0];
        let rest = join_lines(lines.drop_first());
        let t = join_lines(lines);
        assert(t == l.push('\n') + rest);
        lemma_piece_len_line(l, rest);
        assert(t.take(l.len() as int) =~= l);
        assert(t.skip(l.len() as int + 1) =~= rest);
        assert forall|i: int| 0 <= i < lines.drop_first().len() implies !(
        #[trigger] lines.drop_first()[i]).contains('\n') by {
            assert(lines.drop_first()[i] == lines[i + 1]);
        }
        lemma_split_join(lines.drop_first());
        assert(lines.push(seq![]) =~= seq![l] + lines.drop_first().push(seq![]));
    }
}

proof fn lemma_parse_lines_with_newlines(lines: Seq<Seq<char>>)
    ensures
        parse_lines_model(with_newlines(lines)) == parse_lines_model(lines),
    decreases lines.len(),
{
    if lines.len() > 0 {
        assert(with_newlines(lines).drop_last() =~= with_newlines(lines.drop_last()));
        lemma_parse_lines_with_newlines(lines.drop_last());
        match parse_lines_model(lines.drop_last()) {
            Ok(m) => {
                lemma_parse_line_newline(m, lines.last());
            },
            Err(_) => {},
        }
    }
}

/// Reading a text one line at a time, each line with its newline as a
/// buffered reader hands it out, gives the mesh (or the error) that reading
/// the whole text at once gives.
pub proof fn lemma_parse_by_lines(lines: Seq<Seq<char>>)
    requires
        forall|i: int| 0 <= i < lines.len() ==> !(#[trigger] lines[i]).contains('\n'),
    ensures
        parse_lines_model(with_newlines(lines)) == parse_model(join_lines(lines)),
{
    lemma_split_join(lines);
    lemma_parse_lines_with_newlines(lines);
    let padded = lines.push(seq![]);
    assert(padded.drop_last() =~= lines);
    assert(words(Seq::<char>::empty()) == Seq::<Seq<char>>::empty());
}

/// The mesh `a` followed by the mesh `b`: its vertices, normals and faces in
/// turn, face indices kept as they are.
pub open spec fn join_meshes(a: MeshModel, b: MeshModel) -> MeshModel {
    MeshModel {
        vertices: a.vertices + b.vertices,
        vertex_normals: a.vertex_normals + b.vertex_normals,
        faces: a.faces + b.faces,
    }
}

/// The outcome of reading one text after another: the first error, or the
/// two meshes joined.
pub open spec fn then_read(
    first: Result<MeshModel, ObjError>,
    second: Result<MeshModel, ObjError>,
) -> Result<MeshModel, ObjError> {
    match first {
        Err(e) => Err(e),
        Ok(a) => match second {
            Err(e) => Err(e),
            Ok(b) => Ok(join_meshes(a, b)),
        },
    }
}

/// The lines read into the mesh `m`, in order.
pub open spec fn parse_lines_from(m: MeshModel, lines: Seq<Seq<char>>) -> Result<MeshModel, ObjError>
    decreases lines.len(),
{
    if lines.len() == 0 {
        Ok(m)
    } else {
        match parse_lines_from(m, lines.drop_last()) {
            Err(e) => Err(e),
            Ok(m2) => parse_line_model(m2, lines.last()),
        }
    }
}

proof fn lemma_parse_lines_from_empty(lines: Seq<Seq<char>>)
    ensures
        parse_lines_from(empty_mesh(), lines) == parse_lines_model(lines),
    decreases lines.len(),
{
    if lines.len() > 0 {
        lemma_parse_lines_from_empty(lines.drop_last());
    }
}

/// What a line does to a mesh does not depend on what the mesh already holds.
proof fn lemma_parse_line_join(a: MeshModel, m: MeshModel, line: Seq<char>)
    ensures
        parse_line_model(join_meshes(a, m), line) == then_read(Ok(a), parse_line_model(m, line)),
{
    let w = words(line);
    if w.len() > 0 {
        if w[0] == seq!['v'] || w[0] == seq!['v', 'n'] {
            match crate::obj::coords_of(w) {
                Ok(c) => {
                    assert(join_meshes(a, m).vertices.push(c) =~= a.vertices + m.vertices.push(c));
                    assert(join_meshes(a, m).vertex_normals.push(c) =~= a.vertex_normals
                        + m.vertex_normals.push(c));
                },
                Err(_) => {},
            }
        } else if w[0] == seq!['f'] {
            match face_of(w.skip(1)) {
                Ok(f) => {
                    assert(join_meshes(a, m).faces.push(f) =~= a.faces + m.faces.push(f));
                },
                Err(_) => {},
            }
        }
    }
    match parse_line_model(m, line) {
        Ok(m2) => {
            assert(join_meshes(a, m2) =~= join_meshes(a, m2));
        },
        Err(_) => {},
    }
}

proof fn lemma_parse_lines_join(a: MeshModel, m: MeshModel, lines: Seq<Seq<char>>)
    ensures
        parse_lines_from(join_meshes(a, m), lines) == then_read(Ok(a), parse_lines_from(m, lines)),
    decreases lines.len(),
{
    if lines.len() > 0 {
        lemma_parse_lines_join(a, m, lines.drop_last());
        match parse_lines_from(m, lines.drop_last()) {
            Ok(m2) => {
                lemma_parse_line_join(a, m2, lines.last());
            },
            Err(_) => {},
        }
    }
}

proof fn lemma_parse_lines_append(m: MeshModel, l1: Seq<Seq<char>>, l2: Seq<Seq<char>>)
    ensures
        parse_lines_from(m, l1 + l2) == match parse_lines_from(m, l1) {
            Err(e) => Err(e),
            Ok(m1) => parse_lines_from(m1, l2),
        },
    decreases l2.len(),
{
    if l2.len() == 0 {
        assert(l1 + l2 =~= l1);
    } else {
        assert((l1 + l2).drop_last() =~= l1 + l2.drop_last());
        assert((l1 + l2).last() == l2.last());
        lemma_parse_lines_append(m, l1, l2.drop_last());
    }
}

proof fn lemma_piece_len_append(s: Seq<char>, t: Seq<char>, sep: char)
    requires
        piece_len(s, sep) < s.len(),
    ensures
        piece_len(s + t, sep) == piece_len(s, sep),
    decreases s.len(),
{
    if s[0] != sep {
        assert((s + t).drop_first() =~= s.drop_first() + t);
        lemma_piece_len_append(s.drop_first(), t, sep);
    }
}

proof fn lemma_piece_len_bound(s: Seq<char>, sep: char)
    ensures
        piece_len(s, sep) <= s.len(),
        piece_len(s, sep) < s.len() ==> s[piece_len(s, sep) as int] == sep,
    decreases s.len(),
{
    if s.len() > 0 && s[0] != sep {
        lemma_piece_len_bound(s.drop_first(), sep);
    }
}

/// Splitting a text that ends at a separator, followed by more text, gives
/// the pieces of the first text, without the empty one after its last
/// separator, and then the pieces of the rest.
proof fn lemma_split_append(s: Seq<char>, t: Seq<char>)
    requires
        s.len() == 0 || s.last() == '\n',
    ensures
        split_on(s, '\n').len() >= 1,
        split_on(s, '\n').last() == Seq::<char>::empty(),
        split_on(s + t, '\n') == split_on(s, '\n').drop_last() + split_on(t, '\n'),
    decreases s.len(),
{
    crate::text::lemma_split_on_nonempty(s, '\n');
    if s.len() == 0 {
        assert(s + t =~= t);
        assert(s =~= Seq::<char>::empty());
        assert(piece_len(s, '\n') == 0);
        assert(split_on(s, '\n') == seq![s]);
        assert(split_on(s, '\n').drop_last() =~= Seq::<Seq<char>>::empty());
    } else {
        lemma_piece_len_bound(s, '\n');
        let p = piece_len(s, '\n') as int;
        if p >= s.len() {
            // the text ends with a separator, so its first piece stops before the end
            lemma_piece_len_stops(s, '\n');
        }
        lemma_piece_len_append(s, t, '\n');
        let rest = s.skip(p + 1);
        assert((s + t).take(p) =~= s.take(p));
        assert((s + t).skip(p + 1) =~= rest + t);
        if rest.len() > 0 {
            assert(rest.last() == s.last());
        }
        lemma_split_append(rest, t);
        crate::text::lemma_split_on_nonempty(rest, '\n');
        assert(split_on(s, '\n') == seq![s.take(p)] + split_on(rest, '\n'));
        assert(split_on(s, '\n').drop_last() =~= seq![s.take(p)] + split_on(rest, '\n').drop_last());
        assert(split_on(s + t, '\n') =~= seq![s.take(p)] + (split_on(rest, '\n').drop_last()
            + split_on(t, '\n')));
    }
}

proof fn lemma_piece_len_stops(s: Seq<char>, sep: char)
    requires
        s.len() > 0,
        s.last() == sep,
    ensures
        piece_len(s, sep) < s.len(),
    decreases s.len(),
{
    if s[0] != sep {
        assert(s.drop_first().len() > 0) by {
            if s.len() == 1 {
                assert(s[0] == s.last());
            }
        }
        assert(s.drop_first().last() == s.last());
        lemma_piece_len_stops(s.drop_first(), sep);
    }
}

/// Reading a text that is empty or ends with a newline, then another text,
/// gives the first error, or the two meshes joined: vertices, normals and
/// faces of the first text and then those of the second, face indices
/// unchanged.
pub proof fn lemma_parse_concat(s: Seq<char>, t: Seq<char>)
    requires
        s.len() == 0 || s.last() == '\n',
    ensures
        parse_model(s + t) == then_read(parse_model(s), parse_model(t)),
{
    lemma_split_append(s, t);
    let ls = split_on(s, '\n');
    let head = ls.drop_last();
    let lt = split_on(t, '\n');
    // the empty piece after the last newline changes nothing
    assert(head.push(Seq::<char>::empty()) =~= ls);
    assert(words(Seq::<char>::empty()) == Seq::<Seq<char>>::empty());
    lemma_parse_lines_from_empty(ls);
    lemma_parse_lines_from_empty(head);
    lemma_parse_lines_from_empty(lt);
    lemma_parse_lines_from_empty(head + lt);
    lemma_parse_lines_append(empty_mesh(), head, lt);
    match parse_lines_model(head) {
        Ok(a) => {
            assert(join_meshes(a, empty_mesh()) =~= a);
            lemma_parse_lines_join(a, empty_mesh(), lt);
        },
        Err(_) => {},
    }
}

/// The corner text `t` names a normal: its third `/`-separated part is present and not empty.
pub open spec fn corner_has_normal(t: Seq<char>) -> bool {
    split_on(t, '/').len() > 2 && split_on(t, '/')[2].len() > 0
}

proof fn lemma_face_corner_facts(t: Seq<char>)
    requires
        crate::obj::face_corner(t) is Ok,
    ensures
        ({
            let (v, n) = crate::obj::face_corner(t)->Ok_0;
            &&& index_value(split_on(t, '/')[0]) == Ok::<usize, crate::numbers::IndexError>(
                (v + 1) as usize,
            )
            &&& v + 1 <= usize::MAX
            &&& (n is Some <==> corner_has_normal(t))
            &&& (n is Some ==> index_value(split_on(t, '/')[2]) == Ok::<
                usize,
                crate::numbers::IndexError,
            >((n->Some_0 + 1) as usize) && n->Some_0 + 1 <= usize::MAX)
        }),
{
}

/// A face read from corner texts `toks` has one vertex index per corner, in
/// corner order: corner `k` names vertex `vertices[k] + 1` (indices count from
/// 1 in the text and from 0 in the mesh). When every corner names a normal,
/// the normals likewise come one per corner, in corner order; when none does,
/// the face has no normals.
pub proof fn lemma_face_corners(toks: Seq<Seq<char>>)
    requires
        face_of(toks) is Ok,
    ensures
        ({
            let f = face_of(toks)->Ok_0;
            &&& f.vertices.len() == toks.len()
            &&& forall|k: int|
                0 <= k < toks.len() ==> index_value(split_on(#[trigger] toks[k], '/')[0]) == Ok::<
                    usize,
                    crate::numbers::IndexError,
                >((f.vertices[k] + 1) as usize) && f.vertices[k] + 1 <= usize::MAX
            &&& (forall|k: int| 0 <= k < toks.len() ==> corner_has_normal(#[trigger] toks[k])) ==> {
                &&& f.vertex_normals.len() == toks.len()
                &&& forall|k: int|
                    0 <= k < toks.len() ==> index_value(split_on(#[trigger] toks[k], '/')[2])
                        == Ok::<usize, crate::numbers::IndexError>(
                        (f.vertex_normals[k] + 1) as usize,
                    ) && f.vertex_normals[k] + 1 <= usize::MAX
            }
            &&& (forall|k: int| 0 <= k < toks.len() ==> !corner_has_normal(#[trigger] toks[k]))
                ==> f.vertex_normals.len() == 0
        }),
    decreases toks.len(),
{
    if toks.len() > 0 {
        let init = toks.drop_last();
        let t = toks.last();
        assert(face_of(init) is Ok);
        lemma_face_corners(init);
        lemma_face_corner_facts(t);
        let f0 = face_of(init)->Ok_0;
        let f = face_of(toks)->Ok_0;
        let (v, n) = crate::obj::face_corner(t)->Ok_0;
        assert(f.vertices == f0.vertices.push(v));
        assert forall|k: int| 0 <= k < toks.len() implies index_value(
            split_on(#[trigger] toks[k], '/')[0],
        ) == Ok::<usize, crate::numbers::IndexError>((f.vertices[k] + 1) as usize) && f.vertices[k]
            + 1 <= usize::MAX by {
            if k < init.len() {
                assert(init[k] == toks[k]);
                assert(f.vertices[k] == f0.vertices[k]);
            }
        }
        if forall|k: int| 0 <= k < toks.len() ==> corner_has_normal(#[trigger] toks[k]) {
            assert forall|k: int| 0 <= k < init.len() implies corner_has_normal(#[trigger] init[k]) by {
                assert(init[k] == toks[k]);
                assert(corner_has_normal(toks[k]));
            }
            assert(corner_has_normal(toks[toks.len() - 1]));
            assert(f.vertex_normals == f0.vertex_normals.push(n->Some_0));
            assert forall|k: int| 0 <= k < toks.len() implies index_value(
                split_on(#[trigger] toks[k], '/')[2],
            ) == Ok::<usize, crate::numbers::IndexError>((f.vertex_normals[k] + 1) as usize)
                && f.vertex_normals[k] + 1 <= usize::MAX by {
                if k < init.len() {
                    assert(init[k] == toks[k]);
                    assert(f.vertex_normals[k] == f0.vertex_normals[k]);
                }
            }
        }
        if forall|k: int| 0 <= k < toks.len() ==> !corner_has_normal(#[trigger] toks[k]) {
            assert forall|k: int| 0 <= k < init.len() implies !corner_has_normal(#[trigger] init[k]) by {
                assert(init[k] == toks[k]);
                assert(!corner_has_normal(toks[k]));
            }
            assert(!corner_has_normal(toks[toks.len() - 1]));
        }
    }
}

/// A `v` or `vn` line that is read adds the three words after its keyword,
/// in order, as `x`, `y` and `z`: a `v` line to the vertices, a `vn` line to
/// the normals, and nothing else changes. The three words are float literals.
pub proof fn lemma_coordinate_lines(m: MeshModel, line: Seq<char>)
    requires
        words(line).len() >= 1,
        words(line)[0] == seq!['v'] || words(line)[0] == seq!['v', 'n'],
        parse_line_model(m, line) is Ok,
    ensures
        ({
            let w = words(line);
            let m2 = parse_line_model(m, line)->Ok_0;
            let c = (w[1], w[2], w[3]);
            &&& w.len() >= 4
            &&& is_float_literal(w[1]) && is_float_literal(w[2]) && is_float_literal(w[3])
            &&& m2.faces == m.faces
            &&& w[0] == seq!['v'] ==> m2.vertices == m.vertices.push(c) && m2.vertex_normals
                == m.vertex_normals
            &&& w[0] == seq!['v', 'n'] ==> m2.vertex_normals == m.vertex_normals.push(c)
                && m2.vertices == m.vertices
        }),
{
    assert(seq!['v'] != seq!['v', 'n']) by {
        assert(seq!['v'].len() != seq!['v', 'n'].len());
    }
}

/// A face line that is read adds one face, whose corners are the words after
/// `f`, and nothing else changes.
pub proof fn lemma_face_lines(m: MeshModel, line: Seq<char>)
    requires
        words(line).len() >= 1,
        words(line)[0] == seq!['f'],
        parse_line_model(m, line) is Ok,
    ensures
        ({
            let m2 = parse_line_model(m, line)->Ok_0;
            &&& face_of(words(line).skip(1)) is Ok
            &&& m2.faces == m.faces.push(face_of(words(line).skip(1))->Ok_0)
            &&& m2.vertices == m.vertices
            &&& m2.vertex_normals == m.vertex_normals
        }),
{
    assert(seq!['f'] != seq!['v']) by {
        assert(seq!['f'][0] != seq!['v'][0]);
    }
    assert(seq!['f'] != seq!['v', 'n']) by {
        assert(seq!['f'].len() != seq!['v', 'n'].len());
    }
}

} // verus!
