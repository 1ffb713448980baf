use vstd::prelude::*;
use crate::text::{
    number_up_to, parse_number, ranges, split_lines, split_tokens, lines_from, tokens_from, Span,
};

verus! {

/// A triangle of a mesh file: the indices of its three vertices.
#[derive(Clone, Copy, Debug, PartialEq, Eq, Structural)]
pub struct Face {
    pub a: u32,
    pub b: u32,
    pub c: u32,
}

/// The contents of an ASCII PLY text.  The numbers of a vertex are real and
/// are left as they stand in the text: each vertex is the list of the tokens
/// of its line.
#[derive(Clone, Debug, PartialEq, Eq)]
pub struct PlyMesh {
    pub vertices: Vec<Vec<Span>>,
    pub faces: Vec<Face>,
}

/// The mathematical value of a [`PlyMesh`].
pub struct PlyView {
    pub vertices: Seq<Seq<(int, int)>>,
    pub faces: Seq<Face>,
}

impl View for PlyMesh {
    type V = PlyView;

    open spec fn view(&self) -> PlyView {
        PlyView {
            vertices: self.vertices@.map_values(|v: Vec<Span>| ranges(v@)),
            faces: self.faces@,
        }
    }
}

/// The word `element`.
pub open spec fn element_word() -> Seq<u8> {
    seq![101u8, 108u8, 101u8, 109u8, 101u8, 110u8, 116u8]
}

/// The word `vertex`.
pub open spec fn vertex_word() -> Seq<u8> {
    seq![118u8, 101u8, 114u8, 116u8, 101u8, 120u8]
}

/// The word `end_header`.
pub open spec fn end_header_word() -> Seq<u8> {
    seq![101u8, 110u8, 100u8, 95u8, 104u8, 101u8, 97u8, 100u8, 101u8, 114u8]
}

/// The bytes between two bounds.
pub open spec fn word(text: Seq<u8>, r: (int, int)) -> Seq<u8> {
    text.subrange(r.0, r.1)
}

/// What a line of the header says.
pub enum HeaderLine {
    /// `element vertex N`: the file holds `N` vertices.
    Vertices(usize),
    /// `end_header`: the header ends here.
    End,
    /// Anything else that starts with a word.
    Other,
    /// A blank line, or an `element` line that is cut short or whose vertex
    /// count is no number.
    Malformed,
}

/// Reads a line of the header from its tokens.
pub open spec fn header_line(text: Seq<u8>, tokens: Seq<(int, int)>) -> HeaderLine {
    if tokens.len() == 0 {
        HeaderLine::Malformed
    } else if word(text, tokens[0]) == element_word() {
        if tokens.len() < 2 {
            HeaderLine::Malformed
        } else if word(text, tokens[1]) == vertex_word() {
            if tokens.len() < 3 {
                HeaderLine::Malformed
            } else {
                match number_up_to(word(text, tokens[2]), usize::MAX as u64) {
                    Some(n) => HeaderLine::Vertices(n as usize),
                    None => HeaderLine::Malformed,
                }
            }
        } else {
            HeaderLine::Other
        }
    } else if word(text, tokens[0]) == end_header_word() {
        HeaderLine::End
    } else {
        HeaderLine::Other
    }
}

/// Reads the header from line `i` on, `count` being the vertex count found
/// so far: the vertex count and the number of the first line behind the
/// header.  Where the count is declared more than once the largest one
/// holds.  A text that ends inside the header has no body.
pub open spec fn header_from(text: Seq<u8>, lines: Seq<(int, int)>, i: int, count: usize) -> Option<
    (usize, int),
>
    decreases lines.len() - i,
{
    if i < 0 || i >= lines.len() {
        Some((count, lines.len() as int))
    } else {
        match header_line(text, tokens_from(text, lines[i].0, lines[i].1)) {
            HeaderLine::Malformed => None,
            HeaderLine::End => Some((count, i + 1)),
            HeaderLine::Vertices(n) => header_from(
                text,
                lines,
                i + 1,
                if n > count {
                    n
                } else {
                    count
                },
            ),
            HeaderLine::Other => header_from(text, lines, i + 1, count),
        }
    }
}

/// What a line behind the vertices says.
pub enum FaceLine {
    /// A triangle.
    Triangle(Face),
    /// A polygon that is no triangle; it is left out.
    Skipped,
    /// A blank line, a token that is no 32-bit number, a triangle with fewer
    /// than three indices or with an index that names no vertex.
    Malformed,
}

/// The 32-bit number that token `k` of a line denotes.
pub open spec fn index_at(text: Seq<u8>, tokens: Seq<(int, int)>, k: int) -> Option<u64> {
    number_up_to(word(text, tokens[k]), u32::MAX as u64)
}

/// Reads a face line from its tokens.
pub open spec fn face_line(text: Seq<u8>, tokens: Seq<(int, int)>, vertex_count: usize)
    -> FaceLine {
    if tokens.len() == 0 || exists|k: int|
        0 <= k < tokens.len() && (#[trigger] index_at(text, tokens, k)) is None {
        FaceLine::Malformed
    } else if index_at(text, tokens, 0) == Some(3u64) {
        if tokens.len() < 4 {
            FaceLine::Malformed
        } else {
            let a = index_at(text, tokens, 1)->Some_0;
            let b = index_at(text, tokens, 2)->Some_0;
            let c = index_at(text, tokens, 3)->Some_0;
            if a < vertex_count && b < vertex_count && c < vertex_count {
                FaceLine::Triangle(Face { a: a as u32, b: b as u32, c: c as u32 })
            } else {
                FaceLine::Malformed
            }
        }
    } else {
        FaceLine::Skipped
    }
}

/// A sequence put in front of a result.
pub open spec fn after<T>(front: Seq<T>, rest: Option<Seq<T>>) -> Option<Seq<T>> {
    match rest {
        Some(r) => Some(front + r),
        None => None,
    }
}

/// The triangles of the lines from line `i` on.
pub open spec fn faces_from(text: Seq<u8>, lines: Seq<(int, int)>, i: int, vertex_count: usize)
    -> Option<Seq<Face>>
    decreases lines.len() - i,
{
    if i < 0 || i >= lines.len() {
        Some(Seq::empty())
    } else {
        match face_line(text, tokens_from(text, lines[i].0, lines[i].1), vertex_count) {
            FaceLine::Malformed => None,
            FaceLine::Skipped => faces_from(text, lines, i + 1, vertex_count),
            FaceLine::Triangle(f) => after(seq![f], faces_from(text, lines, i + 1, vertex_count)),
        }
    }
}

/// The vertices of a text whose body starts at line `body`: the tokens of
/// the next `count` lines, each of which must hold at least the six numbers of
/// a position and a normal.
pub open spec fn vertices_at(text: Seq<u8>, lines: Seq<(int, int)>, body: int, count: usize)
    -> Option<Seq<Seq<(int, int)>>> {
    if body + count <= lines.len() && (forall|k: int|
        0 <= k < count ==> (#[trigger] tokens_from(text, lines[body + k].0, lines[body + k].1)).len()
            >= 6) {
        Some(
            Seq::new(
                count as nat,
                |k: int| tokens_from(text, lines[body + k].0, lines[body + k].1),
            ),
        )
    } else {
        None
    }
}

/// The contents of an ASCII PLY text: a header that may declare the number
/// of vertices and ends with `end_header` or with the text, then one line per
/// vertex, then one line per face.  A text that ends inside its header has no
/// body, so that it holds an empty mesh if it declares no vertices.  `None`
/// for a text with a malformed header line, with fewer vertex lines than
/// declared, with a vertex line of fewer than six tokens, or with a malformed
/// face line.
pub open spec fn ply(text: Seq<u8>) -> Option<PlyView> {
    let lines = lines_from(text, 0);
    match header_from(text, lines, 0, 0) {
        None => None,
        Some((count, body)) => match vertices_at(text, lines, body, count) {
            None => None,
            Some(vertices) => match faces_from(text, lines, body + count, count) {
                None => None,
                Some(faces) => Some(PlyView { vertices, faces }),
            },
        },
    }
}

fn same_bytes<const N: usize>(text: &Vec<u8>, token: Span, expected: &[u8; N]) -> (same: bool)
    requires
        token.within(text@.len()),
    ensures
        same == (token.of(text@) == expected@),
{
    if token.end - token.start != N {
        assert(token.of(text@).len() != expected@.len());
        return false;
    }
    let mut i: usize = 0;
    while i < N
        invariant
            token.within(text@.len()),
            token.end - token.start == N,
            i <= N,
            forall|k: int| 0 <= k < i ==> text@[token.start + k] == expected@[k],
        decreases N - i,
    {
        if text[token.start + i] != expected[i] {
            assert(token.of(text@)[i as int] != expected@[i as int]);
            return false;
        }
        i += 1;
    }
    assert(token.of(text@) =~= expected@);
    true
}

fn read_header_line(text: &Vec<u8>, tokens: &Vec<Span>) -> (line: HeaderLine)
    requires
        forall|i: int| 0 <= i < tokens.len() ==> (#[trigger] tokens[i]).within(text@.len()),
    ensures
        line == header_line(text@, ranges(tokens@)),
{
    let element: [u8; 7] = [101, 108, 101, 109, 101, 110, 116];
    let vertex: [u8; 6] = [118, 101, 114, 116, 101, 120];
    let end_header: [u8; 10] = [101, 110, 100, 95, 104, 101, 97, 100, 101, 114];
    assert(element@ =~= element_word());
    assert(vertex@ =~= vertex_word());
    assert(end_header@ =~= end_header_word());
    let ghost r = ranges(tokens@);
    assert(forall|i: int| 0 <= i < tokens.len() ==> word(text@, #[trigger] r[i]) == tokens[i].of(text@));
    if tokens.len() == 0 {
        HeaderLine::Malformed
    } else if same_bytes(text, tokens[0], &element) {
        if tokens.len() < 2 {
            HeaderLine::Malformed
        } else if same_bytes(text, tokens[1], &vertex) {
            if tokens.len() < 3 {
                HeaderLine::Malformed
            } else {
                match parse_number(text, tokens[2], usize::MAX as u64) {
                    Some(n) => HeaderLine::Vertices(n as usize),
                    None => HeaderLine::Malformed,
                }
            }
        } else {
            HeaderLine::Other
        }
    } else if same_bytes(text, tokens[0], &end_header) {
        HeaderLine::End
    } else {
        HeaderLine::Other
    }
}

fn read_face_line(text: &Vec<u8>, tokens: &Vec<Span>, vertex_count: usize) -> (line: FaceLine)
    requires
        forall|i: int| 0 <= i < tokens.len() ==> (#[trigger] tokens[i]).within(text@.len()),
    ensures
        line == face_line(text@, ranges(tokens@), vertex_count),
{
    let ghost r = ranges(tokens@);
    assert(forall|i: int| 0 <= i < tokens.len() ==> word(text@, #[trigger] r[i]) == tokens[i].of(text@));
    if tokens.len() == 0 {
        return FaceLine::Malformed;
    }
    let mut values: Vec<u64> = Vec::new();
    let mut i: usize = 0;
    while i < tokens.len()
        invariant
            r == ranges(tokens@),
            forall|i: int| 0 <= i < tokens.len() ==> (#[trigger] tokens[i]).within(text@.len()),
            forall|i: int|
                0 <= i < tokens.len() ==> word(text@, #[trigger] r[i]) == tokens[i].of(text@),
            i <= tokens.len(),
            values.len() == i,
            forall|k: int| 0 <= k < i ==> #[trigger] index_at(text@, r, k) == Some(values[k]),
        decreases tokens.len() - i,
    {
        match parse_number(text, tokens[i], u32::MAX as u64) {
            Some(v) => {
                values.push(v);
            },
            None => {
                assert(index_at(text@, r, i as int) is None);
                return FaceLine::Malformed;
            },
        }
        i += 1;
    }
    assert(index_at(text@, r, 0) == Some(values[0]));
    if values[0] == 3 {
        if values.len() < 4 {
            FaceLine::Malformed
        } else {
            assert(index_at(text@, r, 1) == Some(values[1]));
            assert(index_at(text@, r, 2) == Some(values[2]));
            assert(index_at(text@, r, 3) == Some(values[3]));
            let a: u64 = values[1];
            let b: u64 = values[2];
            let c: u64 = values[3];
            let n: u64 = vertex_count as u64;
            if a < n && b < n && c < n {
                FaceLine::Triangle(Face { a: a as u32, b: b as u32, c: c as u32 })
            } else {
                FaceLine::Malformed
            }
        }
    } else {
        FaceLine::Skipped
    }
}

fn read_header(text: &Vec<u8>, lines: &Vec<Span>) -> (r: Option<(usize, usize)>)
    requires
        forall|i: int| 0 <= i < lines.len() ==> (#[trigger] lines[i]).within(text@.len()),
    ensures
        match r {
            Some((count, body)) => header_from(text@, ranges(lines@), 0, 0) == Some(
                (count, body as int),
            ) && body <= lines.len(),
            None => header_from(text@, ranges(lines@), 0, 0) is None,
        },
{
    let ghost all = ranges(lines@);
    let mut count: usize = 0;
    let mut i: usize = 0;
    while i < lines.len()
        invariant
            all == ranges(lines@),
            forall|i: int| 0 <= i < lines.len() ==> (#[trigger] lines[i]).within(text@.len()),
            i <= lines.len(),
            header_from(text@, all, 0, 0) == header_from(text@, all, i as int, count),
        decreases lines.len() - i,
    {
        let tokens = split_tokens(text, lines[i]);
        assert(all[i as int] == lines[i as int].range());
        match read_header_line(text, &tokens) {
            HeaderLine::Malformed => { return None; },
            HeaderLine::End => { return Some((count, i + 1)); },
            HeaderLine::Vertices(n) => {
                if n > count {
                    count = n;
                }
            },
            HeaderLine::Other => {},
        }
        i += 1;
    }
    Some((count, i))
}

impl PlyMesh {
    /// Reads an ASCII PLY text.
    pub fn load_ply(text: &Vec<u8>) -> (r: Option<PlyMesh>)
        ensures
            match r {
                Some(mesh) => ply(text@) == Some(mesh@),
                None => ply(text@) is None,
            },
    {
        let lines = split_lines(text);
        let ghost all = ranges(lines@);
        let (count, body) = match read_header(text, &lines) {
            Some(found) => found,
            None => { return None; },
        };
        if count > lines.len() - body {
            return None;
        }
        let mut vertices: Vec<Vec<Span>> = Vec::new();
        let mut k: usize = 0;
        while k < count
            invariant
                all == ranges(lines@),
                all == lines_from(text@, 0),
                header_from(text@, all, 0, 0) == Some((count, body as int)),
                forall|i: int| 0 <= i < lines.len() ==> (#[trigger] lines[i]).within(text@.len()),
                body + count <= lines.len(),
                k <= count,
                vertices.len() == k,
                forall|j: int|
                    0 <= j < k ==> ranges((#[trigger] vertices[j])@) == tokens_from(
                        text@,
                        all[body + j].0,
                        all[body + j].1,
                    ) && vertices[j].len() >= 6,
            decreases count - k,
        {
            let tokens = split_tokens(text, lines[body + k]);
            assert(all[body + k] == lines[body + k].range());
            if tokens.len() < 6 {
                assert(tokens_from(text@, all[body + k].0, all[body + k].1).len() < 6);
                return None;
            }
            vertices.push(tokens);
            k += 1;
        }
        let ghost vertex_view = vertices@.map_values(|v: Vec<Span>| ranges(v@));
        proof {
            assert forall|j: int| 0 <= j < count implies (#[trigger] tokens_from(
                text@,
                all[body + j].0,
                all[body + j].1,
            )).len() >= 6 by {
                assert(ranges(vertices[j]@).len() == vertices[j].len());
            }
            assert(vertices_at(text@, all, body as int, count) is Some);
            assert(vertex_view =~= vertices_at(text@, all, body as int, count)->Some_0);
        }
        let mut faces: Vec<Face> = Vec::new();
        let first: usize = body + count;
        let mut i: usize = first;
        assert(Seq::<Face>::empty() + faces_from(text@, all, i as int, count)->Some_0
            =~= faces_from(text@, all, i as int, count)->Some_0);
        while i < lines.len()
            invariant
                all == ranges(lines@),
                all == lines_from(text@, 0),
                header_from(text@, all, 0, 0) == Some((count, body as int)),
                vertices_at(text@, all, body as int, count) is Some,
                first == body + count,
                forall|i: int| 0 <= i < lines.len() ==> (#[trigger] lines[i]).within(text@.len()),
                first <= i <= lines.len(),
                faces_from(text@, all, first as int, count) == after(
                    faces@,
                    faces_from(text@, all, i as int, count),
                ),
            decreases lines.len() - i,
        {
            let tokens = split_tokens(text, lines[i]);
            assert(all[i as int] == lines[i as int].range());
            match read_face_line(text, &tokens, count) {
                FaceLine::Malformed => { return None; },
                FaceLine::Skipped => {},
                FaceLine::Triangle(face) => {
                    proof {
                        let rest = faces_from(text@, all, i + 1, count);
                        if rest is Some {
                            assert(faces@ + (seq![face] + rest->Some_0) =~= faces@.push(face)
                                + rest->Some_0);
                        }
                    }
                    faces.push(face);
                },
            }
            i += 1;
        }
        assert(faces@ + Seq::<Face>::empty() =~= faces@);
        Some(PlyMesh { vertices, faces })
    }
}

} // verus!
