//! Readers for the Matrix Market, Wikispeedia (TSV) and MICrONS formats.
//!
//! Every reader takes the text of the files and works on its UTF-8 bytes;
//! the contracts are stated over those bytes, and every text the readers
//! hand back is the character sequence that a range of them encodes.

pub mod error;
pub mod names;
pub mod neuron;

use vstd::prelude::*;
use vstd::utf8::*;

use crate::text::{
    at_boundary, find_byte, find_byte_exec, find_line_end, lemma_line_end_boundary,
    lemma_line_end_bounds, lemma_nth_token_step, line_end, next_token, nth_token, parse_usize, parse_usize_exec,
    span_string, text, trim_range, trimmed, scan_line, split_fields, field_texts, concat_str,
    str_slice, get_field, nth_field, str_eq, lemma_trim_start_boundary, lemma_trim_end_boundary,
    lemma_find_byte_boundary, lemma_find_byte_bounds, lemma_boundary_after_ascii,
};
use names::NameIndex;
use neuron::{class_cut_splits_char, spec_build, spec_region_from, Neuron, NeuronClass, NeuronRegion};
use std::collections::HashMap;
pub use error::{ParseError, SpecParseError};

verus! {

broadcast use vstd::std_specs::hash::group_hash_axioms;

/// Position of the first line at or after `pos` that is neither blank nor,
/// once trimmed, starts with `sym`: its start and the start of the next line.
pub open spec fn spec_skip_header(s: Seq<u8>, pos: int, sym: u8) -> Result<(int, int), SpecParseError>
    decreases s.len() - pos,
{
    if pos < 0 || pos >= s.len() {
        Err(SpecParseError::EmptyBody)
    } else {
        let e = line_end(s, pos);
        let (a, b) = trimmed(s, pos, e);
        proof {
            lemma_line_end_bounds(s, pos);
        }
        if a == b || s[a] == sym {
            spec_skip_header(s, e, sym)
        } else {
            Ok((pos, e))
        }
    }
}

/// The line `s[ls..le]` as characters.
pub open spec fn line_text(s: Seq<u8>, ls: int, le: int) -> Seq<char> {
    text(s, ls, le)
}

proof fn lemma_skip_header_ok(s: Seq<u8>, pos: int, sym: u8)
    requires
        valid_utf8(s),
        0 <= pos <= s.len(),
        at_boundary(s, pos),
    ensures
        spec_skip_header(s, pos, sym) matches Ok((ls, le)) ==> {
            &&& pos <= ls < le <= s.len()
            &&& le == line_end(s, ls)
            &&& at_boundary(s, ls)
            &&& at_boundary(s, le)
        },
    decreases s.len() - pos,
{
    if pos < s.len() {
        lemma_line_end_bounds(s, pos);
        lemma_line_end_boundary(s, pos);
        lemma_skip_header_ok(s, line_end(s, pos), sym);
    }
}

/// What a Matrix Market file describes: its edges (0-based source and
/// destination) and the three numbers of its size line.
pub struct MtxData {
    pub edges: Seq<(usize, usize)>,
    pub nrows: usize,
    pub ncols: usize,
    pub nnz: usize,
}

#[derive(Debug, Clone)]
pub struct GraphMTX {
    pub edges: Vec<(usize, usize)>,
    pub nrows: usize,
    pub ncols: usize,
    pub nnz: usize,
}

impl View for GraphMTX {
    type V = MtxData;

    open spec fn view(&self) -> MtxData {
        MtxData { edges: self.edges@, nrows: self.nrows, ncols: self.ncols, nnz: self.nnz }
    }
}

impl GraphMTX {
    pub fn new(edges: Vec<(usize, usize)>, nrows: usize, ncols: usize, nnz: usize) -> (r: Self)
        ensures
            r.edges@ == edges@,
            r.nrows == nrows,
            r.ncols == ncols,
            r.nnz == nnz,
    {
        Self { edges, nrows, ncols, nnz }
    }
}

/// The three numbers of a Matrix Market size line `s[ls..le]`, read from
/// its first three whitespace-separated items.
pub open spec fn mtx_header(s: Seq<u8>, ls: int, le: int) -> Option<(usize, usize, usize)> {
    match (nth_token(s, ls, le, 0), nth_token(s, ls, le, 1), nth_token(s, ls, le, 2)) {
        (Some(t0), Some(t1), Some(t2)) => match (
            parse_usize(s, t0.0, t0.1),
            parse_usize(s, t1.0, t1.1),
            parse_usize(s, t2.0, t2.1),
        ) {
            (Some(r), Some(c), Some(n)) => Some((r, c, n)),
            _ => None,
        },
        _ => None,
    }
}

/// One entry line `s[ls..le]` of a Matrix Market file: two 1-based indices
/// separated by one space, turned into a 0-based `(source, destination)`.
/// `None` when an index that is read is 0, which has no 0-based
/// counterpart; `dst_first` tells that the destination is read before the
/// source.
#[verifier::opaque]
pub open spec fn mtx_edge_line(s: Seq<u8>, ls: int, le: int, dst_first: bool) -> Option<
    Result<(usize, usize), SpecParseError>,
> {
    let (a, b) = trimmed(s, ls, le);
    let p = find_byte(s, a, b, 32u8);
    let bad = Some(Err(SpecParseError::BadLine(line_text(s, ls, le))));
    let src = parse_usize(s, a, p);
    let dst = parse_usize(s, p + 1, b);
    let first = if dst_first {
        dst
    } else {
        src
    };
    let second = if dst_first {
        src
    } else {
        dst
    };
    if p >= b {
        bad
    } else {
        match first {
            None => bad,
            Some(x) => if x == 0 {
                None
            } else {
                match second {
                    None => bad,
                    Some(y) => if y == 0 {
                        None
                    } else {
                        Some(Ok(((src.unwrap() - 1) as usize, (dst.unwrap() - 1) as usize)))
                    },
                }
            },
        }
    }
}

/// Reads `nnz - got` more entry lines from `pos`, after `acc`.
pub open spec fn mtx_edges(
    s: Seq<u8>,
    pos: int,
    nnz: usize,
    got: nat,
    acc: Seq<(usize, usize)>,
    dst_first: bool,
) -> Option<Result<Seq<(usize, usize)>, SpecParseError>>
    decreases nnz - got,
{
    if got >= nnz {
        Some(Ok(acc))
    } else if pos < 0 || pos >= s.len() {
        Some(Err(SpecParseError::TooShort { expected: nnz, got: got as usize }))
    } else {
        let e = line_end(s, pos);
        match mtx_edge_line(s, pos, e, dst_first) {
            None => None,
            Some(Err(x)) => Some(Err(x)),
            Some(Ok(edge)) => mtx_edges(s, e, nnz, got + 1, acc.push(edge), dst_first),
        }
    }
}

/// The outcome of reading a Matrix Market text: `None` when an entry
/// names index 0 before any error, else the graph or the error.
pub open spec fn spec_parse_mtx(s: Seq<u8>, dst_first: bool) -> Option<Result<MtxData, SpecParseError>> {
    match spec_skip_header(s, 0, 37u8) {
        Err(x) => Some(Err(x)),
        Ok((ls, le)) => match mtx_header(s, ls, le) {
            None => Some(Err(SpecParseError::BadLine(line_text(s, ls, le)))),
            Some((nrows, ncols, nnz)) => match mtx_edges(s, le, nnz, 0, seq![], dst_first) {
                None => None,
                Some(Err(x)) => Some(Err(x)),
                Some(Ok(edges)) => Some(Ok(MtxData { edges, nrows, ncols, nnz })),
            },
        },
    }
}

pub proof fn lemma_mtx_edges_never_inconsistent(
    s: Seq<u8>,
    pos: int,
    nnz: usize,
    got: nat,
    acc: Seq<(usize, usize)>,
    dst_first: bool,
)
    ensures
        !(mtx_edges(s, pos, nnz, got, acc, dst_first) matches Some(
            Err(SpecParseError::Inconsistent { .. }),
        )),
    decreases nnz - got,
{
    reveal(mtx_edge_line);
    if got < nnz && 0 <= pos < s.len() {
        let e = line_end(s, pos);
        match mtx_edge_line(s, pos, e, dst_first) {
            Some(Ok(edge)) => lemma_mtx_edges_never_inconsistent(s, e, nnz, got + 1, acc.push(edge), dst_first),
            _ => {},
        }
    }
}

/// Reading a Matrix Market text never reports an inconsistency.
pub proof fn lemma_mtx_never_inconsistent(s: Seq<u8>, dst_first: bool)
    ensures
        !(spec_parse_mtx(s, dst_first) matches Some(Err(SpecParseError::Inconsistent { .. }))),
{
    lemma_skip_header_errors(s, 0, 37u8);
    match spec_skip_header(s, 0, 37u8) {
        Ok((ls, le)) => {
            if let Some((nrows, ncols, nnz)) = mtx_header(s, ls, le) {
                lemma_mtx_edges_never_inconsistent(s, le, nnz, 0, seq![], dst_first);
            }
        },
        Err(_) => {},
    }
}

pub proof fn lemma_mtx_edges_count(
    s: Seq<u8>,
    pos: int,
    nnz: usize,
    got: nat,
    acc: Seq<(usize, usize)>,
    dst_first: bool,
)
    requires
        acc.len() == got,
        got <= nnz,
    ensures
        mtx_edges(s, pos, nnz, got, acc, dst_first) matches Some(Ok(edges)) ==> edges.len() == nnz,
        mtx_edges(s, pos, nnz, got, acc, dst_first) matches Some(Err(SpecParseError::TooShort { expected, got: g })) ==> expected == nnz && g < nnz,
    decreases nnz - got,
{
    if got < nnz && 0 <= pos < s.len() {
        let e = line_end(s, pos);
        match mtx_edge_line(s, pos, e, dst_first) {
            Some(Ok(edge)) => lemma_mtx_edges_count(s, e, nnz, got + 1, acc.push(edge), dst_first),
            Some(Err(x)) => {
                reveal(mtx_edge_line);
            },
            None => {},
        }
    }
}

/// A Matrix Market text that reads without error gives exactly as many
/// entries as its size line announces; one that ends early says how many
/// it got, fewer than announced.
pub proof fn lemma_mtx_edge_count(s: Seq<u8>, dst_first: bool)
    ensures
        spec_parse_mtx(s, dst_first) matches Some(Ok(d)) ==> d.edges.len() == d.nnz,
        spec_parse_mtx(s, dst_first) matches Some(Err(SpecParseError::TooShort { expected, got })) ==> got < expected,
{
    lemma_skip_header_errors(s, 0, 37u8);
    match spec_skip_header(s, 0, 37u8) {
        Ok((ls, le)) => {
            if let Some((nrows, ncols, nnz)) = mtx_header(s, ls, le) {
                lemma_mtx_edges_count(s, le, nnz, 0, seq![], dst_first);
            }
        },
        Err(_) => {},
    }
}

/// Skipping the header only ever fails with `EmptyBody`.
pub proof fn lemma_skip_header_errors(s: Seq<u8>, pos: int, sym: u8)
    ensures
        spec_skip_header(s, pos, sym) is Err ==> spec_skip_header(s, pos, sym) == Err::<
            (int, int),
            SpecParseError,
        >(SpecParseError::EmptyBody),
    decreases s.len() - pos,
{
    if 0 <= pos < s.len() {
        lemma_line_end_bounds(s, pos);
        lemma_skip_header_errors(s, line_end(s, pos), sym);
    }
}

/// Reads the size line `s[ls..le]`.
fn read_mtx_header(content: &str, s: &[u8], ls: usize, le: usize) -> (r: Option<(usize, usize, usize)>)
    requires
        s@ == encode_utf8(content@),
        ls <= le <= s@.len(),
    ensures
        r == mtx_header(s@, ls as int, le as int),
{
    let t0 = next_token(s, ls, le);
    let (a0, b0) = match t0 {
        None => return None,
        Some(t) => t,
    };
    proof {
        lemma_nth_token_step(s@, ls as int, le as int, 0);
        lemma_nth_token_step(s@, ls as int, le as int, 1);
    }
    let t1 = next_token(s, b0, le);
    let (a1, b1) = match t1 {
        None => return None,
        Some(t) => t,
    };
    proof {
        lemma_nth_token_step(s@, b0 as int, le as int, 0);
    }
    let t2 = next_token(s, b1, le);
    let (a2, b2) = match t2 {
        None => return None,
        Some(t) => t,
    };
    let r = parse_usize_exec(s, a0, b0);
    let c = parse_usize_exec(s, a1, b1);
    let n = parse_usize_exec(s, a2, b2);
    match (r, c, n) {
        (Some(r), Some(c), Some(n)) => Some((r, c, n)),
        _ => None,
    }
}

/// Reads the entry line `s[ls..le]` (see `mtx_edge_line`).
fn read_mtx_edge_line(content: &str, s: &[u8], ls: usize, le: usize, dst_first: bool) -> (r: Option<
    Result<(usize, usize), ParseError>,
>)
    requires
        s@ == encode_utf8(content@),
        ls <= le <= s@.len(),
        at_boundary(s@, ls as int),
        at_boundary(s@, le as int),
    ensures
        match r {
            None => mtx_edge_line(s@, ls as int, le as int, dst_first) is None,
            Some(Ok(edge)) => mtx_edge_line(s@, ls as int, le as int, dst_first) == Some(
                Ok::<(usize, usize), SpecParseError>(edge),
            ),
            Some(Err(x)) => mtx_edge_line(s@, ls as int, le as int, dst_first) == Some(
                Err::<(usize, usize), SpecParseError>(x@),
            ),
        },
{
    reveal(mtx_edge_line);
    let (a, b) = trim_range(s, ls, le);
    let q = find_byte_exec(s, a, b, 32u8);
    if q >= b {
        return Some(Err(ParseError::BadLine(span_string(content, ls, le))));
    }
    let src = parse_usize_exec(s, a, q);
    let dst = parse_usize_exec(s, q + 1, b);
    let first = if dst_first {
        dst
    } else {
        src
    };
    let second = if dst_first {
        src
    } else {
        dst
    };
    match first {
        None => return Some(Err(ParseError::BadLine(span_string(content, ls, le)))),
        Some(x) => {
            if x == 0 {
                return None;
            }
        },
    }
    match second {
        None => return Some(Err(ParseError::BadLine(span_string(content, ls, le)))),
        Some(y) => {
            if y == 0 {
                return None;
            }
        },
    }
    match (src, dst) {
        (Some(u), Some(v)) => Some(Ok((u - 1, v - 1))),
        _ => None,
    }
}

/// Reads a Matrix Market text (see `spec_parse_mtx`).
pub(crate) fn read_mtx(content: &str, dst_first: bool) -> (r: Option<Result<GraphMTX, ParseError>>)
    ensures
        match r {
            None => spec_parse_mtx(encode_utf8(content@), dst_first) is None,
            Some(Ok(g)) => spec_parse_mtx(encode_utf8(content@), dst_first) == Some(
                Ok::<MtxData, SpecParseError>(g@),
            ),
            Some(Err(x)) => spec_parse_mtx(encode_utf8(content@), dst_first) == Some(
                Err::<MtxData, SpecParseError>(x@),
            ),
        },
{
    let s = content.as_bytes();
    proof {
        encode_utf8_valid_utf8(content@);
        lemma_skip_header_ok(s@, 0, 37u8);
    }
    let (ls, le) = match Parser::skip_header(content, 0, 37u8) {
        Err(x) => return Some(Err(x)),
        Ok(r) => r,
    };
    let header = read_mtx_header(content, s, ls, le);
    let (nrows, ncols, nnz) = match header {
        None => return Some(Err(ParseError::BadLine(span_string(content, ls, le)))),
        Some(h) => h,
    };
    let mut edges: Vec<(usize, usize)> = Vec::new();
    let mut i: usize = 0;
    let mut p = le;
    while i < nnz
        invariant
            s@ == encode_utf8(content@),
            valid_utf8(s@),
            le <= p <= s@.len(),
            at_boundary(s@, p as int),
            i <= nnz,
            spec_skip_header(s@, 0, 37u8) == Ok::<(int, int), SpecParseError>((ls as int, le as int)),
            mtx_header(s@, ls as int, le as int) == Some((nrows, ncols, nnz)),
            mtx_edges(s@, le as int, nnz, 0, seq![], dst_first) == mtx_edges(
                s@,
                p as int,
                nnz,
                i as nat,
                edges@,
                dst_first,
            ),
        decreases nnz - i,
    {
        if p >= s.len() {
            return Some(Err(ParseError::TooShort { expected: nnz, got: i }));
        }
        let e = find_line_end(s, p);
        proof {
            lemma_line_end_boundary(s@, p as int);
        }
        let edge = match read_mtx_edge_line(content, s, p, e, dst_first) {
            None => return None,
            Some(Err(x)) => return Some(Err(x)),
            Some(Ok(edge)) => edge,
        };
        edges.push(edge);
        p = e;
        i = i + 1;
    }
    Some(Ok(GraphMTX::new(edges, nrows, ncols, nnz)))
}

/// The texts of a sequence of strings.
pub open spec fn strings_view(v: Seq<String>) -> Seq<Seq<char>> {
    v.map_values(|x: String| x@)
}

/// Article names read from the line at `pos` on, after `acc`: every line is
/// one name, and a blank line is an error.
pub open spec fn articles_from(s: Seq<u8>, pos: int, acc: Seq<Seq<char>>) -> Result<
    Seq<Seq<char>>,
    SpecParseError,
>
    decreases s.len() - pos,
{
    if pos < 0 || pos >= s.len() {
        Ok(acc)
    } else {
        let e = line_end(s, pos);
        let (a, b) = trimmed(s, pos, e);
        proof {
            lemma_line_end_bounds(s, pos);
        }
        if a == b {
            Err(SpecParseError::BadLine(line_text(s, pos, e)))
        } else {
            articles_from(s, e, acc.push(text(s, a, b)))
        }
    }
}

/// The article names of a Wikispeedia article list.
pub open spec fn spec_articles(s: Seq<u8>) -> Result<Seq<Seq<char>>, SpecParseError> {
    match spec_skip_header(s, 0, 35u8) {
        Err(x) => Err(x),
        Ok((ls, _)) => articles_from(s, ls, seq![]),
    }
}

/// Each name mapped to the last position where it occurs.
pub open spec fn name_positions(names: Seq<Seq<char>>) -> Map<Seq<char>, usize>
    decreases names.len(),
{
    if names.len() == 0 {
        Map::empty()
    } else {
        name_positions(names.drop_last()).insert(names.last(), (names.len() - 1) as usize)
    }
}

pub proof fn lemma_name_positions(names: Seq<Seq<char>>)
    requires
        names.len() <= usize::MAX,
    ensures
        forall|k: Seq<char>| #[trigger]
            name_positions(names).contains_key(k) <==> names.contains(k),
        forall|k: Seq<char>| #[trigger]
            name_positions(names).contains_key(k) ==> {
                let i = name_positions(names)[k] as int;
                &&& 0 <= i < names.len()
                &&& names[i] == k
                &&& forall|j: int| i < j < names.len() ==> names[j] != k
            },
    decreases names.len(),
{
    if names.len() > 0 {
        let init = names.drop_last();
        let last = names.last();
        lemma_name_positions(init);
        assert(name_positions(names) == name_positions(init).insert(last, (names.len() - 1) as usize));
        assert forall|k: Seq<char>| #[trigger]
            name_positions(names).contains_key(k) <==> names.contains(k) by {
            if names.contains(k) && k != last {
                let j = choose|j: int| 0 <= j < names.len() && names[j] == k;
                assert(init[j] == k);
                assert(init.contains(k));
                assert(name_positions(init).contains_key(k));
            }
            if name_positions(init).contains_key(k) {
                assert(init.contains(k));
            }
            if init.contains(k) {
                let j = choose|j: int| 0 <= j < init.len() && init[j] == k;
                assert(names[j] == k);
            }
            if k == last {
                assert(names[names.len() - 1] == k);
            }
        }
        assert forall|k: Seq<char>| #[trigger]
            name_positions(names).contains_key(k) implies {
                let i = name_positions(names)[k] as int;
                &&& 0 <= i < names.len()
                &&& names[i] == k
                &&& forall|j: int| i < j < names.len() ==> names[j] != k
            } by {
            if k == last {
                assert(name_positions(names)[k] == names.len() - 1);
            } else {
                assert(name_positions(init).contains_key(k));
                let i = name_positions(init)[k] as int;
                assert(name_positions(names)[k] == name_positions(init)[k]);
                assert(names[i] == init[i]);
                assert forall|j: int| i < j < names.len() implies names[j] != k by {
                    if j < names.len() - 1 {
                        assert(names[j] == init[j]);
                    }
                }
            }
        }
    }
}

/// Why a line naming `name` is inconsistent with the article list.
pub open spec fn not_found(name: Seq<char>) -> Seq<char> {
    "name "@ + name + " not found in nodes"@
}

/// The categories of a line `s[a..b]` after its first tab at `p`: the
/// dot-separated items with the first dropped.
pub open spec fn category_path(s: Seq<u8>, p: int, b: int) -> Seq<Seq<char>> {
    field_texts(s, p + 1, b, 46u8).drop_first()
}

/// Category lines from `pos` on, each `name<TAB>category`, added to `acc`.
pub open spec fn categories_from(
    s: Seq<u8>,
    pos: int,
    ids: Map<Seq<char>, usize>,
    acc: Seq<Seq<Seq<Seq<char>>>>,
) -> Result<Seq<Seq<Seq<Seq<char>>>>, SpecParseError>
    decreases s.len() - pos,
{
    if pos < 0 || pos >= s.len() {
        Ok(acc)
    } else {
        let e = line_end(s, pos);
        let (a, b) = trimmed(s, pos, e);
        let p = find_byte(s, a, b, 9u8);
        let name = text(s, a, p);
        proof {
            lemma_line_end_bounds(s, pos);
        }
        if a == b || p >= b {
            Err(SpecParseError::BadLine(line_text(s, pos, e)))
        } else if !ids.contains_key(name) {
            Err(SpecParseError::Inconsistent { reason: not_found(name), line: line_text(s, pos, e) })
        } else {
            let id = ids[name] as int;
            categories_from(s, e, ids, acc.update(id, acc[id].push(category_path(s, p, b))))
        }
    }
}

/// The categories of each of `n` articles, read from a category list.
pub open spec fn spec_categories(s: Seq<u8>, ids: Map<Seq<char>, usize>, n: nat) -> Result<
    Seq<Seq<Seq<Seq<char>>>>,
    SpecParseError,
> {
    match spec_skip_header(s, 0, 35u8) {
        Err(x) => Err(x),
        Ok((ls, _)) => categories_from(s, ls, ids, Seq::new(n, |i: int| Seq::empty())),
    }
}

/// Link lines from `pos` on, each `source<TAB>target`, after `acc`.
pub open spec fn links_from(
    s: Seq<u8>,
    pos: int,
    ids: Map<Seq<char>, usize>,
    acc: Seq<(usize, usize)>,
) -> Result<Seq<(usize, usize)>, SpecParseError>
    decreases s.len() - pos,
{
    if pos < 0 || pos >= s.len() {
        Ok(acc)
    } else {
        let e = line_end(s, pos);
        let (a, b) = trimmed(s, pos, e);
        let p = find_byte(s, a, b, 9u8);
        let src = text(s, a, p);
        let dst = text(s, p + 1, b);
        proof {
            lemma_line_end_bounds(s, pos);
        }
        if a == b || p >= b {
            Err(SpecParseError::BadLine(line_text(s, pos, e)))
        } else if !ids.contains_key(src) {
            Err(SpecParseError::Inconsistent { reason: not_found(src), line: line_text(s, pos, e) })
        } else if !ids.contains_key(dst) {
            Err(SpecParseError::Inconsistent { reason: not_found(dst), line: line_text(s, pos, e) })
        } else {
            links_from(s, e, ids, acc.push((ids[src], ids[dst])))
        }
    }
}

/// The links of a Wikispeedia link list, as pairs of article positions.
pub open spec fn spec_links(s: Seq<u8>, ids: Map<Seq<char>, usize>) -> Result<
    Seq<(usize, usize)>,
    SpecParseError,
> {
    match spec_skip_header(s, 0, 35u8) {
        Err(x) => Err(x),
        Ok((ls, _)) => links_from(s, ls, ids, seq![]),
    }
}

/// The view of the per-article category lists.
pub open spec fn categories_view(c: Seq<Vec<Vec<String>>>) -> Seq<Seq<Seq<Seq<char>>>> {
    c.map_values(|v: Vec<Vec<String>>| v@.map_values(|w: Vec<String>| strings_view(w@)))
}

/// The message `name {name} not found in nodes`.
fn not_found_message(name: &str) -> (r: String)
    ensures
        r@ == not_found(name@),
{
    let a = concat_str("name ", name);
    concat_str(a.as_str(), " not found in nodes")
}

/// What a Wikispeedia dump describes.
pub struct TsvData {
    pub ids: Map<Seq<char>, usize>,
    pub nodes: Seq<Seq<char>>,
    pub edges: Seq<(usize, usize)>,
    pub categories: Seq<Seq<Seq<Seq<char>>>>,
}

/// A Wikispeedia graph: article names, the index from names to positions,
/// links between positions and the category paths of each article.
#[derive(Clone)]
pub struct GraphTSV {
    pub ids: NameIndex,
    pub nodes: Vec<String>,
    pub edges: Vec<(usize, usize)>,
    pub categories: Vec<Vec<Vec<String>>>,
}

impl View for GraphTSV {
    type V = TsvData;

    open spec fn view(&self) -> TsvData {
        TsvData {
            ids: self.ids@,
            nodes: strings_view(self.nodes@),
            edges: self.edges@,
            categories: categories_view(self.categories@),
        }
    }
}

impl GraphTSV {
    pub fn new(
        ids: NameIndex,
        nodes: Vec<String>,
        edges: Vec<(usize, usize)>,
        categories: Vec<Vec<Vec<String>>>,
    ) -> (r: Self)
        ensures
            r.ids == ids,
            r.nodes@ == nodes@,
            r.edges@ == edges@,
            r.categories@ == categories@,
    {
        Self { ids, nodes, edges, categories }
    }
}

/// What reading the three files of a Wikispeedia dump gives.
pub open spec fn spec_parse_tsv(sa: Seq<u8>, sc: Seq<u8>, sl: Seq<u8>) -> Result<TsvData, SpecParseError> {
    match spec_articles(sa) {
        Err(x) => Err(x),
        Ok(nodes) => {
            let ids = name_positions(nodes);
            match spec_categories(sc, ids, nodes.len()) {
                Err(x) => Err(x),
                Ok(categories) => match spec_links(sl, ids) {
                    Err(x) => Err(x),
                    Ok(edges) => Ok(TsvData { ids, nodes, edges, categories }),
                },
            }
        },
    }
}

proof fn lemma_articles_len(s: Seq<u8>, pos: int, acc: Seq<Seq<char>>)
    ensures
        articles_from(s, pos, acc) matches Ok(names) ==> names.len() <= acc.len() + if 0 <= pos < s.len() {
            s.len() - pos
        } else {
            0
        },
    decreases s.len() - pos,
{
    if 0 <= pos < s.len() {
        let e = line_end(s, pos);
        lemma_line_end_bounds(s, pos);
        let (a, b) = trimmed(s, pos, e);
        if a != b {
            lemma_articles_len(s, e, acc.push(text(s, a, b)));
        }
    }
}

proof fn lemma_links_from_in_range(
    s: Seq<u8>,
    pos: int,
    ids: Map<Seq<char>, usize>,
    acc: Seq<(usize, usize)>,
    n: nat,
)
    requires
        forall|k: Seq<char>| #[trigger] ids.contains_key(k) ==> ids[k] < n,
        forall|i: int| 0 <= i < acc.len() ==> (#[trigger] acc[i]).0 < n && acc[i].1 < n,
    ensures
        links_from(s, pos, ids, acc) matches Ok(edges) ==> forall|i: int|
            0 <= i < edges.len() ==> (#[trigger] edges[i]).0 < n && edges[i].1 < n,
    decreases s.len() - pos,
{
    if 0 <= pos < s.len() {
        let e = line_end(s, pos);
        let (a, b) = trimmed(s, pos, e);
        let p = find_byte(s, a, b, 9u8);
        let src = text(s, a, p);
        let dst = text(s, p + 1, b);
        lemma_line_end_bounds(s, pos);
        if !(a == b || p >= b) && ids.contains_key(src) && ids.contains_key(dst) {
            let acc2 = acc.push((ids[src], ids[dst]));
            assert forall|i: int| 0 <= i < acc2.len() implies (#[trigger] acc2[i]).0 < n && acc2[i].1 < n by {
                if i < acc.len() {
                    assert(acc2[i] == acc[i]);
                }
            }
            lemma_links_from_in_range(s, e, ids, acc2, n);
        }
    }
}

proof fn lemma_categories_from_len(
    s: Seq<u8>,
    pos: int,
    ids: Map<Seq<char>, usize>,
    acc: Seq<Seq<Seq<Seq<char>>>>,
)
    requires
        forall|k: Seq<char>| #[trigger] ids.contains_key(k) ==> ids[k] < acc.len(),
    ensures
        categories_from(s, pos, ids, acc) matches Ok(c) ==> c.len() == acc.len(),
    decreases s.len() - pos,
{
    if 0 <= pos < s.len() {
        let e = line_end(s, pos);
        let (a, b) = trimmed(s, pos, e);
        let p = find_byte(s, a, b, 9u8);
        let name = text(s, a, p);
        lemma_line_end_bounds(s, pos);
        if !(a == b || p >= b) && ids.contains_key(name) {
            let id = ids[name] as int;
            lemma_categories_from_len(s, e, ids, acc.update(id, acc[id].push(category_path(s, p, b))));
        }
    }
}

/// A Wikispeedia dump that reads without error names, for every link, two
/// article positions, gives one category list per article, and maps every
/// article name to a position that holds it.
pub proof fn lemma_tsv_consistent(sa: Seq<u8>, sc: Seq<u8>, sl: Seq<u8>)
    requires
        sa.len() <= usize::MAX,
    ensures
        spec_parse_tsv(sa, sc, sl) matches Ok(d) ==> {
            &&& forall|i: int|
                0 <= i < d.edges.len() ==> (#[trigger] d.edges[i]).0 < d.nodes.len() && d.edges[i].1
                    < d.nodes.len()
            &&& d.categories.len() == d.nodes.len()
            &&& forall|k: Seq<char>| #[trigger]
                d.ids.contains_key(k) ==> d.ids[k] < d.nodes.len() && d.nodes[d.ids[k] as int] == k
        },
{
    if let Ok(nodes) = spec_articles(sa) {
        if let Ok((ls, _)) = spec_skip_header(sa, 0, 35u8) {
            lemma_articles_len(sa, ls, seq![]);
        }
        lemma_name_positions(nodes);
        let ids = name_positions(nodes);
        if let Ok((ls, _)) = spec_skip_header(sc, 0, 35u8) {
            lemma_categories_from_len(sc, ls, ids, Seq::new(nodes.len(), |i: int| Seq::empty()));
        }
        if let Ok((ls, _)) = spec_skip_header(sl, 0, 35u8) {
            lemma_links_from_in_range(sl, ls, ids, seq![], nodes.len());
        }
    }
}

/// One neuron line `s[pos..e]` of a MICrONS neuron table, expected at
/// position `count`: tab-separated index, identifier, cell subtype,
/// classification and region. `None` when the class is excitatory and its
/// subtype cannot be cut after its second byte, which lies inside a
/// character.
pub open spec fn neuron_line(s: Seq<u8>, pos: int, e: int, count: nat) -> Option<
    Result<Neuron, SpecParseError>,
> {
    let (a, b) = trimmed(s, pos, e);
    let line = text(s, a, b);
    let bad = Some(Err(SpecParseError::BadLine(line)));
    if a == b {
        Some(Err(SpecParseError::BadLine(line_text(s, pos, e))))
    } else {
        match (
            nth_field(s, a, b, 9u8, 0),
            nth_field(s, a, b, 9u8, 1),
            nth_field(s, a, b, 9u8, 2),
            nth_field(s, a, b, 9u8, 3),
            nth_field(s, a, b, 9u8, 4),
        ) {
            (Some(f0), Some(f1), Some(f2), Some(f3), Some(f4)) => match (
                parse_usize(s, f0.0, f0.1),
                parse_usize(s, f1.0, f1.1),
                spec_region_from(text(s, f4.0, f4.1)),
            ) {
                (Some(index), Some(uid), Some(region)) => {
                    let cls = text(s, f3.0, f3.1);
                    let sub = text(s, f2.0, f2.1);
                    if class_cut_splits_char(cls, sub) {
                        None
                    } else {
                        match spec_build(cls, sub) {
                            None => bad,
                            Some(class) => if count != index {
                                Some(
                                    Err(
                                        SpecParseError::Inconsistent {
                                            reason: "Bad index"@,
                                            line,
                                        },
                                    ),
                                )
                            } else {
                                Some(Ok(Neuron { uid, class, region }))
                            },
                        }
                    }
                },
                _ => bad,
            },
            _ => bad,
        }
    }
}

/// Neuron lines from `pos` on, after `acc`.
pub open spec fn neurons_from(s: Seq<u8>, pos: int, acc: Seq<Neuron>) -> Option<
    Result<Seq<Neuron>, SpecParseError>,
>
    decreases s.len() - pos,
{
    if pos < 0 || pos >= s.len() {
        Some(Ok(acc))
    } else {
        let e = line_end(s, pos);
        proof {
            lemma_line_end_bounds(s, pos);
        }
        match neuron_line(s, pos, e, acc.len()) {
            None => None,
            Some(Err(x)) => Some(Err(x)),
            Some(Ok(n)) => neurons_from(s, e, acc.push(n)),
        }
    }
}

/// The neurons of a MICrONS neuron table; `None` when a line has an
/// excitatory subtype that cannot be cut after its layer (see
/// `neuron_line`).
pub open spec fn spec_neurons(s: Seq<u8>) -> Option<Result<Seq<Neuron>, SpecParseError>> {
    match spec_skip_header(s, 0, 35u8) {
        Err(x) => Some(Err(x)),
        Ok((ls, _)) => neurons_from(s, ls, seq![]),
    }
}

/// Each identifier mapped to the last position of a neuron that has it.
pub open spec fn uid_positions(neurons: Seq<Neuron>) -> Map<usize, usize>
    decreases neurons.len(),
{
    if neurons.len() == 0 {
        Map::empty()
    } else {
        uid_positions(neurons.drop_last()).insert(neurons.last().uid, (neurons.len() - 1) as usize)
    }
}

/// One synapse line: tab-separated source, target and weight.
pub open spec fn synapse_line(s: Seq<u8>, pos: int, e: int) -> Result<
    (usize, usize, usize),
    SpecParseError,
> {
    let (a, b) = trimmed(s, pos, e);
    let bad = Err(SpecParseError::BadLine(text(s, a, b)));
    if a == b {
        Err(SpecParseError::BadLine(line_text(s, pos, e)))
    } else {
        match (nth_field(s, a, b, 9u8, 0), nth_field(s, a, b, 9u8, 1), nth_field(s, a, b, 9u8, 2)) {
            (Some(f0), Some(f1), Some(f2)) => match (
                parse_usize(s, f0.0, f0.1),
                parse_usize(s, f1.0, f1.1),
                parse_usize(s, f2.0, f2.1),
            ) {
                (Some(x), Some(y), Some(w)) => Ok((x, y, w)),
                _ => bad,
            },
            _ => bad,
        }
    }
}

/// Synapse lines from `pos` on, after `acc`.
pub open spec fn synapses_from(s: Seq<u8>, pos: int, acc: Seq<(usize, usize, usize)>) -> Result<
    Seq<(usize, usize, usize)>,
    SpecParseError,
>
    decreases s.len() - pos,
{
    if pos < 0 || pos >= s.len() {
        Ok(acc)
    } else {
        let e = line_end(s, pos);
        proof {
            lemma_line_end_bounds(s, pos);
        }
        match synapse_line(s, pos, e) {
            Err(x) => Err(x),
            Ok(t) => synapses_from(s, e, acc.push(t)),
        }
    }
}

/// The synapses of a MICrONS synapse table.
pub open spec fn spec_synapses(s: Seq<u8>) -> Result<Seq<(usize, usize, usize)>, SpecParseError> {
    match spec_skip_header(s, 0, 35u8) {
        Err(x) => Err(x),
        Ok((ls, _)) => synapses_from(s, ls, seq![]),
    }
}

/// What a MICrONS connectome describes.
pub struct MicronsData {
    pub edges: Seq<(usize, usize, usize)>,
    pub neurons: Seq<Neuron>,
    pub ids: Map<usize, usize>,
}

/// What reading a MICrONS synapse table and neuron table gives (the neuron
/// table is read first); `None` as for `spec_neurons`.
pub open spec fn spec_parse_microns(sl: Seq<u8>, sn: Seq<u8>) -> Option<
    Result<MicronsData, SpecParseError>,
> {
    match spec_neurons(sn) {
        None => None,
        Some(Err(x)) => Some(Err(x)),
        Some(Ok(neurons)) => match spec_synapses(sl) {
            Err(x) => Some(Err(x)),
            Ok(edges) => Some(Ok(MicronsData { edges, neurons, ids: uid_positions(neurons) })),
        },
    }
}

/// A MICrONS connectome: weighted synapses between neurons, the neurons in
/// table order, and each identifier mapped to its position.
pub struct GraphMICrONS {
    pub edges: Vec<(usize, usize, usize)>,
    pub neurons: Vec<Neuron>,
    pub ids: HashMap<usize, usize>,
}

impl View for GraphMICrONS {
    type V = MicronsData;

    open spec fn view(&self) -> MicronsData {
        MicronsData { edges: self.edges@, neurons: self.neurons@, ids: self.ids@ }
    }
}

impl GraphMICrONS {
    pub fn new(
        edges: Vec<(usize, usize, usize)>,
        neurons: Vec<Neuron>,
        ids: HashMap<usize, usize>,
    ) -> (r: Self)
        ensures
            r.edges@ == edges@,
            r.neurons@ == neurons@,
            r.ids@ == ids@,
    {
        Self { edges, neurons, ids }
    }
}

/// Reads the neuron line `s[pos..e]` (see `neuron_line`).
fn read_neuron_line(content: &str, s: &[u8], pos: usize, e: usize, count: usize) -> (r: Option<
    Result<Neuron, ParseError>,
>)
    requires
        s@ == encode_utf8(content@),
        valid_utf8(s@),
        pos <= e <= s@.len(),
        at_boundary(s@, pos as int),
        at_boundary(s@, e as int),
    ensures
        match r {
            None => neuron_line(s@, pos as int, e as int, count as nat) is None,
            Some(Ok(n)) => neuron_line(s@, pos as int, e as int, count as nat) == Some(
                Ok::<Neuron, SpecParseError>(n),
            ),
            Some(Err(x)) => neuron_line(s@, pos as int, e as int, count as nat) == Some(
                Err::<Neuron, SpecParseError>(x@),
            ),
        },
{
    let (a, b) = trim_range(s, pos, e);
    proof {
        lemma_trim_start_boundary(s@, pos as int, e as int);
        lemma_trim_end_boundary(s@, a as int, e as int);
    }
    if a == b {
        return Some(Err(ParseError::BadLine(span_string(content, pos, e))));
    }
    let f0 = get_field(s, a, b, 9u8, 0);
    let f1 = get_field(s, a, b, 9u8, 1);
    let f2 = get_field(s, a, b, 9u8, 2);
    let f3 = get_field(s, a, b, 9u8, 3);
    let f4 = get_field(s, a, b, 9u8, 4);
    let (f0, f1, f2, f3, f4) = match (f0, f1, f2, f3, f4) {
        (Some(f0), Some(f1), Some(f2), Some(f3), Some(f4)) => (f0, f1, f2, f3, f4),
        _ => return Some(Err(ParseError::BadLine(span_string(content, a, b)))),
    };
    let index = parse_usize_exec(s, f0.0, f0.1);
    let uid = parse_usize_exec(s, f1.0, f1.1);
    let region = NeuronRegion::try_from_str(str_slice(content, f4.0, f4.1));
    let (index, uid, region) = match (index, uid, region) {
        (Some(index), Some(uid), Ok(region)) => (index, uid, region),
        _ => return Some(Err(ParseError::BadLine(span_string(content, a, b)))),
    };
    let cls = str_slice(content, f3.0, f3.1);
    let sub = str_slice(content, f2.0, f2.1);
    if str_eq(cls, "excitatory_neuron") {
        let sb = sub.as_bytes();
        if sb.len() > 2 && !(sb[2] < 0x80u8 || sb[2] > 0xBFu8) {
            return None;
        }
    }
    let class = match NeuronClass::build(cls, sub) {
        None => return Some(Err(ParseError::BadLine(span_string(content, a, b)))),
        Some(c) => c,
    };
    if count != index {
        return Some(
            Err(
                ParseError::Inconsistent {
                    reason: "Bad index".to_owned(),
                    line: span_string(content, a, b),
                },
            ),
        );
    }
    Some(Ok(Neuron::new(uid, class, region)))
}

/// Reads the synapse line `s[pos..e]` (see `synapse_line`).
fn read_synapse_line(content: &str, s: &[u8], pos: usize, e: usize) -> (r: Result<
    (usize, usize, usize),
    ParseError,
>)
    requires
        s@ == encode_utf8(content@),
        valid_utf8(s@),
        pos <= e <= s@.len(),
        at_boundary(s@, pos as int),
        at_boundary(s@, e as int),
    ensures
        match r {
            Ok(x) => synapse_line(s@, pos as int, e as int) == Ok::<
                (usize, usize, usize),
                SpecParseError,
            >(x),
            Err(x) => synapse_line(s@, pos as int, e as int) == Err::<
                (usize, usize, usize),
                SpecParseError,
            >(x@),
        },
{
    let (a, b) = trim_range(s, pos, e);
    proof {
        lemma_trim_start_boundary(s@, pos as int, e as int);
        lemma_trim_end_boundary(s@, a as int, e as int);
    }
    if a == b {
        return Err(ParseError::BadLine(span_string(content, pos, e)));
    }
    let f0 = get_field(s, a, b, 9u8, 0);
    let f1 = get_field(s, a, b, 9u8, 1);
    let f2 = get_field(s, a, b, 9u8, 2);
    let (f0, f1, f2) = match (f0, f1, f2) {
        (Some(f0), Some(f1), Some(f2)) => (f0, f1, f2),
        _ => return Err(ParseError::BadLine(span_string(content, a, b))),
    };
    match (
        parse_usize_exec(s, f0.0, f0.1),
        parse_usize_exec(s, f1.0, f1.1),
        parse_usize_exec(s, f2.0, f2.1),
    ) {
        (Some(x), Some(y), Some(w)) => Ok((x, y, w)),
        _ => Err(ParseError::BadLine(span_string(content, a, b))),
    }
}

pub struct Parser;

impl Parser {
    /// Reads a Matrix Market text; `None` when an entry names index 0.
    pub fn try_parse_mtx(content: &str) -> (r: Option<Result<GraphMTX, ParseError>>)
        ensures
            match r {
                None => spec_parse_mtx(encode_utf8(content@), false) is None,
                Some(Ok(g)) => spec_parse_mtx(encode_utf8(content@), false) == Some(
                    Ok::<MtxData, SpecParseError>(g@),
                ),
                Some(Err(x)) => spec_parse_mtx(encode_utf8(content@), false) == Some(
                    Err::<MtxData, SpecParseError>(x@),
                ),
            },
    {
        read_mtx(content, false)
    }

    /// Reads a Matrix Market text: skips the `%` header, reads the size
    /// line, then `nnz` lines `src dst` of 1-based indices.
    pub fn parse_mtx(content: &str) -> (r: Result<GraphMTX, ParseError>)
        requires
            spec_parse_mtx(encode_utf8(content@), false) is Some,
        ensures
            match r {
                Ok(g) => spec_parse_mtx(encode_utf8(content@), false) == Some(
                    Ok::<MtxData, SpecParseError>(g@),
                ),
                Err(x) => spec_parse_mtx(encode_utf8(content@), false) == Some(
                    Err::<MtxData, SpecParseError>(x@),
                ),
            },
    {
        match read_mtx(content, false) {
            Some(r) => r,
            None => Err(ParseError::EmptyBody),
        }
    }

    /// Reads the article list of a Wikispeedia dump: after the `#` header,
    /// one article name per line. Gives the index from names to positions
    /// and the names in order.
    pub fn parse_articles(content: &str) -> (r: Result<(NameIndex, Vec<String>), ParseError>)
        ensures
            match r {
                Ok((ids, nodes)) => {
                    &&& spec_articles(encode_utf8(content@)) == Ok::<
                        Seq<Seq<char>>,
                        SpecParseError,
                    >(strings_view(nodes@))
                    &&& ids.wf()
                    &&& ids@ == name_positions(strings_view(nodes@))
                },
                Err(x) => spec_articles(encode_utf8(content@)) == Err::<
                    Seq<Seq<char>>,
                    SpecParseError,
                >(x@),
            },
    {
        let s = content.as_bytes();
        proof {
            encode_utf8_valid_utf8(content@);
            lemma_skip_header_ok(s@, 0, 35u8);
        }
        let (ls, _) = match Parser::skip_header(content, 0, 35u8) {
            Err(x) => return Err(x),
            Ok(r) => r,
        };
        let mut ids = NameIndex::new();
        let mut nodes: Vec<String> = Vec::new();
        let mut pos = ls;
        proof {
            assert(strings_view(nodes@) =~= Seq::<Seq<char>>::empty());
        }
        while pos < s.len()
            invariant
                s@ == encode_utf8(content@),
                valid_utf8(s@),
                pos <= s@.len(),
                at_boundary(s@, pos as int),
                ids.wf(),
                ids@ == name_positions(strings_view(nodes@)),
                spec_articles(s@) == articles_from(s@, pos as int, strings_view(nodes@)),
            decreases s@.len() - pos,
        {
            let (e, a, b) = scan_line(s, pos);
            if a == b {
                return Err(ParseError::BadLine(span_string(content, pos, e)));
            }
            let name = span_string(content, a, b);
            let ghost before = strings_view(nodes@);
            ids.insert(name.clone(), nodes.len());
            nodes.push(name);
            proof {
                assert(strings_view(nodes@) =~= before.push(name@));
                assert(strings_view(nodes@).drop_last() =~= before);
            }
            pos = e;
        }
        Ok((ids, nodes))
    }

    /// Reads the category list of a Wikispeedia dump: lines
    /// `name<TAB>category`, where the category is a dot-separated path whose
    /// first item is dropped; the path is added to the categories of the
    /// article `name`.
    pub fn parse_categories(content: &str, ids: &NameIndex, n: usize) -> (r: Result<
        Vec<Vec<Vec<String>>>,
        ParseError,
    >)
        requires
            ids.wf(),
            forall|k: Seq<char>| #[trigger] ids@.contains_key(k) ==> ids@[k] < n,
        ensures
            match r {
                Ok(c) => spec_categories(encode_utf8(content@), ids@, n as nat) == Ok::<
                    Seq<Seq<Seq<Seq<char>>>>,
                    SpecParseError,
                >(categories_view(c@)),
                Err(x) => spec_categories(encode_utf8(content@), ids@, n as nat) == Err::<
                    Seq<Seq<Seq<Seq<char>>>>,
                    SpecParseError,
                >(x@),
            },
    {
        let s = content.as_bytes();
        proof {
            encode_utf8_valid_utf8(content@);
            lemma_skip_header_ok(s@, 0, 35u8);
        }
        let (ls, _) = match Parser::skip_header(content, 0, 35u8) {
            Err(x) => return Err(x),
            Ok(r) => r,
        };
        let mut categories: Vec<Vec<Vec<String>>> = Vec::new();
        let mut i: usize = 0;
        while i < n
            invariant
                i <= n,
                categories@.len() == i,
                forall|j: int| 0 <= j < i ==> (#[trigger] categories@[j])@.len() == 0,
            decreases n - i,
        {
            categories.push(Vec::new());
            i = i + 1;
        }
        proof {
            assert forall|j: int| 0 <= j < n implies categories_view(categories@)[j]
                =~= Seq::<Seq<Seq<char>>>::empty() by {
                assert(categories@[j]@.len() == 0);
            }
            assert(categories_view(categories@) =~= Seq::new(
                n as nat,
                |i: int| Seq::<Seq<Seq<char>>>::empty(),
            ));
        }
        let mut pos = ls;
        while pos < s.len()
            invariant
                s@ == encode_utf8(content@),
                valid_utf8(s@),
                pos <= s@.len(),
                at_boundary(s@, pos as int),
                ids.wf(),
                forall|k: Seq<char>| #[trigger] ids@.contains_key(k) ==> ids@[k] < n,
                categories@.len() == n,
                spec_categories(s@, ids@, n as nat) == categories_from(
                    s@,
                    pos as int,
                    ids@,
                    categories_view(categories@),
                ),
            decreases s@.len() - pos,
        {
            let (e, a, b) = scan_line(s, pos);
            if a == b {
                return Err(ParseError::BadLine(span_string(content, pos, e)));
            }
            let p = find_byte_exec(s, a, b, 9u8);
            if p >= b {
                return Err(ParseError::BadLine(span_string(content, pos, e)));
            }
            proof {
                lemma_find_byte_bounds(s@, a as int, b as int, 9u8);
                lemma_find_byte_boundary(s@, a as int, b as int, 9u8);
                lemma_boundary_after_ascii(s@, p as int);
            }
            let name = str_slice(content, a, p);
            let id = match ids.get(name) {
                None => {
                    return Err(
                        ParseError::Inconsistent {
                            reason: not_found_message(name),
                            line: span_string(content, pos, e),
                        },
                    );
                },
                Some(id) => id,
            };
            let mut path = split_fields(content, s, p + 1, b, 46u8);
            path.remove(0);
            let ghost before = categories_view(categories@);
            let ghost old_cats = categories@;
            let ghost pv = strings_view(path@);
            let ghost path_val = path;
            categories[id].push(path);
            proof {
                assert(pv =~= category_path(s@, p as int, b as int));
                assert(categories@[id as int]@ =~= old_cats[id as int]@.push(path_val));
                assert forall|j: int| 0 <= j < n implies #[trigger] categories_view(categories@)[j]
                    =~= before.update(id as int, before[id as int].push(pv))[j] by {
                    if j == id as int {
                        assert(categories_view(categories@)[j] =~= before[j].push(pv));
                    } else {
                        assert(categories@[j] == old_cats[j]);
                    }
                }
                assert(categories_view(categories@) =~= before.update(
                    id as int,
                    before[id as int].push(pv),
                ));
            }
            pos = e;
        }
        Ok(categories)
    }

    /// Reads the link list of a Wikispeedia dump: lines
    /// `source<TAB>target` of article names, turned into pairs of positions.
    pub fn parse_links(content: &str, ids: &NameIndex) -> (r: Result<Vec<(usize, usize)>, ParseError>)
        requires
            ids.wf(),
        ensures
            match r {
                Ok(edges) => spec_links(encode_utf8(content@), ids@) == Ok::<
                    Seq<(usize, usize)>,
                    SpecParseError,
                >(edges@),
                Err(x) => spec_links(encode_utf8(content@), ids@) == Err::<
                    Seq<(usize, usize)>,
                    SpecParseError,
                >(x@),
            },
    {
        let s = content.as_bytes();
        proof {
            encode_utf8_valid_utf8(content@);
            lemma_skip_header_ok(s@, 0, 35u8);
        }
        let (ls, _) = match Parser::skip_header(content, 0, 35u8) {
            Err(x) => return Err(x),
            Ok(r) => r,
        };
        let mut edges: Vec<(usize, usize)> = Vec::new();
        let mut pos = ls;
        while pos < s.len()
            invariant
                s@ == encode_utf8(content@),
                valid_utf8(s@),
                pos <= s@.len(),
                at_boundary(s@, pos as int),
                ids.wf(),
                spec_links(s@, ids@) == links_from(s@, pos as int, ids@, edges@),
            decreases s@.len() - pos,
        {
            let (e, a, b) = scan_line(s, pos);
            if a == b {
                return Err(ParseError::BadLine(span_string(content, pos, e)));
            }
            let p = find_byte_exec(s, a, b, 9u8);
            if p >= b {
                return Err(ParseError::BadLine(span_string(content, pos, e)));
            }
            proof {
                lemma_find_byte_bounds(s@, a as int, b as int, 9u8);
                lemma_find_byte_boundary(s@, a as int, b as int, 9u8);
                lemma_boundary_after_ascii(s@, p as int);
            }
            let src = str_slice(content, a, p);
            let dst = str_slice(content, p + 1, b);
            let src_id = match ids.get(src) {
                None => {
                    return Err(
                        ParseError::Inconsistent {
                            reason: not_found_message(src),
                            line: span_string(content, pos, e),
                        },
                    );
                },
                Some(id) => id,
            };
            let dst_id = match ids.get(dst) {
                None => {
                    return Err(
                        ParseError::Inconsistent {
                            reason: not_found_message(dst),
                            line: span_string(content, pos, e),
                        },
                    );
                },
                Some(id) => id,
            };
            edges.push((src_id, dst_id));
            pos = e;
        }
        Ok(edges)
    }

    /// Reads a Wikispeedia dump from the texts of its article list, category
    /// list and link list, in that order.
    pub fn parse_tsv(articles: &str, categories: &str, links: &str) -> (r: Result<GraphTSV, ParseError>)
        ensures
            match r {
                Ok(g) => g.ids.wf() && spec_parse_tsv(
                    encode_utf8(articles@),
                    encode_utf8(categories@),
                    encode_utf8(links@),
                ) == Ok::<TsvData, SpecParseError>(g@),
                Err(x) => spec_parse_tsv(
                    encode_utf8(articles@),
                    encode_utf8(categories@),
                    encode_utf8(links@),
                ) == Err::<TsvData, SpecParseError>(x@),
            },
    {
        let (ids, nodes) = match Parser::parse_articles(articles) {
            Err(x) => return Err(x),
            Ok(r) => r,
        };
        let n = nodes.len();
        proof {
            assert(strings_view(nodes@).len() == n);
            lemma_name_positions(strings_view(nodes@));
        }
        let cats = match Parser::parse_categories(categories, &ids, n) {
            Err(x) => return Err(x),
            Ok(c) => c,
        };
        let edges = match Parser::parse_links(links, &ids) {
            Err(x) => return Err(x),
            Ok(e) => e,
        };
        Ok(GraphTSV::new(ids, nodes, edges, cats))
    }

    /// Reads a MICrONS neuron table; `None` when an excitatory subtype
    /// cannot be cut after its layer.
    pub fn parse_neurons(content: &str) -> (r: Option<Result<(Vec<Neuron>, HashMap<usize, usize>), ParseError>>)
        ensures
            match r {
                None => spec_neurons(encode_utf8(content@)) is None,
                Some(Ok((neurons, ids))) => spec_neurons(encode_utf8(content@)) == Some(
                    Ok::<Seq<Neuron>, SpecParseError>(neurons@),
                ) && ids@ == uid_positions(neurons@),
                Some(Err(x)) => spec_neurons(encode_utf8(content@)) == Some(
                    Err::<Seq<Neuron>, SpecParseError>(x@),
                ),
            },
    {
        let s = content.as_bytes();
        proof {
            encode_utf8_valid_utf8(content@);
            lemma_skip_header_ok(s@, 0, 35u8);
        }
        let (ls, _) = match Parser::skip_header(content, 0, 35u8) {
            Err(x) => return Some(Err(x)),
            Ok(r) => r,
        };
        let mut neurons: Vec<Neuron> = Vec::new();
        let mut ids: HashMap<usize, usize> = HashMap::new();
        let mut pos = ls;
        while pos < s.len()
            invariant
                s@ == encode_utf8(content@),
                valid_utf8(s@),
                pos <= s@.len(),
                at_boundary(s@, pos as int),
                ids@ == uid_positions(neurons@),
                spec_neurons(s@) == neurons_from(s@, pos as int, neurons@),
            decreases s@.len() - pos,
        {
            let e = find_line_end(s, pos);
            proof {
                lemma_line_end_boundary(s@, pos as int);
            }
            let n = match read_neuron_line(content, s, pos, e, neurons.len()) {
                None => return None,
                Some(Err(x)) => return Some(Err(x)),
                Some(Ok(n)) => n,
            };
            let ghost before = neurons@;
            ids.insert(n.uid, neurons.len());
            neurons.push(n);
            proof {
                assert(neurons@.drop_last() =~= before);
            }
            pos = e;
        }
        Some(Ok((neurons, ids)))
    }

    /// Reads a MICrONS synapse table.
    pub fn parse_synapses(content: &str) -> (r: Result<Vec<(usize, usize, usize)>, ParseError>)
        ensures
            match r {
                Ok(edges) => spec_synapses(encode_utf8(content@)) == Ok::<
                    Seq<(usize, usize, usize)>,
                    SpecParseError,
                >(edges@),
                Err(x) => spec_synapses(encode_utf8(content@)) == Err::<
                    Seq<(usize, usize, usize)>,
                    SpecParseError,
                >(x@),
            },
    {
        let s = content.as_bytes();
        proof {
            encode_utf8_valid_utf8(content@);
            lemma_skip_header_ok(s@, 0, 35u8);
        }
        let (ls, _) = match Parser::skip_header(content, 0, 35u8) {
            Err(x) => return Err(x),
            Ok(r) => r,
        };
        let mut edges: Vec<(usize, usize, usize)> = Vec::new();
        let mut pos = ls;
        while pos < s.len()
            invariant
                s@ == encode_utf8(content@),
                valid_utf8(s@),
                pos <= s@.len(),
                at_boundary(s@, pos as int),
                spec_synapses(s@) == synapses_from(s@, pos as int, edges@),
            decreases s@.len() - pos,
        {
            let e = find_line_end(s, pos);
            proof {
                lemma_line_end_boundary(s@, pos as int);
            }
            let t = match read_synapse_line(content, s, pos, e) {
                Err(x) => return Err(x),
                Ok(t) => t,
            };
            edges.push(t);
            pos = e;
        }
        Ok(edges)
    }

    /// Reads a MICrONS connectome from its synapse table and neuron table;
    /// `None` when an excitatory subtype cannot be cut after its layer.
    pub fn try_parse_microns(path_links: &str, path_neurons: &str) -> (r: Option<Result<GraphMICrONS, ParseError>>)
        ensures
            match r {
                None => spec_parse_microns(encode_utf8(path_links@), encode_utf8(path_neurons@)) is None,
                Some(Ok(g)) => spec_parse_microns(encode_utf8(path_links@), encode_utf8(path_neurons@))
                    == Some(Ok::<MicronsData, SpecParseError>(g@)),
                Some(Err(x)) => spec_parse_microns(encode_utf8(path_links@), encode_utf8(path_neurons@))
                    == Some(Err::<MicronsData, SpecParseError>(x@)),
            },
    {
        let (neurons, ids) = match Parser::parse_neurons(path_neurons) {
            None => return None,
            Some(Err(x)) => return Some(Err(x)),
            Some(Ok(r)) => r,
        };
        let edges = match Parser::parse_synapses(path_links) {
            Err(x) => return Some(Err(x)),
            Ok(e) => e,
        };
        Some(Ok(GraphMICrONS::new(edges, neurons, ids)))
    }

    /// Reads a MICrONS connectome from the text of its synapse table and of
    /// its neuron table.
    pub fn parse_microns(path_links: &str, path_neurons: &str) -> (r: Result<GraphMICrONS, ParseError>)
        requires
            spec_parse_microns(encode_utf8(path_links@), encode_utf8(path_neurons@)) is Some,
        ensures
            match r {
                Ok(g) => spec_parse_microns(encode_utf8(path_links@), encode_utf8(path_neurons@))
                    == Some(Ok::<MicronsData, SpecParseError>(g@)),
                Err(x) => spec_parse_microns(encode_utf8(path_links@), encode_utf8(path_neurons@))
                    == Some(Err::<MicronsData, SpecParseError>(x@)),
            },
    {
        match Parser::try_parse_microns(path_links, path_neurons) {
            Some(r) => r,
            None => Err(ParseError::EmptyBody),
        }
    }

    /// Skips blank lines and lines whose trimmed text starts with `sym`,
    /// beginning at byte `pos`; gives the start and end of the first other
    /// line.
    pub fn skip_header(content: &str, pos: usize, sym: u8) -> (r: Result<(usize, usize), ParseError>)
        ensures
            match r {
                Ok((ls, le)) => spec_skip_header(encode_utf8(content@), pos as int, sym) == Ok::<
                    (int, int),
                    SpecParseError,
                >((ls as int, le as int)),
                Err(e) => spec_skip_header(encode_utf8(content@), pos as int, sym) == Err::<
                    (int, int),
                    SpecParseError,
                >(e@),
            },
    {
        let s = content.as_bytes();
        let mut p = pos;
        while p < s.len()
            invariant
                s@ == encode_utf8(content@),
                spec_skip_header(s@, p as int, sym) == spec_skip_header(s@, pos as int, sym),
            decreases s@.len() - p,
        {
            let e = find_line_end(s, p);
            let (a, b) = trim_range(s, p, e);
            if a != b && s[a] != sym {
                return Ok((p, e));
            }
            p = e;
        }
        Err(ParseError::EmptyBody)
    }
}

} // verus!
