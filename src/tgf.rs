//! Reading a graph from the trivial graph format (TGF):
//!
//! ```text
//! 2 1
//! #
//! 1 First node
//! 2 Second node
//! #
//! 1 2 Edge between the two
//! ```
//!
//! A header line with two counts, a line holding `#`, one line per node
//! (its id, at least one blank, a label), a second `#` line, and one line
//! per edge (two ids separated by blanks, then anything). Blanks are
//! spaces and tabs, and may lead and trail every line. Every line ends in
//! `\n`; a line may not hold `\r`. An id is a run of decimal digits whose
//! value fits in `u32`. The counts of the header are read but not checked.
use vstd::prelude::*;
use vstd::string::StringSliceAdditionalSpecFns;

verus! {

/// The node ids and edges of a graph read from TGF, in the order of the
/// text.
#[derive(Debug, Clone, PartialEq, Eq)]
pub struct SimpleGraph {
    /// The node ids, one per node line.
    pub nodes: Vec<u32>,
    /// The (from, to) ids, one pair per edge line.
    pub edges: Vec<(u32, u32)>,
}

/// A space or a tab.
pub open spec fn is_blank(c: u8) -> bool {
    c == 0x20 || c == 0x09
}

/// A decimal digit.
pub open spec fn is_digit(c: u8) -> bool {
    0x30 <= c <= 0x39
}

/// The first position at or after `i` that does not hold a blank.
pub open spec fn blanks_end(b: Seq<u8>, i: int) -> int
    decreases b.len() - i,
{
    if 0 <= i < b.len() && is_blank(b[i]) {
        blanks_end(b, i + 1)
    } else {
        i
    }
}

/// The first position at or after `i` that does not hold a digit.
pub open spec fn digits_end(b: Seq<u8>, i: int) -> int
    decreases b.len() - i,
{
    if 0 <= i < b.len() && is_digit(b[i]) {
        digits_end(b, i + 1)
    } else {
        i
    }
}

/// The first position at or after `i` that holds `\n` or `\r`, or the end.
pub open spec fn line_content_end(b: Seq<u8>, i: int) -> int
    decreases b.len() - i,
{
    if 0 <= i < b.len() && b[i] != 0x0a && b[i] != 0x0d {
        line_content_end(b, i + 1)
    } else {
        i
    }
}

/// The decimal value of the digits from `i` up to `j`.
pub open spec fn digits_value(b: Seq<u8>, i: int, j: int) -> nat
    decreases j - i,
{
    if j <= i {
        0
    } else {
        digits_value(b, i, j - 1) * 10 + (b[j - 1] - 0x30) as nat
    }
}

/// The number that starts at `i`, and the position after it.
pub open spec fn number_at(b: Seq<u8>, i: int) -> Option<(u32, int)> {
    let j = digits_end(b, i);
    if j > i && digits_value(b, i, j) <= u32::MAX {
        Some((digits_value(b, i, j) as u32, j))
    } else {
        None
    }
}

/// `b[i]` is a newline.
pub open spec fn newline_at(b: Seq<u8>, i: int) -> bool {
    0 <= i < b.len() && b[i] == 0x0a
}

/// The header line at `i`: the position after it.
pub open spec fn header_at(b: Seq<u8>, i: int) -> Option<int> {
    match number_at(b, blanks_end(b, i)) {
        Some((_, j)) => {
            let k = blanks_end(b, j);
            if k > j {
                match number_at(b, k) {
                    Some((_, l)) => {
                        let m = blanks_end(b, l);
                        if newline_at(b, m) {
                            Some(m + 1)
                        } else {
                            None
                        }
                    },
                    None => None,
                }
            } else {
                None
            }
        },
        None => None,
    }
}

/// The `#` line at `i`: the position after it.
pub open spec fn separator_at(b: Seq<u8>, i: int) -> Option<int> {
    let j = blanks_end(b, i);
    if 0 <= j < b.len() && b[j] == 0x23 {
        let k = blanks_end(b, j + 1);
        if newline_at(b, k) {
            Some(k + 1)
        } else {
            None
        }
    } else {
        None
    }
}

/// The node line at `i`: its id and the position after it.
pub open spec fn node_at(b: Seq<u8>, i: int) -> Option<(u32, int)> {
    match number_at(b, blanks_end(b, i)) {
        Some((id, j)) => {
            let k = blanks_end(b, j);
            let m = line_content_end(b, k);
            if k > j && newline_at(b, m) {
                Some((id, m + 1))
            } else {
                None
            }
        },
        None => None,
    }
}

/// The edge line at `i`: its two ids and the position after it.
pub open spec fn edge_at(b: Seq<u8>, i: int) -> Option<((u32, u32), int)> {
    match number_at(b, blanks_end(b, i)) {
        Some((from, j)) => {
            let k = blanks_end(b, j);
            if k > j {
                match number_at(b, k) {
                    Some((to, l)) => {
                        let m = line_content_end(b, l);
                        if newline_at(b, m) {
                            Some(((from, to), m + 1))
                        } else {
                            None
                        }
                    },
                    None => None,
                }
            } else {
                None
            }
        },
        None => None,
    }
}

/// The node lines from `i` on, as many as there are: their ids and the
/// position after the last one.
pub open spec fn nodes_from(b: Seq<u8>, i: int) -> (Seq<u32>, int)
    decreases b.len() - i,
{
    match node_at(b, i) {
        Some((id, j)) => if i < j <= b.len() {
            let (rest, k) = nodes_from(b, j);
            (seq![id] + rest, k)
        } else {
            (Seq::empty(), i)
        },
        None => (Seq::empty(), i),
    }
}

/// The edge lines from `i` on, as many as there are: their ids and the
/// position after the last one.
pub open spec fn edges_from(b: Seq<u8>, i: int) -> (Seq<(u32, u32)>, int)
    decreases b.len() - i,
{
    match edge_at(b, i) {
        Some((e, j)) => if i < j <= b.len() {
            let (rest, k) = edges_from(b, j);
            (seq![e] + rest, k)
        } else {
            (Seq::empty(), i)
        },
        None => (Seq::empty(), i),
    }
}

/// The graph that the TGF text `b` describes, if it is well formed.
pub open spec fn tgf_of(b: Seq<u8>) -> Option<(Seq<u32>, Seq<(u32, u32)>)> {
    match header_at(b, 0) {
        Some(i) => match separator_at(b, i) {
            Some(j) => {
                let (ns, k) = nodes_from(b, j);
                match separator_at(b, k) {
                    Some(l) => {
                        let (es, m) = edges_from(b, l);
                        if m == b.len() {
                            Some((ns, es))
                        } else {
                            None
                        }
                    },
                    None => None,
                }
            },
            None => None,
        },
        None => None,
    }
}

fn skip_blanks(b: &[u8], i: usize) -> (r: usize)
    requires
        i <= b@.len(),
    ensures
        r as int == blanks_end(b@, i as int),
        i <= r <= b@.len(),
{
    let mut j = i;
    while j < b.len() && (b[j] == 0x20 || b[j] == 0x09)
        invariant
            i <= j <= b@.len(),
            blanks_end(b@, i as int) == blanks_end(b@, j as int),
        decreases b@.len() - j,
    {
        j = j + 1;
    }
    j
}

fn skip_line_content(b: &[u8], i: usize) -> (r: usize)
    requires
        i <= b@.len(),
    ensures
        r as int == line_content_end(b@, i as int),
        i <= r <= b@.len(),
{
    let mut j = i;
    while j < b.len() && b[j] != 0x0a && b[j] != 0x0d
        invariant
            i <= j <= b@.len(),
            line_content_end(b@, i as int) == line_content_end(b@, j as int),
        decreases b@.len() - j,
    {
        j = j + 1;
    }
    j
}

fn read_number(b: &[u8], i: usize) -> (r: Option<(u32, usize)>)
    requires
        i <= b@.len(),
    ensures
        match r {
            Some((v, j)) => number_at(b@, i as int) == Some((v, j as int)) && i < j <= b@.len(),
            None => number_at(b@, i as int) is None,
        },
{
    let mut j = i;
    let mut acc: u64 = 0;
    let mut big = false;
    while j < b.len() && 0x30 <= b[j] && b[j] <= 0x39
        invariant
            i <= j <= b@.len(),
            digits_end(b@, i as int) == digits_end(b@, j as int),
            !big ==> acc == digits_value(b@, i as int, j as int) && acc <= u32::MAX,
            big ==> digits_value(b@, i as int, j as int) > u32::MAX,
        decreases b@.len() - j,
    {
        let d = (b[j] - 0x30) as u64;
        proof {
            assert(digits_value(b@, i as int, j + 1) == digits_value(b@, i as int, j as int) * 10
                + d);
        }
        if !big {
            assert(acc * 10 + d <= u32::MAX as u64 * 10 + 9) by (nonlinear_arith)
                requires
                    acc <= u32::MAX,
                    d <= 9,
            ;
            let v = acc * 10 + d;
            if v > u32::MAX as u64 {
                big = true;
            } else {
                acc = v;
            }
        } else {
            proof {
                let x = digits_value(b@, i as int, j as int);
                assert(x * 10 + d > u32::MAX) by (nonlinear_arith)
                    requires
                        x > u32::MAX,
                ;
            }
        }
        j = j + 1;
    }
    if j == i || big {
        None
    } else {
        Some((acc as u32, j))
    }
}

fn header(b: &[u8]) -> (r: Option<usize>)
    ensures
        match r {
            Some(j) => header_at(b@, 0) == Some(j as int) && j <= b@.len(),
            None => header_at(b@, 0) is None,
        },
{
    let i = skip_blanks(b, 0);
    let j = match read_number(b, i) {
        Some((_, j)) => j,
        None => {
            return None;
        },
    };
    let k = skip_blanks(b, j);
    if k == j {
        return None;
    }
    let l = match read_number(b, k) {
        Some((_, l)) => l,
        None => {
            return None;
        },
    };
    let m = skip_blanks(b, l);
    if m < b.len() && b[m] == 0x0a {
        Some(m + 1)
    } else {
        None
    }
}

fn separator(b: &[u8], i: usize) -> (r: Option<usize>)
    requires
        i <= b@.len(),
    ensures
        match r {
            Some(j) => separator_at(b@, i as int) == Some(j as int) && j <= b@.len(),
            None => separator_at(b@, i as int) is None,
        },
{
    let j = skip_blanks(b, i);
    if j < b.len() && b[j] == 0x23 {
        let k = skip_blanks(b, j + 1);
        if k < b.len() && b[k] == 0x0a {
            return Some(k + 1);
        }
    }
    None
}

fn node_line(b: &[u8], i: usize) -> (r: Option<(u32, usize)>)
    requires
        i <= b@.len(),
    ensures
        match r {
            Some((id, j)) => node_at(b@, i as int) == Some((id, j as int)) && i < j <= b@.len(),
            None => node_at(b@, i as int) is None,
        },
{
    let (id, j) = match read_number(b, skip_blanks(b, i)) {
        Some(x) => x,
        None => {
            return None;
        },
    };
    let k = skip_blanks(b, j);
    let m = skip_line_content(b, k);
    if k > j && m < b.len() && b[m] == 0x0a {
        Some((id, m + 1))
    } else {
        None
    }
}

fn edge_line(b: &[u8], i: usize) -> (r: Option<((u32, u32), usize)>)
    requires
        i <= b@.len(),
    ensures
        match r {
            Some((e, j)) => edge_at(b@, i as int) == Some((e, j as int)) && i < j <= b@.len(),
            None => edge_at(b@, i as int) is None,
        },
{
    let (from, j) = match read_number(b, skip_blanks(b, i)) {
        Some(x) => x,
        None => {
            return None;
        },
    };
    let k = skip_blanks(b, j);
    if k == j {
        return None;
    }
    let (to, l) = match read_number(b, k) {
        Some(x) => x,
        None => {
            return None;
        },
    };
    let m = skip_line_content(b, l);
    if m < b.len() && b[m] == 0x0a {
        Some(((from, to), m + 1))
    } else {
        None
    }
}

/// Reads a graph from TGF text given as bytes; `None` when the text is
/// not well formed.
pub fn parse_tgf(b: &[u8]) -> (r: Option<SimpleGraph>)
    ensures
        match r {
            Some(g) => tgf_of(b@) == Some((g.nodes@, g.edges@)),
            None => tgf_of(b@) is None,
        },
{
    let i = match header(b) {
        Some(i) => i,
        None => {
            return None;
        },
    };
    let j = match separator(b, i) {
        Some(j) => j,
        None => {
            return None;
        },
    };
    let mut nodes: Vec<u32> = Vec::new();
    let mut k = j;
    let mut more = true;
    while more
        invariant
            j <= k <= b@.len(),
            nodes_from(b@, j as int) == (nodes@ + nodes_from(b@, k as int).0, nodes_from(
                b@,
                k as int,
            ).1),
            !more ==> nodes_from(b@, k as int) == (Seq::<u32>::empty(), k as int),
        decreases b@.len() - k, if more { 1int } else { 0int },
    {
        match node_line(b, k) {
            Some((id, next)) => {
                proof {
                    assert(nodes@.push(id) + nodes_from(b@, next as int).0 =~= nodes@ + (seq![id]
                        + nodes_from(b@, next as int).0));
                }
                nodes.push(id);
                k = next;
            },
            None => {
                more = false;
            },
        }
    }
    proof {
        assert(nodes@ + Seq::<u32>::empty() =~= nodes@);
    }
    let l = match separator(b, k) {
        Some(l) => l,
        None => {
            return None;
        },
    };
    let mut edges: Vec<(u32, u32)> = Vec::new();
    let mut m = l;
    let mut more = true;
    while more
        invariant
            l <= m <= b@.len(),
            edges_from(b@, l as int) == (edges@ + edges_from(b@, m as int).0, edges_from(
                b@,
                m as int,
            ).1),
            !more ==> edges_from(b@, m as int) == (Seq::<(u32, u32)>::empty(), m as int),
        decreases b@.len() - m, if more { 1int } else { 0int },
    {
        match edge_line(b, m) {
            Some((e, next)) => {
                proof {
                    assert(edges@.push(e) + edges_from(b@, next as int).0 =~= edges@ + (seq![e]
                        + edges_from(b@, next as int).0));
                }
                edges.push(e);
                m = next;
            },
            None => {
                more = false;
            },
        }
    }
    proof {
        assert(edges@ + Seq::<(u32, u32)>::empty() =~= edges@);
    }
    if m == b.len() {
        Some(SimpleGraph { nodes, edges })
    } else {
        None
    }
}

impl SimpleGraph {
    /// Reads a graph from well-formed TGF text; see [`parse_tgf`] for text
    /// that may not be well formed.
    pub fn from_tgf(tgf: &str) -> (r: Self)
        requires
            tgf_of(tgf.spec_bytes()) is Some,
        ensures
            tgf_of(tgf.spec_bytes()) == Some((r.nodes@, r.edges@)),
    {
        match parse_tgf(tgf.as_bytes()) {
            Some(g) => g,
            None => SimpleGraph { nodes: Vec::new(), edges: Vec::new() },
        }
    }
}

} // verus!
