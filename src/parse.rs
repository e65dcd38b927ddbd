use vstd::prelude::*;
use crate::digraph::Digraph;
use vstd::string::StringSliceAdditionalSpecFns;

verus! {

/// Progress of reading an edge list: edges of finished lines, numbers of
/// the current line, the number being read, and whether reading failed.
pub struct ScanState {
    pub edges: Seq<(usize, usize)>,
    pub tokens: Seq<nat>,
    pub cur: nat,
    pub in_token: bool,
    pub failed: bool,
}

pub open spec fn is_blank(c: u8) -> bool {
    c == 32 || c == 9 || c == 13
}

pub open spec fn is_digit(c: u8) -> bool {
    48 <= c <= 57
}

pub open spec fn scan_start() -> ScanState {
    ScanState { edges: Seq::empty(), tokens: Seq::empty(), cur: 0, in_token: false, failed: false }
}

/// Closes the number being read, if any.
pub open spec fn end_token(st: ScanState) -> ScanState {
    if st.in_token {
        ScanState { tokens: st.tokens.push(st.cur), cur: 0, in_token: false, ..st }
    } else {
        st
    }
}

/// Closes a line: it must hold exactly two numbers, both at least 1; they
/// name an edge between 1-based vertices.
pub open spec fn end_line(st: ScanState) -> ScanState {
    let t = end_token(st);
    if t.tokens.len() == 2 && t.tokens[0] >= 1 && t.tokens[1] >= 1 {
        ScanState {
            edges: t.edges.push(((t.tokens[0] - 1) as usize, (t.tokens[1] - 1) as usize)),
            tokens: Seq::empty(),
            ..t
        }
    } else {
        ScanState { failed: true, ..t }
    }
}

/// Reads one byte: digits build a number, blanks separate numbers, a
/// newline ends a line, anything else (or a number past `usize::MAX`) fails.
pub open spec fn scan_step(st: ScanState, c: u8) -> ScanState {
    if st.failed {
        st
    } else if is_digit(c) {
        let v = st.cur * 10 + (c - 48);
        if v > usize::MAX {
            ScanState { failed: true, ..st }
        } else {
            ScanState { cur: v as nat, in_token: true, ..st }
        }
    } else if is_blank(c) {
        end_token(st)
    } else if c == 10 {
        end_line(st)
    } else {
        ScanState { failed: true, ..st }
    }
}

pub open spec fn scan(b: Seq<u8>) -> ScanState
    decreases b.len(),
{
    if b.len() == 0 {
        scan_start()
    } else {
        scan_step(scan(b.drop_last()), b.last())
    }
}

/// The edges (0-based) that an edge list names: one line `u v` per edge,
/// 1-based; a last line may lack its newline. `None` when malformed.
pub open spec fn parse_edges(b: Seq<u8>) -> Option<Seq<(usize, usize)>> {
    let st = scan(b);
    let fin = if st.in_token || st.tokens.len() > 0 { end_line(st) } else { st };
    if fin.failed {
        None
    } else {
        Some(fin.edges)
    }
}

/// Vertex count of the graph read from `es`: at least 1, and enough for
/// every endpoint.
pub open spec fn vertex_bound(es: Seq<(usize, usize)>) -> nat
    decreases es.len(),
{
    if es.len() == 0 {
        1
    } else {
        let m = vertex_bound(es.drop_last());
        let (u, v) = es.last();
        let m1 = if u + 1 > m { (u + 1) as nat } else { m };
        if v + 1 > m1 { (v + 1) as nat } else { m1 }
    }
}

/// The heads of the edges of `es` that leave `u`, in order.
pub open spec fn targets(es: Seq<(usize, usize)>, u: int) -> Seq<usize>
    decreases es.len(),
{
    if es.len() == 0 {
        Seq::empty()
    } else if es.last().0 == u {
        targets(es.drop_last(), u).push(es.last().1)
    } else {
        targets(es.drop_last(), u)
    }
}

#[derive(Debug, Clone, Copy, PartialEq, Eq)]
pub enum ParseError {
    /// A line is not two positive integers.
    MalformedLine,
}

/// Reading state held in machine integers.
struct Scanner {
    edges: Vec<(usize, usize)>,
    tokens: Vec<usize>,
    cur: usize,
    in_token: bool,
    failed: bool,
}

impl Scanner {
    fn end_token(&mut self)
        ensures
            final(self).spec_state() == end_token(old(self).spec_state()),
    {
        if self.in_token {
            self.tokens.push(self.cur);
            self.cur = 0;
            self.in_token = false;
            assert(self.spec_state().tokens =~= old(self).spec_state().tokens.push(old(self).cur as nat));
        }
    }

    fn end_line(&mut self)
        ensures
            final(self).spec_state() == end_line(old(self).spec_state()),
    {
        self.end_token();
        if self.tokens.len() == 2 && self.tokens[0] >= 1 && self.tokens[1] >= 1 {
            self.edges.push((self.tokens[0] - 1, self.tokens[1] - 1));
            self.tokens = Vec::new();
            assert(self.spec_state().tokens =~= Seq::<nat>::empty());
        } else {
            self.failed = true;
        }
    }

    /// The state this scanner stands for.
    spec fn spec_state(&self) -> ScanState {
        ScanState {
            edges: self.edges@,
            tokens: self.tokens@.map_values(|t: usize| t as nat),
            cur: self.cur as nat,
            in_token: self.in_token,
            failed: self.failed,
        }
    }
}

/// The edges of an edge list, or `None` when a line is malformed.
pub fn parse_edge_list(b: &[u8]) -> (r: Option<Vec<(usize, usize)>>)
    ensures
        match parse_edges(b@) {
            None => r is None,
            Some(es) => r matches Some(v) && v@ == es,
        },
{
    let mut sc = Scanner { edges: Vec::new(), tokens: Vec::new(), cur: 0, in_token: false, failed: false };
    proof {
        assert(sc.spec_state().tokens =~= Seq::<nat>::empty());
    }
    let mut i: usize = 0;
    while i < b.len()
        invariant
            i <= b@.len(),
            sc.spec_state() == scan(b@.take(i as int)),
        decreases b@.len() - i,
    {
        let c = b[i];
        proof {
            assert(b@.take(i + 1).drop_last() =~= b@.take(i as int));
            assert(b@.take(i + 1).last() == c);
        }
        let ghost st = sc.spec_state();
        if sc.failed {
        } else if 48 <= c && c <= 57 {
            let d = (c - 48) as usize;
            if sc.cur > (usize::MAX - d) / 10 {
                sc.failed = true;
                proof {
                    assert(sc.cur * 10 + d > usize::MAX) by (nonlinear_arith)
                        requires sc.cur > (usize::MAX - d) / 10;
                    assert(sc.spec_state() =~= scan_step(st, c));
                }
            } else {
                proof {
                    assert(sc.cur * 10 + d <= usize::MAX) by (nonlinear_arith)
                        requires sc.cur <= (usize::MAX - d) / 10;
                }
                sc.cur = sc.cur * 10 + d;
                sc.in_token = true;
                proof {
                    assert(sc.spec_state() =~= scan_step(st, c));
                }
            }
        } else if c == 32 || c == 9 || c == 13 {
            sc.end_token();
        } else if c == 10 {
            sc.end_line();
        } else {
            sc.failed = true;
            proof {
                assert(sc.spec_state() =~= scan_step(st, c));
            }
        }
        i = i + 1;
    }
    proof {
        assert(b@.take(i as int) =~= b@);
    }
    if sc.in_token || sc.tokens.len() > 0 {
        sc.end_line();
    }
    if sc.failed {
        None
    } else {
        Some(sc.edges)
    }
}

spec fn bounded(st: ScanState) -> bool {
    &&& st.cur <= usize::MAX
    &&& forall|i: int| 0 <= i < st.tokens.len() ==> #[trigger] st.tokens[i] <= usize::MAX
    &&& forall|k: int| 0 <= k < st.edges.len() ==> #[trigger] st.edges[k].0 < usize::MAX && st.edges[k].1 < usize::MAX
}

proof fn lemma_end_line_bounded(st: ScanState)
    requires
        bounded(st),
    ensures
        bounded(end_line(st)),
{
    let t = end_token(st);
    assert(bounded(t));
    if t.tokens.len() == 2 && t.tokens[0] >= 1 && t.tokens[1] >= 1 {
        let e = end_line(st).edges;
        assert forall|k: int| 0 <= k < e.len() implies #[trigger] e[k].0 < usize::MAX && e[k].1 < usize::MAX by {
            if k < t.edges.len() {
                assert(e[k] == t.edges[k]);
            }
        }
    }
}

/// Every edge read names vertices below `usize::MAX`.
proof fn lemma_scan_bounded(b: Seq<u8>)
    ensures
        bounded(scan(b)),
        parse_edges(b) matches Some(es) ==> forall|k: int| 0 <= k < es.len() ==> #[trigger] es[k].0 < usize::MAX && es[k].1 < usize::MAX,
    decreases b.len(),
{
    if b.len() > 0 {
        lemma_scan_bounded(b.drop_last());
        let st = scan(b.drop_last());
        let c = b.last();
        if !st.failed && !is_digit(c) && !is_blank(c) && c == 10 {
            lemma_end_line_bounded(st);
        }
        if !st.failed && is_blank(c) {
            assert(bounded(end_token(st)));
        }
    }
    let st = scan(b);
    if st.in_token || st.tokens.len() > 0 {
        lemma_end_line_bounded(st);
    }
}

proof fn lemma_targets_beyond(es: Seq<(usize, usize)>, u: int)
    requires
        u >= vertex_bound(es),
    ensures
        targets(es, u) == Seq::<usize>::empty(),
    decreases es.len(),
{
    if es.len() > 0 {
        lemma_targets_beyond(es.drop_last(), u);
    }
}

proof fn lemma_vertex_bound_grows(es: Seq<(usize, usize)>)
    ensures
        vertex_bound(es) >= 1,
    decreases es.len(),
{
    if es.len() > 0 {
        lemma_vertex_bound_grows(es.drop_last());
    }
}

/// The graph whose edges are `es`, added in order, on just enough vertices
/// (at least one).
fn build_graph(es: &Vec<(usize, usize)>) -> (g: Digraph)
    requires
        forall|k: int| 0 <= k < es@.len() ==> #[trigger] es@[k].0 < usize::MAX && es@[k].1 < usize::MAX,
    ensures
        g.wf(),
        g.vertex_count() == vertex_bound(es@),
        g.edge_count() == es@.len(),
        forall|u: int| 0 <= u < g.vertex_count() ==> #[trigger] g.adj_view()[u] == targets(es@, u),
{
    let mut g = Digraph::new(1);
    let mut k: usize = 0;
    proof {
        assert(es@.take(0) =~= Seq::<(usize, usize)>::empty());
    }
    while k < es.len()
        invariant
            k <= es@.len(),
            forall|k: int| 0 <= k < es@.len() ==> #[trigger] es@[k].0 < usize::MAX && es@[k].1 < usize::MAX,
            g.wf(),
            g.vertex_count() == vertex_bound(es@.take(k as int)),
            g.edge_count() == k,
            forall|u: int| 0 <= u < g.vertex_count() ==> #[trigger] g.adj_view()[u] == targets(es@.take(k as int), u),
        decreases es@.len() - k,
    {
        let (u, v) = es[k];
        assert(es@[k as int].0 < usize::MAX && es@[k as int].1 < usize::MAX);
        let ghost pre = es@.take(k as int);
        let ghost post = es@.take(k + 1);
        proof {
            assert(post.drop_last() =~= pre);
            assert(post.last() == (u, v));
            g.lemma_neighbors();
        }
        if u >= g.v() {
            g.resize(u + 1);
        }
        if v >= g.v() {
            g.resize(v + 1);
        }
        proof {
            assert forall|x: int| 0 <= x < g.vertex_count() implies #[trigger] g.adj_view()[x] == targets(pre, x) by {
                if x >= vertex_bound(pre) {
                    lemma_targets_beyond(pre, x);
                }
            }
        }
        g.add_edge(u, v);
        k = k + 1;
        proof {
            assert forall|x: int| 0 <= x < g.vertex_count() implies #[trigger] g.adj_view()[x] == targets(post, x) by {}
        }
    }
    proof {
        assert(es@.take(k as int) =~= es@);
    }
    g
}

/// Reads a digraph from an edge list: one line `u v` of 1-based vertices
/// per edge. The graph has enough vertices for every endpoint, and at
/// least one.
pub fn read_graph_from_string(s: &str) -> (r: Result<Digraph, ParseError>)
    ensures
        match parse_edges(s.spec_bytes()) {
            None => r is Err,
            Some(es) => r matches Ok(g) && g.wf() && g.vertex_count() == vertex_bound(es) && g.edge_count() == es.len() && forall|u: int|
                0 <= u < g.vertex_count() ==> #[trigger] g.adj_view()[u] == targets(es, u),
        },
{
    proof {
        lemma_scan_bounded(s.spec_bytes());
    }
    match parse_edge_list(s.as_bytes()) {
        None => Err(ParseError::MalformedLine),
        Some(es) => Ok(build_graph(&es)),
    }
}

} // verus!

verus! {

/// Progress of reading lines of signed integers.
pub struct IntScan {
    pub lines: Seq<Seq<int>>,
    pub tokens: Seq<int>,
    pub cur: nat,
    pub neg: bool,
    pub in_token: bool,
    pub has_digit: bool,
    pub failed: bool,
}

pub open spec fn int_start() -> IntScan {
    IntScan {
        lines: Seq::empty(),
        tokens: Seq::empty(),
        cur: 0,
        neg: false,
        in_token: false,
        has_digit: false,
        failed: false,
    }
}

/// Closes the number being read, if any; a lone minus sign fails.
pub open spec fn int_end_token(st: IntScan) -> IntScan {
    if !st.in_token {
        st
    } else if !st.has_digit {
        IntScan { failed: true, ..st }
    } else {
        IntScan {
            tokens: st.tokens.push(if st.neg { -st.cur } else { st.cur as int }),
            cur: 0,
            neg: false,
            in_token: false,
            has_digit: false,
            ..st
        }
    }
}

/// Closes a line, which must hold at least one number.
pub open spec fn int_end_line(st: IntScan) -> IntScan {
    let t = int_end_token(st);
    if t.failed || t.tokens.len() == 0 {
        IntScan { failed: true, ..t }
    } else {
        IntScan { lines: t.lines.push(t.tokens), tokens: Seq::empty(), ..t }
    }
}

/// Reads one byte: an optional minus sign and digits make a number that
/// fits in `i64`, blanks separate numbers, a newline ends a line.
pub open spec fn int_step(st: IntScan, c: u8) -> IntScan {
    if st.failed {
        st
    } else if c == 45 {
        if st.in_token {
            IntScan { failed: true, ..st }
        } else {
            IntScan { neg: true, in_token: true, has_digit: false, cur: 0, ..st }
        }
    } else if is_digit(c) {
        let v = st.cur * 10 + (c - 48);
        if v > (if st.neg { 0x8000_0000_0000_0000int } else { 0x7fff_ffff_ffff_ffffint }) {
            IntScan { failed: true, ..st }
        } else {
            IntScan { cur: v as nat, in_token: true, has_digit: true, ..st }
        }
    } else if is_blank(c) {
        int_end_token(st)
    } else if c == 10 {
        int_end_line(st)
    } else {
        IntScan { failed: true, ..st }
    }
}

pub open spec fn int_scan(b: Seq<u8>) -> IntScan
    decreases b.len(),
{
    if b.len() == 0 {
        int_start()
    } else {
        int_step(int_scan(b.drop_last()), b.last())
    }
}

/// The lines of integers of a text; `None` when malformed.
pub open spec fn parse_int_lines(b: Seq<u8>) -> Option<Seq<Seq<int>>> {
    let st = int_scan(b);
    let fin = if st.in_token || st.tokens.len() > 0 { int_end_line(st) } else { st };
    if fin.failed {
        None
    } else {
        Some(fin.lines)
    }
}

/// A line `u v w` naming an edge between 1-based vertices of `0 .. n`.
pub open spec fn edge_line_ok(l: Seq<int>, n: int) -> bool {
    l.len() == 3 && 1 <= l[0] <= n && 1 <= l[1] <= n
}

/// A weighted edge list: a header `V E` (E is not checked), then one line
/// `u v w` per edge with 1-based vertices; the vertex count and the
/// 0-based edges.
pub open spec fn parse_weighted(b: Seq<u8>) -> Option<(nat, Seq<(usize, usize, i64)>)> {
    match parse_int_lines(b) {
        None => None,
        Some(lines) => {
            if lines.len() >= 1 && lines[0].len() == 2 && 0 <= lines[0][0] < usize::MAX && 0 <= lines[0][1]
                && forall|k: int| 1 <= k < lines.len() ==> #[trigger] edge_line_ok(lines[k], lines[0][0]) {
                Some(
                    (
                        lines[0][0] as nat,
                        Seq::new(
                            (lines.len() - 1) as nat,
                            |k: int|
                                (
                                    (lines[k + 1][0] - 1) as usize,
                                    (lines[k + 1][1] - 1) as usize,
                                    lines[k + 1][2] as i64,
                                ),
                        ),
                    ),
                )
            } else {
                None
            }
        },
    }
}

/// The lists of a graph on `n` vertices after adding `es` in order.
pub open spec fn weighted_adj(n: nat, es: Seq<(usize, usize, i64)>) -> Seq<Seq<crate::mst::Edge>>
    decreases es.len(),
{
    if es.len() == 0 {
        Seq::new(n, |i: int| Seq::<crate::mst::Edge>::empty())
    } else {
        let (u, v, w) = es.last();
        crate::mst::with_edge(weighted_adj(n, es.drop_last()), crate::mst::Edge::spec_new(u, v, w))
    }
}

} // verus!

verus! {

struct IntScanner {
    lines: Vec<Vec<i64>>,
    tokens: Vec<i64>,
    cur: u64,
    neg: bool,
    in_token: bool,
    has_digit: bool,
    failed: bool,
}

spec fn ints(v: Seq<i64>) -> Seq<int> {
    v.map_values(|x: i64| x as int)
}

impl IntScanner {
    spec fn spec_state(&self) -> IntScan {
        IntScan {
            lines: self.lines@.map_values(|l: Vec<i64>| ints(l@)),
            tokens: ints(self.tokens@),
            cur: self.cur as nat,
            neg: self.neg,
            in_token: self.in_token,
            has_digit: self.has_digit,
            failed: self.failed,
        }
    }

    spec fn bounded(&self) -> bool {
        self.cur <= 0x8000_0000_0000_0000 && (!self.neg ==> self.cur <= 0x7fff_ffff_ffff_ffff)
    }

    fn end_token(&mut self)
        requires
            old(self).bounded(),
        ensures
            final(self).spec_state() == int_end_token(old(self).spec_state()),
            final(self).bounded(),
    {
        if self.in_token {
            if !self.has_digit {
                self.failed = true;
            } else {
                let v: i64 = if self.neg {
                    if self.cur == 0x8000_0000_0000_0000 {
                        i64::MIN
                    } else {
                        -(self.cur as i64)
                    }
                } else {
                    self.cur as i64
                };
                self.tokens.push(v);
                self.cur = 0;
                self.neg = false;
                self.in_token = false;
                self.has_digit = false;
                assert(ints(self.tokens@) =~= ints(old(self).tokens@).push(
                    if old(self).neg { -(old(self).cur as int) } else { old(self).cur as int },
                ));
            }
        }
    }

    fn end_line(&mut self)
        requires
            old(self).bounded(),
        ensures
            final(self).spec_state() == int_end_line(old(self).spec_state()),
            final(self).bounded(),
    {
        self.end_token();
        if self.failed || self.tokens.len() == 0 {
            self.failed = true;
        } else {
            let t = self.tokens.clone();
            proof {
                assert(t@ =~= self.tokens@);
            }
            self.tokens = Vec::new();
            let ghost l0 = self.lines@;
            self.lines.push(t);
            assert(ints(self.tokens@) =~= Seq::<int>::empty());
            assert(self.lines@.map_values(|l: Vec<i64>| ints(l@)) =~= l0.map_values(|l: Vec<i64>| ints(l@)).push(ints(t@)));
        }
    }
}

/// The lines of integers of a text, or `None` when malformed.
fn parse_int_line_list(b: &[u8]) -> (r: Option<Vec<Vec<i64>>>)
    ensures
        match parse_int_lines(b@) {
            None => r is None,
            Some(ls) => r matches Some(v) && v@.map_values(|l: Vec<i64>| ints(l@)) == ls,
        },
{
    let mut sc = IntScanner {
        lines: Vec::new(),
        tokens: Vec::new(),
        cur: 0,
        neg: false,
        in_token: false,
        has_digit: false,
        failed: false,
    };
    proof {
        assert(sc.spec_state().tokens =~= Seq::<int>::empty());
        assert(sc.spec_state().lines =~= Seq::<Seq<int>>::empty());
    }
    let mut i: usize = 0;
    while i < b.len()
        invariant
            i <= b@.len(),
            sc.spec_state() == int_scan(b@.take(i as int)),
            sc.bounded(),
        decreases b@.len() - i,
    {
        let c = b[i];
        proof {
            assert(b@.take(i + 1).drop_last() =~= b@.take(i as int));
            assert(b@.take(i + 1).last() == c);
        }
        let ghost st = sc.spec_state();
        if sc.failed {
        } else if c == 45 {
            if sc.in_token {
                sc.failed = true;
            } else {
                sc.neg = true;
                sc.in_token = true;
                sc.has_digit = false;
                sc.cur = 0;
            }
            assert(sc.spec_state() =~= int_step(st, c));
        } else if 48 <= c && c <= 57 {
            let d = (c - 48) as u64;
            let limit: u64 = if sc.neg { 0x8000_0000_0000_0000 } else { 0x7fff_ffff_ffff_ffff };
            if sc.cur > (limit - d) / 10 {
                sc.failed = true;
                proof {
                    assert(sc.cur * 10 + d > limit) by (nonlinear_arith)
                        requires sc.cur > (limit - d) / 10, d <= 9, limit >= 9;
                }
            } else {
                proof {
                    assert(sc.cur * 10 + d <= limit) by (nonlinear_arith)
                        requires sc.cur <= (limit - d) / 10, d <= 9, limit >= 9;
                }
                sc.cur = sc.cur * 10 + d;
                sc.in_token = true;
                sc.has_digit = true;
            }
            assert(sc.spec_state() =~= int_step(st, c));
        } else if c == 32 || c == 9 || c == 13 {
            sc.end_token();
        } else if c == 10 {
            sc.end_line();
        } else {
            sc.failed = true;
            assert(sc.spec_state() =~= int_step(st, c));
        }
        i = i + 1;
    }
    proof {
        assert(b@.take(i as int) =~= b@);
    }
    if sc.in_token || sc.tokens.len() > 0 {
        sc.end_line();
    }
    if sc.failed {
        None
    } else {
        Some(sc.lines)
    }
}

} // verus!

verus! {

/// Reads an undirected weighted graph: a header line `V E`, then one line
/// `u v w` per edge with 1-based vertices. `E` is informational only.
pub fn read_weighted_graph_from_string(s: &str) -> (r: Result<crate::mst::EdgeWeightedGraph, ParseError>)
    ensures
        match parse_weighted(s.spec_bytes()) {
            None => r is Err,
            Some((n, es)) => r matches Ok(g) && g.wf() && g.vertex_count() == n && g.edge_count() == es.len() && g.adj_view() == weighted_adj(n, es),
        },
{
    let lines = match parse_int_line_list(s.as_bytes()) {
        None => return Err(ParseError::MalformedLine),
        Some(l) => l,
    };
    let ghost ls = lines@.map_values(|l: Vec<i64>| ints(l@));
    if lines.len() < 1 || lines[0].len() != 2 || lines[0][0] < 0 || lines[0][1] < 0 {
        proof {
            if lines@.len() >= 1 {
                assert(ls[0] == ints(lines@[0]@));
            }
        }
        return Err(ParseError::MalformedLine);
    }
    proof {
        assert(ls[0] == ints(lines@[0]@));
    }
    let n64 = lines[0][0];
    if n64 as u64 >= usize::MAX as u64 {
        return Err(ParseError::MalformedLine);
    }
    let n = n64 as usize;
    let mut k: usize = 1;
    while k < lines.len()
        invariant
            1 <= k <= lines@.len(),
            ls == lines@.map_values(|l: Vec<i64>| ints(l@)),
            parse_int_lines(s.spec_bytes()) == Some(ls),
            ls[0].len() == 2,
            0 <= ls[0][1],
            n < usize::MAX,
            n == ls[0][0],
            forall|j: int| 1 <= j < k ==> #[trigger] edge_line_ok(ls[j], n as int),
        decreases lines@.len() - k,
    {
        let l = &lines[k];
        proof {
            assert(ls[k as int] == ints(l@));
        }
        if l.len() != 3 || l[0] < 1 || l[1] < 1 || l[0] as u64 > n as u64 || l[1] as u64 > n as u64 {
            proof {
                assert(ints(l@).len() == l@.len());
                if l@.len() == 3 {
                    assert(ints(l@)[0] == l@[0] as int);
                    assert(ints(l@)[1] == l@[1] as int);
                }
                assert(!edge_line_ok(ls[k as int], ls[0][0]));
            }
            return Err(ParseError::MalformedLine);
        }
        k = k + 1;
    }
    let ghost es = Seq::new(
        (ls.len() - 1) as nat,
        |j: int| ((ls[j + 1][0] - 1) as usize, (ls[j + 1][1] - 1) as usize, ls[j + 1][2] as i64),
    );
    let mut g = crate::mst::EdgeWeightedGraph::new(n);
    proof {
        assert(g.adj_view() == weighted_adj(n as nat, es.take(0)));
    }
    let mut k: usize = 1;
    while k < lines.len()
        invariant
            1 <= k <= lines@.len(),
            ls == lines@.map_values(|l: Vec<i64>| ints(l@)),
            parse_int_lines(s.spec_bytes()) == Some(ls),
            ls[0].len() == 2,
            0 <= ls[0][1],
            n < usize::MAX,
            n == ls[0][0],
            forall|j: int| 1 <= j < lines@.len() ==> #[trigger] edge_line_ok(ls[j], n as int),
            es.len() == lines@.len() - 1,
            forall|j: int| 0 <= j < es.len() ==> #[trigger] es[j] == ((ls[j + 1][0] - 1) as usize, (ls[j + 1][1] - 1) as usize, ls[j + 1][2] as i64),
            g.wf(),
            g.vertex_count() == n,
            g.edge_count() == k - 1,
            g.adj_view() == weighted_adj(n as nat, es.take(k - 1)),
        decreases lines@.len() - k,
    {
        let l = &lines[k];
        proof {
            assert(ls[k as int] == ints(l@));
            assert(edge_line_ok(ls[k as int], n as int));
        }
        let u = (l[0] - 1) as usize;
        let v = (l[1] - 1) as usize;
        let e = crate::mst::Edge::new(u, v, l[2]);
        proof {
            assert(es[k - 1] == (u, v, l@[2]));
            assert(es.take(k as int).drop_last() =~= es.take(k - 1));
        }
        g.add_edge(e);
        k = k + 1;
    }
    proof {
        assert(es.take(k - 1) =~= es);
    }
    Ok(g)
}

} // verus!
