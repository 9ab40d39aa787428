//! Reading a graph from the lines of an edge list: white-space separated
//! decimal node numbers, one edge per line.

use vstd::prelude::*;
use crate::graph::{graph_of, well_formed};

verus! {

/// What a line of an edge list amounts to.
#[derive(Clone, Copy, Debug, PartialEq, Eq)]
pub enum LineOutcome {
    /// Exactly two numbers: an edge from the first node to the second.
    Edge(usize, usize),
    /// Every token is a number, but there are not exactly two: no edge.
    Skipped,
    /// Some token is not a number that fits the machine's integers.
    Invalid,
}

/// Why an edge list gives no graph.
#[derive(Clone, Copy, Debug, PartialEq, Eq)]
pub enum LoadError {
    /// Some line holds a token that is not a number.
    InvalidToken,
    /// A node number is so large that the number of nodes does not fit.
    TooManyNodes,
}

/// Space, tab, line feed, vertical tab, form feed or carriage return.
pub open spec fn is_space(b: u8) -> bool {
    b == 32 || (9 <= b && b <= 13)
}

/// A decimal digit.
pub open spec fn is_digit(b: u8) -> bool {
    48 <= b && b <= 57
}

/// The value of the digit `b`, zero where it is none.
pub open spec fn digit_value(b: u8) -> nat {
    if is_digit(b) {
        (b - 48) as nat
    } else {
        0
    }
}

/// Every byte of `s` is a decimal digit.
pub open spec fn all_digits(s: Seq<u8>) -> bool {
    forall|k: int| 0 <= k < s.len() ==> is_digit(#[trigger] s[k])
}

/// The number that the digits `s` write in base ten.
pub open spec fn digits_value(s: Seq<u8>) -> nat
    decreases s.len(),
{
    if s.len() == 0 {
        0
    } else {
        digits_value(s.drop_last()) * 10 + digit_value(s.last())
    }
}

/// The token without a leading plus sign.
pub open spec fn unsigned_part(token: Seq<u8>) -> Seq<u8> {
    if token.len() > 0 && token[0] == 43 {
        token.skip(1)
    } else {
        token
    }
}

/// The number that `token` writes: one or more decimal digits, after an
/// optional plus sign, whose value fits the machine's integers.
pub open spec fn number_of(token: Seq<u8>) -> Option<usize> {
    let body = unsigned_part(token);
    if body.len() > 0 && all_digits(body) && digits_value(body) <= usize::MAX {
        Some(digits_value(body) as usize)
    } else {
        None
    }
}

/// The maximal runs of bytes of `s` that are no white space, in order.
pub open spec fn tokens(s: Seq<u8>) -> Seq<Seq<u8>>
    decreases s.len(),
{
    if s.len() == 0 {
        Seq::empty()
    } else {
        let before = tokens(s.drop_last());
        if is_space(s.last()) {
            before
        } else if s.len() >= 2 && !is_space(s[s.len() - 2]) {
            before.drop_last().push(before.last().push(s.last()))
        } else {
            before.push(seq![s.last()])
        }
    }
}

/// Every one of `toks` writes a number.
pub open spec fn all_numbers(toks: Seq<Seq<u8>>) -> bool {
    forall|k: int| 0 <= k < toks.len() ==> number_of(#[trigger] toks[k]).is_some()
}

/// What `line` amounts to.
pub open spec fn line_outcome(line: Seq<u8>) -> LineOutcome {
    let toks = tokens(line);
    if !all_numbers(toks) {
        LineOutcome::Invalid
    } else if toks.len() == 2 {
        LineOutcome::Edge(number_of(toks[0]).unwrap(), number_of(toks[1]).unwrap())
    } else {
        LineOutcome::Skipped
    }
}

/// The edges that `lines` hold, in order, or `None` where a line is invalid.
pub open spec fn edges_of(lines: Seq<Seq<u8>>) -> Option<Seq<(usize, usize)>>
    decreases lines.len(),
{
    if lines.len() == 0 {
        Some(Seq::empty())
    } else {
        match edges_of(lines.drop_last()) {
            None => None,
            Some(edges) => match line_outcome(lines.last()) {
                LineOutcome::Invalid => None,
                LineOutcome::Skipped => Some(edges),
                LineOutcome::Edge(from, to) => Some(edges.push((from, to))),
            },
        }
    }
}

/// The largest node number that `edges` name, zero where there is none.
pub open spec fn max_node(edges: Seq<(usize, usize)>) -> nat
    decreases edges.len(),
{
    if edges.len() == 0 {
        0
    } else {
        let rest = max_node(edges.drop_last());
        let (from, to) = edges.last();
        let larger = if from >= to { from as nat } else { to as nat };
        if rest >= larger { rest } else { larger }
    }
}

/// The targets of the edges that leave `u`, in the order of `edges`.
pub open spec fn targets(edges: Seq<(usize, usize)>, u: int) -> Seq<usize>
    decreases edges.len(),
{
    if edges.len() == 0 {
        Seq::empty()
    } else if edges.last().0 == u {
        targets(edges.drop_last(), u).push(edges.last().1)
    } else {
        targets(edges.drop_last(), u)
    }
}

/// `g` is the graph of `edges`: its nodes run up to the largest number
/// named, and each node's list holds the targets of its edges in order.
pub open spec fn is_graph_of(g: Seq<Seq<usize>>, edges: Seq<(usize, usize)>) -> bool {
    &&& g.len() == max_node(edges) + 1
    &&& forall|u: int| 0 <= u < g.len() ==> #[trigger] g[u] == targets(edges, u)
}

/// The rows of `rows` as sequences of bytes.
pub open spec fn rows_of(rows: &Vec<Vec<u8>>) -> Seq<Seq<u8>> {
    Seq::new(rows@.len(), |k: int| rows@[k]@)
}

/// Digits written behind a number do not make it smaller.
proof fn lemma_value_grows(s: Seq<u8>, upto: int)
    requires
        0 <= upto <= s.len(),
    ensures
        digits_value(s.take(upto)) <= digits_value(s),
    decreases s.len(),
{
    if upto == s.len() {
        assert(s.take(upto) =~= s);
    } else {
        assert(s.drop_last().take(upto) =~= s.take(upto));
        lemma_value_grows(s.drop_last(), upto);
    }
}

/// No edge names a node above the largest.
proof fn lemma_max_node_bounds(edges: Seq<(usize, usize)>, k: int)
    requires
        0 <= k < edges.len(),
    ensures
        edges[k].0 <= max_node(edges),
        edges[k].1 <= max_node(edges),
    decreases edges.len(),
{
    if k < edges.len() - 1 {
        lemma_max_node_bounds(edges.drop_last(), k);
    }
}

/// Every target of an edge is at most the largest node.
proof fn lemma_targets_bounded(edges: Seq<(usize, usize)>, u: int, j: int)
    requires
        0 <= j < targets(edges, u).len(),
    ensures
        targets(edges, u)[j] <= max_node(edges),
    decreases edges.len(),
{
    if edges.len() > 0 {
        let rest = edges.drop_last();
        if edges.last().0 == u && j == targets(rest, u).len() {
            lemma_max_node_bounds(edges, edges.len() - 1);
        } else {
            lemma_targets_bounded(rest, u, j);
        }
    }
}

/// The number that `token` writes, if it writes one.
pub fn parse_number(token: &Vec<u8>) -> (value: Option<usize>)
    ensures
        value == number_of(token@),
{
    let start: usize = if token.len() > 0 && token[0] == 43 { 1 } else { 0 };
    let ghost body = unsigned_part(token@);
    if start == token.len() {
        return None;
    }
    let mut acc: usize = 0;
    let mut i: usize = start;
    while i < token.len()
        invariant
            start <= i <= token@.len(),
            body == token@.skip(start as int),
            body == unsigned_part(token@),
            all_digits(body.take(i - start)),
            acc == digits_value(body.take(i - start)),
        decreases token@.len() - i,
    {
        let b: u8 = token[i];
        let ghost seen = body.take(i - start);
        proof {
            assert(body[i - start] == b);
            assert(body.take(i - start + 1).drop_last() =~= seen);
        }
        if b < 48 || b > 57 {
            assert(!is_digit(body[i - start]));
            return None;
        }
        let digit: usize = (b - 48) as usize;
        if acc > (usize::MAX - digit) / 10 {
            proof {
                let longer = body.take(i - start + 1);
                assert(longer.last() == b);
                assert(digits_value(longer) == acc * 10 + digit);
                lemma_value_grows(body, i - start + 1);
            }
            return None;
        }
        acc = acc * 10 + digit;
        i = i + 1;
    }
    proof {
        assert(body.take(i - start) =~= body);
    }
    Some(acc)
}

/// The tokens of `line`.
pub fn split_tokens(line: &Vec<u8>) -> (toks: Vec<Vec<u8>>)
    ensures
        rows_of(&toks) == tokens(line@),
{
    let mut toks: Vec<Vec<u8>> = Vec::new();
    let mut i: usize = 0;
    let mut in_token: bool = false;
    proof {
        assert(line@.take(0).len() == 0);
        assert(rows_of(&toks) =~= tokens(line@.take(0)));
    }
    while i < line.len()
        invariant
            i <= line@.len(),
            rows_of(&toks) == tokens(line@.take(i as int)),
            in_token == (i > 0 && !is_space(line@[i - 1])),
            in_token ==> toks@.len() > 0,
        decreases line@.len() - i,
    {
        let b: u8 = line[i];
        let ghost before = rows_of(&toks);
        let ghost prefix = line@.take(i + 1);
        proof {
            assert(prefix.drop_last() =~= line@.take(i as int));
            assert(prefix.last() == b);
            if i > 0 {
                assert(prefix[prefix.len() - 2] == line@[i - 1]);
            }
        }
        if b == 32 || (9 <= b && b <= 13) {
            in_token = false;
        } else if in_token {
            let last: usize = toks.len() - 1;
            toks[last].push(b);
            proof {
                assert(rows_of(&toks) =~= before.drop_last().push(before.last().push(b)));
            }
        } else {
            let mut token: Vec<u8> = Vec::new();
            token.push(b);
            toks.push(token);
            in_token = true;
            proof {
                assert(rows_of(&toks) =~= before.push(seq![b]));
            }
        }
        i = i + 1;
    }
    proof {
        assert(line@.take(i as int) =~= line@);
    }
    toks
}

/// What `line` amounts to: an edge, nothing, or an error.
pub fn parse_line(line: &Vec<u8>) -> (outcome: LineOutcome)
    ensures
        outcome == line_outcome(line@),
{
    let toks = split_tokens(line);
    let mut numbers: Vec<usize> = Vec::new();
    let mut k: usize = 0;
    while k < toks.len()
        invariant
            k <= toks@.len(),
            rows_of(&toks) == tokens(line@),
            numbers@.len() == k,
            forall|m: int| 0 <= m < k ==> number_of(#[trigger] tokens(line@)[m]) == Some(numbers@[m]),
        decreases toks@.len() - k,
    {
        assert(rows_of(&toks)[k as int] == toks@[k as int]@);
        match parse_number(&toks[k]) {
            Some(value) => {
                numbers.push(value);
            },
            None => {
                return LineOutcome::Invalid;
            },
        }
        k = k + 1;
    }
    assert(rows_of(&toks).len() == toks@.len());
    if numbers.len() == 2 {
        LineOutcome::Edge(numbers[0], numbers[1])
    } else {
        LineOutcome::Skipped
    }
}

/// The graph of `edges`, unless the number of its nodes does not fit.
pub fn build_graph(edges: &Vec<(usize, usize)>) -> (built: Option<Vec<Vec<usize>>>)
    ensures
        built.is_some() <==> max_node(edges@) < usize::MAX,
        match built {
            Some(adj_list) => is_graph_of(graph_of(&adj_list), edges@) && well_formed(graph_of(&adj_list)),
            None => true,
        },
{
    let mut largest: usize = 0;
    let mut k: usize = 0;
    proof {
        assert(edges@.take(0).len() == 0);
    }
    while k < edges.len()
        invariant
            k <= edges@.len(),
            largest == max_node(edges@.take(k as int)),
        decreases edges@.len() - k,
    {
        proof {
            assert(edges@.take(k + 1).drop_last() =~= edges@.take(k as int));
        }
        let (from, to) = edges[k];
        let larger: usize = if from >= to { from } else { to };
        if larger > largest {
            largest = larger;
        }
        k = k + 1;
    }
    proof {
        assert(edges@.take(k as int) =~= edges@);
    }
    if largest == usize::MAX {
        return None;
    }
    let n: usize = largest + 1;
    let mut adj_list: Vec<Vec<usize>> = Vec::new();
    let mut u: usize = 0;
    while u < n
        invariant
            u <= n,
            adj_list@.len() == u,
            forall|v: int| 0 <= v < u ==> (#[trigger] adj_list@[v])@.len() == 0,
        decreases n - u,
    {
        adj_list.push(Vec::new());
        u = u + 1;
    }
    let mut k: usize = 0;
    proof {
        assert forall|v: int| 0 <= v < n implies #[trigger] graph_of(&adj_list)[v] == targets(edges@.take(0), v) by {
            assert(adj_list@[v]@.len() == 0);
            assert(graph_of(&adj_list)[v] =~= Seq::empty());
        }
    }
    while k < edges.len()
        invariant
            k <= edges@.len(),
            n == max_node(edges@) + 1,
            adj_list@.len() == n,
            forall|v: int| 0 <= v < n ==> #[trigger] graph_of(&adj_list)[v] == targets(edges@.take(k as int), v),
        decreases edges@.len() - k,
    {
        let (from, to) = edges[k];
        let ghost before = graph_of(&adj_list);
        proof {
            lemma_max_node_bounds(edges@, k as int);
            assert(edges@.take(k + 1).drop_last() =~= edges@.take(k as int));
        }
        adj_list[from].push(to);
        proof {
            let after = graph_of(&adj_list);
            assert(after =~= before.update(from as int, before[from as int].push(to)));
            assert forall|v: int| 0 <= v < n implies #[trigger] after[v] == targets(edges@.take(k + 1), v) by {
                assert(before[v] == targets(edges@.take(k as int), v));
            }
        }
        k = k + 1;
    }
    proof {
        assert(edges@.take(k as int) =~= edges@);
        let g = graph_of(&adj_list);
        assert forall|v: int, j: int| 0 <= v < g.len() && 0 <= j < g[v].len() implies (#[trigger] g[v][j]) < g.len() by {
            assert(g[v] == targets(edges@, v));
            lemma_targets_bounded(edges@, v, j);
        }
    }
    Some(adj_list)
}

/// What `read_graph` returns on `lines`.
pub open spec fn load_result(lines: Seq<Seq<u8>>, loaded: Result<Seq<Seq<usize>>, LoadError>) -> bool {
    match edges_of(lines) {
        None => loaded == Err::<Seq<Seq<usize>>, LoadError>(LoadError::InvalidToken),
        Some(edges) => if max_node(edges) < usize::MAX {
            loaded.is_ok() && is_graph_of(loaded.unwrap(), edges) && well_formed(loaded.unwrap())
        } else {
            loaded == Err::<Seq<Seq<usize>>, LoadError>(LoadError::TooManyNodes)
        },
    }
}

/// The graph that the lines of an edge list describe. A line with exactly
/// two numbers is an edge; a line with another count of numbers is passed
/// over; a token that is no number makes the whole list invalid.
pub fn read_graph(lines: &Vec<Vec<u8>>) -> (loaded: Result<Vec<Vec<usize>>, LoadError>)
    ensures
        load_result(
            rows_of(lines),
            match loaded {
                Ok(adj_list) => Ok(graph_of(&adj_list)),
                Err(e) => Err(e),
            },
        ),
{
    let mut edges: Vec<(usize, usize)> = Vec::new();
    let mut k: usize = 0;
    proof {
        assert(rows_of(lines).take(0).len() == 0);
    }
    while k < lines.len()
        invariant
            k <= lines@.len(),
            edges_of(rows_of(lines).take(k as int)) == Some(edges@),
        decreases lines@.len() - k,
    {
        proof {
            assert(rows_of(lines).take(k + 1).drop_last() =~= rows_of(lines).take(k as int));
            assert(rows_of(lines).take(k + 1).last() == lines@[k as int]@);
        }
        match parse_line(&lines[k]) {
            LineOutcome::Edge(from, to) => {
                edges.push((from, to));
            },
            LineOutcome::Skipped => {},
            LineOutcome::Invalid => {
                proof {
                    lemma_invalid_line_stays(rows_of(lines), k + 1);
                }
                return Err(LoadError::InvalidToken);
            },
        }
        k = k + 1;
    }
    proof {
        assert(rows_of(lines).take(k as int) =~= rows_of(lines));
    }
    match build_graph(&edges) {
        Some(adj_list) => Ok(adj_list),
        None => Err(LoadError::TooManyNodes),
    }
}

/// Once a prefix of the lines is invalid, so is the whole.
proof fn lemma_invalid_line_stays(lines: Seq<Seq<u8>>, upto: int)
    requires
        0 <= upto <= lines.len(),
        edges_of(lines.take(upto)).is_none(),
    ensures
        edges_of(lines).is_none(),
    decreases lines.len(),
{
    if upto == lines.len() {
        assert(lines.take(upto) =~= lines);
    } else {
        assert(lines.drop_last().take(upto) =~= lines.take(upto));
        lemma_invalid_line_stays(lines.drop_last(), upto);
    }
}

} // verus!
