//! Adapter between the adjacency array and a line-oriented interchange
//! format for assembly graphs: `H` header records, `S <name> [<sequence>]`
//! node records, and `L <from> <+|-> <to> <+|-> [<n>M]` edge records,
//! tab-separated.
//!
//! The reader and writer work on in-memory text; reading a stream and
//! writing one belong to the surrounding application.  Parsing semantics are
//! given exactly by spec functions over character sequences, and the
//! executable reader and writer are proved against them.

use vstd::prelude::*;
use vstd::std_specs::cmp::PartialEqSpec;

use crate::graph::BidirectedAdjacencyArray;
use crate::graph::BidirectedEdge;
use crate::graph::GraphModel;
use crate::index::EdgeIndex;
use crate::index::NodeIndex;
use crate::index::spec_directed_node;
use crate::index::spec_invert;

verus! {

/// Node payloads usable by the adapter: they carry a name and a sequence.
pub trait GfaNodeData {
    spec fn spec_name(&self) -> Seq<char>;

    spec fn spec_sequence(&self) -> Seq<char>;

    fn name(&self) -> (r: &str)
        ensures
            r@ == self.spec_name(),
    ;

    fn sequence(&self) -> (r: &str)
        ensures
            r@ == self.spec_sequence(),
    ;
}

/// Edge payloads usable by the adapter: they carry an overlap length.
pub trait GfaEdgeData {
    spec fn spec_overlap(&self) -> u16;

    fn overlap(&self) -> (r: u16)
        ensures
            r == self.spec_overlap(),
    ;
}

/// Why reading failed.  An input/output failure of the surrounding stream
/// is the application's condition, not the parser's.
#[derive(Debug, PartialEq, Eq)]
pub enum GfaReadError {
    /// A header line was found after other lines.
    WronglyPositionedHeader,
    /// An `S` line is missing the sequence name.
    MissingSequenceNameInSLine,
    /// An `L` line is missing one of the four fields specifying the edge
    /// endpoints.
    LLineTooShort,
    /// An `L` line names a node that no `S` line defined.
    UnknownNodeName(String),
    /// An orientation field of an `L` line holds something other than the
    /// two valid signs.
    UnknownGfaNodeSign(String),
}

/// The specification-level mirror of [`GfaReadError`], carrying character
/// sequences instead of heap strings.
pub enum SpecGfaError {
    WronglyPositionedHeader,
    MissingSequenceNameInSLine,
    LLineTooShort,
    UnknownNodeName(Seq<char>),
    UnknownGfaNodeSign(Seq<char>),
}

/// The executable error reports exactly the condition and payload of its
/// specification-level mirror.
pub open spec fn error_matches(e: GfaReadError, s: SpecGfaError) -> bool {
    match (e, s) {
        (GfaReadError::WronglyPositionedHeader, SpecGfaError::WronglyPositionedHeader) => true,
        (
            GfaReadError::MissingSequenceNameInSLine,
            SpecGfaError::MissingSequenceNameInSLine,
        ) => true,
        (GfaReadError::LLineTooShort, SpecGfaError::LLineTooShort) => true,
        (GfaReadError::UnknownNodeName(a), SpecGfaError::UnknownNodeName(b)) => a@ == b,
        (GfaReadError::UnknownGfaNodeSign(a), SpecGfaError::UnknownGfaNodeSign(b)) => a@ == b,
        _ => false,
    }
}

/// A plain node payload: a name and a sequence.
#[derive(Debug, Clone, Eq, Hash)]
pub struct PlainGfaNodeData {
    pub name: String,
    pub sequence: String,
}

impl PartialEq for PlainGfaNodeData {
    fn eq(&self, other: &Self) -> (r: bool) {
        self.name == other.name && self.sequence == other.sequence
    }
}

impl vstd::std_specs::cmp::PartialEqSpecImpl for PlainGfaNodeData {
    open spec fn obeys_eq_spec() -> bool {
        true
    }

    open spec fn eq_spec(&self, other: &Self) -> bool {
        self.name@ == other.name@ && self.sequence@ == other.sequence@
    }
}

impl GfaNodeData for PlainGfaNodeData {
    open spec fn spec_name(&self) -> Seq<char> {
        self.name@
    }

    open spec fn spec_sequence(&self) -> Seq<char> {
        self.sequence@
    }

    fn name(&self) -> (r: &str) {
        self.name.as_str()
    }

    fn sequence(&self) -> (r: &str) {
        self.sequence.as_str()
    }
}

/// A plain edge payload: an overlap length.
#[derive(Debug, Clone, Copy, Eq, Hash)]
pub struct PlainGfaEdgeData {
    pub overlap: u16,
}

impl PartialEq for PlainGfaEdgeData {
    fn eq(&self, other: &Self) -> (r: bool) {
        self.overlap == other.overlap
    }
}

impl vstd::std_specs::cmp::PartialEqSpecImpl for PlainGfaEdgeData {
    open spec fn obeys_eq_spec() -> bool {
        true
    }

    open spec fn eq_spec(&self, other: &Self) -> bool {
        self.overlap == other.overlap
    }
}

impl GfaEdgeData for PlainGfaEdgeData {
    open spec fn spec_overlap(&self) -> u16 {
        self.overlap
    }

    fn overlap(&self) -> (r: u16) {
        self.overlap
    }
}

/// The whitespace characters the parser trims from line boundaries.
pub open spec fn is_space(c: char) -> bool {
    c == ' ' || c == '\t' || c == '\r' || c == '\n' || c == '\u{b}' || c == '\u{c}'
}

/// The first position at or after `from` holding `sep`, or the length.
pub open spec fn find_char(s: Seq<char>, sep: char, from: int) -> int
    decreases s.len() - from,
{
    if from < 0 || from >= s.len() {
        s.len() as int
    } else if s[from] == sep {
        from
    } else {
        find_char(s, sep, from + 1)
    }
}

pub proof fn lemma_find_char_bounds(s: Seq<char>, sep: char, from: int)
    requires
        0 <= from <= s.len(),
    ensures
        from <= find_char(s, sep, from) <= s.len(),
        find_char(s, sep, from) < s.len() ==> s[find_char(s, sep, from)] == sep,
        forall|i: int| from <= i < find_char(s, sep, from) ==> s[i] != sep,
    decreases s.len() - from,
{
    if from < s.len() && s[from] != sep {
        lemma_find_char_bounds(s, sep, from + 1);
    }
}

/// The first position at or after `from` holding a non-space character, or
/// the length.
pub open spec fn skip_spaces(s: Seq<char>, from: int) -> int
    decreases s.len() - from,
{
    if from < 0 || from >= s.len() {
        s.len() as int
    } else if is_space(s[from]) {
        skip_spaces(s, from + 1)
    } else {
        from
    }
}

/// The end of the last non-space character strictly before `upto`, or `0`.
pub open spec fn rskip_spaces(s: Seq<char>, upto: int) -> int
    decreases upto,
{
    if upto <= 0 || upto > s.len() {
        0
    } else if is_space(s[upto - 1]) {
        rskip_spaces(s, upto - 1)
    } else {
        upto
    }
}

/// The sequence with leading and trailing whitespace removed.
pub open spec fn trim(s: Seq<char>) -> Seq<char> {
    let lo = skip_spaces(s, 0);
    let hi = rskip_spaces(s, s.len() as int);
    if lo >= hi {
        Seq::empty()
    } else {
        s.subrange(lo, hi)
    }
}

/// The fields of `s` separated by `sep`; empty fields are kept, and the
/// result always has at least one field.
pub open spec fn split_on(s: Seq<char>, sep: char) -> Seq<Seq<char>>
    decreases s.len(),
    via split_on_decreases
{
    let f = find_char(s, sep, 0);
    if f >= s.len() {
        seq![s]
    } else {
        seq![s.take(f)] + split_on(s.skip(f + 1), sep)
    }
}

#[via_fn]
proof fn split_on_decreases(s: Seq<char>, sep: char) {
    lemma_find_char_bounds(s, sep, 0);
}

/// Whether `c` is a decimal digit.
pub open spec fn is_digit(c: char) -> bool {
    c == '0' || c == '1' || c == '2' || c == '3' || c == '4' || c == '5' || c == '6' || c == '7'
        || c == '8' || c == '9'
}

/// The value of a decimal digit.
pub open spec fn digit_val(c: char) -> int {
    if c == '0' {
        0
    } else if c == '1' {
        1
    } else if c == '2' {
        2
    } else if c == '3' {
        3
    } else if c == '4' {
        4
    } else if c == '5' {
        5
    } else if c == '6' {
        6
    } else if c == '7' {
        7
    } else if c == '8' {
        8
    } else {
        9
    }
}

/// The digit character for a value below ten.
pub open spec fn digit_char(d: int) -> char {
    if d == 0 {
        '0'
    } else if d == 1 {
        '1'
    } else if d == 2 {
        '2'
    } else if d == 3 {
        '3'
    } else if d == 4 {
        '4'
    } else if d == 5 {
        '5'
    } else if d == 6 {
        '6'
    } else if d == 7 {
        '7'
    } else if d == 8 {
        '8'
    } else {
        '9'
    }
}

/// The value of a digit sequence read as a decimal numeral.
pub open spec fn digits_value(s: Seq<char>) -> int
    decreases s.len(),
{
    if s.len() == 0 {
        0
    } else {
        digits_value(s.drop_last()) * 10 + digit_val(s.last())
    }
}

/// Whether every character is a decimal digit.
pub open spec fn all_digits(s: Seq<char>) -> bool {
    forall|i: int| 0 <= i < s.len() ==> is_digit(#[trigger] s[i])
}

/// Decimal parsing of an unsigned sixteen-bit integer: an optional plus
/// sign, then at least one digit, with the value in range.
pub open spec fn parse_u16(s: Seq<char>) -> Option<u16> {
    let body = if s.len() > 0 && s[0] == '+' {
        s.skip(1)
    } else {
        s
    };
    if body.len() == 0 {
        None
    } else if !all_digits(body) {
        None
    } else if digits_value(body) > u16::MAX {
        None
    } else {
        Some(digits_value(body) as u16)
    }
}

/// The sequence with every trailing `M` removed.
pub open spec fn strip_trailing_m(s: Seq<char>) -> Seq<char>
    decreases s.len(),
{
    if s.len() > 0 && s.last() == 'M' {
        strip_trailing_m(s.drop_last())
    } else {
        s
    }
}

/// The overlap value of an `L` line's trailing field: trailing `M`s are
/// stripped and the rest is read as a decimal number, with any malformed or
/// out-of-range numeral falling back to zero.
pub open spec fn overlap_of(field: Seq<char>) -> u16 {
    match parse_u16(strip_trailing_m(field)) {
        Some(v) => v,
        None => 0,
    }
}

/// The decimal numeral of a non-negative value, most significant digit
/// first.
pub open spec fn u16_decimal(v: int) -> Seq<char>
    decreases v,
{
    if v < 10 {
        seq![digit_char(v)]
    } else {
        u16_decimal(v / 10) + seq![digit_char(v % 10)]
    }
}

/// The node index that a name resolves to: the most recently defined node
/// with that name, since later duplicate names shadow earlier ones.
pub open spec fn lookup_name(nodes: Seq<(Seq<char>, Seq<char>)>, name: Seq<char>) -> Option<int>
    decreases nodes.len(),
{
    if nodes.len() == 0 {
        None
    } else if nodes.last().0 == name {
        Some(nodes.len() - 1)
    } else {
        lookup_name(nodes.drop_last(), name)
    }
}

/// The parser's state between lines: the nodes (name and sequence) and
/// edges collected so far, and whether a header line is still allowed.
pub struct GfaParseState {
    pub nodes: Seq<(Seq<char>, Seq<char>)>,
    pub edges: Seq<BidirectedEdge<PlainGfaEdgeData>>,
    pub header_allowed: bool,
}

/// What one line does to the parser's state.  The line is trimmed and split
/// into tab-separated fields; the first field selects the record type, any
/// unrecognized type is skipped, and after any line a header is no longer
/// allowed.  The checks of an `L` line run in the fixed order: presence of
/// the endpoint field, then resolution of its name or validity of its sign,
/// endpoint by endpoint.
pub open spec fn parse_line(st: GfaParseState, line: Seq<char>) -> Result<
    GfaParseState,
    SpecGfaError,
> {
    let fields = split_on(trim(line), '\t');
    if fields[0] == seq!['H'] {
        if st.header_allowed {
            Ok(GfaParseState { header_allowed: false, ..st })
        } else {
            Err(SpecGfaError::WronglyPositionedHeader)
        }
    } else if fields[0] == seq!['S'] {
        if fields.len() < 2 {
            Err(SpecGfaError::MissingSequenceNameInSLine)
        } else {
            let sequence = if fields.len() >= 3 {
                fields[2]
            } else {
                Seq::empty()
            };
            Ok(
                GfaParseState {
                    nodes: st.nodes.push((fields[1], sequence)),
                    header_allowed: false,
                    ..st
                },
            )
        }
    } else if fields[0] == seq!['L'] {
        if fields.len() < 2 {
            Err(SpecGfaError::LLineTooShort)
        } else {
            match lookup_name(st.nodes, fields[1]) {
                None => Err(SpecGfaError::UnknownNodeName(fields[1])),
                Some(from) => if fields.len() < 3 {
                    Err(SpecGfaError::LLineTooShort)
                } else if fields[2] != seq!['+'] && fields[2] != seq!['-'] {
                    Err(SpecGfaError::UnknownGfaNodeSign(fields[2]))
                } else {
                    let from_forward = fields[2] == seq!['+'];
                    if fields.len() < 4 {
                        Err(SpecGfaError::LLineTooShort)
                    } else {
                        match lookup_name(st.nodes, fields[3]) {
                            None => Err(SpecGfaError::UnknownNodeName(fields[3])),
                            Some(to) => if fields.len() < 5 {
                                Err(SpecGfaError::LLineTooShort)
                            } else if fields[4] != seq!['+'] && fields[4] != seq!['-'] {
                                Err(SpecGfaError::UnknownGfaNodeSign(fields[4]))
                            } else {
                                let to_forward = fields[4] == seq!['+'];
                                let overlap_field = if fields.len() >= 6 {
                                    fields[5]
                                } else {
                                    seq!['0', 'M']
                                };
                                Ok(
                                    GfaParseState {
                                        edges: st.edges.push(
                                            BidirectedEdge {
                                                from: NodeIndex(from as usize),
                                                from_forward,
                                                to: NodeIndex(to as usize),
                                                to_forward,
                                                data: PlainGfaEdgeData {
                                                    overlap: overlap_of(overlap_field),
                                                },
                                            },
                                        ),
                                        header_allowed: false,
                                        ..st
                                    },
                                )
                            },
                        }
                    }
                },
            }
        }
    } else {
        Ok(GfaParseState { header_allowed: false, ..st })
    }
}

/// Folds `parse_line` over the lines of `s`, split at every newline, with a
/// final line not ending in a newline processed like any other; any line's
/// error aborts the rest of the input.
pub open spec fn parse_lines(s: Seq<char>, st: GfaParseState) -> Result<
    GfaParseState,
    SpecGfaError,
>
    decreases s.len(),
    via parse_lines_decreases
{
    if s.len() == 0 {
        Ok(st)
    } else {
        let f = find_char(s, '\n', 0);
        let line = s.take(f);
        let rest = if f < s.len() {
            s.skip(f + 1)
        } else {
            s.skip(f)
        };
        match parse_line(st, line) {
            Ok(st2) => parse_lines(rest, st2),
            Err(e) => Err(e),
        }
    }
}

#[via_fn]
proof fn parse_lines_decreases(s: Seq<char>, st: GfaParseState) {
    lemma_find_char_bounds(s, '\n', 0);
}

/// What reading an entire input yields: the collected nodes and edges, or
/// the first line's error.
pub open spec fn spec_read_gfa1(s: Seq<char>) -> Result<GfaParseState, SpecGfaError> {
    parse_lines(
        s,
        GfaParseState { nodes: Seq::empty(), edges: Seq::empty(), header_allowed: true },
    )
}

/// The header line of the written format.
pub open spec fn header_chars() -> Seq<char> {
    seq!['H', '\t', 'V', 'N', ':', 'Z', ':', '1', '.', '0', '\n']
}

/// The node record written for bidirected node `i`: name, tab, sequence.
pub open spec fn s_line<NodeData: GfaNodeData, EdgeData>(
    g: GraphModel<NodeData, EdgeData>,
    i: int,
) -> Seq<char> {
    seq!['S', '\t'] + g.nodes[i].spec_name() + seq!['\t'] + g.nodes[i].spec_sequence() + seq![
        '\n',
    ]
}

/// The node records for bidirected nodes `[0, i)`, in index order.
pub open spec fn s_lines<NodeData: GfaNodeData, EdgeData>(
    g: GraphModel<NodeData, EdgeData>,
    i: int,
) -> Seq<char>
    decreases i,
{
    if i <= 0 {
        Seq::empty()
    } else {
        s_lines(g, i - 1) + s_line(g, i - 1)
    }
}

/// The sign written for a directed node: the forward side is positive.
pub open spec fn sign_char(d: int) -> char {
    if d % 2 == 0 {
        '+'
    } else {
        '-'
    }
}

/// The edge record written for bidirected edge `e`: the endpoint names and
/// signs reconstructed from the edge's stored directed endpoints, and the
/// overlap rendered as a decimal number followed by `M`.
pub open spec fn l_line<NodeData: GfaNodeData, EdgeData: GfaEdgeData>(
    g: GraphModel<NodeData, EdgeData>,
    e: int,
) -> Seq<char> {
    let from_directed = spec_invert(g.successors[g.edges[e].reverse]);
    let to_directed = g.successors[g.edges[e].forward];
    seq!['L', '\t'] + g.nodes[from_directed / 2].spec_name() + seq!['\t', sign_char(from_directed)]
        + seq!['\t'] + g.nodes[to_directed / 2].spec_name() + seq!['\t', sign_char(to_directed)]
        + seq!['\t'] + u16_decimal(g.edges[e].data.spec_overlap() as int) + seq!['M', '\n']
}

/// The edge records for bidirected edges `[0, e)`, in index order.
pub open spec fn l_lines<NodeData: GfaNodeData, EdgeData: GfaEdgeData>(
    g: GraphModel<NodeData, EdgeData>,
    e: int,
) -> Seq<char>
    decreases e,
{
    if e <= 0 {
        Seq::empty()
    } else {
        l_lines(g, e - 1) + l_line(g, e - 1)
    }
}

/// The full written form of a graph: the header, one node record per node
/// in index order, then one edge record per edge in index order.
pub open spec fn spec_write_gfa1<NodeData: GfaNodeData, EdgeData: GfaEdgeData>(
    g: GraphModel<NodeData, EdgeData>,
) -> Seq<char> {
    header_chars() + s_lines(g, g.nodes.len() as int) + l_lines(g, g.edges.len() as int)
}

/// Relies on str::chars: the characters of the string, in order.
#[verifier::external_body]
fn str_to_chars(s: &str) -> (r: Vec<char>)
    ensures
        r@ == s@,
{
    s.chars().collect()
}

/// Relies on String::from_iter: the string holding exactly these
/// characters, in order.
#[verifier::external_body]
fn chars_to_string(v: &Vec<char>) -> (r: String)
    ensures
        r@ == v@,
{
    v.iter().copied().collect()
}

/// Copies a range of a character vector.
fn subrange_chars(s: &Vec<char>, from: usize, to: usize) -> (r: Vec<char>)
    requires
        from <= to <= s@.len(),
    ensures
        r@ == s@.subrange(from as int, to as int),
{
    let mut result: Vec<char> = Vec::new();
    for i in from..to
        invariant
            from <= to <= s@.len(),
            result@ == s@.subrange(from as int, i as int),
    {
        result.push(s[i]);
        proof {
            assert(s@.subrange(from as int, i as int).push(s@[i as int]) =~= s@.subrange(
                from as int,
                i + 1,
            ));
        }
    }
    result
}

/// The first position at or after `from` holding `sep`, or the length.
fn find_char_from(s: &Vec<char>, sep: char, from: usize) -> (r: usize)
    requires
        from <= s@.len(),
    ensures
        r == find_char(s@, sep, from as int),
        from <= r <= s@.len(),
{
    proof {
        lemma_find_char_bounds(s@, sep, from as int);
    }
    let len = s.len();
    let mut i = from;
    while i < len
        invariant
            from <= i <= len,
            len == s@.len(),
            find_char(s@, sep, from as int) == find_char(s@, sep, i as int),
        decreases len - i,
    {
        if s[i] == sep {
            return i;
        }
        i = i + 1;
    }
    i
}

/// Whether the parser trims this character at line boundaries.
fn is_space_char(c: char) -> (r: bool)
    ensures
        r == is_space(c),
{
    c == ' ' || c == '\t' || c == '\r' || c == '\n' || c == '\u{b}' || c == '\u{c}'
}

/// The trimmed range `[lo, hi)` of the line `[from, to)` of `s`.
fn trim_range(s: &Vec<char>, from: usize, to: usize) -> (r: (usize, usize))
    requires
        from <= to <= s@.len(),
    ensures
        s@.subrange(from as int, to as int).subrange(r.0 - from, r.1 - from) == trim(
            s@.subrange(from as int, to as int),
        ) || (r.0 == r.1 && trim(s@.subrange(from as int, to as int)) == Seq::<char>::empty()),
        from <= r.0 <= r.1 <= to,
{
    let ghost line = s@.subrange(from as int, to as int);
    let mut lo = from;
    while lo < to && is_space_char(s[lo])
        invariant
            from <= lo <= to <= s@.len(),
            line == s@.subrange(from as int, to as int),
            skip_spaces(line, 0) == skip_spaces(line, lo - from),
        decreases to - lo,
    {
        proof {
            assert(line[lo - from] == s@[lo as int]);
        }
        lo = lo + 1;
    }
    proof {
        if lo < to {
            assert(line[lo - from] == s@[lo as int]);
        }
        assert(skip_spaces(line, 0) == lo - from);
    }
    let mut hi = to;
    while hi > lo && is_space_char(s[hi - 1])
        invariant
            from <= lo <= hi <= to <= s@.len(),
            line == s@.subrange(from as int, to as int),
            rskip_spaces(line, line.len() as int) == rskip_spaces(line, hi - from),
        decreases hi,
    {
        proof {
            assert(line[hi - 1 - from] == s@[hi - 1]);
        }
        hi = hi - 1;
    }
    proof {
        lemma_rskip_bounds(line, hi - from);
        if hi > lo {
            assert(line[hi - 1 - from] == s@[hi - 1]);
            assert(rskip_spaces(line, hi - from) == hi - from);
        }
        if lo >= hi {
            assert(trim(line) =~= Seq::<char>::empty());
        } else {
            assert(trim(line) =~= line.subrange(lo - from, hi - from));
        }
    }
    (lo, hi)
}

proof fn lemma_rskip_bounds(s: Seq<char>, upto: int)
    requires
        0 <= upto <= s.len(),
    ensures
        0 <= rskip_spaces(s, upto) <= upto,
    decreases upto,
{
    if upto > 0 && is_space(s[upto - 1]) {
        lemma_rskip_bounds(s, upto - 1);
    }
}

/// Splits the range `[from, to)` of `s` into its tab-separated fields.
fn split_fields(s: &Vec<char>, from: usize, to: usize) -> (r: Vec<Vec<char>>)
    requires
        from <= to <= s@.len(),
    ensures
        r@.map_values(|v: Vec<char>| v@) == split_on(s@.subrange(from as int, to as int), '\t'),
        r@.len() >= 1,
{
    let ghost line = s@.subrange(from as int, to as int);
    let mut result: Vec<Vec<char>> = Vec::new();
    let mut pos = from;
    loop
        invariant
            from <= pos <= to <= s@.len(),
            line == s@.subrange(from as int, to as int),
            split_on(line, '\t') =~= result@.map_values(|v: Vec<char>| v@) + split_on(
                s@.subrange(pos as int, to as int),
                '\t',
            ),
        decreases to - pos,
    {
        let ghost pos0 = pos as int;
        let ghost rest = s@.subrange(pos as int, to as int);
        let f = find_char_from(s, '\t', pos);
        let cut = if f > to {
            to
        } else {
            f
        };
        proof {
            lemma_find_char_bounds(s@, '\t', pos as int);
            lemma_find_char_in_subrange(s@, pos as int, to as int, '\t');
        }
        let field = subrange_chars(s, pos, cut);
        let ghost result_pre = result@;
        result.push(field);
        proof {
            assert(result@.map_values(|v: Vec<char>| v@) =~= result_pre.map_values(
                |v: Vec<char>| v@,
            ) + seq![field@]);
        }
        if cut < to {
            pos = cut + 1;
            proof {
                let fr = find_char(rest, '\t', 0);
                assert(fr == cut - pos0);
                assert(rest.take(fr) =~= field@);
                assert(rest.skip(fr + 1) =~= s@.subrange(pos as int, to as int));
                assert(split_on(rest, '\t') == seq![field@] + split_on(
                    s@.subrange(pos as int, to as int),
                    '\t',
                ));
                assert((result_pre.map_values(|v: Vec<char>| v@) + split_on(rest, '\t')) =~= result@.map_values(
                    |v: Vec<char>| v@,
                ) + split_on(s@.subrange(pos as int, to as int), '\t'));
            }
        } else {
            proof {
                let fr = find_char(rest, '\t', 0);
                assert(fr == rest.len());
                assert(rest =~= field@);
                assert(split_on(rest, '\t') == seq![field@]);
                assert(split_on(line, '\t') =~= result@.map_values(|v: Vec<char>| v@));
            }
            return result;
        }
    }
}

/// Whether two character vectors hold the same characters.
fn chars_equal(a: &Vec<char>, b: &Vec<char>) -> (r: bool)
    ensures
        r == (a@ == b@),
{
    if a.len() != b.len() {
        return false;
    }
    let len = a.len();
    for i in 0..len
        invariant
            len == a@.len() == b@.len(),
            forall|j: int| 0 <= j < i ==> a@[j] == b@[j],
    {
        if a[i] != b[i] {
            return false;
        }
    }
    proof {
        assert(a@ =~= b@);
    }
    true
}

/// Whether a field holds exactly the one given character.
fn is_single(v: &Vec<char>, c: char) -> (r: bool)
    ensures
        r == (v@ == seq![c]),
{
    proof {
        assert(seq![c].len() == 1 && seq![c][0] == c);
    }
    if v.len() == 1 {
        let eq = v[0] == c;
        proof {
            if eq {
                assert(v@ =~= seq![c]);
            }
        }
        eq
    } else {
        false
    }
}

/// The value of a digit character, or nothing for any other character.
fn digit_value_of(c: char) -> (r: Option<u32>)
    ensures
        match r {
            Some(d) => is_digit(c) && d == digit_val(c),
            None => !is_digit(c),
        },
{
    match c {
        '0' => Some(0),
        '1' => Some(1),
        '2' => Some(2),
        '3' => Some(3),
        '4' => Some(4),
        '5' => Some(5),
        '6' => Some(6),
        '7' => Some(7),
        '8' => Some(8),
        '9' => Some(9),
        _ => None,
    }
}

/// The digit character of a value below ten.
fn char_of_digit(d: u16) -> (r: char)
    requires
        d < 10,
    ensures
        r == digit_char(d as int),
{
    match d {
        0 => '0',
        1 => '1',
        2 => '2',
        3 => '3',
        4 => '4',
        5 => '5',
        6 => '6',
        7 => '7',
        8 => '8',
        _ => '9',
    }
}

proof fn lemma_digits_value_nonneg(s: Seq<char>)
    ensures
        digits_value(s) >= 0,
    decreases s.len(),
{
    if s.len() > 0 {
        lemma_digits_value_nonneg(s.drop_last());
    }
}

/// The overlap of an `L` line's trailing field: strips trailing `M`s and
/// reads the rest as a decimal number, with zero for anything malformed.
fn parse_overlap(field: &Vec<char>) -> (r: u16)
    ensures
        r == overlap_of(field@),
{
    let mut end = field.len();
    proof {
        assert(field@.take(end as int) =~= field@);
    }
    while end > 0 && field[end - 1] == 'M'
        invariant
            end <= field@.len(),
            strip_trailing_m(field@) == strip_trailing_m(field@.take(end as int)),
        decreases end,
    {
        proof {
            assert(field@.take(end as int).last() == field@[end - 1]);
            assert(field@.take(end as int).drop_last() =~= field@.take(end - 1));
        }
        end = end - 1;
    }
    proof {
        if end > 0 {
            assert(field@.take(end as int).last() == field@[end - 1]);
        }
        assert(strip_trailing_m(field@) == field@.take(end as int));
    }
    let ghost stripped = field@.take(end as int);

    // An optional plus sign, then at least one digit.
    let start: usize = if end > 0 && field[0] == '+' {
        1
    } else {
        0
    };
    let ghost body = if stripped.len() > 0 && stripped[0] == '+' {
        stripped.skip(1)
    } else {
        stripped
    };
    proof {
        assert(body =~= field@.subrange(start as int, end as int));
    }
    if start >= end {
        proof {
            assert(body.len() == 0);
            assert(parse_u16(stripped) is None);
        }
        return 0;
    }

    let mut value: u32 = 0;
    let mut i = start;
    while i < end
        invariant
            start < end <= field@.len(),
            start <= i <= end,
            stripped == field@.take(end as int),
            strip_trailing_m(field@) == stripped,
            body == (if stripped.len() > 0 && stripped[0] == '+' {
                stripped.skip(1)
            } else {
                stripped
            }),
            body == field@.subrange(start as int, end as int),
            forall|j: int| 0 <= j < i - start ==> is_digit(#[trigger] body[j]),
            digits_value(body.take(i - start)) <= u16::MAX ==> value == digits_value(
                body.take(i - start),
            ),
            digits_value(body.take(i - start)) > u16::MAX ==> value > u16::MAX,
            value <= 655359,
        decreases end - i,
    {
        let ghost prefix = body.take(i - start);
        let ghost prefix2 = body.take(i + 1 - start);
        proof {
            assert(body[i - start] == field@[i as int]);
            assert(prefix2.drop_last() =~= prefix);
            assert(prefix2.last() == body[i - start]);
            lemma_digits_value_nonneg(prefix);
        }
        match digit_value_of(field[i]) {
            None => {
                proof {
                    assert(0 <= i - start < body.len() && !is_digit(body[i - start]));
                    assert(!all_digits(body));
                    assert(parse_u16(stripped) is None);
                }
                return 0;
            },
            Some(d) => {
                if value > 65535 {
                    value = 66000;
                } else {
                    value = value * 10 + d;
                }
            },
        }
        i = i + 1;
    }
    proof {
        assert(body.take(end - start) =~= body);
    }
    if value > 65535 {
        0
    } else {
        proof {
            assert(parse_u16(stripped) == Some(value as u16));
        }
        value as u16
    }
}

/// Appends the decimal numeral of `v`, most significant digit first.
fn push_decimal(v: u16, out: &mut Vec<char>)
    ensures
        final (out)@ == old(out)@ + u16_decimal(v as int),
    decreases v,
{
    if v < 10 {
        out.push(char_of_digit(v));
        proof {
            assert(old(out)@ + u16_decimal(v as int) =~= old(out)@.push(digit_char(v as int)));
        }
    } else {
        push_decimal(v / 10, out);
        out.push(char_of_digit(v % 10));
        proof {
            assert(old(out)@ + u16_decimal(v as int) =~= (old(out)@ + u16_decimal(
                v as int / 10,
            )).push(digit_char(v as int % 10)));
        }
    }
}

/// The node that a name resolves to: the most recently defined one with
/// that name.
fn lookup_node(nodes: &Vec<PlainGfaNodeData>, name: &Vec<char>) -> (r: Option<usize>)
    ensures
        ({
            let view = nodes@.map_values(|n: PlainGfaNodeData| (n.name@, n.sequence@));
            match r {
                Some(i) => lookup_name(view, name@) == Some(i as int) && i < nodes@.len(),
                None => lookup_name(view, name@) is None,
            }
        }),
{
    let ghost view = nodes@.map_values(|n: PlainGfaNodeData| (n.name@, n.sequence@));
    let mut i = nodes.len();
    proof {
        assert(view.take(i as int) =~= view);
    }
    while i > 0
        invariant
            i <= nodes@.len(),
            view == nodes@.map_values(|n: PlainGfaNodeData| (n.name@, n.sequence@)),
            lookup_name(view, name@) == lookup_name(view.take(i as int), name@),
        decreases i,
    {
        i = i - 1;
        let node_name = str_to_chars(nodes[i].name.as_str());
        proof {
            assert(view.take(i + 1).last() == view[i as int]);
            assert(view.take(i + 1).drop_last() =~= view.take(i as int));
        }
        if chars_equal(&node_name, name) {
            return Some(i);
        }
    }
    None
}

/// Within the window `[from, to)` of `s`, the first separator of the window
/// is the first separator of `s` at or after `from`, clipped to the window.
proof fn lemma_find_char_in_subrange(s: Seq<char>, from: int, to: int, sep: char)
    requires
        0 <= from <= to <= s.len(),
    ensures
        ({
            let f = find_char(s, sep, from);
            let w = s.subrange(from, to);
            &&& f >= to ==> find_char(w, sep, 0) == w.len()
            &&& f < to ==> find_char(w, sep, 0) == f - from
        }),
{
    lemma_find_char_bounds(s, sep, from);
    let f = find_char(s, sep, from);
    let w = s.subrange(from, to);
    lemma_find_char_bounds(w, sep, 0);
    let fw = find_char(w, sep, 0);
    if f >= to {
        if fw < w.len() {
            assert(s[from + fw] == sep);
            assert(false);
        }
    } else {
        assert(w[f - from] == sep);
        if fw < f - from {
            assert(s[from + fw] == sep);
            assert(false);
        }
        if fw > f - from {
            assert(w[f - from] != sep);
            assert(false);
        }
    }
}

/// The graph that a successful read yields, pinned to the parsed records:
/// its node data holds exactly the parsed names and sequences, and its
/// layout is the counting-sort construction over the parsed edges.
pub open spec fn graph_matches_parse(
    g: GraphModel<PlainGfaNodeData, PlainGfaEdgeData>,
    st: GfaParseState,
) -> bool {
    &&& g.wf()
    &&& g.nodes.len() == st.nodes.len()
    &&& forall|i: int|
        0 <= i < g.nodes.len() ==> (#[trigger] g.nodes[i]).name@ == st.nodes[i].0
            && g.nodes[i].sequence@ == st.nodes[i].1
    &&& g.edges.len() == st.edges.len()
    &&& forall|e: int|
        #![trigger g.edges[e]]
        0 <= e < g.edges.len() ==> g.edges[e].data == st.edges[e].data && g.edges[e].forward
            == crate::graph::claim_slot(crate::graph::claim_seq(st.edges), 2 * e)
            && g.edges[e].reverse == crate::graph::claim_slot(
            crate::graph::claim_seq(st.edges),
            2 * e + 1,
        )
    &&& forall|d: int|
        0 <= d <= g.directed_node_count() ==> #[trigger] g.offsets[d]
            == crate::graph::count_below(crate::graph::claim_seq(st.edges), d)
    &&& forall|j: int|
        0 <= j < 2 * st.edges.len() ==> #[trigger] g.successors[crate::graph::claim_slot(
            crate::graph::claim_seq(st.edges),
            j,
        )] == crate::graph::claim_dest(st.edges, j)
}

/// The overlap that an absent trailing field defaults to.
proof fn lemma_default_overlap()
    ensures
        overlap_of(seq!['0', 'M']) == 0,
{
    let field = seq!['0', 'M'];
    assert(field.last() == 'M');
    assert(field.drop_last() =~= seq!['0']);
    assert(seq!['0'].last() == '0');
    assert(strip_trailing_m(seq!['0']) == seq!['0']);
    assert(strip_trailing_m(field) == seq!['0']);
    assert(all_digits(seq!['0']));
    assert(seq!['0'].drop_last() =~= Seq::<char>::empty());
    assert(digits_value(Seq::<char>::empty()) == 0);
    assert(digits_value(seq!['0']) == 0);
    assert(parse_u16(seq!['0']) == Some(0u16));
}

/// Reads a graph from the text format.  Parsing follows `spec_read_gfa1`
/// exactly: on success the returned structure is the counting-sort
/// construction over the parsed records, and on failure the error mirrors
/// the specification-level condition of the offending line.
pub fn read_gfa1(input: &str) -> (r: Result<
    BidirectedAdjacencyArray<PlainGfaNodeData, PlainGfaEdgeData>,
    GfaReadError,
>)
    requires
        input@.len() <= (usize::MAX - 3) / 2,
    ensures
        match spec_read_gfa1(input@) {
            Ok(parsed) => r is Ok && graph_matches_parse(r->Ok_0@, parsed),
            Err(se) => r is Err && error_matches(r->Err_0, se),
        },
{
    let chars = str_to_chars(input);
    let total = chars.len();
    let mut nodes: Vec<PlainGfaNodeData> = Vec::new();
    let mut edges: Vec<BidirectedEdge<PlainGfaEdgeData>> = Vec::new();
    let mut header_allowed = true;
    let mut pos: usize = 0;
    proof {
        assert(chars@.skip(0) =~= chars@);
        assert(nodes@.map_values(|n: PlainGfaNodeData| (n.name@, n.sequence@)) =~= Seq::<
            (Seq<char>, Seq<char>),
        >::empty());
        assert(edges@ =~= Seq::<BidirectedEdge<PlainGfaEdgeData>>::empty());
    }
    while pos < total
        invariant
            chars@ == input@,
            total == chars@.len(),
            total <= (usize::MAX - 3) / 2,
            pos <= total,
            nodes@.len() <= pos,
            edges@.len() <= pos,
            forall|e: int|
                #![trigger edges@[e]]
                0 <= e < edges@.len() ==> edges@[e].from@ < nodes@.len() && edges@[e].to@
                    < nodes@.len(),
            spec_read_gfa1(input@) == parse_lines(
                chars@.skip(pos as int),
                GfaParseState {
                    nodes: nodes@.map_values(|n: PlainGfaNodeData| (n.name@, n.sequence@)),
                    edges: edges@,
                    header_allowed,
                },
            ),
        decreases total - pos,
    {
        let ghost st = GfaParseState {
            nodes: nodes@.map_values(|n: PlainGfaNodeData| (n.name@, n.sequence@)),
            edges: edges@,
            header_allowed,
        };
        let ghost pos0 = pos as int;
        let ghost srest = chars@.skip(pos0);
        let f = find_char_from(&chars, '\n', pos);
        let ghost line = chars@.subrange(pos0, f as int);
        proof {
            assert(srest =~= chars@.subrange(pos0, total as int));
            lemma_find_char_in_subrange(chars@, pos0, total as int, '\n');
            lemma_find_char_bounds(srest, '\n', 0);
            assert(srest.take(find_char(srest, '\n', 0)) =~= line);
        }
        let next_pos = if f < total {
            f + 1
        } else {
            total
        };
        proof {
            if f < total {
                assert(srest.skip(find_char(srest, '\n', 0) + 1) =~= chars@.skip(
                    next_pos as int,
                ));
            } else {
                assert(srest.skip(find_char(srest, '\n', 0)) =~= chars@.skip(next_pos as int));
            }
            // One unfolding of the line fold: the spec consumes exactly this
            // line, then the rest from the next position.
            assert(parse_lines(srest, st) == (match parse_line(st, line) {
                Ok(st2) => parse_lines(chars@.skip(next_pos as int), st2),
                Err(e) => Err::<GfaParseState, SpecGfaError>(e),
            }));
        }

        let (lo, hi) = trim_range(&chars, pos, f);
        proof {
            assert(chars@.subrange(lo as int, hi as int) =~= line.subrange(
                lo - pos0,
                hi - pos0,
            ));
            if lo == hi {
                assert(chars@.subrange(lo as int, hi as int) =~= Seq::<char>::empty());
            }
            assert(chars@.subrange(lo as int, hi as int) == trim(line));
        }
        let fields = split_fields(&chars, lo, hi);
        let ghost fields_spec = split_on(trim(line), '\t');
        proof {
            assert(fields_spec[0] == fields@[0]@);
        }

        if is_single(&fields[0], 'H') {
            if !header_allowed {
                proof {
                    assert(parse_line(st, line) == Err::<GfaParseState, SpecGfaError>(
                        SpecGfaError::WronglyPositionedHeader,
                    ));
                }
                return Err(GfaReadError::WronglyPositionedHeader);
            }
        } else if is_single(&fields[0], 'S') {
            if fields.len() < 2 {
                proof {
                    assert(parse_line(st, line) == Err::<GfaParseState, SpecGfaError>(
                        SpecGfaError::MissingSequenceNameInSLine,
                    ));
                }
                return Err(GfaReadError::MissingSequenceNameInSLine);
            }
            let name = chars_to_string(&fields[1]);
            let sequence = if fields.len() >= 3 {
                chars_to_string(&fields[2])
            } else {
                String::new()
            };
            let ghost nodes_pre = nodes@;
            nodes.push(PlainGfaNodeData { name, sequence });
            proof {
                assert(fields_spec[1] == fields@[1]@);
                if fields_spec.len() >= 3 {
                    assert(fields_spec[2] == fields@[2]@);
                }
                assert(nodes@.map_values(|n: PlainGfaNodeData| (n.name@, n.sequence@))
                    =~= st.nodes.push(
                    (
                        fields_spec[1],
                        if fields_spec.len() >= 3 {
                            fields_spec[2]
                        } else {
                            Seq::empty()
                        },
                    ),
                ));
            }
        } else if is_single(&fields[0], 'L') {
            if fields.len() < 2 {
                proof {
                    assert(parse_line(st, line) == Err::<GfaParseState, SpecGfaError>(
                        SpecGfaError::LLineTooShort,
                    ));
                }
                return Err(GfaReadError::LLineTooShort);
            }
            proof {
                assert(fields_spec[1] == fields@[1]@);
            }
            let from_index = match lookup_node(&nodes, &fields[1]) {
                Some(i) => i,
                None => {
                    return Err(GfaReadError::UnknownNodeName(chars_to_string(&fields[1])));
                },
            };
            if fields.len() < 3 {
                return Err(GfaReadError::LLineTooShort);
            }
            proof {
                assert(fields_spec[2] == fields@[2]@);
            }
            let from_plus = is_single(&fields[2], '+');
            if !from_plus && !is_single(&fields[2], '-') {
                return Err(GfaReadError::UnknownGfaNodeSign(chars_to_string(&fields[2])));
            }
            if fields.len() < 4 {
                return Err(GfaReadError::LLineTooShort);
            }
            proof {
                assert(fields_spec[3] == fields@[3]@);
            }
            let to_index = match lookup_node(&nodes, &fields[3]) {
                Some(i) => i,
                None => {
                    return Err(GfaReadError::UnknownNodeName(chars_to_string(&fields[3])));
                },
            };
            if fields.len() < 5 {
                return Err(GfaReadError::LLineTooShort);
            }
            proof {
                assert(fields_spec[4] == fields@[4]@);
            }
            let to_plus = is_single(&fields[4], '+');
            if !to_plus && !is_single(&fields[4], '-') {
                return Err(GfaReadError::UnknownGfaNodeSign(chars_to_string(&fields[4])));
            }
            let overlap = if fields.len() >= 6 {
                proof {
                    assert(fields_spec[5] == fields@[5]@);
                }
                parse_overlap(&fields[5])
            } else {
                proof {
                    lemma_default_overlap();
                }
                0
            };
            let ghost edges_pre = edges@;
            edges.push(
                BidirectedEdge {
                    from: NodeIndex::new(from_index),
                    from_forward: from_plus,
                    to: NodeIndex::new(to_index),
                    to_forward: to_plus,
                    data: PlainGfaEdgeData { overlap },
                },
            );
            proof {
                assert(edges@ =~= edges_pre.push(
                    BidirectedEdge {
                        from: NodeIndex(from_index),
                        from_forward: from_plus,
                        to: NodeIndex(to_index),
                        to_forward: to_plus,
                        data: PlainGfaEdgeData { overlap },
                    },
                ));
            }
        }
        header_allowed = false;
        pos = next_pos;
    }
    proof {
        assert(chars@.skip(pos as int) =~= Seq::<char>::empty());
    }
    let graph = BidirectedAdjacencyArray::new(nodes, edges);
    Ok(graph)
}

/// A separator at position `k` with none before it is the first one.
proof fn lemma_find_char_at(s: Seq<char>, sep: char, k: int)
    requires
        0 <= k < s.len(),
        s[k] == sep,
        forall|i: int| 0 <= i < k ==> s[i] != sep,
    ensures
        find_char(s, sep, 0) == k,
{
    lemma_find_char_bounds(s, sep, 0);
}

/// A sequence without the separator is one single field.
proof fn lemma_split_single(field: Seq<char>, sep: char)
    requires
        forall|i: int| 0 <= i < field.len() ==> field[i] != sep,
    ensures
        split_on(field, sep) == seq![field],
{
    lemma_find_char_bounds(field, sep, 0);
}

/// A leading separator-free field splits off the front.
proof fn lemma_split_prepend(field: Seq<char>, sep: char, rest: Seq<char>)
    requires
        forall|i: int| 0 <= i < field.len() ==> field[i] != sep,
    ensures
        split_on(field + seq![sep] + rest, sep) == seq![field] + split_on(rest, sep),
{
    let s = field + seq![sep] + rest;
    assert forall|i: int| 0 <= i < field.len() implies s[i] != sep by {
        assert(s[i] == field[i]);
    }
    assert(s[field.len() as int] == sep);
    lemma_find_char_at(s, sep, field.len() as int);
    assert(s.take(field.len() as int) =~= field);
    assert(s.skip(field.len() as int + 1) =~= rest);
}

/// A line that starts and ends with a non-space character trims to itself.
proof fn lemma_trim_clean(s: Seq<char>)
    requires
        s.len() > 0,
        !is_space(s[0]),
        !is_space(s[s.len() - 1]),
    ensures
        trim(s) == s,
{
    assert(skip_spaces(s, 0) == 0);
    assert(rskip_spaces(s, s.len() as int) == s.len());
    assert(s.subrange(0, s.len() as int) =~= s);
}

/// The decimal numeral of a value in range: at least one character, all of
/// them digits, reading back to the value itself.
proof fn lemma_u16_decimal_digits(v: int)
    requires
        0 <= v,
    ensures
        u16_decimal(v).len() >= 1,
        all_digits(u16_decimal(v)),
        digits_value(u16_decimal(v)) == v,
    decreases v,
{
    if v < 10 {
        let s = u16_decimal(v);
        assert(s =~= seq![digit_char(v)]);
        assert(s.drop_last() =~= Seq::<char>::empty());
        assert(digits_value(Seq::<char>::empty()) == 0);
        assert(is_digit(digit_char(v)) && digit_val(digit_char(v)) == v);
        assert(all_digits(s));
    } else {
        lemma_u16_decimal_digits(v / 10);
        let prefix = u16_decimal(v / 10);
        let s = u16_decimal(v);
        assert(s =~= prefix.push(digit_char(v % 10)));
        assert(s.drop_last() =~= prefix);
        assert(s.last() == digit_char(v % 10));
        assert(is_digit(digit_char(v % 10)) && digit_val(digit_char(v % 10)) == v % 10);
        assert(digits_value(s) == digits_value(prefix) * 10 + v % 10);
        assert(all_digits(s)) by {
            assert forall|i: int| 0 <= i < s.len() implies is_digit(s[i]) by {
                if i < prefix.len() {
                    assert(s[i] == prefix[i]);
                }
            }
        }
    }
}

/// Writing an overlap as a decimal numeral followed by `M` and reading it
/// back yields the overlap.
proof fn lemma_overlap_round_trip(v: u16)
    ensures
        overlap_of(u16_decimal(v as int) + seq!['M']) == v,
        forall|i: int|
            0 <= i < (u16_decimal(v as int) + seq!['M']).len() ==> !is_space(
                #[trigger] (u16_decimal(v as int) + seq!['M'])[i],
            ) && (u16_decimal(v as int) + seq!['M'])[i] != '\t',
{
    lemma_u16_decimal_digits(v as int);
    let digits = u16_decimal(v as int);
    let field = digits + seq!['M'];
    assert(field.last() == 'M');
    assert(field.drop_last() =~= digits);
    assert(digits.last() != 'M');
    assert(strip_trailing_m(digits) == digits);
    assert(strip_trailing_m(field) == digits);
    assert(digits[0] != '+');
    assert(parse_u16(digits) == Some(v));
    assert forall|i: int| 0 <= i < field.len() implies !is_space(field[i]) && field[i] != '\t' by {
        if i < digits.len() {
            assert(is_digit(digits[i]));
        } else {
            assert(field[i] == 'M');
        }
    }
}

/// With pairwise distinct names, a name resolves to its own node.
proof fn lemma_lookup_unique(nodes: Seq<(Seq<char>, Seq<char>)>, t: int)
    requires
        0 <= t < nodes.len(),
        forall|i: int, j: int|
            #![trigger nodes[i], nodes[j]]
            0 <= i < j < nodes.len() ==> nodes[i].0 != nodes[j].0,
    ensures
        lookup_name(nodes, nodes[t].0) == Some(t),
    decreases nodes.len(),
{
    if t == nodes.len() - 1 {
    } else {
        assert(nodes[t].0 != nodes.last().0);
        assert(nodes.drop_last()[t] == nodes[t]);
        lemma_lookup_unique(nodes.drop_last(), t);
    }
}

/// Splitting one line off the front of the remaining text.
proof fn lemma_parse_lines_step(line: Seq<char>, rest: Seq<char>, st: GfaParseState)
    requires
        forall|i: int| 0 <= i < line.len() ==> line[i] != '\n',
    ensures
        parse_lines(line + seq!['\n'] + rest, st) == (match parse_line(st, line) {
            Ok(st2) => parse_lines(rest, st2),
            Err(e) => Err::<GfaParseState, SpecGfaError>(e),
        }),
{
    let s = line + seq!['\n'] + rest;
    assert forall|i: int| 0 <= i < line.len() implies s[i] != '\n' by {
        assert(s[i] == line[i]);
    }
    assert(s[line.len() as int] == '\n');
    lemma_find_char_at(s, '\n', line.len() as int);
    assert(s.take(line.len() as int) =~= line);
    assert(s.skip(line.len() as int + 1) =~= rest);
}

/// The node records for bidirected nodes `[i, node count)`: the same text
/// as [`s_lines`], recursed from the front for parsing proofs.
pub open spec fn s_lines_from<NodeData: GfaNodeData, EdgeData>(
    g: GraphModel<NodeData, EdgeData>,
    i: int,
) -> Seq<char>
    decreases g.nodes.len() - i,
{
    if i < 0 || i >= g.nodes.len() {
        Seq::empty()
    } else {
        s_line(g, i) + s_lines_from(g, i + 1)
    }
}

/// The edge records for bidirected edges `[e, edge count)`.
pub open spec fn l_lines_from<NodeData: GfaNodeData, EdgeData: GfaEdgeData>(
    g: GraphModel<NodeData, EdgeData>,
    e: int,
) -> Seq<char>
    decreases g.edges.len() - e,
{
    if e < 0 || e >= g.edges.len() {
        Seq::empty()
    } else {
        l_line(g, e) + l_lines_from(g, e + 1)
    }
}

proof fn lemma_s_lines_from<NodeData: GfaNodeData, EdgeData>(
    g: GraphModel<NodeData, EdgeData>,
    i: int,
)
    requires
        0 <= i <= g.nodes.len(),
    ensures
        s_lines(g, i) + s_lines_from(g, i) == s_lines_from(g, 0),
    decreases i,
{
    if i == 0 {
        assert(s_lines(g, 0) + s_lines_from(g, 0) =~= s_lines_from(g, 0));
    } else {
        lemma_s_lines_from(g, i - 1);
        assert(s_lines(g, i) + s_lines_from(g, i) =~= s_lines(g, i - 1) + (s_line(g, i - 1)
            + s_lines_from(g, i)));
        assert(s_line(g, i - 1) + s_lines_from(g, i) == s_lines_from(g, i - 1));
    }
}

proof fn lemma_l_lines_from<NodeData: GfaNodeData, EdgeData: GfaEdgeData>(
    g: GraphModel<NodeData, EdgeData>,
    e: int,
)
    requires
        0 <= e <= g.edges.len(),
    ensures
        l_lines(g, e) + l_lines_from(g, e) == l_lines_from(g, 0),
    decreases e,
{
    if e == 0 {
        assert(l_lines(g, 0) + l_lines_from(g, 0) =~= l_lines_from(g, 0));
    } else {
        lemma_l_lines_from(g, e - 1);
        assert(l_lines(g, e) + l_lines_from(g, e) =~= l_lines(g, e - 1) + (l_line(g, e - 1)
            + l_lines_from(g, e)));
        assert(l_line(g, e - 1) + l_lines_from(g, e) == l_lines_from(g, e - 1));
    }
}

/// A graph whose written form reads back faithfully: every node name is
/// nonempty and free of whitespace, the names are pairwise distinct, and
/// the sequences are free of whitespace.
pub open spec fn gfa_writable<NodeData: GfaNodeData, EdgeData>(
    g: GraphModel<NodeData, EdgeData>,
) -> bool {
    &&& forall|i: int| 0 <= i < g.nodes.len() ==> (#[trigger] g.nodes[i]).spec_name().len() > 0
    &&& forall|i: int, c: int|
        0 <= i < g.nodes.len() && 0 <= c < g.nodes[i].spec_name().len() ==> !is_space(
            #[trigger] g.nodes[i].spec_name()[c],
        )
    &&& forall|i: int, c: int|
        0 <= i < g.nodes.len() && 0 <= c < g.nodes[i].spec_sequence().len() ==> !is_space(
            #[trigger] g.nodes[i].spec_sequence()[c],
        )
    &&& forall|i: int, j: int|
        #![trigger g.nodes[i].spec_name(), g.nodes[j].spec_name()]
        0 <= i < j < g.nodes.len() ==> g.nodes[i].spec_name() != g.nodes[j].spec_name()
}

/// The node records that reading the written form collects: name and
/// sequence of each node, in index order.
pub open spec fn parsed_nodes<NodeData: GfaNodeData, EdgeData>(
    g: GraphModel<NodeData, EdgeData>,
    i: int,
) -> Seq<(Seq<char>, Seq<char>)> {
    Seq::new(i as nat, |k: int| (g.nodes[k].spec_name(), g.nodes[k].spec_sequence()))
}

/// The edge record that reading the written form collects for edge `e`: the
/// endpoints and sides that the written signs encode, and the overlap.
pub open spec fn parsed_edge<NodeData: GfaNodeData, EdgeData: GfaEdgeData>(
    g: GraphModel<NodeData, EdgeData>,
    e: int,
) -> BidirectedEdge<PlainGfaEdgeData> {
    let from_directed = spec_invert(g.successors[g.edges[e].reverse]);
    let to_directed = g.successors[g.edges[e].forward];
    BidirectedEdge {
        from: NodeIndex((from_directed / 2) as usize),
        from_forward: from_directed % 2 == 0,
        to: NodeIndex((to_directed / 2) as usize),
        to_forward: to_directed % 2 == 0,
        data: PlainGfaEdgeData { overlap: g.edges[e].data.spec_overlap() },
    }
}

/// The edge records collected for edges `[0, e)`.
pub open spec fn parsed_edges<NodeData: GfaNodeData, EdgeData: GfaEdgeData>(
    g: GraphModel<NodeData, EdgeData>,
    e: int,
) -> Seq<BidirectedEdge<PlainGfaEdgeData>> {
    Seq::new(e as nat, |k: int| parsed_edge(g, k))
}

/// Parsing the header line of the written form.
proof fn lemma_parse_header_line(st: GfaParseState)
    requires
        st.header_allowed,
    ensures
        parse_line(st, header_chars().take(10)) == Ok::<GfaParseState, SpecGfaError>(
            GfaParseState { header_allowed: false, ..st },
        ),
        forall|i: int| 0 <= i < 10 ==> #[trigger] header_chars().take(10)[i] != '\n',
        header_chars() == header_chars().take(10) + seq!['\n'],
{
    let content = header_chars().take(10);
    assert(content =~= seq!['H', '\t', 'V', 'N', ':', 'Z', ':', '1', '.', '0']);
    assert(header_chars() =~= content + seq!['\n']);
    lemma_trim_clean(content);
    let version = seq!['V', 'N', ':', 'Z', ':', '1', '.', '0'];
    assert forall|i: int| 0 <= i < version.len() implies version[i] != '\t' by {}
    lemma_split_single(version, '\t');
    assert(content =~= seq!['H'] + seq!['\t'] + version);
    lemma_split_prepend(seq!['H'], '\t', version);
    let fields = split_on(trim(content), '\t');
    assert(fields == seq![seq!['H'], version]);
    assert(fields[0] == seq!['H']);
}

/// Parsing one node record of the written form.
proof fn lemma_parse_s_line(st: GfaParseState, name: Seq<char>, sequence: Seq<char>)
    requires
        name.len() > 0,
        forall|c: int| 0 <= c < name.len() ==> !is_space(#[trigger] name[c]),
        forall|c: int| 0 <= c < sequence.len() ==> !is_space(#[trigger] sequence[c]),
    ensures
        parse_line(st, seq!['S', '\t'] + name + seq!['\t'] + sequence) == Ok::<
            GfaParseState,
            SpecGfaError,
        >(
            GfaParseState {
                nodes: st.nodes.push((name, sequence)),
                header_allowed: false,
                ..st
            },
        ),
{
    let line = seq!['S', '\t'] + name + seq!['\t'] + sequence;
    assert forall|c: int| 0 <= c < name.len() implies name[c] != '\t' by {}
    assert forall|c: int| 0 <= c < sequence.len() implies sequence[c] != '\t' by {}
    if sequence.len() == 0 {
        // The line ends in the tab before the empty sequence, which is
        // trimmed away; the sequence then defaults to empty.
        let kept = seq!['S', '\t'] + name;
        assert(line[0] == 'S');
        assert(line.len() == name.len() + 3);
        assert(line[line.len() - 1] == '\t');
        assert(line[line.len() - 2] == name[name.len() - 1]);
        assert(skip_spaces(line, 0) == 0);
        assert(rskip_spaces(line, line.len() - 1) == line.len() - 1);
        assert(rskip_spaces(line, line.len() as int) == line.len() - 1);
        assert(trim(line) =~= kept);
        lemma_split_single(name, '\t');
        assert(kept =~= seq!['S'] + seq!['\t'] + name);
        lemma_split_prepend(seq!['S'], '\t', name);
        let fields = split_on(trim(line), '\t');
        assert(fields == seq![seq!['S'], name]);
        assert(fields[0] == seq!['S'] && fields[0] != seq!['H']);
        assert(fields.len() == 2);
        assert(sequence =~= Seq::<char>::empty());
    } else {
        assert(line[0] == 'S');
        assert(line[line.len() - 1] == sequence[sequence.len() - 1]);
        lemma_trim_clean(line);
        lemma_split_single(sequence, '\t');
        assert(name + seq!['\t'] + sequence =~= name + seq!['\t'] + sequence);
        lemma_split_prepend(name, '\t', sequence);
        assert(line =~= seq!['S'] + seq!['\t'] + (name + seq!['\t'] + sequence));
        lemma_split_prepend(seq!['S'], '\t', name + seq!['\t'] + sequence);
        let fields = split_on(trim(line), '\t');
        assert(fields == seq![seq!['S']] + (seq![name] + seq![sequence]));
        assert(fields =~= seq![seq!['S'], name, sequence]);
        assert(fields[0] == seq!['S'] && fields[0] != seq!['H']);
        assert(fields.len() == 3);
        assert(fields[1] == name && fields[2] == sequence);
    }
}

/// Parsing one edge record of the written form.
#[verifier::rlimit(100)]
proof fn lemma_parse_l_line(
    st: GfaParseState,
    from_name: Seq<char>,
    from_sign: char,
    to_name: Seq<char>,
    to_sign: char,
    overlap: u16,
    from_index: int,
    to_index: int,
)
    requires
        from_name.len() > 0,
        to_name.len() > 0,
        forall|c: int| 0 <= c < from_name.len() ==> !is_space(#[trigger] from_name[c]),
        forall|c: int| 0 <= c < to_name.len() ==> !is_space(#[trigger] to_name[c]),
        from_sign == '+' || from_sign == '-',
        to_sign == '+' || to_sign == '-',
        lookup_name(st.nodes, from_name) == Some(from_index),
        lookup_name(st.nodes, to_name) == Some(to_index),
    ensures
        parse_line(
            st,
            seq!['L', '\t'] + from_name + seq!['\t', from_sign] + seq!['\t'] + to_name + seq![
                '\t',
                to_sign,
            ] + seq!['\t'] + u16_decimal(overlap as int) + seq!['M'],
        ) == Ok::<GfaParseState, SpecGfaError>(
            GfaParseState {
                edges: st.edges.push(
                    BidirectedEdge {
                        from: NodeIndex(from_index as usize),
                        from_forward: from_sign == '+',
                        to: NodeIndex(to_index as usize),
                        to_forward: to_sign == '+',
                        data: PlainGfaEdgeData { overlap },
                    },
                ),
                header_allowed: false,
                ..st
            },
        ),
{
    lemma_overlap_round_trip(overlap);
    let overlap_field = u16_decimal(overlap as int) + seq!['M'];
    let line = seq!['L', '\t'] + from_name + seq!['\t', from_sign] + seq!['\t'] + to_name + seq![
        '\t',
        to_sign,
    ] + seq!['\t'] + overlap_field;
    assert(line[0] == 'L');
    assert(line[line.len() - 1] == 'M') by {
        assert(line.len() == from_name.len() + to_name.len() + overlap_field.len() + 8);
        assert(overlap_field[overlap_field.len() - 1] == 'M');
    }
    lemma_trim_clean(line);

    let tail5 = overlap_field;
    let tail4 = seq![to_sign] + seq!['\t'] + tail5;
    let tail3 = to_name + seq!['\t'] + tail4;
    let tail2 = seq![from_sign] + seq!['\t'] + tail3;
    let tail1 = from_name + seq!['\t'] + tail2;
    assert(line =~= seq!['L'] + seq!['\t'] + tail1);
    lemma_split_single(tail5, '\t');
    lemma_split_prepend(seq![to_sign], '\t', tail5);
    lemma_split_prepend(to_name, '\t', tail4);
    lemma_split_prepend(seq![from_sign], '\t', tail3);
    lemma_split_prepend(from_name, '\t', tail2);
    lemma_split_prepend(seq!['L'], '\t', tail1);
    let fields = split_on(trim(line), '\t');
    assert(fields =~= seq![seq!['L'], from_name, seq![from_sign], to_name, seq![to_sign], tail5]);
    assert(fields[0] == seq!['L'] && fields[0] != seq!['H'] && fields[0] != seq!['S']);
    assert(fields.len() == 6);
    assert(fields[1] == from_name && fields[2] == seq![from_sign] && fields[3] == to_name
        && fields[4] == seq![to_sign] && fields[5] == overlap_field);
    if from_sign == '-' {
        assert(fields[2] != seq!['+'] && fields[2] == seq!['-']);
    }
    if to_sign == '-' {
        assert(fields[4] != seq!['+'] && fields[4] == seq!['-']);
    }
    assert(trim(line) == line);
    assert(line =~= seq!['L', '\t'] + from_name + seq!['\t', from_sign] + seq!['\t'] + to_name
        + seq!['\t', to_sign] + seq!['\t'] + u16_decimal(overlap as int) + seq!['M']);
    assert(fields[0] != seq!['H'] && fields[0] != seq!['S']);
    assert(lookup_name(st.nodes, fields[1]) == Some(from_index));
    assert(lookup_name(st.nodes, fields[3]) == Some(to_index));
    assert((from_sign == '+') == (fields[2] == seq!['+']));
    assert((to_sign == '+') == (fields[4] == seq!['+']));
    assert(overlap_of(fields[5]) == overlap);
}

/// Parsing the node records of the written form collects exactly the
/// graph's names and sequences.
proof fn lemma_parse_s_section<NodeData: GfaNodeData, EdgeData: GfaEdgeData>(
    g: GraphModel<NodeData, EdgeData>,
    i: int,
    rest: Seq<char>,
    st: GfaParseState,
)
    requires
        gfa_writable(g),
        0 <= i <= g.nodes.len(),
        st.nodes == parsed_nodes(g, i),
        !st.header_allowed,
    ensures
        parse_lines(s_lines_from(g, i) + rest, st) == parse_lines(
            rest,
            GfaParseState {
                nodes: parsed_nodes(g, g.nodes.len() as int),
                edges: st.edges,
                header_allowed: false,
            },
        ),
    decreases g.nodes.len() - i,
{
    if i == g.nodes.len() {
        assert(s_lines_from(g, i) + rest =~= rest);
        assert(st == (GfaParseState {
            nodes: parsed_nodes(g, g.nodes.len() as int),
            edges: st.edges,
            header_allowed: false,
        }));
    } else {
        let name = g.nodes[i].spec_name();
        let sequence = g.nodes[i].spec_sequence();
        let content = seq!['S', '\t'] + name + seq!['\t'] + sequence;
        assert(s_line(g, i) =~= content + seq!['\n']);
        assert(s_lines_from(g, i) + rest =~= content + seq!['\n'] + (s_lines_from(g, i + 1)
            + rest));
        assert forall|c: int| 0 <= c < content.len() implies content[c] != '\n' by {
            if 2 <= c < 2 + name.len() {
                assert(content[c] == name[c - 2]);
            } else if c >= 3 + name.len() {
                assert(content[c] == sequence[c - 3 - name.len()]);
            }
        }
        lemma_parse_lines_step(content, s_lines_from(g, i + 1) + rest, st);
        lemma_parse_s_line(st, name, sequence);
        let st2 = GfaParseState { nodes: st.nodes.push((name, sequence)), header_allowed: false, ..st };
        assert(st2.nodes =~= parsed_nodes(g, i + 1));
        lemma_parse_s_section(g, i + 1, rest, st2);
    }
}

/// Parsing the edge records of the written form collects exactly the edges
/// that the stored directed endpoints encode.
proof fn lemma_parse_l_section<NodeData: GfaNodeData, EdgeData: GfaEdgeData>(
    g: GraphModel<NodeData, EdgeData>,
    e: int,
    rest: Seq<char>,
    st: GfaParseState,
)
    requires
        g.wf(),
        gfa_writable(g),
        0 <= e <= g.edges.len(),
        st.nodes == parsed_nodes(g, g.nodes.len() as int),
        st.edges == parsed_edges(g, e),
        !st.header_allowed,
    ensures
        parse_lines(l_lines_from(g, e) + rest, st) == parse_lines(
            rest,
            GfaParseState {
                nodes: parsed_nodes(g, g.nodes.len() as int),
                edges: parsed_edges(g, g.edges.len() as int),
                header_allowed: false,
            },
        ),
    decreases g.edges.len() - e,
{
    let n = g.nodes.len() as int;
    if e == g.edges.len() {
        assert(l_lines_from(g, e) + rest =~= rest);
        assert(st == (GfaParseState {
            nodes: parsed_nodes(g, n),
            edges: parsed_edges(g, g.edges.len() as int),
            header_allowed: false,
        }));
    } else {
        assert(g.edge_slots_wf(e));
        let from_directed = spec_invert(g.successors[g.edges[e].reverse]);
        let to_directed = g.successors[g.edges[e].forward];
        assert(0 <= g.successors[g.edges[e].reverse] < 2 * n);
        assert(0 <= to_directed < 2 * n);
        assert(0 <= from_directed < 2 * n);
        let from_node = from_directed / 2;
        let to_node = to_directed / 2;
        assert(0 <= from_node < n && 0 <= to_node < n);
        let from_name = g.nodes[from_node].spec_name();
        let to_name = g.nodes[to_node].spec_name();
        let overlap = g.edges[e].data.spec_overlap();

        let content = seq!['L', '\t'] + from_name + seq!['\t', sign_char(from_directed)] + seq![
            '\t',
        ] + to_name + seq!['\t', sign_char(to_directed)] + seq!['\t'] + u16_decimal(overlap as int)
            + seq!['M'];
        assert(l_line(g, e) =~= content + seq!['\n']);
        assert(l_lines_from(g, e) + rest =~= content + seq!['\n'] + (l_lines_from(g, e + 1)
            + rest));
        lemma_u16_decimal_digits(overlap as int);
        let digits = u16_decimal(overlap as int);
        assert forall|c: int| 0 <= c < content.len() implies content[c] != '\n' by {
            if 2 <= c < 2 + from_name.len() {
                assert(content[c] == from_name[c - 2]);
            } else if 5 + from_name.len() <= c < 5 + from_name.len() + to_name.len() {
                assert(content[c] == to_name[c - 5 - from_name.len()]);
            } else if 8 + from_name.len() + to_name.len() <= c < 8 + from_name.len()
                + to_name.len() + digits.len() {
                assert(content[c] == digits[c - 8 - from_name.len() - to_name.len()]);
                assert(is_digit(digits[c - 8 - from_name.len() - to_name.len()]));
            }
        }
        lemma_parse_lines_step(content, l_lines_from(g, e + 1) + rest, st);

        assert forall|i1: int, j1: int|
            #![trigger st.nodes[i1], st.nodes[j1]]
            0 <= i1 < j1 < st.nodes.len() implies st.nodes[i1].0 != st.nodes[j1].0 by {
            assert(st.nodes[i1].0 == g.nodes[i1].spec_name());
            assert(st.nodes[j1].0 == g.nodes[j1].spec_name());
        }
        assert(st.nodes[from_node].0 == from_name);
        assert(st.nodes[to_node].0 == to_name);
        lemma_lookup_unique(st.nodes, from_node);
        lemma_lookup_unique(st.nodes, to_node);
        lemma_parse_l_line(
            st,
            from_name,
            sign_char(from_directed),
            to_name,
            sign_char(to_directed),
            overlap,
            from_node,
            to_node,
        );
        let parsed = BidirectedEdge {
            from: NodeIndex(from_node as usize),
            from_forward: sign_char(from_directed) == '+',
            to: NodeIndex(to_node as usize),
            to_forward: sign_char(to_directed) == '+',
            data: PlainGfaEdgeData { overlap },
        };
        assert(parsed == parsed_edge(g, e));
        let st2 = GfaParseState { edges: st.edges.push(parsed), header_allowed: false, ..st };
        assert(st2.edges =~= parsed_edges(g, e + 1));
        lemma_parse_l_section(g, e + 1, rest, st2);
    }
}

/// Round trip: reading the written form of a well-formed graph with
/// distinct, whitespace-free node names succeeds and collects exactly the
/// graph's names, sequences, and edges as the stored directed endpoints
/// encode them.
pub proof fn lemma_write_read_round_trip<NodeData: GfaNodeData, EdgeData: GfaEdgeData>(
    g: GraphModel<NodeData, EdgeData>,
)
    requires
        g.wf(),
        gfa_writable(g),
    ensures
        spec_read_gfa1(spec_write_gfa1(g)) == Ok::<GfaParseState, SpecGfaError>(
            GfaParseState {
                nodes: parsed_nodes(g, g.nodes.len() as int),
                edges: parsed_edges(g, g.edges.len() as int),
                header_allowed: false,
            },
        ),
{
    let n = g.nodes.len() as int;
    let m = g.edges.len() as int;
    lemma_s_lines_from(g, n);
    lemma_l_lines_from(g, m);
    assert(s_lines(g, n) =~= s_lines(g, n) + s_lines_from(g, n));
    assert(l_lines(g, m) =~= l_lines(g, m) + l_lines_from(g, m));
    let text = spec_write_gfa1(g);
    let body = s_lines_from(g, 0) + l_lines_from(g, 0);
    assert(text =~= header_chars().take(10) + seq!['\n'] + body);

    let st0 = GfaParseState { nodes: Seq::empty(), edges: Seq::empty(), header_allowed: true };
    lemma_parse_header_line(st0);
    lemma_parse_lines_step(header_chars().take(10), body, st0);
    let st1 = GfaParseState { header_allowed: false, ..st0 };
    assert(st1.nodes =~= parsed_nodes(g, 0));
    lemma_parse_s_section(g, 0, l_lines_from(g, 0), st1);
    let st2 = GfaParseState { nodes: parsed_nodes(g, n), edges: st1.edges, header_allowed: false };
    assert(st2.edges =~= parsed_edges(g, 0));
    lemma_parse_l_section(g, 0, Seq::empty(), st2);
    assert(l_lines_from(g, 0) + Seq::<char>::empty() =~= l_lines_from(g, 0));
    let final_state = GfaParseState {
        nodes: parsed_nodes(g, n),
        edges: parsed_edges(g, m),
        header_allowed: false,
    };
    assert(parse_lines(Seq::<char>::empty(), final_state) == Ok::<GfaParseState, SpecGfaError>(
        final_state,
    ));
}

/// Round trip, at the graph level: a graph read back from the written form
/// of a well-formed graph with distinct, whitespace-free node names compares
/// as equal to it — the same counts, node data, edge payloads, and edge
/// endpoints at every index.
pub proof fn lemma_round_trip_compare(
    a: GraphModel<PlainGfaNodeData, PlainGfaEdgeData>,
    b: GraphModel<PlainGfaNodeData, PlainGfaEdgeData>,
)
    requires
        a.wf(),
        gfa_writable(a),
        spec_read_gfa1(spec_write_gfa1(a)) is Ok,
        graph_matches_parse(b, spec_read_gfa1(spec_write_gfa1(a))->Ok_0),
    ensures
        crate::compare::spec_compare(a, b) == Ok::<(), crate::compare::GraphComparisonError>(()),
{
    lemma_write_read_round_trip(a);
    let parsed = spec_read_gfa1(spec_write_gfa1(a))->Ok_0;
    let n = a.nodes.len() as int;
    let m = a.edges.len() as int;
    assert(parsed.nodes == parsed_nodes(a, n));
    assert(parsed.edges == parsed_edges(a, m));
    assert(b.nodes.len() == n);
    assert(b.edges.len() == m);

    assert forall|i: int| 0 <= i < n implies (#[trigger] a.nodes[i]).eq_spec(&b.nodes[i]) by {
        assert(b.nodes[i].name@ == parsed.nodes[i].0);
        assert(b.nodes[i].sequence@ == parsed.nodes[i].1);
        assert(parsed.nodes[i].0 == a.nodes[i].spec_name());
        assert(parsed.nodes[i].1 == a.nodes[i].spec_sequence());
    }
    crate::compare::lemma_no_node_mismatch(a.nodes, b.nodes, 0);

    assert forall|e: int|
        0 <= e < m implies (#[trigger] a.edges[e]).data.eq_spec(&b.edges[e].data)
        && crate::compare::edge_endpoints(a, e) == crate::compare::edge_endpoints(b, e) by {
        assert(parsed.edges[e] == parsed_edge(a, e));
        assert(b.edges[e].data == parsed_edge(a, e).data);
        let from_directed = spec_invert(a.successors[a.edges[e].reverse]);
        let to_directed = a.successors[a.edges[e].forward];
        assert(a.edge_slots_wf(e));
        assert(0 <= a.successors[a.edges[e].reverse] < 2 * n);
        assert(0 <= to_directed < 2 * n);
        crate::index::lemma_invert_involutive(a.successors[a.edges[e].reverse]);
        assert((2 * e) / 2 == e && (2 * e + 1) / 2 == e);
        assert(b.successors[b.edges[e].forward] == crate::graph::claim_dest(parsed.edges, 2 * e));
        assert(b.successors[b.edges[e].reverse] == crate::graph::claim_dest(
            parsed.edges,
            2 * e + 1,
        ));
        assert(crate::graph::claim_dest(parsed.edges, 2 * e) == spec_directed_node(
            to_directed / 2,
            to_directed % 2 == 0,
        ));
        assert(spec_directed_node(to_directed / 2, to_directed % 2 == 0) == to_directed);
        assert(crate::graph::claim_dest(parsed.edges, 2 * e + 1) == spec_invert(
            spec_directed_node(from_directed / 2, from_directed % 2 == 0),
        ));
        assert(spec_directed_node(from_directed / 2, from_directed % 2 == 0) == from_directed);
        crate::index::lemma_invert_involutive(from_directed);
    }
    crate::compare::lemma_no_edge_mismatch(a, b, 0);
}

/// Writes a graph to the text format: the header line, one node record per
/// node in index order, then one edge record per edge in index order, with
/// orientation signs chosen so that the written record reproduces the
/// edge's stored sides.
#[verifier::rlimit(100)]
pub fn write_gfa1<NodeData: GfaNodeData, EdgeData: GfaEdgeData>(
    graph: &BidirectedAdjacencyArray<NodeData, EdgeData>,
) -> (r: String)
    requires
        graph@.wf(),
    ensures
        r@ == spec_write_gfa1(graph@),
{
    let ghost g = graph@;
    let mut out: Vec<char> = Vec::new();
    out.push('H');
    out.push('\t');
    out.push('V');
    out.push('N');
    out.push(':');
    out.push('Z');
    out.push(':');
    out.push('1');
    out.push('.');
    out.push('0');
    out.push('\n');
    proof {
        assert(out@ =~= header_chars());
    }

    let node_count = graph.node_count();
    for i in 0..node_count
        invariant
            g == graph@,
            g.wf(),
            node_count == g.nodes.len(),
            out@ == header_chars() + s_lines(g, i as int),
    {
        let node_data = graph.node_data(NodeIndex::new(i));
        out.push('S');
        out.push('\t');
        let mut name_chars = str_to_chars(node_data.name());
        out.append(&mut name_chars);
        out.push('\t');
        let mut sequence_chars = str_to_chars(node_data.sequence());
        out.append(&mut sequence_chars);
        out.push('\n');
        proof {
            assert(out@ =~= header_chars() + s_lines(g, i + 1));
        }
    }

    let ghost after_nodes = header_chars() + s_lines(g, g.nodes.len() as int);
    let edge_count = graph.edge_count();
    for e in 0..edge_count
        invariant
            g == graph@,
            g.wf(),
            edge_count == g.edges.len(),
            after_nodes == header_chars() + s_lines(g, g.nodes.len() as int),
            out@ == after_nodes + l_lines(g, e as int),
    {
        let edge_view = graph.edge(EdgeIndex::new(e));
        let from_directed = edge_view.from();
        let to_directed = edge_view.to();
        proof {
            assert(g.edge_slots_wf(e as int));
            assert(0 <= g.successors[g.edges[e as int].forward] < g.directed_node_count());
            assert(0 <= g.successors[g.edges[e as int].reverse] < g.directed_node_count());
            assert(0 <= from_directed@ < g.directed_node_count());
        }
        out.push('L');
        out.push('\t');
        let mut from_name = str_to_chars(graph.node_data(from_directed.into_bidirected()).name());
        out.append(&mut from_name);
        out.push('\t');
        out.push(if from_directed.is_forward() {
            '+'
        } else {
            '-'
        });
        out.push('\t');
        let mut to_name = str_to_chars(graph.node_data(to_directed.into_bidirected()).name());
        out.append(&mut to_name);
        out.push('\t');
        out.push(if to_directed.is_forward() {
            '+'
        } else {
            '-'
        });
        out.push('\t');
        push_decimal(edge_view.data().overlap(), &mut out);
        out.push('M');
        out.push('\n');
        proof {
            assert(out@ =~= after_nodes + l_lines(g, e + 1));
        }
    }
    chars_to_string(&out)
}

} // verus!

