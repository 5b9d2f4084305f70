//! The edge-list text format: one connection per line, given as two node
//! identifiers separated by white space.

use crate::edge_set::EdgeSet;
use crate::graph::{has_arc, is_symmetric, reversed, Edge};
use crate::graph_analysis::GraphData;
use vstd::prelude::*;
use vstd::std_specs::iter::IteratorSpec;

verus! {

/// What one line of an edge list says.
#[derive(Debug, Clone, Copy, PartialEq, Eq, Structural)]
pub enum Record {
    /// A comment, or a line that does not have exactly two fields.
    Skipped,
    /// A connection between two nodes.
    Connection(u32, u32),
    /// Two fields, at least one of which is not a node identifier.
    Invalid,
}

/// Why an edge list could not be loaded.
#[derive(Debug, Clone, Copy, PartialEq, Eq, Structural)]
pub enum LoadError {
    /// The line with this index, counted from 0, holds a field that is not a
    /// node identifier.
    InvalidNumber(usize),
}

/// The characters that separate fields: the Unicode white space.
pub open spec fn is_space(c: char) -> bool {
    let n = c as u32;
    ||| 0x09 <= n <= 0x0d
    ||| n == 0x20
    ||| n == 0x85
    ||| n == 0xa0
    ||| n == 0x1680
    ||| 0x2000 <= n <= 0x200a
    ||| n == 0x2028
    ||| n == 0x2029
    ||| n == 0x202f
    ||| n == 0x205f
    ||| n == 0x3000
}

/// The decimal digits.
pub open spec fn is_digit(c: char) -> bool {
    0x30 <= c as u32 <= 0x39
}

/// The first position at or after `i` that holds no white space; the end of
/// the line where there is none.
pub open spec fn skip_spaces(line: Seq<char>, i: int) -> int
    decreases line.len() - i,
{
    if 0 <= i < line.len() && is_space(line[i]) {
        skip_spaces(line, i + 1)
    } else {
        i
    }
}

/// The first position at or after `i` that holds white space; the end of the
/// line where there is none.
pub open spec fn skip_word(line: Seq<char>, i: int) -> int
    decreases line.len() - i,
{
    if 0 <= i < line.len() && !is_space(line[i]) {
        skip_word(line, i + 1)
    } else {
        i
    }
}

/// The two fields of a line that has exactly two.
pub open spec fn two_fields(line: Seq<char>) -> Option<(Seq<char>, Seq<char>)> {
    let a = skip_spaces(line, 0);
    let b = skip_word(line, a);
    let c = skip_spaces(line, b);
    let d = skip_word(line, c);
    let e = skip_spaces(line, d);
    if a < b && c < d && e == line.len() {
        Some((line.subrange(a, b), line.subrange(c, d)))
    } else {
        None
    }
}

/// The number that a string of decimal digits writes.
pub open spec fn digits_value(digits: Seq<char>) -> nat
    decreases digits.len(),
{
    if digits.len() == 0 {
        0
    } else {
        digits_value(digits.drop_last()) * 10 + (digits.last() as u32 - 0x30) as nat
    }
}

/// Whether every character is a decimal digit.
pub open spec fn all_digits(s: Seq<char>) -> bool {
    forall|i: int| 0 <= i < s.len() ==> is_digit(#[trigger] s[i])
}

/// The node identifier that a string of digits writes: at least one digit,
/// with a value that fits in 32 bits.
pub open spec fn digits_id(digits: Seq<char>) -> Option<u32> {
    if digits.len() > 0 && all_digits(digits) && digits_value(digits) <= u32::MAX {
        Some(digits_value(digits) as u32)
    } else {
        None
    }
}

/// The node identifier that a field writes: decimal digits after an optional `+`.
pub open spec fn parse_id(field: Seq<char>) -> Option<u32> {
    if field.len() > 0 && field[0] == '+' {
        digits_id(field.subrange(1, field.len() as int))
    } else {
        digits_id(field)
    }
}

/// What a line says. A line that starts with `#` is a comment.
pub open spec fn record_of(line: Seq<char>) -> Record {
    if line.len() > 0 && line[0] == '#' {
        Record::Skipped
    } else {
        match two_fields(line) {
            None => Record::Skipped,
            Some((first, second)) => match (parse_id(first), parse_id(second)) {
                (Some(a), Some(b)) => Record::Connection(a, b),
                _ => Record::Invalid,
            },
        }
    }
}

/// Whether some line among the first `n` connects the endpoints of `e`, in
/// either direction.
pub open spec fn connected_by(lines: Seq<String>, n: int, e: Edge) -> bool {
    exists|i: int|
        0 <= i < n && i < lines.len() && (record_of(#[trigger] lines[i]@) == Record::Connection(
            e.from,
            e.to,
        ) || record_of(lines[i]@) == Record::Connection(e.to, e.from))
}

/// The arcs that the lines describe: both directions of every connection.
pub open spec fn arcs_of_lines(lines: Seq<String>) -> Set<Edge> {
    Set::new(|e: Edge| connected_by(lines, lines.len() as int, e))
}

/// Whether the line with index `i` is the first invalid one.
pub open spec fn first_invalid(lines: Seq<String>, i: int) -> bool {
    &&& 0 <= i < lines.len()
    &&& record_of(lines[i]@) == Record::Invalid
    &&& forall|k: int| 0 <= k < i ==> record_of(#[trigger] lines[k]@) != Record::Invalid
}

/// The arcs of an edge list come in pairs: with every arc its reverse.
pub proof fn lemma_arcs_of_lines_symmetric(lines: Seq<String>, e: Edge)
    ensures
        arcs_of_lines(lines).contains(e) <==> arcs_of_lines(lines).contains(reversed(e)),
{
    let n = lines.len() as int;
    if connected_by(lines, n, e) {
        let i = choose|i: int|
            0 <= i < n && i < lines.len() && (record_of(#[trigger] lines[i]@)
                == Record::Connection(e.from, e.to) || record_of(lines[i]@) == Record::Connection(
                e.to,
                e.from,
            ));
        assert(record_of(lines[i]@) == Record::Connection(reversed(e).to, reversed(e).from)
            || record_of(lines[i]@) == Record::Connection(reversed(e).from, reversed(e).to));
        assert(connected_by(lines, n, reversed(e)));
    }
    if connected_by(lines, n, reversed(e)) {
        let r = reversed(e);
        let i = choose|i: int|
            0 <= i < n && i < lines.len() && (record_of(#[trigger] lines[i]@)
                == Record::Connection(r.from, r.to) || record_of(lines[i]@) == Record::Connection(
                r.to,
                r.from,
            ));
        assert(record_of(lines[i]@) == Record::Connection(e.to, e.from) || record_of(lines[i]@)
            == Record::Connection(e.from, e.to));
        assert(connected_by(lines, n, e));
    }
}

/// A graph built from a list of arcs that holds the reverse of each of its
/// arcs stores every arc in both directions.
pub proof fn lemma_graph_of_paired_arcs_symmetric(g: Map<u32, Seq<u32>>, arcs: Seq<Edge>)
    requires
        forall|a: u32, b: u32| has_arc(g, a, b) <==> arcs.contains(Edge { from: a, to: b }),
        forall|e: Edge| arcs.contains(e) ==> arcs.contains(reversed(e)),
    ensures
        is_symmetric(g),
{
    assert forall|a: u32, b: u32| has_arc(g, a, b) implies has_arc(g, b, a) by {
        let e = Edge { from: a, to: b };
        assert(arcs.contains(e));
        assert(arcs.contains(reversed(e)));
    }
}

/// A prefix of a digit string never writes a greater number than the whole.
proof fn lemma_digits_value_prefix(digits: Seq<char>, n: int)
    requires
        0 <= n <= digits.len(),
        all_digits(digits),
    ensures
        digits_value(digits.take(n)) <= digits_value(digits),
    decreases digits.len() - n,
{
    if n < digits.len() {
        lemma_digits_value_prefix(digits, n + 1);
        let longer = digits.take(n + 1);
        assert(longer.drop_last() =~= digits.take(n));
        assert(is_digit(digits[n]));
        assert(longer.last() == digits[n]);
    } else {
        assert(digits.take(n) =~= digits);
    }
}

fn is_whitespace(c: char) -> (space: bool)
    ensures
        space == is_space(c),
{
    let n = c as u32;
    (0x09 <= n && n <= 0x0d) || n == 0x20 || n == 0x85 || n == 0xa0 || n == 0x1680 || (0x2000 <= n
        && n <= 0x200a) || n == 0x2028 || n == 0x2029 || n == 0x202f || n == 0x205f || n == 0x3000
}

/// The characters of a string, in order.
fn chars_of(text: &str) -> (chars: Vec<char>)
    ensures
        chars@ == text@,
{
    broadcast use vstd::string::group_string_axioms;

    let mut chars: Vec<char> = Vec::new();
    for c in it: text.chars()
        invariant
            it.seq() == text@,
            chars@ == text@.take(it.index()),
    {
        chars.push(c);
        assert(chars@ =~= text@.take(it.index() + 1));
    }
    assert(chars@ =~= text@);
    chars
}

fn past_spaces(line: &Vec<char>, from: usize) -> (to: usize)
    requires
        from <= line.len(),
    ensures
        to == skip_spaces(line@, from as int),
        from <= to <= line.len(),
{
    let mut j = from;
    while j < line.len() && is_whitespace(line[j])
        invariant
            from <= j <= line.len(),
            skip_spaces(line@, from as int) == skip_spaces(line@, j as int),
        decreases line.len() - j,
    {
        j += 1;
    }
    j
}

fn past_word(line: &Vec<char>, from: usize) -> (to: usize)
    requires
        from <= line.len(),
    ensures
        to == skip_word(line@, from as int),
        from <= to <= line.len(),
{
    let mut j = from;
    while j < line.len() && !is_whitespace(line[j])
        invariant
            from <= j <= line.len(),
            skip_word(line@, from as int) == skip_word(line@, j as int),
        decreases line.len() - j,
    {
        j += 1;
    }
    j
}

/// Reads the field `line[from..to]` as a node identifier.
fn parse_node_id(line: &Vec<char>, from: usize, to: usize) -> (id: Option<u32>)
    requires
        from <= to <= line.len(),
    ensures
        id == parse_id(line@.subrange(from as int, to as int)),
{
    let ghost field = line@.subrange(from as int, to as int);
    let start = if from < to && line[from] == '+' {
        from + 1
    } else {
        from
    };
    let ghost digits = line@.subrange(start as int, to as int);
    proof {
        if from < to {
            assert(field[0] == line@[from as int]);
        }
        if start == from {
            assert(digits =~= field);
        } else {
            assert(digits =~= field.subrange(1, field.len() as int));
        }
    }
    if start == to {
        return None;
    }
    let mut value: u64 = 0;
    let mut k = start;
    while k < to
        invariant
            from <= start <= k <= to <= line.len(),
            start < to,
            digits == line@.subrange(start as int, to as int),
            parse_id(line@.subrange(from as int, to as int)) == digits_id(digits),
            all_digits(digits.take(k - start)),
            value == digits_value(digits.take(k - start)),
            value <= u32::MAX,
        decreases to - k,
    {
        let c = line[k];
        let n = c as u32;
        proof {
            assert(digits[k - start] == c);
        }
        if n < 0x30 || n > 0x39 {
            proof {
                assert(!is_digit(digits[k - start]));
            }
            return None;
        }
        let ghost shorter = digits.take(k - start);
        let ghost longer = digits.take(k - start + 1);
        proof {
            assert(longer.drop_last() =~= shorter);
            assert(longer.last() == c);
            assert forall|i: int| 0 <= i < longer.len() implies is_digit(#[trigger] longer[i]) by {
                if i < shorter.len() {
                    assert(shorter[i] == longer[i]);
                }
            }
        }
        value = value * 10 + (n - 0x30) as u64;
        if value > 0xffff_ffff {
            proof {
                if all_digits(digits) {
                    lemma_digits_value_prefix(digits, k - start + 1);
                }
            }
            return None;
        }
        k += 1;
    }
    proof {
        assert(digits.take(k - start) =~= digits);
    }
    Some(value as u32)
}

/// Reads one line of an edge list.
pub fn parse_line(line: &str) -> (record: Record)
    ensures
        record == record_of(line@),
{
    let chars = chars_of(line);
    if chars.len() > 0 && chars[0] == '#' {
        return Record::Skipped;
    }
    let a = past_spaces(&chars, 0);
    let b = past_word(&chars, a);
    let c = past_spaces(&chars, b);
    let d = past_word(&chars, c);
    let e = past_spaces(&chars, d);
    if !(a < b && c < d && e == chars.len()) {
        return Record::Skipped;
    }
    match parse_node_id(&chars, a, b) {
        Some(from) => match parse_node_id(&chars, c, d) {
            Some(to) => Record::Connection(from, to),
            None => Record::Invalid,
        },
        None => Record::Invalid,
    }
}

/// Reads an edge list, one record per line.
///
/// Comments and lines that do not have exactly two fields are passed over.
/// Every connection yields its two arcs, once each however often the lines
/// repeat it; a connection of a node with itself yields its one arc. The arcs
/// come in no particular order. The first line with a field that is not a
/// node identifier makes the whole list invalid.
pub fn edges_from_lines(lines: &Vec<String>) -> (loaded: Result<GraphData, LoadError>)
    ensures
        match loaded {
            Ok(data) => {
                &&& forall|i: int|
                    0 <= i < lines@.len() ==> record_of(#[trigger] lines@[i]@) != Record::Invalid
                &&& data matches GraphData::Edges(arcs)
                &&& arcs@.no_duplicates()
                &&& arcs@.to_set() == arcs_of_lines(lines@)
            },
            Err(LoadError::InvalidNumber(i)) => first_invalid(lines@, i as int),
        },
{
    let mut edges_set = EdgeSet::new();
    let mut i: usize = 0;
    while i < lines.len()
        invariant
            i <= lines.len(),
            forall|k: int| 0 <= k < i ==> record_of(#[trigger] lines@[k]@) != Record::Invalid,
            forall|e: Edge| edges_set@.contains(e) <==> connected_by(lines@, i as int, e),
        decreases lines.len() - i,
    {
        let record = parse_line(lines[i].as_str());
        match record {
            Record::Skipped => {},
            Record::Connection(from, to) => {
                if !edges_set.contains(&Edge { from: to, to: from }) {
                    edges_set.insert(Edge { from, to });
                    edges_set.insert(Edge { from: to, to: from });
                }
            },
            Record::Invalid => {
                return Err(LoadError::InvalidNumber(i));
            },
        }
        proof {
            assert forall|e: Edge| edges_set@.contains(e) <==> connected_by(
                lines@,
                i + 1,
                e,
            ) by {
                if connected_by(lines@, i + 1, e) {
                    let k = choose|k: int|
                        0 <= k < i + 1 && k < lines@.len() && (record_of(#[trigger] lines@[k]@)
                            == Record::Connection(e.from, e.to) || record_of(lines@[k]@)
                            == Record::Connection(e.to, e.from));
                    if k < i {
                        assert(connected_by(lines@, i as int, e));
                    }
                }
                if connected_by(lines@, i as int, e) {
                    let k = choose|k: int|
                        0 <= k < i && k < lines@.len() && (record_of(#[trigger] lines@[k]@)
                            == Record::Connection(e.from, e.to) || record_of(lines@[k]@)
                            == Record::Connection(e.to, e.from));
                    assert(0 <= k < i + 1);
                }
                if let Record::Connection(from, to) = record {
                    let forth = Edge { from, to };
                    let back = Edge { from: to, to: from };
                    assert(record_of(lines@[i as int]@) == Record::Connection(from, to));
                    assert(connected_by(lines@, i + 1, forth));
                    assert(connected_by(lines@, i + 1, back));
                    assert(connected_by(lines@, i as int, forth) <==> connected_by(
                        lines@,
                        i as int,
                        back,
                    ));
                }
            }
        }
        i += 1;
    }
    let arcs = edges_set.to_vec();
    proof {
        assert(arcs@.to_set() =~= arcs_of_lines(lines@));
    }
    Ok(GraphData::Edges(arcs))
}

} // verus!
