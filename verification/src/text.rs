//! The text of an instance: comment lines, one header line that gives the
//! number of vertices, and one line for each positive edge.
//!
//! A line ends at a line feed; a carriage return before it is not part of
//! the line. The fields of a line are separated by single spaces. A line
//! whose first field is `c` is a comment. The header is the first line that
//! is no comment: its fields are `p`, `cep` and the number of vertices;
//! what follows them is not looked at. Every line behind it that is no
//! comment starts with two numbers, the ends of an edge.

use vstd::prelude::*;
use vstd::slice::*;
use crate::graph::Graph;
use crate::load::{InvalidInput, build, fits, names_pair, named};

verus! {

/// Whether the byte is a decimal digit.
pub open spec fn is_digit(b: u8) -> bool {
    48 <= b <= 57
}

/// The number that the digits at `lo..hi` spell.
pub open spec fn digits_value(s: Seq<u8>, lo: int, hi: int) -> int
    decreases hi - lo,
{
    if hi <= lo {
        0
    } else {
        digits_value(s, lo, hi - 1) * 10 + (s[hi - 1] - 48)
    }
}

/// The number that the field at `lo..hi` spells: the field is not empty,
/// holds digits only, and the number fits the machine.
pub open spec fn number(s: Seq<u8>, lo: int, hi: int) -> Option<usize> {
    if 0 <= lo < hi <= s.len() && (forall|k: int| lo <= k < hi ==> is_digit(#[trigger] s[k]))
        && digits_value(s, lo, hi) <= usize::MAX {
        Some(digits_value(s, lo, hi) as usize)
    } else {
        None
    }
}

/// Where the field that starts at `from` ends: at the next space before `end`, or at `end`.
pub open spec fn field_end(s: Seq<u8>, from: int, end: int) -> int
    decreases end - from,
{
    if from >= end || from < 0 || from >= s.len() || s[from] == 32 {
        from
    } else {
        field_end(s, from + 1, end)
    }
}

/// Where the line that starts at `from` ends: at the next line feed, or at the end of the text.
pub open spec fn line_end(s: Seq<u8>, from: int) -> int
    decreases s.len() - from,
{
    if from >= s.len() || from < 0 || s[from] == 10 {
        from
    } else {
        line_end(s, from + 1)
    }
}

/// Where the fields of the line at `from..end` end: before a carriage return that ends it.
pub open spec fn fields_end(s: Seq<u8>, from: int, end: int) -> int {
    if from < end && s[end - 1] == 13 {
        end - 1
    } else {
        end
    }
}

/// Whether the first field of the line at `from..end` is `c`.
pub open spec fn is_comment(s: Seq<u8>, from: int, end: int) -> bool {
    from < end && s[from] == 99 && field_end(s, from, end) == from + 1
}

/// The number of vertices that the line at `from..end` gives, if it is a header.
pub open spec fn header_of(s: Seq<u8>, from: int, end: int) -> Option<usize> {
    let a0 = field_end(s, from, end);
    let a1 = field_end(s, a0 + 1, end);
    let a2 = field_end(s, a1 + 1, end);
    if from < end && s[from] == 112 && a0 == from + 1 && a1 == a0 + 4 && a1 <= end && s[a0 + 1]
        == 99 && s[a0 + 2] == 101 && s[a0 + 3] == 112 {
        number(s, a1 + 1, a2)
    } else {
        None
    }
}

/// The edge that the line at `from..end` gives, if its first two fields are numbers.
pub open spec fn pair_of(s: Seq<u8>, from: int, end: int) -> Option<(usize, usize)> {
    let a0 = field_end(s, from, end);
    let a1 = field_end(s, a0 + 1, end);
    match (number(s, from, a0), number(s, a0 + 1, a1)) {
        (Some(u), Some(v)) => Some((u, v)),
        _ => None,
    }
}

/// The number of vertices and where the line behind the header starts,
/// for the text from `from` on.
pub open spec fn header_from(s: Seq<u8>, from: int) -> Option<(usize, int)>
    decreases s.len() + 1 - from,
{
    if from >= s.len() || from < 0 {
        None
    } else {
        let e = line_end(s, from);
        let ce = fields_end(s, from, e);
        if from <= e <= s.len() {
            if is_comment(s, from, ce) {
                header_from(s, e + 1)
            } else {
                match header_of(s, from, ce) {
                    Some(n) => Some((n, e + 1)),
                    None => None,
                }
            }
        } else {
            None
        }
    }
}

/// The edges that the lines from `from` on give.
pub open spec fn pairs_from(s: Seq<u8>, from: int) -> Option<Seq<(usize, usize)>>
    decreases s.len() + 1 - from,
{
    if from >= s.len() || from < 0 {
        Some(Seq::empty())
    } else {
        let e = line_end(s, from);
        let ce = fields_end(s, from, e);
        if from <= e <= s.len() {
            if is_comment(s, from, ce) {
                pairs_from(s, e + 1)
            } else {
                match (pair_of(s, from, ce), pairs_from(s, e + 1)) {
                    (Some(p), Some(rest)) => Some(seq![p] + rest),
                    _ => None,
                }
            }
        } else {
            None
        }
    }
}

/// What the text says: the number of vertices and the edges.
pub open spec fn instance_of(s: Seq<u8>) -> Option<(usize, Seq<(usize, usize)>)> {
    match header_from(s, 0) {
        Some((n, next)) => match pairs_from(s, next) {
            Some(pairs) => Some((n, pairs)),
            None => None,
        },
        None => None,
    }
}

/// The value of digits grows with every digit.
pub proof fn lemma_digits_grow(s: Seq<u8>, lo: int, mid: int, hi: int)
    requires
        0 <= lo <= mid <= hi <= s.len(),
        forall|k: int| lo <= k < hi ==> is_digit(#[trigger] s[k]),
    ensures
        0 <= digits_value(s, lo, mid) <= digits_value(s, lo, hi),
    decreases hi - mid,
{
    if mid < hi {
        lemma_digits_grow(s, lo, mid, hi - 1);
        assert(is_digit(s[hi - 1]));
    } else {
        lemma_digits_nonneg(s, lo, mid);
    }
}

/// The value of digits is not negative.

pub proof fn lemma_digits_nonneg(s: Seq<u8>, lo: int, hi: int)
    requires
        0 <= lo <= hi <= s.len(),
        forall|k: int| lo <= k < hi ==> is_digit(#[trigger] s[k]),
    ensures
        0 <= digits_value(s, lo, hi),
    decreases hi - lo,
{
    if lo < hi {
        lemma_digits_nonneg(s, lo, hi - 1);
        assert(is_digit(s[hi - 1]));
    }
}

/// Finds the end of the line that starts at `from`.
fn find_line_end(input: &[u8], from: usize) -> (end: usize)
    requires
        from <= input.len(),
    ensures
        end == line_end(input@, from as int),
        from <= end <= input.len(),
{
    let mut k: usize = from;
    while k < input.len() && input[k] != 10
        invariant
            from <= k <= input.len(),
            line_end(input@, from as int) == line_end(input@, k as int),
        decreases input.len() - k,
    {
        k += 1;
    }
    k
}

/// Finds the end of the field that starts at `from` in a line that ends at `end`.
fn find_field_end(input: &[u8], from: usize, end: usize) -> (stop: usize)
    requires
        end <= input.len(),
        input.len() < usize::MAX,
    ensures
        stop == field_end(input@, from as int, end as int),
        from <= end ==> from <= stop <= end,
        from > end ==> stop == from,
{
    let mut k: usize = from;
    while k < end && input[k] != 32
        invariant
            end <= input.len(),
            from <= k,
            from <= end ==> k <= end,
            from > end ==> k == from,
            field_end(input@, from as int, end as int) == field_end(input@, k as int, end as int),
        decreases end - k,
    {
        k += 1;
    }
    k
}

/// Reads the number that the field at `lo..hi` spells.
fn read_number(input: &[u8], lo: usize, hi: usize) -> (res: Option<usize>)
    ensures
        res == number(input@, lo as int, hi as int),
{
    if lo >= hi || hi > input.len() {
        return None;
    }
    let mut value: usize = 0;
    let mut k: usize = lo;
    while k < hi
        invariant
            lo <= k <= hi <= input.len(),
            forall|j: int| lo <= j < k ==> is_digit(#[trigger] input@[j]),
            value == digits_value(input@, lo as int, k as int),
        decreases hi - k,
    {
        let b: u8 = input[k];
        if b < 48 || b > 57 {
            return None;
        }
        let d: usize = (b - 48) as usize;
        if value > (usize::MAX - d) / 10 {
            proof {
                if forall|j: int| lo <= j < hi ==> is_digit(#[trigger] input@[j]) {
                    lemma_digits_grow(input@, lo as int, k as int + 1, hi as int);
                }
            }
            return None;
        }
        value = value * 10 + d;
        k += 1;
    }
    Some(value)
}

/// Reads the text of an instance: the number of vertices and the edges.
pub fn read(input: &[u8]) -> (res: Result<(usize, Vec<(usize, usize)>), InvalidInput>)
    requires
        input.len() <= isize::MAX,
    ensures
        res is Ok <==> instance_of(input@) is Some,
        res is Ok ==> instance_of(input@) == Some((res->Ok_0.0, res->Ok_0.1@)),
{
    let len: usize = input.len();
    let mut from: usize = 0;
    let mut header: Option<usize> = None;
    while from < len && header.is_none()
        invariant
            len == input.len(),
            len <= isize::MAX,
            from <= len + 1,
            header is None ==> header_from(input@, 0) == header_from(input@, from as int),
            header is Some ==> header_from(input@, 0) == Some((header->Some_0, from as int))
                && from <= len + 1,
        decreases len + 1 - from + if header is None { 1int } else { 0int },
    {
        let e: usize = find_line_end(input, from);
        let ce: usize = if from < e && input[e - 1] == 13 {
            e - 1
        } else {
            e
        };
        let a0: usize = find_field_end(input, from, ce);
        if from < ce && input[from] == 99 && a0 == from + 1 {
            from = e + 1;
        } else {
            let a1: usize = find_field_end(input, a0 + 1, ce);
            let a2: usize = find_field_end(input, a1 + 1, ce);
            if from < ce && input[from] == 112 && a0 == from + 1 && a1 == a0 + 4 && a1 <= ce
                && input[a0 + 1] == 99 && input[a0 + 2] == 101 && input[a0 + 3] == 112 {
                match read_number(input, a1 + 1, a2) {
                    Some(n) => {
                        header = Some(n);
                        from = e + 1;
                    },
                    None => {
                        return Err(InvalidInput);
                    },
                }
            } else {
                return Err(InvalidInput);
            }
        }
    }
    let n: usize = match header {
        Some(n) => n,
        None => {
            return Err(InvalidInput);
        },
    };
    let ghost start = from as int;
    let mut pairs: Vec<(usize, usize)> = Vec::new();
    while from < len
        invariant
            len == input.len(),
            len <= isize::MAX,
            from <= len + 1,
            header_from(input@, 0) == Some((n, start)),
            pairs_from(input@, start) == match pairs_from(input@, from as int) {
                Some(rest) => Some(pairs@ + rest),
                None => None,
            },
        decreases len + 1 - from,
    {
        let e: usize = find_line_end(input, from);
        let ce: usize = if from < e && input[e - 1] == 13 {
            e - 1
        } else {
            e
        };
        let a0: usize = find_field_end(input, from, ce);
        if from < ce && input[from] == 99 && a0 == from + 1 {
            from = e + 1;
        } else {
            let a1: usize = find_field_end(input, a0 + 1, ce);
            let u = read_number(input, from, a0);
            let v = read_number(input, a0 + 1, a1);
            match (u, v) {
                (Some(u), Some(v)) => {
                    let ghost before = pairs@;
                    pairs.push((u, v));
                    proof {
                        match pairs_from(input@, e as int + 1) {
                            Some(rest) => {
                                assert(before + (seq![(u, v)] + rest) =~= pairs@ + rest);
                            },
                            None => {},
                        }
                    }
                    from = e + 1;
                },
                _ => {
                    proof {
                        assert(pair_of(input@, from as int, ce as int) is None);
                        assert(pairs_from(input@, from as int) is None);
                    }
                    return Err(InvalidInput);
                },
            }
        }
    }
    proof {
        assert(pairs@ + Seq::<(usize, usize)>::empty() =~= pairs@);
    }
    Ok((n, pairs))
}

/// Reads the text of an instance and builds its graph. The text is
/// refused where it is no instance, where an edge does not name two
/// different vertices, or where the graph does not fit the machine.
pub fn parse(input: &[u8]) -> (res: Result<Graph, InvalidInput>)
    requires
        input.len() <= isize::MAX,
    ensures
        res is Ok <==> instance_of(input@) is Some && fits(instance_of(input@)->Some_0.0 as int)
            && forall|j: int|
            0 <= j < instance_of(input@)->Some_0.1.len() ==> names_pair(
                instance_of(input@)->Some_0.0 as int,
                #[trigger] instance_of(input@)->Some_0.1[j],
            ),
        res is Ok ==> {
            let g = res->Ok_0;
            let n = instance_of(input@)->Some_0.0;
            let pairs = instance_of(input@)->Some_0.1;
            &&& g.wf()
            &&& g.cap() == 2 * n
            &&& g.len == n
            &&& g.active@ == Seq::new(n as nat, |k: int| k as usize)
            &&& forall|v: int| 0 <= v < g.cap() ==> #[trigger] g.vertex_merged@[v] is None
            &&& forall|a: int, b: int|
                0 <= a < n && 0 <= b < n && a != b ==> #[trigger] g.edge(a, b) == (
                crate::graph::Edge {
                    weight: if named(pairs, pairs.len() as int, a, b) {
                        1i32
                    } else {
                        -1i32
                    },
                    fixed: false,
                })
        },
{
    match read(input) {
        Ok((n, pairs)) => {
            let res = build(n, &pairs);
            proof {
                let inst = instance_of(input@);
                assert(inst == Some((n, pairs@)));
                assert(inst->Some_0.0 == n);
                assert(inst->Some_0.1 == pairs@);
                let all = forall|j: int|
                    0 <= j < pairs.len() ==> names_pair(n as int, #[trigger] pairs@[j]);
                assert(res is Ok <==> fits(n as int) && all);
                assert(all == forall|j: int|
                    0 <= j < inst->Some_0.1.len() ==> names_pair(
                        inst->Some_0.0 as int,
                        #[trigger] inst->Some_0.1[j],
                    ));
            }
            res
        },
        Err(e) => {
            proof {
                assert(instance_of(input@) is None);
            }
            Err(e)
        },
    }
}

} // verus!
