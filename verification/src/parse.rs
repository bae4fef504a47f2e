//! Reading one line of a whitespace-separated edge list.
//!
//! A line denotes an edge when its first two whitespace-separated tokens are
//! decimal node indices; anything after them (such as an attribute field) is
//! ignored. A line with fewer than two tokens, a non-digit in a token, or a
//! value beyond `u32::MAX` denotes nothing, and ingestion aborts on it.
use vstd::prelude::*;

verus! {

/// ASCII whitespace: the separators an edge-list line may use.
pub open spec fn is_ws(b: u8) -> bool {
    b == 32 || b == 9 || b == 10 || b == 13
}

/// An ASCII decimal digit.
pub open spec fn is_digit(b: u8) -> bool {
    48 <= b <= 57
}

/// The first index at or after `i` holding a non-whitespace byte, or the end.
pub open spec fn skip_ws(s: Seq<u8>, i: int) -> int
    decreases s.len() - i,
{
    if i >= s.len() || !is_ws(s[i]) {
        i
    } else {
        skip_ws(s, i + 1)
    }
}

/// The first index at or after `i` holding whitespace, or the end.
pub open spec fn token_end(s: Seq<u8>, i: int) -> int
    decreases s.len() - i,
{
    if i >= s.len() || is_ws(s[i]) {
        i
    } else {
        token_end(s, i + 1)
    }
}

/// Whether `s[i..j]` holds digits only.
pub open spec fn all_digits(s: Seq<u8>, i: int, j: int) -> bool {
    forall|k: int| i <= k < j ==> is_digit(#[trigger] s[k])
}

/// The decimal value of the digits `s[i..j]`.
pub open spec fn dec_value(s: Seq<u8>, i: int, j: int) -> int
    decreases j - i,
{
    if j <= i {
        0
    } else {
        dec_value(s, i, j - 1) * 10 + (s[j - 1] - 48)
    }
}

/// What one edge-list line denotes: its first two tokens as decimal node
/// indices, or nothing when it is malformed.
pub open spec fn parsed_edge(s: Seq<u8>) -> Option<(u32, u32)> {
    let i1 = skip_ws(s, 0);
    let j1 = token_end(s, i1);
    let i2 = skip_ws(s, j1);
    let j2 = token_end(s, i2);
    if i1 < j1 && i2 < j2 && all_digits(s, i1, j1) && all_digits(s, i2, j2) && dec_value(s, i1, j1)
        <= u32::MAX && dec_value(s, i2, j2) <= u32::MAX {
        Option::Some((dec_value(s, i1, j1) as u32, dec_value(s, i2, j2) as u32))
    } else {
        Option::None
    }
}

proof fn lemma_skip_ws_bounds(s: Seq<u8>, i: int)
    requires
        0 <= i <= s.len(),
    ensures
        i <= skip_ws(s, i) <= s.len(),
        i <= token_end(s, i) <= s.len(),
    decreases s.len() - i,
{
    if i < s.len() {
        lemma_skip_ws_bounds(s, i + 1);
    }
}

/// A digit token's value is never negative.
proof fn lemma_dec_value_nonneg(s: Seq<u8>, i: int, j: int)
    requires
        i <= j,
        all_digits(s, i, j),
    ensures
        dec_value(s, i, j) >= 0,
    decreases j - i,
{
    if j > i {
        lemma_dec_value_nonneg(s, i, j - 1);
        assert(dec_value(s, i, j) == dec_value(s, i, j - 1) * 10 + (s[j - 1] - 48));
        assert(dec_value(s, i, j - 1) * 10 >= 0) by (nonlinear_arith)
            requires
                dec_value(s, i, j - 1) >= 0,
        ;
    }
}

/// Appending more digits never shrinks a token's value.
proof fn lemma_dec_value_grows(s: Seq<u8>, i: int, k: int, j: int)
    requires
        i <= k <= j,
        all_digits(s, i, j),
    ensures
        dec_value(s, i, j) >= dec_value(s, i, k),
    decreases j - k,
{
    if k < j {
        lemma_dec_value_grows(s, i, k, j - 1);
        lemma_dec_value_nonneg(s, i, j - 1);
        assert(dec_value(s, i, j) == dec_value(s, i, j - 1) * 10 + (s[j - 1] - 48));
        assert(dec_value(s, i, j - 1) * 10 >= dec_value(s, i, j - 1)) by (nonlinear_arith)
            requires
                dec_value(s, i, j - 1) >= 0,
        ;
    }
}

/// Advances past whitespace.
fn scan_ws(line: &[u8], from: usize) -> (r: usize)
    requires
        from <= line@.len(),
    ensures
        r == skip_ws(line@, from as int),
        from <= r <= line@.len(),
{
    let mut i = from;
    while i < line.len() && (line[i] == 32 || line[i] == 9 || line[i] == 10 || line[i] == 13)
        invariant
            from <= i <= line@.len(),
            skip_ws(line@, from as int) == skip_ws(line@, i as int),
        decreases line@.len() - i,
    {
        i += 1;
    }
    i
}

/// Advances to the end of the current token.
fn scan_token_end(line: &[u8], from: usize) -> (r: usize)
    requires
        from <= line@.len(),
    ensures
        r == token_end(line@, from as int),
        from <= r <= line@.len(),
{
    let mut i = from;
    while i < line.len() && !(line[i] == 32 || line[i] == 9 || line[i] == 10 || line[i] == 13)
        invariant
            from <= i <= line@.len(),
            token_end(line@, from as int) == token_end(line@, i as int),
        decreases line@.len() - i,
    {
        i += 1;
    }
    i
}

/// Reads the decimal value of `line[i..j]`: `None` on a non-digit or when the
/// value does not fit a `u32`.
fn parse_token(line: &[u8], i: usize, j: usize) -> (r: Option<u32>)
    requires
        i <= j <= line@.len(),
    ensures
        r is Some <==> all_digits(line@, i as int, j as int) && dec_value(line@, i as int, j as int)
            <= u32::MAX,
        r is Some ==> r->0 == dec_value(line@, i as int, j as int) as u32,
{
    let mut acc: u64 = 0;
    let mut over: bool = false;
    let mut k = i;
    while k < j
        invariant
            i <= k <= j <= line@.len(),
            all_digits(line@, i as int, k as int),
            !over ==> acc == dec_value(line@, i as int, k as int) && acc <= u32::MAX as u64,
            over ==> dec_value(line@, i as int, k as int) > u32::MAX,
        decreases j - k,
    {
        let b = line[k];
        if b < 48 || b > 57 {
            return Option::None;
        }
        if !over {
            let next: u64 = acc * 10 + ((b - 48) as u64);
            if next > u32::MAX as u64 {
                over = true;
            } else {
                acc = next;
            }
            proof {
                assert(dec_value(line@, i as int, k as int + 1) == dec_value(
                    line@,
                    i as int,
                    k as int,
                ) * 10 + (line@[k as int] - 48));
            }
        } else {
            proof {
                lemma_dec_value_grows(line@, i as int, k as int, k as int + 1);
            }
        }
        k += 1;
    }
    if over {
        Option::None
    } else {
        Option::Some(acc as u32)
    }
}

/// Reads one edge-list line: `Some` exactly when the line's first two
/// whitespace-separated tokens are decimal values fitting `u32`, and then
/// precisely those two values.
pub fn parse_edge_line(line: &[u8]) -> (r: Option<(u32, u32)>)
    ensures
        r == parsed_edge(line@),
{
    proof {
        lemma_skip_ws_bounds(line@, 0);
    }
    let i1 = scan_ws(line, 0);
    let j1 = scan_token_end(line, i1);
    proof {
        lemma_skip_ws_bounds(line@, j1 as int);
    }
    let i2 = scan_ws(line, j1);
    let j2 = scan_token_end(line, i2);
    if i1 == j1 || i2 == j2 {
        return Option::None;
    }
    let a = match parse_token(line, i1, j1) {
        Option::Some(v) => v,
        Option::None => {
            return Option::None;
        },
    };
    let b = match parse_token(line, i2, j2) {
        Option::Some(v) => v,
        Option::None => {
            return Option::None;
        },
    };
    Option::Some((a, b))
}

} // verus!
