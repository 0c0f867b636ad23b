//! Reading lines and numbers of the instance format.

use vstd::prelude::*;

use crate::entries::{checked_total, pair_total};
use crate::error::{Field, LineKind, ParseError};
use crate::number::{parse_u32, parse_unsigned, parse_usize};
use crate::text::{split_tokens, tokens_of};

verus! {

/// The character sequences of a list of tokens.
pub open spec fn token_views(tokens: Seq<Vec<char>>) -> Seq<Seq<char>> {
    tokens.map_values(|t: Vec<char>| t@)
}

/// The character sequences of a list of lines.
pub open spec fn token_lines(lines: Seq<Vec<char>>) -> Seq<Seq<char>> {
    lines.map_values(|l: Vec<char>| l@)
}

/// The pair lists of a list of records.
pub open spec fn record_views(records: Seq<Vec<(usize, u32)>>) -> Seq<Seq<(usize, u32)>> {
    records.map_values(|r: Vec<(usize, u32)>| r@)
}

/// The token at `index` read as the number `field`.
pub open spec fn spec_field(tokens: Seq<Seq<char>>, index: int, field: Field) -> Result<
    u32,
    ParseError,
> {
    if index < 0 || index >= tokens.len() {
        Err(ParseError::MissingField(field))
    } else {
        match parse_unsigned(tokens[index], u32::MAX as int) {
            Ok(v) => Ok(v as u32),
            Err(e) => Err(ParseError::InvalidField(field, e)),
        }
    }
}

/// `done` followed by what `rest` holds.
pub open spec fn prepend_pairs(
    done: Seq<(usize, u32)>,
    rest: Result<Seq<(usize, u32)>, ParseError>,
) -> Result<Seq<(usize, u32)>, ParseError> {
    match rest {
        Ok(r) => Ok(done + r),
        Err(e) => Err(e),
    }
}

/// The tokens `item1 qty1 item2 qty2 ...` read two at a time from the left;
/// the first malformed number, or a last item without its quantity, is the
/// error.
pub open spec fn spec_pairs(parts: Seq<Seq<char>>) -> Result<Seq<(usize, u32)>, ParseError>
    decreases parts.len(),
{
    if parts.len() == 0 {
        Ok(seq![])
    } else {
        match parse_unsigned(parts[0], usize::MAX as int) {
            Err(e) => Err(ParseError::InvalidPair(e)),
            Ok(item) => if parts.len() == 1 {
                Err(ParseError::MissingQuantity)
            } else {
                match parse_unsigned(parts[1], u32::MAX as int) {
                    Err(e) => Err(ParseError::InvalidPair(e)),
                    Ok(q) => prepend_pairs(seq![(item as usize, q as u32)], spec_pairs(parts.skip(2))),
                }
            },
        }
    }
}

/// A line `k item1 qty1 ... itemk qtyk`; a blank line is an error.
pub open spec fn spec_map_line(line: Seq<char>) -> Result<(usize, Seq<(usize, u32)>), ParseError> {
    let toks = tokens_of(line);
    if toks.len() == 0 {
        Err(ParseError::BlankLine)
    } else {
        match parse_unsigned(toks[0], usize::MAX as int) {
            Err(e) => Err(ParseError::InvalidCount(e)),
            Ok(k) => match spec_pairs(toks.skip(1)) {
                Ok(p) => if p.len() != k {
                    Err(ParseError::PairCountMismatch { expected: k as usize, found: p.len() as usize })
                } else {
                    Ok((k as usize, p))
                },
                Err(e) => Err(e),
            },
        }
    }
}

/// The kind of the record line with index `idx`.
pub open spec fn record_kind(orders: bool, idx: int) -> LineKind {
    if orders {
        LineKind::Order(idx as usize)
    } else {
        LineKind::Aisle(idx as usize)
    }
}

/// The first `n` record lines, starting at line `first`: orders when
/// `orders` holds, else aisles. The quantities of an order must sum to a
/// `u32`; the first order whose quantities do not is the error.
pub open spec fn spec_records(lines: Seq<Seq<char>>, first: int, n: nat, orders: bool) -> Result<
    Seq<Seq<(usize, u32)>>,
    ParseError,
>
    decreases n,
{
    if n == 0 {
        Ok(seq![])
    } else {
        match spec_records(lines, first, (n - 1) as nat, orders) {
            Ok(prev) => {
                let idx = n - 1;
                if first + idx >= lines.len() {
                    Err(ParseError::MissingLine(record_kind(orders, idx)))
                } else {
                    match spec_map_line(lines[first + idx]) {
                        Ok(line) => if orders && pair_total(line.1) > u32::MAX {
                            Err(ParseError::TotalOverflow { order: idx as usize })
                        } else {
                            Ok(prev.push(line.1))
                        },
                        Err(e) => Err(e),
                    }
                }
            },
            Err(e) => Err(e),
        }
    }
}

/// The line at `*cursor`, moving the cursor past it; `kind` names the line
/// in the error when the text has ended.
pub fn next_line<'a>(lines: &'a Vec<Vec<char>>, cursor: &mut usize, kind: LineKind) -> (res:
    Result<&'a Vec<char>, ParseError>)
    ensures
        *old(cursor) < lines.len() ==> res == Ok::<&Vec<char>, ParseError>(&lines@[*old(cursor) as int])
            && *final(cursor) == *old(cursor) + 1,
        *old(cursor) >= lines.len() ==> res == Err::<&Vec<char>, ParseError>(
            ParseError::MissingLine(kind),
        ) && *final(cursor) == *old(cursor),
{
    if *cursor < lines.len() {
        let line = &lines[*cursor];
        *cursor = *cursor + 1;
        Ok(line)
    } else {
        Err(ParseError::MissingLine(kind))
    }
}

/// The token at `*cursor` read as the number `field`, moving the cursor past it.
pub fn parse_next(tokens: &Vec<Vec<char>>, cursor: &mut usize, field: Field) -> (res: Result<
    u32,
    ParseError,
>)
    ensures
        res == spec_field(token_views(tokens@), *old(cursor) as int, field),
        *final(cursor) == *old(cursor) + 1 || (*old(cursor) >= tokens.len() && *final(cursor)
            == *old(cursor)),
{
    if *cursor < tokens.len() {
        let res = match parse_u32(tokens[*cursor].as_slice()) {
            Ok(v) => Ok(v),
            Err(e) => Err(ParseError::InvalidField(field, e)),
        };
        *cursor = *cursor + 1;
        res
    } else {
        Err(ParseError::MissingField(field))
    }
}

proof fn lemma_prepend_step(
    done: Seq<(usize, u32)>,
    p: (usize, u32),
    rest: Result<Seq<(usize, u32)>, ParseError>,
)
    ensures
        prepend_pairs(done, prepend_pairs(seq![p], rest)) == prepend_pairs(done.push(p), rest),
{
    match rest {
        Ok(r) => {
            assert(done + (seq![p] + r) =~= done.push(p) + r);
        },
        _ => {},
    }
}

/// Reads `parts` from index `start` on as in `spec_pairs`.
fn scan_pairs(parts: &[Vec<char>], start: usize) -> (res: Result<Vec<(usize, u32)>, ParseError>)
    requires
        start <= parts.len(),
    ensures
        match spec_pairs(token_views(parts@).skip(start as int)) {
            Ok(p) => res matches Ok(v) && v@ == p,
            Err(e) => res == Err::<Vec<(usize, u32)>, ParseError>(e),
        },
{
    let ghost all = token_views(parts@);
    let mut pairs: Vec<(usize, u32)> = Vec::new();
    let mut j: usize = start;
    assert(pairs@ + Seq::<(usize, u32)>::empty() =~= pairs@);
    while j < parts.len()
        invariant
            start <= j <= parts.len(),
            all == token_views(parts@),
            spec_pairs(all.skip(start as int)) == prepend_pairs(
                pairs@,
                spec_pairs(all.skip(j as int)),
            ),
        decreases parts.len() - j,
    {
        let ghost rest = all.skip(j as int);
        assert(rest[0] == parts@[j as int]@);
        let item: usize = match parse_usize(parts[j].as_slice()) {
            Ok(v) => v,
            Err(e) => {
                return Err(ParseError::InvalidPair(e));
            },
        };
        if j + 1 >= parts.len() {
            return Err(ParseError::MissingQuantity);
        }
        assert(rest[1] == parts@[j + 1]@);
        let qty: u32 = match parse_u32(parts[j + 1].as_slice()) {
            Ok(v) => v,
            Err(e) => {
                return Err(ParseError::InvalidPair(e));
            },
        };
        assert(rest.skip(2) =~= all.skip(j + 2));
        proof {
            lemma_prepend_step(pairs@, (item, qty), spec_pairs(all.skip(j + 2)));
        }
        pairs.push((item, qty));
        j = j + 2;
    }
    assert(spec_pairs(all.skip(j as int)) == Ok::<Seq<(usize, u32)>, ParseError>(seq![])) by {
        assert(all.skip(j as int).len() == 0);
    }
    assert(pairs@ + Seq::<(usize, u32)>::empty() =~= pairs@);
    Ok(pairs)
}

/// Converts the tokens `item1 qty1 item2 qty2 ...` into pairs.
pub fn parse_pairs(parts: &[Vec<char>]) -> (res: Result<Vec<(usize, u32)>, ParseError>)
    ensures
        match spec_pairs(token_views(parts@)) {
            Ok(p) => res matches Ok(v) && v@ == p,
            Err(e) => res == Err::<Vec<(usize, u32)>, ParseError>(e),
        },
{
    assert(token_views(parts@).skip(0) =~= token_views(parts@));
    scan_pairs(parts, 0)
}

/// Parses `line` in the form `k item1 qty1 item2 qty2 ...`.
pub fn parse_map_line(line: &[char]) -> (res: Result<(usize, Vec<(usize, u32)>), ParseError>)
    ensures
        match spec_map_line(line@) {
            Ok(r) => res matches Ok(v) && v.0 == r.0 && v.1@ == r.1,
            Err(e) => res == Err::<(usize, Vec<(usize, u32)>), ParseError>(e),
        },
{
    let parts = split_tokens(line);
    let ghost toks = token_views(parts@);
    assert(toks == tokens_of(line@));
    if parts.len() == 0 {
        return Err(ParseError::BlankLine);
    }
    assert(toks[0] == parts@[0]@);
    let k: usize = match parse_usize(parts[0].as_slice()) {
        Ok(v) => v,
        Err(e) => {
            return Err(ParseError::InvalidCount(e));
        },
    };
    match scan_pairs(parts.as_slice(), 1) {
        Ok(pairs) => {
            if pairs.len() != k {
                Err(ParseError::PairCountMismatch { expected: k, found: pairs.len() })
            } else {
                Ok((k, pairs))
            }
        },
        Err(e) => Err(e),
    }
}

/// Reads `n` record lines from `*cursor` on, as in `spec_records`.
pub fn read_records(lines: &Vec<Vec<char>>, cursor: &mut usize, n: usize, orders: bool) -> (res:
    Result<Vec<Vec<(usize, u32)>>, ParseError>)
    ensures
        match spec_records(token_lines(lines@), *old(cursor) as int, n as nat, orders) {
            Ok(r) => res matches Ok(v) && record_views(v@) == r && *final(cursor) == *old(cursor)
                + n,
            Err(e) => res == Err::<Vec<Vec<(usize, u32)>>, ParseError>(e),
        },
{
    let ghost first = *cursor as int;
    let ghost all = token_lines(lines@);
    let mut records: Vec<Vec<(usize, u32)>> = Vec::new();
    let mut idx: usize = 0;
    assert(record_views(records@) =~= Seq::<Seq<(usize, u32)>>::empty());
    while idx < n
        invariant
            idx <= n,
            all == token_lines(lines@),
            first == *old(cursor) as int,
            *cursor == first + idx,
            spec_records(all, first, idx as nat, orders) == Ok::<Seq<Seq<(usize, u32)>>, ParseError>(
                record_views(records@),
            ),
        decreases n - idx,
    {
        let kind = if orders {
            LineKind::Order(idx)
        } else {
            LineKind::Aisle(idx)
        };
        assert(kind == record_kind(orders, idx as int));
        let line = match next_line(lines, cursor, kind) {
            Ok(l) => l,
            Err(e) => {
                assert(all.len() == lines.len());
                proof {
                    lemma_records_stop(all, first, (idx + 1) as nat, n as nat, orders);
                }
                return Err(e);
            },
        };
        assert(all[first + idx] == line@);
        let pairs = match parse_map_line(line.as_slice()) {
            Ok(v) => v.1,
            Err(e) => {
                proof {
                    lemma_records_stop(all, first, (idx + 1) as nat, n as nat, orders);
                }
                return Err(e);
            },
        };
        if orders {
            match checked_total(&pairs) {
                Some(_) => {},
                None => {
                    proof {
                        lemma_records_stop(all, first, (idx + 1) as nat, n as nat, orders);
                    }
                    return Err(ParseError::TotalOverflow { order: idx });
                },
            }
        }
        let ghost before = records@;
        records.push(pairs);
        assert(record_views(records@) =~= record_views(before).push(pairs@));
        idx = idx + 1;
    }
    Ok(records)
}

/// Once the first `m` record lines fail, so do the first `n >= m`.
proof fn lemma_records_stop(lines: Seq<Seq<char>>, first: int, m: nat, n: nat, orders: bool)
    requires
        m <= n,
        spec_records(lines, first, m, orders) is Err,
    ensures
        spec_records(lines, first, n, orders) == spec_records(lines, first, m, orders),
    decreases n - m,
{
    if m < n {
        lemma_records_stop(lines, first, m, (n - 1) as nat, orders);
    }
}

} // verus!
