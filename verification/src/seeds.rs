//! The list of seeds: one number per line, blank lines ignored.

use vstd::prelude::*;

use crate::number::{parse_u64, parse_unsigned};
use crate::text::{chars_of, lines_of, split_lines, trim, trim_spaces};

verus! {

/// A seed line that is not a `u64`.
pub struct SeedError {
    /// The position of the line among the non-blank lines, counted from one.
    pub line: usize,
    /// The line without surrounding white space.
    pub text: Vec<char>,
}

/// Reads the lines `lines` as seeds: blank lines are skipped, the others are
/// trimmed and must be a `u64`; the first that is not gives its position
/// among the non-blank lines and its trimmed text.
pub open spec fn spec_seeds(lines: Seq<Seq<char>>) -> Result<Seq<u64>, (int, Seq<char>)>
    decreases lines.len(),
{
    if lines.len() == 0 {
        Ok(seq![])
    } else {
        match spec_seeds(lines.drop_last()) {
            Err(e) => Err(e),
            Ok(v) => {
                let t = trim(lines.last());
                if t.len() == 0 {
                    Ok(v)
                } else {
                    match parse_unsigned(t, u64::MAX as int) {
                        Ok(n) => Ok(v.push(n as u64)),
                        Err(_) => Err((v.len() + 1 as int, t)),
                    }
                }
            },
        }
    }
}

/// Once the first lines fail, so do all.
proof fn lemma_seeds_stop(lines: Seq<Seq<char>>, m: int)
    requires
        0 <= m <= lines.len(),
        spec_seeds(lines.take(m)) is Err,
    ensures
        spec_seeds(lines) == spec_seeds(lines.take(m)),
    decreases lines.len() - m,
{
    if m < lines.len() {
        assert(lines.take(m + 1).drop_last() =~= lines.take(m));
        lemma_seeds_stop(lines, m + 1);
    } else {
        assert(lines.take(m) =~= lines);
    }
}

/// Reads the seeds file `contents`: one `u64` per non-blank line.
pub fn parse_seeds(contents: &str) -> (res: Result<Vec<u64>, SeedError>)
    ensures
        match spec_seeds(lines_of(contents@)) {
            Ok(v) => res matches Ok(seeds) && seeds@ == v,
            Err((line, text)) => res matches Err(e) && e.line == line && e.text@ == text,
        },
{
    let chars = chars_of(contents);
    let lines = split_lines(chars.as_slice());
    let ghost all = lines_of(contents@);
    let mut seeds: Vec<u64> = Vec::new();
    let mut p: usize = 0;
    assert(all.take(0) =~= Seq::<Seq<char>>::empty());
    while p < lines.len()
        invariant
            p <= lines.len(),
            all == lines@.map_values(|l: Vec<char>| l@),
            all == lines_of(contents@),
            seeds.len() <= p,
            spec_seeds(all.take(p as int)) == Ok::<Seq<u64>, (int, Seq<char>)>(seeds@),
        decreases lines.len() - p,
    {
        assert(all.take(p + 1).drop_last() =~= all.take(p as int));
        assert(all.take(p + 1).last() == lines@[p as int]@);
        let trimmed = trim_spaces(lines[p].as_slice());
        if trimmed.len() > 0 {
            match parse_u64(trimmed.as_slice()) {
                Ok(n) => {
                    seeds.push(n);
                },
                Err(_) => {
                    assert(trimmed@ == trim(all.take(p + 1).last()));
                    assert(parse_unsigned(trimmed@, u64::MAX as int) is Err);
                    proof {
                        lemma_seeds_stop(all, p + 1);
                    }
                    return Err(SeedError { line: seeds.len() + 1, text: trimmed });
                },
            }
        }
        p = p + 1;
    }
    assert(all.take(p as int) =~= all);
    Ok(seeds)
}

} // verus!
