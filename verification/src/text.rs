//! Splitting text into lines and whitespace-separated tokens.

use vstd::prelude::*;

verus! {

/// Unicode `White_Space`, the property that `char::is_whitespace` reports.
pub open spec fn is_space(c: char) -> bool {
    ||| ('\u{9}' <= c && c <= '\u{d}')
    ||| c == ' '
    ||| c == '\u{85}'
    ||| c == '\u{a0}'
    ||| c == '\u{1680}'
    ||| ('\u{2000}' <= c && c <= '\u{200a}')
    ||| c == '\u{2028}'
    ||| c == '\u{2029}'
    ||| c == '\u{202f}'
    ||| c == '\u{205f}'
    ||| c == '\u{3000}'
}

/// Whether `c` is white space.
pub fn is_whitespace(c: char) -> (b: bool)
    ensures
        b == is_space(c),
{
    ('\u{9}' <= c && c <= '\u{d}') || c == ' ' || c == '\u{85}' || c == '\u{a0}' || c
        == '\u{1680}' || ('\u{2000}' <= c && c <= '\u{200a}') || c == '\u{2028}' || c
        == '\u{2029}' || c == '\u{202f}' || c == '\u{205f}' || c == '\u{3000}'
}


/// Left-to-right scan of `s` into the lines ended by `'\n'` so far and the
/// line still open at the end.
pub open spec fn line_scan(s: Seq<char>) -> (Seq<Seq<char>>, Seq<char>)
    decreases s.len(),
{
    if s.len() == 0 {
        (seq![], seq![])
    } else {
        let (done, open) = line_scan(s.drop_last());
        if s.last() == '\n' {
            (done.push(open), seq![])
        } else {
            (done, open.push(s.last()))
        }
    }
}

/// The lines of `s` as a reader yields them: split at `'\n'`, where a final
/// newline ends the last line instead of opening an empty one.
pub open spec fn lines_of(s: Seq<char>) -> Seq<Seq<char>> {
    let (done, open) = line_scan(s);
    if open.len() == 0 {
        done
    } else {
        done.push(open)
    }
}

/// Left-to-right scan of `s` into the finished tokens and the token still
/// open at the end.
pub open spec fn token_scan(s: Seq<char>) -> (Seq<Seq<char>>, Seq<char>)
    decreases s.len(),
{
    if s.len() == 0 {
        (seq![], seq![])
    } else {
        let (done, open) = token_scan(s.drop_last());
        if is_space(s.last()) {
            if open.len() == 0 {
                (done, open)
            } else {
                (done.push(open), seq![])
            }
        } else {
            (done, open.push(s.last()))
        }
    }
}

/// The maximal runs of non-white-space characters of `s`, in order.
pub open spec fn tokens_of(s: Seq<char>) -> Seq<Seq<char>> {
    let (done, open) = token_scan(s);
    if open.len() == 0 {
        done
    } else {
        done.push(open)
    }
}

/// Splits `text` into its lines.
pub fn split_lines(text: &[char]) -> (lines: Vec<Vec<char>>)
    ensures
        lines@.map_values(|l: Vec<char>| l@) == lines_of(text@),
{
    let mut done: Vec<Vec<char>> = Vec::new();
    let mut open: Vec<char> = Vec::new();
    let mut i: usize = 0;
    while i < text.len()
        invariant
            i <= text.len(),
            (done@.map_values(|l: Vec<char>| l@), open@) == line_scan(text@.take(i as int)),
        decreases text.len() - i,
    {
        assert(text@.take(i + 1).drop_last() =~= text@.take(i as int));
        let c: char = text[i];
        if c == '\n' {
            let line = open;
            open = Vec::new();
            done.push(line);
            assert(done@.map_values(|l: Vec<char>| l@) =~= line_scan(text@.take(i as int)).0.push(
                line@,
            ));
        } else {
            open.push(c);
        }
        i = i + 1;
    }
    assert(text@.take(i as int) =~= text@);
    if open.len() > 0 {
        let line = open;
        done.push(line);
        assert(done@.map_values(|l: Vec<char>| l@) =~= line_scan(text@).0.push(line@));
    }
    done
}

/// Splits `line` into its whitespace-separated tokens.
pub fn split_tokens(line: &[char]) -> (tokens: Vec<Vec<char>>)
    ensures
        tokens@.map_values(|t: Vec<char>| t@) == tokens_of(line@),
{
    let mut done: Vec<Vec<char>> = Vec::new();
    let mut open: Vec<char> = Vec::new();
    let mut i: usize = 0;
    while i < line.len()
        invariant
            i <= line.len(),
            (done@.map_values(|t: Vec<char>| t@), open@) == token_scan(line@.take(i as int)),
        decreases line.len() - i,
    {
        assert(line@.take(i + 1).drop_last() =~= line@.take(i as int));
        let c: char = line[i];
        if is_whitespace(c) {
            if open.len() > 0 {
                let token = open;
                open = Vec::new();
                done.push(token);
                assert(done@.map_values(|t: Vec<char>| t@) =~= token_scan(
                    line@.take(i as int),
                ).0.push(token@));
            }
        } else {
            open.push(c);
        }
        i = i + 1;
    }
    assert(line@.take(i as int) =~= line@);
    if open.len() > 0 {
        let token = open;
        done.push(token);
        assert(done@.map_values(|t: Vec<char>| t@) =~= token_scan(line@).0.push(token@));
    }
    done
}


/// Number of white-space characters at the start of `s`.
pub open spec fn leading_spaces(s: Seq<char>) -> nat
    decreases s.len(),
{
    if s.len() > 0 && is_space(s[0]) {
        1 + leading_spaces(s.drop_first())
    } else {
        0
    }
}

/// Number of white-space characters at the end of `s`.
pub open spec fn trailing_spaces(s: Seq<char>) -> nat
    decreases s.len(),
{
    if s.len() > 0 && is_space(s.last()) {
        1 + trailing_spaces(s.drop_last())
    } else {
        0
    }
}

/// `s` without white space at either end.
pub open spec fn trim(s: Seq<char>) -> Seq<char> {
    let rest = s.skip(leading_spaces(s) as int);
    rest.take(rest.len() - trailing_spaces(rest))
}

proof fn lemma_leading_spaces_bound(s: Seq<char>)
    ensures
        leading_spaces(s) <= s.len(),
    decreases s.len(),
{
    if s.len() > 0 && is_space(s[0]) {
        lemma_leading_spaces_bound(s.drop_first());
    }
}

proof fn lemma_trailing_spaces_bound(s: Seq<char>)
    ensures
        trailing_spaces(s) <= s.len(),
    decreases s.len(),
{
    if s.len() > 0 && is_space(s.last()) {
        lemma_trailing_spaces_bound(s.drop_last());
    }
}

/// `line` without white space at either end.
pub fn trim_spaces(line: &[char]) -> (trimmed: Vec<char>)
    ensures
        trimmed@ == trim(line@),
{
    let mut start: usize = 0;
    assert(line@.skip(0) =~= line@);
    while start < line.len() && is_whitespace(line[start])
        invariant
            start <= line.len(),
            leading_spaces(line@) == start + leading_spaces(line@.skip(start as int)),
        decreases line.len() - start,
    {
        assert(line@.skip(start as int).drop_first() =~= line@.skip(start + 1));
        start = start + 1;
    }
    let ghost rest = line@.skip(start as int);
    assert(leading_spaces(rest) == 0);
    let mut end: usize = line.len();
    assert(rest.take(end - start) =~= rest);
    while end > start && is_whitespace(line[end - 1])
        invariant
            start <= end <= line.len(),
            rest == line@.skip(start as int),
            trailing_spaces(rest) == (line.len() - end) + trailing_spaces(
                rest.take(end - start),
            ),
        decreases end,
    {
        assert(rest.take(end - start).drop_last() =~= rest.take(end - 1 - start));
        end = end - 1;
    }
    assert(trailing_spaces(rest.take(end - start)) == 0);
    let mut trimmed: Vec<char> = Vec::new();
    let mut k: usize = start;
    while k < end
        invariant
            start <= k <= end <= line.len(),
            trimmed@ == line@.subrange(start as int, k as int),
        decreases end - k,
    {
        trimmed.push(line[k]);
        k = k + 1;
    }
    proof {
        lemma_leading_spaces_bound(line@);
        lemma_trailing_spaces_bound(rest);
    }
    assert(trimmed@ =~= trim(line@));
    trimmed
}


/// The characters of `text`, in order.
pub fn chars_of(text: &str) -> (chars: Vec<char>)
    ensures
        chars@ == text@,
{
    let mut chars: Vec<char> = Vec::new();
    for c in it: text.chars()
        invariant
            it.seq() == text@,
            chars@ == it.seq().take(it.index() as int),
    {
        chars.push(c);
    }
    chars
}

} // verus!
