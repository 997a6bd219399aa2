//! Which lines of a line-oriented input hold records: one JSON value per line, and a line
//! made only of white space (or empty) is skipped; in a market-data script, so is a line
//! whose first character other than white space is `#`. Records keep their physical,
//! 1-based line numbers, which errors report.
use vstd::prelude::*;

verus! {

broadcast use vstd::seq_lib::group_seq_properties;

/// The characters with the Unicode `White_Space` property, which std's `char::is_whitespace`
/// tests for: tab through carriage return, space, next line, no-break space, ogham space
/// mark, the spaces from en quad to hair space, line and paragraph separators, narrow
/// no-break space, medium mathematical space and ideographic space.
pub open spec fn white_space(c: char) -> bool {
    let n = c as u32;
    ||| 0x09 <= n <= 0x0D
    ||| n == 0x20
    ||| n == 0x85
    ||| n == 0xA0
    ||| n == 0x1680
    ||| 0x2000 <= n <= 0x200A
    ||| n == 0x2028
    ||| n == 0x2029
    ||| n == 0x202F
    ||| n == 0x205F
    ||| n == 0x3000
}

/// A line with no characters but white space.
pub open spec fn blank(line: Seq<char>) -> bool {
    forall|i: int| 0 <= i < line.len() ==> white_space(#[trigger] line[i])
}

/// The 1-based numbers of the lines that hold records, in order.
pub open spec fn record_lines(lines: Seq<Seq<char>>) -> Seq<usize>
    decreases lines.len(),
{
    if lines.len() == 0 {
        Seq::empty()
    } else if blank(lines.last()) {
        record_lines(lines.drop_last())
    } else {
        record_lines(lines.drop_last()).push(lines.len() as usize)
    }
}

/// A line whose first character other than white space is `#`.
pub open spec fn comment(line: Seq<char>) -> bool {
    exists|k: int| 0 <= k < line.len() && line[k] == '#' && forall|i: int| 0 <= i < k ==> white_space(#[trigger] line[i])
}

/// The 1-based numbers of the lines of a script that hold messages: neither blank nor a
/// comment.
pub open spec fn script_lines(lines: Seq<Seq<char>>) -> Seq<usize>
    decreases lines.len(),
{
    if lines.len() == 0 {
        Seq::empty()
    } else if blank(lines.last()) || comment(lines.last()) {
        script_lines(lines.drop_last())
    } else {
        script_lines(lines.drop_last()).push(lines.len() as usize)
    }
}

/// Does `c` have the `White_Space` property?
pub fn is_white_space(c: char) -> (r: bool)
    ensures
        r == white_space(c),
{
    let n = c as u32;
    (0x09 <= n && n <= 0x0D) || n == 0x20 || n == 0x85 || n == 0xA0 || n == 0x1680 || (0x2000 <= n && n <= 0x200A)
        || n == 0x2028 || n == 0x2029 || n == 0x202F || n == 0x205F || n == 0x3000
}

/// Is the line empty or made only of white space?
pub fn is_blank(line: &str) -> (r: bool)
    ensures
        r == blank(line@),
{
    let ghost full = line@;
    let mut all_white = true;
    let ghost mut n: int = 0;
    for c in it: line.chars()
        invariant
            it.seq() == full,
            n == it.index(),
            all_white == (forall|i: int| 0 <= i < n ==> white_space(#[trigger] full[i])),
    {
        if !is_white_space(c) {
            all_white = false;
        }
        proof {
            n = n + 1;
        }
    }
    proof {
        assert(n == full.len());
    }
    all_white
}

/// Is the first character other than white space a `#`?
pub fn is_comment(line: &str) -> (r: bool)
    ensures
        r == comment(line@),
{
    let ghost full = line@;
    let mut found = false;
    let mut done = false;
    let ghost mut n: int = 0;
    for c in it: line.chars()
        invariant
            it.seq() == full,
            n == it.index(),
            !done ==> !found && forall|i: int| 0 <= i < n ==> white_space(#[trigger] full[i]),
            done ==> (found == comment(full)),
    {
        if !done {
            if c == '#' {
                found = true;
                done = true;
                proof {
                    assert(full[n] == '#');
                }
            } else if !is_white_space(c) {
                done = true;
                proof {
                    assert forall|k: int| 0 <= k < full.len() && full[k] == '#' implies !(forall|i: int|
                        0 <= i < k ==> white_space(#[trigger] full[i])) by {
                        if k > n {
                            assert(!white_space(full[n]));
                        }
                    }
                }
            }
        }
        proof {
            n = n + 1;
        }
    }
    proof {
        if !done {
            assert(n == full.len());
            assert forall|k: int| 0 <= k < full.len() && full[k] == '#' implies !(forall|i: int|
                0 <= i < k ==> white_space(#[trigger] full[i])) by {
                assert(white_space(full[k]));
            }
        }
    }
    found
}

/// The 1-based numbers of the lines of a script that hold messages, in order.
pub fn script_line_numbers(lines: &Vec<String>) -> (r: Vec<usize>)
    ensures
        r@ == script_lines(lines@.map_values(|s: String| s@)),
{
    let ghost texts = lines@.map_values(|s: String| s@);
    let mut out: Vec<usize> = Vec::new();
    let mut i: usize = 0;
    while i < lines.len()
        invariant
            0 <= i <= lines@.len(),
            texts == lines@.map_values(|s: String| s@),
            out@ == script_lines(texts.take(i as int)),
        decreases lines@.len() - i,
    {
        proof {
            let t = texts.take(i + 1);
            assert(t.drop_last() =~= texts.take(i as int));
            assert(t.last() == lines@[i as int]@);
        }
        let line = lines[i].as_str();
        if !is_blank(line) && !is_comment(line) {
            out.push(i + 1);
        }
        i = i + 1;
    }
    proof {
        assert(texts.take(i as int) =~= texts);
    }
    out
}

/// The 1-based numbers of the lines that hold records, in order.
pub fn record_line_numbers(lines: &Vec<String>) -> (r: Vec<usize>)
    ensures
        r@ == record_lines(lines@.map_values(|s: String| s@)),
{
    let ghost texts = lines@.map_values(|s: String| s@);
    let mut out: Vec<usize> = Vec::new();
    let mut i: usize = 0;
    while i < lines.len()
        invariant
            0 <= i <= lines@.len(),
            texts == lines@.map_values(|s: String| s@),
            out@ == record_lines(texts.take(i as int)),
        decreases lines@.len() - i,
    {
        proof {
            let t = texts.take(i + 1);
            assert(t.drop_last() =~= texts.take(i as int));
            assert(t.last() == lines@[i as int]@);
        }
        if !is_blank(lines[i].as_str()) {
            out.push(i + 1);
        }
        i = i + 1;
    }
    proof {
        assert(texts.take(i as int) =~= texts);
    }
    out
}

} // verus!
