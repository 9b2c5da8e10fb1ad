//! Plain text forms: numbers in decimal, a stack on one line, moves one per
//! line.

use vstd::prelude::*;
use vstd::string::{StrSliceExecFns, StringExecFns};
use crate::instruction::Instruction;

verus! {

/// The character of a digit.
pub open spec fn digit(d: int) -> char {
    if d == 0 {
        '0'
    } else if d == 1 {
        '1'
    } else if d == 2 {
        '2'
    } else if d == 3 {
        '3'
    } else if d == 4 {
        '4'
    } else if d == 5 {
        '5'
    } else if d == 6 {
        '6'
    } else if d == 7 {
        '7'
    } else if d == 8 {
        '8'
    } else {
        '9'
    }
}

/// The decimal digits of a number, without leading zeros.
pub open spec fn decimal(n: nat) -> Seq<char>
    decreases n,
{
    if n < 10 {
        seq![digit(n as int)]
    } else {
        decimal(n / 10).push(digit((n % 10) as int))
    }
}

/// The elements in decimal, from the top down, with one space between two
/// of them. The empty stack gives the empty text.
pub open spec fn rendered(s: Seq<u32>) -> Seq<char>
    decreases s.len(),
{
    if s.len() == 0 {
        Seq::empty()
    } else if s.len() == 1 {
        decimal(s[0] as nat)
    } else {
        rendered(s.drop_last()) + seq![' '] + decimal(s.last() as nat)
    }
}

/// The tokens of the moves, each followed by a line feed.
pub open spec fn lines_of(instrs: Seq<Instruction>) -> Seq<char>
    decreases instrs.len(),
{
    if instrs.len() == 0 {
        Seq::empty()
    } else {
        lines_of(instrs.drop_last()) + instrs.last().token() + seq!['\n']
    }
}

fn digit_text(d: u32) -> (text: &'static str)
    requires
        d < 10,
    ensures
        text@ == seq![digit(d as int)],
{
    proof {
        reveal_strlit("0");
        reveal_strlit("1");
        reveal_strlit("2");
        reveal_strlit("3");
        reveal_strlit("4");
        reveal_strlit("5");
        reveal_strlit("6");
        reveal_strlit("7");
        reveal_strlit("8");
        reveal_strlit("9");
    }
    let text = if d == 0 {
        "0"
    } else if d == 1 {
        "1"
    } else if d == 2 {
        "2"
    } else if d == 3 {
        "3"
    } else if d == 4 {
        "4"
    } else if d == 5 {
        "5"
    } else if d == 6 {
        "6"
    } else if d == 7 {
        "7"
    } else if d == 8 {
        "8"
    } else {
        "9"
    };
    assert(text@ =~= seq![digit(d as int)]);
    text
}

/// Writes `n` in decimal at the end of `out`.
pub fn push_decimal(out: &mut String, n: u32)
    ensures
        final(out)@ == old(out)@ + decimal(n as nat),
    decreases n,
{
    if n >= 10 {
        push_decimal(out, n / 10);
    }
    out.append(digit_text(n % 10));
    assert(out@ =~= old(out)@ + decimal(n as nat));
}

/// The elements on one line, from the top down.
pub fn render(items: &Vec<u32>) -> (text: String)
    ensures
        text@ == rendered(items@),
{
    let mut text = String::new();
    let n = items.len();
    let mut i: usize = 0;
    while i < n
        invariant
            i <= n,
            n == items@.len(),
            text@ == rendered(items@.subrange(0, i as int)),
        decreases n - i,
    {
        if i > 0 {
            proof {
                reveal_strlit(" ");
            }
            text.append(" ");
        }
        push_decimal(&mut text, items[i]);
        proof {
            let upto = items@.subrange(0, i + 1);
            assert(upto.drop_last() =~= items@.subrange(0, i as int));
            assert(upto.last() == items@[i as int]);
            if i > 0 {
                assert(text@ =~= rendered(upto.drop_last()) + seq![' '] + decimal(
                    upto.last() as nat,
                ));
            } else {
                assert(text@ =~= decimal(upto[0] as nat));
            }
        }
        i += 1;
    }
    assert(items@.subrange(0, n as int) =~= items@);
    text
}

/// The moves as text, one token per line.
pub fn render_moves(instrs: &Vec<Instruction>) -> (text: String)
    ensures
        text@ == lines_of(instrs@),
{
    let mut text = String::new();
    let n = instrs.len();
    let mut i: usize = 0;
    while i < n
        invariant
            i <= n,
            n == instrs@.len(),
            text@ == lines_of(instrs@.subrange(0, i as int)),
        decreases n - i,
    {
        text.append(instrs[i].as_str());
        proof {
            reveal_strlit("\n");
        }
        text.append("\n");
        proof {
            let upto = instrs@.subrange(0, i + 1);
            assert(upto.drop_last() =~= instrs@.subrange(0, i as int));
            assert("\n"@ =~= seq!['\n']);
            assert(text@ =~= lines_of(upto.drop_last()) + upto.last().token() + seq!['\n']);
        }
        i += 1;
    }
    assert(instrs@.subrange(0, n as int) =~= instrs@);
    text
}

/// The text, with spaces behind it where it is shorter than `width`.
pub open spec fn padded(text: Seq<char>, width: nat) -> Seq<char> {
    if text.len() >= width {
        text
    } else {
        text + Seq::new((width - text.len()) as nat, |i: int| ' ')
    }
}

/// Writes `text` at the end of `out`, and spaces behind it where it is
/// shorter than `width`.
pub fn push_padded(out: &mut String, text: &str, width: usize)
    ensures
        final(out)@ == old(out)@ + padded(text@, width as nat),
{
    out.append(text);
    let len = text.unicode_len();
    let mut i: usize = len;
    proof {
        reveal_strlit(" ");
    }
    while i < width
        invariant
            len <= i,
            len == text@.len(),
            " "@ == seq![' '],
            i <= width || len >= width,
            len >= width ==> i == len,
            out@ == old(out)@ + text@ + Seq::new((i - len) as nat, |k: int| ' '),
        decreases width - i,
    {
        out.append(" ");
        assert(out@ =~= old(out)@ + text@ + Seq::new((i + 1 - len) as nat, |k: int| ' '));
        i += 1;
    }
    assert(out@ =~= old(out)@ + padded(text@, width as nat));
}

/// How the stacks stand after a move, on one line: the token in three
/// columns, an arrow, A in `width` columns, a bar, and B.
pub open spec fn trace_of(instr: Instruction, a: Seq<u32>, b: Seq<u32>, width: nat) -> Seq<char> {
    padded(instr.token(), 3) + seq![' ', '=', '>', ' '] + padded(rendered(a), width) + seq![
        ' ',
        '|',
        ' ',
    ] + rendered(b)
}

/// The line that shows a move and the stacks it led to.
pub fn trace_line(instr: &Instruction, a: &Vec<u32>, b: &Vec<u32>, width: usize) -> (line: String)
    ensures
        line@ == trace_of(*instr, a@, b@, width as nat),
{
    let mut line = String::new();
    push_padded(&mut line, instr.as_str(), 3);
    proof {
        reveal_strlit(" => ");
        reveal_strlit(" | ");
        assert(" => "@ =~= seq![' ', '=', '>', ' ']);
        assert(" | "@ =~= seq![' ', '|', ' ']);
    }
    line.append(" => ");
    let shown = render(a);
    push_padded(&mut line, shown.as_str(), width);
    line.append(" | ");
    let side = render(b);
    line.append(side.as_str());
    assert(line@ =~= trace_of(*instr, a@, b@, width as nat));
    line
}

} // verus!
