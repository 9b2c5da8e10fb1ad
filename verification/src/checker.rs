//! The verifier: reads moves from lines of text, replays them, and says
//! whether the puzzle is solved.

use vstd::prelude::*;
use vstd::string::StrSliceExecFns;
use crate::instruction::{Instruction, InvalidInstruction};
use crate::stack::Stack;
use crate::utils::{execute_all, replay, solved};

verus! {

/// The character is white space.
pub open spec fn blank(c: char) -> bool {
    let u = c as u32;
    (0x09 <= u <= 0x0D) || u == 0x20 || u == 0x85 || u == 0xA0 || u == 0x1680 || (0x2000 <= u
        <= 0x200A) || u == 0x2028 || u == 0x2029 || u == 0x202F || u == 0x205F || u == 0x3000
}

/// The text without the white space it starts with.
pub open spec fn trim_start(s: Seq<char>) -> Seq<char>
    decreases s.len(),
{
    if s.len() > 0 && blank(s[0]) {
        trim_start(s.drop_first())
    } else {
        s
    }
}

/// The text without the white space it ends with.
pub open spec fn trim_end(s: Seq<char>) -> Seq<char>
    decreases s.len(),
{
    if s.len() > 0 && blank(s.last()) {
        trim_end(s.drop_last())
    } else {
        s
    }
}

/// The text without the white space round it.
pub open spec fn trimmed(s: Seq<char>) -> Seq<char> {
    trim_end(trim_start(s))
}

/// What a line says: nothing where it is blank, else the move that its text
/// stands for, or that text where it stands for none.
pub open spec fn line_meaning(line: Seq<char>) -> Result<Option<Instruction>, Seq<char>> {
    let text = trimmed(line);
    if text.len() == 0 {
        Ok(None)
    } else {
        match Instruction::of_token(text) {
            Some(i) => Ok(Some(i)),
            None => Err(text),
        }
    }
}

/// What the lines say: the moves of the lines that are not blank, in their
/// order, or the text of the first line that stands for no move.
pub open spec fn lines_meaning(lines: Seq<Seq<char>>) -> Result<Seq<Instruction>, Seq<char>>
    decreases lines.len(),
{
    if lines.len() == 0 {
        Ok(Seq::empty())
    } else {
        match lines_meaning(lines.drop_last()) {
            Err(text) => Err(text),
            Ok(instrs) => match line_meaning(lines.last()) {
                Err(text) => Err(text),
                Ok(None) => Ok(instrs),
                Ok(Some(i)) => Ok(instrs.push(i)),
            },
        }
    }
}

/// The lines as plain texts.
pub open spec fn texts_of(lines: Seq<String>) -> Seq<Seq<char>> {
    Seq::new(lines.len(), |i: int| lines[i]@)
}

/// Whether the character is white space.
pub fn is_blank(c: char) -> (yes: bool)
    ensures
        yes == blank(c),
{
    let u = c as u32;
    (0x09 <= u && u <= 0x0D) || u == 0x20 || u == 0x85 || u == 0xA0 || u == 0x1680 || (0x2000
        <= u && u <= 0x200A) || u == 0x2028 || u == 0x2029 || u == 0x202F || u == 0x205F || u
        == 0x3000
}

/// Reads one line: a blank line holds no move, any other line one token.
pub fn parse_line(line: &str) -> (read: Result<Option<Instruction>, InvalidInstruction>)
    ensures
        match read {
            Ok(found) => line_meaning(line@) == Ok::<Option<Instruction>, Seq<char>>(found),
            Err(e) => line_meaning(line@) == Err::<Option<Instruction>, Seq<char>>(e.0@),
        },
{
    let n = line.unicode_len();
    let mut from: usize = 0;
    assert(line@.subrange(0, n as int) =~= line@);
    while from < n && is_blank(line.get_char(from))
        invariant
            from <= n,
            n == line@.len(),
            trim_start(line@) == trim_start(line@.subrange(from as int, n as int)),
        decreases n - from,
    {
        proof {
            let rest = line@.subrange(from as int, n as int);
            assert(rest.drop_first() =~= line@.subrange(from + 1, n as int));
        }
        from += 1;
    }
    let ghost head = line@.subrange(from as int, n as int);
    assert(trim_start(line@) == head);
    let mut to: usize = n;
    while to > from && is_blank(line.get_char(to - 1))
        invariant
            from <= to <= n,
            n == line@.len(),
            trim_end(head) == trim_end(line@.subrange(from as int, to as int)),
            head == line@.subrange(from as int, n as int),
        decreases to - from,
    {
        proof {
            let rest = line@.subrange(from as int, to as int);
            assert(rest.drop_last() =~= line@.subrange(from as int, to - 1));
        }
        to -= 1;
    }
    assert(trimmed(line@) == line@.subrange(from as int, to as int));
    if from == to {
        return Ok(None);
    }
    let token = line.substring_char(from, to);
    match Instruction::parse(token) {
        Ok(i) => Ok(Some(i)),
        Err(e) => Err(e),
    }
}

/// Reads the moves from the lines of a text. Blank lines are passed over;
/// the first line that holds no move ends the reading with its text.
pub fn read_instructions(lines: &Vec<String>) -> (read: Result<
    Vec<Instruction>,
    InvalidInstruction,
>)
    ensures
        match read {
            Ok(instrs) => lines_meaning(texts_of(lines@)) == Ok::<Seq<Instruction>, Seq<char>>(
                instrs@,
            ),
            Err(e) => lines_meaning(texts_of(lines@)) == Err::<Seq<Instruction>, Seq<char>>(
                e.0@,
            ),
        },
{
    let ghost texts = texts_of(lines@);
    let mut instrs: Vec<Instruction> = Vec::new();
    let n = lines.len();
    let mut i: usize = 0;
    while i < n
        invariant
            i <= n,
            n == lines@.len(),
            texts == texts_of(lines@),
            lines_meaning(texts.subrange(0, i as int)) == Ok::<Seq<Instruction>, Seq<char>>(
                instrs@,
            ),
        decreases n - i,
    {
        proof {
            let upto = texts.subrange(0, i + 1);
            assert(upto.drop_last() =~= texts.subrange(0, i as int));
            assert(upto.last() == lines@[i as int]@);
        }
        match parse_line(lines[i].as_str()) {
            Ok(Some(instr)) => {
                instrs.push(instr);
            },
            Ok(None) => {},
            Err(e) => {
                proof {
                    lemma_error_stays(texts, i + 1);
                }
                return Err(e);
            },
        }
        i += 1;
    }
    assert(texts.subrange(0, n as int) =~= texts);
    Ok(instrs)
}

proof fn lemma_error_stays(texts: Seq<Seq<char>>, upto: int)
    requires
        0 <= upto <= texts.len(),
        lines_meaning(texts.subrange(0, upto)) is Err,
    ensures
        lines_meaning(texts) == lines_meaning(texts.subrange(0, upto)),
    decreases texts.len() - upto,
{
    if upto < texts.len() {
        assert(texts.subrange(0, upto + 1).drop_last() =~= texts.subrange(0, upto));
        lemma_error_stays(texts, upto + 1);
    } else {
        assert(texts.subrange(0, upto) =~= texts);
    }
}

/// What the verifier found.
pub struct Outcome<S: Stack> {
    /// A after the moves.
    pub stack: S,
    /// B after the moves.
    pub side_stack: S,
    /// The number of moves.
    pub moves: usize,
    /// Whether A is sorted and B empty.
    pub sorted: bool,
}

impl<S: Stack> Outcome<S> {
    /// The status to leave with: 0 where the puzzle is solved, else 1.
    pub fn exit_status(&self) -> (status: i32)
        ensures
            status == if self.sorted {
                0i32
            } else {
                1i32
            },
    {
        if self.sorted {
            0
        } else {
            1
        }
    }
}

/// Replays the moves on `stack` and an empty second stack. The puzzle counts
/// as solved exactly where the replay leaves A sorted and B empty.
pub fn check<S: Stack>(stack: S, instrs: &Vec<Instruction>) -> (outcome: Outcome<S>)
    ensures
        (outcome.stack@, outcome.side_stack@) == replay(instrs@, stack@, Seq::empty()),
        outcome.moves == instrs@.len(),
        outcome.sorted == solved(outcome.stack@, outcome.side_stack@),
{
    let mut stack = stack;
    let mut side_stack = S::new();
    execute_all(instrs, &mut stack, &mut side_stack);
    let sorted = side_stack.len() == 0 && stack.is_sorted();
    Outcome { stack, side_stack, moves: instrs.len(), sorted }
}

} // verus!
