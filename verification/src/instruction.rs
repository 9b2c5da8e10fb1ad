//! The eleven moves of the puzzle and their textual tokens.

use vstd::prelude::*;
use vstd::string::*;

verus! {

/// One move on the pair of stacks.
#[derive(Debug, Clone, Copy, PartialEq, Eq, Hash, Structural)]
pub enum Instruction {
    PushA,
    PushB,
    SwapA,
    SwapB,
    SwapBoth,
    RotateA,
    RotateB,
    RotateBoth,
    ReverseRotateA,
    ReverseRotateB,
    ReverseRotateBoth,
}

/// The token that was not recognised as a move.
#[derive(Debug)]
pub struct InvalidInstruction(pub String);

impl Instruction {
    /// The token that stands for this move.
    pub open spec fn token(self) -> Seq<char> {
        match self {
            Instruction::PushA => "pa"@,
            Instruction::PushB => "pb"@,
            Instruction::SwapA => "sa"@,
            Instruction::SwapB => "sb"@,
            Instruction::SwapBoth => "ss"@,
            Instruction::RotateA => "ra"@,
            Instruction::RotateB => "rb"@,
            Instruction::RotateBoth => "rr"@,
            Instruction::ReverseRotateA => "rra"@,
            Instruction::ReverseRotateB => "rrb"@,
            Instruction::ReverseRotateBoth => "rrr"@,
        }
    }

    /// The move that a token stands for, if it stands for one.
    pub open spec fn of_token(text: Seq<char>) -> Option<Instruction> {
        if text == "pa"@ {
            Some(Instruction::PushA)
        } else if text == "pb"@ {
            Some(Instruction::PushB)
        } else if text == "sa"@ {
            Some(Instruction::SwapA)
        } else if text == "sb"@ {
            Some(Instruction::SwapB)
        } else if text == "ss"@ {
            Some(Instruction::SwapBoth)
        } else if text == "ra"@ {
            Some(Instruction::RotateA)
        } else if text == "rb"@ {
            Some(Instruction::RotateB)
        } else if text == "rr"@ {
            Some(Instruction::RotateBoth)
        } else if text == "rra"@ {
            Some(Instruction::ReverseRotateA)
        } else if text == "rrb"@ {
            Some(Instruction::ReverseRotateB)
        } else if text == "rrr"@ {
            Some(Instruction::ReverseRotateBoth)
        } else {
            None
        }
    }

    /// Reads a move from its token. Any other text is handed back in the error.
    pub fn parse(text: &str) -> (r: Result<Instruction, InvalidInstruction>)
        ensures
            match r {
                Ok(i) => Instruction::of_token(text@) == Some(i),
                Err(e) => Instruction::of_token(text@).is_none() && e.0@ == text@,
            },
    {
        if same_text(text, "pa") {
            Ok(Instruction::PushA)
        } else if same_text(text, "pb") {
            Ok(Instruction::PushB)
        } else if same_text(text, "sa") {
            Ok(Instruction::SwapA)
        } else if same_text(text, "sb") {
            Ok(Instruction::SwapB)
        } else if same_text(text, "ss") {
            Ok(Instruction::SwapBoth)
        } else if same_text(text, "ra") {
            Ok(Instruction::RotateA)
        } else if same_text(text, "rb") {
            Ok(Instruction::RotateB)
        } else if same_text(text, "rr") {
            Ok(Instruction::RotateBoth)
        } else if same_text(text, "rra") {
            Ok(Instruction::ReverseRotateA)
        } else if same_text(text, "rrb") {
            Ok(Instruction::ReverseRotateB)
        } else if same_text(text, "rrr") {
            Ok(Instruction::ReverseRotateBoth)
        } else {
            Err(InvalidInstruction(text.to_owned()))
        }
    }

    /// The token of this move.
    pub fn as_str(&self) -> (r: &'static str)
        ensures
            r@ == self.token(),
    {
        match self {
            Instruction::PushA => "pa",
            Instruction::PushB => "pb",
            Instruction::SwapA => "sa",
            Instruction::SwapB => "sb",
            Instruction::SwapBoth => "ss",
            Instruction::RotateA => "ra",
            Instruction::RotateB => "rb",
            Instruction::RotateBoth => "rr",
            Instruction::ReverseRotateA => "rra",
            Instruction::ReverseRotateB => "rrb",
            Instruction::ReverseRotateBoth => "rrr",
        }
    }

    /// The token of this move, as an owned string.
    pub fn to_string(&self) -> (r: String)
        ensures
            r@ == self.token(),
    {
        self.as_str().to_owned()
    }

    /// Reading a move's token gives the move back.
    pub proof fn lemma_parse_of_render(self)
        ensures
            Instruction::of_token(self.token()) == Some(self),
    {
        Self::lemma_tokens_revealed();
    }

    /// A text that reads as a move is that move's token.
    pub proof fn lemma_render_of_parse(text: Seq<char>, i: Instruction)
        requires
            Instruction::of_token(text) == Some(i),
        ensures
            i.token() == text,
    {
    }

    proof fn lemma_tokens_revealed()
        ensures
            "pa"@.len() == 2,
            "pa"@[0] == 'p',
            "pa"@[1] == 'a',
            "pb"@.len() == 2,
            "pb"@[0] == 'p',
            "pb"@[1] == 'b',
            "sa"@.len() == 2,
            "sa"@[0] == 's',
            "sa"@[1] == 'a',
            "sb"@.len() == 2,
            "sb"@[0] == 's',
            "sb"@[1] == 'b',
            "ss"@.len() == 2,
            "ss"@[0] == 's',
            "ss"@[1] == 's',
            "ra"@.len() == 2,
            "ra"@[0] == 'r',
            "ra"@[1] == 'a',
            "rb"@.len() == 2,
            "rb"@[0] == 'r',
            "rb"@[1] == 'b',
            "rr"@.len() == 2,
            "rr"@[0] == 'r',
            "rr"@[1] == 'r',
            "rra"@.len() == 3,
            "rra"@[0] == 'r',
            "rra"@[1] == 'r',
            "rra"@[2] == 'a',
            "rrb"@.len() == 3,
            "rrb"@[0] == 'r',
            "rrb"@[1] == 'r',
            "rrb"@[2] == 'b',
            "rrr"@.len() == 3,
            "rrr"@[0] == 'r',
            "rrr"@[1] == 'r',
            "rrr"@[2] == 'r',
    {
        reveal_strlit("pa");
        reveal_strlit("pb");
        reveal_strlit("sa");
        reveal_strlit("sb");
        reveal_strlit("ss");
        reveal_strlit("ra");
        reveal_strlit("rb");
        reveal_strlit("rr");
        reveal_strlit("rra");
        reveal_strlit("rrb");
        reveal_strlit("rrr");
    }
}

impl std::str::FromStr for Instruction {
    type Err = InvalidInstruction;

    /// Reads a move from its token, as `parse` does.
    fn from_str(text: &str) -> (r: Result<Self, Self::Err>)
        ensures
            match r {
                Ok(i) => Instruction::of_token(text@) == Some(i),
                Err(e) => Instruction::of_token(text@).is_none() && e.0@ == text@,
            },
    {
        Instruction::parse(text)
    }
}

/// Whether two texts hold the same characters.
pub fn same_text(a: &str, b: &str) -> (r: bool)
    ensures
        r == (a@ == b@),
{
    let n = a.unicode_len();
    if n != b.unicode_len() {
        return false;
    }
    let mut i: usize = 0;
    while i < n
        invariant
            i <= n,
            n == a@.len(),
            n == b@.len(),
            forall|j: int| 0 <= j < i ==> a@[j] == b@[j],
        decreases n - i,
    {
        if a.get_char(i) != b.get_char(i) {
            return false;
        }
        i += 1;
    }
    assert(a@ =~= b@);
    true
}

} // verus!
