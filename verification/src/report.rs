//! The diagnostic lines: one for each entity that the tagging marked.

use vstd::prelude::*;
use vstd::string::StringExecFns;
use crate::entity::EntityId;
use crate::tagger::Tagging;

verus! {

/// The character of a decimal digit.
pub open spec fn digit(d: nat) -> char
    recommends
        d < 10,
{
    if d == 0 {
        '0'
    } else if d == 1 {
        '1'
    } else if d == 2 {
        '2'
    } else if d == 3 {
        '3'
    } else if d == 4 {
        '4'
    } else if d == 5 {
        '5'
    } else if d == 6 {
        '6'
    } else if d == 7 {
        '7'
    } else if d == 8 {
        '8'
    } else {
        '9'
    }
}

/// A number in decimal digits, without leading zeros.
pub open spec fn decimal(n: nat) -> Seq<char>
    decreases n,
{
    if n < 10 {
        seq![digit(n)]
    } else {
        decimal(n / 10).push(digit(n % 10))
    }
}

/// The line that says that the entity with this index was tagged.
pub open spec fn line_for(index: nat) -> Seq<char> {
    "we add not in scene for "@ + decimal(index)
}

fn digit_text(d: u32) -> (text: &'static str)
    requires
        d < 10,
    ensures
        text@ == seq![digit(d as nat)],
{
    proof {
        reveal_strlit("0");
        reveal_strlit("1");
        reveal_strlit("2");
        reveal_strlit("3");
        reveal_strlit("4");
        reveal_strlit("5");
        reveal_strlit("6");
        reveal_strlit("7");
        reveal_strlit("8");
        reveal_strlit("9");
    }
    let text = if d == 0 {
        "0"
    } else if d == 1 {
        "1"
    } else if d == 2 {
        "2"
    } else if d == 3 {
        "3"
    } else if d == 4 {
        "4"
    } else if d == 5 {
        "5"
    } else if d == 6 {
        "6"
    } else if d == 7 {
        "7"
    } else if d == 8 {
        "8"
    } else {
        "9"
    };
    assert(text@ =~= seq![digit(d as nat)]);
    text
}

fn push_decimal(text: &mut String, n: u32)
    ensures
        final(text)@ == old(text)@ + decimal(n as nat),
    decreases n,
{
    if n >= 10 {
        push_decimal(text, n / 10);
    }
    text.append(digit_text(n % 10));
    proof {
        if n >= 10 {
            assert(text@ =~= old(text)@ + decimal(n as nat));
        } else {
            assert(text@ =~= old(text)@ + decimal(n as nat));
        }
    }
}

/// The diagnostic line for one tagged entity, which names it by its index.
pub fn log_line(id: EntityId) -> (line: String)
    ensures
        line@ == line_for(id.index_spec() as nat),
{
    let mut line = String::from_str("we add not in scene for ");
    push_decimal(&mut line, id.index());
    line
}

impl Tagging {
    /// The diagnostic lines of this tagging: one for each tagged entity, in their order.
    pub fn log_lines(&self) -> (lines: Vec<String>)
        ensures
            lines@.len() == self.tagged@.len(),
            forall|i: int|
                0 <= i < lines@.len() ==> (#[trigger] lines@[i])@ == line_for(
                    self.tagged@[i].index_spec() as nat,
                ),
    {
        let mut lines: Vec<String> = Vec::new();
        let mut i: usize = 0;
        while i < self.tagged.len()
            invariant
                i <= self.tagged.len(),
                lines@.len() == i,
                forall|k: int|
                    0 <= k < i ==> (#[trigger] lines@[k])@ == line_for(
                        self.tagged@[k].index_spec() as nat,
                    ),
            decreases self.tagged.len() - i,
        {
            lines.push(log_line(self.tagged[i]));
            i += 1;
        }
        lines
    }
}

} // verus!
