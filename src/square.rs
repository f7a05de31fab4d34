use vstd::prelude::*;

verus! {

/// One cell of the board as the caller holds it: its text (empty, or one
/// digit from 1 to 9) and the flags that presentation code keeps beside it.
#[derive(Clone)]
pub struct Square {
    pub value: String,
    pub show_text: bool,
    /// Set on the cells that the solver filled, as opposed to the givens.
    pub solved_cell: bool,
    pub focus: bool,
}

/// A cell's text is well typed when it is empty or holds a single digit 1..=9.
pub open spec fn cell_text_ok(s: Seq<char>) -> bool {
    s.len() == 0 || (s.len() == 1 && '1' <= s[0] && s[0] <= '9')
}

/// The digit a cell's text stands for, 0 for an empty cell.
pub open spec fn cell_digit(s: Seq<char>) -> u8 {
    if s.len() == 0 {
        0
    } else {
        (s[0] as u32 - '0' as u32) as u8
    }
}

impl Square {
    pub fn new() -> (r: Square)
        ensures
            r.value@.len() == 0,
            !r.show_text,
            !r.solved_cell,
            !r.focus,
    {
        Square { value: String::new(), show_text: false, solved_cell: false, focus: false }
    }
}

/// The text a cell keeps from what was typed into it: its first character
/// when that is a digit 1..=9, otherwise nothing.
pub fn sanitize_cell(text: &str) -> (r: String)
    ensures
        cell_text_ok(r@),
        text@.len() > 0 && '1' <= text@[0] && text@[0] <= '9' ==> r@ == seq![text@[0]],
        !(text@.len() > 0 && '1' <= text@[0] && text@[0] <= '9') ==> r@.len() == 0,
{
    if text.is_empty() {
        return String::new();
    }
    let c = text.get_char(0);
    if '1' <= c && c <= '9' {
        let r = crate::board::digit_text((c as u32 - '0' as u32) as u8);
        assert(r@ =~= seq![c]);
        r
    } else {
        String::new()
    }
}

} // verus!
