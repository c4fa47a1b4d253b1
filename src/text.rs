use vstd::prelude::*;

use crate::grid::{cell_ok, grid_ok, Assignment, Domain, SudokuError, Variable};

verus! {

/// Whether `c` has the Unicode White_Space property, as `char::is_whitespace` decides.
pub uninterp spec fn white_space(c: char) -> bool;

/// Relies on `char::is_whitespace`: whether the character has the White_Space property.
#[verifier::external_body]
fn is_space(c: char) -> (r: bool)
    ensures
        r == white_space(c),
{
    c.is_whitespace()
}

/// The characters of `s` that are not white space, in order.
pub open spec fn tokens_of(s: Seq<char>) -> Seq<char>
    decreases s.len(),
{
    if s.len() == 0 {
        Seq::empty()
    } else if white_space(s.last()) {
        tokens_of(s.drop_last())
    } else {
        tokens_of(s.drop_last()).push(s.last())
    }
}

/// Whether `c` is a decimal digit.
pub open spec fn is_digit(c: char) -> bool {
    '0' <= c <= '9'
}

/// The value of decimal digit `c`.
pub open spec fn digit_value(c: char) -> int {
    c as int - '0' as int
}

/// Whether cell state `v` is what token `c` stands for: `0` a blank with every
/// candidate, another digit a clue with that value.
pub open spec fn cell_of_token(c: char, v: Variable) -> bool {
    if c == '0' {
        v is Unassigned && forall|w: int| #[trigger] v->Unassigned_0.has(w) <==> 1 <= w <= 9
    } else {
        v == Variable::Assigned(digit_value(c) as u8)
    }
}

/// Whether `t` is a well-formed puzzle: 81 digit tokens.
pub open spec fn tokens_ok(t: Seq<char>) -> bool {
    t.len() == 81 && forall|i: int| 0 <= i < t.len() ==> is_digit(#[trigger] t[i])
}

/// Builds a grid from its tokens, one digit per cell in row-major order, `0` for a
/// blank. `MalformedInput` comes exactly when there are not 81 tokens or one of them
/// is not a digit.
pub fn assignment_from_tokens(tokens: &Vec<char>) -> (r: Result<Assignment, SudokuError>)
    ensures
        r is Ok <==> tokens_ok(tokens@),
        r matches Ok(g) ==> grid_ok(g@) && forall|i: int|
            0 <= i < 81 ==> cell_of_token(tokens@[i], #[trigger] g@[i]),
        r matches Err(e) ==> e == SudokuError::MalformedInput,
{
    let mut g: Assignment = Vec::with_capacity(81);
    let mut i: usize = 0;
    while i < tokens.len()
        invariant
            i <= tokens.len(),
            g.len() == i,
            forall|j: int| 0 <= j < i ==> is_digit(#[trigger] tokens@[j]),
            forall|j: int| 0 <= j < i ==> cell_of_token(tokens@[j], #[trigger] g@[j]),
            forall|j: int| 0 <= j < i ==> cell_ok(#[trigger] g@[j]),
        decreases tokens.len() - i,
    {
        let c = tokens[i];
        if c < '0' || c > '9' {
            return Err(SudokuError::MalformedInput);
        }
        let v = ((c as u32) - ('0' as u32)) as u8;
        if v == 0 {
            g.push(Variable::Unassigned(Domain::full()));
        } else {
            g.push(Variable::Assigned(v));
        }
        i = i + 1;
    }
    if g.len() != 81 {
        return Err(SudokuError::MalformedInput);
    }
    Ok(g)
}

/// Builds a grid from text: white space is skipped, and the rest must be 81 digits,
/// one per cell in row-major order, `0` for a blank.
pub fn assignment_from_text(text: &Vec<char>) -> (r: Result<Assignment, SudokuError>)
    ensures
        r is Ok <==> tokens_ok(tokens_of(text@)),
        r matches Ok(g) ==> grid_ok(g@) && forall|i: int|
            0 <= i < 81 ==> cell_of_token(tokens_of(text@)[i], #[trigger] g@[i]),
        r matches Err(e) ==> e == SudokuError::MalformedInput,
{
    let mut tokens: Vec<char> = Vec::new();
    let mut i: usize = 0;
    while i < text.len()
        invariant
            i <= text.len(),
            tokens@ == tokens_of(text@.subrange(0, i as int)),
        decreases text.len() - i,
    {
        let c = text[i];
        assert(text@.subrange(0, i + 1).drop_last() == text@.subrange(0, i as int));
        if !is_space(c) {
            tokens.push(c);
        }
        i = i + 1;
    }
    assert(text@.subrange(0, text.len() as int) == text@);
    assignment_from_tokens(&tokens)
}

/// The character shown for a cell: its digit when decided, a space when open.
pub open spec fn cell_char(v: Variable) -> char {
    match v {
        Variable::Assigned(w) => (w + 48) as char,
        Variable::Unassigned(_) => ' ',
    }
}

/// Renders a grid as 9 lines of 9 characters, each line ended by a newline.
pub fn render_assignment(assignment: &Assignment) -> (r: Vec<char>)
    requires
        grid_ok(assignment@),
    ensures
        r.len() == 90,
        forall|i: int| 0 <= i < 81 ==> r[(i / 9) * 10 + i % 9] == cell_char(#[trigger] assignment@[i]),
        forall|k: int| 0 <= k < 9 ==> #[trigger] r[k * 10 + 9] == '\n',
{
    let mut r: Vec<char> = Vec::with_capacity(90);
    let mut row: usize = 0;
    while row < 9
        invariant
            row <= 9,
            grid_ok(assignment@),
            r.len() == row * 10,
            forall|i: int| 0 <= i < row * 9 ==> r[(i / 9) * 10 + i % 9] == cell_char(#[trigger] assignment@[i]),
            forall|k: int| 0 <= k < row ==> #[trigger] r[k * 10 + 9] == '\n',
        decreases 9 - row,
    {
        let mut col: usize = 0;
        while col < 9
            invariant
                row < 9,
                col <= 9,
                grid_ok(assignment@),
                r.len() == row * 10 + col,
                forall|i: int| 0 <= i < row * 9 + col ==> r[(i / 9) * 10 + i % 9] == cell_char(#[trigger] assignment@[i]),
                forall|k: int| 0 <= k < row ==> #[trigger] r[k * 10 + 9] == '\n',
            decreases 9 - col,
        {
            let c = match assignment[row * 9 + col] {
                Variable::Assigned(w) => (w + 48) as char,
                Variable::Unassigned(_) => ' ',
            };
            r.push(c);
            col = col + 1;
        }
        r.push('\n');
        row = row + 1;
    }
    r
}

} // verus!
