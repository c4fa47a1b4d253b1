use sudoku::grid::{
    assigned_variables, generate_constraints, unassigned_variable, Domain, SudokuError, Variable,
};
use sudoku::propagate::ac3;
use sudoku::search::{backtrack, solve, SearchStats};
use sudoku::text::{assignment_from_text, assignment_from_tokens, render_assignment};

const PUZZLE: &str = "\
530070000
600195000
098000060
800060003
400803001
700020006
060000280
000419005
000080079
";

const SOLUTION: &str = "\
534678912
672195348
198342567
859761423
426853791
713924856
961537284
287419635
345286179
";

fn grid(text: &str) -> Vec<Variable> {
    let chars: Vec<char> = text.chars().collect();
    assignment_from_text(&chars).expect("well-formed puzzle")
}

fn rendered(g: &Vec<Variable>) -> String {
    render_assignment(g).into_iter().collect()
}

fn value(v: &Variable) -> u8 {
    match v {
        Variable::Assigned(x) => *x,
        Variable::Unassigned(_) => panic!("open cell in a solution"),
    }
}

fn is_valid_solution(g: &Vec<Variable>) -> bool {
    let vals: Vec<u8> = g.iter().map(value).collect();
    for u in 0..9 {
        let mut row = [false; 10];
        let mut col = [false; 10];
        let mut bx = [false; 10];
        for k in 0..9 {
            let r = vals[u * 9 + k] as usize;
            let c = vals[k * 9 + u] as usize;
            let b = vals[(u / 3) * 27 + (u % 3) * 3 + (k / 3) * 9 + k % 3] as usize;
            if r == 0 || r > 9 || row[r] || c == 0 || c > 9 || col[c] || b == 0 || b > 9 || bx[b] {
                return false;
            }
            row[r] = true;
            col[c] = true;
            bx[b] = true;
        }
    }
    true
}

fn with_cell(text: &str, index: usize, digit: char) -> String {
    let mut chars: Vec<char> = text.chars().filter(|c| !c.is_whitespace()).collect();
    chars[index] = digit;
    chars.into_iter().collect()
}

#[test]
fn domain_full_has_nine_values() {
    let d = Domain::full();
    assert_eq!(d.len(), 9);
    for v in 1..=9u8 {
        assert!(d.contains(v));
    }
    assert_eq!(d.smallest(), Some(1));
}

#[test]
fn domain_without_removes_one_value() {
    let d = Domain::full().without(1).without(5);
    assert_eq!(d.len(), 7);
    assert!(!d.contains(1));
    assert!(!d.contains(5));
    assert!(d.contains(2));
    assert_eq!(d.smallest(), Some(2));
    let mut e = Domain::full();
    for v in 1..=9u8 {
        e = e.without(v);
    }
    assert_eq!(e.len(), 0);
    assert_eq!(e.smallest(), None);
}

#[test]
fn constraints_of_first_cell() {
    assert_eq!(
        generate_constraints(0),
        vec![1, 2, 3, 4, 5, 6, 7, 8, 9, 10, 11, 18, 19, 20, 27, 36, 45, 54, 63, 72]
    );
}

#[test]
fn constraints_of_centre_cell() {
    let c = generate_constraints(40);
    assert_eq!(c.len(), 20);
    assert_eq!(
        c,
        vec![4, 13, 22, 30, 31, 32, 36, 37, 38, 39, 41, 42, 43, 44, 48, 49, 50, 58, 67, 76]
    );
}

#[test]
fn every_cell_has_twenty_peers() {
    for x in 0..81 {
        let c = generate_constraints(x);
        assert_eq!(c.len(), 20);
        assert!(!c.contains(&x));
    }
}

#[test]
fn parse_reads_clues_and_blanks() {
    let g = grid(PUZZLE);
    assert_eq!(g.len(), 81);
    assert!(matches!(g[0], Variable::Assigned(5)));
    assert!(matches!(g[1], Variable::Assigned(3)));
    match g[2] {
        Variable::Unassigned(d) => assert_eq!(d.len(), 9),
        Variable::Assigned(_) => panic!("blank read as a clue"),
    }
}

#[test]
fn parse_rejects_short_input() {
    let chars: Vec<char> = "123".chars().collect();
    assert_eq!(assignment_from_text(&chars).err(), Some(SudokuError::MalformedInput));
}

#[test]
fn parse_rejects_long_input() {
    let text = format!("{}0", PUZZLE);
    let chars: Vec<char> = text.chars().collect();
    assert_eq!(assignment_from_text(&chars).err(), Some(SudokuError::MalformedInput));
}

#[test]
fn parse_rejects_non_digit() {
    let text = with_cell(PUZZLE, 10, 'x');
    let chars: Vec<char> = text.chars().collect();
    assert_eq!(assignment_from_text(&chars).err(), Some(SudokuError::MalformedInput));
}

#[test]
fn parse_tokens_without_whitespace() {
    let tokens: Vec<char> = "0".repeat(81).chars().collect();
    let g = assignment_from_tokens(&tokens).unwrap();
    assert_eq!(g.len(), 81);
    let spaced: Vec<char> = " 0\n".repeat(81).chars().collect();
    assert_eq!(assignment_from_tokens(&spaced).err(), Some(SudokuError::MalformedInput));
}

#[test]
fn assigned_variables_in_index_order() {
    let g = grid(PUZZLE);
    let a = assigned_variables(&g);
    assert_eq!(a.len(), 30);
    assert_eq!(&a[..3], &[(0, 5), (1, 3), (4, 7)]);
    assert_eq!(a[a.len() - 1], (80, 9));
}

#[test]
fn unassigned_variable_prefers_fewest_candidates() {
    let mut g = grid(&"0".repeat(81));
    g[7] = Variable::Unassigned(Domain::full().without(2).without(3));
    g[50] = Variable::Unassigned(Domain::full().without(2).without(3));
    let (x, d) = unassigned_variable(&g).unwrap();
    assert_eq!(x, 7);
    assert_eq!(d.len(), 7);
}

#[test]
fn unassigned_variable_none_when_complete() {
    let g = grid(SOLUTION);
    assert!(unassigned_variable(&g).is_none());
}

#[test]
fn ac3_empty_grid_makes_no_reductions() {
    let g = ac3(grid(&"0".repeat(81))).unwrap();
    for v in &g {
        match v {
            Variable::Unassigned(d) => assert_eq!(d.len(), 9),
            Variable::Assigned(_) => panic!("empty grid gained a value"),
        }
    }
}

#[test]
fn ac3_removes_values_of_decided_peers() {
    let g = ac3(grid(PUZZLE)).unwrap();
    for x in 0..81 {
        if let Variable::Assigned(v) = g[x] {
            for y in generate_constraints(x) {
                match g[y] {
                    Variable::Assigned(w) => assert_ne!(v, w),
                    Variable::Unassigned(d) => assert!(!d.contains(v)),
                }
            }
        }
    }
}

#[test]
fn ac3_detects_equal_clues_in_a_row() {
    let text = with_cell(&"0".repeat(81), 0, '4');
    let text = with_cell(&text, 8, '4');
    assert_eq!(ac3(grid(&text)).err(), Some(SudokuError::Inconsistent));
}

#[test]
fn ac3_detects_equal_clues_in_a_column() {
    let text = with_cell(&"0".repeat(81), 3, '7');
    let text = with_cell(&text, 75, '7');
    assert_eq!(ac3(grid(&text)).err(), Some(SudokuError::Inconsistent));
}

#[test]
fn ac3_detects_equal_clues_in_a_box() {
    let text = with_cell(&"0".repeat(81), 30, '2');
    let text = with_cell(&text, 50, '2');
    assert_eq!(ac3(grid(&text)).err(), Some(SudokuError::Inconsistent));
}

#[test]
fn ac3_fills_single_blank() {
    let text = with_cell(SOLUTION, 40, '0');
    let g = ac3(grid(&text)).unwrap();
    assert_eq!(rendered(&g), SOLUTION);
}

#[test]
fn solve_known_puzzle() {
    let (r, stats) = solve(grid(PUZZLE));
    let g = r.unwrap();
    assert_eq!(rendered(&g), SOLUTION);
    assert!(stats.called >= 1);
}

#[test]
fn solution_keeps_clues() {
    let input = grid(PUZZLE);
    let clues = assigned_variables(&input);
    let (r, _) = solve(grid(PUZZLE));
    let g = r.unwrap();
    for (x, v) in clues {
        assert_eq!(value(&g[x]), v);
    }
}

#[test]
fn solve_empty_grid() {
    let (r, _) = solve(grid(&"0".repeat(81)));
    let g = r.unwrap();
    assert!(is_valid_solution(&g));
}

#[test]
fn solve_single_blank_without_branching() {
    let text = with_cell(SOLUTION, 17, '0');
    let (r, stats) = solve(grid(&text));
    assert_eq!(rendered(&r.unwrap()), SOLUTION);
    assert_eq!(stats, SearchStats { called: 1, failed: 0 });
}

#[test]
fn solve_equal_clues_is_exhausted() {
    let text = with_cell(PUZZLE, 2, '5');
    let (r, _) = solve(grid(&text));
    assert_eq!(r.err(), Some(SudokuError::SearchExhausted));
}

#[test]
fn solve_blocked_cell_is_exhausted() {
    // Cell 0 sees 1 to 8 in its row and 9 in its column, with no clue in conflict.
    let mut text = "0".repeat(81);
    for (i, d) in "12345678".chars().enumerate() {
        text = with_cell(&text, i + 1, d);
    }
    text = with_cell(&text, 27, '9');
    let (r, _) = solve(grid(&text));
    assert_eq!(r.err(), Some(SudokuError::SearchExhausted));
}

#[test]
fn solve_is_deterministic() {
    let (r1, s1) = solve(grid(&"0".repeat(81)));
    let (r2, s2) = solve(grid(&"0".repeat(81)));
    assert_eq!(rendered(&r1.unwrap()), rendered(&r2.unwrap()));
    assert_eq!(s1, s2);
    let (p1, t1) = solve(grid(PUZZLE));
    let (p2, t2) = solve(grid(PUZZLE));
    assert_eq!(rendered(&p1.unwrap()), rendered(&p2.unwrap()));
    assert_eq!(t1, t2);
}

#[test]
fn backtrack_counts_calls() {
    let g = ac3(grid(PUZZLE)).unwrap();
    let mut stats = SearchStats::new();
    let r = backtrack(g, &mut stats);
    assert!(r.is_ok());
    assert!(stats.called >= 1);
    let mut done = SearchStats { called: 5, failed: 2 };
    let r = backtrack(grid(SOLUTION), &mut done);
    assert_eq!(rendered(&r.unwrap()), SOLUTION);
    assert_eq!(done, SearchStats { called: 6, failed: 2 });
}

#[test]
fn render_shows_blanks_as_spaces() {
    let text = with_cell(SOLUTION, 0, '0');
    let out = rendered(&grid(&text));
    assert_eq!(out.len(), 90);
    assert!(out.starts_with(" 34678912\n"));
}
