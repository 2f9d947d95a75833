//! Parsing the text of a level into its grid of cells, its crates and its worker.
use vstd::prelude::*;

use crate::cell::{Background, Foreground, char_to_cell, spec_char_to_cell, goal_count, lemma_goal_count_update};
use crate::grid::{lemma_index_div_mod, lemma_index_bound, lemma_index_in_grid};
use crate::level::flood::{inside_cells, reachable, lemma_reach_seed};
use crate::level::lines::{level_lines, level_lines_of};
use crate::position::Position;
use crate::util::SokobanError;

verus! {

/// The length of the longest line.
pub open spec fn max_len(ls: Seq<Seq<char>>) -> nat
    decreases ls.len(),
{
    if ls.len() == 0 {
        0
    } else {
        let m = max_len(ls.drop_last());
        if ls.last().len() > m { ls.last().len() } else { m }
    }
}

pub open spec fn is_worker_char(c: char) -> bool {
    c == '@' || c == '+'
}

pub open spec fn is_crate_char(c: char) -> bool {
    c == '$' || c == '*'
}

/// A goal that no crate stands on.
pub open spec fn is_free_goal_char(c: char) -> bool {
    c == '.' || c == '+'
}

/// A crate that does not stand on a goal.
pub open spec fn is_crate_off_goal_char(c: char) -> bool {
    c == '$'
}

/// The static part of the cell a character describes (empty space for unknown characters).
pub open spec fn char_background(c: char) -> Background {
    match spec_char_to_cell(c) {
        Some((b, _f)) => b,
        None => Background::Empty,
    }
}

/// The positions, in order, of the first `m` characters of line `y` that satisfy `p`.
pub open spec fn line_items(l: Seq<char>, y: int, m: int, p: spec_fn(char) -> bool) -> Seq<
    Position,
>
    decreases m,
{
    if m <= 0 {
        Seq::empty()
    } else {
        let rest = line_items(l, y, m - 1, p);
        if p(l[m - 1]) {
            rest.push(Position { x: (m - 1) as isize, y: y as isize })
        } else {
            rest
        }
    }
}

/// The positions, in reading order, of the characters in the first `n` lines that satisfy `p`.
pub open spec fn lines_items(ls: Seq<Seq<char>>, n: int, p: spec_fn(char) -> bool) -> Seq<
    Position,
>
    decreases n,
{
    if n <= 0 {
        Seq::empty()
    } else {
        lines_items(ls, n - 1, p) + line_items(ls[n - 1], n - 1, ls[n - 1].len() as int, p)
    }
}

/// The positions, in reading order, of the characters before column `x` of line `y` that
/// satisfy `p`.
pub open spec fn items_before(ls: Seq<Seq<char>>, y: int, x: int, p: spec_fn(char) -> bool) -> Seq<
    Position,
> {
    lines_items(ls, y, p) + line_items(ls[y], y, x, p)
}

/// The positions, in reading order, of all characters that satisfy `p`.
pub open spec fn all_items(ls: Seq<Seq<char>>, p: spec_fn(char) -> bool) -> Seq<Position> {
    lines_items(ls, ls.len() as int, p)
}

/// Is there a wall in line `l` at or before column `x`?
pub open spec fn wall_at_or_before(l: Seq<char>, x: int) -> bool {
    exists|j: int| 0 <= j <= x && j < l.len() && l[j] == '#'
}

/// The static part of cell (x, y) before cells outside the level are told apart from the
/// floor inside it: the character's own background, except that empty space to the right of a
/// wall in its line, below a cell that is not empty, counts as floor.
pub open spec fn initial_background(ls: Seq<Seq<char>>, y: int, x: int) -> Background
    decreases y,
{
    if y < 0 || y >= ls.len() || x < 0 || x >= ls[y].len() {
        Background::Empty
    } else {
        let base = char_background(ls[y][x]);
        if base == Background::Empty && wall_at_or_before(ls[y], x) && y >= 1
            && initial_background(ls, y - 1, x) != Background::Empty {
            Background::Floor
        } else {
            base
        }
    }
}

/// `initial_background` of the cell with row-major index `i`.
pub open spec fn initial_background_at(ls: Seq<Seq<char>>, c: int, i: int) -> Background {
    initial_background(ls, i / c, i % c)
}

/// No character that describes no cell is read before the second worker is found (reading the
/// level stops there).
pub open spec fn characters_ok(ls: Seq<Seq<char>>) -> bool {
    forall|y: int, x: int|
        0 <= y < ls.len() && 0 <= x < ls[y].len() && spec_char_to_cell(#[trigger] ls[y][x])
            is None ==> items_before(ls, y, x, |c: char| is_worker_char(c)).len() >= 2
}

/// The number of free goals minus the number of crates that are not on a goal.
pub open spec fn goals_minus_crates(ls: Seq<Seq<char>>) -> int {
    all_items(ls, |c: char| is_free_goal_char(c)).len() - all_items(
        ls,
        |c: char| is_crate_off_goal_char(c),
    ).len()
}

/// Why the lines of a level do not describe a level, if they do not.
pub open spec fn spec_level_error(rank: usize, ls: Seq<Seq<char>>) -> Option<SokobanError> {
    if ls.len() == 0 {
        Some(SokobanError::NoLevel(rank))
    } else if all_items(ls, |c: char| is_worker_char(c)).len() >= 2 {
        Some(SokobanError::TwoWorkers(rank))
    } else if all_items(ls, |c: char| is_worker_char(c)).len() == 0 {
        Some(SokobanError::NoWorker(rank))
    } else if goals_minus_crates(ls) != 0 {
        Some(SokobanError::CratesGoalsMismatch(rank, goals_minus_crates(ls) as i32))
    } else {
        None
    }
}

/// The level is small enough for its cells to be counted in an `isize`, as a vector of them
/// must be.
pub open spec fn size_ok(ls: Seq<Seq<char>>) -> bool {
    ls.len() * max_len(ls) < isize::MAX
}

/// How many more free goals than crates off goals come before column `x` of line `y`.
pub open spec fn goal_balance(ls: Seq<Seq<char>>, y: int, x: int) -> int {
    items_before(ls, y, x, |c: char| is_free_goal_char(c)).len() - items_before(
        ls,
        y,
        x,
        |c: char| is_crate_off_goal_char(c),
    ).len()
}

/// Counting up for every free goal and down for every crate off a goal, cell by cell in reading
/// order, the count stays within the range of an `i32`.
pub open spec fn balance_ok(ls: Seq<Seq<char>>) -> bool {
    forall|y: int, x: int|
        0 <= y < ls.len() && 0 <= x <= ls[y].len() ==> i32::MIN <= #[trigger] goal_balance(ls, y, x)
            <= i32::MAX
}

pub struct LevelBuilder {
    pub rank: usize,
    pub columns: usize,
    pub rows: usize,
    pub background: Vec<Background>,
    pub crates: Vec<Position>,
    pub worker_position: Position,
}

/// Every line is at most as long as the longest one, and some line is that long.
pub proof fn lemma_max_len(ls: Seq<Seq<char>>)
    ensures
        forall|i: int| 0 <= i < ls.len() ==> #[trigger] ls[i].len() <= max_len(ls),
        ls.len() > 0 ==> exists|i: int| 0 <= i < ls.len() && #[trigger] ls[i].len() == max_len(ls),
    decreases ls.len(),
{
    if ls.len() > 0 {
        let d = ls.drop_last();
        lemma_max_len(d);
        let m = max_len(d);
        assert(max_len(ls) == if ls.last().len() > m { ls.last().len() } else { m });
        assert forall|i: int| 0 <= i < ls.len() implies #[trigger] ls[i].len() <= max_len(ls) by {
            if i < ls.len() - 1 {
                assert(ls[i] == d[i]);
            }
        }
        if ls.last().len() > m || d.len() == 0 {
            if d.len() == 0 {
                assert(m == 0);
            }
            assert(ls[ls.len() - 1].len() == max_len(ls));
        } else {
            let i = choose|i: int| 0 <= i < d.len() && #[trigger] d[i].len() == m;
            assert(ls[i] == d[i]);
        }
    }
}

/// A line has no more matching characters than characters.
pub proof fn lemma_line_items_len(l: Seq<char>, y: int, m: int, p: spec_fn(char) -> bool)
    ensures
        line_items(l, y, m, p).len() <= if m < 0 { 0 } else { m },
    decreases m,
{
    if m > 0 {
        lemma_line_items_len(l, y, m - 1, p);
    }
}

/// The first `n` lines have at most `n` times the longest line's length matching characters.
pub proof fn lemma_lines_items_len(ls: Seq<Seq<char>>, n: int, p: spec_fn(char) -> bool)
    requires
        0 <= n <= ls.len(),
    ensures
        lines_items(ls, n, p).len() <= n * max_len(ls),
    decreases n,
{
    if n > 0 {
        lemma_lines_items_len(ls, n - 1, p);
        lemma_line_items_len(ls[n - 1], n - 1, ls[n - 1].len() as int, p);
        lemma_max_len(ls);
        assert(ls[n - 1].len() <= max_len(ls));
        assert((n - 1) * max_len(ls) + max_len(ls) == n * max_len(ls)) by (nonlinear_arith);
    }
}

/// Counting past the end of a line changes nothing.
pub proof fn lemma_items_row_end(ls: Seq<Seq<char>>, y: int, p: spec_fn(char) -> bool)
    requires
        0 <= y < ls.len(),
    ensures
        items_before(ls, y, ls[y].len() as int, p) == lines_items(ls, y + 1, p),
        line_items(ls[y], y, 0, p) == Seq::<Position>::empty(),
{
}

impl LevelBuilder {
    pub fn new(rank: usize, level_string: &str) -> (r: Result<Self, SokobanError>)
        requires
            characters_ok(level_lines(level_string@)),
            size_ok(level_lines(level_string@)),
            balance_ok(level_lines(level_string@)),
        ensures
            ({
                let ls = level_lines(level_string@);
                match r {
                    Ok(b) => {
                        &&& spec_level_error(rank, ls) is None
                        &&& b.columns >= 1
                        &&& b.rank == rank
                        &&& b.rows == ls.len()
                        &&& b.columns == max_len(ls)
                        &&& b.background@.len() == b.rows * b.columns
                        &&& forall|i: int|
                            0 <= i < b.background@.len() ==> #[trigger] b.background@[i]
                                == initial_background_at(ls, b.columns as int, i)
                        &&& b.crates@ == all_items(ls, |c: char| is_crate_char(c))
                        &&& b.worker_position == all_items(ls, |c: char| is_worker_char(c))[0]
                        &&& goal_count(b.background@) == b.crates@.len()
                    },
                    Err(e) => spec_level_error(rank, ls) == Some(e),
                }
            }),
    {
        let chars = crate::text::chars_of(level_string);
        let lines = level_lines_of(&chars);
        let ghost ls = level_lines(level_string@);
        assert(lines@.len() == ls.len());
        let rows = lines.len();
        if rows == 0 {
            return Err(SokobanError::NoLevel(rank));
        }
        proof {
            lemma_max_len(ls);
            crate::level::lines::lemma_level_lines_nonempty(level_string@);
        }
        // The longest line's length.
        let mut columns: usize = 0;
        let mut k: usize = 0;
        while k < rows
            invariant
                rows == lines@.len(),
                rows == ls.len(),
                forall|i: int| 0 <= i < rows ==> #[trigger] lines@[i]@ == ls[i],
                k <= rows,
                columns == max_len(ls.take(k as int)),
            decreases rows - k,
        {
            assert(ls.take(k + 1).drop_last() =~= ls.take(k as int));
            if lines[k].len() > columns {
                columns = lines[k].len();
            }
            k = k + 1;
        }
        assert(ls.take(rows as int) =~= ls);
        proof {
            let i = choose|i: int| 0 <= i < ls.len() && #[trigger] ls[i].len() == max_len(ls);
            assert(columns >= 1);
            assert(rows * columns < isize::MAX);
            assert(rows * columns >= columns) by (nonlinear_arith)
                requires
                    rows >= 1,
                    columns >= 0,
            ;
        }
        let n: usize = rows * columns;
        let mut background: Vec<Background> = Vec::new();
        let mut j: usize = 0;
        while j < n
            invariant
                j <= n,
                background@.len() == j,
                forall|i: int| 0 <= i < j ==> #[trigger] background@[i] == Background::Empty,
                goal_count(background@) == 0,
            decreases n - j,
        {
            let ghost before = background@;
            background.push(Background::Empty);
            assert(background@.drop_last() =~= before);
            j = j + 1;
        }

        let mut found_worker = false;
        let mut worker_position = Position { x: 0, y: 0 };
        let mut crates: Vec<Position> = Vec::new();
        let mut goals_minus_crates: i32 = 0;
        let ghost pw = |c: char| is_worker_char(c);
        let ghost pc = |c: char| is_crate_char(c);
        let ghost pg = |c: char| is_free_goal_char(c);
        let ghost po = |c: char| is_crate_off_goal_char(c);

        let mut y: usize = 0;
        while y < rows
            invariant
                rows == lines@.len(),
                rows == ls.len(),
                forall|i: int| 0 <= i < rows ==> #[trigger] lines@[i]@ == ls[i],
                forall|i: int| 0 <= i < rows ==> #[trigger] ls[i].len() <= columns,
                columns == max_len(ls),
                columns >= 1,
                n == rows * columns,
                rows * columns < isize::MAX,
                y <= rows,
                characters_ok(ls),
                balance_ok(ls),
                ls == level_lines(level_string@),
                background@.len() == n,
                forall|i: int|
                    0 <= i < n ==> #[trigger] background@[i] == if i < y * columns {
                        initial_background_at(ls, columns as int, i)
                    } else {
                        Background::Empty
                    },
                crates@ == lines_items(ls, y as int, pc),
                lines_items(ls, y as int, pw).len() <= 1,
                found_worker <==> lines_items(ls, y as int, pw).len() == 1,
                found_worker ==> worker_position == lines_items(ls, y as int, pw)[0],
                goals_minus_crates == lines_items(ls, y as int, pg).len() - lines_items(
                    ls,
                    y as int,
                    po,
                ).len(),
                goal_count(background@) == crates@.len() + goals_minus_crates,
                pw == (|c: char| is_worker_char(c)),
                pc == (|c: char| is_crate_char(c)),
                pg == (|c: char| is_free_goal_char(c)),
                po == (|c: char| is_crate_off_goal_char(c)),
            decreases rows - y,
        {
            let line = &lines[y];
            let len = line.len();
            let mut inside = false;
            let mut x: usize = 0;
            proof {
                lemma_index_bound(y as int, 0, columns as int, rows as int);
            }
            while x < len
                invariant
                    rows == lines@.len(),
                    rows == ls.len(),
                    forall|i: int| 0 <= i < rows ==> #[trigger] lines@[i]@ == ls[i],
                    y < rows,
                    line@ == ls[y as int],
                    len == line@.len(),
                    len <= columns,
                    columns == max_len(ls),
                    columns >= 1,
                    n == rows * columns,
                    rows * columns < isize::MAX,
                    x <= len,
                    characters_ok(ls),
                    balance_ok(ls),
                    ls == level_lines(level_string@),
                    inside == (x > 0 && wall_at_or_before(ls[y as int], x - 1)),
                    background@.len() == n,
                    forall|i: int|
                        0 <= i < n ==> #[trigger] background@[i] == if i < y * columns + x {
                            initial_background_at(ls, columns as int, i)
                        } else {
                            Background::Empty
                        },
                    crates@ == items_before(ls, y as int, x as int, pc),
                    items_before(ls, y as int, x as int, pw).len() <= 1,
                    found_worker <==> items_before(ls, y as int, x as int, pw).len() == 1,
                    found_worker ==> worker_position == items_before(ls, y as int, x as int, pw)[0],
                    goals_minus_crates == items_before(ls, y as int, x as int, pg).len()
                        - items_before(ls, y as int, x as int, po).len(),
                    goal_count(background@) == crates@.len() + goals_minus_crates,
                    pw == (|c: char| is_worker_char(c)),
                    pc == (|c: char| is_crate_char(c)),
                    pg == (|c: char| is_free_goal_char(c)),
                    po == (|c: char| is_crate_off_goal_char(c)),
                decreases len - x,
            {
                let chr = line[x];
                proof {
                    lemma_index_bound(y as int, x as int, columns as int, rows as int);
                    lemma_lines_items_len(ls, y as int, pg);
                    lemma_lines_items_len(ls, y as int, po);
                    lemma_line_items_len(ls[y as int], y as int, x as int, pg);
                    lemma_line_items_len(ls[y as int], y as int, x as int, po);
                    assert(y * max_len(ls) + x <= y * columns + x);
                }
                let cell = char_to_cell(chr);
                let (bg, fg) = match cell {
                    Some(p) => p,
                    None => {
                        proof {
                            assert(spec_char_to_cell(ls[y as int][x as int]) is None);
                            assert(false);
                        }
                        (Background::Empty, Foreground::Nothing)
                    },
                };
                let index = y * columns + x;
                proof {
                    lemma_index_div_mod(y as int, x as int, columns as int);
                }
                proof {
                    lemma_goal_count_update(background@, index as int, bg);
                }
                background.set(index, bg);
                let ghost inside_before = inside;
                if !inside && bg == Background::Wall {
                    inside = true;
                }
                if inside && bg == Background::Empty && index >= columns {
                    proof {
                        lemma_index_div_mod(y - 1, x as int, columns as int);
                        assert(index - columns == (y - 1) * columns + x) by (nonlinear_arith)
                            requires
                                index == y * columns + x,
                        ;
                    }
                    if background[index - columns] != Background::Empty {
                        proof {
                            lemma_goal_count_update(background@, index as int, Background::Floor);
                        }
                        background.set(index, Background::Floor);
                    }
                }
                proof {
                    if y == 0 {
                        assert(index < columns);
                    }
                    if index >= columns {
                        assert(y >= 1) by (nonlinear_arith)
                            requires
                                index == y * columns + x,
                                x < columns,
                                index >= columns,
                        ;
                    }
                    assert(ls[y as int][x as int] == chr);
                    assert(char_background(chr) == bg);
                    assert(wall_at_or_before(ls[y as int], x as int) == inside) by {
                        if inside_before {
                            let j = choose|j: int|
                                0 <= j <= x - 1 && j < ls[y as int].len() && ls[y as int][j] == '#';
                            assert(0 <= j <= x && j < ls[y as int].len() && ls[y as int][j] == '#');
                        }
                        if bg == Background::Wall {
                            assert(ls[y as int][x as int] == '#');
                        }
                        if wall_at_or_before(ls[y as int], x as int) {
                            let j = choose|j: int|
                                0 <= j <= x && j < ls[y as int].len() && ls[y as int][j] == '#';
                            if j < x {
                                assert(x > 0 && wall_at_or_before(ls[y as int], x - 1));
                            } else {
                                assert(chr == '#');
                            }
                        }
                    }
                    if y >= 1 {
                        lemma_index_div_mod(y - 1, x as int, columns as int);
                        assert(index - columns == (y - 1) * columns + x) by (nonlinear_arith)
                            requires
                                index == y * columns + x,
                        ;
                    }
                    assert(background@[index as int] == initial_background(ls, y as int, x as int));
                }
                if fg == Foreground::Crate {
                    crates.push(Position { x: x as isize, y: y as isize });
                }
                proof {
                    assert(i32::MIN <= goal_balance(ls, y as int, x + 1) <= i32::MAX);
                }
                if bg == Background::Goal && fg != Foreground::Crate {
                    goals_minus_crates = goals_minus_crates + 1;
                } else if bg != Background::Goal && fg == Foreground::Crate {
                    goals_minus_crates = goals_minus_crates - 1;
                }
                if fg == Foreground::Worker {
                    if found_worker {
                        proof {
                            assert(pw(chr));
                            assert(line_items(ls[y as int], y as int, x + 1, pw) == line_items(
                                ls[y as int],
                                y as int,
                                x as int,
                                pw,
                            ).push(Position { x: x as isize, y: y as isize }));
                            assert(items_before(ls, y as int, x + 1, pw).len() == 2);
                            lemma_items_prefix_le(ls, y as int, x + 1, pw);
                            assert(all_items(ls, pw).len() >= 2);
                            assert(spec_level_error(rank, ls) == Some(SokobanError::TwoWorkers(rank)));
                        }
                        let e = SokobanError::TwoWorkers(rank);
                        assert(spec_level_error(rank, level_lines(level_string@)) == Some(e));
                        return Err(e);
                    }
                    worker_position = Position { x: x as isize, y: y as isize };
                    found_worker = true;
                }
                x = x + 1;
            }
            proof {
                lemma_items_row_end(ls, y as int, pc);
                lemma_items_row_end(ls, y as int, pw);
                lemma_items_row_end(ls, y as int, pg);
                lemma_items_row_end(ls, y as int, po);
                lemma_index_bound(y as int, 0, columns as int, rows as int);
                assert forall|i: int| 0 <= i < n implies #[trigger] background@[i] == if i < (y
                    + 1) * columns {
                    initial_background_at(ls, columns as int, i)
                } else {
                    Background::Empty
                } by {
                    assert((y + 1) * columns == y * columns + columns) by (nonlinear_arith);
                    if y * columns + len <= i < (y + 1) * columns {
                        lemma_index_div_mod(y as int, i - y * columns, columns as int);
                        assert(i / columns as int == y);
                        assert(i % columns as int >= len);
                        assert(initial_background_at(ls, columns as int, i) == Background::Empty);
                        assert(background@[i] == Background::Empty);
                    } else if i < y * columns + len {
                        assert(background@[i] == initial_background_at(ls, columns as int, i));
                    } else {
                        assert(background@[i] == Background::Empty);
                    }
                }
            }
            y = y + 1;
        }
        if !found_worker {
            return Err(SokobanError::NoWorker(rank));
        } else if goals_minus_crates != 0 {
            return Err(SokobanError::CratesGoalsMismatch(rank, goals_minus_crates));
        }
        Ok(LevelBuilder { rank, columns, rows, background, crates, worker_position })
    }
}

/// Once some prefix of the level holds at least `k` matching characters, the whole level does.
pub proof fn lemma_items_prefix_le(ls: Seq<Seq<char>>, y: int, x: int, p: spec_fn(char) -> bool)
    requires
        0 <= y < ls.len(),
        0 <= x <= ls[y].len(),
    ensures
        items_before(ls, y, x, p).len() <= all_items(ls, p).len(),
        forall|i: int|
            0 <= i < items_before(ls, y, x, p).len() ==> #[trigger] items_before(ls, y, x, p)[i]
                == all_items(ls, p)[i],
{
    lemma_line_items_prefix(ls[y], y, x, ls[y].len() as int, p);
    lemma_lines_items_prefix(ls, y + 1, ls.len() as int, p);
    let a = lines_items(ls, y, p);
    let b = line_items(ls[y], y, x, p);
    let b2 = line_items(ls[y], y, ls[y].len() as int, p);
    assert(lines_items(ls, y + 1, p) == a + b2);
    assert forall|i: int| 0 <= i < items_before(ls, y, x, p).len() implies #[trigger] items_before(
        ls,
        y,
        x,
        p,
    )[i] == all_items(ls, p)[i] by {
        assert(items_before(ls, y, x, p)[i] == lines_items(ls, y + 1, p)[i]);
    }
}

proof fn lemma_line_items_prefix(l: Seq<char>, y: int, m1: int, m2: int, p: spec_fn(char) -> bool)
    requires
        0 <= m1 <= m2,
    ensures
        line_items(l, y, m1, p).len() <= line_items(l, y, m2, p).len(),
        forall|i: int|
            0 <= i < line_items(l, y, m1, p).len() ==> #[trigger] line_items(l, y, m1, p)[i]
                == line_items(l, y, m2, p)[i],
    decreases m2 - m1,
{
    if m1 < m2 {
        lemma_line_items_prefix(l, y, m1, m2 - 1, p);
    }
}

proof fn lemma_lines_items_prefix(ls: Seq<Seq<char>>, n1: int, n2: int, p: spec_fn(char) -> bool)
    requires
        0 <= n1 <= n2,
    ensures
        lines_items(ls, n1, p).len() <= lines_items(ls, n2, p).len(),
        forall|i: int|
            0 <= i < lines_items(ls, n1, p).len() ==> #[trigger] lines_items(ls, n1, p)[i]
                == lines_items(ls, n2, p)[i],
    decreases n2 - n1,
{
    if n1 < n2 {
        lemma_lines_items_prefix(ls, n1, n2 - 1, p);
    }
}

} // verus!

verus! {

/// Every listed position is a cell of the level whose character satisfies `p`.
pub proof fn lemma_all_items_cells(ls: Seq<Seq<char>>, p: spec_fn(char) -> bool)
    requires
        forall|i: int| 0 <= i < ls.len() ==> #[trigger] ls[i].len() <= isize::MAX,
        ls.len() <= isize::MAX,
    ensures
        forall|k: int|
            0 <= k < all_items(ls, p).len() ==> {
                let q = #[trigger] all_items(ls, p)[k];
                &&& 0 <= q.y < ls.len()
                &&& 0 <= q.x < ls[q.y as int].len()
                &&& p(ls[q.y as int][q.x as int])
            },
        sorted_positions(all_items(ls, p)),
{
    lemma_lines_items_cells(ls, ls.len() as int, p);
}

/// Position `a` comes before `b` in reading order.
pub open spec fn reads_before(a: Position, b: Position) -> bool {
    a.y < b.y || (a.y == b.y && a.x < b.x)
}

/// The positions are listed in reading order, each one once.
pub open spec fn sorted_positions(s: Seq<Position>) -> bool {
    forall|i: int, j: int| 0 <= i < j < s.len() ==> reads_before(#[trigger] s[i], #[trigger] s[j])
}

proof fn lemma_line_items_cells(l: Seq<char>, y: int, m: int, p: spec_fn(char) -> bool)
    requires
        0 <= y <= isize::MAX,
        m <= l.len() <= isize::MAX,
    ensures
        forall|k: int|
            0 <= k < line_items(l, y, m, p).len() ==> {
                let q = #[trigger] line_items(l, y, m, p)[k];
                &&& q.y == y
                &&& 0 <= q.x < m
                &&& p(l[q.x as int])
            },
        sorted_positions(line_items(l, y, m, p)),
    decreases m,
{
    if m > 0 {
        lemma_line_items_cells(l, y, m - 1, p);
    }
}

proof fn lemma_lines_items_cells(ls: Seq<Seq<char>>, n: int, p: spec_fn(char) -> bool)
    requires
        0 <= n <= ls.len(),
        forall|i: int| 0 <= i < ls.len() ==> #[trigger] ls[i].len() <= isize::MAX,
        ls.len() <= isize::MAX,
    ensures
        forall|k: int|
            0 <= k < lines_items(ls, n, p).len() ==> {
                let q = #[trigger] lines_items(ls, n, p)[k];
                &&& 0 <= q.y < n
                &&& 0 <= q.x < ls[q.y as int].len()
                &&& p(ls[q.y as int][q.x as int])
            },
        sorted_positions(lines_items(ls, n, p)),
    decreases n,
{
    if n > 0 {
        lemma_lines_items_cells(ls, n - 1, p);
        lemma_line_items_cells(ls[n - 1], n - 1, ls[n - 1].len() as int, p);
        let a = lines_items(ls, n - 1, p);
        let b = line_items(ls[n - 1], n - 1, ls[n - 1].len() as int, p);
        assert(lines_items(ls, n, p) == a + b);
        assert forall|i: int, j: int| 0 <= i < j < (a + b).len() implies reads_before(
            #[trigger] (a + b)[i],
            #[trigger] (a + b)[j],
        ) by {
            if j < a.len() {
                assert(reads_before(a[i], a[j]));
            } else if i >= a.len() {
                assert(reads_before(b[i - a.len()], b[j - a.len()]));
            } else {
                assert(a[i].y < n - 1);
                assert(b[j - a.len()].y == n - 1);
            }
        }
    }
}

} // verus!

verus! {

impl LevelBuilder {
    /// The parsed grid holds the worker and the crates, each on a cell of its own that is floor
    /// or a goal, and as many goals as crates.
    pub open spec fn wf(&self) -> bool {
        &&& self.columns >= 1
        &&& self.rows >= 1
        &&& self.rows * self.columns < isize::MAX
        &&& self.background@.len() == self.rows * self.columns
        &&& crate::level::in_grid(self.worker_position, self.columns as int, self.rows as int)
        &&& forall|k: int|
            0 <= k < self.crates@.len() ==> crate::level::in_grid(
                #[trigger] self.crates@[k],
                self.columns as int,
                self.rows as int,
            )
        &&& forall|i: int, j: int|
            0 <= i < j < self.crates@.len() ==> #[trigger] self.crates@[i] != #[trigger] self.crates@[j]
        &&& forall|k: int|
            0 <= k < self.crates@.len() ==> #[trigger] self.crates@[k] != self.worker_position
        &&& crate::level::floor_or_goal(
            self.background@[crate::level::cell_index(self.worker_position, self.columns as int)],
        )
        &&& forall|k: int|
            0 <= k < self.crates@.len() ==> crate::level::floor_or_goal(
                #[trigger] self.background@[crate::level::cell_index(
                    self.crates@[k],
                    self.columns as int,
                )],
            )
        &&& goal_count(self.background@) == self.crates@.len()
    }

    pub fn build(self) -> (lvl: crate::level::Level)
        requires
            self.wf(),
        ensures
            lvl.wf(),
            lvl.rank == self.rank,
            lvl.columns == self.columns,
            lvl.rows == self.rows,
            lvl.crates@ == self.crates@,
            lvl.worker_position == self.worker_position,
            lvl.background@ == crate::level::flood::corrected_background(
                self.background@,
                self.columns as int,
                crate::level::level_seeds(
                    self.background@,
                    self.columns as int,
                    self.worker_position,
                    self.crates@,
                ),
            ),
    {
        let mut b = self;
        b.correct_outside_cells();
        crate::level::Level {
            rank: b.rank,
            columns: b.columns,
            rows: b.rows,
            background: b.background,
            crates: b.crates,
            worker_position: b.worker_position,
        }
    }

    /// Fix the mistakes of the heuristic used in `new()` for detecting which cells are on the
    /// inside: floor that cannot be reached from the worker, a crate or a goal is outside.
    fn correct_outside_cells(&mut self)
        requires
            old(self).wf(),
        ensures
            final(self).wf(),
            final(self).rank == old(self).rank,
            final(self).columns == old(self).columns,
            final(self).rows == old(self).rows,
            final(self).crates == old(self).crates,
            final(self).worker_position == old(self).worker_position,
            final(self).background@ == crate::level::flood::corrected_background(
                old(self).background@,
                old(self).columns as int,
                crate::level::level_seeds(
                    old(self).background@,
                    old(self).columns as int,
                    old(self).worker_position,
                    old(self).crates@,
                ),
            ),
    {
        let columns = self.columns;
        let n = self.background.len();
        let ghost bg0 = self.background@;
        let ghost c = columns as int;
        let ghost seeds = crate::level::level_seeds(bg0, c, self.worker_position, self.crates@);
        let mut seed: Vec<bool> = Vec::new();
        let mut i: usize = 0;
        while i < n
            invariant
                n == bg0.len(),
                self.background@ == bg0,
                i <= n,
                seed@.len() == i,
                forall|k: int| 0 <= k < i ==> #[trigger] seed@[k] == (bg0[k] == Background::Goal),
            decreases n - i,
        {
            seed.push(self.background[i] == Background::Goal);
            i = i + 1;
        }
        proof {
            lemma_index_bound(
                self.worker_position.y as int,
                self.worker_position.x as int,
                c,
                self.rows as int,
            );
        }
        let w = self.worker_position.to_index(columns);
        seed.set(w, true);
        let m = self.crates.len();
        let mut k: usize = 0;
        while k < m
            invariant
                n == bg0.len(),
                self.background@ == bg0,
                old(self).wf(),
                self.crates == old(self).crates,
                self.rows == old(self).rows,
                self.columns == columns,
                self.worker_position == old(self).worker_position,
                c == columns as int,
                m == self.crates@.len(),
                k <= m,
                seed@.len() == n,
                forall|q: int|
                    0 <= q < n ==> #[trigger] seed@[q] == (bg0[q] == Background::Goal || q
                        == crate::level::cell_index(self.worker_position, c) || exists|j: int|
                        0 <= j < k && q == crate::level::cell_index(#[trigger] self.crates@[j], c)),
            decreases m - k,
        {
            let p = self.crates[k];
            proof {
                assert(crate::level::in_grid(self.crates@[k as int], c, self.rows as int));
                lemma_index_bound(p.y as int, p.x as int, c, self.rows as int);
            }
            let idx = p.to_index(columns);
            seed.set(idx, true);
            proof {
                assert forall|q: int|
                    0 <= q < n implies #[trigger] seed@[q] == (bg0[q] == Background::Goal || q
                        == crate::level::cell_index(self.worker_position, c) || exists|j: int|
                        0 <= j < k + 1 && q == crate::level::cell_index(
                            #[trigger] self.crates@[j],
                            c,
                        )) by {
                    if q == idx as int {
                        assert(q == crate::level::cell_index(self.crates@[k as int], c));
                    }
                }
            }
            k = k + 1;
        }
        proof {
            assert forall|q: int| 0 <= q < n implies #[trigger] seed@[q] == seeds.contains(q) by {
            }
            assert(Set::new(|s: int| 0 <= s < seed@.len() && seed@[s]) =~= seeds.intersect(
                Set::new(|s: int| 0 <= s < n),
            ));
        }
        let inside = inside_cells(&self.background, columns, &seed);
        let ghost seeds_used = Set::new(|s: int| 0 <= s < seed@.len() && seed@[s]);
        proof {
            assert forall|q: int| 0 <= q < n implies reachable(bg0, c, seeds_used, q) == reachable(
                bg0,
                c,
                seeds,
                q,
            ) by {
                if reachable(bg0, c, seeds_used, q) {
                    let p = choose|p: Seq<int>|
                        #[trigger] crate::level::flood::is_walk(bg0, c, p) && seeds_used.contains(p[0])
                            && p.last() == q;
                    assert(seeds.contains(p[0]));
                }
                if reachable(bg0, c, seeds, q) {
                    let p = choose|p: Seq<int>|
                        #[trigger] crate::level::flood::is_walk(bg0, c, p) && seeds.contains(p[0])
                            && p.last() == q;
                    assert(0 <= p[0] < n);
                    assert(seeds_used.contains(p[0]));
                }
            }
        }
        let mut j: usize = 0;
        while j < n
            invariant
                n == bg0.len(),
                inside@.len() == n,
                forall|q: int|
                    0 <= q < n ==> #[trigger] inside@[q] == reachable(bg0, c, seeds_used, q),
                forall|q: int|
                    0 <= q < n ==> reachable(bg0, c, seeds_used, q) == reachable(bg0, c, seeds, q),
                j <= n,
                self.background@.len() == n,
                forall|q: int|
                    0 <= q < n ==> #[trigger] self.background@[q] == if q < j {
                        crate::level::flood::corrected_background(bg0, c, seeds)[q]
                    } else {
                        bg0[q]
                    },
                self.crates == old(self).crates,
                self.rows == old(self).rows,
                self.rank == old(self).rank,
                self.columns == columns,
                self.worker_position == old(self).worker_position,
            decreases n - j,
        {
            if !inside[j] && self.background[j] == Background::Floor {
                self.background.set(j, Background::Empty);
            }
            j = j + 1;
        }
        proof {
            assert(self.background@ =~= crate::level::flood::corrected_background(bg0, c, seeds));
            crate::cell::lemma_goal_count_same(bg0, self.background@);
            let wi = crate::level::cell_index(self.worker_position, c);
            assert(seeds.contains(wi));
            lemma_reach_seed(bg0, c, seeds, wi);
            assert forall|k: int| 0 <= k < self.crates@.len() implies crate::level::floor_or_goal(
                #[trigger] self.background@[crate::level::cell_index(self.crates@[k], c)],
            ) by {
                let ci = crate::level::cell_index(self.crates@[k], c);
                assert(crate::level::in_grid(self.crates@[k], c, self.rows as int));
                lemma_index_bound(self.crates@[k].y as int, self.crates@[k].x as int, c, self.rows as int);
                assert(seeds.contains(ci));
                lemma_reach_seed(bg0, c, seeds, ci);
            }
        }
    }
}

} // verus!

verus! {

/// A level that parsed without error satisfies the builder's well-formedness.
pub proof fn lemma_builder_wf(b: LevelBuilder, ls: Seq<Seq<char>>)
    requires
        spec_level_error(b.rank, ls) is None,
        size_ok(ls),
        b.columns >= 1,
        b.rows == ls.len(),
        b.columns == max_len(ls),
        b.background@.len() == b.rows * b.columns,
        forall|i: int|
            0 <= i < b.background@.len() ==> #[trigger] b.background@[i]
                == initial_background_at(ls, b.columns as int, i),
        b.crates@ == all_items(ls, |c: char| is_crate_char(c)),
        b.worker_position == all_items(ls, |c: char| is_worker_char(c))[0],
        goal_count(b.background@) == b.crates@.len(),
    ensures
        b.wf(),
{
    let c = b.columns as int;
    let pw = |ch: char| is_worker_char(ch);
    let pc = |ch: char| is_crate_char(ch);
    lemma_max_len(ls);
    assert(ls.len() <= isize::MAX) by (nonlinear_arith)
        requires
            ls.len() * c < isize::MAX,
            c >= 1,
    ;
    assert forall|i: int| 0 <= i < ls.len() implies #[trigger] ls[i].len() <= isize::MAX by {
        assert(ls[i].len() <= c);
        assert(c <= ls.len() * c) by (nonlinear_arith)
            requires
                ls.len() >= 1,
                c >= 0,
        ;
    }
    lemma_all_items_cells(ls, pc);
    lemma_all_items_cells(ls, pw);
    let w = b.worker_position;
    assert(all_items(ls, pw).len() == 1);
    assert(0 <= w.y < ls.len() && 0 <= w.x < ls[w.y as int].len() && pw(ls[w.y as int][w.x as int]));
    assert(crate::level::in_grid(w, c, b.rows as int));
    assert(crate::level::floor_or_goal(
        b.background@[crate::level::cell_index(w, c)],
    )) by {
        lemma_index_bound(w.y as int, w.x as int, c, b.rows as int);
        lemma_index_div_mod(w.y as int, w.x as int, c);
        assert(crate::level::cell_index(w, c) == w.y * c + w.x);
    }
    assert forall|k: int| 0 <= k < b.crates@.len() implies crate::level::in_grid(
        #[trigger] b.crates@[k],
        c,
        b.rows as int,
    ) && crate::level::floor_or_goal(
        b.background@[crate::level::cell_index(b.crates@[k], c)],
    ) && b.crates@[k] != w by {
        let q = b.crates@[k];
        assert(0 <= q.y < ls.len() && 0 <= q.x < ls[q.y as int].len() && pc(ls[q.y as int][q.x as int]));
        lemma_index_bound(q.y as int, q.x as int, c, b.rows as int);
        lemma_index_div_mod(q.y as int, q.x as int, c);
        assert(crate::level::cell_index(q, c) == q.y * c + q.x);
    }
    assert forall|i: int, j: int| 0 <= i < j < b.crates@.len() implies #[trigger] b.crates@[i]
        != #[trigger] b.crates@[j] by {
        assert(reads_before(b.crates@[i], b.crates@[j]));
    }
}

} // verus!
