use vstd::prelude::*;

pub mod lines;
pub mod builder;
pub mod flood;

use crate::cell::{Background, char_to_cell, spec_char_to_cell, goal_count};
use crate::grid::{lemma_index_bound, lemma_index_div_mod};
use crate::level::builder::{
    LevelBuilder, all_items, initial_background, initial_background_at, is_crate_char, items_before, lines_items, lemma_items_row_end,
    is_worker_char, lemma_all_items_cells, max_len, reads_before,
    sorted_positions, spec_level_error, characters_ok, size_ok, balance_ok, goal_balance,
};
use crate::level::flood::{corrected_background, inside_cells, lemma_reach_seed, reachable};
use crate::level::lines::level_lines;
use crate::position::Position;
use crate::util::SokobanError;

verus! {

/// A level as it is described in a collection: its static cells, and where the crates and the
/// worker start.
#[derive(Debug)]
pub struct Level {
    pub rank: usize,
    pub columns: usize,
    pub rows: usize,
    /// `columns * rows` cells’ backgrounds in row-major order
    pub background: Vec<Background>,
    /// Positions of all crates; the index of a crate in this list is its id.
    pub crates: Vec<Position>,
    /// Where the worker starts
    pub worker_position: Position,
}

/// A level as a mathematical value.
pub struct LevelView {
    pub rank: nat,
    pub columns: nat,
    pub rows: nat,
    pub background: Seq<Background>,
    pub crates: Seq<Position>,
    pub worker: Position,
}

impl View for Level {
    type V = LevelView;

    open spec fn view(&self) -> LevelView {
        LevelView {
            rank: self.rank as nat,
            columns: self.columns as nat,
            rows: self.rows as nat,
            background: self.background@,
            crates: self.crates@,
            worker: self.worker_position,
        }
    }
}

impl Clone for Level {
    fn clone(&self) -> (r: Self)
        ensures
            r@ == self@,
    {
        let background = self.background.clone();
        let crates = self.crates.clone();
        assert(background@ =~= self.background@);
        assert(crates@ =~= self.crates@);
        Level {
            rank: self.rank,
            columns: self.columns,
            rows: self.rows,
            background,
            crates,
            worker_position: self.worker_position,
        }
    }
}

/// The level described by the text `s`, ranked `num + 1`, or why `s` describes none.
pub open spec fn spec_parse_level(num: nat, s: Seq<char>) -> Result<LevelView, SokobanError> {
    let ls = level_lines(s);
    let c = max_len(ls);
    match spec_level_error((num + 1) as usize, ls) {
        Some(e) => Err(e),
        None => {
            let crates = all_items(ls, |ch: char| is_crate_char(ch));
            let worker = all_items(ls, |ch: char| is_worker_char(ch))[0];
            Ok(
                LevelView {
                    rank: num + 1,
                    columns: c,
                    rows: ls.len(),
                    background: corrected_background(
                        initial_background_seq(ls),
                        c as int,
                        level_seeds(initial_background_seq(ls), c as int, worker, crates),
                    ),
                    crates,
                    worker,
                },
            )
        },
    }
}

/// The text can be handed to `Level::parse`: no unknown character is read before the level is
/// known to be invalid, and the grid is small enough.
pub open spec fn level_text_ok(s: Seq<char>) -> bool {
    characters_ok(level_lines(s)) && size_ok(level_lines(s)) && balance_ok(level_lines(s))
}

/// The count of `balance_ok` stays within the range of an `i32` before every cell of the lines
/// before `y`.
pub open spec fn balance_ok_before(ls: Seq<Seq<char>>, y: int) -> bool {
    forall|yy: int, xx: int|
        0 <= yy < y && 0 <= xx <= ls[yy].len() ==> i32::MIN <= #[trigger] goal_balance(ls, yy, xx)
            <= i32::MAX
}

/// `p` is a cell of a grid with the given numbers of rows and columns.
pub open spec fn in_grid(p: Position, columns: int, rows: int) -> bool {
    0 <= p.x < columns && 0 <= p.y < rows
}

/// The row-major index of a position.
pub open spec fn cell_index(p: Position, columns: int) -> int {
    p.x + p.y * columns
}

/// The cells from which the inside of a level is explored: the worker's, the crates' and the
/// goals'.
pub open spec fn level_seeds(
    bg: Seq<Background>,
    columns: int,
    worker: Position,
    crates: Seq<Position>,
) -> Set<int> {
    Set::new(
        |i: int|
            i == cell_index(worker, columns) || (exists|k: int|
                0 <= k < crates.len() && i == cell_index(#[trigger] crates[k], columns)) || (0 <= i
                < bg.len() && bg[i] == Background::Goal),
    )
}

/// The background of the cells of a level before the outside is told apart from the inside.
pub open spec fn initial_background_seq(ls: Seq<Seq<char>>) -> Seq<Background> {
    Seq::new(
        (ls.len() * max_len(ls)) as nat,
        |i: int| initial_background_at(ls, max_len(ls) as int, i),
    )
}

impl Level {
    /// The level is a grid that holds its worker and its crates, each on a cell of its own that
    /// is floor or a goal, and as many goals as crates.
    pub open spec fn wf(&self) -> bool {
        &&& self.columns >= 1
        &&& self.rows >= 1
        &&& self.rows * self.columns < isize::MAX
        &&& self.background@.len() == self.rows * self.columns
        &&& in_grid(self.worker_position, self.columns as int, self.rows as int)
        &&& forall|k: int|
            0 <= k < self.crates@.len() ==> in_grid(
                #[trigger] self.crates@[k],
                self.columns as int,
                self.rows as int,
            )
        &&& forall|i: int, j: int|
            0 <= i < j < self.crates@.len() ==> #[trigger] self.crates@[i] != #[trigger] self.crates@[j]
        &&& forall|k: int|
            0 <= k < self.crates@.len() ==> #[trigger] self.crates@[k] != self.worker_position
        &&& floor_or_goal(self.background@[cell_index(self.worker_position, self.columns as int)])
        &&& forall|k: int|
            0 <= k < self.crates@.len() ==> floor_or_goal(
                #[trigger] self.background@[cell_index(self.crates@[k], self.columns as int)],
            )
        &&& goal_count(self.background@) == self.crates@.len()
    }

    /// Parse the ASCII representation of a level.
    pub fn parse(num: usize, string: &str) -> (r: Result<Level, SokobanError>)
        requires
            num < usize::MAX,
            characters_ok(level_lines(string@)),
            size_ok(level_lines(string@)),
            balance_ok(level_lines(string@)),
        ensures
            ({
                let ls = level_lines(string@);
                let c = max_len(ls) as int;
                match r {
                    Ok(lvl) => {
                        &&& spec_level_error((num + 1) as usize, ls) is None
                        &&& lvl.wf()
                        &&& lvl.rank == num + 1
                        &&& lvl.rows == ls.len()
                        &&& lvl.columns == c
                        &&& lvl.crates@ == all_items(ls, |ch: char| is_crate_char(ch))
                        &&& lvl.worker_position == all_items(ls, |ch: char| is_worker_char(ch))[0]
                        &&& lvl.background@ == corrected_background(
                            initial_background_seq(ls),
                            c,
                            level_seeds(
                                initial_background_seq(ls),
                                c,
                                lvl.worker_position,
                                lvl.crates@,
                            ),
                        )
                    },
                    Err(e) => spec_level_error((num + 1) as usize, ls) == Some(e),
                }
            }),
            match r {
                Ok(lvl) => spec_parse_level(num as nat, string@) == Ok::<LevelView, SokobanError>(
                    lvl@,
                ),
                Err(e) => spec_parse_level(num as nat, string@) == Err::<LevelView, SokobanError>(e),
            },
    {
        let builder = LevelBuilder::new(num + 1, string)?;
        let ghost ls = level_lines(string@);
        proof {
            crate::level::builder::lemma_builder_wf(builder, ls);
            assert(builder.background@ =~= initial_background_seq(ls));
        }
        Ok(builder.build())
    }
}

/// A worker or a crate stands on floor or on a goal.
pub open spec fn floor_or_goal(b: Background) -> bool {
    b == Background::Floor || b == Background::Goal
}

} // verus!

verus! {

/// Can the text be handed to `Level::parse`? See `level_text_ok`.
pub fn check_level_text(s: &str) -> (r: bool)
    ensures
        r == level_text_ok(s@),
{
    let cs = crate::text::chars_of(s);
    let ls = crate::level::lines::level_lines_of(&cs);
    let ghost lv = level_lines(s@);
    proof {
        assert(cs@ == s@);
    }
    let rows = ls.len();
    let mut m: usize = 0;
    for i in 0..rows
        invariant
            rows == ls@.len(),
            rows == lv.len(),
            lv == level_lines(s@),
            forall|k: int| 0 <= k < ls@.len() ==> #[trigger] ls@[k]@ == lv[k],
            m == max_len(lv.take(i as int)),
    {
        assert(lv.take(i + 1).drop_last() =~= lv.take(i as int));
        if ls[i].len() > m {
            m = ls[i].len();
        }
    }
    assert(lv.take(rows as int) =~= lv);
    let size_fits = match rows.checked_mul(m) {
        None => false,
        Some(p) => p < isize::MAX as usize,
    };
    let ghost w = |c: char| crate::level::builder::is_worker_char(c);
    let ghost pg = |c: char| crate::level::builder::is_free_goal_char(c);
    let ghost po = |c: char| crate::level::builder::is_crate_off_goal_char(c);
    let mut workers: usize = 0;
    let mut bal: i64 = 0;
    let mut bal_ok = true;
    for y in 0..rows
        invariant
            rows == ls@.len(),
            rows == lv.len(),
            lv == level_lines(s@),
            w == (|c: char| crate::level::builder::is_worker_char(c)),
            pg == (|c: char| crate::level::builder::is_free_goal_char(c)),
            po == (|c: char| crate::level::builder::is_crate_off_goal_char(c)),
            bal_ok <==> balance_ok_before(lv, y as int),
            bal_ok ==> bal == goal_balance(lv, y as int, 0),
            forall|k: int| 0 <= k < ls@.len() ==> #[trigger] ls@[k]@ == lv[k],
            workers <= 2,
            workers == (if lines_items(lv, y as int, w).len() >= 2 {
                2
            } else {
                lines_items(lv, y as int, w).len()
            }),
            forall|yy: int, xx: int|
                0 <= yy < y && 0 <= xx < lv[yy].len() && spec_char_to_cell(#[trigger] lv[yy][xx])
                    is None ==> items_before(lv, yy, xx, w).len() >= 2,
    {
        let line = &ls[y];
        let n = line.len();
        proof {
            if y > 0 {
                lemma_items_row_end(lv, y - 1, pg);
                lemma_items_row_end(lv, y - 1, po);
                assert(goal_balance(lv, y as int, 0) == goal_balance(lv, y - 1, lv[y - 1].len() as int));
            }
        }
        for x in 0..n
            invariant
                rows == ls@.len(),
                rows == lv.len(),
                y < rows,
                lv == level_lines(s@),
                w == (|c: char| crate::level::builder::is_worker_char(c)),
                pg == (|c: char| crate::level::builder::is_free_goal_char(c)),
                po == (|c: char| crate::level::builder::is_crate_off_goal_char(c)),
                bal_ok <==> balance_ok_before(lv, y as int) && forall|xx: int|
                    0 <= xx <= x ==> i32::MIN <= #[trigger] goal_balance(lv, y as int, xx)
                        <= i32::MAX,
                bal_ok ==> bal == goal_balance(lv, y as int, x as int),
                forall|k: int| 0 <= k < ls@.len() ==> #[trigger] ls@[k]@ == lv[k],
                *line == ls@[y as int],
                n == lv[y as int].len(),
                workers <= 2,
                workers == (if items_before(lv, y as int, x as int, w).len() >= 2 {
                    2
                } else {
                    items_before(lv, y as int, x as int, w).len()
                }),
                forall|yy: int, xx: int|
                    (0 <= yy < y && 0 <= xx < lv[yy].len() || yy == y && 0 <= xx < x)
                        && spec_char_to_cell(#[trigger] lv[yy][xx]) is None ==> items_before(
                        lv,
                        yy,
                        xx,
                        w,
                    ).len() >= 2,
        {
            let c = line[x];
            assert(c == lv[y as int][x as int]);
            if char_to_cell(c).is_none() && workers < 2 {
                return false;
            }
            if (c == '@' || c == '+') && workers < 2 {
                workers = workers + 1;
            }
            if bal_ok {
                if c == '.' || c == '+' {
                    bal = bal + 1;
                } else if c == '$' {
                    bal = bal - 1;
                }
                proof {
                    assert(bal == goal_balance(lv, y as int, x + 1));
                }
                if bal < -0x8000_0000 || bal > 0x7fff_ffff {
                    bal_ok = false;
                }
            }
        }
        proof {
            lemma_items_row_end(lv, y as int, w);
            lemma_items_row_end(lv, y as int, pg);
            lemma_items_row_end(lv, y as int, po);
            assert(goal_balance(lv, y + 1, 0) == goal_balance(lv, y as int, n as int));
        }
    }
    size_fits && bal_ok
}

} // verus!

verus! {

impl Level {
    /// Is the position a cell of the level's grid?
    fn holds(&self, p: Position) -> (r: bool)
        requires
            self.rows * self.columns < isize::MAX,
        ensures
            r == in_grid(p, self.columns as int, self.rows as int),
    {
        p.x >= 0 && p.y >= 0 && (p.x as usize) < self.columns && (p.y as usize) < self.rows
    }

    /// Is the cell at the position (which must be in the grid) floor or a goal?
    fn floor_or_goal_at(&self, p: Position) -> (r: bool)
        requires
            self.rows * self.columns < isize::MAX,
            self.background@.len() == self.rows * self.columns,
            in_grid(p, self.columns as int, self.rows as int),
        ensures
            r == floor_or_goal(self.background@[cell_index(p, self.columns as int)]),
    {
        proof {
            lemma_index_bound(p.y as int, p.x as int, self.columns as int, self.rows as int);
        }
        match self.background[p.x as usize + p.y as usize * self.columns] {
            Background::Floor | Background::Goal => true,
            _ => false,
        }
    }

    /// Is this a proper level? See `wf`.
    pub fn check(&self) -> (r: bool)
        ensures
            r == self.wf(),
    {
        if self.columns < 1 || self.rows < 1 {
            return false;
        }
        match self.rows.checked_mul(self.columns) {
            None => {
                return false;
            },
            Some(n) => {
                if n >= isize::MAX as usize || self.background.len() != n {
                    return false;
                }
            },
        }
        if !self.holds(self.worker_position) || !self.floor_or_goal_at(self.worker_position) {
            return false;
        }
        let m = self.crates.len();
        for k in 0..m
            invariant
                m == self.crates@.len(),
                self.columns >= 1,
                self.rows >= 1,
                self.rows * self.columns < isize::MAX,
                self.background@.len() == self.rows * self.columns,
                in_grid(self.worker_position, self.columns as int, self.rows as int),
                floor_or_goal(
                    self.background@[cell_index(self.worker_position, self.columns as int)],
                ),
                forall|j: int|
                    0 <= j < k ==> in_grid(
                        #[trigger] self.crates@[j],
                        self.columns as int,
                        self.rows as int,
                    ) && self.crates@[j] != self.worker_position && floor_or_goal(
                        self.background@[cell_index(self.crates@[j], self.columns as int)],
                    ),
                forall|i: int, j: int|
                    0 <= i < j < k ==> #[trigger] self.crates@[i] != #[trigger] self.crates@[j],
        {
            let c = self.crates[k];
            if !self.holds(c) || c == self.worker_position || !self.floor_or_goal_at(c) {
                return false;
            }
            for j in 0..k
                invariant
                    m == self.crates@.len(),
                    k < m,
                    c == self.crates@[k as int],
                    forall|i: int| 0 <= i < j ==> self.crates@[i] != c,
            {
                if self.crates[j] == c {
                    return false;
                }
            }
        }
        let nb = self.background.len();
        let mut goals: usize = 0;
        for i in 0..nb
            invariant
                nb == self.background@.len(),
                goals == goal_count(self.background@.take(i as int)),
                goals <= i,
        {
            proof {
                assert(self.background@.take(i + 1).drop_last() =~= self.background@.take(i as int));
            }
            if self.background[i] == Background::Goal {
                goals = goals + 1;
            }
        }
        proof {
            assert(self.background@.take(nb as int) =~= self.background@);
        }
        goals == self.crates.len()
    }
}

} // verus!
