//! Levels drawn as raster pictures, one pixel per cell.
//!
//! The first row of a picture is its key: its first eight pixels show, in this order, the
//! colours of an empty cell, a wall, floor, the worker, a crate on a goal, a crate, a goal and
//! the worker on a goal. The level's cells follow, one row of the level per row of pixels.
use vstd::prelude::*;

use crate::cell::Background;
use crate::grid::{lemma_index_bound, lemma_index_in_grid};
use crate::level::{Level, LevelView, cell_index, in_grid};

verus! {

/// What one pixel of a level picture shows.
#[derive(Clone, Copy, PartialEq, Eq, Structural, Debug)]
pub enum Tile {
    Empty,
    Wall,
    Floor,
    Worker,
    CrateOnGoal,
    Crate,
    Goal,
    WorkerOnGoal,
}

/// Number of pixels in the key of a picture.
pub const KEY_LENGTH: usize = 8;

/// The tile whose colour column `i` of the key shows.
pub open spec fn key_tile(i: int) -> Tile {
    if i == 0 {
        Tile::Empty
    } else if i == 1 {
        Tile::Wall
    } else if i == 2 {
        Tile::Floor
    } else if i == 3 {
        Tile::Worker
    } else if i == 4 {
        Tile::CrateOnGoal
    } else if i == 5 {
        Tile::Crate
    } else if i == 6 {
        Tile::Goal
    } else {
        Tile::WorkerOnGoal
    }
}

/// The colour in which pictures written by this library show a tile.
pub open spec fn spec_tile_color(t: Tile) -> (u8, u8, u8) {
    match t {
        Tile::Empty => (0, 0, 0),
        Tile::Wall => (255, 0, 0),
        Tile::Floor => (160, 160, 160),
        Tile::Worker => (0, 255, 33),
        Tile::CrateOnGoal => (0, 38, 255),
        Tile::Crate => (0, 255, 255),
        Tile::Goal => (64, 64, 64),
        Tile::WorkerOnGoal => (255, 216, 0),
    }
}

/// The colour in which pictures written by this library show a tile.
pub fn tile_color(t: Tile) -> (c: (u8, u8, u8))
    ensures
        c == spec_tile_color(t),
{
    match t {
        Tile::Empty => (0, 0, 0),
        Tile::Wall => (255, 0, 0),
        Tile::Floor => (160, 160, 160),
        Tile::Worker => (0, 255, 33),
        Tile::CrateOnGoal => (0, 38, 255),
        Tile::Crate => (0, 255, 255),
        Tile::Goal => (64, 64, 64),
        Tile::WorkerOnGoal => (255, 216, 0),
    }
}

/// A crate starts on cell `i` of the level.
pub open spec fn crate_on(l: LevelView, i: int) -> bool {
    exists|k: int| 0 <= k < l.crates.len() && cell_index(#[trigger] l.crates[k], l.columns as int) == i
}

/// The tile that shows cell `i` (in row-major order) of a level as it starts.
pub open spec fn level_tile(l: LevelView, i: int) -> Tile {
    let worker = cell_index(l.worker, l.columns as int) == i;
    match l.background[i] {
        Background::Empty => Tile::Empty,
        Background::Wall => Tile::Wall,
        Background::Floor => if crate_on(l, i) {
            Tile::Crate
        } else if worker {
            Tile::Worker
        } else {
            Tile::Floor
        },
        Background::Goal => if crate_on(l, i) {
            Tile::CrateOnGoal
        } else if worker {
            Tile::WorkerOnGoal
        } else {
            Tile::Goal
        },
    }
}

/// The tile of pixel `j` (in row-major order) of the picture of a level: the key row, padded
/// with empty tiles, then the level's cells.
pub open spec fn picture_tile(l: LevelView, j: int) -> Tile {
    if j < l.columns {
        if j < KEY_LENGTH {
            key_tile(j)
        } else {
            Tile::Empty
        }
    } else {
        level_tile(l, j - l.columns)
    }
}

/// The picture of a level: `columns` pixels wide and one row taller than the level, in
/// row-major order.
pub open spec fn level_picture(l: LevelView) -> Seq<(u8, u8, u8)> {
    Seq::new(l.columns * (l.rows + 1), |j: int| spec_tile_color(picture_tile(l, j)))
}

/// For each cell of the level, whether a crate starts on it.
fn crate_marks(level: &Level) -> (marks: Vec<bool>)
    requires
        level.wf(),
    ensures
        marks@.len() == level.rows * level.columns,
        forall|i: int| 0 <= i < marks@.len() ==> (#[trigger] marks@[i] <==> crate_on(level@, i)),
{
    let n = level.background.len();
    let c = level.columns;
    let mut marks: Vec<bool> = Vec::new();
    for i in 0..n
        invariant
            marks@.len() == i,
            forall|j: int| 0 <= j < i ==> !marks@[j],
    {
        marks.push(false);
    }
    let m = level.crates.len();
    for k in 0..m
        invariant
            level.wf(),
            m == level.crates@.len(),
            n == level.rows * level.columns,
            c == level.columns,
            marks@.len() == n,
            forall|i: int|
                0 <= i < n ==> (#[trigger] marks@[i] <==> exists|j: int|
                    0 <= j < k && cell_index(#[trigger] level.crates@[j], c as int) == i),
    {
        let p = level.crates[k];
        assert(in_grid(level.crates@[k as int], c as int, level.rows as int));
        proof {
            lemma_index_bound(p.y as int, p.x as int, c as int, level.rows as int);
        }
        let idx = p.x as usize + p.y as usize * c;
        marks.set(idx, true);
        assert forall|i: int| 0 <= i < n implies (#[trigger] marks@[i] <==> exists|j: int|
            0 <= j < k + 1 && cell_index(#[trigger] level.crates@[j], c as int) == i) by {
            if i == idx {
                assert(cell_index(level.crates@[k as int], c as int) == i);
            }
        }
    }
    assert forall|i: int| 0 <= i < marks@.len() implies (#[trigger] marks@[i] <==> crate_on(
        level@,
        i,
    )) by {
        if marks@[i] {
            let j = choose|j: int| 0 <= j < m && cell_index(#[trigger] level.crates@[j], c as int) == i;
            assert(0 <= j < level@.crates.len() && cell_index(level@.crates[j], level@.columns as int) == i);
        }
        if crate_on(level@, i) {
            let j = choose|j: int|
                0 <= j < level@.crates.len() && cell_index(#[trigger] level@.crates[j], level@.columns as int) == i;
            assert(0 <= j < m && cell_index(level.crates@[j], c as int) == i);
        }
    }
    marks
}

/// Draw a level as a picture: the key row first, then one pixel per cell. The picture is
/// `level.columns` pixels wide, so the level must be at least as wide as the key.
pub fn level_to_image(level: &Level) -> (img: Vec<(u8, u8, u8)>)
    requires
        level.wf(),
        level.columns >= KEY_LENGTH,
    ensures
        img@ == level_picture(level@),
{
    let c = level.columns;
    let n = level.background.len();
    let marks = crate_marks(level);
    let w = level.worker_position;
    proof {
        lemma_index_bound(w.y as int, w.x as int, c as int, level.rows as int);
    }
    let worker = w.x as usize + w.y as usize * c;
    let ghost total = c * (level.rows + 1);
    assert(total == c + n) by (nonlinear_arith)
        requires
            total == c * (level.rows + 1),
            n == level.rows * c,
    ;
    let mut img: Vec<(u8, u8, u8)> = Vec::new();
    for j in 0..c
        invariant
            c == level.columns,
            c >= KEY_LENGTH,
            img@.len() == j,
            forall|k: int| 0 <= k < j ==> img@[k] == spec_tile_color(picture_tile(level@, k)),
    {
        let t = if j == 0 {
            Tile::Empty
        } else if j == 1 {
            Tile::Wall
        } else if j == 2 {
            Tile::Floor
        } else if j == 3 {
            Tile::Worker
        } else if j == 4 {
            Tile::CrateOnGoal
        } else if j == 5 {
            Tile::Crate
        } else if j == 6 {
            Tile::Goal
        } else if j == 7 {
            Tile::WorkerOnGoal
        } else {
            Tile::Empty
        };
        img.push(tile_color(t));
    }
    for i in 0..n
        invariant
            level.wf(),
            c == level.columns,
            n == level.background@.len(),
            marks@.len() == n,
            forall|k: int| 0 <= k < marks@.len() ==> (#[trigger] marks@[k] <==> crate_on(level@, k)),
            worker == cell_index(level.worker_position, c as int),
            img@.len() == c + i,
            forall|k: int|
                0 <= k < c + i ==> img@[k] == spec_tile_color(picture_tile(level@, k)),
    {
        let has_crate = marks[i];
        let is_worker = i == worker;
        let t = match level.background[i] {
            Background::Empty => Tile::Empty,
            Background::Wall => Tile::Wall,
            Background::Floor => if has_crate {
                Tile::Crate
            } else if is_worker {
                Tile::Worker
            } else {
                Tile::Floor
            },
            Background::Goal => if has_crate {
                Tile::CrateOnGoal
            } else if is_worker {
                Tile::WorkerOnGoal
            } else {
                Tile::Goal
            },
        };
        assert(t == level_tile(level@, i as int));
        img.push(tile_color(t));
        assert(picture_tile(level@, (c + i) as int) == level_tile(level@, i as int));
    }
    assert(img@ =~= level_picture(level@));
    img
}

/// An RGBA pixel.
pub type Pixel = (u8, u8, u8, u8);

/// The character that a pixel stands for, given the key row's first pixels, or `None` for a
/// colour that the key does not hold. Empty cells and floor both become a space.
pub open spec fn pixel_char(key: Seq<Pixel>, p: Pixel) -> Option<char> {
    if p == key[0] || p == key[2] {
        Some(' ')
    } else if p == key[1] {
        Some('#')
    } else if p == key[6] {
        Some('.')
    } else if p == key[4] {
        Some('*')
    } else if p == key[5] {
        Some('$')
    } else if p == key[3] {
        Some('@')
    } else if p == key[7] {
        Some('+')
    } else {
        None
    }
}

/// `s` without its trailing spaces.
pub open spec fn trim_end_spaces(s: Seq<char>) -> Seq<char>
    decreases s.len(),
{
    if s.len() > 0 && s.last() == ' ' {
        trim_end_spaces(s.drop_last())
    } else {
        s
    }
}

/// The characters of the `width` pixels from index `start` on.
pub open spec fn row_chars(key: Seq<Pixel>, pixels: Seq<Pixel>, start: int, width: int) -> Seq<char> {
    Seq::new(width as nat, |x: int| pixel_char(key, pixels[start + x]).unwrap())
}

/// The text of rows `1..=n` of a picture `width` pixels wide: each row's characters without
/// trailing spaces, followed by a line break.
pub open spec fn picture_text(key: Seq<Pixel>, pixels: Seq<Pixel>, width: int, n: nat) -> Seq<char>
    decreases n,
{
    if n == 0 {
        Seq::empty()
    } else {
        picture_text(key, pixels, width, (n - 1) as nat) + trim_end_spaces(
            row_chars(key, pixels, n * width, width),
        ) + seq!['\n']
    }
}

/// The key of a picture: the first pixels of its first row.
pub open spec fn picture_key(pixels: Seq<Pixel>) -> Seq<Pixel> {
    pixels.subrange(0, KEY_LENGTH as int)
}

/// Pixel `j` shows a colour of the key.
pub open spec fn pixel_known(pixels: Seq<Pixel>, j: int) -> bool {
    pixel_char(picture_key(pixels), pixels[j]) is Some
}

/// A pixel of a picture whose colour the key does not hold.
#[derive(Clone, Copy, PartialEq, Eq, Structural, Debug)]
pub struct InvalidPixel {
    pub x: usize,
    pub y: usize,
}

fn same_pixel(a: Pixel, b: Pixel) -> (r: bool)
    ensures
        r == (a == b),
{
    a.0 == b.0 && a.1 == b.1 && a.2 == b.2 && a.3 == b.3
}

/// The number of characters of `v[..n]` left when trailing spaces are cut off.
fn trimmed_length(v: &Vec<char>, n: usize) -> (e: usize)
    requires
        n <= v@.len(),
    ensures
        e <= n,
        v@.take(e as int) == trim_end_spaces(v@.take(n as int)),
{
    let mut e = n;
    while e > 0 && v[e - 1] == ' '
        invariant
            e <= n <= v@.len(),
            trim_end_spaces(v@.take(n as int)) == trim_end_spaces(v@.take(e as int)),
        decreases e,
    {
        assert(v@.take(e as int).drop_last() =~= v@.take(e - 1));
        e = e - 1;
    }
    e
}

/// Read a level from a picture `width` pixels wide, given row by row: the first row is the key,
/// every further row becomes a line of the level, without trailing spaces. A pixel whose colour
/// the key does not hold is an error; the first one, row by row, is reported.
pub fn image_to_level(width: usize, pixels: &Vec<Pixel>) -> (r: Result<String, InvalidPixel>)
    requires
        width >= KEY_LENGTH,
        pixels@.len() >= width,
        pixels.len() % width == 0,
    ensures
        match r {
            Ok(s) => (forall|j: int| width <= j < pixels@.len() ==> pixel_known(pixels@, j))
                && s@ == picture_text(
                picture_key(pixels@),
                pixels@,
                width as int,
                (pixels.len() / width - 1) as nat,
            ),
            Err(e) => exists|j: int|
                width <= j < pixels@.len() && !pixel_known(pixels@, j) && (forall|i: int|
                    width <= i < j ==> pixel_known(pixels@, i)) && e.x == j % (width as int) && e.y
                    == j / (width as int),
        },
{
    let n = pixels.len();
    let h = n / width;
    proof {
        vstd::arithmetic::div_mod::lemma_fundamental_div_mod(n as int, width as int);
        assert(n == h * width) by (nonlinear_arith)
            requires
                n == width * (n / width) + n % width,
                n % width == 0,
                h == n / width,
        ;
        assert(h >= 1) by (nonlinear_arith)
            requires
                n == h * width,
                n >= width,
                width > 0,
        ;
    }
    let ghost key = picture_key(pixels@);
    let k0 = pixels[0];
    let k1 = pixels[1];
    let k2 = pixels[2];
    let k3 = pixels[3];
    let k4 = pixels[4];
    let k5 = pixels[5];
    let k6 = pixels[6];
    let k7 = pixels[7];
    assert(key == seq![k0, k1, k2, k3, k4, k5, k6, k7]);
    let mut result = String::new();
    let mut y: usize = 1;
    let mut row: usize = width;
    while y < h
        invariant
            1 <= y <= h,
            width >= KEY_LENGTH,
            n == pixels@.len(),
            n == h * width,
            row == y * width,
            key == picture_key(pixels@),
            key == seq![k0, k1, k2, k3, k4, k5, k6, k7],
            forall|j: int| width <= j < row ==> pixel_known(pixels@, j),
            result@ == picture_text(key, pixels@, width as int, (y - 1) as nat),
        decreases h - y,
    {
        proof {
            lemma_index_bound(y as int, 0, width as int, h as int);
            assert((y + 1) * width == y * width + width) by (nonlinear_arith);
            assert(row >= width) by (nonlinear_arith)
                requires
                    y >= 1,
                    row == y * width,
            ;
        }
        let mut tmp: Vec<char> = Vec::new();
        let mut x: usize = 0;
        while x < width
            invariant
                1 <= y < h,
                width >= KEY_LENGTH,
                n == pixels@.len(),
                row == y * width,
                row + width <= n,
                row >= width,
                x <= width,
                key == picture_key(pixels@),
                key == seq![k0, k1, k2, k3, k4, k5, k6, k7],
                forall|j: int| width <= j < row + x ==> pixel_known(pixels@, j),
                tmp@ == row_chars(key, pixels@, row as int, x as int),
            decreases width - x,
        {
            let p = pixels[row + x];
            let c = if same_pixel(p, k0) || same_pixel(p, k2) {
                ' '
            } else if same_pixel(p, k1) {
                '#'
            } else if same_pixel(p, k6) {
                '.'
            } else if same_pixel(p, k4) {
                '*'
            } else if same_pixel(p, k5) {
                '$'
            } else if same_pixel(p, k3) {
                '@'
            } else if same_pixel(p, k7) {
                '+'
            } else {
                proof {
                    crate::grid::lemma_index_div_mod(y as int, x as int, width as int);
                    let j = row + x;
                    assert(!pixel_known(pixels@, j as int));
                    assert(width <= j < n);
                    assert(x == (j as int) % (width as int) && y == (j as int) / (width as int));
                    assert(forall|i: int| width <= i < j ==> pixel_known(pixels@, i));
                }
                return Err(InvalidPixel { x, y });
            };
            assert(pixel_char(key, pixels@[row + x]) == Some(c));
            tmp.push(c);
            x = x + 1;
            assert(tmp@ =~= row_chars(key, pixels@, row as int, x as int));
        }
        let e = trimmed_length(&tmp, width);
        assert(tmp@.take(width as int) =~= tmp@);
        let ghost before = result@;
        for k in 0..e
            invariant
                e <= tmp@.len(),
                result@ == before + tmp@.take(k as int),
        {
            result.push(tmp[k]);
            assert(tmp@.take(k + 1) =~= tmp@.take(k as int).push(tmp@[k as int]));
        }
        result.push('\n');
        proof {
            assert(result@ =~= before + trim_end_spaces(
                row_chars(key, pixels@, (y * width) as int, width as int),
            ) + seq!['\n']);
            assert(((y + 1 - 1) as nat) == y as nat);
        }
        y = y + 1;
        row = row + width;
    }
    Ok(result)
}

/// The character of the level text that a tile stands for; empty cells and floor are both a
/// space.
pub open spec fn tile_char(t: Tile) -> char {
    match t {
        Tile::Empty => ' ',
        Tile::Wall => '#',
        Tile::Floor => ' ',
        Tile::Worker => '@',
        Tile::CrateOnGoal => '*',
        Tile::Crate => '$',
        Tile::Goal => '.',
        Tile::WorkerOnGoal => '+',
    }
}

/// A colour as a fully opaque pixel, as an image written without transparency is read back.
pub open spec fn opaque(c: (u8, u8, u8)) -> Pixel {
    (c.0, c.1, c.2, 255u8)
}

/// The text of the first `n` rows of a level as it starts: each row's characters without
/// trailing spaces, followed by a line break.
pub open spec fn level_rows_text(l: LevelView, n: nat) -> Seq<char>
    decreases n,
{
    if n == 0 {
        Seq::empty()
    } else {
        level_rows_text(l, (n - 1) as nat) + trim_end_spaces(
            Seq::new(l.columns, |x: int| tile_char(level_tile(l, (n - 1) * l.columns + x))),
        ) + seq!['\n']
    }
}

/// The key of a picture drawn by this library reads every tile's colour back as its character.
proof fn lemma_key_reads_tiles(l: LevelView, t: Tile)
    requires
        l.columns >= KEY_LENGTH,
    ensures
        ({
            let px = level_picture(l).map_values(|c: (u8, u8, u8)| opaque(c));
            pixel_char(picture_key(px), opaque(spec_tile_color(t))) == Some(tile_char(t))
        }),
{
    let px = level_picture(l).map_values(|c: (u8, u8, u8)| opaque(c));
    let key = picture_key(px);
    assert(l.columns * (l.rows + 1) >= l.columns) by (nonlinear_arith)
        requires
            l.columns >= 0,
            l.rows >= 0,
    ;
    assert forall|i: int| 0 <= i < KEY_LENGTH implies #[trigger] key[i] == opaque(
        spec_tile_color(key_tile(i)),
    ) by {
        assert(key[i] == px[i]);
        assert(picture_tile(l, i) == key_tile(i));
    }
    assert(key[0] == opaque(spec_tile_color(key_tile(0))));
    assert(key[1] == opaque(spec_tile_color(key_tile(1))));
    assert(key[2] == opaque(spec_tile_color(key_tile(2))));
    assert(key[3] == opaque(spec_tile_color(key_tile(3))));
    assert(key[4] == opaque(spec_tile_color(key_tile(4))));
    assert(key[5] == opaque(spec_tile_color(key_tile(5))));
    assert(key[6] == opaque(spec_tile_color(key_tile(6))));
    assert(key[7] == opaque(spec_tile_color(key_tile(7))));
}

/// Row `n` (counting the key as row 0) of the picture of a level holds the characters of row
/// `n - 1` of the level.
proof fn lemma_picture_row(l: LevelView, n: int)
    requires
        l.columns >= KEY_LENGTH,
        l.background.len() == l.rows * l.columns,
        1 <= n <= l.rows,
    ensures
        ({
            let px = level_picture(l).map_values(|c: (u8, u8, u8)| opaque(c));
            &&& forall|x: int| 0 <= x < l.columns ==> pixel_known(px, #[trigger] (n * l.columns + x))
            &&& row_chars(picture_key(px), px, n * l.columns, l.columns as int) == Seq::new(
                l.columns,
                |x: int| tile_char(level_tile(l, (n - 1) * l.columns + x)),
            )
        }),
{
    let w = l.columns as int;
    let px = level_picture(l).map_values(|c: (u8, u8, u8)| opaque(c));
    assert(n * w + w <= w * (l.rows + 1)) by (nonlinear_arith)
        requires
            n <= l.rows,
            w >= 0,
    ;
    assert(n * w - w == (n - 1) * w) by (nonlinear_arith);
    assert(n * w >= w) by (nonlinear_arith)
        requires
            n >= 1,
            w >= 0,
    ;
    assert forall|x: int| 0 <= x < w implies pixel_known(px, #[trigger] (n * w + x))
        && pixel_char(picture_key(px), px[n * w + x]) == Some(
        tile_char(level_tile(l, (n - 1) * w + x)),
    ) by {
        let t = level_tile(l, (n - 1) * w + x);
        assert(picture_tile(l, n * w + x) == t);
        assert(px[n * w + x] == opaque(spec_tile_color(t)));
        lemma_key_reads_tiles(l, t);
    }
    assert(row_chars(picture_key(px), px, n * w, w) =~= Seq::new(
        l.columns,
        |x: int| tile_char(level_tile(l, (n - 1) * w + x)),
    ));
}

proof fn lemma_picture_rows(l: LevelView, n: nat)
    requires
        l.columns >= KEY_LENGTH,
        l.background.len() == l.rows * l.columns,
        n <= l.rows,
    ensures
        ({
            let px = level_picture(l).map_values(|c: (u8, u8, u8)| opaque(c));
            &&& forall|j: int| l.columns <= j < (n + 1) * l.columns ==> pixel_known(px, j)
            &&& picture_text(picture_key(px), px, l.columns as int, n) == level_rows_text(l, n)
        }),
    decreases n,
{
    let w = l.columns as int;
    let px = level_picture(l).map_values(|c: (u8, u8, u8)| opaque(c));
    if n > 0 {
        lemma_picture_rows(l, (n - 1) as nat);
        lemma_picture_row(l, n as int);
        assert forall|j: int| l.columns <= j < (n + 1) * l.columns implies pixel_known(px, j) by {
            assert((n + 1) * l.columns == n * w + w) by (nonlinear_arith)
                requires
                    w == l.columns,
            ;
            assert(((n - 1) + 1) * l.columns == n * w) by (nonlinear_arith)
                requires
                    w == l.columns,
                    n >= 1,
            ;
            if j >= n * w {
                assert(j == n * w + (j - n * w));
                assert(pixel_known(px, n * w + (j - n * w)));
            } else {
                assert(((n - 1) as nat) + 1 == n);
                assert(((((n - 1) as nat) + 1) as nat) * l.columns == n * l.columns);
            }
        }
    } else {
        assert((n + 1) * l.columns == l.columns) by (nonlinear_arith)
            requires
                n == 0,
        ;
    }
}

/// Drawing a level as a picture and reading the picture back gives the level's text as it
/// starts, each row without trailing spaces, with the outside of the level as spaces.
pub proof fn lemma_picture_round_trip(l: LevelView)
    requires
        l.columns >= KEY_LENGTH,
        l.background.len() == l.rows * l.columns,
    ensures
        ({
            let px = level_picture(l).map_values(|c: (u8, u8, u8)| opaque(c));
            &&& forall|j: int| l.columns <= j < px.len() ==> pixel_known(px, j)
            &&& picture_text(picture_key(px), px, l.columns as int, l.rows) == level_rows_text(
                l,
                l.rows,
            )
        }),
{
    lemma_picture_rows(l, l.rows);
    assert(l.columns * (l.rows + 1) == (l.rows + 1) * l.columns) by (nonlinear_arith);
}

} // verus!
