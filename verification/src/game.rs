//! The map loader and its cell payload: wall/empty markers, the loader that
//! populates any conforming grid from ASCII map text, and the textual
//! rendering of a populated grid.

use crate::grid::{Grid, GridElement};
use vstd::prelude::*;
use vstd::string::StringSliceAdditionalSpecFns;

verus! {

/// What a cell of the game board holds: a wall, or nothing.
#[derive(Clone, PartialEq, Eq, Structural)]
pub enum GridEntity {
    Wall,
    Empty,
}

/// One space of the game board, wrapping its entity.
#[derive(Clone, PartialEq, Eq, Structural)]
pub struct GridSpace {
    pub entity: GridEntity,
}

impl GridSpace {
    /// A space holding a wall.
    pub open spec fn spec_wall() -> GridSpace {
        GridSpace { entity: GridEntity::Wall }
    }

    /// A space holding nothing.
    pub open spec fn spec_empty() -> GridSpace {
        GridSpace { entity: GridEntity::Empty }
    }

    /// Construct a wall space.
    pub fn wall() -> (r: GridSpace)
        ensures
            r == GridSpace::spec_wall(),
    {
        GridSpace { entity: GridEntity::Wall }
    }
}

impl Default for GridSpace {
    /// A space starts empty.
    fn default() -> (r: Self)
        ensures
            r == GridSpace::spec_empty(),
    {
        GridSpace { entity: GridEntity::Empty }
    }
}

impl GridElement for GridSpace {
    /// A freshly constructed board is all empty spaces.
    open spec fn spec_default() -> GridSpace {
        GridSpace::spec_empty()
    }

    fn default_value() -> (r: GridSpace) {
        GridSpace { entity: GridEntity::Empty }
    }
}

/// Whether b is ASCII whitespace: what trimming removes from a row's ends.
pub open spec fn is_space(b: u8) -> bool {
    b == 32 || (9 <= b && b <= 13)
}

/// Whether b is ASCII whitespace.
fn is_space_byte(b: u8) -> (r: bool)
    ensures
        r == is_space(b),
{
    b == 32 || (9 <= b && b <= 13)
}

/// The index of the first newline byte of s, or s.len() when s has none.
pub open spec fn first_newline(s: Seq<u8>) -> nat
    decreases s.len(),
{
    if s.len() == 0 {
        0
    } else if s[0] == 10 {
        0
    } else {
        1 + first_newline(s.drop_first())
    }
}

/// s split at every newline: the rows of the map text, in order. There is one
/// more row than there are newlines, so every text — even the empty one — has
/// at least one row.
pub open spec fn split_lines(s: Seq<u8>) -> Seq<Seq<u8>>
    decreases s.len(),
{
    let i = first_newline(s) as int;
    if i < s.len() {
        seq![s.subrange(0, i)] + split_lines(s.subrange(i + 1, s.len() as int))
    } else {
        seq![s]
    }
}

/// s with surrounding ASCII whitespace removed.
pub open spec fn trim(s: Seq<u8>) -> Seq<u8>
    decreases s.len(),
{
    if s.len() == 0 {
        s
    } else if is_space(s[0]) {
        trim(s.drop_first())
    } else if is_space(s[s.len() - 1]) {
        trim(s.drop_last())
    } else {
        s
    }
}

/// The rows of the map text, each trimmed: what the loader reads cells from.
pub open spec fn map_rows(s: Seq<u8>) -> Seq<Seq<u8>> {
    split_lines(s).map_values(|row: Seq<u8>| trim(row))
}

/// The width the first trimmed row establishes for the whole map.
pub open spec fn map_width(s: Seq<u8>) -> int {
    map_rows(s)[0].len() as int
}

/// Map text is well formed when every trimmed row has the width the first
/// row establishes.
pub open spec fn map_wf(s: Seq<u8>) -> bool {
    forall|k: int|
        0 <= k < map_rows(s).len() ==> (#[trigger] map_rows(s)[k]).len() == map_width(s)
}

/// The entity a map character populates its cell with: `x` marks a wall; `.`
/// and every other character leave the cell empty.
pub open spec fn char_entity(b: u8) -> GridEntity {
    if b == 120 {
        GridEntity::Wall
    } else {
        GridEntity::Empty
    }
}

/// first_newline is pinned down by its two properties: no newline strictly
/// before it, and a newline at it unless it equals the length.
proof fn lemma_first_newline_at(s: Seq<u8>, k: int)
    requires
        0 <= k <= s.len(),
        forall|i: int| 0 <= i < k ==> s[i] != 10,
        k == s.len() || s[k] == 10,
    ensures
        first_newline(s) == k,
    decreases s.len(),
{
    if s.len() == 0 {
    } else if s[0] == 10 {
    } else {
        assert(k >= 1);
        lemma_first_newline_at(s.drop_first(), k - 1);
    }
}

/// Find, from `start`, the bounds of the current row with its surrounding
/// whitespace removed.
fn trim_range(bytes: &[u8], start: usize, end: usize) -> (r: (usize, usize))
    requires
        start <= end <= bytes@.len(),
    ensures
        start <= r.0 <= r.1 <= end,
        bytes@.subrange(r.0 as int, r.1 as int) == trim(
            bytes@.subrange(start as int, end as int),
        ),
{
    let mut lo = start;
    let mut hi = end;
    loop
        invariant
            start <= lo <= hi <= end <= bytes@.len(),
            trim(bytes@.subrange(start as int, end as int)) == trim(
                bytes@.subrange(lo as int, hi as int),
            ),
        ensures
            start <= lo <= hi <= end,
            trim(bytes@.subrange(start as int, end as int)) == trim(
                bytes@.subrange(lo as int, hi as int),
            ),
            lo == hi || !is_space(bytes@[lo as int]),
        decreases hi - lo,
    {
        if lo >= hi {
            break ;
        }
        if !is_space_byte(bytes[lo]) {
            break ;
        }
        proof {
            assert(bytes@.subrange(lo as int, hi as int).drop_first() =~= bytes@.subrange(
                lo + 1,
                hi as int,
            ));
        }
        lo = lo + 1;
    }
    loop
        invariant
            start <= lo <= hi <= end <= bytes@.len(),
            trim(bytes@.subrange(start as int, end as int)) == trim(
                bytes@.subrange(lo as int, hi as int),
            ),
            lo == hi || !is_space(bytes@[lo as int]),
        ensures
            start <= lo <= hi <= end,
            trim(bytes@.subrange(start as int, end as int)) == trim(
                bytes@.subrange(lo as int, hi as int),
            ),
            lo == hi || (!is_space(bytes@[lo as int]) && !is_space(bytes@[hi - 1])),
        decreases hi - lo,
    {
        if lo >= hi {
            break ;
        }
        if !is_space_byte(bytes[hi - 1]) {
            break ;
        }
        proof {
            assert(bytes@.subrange(lo as int, hi as int).drop_last() =~= bytes@.subrange(
                lo as int,
                hi - 1,
            ));
        }
        hi = hi - 1;
    }
    proof {
        assert(bytes@.subrange(lo as int, hi as int) == trim(
            bytes@.subrange(lo as int, hi as int),
        ));
    }
    (lo, hi)
}

/// Split the map text at every newline, returning for each row the index
/// range it occupies: consecutive ranges separated by one newline byte each,
/// the first starting at 0 and the last ending at the text's end.
fn line_ranges(bytes: &[u8]) -> (r: Vec<(usize, usize)>)
    ensures
        split_lines(bytes@) == Seq::new(
            r@.len(),
            |k: int| bytes@.subrange(r@[k].0 as int, r@[k].1 as int),
        ),
        r@.len() == split_lines(bytes@).len(),
        r@.len() >= 1,
        r@[0].0 == 0,
        r@[r@.len() - 1].1 == bytes@.len(),
        forall|k: int| 0 <= k < r@.len() ==> #[trigger] r@[k].0 <= r@[k].1 <= bytes@.len(),
        forall|k: int| 1 <= k < r@.len() ==> (#[trigger] r@[k]).0 == r@[k - 1].1 + 1,
{
    let n = bytes.len();
    let mut r: Vec<(usize, usize)> = Vec::new();
    let mut start: usize = 0;
    proof {
        assert(bytes@.subrange(0, n as int) =~= bytes@);
        assert(Seq::new(0, |k: int| bytes@.subrange(r@[k].0 as int, r@[k].1 as int))
            + split_lines(bytes@) =~= split_lines(bytes@));
    }
    loop
        invariant_except_break
            split_lines(bytes@) == Seq::new(
                r@.len(),
                |k: int| bytes@.subrange(r@[k].0 as int, r@[k].1 as int),
            ) + split_lines(bytes@.subrange(start as int, n as int)),
            r@.len() >= 1 ==> r@[r@.len() - 1].1 + 1 == start,
            forall|k: int| 0 <= k < r@.len() ==> #[trigger] r@[k].0 <= r@[k].1 < start,
        invariant
            start <= n,
            n == bytes@.len(),
            r@.len() == 0 ==> start == 0,
            r@.len() >= 1 ==> r@[0].0 == 0,
            forall|k: int| 1 <= k < r@.len() ==> (#[trigger] r@[k]).0 == r@[k - 1].1 + 1,
        ensures
            start <= n,
            n == bytes@.len(),
            split_lines(bytes@) == Seq::new(
                r@.len(),
                |k: int| bytes@.subrange(r@[k].0 as int, r@[k].1 as int),
            ),
            r@.len() >= 1,
            r@[0].0 == 0,
            r@[r@.len() - 1].1 == n,
            forall|k: int| 0 <= k < r@.len() ==> #[trigger] r@[k].0 <= r@[k].1 <= n,
            forall|k: int| 1 <= k < r@.len() ==> (#[trigger] r@[k]).0 == r@[k - 1].1 + 1,
        decreases n + 1 - start,
    {
        let ghost suffix = bytes@.subrange(start as int, n as int);
        let mut j = start;
        loop
            invariant
                start <= j <= n,
                n == bytes@.len(),
                forall|i: int| start <= i < j ==> bytes@[i] != 10,
            ensures
                start <= j <= n,
                forall|i: int| start <= i < j ==> bytes@[i] != 10,
                j == n || bytes@[j as int] == 10,
            decreases n - j,
        {
            if j >= n {
                break ;
            }
            if bytes[j] == 10 {
                break ;
            }
            j = j + 1;
        }
        proof {
            assert forall|i: int| 0 <= i < j - start implies suffix[i] != 10 by {
                assert(suffix[i] == bytes@[start + i]);
            }
            if j < n {
                assert(suffix[j - start] == bytes@[j as int]);
            }
            lemma_first_newline_at(suffix, j - start);
            assert(suffix.subrange(0, j - start) =~= bytes@.subrange(start as int, j as int));
        }
        let ghost old_r = r@;
        r.push((start, j));
        proof {
            assert(r@ == old_r.push((start, j)));
            assert forall|k: int| 0 <= k < old_r.len() implies r@[k] == old_r[k] by {}
            assert(r@[r@.len() - 1] == (start, j));
            let f = |k: int| bytes@.subrange(r@[k].0 as int, r@[k].1 as int);
            let f_old = |k: int| bytes@.subrange(old_r[k].0 as int, old_r[k].1 as int);
            assert(Seq::new(r@.len(), f) =~= Seq::new(old_r.len(), f_old) + seq![
                bytes@.subrange(start as int, j as int),
            ]);
        }
        if j == n {
            proof {
                assert(suffix.subrange(0, j - start) =~= suffix);
                assert(split_lines(suffix) == seq![suffix]);
                assert(bytes@.subrange(start as int, j as int) == suffix);
                assert(split_lines(bytes@) == Seq::new(
                    r@.len(),
                    |k: int| bytes@.subrange(r@[k].0 as int, r@[k].1 as int),
                ));
            }
            break ;
        }
        proof {
            assert(split_lines(suffix) == seq![suffix.subrange(0, j - start)] + split_lines(
                suffix.subrange(j - start + 1, suffix.len() as int),
            ));
            assert(suffix.subrange(j - start + 1, suffix.len() as int) =~= bytes@.subrange(
                j + 1,
                n as int,
            ));
        }
        start = j + 1;
    }
    r
}

/// The space a map character populates its cell with.
pub open spec fn char_space(b: u8) -> GridSpace {
    GridSpace { entity: char_entity(b) }
}

/// Why map text was rejected: the 1-based `line` has trimmed length `actual`,
/// where the first line established the width `expected`.
#[derive(Clone, Debug, PartialEq, Eq, Structural)]
pub struct MapError {
    pub expected: usize,
    pub line: usize,
    pub actual: usize,
}

/// Consecutive rows of at least `width` bytes each, separated by one byte,
/// reach at least width-per-row past the start of the first.
proof fn lemma_rows_reach(r: Seq<(usize, usize)>, width: int)
    requires
        r.len() >= 1,
        width >= 0,
        forall|k: int| 0 <= k < r.len() ==> width <= #[trigger] (r[k].1 - r[k].0),
        forall|k: int| 1 <= k < r.len() ==> (#[trigger] r[k]).0 == r[k - 1].1 + 1,
    ensures
        r[0].0 + width * r.len() + (r.len() - 1) <= r[r.len() - 1].1,
    decreases r.len(),
{
    let h = r.len() as int;
    if h == 1 {
        assert(width <= r[0].1 - r[0].0);
        assert(width * 1 == width) by (nonlinear_arith);
    } else {
        let prefix = r.take(h - 1);
        assert forall|k: int| 0 <= k < prefix.len() implies width <= #[trigger] (prefix[k].1
            - prefix[k].0) by {
            assert(prefix[k] == r[k]);
        }
        assert forall|k: int| 1 <= k < prefix.len() implies (#[trigger] prefix[k]).0 == prefix[k
            - 1].1 + 1 by {
            assert(prefix[k] == r[k] && prefix[k - 1] == r[k - 1]);
        }
        lemma_rows_reach(prefix, width);
        assert(prefix[0] == r[0] && prefix[h - 2] == r[h - 2]);
        assert(r[h - 1].0 == r[h - 2].1 + 1);
        assert(width <= r[h - 1].1 - r[h - 1].0);
        assert(width * h == width * (h - 1) + width) by (nonlinear_arith);
    }
}

/// Turn newline-separated map text into a populated grid of any conforming
/// type. Each row is trimmed of surrounding whitespace; the first row's
/// trimmed length establishes the width every row must match, the row count
/// is the height, and within a row the character `x` marks a wall while `.`
/// and every other character leave the cell empty. The first row whose length
/// disagrees is reported by its 1-based line number together with the
/// expected and actual lengths, and no grid is built.
pub fn populate_grid<G: Grid<Item = GridSpace>>(board: &str) -> (r: Result<G, MapError>)
    ensures
        ({
            let rows = map_rows(board.spec_bytes());
            let width = map_width(board.spec_bytes());
            match r {
                Ok(g) => {
                    &&& map_wf(board.spec_bytes())
                    &&& g.wf()
                    &&& g.spec_width() == width
                    &&& g.spec_height() == rows.len()
                    &&& forall|x: int, y: int|
                        0 <= x < width && 0 <= y < rows.len() ==> #[trigger] g.spec_at(x, y)
                            == char_space(rows[y][x])
                },
                Err(e) => {
                    &&& !map_wf(board.spec_bytes())
                    &&& 1 <= e.line <= rows.len()
                    &&& e.expected == width
                    &&& e.actual == rows[e.line - 1].len()
                    &&& rows[e.line - 1].len() != width
                    &&& forall|k: int|
                        0 <= k < e.line - 1 ==> (#[trigger] rows[k]).len() == width
                },
            }
        }),
{
    let bytes: &[u8] = board.as_bytes();
    let ghost s = board.spec_bytes();
    let ghost rows = map_rows(s);
    let n = bytes.len();
    let ranges = line_ranges(bytes);
    let height = ranges.len();

    let mut trs: Vec<(usize, usize)> = Vec::new();
    let mut k: usize = 0;
    while k < height
        invariant
            k <= height,
            height == ranges@.len(),
            trs@.len() == k,
            n == bytes@.len(),
            s == bytes@,
            rows == map_rows(s),
            height == split_lines(s).len(),
            split_lines(s) == Seq::new(
                ranges@.len(),
                |j: int| s.subrange(ranges@[j].0 as int, ranges@[j].1 as int),
            ),
            forall|j: int|
                0 <= j < ranges@.len() ==> #[trigger] ranges@[j].0 <= ranges@[j].1 <= n,
            forall|j: int|
                0 <= j < k ==> ranges@[j].0 <= (#[trigger] trs@[j]).0 <= trs@[j].1
                    <= ranges@[j].1,
            forall|j: int|
                0 <= j < k ==> bytes@.subrange(
                    (#[trigger] trs@[j]).0 as int,
                    trs@[j].1 as int,
                ) == rows[j],
        decreases height - k,
    {
        let (lo0, hi0) = ranges[k];
        proof {
            assert(split_lines(s)[k as int] == bytes@.subrange(lo0 as int, hi0 as int));
            assert(rows[k as int] == trim(bytes@.subrange(lo0 as int, hi0 as int)));
        }
        let t = trim_range(bytes, lo0, hi0);
        trs.push(t);
        k = k + 1;
    }

    let width = trs[0].1 - trs[0].0;
    proof {
        assert(rows[0].len() == width as int);
        assert(map_width(s) == width as int);
    }

    let mut k: usize = 0;
    while k < height
        invariant
            k <= height,
            height == trs@.len(),
            height == ranges@.len(),
            height == rows.len(),
            n == bytes@.len(),
            s == bytes@,
            s == board.spec_bytes(),
            rows == map_rows(s),
            width as int == map_width(s),
            forall|j: int|
                0 <= j < ranges@.len() ==> #[trigger] ranges@[j].0 <= ranges@[j].1 <= n,
            forall|j: int|
                0 <= j < height ==> ranges@[j].0 <= (#[trigger] trs@[j]).0 <= trs@[j].1
                    <= ranges@[j].1,
            forall|j: int|
                0 <= j < height ==> bytes@.subrange(
                    (#[trigger] trs@[j]).0 as int,
                    trs@[j].1 as int,
                ) == rows[j],
            forall|j: int| 0 <= j < k ==> (#[trigger] rows[j]).len() == width as int,
        decreases height - k,
    {
        let (lo, hi) = trs[k];
        let len_k = hi - lo;
        if len_k != width {
            proof {
                assert(rows[k as int].len() == len_k as int);
            }
            return Err(MapError { expected: width, line: k + 1, actual: len_k });
        }
        k = k + 1;
    }

    proof {
        assert forall|j: int| 0 <= j < ranges@.len() implies width as int <= #[trigger] (
        ranges@[j].1 - ranges@[j].0) by {
            assert(rows[j].len() == trs@[j].1 - trs@[j].0);
        }
        lemma_rows_reach(ranges@, width as int);
        assert(ranges@[0].0 == 0);
        assert(width * height <= n);
    }
    let mut g: G = G::with_size(width, height);
    let mut y: usize = 0;
    while y < height
        invariant
            y <= height,
            height == trs@.len(),
            height == rows.len(),
            n == bytes@.len(),
            s == bytes@,
            width as int == map_width(s),
            g.wf(),
            g.spec_width() == width as int,
            g.spec_height() == height as int,
            forall|j: int| 0 <= j < height ==> (#[trigger] rows[j]).len() == width as int,
            forall|j: int| 0 <= j < height ==> (#[trigger] trs@[j]).0 <= trs@[j].1 <= n,
            forall|j: int|
                0 <= j < height ==> bytes@.subrange(
                    (#[trigger] trs@[j]).0 as int,
                    trs@[j].1 as int,
                ) == rows[j],
            forall|i: int, j: int|
                0 <= i < width && 0 <= j < height ==> #[trigger] g.spec_at(i, j) == (if j < y {
                    char_space(rows[j][i])
                } else {
                    GridSpace::spec_empty()
                }),
        decreases height - y,
    {
        let (lo, hi) = trs[y];
        let mut x: usize = 0;
        while x < width
            invariant
                x <= width,
                y < height,
                height == trs@.len(),
                height == rows.len(),
                n == bytes@.len(),
                s == bytes@,
                width as int == map_width(s),
                g.wf(),
                g.spec_width() == width as int,
                g.spec_height() == height as int,
                (lo, hi) == trs@[y as int],
                lo <= hi <= n,
                hi - lo == width,
                bytes@.subrange(lo as int, hi as int) == rows[y as int],
                forall|j: int| 0 <= j < height ==> (#[trigger] rows[j]).len() == width as int,
                forall|j: int| 0 <= j < height ==> (#[trigger] trs@[j]).0 <= trs@[j].1 <= n,
                forall|j: int|
                    0 <= j < height ==> bytes@.subrange(
                        (#[trigger] trs@[j]).0 as int,
                        trs@[j].1 as int,
                    ) == rows[j],
                forall|i: int, j: int|
                    0 <= i < width && 0 <= j < height ==> #[trigger] g.spec_at(i, j) == (if j
                        < y || (j == y && i < x) {
                        char_space(rows[j][i])
                    } else {
                        GridSpace::spec_empty()
                    }),
            decreases width - x,
        {
            let b = bytes[lo + x];
            proof {
                assert(rows[y as int][x as int] == bytes@[lo + x]);
            }
            if b == 120 {
                g.set(x, y, GridSpace { entity: GridEntity::Wall });
            }
            x = x + 1;
        }
        y = y + 1;
    }
    Ok(g)
}

/// The two-byte glyph one space renders as: `X ` for a wall, `. ` for empty.
pub open spec fn spec_glyph(sp: GridSpace) -> Seq<u8> {
    if sp.entity is Wall {
        seq![88u8, 32u8]
    } else {
        seq![46u8, 32u8]
    }
}

/// The first x glyphs of row y of g.
pub open spec fn spec_render_row<G: Grid<Item = GridSpace>>(g: &G, y: int, x: int) -> Seq<u8>
    decreases x,
{
    if x <= 0 {
        Seq::empty()
    } else {
        spec_render_row(g, y, x - 1) + spec_glyph(g.spec_at(x - 1, y))
    }
}

/// The first y rendered rows of g, each ended by a newline.
pub open spec fn spec_render_rows<G: Grid<Item = GridSpace>>(g: &G, y: int) -> Seq<u8>
    decreases y,
{
    if y <= 0 {
        Seq::empty()
    } else {
        spec_render_rows(g, y - 1) + spec_render_row(g, y - 1, g.spec_width()) + seq![10u8]
    }
}

/// The textual rendering of a populated grid: rows top to bottom, each cell
/// as its two-character glyph, each row ended by a newline.
pub open spec fn spec_render<G: Grid<Item = GridSpace>>(g: &G) -> Seq<u8> {
    spec_render_rows(g, g.spec_height())
}

/// Render a populated grid as text: row by row, top to bottom, each cell as a
/// two-character glyph — `X ` for a wall, `. ` for an empty cell — and each
/// row ended by a newline.
pub fn render_grid<G: Grid<Item = GridSpace>>(g: &G) -> (out: Vec<u8>)
    requires
        g.wf(),
    ensures
        out@ == spec_render(g),
{
    let width = g.width();
    let height = g.height();
    let mut out: Vec<u8> = Vec::new();
    let mut y: usize = 0;
    while y < height
        invariant
            y <= height,
            g.wf(),
            width as int == g.spec_width(),
            height as int == g.spec_height(),
            out@ == spec_render_rows(g, y as int),
        decreases height - y,
    {
        let mut x: usize = 0;
        proof {
            assert(out@ =~= spec_render_rows(g, y as int) + spec_render_row(g, y as int, 0));
        }
        while x < width
            invariant
                x <= width,
                y < height,
                g.wf(),
                width as int == g.spec_width(),
                height as int == g.spec_height(),
                out@ == spec_render_rows(g, y as int) + spec_render_row(g, y as int, x as int),
            decreases width - x,
        {
            let sp = g.get(x, y);
            match sp.entity {
                GridEntity::Wall => {
                    out.push(88);
                    out.push(32);
                },
                GridEntity::Empty => {
                    out.push(46);
                    out.push(32);
                },
            }
            proof {
                assert(out@ =~= spec_render_rows(g, y as int) + spec_render_row(
                    g,
                    y as int,
                    x + 1,
                ));
            }
            x = x + 1;
        }
        out.push(10);
        proof {
            assert(out@ =~= spec_render_rows(g, y + 1));
        }
        y = y + 1;
    }
    out
}

} // verus!
