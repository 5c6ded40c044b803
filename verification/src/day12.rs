use crate::text::{chars_of, dec_nat, lemma_deep_view_chars, line_seqs, split_lines, usize_string};
use vstd::prelude::*;

verus! {

/// A grid position: line, then column.
pub type Pos = (usize, usize);

/// The height map: one vector of characters per line.
pub type Grid = Vec<Vec<char>>;

/// A position as abstract integers.
pub open spec fn posv(p: Pos) -> (int, int) {
    (p.0 as int, p.1 as int)
}

pub open spec fn poss(v: Seq<Pos>) -> Seq<(int, int)> {
    v.map_values(|p: Pos| posv(p))
}

pub open spec fn bview(v: Seq<Vec<bool>>) -> Seq<Seq<bool>> {
    v.map_values(|r: Vec<bool>| r@)
}

/// The elevation of a cell: `S` counts as `a`, `E` as `z`, and a letter
/// counts by its place in the alphabet, `a` being 10.
pub open spec fn elev(c: char) -> int {
    if c == 'S' {
        10
    } else if c == 'E' {
        35
    } else {
        c as u32 - 87
    }
}

/// Whether the grid is non-empty, rectangular, and all lowercase letters or
/// the two markers.
pub open spec fn valid_grid(g: Seq<Seq<char>>) -> bool {
    &&& g.len() > 0
    &&& g[0].len() > 0
    &&& forall|y: int| 0 <= y < g.len() ==> (#[trigger] g[y]).len() == g[0].len()
    &&& forall|y: int, x: int|
        0 <= y < g.len() && 0 <= x < g[0].len() ==> (#[trigger] g[y][x] == 'S' || g[y][x] == 'E'
            || ('a' <= g[y][x] && g[y][x] <= 'z'))
}

/// The position of the last occurrence of `c` in the row, scanning from `x`,
/// starting from `cur`.
pub open spec fn row_marker(row: Seq<char>, c: char, y: int, x: int, cur: (int, int)) -> (int, int)
    decreases row.len() - x,
{
    if x < 0 || x >= row.len() {
        cur
    } else {
        row_marker(
            row,
            c,
            y,
            x + 1,
            if row[x] == c {
                (y, x)
            } else {
                cur
            },
        )
    }
}

/// The position of the last occurrence of `c` in the grid, scanning lines
/// from `y`, starting from `cur`.
pub open spec fn grid_marker(g: Seq<Seq<char>>, c: char, y: int, cur: (int, int)) -> (int, int)
    decreases g.len() - y,
{
    if y < 0 || y >= g.len() {
        cur
    } else {
        grid_marker(g, c, y + 1, row_marker(g[y], c, y, 0, cur))
    }
}

/// Read the grid and find the `S` and `E` markers (the origin when absent).
pub fn parser(input: &str) -> (r: (Pos, Pos, Grid))
    requires
        line_seqs(input@).len() <= usize::MAX,
        forall|y: int|
            0 <= y < line_seqs(input@).len() ==> (#[trigger] line_seqs(input@)[y]).len()
                <= usize::MAX,
        grid_marker(line_seqs(input@), 'S', 0, (0, 0)).0 <= usize::MAX,
        grid_marker(line_seqs(input@), 'S', 0, (0, 0)).1 <= usize::MAX,
        grid_marker(line_seqs(input@), 'E', 0, (0, 0)).0 <= usize::MAX,
        grid_marker(line_seqs(input@), 'E', 0, (0, 0)).1 <= usize::MAX,
    ensures
        r.2.deep_view() == line_seqs(input@),
        posv(r.0) == grid_marker(line_seqs(input@), 'S', 0, (0, 0)),
        posv(r.1) == grid_marker(line_seqs(input@), 'E', 0, (0, 0)),
{
    let ghost ld = line_seqs(input@);
    let chars = chars_of(input);
    let lines = split_lines(&chars);
    proof {
        lemma_deep_view_chars(&lines);
    }
    let mut start: Pos = (0, 0);
    let mut end: Pos = (0, 0);
    let mut y: usize = 0;
    while y < lines.len()
        invariant
            y <= lines@.len(),
            ld == line_seqs(input@),
            lines.deep_view() == ld,
            lines@.len() == ld.len(),
            forall|i: int| 0 <= i < lines@.len() ==> #[trigger] lines@[i]@ == ld[i],
            grid_marker(ld, 'S', 0, (0, 0)) == grid_marker(ld, 'S', y as int, posv(start)),
            grid_marker(ld, 'E', 0, (0, 0)) == grid_marker(ld, 'E', y as int, posv(end)),
        decreases lines.len() - y,
    {
        let row_len = lines[y].len();
        let ghost s_in = posv(start);
        let ghost e_in = posv(end);
        let mut x: usize = 0;
        while x < row_len
            invariant
                y < lines@.len(),
                x <= row_len,
                ld == line_seqs(input@),
                lines@.len() == ld.len(),
                forall|i: int| 0 <= i < lines@.len() ==> #[trigger] lines@[i]@ == ld[i],
                row_len == ld[y as int].len(),
                row_marker(ld[y as int], 'S', y as int, 0, s_in) == row_marker(
                    ld[y as int],
                    'S',
                    y as int,
                    x as int,
                    posv(start),
                ),
                row_marker(ld[y as int], 'E', y as int, 0, e_in) == row_marker(
                    ld[y as int],
                    'E',
                    y as int,
                    x as int,
                    posv(end),
                ),
                grid_marker(ld, 'S', 0, (0, 0)) == grid_marker(
                    ld,
                    'S',
                    y + 1,
                    row_marker(ld[y as int], 'S', y as int, 0, s_in),
                ),
                grid_marker(ld, 'E', 0, (0, 0)) == grid_marker(
                    ld,
                    'E',
                    y + 1,
                    row_marker(ld[y as int], 'E', y as int, 0, e_in),
                ),
            decreases row_len - x,
    {
            let c = lines[y][x];
            if c == 'S' {
                start = (y, x);
            }
            if c == 'E' {
                end = (y, x);
            }
            x = x + 1;
        }
        y = y + 1;
    }
    proof {
        assert(grid_marker(ld, 'S', lines@.len() as int, posv(start)) == posv(start));
        assert(grid_marker(ld, 'E', lines@.len() as int, posv(end)) == posv(end));
    }
    (start, end, lines)
}

/// The letters `a` to `z` paired with their elevation values, in order.
pub fn alphabet() -> (r: Vec<(char, u32)>)
    ensures
        r@.len() == 26,
        forall|k: int| 0 <= k < 26 ==> #[trigger] r@[k] == (((97 + k) as u8) as char, (10 + k) as u32),
{
    let mut r: Vec<(char, u32)> = Vec::new();
    let mut k: u8 = 0;
    while k < 26
        invariant
            k <= 26,
            r@.len() == k,
            forall|m: int| 0 <= m < k ==> #[trigger] r@[m] == (((97 + m) as u8) as char, (10 + m) as u32),
        decreases 26 - k,
    {
        let c = (97 + k) as char;
        r.push((c, 10 + k as u32));
        k = k + 1;
    }
    r
}

/// The positions holding `a` in the row, scanning from `x`.
pub open spec fn row_lows(row: Seq<char>, y: int, x: int) -> Seq<(int, int)>
    decreases row.len() - x,
{
    if x < 0 || x >= row.len() {
        Seq::empty()
    } else if row[x] == 'a' {
        seq![(y, x)] + row_lows(row, y, x + 1)
    } else {
        row_lows(row, y, x + 1)
    }
}

/// The positions holding `a` in the grid, scanning lines from `y`.
pub open spec fn grid_lows(g: Seq<Seq<char>>, y: int) -> Seq<(int, int)>
    decreases g.len() - y,
{
    if y < 0 || y >= g.len() {
        Seq::empty()
    } else {
        row_lows(g[y], y, 0) + grid_lows(g, y + 1)
    }
}

/// Every position in the grid that holds an `a`, in reading order.
pub fn get_low_points(grid: &Grid) -> (r: Vec<Pos>)
    ensures
        poss(r@) == grid_lows(grid.deep_view(), 0),
{
    let ghost g = grid.deep_view();
    proof {
        lemma_deep_view_chars(grid);
    }
    let mut result: Vec<Pos> = Vec::new();
    let mut y: usize = 0;
    proof {
        assert(poss(result@) + grid_lows(g, 0) =~= grid_lows(g, 0));
    }
    while y < grid.len()
        invariant
            y <= grid@.len(),
            g == grid.deep_view(),
            grid@.len() == g.len(),
            forall|i: int| 0 <= i < grid@.len() ==> #[trigger] grid@[i]@ == g[i],
            grid_lows(g, 0) == poss(result@) + grid_lows(g, y as int),
        decreases grid.len() - y,
    {
        let row_len = grid[y].len();
        let mut x: usize = 0;
        proof {
            assert(grid_lows(g, y as int) == row_lows(g[y as int], y as int, 0) + grid_lows(
                g,
                y + 1,
            ));
        }
        while x < row_len
            invariant
                y < grid@.len(),
                x <= row_len,
                g == grid.deep_view(),
                grid@.len() == g.len(),
                forall|i: int| 0 <= i < grid@.len() ==> #[trigger] grid@[i]@ == g[i],
                row_len == g[y as int].len(),
                grid_lows(g, 0) == poss(result@) + row_lows(g[y as int], y as int, x as int)
                    + grid_lows(g, y + 1),
            decreases row_len - x,
        {
            if grid[y][x] == 'a' {
                let ghost pre = poss(result@);
                result.push((y, x));
                proof {
                    assert(poss(result@) =~= pre + seq![(y as int, x as int)]);
                    assert(row_lows(g[y as int], y as int, x as int) == seq![(y as int, x as int)]
                        + row_lows(g[y as int], y as int, x + 1));
                    assert(poss(result@) + row_lows(g[y as int], y as int, x + 1) =~= pre
                        + row_lows(g[y as int], y as int, x as int));
                }
            }
            x = x + 1;
        }
        proof {
            assert(row_lows(g[y as int], y as int, row_len as int) =~= Seq::<(int, int)>::empty());
            assert(poss(result@) + grid_lows(g, y + 1) =~= poss(result@) + row_lows(
                g[y as int],
                y as int,
                row_len as int,
            ) + grid_lows(g, y + 1));
        }
        y = y + 1;
    }
    proof {
        assert(grid_lows(g, g.len() as int) =~= Seq::<(int, int)>::empty());
        assert(poss(result@) =~= grid_lows(g, 0));
    }
    result
}

/// The in-bounds orthogonal neighbours of `p`: up, left, down, right, the
/// column bound taken from the first line.
pub open spec fn nbrs(g: Seq<Seq<char>>, p: (int, int)) -> Seq<(int, int)> {
    (if p.0 > 0 {
        seq![(p.0 - 1, p.1)]
    } else {
        Seq::empty()
    }) + (if p.1 > 0 {
        seq![(p.0, p.1 - 1)]
    } else {
        Seq::empty()
    }) + (if p.0 + 1 < g.len() {
        seq![(p.0 + 1, p.1)]
    } else {
        Seq::empty()
    }) + (if p.1 + 1 < g[0].len() {
        seq![(p.0, p.1 + 1)]
    } else {
        Seq::empty()
    })
}

/// The neighbours of `pos`, in the order up, left, down, right.
pub fn neighbors(grid: &Grid, pos: &Pos) -> (r: Vec<Pos>)
    requires
        grid@.len() > 0,
        pos.0 + 1 <= usize::MAX,
        pos.1 + 1 <= usize::MAX,
    ensures
        poss(r@) == nbrs(grid.deep_view(), posv(*pos)),
{
    let ghost g = grid.deep_view();
    proof {
        lemma_deep_view_chars(grid);
    }
    let mut result: Vec<Pos> = Vec::new();
    if pos.0 > 0 {
        result.push((pos.0 - 1, pos.1));
    }
    if pos.1 > 0 {
        result.push((pos.0, pos.1 - 1));
    }
    if pos.0 + 1 < grid.len() {
        result.push((pos.0 + 1, pos.1));
    }
    let cols0 = grid[0].len();
    if pos.1 + 1 < cols0 {
        result.push((pos.0, pos.1 + 1));
    }
    proof {
        assert(g[0].len() == cols0);
        assert(poss(result@) =~= nbrs(g, posv(*pos)));
    }
    result
}

/// The climb from `curr` to `next`: the elevation difference.
pub fn height_diff(grid: &Grid, curr: &Pos, next: &Pos) -> (r: i32)
    requires
        valid_grid(grid.deep_view()),
        posv(*curr).0 < grid.deep_view().len(),
        posv(*curr).1 < grid.deep_view()[0].len(),
        posv(*next).0 < grid.deep_view().len(),
        posv(*next).1 < grid.deep_view()[0].len(),
    ensures
        r == elev(grid.deep_view()[next.0 as int][next.1 as int]) - elev(
            grid.deep_view()[curr.0 as int][curr.1 as int],
        ),
{
    let ghost g = grid.deep_view();
    proof {
        lemma_deep_view_chars(grid);
        assert(g[curr.0 as int].len() == g[0].len());
        assert(g[next.0 as int].len() == g[0].len());
    }
    let c1 = grid[curr.0][curr.1];
    let c2 = grid[next.0][next.1];
    let curr_elevation: u32 = if c1 == 'S' {
        10
    } else if c1 == 'E' {
        35
    } else {
        c1 as u32 - 87
    };
    let next_elevation: u32 = if c2 == 'S' {
        10
    } else if c2 == 'E' {
        35
    } else {
        c2 as u32 - 87
    };
    (next_elevation as i32) - (curr_elevation as i32)
}

/// One frontier cell expanded: its climbable, unvisited neighbours (from the
/// `k`-th on) are marked visited and added to the next frontier.
pub open spec fn expand(
    g: Seq<Seq<char>>,
    vis: Seq<Seq<bool>>,
    nf: Seq<(int, int)>,
    p: (int, int),
    k: int,
) -> (Seq<Seq<bool>>, Seq<(int, int)>)
    decreases nbrs(g, p).len() - k,
{
    if k < 0 || k >= nbrs(g, p).len() {
        (vis, nf)
    } else {
        let q = nbrs(g, p)[k];
        if elev(g[q.0][q.1]) - elev(g[p.0][p.1]) <= 1 && !vis[q.0][q.1] {
            expand(g, vis.update(q.0, vis[q.0].update(q.1, true)), nf.push(q), p, k + 1)
        } else {
            expand(g, vis, nf, p, k + 1)
        }
    }
}

/// The whole frontier expanded, from its `j`-th cell on.
pub open spec fn process(
    g: Seq<Seq<char>>,
    vis: Seq<Seq<bool>>,
    frontier: Seq<(int, int)>,
    j: int,
    nf: Seq<(int, int)>,
) -> (Seq<Seq<bool>>, Seq<(int, int)>)
    decreases frontier.len() - j,
{
    if j < 0 || j >= frontier.len() {
        (vis, nf)
    } else {
        let st = expand(g, vis, nf, frontier[j], 0);
        process(g, st.0, frontier, j + 1, st.1)
    }
}

/// Breadth-first search over the climbable grid: `d` when `end` stands in
/// the frontier after `d` rounds, 0 when the frontier empties (or the work
/// budget runs out).
pub open spec fn bfs(
    g: Seq<Seq<char>>,
    end: (int, int),
    vis: Seq<Seq<bool>>,
    frontier: Seq<(int, int)>,
    d: int,
    fuel: nat,
) -> int
    decreases fuel,
{
    if frontier.contains(end) {
        d
    } else if fuel == 0 {
        0
    } else {
        let st = process(g, vis, frontier, 0, Seq::empty());
        if st.1.len() == 0 {
            0
        } else {
            bfs(g, end, st.0, st.1, d + 1, (fuel - 1) as nat)
        }
    }
}

/// The grid with only `start` marked visited.
pub open spec fn init_vis(g: Seq<Seq<char>>, start: (int, int)) -> Seq<Seq<bool>> {
    Seq::new(g.len(), |y: int| Seq::new(g[0].len(), |x: int| y == start.0 && x == start.1))
}

/// The number of search steps from `start` to `end`, climbing at most one
/// elevation unit per step.
pub open spec fn day12_steps(g: Seq<Seq<char>>, start: (int, int), end: (int, int)) -> int {
    bfs(g, end, init_vis(g, start), seq![start], 0, (g.len() * g[0].len() + 1) as nat)
}

/// Whether `v` holds `p`.
fn frontier_contains(v: &Vec<Pos>, p: &Pos) -> (r: bool)
    ensures
        r == poss(v@).contains(posv(*p)),
{
    let mut k: usize = 0;
    while k < v.len()
        invariant
            k <= v@.len(),
            forall|m: int| 0 <= m < k ==> poss(v@)[m] != posv(*p),
        decreases v.len() - k,
    {
        if v[k].0 == p.0 && v[k].1 == p.1 {
            proof {
                assert(poss(v@)[k as int] == posv(*p));
            }
            return true;
        }
        k = k + 1;
    }
    false
}

/// The fewest steps from `start` to `end`, each step to an orthogonal
/// neighbour at most one elevation unit higher; 0 when `end` cannot be
/// reached.
pub fn dijkstra(grid: &Grid, start: &Pos, end: &Pos) -> (r: usize)
    requires
        valid_grid(grid.deep_view()),
        posv(*start).0 < grid.deep_view().len(),
        posv(*start).1 < grid.deep_view()[0].len(),
        grid.deep_view().len() * grid.deep_view()[0].len() < usize::MAX,
    ensures
        r == day12_steps(grid.deep_view(), posv(*start), posv(*end)),
{
    let ghost g = grid.deep_view();
    proof {
        lemma_deep_view_chars(grid);
    }
    let rows = grid.len();
    let cols = grid[0].len();
    let mut vis: Vec<Vec<bool>> = Vec::new();
    let mut y: usize = 0;
    while y < rows
        invariant
            y <= rows,
            rows == g.len(),
            cols == g[0].len(),
            g == grid.deep_view(),
            bview(vis@).len() == y,
            forall|i: int| 0 <= i < y ==> #[trigger] bview(vis@)[i] =~= init_vis(g, posv(*start))[i],
        decreases rows - y,
    {
        let mut row: Vec<bool> = Vec::new();
        let mut x: usize = 0;
        while x < cols
            invariant
                y < rows,
                x <= cols,
                rows == g.len(),
                cols == g[0].len(),
                g == grid.deep_view(),
                row@.len() == x,
                forall|m: int|
                    0 <= m < x ==> row@[m] == (y == start.0 && m == start.1),
            decreases cols - x,
        {
            row.push(y == start.0 && x == start.1);
            x = x + 1;
        }
        let ghost pre = bview(vis@);
        vis.push(row);
        proof {
            assert(bview(vis@) =~= pre.push(row@));
            assert(bview(vis@)[y as int] =~= init_vis(g, posv(*start))[y as int]);
        }
        y = y + 1;
    }
    proof {
        assert(bview(vis@) =~~= init_vis(g, posv(*start)));
    }
    let mut frontier: Vec<Pos> = Vec::new();
    frontier.push((start.0, start.1));
    proof {
        assert(poss(frontier@) =~= seq![posv(*start)]);
    }
    let mut d: usize = 0;
    let mut fuel: usize = rows * cols + 1;
    let ghost total = (g.len() * g[0].len() + 1) as nat;
    proof {
        assert(day12_steps(g, posv(*start), posv(*end)) == bfs(
            g,
            posv(*end),
            bview(vis@),
            poss(frontier@),
            0,
            total,
        ));
    }
    loop
        invariant
            rows == g.len(),
            cols == g[0].len(),
            g == grid.deep_view(),
            valid_grid(g),
            total == (g.len() * g[0].len() + 1) as nat,
            total <= usize::MAX,
            d + fuel == total,
            bview(vis@).len() == rows,
            forall|i: int| 0 <= i < rows ==> (#[trigger] bview(vis@)[i]).len() == cols,
            vis@.len() == rows,
            forall|m: int|
                0 <= m < poss(frontier@).len() ==> 0 <= (#[trigger] poss(frontier@)[m]).0 < rows
                    && 0 <= poss(frontier@)[m].1 < cols,
            day12_steps(g, posv(*start), posv(*end)) == bfs(
                g,
                posv(*end),
                bview(vis@),
                poss(frontier@),
                d as int,
                fuel as nat,
            ),
        decreases fuel,
    {
        if frontier_contains(&frontier, end) {
            return d;
        }
        if fuel == 0 {
            return 0;
        }
        let ghost vis0 = bview(vis@);
        let ghost fr0 = poss(frontier@);
        let mut nf: Vec<Pos> = Vec::new();
        let mut j: usize = 0;
        proof {
            assert(poss(nf@) =~= Seq::<(int, int)>::empty());
        }
        while j < frontier.len()
            invariant
                j <= frontier@.len(),
                rows == g.len(),
                cols == g[0].len(),
                g == grid.deep_view(),
                valid_grid(g),
                fr0 == poss(frontier@),
                bview(vis@).len() == rows,
                vis@.len() == rows,
                forall|i: int| 0 <= i < rows ==> (#[trigger] bview(vis@)[i]).len() == cols,
                forall|m: int|
                    0 <= m < fr0.len() ==> 0 <= (#[trigger] fr0[m]).0 < rows && 0 <= fr0[m].1
                        < cols,
                forall|m: int|
                    0 <= m < poss(nf@).len() ==> 0 <= (#[trigger] poss(nf@)[m]).0 < rows && 0 <= poss(
                        nf@,
                    )[m].1 < cols,
                process(g, vis0, fr0, 0, Seq::empty()) == process(
                    g,
                    bview(vis@),
                    fr0,
                    j as int,
                    poss(nf@),
                ),
            decreases frontier.len() - j,
        {
            let p = frontier[j];
            let ghost pv = posv(p);
            proof {
                assert(fr0[j as int] == pv);
                assert(0 <= (fr0[j as int]).0 < rows && 0 <= (fr0[j as int]).1 < cols);
                assert(rows <= rows * cols) by (nonlinear_arith)
                    requires
                        cols >= 1 && rows >= 0,
                ;
                assert(cols <= rows * cols) by (nonlinear_arith)
                    requires
                        rows >= 1 && cols >= 0,
                ;
            }
            let nb = neighbors(grid, &p);
            let ghost nbl = nbrs(g, pv);
            let ghost vis_in = bview(vis@);
            let ghost nf_in = poss(nf@);
            let mut k: usize = 0;
            proof {
                assert(poss(nb@) == nbl);
            }
            while k < nb.len()
                invariant
                    k <= nb@.len(),
                    rows == g.len(),
                    cols == g[0].len(),
                    g == grid.deep_view(),
                    valid_grid(g),
                    pv == posv(p),
                    pv.0 < rows && 0 <= pv.0 && pv.1 < cols && 0 <= pv.1,
                    nbl == nbrs(g, pv),
                    poss(nb@) == nbl,
                    nb@.len() == nbl.len(),
                    bview(vis@).len() == rows,
                    vis@.len() == rows,
                    forall|i: int| 0 <= i < rows ==> (#[trigger] bview(vis@)[i]).len() == cols,
                    forall|m: int|
                        0 <= m < poss(nf@).len() ==> 0 <= (#[trigger] poss(nf@)[m]).0 < rows && 0
                            <= poss(nf@)[m].1 < cols,
                    expand(g, vis_in, nf_in, pv, 0) == expand(
                        g,
                        bview(vis@),
                        poss(nf@),
                        pv,
                        k as int,
                    ),
                decreases nb.len() - k,
            {
                let q = nb[k];
                proof {
                    assert(poss(nb@)[k as int] == nbl[k as int]);
                    assert(posv(q) == nbl[k as int]);
                    assert(0 <= nbl[k as int].0 < rows && 0 <= nbl[k as int].1 < cols) by {
                        assert(nbl == nbrs(g, pv));
                    }
                }
                let hd = height_diff(grid, &p, &q);
                let was = vis[q.0][q.1];
                proof {
                    let qq = posv(q);
                    assert(was == bview(vis@)[qq.0][qq.1]) by {
                        assert(bview(vis@)[qq.0] == vis@[qq.0]@);
                    }
                    assert(hd == elev(g[qq.0][qq.1]) - elev(g[pv.0][pv.1]));
                }
                let ghost pre_vis = bview(vis@);
                let ghost pre_nf = poss(nf@);
                if hd <= 1 && !was {
                    vis[q.0][q.1] = true;
                    nf.push(q);
                    proof {
                        assert(bview(vis@) =~~= pre_vis.update(
                            q.0 as int,
                            pre_vis[q.0 as int].update(q.1 as int, true),
                        ));
                        assert(poss(nf@) =~= pre_nf.push(posv(q)));
                        assert(expand(g, pre_vis, pre_nf, pv, k as int) == expand(
                            g,
                            bview(vis@),
                            poss(nf@),
                            pv,
                            k + 1,
                        ));
                    }
                } else {
                    proof {
                        assert(expand(g, pre_vis, pre_nf, pv, k as int) == expand(
                            g,
                            bview(vis@),
                            poss(nf@),
                            pv,
                            k + 1,
                        ));
                    }
                }
                k = k + 1;
            }
            proof {
                assert(expand(g, bview(vis@), poss(nf@), pv, nbl.len() as int) == (
                bview(vis@),
                poss(nf@),
                ));
                assert(process(g, vis0, fr0, 0, Seq::empty()) == process(
                    g,
                    bview(vis@),
                    fr0,
                    j + 1,
                    poss(nf@),
                ));
            }
            j = j + 1;
        }
        proof {
            assert(process(g, bview(vis@), fr0, frontier@.len() as int, poss(nf@)) == (
            bview(vis@),
            poss(nf@),
            ));
        }
        if nf.len() == 0 {
            return 0;
        }
        frontier = nf;
        d = d + 1;
        fuel = fuel - 1;
    }
}

proof fn lemma_row_marker_bounds(row: Seq<char>, c: char, y: int, x: int, cur: (int, int), rows: int, cols: int)
    requires
        0 <= y < rows,
        row.len() <= cols,
        0 <= cur.0 < rows,
        0 <= cur.1 < cols,
        cols > 0,
    ensures
        0 <= row_marker(row, c, y, x, cur).0 < rows,
        0 <= row_marker(row, c, y, x, cur).1 < cols,
    decreases row.len() - x,
{
    if 0 <= x < row.len() {
        lemma_row_marker_bounds(
            row,
            c,
            y,
            x + 1,
            if row[x] == c {
                (y, x)
            } else {
                cur
            },
            rows,
            cols,
        );
    }
}

proof fn lemma_grid_marker_bounds(g: Seq<Seq<char>>, c: char, y: int, cur: (int, int))
    requires
        valid_grid(g),
        0 <= cur.0 < g.len(),
        0 <= cur.1 < g[0].len(),
    ensures
        0 <= grid_marker(g, c, y, cur).0 < g.len(),
        0 <= grid_marker(g, c, y, cur).1 < g[0].len(),
    decreases g.len() - y,
{
    if 0 <= y < g.len() {
        lemma_row_marker_bounds(g[y], c, y, 0, cur, g.len() as int, g[0].len() as int);
        lemma_grid_marker_bounds(g, c, y + 1, row_marker(g[y], c, y, 0, cur));
    }
}

#[verifier::rlimit(60)]
proof fn lemma_row_lows_bounds(row: Seq<char>, y: int, x: int, rows: int, cols: int)
    requires
        0 <= y < rows,
        row.len() <= cols,
    ensures
        forall|m: int|
            0 <= m < row_lows(row, y, x).len() ==> 0 <= (#[trigger] row_lows(row, y, x)[m]).0
                < rows && 0 <= row_lows(row, y, x)[m].1 < cols,
    decreases row.len() - x,
{
    if 0 <= x < row.len() {
        lemma_row_lows_bounds(row, y, x + 1, rows, cols);
        assert forall|m: int|
            0 <= m < row_lows(row, y, x).len() implies 0 <= (#[trigger] row_lows(
            row,
            y,
            x,
        )[m]).0 < rows && 0 <= row_lows(row, y, x)[m].1 < cols by {
            if row[x] == 'a' {
                if m > 0 {
                    assert(row_lows(row, y, x)[m] == row_lows(row, y, x + 1)[m - 1]);
                } else {
                    assert(row_lows(row, y, x)[m] == (y, x));
                }
            } else {
                assert(row_lows(row, y, x)[m] == row_lows(row, y, x + 1)[m]);
            }
        }
    }
}

proof fn lemma_grid_lows_bounds(g: Seq<Seq<char>>, y: int)
    requires
        valid_grid(g),
    ensures
        forall|m: int|
            0 <= m < grid_lows(g, y).len() ==> 0 <= (#[trigger] grid_lows(g, y)[m]).0 < g.len()
                && 0 <= grid_lows(g, y)[m].1 < g[0].len(),
    decreases g.len() - y,
{
    if 0 <= y < g.len() {
        lemma_row_lows_bounds(g[y], y, 0, g.len() as int, g[0].len() as int);
        lemma_grid_lows_bounds(g, y + 1);
        assert forall|m: int|
            0 <= m < grid_lows(g, y).len() implies 0 <= (#[trigger] grid_lows(g, y)[m]).0
            < g.len() && 0 <= grid_lows(g, y)[m].1 < g[0].len() by {
            let head = row_lows(g[y], y, 0);
            if m >= head.len() {
                assert(grid_lows(g, y)[m] == grid_lows(g, y + 1)[m - head.len()]);
            } else {
                assert(grid_lows(g, y)[m] == head[m]);
            }
        }
    }
}

proof fn lemma_best_low_range(g: Seq<Seq<char>>, lows: Seq<(int, int)>, j: int, end: (int, int))
    requires
        g.len() * g[0].len() + 1 <= usize::MAX,
    ensures
        0 < best_low(g, lows, j, end) <= usize::MAX,
    decreases lows.len() - j,
{
    if 0 <= j < lows.len() {
        lemma_best_low_range(g, lows, j + 1, end);
        lemma_steps_range(
            g,
            end,
            init_vis(g, lows[j]),
            seq![lows[j]],
            0,
            (g.len() * g[0].len() + 1) as nat,
        );
    }
}

pub open spec fn min2(a: int, b: int) -> int {
    if a <= b {
        a
    } else {
        b
    }
}

/// The smallest step count from any low point (from the `j`-th on) to `end`,
/// an unreachable low point counting as the largest machine value.
pub open spec fn best_low(
    g: Seq<Seq<char>>,
    lows: Seq<(int, int)>,
    j: int,
    end: (int, int),
) -> int
    decreases lows.len() - j,
{
    if j < 0 || j >= lows.len() {
        usize::MAX as int
    } else {
        let v = day12_steps(g, lows[j], end);
        min2(
            if v == 0 {
                usize::MAX as int
            } else {
                v
            },
            best_low(g, lows, j + 1, end),
        )
    }
}

/// Whether the input is a grid this module's search can walk: a valid grid
/// that fits the machine, with at least one low point.
pub open spec fn day12_ok(s: Seq<char>) -> bool {
    let g = line_seqs(s);
    &&& valid_grid(g)
    &&& g.len() * g[0].len() < usize::MAX
    &&& grid_lows(g, 0).len() > 0
}

proof fn lemma_steps_range(g: Seq<Seq<char>>, end: (int, int), vis: Seq<Seq<bool>>, frontier: Seq<(int, int)>, d: int, fuel: nat)
    requires
        0 <= d,
        d + fuel <= usize::MAX,
    ensures
        0 <= bfs(g, end, vis, frontier, d, fuel) <= usize::MAX,
    decreases fuel,
{
    if !frontier.contains(end) && fuel > 0 {
        let st = process(g, vis, frontier, 0, Seq::empty());
        if st.1.len() > 0 {
            lemma_steps_range(g, end, st.0, st.1, d + 1, (fuel - 1) as nat);
        }
    }
}

/// The shortest climb from `S` to `E`, and the shortest climb to `E` from
/// any low point, both as decimal strings.
pub fn solution(contents: &str) -> (r: (String, String))
    requires
        day12_ok(contents@),
    ensures
        ({
            let g = line_seqs(contents@);
            let s0 = grid_marker(g, 'S', 0, (0, 0));
            let e0 = grid_marker(g, 'E', 0, (0, 0));
            &&& r.0@ == dec_nat(day12_steps(g, s0, e0))
            &&& r.1@ == dec_nat(best_low(g, grid_lows(g, 0), 0, e0))
        }),
{
    let ghost g = line_seqs(contents@);
    proof {
        lemma_grid_marker_bounds(g, 'S', 0, (0, 0));
        lemma_grid_marker_bounds(g, 'E', 0, (0, 0));
        crate::text::lemma_line_lens(contents@);
        assert(g.len() <= g.len() * g[0].len()) by (nonlinear_arith)
            requires
                g[0].len() >= 1 && g.len() >= 0,
        ;
        assert forall|y: int| 0 <= y < g.len() implies (#[trigger] g[y]).len()
            <= usize::MAX by {
            assert(g[y].len() == g[0].len());
            assert(g[0].len() <= g.len() * g[0].len()) by (nonlinear_arith)
                requires
                    g.len() >= 1 && g[0].len() >= 0,
            ;
        }
    }
    let (start, end, grid) = parser(contents);
    let ghost s0 = grid_marker(g, 'S', 0, (0, 0));
    let ghost e0 = grid_marker(g, 'E', 0, (0, 0));
    let result1 = dijkstra(&grid, &start, &end);
    proof {
        lemma_steps_range(g, e0, init_vis(g, s0), seq![s0], 0, (g.len() * g[0].len() + 1) as nat);
    }
    let low_points = get_low_points(&grid);
    let ghost lows = grid_lows(g, 0);
    proof {
        lemma_grid_lows_bounds(g, 0);
    }
    proof {
        lemma_best_low_range(g, lows, 0, e0);
    }
    let mut result2: usize = usize::MAX;
    let mut j: usize = 0;
    while j < low_points.len()
        invariant
            j <= low_points@.len(),
            g == line_seqs(contents@),
            grid.deep_view() == g,
            valid_grid(g),
            g.len() * g[0].len() < usize::MAX,
            lows == grid_lows(g, 0),
            poss(low_points@) == lows,
            low_points@.len() == lows.len(),
            forall|m: int|
                0 <= m < lows.len() ==> 0 <= (#[trigger] lows[m]).0 < g.len() && 0 <= lows[m].1
                    < g[0].len(),
            e0 == grid_marker(g, 'E', 0, (0, 0)),
            posv(end) == e0,
            0 <= e0.0 < g.len() && 0 <= e0.1 < g[0].len(),
            best_low(g, lows, 0, e0) == min2(result2 as int, best_low(g, lows, j as int, e0)),
        decreases low_points.len() - j,
    {
        proof {
            assert(poss(low_points@)[j as int] == lows[j as int]);
        }
        let lp = low_points[j];
        let steps = dijkstra(&grid, &lp, &end);
        let v: usize = if steps == 0 {
            usize::MAX
        } else {
            steps
        };
        proof {
            assert(posv(lp) == lows[j as int]);
            assert(v as int == (if day12_steps(g, lows[j as int], e0) == 0 {
                usize::MAX as int
            } else {
                day12_steps(g, lows[j as int], e0)
            }));
        }
        if v < result2 {
            result2 = v;
        }
        j = j + 1;
    }
    proof {
        assert(best_low(g, lows, lows.len() as int, e0) == usize::MAX as int);
    }
    (usize_string(result1), usize_string(result2))
}

} // verus!
