use crate::text::{chars_of, dec_nat, is_digit, lemma_deep_view_chars, line_seqs, split_lines};
use crate::text::usize_string;
use vstd::prelude::*;

verus! {

/// One tree: its height digit and whether it can be seen from outside.
#[derive(Debug, Clone)]
pub struct TreeInForest {
    pub height: u8,
    pub visible: bool,
}

impl TreeInForest {
    /// A tree of the given height, not yet marked visible.
    pub fn new(height: u8) -> (r: TreeInForest)
        ensures
            r.height == height,
            !r.visible,
    {
        TreeInForest { height, visible: false }
    }
}

/// The forest, one vector per column, indexed `[column][line]`.
pub type Forest = Vec<Vec<TreeInForest>>;

/// The columns of the forest as sequences.
pub open spec fn fview(f: Seq<Vec<TreeInForest>>) -> Seq<Seq<TreeInForest>> {
    f.map_values(|c: Vec<TreeInForest>| c@)
}

/// Whether the grid text is well-formed: at least two lines, all of the
/// second line's length, holding only digits.
pub open spec fn day8_ok(s: Seq<char>) -> bool {
    let ls = line_seqs(s);
    &&& ls.len() >= 2
    &&& forall|l: int| 0 <= l < ls.len() ==> (#[trigger] ls[l]).len() == ls[1].len()
    &&& forall|l: int, c: int|
        0 <= l < ls.len() && 0 <= c < ls[1].len() ==> is_digit(#[trigger] ls[l][c])
}

/// The height of the tree in column `c` of line `l`.
pub open spec fn height_at(ls: Seq<Seq<char>>, c: int, l: int) -> int {
    ls[l][c] as u32 - 48
}

/// Whether the tree at `(c, l)` can be seen from outside the grid: it stands
/// on an edge, or is strictly taller than everything in one of the four
/// directions.
pub open spec fn visible_at(ls: Seq<Seq<char>>, c: int, l: int) -> bool {
    let cols = ls[1].len() as int;
    let rows = ls.len() as int;
    ||| c == 0
    ||| l == 0
    ||| c == cols - 1
    ||| l == rows - 1
    ||| (forall|k: int| 0 <= k < c ==> height_at(ls, k, l) < height_at(ls, c, l))
    ||| (forall|k: int| c < k < cols ==> height_at(ls, k, l) < height_at(ls, c, l))
    ||| (forall|m: int| 0 <= m < l ==> height_at(ls, c, m) < height_at(ls, c, l))
    ||| (forall|m: int| l < m < rows ==> height_at(ls, c, m) < height_at(ls, c, l))
}

/// Whether every tree left of `(c, l)` is strictly lower.
fn all_lower_left(lines: &Vec<Vec<char>>, c: usize, l: usize) -> (r: bool)
    requires
        l < lines@.len(),
        c < lines@[l as int]@.len(),
    ensures
        r == forall|k: int|
            0 <= k < c ==> height_at(lines.deep_view(), k, l as int) < height_at(
                lines.deep_view(),
                c as int,
                l as int,
            ),
{
    proof {
        lemma_deep_view_chars(lines);
    }
    let ghost dv = lines.deep_view();
    let h = lines[l][c] as u32;
    let mut k: usize = 0;
    while k < c
        invariant
            k <= c,
            l < lines@.len(),
            c < lines@[l as int]@.len(),
            dv == lines.deep_view(),
            dv.len() == lines@.len(),
            forall|i: int| 0 <= i < lines@.len() ==> #[trigger] dv[i] == lines@[i]@,
            h - 48 == height_at(dv, c as int, l as int),
            forall|m: int| 0 <= m < k ==> height_at(dv, m, l as int) < h - 48,
        decreases c - k,
    {
        if lines[l][k] as u32 >= h {
            proof {
                assert(height_at(dv, k as int, l as int) >= h - 48);
            }
            return false;
        }
        k = k + 1;
    }
    true
}

/// Whether every tree right of `(c, l)` is strictly lower.
fn all_lower_right(lines: &Vec<Vec<char>>, c: usize, l: usize) -> (r: bool)
    requires
        l < lines@.len(),
        c < lines@[l as int]@.len(),
    ensures
        r == forall|k: int|
            c < k < lines@[l as int]@.len() ==> height_at(lines.deep_view(), k, l as int)
                < height_at(lines.deep_view(), c as int, l as int),
{
    proof {
        lemma_deep_view_chars(lines);
    }
    let ghost dv = lines.deep_view();
    let h = lines[l][c] as u32;
    let n = lines[l].len();
    let mut k: usize = c + 1;
    while k < n
        invariant
            c < k <= n,
            l < lines@.len(),
            n == lines@[l as int]@.len(),
            dv == lines.deep_view(),
            dv.len() == lines@.len(),
            forall|i: int| 0 <= i < lines@.len() ==> #[trigger] dv[i] == lines@[i]@,
            h - 48 == height_at(dv, c as int, l as int),
            forall|m: int| c < m < k ==> height_at(dv, m, l as int) < h - 48,
        decreases n - k,
    {
        if lines[l][k] as u32 >= h {
            proof {
                assert(height_at(dv, k as int, l as int) >= h - 48);
            }
            return false;
        }
        k = k + 1;
    }
    true
}

/// Whether every tree above `(c, l)` is strictly lower.
fn all_lower_up(lines: &Vec<Vec<char>>, c: usize, l: usize) -> (r: bool)
    requires
        l < lines@.len(),
        c < lines@[l as int]@.len(),
        forall|m: int|
            0 <= m < lines@.len() ==> (#[trigger] lines@[m]@).len() == lines@[l as int]@.len(),
    ensures
        r == forall|m: int|
            0 <= m < l ==> height_at(lines.deep_view(), c as int, m) < height_at(
                lines.deep_view(),
                c as int,
                l as int,
            ),
{
    proof {
        lemma_deep_view_chars(lines);
    }
    let ghost dv = lines.deep_view();
    let h = lines[l][c] as u32;
    let mut m: usize = 0;
    while m < l
        invariant
            m <= l,
            l < lines@.len(),
            c < lines@[l as int]@.len(),
            dv == lines.deep_view(),
            dv.len() == lines@.len(),
            forall|i: int| 0 <= i < lines@.len() ==> #[trigger] dv[i] == lines@[i]@,
            forall|i: int|
                0 <= i < lines@.len() ==> (#[trigger] lines@[i]@).len()
                    == lines@[l as int]@.len(),
            h - 48 == height_at(dv, c as int, l as int),
            forall|i: int| 0 <= i < m ==> height_at(dv, c as int, i) < h - 48,
        decreases l - m,
    {
        if lines[m][c] as u32 >= h {
            proof {
                assert(height_at(dv, c as int, m as int) >= h - 48);
            }
            return false;
        }
        m = m + 1;
    }
    true
}

/// Whether every tree below `(c, l)` is strictly lower.
fn all_lower_down(lines: &Vec<Vec<char>>, c: usize, l: usize) -> (r: bool)
    requires
        l < lines@.len(),
        c < lines@[l as int]@.len(),
        forall|m: int|
            0 <= m < lines@.len() ==> (#[trigger] lines@[m]@).len() == lines@[l as int]@.len(),
    ensures
        r == forall|m: int|
            l < m < lines@.len() ==> height_at(lines.deep_view(), c as int, m) < height_at(
                lines.deep_view(),
                c as int,
                l as int,
            ),
{
    proof {
        lemma_deep_view_chars(lines);
    }
    let ghost dv = lines.deep_view();
    let h = lines[l][c] as u32;
    let rows = lines.len();
    let mut m: usize = l + 1;
    while m < rows
        invariant
            l < m <= rows,
            rows == lines@.len(),
            c < lines@[l as int]@.len(),
            dv == lines.deep_view(),
            dv.len() == lines@.len(),
            forall|i: int| 0 <= i < lines@.len() ==> #[trigger] dv[i] == lines@[i]@,
            forall|i: int|
                0 <= i < lines@.len() ==> (#[trigger] lines@[i]@).len()
                    == lines@[l as int]@.len(),
            h - 48 == height_at(dv, c as int, l as int),
            forall|i: int| l < i < m ==> height_at(dv, c as int, i) < h - 48,
        decreases rows - m,
    {
        if lines[m][c] as u32 >= h {
            proof {
                assert(height_at(dv, c as int, m as int) >= h - 48);
            }
            return false;
        }
        m = m + 1;
    }
    true
}

/// Build the forest from the grid text: column-major, each tree with its
/// height and visibility; `None` exactly when the text is not a digit grid
/// of at least two equally long lines.
pub fn parser(input: &str) -> (r: Option<Forest>)
    ensures
        r is Some <==> day8_ok(input@),
        r is Some ==> ({
            let ls = line_seqs(input@);
            let f = fview(r->Some_0@);
            &&& f.len() == ls[1].len()
            &&& forall|c: int| 0 <= c < f.len() ==> (#[trigger] f[c]).len() == ls.len()
            &&& forall|c: int, l: int|
                0 <= c < f.len() && 0 <= l < ls.len() ==> (#[trigger] f[c][l]).height == height_at(
                    ls,
                    c,
                    l,
                ) && f[c][l].visible == visible_at(ls, c, l)
            &&& f == day8_forest(ls)
        }),
{
    let ghost ls = line_seqs(input@);
    let chars = chars_of(input);
    let lines = split_lines(&chars);
    proof {
        lemma_deep_view_chars(&lines);
    }
    if lines.len() < 2 {
        return None;
    }
    let rows = lines.len();
    let cols = lines[1].len();
    let mut l: usize = 0;
    while l < rows
        invariant
            l <= rows,
            rows >= 2,
            rows == lines@.len(),
            ls == line_seqs(input@),
            lines@.len() == ls.len(),
            forall|i: int| 0 <= i < lines@.len() ==> #[trigger] lines@[i]@ == ls[i],
            cols == ls[1].len(),
            forall|i: int| 0 <= i < l ==> (#[trigger] ls[i]).len() == cols,
            forall|i: int, c: int| 0 <= i < l && 0 <= c < cols ==> is_digit(#[trigger] ls[i][c]),
        decreases rows - l,
    {
        if lines[l].len() != cols {
            return None;
        }
        let mut c: usize = 0;
        while c < cols
            invariant
                c <= cols,
                l < rows,
                rows >= 2,
                rows == lines@.len(),
                ls == line_seqs(input@),
                lines@.len() == ls.len(),
                forall|i: int| 0 <= i < lines@.len() ==> #[trigger] lines@[i]@ == ls[i],
                cols == ls[1].len(),
                ls[l as int].len() == cols,
                forall|k: int| 0 <= k < c ==> is_digit(#[trigger] ls[l as int][k]),
            decreases cols - c,
        {
            let ch = lines[l][c] as u32;
            if ch < 48 || ch > 57 {
                proof {
                    assert(!is_digit(ls[l as int][c as int]));
                }
                return None;
            }
            c = c + 1;
        }
        l = l + 1;
    }
    proof {
        assert(day8_ok(input@));
    }
    let mut forest: Forest = Vec::new();
    let mut c: usize = 0;
    while c < cols
        invariant
            c <= cols,
            rows == lines@.len(),
            rows >= 2,
            ls == line_seqs(input@),
            lines.deep_view() == ls,
            lines@.len() == ls.len(),
            forall|i: int| 0 <= i < lines@.len() ==> #[trigger] lines@[i]@ == ls[i],
            cols == ls[1].len(),
            forall|i: int| 0 <= i < ls.len() ==> (#[trigger] ls[i]).len() == cols,
            forall|i: int, k: int|
                0 <= i < ls.len() && 0 <= k < cols ==> is_digit(#[trigger] ls[i][k]),
            forest@.len() == c,
            forall|k: int| 0 <= k < c ==> (#[trigger] forest@[k]@).len() == rows,
            forall|k: int, m: int|
                0 <= k < c && 0 <= m < rows ==> (#[trigger] forest@[k]@[m]).height == height_at(
                    ls,
                    k,
                    m,
                ) && forest@[k]@[m].visible == visible_at(ls, k, m),
        decreases cols - c,
    {
        let mut col: Vec<TreeInForest> = Vec::new();
        let mut l: usize = 0;
        while l < rows
            invariant
                l <= rows,
                c < cols,
                rows == lines@.len(),
                rows >= 2,
                lines.deep_view() == ls,
                lines@.len() == ls.len(),
                forall|i: int| 0 <= i < lines@.len() ==> #[trigger] lines@[i]@ == ls[i],
                cols == ls[1].len(),
                forall|i: int| 0 <= i < ls.len() ==> (#[trigger] ls[i]).len() == cols,
                forall|i: int, k: int|
                    0 <= i < ls.len() && 0 <= k < cols ==> is_digit(#[trigger] ls[i][k]),
                col@.len() == l,
                forall|m: int|
                    0 <= m < l ==> (#[trigger] col@[m]).height == height_at(ls, c as int, m)
                        && col@[m].visible == visible_at(ls, c as int, m),
            decreases rows - l,
        {
            let u = lines[l][c] as u32;
            let h = (u - 48) as u8;
            let visible: bool = if c == 0 || l == 0 || c == cols - 1 || l == rows - 1 {
                true
            } else {
                all_lower_left(&lines, c, l) || all_lower_right(&lines, c, l) || all_lower_up(
                    &lines,
                    c,
                    l,
                ) || all_lower_down(&lines, c, l)
            };
            proof {
                assert(visible == visible_at(ls, c as int, l as int));
            }
            col.push(TreeInForest { height: h, visible });
            l = l + 1;
        }
        forest.push(col);
        c = c + 1;
    }
    proof {
        assert(fview(forest@) =~~= day8_forest(ls));
    }
    Some(forest)
}

/// The forest that the grid text describes.
pub open spec fn day8_forest(ls: Seq<Seq<char>>) -> Seq<Seq<TreeInForest>> {
    Seq::new(
        ls[1].len(),
        |c: int|
            Seq::new(
                ls.len(),
                |l: int|
                    TreeInForest {
                        height: (ls[l][c] as u32 - 48) as u8,
                        visible: visible_at(ls, c, l),
                    },
            ),
    )
}

/// The viewing distance to the left: how many trees are seen from `(x, y)`
/// looking toward column 0, scanning from column `k` down.
pub open spec fn left_from(f: Seq<Seq<TreeInForest>>, x: int, y: int, k: int) -> int
    decreases k + 1,
{
    if k < 0 {
        x
    } else if f[k][y].height >= f[x][y].height {
        x - k
    } else {
        left_from(f, x, y, k - 1)
    }
}

/// The viewing distance to the right, scanning from column `k` up.
pub open spec fn right_from(f: Seq<Seq<TreeInForest>>, x: int, y: int, k: int) -> int
    decreases f.len() - k,
{
    if k >= f.len() {
        f.len() - 1 - x
    } else if f[k][y].height >= f[x][y].height {
        k - x
    } else {
        right_from(f, x, y, k + 1)
    }
}

/// The viewing distance upward, scanning from line `m` down.
pub open spec fn up_from(f: Seq<Seq<TreeInForest>>, x: int, y: int, m: int) -> int
    decreases m + 1,
{
    if m < 0 {
        y
    } else if f[x][m].height >= f[x][y].height {
        y - m
    } else {
        up_from(f, x, y, m - 1)
    }
}

/// The viewing distance downward, scanning from line `m` up.
pub open spec fn down_from(f: Seq<Seq<TreeInForest>>, x: int, y: int, m: int) -> int
    decreases f[x].len() - m,
{
    if m >= f[x].len() {
        f[x].len() - 1 - y
    } else if f[x][m].height >= f[x][y].height {
        m - y
    } else {
        down_from(f, x, y, m + 1)
    }
}

/// The scenic score of `(x, y)`: 0 on an edge, else the product of the four
/// viewing distances.
pub open spec fn scenic(f: Seq<Seq<TreeInForest>>, x: int, y: int) -> int {
    if x == f.len() - 1 || y == f[0].len() - 1 || x == 0 || y == 0 {
        0
    } else {
        left_from(f, x, y, x - 1) * right_from(f, x, y, x + 1) * up_from(f, x, y, y - 1)
            * down_from(f, x, y, y + 1)
    }
}

proof fn lemma_left_range(f: Seq<Seq<TreeInForest>>, x: int, y: int, k: int)
    requires
        0 <= k < x,
    ensures
        x - k <= left_from(f, x, y, k) <= x,
    decreases k + 1,
{
    if !(f[k][y].height >= f[x][y].height) {
        if k > 0 {
            lemma_left_range(f, x, y, k - 1);
        } else {
            assert(left_from(f, x, y, -1) == x);
        }
    }
}

proof fn lemma_right_range(f: Seq<Seq<TreeInForest>>, x: int, y: int, k: int)
    requires
        x + 1 <= k < f.len(),
        x >= 0,
    ensures
        k - x <= right_from(f, x, y, k) <= f.len() - 1 - x,
    decreases f.len() - k,
{
    if !(f[k][y].height >= f[x][y].height) {
        if k + 1 < f.len() {
            lemma_right_range(f, x, y, k + 1);
        } else {
            assert(right_from(f, x, y, k + 1) == f.len() - 1 - x);
        }
    }
}

proof fn lemma_up_range(f: Seq<Seq<TreeInForest>>, x: int, y: int, m: int)
    requires
        0 <= m < y,
    ensures
        y - m <= up_from(f, x, y, m) <= y,
    decreases m + 1,
{
    if !(f[x][m].height >= f[x][y].height) {
        if m > 0 {
            lemma_up_range(f, x, y, m - 1);
        } else {
            assert(up_from(f, x, y, -1) == y);
        }
    }
}

proof fn lemma_down_range(f: Seq<Seq<TreeInForest>>, x: int, y: int, m: int)
    requires
        y + 1 <= m < f[x].len(),
        y >= 0,
    ensures
        m - y <= down_from(f, x, y, m) <= f[x].len() - 1 - y,
    decreases f[x].len() - m,
{
    if !(f[x][m].height >= f[x][y].height) {
        if m + 1 < f[x].len() {
            lemma_down_range(f, x, y, m + 1);
        } else {
            assert(down_from(f, x, y, m + 1) == f[x].len() - 1 - y);
        }
    }
}

/// Whether every column has the first column's length.
pub open spec fn rectangular(f: Seq<Seq<TreeInForest>>) -> bool {
    forall|j: int| 0 <= j < f.len() ==> (#[trigger] f[j]).len() == f[0].len()
}

/// The scenic score of the tree at `(x, y)`: 0 on an edge, else the product
/// of how far it sees in the four directions.
pub fn scenic_score(forest: &Forest, x: usize, y: usize) -> (r: usize)
    requires
        forest@.len() > 0,
        rectangular(fview(forest@)),
        x < forest@.len(),
        y < fview(forest@)[0].len(),
        scenic(fview(forest@), x as int, y as int) <= usize::MAX,
    ensures
        r == scenic(fview(forest@), x as int, y as int),
{
    let ghost f = fview(forest@);
    let max_col = forest.len();
    let max_line = forest[0].len();
    proof {
        assert(f[x as int].len() == f[0].len());
    }
    if x == max_col - 1 || y == max_line - 1 || x == 0 || y == 0 {
        return 0;
    }
    let h = forest[x][y].height;
    let mut k: usize = x;
    let mut left: usize = x;
    let mut found = false;
    while k > 0 && !found
        invariant
            0 <= k <= x,
            x < f.len(),
            y < f[0].len(),
            f == fview(forest@),
            rectangular(f),
            h == f[x as int][y as int].height,
            !found ==> left_from(f, x as int, y as int, x - 1) == left_from(
                f,
                x as int,
                y as int,
                k - 1,
            ),
            found ==> left == left_from(f, x as int, y as int, x - 1),
            !found ==> left == x,
            left <= x,
        decreases k,
    {
        k = k - 1;
        if forest[k][y].height >= h {
            left = x - k;
            found = true;
        }
    }
    proof {
        if !found {
            assert(left_from(f, x as int, y as int, -1) == x);
        }
        if 0 < x {
            lemma_left_range(f, x as int, y as int, x - 1);
        }
    }
    let mut right: usize = max_col - 1 - x;
    k = x + 1;
    found = false;
    while k < max_col && !found
        invariant
            x + 1 <= k <= f.len(),
            x < f.len(),
            y < f[0].len(),
            max_col == f.len(),
            f == fview(forest@),
            rectangular(f),
            h == f[x as int][y as int].height,
            !found ==> right_from(f, x as int, y as int, x + 1) == right_from(
                f,
                x as int,
                y as int,
                k as int,
            ),
            found ==> right == right_from(f, x as int, y as int, x + 1),
            !found ==> right == f.len() - 1 - x,
            right <= f.len() - 1 - x,
        decreases f.len() - k, 1int - (if found {
            1int
        } else {
            0int
        }),
    {
        if forest[k][y].height >= h {
            right = k - x;
            found = true;
        } else {
            k = k + 1;
        }
    }
    proof {
        lemma_right_range(f, x as int, y as int, x + 1);
    }
    let mut up: usize = y;
    let mut m: usize = y;
    found = false;
    while m > 0 && !found
        invariant
            0 <= m <= y,
            x < f.len(),
            y < f[0].len(),
            f == fview(forest@),
            rectangular(f),
            h == f[x as int][y as int].height,
            !found ==> up_from(f, x as int, y as int, y - 1) == up_from(
                f,
                x as int,
                y as int,
                m - 1,
            ),
            found ==> up == up_from(f, x as int, y as int, y - 1),
            !found ==> up == y,
            up <= y,
        decreases m,
    {
        m = m - 1;
        if forest[x][m].height >= h {
            up = y - m;
            found = true;
        }
    }
    proof {
        if 0 < y {
            lemma_up_range(f, x as int, y as int, y - 1);
        }
    }
    let mut down: usize = max_line - 1 - y;
    m = y + 1;
    found = false;
    while m < max_line && !found
        invariant
            y + 1 <= m <= f[0].len(),
            x < f.len(),
            y < f[0].len(),
            max_line == f[0].len(),
            f == fview(forest@),
            rectangular(f),
            h == f[x as int][y as int].height,
            !found ==> down_from(f, x as int, y as int, y + 1) == down_from(
                f,
                x as int,
                y as int,
                m as int,
            ),
            found ==> down == down_from(f, x as int, y as int, y + 1),
            !found ==> down == f[0].len() - 1 - y,
            down <= f[0].len() - 1 - y,
        decreases f[0].len() - m, 1int - (if found {
            1int
        } else {
            0int
        }),
    {
        if forest[x][m].height >= h {
            down = m - y;
            found = true;
        } else {
            m = m + 1;
        }
    }
    proof {
        lemma_down_range(f, x as int, y as int, y + 1);
        let li = left as int;
        let ri = right as int;
        let ui = up as int;
        let di = down as int;
        assert(1 <= li && 1 <= ri && 1 <= ui && 1 <= di);
        assert(li * ri * ui * di <= usize::MAX);
        assert(li * ri <= li * ri * ui * di) by (nonlinear_arith)
            requires
                1 <= li && 1 <= ri && 1 <= ui && 1 <= di,
        ;
        assert(li * ri * ui <= li * ri * ui * di) by (nonlinear_arith)
            requires
                1 <= li && 1 <= ri && 1 <= ui && 1 <= di,
        ;
    }
    left * right * up * down
}

/// The larger of two values.
pub open spec fn max2(a: int, b: int) -> int {
    if a >= b {
        a
    } else {
        b
    }
}

/// The best scenic score in column `x` from line `y` down.
pub open spec fn best_in_col(f: Seq<Seq<TreeInForest>>, x: int, y: int) -> int
    decreases f[x].len() - y,
{
    if y < 0 || y >= f[x].len() {
        0
    } else {
        max2(scenic(f, x, y), best_in_col(f, x, y + 1))
    }
}

/// The best scenic score over the columns from `x` on.
pub open spec fn best_overall(f: Seq<Seq<TreeInForest>>, x: int) -> int
    decreases f.len() - x,
{
    if x < 0 || x >= f.len() {
        0
    } else {
        max2(best_in_col(f, x, 0), best_overall(f, x + 1))
    }
}

/// How many trees of one column are visible.
pub open spec fn count_col(col: Seq<TreeInForest>) -> int
    decreases col.len(),
{
    if col.len() == 0 {
        0
    } else {
        count_col(col.drop_last()) + if col.last().visible {
            1int
        } else {
            0int
        }
    }
}

/// How many trees of the forest are visible, over the columns from `j` on.
pub open spec fn count_forest(f: Seq<Seq<TreeInForest>>, j: int) -> int
    decreases f.len() - j,
{
    if j < 0 || j >= f.len() {
        0
    } else {
        count_col(f[j]) + count_forest(f, j + 1)
    }
}

proof fn lemma_count_col_range(col: Seq<TreeInForest>)
    ensures
        0 <= count_col(col) <= col.len(),
    decreases col.len(),
{
    if col.len() > 0 {
        lemma_count_col_range(col.drop_last());
    }
}

proof fn lemma_count_forest_nonneg(f: Seq<Seq<TreeInForest>>, j: int)
    ensures
        count_forest(f, j) >= 0,
    decreases f.len() - j,
{
    if 0 <= j < f.len() {
        lemma_count_forest_nonneg(f, j + 1);
        lemma_count_col_range(f[j]);
    }
}

/// Count the visible trees of the whole forest.
pub fn count_visible_trees(forest: &Forest) -> (r: usize)
    requires
        count_forest(fview(forest@), 0) <= usize::MAX,
    ensures
        r == count_forest(fview(forest@), 0),
{
    let ghost f = fview(forest@);
    let mut total: usize = 0;
    let mut j: usize = 0;
    while j < forest.len()
        invariant
            j <= forest@.len(),
            f == fview(forest@),
            f.len() == forest@.len(),
            count_forest(f, 0) <= usize::MAX,
            total == count_forest(f, 0) - count_forest(f, j as int),
            total <= usize::MAX,
        decreases forest.len() - j,
    {
        proof {
            lemma_count_forest_nonneg(f, j as int);
            lemma_count_forest_nonneg(f, j + 1);
            lemma_count_col_range(f[j as int]);
        }
        let col = &forest[j];
        let ghost cv = f[j as int];
        let mut part: usize = 0;
        let mut m: usize = 0;
        proof {
            assert(cv.take(0) =~= Seq::<TreeInForest>::empty());
        }
        while m < col.len()
            invariant
                m <= col@.len(),
                cv == col@,
                part == count_col(cv.take(m as int)),
                part <= m,
            decreases col.len() - m,
        {
            proof {
                assert(cv.take(m + 1).drop_last() =~= cv.take(m as int));
                assert(cv.take(m + 1).last() == cv[m as int]);
            }
            if col[m].visible {
                part = part + 1;
            }
            m = m + 1;
        }
        proof {
            assert(cv.take(col@.len() as int) =~= cv);
            assert(part == count_col(f[j as int]));
        }
        total = total + part;
        j = j + 1;
    }
    total
}

proof fn lemma_scenic_nonneg(f: Seq<Seq<TreeInForest>>, x: int, y: int)
    requires
        rectangular(f),
        0 <= x < f.len(),
        0 <= y < f[0].len(),
    ensures
        scenic(f, x, y) >= 0,
{
    if !(x == f.len() - 1 || y == f[0].len() - 1 || x == 0 || y == 0) {
        lemma_left_range(f, x, y, x - 1);
        lemma_right_range(f, x, y, x + 1);
        lemma_up_range(f, x, y, y - 1);
        assert(f[x].len() == f[0].len());
        lemma_down_range(f, x, y, y + 1);
        let li = left_from(f, x, y, x - 1);
        let ri = right_from(f, x, y, x + 1);
        let ui = up_from(f, x, y, y - 1);
        let di = down_from(f, x, y, y + 1);
        assert(li * ri * ui * di >= 1) by (nonlinear_arith)
            requires
                1 <= li && 1 <= ri && 1 <= ui && 1 <= di,
        ;
    }
}

proof fn lemma_best_in_col_nonneg(f: Seq<Seq<TreeInForest>>, x: int, y: int)
    ensures
        best_in_col(f, x, y) >= 0,
    decreases f[x].len() - y,
{
    if 0 <= y < f[x].len() {
        lemma_best_in_col_nonneg(f, x, y + 1);
    }
}

proof fn lemma_best_overall_nonneg(f: Seq<Seq<TreeInForest>>, x: int)
    ensures
        best_overall(f, x) >= 0,
    decreases f.len() - x,
{
    if 0 <= x < f.len() {
        lemma_best_overall_nonneg(f, x + 1);
        lemma_best_in_col_nonneg(f, x, 0);
    }
}

/// Count the visible trees and find the best scenic score; `None` exactly
/// when the input is not a digit grid.
pub fn solution(contents: &str) -> (r: Option<(String, String)>)
    requires
        day8_ok(contents@) ==> ({
            let f = day8_forest(line_seqs(contents@));
            &&& count_forest(f, 0) <= usize::MAX
            &&& forall|x: int, y: int|
                0 <= x < f.len() && 0 <= y < f[0].len() ==> scenic(f, x, y) <= usize::MAX
        }),
    ensures
        r is Some <==> day8_ok(contents@),
        r is Some ==> ({
            let f = day8_forest(line_seqs(contents@));
            &&& r->Some_0.0@ == dec_nat(count_forest(f, 0))
            &&& r->Some_0.1@ == dec_nat(best_overall(f, 0))
        }),
{
    let forest = match parser(contents) {
        Some(f) => f,
        None => {
            return None;
        },
    };
    let ghost f = day8_forest(line_seqs(contents@));
    proof {
        assert(fview(forest@) == f);
    }
    let result1 = count_visible_trees(&forest);
    let mut best: usize = 0;
    let mut x: usize = 0;
    if forest.len() == 0 {
        proof {
            assert(f.len() == line_seqs(contents@)[1].len());
        }
        let r2: usize = 0;
        proof {
            assert(best_overall(f, 0) == 0);
        }
        return Some((usize_string(result1), usize_string(r2)));
    }
    while x < forest.len()
        invariant
            x <= forest@.len(),
            f == day8_forest(line_seqs(contents@)),
            fview(forest@) == f,
            f.len() == forest@.len(),
            f.len() > 0,
            rectangular(f),
            forall|i: int| 0 <= i < f.len() ==> (#[trigger] f[i]).len() == f[0].len(),
            forall|a: int, b: int|
                0 <= a < f.len() && 0 <= b < f[0].len() ==> scenic(f, a, b) <= usize::MAX,
            max2(best as int, best_overall(f, x as int)) == best_overall(f, 0),
        decreases forest.len() - x,
    {
        let mut y: usize = 0;
        proof {
            assert(f[x as int].len() == f[0].len());
        }
        while y < forest[x].len()
            invariant
                x < forest@.len(),
                y <= f[x as int].len(),
                f == day8_forest(line_seqs(contents@)),
                fview(forest@) == f,
                f.len() == forest@.len(),
                f.len() > 0,
                rectangular(f),
                forall|i: int| 0 <= i < f.len() ==> (#[trigger] f[i]).len() == f[0].len(),
                forall|a: int, b: int|
                    0 <= a < f.len() && 0 <= b < f[0].len() ==> scenic(f, a, b) <= usize::MAX,
                max2(
                    max2(best as int, best_in_col(f, x as int, y as int)),
                    best_overall(f, x + 1),
                ) == best_overall(f, 0),
            decreases forest[x as int].len() - y,
        {
            proof {
                assert(forest@[x as int]@ == f[x as int]);
                lemma_scenic_nonneg(f, x as int, y as int);
                lemma_best_in_col_nonneg(f, x as int, y + 1);
                lemma_best_overall_nonneg(f, x + 1);
            }
            let s = scenic_score(&forest, x, y);
            if s > best {
                best = s;
            }
            y = y + 1;
        }
        proof {
            assert(best_in_col(f, x as int, f[x as int].len() as int) == 0);
            lemma_best_overall_nonneg(f, x + 1);
        }
        x = x + 1;
    }
    proof {
        assert(best_overall(f, f.len() as int) == 0);
        lemma_best_overall_nonneg(f, 0);
    }
    Some((usize_string(result1), usize_string(best)))
}

} // verus!
