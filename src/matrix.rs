use vstd::prelude::*;
use vstd::string::StrSliceExecFns;
use vstd::string::StringExecFns;

verus! {

/// A rectangular grid of `width` columns and `height` rows, fully populated.
/// Cell `(x, y)` is column `x` of row `y`.
pub struct Matrix<T> {
    content: Vec<Vec<T>>,
    width: usize,
    height: usize,
}

impl<T> View for Matrix<T> {
    /// The rows, top to bottom; each row holds its cells left to right.
    type V = Seq<Seq<T>>;

    closed spec fn view(&self) -> Seq<Seq<T>> {
        Seq::new(self.content@.len(), |y: int| self.content@[y]@)
    }
}

impl<T> Matrix<T> {
    pub closed spec fn spec_width(&self) -> nat {
        self.width as nat
    }

    pub closed spec fn spec_height(&self) -> nat {
        self.height as nat
    }

    /// Exactly `height` rows, each of exactly `width` cells.
    pub open spec fn wf(&self) -> bool {
        &&& self@.len() == self.spec_height()
        &&& forall|y: int| 0 <= y < self@.len() ==> #[trigger] self@[y].len() == self.spec_width()
    }

    pub open spec fn cell(&self, x: int, y: int) -> T {
        self@[y][x]
    }
}

impl<T: Clone> Matrix<T> {
    /// A matrix of `x` columns and `y` rows, each cell a clone of `default_val`.
    pub fn new(x: usize, y: usize, default_val: T) -> (m: Matrix<T>)
        ensures
            m.wf(),
            m.spec_width() == x,
            m.spec_height() == y,
            forall|i: int, j: int|
                0 <= i < x && 0 <= j < y ==> cloned(default_val, #[trigger] m.cell(i, j)),
    {
        let mut content: Vec<Vec<T>> = Vec::new();
        let mut j: usize = 0;
        while j < y
            invariant
                j <= y,
                content@.len() == j,
                forall|b: int| 0 <= b < j ==> #[trigger] content@[b]@.len() == x,
                forall|a: int, b: int|
                    0 <= a < x && 0 <= b < j ==> cloned(default_val, #[trigger] content@[b]@[a]),
            decreases y - j,
        {
            let mut row: Vec<T> = Vec::new();
            let mut i: usize = 0;
            while i < x
                invariant
                    i <= x,
                    row@.len() == i,
                    forall|a: int| 0 <= a < i ==> cloned(default_val, #[trigger] row@[a]),
                decreases x - i,
            {
                row.push(default_val.clone());
                i = i + 1;
            }
            content.push(row);
            j = j + 1;
        }
        Matrix { content, width: x, height: y }
    }

    /// Replaces the cell at column `x`, row `y`.
    pub fn set(&mut self, x: usize, y: usize, value: T)
        requires
            old(self).wf(),
            x < old(self).spec_width(),
            y < old(self).spec_height(),
        ensures
            final(self).wf(),
            final(self).spec_width() == old(self).spec_width(),
            final(self).spec_height() == old(self).spec_height(),
            final(self)@ == old(self)@.update(y as int, old(self)@[y as int].update(x as int, value)),
    {
        proof {
            assert(self@[y as int] == self.content@[y as int]@);
        }
        let mut row: Vec<T> = Vec::new();
        std::mem::swap(&mut row, &mut self.content[y]);
        row.set(x, value);
        std::mem::swap(&mut row, &mut self.content[y]);
        proof {
            assert(self@ =~= old(self)@.update(y as int, old(self)@[y as int].update(x as int, value)));
        }
    }

    /// The cell at column `x`, row `y`.
    pub fn get(&self, x: usize, y: usize) -> (r: &T)
        requires
            self.wf(),
            x < self.spec_width(),
            y < self.spec_height(),
        ensures
            *r == self.cell(x as int, y as int),
    {
        proof {
            assert(self@[y as int] == self.content@[y as int]@);
        }
        &self.content[y][x]
    }

    pub fn width(&self) -> (r: &usize)
        ensures
            *r == self.spec_width(),
    {
        &self.width
    }

    pub fn height(&self) -> (r: &usize)
        ensures
            *r == self.spec_height(),
    {
        &self.height
    }
}

/// The greatest character count among column `x` of the first `n` rows.
pub open spec fn column_width(rows: Seq<Seq<String>>, x: int, n: int) -> nat
    decreases n,
{
    if n <= 0 {
        0
    } else {
        let m = column_width(rows, x, n - 1);
        let l = rows[n - 1][x]@.len();
        if l > m {
            l
        } else {
            m
        }
    }
}

/// `s` right-aligned in a field of `w` characters.
pub open spec fn pad_left(s: Seq<char>, w: nat) -> Seq<char> {
    if s.len() >= w {
        s
    } else {
        Seq::new((w - s.len()) as nat, |i: int| ' ') + s
    }
}

/// The first `k` cells of `row`, each padded to its column's width,
/// separated by a comma and a space.
pub open spec fn row_text(row: Seq<String>, widths: Seq<nat>, k: int) -> Seq<char>
    decreases k,
{
    if k <= 0 {
        seq![]
    } else if k == 1 {
        pad_left(row[0]@, widths[0])
    } else {
        row_text(row, widths, k - 1) + seq![',', ' '] + pad_left(row[k - 1]@, widths[k - 1])
    }
}

/// The first `n` rows as lines of `w` cells, each line ended by a newline.
pub open spec fn rows_text(rows: Seq<Seq<String>>, widths: Seq<nat>, w: int, n: int) -> Seq<char>
    decreases n,
{
    if n <= 0 {
        seq![]
    } else {
        rows_text(rows, widths, w, n - 1) + row_text(rows[n - 1], widths, w) + seq!['\n']
    }
}

/// Appends `cell` right-aligned in a field of `w` characters.
fn push_padded(out: &mut String, cell: &String, w: usize)
    ensures
        final(out)@ == old(out)@ + pad_left(cell@, w as nat),
{
    let len = cell.as_str().unicode_len();
    let mut k: usize = len;
    while k < w
        invariant
            len == cell@.len(),
            len <= k,
            k == len || k <= w,
            out@ == old(out)@ + Seq::new((k - len) as nat, |i: int| ' '),
        decreases w - k,
    {
        out.push(' ');
        proof {
            assert(out@ =~= old(out)@ + Seq::new((k + 1 - len) as nat, |i: int| ' '));
        }
        k = k + 1;
    }
    let ghost spaces = out@;
    out.append(cell.as_str());
    proof {
        assert(out@ == spaces + cell@);
        if len >= w {
            assert(spaces =~= old(out)@);
        } else {
            assert(out@ =~= old(out)@ + pad_left(cell@, w as nat));
        }
    }
}

impl Matrix<String> {
    /// The width of each column: the greatest character count in it.
    pub open spec fn column_widths(&self) -> Seq<nat> {
        Seq::new(self.spec_width(), |x: int| column_width(self@, x, self.spec_height() as int))
    }

    /// One line per row, cells right-aligned to their column's width and
    /// separated by `, `; nothing at all when there are no cells.
    pub open spec fn rendered(&self) -> Seq<char> {
        if self.spec_width() == 0 {
            seq![]
        } else {
            rows_text(self@, self.column_widths(), self.spec_width() as int, self.spec_height() as int)
        }
    }

    /// Lays the cells out as aligned text.
    pub fn render(&self) -> (r: String)
        requires
            self.wf(),
        ensures
            r@ == self.rendered(),
    {
        let w = self.width;
        let h = self.height;
        let ghost cw = self.column_widths();
        let mut widths: Vec<usize> = Vec::new();
        let mut x: usize = 0;
        while x < w
            invariant
                self.wf(),
                w == self.spec_width(),
                h == self.spec_height(),
                cw == self.column_widths(),
                x <= w,
                widths@.len() == x,
                forall|i: int| 0 <= i < x ==> #[trigger] widths@[i] as nat == cw[i],
            decreases w - x,
        {
            let mut best: usize = 0;
            let mut y: usize = 0;
            while y < h
                invariant
                    self.wf(),
                    w == self.spec_width(),
                    h == self.spec_height(),
                    x < w,
                    y <= h,
                    best as nat == column_width(self@, x as int, y as int),
                decreases h - y,
            {
                proof {
                    assert(self@[y as int] == self.content@[y as int]@);
                }
                let l = self.content[y][x].as_str().unicode_len();
                if l > best {
                    best = l;
                }
                y = y + 1;
            }
            widths.push(best);
            x = x + 1;
        }
        let mut out = String::new();
        if w == 0 {
            return out;
        }
        let mut y: usize = 0;
        while y < h
            invariant
                self.wf(),
                w == self.spec_width(),
                h == self.spec_height(),
                0 < w,
                cw == self.column_widths(),
                widths@.len() == w,
                forall|i: int| 0 <= i < w ==> #[trigger] widths@[i] as nat == cw[i],
                y <= h,
                out@ == rows_text(self@, cw, w as int, y as int),
            decreases h - y,
        {
            let ghost before = out@;
            proof {
                assert(self@[y as int] == self.content@[y as int]@);
            }
            let row = &self.content[y];
            let mut x: usize = 0;
            while x < w
                invariant
                    self.wf(),
                    w == self.spec_width(),
                    h == self.spec_height(),
                    y < h,
                    row@ == self@[y as int],
                    widths@.len() == w,
                    forall|i: int| 0 <= i < w ==> #[trigger] widths@[i] as nat == cw[i],
                    x <= w,
                    out@ == before + row_text(self@[y as int], cw, x as int),
                decreases w - x,
            {
                if x > 0 {
                    out.push(',');
                    out.push(' ');
                }
                push_padded(&mut out, &row[x], widths[x]);
                proof {
                    assert(out@ =~= before + row_text(self@[y as int], cw, x + 1));
                }
                x = x + 1;
            }
            out.push('\n');
            proof {
                assert(out@ =~= rows_text(self@, cw, w as int, y + 1));
            }
            y = y + 1;
        }
        out
    }
}

/// Writing a cell and reading it back gives the value written; every other
/// cell keeps its value.
pub proof fn lemma_set_then_get<T>(before: Matrix<T>, after: Matrix<T>, x: int, y: int, v: T)
    requires
        before.wf(),
        0 <= x < before.spec_width(),
        0 <= y < before.spec_height(),
        after@ == before@.update(y, before@[y].update(x, v)),
    ensures
        after.cell(x, y) == v,
        forall|i: int, j: int|
            0 <= i < before.spec_width() && 0 <= j < before.spec_height() && (i != x || j != y)
                ==> #[trigger] after.cell(i, j) == before.cell(i, j),
{
}

proof fn lemma_column_width(rows: Seq<Seq<String>>, x: int, n: int)
    requires
        0 <= n <= rows.len(),
        forall|j: int| 0 <= j < rows.len() ==> x < #[trigger] rows[j].len(),
    ensures
        forall|j: int| 0 <= j < n ==> #[trigger] rows[j][x]@.len() <= column_width(rows, x, n),
        n > 0 ==> exists|j: int| 0 <= j < n && #[trigger] rows[j][x]@.len() == column_width(rows, x, n),
    decreases n,
{
    if n > 0 {
        lemma_column_width(rows, x, n - 1);
        if rows[n - 1][x]@.len() < column_width(rows, x, n) {
            let j = choose|j: int| 0 <= j < n - 1 && #[trigger] rows[j][x]@.len() == column_width(rows, x, n - 1);
            assert(rows[j][x]@.len() == column_width(rows, x, n));
        }
    }
}

/// In the rendered text every cell of a column takes exactly the column's
/// width, which is the greatest character count among the column's cells.
pub proof fn lemma_render_aligned(m: Matrix<String>, x: int, y: int)
    requires
        m.wf(),
        0 <= x < m.spec_width(),
        0 <= y < m.spec_height(),
    ensures
        pad_left(m.cell(x, y)@, m.column_widths()[x]).len() == m.column_widths()[x],
        forall|j: int| 0 <= j < m.spec_height() ==> #[trigger] m.cell(x, j)@.len() <= m.column_widths()[x],
        exists|j: int| 0 <= j < m.spec_height() && #[trigger] m.cell(x, j)@.len() == m.column_widths()[x],
{
    lemma_column_width(m@, x, m.spec_height() as int);
    assert(m.cell(x, y)@.len() <= m.column_widths()[x]);
    let j = choose|j: int|
        0 <= j < m.spec_height() && #[trigger] m@[j][x]@.len() == column_width(m@, x, m.spec_height() as int);
    assert(m.cell(x, j)@.len() == m.column_widths()[x]);
}

} // verus!
