//! The program grid: a rectangular, row-major character buffer parsed from
//! source text, together with the 2D integer vector type used both for
//! absolute positions on the grid and for movement directions.
use vstd::prelude::*;
use vstd::string::StrSliceExecFns;

use crate::definitions::IGNORED_CHAR;

verus! {

/// A 2D integer coordinate. One representation serves two purposes: an
/// absolute grid position, and a movement delta (one of the four axis-aligned
/// unit vectors).
#[derive(Clone, Copy, PartialEq, Eq, Structural, Debug)]
pub struct Vec2 {
    pub x: isize,
    pub y: isize,
}

impl Vec2 {
    /// Component-wise sum, accumulated in place.
    pub fn add(&mut self, other: Vec2)
        requires
            isize::MIN <= old(self).x + other.x <= isize::MAX,
            isize::MIN <= old(self).y + other.y <= isize::MAX,
        ensures
            final(self).x == old(self).x + other.x,
            final(self).y == old(self).y + other.y,
    {
        self.x += other.x;
        self.y += other.y;
    }
}

/// Why constructing a grid failed.
#[derive(Clone, Copy, PartialEq, Eq, Structural, Debug)]
pub enum GridError {
    /// The source text holds no characters at all (every line is empty).
    Empty,
}

/// The lines of a source text: the text split on `'\n'`, with every
/// ignorable character (carriage return) dropped. A text always has at
/// least one line; a trailing `'\n'` opens a final empty line.
pub open spec fn code_lines(s: Seq<char>) -> Seq<Seq<char>>
    decreases s.len(),
{
    if s.len() == 0 {
        seq![Seq::<char>::empty()]
    } else {
        let rest = code_lines(s.drop_last());
        let c = s.last();
        if c == '\n' {
            rest.push(Seq::<char>::empty())
        } else if c == IGNORED_CHAR {
            rest
        } else {
            rest.update(rest.len() - 1, rest.last().push(c))
        }
    }
}

/// The length of the longest line.
pub open spec fn max_line_len(lines: Seq<Seq<char>>) -> nat
    decreases lines.len(),
{
    if lines.len() == 0 {
        0
    } else {
        let m = max_line_len(lines.drop_last());
        if lines.last().len() > m {
            lines.last().len()
        } else {
            m
        }
    }
}

/// A line right-padded with spaces up to `width`.
pub open spec fn pad_line(line: Seq<char>, width: nat) -> Seq<char> {
    line + Seq::new((width - line.len()) as nat, |i: int| ' ')
}

pub proof fn lemma_code_lines_nonempty(s: Seq<char>)
    ensures
        code_lines(s).len() >= 1,
    decreases s.len(),
{
    if s.len() > 0 {
        lemma_code_lines_nonempty(s.drop_last());
    }
}

pub proof fn lemma_code_lines_count(s: Seq<char>)
    ensures
        code_lines(s).len() <= s.len() + 1,
    decreases s.len(),
{
    if s.len() > 0 {
        lemma_code_lines_count(s.drop_last());
        lemma_code_lines_nonempty(s.drop_last());
        let rest = code_lines(s.drop_last());
        if s.last() == '\n' {
            assert(code_lines(s).len() == rest.len() + 1);
        } else if s.last() == IGNORED_CHAR {
            assert(code_lines(s).len() == rest.len());
        } else {
            assert(code_lines(s).len() == rest.len());
        }
    }
}

pub proof fn lemma_code_lines_line_bound(s: Seq<char>)
    ensures
        forall|i: int|
            0 <= i < code_lines(s).len() ==> (#[trigger] code_lines(s)[i]).len() <= s.len(),
    decreases s.len(),
{
    if s.len() > 0 {
        lemma_code_lines_line_bound(s.drop_last());
        lemma_code_lines_nonempty(s.drop_last());
    }
}

pub proof fn lemma_max_line_len_ge(lines: Seq<Seq<char>>, i: int)
    requires
        0 <= i < lines.len(),
    ensures
        lines[i].len() <= max_line_len(lines),
    decreases lines.len(),
{
    if i < lines.len() - 1 {
        lemma_max_line_len_ge(lines.drop_last(), i);
    }
}

pub proof fn lemma_max_line_len_le(lines: Seq<Seq<char>>, bound: nat)
    requires
        forall|i: int| 0 <= i < lines.len() ==> (#[trigger] lines[i]).len() <= bound,
    ensures
        max_line_len(lines) <= bound,
    decreases lines.len(),
{
    if lines.len() > 0 {
        lemma_max_line_len_le(lines.drop_last(), bound);
    }
}

/// Padding keeps every original character in place and fills the rest of
/// the row with spaces.
pub proof fn lemma_pad_line(line: Seq<char>, width: nat)
    requires
        line.len() <= width,
    ensures
        pad_line(line, width).len() == width,
        forall|j: int| 0 <= j < line.len() ==> pad_line(line, width)[j] == line[j],
        forall|j: int| line.len() <= j < width ==> pad_line(line, width)[j] == ' ',
{
}

/// The view of the rows of a grid: each row as a sequence of characters.
pub open spec fn rows_view(rows: Seq<Vec<char>>) -> Seq<Seq<char>> {
    rows.map_values(|r: Vec<char>| r@)
}

/// What `CodeGrid::from_str` promises of a grid built from `text`.
pub open spec fn grid_parsed(text: Seq<char>, g: CodeGrid) -> bool {
    &&& g.wf()
    &&& g.height == code_lines(text).len()
    &&& g.width == max_line_len(code_lines(text))
    &&& forall|i: int|
        0 <= i < g@.len() ==> #[trigger] g@[i] == pad_line(code_lines(text)[i], g.width as nat)
}

/// The program text laid out as a fixed rectangle of characters. Immutable
/// once constructed: the language has no self-modifying code.
#[derive(Debug)]
pub struct CodeGrid {
    pub grid: Vec<Vec<char>>,
    pub width: usize,
    pub height: usize,
}

impl View for CodeGrid {
    type V = Seq<Seq<char>>;

    open spec fn view(&self) -> Seq<Seq<char>> {
        rows_view(self.grid@)
    }
}

impl CodeGrid {
    /// The grid is a non-degenerate rectangle: `height` rows of exactly
    /// `width` cells each, with both extents at least 1 and small enough
    /// that coordinate arithmetic fits in `isize`.
    pub open spec fn wf(&self) -> bool {
        &&& self@.len() == self.height
        &&& 1 <= self.width <= isize::MAX
        &&& 1 <= self.height <= isize::MAX
        &&& forall|i: int| 0 <= i < self@.len() ==> (#[trigger] self@[i]).len() == self.width
    }

    /// `position` names a cell of the grid.
    pub open spec fn in_bounds(&self, position: Vec2) -> bool {
        &&& 0 <= position.x < self.width
        &&& 0 <= position.y < self.height
    }

    /// The character stored at an in-bounds position.
    pub open spec fn char_at(&self, position: Vec2) -> char {
        self@[position.y as int][position.x as int]
    }

    /// Bounds-safe lookup. Callers normalize wraparound before calling; the
    /// grid itself performs no bounds correction.
    pub fn get(&self, position: Vec2) -> (c: char)
        requires
            self.wf(),
            self.in_bounds(position),
        ensures
            c == self.char_at(position),
    {
        proof {
            assert(self@[position.y as int] == self.grid@[position.y as int]@);
        }
        self.grid[position.y as usize][position.x as usize]
    }

    /// Parses source text into a grid: split on line breaks, drop carriage
    /// returns, take the longest line as the width, and right-pad every
    /// shorter line with spaces. Fails exactly when the text holds no
    /// characters at all, i.e. when every line is empty.
    pub fn from_str(code: &str) -> (result: Result<CodeGrid, GridError>)
        requires
            code@.len() < isize::MAX,
        ensures
            match result {
                Ok(g) => grid_parsed(code@, g),
                Err(e) => e == GridError::Empty,
            },
            result is Err <==> max_line_len(code_lines(code@)) == 0,
    {
        let ghost text = code@;
        let n = code.unicode_len();
        let mut lines: Vec<Vec<char>> = Vec::new();
        let mut current: Vec<char> = Vec::new();
        let mut i: usize = 0;
        while i < n
            invariant
                n == text.len(),
                text == code@,
                i <= n,
                rows_view(lines@).push(current@) == code_lines(text.take(i as int)),
            decreases n - i,
        {
            let c = code.get_char(i);
            proof {
                assert(text.take(i + 1).drop_last() =~= text.take(i as int));
                assert(text.take(i + 1).last() == text[i as int]);
                let prev = code_lines(text.take(i as int));
                if c == '\n' {
                    assert(rows_view(lines@.push(current)).push(Seq::<char>::empty()) =~= prev.push(
                        Seq::<char>::empty(),
                    ));
                } else if c != IGNORED_CHAR {
                    assert(rows_view(lines@).push(current@.push(c)) =~= prev.update(
                        prev.len() - 1,
                        prev.last().push(c),
                    ));
                }
            }
            if c == '\n' {
                lines.push(current);
                current = Vec::new();
            } else if c != IGNORED_CHAR {
                current.push(c);
            }
            i += 1;
        }
        proof {
            assert(text.take(n as int) =~= text);
        }
        lines.push(current);
        proof {
            assert(rows_view(lines@) =~= code_lines(text));
        }
        let ghost all_lines = code_lines(text);

        let mut line_length: usize = 0;
        let mut j: usize = 0;
        while j < lines.len()
            invariant
                rows_view(lines@) == all_lines,
                j <= lines@.len(),
                line_length == max_line_len(all_lines.take(j as int)),
            decreases lines@.len() - j,
        {
            proof {
                assert(all_lines.take(j + 1).drop_last() =~= all_lines.take(j as int));
                assert(all_lines.take(j + 1).last() == all_lines[j as int]);
            }
            if lines[j].len() > line_length {
                line_length = lines[j].len();
            }
            j += 1;
        }
        proof {
            assert(all_lines.take(all_lines.len() as int) =~= all_lines);
        }

        if line_length == 0 {
            return Err(GridError::Empty);
        }

        let height = lines.len();
        proof {
            lemma_code_lines_count(text);
            lemma_code_lines_nonempty(text);
            lemma_code_lines_line_bound(text);
            lemma_max_line_len_le(all_lines, text.len() as nat);
        }
        let mut k: usize = 0;
        while k < height
            invariant
                lines@.len() == height,
                height == all_lines.len(),
                k <= height,
                line_length == max_line_len(all_lines),
                1 <= line_length <= isize::MAX,
                forall|t: int|
                    0 <= t < k ==> #[trigger] lines@[t]@ == pad_line(
                        all_lines[t],
                        line_length as nat,
                    ),
                forall|t: int| k <= t < height ==> #[trigger] lines@[t]@ == all_lines[t],
            decreases height - k,
        {
            proof {
                lemma_max_line_len_ge(all_lines, k as int);
            }
            let ghost orig = all_lines[k as int];
            while lines[k].len() < line_length
                invariant
                    lines@.len() == height,
                    height == all_lines.len(),
                    k < height,
                    1 <= line_length <= isize::MAX,
                    line_length == max_line_len(all_lines),
                    orig == all_lines[k as int],
                    orig.is_prefix_of(lines@[k as int]@),
                    orig.len() <= lines@[k as int]@.len() <= line_length,
                    forall|t: int|
                        orig.len() <= t < lines@[k as int]@.len() ==> #[trigger] lines@[k as
                            int]@[t] == ' ',
                    forall|t: int|
                        0 <= t < k ==> #[trigger] lines@[t]@ == pad_line(
                            all_lines[t],
                            line_length as nat,
                        ),
                    forall|t: int| k < t < height ==> #[trigger] lines@[t]@ == all_lines[t],
                decreases line_length - lines@[k as int]@.len(),
            {
                lines[k].push(' ');
            }
            proof {
                assert(lines@[k as int]@ =~= pad_line(orig, line_length as nat)) by {
                    lemma_pad_line(orig, line_length as nat);
                }
            }
            k += 1;
        }

        let g = CodeGrid { width: line_length, height, grid: lines };
        proof {
            assert(g@.len() == height);
            assert forall|t: int| 0 <= t < g@.len() implies #[trigger] g@[t] == pad_line(
                all_lines[t],
                g.width as nat,
            ) by {
                assert(g@[t] == g.grid@[t]@);
            }
            assert forall|t: int| 0 <= t < g@.len() implies (#[trigger] g@[t]).len()
                == g.width by {
                lemma_max_line_len_ge(all_lines, t);
                lemma_pad_line(all_lines[t], g.width as nat);
            }
        }
        Ok(g)
    }
}

/// Every row of a parsed grid has exactly the width of the longest input
/// line, and every original (non-padding) character keeps its original row
/// and column.
pub proof fn lemma_padding_invariant(text: Seq<char>, g: CodeGrid)
    requires
        grid_parsed(text, g),
    ensures
        g@.len() == code_lines(text).len(),
        forall|i: int| 0 <= i < g@.len() ==> (#[trigger] g@[i]).len() == max_line_len(
            code_lines(text),
        ),
        forall|i: int, j: int|
            0 <= i < code_lines(text).len() && 0 <= j < code_lines(text)[i].len()
                ==> #[trigger] g@[i][j] == code_lines(text)[i][j],
{
    assert forall|i: int, j: int|
        0 <= i < code_lines(text).len() && 0 <= j < code_lines(text)[i].len()
        implies #[trigger] g@[i][j] == code_lines(text)[i][j] by {
        lemma_max_line_len_ge(code_lines(text), i);
        lemma_pad_line(code_lines(text)[i], g.width as nat);
    }
}

} // verus!
