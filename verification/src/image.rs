//! Images as row-major grids of colour samples, and their plain-text PPM
//! form.

use vstd::prelude::*;
use vstd::string::StringExecFns;
use crate::text::{
    count,
    decimal,
    join,
    lemma_count_concat,
    lemma_decimal_count,
    lemma_join_count,
    lemma_join_push,
    lemma_separators_are_no_digits,
    push_decimal,
};
use crate::vec3::{channel_text, lemma_channel_text_count, Vec3};

verus! {

/// Why an image could not be built or written.
#[derive(Debug, Copy, Clone, PartialEq, Eq, Structural)]
pub enum ImageError {
    /// The grid has no rows.
    EmptyGrid,
    /// Some row is not as long as the first one.
    RaggedRows,
    /// There are more samples than the limit in force admits.
    TooManyPixels,
    /// Some sample has a component that is above one or is not a number.
    ColourOutOfBounds,
}

/// A grid of samples with its dimensions.
///
/// An image that `new` or `sample` hands out is well formed (`wf`): its
/// dimensions are those of the grid, and the grid is rectangular.
#[derive(Debug)]
pub struct Image {
    pub data: Vec<Vec<Vec3>>,
    pub width: usize,
    pub height: usize,
    pub total_pixels: u64,
}

/// The number of samples above which a writer is meant to hold back: a
/// quarter of five hundred million.
pub const SAMPLE_CEILING: u64 = 125_000_000;

/// What a writer does about large images.
#[derive(Debug, Copy, Clone, PartialEq, Eq, Structural)]
pub struct SinkPolicy {
    /// The largest number of samples that is written when the limit is
    /// enforced.
    pub ceiling: u64,
    /// Whether the limit is enforced. Where it is not, every image is
    /// written.
    pub enforce_size_limit: bool,
}

impl SinkPolicy {
    /// Whether an image of `total_pixels` samples may be written.
    pub open spec fn admits(self, total_pixels: u64) -> bool {
        !self.enforce_size_limit || total_pixels <= self.ceiling
    }
}

/// The rows of a grid, as sequences.
pub open spec fn rows_of(data: Vec<Vec<Vec3>>) -> Seq<Seq<Vec3>> {
    Seq::new(data.len() as nat, |i: int| data[i]@)
}

/// Whether every row has `width` samples.
pub open spec fn rectangular(rows: Seq<Seq<Vec3>>, width: nat) -> bool {
    forall|i: int| 0 <= i < rows.len() ==> (#[trigger] rows[i]).len() == width
}

/// What stands against making an image of `rows`, if anything: the first of
/// no rows at all, rows of differing lengths, and a number of samples that
/// a `u64` cannot hold.
pub open spec fn refusal(rows: Seq<Seq<Vec3>>) -> Option<ImageError> {
    if rows.len() == 0 {
        Some(ImageError::EmptyGrid)
    } else if !rectangular(rows, rows[0].len()) {
        Some(ImageError::RaggedRows)
    } else if rows.len() * rows[0].len() > u64::MAX {
        Some(ImageError::TooManyPixels)
    } else {
        None
    }
}

/// Whether every sample of the grid has a colour text.
pub open spec fn all_have_text(rows: Seq<Seq<Vec3>>) -> bool {
    forall|i: int, j: int|
        0 <= i < rows.len() && 0 <= j < rows[i].len() ==> (#[trigger] rows[i][j]).has_text()
}

/// The colour texts of a row of samples, in order.
pub open spec fn triples(row: Seq<Vec3>) -> Seq<Seq<char>> {
    row.map_values(|v: Vec3| v.colour_text())
}

/// One line of the body: the colour texts of the row, with one space
/// between neighbours.
pub open spec fn row_text(row: Seq<Vec3>) -> Seq<char> {
    join(triples(row), ' ')
}

/// The lines of the body: one for each row, in order.
pub open spec fn lines(rows: Seq<Seq<Vec3>>) -> Seq<Seq<char>> {
    rows.map_values(|row: Seq<Vec3>| row_text(row))
}

/// The three header lines, each closed by a line feed: the magic number
/// `P3`, width and height, and the largest channel value.
pub open spec fn header_text(width: nat, height: nat) -> Seq<char> {
    seq!['P', '3', '\n'] + decimal(width) + seq![' '] + decimal(height) + seq![
        '\n',
        '2',
        '5',
        '5',
        '\n',
    ]
}

/// The whole text: the header, then the lines of the body with a line feed
/// between neighbours. No line feed follows the last line.
pub open spec fn ppm_text(width: nat, height: nat, rows: Seq<Seq<Vec3>>) -> Seq<char> {
    header_text(width, height) + join(lines(rows), '\n')
}

/// What can be written out as plain-text PPM.
pub trait PPM {
    /// The text, where there is one.
    spec fn text(&self) -> Option<Seq<char>>;

    /// The text as a string, or `ColourOutOfBounds` where there is none.
    fn to_string(&self) -> (r: Result<String, ImageError>)
        ensures
            match r {
                Ok(s) => self.text() == Some(s@),
                Err(e) => self.text().is_none() && e == ImageError::ColourOutOfBounds,
            },
    ;
}

impl View for Image {
    type V = Seq<Seq<Vec3>>;

    /// The samples, row by row.
    open spec fn view(&self) -> Seq<Seq<Vec3>> {
        rows_of(self.data)
    }
}

impl Image {
    /// The invariant of an image: at least one row, `height` rows of `width`
    /// samples each, and `total_pixels` their product.
    pub open spec fn wf(&self) -> bool {
        &&& self.height > 0
        &&& self.height == self.data.len()
        &&& rectangular(self@, self.width as nat)
        &&& self.total_pixels == self.width * self.height
    }

    /// Makes an image of a grid, taking the height from the number of rows
    /// and the width from the first row. A grid without rows or with rows of
    /// differing lengths is refused, never cut to shape.
    pub fn new(data: Vec<Vec<Vec3>>) -> (r: Result<Image, ImageError>)
        ensures
            match r {
                Ok(img) => refusal(rows_of(data)).is_none() && img.data == data && img.wf(),
                Err(e) => refusal(rows_of(data)) == Some(e),
            },
    {
        let height = data.len();
        if height == 0 {
            return Err(ImageError::EmptyGrid);
        }
        let width = data[0].len();
        let mut i: usize = 1;
        while i < height
            invariant
                1 <= i <= height,
                height == data.len(),
                width == data[0].len(),
                forall|k: int| 0 <= k < i ==> (#[trigger] rows_of(data)[k]).len() == width,
            decreases height - i,
        {
            if data[i].len() != width {
                assert(rows_of(data)[i as int].len() != width);
                return Err(ImageError::RaggedRows);
            }
            i += 1;
        }
        assert(width * height == height * width) by (nonlinear_arith);
        match (width as u64).checked_mul(height as u64) {
            Some(total) => Ok(Image { data, width, height, total_pixels: total }),
            None => Err(ImageError::TooManyPixels),
        }
    }

    /// An image of `dim + 1` rows of `dim + 1` samples, each drawn from
    /// `source`, row by row. It is refused with `TooManyPixels` where
    /// `dim + 1` is no `usize` or its square is no `u64`, and then nothing is
    /// drawn.
    pub fn sample<F: Fn() -> Vec3>(dim: u64, source: F) -> (r: Result<Image, ImageError>)
        requires
            call_requires(source, ()),
        ensures
            match r {
                Ok(img) => {
                    &&& img.wf()
                    &&& img.width == dim + 1
                    &&& img.height == dim + 1
                    &&& forall|i: int, j: int|
                        0 <= i <= dim && 0 <= j <= dim ==> call_ensures(
                            source,
                            (),
                            #[trigger] img@[i][j],
                        )
                },
                Err(e) => {
                    &&& e == ImageError::TooManyPixels
                    &&& (dim + 1 > usize::MAX || (dim + 1) * (dim + 1) > u64::MAX)
                },
            },
    {
        if dim >= usize::MAX as u64 {
            return Err(ImageError::TooManyPixels);
        }
        let side: usize = (dim + 1) as usize;
        if (side as u64).checked_mul(side as u64).is_none() {
            return Err(ImageError::TooManyPixels);
        }
        let mut grid: Vec<Vec<Vec3>> = Vec::new();
        let mut i: usize = 0;
        while i < side
            invariant
                i <= side,
                grid.len() == i,
                call_requires(source, ()),
                forall|k: int| 0 <= k < i ==> (#[trigger] grid[k]).len() == side,
                forall|k: int, j: int|
                    0 <= k < i && 0 <= j < side ==> call_ensures(source, (), #[trigger] grid[k][j]),
            decreases side - i,
        {
            let mut row: Vec<Vec3> = Vec::new();
            let mut j: usize = 0;
            while j < side
                invariant
                    j <= side,
                    row.len() == j,
                    call_requires(source, ()),
                    forall|k: int| 0 <= k < j ==> call_ensures(source, (), #[trigger] row[k]),
                decreases side - j,
            {
                row.push(source());
                j += 1;
            }
            grid.push(row);
            i += 1;
        }
        let ghost rows = rows_of(grid);
        assert(rectangular(rows, rows[0].len())) by {
            assert forall|k: int| 0 <= k < rows.len() implies (#[trigger] rows[k]).len()
                == rows[0].len() by {
                assert(grid[k].len() == side);
                assert(grid[0].len() == side);
            }
        }
        assert(rows.len() * rows[0].len() == side * side);
        match Image::new(grid) {
            Ok(img) => {
                assert(img.width == side) by {
                    assert(img@[0].len() == side);
                }
                Ok(img)
            },
            // `new` refuses no grid of this shape.
            Err(e) => Err(e),
        }
    }

    /// The text to hand to a sink under `policy`. An image that the policy
    /// does not admit is refused with `TooManyPixels` before any of it is
    /// turned into text; any other image gives what `to_string` gives.
    pub fn text_for_sink(&self, policy: &SinkPolicy) -> (r: Result<String, ImageError>)
        ensures
            match r {
                Ok(s) => policy.admits(self.total_pixels) && self.text() == Some(s@),
                Err(e) => if policy.admits(self.total_pixels) {
                    self.text().is_none() && e == ImageError::ColourOutOfBounds
                } else {
                    e == ImageError::TooManyPixels
                },
            },
    {
        if policy.enforce_size_limit && self.total_pixels > policy.ceiling {
            return Err(ImageError::TooManyPixels);
        }
        self.to_string()
    }
}

/// Appends the line of `row` to `out`, or reports the first sample without
/// a colour text by its place in the row.
fn push_row(out: &mut String, row: &Vec<Vec3>) -> (r: Result<(), usize>)
    ensures
        match r {
            Ok(()) => {
                &&& forall|j: int| 0 <= j < row.len() ==> (#[trigger] row[j]).has_text()
                &&& final(out)@ == old(out)@ + row_text(row@)
            },
            Err(j) => j < row.len() && !row[j as int].has_text(),
        },
{
    let ghost before = out@;
    let mut c: usize = 0;
    while c < row.len()
        invariant
            c <= row.len(),
            forall|j: int| 0 <= j < c ==> (#[trigger] row[j]).has_text(),
            out@ == before + join(triples(row@.take(c as int)), ' '),
        decreases row.len() - c,
    {
        match row[c].colour_fmt() {
            Ok(t) => {
                if c > 0 {
                    out.push(' ');
                }
                out.append(t.as_str());
                proof {
                    let done = triples(row@.take(c as int));
                    lemma_join_push(done, t@, ' ');
                    assert(triples(row@.take(c + 1)) =~= done.push(t@));
                    assert(out@ =~= before + join(triples(row@.take(c + 1)), ' '));
                }
            },
            Err(_) => {
                return Err(c);
            },
        }
        c += 1;
    }
    assert(row@.take(c as int) =~= row@);
    Ok(())
}

impl PPM for Image {
    open spec fn text(&self) -> Option<Seq<char>> {
        if all_have_text(self@) {
            Some(ppm_text(self.width as nat, self.height as nat, self@))
        } else {
            None
        }
    }

    fn to_string(&self) -> (r: Result<String, ImageError>) {
        let mut s = String::new();
        s.push('P');
        s.push('3');
        s.push('\n');
        push_decimal(&mut s, self.width as u64);
        s.push(' ');
        push_decimal(&mut s, self.height as u64);
        s.push('\n');
        s.push('2');
        s.push('5');
        s.push('5');
        s.push('\n');
        let ghost header = s@;
        assert(header =~= header_text(self.width as nat, self.height as nat));
        let mut i: usize = 0;
        while i < self.data.len()
            invariant
                i <= self.data.len(),
                forall|k: int, j: int|
                    0 <= k < i && 0 <= j < self@[k].len() ==> (#[trigger] self@[k][j]).has_text(),
                s@ == header + join(lines(self@.take(i as int)), '\n'),
            decreases self.data.len() - i,
        {
            if i > 0 {
                s.push('\n');
            }
            match push_row(&mut s, &self.data[i]) {
                Ok(()) => {
                    proof {
                        let done = lines(self@.take(i as int));
                        let line = row_text(self@[i as int]);
                        lemma_join_push(done, line, '\n');
                        assert(lines(self@.take(i + 1)) =~= done.push(line));
                        assert(s@ =~= header + join(lines(self@.take(i + 1)), '\n'));
                    }
                },
                Err(j) => {
                    assert(!self@[i as int][j as int].has_text());
                    return Err(ImageError::ColourOutOfBounds);
                },
            }
            i += 1;
        }
        assert(self@.take(i as int) =~= self@);
        Ok(s)
    }
}

/// The samples of a rectangular grid, read row by row, are as many as rows
/// times `width`, and each row is one run of `width` of them: the rows are
/// what cutting the flat sequence into runs of `width` gives.
pub proof fn lemma_row_major(rows: Seq<Seq<Vec3>>, width: nat)
    requires
        rectangular(rows, width),
    ensures
        rows.flatten().len() == rows.len() * width,
        forall|i: int|
            0 <= i < rows.len() ==> rows.flatten().subrange(i * width, (i + 1) * width)
                == #[trigger] rows[i],
    decreases rows.len(),
{
    let n = rows.len() as int;
    if n == 0 {
        assert(rows.flatten() =~= Seq::<Vec3>::empty());
    } else {
        let front = rows.drop_last();
        let last = rows.last();
        lemma_row_major(front, width);
        front.lemma_flatten_push(last);
        assert(front.push(last) =~= rows);
        let flat = rows.flatten();
        assert(flat =~= front.flatten() + last);
        assert((n - 1) * width + width == n * width) by (nonlinear_arith);
        assert forall|i: int| 0 <= i < n implies flat.subrange(i * width, (i + 1) * width)
            == #[trigger] rows[i] by {
            assert((i + 1) * width == i * width + width) by (nonlinear_arith);
            if i < n - 1 {
                assert((i + 1) * width <= (n - 1) * width) by (nonlinear_arith)
                    requires
                        i + 1 <= n - 1,
                ;
                assert(0 <= i * width) by (nonlinear_arith)
                    requires
                        0 <= i,
                ;
                assert(front[i] == rows[i]);
                assert(flat.subrange(i * width, (i + 1) * width) =~= front.flatten().subrange(
                    i * width,
                    (i + 1) * width,
                ));
            } else {
                assert(flat.subrange(i * width, (i + 1) * width) =~= last);
            }
        }
    }
}

/// A colour text is three channel texts: it holds two spaces and no line
/// feed.
pub proof fn lemma_colour_text_shape(v: Vec3)
    ensures
        count(v.colour_text(), ' ') == 2,
        count(v.colour_text(), '\n') == 0,
{
    lemma_separators_are_no_digits();
    let red = channel_text(v.x);
    let green = channel_text(v.y);
    let blue = channel_text(v.z);
    let gap = seq![' '];
    assert(count(gap, ' ') == 1 && count(gap, '\n') == 0) by {
        reveal_with_fuel(count, 2);
    }
    lemma_channel_text_count(v.x, ' ');
    lemma_channel_text_count(v.y, ' ');
    lemma_channel_text_count(v.z, ' ');
    lemma_channel_text_count(v.x, '\n');
    lemma_channel_text_count(v.y, '\n');
    lemma_channel_text_count(v.z, '\n');
    lemma_count_concat(red, gap, ' ');
    lemma_count_concat(red + gap, green, ' ');
    lemma_count_concat(red + gap + green, gap, ' ');
    lemma_count_concat(red + gap + green + gap, blue, ' ');
    lemma_count_concat(red, gap, '\n');
    lemma_count_concat(red + gap, green, '\n');
    lemma_count_concat(red + gap + green, gap, '\n');
    lemma_count_concat(red + gap + green + gap, blue, '\n');
}

/// A line of the body holds the triples of its row and nothing else: with
/// `m > 0` samples it has `3 * m` channel texts, so `3 * m - 1` spaces; with none
/// it is empty. It holds no line feed.
pub proof fn lemma_row_text_shape(row: Seq<Vec3>)
    ensures
        triples(row).len() == row.len(),
        count(row_text(row), '\n') == 0,
        row.len() > 0 ==> count(row_text(row), ' ') == 3 * row.len() - 1,
        row.len() == 0 ==> row_text(row).len() == 0,
{
    let parts = triples(row);
    assert forall|i: int| 0 <= i < parts.len() implies count(#[trigger] parts[i], ' ') == 2
        && count(parts[i], '\n') == 0 by {
        lemma_colour_text_shape(row[i]);
    }
    lemma_join_count(parts, ' ', ' ', 2);
    lemma_join_count(parts, ' ', '\n', 0);
    assert(parts.len() * 0 == 0) by (nonlinear_arith);
    assert(parts.len() * 2 == 2 * parts.len()) by (nonlinear_arith);
}

/// The header holds three line feeds, one at the end of each of its lines.
pub proof fn lemma_header_shape(width: nat, height: nat)
    ensures
        count(header_text(width, height), '\n') == 3,
{
    lemma_separators_are_no_digits();
    let magic = seq!['P', '3', '\n'];
    let gap = seq![' '];
    let tail = seq!['\n', '2', '5', '5', '\n'];
    assert(count(magic, '\n') == 1 && count(gap, '\n') == 0 && count(tail, '\n') == 2) by {
        reveal_with_fuel(count, 6);
    }
    lemma_decimal_count(width, '\n');
    lemma_decimal_count(height, '\n');
    lemma_count_concat(magic, decimal(width), '\n');
    lemma_count_concat(magic + decimal(width), gap, '\n');
    lemma_count_concat(magic + decimal(width) + gap, decimal(height), '\n');
    lemma_count_concat(magic + decimal(width) + gap + decimal(height), tail, '\n');
}

/// The text of a well-formed image of `height` rows and `width` columns:
/// `total_pixels` is the number of samples in the grid; after the three
/// header lines come exactly `height` lines, so the text holds `height + 2`
/// line feeds; and each of those lines holds exactly `width` triples.
pub proof fn lemma_text_shape(img: Image)
    requires
        img.wf(),
    ensures
        img@.flatten().len() == img.total_pixels,
        lines(img@).len() == img.height,
        count(ppm_text(img.width as nat, img.height as nat, img@), '\n') == img.height + 2,
        forall|i: int|
            0 <= i < img.height ==> {
                &&& triples(img@[i]).len() == img.width
                &&& #[trigger] lines(img@)[i] == join(triples(img@[i]), ' ')
                &&& count(lines(img@)[i], '\n') == 0
                &&& img.width > 0 ==> count(lines(img@)[i], ' ') == 3 * img.width - 1
                &&& img.width == 0 ==> lines(img@)[i].len() == 0
            },
{
    let rows = img@;
    let body = lines(rows);
    lemma_row_major(rows, img.width as nat);
    assert(img.height * img.width == img.width * img.height) by (nonlinear_arith);
    assert forall|i: int| 0 <= i < img.height implies {
        &&& triples(rows[i]).len() == img.width
        &&& #[trigger] body[i] == join(triples(rows[i]), ' ')
        &&& count(body[i], '\n') == 0
        &&& img.width > 0 ==> count(body[i], ' ') == 3 * img.width - 1
        &&& img.width == 0 ==> body[i].len() == 0
    } by {
        assert(rows[i].len() == img.width);
        lemma_row_text_shape(rows[i]);
    }
    lemma_join_count(body, '\n', '\n', 0);
    assert(body.len() * 0 == 0) by (nonlinear_arith);
    lemma_header_shape(img.width as nat, img.height as nat);
    lemma_count_concat(
        header_text(img.width as nat, img.height as nat),
        join(body, '\n'),
        '\n',
    );
}

} // verus!
