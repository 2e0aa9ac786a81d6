//! Reading the codes: a mask is cut into cells, and each cell is compared
//! with the templates of the six codes that the game uses.

use vstd::prelude::*;
use crate::img::bitmap::{Rgb, image_height, image_pixels, image_width, pixels_fit};
use crate::img::score::{errors, Part};
use crate::img::{GrayImage, Mask, image_sides, pixel_count_fits};
use crate::recognize::is_mask_of;

verus! {

/// The widest gap in pixels between the two characters of one code.
pub const MAX_CHARACTER_SPACING: u32 = 15;

/// The number of codes that the game uses.
pub const CODE_COUNT: usize = 6;

/// The codes that the game uses, in the order in which their templates are
/// compared.
pub open spec fn codes() -> Seq<u8> {
    seq![0x1Cu8, 0x55u8, 0x7Au8, 0xBDu8, 0xE9u8, 0xFFu8]
}

/// A span of columns or rows: from `start` up to, but without, `end`.
#[derive(Debug, Copy, Clone, PartialEq, Eq, Structural)]
pub struct Location {
    pub start: u32,
    pub end: u32,
}

/// The marks that are set while the first `n` entries of `usage` are gone
/// through: a mark where a run of used entries begins and a mark where it
/// ends. A run that begins at most `max_gap` entries after the end of the one
/// before it continues it: the mark of that end is taken back and none is
/// set.
pub open spec fn marks(usage: Seq<bool>, max_gap: int, n: int) -> Seq<u32>
    decreases n,
{
    if n <= 0 {
        Seq::empty()
    } else {
        let before = marks(usage, max_gap, n - 1);
        let x = n - 1;
        let was_space = x == 0 || !usage[x - 1];
        if usage[x] && was_space {
            if before.len() > 0 && x - before.last() <= max_gap {
                before.drop_last()
            } else {
                before.push(x as u32)
            }
        } else if !usage[x] && !was_space {
            before.push(x as u32)
        } else {
            before
        }
    }
}

/// The spans that an even number of marks stands for.
pub open spec fn spans_of(marks: Seq<u32>) -> Seq<Location> {
    Seq::new(marks.len() / 2, |i: int| Location { start: marks[2 * i], end: marks[2 * i + 1] })
}

/// The columns of the mask, by whether some pixel of them is not zero.
pub open spec fn column_usage(m: Mask) -> Seq<bool> {
    Seq::new(m.width as nat, |x: int| m.column_used(x))
}

/// The rows of the mask, by whether some pixel of them is not zero.
pub open spec fn row_usage(m: Mask) -> Seq<bool> {
    Seq::new(m.height as nat, |y: int| m.row_used(y))
}

/// The marks of the columns of the mask, with the gap between the two
/// characters of a code bridged.
pub open spec fn column_marks(m: Mask) -> Seq<u32> {
    marks(column_usage(m), MAX_CHARACTER_SPACING as int, m.width)
}

/// The marks of the rows of the mask.
pub open spec fn row_marks(m: Mask) -> Seq<u32> {
    marks(row_usage(m), 0, m.height)
}

/// What is said when the mask is blank in all columns or all rows.
pub open spec fn msg_not_found() -> Seq<char> {
    "Matrix items not found"@
}

/// What is said when a run of columns or rows does not end.
pub open spec fn msg_malformed() -> Seq<char> {
    "Matrix items were recognized incorrectly"@
}

/// What is said when the matrix is not square or has fewer than three rows.
pub open spec fn msg_bad_matrix() -> Seq<char> {
    "Bad matrix dimension"@
}

/// What is said when a cell of the matrix holds no code.
pub open spec fn msg_unrecognized() -> Seq<char> {
    "One of matrix items was not recognized"@
}

/// The cells that the mask is cut into, as spans of columns and spans of
/// rows, or what is said when it cannot be cut.
pub open spec fn located(m: Mask) -> Result<(Seq<Location>, Seq<Location>), Seq<char>> {
    let xs = column_marks(m);
    let ys = row_marks(m);
    if xs.len() == 0 || ys.len() == 0 {
        Err(msg_not_found())
    } else if xs.len() % 2 != 0 || ys.len() % 2 != 0 {
        Err(msg_malformed())
    } else {
        Ok((spans_of(xs), spans_of(ys)))
    }
}

/// Marks rise, and lie among the entries gone through.
pub proof fn lemma_marks_rise(usage: Seq<bool>, max_gap: int, n: int)
    requires
        n <= usage.len(),
        n <= u32::MAX,
    ensures
        forall|i: int| 0 <= i < marks(usage, max_gap, n).len() ==> #[trigger] marks(
            usage,
            max_gap,
            n,
        )[i] < n,
        forall|i: int, j: int|
            0 <= i < j < marks(usage, max_gap, n).len() ==> marks(usage, max_gap, n)[i] < marks(
                usage,
                max_gap,
                n,
            )[j],
    decreases n,
{
    if n > 0 {
        lemma_marks_rise(usage, max_gap, n - 1);
        let before = marks(usage, max_gap, n - 1);
        let after = marks(usage, max_gap, n);
        let x = n - 1;
        let was_space = x == 0 || !usage[x - 1];
        if usage[x] && was_space {
            if before.len() > 0 && x - before.last() <= max_gap {
                assert(after == before.drop_last());
                assert forall|i: int| 0 <= i < after.len() implies after[i] == before[i] by {}
            } else {
                assert(after == before.push(x as u32));
            }
        } else if !usage[x] && !was_space {
            assert(after == before.push(x as u32));
        } else {
            assert(after == before);
        }
    }
}

/// Sets the marks for a vector that tells which columns or rows are used.
fn boundary_marks(usage: &Vec<bool>, max_gap: u32) -> (table: Vec<u32>)
    requires
        usage@.len() <= u32::MAX,
    ensures
        table@ == marks(usage@, max_gap as int, usage@.len() as int),
{
    let mut table: Vec<u32> = Vec::new();
    let mut was_space = true;
    let mut x: usize = 0;
    while x < usage.len()
        invariant
            x <= usage@.len() <= u32::MAX,
            was_space == (x == 0 || !usage@[x - 1]),
            table@ == marks(usage@, max_gap as int, x as int),
        decreases usage@.len() - x,
    {
        proof {
            lemma_marks_rise(usage@, max_gap as int, x as int);
        }
        let non_blank = usage[x];
        if non_blank {
            if was_space {
                let same_item = if table.len() > 0 {
                    x as u32 - table[table.len() - 1] <= max_gap
                } else {
                    false
                };
                if same_item {
                    table.pop();
                } else {
                    table.push(x as u32);
                }
            }
            was_space = false;
        } else {
            if !was_space {
                table.push(x as u32);
            }
            was_space = true;
        }
        x += 1;
    }
    table
}

/// Turns an even number of marks into spans.
fn spans(table: &Vec<u32>) -> (r: Vec<Location>)
    requires
        table@.len() % 2 == 0,
    ensures
        r@ == spans_of(table@),
{
    let count: usize = table.len() / 2;
    let mut r: Vec<Location> = Vec::with_capacity(count);
    let mut i: usize = 0;
    while i < count
        invariant
            i <= count,
            count == table@.len() / 2,
            table@.len() % 2 == 0,
            table@.len() <= usize::MAX,
            r@.len() == i,
            forall|k: int| 0 <= k < i ==> r@[k] == spans_of(table@)[k],
        decreases count - i,
    {
        r.push(Location { start: table[i * 2], end: table[i * 2 + 1] });
        i += 1;
    }
    proof {
        assert(r@ =~= spans_of(table@));
    }
    r
}

/// Cuts a mask into cells. Gives the spans of columns and the spans of rows
/// in which something is written; of columns, two that lie at most
/// `MAX_CHARACTER_SPACING` pixels apart count as one.
pub fn locate_matrix_regions(img: &GrayImage) -> (r: Result<(Vec<Location>, Vec<Location>), String>)
    ensures
        match r {
            Ok((columns, rows)) => located(img@) == Ok::<
                (Seq<Location>, Seq<Location>),
                Seq<char>,
            >((columns@, rows@)),
            Err(e) => located(img@) == Err::<(Seq<Location>, Seq<Location>), Seq<char>>(e@),
        },
{
    let columns_used = img.columns_usage();
    let rows_used = img.rows_usage();
    proof {
        assert(columns_used@ =~= column_usage(img@));
        assert(rows_used@ =~= row_usage(img@));
    }
    let matrix_table_x = boundary_marks(&columns_used, MAX_CHARACTER_SPACING);
    let matrix_table_y = boundary_marks(&rows_used, 0);
    if matrix_table_x.len() == 0 || matrix_table_y.len() == 0 {
        return Err("Matrix items not found".to_owned());
    }
    if matrix_table_x.len() % 2 != 0 || matrix_table_y.len() % 2 != 0 {
        return Err("Matrix items were recognized incorrectly".to_owned());
    }
    Ok((spans(&matrix_table_x), spans(&matrix_table_y)))
}

/// The templates of the six codes, as masks.
pub struct MatrixTemplates {
    t_1c: GrayImage,
    t_55: GrayImage,
    t_7a: GrayImage,
    t_bd: GrayImage,
    t_e9: GrayImage,
    t_ff: GrayImage,
}

/// The width in pixels that the sheet of templates must have.
pub const SHEET_WIDTH: u32 = 155;

/// The height in pixels that the sheet of templates must have.
pub const SHEET_HEIGHT: u32 = 20;

/// The tolerance with which the sheet of templates is masked.
pub const SHEET_TOLERANCE: u8 = 1;

/// The color in which the templates are drawn on their sheet.
pub open spec fn sheet_color() -> Rgb {
    Rgb { r: 255, g: 255, b: 255 }
}

/// The places of the templates on their sheet, in the order of `codes`, as
/// left, top, right and bottom edge, the right and the bottom edge left out.
pub open spec fn sheet_places() -> Seq<(int, int, int, int)> {
    seq![
        (0int, 0int, 23int, 19int),
        (23int, 0int, 49int, 20int),
        (49int, 0int, 75int, 19int),
        (75int, 0int, 104int, 20int),
        (104int, 0int, 130int, 20int),
        (130int, 0int, 155int, 20int),
    ]
}

impl View for MatrixTemplates {
    type V = Seq<Mask>;

    /// The six templates in the order of `codes`.
    closed spec fn view(&self) -> Seq<Mask> {
        seq![self.t_1c@, self.t_55@, self.t_7a@, self.t_bd@, self.t_e9@, self.t_ff@]
    }
}

/// The mask has a pixel.
pub open spec fn is_template(m: Mask) -> bool {
    m.wf() && m.width > 0 && m.height > 0
}

impl MatrixTemplates {
    #[verifier::type_invariant]
    spec fn well_formed(self) -> bool {
        &&& is_template(self.t_1c@)
        &&& is_template(self.t_55@)
        &&& is_template(self.t_7a@)
        &&& is_template(self.t_bd@)
        &&& is_template(self.t_e9@)
        &&& is_template(self.t_ff@)
    }

    /// Takes six masks as the templates of the codes 1C, 55, 7A, BD, E9 and
    /// FF. Gives `None` if one of them has no pixel.
    pub fn new(
        t_1c: GrayImage,
        t_55: GrayImage,
        t_7a: GrayImage,
        t_bd: GrayImage,
        t_e9: GrayImage,
        t_ff: GrayImage,
    ) -> (r: Option<Self>)
        ensures
            match r {
                Some(ts) => ts@ == seq![t_1c@, t_55@, t_7a@, t_bd@, t_e9@, t_ff@] && ts@.len()
                    == CODE_COUNT && forall|k: int|
                    0 <= k < 6 ==> is_template(#[trigger] ts@[k]),
                None => !(is_template(t_1c@) && is_template(t_55@) && is_template(t_7a@)
                    && is_template(t_bd@) && is_template(t_e9@) && is_template(t_ff@)),
            },
    {
        if has_pixel(&t_1c) && has_pixel(&t_55) && has_pixel(&t_7a) && has_pixel(&t_bd)
            && has_pixel(&t_e9) && has_pixel(&t_ff) {
            Some(MatrixTemplates { t_1c, t_55, t_7a, t_bd, t_e9, t_ff })
        } else {
            None
        }
    }

    /// Cuts the templates out of their sheet: a bitmap of at least
    /// `SHEET_WIDTH` by `SHEET_HEIGHT` pixels on which the six codes are
    /// drawn in white, side by side, at the places of `sheet_places`. Gives
    /// `None` for a smaller bitmap, and for one with more pixels than can be
    /// read.
    pub fn load_templates(sheet: &bmp::Image) -> (r: Option<Self>)
        ensures
            r.is_some() == (image_width(*sheet) >= SHEET_WIDTH && image_height(*sheet)
                >= SHEET_HEIGHT && pixels_fit(image_width(*sheet), image_height(*sheet))),
            match r {
                Some(ts) => ts@.len() == 6 && forall|k: int|
                    0 <= k < 6 ==> is_template(#[trigger] ts@[k]) && is_mask_of(
                        ts@[k],
                        image_pixels(*sheet),
                        sheet_color(),
                        SHEET_TOLERANCE,
                        sheet_places()[k].0,
                        sheet_places()[k].1,
                        sheet_places()[k].2,
                        sheet_places()[k].3,
                    ),
                None => true,
            },
    {
        let (width, height) = image_sides(sheet);
        if width < SHEET_WIDTH || height < SHEET_HEIGHT || !pixel_count_fits(width, height) {
            return None;
        }
        let color = Rgb::new(255, 255, 255);
        let t_1c = GrayImage::filter(sheet, &color, SHEET_TOLERANCE, 0, 0, 23, 19);
        let t_55 = GrayImage::filter(sheet, &color, SHEET_TOLERANCE, 23, 0, 49, 20);
        let t_7a = GrayImage::filter(sheet, &color, SHEET_TOLERANCE, 49, 0, 75, 19);
        let t_bd = GrayImage::filter(sheet, &color, SHEET_TOLERANCE, 75, 0, 104, 20);
        let t_e9 = GrayImage::filter(sheet, &color, SHEET_TOLERANCE, 104, 0, 130, 20);
        let t_ff = GrayImage::filter(sheet, &color, SHEET_TOLERANCE, 130, 0, 155, 20);
        Some(MatrixTemplates { t_1c, t_55, t_7a, t_bd, t_e9, t_ff })
    }

    /// The templates in the order of `codes`, each with a pixel.
    fn all(&self) -> (r: [&GrayImage; 6])
        ensures
            r@.len() == 6,
            forall|k: int| 0 <= k < 6 ==> (#[trigger] r@[k])@ == self@[k] && is_template(self@[k]),
    {
        proof {
            use_type_invariant(self);
        }
        [&self.t_1c, &self.t_55, &self.t_7a, &self.t_bd, &self.t_e9, &self.t_ff]
    }
}

/// Tells whether a mask has a pixel.
fn has_pixel(img: &GrayImage) -> (r: bool)
    ensures
        r == is_template(img@),
{
    img.width() > 0 && img.height() > 0
}

/// The code of the given place in `codes`.
fn code_at(k: usize) -> (c: u8)
    requires
        k < CODE_COUNT,
    ensures
        c == codes()[k as int],
{
    if k == 0 {
        0x1C
    } else if k == 1 {
        0x55
    } else if k == 2 {
        0x7A
    } else if k == 3 {
        0xBD
    } else if k == 4 {
        0xE9
    } else {
        0xFF
    }
}

/// The part of a mask that is compared with the templates for a cell whose
/// ink has the given hull: the hull without its right column and its bottom
/// row.
pub open spec fn part_of(hull: (int, int, int, int)) -> Part {
    Part { left: hull.0, top: hull.1, width: hull.2 - hull.0, height: hull.3 - hull.1 }
}

/// Template `k` is the best match for the part of the mask: no template
/// differs from the part at fewer pixels, and none before it at as few.
pub open spec fn is_best_match(m: Mask, part: Part, ts: Seq<Mask>, k: int) -> bool {
    &&& 0 <= k < ts.len()
    &&& forall|j: int|
        0 <= j < ts.len() ==> errors(m, part, ts[k], part.height) <= #[trigger] errors(
            m,
            part,
            ts[j],
            part.height,
        )
    &&& forall|j: int|
        0 <= j < k ==> errors(m, part, ts[k], part.height) < #[trigger] errors(
            m,
            part,
            ts[j],
            part.height,
        )
}

/// The cell of the mask in the given span of columns and span of rows reads
/// as `code`: there is ink in it, the hull of the ink is more than one pixel
/// wide and high, and the template of `code`, which is one of the codes of
/// the game, is the best match for the hull.
pub open spec fn reads_as(m: Mask, ts: Seq<Mask>, column: Location, row: Location, code: u8) -> bool {
    exists|hull: (int, int, int, int), k: int|
        {
            &&& #[trigger] m.is_hull(
                column.start as int,
                row.start as int,
                column.end - 1,
                row.end - 1,
                hull,
            )
            &&& hull.0 < hull.2
            &&& hull.1 < hull.3
            &&& #[trigger] is_best_match(m, part_of(hull), ts, k)
            &&& 0 <= k < codes().len()
            &&& code == codes()[k]
        }
}

/// What a cell reads as is one of the six codes of the game.
pub proof fn lemma_read_code_is_known(
    m: Mask,
    ts: Seq<Mask>,
    column: Location,
    row: Location,
    code: u8,
)
    requires
        reads_as(m, ts, column, row, code),
    ensures
        codes().contains(code),
        code == 0x1C || code == 0x55 || code == 0x7A || code == 0xBD || code == 0xE9 || code
            == 0xFF,
{
    let (hull, k) = choose|hull: (int, int, int, int), k: int|
        {
            &&& #[trigger] m.is_hull(
                column.start as int,
                row.start as int,
                column.end - 1,
                row.end - 1,
                hull,
            )
            &&& hull.0 < hull.2
            &&& hull.1 < hull.3
            &&& #[trigger] is_best_match(m, part_of(hull), ts, k)
            &&& 0 <= k < codes().len()
            &&& code == codes()[k]
        };
    assert(codes()[k] == code);
}

/// The cell of the mask in the given span of columns and span of rows holds
/// no code: there is no ink in it, or the hull of the ink is a single column
/// or a single row.
pub open spec fn reads_nothing(m: Mask, column: Location, row: Location) -> bool {
    ||| m.is_blank(column.start as int, row.start as int, column.end - 1, row.end - 1)
    ||| exists|hull: (int, int, int, int)|
        {
            &&& #[trigger] m.is_hull(
                column.start as int,
                row.start as int,
                column.end - 1,
                row.end - 1,
                hull,
            )
            &&& (hull.0 == hull.2 || hull.1 == hull.3)
        }
}

/// Reads the code in one cell of a mask: the hull of the ink in the cell is
/// compared with each template, and the code of the template that differs
/// from it at the fewest pixels is given; of several such, the first in the
/// order of `codes`.
pub fn ocr_matrix_item(
    img: &GrayImage,
    templates: &MatrixTemplates,
    column: &Location,
    row: &Location,
) -> (r: Option<u8>)
    requires
        column.start < column.end <= img@.width,
        row.start < row.end <= img@.height,
    ensures
        templates@.len() == CODE_COUNT,
        match r {
            Some(code) => reads_as(img@, templates@, *column, *row, code) && codes().contains(code),
            None => reads_nothing(img@, *column, *row),
        },
{
    let (x_start, y_start, x_end, y_end) = match img.rect_hull(
        column.start,
        row.start,
        column.end - 1,
        row.end - 1,
    ) {
        Some(v) => v,
        None => {
            return None;
        },
    };
    let ghost hull = (x_start as int, y_start as int, x_end as int, y_end as int);
    if x_start == x_end || y_start == y_end {
        return None;
    }
    let all = templates.all();
    let ghost part = part_of(hull);
    let mut best: usize = 0;
    let mut least: u64 = img.template_match_error_score(
        x_start,
        y_start,
        x_end,
        y_end,
        all[0],
    ).mismatches;
    let mut k: usize = 1;
    while k < CODE_COUNT
        invariant
            1 <= k <= CODE_COUNT,
            best < k,
            all@.len() == 6,
            templates@.len() == 6,
            forall|j: int| 0 <= j < 6 ==> (#[trigger] all@[j])@ == templates@[j] && is_template(
                templates@[j],
            ),
            hull == (x_start as int, y_start as int, x_end as int, y_end as int),
            part == part_of(hull),
            x_start < x_end < img@.width,
            y_start < y_end < img@.height,
            least == errors(img@, part, templates@[best as int], part.height),
            forall|j: int|
                0 <= j < k ==> least <= #[trigger] errors(img@, part, templates@[j], part.height),
            forall|j: int|
                0 <= j < best ==> least < #[trigger] errors(img@, part, templates@[j], part.height),
        decreases CODE_COUNT - k,
    {
        let score = img.template_match_error_score(x_start, y_start, x_end, y_end, all[k]);
        if score.mismatches < least {
            best = k;
            least = score.mismatches;
        }
        k += 1;
    }
    proof {
        assert(is_best_match(img@, part, templates@, best as int));
        assert(reads_as(img@, templates@, *column, *row, codes()[best as int]));
        lemma_read_code_is_known(img@, templates@, *column, *row, codes()[best as int]);
    }
    Some(code_at(best))
}

/// The spans that a mask is cut into lie in it and are not empty.
pub open spec fn spans_lie_in(spans: Seq<Location>, side: int) -> bool {
    forall|i: int| 0 <= i < spans.len() ==> (#[trigger] spans[i]).start < spans[i].end <= side
}

/// The cells that a mask is cut into lie in the mask.
proof fn lemma_located_in(m: Mask)
    requires
        m.wf(),
    ensures
        match located(m) {
            Ok((columns, rows)) => columns.len() > 0 && rows.len() > 0 && spans_lie_in(
                columns,
                m.width,
            ) && spans_lie_in(rows, m.height),
            Err(_) => true,
        },
{
    lemma_marks_rise(column_usage(m), MAX_CHARACTER_SPACING as int, m.width);
    lemma_marks_rise(row_usage(m), 0, m.height);
    let xs = column_marks(m);
    let ys = row_marks(m);
    if xs.len() > 0 && ys.len() > 0 && xs.len() % 2 == 0 && ys.len() % 2 == 0 {
        assert forall|i: int| 0 <= i < spans_of(xs).len() implies (#[trigger] spans_of(
            xs,
        )[i]).start < spans_of(xs)[i].end <= m.width by {
            assert(xs[2 * i] < xs[2 * i + 1]);
        }
        assert forall|i: int| 0 <= i < spans_of(ys).len() implies (#[trigger] spans_of(
            ys,
        )[i]).start < spans_of(ys)[i].end <= m.height by {
            assert(ys[2 * i] < ys[2 * i + 1]);
        }
    }
}

/// The codes of a grid as a sequence of rows.
pub open spec fn rows_view(grid: Seq<Vec<u8>>) -> Seq<Seq<u8>> {
    Seq::new(grid.len(), |i: int| grid[i]@)
}

/// `grid` holds what the cells of the mask read as, row by row: a code for
/// every cell.
pub open spec fn is_matrix_reading(
    m: Mask,
    ts: Seq<Mask>,
    columns: Seq<Location>,
    rows: Seq<Location>,
    grid: Seq<Seq<u8>>,
) -> bool {
    &&& grid.len() == rows.len()
    &&& forall|y: int| 0 <= y < rows.len() ==> (#[trigger] grid[y]).len() == columns.len()
    &&& forall|x: int, y: int|
        0 <= y < rows.len() && 0 <= x < columns.len() ==> reads_as(
            m,
            ts,
            columns[x],
            rows[y],
            #[trigger] grid[y][x],
        )
}

/// `grid` holds what the cells of the mask read as, row by row, each row up
/// to the first cell that holds no code.
pub open spec fn is_conditions_reading(
    m: Mask,
    ts: Seq<Mask>,
    columns: Seq<Location>,
    rows: Seq<Location>,
    grid: Seq<Seq<u8>>,
) -> bool {
    &&& grid.len() == rows.len()
    &&& forall|y: int| 0 <= y < rows.len() ==> (#[trigger] grid[y]).len() <= columns.len()
    &&& forall|x: int, y: int|
        0 <= y < rows.len() && 0 <= x < grid[y].len() ==> reads_as(
            m,
            ts,
            columns[x],
            rows[y],
            #[trigger] grid[y][x],
        )
    &&& forall|y: int|
        0 <= y < rows.len() && (#[trigger] grid[y]).len() < columns.len() ==> reads_nothing(
            m,
            columns[grid[y].len() as int],
            rows[y],
        )
}

/// What reading the matrix off a mask gives: the places of the first and
/// the last column and row, by where they start, and the codes; or what is
/// said when there is no reading.
pub open spec fn is_matrix_result(
    m: Mask,
    ts: Seq<Mask>,
    r: Result<(int, int, int, int, Seq<Seq<u8>>), Seq<char>>,
) -> bool {
    match located(m) {
        Err(e) => r == Err::<(int, int, int, int, Seq<Seq<u8>>), Seq<char>>(e),
        Ok((columns, rows)) => if columns.len() < 3 || columns.len() != rows.len() {
            r == Err::<(int, int, int, int, Seq<Seq<u8>>), Seq<char>>(msg_bad_matrix())
        } else {
            match r {
                Ok((left, top, right, bottom, grid)) => {
                    &&& left == columns[0].start
                    &&& top == rows[0].start
                    &&& right == columns.last().start
                    &&& bottom == rows.last().start
                    &&& is_matrix_reading(m, ts, columns, rows, grid)
                },
                Err(e) => e == msg_unrecognized() && exists|x: int, y: int|
                    0 <= y < rows.len() && 0 <= x < columns.len() && reads_nothing(
                        m,
                        #[trigger] columns[x],
                        #[trigger] rows[y],
                    ),
            }
        },
    }
}

/// What reading the daemon sequences off a mask gives: the codes row by
/// row, or what is said when the mask cannot be cut into cells.
pub open spec fn is_conditions_result(
    m: Mask,
    ts: Seq<Mask>,
    r: Result<Seq<Seq<u8>>, Seq<char>>,
) -> bool {
    match located(m) {
        Err(e) => r == Err::<Seq<Seq<u8>>, Seq<char>>(e),
        Ok((columns, rows)) => match r {
            Ok(grid) => is_conditions_reading(m, ts, columns, rows, grid),
            Err(_) => false,
        },
    }
}

/// Reads the code matrix off a mask. Gives where the first column and the
/// first row of cells start, where the last column and the last row start,
/// and the codes row by row; or an error if the mask cannot be cut into
/// cells, the cells do not make a square of three rows or more, or a cell
/// holds no code.
#[verifier::loop_isolation(false)]
pub fn ocr_matrix(img: &GrayImage, templates: &MatrixTemplates) -> (r: Result<
    (u32, u32, u32, u32, Vec<Vec<u8>>),
    String,
>)
    ensures
        templates@.len() == CODE_COUNT,
        is_matrix_result(
            img@,
            templates@,
            match r {
                Ok(v) => Ok((v.0 as int, v.1 as int, v.2 as int, v.3 as int, rows_view(v.4@))),
                Err(e) => Err(e@),
            },
        ),
{
    let _ = img.width();
    let (columns, rows) = match locate_matrix_regions(img) {
        Ok(x) => x,
        Err(e) => {
            return Err(e);
        },
    };
    proof {
        lemma_located_in(img@);
    }
    if columns.len() < 3 || columns.len() != rows.len() {
        return Err("Bad matrix dimension".to_owned());
    }
    let matrix_dimension: usize = columns.len();
    let left: u32 = columns[0].start;
    let right: u32 = columns[matrix_dimension - 1].start;
    let top: u32 = rows[0].start;
    let bottom: u32 = rows[matrix_dimension - 1].start;
    let mut result: Vec<Vec<u8>> = Vec::with_capacity(matrix_dimension);
    let mut y: usize = 0;
    while y < rows.len()
        invariant
            y <= rows@.len(),
            spans_lie_in(columns@, img@.width),
            spans_lie_in(rows@, img@.height),
            result@.len() == y,
            forall|y2: int| 0 <= y2 < y ==> (#[trigger] result@[y2])@.len() == columns@.len(),
            forall|x2: int, y2: int|
                0 <= y2 < y && 0 <= x2 < columns@.len() ==> reads_as(
                    img@,
                    templates@,
                    columns@[x2],
                    rows@[y2],
                    #[trigger] result@[y2]@[x2],
                ),
        decreases rows@.len() - y,
    {
        let mut matrix_row: Vec<u8> = Vec::with_capacity(matrix_dimension);
        let mut x: usize = 0;
        while x < columns.len()
            invariant
                x <= columns@.len(),
                y < rows@.len(),
                spans_lie_in(columns@, img@.width),
                spans_lie_in(rows@, img@.height),
                matrix_row@.len() == x,
                forall|x2: int|
                    0 <= x2 < x ==> reads_as(
                        img@,
                        templates@,
                        columns@[x2],
                        rows@[y as int],
                        #[trigger] matrix_row@[x2],
                    ),
            decreases columns@.len() - x,
        {
            let matrix_item = match ocr_matrix_item(img, templates, &columns[x], &rows[y]) {
                Some(v) => v,
                None => {
                    proof {
                        assert(reads_nothing(img@, columns@[x as int], rows@[y as int]));
                    }
                    return Err("One of matrix items was not recognized".to_owned());
                },
            };
            matrix_row.push(matrix_item);
            x += 1;
        }
        result.push(matrix_row);
        y += 1;
    }
    proof {
        let grid = rows_view(result@);
        assert forall|x2: int, y2: int|
            0 <= y2 < rows@.len() && 0 <= x2 < columns@.len() implies reads_as(
            img@,
            templates@,
            columns@[x2],
            rows@[y2],
            #[trigger] grid[y2][x2],
        ) by {
            assert(grid[y2][x2] == result@[y2]@[x2]);
        }
    }
    Ok((left, top, right, bottom, result))
}

/// Reads the daemon sequences off a mask, row by row. In each row the codes
/// are read from the left up to the first cell that holds none. Gives an
/// error if the mask cannot be cut into cells.
#[verifier::loop_isolation(false)]
pub fn ocr_conditions(img: &GrayImage, templates: &MatrixTemplates) -> (r: Result<
    Vec<Vec<u8>>,
    String,
>)
    ensures
        templates@.len() == CODE_COUNT,
        is_conditions_result(
            img@,
            templates@,
            match r {
                Ok(grid) => Ok(rows_view(grid@)),
                Err(e) => Err(e@),
            },
        ),
{
    let _ = img.width();
    let (columns, rows) = match locate_matrix_regions(img) {
        Ok(x) => x,
        Err(e) => {
            return Err(e);
        },
    };
    proof {
        lemma_located_in(img@);
    }
    let mut result: Vec<Vec<u8>> = Vec::with_capacity(rows.len());
    let mut y: usize = 0;
    while y < rows.len()
        invariant
            y <= rows@.len(),
            spans_lie_in(columns@, img@.width),
            spans_lie_in(rows@, img@.height),
            result@.len() == y,
            forall|y2: int| 0 <= y2 < y ==> (#[trigger] result@[y2])@.len() <= columns@.len(),
            forall|x2: int, y2: int|
                0 <= y2 < y && 0 <= x2 < result@[y2]@.len() ==> reads_as(
                    img@,
                    templates@,
                    columns@[x2],
                    rows@[y2],
                    #[trigger] result@[y2]@[x2],
                ),
            forall|y2: int|
                0 <= y2 < y && (#[trigger] result@[y2])@.len() < columns@.len() ==> reads_nothing(
                    img@,
                    columns@[result@[y2]@.len() as int],
                    rows@[y2],
                ),
        decreases rows@.len() - y,
    {
        let mut condition_row: Vec<u8> = Vec::with_capacity(columns.len());
        let mut x: usize = 0;
        let mut open = true;
        while x < columns.len() && open
            invariant
                x <= columns@.len(),
                y < rows@.len(),
                spans_lie_in(columns@, img@.width),
                spans_lie_in(rows@, img@.height),
                open ==> condition_row@.len() == x,
                !open ==> condition_row@.len() < columns@.len() && reads_nothing(
                    img@,
                    columns@[condition_row@.len() as int],
                    rows@[y as int],
                ),
                condition_row@.len() <= x,
                forall|x2: int|
                    0 <= x2 < condition_row@.len() ==> reads_as(
                        img@,
                        templates@,
                        columns@[x2],
                        rows@[y as int],
                        #[trigger] condition_row@[x2],
                    ),
            decreases columns@.len() - x + (if open { 1int } else { 0int }),
        {
            match ocr_matrix_item(img, templates, &columns[x], &rows[y]) {
                Some(v) => {
                    condition_row.push(v);
                    x += 1;
                },
                None => {
                    open = false;
                },
            }
        }
        result.push(condition_row);
        y += 1;
    }
    proof {
        let grid = rows_view(result@);
        assert forall|x2: int, y2: int|
            0 <= y2 < rows@.len() && 0 <= x2 < grid[y2].len() implies reads_as(
            img@,
            templates@,
            columns@[x2],
            rows@[y2],
            #[trigger] grid[y2][x2],
        ) by {
            assert(grid[y2][x2] == result@[y2]@[x2]);
        }
    }
    Ok(result)
}

} // verus!
