//! Block glyphs and their composition.
//!
//! A [`Composite`] is the mathematical value of a piece of art text: how many
//! glyphs it holds, the size of one glyph, and its rows of characters. An
//! [`ArtString`] is the executable value; its view is a `Composite`.

use vstd::prelude::*;
use vstd::string::StringExecFns;
use vstd::string::StrSliceExecFns;

use crate::text::lemma_char_code;
use crate::text::line_end;
use crate::text::line_starts;
use crate::text::marks_lines;
use crate::text::split_lines;
use crate::text::to_chars;

verus! {

/// Why a glyph operation was refused.
#[derive(Debug, Clone, Copy, PartialEq, Eq)]
pub enum FontError {
    /// Something the operation needs is missing or too short to be used.
    Resource,
    /// Rows or glyphs whose sizes do not fit together.
    DimensionMismatch,
    /// The character with this code has no glyph.
    GlyphIndex(u32),
}

/// The mathematical value of a piece of art text.
pub struct Composite {
    /// The number of glyphs.
    pub length: nat,
    /// The width of one glyph, in characters.
    pub width: nat,
    /// The number of rows.
    pub height: nat,
    /// The rows, top to bottom.
    pub rows: Seq<Seq<char>>,
    /// Whether the size must be matched exactly when composing.
    pub fixed: bool,
}

/// The smaller of two numbers.
pub open spec fn smaller(a: nat, b: nat) -> nat {
    if a <= b {
        a
    } else {
        b
    }
}

/// `n` space characters.
pub open spec fn blanks(n: nat) -> Seq<char> {
    Seq::new(n, |i: int| ' ')
}

/// Half of the room that `content` leaves in `space`, and 0 where it leaves none.
pub open spec fn padding(space: int, content: int) -> nat {
    if space > content {
        ((space - content) / 2) as nat
    } else {
        0
    }
}

impl Composite {
    /// The composite of no glyph: the identity of concatenation.
    pub open spec fn empty() -> Composite {
        Composite { length: 0, width: 0, height: 0, rows: Seq::empty(), fixed: false }
    }

    /// The number of characters in one row, and 0 where there is no row.
    pub open spec fn row_width(self) -> nat {
        if self.rows.len() > 0 {
            self.rows[0].len()
        } else {
            0
        }
    }

    /// There are `height` rows, all of one length, and the only composite
    /// without glyphs is the empty one.
    pub open spec fn wf(self) -> bool {
        &&& self.rows.len() == self.height
        &&& forall|i: int|
            0 <= i < self.rows.len() ==> (#[trigger] self.rows[i]).len() == self.row_width()
        &&& self.length == 0 ==> self == Composite::empty()
    }

    /// Every row is exactly `width` characters long.
    pub open spec fn rows_have_width(rows: Seq<Seq<char>>, width: nat) -> bool {
        forall|i: int| 0 <= i < rows.len() ==> (#[trigger] rows[i]).len() == width
    }

    /// One glyph of `width` by `height` characters made of `rows`. The rows
    /// must be `height` in number and `width` long each.
    pub open spec fn glyph(width: nat, height: nat, rows: Seq<Seq<char>>, fixed: bool) -> Result<
        Composite,
        FontError,
    > {
        if Self::rows_have_width(rows, width) && rows.len() == height {
            Ok(Composite { length: 1, width, height, rows, fixed })
        } else {
            Err(FontError::DimensionMismatch)
        }
    }

    /// Whether `self` and `other` cannot be put side by side: one of them
    /// insists on its size and the sizes differ.
    pub open spec fn clashes(self, other: Composite) -> bool {
        (self.fixed || other.fixed) && (self.width != other.width || self.height != other.height)
    }

    /// `self` followed by `other`. An operand without glyphs leaves the other
    /// unchanged, whatever their sizes. Otherwise the result takes the smaller
    /// width and the smaller height, and row `i` of it is row `i` of `self`
    /// followed by row `i` of `other`. It fails with `DimensionMismatch`
    /// where the two clash, or hold more glyphs than `usize` can count.
    pub open spec fn concat(self, other: Composite) -> Result<Composite, FontError> {
        if self.length == 0 {
            Ok(other)
        } else if other.length == 0 {
            Ok(self)
        } else if self.clashes(other) || self.length + other.length > usize::MAX {
            Err(FontError::DimensionMismatch)
        } else {
            Ok(
                Composite {
                    length: self.length + other.length,
                    width: smaller(self.width, other.width),
                    height: smaller(self.height, other.height),
                    rows: Seq::new(
                        smaller(self.height, other.height),
                        |i: int| self.rows[i] + other.rows[i],
                    ),
                    fixed: self.fixed || other.fixed,
                },
            )
        }
    }

    /// The number of characters that the glyphs take side by side.
    pub open spec fn content_width(self) -> nat {
        self.length * self.width
    }

    /// The rows of `self` moved to the middle of a terminal of the given size:
    /// each row after `padding(term_width, content_width)` spaces, and below
    /// them `padding(term_height, height)` rows of spaces.
    pub open spec fn padded_rows(self, term_width: int, term_height: int) -> Seq<Seq<char>> {
        let pad_x = padding(term_width, self.content_width() as int);
        let pad_y = padding(term_height, self.height as int);
        Seq::new(
            self.height + pad_y,
            |i: int|
                if i < self.height {
                    blanks(pad_x) + self.rows[i]
                } else {
                    blanks(self.content_width()) + blanks(pad_x)
                },
        )
    }

    /// `self` centred in a terminal of the given size: one glyph made of the
    /// padded rows, as wide as the first of them, with the two paddings.
    /// Content that is larger than the terminal is padded by 0 and kept whole.
    /// It fails with `DimensionMismatch` where the padded rows differ in
    /// length, or the content width does not fit in `usize`.
    pub open spec fn centered(self, term_width: int, term_height: int) -> Result<
        (Composite, nat, nat),
        FontError,
    > {
        let pad_x = padding(term_width, self.content_width() as int);
        let pad_y = padding(term_height, self.height as int);
        let rows = self.padded_rows(term_width, term_height);
        let width = if rows.len() > 0 {
            rows[0].len()
        } else {
            self.content_width() + pad_x
        };
        if self.content_width() > usize::MAX {
            Err(FontError::DimensionMismatch)
        } else {
            match Composite::glyph(width, self.height + pad_y, rows, self.fixed) {
                Ok(glyph) => Ok((glyph, pad_x, pad_y)),
                Err(e) => Err(e),
            }
        }
    }

    /// `centered` for what a terminal told of its size: its columns and
    /// rows, or nothing. Where it told nothing, centring fails with
    /// `Resource`.
    pub open spec fn centered_in(self, size: Option<(u16, u16)>) -> Result<
        (Composite, nat, nat),
        FontError,
    > {
        match size {
            Some((term_width, term_height)) => self.centered(term_width as int, term_height as int),
            None => Err(FontError::Resource),
        }
    }

    /// The rows of `self` as one text, each row followed by a line feed.
    pub open spec fn text(self) -> Seq<char> {
        rows_text(self.rows)
    }
}

/// A glyph that can be made is well formed.
pub proof fn lemma_glyph_wf(width: nat, height: nat, rows: Seq<Seq<char>>, fixed: bool)
    ensures
        Composite::glyph(width, height, rows, fixed) matches Ok(glyph) ==> glyph.wf()
            && glyph.length == 1 && glyph.row_width() == (if height > 0 {
            width
        } else {
            0
        }),
{
}

/// Concatenation keeps composites well formed.
pub proof fn lemma_concat_wf(a: Composite, b: Composite)
    requires
        a.wf(),
        b.wf(),
    ensures
        a.concat(b) matches Ok(c) ==> c.wf(),
{
    if a.length != 0 && b.length != 0 {
        if let Ok(c) = a.concat(b) {
            assert forall|i: int| 0 <= i < c.rows.len() implies (#[trigger] c.rows[i]).len()
                == c.row_width() by {
                assert(a.rows[i].len() == a.row_width());
                assert(b.rows[i].len() == b.row_width());
                assert(a.rows[0].len() == a.row_width());
                assert(b.rows[0].len() == b.row_width());
            }
        }
    }
}

/// The empty composite is the identity of concatenation, on either side and
/// whatever the other operand insists on.
pub proof fn lemma_concat_identity(x: Composite)
    requires
        x.wf(),
    ensures
        Composite::empty().concat(x) == Ok::<Composite, FontError>(x),
        x.concat(Composite::empty()) == Ok::<Composite, FontError>(x),
{
}

/// Two composites with glyphs, of which one insists on its size, cannot be
/// joined where their widths or their heights differ.
pub proof fn lemma_concat_fixed_mismatch(a: Composite, b: Composite)
    requires
        a.length > 0,
        b.length > 0,
        a.fixed || b.fixed,
        a.width != b.width || a.height != b.height,
    ensures
        a.concat(b) == Err::<Composite, FontError>(FontError::DimensionMismatch),
{
}

/// Two composites with glyphs, of which none insists on its size, are joined
/// whatever their sizes: the result takes the smaller width and the smaller
/// height, and holds the glyphs of both.
pub proof fn lemma_concat_loose(a: Composite, b: Composite)
    requires
        a.length > 0,
        b.length > 0,
        !a.fixed,
        !b.fixed,
        a.length + b.length <= usize::MAX,
    ensures
        a.concat(b) matches Ok(c) && c.width == smaller(a.width, b.width) && c.height == smaller(
            a.height,
            b.height,
        ) && c.length == a.length + b.length && !c.fixed,
{
}

/// Centring never cuts the content: each row of the content is a row of the
/// result, after the horizontal padding. Where the content is at least as wide
/// as the terminal, that padding is 0 and the rows stand as they were.
pub proof fn lemma_centered_keeps_content(c: Composite, term_width: int, term_height: int)
    requires
        c.wf(),
    ensures
        c.centered(term_width, term_height) matches Ok((glyph, pad_x, pad_y)) ==> {
            &&& glyph.height == c.height + pad_y
            &&& forall|i: int|
                0 <= i < c.height ==> #[trigger] glyph.rows[i] == blanks(pad_x) + c.rows[i]
            &&& c.content_width() >= term_width ==> pad_x == 0 && forall|i: int|
                0 <= i < c.height ==> #[trigger] glyph.rows[i] == c.rows[i]
            &&& c.height >= term_height ==> pad_y == 0
        },
{
    if let Ok((glyph, pad_x, pad_y)) = c.centered(term_width, term_height) {
        if c.content_width() >= term_width {
            assert forall|i: int| 0 <= i < c.height implies #[trigger] glyph.rows[i]
                == c.rows[i] by {
                assert(blanks(0) + c.rows[i] =~= c.rows[i]);
            }
        }
    }
}

/// Centring succeeds exactly where the content width fits in `usize` and the
/// rows of spaces below the content are as long as its rows.
pub proof fn lemma_centered_ok(c: Composite, term_width: int, term_height: int)
    requires
        c.wf(),
    ensures
        c.centered(term_width, term_height) is Ok <==> c.content_width() <= usize::MAX && (
        c.height == 0 || padding(term_height, c.height as int) == 0 || c.row_width()
            == c.content_width()),
        c.centered(term_width, term_height) matches Ok((glyph, pad_x, pad_y)) ==> glyph.wf(),
{
    let pad_x = padding(term_width, c.content_width() as int);
    let pad_y = padding(term_height, c.height as int);
    let rows = c.padded_rows(term_width, term_height);
    let width = if rows.len() > 0 {
        rows[0].len()
    } else {
        c.content_width() + pad_x
    };
    if c.content_width() <= usize::MAX {
        if c.height == 0 || pad_y == 0 || c.row_width() == c.content_width() {
            assert forall|i: int| 0 <= i < rows.len() implies (#[trigger] rows[i]).len()
                == width by {
                if i < c.height {
                    assert(c.rows[i].len() == c.row_width());
                    assert(c.rows[0].len() == c.row_width());
                }
            }
        } else {
            assert(rows[0].len() == pad_x + c.rows[0].len());
            assert(rows[c.height as int].len() == c.content_width() + pad_x);
            assert(!Composite::rows_have_width(rows, width));
        }
    }
}

/// The rows as one text, each followed by a line feed.
pub open spec fn rows_text(rows: Seq<Seq<char>>) -> Seq<char>
    decreases rows.len(),
{
    if rows.len() == 0 {
        Seq::empty()
    } else {
        rows_text(rows.drop_last()) + rows.last() + seq!['\n']
    }
}

/// The characters of each string, in order.
pub open spec fn rows_of(data: Seq<String>) -> Seq<Seq<char>> {
    Seq::new(data.len(), |i: int| data[i]@)
}

/// Whether an outcome is the one that the model gives; art that comes out is
/// well formed.
pub open spec fn agrees(res: Result<ArtString, FontError>, model: Result<Composite, FontError>) -> bool {
    match (res, model) {
        (Ok(art), Ok(composite)) => art@ == composite && composite.wf(),
        (Err(e), Err(f)) => e == f,
        _ => false,
    }
}

/// Whether an outcome of centring is the one that the model gives; art that
/// comes out is well formed.
pub open spec fn agrees_centered(
    res: Result<(ArtString, usize, usize), FontError>,
    model: Result<(Composite, nat, nat), FontError>,
) -> bool {
    match (res, model) {
        (Ok((art, x, y)), Ok((composite, pad_x, pad_y))) => art@ == composite && composite.wf()
            && x == pad_x && y == pad_y,
        (Err(e), Err(f)) => e == f,
        _ => false,
    }
}

/// Half of the room that `content` leaves in `space`, and 0 where it leaves none.
pub fn pad(space: u16, content: usize) -> (p: usize)
    ensures
        p == padding(space as int, content as int),
{
    let space = space as usize;
    if space > content {
        (space - content) / 2
    } else {
        0
    }
}

/// A string of `n` spaces.
pub fn spaces(n: usize) -> (s: String)
    ensures
        s@ == blanks(n as nat),
{
    let mut s = String::new();
    let mut i: usize = 0;
    while i < n
        invariant
            i <= n,
            s@ == blanks(i as nat),
        decreases n - i,
    {
        proof {
            reveal_strlit(" ");
        }
        s.append(" ");
        i += 1;
    }
    s
}

/// Art text: glyphs side by side, held as rows of characters.
#[derive(Debug)]
pub struct ArtString {
    length: usize,
    width: usize,
    height: usize,
    data: Vec<String>,
    fixed: bool,
}

impl View for ArtString {
    type V = Composite;

    closed spec fn view(&self) -> Composite {
        Composite {
            length: self.length as nat,
            width: self.width as nat,
            height: self.height as nat,
            rows: rows_of(self.data@),
            fixed: self.fixed,
        }
    }
}

impl Clone for ArtString {
    fn clone(&self) -> (res: Self)
        ensures
            res@ == self@,
    {
        proof {
            use_type_invariant(self);
        }
        let mut data: Vec<String> = Vec::new();
        let mut i: usize = 0;
        while i < self.data.len()
            invariant
                i <= self.data.len(),
                data.len() == i,
                forall|j: int| 0 <= j < i ==> data@[j]@ == self.data@[j]@,
            decreases self.data.len() - i,
        {
            data.push(self.data[i].clone());
            i += 1;
        }
        assert(rows_of(data@) =~= rows_of(self.data@));
        ArtString {
            length: self.length,
            width: self.width,
            height: self.height,
            data,
            fixed: self.fixed,
        }
    }
}

impl ArtString {
    #[verifier::type_invariant]
    spec fn inv(self) -> bool {
        self@.wf()
    }

    /// The art text of no glyph.
    pub fn new() -> (res: Self)
        ensures
            res@ == Composite::empty(),
    {
        let data: Vec<String> = Vec::new();
        assert(rows_of(data@) =~= Seq::<Seq<char>>::empty());
        Self { data, width: 0, height: 0, fixed: false, length: 0 }
    }

    /// One glyph of `width` by `height` characters. Fails with
    /// `DimensionMismatch` unless `data` holds `height` rows of `width`
    /// characters each.
    pub fn from(width: usize, height: usize, data: Vec<String>, fixed: bool) -> (res: Result<
        Self,
        FontError,
    >)
        ensures
            agrees(res, Composite::glyph(width as nat, height as nat, rows_of(data@), fixed)),
    {
        let mut i: usize = 0;
        while i < data.len()
            invariant
                i <= data.len(),
                forall|j: int| 0 <= j < i ==> (#[trigger] rows_of(data@)[j]).len() == width,
            decreases data.len() - i,
        {
            if data[i].as_str().unicode_len() != width {
                assert(rows_of(data@)[i as int].len() != width);
                return Err(FontError::DimensionMismatch);
            }
            i += 1;
        }
        if data.len() != height {
            return Err(FontError::DimensionMismatch);
        }
        Ok(Self { data, width, height, fixed, length: 1 })
    }

    /// `self` followed by `other`, as [`Composite::concat`] says. An operand
    /// without glyphs hands the other back as it is.
    pub fn connect(self, other: Self) -> (res: Result<Self, FontError>)
        ensures
            agrees(res, self@.concat(other@)),
            self@.length == 0 ==> res == Ok::<Self, FontError>(other),
            other@.length == 0 ==> (res matches Ok(art) && art@ == self@),
    {
        proof {
            use_type_invariant(&self);
            use_type_invariant(&other);
        }
        if self.length == 0 {
            return Ok(other);
        } else if other.length == 0 {
            return Ok(self);
        }
        if (self.fixed || other.fixed) && (self.width != other.width || self.height
            != other.height) {
            return Err(FontError::DimensionMismatch);
        }
        let width = if self.width <= other.width {
            self.width
        } else {
            other.width
        };
        let height = if self.height <= other.height {
            self.height
        } else {
            other.height
        };
        let length = match self.length.checked_add(other.length) {
            Some(length) => length,
            None => {
                return Err(FontError::DimensionMismatch);
            },
        };
        let mut data: Vec<String> = Vec::new();
        let mut i: usize = 0;
        while i < height
            invariant
                i <= height,
                height <= self.data.len(),
                height <= other.data.len(),
                data.len() == i,
                forall|j: int| 0 <= j < i ==> (#[trigger] data@[j])@ == self.data@[j]@ + other.data@[j]@,
            decreases height - i,
        {
            let mut line = self.data[i].clone();
            line.append(other.data[i].as_str());
            data.push(line);
            i += 1;
        }
        proof {
            let rows = rows_of(data@);
            assert(rows =~= self@.concat(other@).unwrap().rows);
            assert forall|j: int| 0 <= j < rows.len() implies (#[trigger] rows[j]).len()
                == rows[0].len() by {
                assert(self@.rows[j].len() == self@.row_width());
                assert(other@.rows[j].len() == other@.row_width());
                assert(self@.rows[0].len() == self@.row_width());
                assert(other@.rows[0].len() == other@.row_width());
            }
        }
        Ok(Self { length, width, height, data, fixed: self.fixed || other.fixed })
    }

    /// `self` centred in a terminal, with the horizontal and the vertical
    /// padding, as [`Composite::centered_in`] says. `size` is what the
    /// terminal told of its columns and rows; where it told nothing, this
    /// fails with `Resource`.
    pub fn center_aligned(&self, size: Option<(u16, u16)>) -> (res: Result<
        (Self, usize, usize),
        FontError,
    >)
        ensures
            agrees_centered(res, self@.centered_in(size)),
    {
        proof {
            use_type_invariant(self);
        }
        let (term_width, term_height) = match size {
            Some(size) => size,
            None => {
                return Err(FontError::Resource);
            },
        };
        let content = match self.length.checked_mul(self.width) {
            Some(content) => content,
            None => {
                return Err(FontError::DimensionMismatch);
            },
        };
        let padding_x = pad(term_width, content);
        let padding_y = pad(term_height, self.height);
        let space_x = spaces(padding_x);
        let ghost rows = self@.padded_rows(term_width as int, term_height as int);

        let mut new_data: Vec<String> = Vec::new();
        let mut i: usize = 0;
        while i < self.height
            invariant
                i <= self.height,
                self.height == self.data.len(),
                space_x@ == blanks(padding_x as nat),
                new_data.len() == i,
                forall|j: int| 0 <= j < i ==> (#[trigger] new_data@[j])@ == space_x@ + self.data@[j]@,
            decreases self.height - i,
        {
            let mut line = space_x.clone();
            line.append(self.data[i].as_str());
            new_data.push(line);
            i += 1;
        }
        let mut k: usize = 0;
        while k < padding_y
            invariant
                k <= padding_y,
                space_x@ == blanks(padding_x as nat),
                new_data.len() == self.height + k,
                forall|j: int|
                    0 <= j < self.height ==> (#[trigger] new_data@[j])@ == space_x@
                        + self.data@[j]@,
                forall|j: int|
                    self.height <= j < self.height + k ==> (#[trigger] new_data@[j])@ == blanks(
                        content as nat,
                    ) + space_x@,
            decreases padding_y - k,
        {
            let mut line = spaces(content);
            line.append(space_x.as_str());
            new_data.push(line);
            k += 1;
        }
        assert(rows_of(new_data@) =~= rows);
        let width = if new_data.len() > 0 {
            new_data[0].as_str().unicode_len()
        } else {
            content + padding_x
        };
        let height = new_data.len();
        match Self::from(width, height, new_data, self.fixed) {
            Ok(art) => Ok((art, padding_x, padding_y)),
            Err(e) => Err(e),
        }
    }

    /// The rows as one text, each followed by a line feed.
    pub fn to_string(&self) -> (s: String)
        ensures
            s@ == self@.text(),
    {
        let ghost rows = self@.rows;
        let mut s = String::new();
        let mut i: usize = 0;
        while i < self.data.len()
            invariant
                i <= self.data.len(),
                rows == rows_of(self.data@),
                s@ == rows_text(rows.take(i as int)),
            decreases self.data.len() - i,
        {
            proof {
                reveal_strlit("\n");
                assert(rows.take(i + 1).drop_last() =~= rows.take(i as int));
            }
            s.append(self.data[i].as_str());
            s.append("\n");
            i += 1;
        }
        assert(rows.take(self.data.len() as int) =~= rows);
        s
    }

    /// The number of glyphs.
    pub fn len(&self) -> (n: usize)
        ensures
            n == self@.length,
    {
        self.length
    }

    /// The width of one glyph, in characters.
    pub fn width(&self) -> (n: usize)
        ensures
            n == self@.width,
    {
        self.width
    }

    /// The number of rows.
    pub fn height(&self) -> (n: usize)
        ensures
            n == self@.height,
    {
        self.height
    }

    /// Whether the size must be matched exactly when composing.
    pub fn is_fixed(&self) -> (b: bool)
        ensures
            b == self@.fixed,
    {
        self.fixed
    }
}

/// The mathematical value of a font: its glyphs in the order of the
/// characters that they stand for, the first one for the character `!`.
pub struct Catalog {
    /// The width of each glyph, in characters.
    pub width: nat,
    /// The number of rows of each glyph.
    pub height: nat,
    /// The number of lines between two glyphs in the packed text.
    pub margin: nat,
    /// The packed text that the glyphs were cut from.
    pub chars: Seq<char>,
    /// The glyphs; `glyphs[i]` stands for the character of code `0x21 + i`.
    pub glyphs: Seq<Composite>,
    /// Whether the glyphs insist on their size when composed.
    pub fixed: bool,
}

/// The code of the first character that has a glyph of its own.
pub const FIRST_GLYPH: u32 = 0x21;

/// A line cut down to `width` characters; a shorter line stays as it is.
pub open spec fn clipped(line: Seq<char>, width: nat) -> Seq<char> {
    if line.len() > width {
        line.take(width as int)
    } else {
        line
    }
}

/// `count` lines from line `start` on, each cut down to `width` characters.
pub open spec fn block_rows(lines: Seq<Seq<char>>, start: int, count: int, width: nat) -> Seq<
    Seq<char>,
> {
    Seq::new(count as nat, |r: int| clipped(lines[start + r], width))
}

/// The glyph of block `k`: the block starts at line `k * (height + margin)`
/// and its rows are that line and the `height - margin` lines after it.
pub open spec fn block(
    lines: Seq<Seq<char>>,
    k: int,
    width: nat,
    height: nat,
    margin: nat,
    fixed: bool,
) -> Result<Composite, FontError> {
    Composite::glyph(
        width,
        height,
        block_rows(lines, k * (height + margin), height - margin + 1, width),
        fixed,
    )
}

/// Whether each of the first `count` blocks is a glyph.
pub open spec fn blocks_are_glyphs(
    lines: Seq<Seq<char>>,
    count: nat,
    width: nat,
    height: nat,
    margin: nat,
    fixed: bool,
) -> bool {
    forall|k: int|
        0 <= k < count ==> (#[trigger] block(lines, k, width, height, margin, fixed)) is Ok
}

/// The number of multiples of `period` below `span`.
pub open spec fn block_count(span: int, period: int) -> nat {
    if span <= 0 || period <= 0 {
        0
    } else {
        ((span - 1) / period + 1) as nat
    }
}

/// `k * period` is below `span` exactly for the `k` below `block_count`.
pub proof fn lemma_block_count(span: int, period: int, k: int)
    requires
        span > 0,
        period > 0,
        k >= 0,
    ensures
        k * period < span <==> k < block_count(span, period),
{
    let q = (span - 1) / period;
    assert(q * period <= span - 1 < (q + 1) * period) by (nonlinear_arith)
        requires
            q == (span - 1) / period,
            period > 0,
    ;
    if k <= q {
        assert(k * period <= q * period) by (nonlinear_arith)
            requires
                k <= q,
                period > 0,
        ;
    } else {
        assert(k * period >= (q + 1) * period) by (nonlinear_arith)
            requires
                k >= q + 1,
                period > 0,
        ;
    }
}

impl Catalog {
    /// Whether `glyph` is one glyph of this font's size and kind.
    pub open spec fn owns(self, glyph: Composite) -> bool {
        Composite::glyph(self.width, self.height, glyph.rows, self.fixed) == Ok::<
            Composite,
            FontError,
        >(glyph)
    }

    /// Every glyph is of the font's size and kind.
    pub open spec fn wf(self) -> bool {
        forall|i: int| 0 <= i < self.glyphs.len() ==> self.owns(#[trigger] self.glyphs[i])
    }

    /// The glyph of a character that shows nothing: spaces all over.
    pub open spec fn blank(self) -> Composite {
        Composite {
            length: 1,
            width: self.width,
            height: self.height,
            rows: Seq::new(self.height, |i: int| blanks(self.width)),
            fixed: self.fixed,
        }
    }

    /// The glyph of the character with this code: the blank one up to the
    /// space character, then the glyphs in their order, and `GlyphIndex`
    /// beyond the last of them.
    pub open spec fn lookup(self, code: int) -> Result<Composite, FontError> {
        if code < FIRST_GLYPH {
            Ok(self.blank())
        } else if code - FIRST_GLYPH < self.glyphs.len() {
            Ok(self.glyphs[code - FIRST_GLYPH])
        } else {
            Err(FontError::GlyphIndex(code as u32))
        }
    }

    /// The glyphs of the characters of `text` side by side, in order. It
    /// fails at the first character that has no glyph.
    pub open spec fn render(self, text: Seq<char>) -> Result<Composite, FontError>
        decreases text.len(),
    {
        if text.len() == 0 {
            Ok(Composite::empty())
        } else {
            match self.render(text.drop_last()) {
                Ok(art) => match self.lookup(text.last() as int) {
                    Ok(glyph) => art.concat(glyph),
                    Err(e) => Err(e),
                },
                Err(e) => Err(e),
            }
        }
    }

    /// The font that the packed text `chars` holds. With `n` lines and
    /// `period = height + margin`, a block starts at each multiple of
    /// `period` below `n - period - 1`. It fails with `Resource` where the
    /// text has fewer than `period + 1` lines, and with `DimensionMismatch`
    /// where a block is no glyph of `width` by `height` characters.
    pub open spec fn parse(width: nat, height: nat, margin: nat, chars: Seq<char>, fixed: bool) -> Result<
        Catalog,
        FontError,
    > {
        let lines = split_lines(chars);
        let period = height + margin;
        let span = lines.len() - period - 1;
        let count = block_count(span, period as int);
        if span < 0 {
            Err(FontError::Resource)
        } else if span == 0 {
            Ok(Catalog { width, height, margin, chars, glyphs: Seq::empty(), fixed })
        } else if period == 0 || margin > height {
            Err(FontError::DimensionMismatch)
        } else if blocks_are_glyphs(lines, count, width, height, margin, fixed) {
            Ok(
                Catalog {
                    width,
                    height,
                    margin,
                    chars,
                    glyphs: Seq::new(
                        count,
                        |k: int| block(lines, k, width, height, margin, fixed).unwrap(),
                    ),
                    fixed,
                },
            )
        } else {
            Err(FontError::DimensionMismatch)
        }
    }
}

/// A font that was parsed is well formed. Where it holds a glyph, the margin
/// is one line, and row `r` of glyph `k` is the first `width` characters of
/// line `k * (height + 1) + r`.
pub proof fn lemma_parse(width: nat, height: nat, margin: nat, chars: Seq<char>, fixed: bool)
    ensures
        Catalog::parse(width, height, margin, chars, fixed) matches Ok(font) ==> {
            &&& font.wf()
            &&& font.width == width && font.height == height && font.margin == margin
                && font.fixed == fixed && font.chars == chars
            &&& font.glyphs.len() == block_count(
                split_lines(chars).len() - (height + margin) - 1,
                (height + margin) as int,
            )
            &&& font.glyphs.len() > 0 ==> margin == 1
            &&& forall|k: int, r: int|
                0 <= k < font.glyphs.len() && 0 <= r < height ==> #[trigger] font.glyphs[k].rows[r]
                    == split_lines(chars)[k * (height + 1) + r].take(width as int)
        },
{
    if let Ok(font) = Catalog::parse(width, height, margin, chars, fixed) {
        let lines = split_lines(chars);
        let span = lines.len() - (height + margin) - 1;
        if span > 0 {
            assert(font.glyphs.len() > 0);
            assert(block(lines, 0, width, height, margin, fixed) is Ok);
            assert(margin == 1);
            assert forall|k: int, r: int|
                0 <= k < font.glyphs.len() && 0 <= r < height implies #[trigger] font.glyphs[k].rows[r]
                == lines[k * (height + 1) + r].take(width as int) by {
                let rows = block_rows(lines, k * (height + margin), height - margin + 1, width);
                assert(block(lines, k, width, height, margin, fixed) is Ok);
                assert(font.glyphs[k].rows == rows);
                assert(rows[r].len() == width);
                let line = lines[k * (height + 1) + r];
                assert(rows[r] == clipped(line, width));
                assert(clipped(line, width) =~= line.take(width as int));
            }
            assert forall|i: int| 0 <= i < font.glyphs.len() implies font.owns(
                #[trigger] font.glyphs[i],
            ) by {
                assert(block(lines, i, width, height, margin, fixed) is Ok);
            }
        }
    }
}

/// What `lookup` gives for each code: the blank glyph of the font's size up
/// to the space character; the glyph at `code - 0x21` for the codes that the
/// font covers, the printable ASCII characters among them where it holds 94
/// glyphs or more; and `GlyphIndex` with the code beyond.
pub proof fn lemma_lookup(font: Catalog, code: int)
    requires
        font.wf(),
        0 <= code <= u32::MAX,
    ensures
        code <= 0x20 ==> font.lookup(code) == Ok::<Composite, FontError>(font.blank())
            && font.owns(font.blank()),
        0x21 <= code < 0x21 + font.glyphs.len() ==> font.lookup(code) == Ok::<
            Composite,
            FontError,
        >(font.glyphs[code - 0x21]),
        0x21 <= code <= 0x7E && font.glyphs.len() >= 94 ==> font.lookup(code) == Ok::<
            Composite,
            FontError,
        >(font.glyphs[code - 0x21]),
        code >= 0x21 + font.glyphs.len() ==> font.lookup(code) == Err::<Composite, FontError>(
            FontError::GlyphIndex(code as u32),
        ),
        font.lookup(code) matches Ok(glyph) ==> font.owns(glyph),
{
}

/// An error in a part of the text from its start is the error of the whole.
pub proof fn lemma_render_stops(font: Catalog, text: Seq<char>, k: int)
    requires
        0 <= k <= text.len(),
        font.render(text.take(k)) is Err,
    ensures
        font.render(text) == font.render(text.take(k)),
    decreases text.len() - k,
{
    if k < text.len() {
        assert(text.take(k + 1).drop_last() =~= text.take(k));
        lemma_render_stops(font, text, k + 1);
    } else {
        assert(text.take(k) =~= text);
    }
}

/// Whether the character of this code has a glyph in the font.
pub open spec fn covers(font: Catalog, code: int) -> bool {
    code < FIRST_GLYPH + font.glyphs.len()
}

/// A text that is not rendered is refused with `GlyphIndex`, unless it holds
/// more characters than the machine can count.
pub proof fn lemma_render_refusal(font: Catalog, text: Seq<char>)
    requires
        font.wf(),
        text.len() <= usize::MAX,
    ensures
        font.render(text) matches Err(e) ==> e matches FontError::GlyphIndex(_),
    decreases text.len(),
{
    if text.len() > 0 {
        let head = text.drop_last();
        let c = text.last();
        lemma_render_refusal(font, head);
        lemma_render_shape(font, head);
        lemma_char_code(c);
        lemma_lookup(font, c as int);
        if font.render(head) is Ok && font.lookup(c as int) is Ok {
            lemma_line_grows(
                font,
                font.render(head).unwrap(),
                font.lookup(c as int).unwrap(),
                head.len(),
            );
        }
    }
}

/// Whether `art` is `n` glyphs of the font's size and kind side by side.
pub open spec fn is_line_of(art: Composite, font: Catalog, n: nat) -> bool {
    &&& art.wf()
    &&& art.length == n
    &&& n > 0 ==> {
        &&& art.width == font.width
        &&& art.height == font.height
        &&& art.fixed == font.fixed
        &&& forall|r: int| 0 <= r < font.height ==> (#[trigger] art.rows[r]).len() == n * font.width
    }
}

/// A glyph of the font after `n` glyphs of the font gives `n + 1` glyphs of
/// the font, each row being the row of the first followed by that of the glyph.
proof fn lemma_line_grows(font: Catalog, art: Composite, glyph: Composite, n: nat)
    requires
        is_line_of(art, font, n),
        font.owns(glyph),
        n < usize::MAX,
    ensures
        art.concat(glyph) matches Ok(all) && is_line_of(all, font, n + 1) && forall|r: int|
            0 <= r < font.height ==> #[trigger] all.rows[r] == (if n > 0 {
                art.rows[r]
            } else {
                Seq::<char>::empty()
            }) + glyph.rows[r],
{
    let w = font.width as int;
    assert((n + 1) * w == n * w + w) by (nonlinear_arith);
    if n == 0 {
        assert(art == Composite::empty());
        assert(art.concat(glyph) == Ok::<Composite, FontError>(glyph));
        assert forall|r: int| 0 <= r < font.height implies #[trigger] glyph.rows[r]
            == Seq::<char>::empty() + glyph.rows[r] by {
            assert(Seq::<char>::empty() + glyph.rows[r] =~= glyph.rows[r]);
        }
        assert forall|r: int| 0 <= r < font.height implies (#[trigger] glyph.rows[r]).len() == (n
            + 1) * font.width by {}
    } else {
        lemma_concat_wf(art, glyph);
        let all = art.concat(glyph).unwrap();
        assert forall|r: int| 0 <= r < font.height implies (#[trigger] all.rows[r]).len() == (n
            + 1) * font.width by {
            assert(art.rows[r].len() == n * font.width);
            assert(glyph.rows[r].len() == font.width);
        }
    }
}

/// What a rendered text looks like: a text is rendered exactly where the
/// font covers each of its characters, and then as so many glyphs of the
/// font's size and kind as it has characters.
pub proof fn lemma_render_shape(font: Catalog, text: Seq<char>)
    requires
        font.wf(),
        text.len() <= usize::MAX,
    ensures
        (forall|k: int| 0 <= k < text.len() ==> covers(font, #[trigger] text[k] as int))
            <==> font.render(text) is Ok,
        font.render(text) matches Ok(art) ==> is_line_of(art, font, text.len()),
    decreases text.len(),
{
    if text.len() > 0 {
        let head = text.drop_last();
        let c = text.last();
        lemma_render_shape(font, head);
        lemma_char_code(c);
        lemma_lookup(font, c as int);
        if font.render(head) is Ok && covers(font, c as int) {
            lemma_line_grows(
                font,
                font.render(head).unwrap(),
                font.lookup(c as int).unwrap(),
                head.len(),
            );
            assert forall|k: int| 0 <= k < text.len() implies covers(
                font,
                #[trigger] text[k] as int,
            ) by {
                if k < head.len() {
                    assert(head[k] == text[k]);
                }
            }
        } else if font.render(head) is Ok {
            assert(!covers(font, text[text.len() - 1] as int));
        } else {
            let k = choose|k: int| 0 <= k < head.len() && !covers(font, #[trigger] head[k] as int);
            assert(head[k] == text[k]);
        }
    }
}

/// Where the glyph of a character stands in a rendered text: in each row,
/// the glyph of character `k` takes the `width` columns from `k * width` on.
pub proof fn lemma_render_places(font: Catalog, text: Seq<char>, k: int, r: int)
    requires
        font.wf(),
        text.len() <= usize::MAX,
        font.render(text) is Ok,
        0 <= k < text.len(),
        0 <= r < font.height,
    ensures
        font.lookup(text[k] as int) is Ok,
        k * font.width + font.width <= font.render(text).unwrap().rows[r].len(),
        font.render(text).unwrap().rows[r].subrange(k * font.width, k * font.width + font.width)
            == font.lookup(text[k] as int).unwrap().rows[r],
    decreases text.len(),
{
    let head = text.drop_last();
    let c = text.last();
    let n = head.len() as int;
    let w = font.width as int;
    lemma_render_shape(font, head);
    lemma_render_shape(font, text);
    lemma_char_code(c);
    lemma_lookup(font, c as int);
    let art = font.render(head).unwrap();
    let glyph = font.lookup(c as int).unwrap();
    let all = font.render(text).unwrap();
    lemma_line_grows(font, art, glyph, head.len());
    assert(all == art.concat(glyph).unwrap());
    assert(glyph.rows[r].len() == w);
    if k < n {
        lemma_render_places(font, head, k, r);
        assert(head[k] == text[k]);
        assert(art.rows[r].len() == n * w);
        assert(all.rows[r] == art.rows[r] + glyph.rows[r]);
        assert(all.rows[r].subrange(k * w, k * w + w) =~= art.rows[r].subrange(k * w, k * w + w));
    } else {
        assert(text[k] == c);
        if n > 0 {
            assert(art.rows[r].len() == n * w);
            assert(all.rows[r] == art.rows[r] + glyph.rows[r]);
            assert(all.rows[r].subrange(n * w, n * w + w) =~= glyph.rows[r]);
        } else {
            assert(0 * w == 0) by (nonlinear_arith);
            assert(all.rows[r] =~= glyph.rows[r]);
            assert(all.rows[r].subrange(0, w) =~= glyph.rows[r]);
        }
    }
}

/// The `height` lines of `chars` from line `start` on, each cut down to
/// `width` characters; `None` where one of them is shorter than that.
fn cut_rows(
    chars: &str,
    total: usize,
    starts: &Vec<usize>,
    start: usize,
    width: usize,
    height: usize,
) -> (res: Option<Vec<String>>)
    requires
        total == chars@.len(),
        marks_lines(starts@, chars@),
        start + height <= starts.len(),
    ensures
        match res {
            Some(data) => rows_of(data@) == block_rows(
                split_lines(chars@),
                start as int,
                height as int,
                width as nat,
            ) && Composite::rows_have_width(rows_of(data@), width as nat),
            None => !Composite::rows_have_width(
                block_rows(split_lines(chars@), start as int, height as int, width as nat),
                width as nat,
            ),
        },
{
    let ghost lines = split_lines(chars@);
    let ghost rows = block_rows(lines, start as int, height as int, width as nat);
    let mut data: Vec<String> = Vec::new();
    let mut r: usize = 0;
    while r < height
        invariant
            r <= height,
            start + height <= starts.len(),
            marks_lines(starts@, chars@),
            total == chars@.len(),
            lines == split_lines(chars@),
            rows == block_rows(lines, start as int, height as int, width as nat),
            data.len() == r,
            forall|q: int|
                0 <= q < r ==> (#[trigger] data@[q])@ == rows[q] && rows[q].len() == width,
        decreases height - r,
    {
        let j = start + r;
        let lo = starts[j];
        let hi = if j + 1 < starts.len() {
            starts[j + 1] - 1
        } else {
            total
        };
        assert(hi == line_end(starts@, j as int, chars@.len() as int));
        assert(lines[j as int] == chars@.subrange(lo as int, hi as int));
        assert(rows[r as int] == clipped(lines[j as int], width as nat));
        if hi - lo < width {
            assert(rows[r as int].len() != width);
            return None;
        }
        let row = chars.substring_char(lo, lo + width).to_owned();
        assert(row@ =~= rows[r as int]);
        data.push(row);
        r += 1;
    }
    assert(rows_of(data@) =~= rows);
    Some(data)
}

/// The glyphs that the art strings stand for.
pub open spec fn glyphs_of(art: Seq<ArtString>) -> Seq<Composite> {
    Seq::new(art.len(), |i: int| art[i]@)
}

/// Whether an outcome of reading a font is the one that the model gives; a
/// font that comes out is well formed.
pub open spec fn agrees_catalog(res: Result<AaFont, FontError>, model: Result<Catalog, FontError>) -> bool {
    match (res, model) {
        (Ok(font), Ok(catalog)) => font@ == catalog && catalog.wf(),
        (Err(e), Err(f)) => e == f,
        _ => false,
    }
}

/// A font of block glyphs, one for each printable character from `!` on.
#[derive(Debug)]
pub struct AaFont {
    width: usize,
    height: usize,
    margin: usize,
    chars: String,
    art_chars: Vec<ArtString>,
    fixed: bool,
}

impl View for AaFont {
    type V = Catalog;

    closed spec fn view(&self) -> Catalog {
        Catalog {
            width: self.width as nat,
            height: self.height as nat,
            margin: self.margin as nat,
            chars: self.chars@,
            glyphs: glyphs_of(self.art_chars@),
            fixed: self.fixed,
        }
    }
}

impl Clone for AaFont {
    fn clone(&self) -> (res: Self)
        ensures
            res@ == self@,
    {
        proof {
            use_type_invariant(self);
        }
        let mut art_chars: Vec<ArtString> = Vec::new();
        let mut i: usize = 0;
        while i < self.art_chars.len()
            invariant
                i <= self.art_chars.len(),
                art_chars.len() == i,
                forall|j: int| 0 <= j < i ==> (#[trigger] art_chars@[j])@ == self.art_chars@[j]@,
            decreases self.art_chars.len() - i,
        {
            art_chars.push(self.art_chars[i].clone());
            i += 1;
        }
        assert(glyphs_of(art_chars@) =~= glyphs_of(self.art_chars@));
        AaFont {
            width: self.width,
            height: self.height,
            margin: self.margin,
            chars: self.chars.clone(),
            art_chars,
            fixed: self.fixed,
        }
    }
}

impl AaFont {
    #[verifier::type_invariant]
    spec fn inv(self) -> bool {
        self@.wf()
    }

    /// Reads the glyphs out of the packed text `chars`, as
    /// [`Catalog::parse`] says.
    pub fn new(width: usize, height: usize, margin: usize, chars: &str, fixed: bool) -> (res: Result<
        Self,
        FontError,
    >)
        ensures
            agrees_catalog(
                res,
                Catalog::parse(width as nat, height as nat, margin as nat, chars@, fixed),
            ),
    {
        let cs = to_chars(chars);
        let total = cs.len();
        let starts = line_starts(&cs);
        let ghost lines = split_lines(chars@);
        let line_count = starts.len();
        let period = match height.checked_add(margin) {
            Some(period) => period,
            None => {
                return Err(FontError::Resource);
            },
        };
        if line_count <= period {
            return Err(FontError::Resource);
        }
        let span = line_count - period - 1;
        let ghost count = block_count(span as int, period as int);
        if span == 0 {
            let art_chars: Vec<ArtString> = Vec::new();
            assert(glyphs_of(art_chars@) =~= Seq::<Composite>::empty());
            return Ok(Self { width, height, margin, chars: chars.to_owned(), art_chars, fixed });
        }
        if margin != 1 || margin > height {
            proof {
                if period != 0 && margin <= height {
                    lemma_block_count(span as int, period as int, 0);
                    assert(!(block(lines, 0, width as nat, height as nat, margin as nat, fixed) is Ok));
                }
            }
            return Err(FontError::DimensionMismatch);
        }
        let mut art_chars: Vec<ArtString> = Vec::new();
        let mut i: usize = 0;
        while i < span
            invariant
                margin == 1,
                height >= 1,
                period == height + 1,
                span == starts.len() - period - 1,
                span > 0,
                count == block_count(span as int, period as int),
                lines == split_lines(chars@),
                marks_lines(starts@, chars@),
                total == chars@.len(),
                i == art_chars.len() * period,
                art_chars.len() <= count,
                forall|k: int|
                    0 <= k < art_chars.len() ==> (#[trigger] block(
                        lines,
                        k,
                        width as nat,
                        height as nat,
                        margin as nat,
                        fixed,
                    )) == Ok::<Composite, FontError>(art_chars@[k]@),
            decreases count - art_chars.len(),
        {
            let ghost k = art_chars.len() as int;
            let ghost rows = block_rows(lines, k * (height + margin), height - margin + 1, width as nat);
            proof {
                lemma_block_count(span as int, period as int, k);
            }
            let char_vec = match cut_rows(chars, total, &starts, i, width, height) {
                Some(char_vec) => char_vec,
                None => {
                    proof {
                        assert(!(block(lines, k, width as nat, height as nat, margin as nat, fixed) is Ok));
                    }
                    return Err(FontError::DimensionMismatch);
                },
            };
            assert(rows_of(char_vec@) =~= rows);
            match ArtString::from(width, height, char_vec, fixed) {
                Ok(glyph) => {
                    art_chars.push(glyph);
                },
                Err(e) => {
                    return Err(e);
                },
            }
            proof {
                assert((k + 1) * period == k * period + period) by (nonlinear_arith);
            }
            i += period;
        }
        proof {
            let k = art_chars.len() as int;
            lemma_block_count(span as int, period as int, k);
            assert(k == count);
            assert(blocks_are_glyphs(
                lines,
                count,
                width as nat,
                height as nat,
                margin as nat,
                fixed,
            ));
            let font = Catalog::parse(width as nat, height as nat, margin as nat, chars@, fixed).unwrap();
            assert(glyphs_of(art_chars@) =~= font.glyphs);
            assert forall|g: int| 0 <= g < art_chars.len() implies (Catalog {
                width: width as nat,
                height: height as nat,
                margin: margin as nat,
                chars: chars@,
                glyphs: glyphs_of(art_chars@),
                fixed,
            }).owns(#[trigger] glyphs_of(art_chars@)[g]) by {
                assert(block(lines, g, width as nat, height as nat, margin as nat, fixed) is Ok);
            }
        }
        Ok(Self { width, height, margin, chars: chars.to_owned(), art_chars, fixed })
    }

    /// The glyph of the character with the code `code`, as
    /// [`Catalog::lookup`] says.
    pub fn lookup(&self, code: u32) -> (res: Result<ArtString, FontError>)
        ensures
            agrees(res, self@.lookup(code as int)),
    {
        proof {
            use_type_invariant(self);
        }
        if code < FIRST_GLYPH {
            let mut space: Vec<String> = Vec::new();
            let mut i: usize = 0;
            while i < self.height
                invariant
                    i <= self.height,
                    space.len() == i,
                    forall|j: int| 0 <= j < i ==> (#[trigger] space@[j])@ == blanks(self.width as nat),
                decreases self.height - i,
            {
                space.push(spaces(self.width));
                i += 1;
            }
            assert(rows_of(space@) =~= self@.blank().rows);
            return ArtString::from(self.width, self.height, space, self.fixed);
        }
        let index = (code - FIRST_GLYPH) as usize;
        if index < self.art_chars.len() {
            Ok(self.art_chars[index].clone())
        } else {
            Err(FontError::GlyphIndex(code))
        }
    }

    /// The glyph of the character with the code `ascii`: the blank glyph for
    /// the codes up to `0x20`, the glyph at `ascii - 0x21` from there on, and
    /// `GlyphIndex` beyond the last glyph.
    pub fn get_char(&self, ascii: u8) -> (res: Result<ArtString, FontError>)
        ensures
            agrees(res, self@.lookup(ascii as int)),
    {
        self.lookup(ascii as u32)
    }

    /// The glyphs of the characters of `string` side by side, in order, as
    /// [`Catalog::render`] says.
    pub fn get_string(&self, string: &str) -> (res: Result<ArtString, FontError>)
        ensures
            agrees(res, self@.render(string@)),
    {
        let mut art_string = ArtString::new();
        let ghost mut seen: Seq<char> = Seq::empty();
        for c in it: string.chars()
            invariant
                it.seq() == string@,
                seen == it.seq().take(it.index()),
                self@.render(seen) == Ok::<Composite, FontError>(art_string@),
                art_string@.wf(),
        {
            let ghost head = seen;
            proof {
                seen = seen.push(c);
                assert(seen =~= it.seq().take(it.index() + 1));
                assert(seen.drop_last() =~= head);
                lemma_char_code(c);
            }
            let art_char = match self.lookup(c as u32) {
                Ok(art_char) => art_char,
                Err(e) => {
                    proof {
                        lemma_render_stops(self@, string@, it.index() + 1);
                    }
                    return Err(e);
                },
            };
            match art_string.connect(art_char) {
                Ok(art) => {
                    art_string = art;
                },
                Err(e) => {
                    proof {
                        lemma_render_stops(self@, string@, it.index() + 1);
                    }
                    return Err(e);
                },
            }
        }
        assert(seen =~= string@);
        Ok(art_string)
    }

    /// The width of each glyph, in characters.
    pub fn width(&self) -> (n: usize)
        ensures
            n == self@.width,
    {
        self.width
    }

    /// The number of rows of each glyph.
    pub fn height(&self) -> (n: usize)
        ensures
            n == self@.height,
    {
        self.height
    }

    /// The number of lines between two glyphs in the packed text.
    pub fn margin(&self) -> (n: usize)
        ensures
            n == self@.margin,
    {
        self.margin
    }

    /// The packed text that the glyphs were cut from.
    pub fn chars(&self) -> (s: &str)
        ensures
            s@ == self@.chars,
    {
        self.chars.as_str()
    }

    /// The number of glyphs.
    pub fn glyph_count(&self) -> (n: usize)
        ensures
            n == self@.glyphs.len(),
    {
        self.art_chars.len()
    }

    /// Whether the glyphs insist on their size when composed.
    pub fn is_fixed(&self) -> (b: bool)
        ensures
            b == self@.fixed,
    {
        self.fixed
    }
}

} // verus!
