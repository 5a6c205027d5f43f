//! What is shown for one second of a phase: the progress line and the clock
//! in block glyphs, in the colour of the phase.

use vstd::prelude::*;
use vstd::string::StringExecFns;

use crate::font::blanks;
use crate::font::covers;
use crate::font::lemma_centered_ok;
use crate::font::lemma_render_refusal;
use crate::font::lemma_render_shape;
use crate::font::spaces;
use crate::font::AaFont;
use crate::font::ArtString;
use crate::font::Catalog;
use crate::font::Composite;
use crate::font::FontError;
use crate::text::decimal;
use crate::text::decimal_string;
use crate::text::is_digit;
use crate::text::lemma_decimal;
use crate::text::lemma_decimal_len;
use crate::text::lemma_decimal_u64;
use crate::text::power_of_ten;
use crate::time::Phase;
use crate::time::TimerType;

verus! {

/// The clock for `progress` seconds: hours, minutes and seconds in decimal
/// digits, without leading zeros, with a colon between them.
pub open spec fn clock(progress: u64) -> Seq<char> {
    decimal((progress / 3600) as nat) + seq![':'] + decimal((progress % 3600 / 60) as nat)
        + seq![':'] + decimal((progress % 60) as nat)
}

/// `unit` written `n` times.
pub open spec fn repeated(unit: Seq<char>, n: nat) -> Seq<char>
    decreases n,
{
    if n == 0 {
        Seq::empty()
    } else {
        repeated(unit, (n - 1) as nat) + unit
    }
}

/// The escape sequence that switches to the colour of a kind of phase.
pub open spec fn color(kind: TimerType) -> Seq<char> {
    match kind {
        TimerType::Session => "\x1b[35m"@,
        TimerType::Break => "\x1b[32m"@,
    }
}

/// `text` in the colour of a kind of phase, and the colour switched off after it.
pub open spec fn painted(kind: TimerType, text: Seq<char>) -> Seq<char> {
    color(kind) + text + "\x1b[0m"@
}

/// How many repetitions come after repetition `ordinal` of `number`.
pub open spec fn to_come(ordinal: usize, number: usize) -> nat {
    if number > ordinal + 1 {
        (number - ordinal - 1) as nat
    } else {
        0
    }
}

/// The progress line of a phase, `x_pad` columns from the left: a coloured
/// mark for each repetition up to this one, a plain mark for each one to
/// come, and a word on what is going on.
pub open spec fn indicator(kind: TimerType, x_pad: nat, ordinal: usize, number: usize) -> Seq<char> {
    blanks(x_pad) + painted(kind, repeated("\u{2580} "@, (ordinal + 1) as nat)) + repeated(
        "\u{2584} "@,
        to_come(ordinal, number),
    ) + " working...\n"@
}

/// The text of one frame.
pub struct FrameText {
    /// The progress line.
    pub indicator: Seq<char>,
    /// The clock in block glyphs.
    pub art: Seq<char>,
}

/// The frame of a phase around a clock that has been centred with `x_pad`
/// columns to its left.
pub open spec fn composed(phase: Phase, aligned: Composite, x_pad: nat) -> FrameText {
    FrameText {
        indicator: indicator(phase.kind, x_pad, phase.ordinal, phase.number),
        art: painted(phase.kind, aligned.text()),
    }
}

/// The frame of a phase with `progress` seconds left, on a terminal that
/// told `size` of its columns and rows: the clock rendered in the font and
/// centred, and the progress line above it at the same distance from the
/// left. A clock that cannot be rendered is refused before the size is
/// looked at; a terminal that told nothing is refused with `Resource`.
pub open spec fn frame_of(phase: Phase, font: Catalog, progress: u64, size: Option<(u16, u16)>) -> Result<
    FrameText,
    FontError,
> {
    match font.render(clock(progress)) {
        Err(e) => Err(e),
        Ok(art) => match art.centered_in(size) {
            Err(e) => Err(e),
            Ok((aligned, x_pad, _)) => Ok(composed(phase, aligned, x_pad)),
        },
    }
}

/// The number of glyphs that a font needs for the clock: those of the
/// characters from `!` to `:`, the digits among them.
pub const CLOCK_GLYPHS: usize = 26;

/// The clock is made of digits and two colons, and is 26 characters long at
/// most.
pub proof fn lemma_clock(progress: u64)
    ensures
        5 <= clock(progress).len() <= 26,
        forall|k: int|
            0 <= k < clock(progress).len() ==> is_digit(#[trigger] clock(progress)[k]) || clock(
                progress,
            )[k] == ':',
        clock(progress).contains(':'),
{
    let h = decimal((progress / 3600) as nat);
    let m = decimal((progress % 3600 / 60) as nat);
    let s = decimal((progress % 60) as nat);
    let all = clock(progress);
    lemma_decimal((progress / 3600) as nat);
    lemma_decimal((progress % 3600 / 60) as nat);
    lemma_decimal((progress % 60) as nat);
    lemma_decimal_u64(progress / 3600);
    lemma_decimal_u64(progress % 3600 / 60);
    lemma_decimal_u64(progress % 60);
    assert(power_of_ten(2) == 100) by {
        reveal_with_fuel(power_of_ten, 3);
    }
    lemma_decimal_len((progress % 3600 / 60) as nat, 2);
    lemma_decimal_len((progress % 60) as nat, 2);
    assert(all[h.len() as int] == ':');
    assert forall|k: int| 0 <= k < all.len() implies is_digit(#[trigger] all[k]) || all[k]
        == ':' by {
        if k < h.len() {
            assert(all[k] == h[k]);
        } else if k == h.len() {
        } else if k < h.len() + 1 + m.len() {
            assert(all[k] == m[k - h.len() - 1]);
        } else if k == h.len() + 1 + m.len() {
        } else {
            assert(all[k] == s[k - h.len() - m.len() - 2]);
        }
    }
}

/// A frame can be drawn exactly where the font holds the glyphs of the
/// digits and the colon, the terminal told its size, and the clock in its
/// glyphs is not wider than the machine can count. A font without those
/// glyphs is refused with `GlyphIndex`, whatever the terminal told; then a
/// terminal that told nothing with `Resource`; then a clock that is too wide
/// with `DimensionMismatch`.
pub proof fn lemma_frame_of(phase: Phase, font: Catalog, progress: u64, size: Option<(u16, u16)>)
    requires
        font.wf(),
    ensures
        frame_of(phase, font, progress, size) is Ok <==> font.glyphs.len() >= CLOCK_GLYPHS
            && size is Some && clock(progress).len() * font.width <= usize::MAX,
        font.glyphs.len() < CLOCK_GLYPHS ==> frame_of(phase, font, progress, size) matches Err(
            FontError::GlyphIndex(_),
        ),
        font.glyphs.len() >= CLOCK_GLYPHS && size is None ==> frame_of(
            phase,
            font,
            progress,
            size,
        ) == Err::<FrameText, FontError>(FontError::Resource),
        font.glyphs.len() >= CLOCK_GLYPHS && size is Some && clock(progress).len() * font.width
            > usize::MAX ==> frame_of(phase, font, progress, size) == Err::<FrameText, FontError>(
            FontError::DimensionMismatch,
        ),
{
    let text = clock(progress);
    lemma_clock(progress);
    lemma_render_shape(font, text);
    if font.glyphs.len() >= CLOCK_GLYPHS {
        assert forall|k: int| 0 <= k < text.len() implies covers(font, #[trigger] text[k] as int) by {
            assert(is_digit(text[k]) || text[k] == ':');
        }
        let art = font.render(text).unwrap();
        if let Some((term_width, term_height)) = size {
            lemma_centered_ok(art, term_width as int, term_height as int);
            if art.height > 0 {
                assert(art.rows[0].len() == text.len() * font.width);
            }
        }
    } else {
        let k = choose|k: int| 0 <= k < text.len() && text[k] == ':';
        assert(!covers(font, text[k] as int));
        lemma_render_refusal(font, text);
    }
}

/// One frame: what is written to the terminal for one second of a phase.
#[derive(Debug)]
pub struct Frame {
    /// The progress line.
    pub indicator: String,
    /// The clock in block glyphs.
    pub art: String,
}

impl View for Frame {
    type V = FrameText;

    open spec fn view(&self) -> FrameText {
        FrameText { indicator: self.indicator@, art: self.art@ }
    }
}

/// Whether an outcome of drawing is the one that the model gives.
pub open spec fn agrees_frame(res: Result<Frame, FontError>, model: Result<FrameText, FontError>) -> bool {
    match (res, model) {
        (Ok(frame), Ok(text)) => frame@ == text,
        (Err(e), Err(f)) => e == f,
        _ => false,
    }
}

/// The clock for `progress` seconds.
pub fn clock_text(progress: u64) -> (s: String)
    ensures
        s@ == clock(progress),
{
    proof {
        reveal_strlit(":");
    }
    let mut s = decimal_string(progress / 3600);
    s.append(":");
    s.append(decimal_string((progress % 3600) / 60).as_str());
    s.append(":");
    s.append(decimal_string(progress % 60).as_str());
    assert(s@ =~= clock(progress));
    s
}

/// `unit` written `n` times.
pub fn repeat(unit: &str, n: usize) -> (s: String)
    ensures
        s@ == repeated(unit@, n as nat),
{
    let mut s = String::new();
    let mut i: usize = 0;
    while i < n
        invariant
            i <= n,
            s@ == repeated(unit@, i as nat),
        decreases n - i,
    {
        s.append(unit);
        i += 1;
    }
    s
}

/// `text` in the colour of a kind of phase.
pub fn paint(kind: TimerType, text: &str) -> (s: String)
    ensures
        s@ == painted(kind, text@),
{
    let mut s = match kind {
        TimerType::Session => String::from_str("\x1b[35m"),
        TimerType::Break => String::from_str("\x1b[32m"),
    };
    s.append(text);
    s.append("\x1b[0m");
    s
}

impl Phase {
    /// The progress line of this phase, `x_pad` columns from the left.
    pub fn indicator(&self, x_pad: usize) -> (s: String)
        ensures
            s@ == indicator(self.kind, x_pad as nat, self.ordinal, self.number),
    {
        let mut lit = repeat("\u{2580} ", self.ordinal);
        lit.append("\u{2580} ");
        let unlit = if self.number > self.ordinal {
            repeat("\u{2584} ", self.number - self.ordinal - 1)
        } else {
            String::new()
        };
        let mut s = spaces(x_pad);
        s.append(paint(self.kind, lit.as_str()).as_str());
        s.append(unlit.as_str());
        s.append(" working...\n");
        assert(s@ =~= indicator(self.kind, x_pad as nat, self.ordinal, self.number));
        s
    }

    /// The frame of this phase around a clock that has been centred with
    /// `x_pad` columns to its left.
    pub fn compose(&self, aligned: &ArtString, x_pad: usize) -> (frame: Frame)
        ensures
            frame@ == composed(*self, aligned@, x_pad as nat),
    {
        Frame {
            indicator: self.indicator(x_pad),
            art: paint(self.kind, aligned.to_string().as_str()),
        }
    }

    /// The frame of this phase with `progress` seconds left, as [`frame_of`]
    /// says. `size` is what the terminal told of its columns and rows. The
    /// clock is rendered first: where the font lacks one of its glyphs, that
    /// error comes out, whatever the terminal told.
    pub fn frame(&self, font: &AaFont, progress: u64, size: Option<(u16, u16)>) -> (res: Result<
        Frame,
        FontError,
    >)
        ensures
            agrees_frame(res, frame_of(*self, font@, progress, size)),
            font@.render(clock(progress)) matches Err(e) ==> res == Err::<Frame, FontError>(e),
    {
        let art = match font.get_string(clock_text(progress).as_str()) {
            Ok(art) => art,
            Err(e) => {
                return Err(e);
            },
        };
        match art.center_aligned(size) {
            Ok((aligned, x_pad, _)) => Ok(self.compose(&aligned, x_pad)),
            Err(e) => Err(e),
        }
    }
}

} // verus!
