use porors::config::Bind;
use porors::config::Config;
use porors::config::PauseGate;
use porors::font::spaces;
use porors::font::AaFont;
use porors::font::ArtString;
use porors::font::FontError;
use porors::output::clock_text;
use porors::output::paint;
use porors::output::repeat;
use porors::text::decimal_string;
use porors::text::line_starts;
use porors::text::to_chars;
use porors::time::Phase;
use porors::time::TimerType;

fn digit_font() -> AaFont {
    let mut packed = String::new();
    for code in 0x21u8..=0x3a {
        packed.push(code as char);
        packed.push((code as char).to_ascii_lowercase());
        packed.push('\n');
        packed.push('\n');
    }
    packed.push_str("\n\n");
    AaFont::new(2, 1, 1, &packed, true).unwrap()
}

#[test]
fn clock_shows_hours_minutes_and_seconds() {
    assert_eq!(clock_text(18188), "5:3:8");
    assert_eq!(clock_text(0), "0:0:0");
    assert_eq!(clock_text(59), "0:0:59");
    assert_eq!(clock_text(60), "0:1:0");
    assert_eq!(clock_text(3599), "0:59:59");
    assert_eq!(clock_text(3600), "1:0:0");
    assert_eq!(clock_text(86399), "23:59:59");
    assert_eq!(clock_text(u64::MAX), "5124095576030431:0:15");
}

#[test]
fn numbers_are_written_in_decimal() {
    assert_eq!(decimal_string(0), "0");
    assert_eq!(decimal_string(9), "9");
    assert_eq!(decimal_string(10), "10");
    assert_eq!(decimal_string(1234567890), "1234567890");
    assert_eq!(decimal_string(u64::MAX), "18446744073709551615");
}

#[test]
fn characters_and_line_starts_of_a_text() {
    assert_eq!(to_chars("a\u{2588}b"), vec!['a', '\u{2588}', 'b']);
    assert_eq!(line_starts(&to_chars("")), vec![0]);
    assert_eq!(line_starts(&to_chars("ab")), vec![0]);
    assert_eq!(line_starts(&to_chars("ab\n")), vec![0, 3]);
    assert_eq!(line_starts(&to_chars("\n\nab\ncd")), vec![0, 1, 2, 5]);
}

#[test]
fn spaces_and_repetitions() {
    assert_eq!(spaces(0), "");
    assert_eq!(spaces(3), "   ");
    assert_eq!(repeat("ab", 0), "");
    assert_eq!(repeat("ab", 3), "ababab");
}

#[test]
fn text_is_painted_in_the_colour_of_the_phase() {
    assert_eq!(paint(TimerType::Session, "x"), "\x1b[35mx\x1b[0m");
    assert_eq!(paint(TimerType::Break, "x"), "\x1b[32mx\x1b[0m");
}

#[test]
fn progress_line_marks_each_repetition() {
    let phase = Phase { kind: TimerType::Session, seconds: 1500, ordinal: 1, number: 4 };
    assert_eq!(
        phase.indicator(3),
        "   \x1b[35m\u{2580} \u{2580} \x1b[0m\u{2584} \u{2584}  working...\n"
    );
    let phase = Phase { kind: TimerType::Break, seconds: 300, ordinal: 0, number: 1 };
    assert_eq!(phase.indicator(0), "\x1b[32m\u{2580} \x1b[0m working...\n");
    let phase = Phase { kind: TimerType::Break, seconds: 300, ordinal: 2, number: 3 };
    assert_eq!(phase.indicator(1), " \x1b[32m\u{2580} \u{2580} \u{2580} \x1b[0m working...\n");
}

#[test]
fn progress_line_of_a_repetition_beyond_the_last_has_no_plain_mark() {
    let phase = Phase { kind: TimerType::Session, seconds: 1, ordinal: 2, number: 2 };
    assert_eq!(phase.indicator(0), "\x1b[35m\u{2580} \u{2580} \u{2580} \x1b[0m working...\n");
}

#[test]
fn a_frame_is_made_of_the_progress_line_and_the_painted_clock() {
    let phase = Phase { kind: TimerType::Session, seconds: 10, ordinal: 0, number: 2 };
    let aligned = ArtString::from(2, 2, vec![String::from("ab"), String::from("  ")], true).unwrap();
    let frame = phase.compose(&aligned, 1);
    assert_eq!(frame.indicator, " \x1b[35m\u{2580} \x1b[0m\u{2584}  working...\n");
    assert_eq!(frame.art, "\x1b[35mab\n  \n\x1b[0m");
}

#[test]
fn a_frame_shows_the_clock_in_the_middle() {
    let font = digit_font();
    let phase = Phase { kind: TimerType::Break, seconds: 300, ordinal: 1, number: 2 };
    let frame = phase.frame(&font, 3725, Some((20, 5))).unwrap();
    assert_eq!(frame.indicator, "     \x1b[32m\u{2580} \u{2580} \x1b[0m working...\n");
    assert_eq!(
        frame.art,
        "\x1b[32m     11::22::55\n               \n               \n\x1b[0m"
    );
}

#[test]
fn a_frame_on_a_narrow_terminal_is_not_cut() {
    let font = digit_font();
    let phase = Phase { kind: TimerType::Session, seconds: 300, ordinal: 0, number: 1 };
    let frame = phase.frame(&font, 59, Some((4, 1))).unwrap();
    assert_eq!(frame.indicator, "\x1b[35m\u{2580} \x1b[0m working...\n");
    assert_eq!(frame.art, "\x1b[35m00::00::5599\n\x1b[0m");
}

#[test]
fn a_frame_needs_the_digits_and_the_colon() {
    let font = AaFont::new(1, 1, 1, "!\n\n\"\n\n\n\n", true).unwrap();
    let phase = Phase { kind: TimerType::Session, seconds: 300, ordinal: 0, number: 1 };
    assert_eq!(phase.frame(&font, 7, Some((80, 24))).err(), Some(FontError::GlyphIndex(0x30)));
    assert_eq!(phase.frame(&font, 7, None).err(), Some(FontError::GlyphIndex(0x30)));
}

#[test]
fn a_frame_needs_the_size_of_the_terminal() {
    let font = digit_font();
    let phase = Phase { kind: TimerType::Session, seconds: 300, ordinal: 0, number: 1 };
    assert_eq!(phase.frame(&font, 5, None).err(), Some(FontError::Resource));
}

#[test]
fn the_line_on_the_keys_names_the_pause_key_twice() {
    let bind = Bind { stop_start: String::from("s") };
    assert_eq!(bind.nav_msg(), "stop: s, start: s");
    let bind = Bind { stop_start: String::from("space") };
    assert_eq!(bind.nav_msg(), "stop: space, start: space");
}

#[test]
fn the_pause_key_flips_the_switch() {
    let bind = Bind { stop_start: String::from("s") };
    let mut gate = PauseGate::new();
    assert!(!gate.is_paused());
    assert!(bind.handle("s", &mut gate));
    assert!(gate.is_paused());
    assert!(bind.handle("s", &mut gate));
    assert!(!gate.is_paused());
}

#[test]
fn another_key_leaves_the_switch_as_it_is() {
    let bind = Bind { stop_start: String::from("s") };
    let mut gate = PauseGate::new();
    assert!(!bind.handle("x", &mut gate));
    assert!(!bind.handle("", &mut gate));
    assert!(!bind.handle("ss", &mut gate));
    assert!(!gate.is_paused());
    gate.pause();
    assert!(!bind.handle("S", &mut gate));
    assert!(gate.is_paused());
}

#[test]
fn the_switch_pauses_and_resumes() {
    let mut gate = PauseGate::new();
    gate.pause();
    assert!(gate.is_paused());
    gate.pause();
    assert!(gate.is_paused());
    gate.resume();
    assert!(!gate.is_paused());
    gate.toggle();
    assert!(gate.is_paused());
    gate.toggle();
    assert!(!gate.is_paused());
}

#[test]
fn the_settings_hold_their_parts() {
    let config = Config::new(
        Bind { stop_start: String::from("p") },
        digit_font(),
        String::from("sounds/alarm.mp3"),
        String::from("sounds/success.mp3"),
        String::from("state.toml"),
    );
    assert_eq!(config.nav_msg, "stop: p, start: p");
    assert_eq!(config.bind.stop_start, "p");
    assert_eq!(config.aafont.glyph_count(), 26);
    assert_eq!(config.session_end_audio, "sounds/alarm.mp3");
    assert_eq!(config.break_end_audio, "sounds/success.mp3");
    assert_eq!(config.info_saved, "state.toml");
}
