use wc::{count_text, render, Options, Source, Stats};
use wc::counting::is_space_char;
use wc::report::push_decimal;

fn args(list: &[&str]) -> Vec<String> {
    list.iter().map(|a| a.to_string()).collect()
}

fn stats(lines: usize, words: usize, bytes: usize, chars: usize) -> Stats {
    Stats { bytes, lines, words, chars }
}

#[test]
fn default_mode_piped_input() {
    let o = Options::new(&args(&["wc"]));
    assert!(o.lines && o.words && o.bytes);
    assert!(!o.chars);
    assert!(matches!(o.source, Source::Stdin));
    let s = count_text("a b\nc\n");
    assert_eq!(s.lines, 2);
    assert_eq!(s.words, 3);
    assert!(s.bytes >= "a b\nc\n".len());
    assert_eq!(s.bytes, 6);
    assert_eq!(render(&s, &o), "   2   3   6\n");
}

#[test]
fn hello_world_words_and_lines() {
    let o = Options::new(&args(&["wc", "-w", "-l", "hello.txt"]));
    let s = count_text("hello world\n");
    assert_eq!(render(&s, &o), "   1   2\n");
    let o2 = Options::new(&args(&["wc", "-l", "-w", "hello.txt"]));
    assert_eq!(render(&s, &o2), "   1   2\n");
}

#[test]
fn empty_text_is_one_line() {
    assert_eq!(count_text(""), stats(1, 0, 1, 1));
}

#[test]
fn unknown_flag_is_a_file_name() {
    let o = Options::new(&args(&["wc", "-x"]));
    match o.source {
        Source::File(name) => assert_eq!(name, "-x"),
        Source::Stdin => panic!("-x should name a file"),
    }
    assert!(o.lines && o.words && o.bytes && !o.chars);
}

#[test]
fn lines_are_terminator_segments() {
    assert_eq!(count_text("a\nb").lines, 2);
    assert_eq!(count_text("a\nb\n").lines, 2);
    assert_eq!(count_text("\n\n\n").lines, 3);
    assert_eq!(count_text("x").lines, 1);
    assert_eq!(count_text("\n").lines, 1);
}

#[test]
fn unterminated_last_line_is_charged_a_terminator() {
    assert_eq!(count_text("a\nb"), stats(2, 2, 4, 4));
    assert_eq!(count_text("a\nb\n"), stats(2, 2, 4, 4));
    assert_eq!(count_text("\n"), stats(1, 0, 1, 1));
}

#[test]
fn extra_whitespace_does_not_change_words() {
    let a = count_text("one two three").words;
    let b = count_text("  one \t two\n\n   three  ").words;
    assert_eq!(a, 3);
    assert_eq!(a, b);
    assert_eq!(count_text("   ").words, 0);
    assert_eq!(count_text("onetwo").words, 1);
}

#[test]
fn unicode_whitespace_separates_words() {
    assert_eq!(count_text("a\u{3000}b\u{a0}c\u{2029}d").words, 4);
    assert_eq!(count_text("a\u{200b}b").words, 1);
    assert_eq!(count_text("x\ry\x0bz\x0cw").words, 4);
}

#[test]
fn ascii_bytes_equal_chars() {
    let s = count_text("The quick brown fox\njumps\n");
    assert_eq!(s.bytes, s.chars);
    assert_eq!(s.bytes, 26);
}

#[test]
fn multibyte_bytes_exceed_chars() {
    let s = count_text("h\u{e9}llo \u{4e16}\u{754c} \u{1f600}\n");
    assert_eq!(s.chars, 11);
    assert_eq!(s.bytes, 1 + 2 + 3 + 1 + 3 + 3 + 1 + 4 + 1);
    assert_eq!(s.words, 3);
    assert_eq!(s.lines, 1);
}

#[test]
fn repeated_flag_same_as_once() {
    let once = Options::new(&args(&["wc", "-l", "f.txt"]));
    let twice = Options::new(&args(&["wc", "-l", "-l", "f.txt"]));
    assert_eq!(
        (once.lines, once.words, once.bytes, once.chars),
        (twice.lines, twice.words, twice.bytes, twice.chars)
    );
    assert_eq!((twice.lines, twice.words, twice.bytes, twice.chars), (true, false, false, false));
}

#[test]
fn single_flag_reports_only_that_counter() {
    let o = Options::new(&args(&["wc", "-m"]));
    assert_eq!((o.lines, o.words, o.bytes, o.chars), (false, false, false, true));
    assert!(matches!(o.source, Source::Stdin));
    let l = Options::new(&args(&["wc", "-l"]));
    let ll = Options::new(&args(&["wc", "-l", "-l"]));
    assert_eq!((l.lines, l.words, l.bytes, l.chars), (true, false, false, false));
    assert_eq!((l.lines, l.words, l.bytes, l.chars), (ll.lines, ll.words, ll.bytes, ll.chars));
    assert!(matches!(ll.source, Source::Stdin));
}

#[test]
fn one_file_name_keeps_defaults() {
    let o = Options::new(&args(&["wc", "notes.txt"]));
    assert_eq!((o.lines, o.words, o.bytes, o.chars), (true, true, true, false));
}

#[test]
fn carriage_return_belongs_to_the_line() {
    assert_eq!(count_text("a\r\n"), stats(1, 1, 3, 3));
}

#[test]
fn flags_combine_and_last_name_wins() {
    let o = Options::new(&args(&["wc", "a.txt", "-c", "-m", "b.txt"]));
    assert_eq!((o.lines, o.words, o.bytes, o.chars), (false, false, true, true));
    match o.source {
        Source::File(name) => assert_eq!(name, "b.txt"),
        Source::Stdin => panic!("a file was named"),
    }
}

#[test]
fn no_arguments_at_all_reads_stdin() {
    let o = Options::new(&Vec::new());
    assert!(matches!(o.source, Source::Stdin));
    assert!(o.lines && o.words && o.bytes && !o.chars);
}

#[test]
fn render_order_is_fixed() {
    let o = Options::new(&args(&["wc", "-m", "-c", "-w", "-l"]));
    assert_eq!(render(&stats(3, 5, 27, 20), &o), "   3   5   27   20\n");
}

#[test]
fn render_numbers_in_decimal() {
    let o = Options::new(&args(&["wc", "-c", "-l", "f"]));
    assert_eq!(render(&stats(0, 0, 1234567890, 0), &o), "   0   1234567890\n");
    assert_eq!(render(&stats(10, 0, 100, 0), &o), "   10   100\n");
    assert_eq!(
        render(&stats(usize::MAX, 0, 9, 0), &o),
        format!("   {}   9\n", usize::MAX)
    );
}

#[test]
fn render_nothing_requested() {
    let o = Options::new(&args(&["wc", "f", "g"]));
    assert_eq!(render(&stats(1, 2, 3, 4), &o), "\n");
}

#[test]
fn whitespace_classification() {
    for c in [' ', '\t', '\n', '\r', '\u{b}', '\u{c}', '\u{85}', '\u{a0}', '\u{1680}', '\u{2000}', '\u{200a}', '\u{2028}', '\u{2029}', '\u{202f}', '\u{205f}', '\u{3000}'] {
        assert!(is_space_char(c), "{:?}", c);
        assert!(c.is_whitespace());
    }
    for c in ['a', '0', '\u{200b}', '\u{feff}', '\u{0}', '-'] {
        assert!(!is_space_char(c), "{:?}", c);
    }
}

#[test]
fn decimal_appends_to_existing_text() {
    let mut s = String::from("n=");
    push_decimal(&mut s, 0);
    push_decimal(&mut s, 907);
    assert_eq!(s, "n=0907");
}
