use colored::{Color, Colorize};
use task_tree::print_color::{color, color_char, hours_and_minutes, lines, replace_all, rounded_box, TermColor};

#[test]
fn test_plain_box_with_title() {
    let text = "This is a test\nof the rounded box.";
    let actual = rounded_box("Hello", text, None, None, 80);
    println!("test_plain_box_with_title:\n{}", actual);

    let expected = "╭─ Hello ─────────────╮\n│ This is a test      │\n│ of the rounded box. │\n╰─────────────────────╯";
    assert_eq!(actual, expected);
}

#[test]
fn test_plain_box_no_title() {
    let actual = rounded_box("", "No title here", None, None, 80);
    println!("test_plain_box_no_title:\n{}", actual);

    let expected = "╭───────────────╮\n│ No title here │\n╰───────────────╯";
    assert_eq!(actual, expected);
}

#[test]
fn test_colored_box_visual() {
    let text = "This box has colors!\nTitle is Red, Border is Blue.";
    let actual = rounded_box("Colors", text, Some(TermColor::Blue), Some(TermColor::Red), 80);
    println!("test_colored_box_visual:\n{}", actual);
}

#[test]
fn test_colored_contents() {
    let text = "This is in written in magenta!";
    let colored_text = text.color(Color::Magenta).to_string();
    let actual = rounded_box("Colors", &colored_text, Some(TermColor::Blue), Some(TermColor::Red), 80);
    println!("test_colored_box_visual:\n{}", actual);
}

#[test]
fn box_cuts_long_lines() {
    let actual = rounded_box("", "abcdefghij\nab", None, None, 10);
    assert_eq!(actual, "╭────────╮\n│ abcde… │\n│ ab     │\n╰────────╯");
}

#[test]
fn box_of_no_lines() {
    assert_eq!(rounded_box("T", "", None, None, 80), "╭─ T ─╮\n╰─────╯");
}

#[test]
fn text_lines_like_str_lines() {
    assert_eq!(lines("a\r\nb\n\nc\n"), vec!["a", "b", "", "c"]);
    assert_eq!(lines(""), Vec::<String>::new());
    assert_eq!(lines("x\ry"), vec!["x\ry"]);
    assert_eq!(lines("a\r"), vec!["a\r"]);
    assert_eq!(lines("a\r\n"), vec!["a"]);
}

#[test]
fn replace_every_target() {
    assert_eq!(replace_all("a/b/c", '/', "<->"), "a<->b<->c");
    colored::control::set_override(false);
    assert_eq!(color_char("a/b", '/', TermColor::White), "a/b");
    colored::control::unset_override();
}

#[test]
fn hours_and_minutes_split() {
    assert_eq!(hours_and_minutes(3 * 3600 + 25 * 60 + 59), (3, 25));
    assert_eq!(hours_and_minutes(59), (0, 0));
    assert_eq!(hours_and_minutes(-90), (0, -1));
    assert_eq!(hours_and_minutes(-3700), (-1, -1));
}

#[test]
fn paint_in_the_color_asked_for() {
    colored::control::set_override(true);
    assert_eq!(color("x", &Some(TermColor::Red)), "\x1b[31mx\x1b[0m");
    assert_eq!(color("x", &Some(TermColor::AnsiColor(200))), "\x1b[38;5;200mx\x1b[0m");
    assert_eq!(color_char("a/b", '/', TermColor::BrightWhite), "a\x1b[97m/\x1b[0mb");
    let boxed = rounded_box("T", "a", Some(TermColor::Blue), Some(TermColor::Red), 80);
    assert!(boxed.starts_with("\x1b[34m╭─ \x1b[0m\x1b[31mT\x1b[0m"));
    colored::control::unset_override();
    assert_eq!(color("x", &None), "x");
}
