use davis::ansi::{bold, FormattedString, Style};
use davis::table::{Row, Table};

#[test]
fn basic_functionality() {
    let key1 = FormattedString::new("long_key");
    let val1 = FormattedString::new("val");
    let key2 = FormattedString::new("key");
    let val2 = FormattedString::new("val");
    let rows = [Row::new(vec![key1, val1]), Row::new(vec![key2, val2])];
    let table = Table { rows: &rows };
    let result = table.render(false);
    let expected = "long_key val\n\
                    key      val";
    assert_eq!(&*result, expected);
}

#[test]
fn basic_functionality_with_formatting() {
    let key1 = FormattedString::new("long_key").style(Style::Faint);
    let val1 = FormattedString::new("val").style(Style::Bold);
    let key2 = FormattedString::new("key").style(Style::Faint);
    let val2 = FormattedString::new("val").style(Style::Bold);
    let rows = [Row::new(vec![key1, val1]), Row::new(vec![key2, val2])];
    let table = Table { rows: &rows };
    let result = table.render(false);
    let expected = "\x1B[2mlong_key \x1B[0m\x1B[1mval\x1B[0m\n\
                    \x1B[2mkey      \x1B[0m\x1B[1mval\x1B[0m";
    assert_eq!(&*result, expected);
}

#[test]
fn plain_table_uses_colons() {
    let key1 = FormattedString::new("long_key").style(Style::Faint);
    let val1 = FormattedString::new("val").style(Style::Bold);
    let key2 = FormattedString::new("key");
    let val2 = FormattedString::new("val");
    let rows = [Row::new(vec![key1, val1]), Row::new(vec![key2, val2])];
    let table = Table { rows: &rows };
    assert_eq!(table.render(true), "long_key:val\nkey:val");
}

#[test]
fn ragged_rows_and_empty_table() {
    let rows = [
        Row::new(vec![FormattedString::new("a"), FormattedString::new("b"), FormattedString::new("c")]),
        Row::new(vec![FormattedString::new("dddd")]),
    ];
    let table = Table { rows: &rows };
    assert_eq!(table.render(false), "a    b c\ndddd");
    let empty: [Row; 0] = [];
    assert_eq!(Table { rows: &empty }.render(false), "");
}

#[test]
fn render_pads_inside_the_style() {
    let s = FormattedString::new("ab").style(Style::Underline);
    assert_eq!(s.render(false, 4), "\x1B[4mab  \x1B[0m");
    assert_eq!(s.render(true, 4), "ab  ");
    assert_eq!(FormattedString::new("abcdef").render(false, 3), "abcdef");
}

#[test]
fn bold_text() {
    assert_eq!(bold("x", false), "\x1B[1mx\x1B[0m");
    assert_eq!(bold("x", true), "x");
}
