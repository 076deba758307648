//! Strings with an optional terminal style (SGR escape codes), padded to a
//! width. In plain mode no escape codes are written.

use vstd::prelude::*;

verus! {

/// A terminal text style.
#[derive(Clone, Copy, Debug, PartialEq, Eq, Structural)]
pub enum Style {
    Bold,
    Faint,
    Underline,
    Default,
}

/// The SGR parameter of a style.
pub open spec fn style_code(style: Style) -> char {
    match style {
        Style::Bold => '1',
        Style::Faint => '2',
        Style::Underline => '4',
        Style::Default => '0',
    }
}

/// The escape sequence that selects `style`: `ESC [ <code> m`.
pub open spec fn style_escape(style: Style) -> Seq<char> {
    seq!['\x1B', '[', style_code(style), 'm']
}

/// `s` followed by spaces up to `width` characters.
pub open spec fn padded(s: Seq<char>, width: nat) -> Seq<char> {
    if s.len() >= width {
        s
    } else {
        s + Seq::new((width - s.len()) as nat, |i: int| ' ')
    }
}

/// A string padded to `width` and, unless in plain mode, wrapped in the
/// escape of its style and the reset escape.
pub open spec fn rendered(style: Option<Style>, s: Seq<char>, plain: bool, width: nat) -> Seq<char> {
    match style {
        Some(st) if !plain => style_escape(st) + padded(s, width) + style_escape(Style::Default),
        _ => padded(s, width),
    }
}

impl Style {
    /// The escape sequence that selects this style.
    pub fn escape(&self) -> (r: &'static str)
        ensures
            r@ == style_escape(*self),
    {
        match self {
            Style::Bold => {
                proof {
                    reveal_strlit("\x1B[1m");
                }
                "\x1B[1m"
            },
            Style::Faint => {
                proof {
                    reveal_strlit("\x1B[2m");
                }
                "\x1B[2m"
            },
            Style::Underline => {
                proof {
                    reveal_strlit("\x1B[4m");
                }
                "\x1B[4m"
            },
            Style::Default => {
                proof {
                    reveal_strlit("\x1B[0m");
                }
                "\x1B[0m"
            },
        }
    }
}

/// Appends spaces to `s` up to `width` characters.
pub fn pad_to(s: &mut String, width: usize)
    ensures
        final(s)@ == padded(old(s)@, width as nat),
{
    let ghost start = s@;
    let len = s.as_str().unicode_len();
    if len >= width {
        return;
    }
    let mut k: usize = len;
    while k < width
        invariant
            len == start.len(),
            len <= k <= width,
            s@ =~= start + Seq::new((k - len) as nat, |i: int| ' '),
        decreases width - k,
    {
        let ghost before = s@;
        s.append(" ");
        proof {
            reveal_strlit(" ");
            assert(" "@ =~= seq![' ']);
            assert(s@ =~= before + seq![' ']);
        }
        k = k + 1;
    }
}

/// A string with an optional style.
pub struct FormattedString<'a> {
    pub style: Option<Style>,
    pub string: &'a str,
}

impl<'a> FormattedString<'a> {
    /// The same string with `style`.
    pub fn style(self, style: Style) -> (r: FormattedString<'a>)
        ensures
            r.style == Some(style),
            r.string == self.string,
    {
        FormattedString { style: Some(style), string: self.string }
    }

    /// `string` without a style.
    pub fn new(string: &'a str) -> (r: FormattedString<'a>)
        ensures
            r.style is None,
            r.string == string,
    {
        FormattedString { style: None, string }
    }

    /// The string padded to `width` characters, in its style unless `plain`.
    pub fn render(&self, plain: bool, width: usize) -> (r: String)
        ensures
            r@ == rendered(self.style, self.string@, plain, width as nat),
    {
        let mut body = String::from_str(self.string);
        pad_to(&mut body, width);
        match self.style {
            Some(st) if !plain => {
                let mut out = String::from_str(st.escape());
                out.append(body.as_str());
                out.append(Style::Default.escape());
                out
            },
            _ => body,
        }
    }
}

/// `s` in bold, unless `plain`.
pub fn bold(s: &str, plain: bool) -> (r: String)
    ensures
        r@ == rendered(Some(Style::Bold), s@, plain, 0),
{
    FormattedString::new(s).style(Style::Bold).render(plain, 0)
}

} // verus!
