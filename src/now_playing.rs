//! The heading of the now-playing display: composer, work and movement
//! for classical music, else artist and title, else the file name.

use vstd::prelude::*;
use crate::ansi::{bold, rendered, Style};
use crate::tags::{tag_text, tags_joined, views_of, Tags};

verus! {

/// A line in bold, unless `plain`.
pub open spec fn bold_text(s: Seq<char>, plain: bool) -> Seq<char> {
    rendered(Some(Style::Bold), s, plain, 0)
}

/// Composer, work and title (movement number and movement, else the
/// title tag) in bold on three lines, where all three are known.
pub open spec fn classical_text(native: Seq<(String, String)>, raw: Seq<(String, String)>, plain: bool) -> Option<Seq<char>> {
    let title = match tags_joined(native, raw, seq!["MOVEMENTNUMBER"@, "MOVEMENT"@], ". "@) {
        Some(t) => Some(t),
        None => tag_text(native, raw, "TITLE"@),
    };
    match (title, tag_text(native, raw, "COMPOSER"@), tag_text(native, raw, "WORK"@)) {
        (Some(t), Some(c), Some(w)) => Some(
            bold_text(c, plain) + seq!['\n'] + bold_text(w, plain) + seq!['\n'] + bold_text(t, plain),
        ),
        _ => None,
    }
}

/// Appends a line break and `line` to `out`.
fn push_line(out: &mut String, line: &str)
    ensures
        final(out)@ == old(out)@ + seq!['\n'] + line@,
{
    out.append("\n");
    proof {
        reveal_strlit("\n");
    }
    out.append(line);
}

/// The heading of a classical work, where its tags give one.
pub fn classical_work_description(tags: &Tags, plain: bool) -> (r: Option<String>)
    ensures
        match r {
            Some(s) => classical_text(tags.native_mpd@, tags.raw_comments@, plain) == Some(s@),
            None => classical_text(tags.native_mpd@, tags.raw_comments@, plain) is None,
        },
{
    let names = vec!["MOVEMENTNUMBER", "MOVEMENT"];
    assert(views_of(names@) =~= seq!["MOVEMENTNUMBER"@, "MOVEMENT"@]);
    let title = match tags.joined(names.as_slice(), ". ") {
        Some(t) => t,
        None => match tags.get_option_joined("TITLE") {
            Some(t) => t,
            None => {
                return None;
            },
        },
    };
    let composer = match tags.get_option_joined("COMPOSER") {
        Some(c) => c,
        None => {
            return None;
        },
    };
    let work = match tags.get_option_joined("WORK") {
        Some(w) => w,
        None => {
            return None;
        },
    };
    let mut out = bold(composer.as_str(), plain);
    push_line(&mut out, bold(work.as_str(), plain).as_str());
    push_line(&mut out, bold(title.as_str(), plain).as_str());
    Some(out)
}

/// Artist and title in bold on two lines, where both are known.
pub fn popular_music_title(artist: Option<&str>, title: Option<&str>, plain: bool) -> (r: Option<String>)
    ensures
        match (artist, title) {
            (Some(a), Some(t)) => r is Some && r->Some_0@ == bold_text(a@, plain) + seq!['\n'] + bold_text(t@, plain),
            _ => r is None,
        },
{
    match (artist, title) {
        (Some(a), Some(t)) => {
            let mut out = bold(a, plain);
            push_line(&mut out, bold(t, plain).as_str());
            Some(out)
        },
        _ => None,
    }
}

/// The heading for a song: its classical description, else artist and
/// title, else the file name.
pub fn header(tags: &Tags, artist: Option<&str>, title: Option<&str>, file: &str, plain: bool) -> (r: String)
    ensures
        r@ == match classical_text(tags.native_mpd@, tags.raw_comments@, plain) {
            Some(c) => c,
            None => match (artist, title) {
                (Some(a), Some(t)) => bold_text(a@, plain) + seq!['\n'] + bold_text(t@, plain),
                _ => file@,
            },
        },
{
    match classical_work_description(tags, plain) {
        Some(c) => c,
        None => match popular_music_title(artist, title, plain) {
            Some(p) => p,
            None => String::from_str(file),
        },
    }
}

} // verus!
