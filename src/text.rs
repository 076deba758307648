//! Small string helpers: splitting on a separator character.

use vstd::prelude::*;

verus! {

/// The pieces of `s` between the `sep` characters (one empty piece for an
/// empty text), as `str::split` gives them.
pub open spec fn split_on(s: Seq<char>, sep: char) -> Seq<Seq<char>>
    decreases s.len(),
{
    if s.len() == 0 {
        seq![Seq::<char>::empty()]
    } else {
        let prev = split_on(s.drop_last(), sep);
        if s.last() == sep {
            prev.push(Seq::<char>::empty())
        } else {
            prev.update(prev.len() - 1, prev.last().push(s.last()))
        }
    }
}

pub proof fn lemma_split_nonempty(s: Seq<char>, sep: char)
    ensures
        split_on(s, sep).len() >= 1,
    decreases s.len(),
{
    if s.len() > 0 {
        lemma_split_nonempty(s.drop_last(), sep);
    }
}

/// Relies on `String::push`: appends one character.
#[verifier::external_body]
pub(crate) fn push_char(s: &mut String, c: char)
    ensures
        final(s)@ == old(s)@.push(c),
{
    s.push(c)
}

/// The pieces of `s` between the `sep` characters.
pub fn split(s: &str, sep: char) -> (r: Vec<String>)
    ensures
        r@.map_values(|p: String| p@) == split_on(s@, sep),
{
    let n = s.unicode_len();
    let mut pieces: Vec<String> = Vec::new();
    pieces.push(String::new());
    assert(s@.subrange(0, 0) =~= Seq::<char>::empty());
    assert(pieces@.map_values(|p: String| p@) =~= split_on(Seq::<char>::empty(), sep));
    let mut i: usize = 0;
    while i < n
        invariant
            n == s@.len(),
            i <= n,
            pieces@.map_values(|p: String| p@) =~= split_on(s@.subrange(0, i as int), sep),
        decreases n - i,
    {
        let c = s.get_char(i);
        let ghost prefix = s@.subrange(0, (i + 1) as int);
        proof {
            assert(prefix.drop_last() =~= s@.subrange(0, i as int));
            assert(prefix.last() == c);
            lemma_split_nonempty(s@.subrange(0, i as int), sep);
        }
        if c == sep {
            pieces.push(String::new());
        } else {
            let mut last = pieces.pop().unwrap();
            push_char(&mut last, c);
            pieces.push(last);
        }
        assert(pieces@.map_values(|p: String| p@) =~= split_on(prefix, sep));
        i = i + 1;
    }
    assert(s@.subrange(0, n as int) =~= s@);
    pieces
}

/// `s` without its trailing `/` characters.
pub open spec fn trimmed_path(s: Seq<char>) -> Seq<char>
    decreases s.len(),
{
    if s.len() > 0 && s.last() == '/' {
        trimmed_path(s.drop_last())
    } else {
        s
    }
}

/// `path` without its trailing `/` characters.
pub fn trim_path(path: &str) -> (r: &str)
    ensures
        r@ == trimmed_path(path@),
{
    let mut k = path.unicode_len();
    assert(path@.subrange(0, k as int) =~= path@);
    while k > 0 && path.get_char(k - 1) == '/'
        invariant
            k <= path@.len(),
            trimmed_path(path@) == trimmed_path(path@.subrange(0, k as int)),
        decreases k,
    {
        assert(path@.subrange(0, k as int).drop_last() =~= path@.subrange(0, k - 1));
        k = k - 1;
    }
    path.substring_char(0, k)
}

} // verus!
