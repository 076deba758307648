//! The tags of a song: the server's own tags, and the raw comments of the
//! file as a fallback. Tag names match without regard to case.

use vstd::prelude::*;

verus! {

/// The upper-case form of a string, as Unicode defines it.
pub uninterp spec fn upper_of(s: Seq<char>) -> Seq<char>;

/// Relies on `str::to_uppercase`: the result depends on the characters
/// alone.
#[verifier::external_body]
fn to_upper(s: &str) -> (r: String)
    ensures
        r@ == upper_of(s@),
{
    s.to_uppercase()
}

/// Lexicographic order of strings by code point (the order of `str`).
pub open spec fn seq_less(a: Seq<char>, b: Seq<char>) -> bool
    decreases a.len(),
{
    if a.len() == 0 {
        b.len() > 0
    } else if b.len() == 0 {
        false
    } else if a[0] != b[0] {
        a[0] < b[0]
    } else {
        seq_less(a.drop_first(), b.drop_first())
    }
}

proof fn lemma_less_irreflexive(a: Seq<char>)
    ensures
        !seq_less(a, a),
    decreases a.len(),
{
    if a.len() > 0 {
        lemma_less_irreflexive(a.drop_first());
    }
}

proof fn lemma_less_transitive(a: Seq<char>, b: Seq<char>, c: Seq<char>)
    requires
        seq_less(a, b),
        seq_less(b, c),
    ensures
        seq_less(a, c),
    decreases a.len(),
{
    if a.len() > 0 && b.len() > 0 && c.len() > 0 && a[0] == b[0] && b[0] == c[0] {
        lemma_less_transitive(a.drop_first(), b.drop_first(), c.drop_first());
    }
}

proof fn lemma_less_total(a: Seq<char>, b: Seq<char>)
    ensures
        a == b || seq_less(a, b) || seq_less(b, a),
    decreases a.len(),
{
    if a.len() > 0 && b.len() > 0 && a[0] == b[0] {
        lemma_less_total(a.drop_first(), b.drop_first());
        if a.drop_first() == b.drop_first() {
            assert(a =~= seq![a[0]] + a.drop_first());
            assert(b =~= seq![b[0]] + b.drop_first());
        }
    } else if a.len() == 0 && b.len() == 0 {
        assert(a =~= b);
    }
}

/// `a` sorts before `b`.
fn str_less(a: &str, b: &str) -> (r: bool)
    ensures
        r == seq_less(a@, b@),
{
    let na = a.unicode_len();
    let nb = b.unicode_len();
    let mut i: usize = 0;
    assert(a@.subrange(0, na as int) =~= a@);
    assert(b@.subrange(0, nb as int) =~= b@);
    while i < na && i < nb
        invariant
            na == a@.len(),
            nb == b@.len(),
            i <= na,
            i <= nb,
            seq_less(a@, b@) == seq_less(a@.subrange(i as int, na as int), b@.subrange(i as int, nb as int)),
        decreases na - i,
    {
        let ca = a.get_char(i);
        let cb = b.get_char(i);
        if ca != cb {
            return ca < cb;
        }
        assert(a@.subrange(i as int, na as int).drop_first() =~= a@.subrange(i + 1, na as int));
        assert(b@.subrange(i as int, nb as int).drop_first() =~= b@.subrange(i + 1, nb as int));
        i = i + 1;
    }
    i < nb
}

/// The strings of `s` are in strictly increasing order.
pub open spec fn strictly_sorted(s: Seq<Seq<char>>) -> bool {
    forall|i: int, j: int| 0 <= i < j < s.len() ==> seq_less(#[trigger] s[i], #[trigger] s[j])
}

/// Two strictly sorted lists with the same elements are the same list.
proof fn lemma_sorted_unique(a: Seq<Seq<char>>, b: Seq<Seq<char>>)
    requires
        strictly_sorted(a),
        strictly_sorted(b),
        a.to_set() == b.to_set(),
    ensures
        a == b,
    decreases a.len(),
{
    if a.len() == 0 {
        if b.len() > 0 {
            assert(b.to_set().contains(b[0]));
            assert(!a.to_set().contains(b[0]));
        }
        assert(a =~= b);
    } else if b.len() == 0 {
        assert(a.to_set().contains(a[0]));
    } else {
        // The first elements are both the least element.
        assert(a.to_set().contains(a[0]));
        assert(b.to_set().contains(b[0]));
        let ia = choose|i: int| 0 <= i < a.len() && a[i] == b[0];
        let ib = choose|i: int| 0 <= i < b.len() && b[i] == a[0];
        if a[0] != b[0] {
            assert(ia > 0 && ib > 0);
            assert(seq_less(a[0], a[ia]));
            assert(seq_less(b[0], b[ib]));
            lemma_less_transitive(a[0], b[0], a[0]);
            lemma_less_irreflexive(a[0]);
        }
        let ta = a.drop_first();
        let tb = b.drop_first();
        assert forall|x: Seq<char>| ta.to_set().contains(x) <==> tb.to_set().contains(x) by {
            if ta.to_set().contains(x) {
                let i = choose|i: int| 0 <= i < ta.len() && ta[i] == x;
                assert(a[i + 1] == x);
                assert(seq_less(a[0], x));
                lemma_less_irreflexive(x);
                assert(b.to_set().contains(x));
                let j = choose|j: int| 0 <= j < b.len() && b[j] == x;
                assert(j != 0);
                assert(tb[j - 1] == x);
            }
            if tb.to_set().contains(x) {
                let i = choose|i: int| 0 <= i < tb.len() && tb[i] == x;
                assert(b[i + 1] == x);
                assert(seq_less(b[0], x));
                lemma_less_irreflexive(x);
                assert(a.to_set().contains(x));
                let j = choose|j: int| 0 <= j < a.len() && a[j] == x;
                assert(j != 0);
                assert(ta[j - 1] == x);
            }
        }
        assert(ta.to_set() =~= tb.to_set());
        lemma_sorted_unique(ta, tb);
        assert(a =~= seq![a[0]] + ta);
        assert(b =~= seq![b[0]] + tb);
    }
}

/// The values of the entries of `vals` whose name matches `tag`.
pub open spec fn matching_values(vals: Seq<(String, String)>, tag: Seq<char>) -> Set<Seq<char>> {
    Set::new(
        |v: Seq<char>|
            exists|i: int| 0 <= i < vals.len() && upper_of(#[trigger] vals[i].0@) == upper_of(tag) && vals[i].1@ == v,
    )
}

/// The tags of one song.
pub struct Tags {
    pub native_mpd: Vec<(String, String)>,
    pub raw_comments: Vec<(String, String)>,
}

/// The views of a list of strings.
pub open spec fn views_of(s: Seq<&str>) -> Seq<Seq<char>> {
    s.map_values(|x: &str| x@)
}

/// Inserts `v` into the strictly sorted `out`, unless it is there already.
fn insert_sorted<'a>(out: &mut Vec<&'a str>, v: &'a str)
    requires
        strictly_sorted(views_of(old(out)@)),
    ensures
        strictly_sorted(views_of(final(out)@)),
        views_of(final(out)@).to_set() == views_of(old(out)@).to_set().insert(v@),
{
    let ghost s0 = views_of(out@);
    let mut p: usize = 0;
    while p < out.len() && str_less(out[p], v)
        invariant
            p <= out@.len(),
            s0 == views_of(out@),
            forall|k: int| 0 <= k < p ==> seq_less(#[trigger] s0[k], v@),
        decreases out@.len() - p,
    {
        p = p + 1;
    }
    if p < out.len() && !str_less(v, out[p]) {
        proof {
            lemma_less_total(out@[p as int]@, v@);
            assert(s0[p as int] == v@);
            assert(s0.to_set().insert(v@) =~= s0.to_set());
        }
        return;
    }
    out.insert(p, v);
    proof {
        let s1 = views_of(out@);
        assert(s1 =~= s0.take(p as int).push(v@) + s0.skip(p as int));
        if p < s0.len() {
            lemma_less_total(s0[p as int], v@);
        }
        assert forall|i: int, j: int| 0 <= i < j < s1.len() implies seq_less(#[trigger] s1[i], #[trigger] s1[j]) by {
            if j < p {
                assert(s1[i] == s0[i] && s1[j] == s0[j]);
            } else if j == p {
                assert(s1[i] == s0[i]);
            } else if i < p {
                assert(s1[i] == s0[i] && s1[j] == s0[j - 1]);
                assert(seq_less(s0[i], v@));
                lemma_less_transitive(s0[i], v@, s0[p as int]);
                if j - 1 > p {
                    lemma_less_transitive(s0[i], s0[p as int], s0[j - 1]);
                }
            } else if i == p {
                assert(s1[j] == s0[j - 1]);
                if j - 1 > p {
                    lemma_less_transitive(v@, s0[p as int], s0[j - 1]);
                }
            } else {
                assert(s1[i] == s0[i - 1] && s1[j] == s0[j - 1]);
            }
        }
        assert forall|x: Seq<char>| s1.to_set().contains(x) <==> s0.to_set().insert(v@).contains(x) by {
            if s1.to_set().contains(x) {
                let i = choose|i: int| 0 <= i < s1.len() && s1[i] == x;
                if i < p {
                    assert(s0[i] == x);
                } else if i > p {
                    assert(s0[i - 1] == x);
                }
            }
            if s0.to_set().contains(x) {
                let i = choose|i: int| 0 <= i < s0.len() && s0[i] == x;
                if i < p {
                    assert(s1[i] == x);
                } else {
                    assert(s1[i + 1] == x);
                }
            }
            if x == v@ {
                assert(s1[p as int] == x);
            }
        }
        assert(s1.to_set() =~= s0.to_set().insert(v@));
    }
}

/// The values of the entries of `vals` whose name matches `tag`, added to
/// the strictly sorted `out`.
fn collect_matching<'a>(out: &mut Vec<&'a str>, vals: &'a Vec<(String, String)>, tag: &str)
    requires
        strictly_sorted(views_of(old(out)@)),
    ensures
        strictly_sorted(views_of(final(out)@)),
        views_of(final(out)@).to_set() == views_of(old(out)@).to_set().union(matching_values(vals@, tag@)),
{
    let ghost s0 = views_of(out@).to_set();
    let upper_tag = to_upper(tag);
    let mut i: usize = 0;
    while i < vals.len()
        invariant
            i <= vals@.len(),
            upper_tag@ == upper_of(tag@),
            strictly_sorted(views_of(out@)),
            views_of(out@).to_set() == s0.union(Set::new(
                |v: Seq<char>|
                    exists|k: int| 0 <= k < i && upper_of(#[trigger] vals@[k].0@) == upper_of(tag@) && vals@[k].1@ == v,
            )),
        decreases vals@.len() - i,
    {
        let entry = &vals[i];
        let upper_key = to_upper(entry.0.as_str());
        let ghost before = views_of(out@).to_set();
        if upper_key == upper_tag {
            insert_sorted(out, entry.1.as_str());
        }
        let ghost matched_next = Set::new(
            |v: Seq<char>|
                exists|k: int| 0 <= k < i + 1 && upper_of(#[trigger] vals@[k].0@) == upper_of(tag@) && vals@[k].1@ == v,
        );
        let ghost matched = Set::new(
            |v: Seq<char>|
                exists|k: int| 0 <= k < i && upper_of(#[trigger] vals@[k].0@) == upper_of(tag@) && vals@[k].1@ == v,
        );
        proof {
            assert forall|v: Seq<char>| matched_next.contains(v) <==> (matched.contains(v) || (upper_key@ == upper_tag@ && v == vals@[i as int].1@)) by {
                if matched_next.contains(v) {
                    let k = choose|k: int| 0 <= k < i + 1 && upper_of(#[trigger] vals@[k].0@) == upper_of(tag@) && vals@[k].1@ == v;
                    if k < i {
                        assert(matched.contains(v));
                    }
                }
                if matched.contains(v) {
                    let k = choose|k: int| 0 <= k < i && upper_of(#[trigger] vals@[k].0@) == upper_of(tag@) && vals@[k].1@ == v;
                    assert(matched_next.contains(v));
                }
                if upper_key@ == upper_tag@ && v == vals@[i as int].1@ {
                    assert(upper_of(vals@[i as int].0@) == upper_of(tag@));
                    assert(matched_next.contains(v));
                }
            }
            assert(views_of(out@).to_set() =~= s0.union(matched_next));
        }
        i = i + 1;
    }
    proof {
        let all = Set::new(
            |v: Seq<char>|
                exists|k: int| 0 <= k < vals@.len() && upper_of(#[trigger] vals@[k].0@) == upper_of(tag@) && vals@[k].1@ == v,
        );
        assert(all =~= matching_values(vals@, tag@));
    }
}

/// The values of a tag: those of the server's tags whose name matches, or,
/// where there are none, those of the raw comments.
pub open spec fn tag_values(native: Seq<(String, String)>, raw: Seq<(String, String)>, tag: Seq<char>) -> Set<Seq<char>> {
    if matching_values(native, tag).is_empty() {
        matching_values(raw, tag)
    } else {
        matching_values(native, tag)
    }
}

/// The strings of `s` separated by `sep`.
pub open spec fn joined(s: Seq<Seq<char>>, sep: Seq<char>) -> Seq<char>
    decreases s.len(),
{
    if s.len() == 0 {
        seq![]
    } else if s.len() == 1 {
        s[0]
    } else {
        joined(s.drop_last(), sep) + sep + s.last()
    }
}

/// The strings of `s` separated by `, `.
pub open spec fn comma_joined(s: Seq<Seq<char>>) -> Seq<char> {
    joined(s, seq![',', ' '])
}

/// The values of `tag`, in increasing order, each once.
pub open spec fn sorted_values(native: Seq<(String, String)>, raw: Seq<(String, String)>, tag: Seq<char>) -> Seq<Seq<char>> {
    choose|s: Seq<Seq<char>>| strictly_sorted(s) && s.to_set() == tag_values(native, raw, tag)
}

/// The values of `tag` separated by `, `, or `None` where it has none.
pub open spec fn tag_text(native: Seq<(String, String)>, raw: Seq<(String, String)>, tag: Seq<char>) -> Option<Seq<char>> {
    let s = sorted_values(native, raw, tag);
    if s.len() == 0 {
        None
    } else {
        Some(comma_joined(s))
    }
}

/// The texts of the tags `names`, separated by `sep`, where each of them
/// has a value.
pub open spec fn tags_joined(
    native: Seq<(String, String)>,
    raw: Seq<(String, String)>,
    names: Seq<Seq<char>>,
    sep: Seq<char>,
) -> Option<Seq<char>> {
    if forall|i: int| 0 <= i < names.len() ==> (#[trigger] tag_text(native, raw, names[i])) is Some {
        Some(joined(Seq::new(names.len(), |i: int| tag_text(native, raw, names[i])->Some_0), sep))
    } else {
        None
    }
}

impl Tags {
    pub fn from_tags(native_mpd: Vec<(String, String)>, raw_comments: Vec<(String, String)>) -> (r: Tags)
        ensures
            r.native_mpd@ == native_mpd@,
            r.raw_comments@ == raw_comments@,
    {
        Tags { native_mpd, raw_comments }
    }

    /// The values of `tag`, sorted and without repeats.
    pub fn get<'a>(&'a self, tag: &'a str) -> (r: Vec<&'a str>)
        ensures
            views_of(r@) == sorted_values(self.native_mpd@, self.raw_comments@, tag@),
    {
        let mut out: Vec<&'a str> = Vec::new();
        assert(views_of(out@).to_set() =~= Set::empty());
        collect_matching(&mut out, &self.native_mpd, tag);
        assert(views_of(out@).to_set() =~= matching_values(self.native_mpd@, tag@));
        if out.len() == 0 {
            proof {
                if !matching_values(self.native_mpd@, tag@).is_empty() {
                    let v = matching_values(self.native_mpd@, tag@).choose();
                    assert(views_of(out@).to_set().contains(v));
                }
            }
            collect_matching(&mut out, &self.raw_comments, tag);
            assert(views_of(out@).to_set() =~= matching_values(self.raw_comments@, tag@));
        } else {
            proof {
                assert(views_of(out@).to_set().contains(views_of(out@)[0]));
                assert(!matching_values(self.native_mpd@, tag@).is_empty());
            }
        }
        proof {
            let chosen = sorted_values(self.native_mpd@, self.raw_comments@, tag@);
            assert(strictly_sorted(views_of(out@)) && views_of(out@).to_set() == tag_values(
                self.native_mpd@,
                self.raw_comments@,
                tag@,
            ));
            lemma_sorted_unique(views_of(out@), chosen);
        }
        out
    }

    /// The values of `tag`, or `None` where it has none.
    pub fn get_option<'a>(&'a self, tag: &'a str) -> (r: Option<Vec<&'a str>>)
        ensures
            match r {
                Some(v) => views_of(v@) == sorted_values(self.native_mpd@, self.raw_comments@, tag@) && v@.len() > 0,
                None => sorted_values(self.native_mpd@, self.raw_comments@, tag@).len() == 0,
            },
    {
        let vals = self.get(tag);
        if vals.len() == 0 {
            None
        } else {
            Some(vals)
        }
    }

    /// The values of `tag` separated by `, `, or `None` where it has none.
    pub fn get_option_joined<'a>(&'a self, tag: &'a str) -> (r: Option<String>)
        ensures
            match r {
                Some(s) => tag_text(self.native_mpd@, self.raw_comments@, tag@) == Some(s@),
                None => tag_text(self.native_mpd@, self.raw_comments@, tag@) is None,
            },
    {
        let vals = self.get(tag);
        if vals.len() == 0 {
            return None;
        }
        let ghost s = views_of(vals@);
        let mut out = String::from_str(vals[0]);
        let mut i: usize = 1;
        proof {
            assert(s.subrange(0, 1).drop_last() =~= Seq::<Seq<char>>::empty());
            assert(joined(s.subrange(0, 1), seq![',', ' ']) == s[0]);
        }
        while i < vals.len()
            invariant
                1 <= i <= vals@.len(),
                s == views_of(vals@),
                out@ == joined(s.subrange(0, i as int), seq![',', ' ']),
            decreases vals@.len() - i,
        {
            out.append(", ");
            out.append(vals[i]);
            proof {
                reveal_strlit(", ");
                assert(", "@ =~= seq![',', ' ']);
                assert(s.subrange(0, i + 1).drop_last() =~= s.subrange(0, i as int));
            }
            i = i + 1;
        }
        assert(s.subrange(0, s.len() as int) =~= s);
        Some(out)
    }

    /// The texts of the tags `names` separated by `sep`, or `None` where
    /// one of them has no value.
    pub fn joined(&self, names: &[&str], sep: &str) -> (r: Option<String>)
        ensures
            match r {
                Some(s) => tags_joined(self.native_mpd@, self.raw_comments@, views_of(names@), sep@) == Some(s@),
                None => tags_joined(self.native_mpd@, self.raw_comments@, views_of(names@), sep@) is None,
            },
    {
        let ghost native = self.native_mpd@;
        let ghost raw = self.raw_comments@;
        let ghost ns = views_of(names@);
        let ghost texts = Seq::new(ns.len(), |i: int| tag_text(native, raw, ns[i])->Some_0);
        let mut out = String::new();
        let mut i: usize = 0;
        while i < names.len()
            invariant
                i <= names@.len(),
                native == self.native_mpd@,
                raw == self.raw_comments@,
                ns == views_of(names@),
                texts == Seq::new(ns.len(), |i: int| tag_text(native, raw, ns[i])->Some_0),
                forall|k: int| 0 <= k < i ==> (#[trigger] tag_text(native, raw, ns[k])) is Some,
                out@ == joined(texts.subrange(0, i as int), sep@),
            decreases names@.len() - i,
        {
            let text = match self.get_option_joined(names[i]) {
                Some(t) => t,
                None => {
                    assert(tag_text(native, raw, ns[i as int]) is None);
                    return None;
                },
            };
            if i > 0 {
                out.append(sep);
            }
            out.append(text.as_str());
            proof {
                let next = texts.subrange(0, i + 1);
                assert(next.drop_last() =~= texts.subrange(0, i as int));
                if i == 0 {
                    assert(out@ =~= joined(next, sep@));
                } else {
                    assert(out@ =~= joined(next, sep@));
                }
            }
            i = i + 1;
        }
        assert(texts.subrange(0, ns.len() as int) =~= texts);
        Some(out)
    }
}

} // verus!
