//! The heading-line grammar: a run of one to six `*` characters, a single
//! space, an optional keyword out of the configured set, an optional
//! priority cookie `[#X]`, the mandatory headline text, and an optional
//! trailing tag fragment `:tag1:tag2:` read from the end of the line.
//!
//! Every executable function is proved equal to a specification function on
//! character sequences; the round-trip law for heading lines is proved at
//! the bottom of the module.

use vstd::prelude::*;

use crate::model::{GHeader, Header, ParseErrorKind};
use crate::text::{is_space_char, trim_end_spec, trim_spec, trim_start_spec};

verus! {

/// How many `*` characters the text starts with.
pub open spec fn star_count(s: Seq<char>) -> int
    decreases s.len(),
{
    if s.len() == 0 || s[0] != '*' {
        0
    } else {
        1 + star_count(s.skip(1))
    }
}

pub proof fn lemma_star_count_bound(s: Seq<char>)
    ensures
        0 <= star_count(s) <= s.len(),
        forall|k: int| 0 <= k < star_count(s) ==> s[k] == '*',
        star_count(s) < s.len() ==> s[star_count(s)] != '*',
    decreases s.len(),
{
    if s.len() == 0 || s[0] != '*' {
    } else {
        lemma_star_count_bound(s.skip(1));
        assert forall|k: int| 0 <= k < star_count(s) implies s[k] == '*' by {
            if k >= 1 {
                assert(s.skip(1)[k - 1] == s[k]);
            }
        }
    }
}

/// A line opens a heading iff it starts with one to six `*` followed by a
/// single space.
pub open spec fn heading_line_ok(s: Seq<char>) -> bool {
    let n = star_count(s);
    1 <= n <= 6 && n < s.len() && s[n] == ' '
}

/// `s` begins with the keyword and a separating space.
pub open spec fn kw_at(s: Seq<char>, kw: Seq<char>) -> bool {
    kw.len() > 0 && s.len() > kw.len() && s.take(kw.len() as int) == kw && s[kw.len() as int]
        == ' '
}

/// The first configured keyword that opens `s`, if any.
pub open spec fn kw_choice(s: Seq<char>, kws: Seq<Seq<char>>) -> Option<Seq<char>>
    decreases kws.len(),
{
    if kws.len() == 0 {
        Option::None
    } else if kw_at(s, kws[0]) {
        Option::Some(kws[0])
    } else {
        kw_choice(s, kws.skip(1))
    }
}

/// `s` begins with a priority cookie `[#X]` whose `X` is configured.
pub open spec fn cookie_ok(s: Seq<char>, prios: Seq<char>) -> bool {
    s.len() >= 4 && s[0] == '[' && s[1] == '#' && s[3] == ']' && prios.contains(s[2])
}

/// Characters consumed by the cookie and its optional separating space.
pub open spec fn cookie_used(s: Seq<char>) -> int {
    if s.len() > 4 && s[4] == ' ' {
        5
    } else {
        4
    }
}

/// The index of the last whitespace character of `t`, or `-1`.
pub open spec fn last_space(t: Seq<char>) -> int
    decreases t.len(),
{
    if t.len() == 0 {
        -1
    } else if is_space_char(t[t.len() - 1]) {
        t.len() - 1
    } else {
        last_space(t.take(t.len() - 1))
    }
}

pub proof fn lemma_last_space_bound(t: Seq<char>)
    ensures
        -1 <= last_space(t) < t.len(),
        last_space(t) >= 0 ==> is_space_char(t[last_space(t)]),
        forall|k: int| last_space(t) < k < t.len() ==> !is_space_char(t[k]),
    decreases t.len(),
{
    if t.len() == 0 {
    } else if is_space_char(t[t.len() - 1]) {
    } else {
        let tt = t.take(t.len() - 1);
        lemma_last_space_bound(tt);
        if last_space(t) >= 0 {
            assert(tt[last_space(t)] == t[last_space(t)]);
        }
        assert forall|k: int| last_space(t) < k < t.len() implies !is_space_char(t[k]) by {
            if k < t.len() - 1 {
                assert(tt[k] == t[k]);
            }
        }
    }
}

/// A tag fragment: `:a:b:` — colon-fenced, no whitespace, no empty segment.
pub open spec fn tag_frag_ok(f: Seq<char>) -> bool {
    &&& f.len() >= 3
    &&& f[0] == ':'
    &&& f[f.len() - 1] == ':'
    &&& forall|k: int| 0 <= k < f.len() ==> !is_space_char(#[trigger] f[k])
    &&& forall|k: int| 0 <= k < f.len() - 1 ==> !(#[trigger] f[k] == ':' && f[k + 1] == ':')
}

/// The index of the first `:` of `f`, or `f.len()` when there is none.
pub open spec fn first_colon(f: Seq<char>) -> int
    decreases f.len(),
{
    if f.len() == 0 {
        0
    } else if f[0] == ':' {
        0
    } else {
        1 + first_colon(f.skip(1))
    }
}

pub proof fn lemma_first_colon(f: Seq<char>)
    ensures
        0 <= first_colon(f) <= f.len(),
        first_colon(f) < f.len() ==> f[first_colon(f)] == ':',
        forall|k: int| 0 <= k < first_colon(f) ==> f[k] != ':',
    decreases f.len(),
{
    if f.len() == 0 {
    } else if f[0] == ':' {
    } else {
        lemma_first_colon(f.skip(1));
        assert forall|k: int| 0 <= k < first_colon(f) implies f[k] != ':' by {
            if k >= 1 {
                assert(f.skip(1)[k - 1] == f[k]);
            }
        }
    }
}

/// The colon-delimited segments of `f`, which starts with a `:`.
pub open spec fn tags_split(f: Seq<char>) -> Seq<Seq<char>>
    decreases f.len(),
    via tags_split_dec
{
    if f.len() <= 1 {
        Seq::empty()
    } else {
        let j = 1 + first_colon(f.skip(1));
        if j >= f.len() {
            seq![f.skip(1)]
        } else {
            seq![f.subrange(1, j)] + tags_split(f.skip(j))
        }
    }
}

#[via_fn]
proof fn tags_split_dec(f: Seq<char>) {
    if f.len() > 1 {
        lemma_first_colon(f.skip(1));
    }
}

/// Keeps the first occurrence of each entry, in order.
pub open spec fn dedup(s: Seq<Seq<char>>) -> Seq<Seq<char>>
    decreases s.len(),
{
    if s.len() == 0 {
        Seq::empty()
    } else if s.drop_last().contains(s.last()) {
        dedup(s.drop_last())
    } else {
        dedup(s.drop_last()).push(s.last())
    }
}

/// The mathematical result of parsing one heading line: `Ok(None)` when the
/// line is not a heading at all, `Err` when it opens a heading whose
/// headline is empty, `Ok(Some(h))` otherwise.
pub open spec fn parse_heading_spec(
    s: Seq<char>,
    kws: Seq<Seq<char>>,
    prios: Seq<char>,
) -> Result<Option<GHeader>, ParseErrorKind> {
    if !heading_line_ok(s) {
        Result::Ok(Option::None)
    } else {
        let level = star_count(s);
        let rest = s.skip(level + 1);
        let kw = kw_choice(rest, kws);
        let rest2 = match kw {
            Option::Some(k) => rest.skip(k.len() as int + 1),
            Option::None => rest,
        };
        let pri = if cookie_ok(rest2, prios) {
            Option::Some(rest2[2])
        } else {
            Option::None
        };
        let rest3 = if cookie_ok(rest2, prios) {
            rest2.skip(cookie_used(rest2))
        } else {
            rest2
        };
        let t = trim_end_spec(rest3);
        let ls = last_space(t);
        let frag = t.skip(ls + 1);
        let has_tags = tag_frag_ok(frag);
        let raw = if has_tags {
            t.take(ls + 1)
        } else {
            t
        };
        let headline = trim_spec(raw);
        let tags = if has_tags {
            dedup(tags_split(frag))
        } else {
            Seq::empty()
        };
        if headline.len() == 0 {
            Result::Err(ParseErrorKind::EmptyHeadline)
        } else {
            Result::Ok(
                Option::Some(
                    GHeader { level, keyword: kw, priority: pri, headline, tags },
                ),
            )
        }
    }
}

/// A level is valid iff it lies between one and the maximum depth, six.
pub fn is_valid_header_level(input: &usize) -> (r: bool)
    ensures
        r == (1 <= *input <= 6),
{
    let max_header_size: usize = 6;
    1 <= *input && *input <= max_header_size
}

/// Copies the suffix of `v` that starts at `from`.
pub fn slice_from(v: &Vec<char>, from: usize) -> (r: Vec<char>)
    requires
        from <= v@.len(),
    ensures
        r@ == v@.skip(from as int),
{
    let mut out: Vec<char> = Vec::new();
    let mut i: usize = from;
    while i < v.len()
        invariant
            from <= i <= v@.len(),
            out@ == v@.subrange(from as int, i as int),
        decreases v@.len() - i,
    {
        out.push(v[i]);
        proof {
            assert(out@ =~= v@.subrange(from as int, i + 1 as int));
        }
        i = i + 1;
    }
    proof {
        assert(out@ =~= v@.skip(from as int));
    }
    out
}

/// Copies the region `[lo, hi)` of `v`.
pub fn slice(v: &Vec<char>, lo: usize, hi: usize) -> (r: Vec<char>)
    requires
        lo <= hi <= v@.len(),
    ensures
        r@ == v@.subrange(lo as int, hi as int),
{
    let mut out: Vec<char> = Vec::new();
    let mut i: usize = lo;
    while i < hi
        invariant
            lo <= i <= hi <= v@.len(),
            out@ == v@.subrange(lo as int, i as int),
        decreases hi - i,
    {
        out.push(v[i]);
        proof {
            assert(out@ =~= v@.subrange(lo as int, i + 1 as int));
        }
        i = i + 1;
    }
    out
}

/// Recognizes the level marker: the asterisk run and its following space.
/// Returns the remaining text and the level, or nothing when the line is
/// not a heading (zero asterisks, seven or more, or no space after them).
pub fn header_level(input: &Vec<char>) -> (r: Option<(Vec<char>, usize)>)
    ensures
        heading_line_ok(input@) ==> (r matches Option::Some(p) && p.1 as int == star_count(input@)
            && p.0@ == input@.skip(star_count(input@) + 1)),
        !heading_line_ok(input@) ==> r is None,
{
    let mut n: usize = 0;
    while n < input.len() && input[n] == '*'
        invariant
            0 <= n <= input@.len(),
            forall|k: int| 0 <= k < n ==> input@[k] == '*',
        decreases input@.len() - n,
    {
        n = n + 1;
    }
    proof {
        lemma_star_count_bound(input@);
        assert(star_count(input@) == n) by {
            if star_count(input@) < n {
                assert(input@[star_count(input@)] == '*');
            }
            if star_count(input@) > n {
                assert(n < input@.len());
            }
        }
    }
    if n < 1 || n > 6 {
        return Option::None;
    }
    if n >= input.len() || input[n] != ' ' {
        return Option::None;
    }
    let rest = slice_from(input, n + 1);
    Option::Some((rest, n))
}

/// Does `s` open with this keyword plus a separating space?
fn kw_match(s: &Vec<char>, kw: &Vec<char>) -> (r: bool)
    ensures
        r == kw_at(s@, kw@),
{
    if kw.len() == 0 || s.len() <= kw.len() {
        return false;
    }
    for i in 0..kw.len()
        invariant
            kw@.len() < s@.len(),
            forall|k: int| 0 <= k < i ==> s@[k] == kw@[k],
    {
        if s[i] != kw[i] {
            proof {
                assert(s@.take(kw@.len() as int)[i as int] != kw@[i as int]);
            }
            return false;
        }
    }
    proof {
        assert(s@.take(kw@.len() as int) =~= kw@);
    }
    s[kw.len()] == ' '
}

/// Recognizes the optional keyword out of the configured set; returns the
/// keyword found, if any, and the remaining text.
pub fn keyword(input: &Vec<char>, keywords: &Vec<Vec<char>>) -> (r: (
    Option<Vec<char>>,
    Vec<char>,
))
    ensures
        match kw_choice(input@, keywords.deep_view()) {
            Option::Some(k) => (r.0 matches Option::Some(w) && w@ == k) && r.1@ == input@.skip(
                k.len() as int + 1,
            ),
            Option::None => r.0 is None && r.1@ == input@,
        },
{
    let ghost kws = keywords.deep_view();
    proof {
        assert(kws.skip(0) =~= kws);
    }
    for i in 0..keywords.len()
        invariant
            kws == keywords.deep_view(),
            kws.len() == keywords@.len(),
            forall|j: int| 0 <= j < kws.len() ==> kws[j] == keywords@[j]@,
            kw_choice(input@, kws) == kw_choice(input@, kws.skip(i as int)),
    {
        let kw = &keywords[i];
        if kw_match(input, kw) {
            proof {
                assert(kws.skip(i as int)[0] == kw@);
                assert(input.len() == input@.len());
                assert(kw@.len() < input@.len());
            }
            let used = kw.len() + 1;
            let rest = slice_from(input, used);
            return (Option::Some(crate::text::copy_chars(kw)), rest);
        }
        proof {
            assert(kws.skip(i as int)[0] == kw@);
            assert(kws.skip(i as int).skip(1) =~= kws.skip(i + 1 as int));
        }
    }
    proof {
        assert(kws.skip(keywords@.len() as int) =~= Seq::<Seq<char>>::empty());
    }
    (Option::None, crate::text::copy_chars(input))
}

/// Recognizes the optional priority cookie `[#X]`; returns the priority
/// character, if any, and the remaining text. The cookie's one optional
/// separating space is consumed together with it, so the remainder opens
/// directly on the headline; the headline text is the same either way,
/// since the line parser trims it.
pub fn priority(input: &Vec<char>, prios: &Vec<char>) -> (r: (Option<char>, Vec<char>))
    ensures
        cookie_ok(input@, prios@) ==> (r.0 matches Option::Some(c) && c == input@[2]) && r.1@
            == input@.skip(cookie_used(input@)),
        !cookie_ok(input@, prios@) ==> r.0 is None && r.1@ == input@,
{
    if input.len() >= 4 && input[0] == '[' && input[1] == '#' && input[3] == ']' {
        let c = input[2];
        let mut found = false;
        for i in 0..prios.len()
            invariant
                input@.len() >= 3,
                c == input@[2],
                found == exists|j: int| 0 <= j < i && prios@[j] == input@[2],
        {
            if prios[i] == c {
                found = true;
                proof {
                    assert(prios@[i as int] == input@[2]);
                }
            }
        }
        proof {
            if found {
                let j = choose|j: int| 0 <= j < prios@.len() && prios@[j] == input@[2];
                assert(prios@.contains(input@[2]));
            } else {
                assert(!prios@.contains(input@[2])) by {
                    if prios@.contains(input@[2]) {
                        let j = choose|j: int| 0 <= j < prios@.len() && prios@[j] == input@[2];
                    }
                }
            }
        }
        if found {
            let used: usize = if input.len() > 4 && input[4] == ' ' {
                5
            } else {
                4
            };
            let rest = slice_from(input, used);
            return (Option::Some(c), rest);
        }
    }
    (Option::None, crate::text::copy_chars(input))
}


/// Pins `star_count` down from a scan: `m` asterisks then a non-asterisk.
pub proof fn lemma_star_count_is(s: Seq<char>, m: int)
    requires
        0 <= m <= s.len(),
        forall|k: int| 0 <= k < m ==> s[k] == '*',
        m < s.len() ==> s[m] != '*',
    ensures
        star_count(s) == m,
{
    lemma_star_count_bound(s);
    if star_count(s) < m {
        assert(s[star_count(s)] == '*');
    }
    if star_count(s) > m {
        assert(m < s.len());
    }
}

/// Pins `first_colon` down from a scan.
pub proof fn lemma_first_colon_is(s: Seq<char>, m: int)
    requires
        0 <= m <= s.len(),
        forall|k: int| 0 <= k < m ==> s[k] != ':',
        m < s.len() ==> s[m] == ':',
    ensures
        first_colon(s) == m,
{
    lemma_first_colon(s);
    if first_colon(s) < m {
        assert(s[first_colon(s)] != ':');
    }
    if first_colon(s) > m {
        assert(m < s.len());
    }
}

/// Pins `last_space` down from a scan from the right.
pub proof fn lemma_last_space_is(s: Seq<char>, m: int)
    requires
        -1 <= m < s.len(),
        forall|k: int| m < k < s.len() ==> !is_space_char(s[k]),
        m >= 0 ==> is_space_char(s[m]),
    ensures
        last_space(s) == m,
{
    lemma_last_space_bound(s);
    if last_space(s) < m {
        assert(!is_space_char(s[m]));
    }
    if last_space(s) > m {
        assert(!is_space_char(s[last_space(s)]));
    }
}

/// Splits a colon-fenced fragment into its segments.
fn tags_collect(f: &Vec<char>) -> (r: Vec<Vec<char>>)
    ensures
        r.deep_view() == tags_split(f@),
    decreases f@.len(),
{
    if f.len() <= 1 {
        let out: Vec<Vec<char>> = Vec::new();
        proof {
            assert(out.deep_view() =~~= tags_split(f@));
        }
        return out;
    }
    let mut j: usize = 1;
    while j < f.len() && f[j] != ':'
        invariant
            1 <= j <= f@.len(),
            forall|k: int| 1 <= k < j ==> f@[k] != ':',
        decreases f@.len() - j,
    {
        j = j + 1;
    }
    proof {
        assert forall|k: int| 0 <= k < j - 1 implies f@.skip(1)[k] != ':' by {
            assert(f@.skip(1)[k] == f@[k + 1]);
        }
        if j < f@.len() {
            assert(f@.skip(1)[j - 1] == f@[j as int]);
        }
        lemma_first_colon_is(f@.skip(1), j - 1);
    }
    if j >= f.len() {
        let seg = slice_from(f, 1);
        let mut out: Vec<Vec<char>> = Vec::new();
        out.push(seg);
        proof {
            assert(out.deep_view() =~~= tags_split(f@));
        }
        out
    } else {
        let seg = slice(f, 1, j);
        let tail = slice_from(f, j);
        let mut rest = tags_collect(&tail);
        let mut out: Vec<Vec<char>> = Vec::new();
        out.push(seg);
        let ghost restv = rest.deep_view();
        proof {
            crate::text::lemma_deep_view_is_views(&rest);
        }
        let mut k: usize = 0;
        while k < rest.len()
            invariant
                0 <= k <= rest@.len(),
                restv == rest.deep_view(),
                restv.len() == rest@.len(),
                forall|m: int| 0 <= m < rest@.len() ==> restv[m] == rest@[m]@,
                out@.len() == 1 + k,
                out@[0]@ == f@.subrange(1, j as int),
                forall|m: int| 0 <= m < k ==> out@[m + 1]@ == rest@[m]@,
            decreases rest@.len() - k,
        {
            let item = crate::text::copy_chars(&rest[k]);
            out.push(item);
            k = k + 1;
        }
        proof {
            crate::text::lemma_deep_view_is_views(&out);
            let target = seq![f@.subrange(1, j as int)] + restv;
            assert(out.deep_view().len() == target.len());
            assert forall|m: int| 0 <= m < target.len() implies out.deep_view()[m] == target[m] by {
                if m == 0 {
                } else {
                    assert(target[m] == restv[m - 1]);
                }
            }
            assert(out.deep_view() =~= target);
            assert(out.deep_view() =~~= tags_split(f@));
        }
        out
    }
}

/// Is any of the first `n` entries of `v` equal to `x`?
fn contains_upto(v: &Vec<Vec<char>>, n: usize, x: &Vec<char>) -> (r: bool)
    requires
        n <= v@.len(),
    ensures
        r == v.deep_view().take(n as int).contains(x@),
{
    proof {
        crate::text::lemma_deep_view_is_views(v);
    }
    let mut i: usize = 0;
    while i < n
        invariant
            0 <= i <= n <= v@.len(),
            forall|j: int| 0 <= j < v@.len() ==> v.deep_view()[j] == v@[j]@,
            forall|j: int| 0 <= j < i ==> v@[j]@ != x@,
        decreases n - i,
    {
        if crate::text::chars_eq(&v[i], x) {
            proof {
                assert(v.deep_view().take(n as int)[i as int] == x@);
            }
            return true;
        }
        i = i + 1;
    }
    proof {
        assert(!v.deep_view().take(n as int).contains(x@)) by {
            if v.deep_view().take(n as int).contains(x@) {
                let j = choose|j: int|
                    0 <= j < n && v.deep_view().take(n as int)[j] == x@;
                assert(v@[j]@ == x@);
            }
        }
    }
    false
}

/// Drops every repeated tag, keeping first occurrences in order.
fn dedup_tags(tags: &Vec<Vec<char>>) -> (r: Vec<Vec<char>>)
    ensures
        r.deep_view() == dedup(tags.deep_view()),
{
    let mut out: Vec<Vec<char>> = Vec::new();
    proof {
        crate::text::lemma_deep_view_is_views(tags);
        assert(out.deep_view() =~~= dedup(tags.deep_view().take(0)));
    }
    for i in 0..tags.len()
        invariant
            forall|j: int| 0 <= j < tags@.len() ==> tags.deep_view()[j] == tags@[j]@,
            tags.deep_view().len() == tags@.len(),
            out.deep_view() =~~= dedup(tags.deep_view().take(i as int)),
    {
        let dup = contains_upto(tags, i, &tags[i]);
        proof {
            let dv = tags.deep_view();
            assert(dv.take(i + 1 as int).drop_last() =~= dv.take(i as int));
            assert(dv.take(i + 1 as int).last() == dv[i as int]);
            assert(dv[i as int] == tags@[i as int]@);
        }
        if !dup {
            out.push(crate::text::copy_chars(&tags[i]));
        }
        proof {
            assert(out.deep_view() =~~= dedup(tags.deep_view().take(i + 1 as int)));
        }
    }
    proof {
        assert(tags.deep_view().take(tags@.len() as int) =~= tags.deep_view());
    }
    out
}

/// Does the fragment satisfy the tag-fragment shape?
fn tag_frag_check(f: &Vec<char>) -> (r: bool)
    ensures
        r == tag_frag_ok(f@),
{
    if f.len() < 3 {
        return false;
    }
    if f[0] != ':' || f[f.len() - 1] != ':' {
        return false;
    }
    for i in 0..f.len()
        invariant
            f@.len() >= 3,
            forall|k: int| 0 <= k < i ==> !is_space_char(#[trigger] f@[k]),
            forall|k: int|
                0 <= k < i && k + 1 < f@.len() ==> !(#[trigger] f@[k] == ':' && f@[k + 1] == ':'),
    {
        if crate::text::space_char(f[i]) {
            return false;
        }
        if i + 1 < f.len() && f[i] == ':' && f[i + 1] == ':' {
            return false;
        }
    }
    true
}

/// Parses one heading line, against the given keyword and priority sets.
/// `Ok(None)` means the line is no heading at all; `Err` reports an empty
/// headline on a line that did open a heading.
pub fn parse_heading_line(
    line: &Vec<char>,
    keywords: &Vec<Vec<char>>,
    prios: &Vec<char>,
) -> (r: Result<Option<Header>, ParseErrorKind>)
    ensures
        ({
            let s = parse_heading_spec(line@, keywords.deep_view(), prios@);
            match r {
                Result::Ok(Option::None) => s == Result::<Option<GHeader>, ParseErrorKind>::Ok(
                    Option::None,
                ),
                Result::Ok(Option::Some(h)) => (s matches Result::Ok(og) && og matches Option::Some(
                    g,
                ) && g == h@),
                Result::Err(e) => s == Result::<Option<GHeader>, ParseErrorKind>::Err(e),
            }
        }),
{
    let lv = match header_level(line) {
        Option::None => {
            return Result::Ok(Option::None);
        },
        Option::Some(p) => p,
    };
    let (rest, level) = lv;
    let (kw, rest2) = keyword(&rest, keywords);
    let (pri, rest3) = priority(&rest2, prios);
    let t = crate::text::trim_end(&rest3);
    let mut k: usize = t.len();
    while k > 0 && !crate::text::space_char(t[k - 1])
        invariant
            0 <= k <= t@.len(),
            forall|m: int| k <= m < t@.len() ==> !is_space_char(t@[m]),
        decreases k,
    {
        k = k - 1;
    }
    proof {
        lemma_last_space_is(t@, k - 1);
    }
    let frag = slice_from(&t, k);
    let has_tags = tag_frag_check(&frag);
    let raw = if has_tags {
        slice(&t, 0, k)
    } else {
        crate::text::copy_chars(&t)
    };
    let tags: Vec<Vec<char>> = if has_tags {
        let segs = tags_collect(&frag);
        dedup_tags(&segs)
    } else {
        Vec::new()
    };
    let headline = crate::text::trim(&raw);
    proof {
        assert(raw@ == if tag_frag_ok(frag@) {
            t@.take(last_space(t@) + 1)
        } else {
            t@
        });
    }
    if headline.len() == 0 {
        Result::Err(ParseErrorKind::EmptyHeadline)
    } else {
        let h = Header { level, keyword: kw, priority: pri, headline, tags };
        proof {
            let s = parse_heading_spec(line@, keywords.deep_view(), prios@);
            assert(s matches Result::Ok(og) && og matches Option::Some(g) && g =~= h@);
        }
        Result::Ok(Option::Some(h))
    }
}

/// `n` copies of one character.
pub open spec fn repeat_char(c: char, n: int) -> Seq<char>
    decreases n,
{
    if n <= 0 {
        Seq::empty()
    } else {
        repeat_char(c, n - 1).push(c)
    }
}

pub proof fn lemma_repeat_char(c: char, n: int)
    requires
        n >= 0,
    ensures
        repeat_char(c, n).len() == n,
        forall|k: int| 0 <= k < n ==> repeat_char(c, n)[k] == c,
    decreases n,
{
    if n > 0 {
        lemma_repeat_char(c, n - 1);
    }
}

/// The colon-separated chain `:a:b` of a tag list.
pub open spec fn tags_chain(tags: Seq<Seq<char>>) -> Seq<char>
    decreases tags.len(),
{
    if tags.len() == 0 {
        Seq::empty()
    } else {
        seq![':'] + tags[0] + tags_chain(tags.skip(1))
    }
}

/// The canonical text of a parsed heading line: the asterisk run, a single
/// space, then keyword, priority cookie, headline and tag fragment, each
/// separated by one space.
pub open spec fn serialize_heading_spec(g: GHeader) -> Seq<char> {
    let stars = repeat_char('*', g.level) + seq![' '];
    let kwp = match g.keyword {
        Option::Some(k) => k + seq![' '],
        Option::None => Seq::empty(),
    };
    let prip = match g.priority {
        Option::Some(c) => seq!['[', '#', c, ']', ' '],
        Option::None => Seq::empty(),
    };
    let tagp = if g.tags.len() == 0 {
        Seq::empty()
    } else {
        seq![' '] + tags_chain(g.tags) + seq![':']
    };
    stars + kwp + prip + g.headline + tagp
}

/// Writes a parsed heading line back out in canonical form.
pub fn serialize_heading(h: &Header) -> (r: Vec<char>)
    ensures
        r@ == serialize_heading_spec(h@),
{
    let mut out: Vec<char> = Vec::new();
    let mut n: usize = 0;
    while n < h.level
        invariant
            0 <= n <= h.level,
            out@ =~= repeat_char('*', n as int),
        decreases h.level - n,
    {
        out.push('*');
        n = n + 1;
    }
    out.push(' ');
    let ghost stars = repeat_char('*', h.level as int) + seq![' '];
    proof {
        assert(out@ =~= stars);
    }
    match &h.keyword {
        Option::Some(k) => {
            let mut i: usize = 0;
            while i < k.len()
                invariant
                    0 <= i <= k@.len(),
                    out@ =~= stars + k@.subrange(0, i as int),
                decreases k@.len() - i,
            {
                out.push(k[i]);
                proof {
                    assert(out@ =~= stars + k@.subrange(0, i + 1 as int));
                }
                i = i + 1;
            }
            out.push(' ');
            proof {
                assert(k@.subrange(0, k@.len() as int) =~= k@);
            }
        },
        Option::None => {},
    }
    let ghost kwp: Seq<char> = match h@.keyword {
        Option::Some(k) => k + seq![' '],
        Option::None => Seq::empty(),
    };
    proof {
        assert(out@ =~= stars + kwp);
    }
    match &h.priority {
        Option::Some(c) => {
            out.push('[');
            out.push('#');
            out.push(*c);
            out.push(']');
            out.push(' ');
        },
        Option::None => {},
    }
    let ghost prip: Seq<char> = match h@.priority {
        Option::Some(c) => seq!['[', '#', c, ']', ' '],
        Option::None => Seq::empty(),
    };
    proof {
        assert(out@ =~= stars + kwp + prip);
    }
    let mut i: usize = 0;
    while i < h.headline.len()
        invariant
            0 <= i <= h.headline@.len(),
            out@ =~= stars + kwp + prip + h.headline@.subrange(0, i as int),
        decreases h.headline@.len() - i,
    {
        out.push(h.headline[i]);
        proof {
            assert(out@ =~= stars + kwp + prip + h.headline@.subrange(0, i + 1 as int));
        }
        i = i + 1;
    }
    let ghost front = stars + kwp + prip + h.headline@;
    proof {
        assert(h.headline@.subrange(0, h.headline@.len() as int) =~= h.headline@);
        assert(out@ =~= front);
    }
    if h.tags.len() > 0 {
        out.push(' ');
        let ghost tagsv = h.tags.deep_view();
        proof {
            assert(tagsv.take(0) =~= Seq::<Seq<char>>::empty());
            assert(out@ =~= front + seq![' '] + tags_chain(tagsv.take(0)));
        }
        let mut j: usize = 0;
        while j < h.tags.len()
            invariant
                0 <= j <= h.tags@.len(),
                tagsv == h.tags.deep_view(),
                tagsv.len() == h.tags@.len(),
                out@ =~= front + seq![' '] + tags_chain(tagsv.take(j as int)),
            decreases h.tags@.len() - j,
        {
            out.push(':');
            let tag = &h.tags[j];
            let ghost sofar = front + seq![' '] + tags_chain(tagsv.take(j as int)) + seq![':'];
            proof {
                assert(out@ =~= sofar);
            }
            let mut i: usize = 0;
            while i < tag.len()
                invariant
                    0 <= i <= tag@.len(),
                    out@ =~= sofar + tag@.subrange(0, i as int),
                decreases tag@.len() - i,
            {
                out.push(tag[i]);
                proof {
                    assert(out@ =~= sofar + tag@.subrange(0, i + 1 as int));
                }
                i = i + 1;
            }
            proof {
                assert(tag@.subrange(0, tag@.len() as int) =~= tag@);
                lemma_tags_chain_push(tagsv.take(j as int), tagsv[j as int]);
                assert(tagsv.take(j as int).push(tagsv[j as int]) =~= tagsv.take(j + 1 as int));
                assert(tag@ == tagsv[j as int]);
                assert(out@ =~= front + seq![' '] + tags_chain(tagsv.take(j + 1 as int)));
            }
            j = j + 1;
        }
        out.push(':');
        proof {
            assert(tagsv.take(tagsv.len() as int) =~= tagsv);
            assert(out@ =~= front + seq![' '] + tags_chain(tagsv) + seq![':']);
            assert(out@ =~= serialize_heading_spec(h@));
        }
    } else {
        proof {
            assert(out@ =~= serialize_heading_spec(h@));
        }
    }
    out
}

/// Appending a tag to the list extends the chain at its end.
pub proof fn lemma_tags_chain_push(s: Seq<Seq<char>>, x: Seq<char>)
    ensures
        tags_chain(s.push(x)) == tags_chain(s) + seq![':'] + x,
    decreases s.len(),
{
    if s.len() == 0 {
        assert(s.push(x)[0] == x);
        assert(s.push(x).skip(1) =~= Seq::<Seq<char>>::empty());
        assert(tags_chain(s.push(x)) == seq![':'] + x + tags_chain(Seq::<Seq<char>>::empty()));
        assert(seq![':'] + x + Seq::<char>::empty() =~= Seq::<char>::empty() + seq![':'] + x);
    } else {
        assert(s.push(x)[0] == s[0]);
        assert(s.push(x).skip(1) =~= s.skip(1).push(x));
        lemma_tags_chain_push(s.skip(1), x);
        assert(tags_chain(s.push(x)) == seq![':'] + s[0] + (tags_chain(s.skip(1)) + seq![':']
            + x));
        assert(seq![':'] + s[0] + (tags_chain(s.skip(1)) + seq![':'] + x) =~= (seq![':'] + s[0]
            + tags_chain(s.skip(1))) + seq![':'] + x);
    }
}


/// An asterisk run of zero, or of seven or more, never opens a heading:
/// the line parses as no heading at all, and the block parser then keeps it
/// as plain paragraph text.
pub proof fn lemma_no_heading_outside_levels(s: Seq<char>, kws: Seq<Seq<char>>, prios: Seq<char>)
    requires
        star_count(s) == 0 || star_count(s) >= 7,
    ensures
        parse_heading_spec(s, kws, prios) == Result::<Option<GHeader>, ParseErrorKind>::Ok(
            Option::None,
        ),
{
}


/// The canonical heading line of `level` and `headline` parses back to that
/// level and headline with no keyword, no priority and no tags, and
/// serializing the parse reproduces the line exactly.
pub open spec fn round_trips(
    level: int,
    headline: Seq<char>,
    kws: Seq<Seq<char>>,
    prios: Seq<char>,
) -> bool {
    let line = repeat_char('*', level) + seq![' '] + headline;
    let g = (GHeader {
        level,
        keyword: Option::None,
        priority: Option::None,
        headline,
        tags: Seq::empty(),
    });
    &&& parse_heading_spec(line, kws, prios) == Result::<Option<GHeader>, ParseErrorKind>::Ok(
        Option::Some(g),
    )
    &&& serialize_heading_spec(g) == line
}

/// Round trip of a plain heading line: for every level in range and every
/// standalone headline, the canonical line of level asterisks, one space
/// and the headline parses back to exactly that level and headline, and
/// serializing the parse reproduces the line character for character. A headline is
/// standalone when it carries no surrounding whitespace, does not open with
/// a configured keyword or priority cookie, and does not end in a tag
/// fragment.
pub proof fn lemma_heading_round_trip(level: int, headline: Seq<char>, kws: Seq<Seq<char>>, prios: Seq<char>)
    requires
        1 <= level <= 6,
        headline.len() > 0,
        !is_space_char(headline[0]),
        !is_space_char(headline[headline.len() - 1]),
        kw_choice(headline, kws) == Option::<Seq<char>>::None,
        !cookie_ok(headline, prios),
        !tag_frag_ok(headline.skip(last_space(headline) + 1)),
    ensures
        round_trips(level, headline, kws, prios),
{
    let line = repeat_char('*', level) + seq![' '] + headline;
    let g = GHeader {
        level,
        keyword: Option::None,
        priority: Option::None,
        headline,
        tags: Seq::empty(),
    };
    lemma_repeat_char('*', level);
    assert forall|k: int| 0 <= k < level implies line[k] == '*' by {
        assert(line[k] == repeat_char('*', level)[k]);
    }
    assert(line[level] == (seq![' '] + headline)[0]);
    lemma_star_count_is(line, level);
    assert(heading_line_ok(line));
    let rest = line.skip(level + 1);
    assert(rest =~= headline);
    assert(kw_choice(rest, kws) is None);
    assert(!cookie_ok(rest, prios));
    assert(trim_end_spec(headline) == headline);
    let t = trim_end_spec(rest);
    assert(t == headline);
    let ls = last_space(t);
    let frag = t.skip(ls + 1);
    assert(!tag_frag_ok(frag));
    assert(trim_start_spec(headline) == headline);
    assert(trim_spec(headline) == headline);
    assert(parse_heading_spec(line, kws, prios) matches Result::Ok(og) && og
        matches Option::Some(g2) && g2 =~= g);
    assert(serialize_heading_spec(g) =~= line);
    assert(round_trips(level, headline, kws, prios));
}
} // verus!
