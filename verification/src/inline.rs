//! The inline object parser: scans a text run left to right and produces
//! the flat sequence of inline objects. At each position it first tries a
//! superscript or subscript group, then a markup delimiter pair; when
//! nothing matches, the character joins the growing plain-text run.
//! Unmatched delimiters never fail: they degrade to plain text.

use vstd::prelude::*;

use crate::model::{GObject, MarkupKind, Object};
use crate::text::{is_ascii_alnum, is_space_char};

verus! {

/// The markup kind a delimiter character opens, if any.
pub open spec fn delim_kind(c: char) -> Option<MarkupKind> {
    if c == '*' {
        Option::Some(MarkupKind::Bold)
    } else if c == '/' {
        Option::Some(MarkupKind::Italic)
    } else if c == '_' {
        Option::Some(MarkupKind::Underline)
    } else if c == '=' {
        Option::Some(MarkupKind::Verbatim)
    } else if c == '~' {
        Option::Some(MarkupKind::Code)
    } else if c == '+' {
        Option::Some(MarkupKind::StrikeThrough)
    } else {
        Option::None
    }
}

/// The first position of `c` in `s` at or after `from`; `s.len()` if none.
pub open spec fn find_char(s: Seq<char>, c: char, from: int) -> int
    decreases s.len() - from,
    when 0 <= from <= s.len()
{
    if from >= s.len() {
        s.len() as int
    } else if s[from] == c {
        from
    } else {
        find_char(s, c, from + 1)
    }
}

pub proof fn lemma_find_char(s: Seq<char>, c: char, from: int)
    requires
        0 <= from <= s.len(),
    ensures
        from <= find_char(s, c, from) <= s.len(),
        find_char(s, c, from) < s.len() ==> s[find_char(s, c, from)] == c,
        forall|k: int| from <= k < find_char(s, c, from) ==> s[k] != c,
    decreases s.len() - from,
{
    if from >= s.len() {
    } else if s[from] == c {
    } else {
        lemma_find_char(s, c, from + 1);
    }
}

/// The opening marker must sit at the start of the run or after a
/// non-alphanumeric character.
pub open spec fn open_boundary_ok(s: Seq<char>, i: int) -> bool {
    i == 0 || !is_ascii_alnum(s[i - 1])
}

/// A markup pair opening at `i`: its kind and the closing position. The
/// opening marker must not be followed by whitespace, the closing one (the
/// first later occurrence of the same delimiter) must not follow whitespace
/// and must be followed by the end of the run or a non-alphanumeric
/// character, and the content must be non-empty.
pub open spec fn markup_at(s: Seq<char>, i: int) -> Option<(MarkupKind, int)> {
    match delim_kind(s[i]) {
        Option::None => Option::None,
        Option::Some(k) => {
            let j = find_char(s, s[i], i + 1);
            if open_boundary_ok(s, i) && i + 1 < s.len() && !is_space_char(s[i + 1]) && j < s.len()
                && j >= i + 2 && !is_space_char(s[j - 1]) && (j + 1 == s.len() || !is_ascii_alnum(
                s[j + 1],
            )) {
                Option::Some((k, j))
            } else {
                Option::None
            }
        },
    }
}

/// A superscript or subscript group at `i`: `^{…}` or `_{…}`. The boolean
/// says which of the two; the position is that of the closing brace.
pub open spec fn script_at(s: Seq<char>, i: int) -> Option<(bool, int)> {
    if (s[i] == '^' || s[i] == '_') && i + 1 < s.len() && s[i + 1] == '{' {
        let j = find_char(s, '}', i + 2);
        if j < s.len() {
            Option::Some((s[i] == '^', j))
        } else {
            Option::None
        }
    } else {
        Option::None
    }
}

/// Appends one plain character, coalescing with a trailing plain-text run.
pub open spec fn push_plain(acc: Seq<GObject>, c: char) -> Seq<GObject> {
    if acc.len() > 0 && (acc.last() matches GObject::PlainText(t)) {
        let t = acc.last()->PlainText_0;
        acc.update(acc.len() - 1, GObject::PlainText(t.push(c)))
    } else {
        acc.push(GObject::PlainText(seq![c]))
    }
}

/// The scan itself: what the parser has produced after starting at `i` with
/// `acc` already accumulated.
pub open spec fn scan(s: Seq<char>, i: int, acc: Seq<GObject>) -> Seq<GObject>
    decreases s.len() - i,
    when 0 <= i <= s.len()
    via scan_dec
{
    if i >= s.len() {
        acc
    } else {
        match script_at(s, i) {
            Option::Some(p) => scan(
                s,
                p.1 + 1,
                acc.push(
                    if p.0 {
                        GObject::Superscript(s.subrange(i + 2, p.1))
                    } else {
                        GObject::Subscript(s.subrange(i + 2, p.1))
                    },
                ),
            ),
            Option::None => match markup_at(s, i) {
                Option::Some(m) => scan(
                    s,
                    m.1 + 1,
                    acc.push(GObject::Markup { kind: m.0, content: s.subrange(i + 1, m.1) }),
                ),
                Option::None => scan(s, i + 1, push_plain(acc, s[i])),
            },
        }
    }
}

#[via_fn]
proof fn scan_dec(s: Seq<char>, i: int, acc: Seq<GObject>) {
    if 0 <= i < s.len() {
        if s[i] == '^' || s[i] == '_' {
            if i + 2 <= s.len() {
                lemma_find_char(s, '}', i + 2);
            }
        }
        lemma_find_char(s, s[i], i + 1);
    }
}

/// The inline objects of a text run.
pub open spec fn inline_objects_spec(s: Seq<char>) -> Seq<GObject> {
    scan(s, 0, Seq::empty())
}

/// The views of a produced object list.
pub open spec fn objs_view(v: Seq<Object>) -> Seq<GObject> {
    Seq::new(v.len(), |i: int| v[i]@)
}

/// The first position of `c` at or after `from`, or the length.
pub fn find_char_exec(s: &Vec<char>, c: char, from: usize) -> (r: usize)
    requires
        from <= s@.len(),
    ensures
        r as int == find_char(s@, c, from as int),
        from <= r <= s@.len(),
{
    let mut i: usize = from;
    while i < s.len() && s[i] != c
        invariant
            from <= i <= s@.len(),
            forall|k: int| from <= k < i ==> s@[k] != c,
        decreases s@.len() - i,
    {
        i = i + 1;
    }
    proof {
        lemma_find_char(s@, c, from as int);
        let f = find_char(s@, c, from as int);
        if f < i {
            assert(s@[f] != c);
        }
        if f > i {
            assert(i < s@.len());
        }
    }
    i
}

fn delim_kind_exec(c: char) -> (r: Option<MarkupKind>)
    ensures
        r == delim_kind(c),
{
    if c == '*' {
        Option::Some(MarkupKind::Bold)
    } else if c == '/' {
        Option::Some(MarkupKind::Italic)
    } else if c == '_' {
        Option::Some(MarkupKind::Underline)
    } else if c == '=' {
        Option::Some(MarkupKind::Verbatim)
    } else if c == '~' {
        Option::Some(MarkupKind::Code)
    } else if c == '+' {
        Option::Some(MarkupKind::StrikeThrough)
    } else {
        Option::None
    }
}

/// Parses a text run into its inline objects. Plain characters coalesce, so
/// no two adjacent plain-text objects ever appear.
pub fn parse_objects(s: &Vec<char>) -> (r: Vec<Object>)
    ensures
        objs_view(r@) == inline_objects_spec(s@),
{
    let mut out: Vec<Object> = Vec::new();
    let mut i: usize = 0;
    proof {
        assert(objs_view(out@) =~= Seq::<GObject>::empty());
    }
    while i < s.len()
        invariant
            0 <= i <= s@.len(),
            scan(s@, 0, Seq::empty()) == scan(s@, i as int, objs_view(out@)),
        decreases s@.len() - i,
    {
        let c = s[i];
        let mut done = false;
        if (c == '^' || c == '_') && i + 1 < s.len() {
            if s[i + 1] == '{' {
                let j = find_char_exec(s, '}', i + 2);
                if j < s.len() {
                    let content = crate::heading::slice(s, i + 2, j);
                    let ghost before = objs_view(out@);
                    if c == '^' {
                        out.push(Object::Superscript(content));
                    } else {
                        out.push(Object::Subscript(content));
                    }
                    proof {
                        assert(objs_view(out@) =~= before.push(out@[out@.len() - 1]@));
                        assert(script_at(s@, i as int) == Option::Some((c == '^', j as int)));
                    }
                    i = j + 1;
                    done = true;
                } else {
                    proof {
                        assert(script_at(s@, i as int) is None);
                    }
                }
            }
        }
        proof {
            if !done && !(((c == '^' || c == '_') && i + 1 < s@.len() && s@[i + 1] == '{')) {
                assert(script_at(s@, i as int) is None);
            }
        }
        if !done {
            let kind = delim_kind_exec(c);
            match kind {
                Option::Some(k) => {
                    let boundary = i == 0 || !crate::text::ascii_alnum(s[i - 1]);
                    if boundary && i + 1 < s.len() && !crate::text::space_char(s[i + 1]) {
                        let j = find_char_exec(s, c, i + 1);
                        if j < s.len() && j >= i + 2 && !crate::text::space_char(s[j - 1]) && (j + 1
                            == s.len() || !crate::text::ascii_alnum(s[j + 1])) {
                            let content = crate::heading::slice(s, i + 1, j);
                            let ghost before = objs_view(out@);
                            out.push(Object::Markup { kind: k, content });
                            proof {
                                assert(objs_view(out@) =~= before.push(
                                    out@[out@.len() - 1]@,
                                ));
                                assert(markup_at(s@, i as int) == Option::Some((k, j as int)));
                            }
                            i = j + 1;
                            done = true;
                        } else {
                            proof {
                                assert(markup_at(s@, i as int) is None);
                            }
                        }
                    } else {
                        proof {
                            assert(markup_at(s@, i as int) is None);
                        }
                    }
                },
                Option::None => {
                    proof {
                        assert(markup_at(s@, i as int) is None);
                    }
                },
            }
        }
        if !done {
            let ghost before = objs_view(out@);
            let mut fresh = true;
            match out.pop() {
                Option::Some(o) => {
                    match o {
                        Object::PlainText(t) => {
                            let mut t2 = t;
                            t2.push(c);
                            out.push(Object::PlainText(t2));
                            fresh = false;
                        },
                        other => {
                            out.push(other);
                        },
                    }
                },
                Option::None => {},
            }
            if fresh {
                let mut t: Vec<char> = Vec::new();
                t.push(c);
                out.push(Object::PlainText(t));
            }
            proof {
                assert(objs_view(out@) =~= push_plain(before, s@[i as int]));
            }
            i = i + 1;
        }
    }
    proof {
        assert(scan(s@, i as int, objs_view(out@)) == objs_view(out@));
    }
    out
}


/// The delimiter pattern occurs in `s` at position `p`.
pub open spec fn occurs_at(s: Seq<char>, pat: Seq<char>, p: int) -> bool {
    0 <= p && p + pat.len() <= s.len() && s.subrange(p, p + pat.len() as int) == pat
}

/// The first position at or after `from` where the pattern occurs; `-1`
/// when it never does.
pub open spec fn find_sub(s: Seq<char>, pat: Seq<char>, from: int) -> int
    decreases s.len() + 1 - from,
    when 0 <= from
{
    if from + pat.len() > s.len() {
        -1
    } else if occurs_at(s, pat, from) {
        from
    } else {
        find_sub(s, pat, from + 1)
    }
}

pub proof fn lemma_find_sub(s: Seq<char>, pat: Seq<char>, from: int)
    requires
        0 <= from,
    ensures
        find_sub(s, pat, from) == -1 || (from <= find_sub(s, pat, from) && occurs_at(
            s,
            pat,
            find_sub(s, pat, from),
        )),
        forall|p: int| from <= p < find_sub(s, pat, from) ==> !occurs_at(s, pat, p),
        find_sub(s, pat, from) == -1 ==> (forall|p: int| from <= p ==> !occurs_at(s, pat, p)),
    decreases s.len() + 1 - from,
{
    if from + pat.len() > s.len() {
    } else if occurs_at(s, pat, from) {
    } else {
        lemma_find_sub(s, pat, from + 1);
    }
}

/// Does the pattern occur at `p`?
fn occurs_check(s: &Vec<char>, pat: &Vec<char>, p: usize) -> (r: bool)
    requires
        p + pat@.len() <= s@.len(),
    ensures
        r == occurs_at(s@, pat@, p as int),
{
    proof {
        assert(s@.len() == s.len());
    }
    for m in 0..pat.len()
        invariant
            p + pat@.len() <= s@.len(),
            s@.len() == vstd::std_specs::vec::spec_vec_len(s),
            forall|q: int| 0 <= q < m ==> s@[p + q] == pat@[q],
    {
        if s[p + m] != pat[m] {
            proof {
                assert(s@.subrange(p as int, p + pat@.len() as int)[m as int] != pat@[m as int]);
            }
            return false;
        }
    }
    proof {
        assert(s@.subrange(p as int, p + pat@.len() as int) =~= pat@);
    }
    true
}

/// Matches an opening delimiter, the content up to the first closing
/// delimiter, and that closing delimiter; gives back the content and what
/// follows. Nothing matches when the opening delimiter is absent or no
/// closing one follows.
pub fn markup(input: &Vec<char>, start: &Vec<char>, end: &Vec<char>) -> (r: Option<
    (Vec<char>, Vec<char>),
>)
    ensures
        ({
            let sl = start@.len() as int;
            let j = find_sub(input@, end@, sl);
            match r {
                Option::Some(cr) => occurs_at(input@, start@, 0) && j >= 0 && cr.0@
                    == input@.subrange(sl, j) && cr.1@ == input@.skip(j + end@.len()),
                Option::None => !occurs_at(input@, start@, 0) || j < 0,
            }
        }),
{
    if start.len() > input.len() {
        return Option::None;
    }
    if !occurs_check(input, start, 0) {
        return Option::None;
    }
    if end.len() > input.len() || start.len() > input.len() - end.len() {
        proof {
            assert forall|q: int| start@.len() <= q implies !occurs_at(input@, end@, q) by {
                assert(q + end@.len() > input@.len());
            }
            assert(find_sub(input@, end@, start@.len() as int) == -1) by {
                lemma_find_sub(input@, end@, start@.len() as int);
                let f = find_sub(input@, end@, start@.len() as int);
                if f >= 0 {
                    assert(occurs_at(input@, end@, f));
                }
            }
        }
        return Option::None;
    }
    let limit = input.len() - end.len();
    let mut p: usize = start.len();
    let mut found = false;
    while p <= limit && !found
        invariant
            start@.len() <= p <= limit + 1,
            limit + end@.len() == input@.len(),
            forall|q: int| start@.len() <= q < p ==> !occurs_at(input@, end@, q),
            found ==> p <= limit && occurs_at(input@, end@, p as int),
        decreases input@.len() - p + (if found { 0int } else { 1int }),
    {
        if occurs_check(input, end, p) {
            found = true;
        } else {
            proof {
                if end@.len() == 0 {
                    assert(input@.subrange(p as int, p as int) =~= Seq::<char>::empty());
                    assert(Seq::<char>::empty() =~= end@);
                    assert(occurs_at(input@, end@, p as int));
                }
                assert(end@.len() > 0);
                assert(end.len() == end@.len());
                assert(input.len() == input@.len());
            }
            p = p + 1;
        }
    }
    proof {
        lemma_find_sub(input@, end@, start@.len() as int);
    }
    if !found {
        proof {
            assert forall|q: int| start@.len() <= q implies !occurs_at(input@, end@, q) by {
                if q < p {
                } else {
                    assert(q + end@.len() > input@.len());
                }
            }
            assert(find_sub(input@, end@, start@.len() as int) == -1) by {
                let f = find_sub(input@, end@, start@.len() as int);
                if f >= 0 {
                    assert(occurs_at(input@, end@, f));
                }
            }
        }
        return Option::None;
    }
    proof {
        let f = find_sub(input@, end@, start@.len() as int);
        assert(occurs_at(input@, end@, p as int));
        if f == -1 {
            assert(!occurs_at(input@, end@, p as int));
        }
        if f < p {
            assert(!occurs_at(input@, end@, f));
        }
        if f > p {
            assert(!occurs_at(input@, end@, p as int));
        }
        assert(f == p);
    }
    let content = crate::heading::slice(input, start.len(), p);
    let rest = crate::heading::slice_from(input, p + end.len());
    proof {
        assert(rest@ == input@.skip(p + end@.len()));
    }
    Option::Some((content, rest))
}

} // verus!
