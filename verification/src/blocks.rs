//! The block structure parser: consumes the document line by line and
//! recognizes headings, property drawers, planning lines, greater-element
//! fences, directives, blank lines and paragraph runs. Its control state —
//! what mode each line is read in, and when a structural error aborts the
//! parse — is mirrored by a specification-level state machine, and the
//! parser's success or failure is proved equal to that machine's verdict.

use vstd::prelude::*;

use crate::heading::{heading_line_ok, parse_heading_spec, star_count};
use crate::model::{
    props_wf, Document, Element, GreaterKind, Header, Heading, ParseError, ParseErrorKind,
    Property, VerbatimKind,
};
use crate::text::{is_space_char, seq_eq_ci, trim_spec};

verus! {

/// The lines of `s` from position `pos` on, split at line feeds. The last
/// segment is the tail after the last line feed, so the decomposition is
/// exact: no line holds a line feed, and interleaving the lines with line
/// feeds gives the text back.
pub open spec fn lines_from(s: Seq<char>, pos: int) -> Seq<Seq<char>>
    decreases s.len() - pos,
    when 0 <= pos <= s.len()
    via lines_from_dec
{
    let j = crate::inline::find_char(s, '\n', pos);
    if j >= s.len() {
        seq![s.subrange(pos, s.len() as int)]
    } else {
        seq![s.subrange(pos, j)] + lines_from(s, j + 1)
    }
}

#[via_fn]
proof fn lines_from_dec(s: Seq<char>, pos: int) {
    crate::inline::lemma_find_char(s, '\n', pos);
}

/// The lines of a text.
pub open spec fn lines_spec(s: Seq<char>) -> Seq<Seq<char>> {
    lines_from(s, 0)
}

/// Splits the text at line feeds.
pub fn split_lines(text: &Vec<char>) -> (r: Vec<Vec<char>>)
    ensures
        r.deep_view() == lines_spec(text@),
        r@.len() > 0,
{
    let mut out: Vec<Vec<char>> = Vec::new();
    let mut pos: usize = 0;
    proof {
        crate::text::lemma_deep_view_is_views(&out);
    }
    loop
        invariant_except_break
            0 <= pos <= text@.len(),
            lines_spec(text@) == out.deep_view() + lines_from(text@, pos as int),
        ensures
            lines_spec(text@) == out.deep_view(),
            out.deep_view().len() > 0,
        decreases text@.len() - pos,
    {
        let j = crate::inline::find_char_exec(text, '\n', pos);
        let ghost pre = out.deep_view();
        let seg = crate::heading::slice(text, pos, j);
        out.push(seg);
        proof {
            crate::text::lemma_deep_view_is_views(&out);
            assert(out.deep_view() =~= pre.push(text@.subrange(pos as int, j as int)));
        }
        if j >= text.len() {
            proof {
                assert(lines_from(text@, pos as int) =~= seq![
                    text@.subrange(pos as int, text@.len() as int),
                ]);
                assert(out.deep_view() =~= pre + lines_from(text@, pos as int));
                assert(lines_spec(text@) == out.deep_view());
            }
            break;
        }
        proof {
            assert(lines_from(text@, pos as int) =~= seq![
                text@.subrange(pos as int, j as int),
            ] + lines_from(text@, j + 1 as int));
            assert(out.deep_view() + lines_from(text@, j + 1 as int) =~= pre + lines_from(
                text@,
                pos as int,
            ));
        }
        pos = j + 1;
    }
    proof {
        crate::text::lemma_deep_view_is_views(&out);
    }
    out
}

/// All whitespace, possibly empty.
pub open spec fn is_blank(l: Seq<char>) -> bool {
    forall|k: int| 0 <= k < l.len() ==> is_space_char(#[trigger] l[k])
}

pub open spec fn is_drawer_open(l: Seq<char>) -> bool {
    l == ":PROPERTIES:"@
}

pub open spec fn is_drawer_end(l: Seq<char>) -> bool {
    l == ":END:"@
}

/// A drawer entry `:KEY: value`: the key between the first two colons,
/// non-empty and without whitespace; the value trimmed.
pub open spec fn drawer_entry(l: Seq<char>) -> Option<(Seq<char>, Seq<char>)> {
    if l.len() >= 2 && l[0] == ':' {
        let k = crate::inline::find_char(l, ':', 1);
        if k < l.len() && k > 1 && (forall|m: int| 1 <= m < k ==> !is_space_char(#[trigger] l[m]))
        {
            Option::Some((l.subrange(1, k), trim_spec(l.skip(k + 1))))
        } else {
            Option::None
        }
    } else {
        Option::None
    }
}

/// `p` opens `l`, compared without regard to ASCII case.
pub open spec fn prefix_ci(l: Seq<char>, p: Seq<char>) -> bool {
    l.len() >= p.len() && seq_eq_ci(l.take(p.len() as int), p)
}

/// What a fence keyword names.
#[derive(Clone, Copy, Debug, PartialEq, Eq, Structural)]
pub enum FenceKind {
    Container(GreaterKind),
    Raw(VerbatimKind),
}

pub open spec fn fence_kind_of(rest: Seq<char>) -> Option<FenceKind> {
    if seq_eq_ci(rest, "CENTER"@) {
        Option::Some(FenceKind::Container(GreaterKind::Center))
    } else if seq_eq_ci(rest, "QUOTE"@) {
        Option::Some(FenceKind::Container(GreaterKind::Quote))
    } else if seq_eq_ci(rest, "EXAMPLE"@) {
        Option::Some(FenceKind::Raw(VerbatimKind::Example))
    } else if seq_eq_ci(rest, "SRC"@) {
        Option::Some(FenceKind::Raw(VerbatimKind::Source))
    } else {
        Option::None
    }
}

pub open spec fn fence_open(l: Seq<char>) -> Option<FenceKind> {
    if prefix_ci(l, "#+BEGIN_"@) {
        fence_kind_of(crate::text::trim_end_spec(l.skip(8)))
    } else {
        Option::None
    }
}

pub open spec fn fence_close(l: Seq<char>) -> Option<FenceKind> {
    if prefix_ci(l, "#+END_"@) {
        fence_kind_of(crate::text::trim_end_spec(l.skip(6)))
    } else {
        Option::None
    }
}

/// The control state of the line scan: inside a drawer, inside a raw
/// fence, or in text mode with the stack of open container fences; and
/// whether a property drawer may open on the next line.
pub struct GCtrl {
    pub in_drawer: bool,
    pub raw: Option<VerbatimKind>,
    pub at_start: bool,
    pub after_heading: bool,
    pub containers: Seq<GreaterKind>,
}

pub open spec fn ctrl_init() -> GCtrl {
    GCtrl {
        in_drawer: false,
        raw: Option::None,
        at_start: true,
        after_heading: false,
        containers: Seq::empty(),
    }
}

/// One line of the control machine. A drawer may open only on the very
/// first line of the document or immediately after a heading line; inside
/// it, only entries and its end line are accepted. Heading lines and
/// drawers are recognized only outside containers; inside a raw fence only
/// its end line is special.
pub open spec fn ctrl_step(
    st: GCtrl,
    l: Seq<char>,
    kws: Seq<Seq<char>>,
    prios: Seq<char>,
) -> Result<GCtrl, ParseErrorKind> {
    if st.in_drawer {
        if is_drawer_end(l) {
            Result::Ok(GCtrl { in_drawer: false, at_start: false, after_heading: false, ..st })
        } else if drawer_entry(l) is Some {
            Result::Ok(st)
        } else {
            Result::Err(ParseErrorKind::UnterminatedDrawer)
        }
    } else if st.raw is Some {
        if fence_close(l) == Option::Some(FenceKind::Raw(st.raw->0)) {
            Result::Ok(GCtrl { raw: Option::None, ..st })
        } else {
            Result::Ok(st)
        }
    } else if st.containers.len() == 0 && !(parse_heading_spec(l, kws, prios) == Result::<
        Option<crate::model::GHeader>,
        ParseErrorKind,
    >::Ok(Option::None)) {
        match parse_heading_spec(l, kws, prios) {
            Result::Err(e) => Result::Err(e),
            Result::Ok(_) => Result::Ok(
                GCtrl { at_start: false, after_heading: true, ..st },
            ),
        }
    } else if st.containers.len() == 0 && is_drawer_open(l) {
        if st.at_start || st.after_heading {
            Result::Ok(GCtrl { in_drawer: true, at_start: false, after_heading: false, ..st })
        } else {
            Result::Err(ParseErrorKind::MisplacedPropertyDrawer)
        }
    } else if fence_open(l) is Some {
        match fence_open(l)->Some_0 {
            FenceKind::Raw(k) => Result::Ok(
                GCtrl {
                    raw: Option::Some(k),
                    at_start: false,
                    after_heading: false,
                    ..st
                },
            ),
            FenceKind::Container(g) => Result::Ok(
                GCtrl {
                    containers: st.containers.push(g),
                    at_start: false,
                    after_heading: false,
                    ..st
                },
            ),
        }
    } else if st.containers.len() > 0 && fence_close(l) == Option::Some(
        FenceKind::Container(st.containers.last()),
    ) {
        Result::Ok(
            GCtrl {
                containers: st.containers.drop_last(),
                at_start: false,
                after_heading: false,
                ..st
            },
        )
    } else {
        Result::Ok(GCtrl { at_start: false, after_heading: false, ..st })
    }
}

/// The machine folded over the lines from `i` on; an error carries the
/// offending line.
pub open spec fn ctrl_scan(
    lines: Seq<Seq<char>>,
    i: int,
    st: GCtrl,
    kws: Seq<Seq<char>>,
    prios: Seq<char>,
) -> Result<GCtrl, (int, ParseErrorKind)>
    decreases lines.len() - i,
    when 0 <= i <= lines.len()
{
    if i >= lines.len() {
        Result::Ok(st)
    } else {
        match ctrl_step(st, lines[i], kws, prios) {
            Result::Err(e) => Result::Err((i, e)),
            Result::Ok(st2) => ctrl_scan(lines, i + 1, st2, kws, prios),
        }
    }
}

/// What remains open at the end of input is an error there.
pub open spec fn ctrl_finish(st: GCtrl, end: int) -> Option<(int, ParseErrorKind)> {
    if st.in_drawer {
        Option::Some((end, ParseErrorKind::UnterminatedDrawer))
    } else if st.raw is Some {
        Option::Some((end, ParseErrorKind::UnterminatedFence))
    } else if st.containers.len() > 0 {
        Option::Some((end, ParseErrorKind::UnterminatedFence))
    } else {
        Option::None
    }
}

/// The structural verdict on a document: the first error the control
/// machine meets, or none.
pub open spec fn scan_verdict(
    lines: Seq<Seq<char>>,
    kws: Seq<Seq<char>>,
    prios: Seq<char>,
) -> Option<(int, ParseErrorKind)> {
    match ctrl_scan(lines, 0, ctrl_init(), kws, prios) {
        Result::Err(e) => Option::Some(e),
        Result::Ok(st) => ctrl_finish(st, lines.len() as int),
    }
}

/// A property drawer anywhere but at the document start or immediately
/// after a heading line is rejected as misplaced. Stated for a drawer
/// whose preceding lines are all plain text or blank (so no earlier error
/// can mask it): the parse fails on that very line with
/// `MisplacedPropertyDrawer`.
pub proof fn lemma_misplaced_drawer_rejected(
    lines: Seq<Seq<char>>,
    k: int,
    kws: Seq<Seq<char>>,
    prios: Seq<char>,
)
    requires
        0 < k < lines.len(),
        is_drawer_open(lines[k]),
        forall|j: int|
            0 <= j < k ==> plain_line(#[trigger] lines[j], kws, prios),
    ensures
        scan_verdict(lines, kws, prios) == Option::Some((k, ParseErrorKind::MisplacedPropertyDrawer)),
{
    lemma_plain_prefix(lines, 0, k, ctrl_init(), kws, prios);
    let st = plain_state();
    assert(ctrl_scan(lines, 0, ctrl_init(), kws, prios) == ctrl_scan(lines, k, st, kws, prios));
    reveal_strlit(":PROPERTIES:");
    let l = lines[k];
    assert(l[0] == ':');
    assert(star_count(l) == 0);
    assert(!heading_line_ok(l));
    assert(ctrl_step(st, l, kws, prios) == Result::<GCtrl, ParseErrorKind>::Err(
        ParseErrorKind::MisplacedPropertyDrawer,
    ));
}

/// A line that the machine passes over as plain text: no heading, no
/// drawer line, no fence, and no heading-line error.
pub open spec fn plain_line(l: Seq<char>, kws: Seq<Seq<char>>, prios: Seq<char>) -> bool {
    &&& parse_heading_spec(l, kws, prios) == Result::<
        Option<crate::model::GHeader>,
        ParseErrorKind,
    >::Ok(Option::None)
    &&& !is_drawer_open(l)
    &&& (fence_open(l) is None)
    &&& (fence_close(l) is None)
}

/// The state after any non-empty run of plain lines.
pub open spec fn plain_state() -> GCtrl {
    GCtrl {
        in_drawer: false,
        raw: Option::None,
        at_start: false,
        after_heading: false,
        containers: Seq::empty(),
    }
}

proof fn lemma_plain_prefix(
    lines: Seq<Seq<char>>,
    i: int,
    k: int,
    st: GCtrl,
    kws: Seq<Seq<char>>,
    prios: Seq<char>,
)
    requires
        0 <= i < k <= lines.len(),
        st == ctrl_init() || st == plain_state(),
        forall|j: int| 0 <= j < k ==> plain_line(#[trigger] lines[j], kws, prios),
    ensures
        ctrl_scan(lines, i, st, kws, prios) == ctrl_scan(lines, k, plain_state(), kws, prios),
    decreases k - i,
{
    assert(plain_line(lines[i], kws, prios));
    let st2 = GCtrl { at_start: false, after_heading: false, ..st };
    assert(ctrl_step(st, lines[i], kws, prios) == Result::<GCtrl, ParseErrorKind>::Ok(st2));
    assert(st2 == plain_state());
    if i + 1 < k {
        lemma_plain_prefix(lines, i + 1, k, st2, kws, prios);
    }
}


/// One recognized top-level block record.
#[derive(Debug)]
pub enum Block {
    Heading(Header),
    Drawer(Vec<Property>),
    Directive { title: bool, value: Vec<char> },
    Planning(Vec<char>),
    Piece(Element),
}

pub open spec fn block_wf(b: Block) -> bool {
    match b {
        Block::Heading(h) => crate::model::header_wf(h@),
        Block::Drawer(ps) => props_wf(ps@),
        _ => true,
    }
}

/// Every heading record is well formed and every drawer's keys are unique.
pub open spec fn blocks_wf(bs: Seq<Block>) -> bool {
    forall|i: int| 0 <= i < bs.len() ==> block_wf(#[trigger] bs[i])
}

/// Does `l` equal the literal, character for character?
fn line_is(l: &Vec<char>, lit: &str) -> (r: bool)
    ensures
        r == (l@ == lit@),
{
    let t = crate::text::text(lit);
    crate::text::chars_eq(l, &t)
}

/// Does the literal open `l`, compared without regard to ASCII case?
fn prefix_ci_exec(l: &Vec<char>, p: &Vec<char>) -> (r: bool)
    ensures
        r == prefix_ci(l@, p@),
{
    if l.len() < p.len() {
        return false;
    }
    let front = crate::heading::slice(l, 0, p.len());
    proof {
        assert(front@ == l@.take(p@.len() as int));
    }
    crate::text::chars_eq_ci(&front, p)
}

/// Recognizes a drawer entry line.
fn drawer_entry_exec(l: &Vec<char>) -> (r: Option<(Vec<char>, Vec<char>)>)
    ensures
        match r {
            Option::Some(kv) => drawer_entry(l@) == Option::Some((kv.0@, kv.1@)),
            Option::None => drawer_entry(l@) is None,
        },
{
    if l.len() < 2 || l[0] != ':' {
        return Option::None;
    }
    let k = crate::inline::find_char_exec(l, ':', 1);
    if k >= l.len() || k <= 1 {
        return Option::None;
    }
    let mut m: usize = 1;
    while m < k
        invariant
            1 <= m <= k < l@.len(),
            l@.len() >= 2,
            l@[0] == ':',
            k as int == crate::inline::find_char(l@, ':', 1),
            forall|q: int| 1 <= q < m ==> !is_space_char(#[trigger] l@[q]),
        decreases k - m,
    {
        if crate::text::space_char(l[m]) {
            proof {
                assert(is_space_char(l@[m as int]));
                assert(!(forall|q: int| 1 <= q < k ==> !is_space_char(#[trigger] l@[q])));
            }
            return Option::None;
        }
        m = m + 1;
    }
    let key = crate::heading::slice(l, 1, k);
    let tail = crate::heading::slice_from(l, k + 1);
    let value = crate::text::trim(&tail);
    Option::Some((key, value))
}

/// Recognizes a fence keyword after its prefix.
fn fence_kind_exec(rest: &Vec<char>) -> (r: Option<FenceKind>)
    ensures
        r == fence_kind_of(rest@),
{
    let c = crate::text::text("CENTER");
    let q = crate::text::text("QUOTE");
    let e = crate::text::text("EXAMPLE");
    let sr = crate::text::text("SRC");
    if crate::text::chars_eq_ci(rest, &c) {
        Option::Some(FenceKind::Container(GreaterKind::Center))
    } else if crate::text::chars_eq_ci(rest, &q) {
        Option::Some(FenceKind::Container(GreaterKind::Quote))
    } else if crate::text::chars_eq_ci(rest, &e) {
        Option::Some(FenceKind::Raw(VerbatimKind::Example))
    } else if crate::text::chars_eq_ci(rest, &sr) {
        Option::Some(FenceKind::Raw(VerbatimKind::Source))
    } else {
        Option::None
    }
}

fn fence_open_exec(l: &Vec<char>) -> (r: Option<FenceKind>)
    ensures
        r == fence_open(l@),
{
    let p = crate::text::text("#+BEGIN_");
    proof {
        reveal_strlit("#+BEGIN_");
        assert(p@.len() == 8);
    }
    if prefix_ci_exec(l, &p) {
        let tail = crate::heading::slice_from(l, 8);
        let rest = crate::text::trim_end(&tail);
        fence_kind_exec(&rest)
    } else {
        Option::None
    }
}

fn fence_close_exec(l: &Vec<char>) -> (r: Option<FenceKind>)
    ensures
        r == fence_close(l@),
{
    let p = crate::text::text("#+END_");
    proof {
        reveal_strlit("#+END_");
        assert(p@.len() == 6);
    }
    if prefix_ci_exec(l, &p) {
        let tail = crate::heading::slice_from(l, 6);
        let rest = crate::text::trim_end(&tail);
        fence_kind_exec(&rest)
    } else {
        Option::None
    }
}

fn blank_exec(l: &Vec<char>) -> (r: bool)
    ensures
        r == is_blank(l@),
{
    for m in 0..l.len()
        invariant
            forall|q: int| 0 <= q < m ==> is_space_char(#[trigger] l@[q]),
    {
        if !crate::text::space_char(l[m]) {
            return false;
        }
    }
    true
}

/// Does the literal open `l` exactly?
fn prefix_exact(l: &Vec<char>, lit: &str) -> (r: bool)
    ensures
        r == (l@.len() >= lit@.len() && l@.take(lit@.len() as int) == lit@),
{
    let p = crate::text::text(lit);
    if l.len() < p.len() {
        return false;
    }
    let front = crate::heading::slice(l, 0, p.len());
    crate::text::chars_eq(&front, &p)
}

/// The kinds of the open container frames, innermost last.
pub open spec fn frames_kinds(fs: Seq<(GreaterKind, Vec<Element>)>) -> Seq<GreaterKind> {
    Seq::new(fs.len(), |i: int| fs[i].0)
}

/// The lines interleaved with line feeds.
pub open spec fn joined(lines: Seq<Seq<char>>) -> Seq<char>
    decreases lines.len(),
{
    if lines.len() == 0 {
        Seq::empty()
    } else if lines.len() == 1 {
        lines[0]
    } else {
        lines[0] + seq!['\n'] + joined(lines.skip(1))
    }
}

proof fn lemma_joined_push(lines: Seq<Seq<char>>, last: Seq<char>)
    requires
        lines.len() > 0,
    ensures
        joined(lines.push(last)) == joined(lines) + seq!['\n'] + last,
    decreases lines.len(),
{
    if lines.len() == 1 {
        assert(lines.push(last)[0] == lines[0]);
        assert(lines.push(last).skip(1) =~= Seq::<Seq<char>>::empty().push(last));
        assert(joined(Seq::<Seq<char>>::empty().push(last)) == last);
        assert(joined(lines.push(last)) =~= joined(lines) + seq!['\n'] + last);
    } else {
        assert(lines.push(last)[0] == lines[0]);
        assert(lines.push(last).skip(1) =~= lines.skip(1).push(last));
        lemma_joined_push(lines.skip(1), last);
        assert(joined(lines.push(last)) =~= joined(lines) + seq!['\n'] + last);
    }
}

/// Joins pending paragraph lines with line feeds into one run.
fn join_run(para: &Vec<Vec<char>>) -> (r: Vec<char>)
    ensures
        r@ == joined(para.deep_view()),
{
    let ghost dv = para.deep_view();
    proof {
        crate::text::lemma_deep_view_is_views(para);
        assert(dv.take(0) =~= Seq::<Seq<char>>::empty());
    }
    let mut out: Vec<char> = Vec::new();
    for i in 0..para.len()
        invariant
            dv == para.deep_view(),
            dv.len() == para@.len(),
            forall|q: int| 0 <= q < para@.len() ==> dv[q] == para@[q]@,
            out@ == joined(dv.take(i as int)),
    {
        let ghost front = if i > 0 {
            out@ + seq!['\n']
        } else {
            out@
        };
        if i > 0 {
            out.push('\n');
        }
        proof {
            assert(out@ =~= front);
        }
        let line = &para[i];
        for j in 0..line.len()
            invariant
                front == if i > 0 {
                    joined(dv.take(i as int)) + seq!['\n']
                } else {
                    joined(dv.take(i as int))
                },
                line@ == para@[i as int]@,
                out@ =~= front + line@.subrange(0, j as int),
        {
            out.push(line[j]);
            proof {
                assert(out@ =~= front + line@.subrange(0, j + 1 as int));
            }
        }
        proof {
            assert(line@.subrange(0, line@.len() as int) =~= line@);
            assert(dv.take(i as int).push(dv[i as int]) =~= dv.take(i + 1 as int));
            if i > 0 {
                lemma_joined_push(dv.take(i as int), dv[i as int]);
                assert(out@ =~= joined(dv.take(i + 1 as int)));
            } else {
                assert(joined(dv.take(1)) == dv.take(1)[0]);
                assert(out@ =~= joined(dv.take(1)));
            }
        }
    }
    proof {
        assert(dv.take(dv.len() as int) =~= dv);
    }
    out
}


/// What a line contributes to the document skeleton: a parsed heading
/// record, or a title or description directive value.
#[verifier::ext_equal]
pub enum GEvent {
    Head(crate::model::GHeader),
    Dir(bool, Seq<char>),
}

/// The skeleton events one line emits in a given control state, mirroring
/// [`ctrl_step`] case for case.
pub open spec fn line_events(
    st: GCtrl,
    l: Seq<char>,
    kws: Seq<Seq<char>>,
    prios: Seq<char>,
) -> Seq<GEvent> {
    if st.in_drawer {
        Seq::empty()
    } else if st.raw is Some {
        Seq::empty()
    } else if st.containers.len() == 0 && !(parse_heading_spec(l, kws, prios) == Result::<
        Option<crate::model::GHeader>,
        ParseErrorKind,
    >::Ok(Option::None)) {
        match parse_heading_spec(l, kws, prios) {
            Result::Ok(Option::Some(g)) => seq![GEvent::Head(g)],
            _ => Seq::empty(),
        }
    } else if st.containers.len() == 0 && is_drawer_open(l) {
        Seq::empty()
    } else if fence_open(l) is Some {
        Seq::empty()
    } else if st.containers.len() > 0 && fence_close(l) == Option::Some(
        FenceKind::Container(st.containers.last()),
    ) {
        Seq::empty()
    } else if is_blank(l) {
        Seq::empty()
    } else if st.containers.len() == 0 && prefix_ci(l, "#+TITLE:"@) {
        seq![GEvent::Dir(true, trim_spec(l.skip(8)))]
    } else if st.containers.len() == 0 && prefix_ci(l, "#+DESCRIPTION:"@) {
        seq![GEvent::Dir(false, trim_spec(l.skip(14)))]
    } else {
        Seq::empty()
    }
}

/// The skeleton events of the whole accepted document, in order.
pub open spec fn events_scan(
    lines: Seq<Seq<char>>,
    i: int,
    st: GCtrl,
    kws: Seq<Seq<char>>,
    prios: Seq<char>,
) -> Seq<GEvent>
    decreases lines.len() - i,
    when 0 <= i <= lines.len()
{
    if i >= lines.len() {
        Seq::empty()
    } else {
        match ctrl_step(st, lines[i], kws, prios) {
            Result::Err(_) => Seq::empty(),
            Result::Ok(st2) => line_events(st, lines[i], kws, prios) + events_scan(
                lines,
                i + 1,
                st2,
                kws,
                prios,
            ),
        }
    }
}

/// The skeleton events a block record carries.
pub open spec fn event_of(b: Block) -> Seq<GEvent> {
    match b {
        Block::Heading(h) => seq![GEvent::Head(h@)],
        Block::Directive { title, value } => seq![GEvent::Dir(title, value@)],
        _ => Seq::empty(),
    }
}

/// The skeleton events of a block sequence.
pub open spec fn events_of(bs: Seq<Block>) -> Seq<GEvent>
    decreases bs.len(),
{
    if bs.len() == 0 {
        Seq::empty()
    } else {
        event_of(bs[0]) + events_of(bs.skip(1))
    }
}

pub proof fn lemma_events_push(bs: Seq<Block>, b: Block)
    ensures
        events_of(bs.push(b)) == events_of(bs) + event_of(b),
    decreases bs.len(),
{
    if bs.len() == 0 {
        assert(bs.push(b)[0] == b);
        assert(bs.push(b).skip(1) =~= Seq::<Block>::empty());
        assert(events_of(Seq::<Block>::empty()) == Seq::<GEvent>::empty());
        assert(events_of(bs.push(b)) == event_of(b) + Seq::<GEvent>::empty());
        assert(events_of(bs.push(b)) =~= events_of(bs) + event_of(b));
    } else {
        assert(bs.push(b)[0] == bs[0]);
        assert(bs.push(b).skip(1) =~= bs.skip(1).push(b));
        lemma_events_push(bs.skip(1), b);
        assert(events_of(bs.push(b)) =~= events_of(bs) + event_of(b));
    }
}

/// Sends a finished element to the innermost open container, or out.
fn push_elem(
    frames: &mut Vec<(GreaterKind, Vec<Element>)>,
    out: &mut Vec<Block>,
    e: Element,
)
    ensures
        frames_kinds(final(frames)@) == frames_kinds(old(frames)@),
        blocks_wf(old(out)@) ==> blocks_wf(final(out)@),
        events_of(final(out)@) == events_of(old(out)@),
{
    let ghost fr0 = frames@;
    if frames.len() > 0 {
        let n = frames.len();
        let mut top = frames.remove(n - 1);
        top.1.push(e);
        frames.push(top);
        proof {
            assert(frames_kinds(frames@) =~= frames_kinds(fr0));
        }
    } else {
        let ghost o0 = out@;
        out.push(Block::Piece(e));
        proof {
            lemma_events_push(o0, out@.last());
            assert(events_of(out@) =~= events_of(o0));
            if blocks_wf(o0) {
                assert forall|i: int| 0 <= i < out@.len() implies block_wf(#[trigger] out@[i])
                by {
                    if i < o0.len() {
                        assert(out@[i] == o0[i]);
                    }
                }
            }
        }
    }
}

/// Flushes the pending paragraph run, if any, as a paragraph element.
fn flush_para(
    para: &mut Vec<Vec<char>>,
    frames: &mut Vec<(GreaterKind, Vec<Element>)>,
    out: &mut Vec<Block>,
)
    ensures
        frames_kinds(final(frames)@) == frames_kinds(old(frames)@),
        blocks_wf(old(out)@) ==> blocks_wf(final(out)@),
        events_of(final(out)@) == events_of(old(out)@),
        final(para)@.len() == 0,
{
    if para.len() == 0 {
        return;
    }
    let run = join_run(para);
    let objects = crate::inline::parse_objects(&run);
    para.clear();
    push_elem(frames, out, Element::Paragraph(objects));
}



/// Replacing the stack's top by a node of the same level keeps the levels
/// strictly increasing.
proof fn lemma_stack_update_levels(
    sk0: Seq<Heading>,
    sk1: Seq<Heading>,
    top0: Heading,
    top1: Heading,
)
    requires
        sk0.len() > 0,
        sk1 == sk0.remove(sk0.len() - 1).push(top1),
        top0 == sk0[sk0.len() - 1],
        top1.head.level == top0.head.level,
        forall|a: int, b2: int|
            0 <= a < b2 < sk0.len() ==> (#[trigger] sk0[a].head.level) < (
            #[trigger] sk0[b2].head.level),
    ensures
        sk1.len() == sk0.len(),
        forall|a: int, b2: int|
            0 <= a < b2 < sk1.len() ==> (#[trigger] sk1[a].head.level) < (
            #[trigger] sk1[b2].head.level),
{
    assert forall|a: int, b2: int|
        0 <= a < b2 < sk1.len() implies (#[trigger] sk1[a].head.level) < (
    #[trigger] sk1[b2].head.level) by {
        assert(sk1[a] == sk0[a]);
        if b2 < sk1.len() - 1 {
            assert(sk1[b2] == sk0[b2]);
        } else {
            assert(sk1[b2] == top1);
            assert(sk0[a].head.level < sk0[sk0.len() - 1].head.level);
        }
    }
}


/// Folding one accepted line: what the parser emitted so far plus the rest
/// of the event scan is the whole event scan.
proof fn lemma_events_close(
    lv: Seq<Seq<char>>,
    i: int,
    st: GCtrl,
    st2: GCtrl,
    kws: Seq<Seq<char>>,
    pv: Seq<char>,
    ev0: Seq<GEvent>,
    evnow: Seq<GEvent>,
)
    requires
        0 <= i < lv.len(),
        ctrl_step(st, lv[i], kws, pv) == Result::<GCtrl, ParseErrorKind>::Ok(st2),
        evnow == ev0 + line_events(st, lv[i], kws, pv),
    ensures
        evnow + events_scan(lv, i + 1, st2, kws, pv) == ev0 + events_scan(lv, i, st, kws, pv),
{
    assert(events_scan(lv, i, st, kws, pv) == line_events(st, lv[i], kws, pv) + events_scan(
        lv,
        i + 1,
        st2,
        kws,
        pv,
    ));
    assert(evnow + events_scan(lv, i + 1, st2, kws, pv) =~= ev0 + events_scan(lv, i, st, kws, pv));
}

/// Parses the document's lines into the flat block sequence. The parse
/// succeeds exactly when the control machine accepts the lines; on failure
/// the error is the machine's verdict, with its line.
#[verifier::rlimit(100)]
pub fn parse_blocks(
    lines: &Vec<Vec<char>>,
    keywords: &Vec<Vec<char>>,
    prios: &Vec<char>,
) -> (r: Result<Vec<Block>, ParseError>)
    ensures
        ({
            let v = scan_verdict(lines.deep_view(), keywords.deep_view(), prios@);
            match r {
                Result::Ok(bs) => v is None && blocks_wf(bs@) && events_of(bs@) == events_scan(
                    lines.deep_view(),
                    0,
                    ctrl_init(),
                    keywords.deep_view(),
                    prios@,
                ),
                Result::Err(e) => v == Option::Some((e.line as int, e.kind)),
            }
        }),
{
    let ghost lv = lines.deep_view();
    let ghost kws = keywords.deep_view();
    let ghost pv = prios@;
    let mut out: Vec<Block> = Vec::new();
    let mut para: Vec<Vec<char>> = Vec::new();
    let mut frames: Vec<(GreaterKind, Vec<Element>)> = Vec::new();
    let mut pending: Vec<Property> = Vec::new();
    let mut in_drawer = false;
    let mut raw: Option<VerbatimKind> = Option::None;
    let mut raw_lines: Vec<Vec<char>> = Vec::new();
    let mut at_start = true;
    let mut after_heading = false;
    let ghost mut st = ctrl_init();
    proof {
        crate::text::lemma_deep_view_is_views(lines);
        assert(frames_kinds(frames@) =~= Seq::<GreaterKind>::empty());
        assert(st.containers =~= frames_kinds(frames@));
        assert(events_of(out@) =~= Seq::<GEvent>::empty());
        assert(events_of(out@) + events_scan(lv, 0, st, kws, pv) =~= events_scan(
            lv,
            0,
            ctrl_init(),
            kws,
            pv,
        ));
    }
    let n = lines.len();
    for i in 0..n
        invariant
            n == lv.len(),
            lv == lines.deep_view(),
            kws == keywords.deep_view(),
            pv == prios@,
            lv.len() == lines@.len(),
            forall|q: int| 0 <= q < lines@.len() ==> lv[q] == lines@[q]@,
            ctrl_scan(lv, 0, ctrl_init(), kws, pv) == ctrl_scan(lv, i as int, st, kws, pv),
            st.in_drawer == in_drawer,
            st.raw == raw,
            st.at_start == at_start,
            st.after_heading == after_heading,
            st.containers == frames_kinds(frames@),
            blocks_wf(out@),
            props_wf(pending@),
            events_scan(lv, 0, ctrl_init(), kws, pv) == events_of(out@) + events_scan(
                lv,
                i as int,
                st,
                kws,
                pv,
            ),
        decreases n - i,
    {
        let line = &lines[i];
        let ghost l = lv[i as int];
        let ghost ev0 = events_of(out@);
        proof {
            assert(l == line@);
        }
        if in_drawer {
            if line_is(line, ":END:") {
                let done = pending;
                pending = Vec::new();
                let ghost o0 = out@;
                out.push(Block::Drawer(done));
                in_drawer = false;
                at_start = false;
                after_heading = false;
                proof {
                    reveal_strlit(":END:");
                    reveal_strlit(":PROPERTIES:");
                    let st2 = GCtrl { in_drawer: false, at_start: false, after_heading: false, ..st };
                    assert(ctrl_step(st, l, kws, pv) == Result::<GCtrl, ParseErrorKind>::Ok(st2));
                    lemma_events_push(o0, out@.last());
                    assert(events_of(out@) =~= ev0 + line_events(st, l, kws, pv));
                    lemma_events_close(lv, i as int, st, st2, kws, pv, ev0, events_of(out@));
                    st = st2;
                    assert forall|q: int| 0 <= q < out@.len() implies block_wf(#[trigger] out@[q]) by {
                        if q < o0.len() {
                            assert(out@[q] == o0[q]);
                        }
                    }
                }
            } else {
                match drawer_entry_exec(line) {
                    Option::Some(kv) => {
                        let (key, value) = kv;
                        let dup = crate::doctor::find_prop_ci(&pending, &key);
                        let ghost p0 = pending@;
                        match dup {
                            Option::None => {
                                pending.push(Property { key, value });
                                proof {
                                    assert forall|a: int, b: int|
                                        0 <= a < b < pending@.len() implies !seq_eq_ci(
                                        #[trigger] pending@[a].key@,
                                        #[trigger] pending@[b].key@,
                                    ) by {
                                        if b < p0.len() {
                                            assert(pending@[a] == p0[a]);
                                            assert(pending@[b] == p0[b]);
                                        } else {
                                            assert(pending@[a] == p0[a]);
                                        }
                                    }
                                }
                            },
                            Option::Some(_) => {},
                        }
                        proof {
                            assert(ctrl_step(st, l, kws, pv) == Result::<
                                GCtrl,
                                ParseErrorKind,
                            >::Ok(st));
                            assert(events_of(out@) =~= ev0 + line_events(st, l, kws, pv));
                            lemma_events_close(lv, i as int, st, st, kws, pv, ev0, events_of(out@));
                        }
                    },
                    Option::None => {
                        proof {
                            assert(ctrl_step(st, l, kws, pv) == Result::<
                                GCtrl,
                                ParseErrorKind,
                            >::Err(ParseErrorKind::UnterminatedDrawer));
                            assert(ctrl_scan(lv, i as int, st, kws, pv) == Result::<
                                GCtrl,
                                (int, ParseErrorKind),
                            >::Err((i as int, ParseErrorKind::UnterminatedDrawer)));
                        }
                        return Result::Err(
                            ParseError { kind: ParseErrorKind::UnterminatedDrawer, line: i },
                        );
                    },
                }
            }
        } else {
            let is_raw = match raw {
                Option::Some(_) => true,
                Option::None => false,
            };
            if is_raw {
                let k = match raw {
                    Option::Some(k) => k,
                    Option::None => VerbatimKind::Example,
                };
                let close = fence_close_exec(line);
                let closes = match close {
                    Option::Some(FenceKind::Raw(k2)) => k2 == k,
                    _ => false,
                };
                if closes {
                    let body = raw_lines;
                    raw_lines = Vec::new();
                    raw = Option::None;
                    push_elem(&mut frames, &mut out, Element::Verbatim { kind: k, lines: body });
                    proof {
                        let st2 = GCtrl { raw: Option::None, ..st };
                        assert(ctrl_step(st, l, kws, pv) == Result::<GCtrl, ParseErrorKind>::Ok(
                            st2,
                        ));
                        assert(events_of(out@) =~= ev0 + line_events(st, l, kws, pv));
                        lemma_events_close(lv, i as int, st, st2, kws, pv, ev0, events_of(out@));
                        st = st2;
                    }
                } else {
                    raw_lines.push(crate::text::copy_chars(line));
                    proof {
                        assert(ctrl_step(st, l, kws, pv) == Result::<GCtrl, ParseErrorKind>::Ok(
                            st,
                        ));
                        assert(events_of(out@) =~= ev0 + line_events(st, l, kws, pv));
                        lemma_events_close(lv, i as int, st, st, kws, pv, ev0, events_of(out@));
                    }
                }
            } else {
                let mut handled = false;
                if frames.len() == 0 {
                    match crate::heading::parse_heading_line(line, keywords, prios) {
                        Result::Err(e) => {
                            proof {
                                assert(ctrl_step(st, l, kws, pv) == Result::<
                                    GCtrl,
                                    ParseErrorKind,
                                >::Err(e));
                                assert(ctrl_scan(lv, i as int, st, kws, pv) == Result::<
                                    GCtrl,
                                    (int, ParseErrorKind),
                                >::Err((i as int, e)));
                            }
                            return Result::Err(ParseError { kind: e, line: i });
                        },
                        Result::Ok(Option::Some(h)) => {
                            flush_para(&mut para, &mut frames, &mut out);
                            let ghost o0 = out@;
                            proof {
                                assert(crate::model::header_wf(h@));
                            }
                            out.push(Block::Heading(h));
                            at_start = false;
                            after_heading = true;
                            handled = true;
                            proof {
                                let st2 = GCtrl { at_start: false, after_heading: true, ..st };
                                assert(ctrl_step(st, l, kws, pv) == Result::<
                                    GCtrl,
                                    ParseErrorKind,
                                >::Ok(st2));
                                lemma_events_push(o0, out@.last());
                                assert(line_events(st, l, kws, pv) =~= seq![
                                    GEvent::Head(out@.last()->Heading_0@),
                                ]);
                                assert(events_of(out@) =~= ev0 + line_events(st, l, kws, pv));
                                lemma_events_close(lv, i as int, st, st2, kws, pv, ev0, events_of(out@));
                                st = st2;
                                assert forall|q: int| 0 <= q < out@.len() implies block_wf(
                                    #[trigger] out@[q],
                                ) by {
                                    if q < o0.len() {
                                        assert(out@[q] == o0[q]);
                                    }
                                }
                            }
                        },
                        Result::Ok(Option::None) => {},
                    }
                }
                if !handled && frames.len() == 0 && line_is(line, ":PROPERTIES:") {
                    if at_start || after_heading {
                        flush_para(&mut para, &mut frames, &mut out);
                        pending = Vec::new();
                        in_drawer = true;
                        at_start = false;
                        after_heading = false;
                        handled = true;
                        proof {
                            let st2 = GCtrl {
                                in_drawer: true,
                                at_start: false,
                                after_heading: false,
                                ..st
                            };
                            assert(ctrl_step(st, l, kws, pv) == Result::<GCtrl, ParseErrorKind>::Ok(
                                st2,
                            ));
                            assert(events_of(out@) =~= ev0 + line_events(st, l, kws, pv));
                            lemma_events_close(lv, i as int, st, st2, kws, pv, ev0, events_of(out@));
                            st = st2;
                        }
                    } else {
                        proof {
                            assert(ctrl_step(st, l, kws, pv) == Result::<GCtrl, ParseErrorKind>::Err(
                                ParseErrorKind::MisplacedPropertyDrawer,
                            ));
                            assert(ctrl_scan(lv, i as int, st, kws, pv) == Result::<
                                GCtrl,
                                (int, ParseErrorKind),
                            >::Err((i as int, ParseErrorKind::MisplacedPropertyDrawer)));
                        }
                        return Result::Err(
                            ParseError { kind: ParseErrorKind::MisplacedPropertyDrawer, line: i },
                        );
                    }
                }
                if !handled {
                    match fence_open_exec(line) {
                        Option::Some(FenceKind::Raw(k)) => {
                            flush_para(&mut para, &mut frames, &mut out);
                            raw = Option::Some(k);
                            raw_lines = Vec::new();
                            at_start = false;
                            after_heading = false;
                            handled = true;
                            proof {
                                let st2 = GCtrl {
                                    raw: Option::Some(k),
                                    at_start: false,
                                    after_heading: false,
                                    ..st
                                };
                                assert(ctrl_step(st, l, kws, pv) == Result::<
                                    GCtrl,
                                    ParseErrorKind,
                                >::Ok(st2));
                                assert(events_of(out@) =~= ev0 + line_events(st, l, kws, pv));
                                lemma_events_close(lv, i as int, st, st2, kws, pv, ev0, events_of(out@));
                                st = st2;
                            }
                        },
                        Option::Some(FenceKind::Container(g)) => {
                            flush_para(&mut para, &mut frames, &mut out);
                            let ghost fr0 = frames@;
                            frames.push((g, Vec::new()));
                            at_start = false;
                            after_heading = false;
                            handled = true;
                            proof {
                                let st2 = GCtrl {
                                    containers: st.containers.push(g),
                                    at_start: false,
                                    after_heading: false,
                                    ..st
                                };
                                assert(ctrl_step(st, l, kws, pv) == Result::<
                                    GCtrl,
                                    ParseErrorKind,
                                >::Ok(st2));
                                assert(events_of(out@) =~= ev0 + line_events(st, l, kws, pv));
                                lemma_events_close(lv, i as int, st, st2, kws, pv, ev0, events_of(out@));
                                st = st2;
                                assert(frames_kinds(frames@) =~= frames_kinds(fr0).push(g));
                            }
                        },
                        Option::None => {},
                    }
                }
                if !handled && frames.len() > 0 {
                    let close = fence_close_exec(line);
                    let nf = frames.len();
                    let topkind = frames[nf - 1].0;
                    let closes = match close {
                        Option::Some(FenceKind::Container(g2)) => g2 == topkind,
                        _ => false,
                    };
                    if closes {
                        flush_para(&mut para, &mut frames, &mut out);
                        let ghost fr0 = frames@;
                        let nf2 = frames.len();
                        let top = frames.remove(nf2 - 1);
                        let (gk, kids) = top;
                        push_elem(&mut frames, &mut out, Element::Greater { kind: gk, children: kids });
                        at_start = false;
                        after_heading = false;
                        handled = true;
                        proof {
                            assert(frames_kinds(fr0).last() == topkind);
                            let st2 = GCtrl {
                                containers: st.containers.drop_last(),
                                at_start: false,
                                after_heading: false,
                                ..st
                            };
                            assert(ctrl_step(st, l, kws, pv) == Result::<GCtrl, ParseErrorKind>::Ok(
                                st2,
                            ));
                            assert(events_of(out@) =~= ev0 + line_events(st, l, kws, pv));
                            lemma_events_close(lv, i as int, st, st2, kws, pv, ev0, events_of(out@));
                            st = st2;
                            assert(frames_kinds(frames@) =~= frames_kinds(fr0).drop_last());
                        }
                    }
                }
                if !handled {
                    if blank_exec(line) {
                        flush_para(&mut para, &mut frames, &mut out);
                        proof {
                            assert(line_events(st, l, kws, pv) =~= Seq::<GEvent>::empty());
                            assert(events_of(out@) =~= ev0 + line_events(st, l, kws, pv));
                        }
                    } else {
                        let mut taken = false;
                        if frames.len() == 0 {
                            let tdir = crate::text::text("#+TITLE:");
                            let ddir = crate::text::text("#+DESCRIPTION:");
                            if prefix_ci_exec(line, &tdir) {
                                proof {
                                    reveal_strlit("#+TITLE:");
                                }
                                flush_para(&mut para, &mut frames, &mut out);
                                let tail = crate::heading::slice_from(line, 8);
                                let value = crate::text::trim(&tail);
                                let ghost o0 = out@;
                                out.push(Block::Directive { title: true, value });
                                proof {
                                    lemma_events_push(o0, out@.last());
                                    assert(line_events(st, l, kws, pv) =~= seq![
                                        GEvent::Dir(true, trim_spec(l.skip(8))),
                                    ]);
                                    assert(events_of(out@) =~= ev0 + line_events(st, l, kws, pv));
                                    assert forall|q: int| 0 <= q < out@.len() implies block_wf(
                                        #[trigger] out@[q],
                                    ) by {
                                        if q < o0.len() {
                                            assert(out@[q] == o0[q]);
                                        }
                                    }
                                }
                                taken = true;
                            } else if prefix_ci_exec(line, &ddir) {
                                proof {
                                    reveal_strlit("#+DESCRIPTION:");
                                }
                                flush_para(&mut para, &mut frames, &mut out);
                                let tail = crate::heading::slice_from(line, 14);
                                let value = crate::text::trim(&tail);
                                let ghost o0 = out@;
                                out.push(Block::Directive { title: false, value });
                                proof {
                                    lemma_events_push(o0, out@.last());
                                    assert(line_events(st, l, kws, pv) =~= seq![
                                        GEvent::Dir(false, trim_spec(l.skip(14))),
                                    ]);
                                    assert(events_of(out@) =~= ev0 + line_events(st, l, kws, pv));
                                    assert forall|q: int| 0 <= q < out@.len() implies block_wf(
                                        #[trigger] out@[q],
                                    ) by {
                                        if q < o0.len() {
                                            assert(out@[q] == o0[q]);
                                        }
                                    }
                                }
                                taken = true;
                            } else if after_heading && (prefix_exact(line, "SCHEDULED:")
                                || prefix_exact(line, "DEADLINE:") || prefix_exact(
                                line,
                                "CLOSED:",
                            )) {
                                let ghost o0 = out@;
                                out.push(Block::Planning(crate::text::copy_chars(line)));
                                proof {
                                    lemma_events_push(o0, out@.last());
                                    assert(line_events(st, l, kws, pv) =~= Seq::<GEvent>::empty());
                                    assert(events_of(out@) =~= ev0 + line_events(st, l, kws, pv));
                                    assert forall|q: int| 0 <= q < out@.len() implies block_wf(
                                        #[trigger] out@[q],
                                    ) by {
                                        if q < o0.len() {
                                            assert(out@[q] == o0[q]);
                                        }
                                    }
                                }
                                taken = true;
                            }
                        }
                        if !taken {
                            para.push(crate::text::copy_chars(line));
                            proof {
                                assert(line_events(st, l, kws, pv) =~= Seq::<GEvent>::empty());
                                assert(events_of(out@) =~= ev0 + line_events(st, l, kws, pv));
                            }
                        }
                    }
                    at_start = false;
                    after_heading = false;
                    proof {
                        let st2 = GCtrl { at_start: false, after_heading: false, ..st };
                        assert(ctrl_step(st, l, kws, pv) == Result::<GCtrl, ParseErrorKind>::Ok(
                            st2,
                        ));
                        assert(events_of(out@) =~= ev0 + line_events(st, l, kws, pv));
                        lemma_events_close(lv, i as int, st, st2, kws, pv, ev0, events_of(out@));
                        st = st2;
                    }
                }
            }
        }
    }
    if in_drawer {
        proof {
            assert(ctrl_scan(lv, n as int, st, kws, pv) == Result::<GCtrl, (int, ParseErrorKind)>::Ok(st));
        }
        return Result::Err(ParseError { kind: ParseErrorKind::UnterminatedDrawer, line: n });
    }
    let raw_open = match raw {
        Option::Some(_) => true,
        Option::None => false,
    };
    if raw_open {
        return Result::Err(ParseError { kind: ParseErrorKind::UnterminatedFence, line: n });
    }
    if frames.len() > 0 {
        proof {
            assert(st.containers.len() > 0);
        }
        return Result::Err(ParseError { kind: ParseErrorKind::UnterminatedFence, line: n });
    }
    flush_para(&mut para, &mut frames, &mut out);
    proof {
        assert(st.containers.len() == 0);
        assert(ctrl_finish(st, lv.len() as int) is None);
        assert(events_scan(lv, n as int, st, kws, pv) == Seq::<GEvent>::empty());
        assert(events_of(out@) =~= events_scan(lv, 0, ctrl_init(), kws, pv));
    }
    Result::Ok(out)
}


/// Merges drawer entries into a property list, first occurrence of a key
/// winning, so key uniqueness is preserved.
fn merge_props(dst: Vec<Property>, src: Vec<Property>) -> (r: Vec<Property>)
    ensures
        props_wf(dst@) ==> props_wf(r@),
        r@ == merge_spec(dst@, src@),
{
    let ghost src0 = src@;
    let mut out = dst;
    let mut rest = src;
    let n = rest.len();
    proof {
        assert(src0.skip(0) =~= src0);
    }
    for i in 0..n
        invariant
            rest@.len() == n - i,
            rest@ == src0.skip(i as int),
            n == src0.len(),
            props_wf(dst@) ==> props_wf(out@),
            merge_spec(dst@, src0) == merge_spec(out@, src0.skip(i as int)),
        decreases n - i,
    {
        let ghost r0 = rest@;
        let p = rest.remove(0);
        proof {
            assert(r0[0] == src0[i as int]);
            assert(rest@ =~= src0.skip(i + 1 as int));
        }
        match crate::doctor::find_prop_ci(&out, &p.key) {
            Option::None => {
                let ghost o0 = out@;
                out.push(p);
                proof {
                    assert(!(exists|j: int|
                        0 <= j < o0.len() && seq_eq_ci(#[trigger] o0[j].key@, src0[i as int].key@)))
                        by {
                        if exists|j: int|
                            0 <= j < o0.len() && seq_eq_ci(
                                #[trigger] o0[j].key@,
                                src0[i as int].key@,
                            ) {
                            let j = choose|j: int|
                                0 <= j < o0.len() && seq_eq_ci(
                                    #[trigger] o0[j].key@,
                                    src0[i as int].key@,
                                );
                        }
                    }
                    assert(out@ =~= o0.push(src0[i as int]));
                    assert(merge_spec(dst@, src0) == merge_spec(out@, src0.skip(i + 1)));
                    if props_wf(dst@) {
                        assert forall|a: int, b: int| 0 <= a < b < out@.len() implies !seq_eq_ci(
                            #[trigger] out@[a].key@,
                            #[trigger] out@[b].key@,
                        ) by {
                            if b < o0.len() {
                                assert(out@[a] == o0[a]);
                                assert(out@[b] == o0[b]);
                            } else {
                                assert(out@[a] == o0[a]);
                            }
                        }
                    }
                }
            },
            Option::Some(w) => {
                proof {
                    assert(seq_eq_ci(out@[w as int].key@, src0[i as int].key@));
                    assert(merge_spec(dst@, src0) == merge_spec(out@, src0.skip(i + 1)));
                }
            },
        }
        proof {
            assert(src0.skip(i as int)[0] == src0[i as int]);
            assert(src0.skip(i as int).skip(1) =~= src0.skip(i + 1 as int));
        }
    }
    proof {
        assert(src0.skip(n as int) =~= Seq::<Property>::empty());
    }
    out
}


/// The mathematical value of a built heading subtree: the same data as
/// [`Heading`], with sequences in place of vectors.
#[verifier::ext_equal]
pub struct GNode {
    pub head: Header,
    pub properties: Seq<Property>,
    pub section: Seq<Element>,
    pub children: Seq<GNode>,
}

pub open spec fn gnode_of(h: Heading) -> GNode
    decreases h,
{
    GNode {
        head: h.head,
        properties: h.properties@,
        section: h.section@,
        children: gnodes_of(h.children@),
    }
}

pub open spec fn gnodes_of(hs: Seq<Heading>) -> Seq<GNode>
    decreases hs,
{
    if hs.len() == 0 {
        Seq::empty()
    } else {
        seq![gnode_of(hs[0])] + gnodes_of(hs.skip(1))
    }
}

pub proof fn lemma_gnodes(hs: Seq<Heading>)
    ensures
        gnodes_of(hs).len() == hs.len(),
        forall|i: int| 0 <= i < hs.len() ==> gnodes_of(hs)[i] == gnode_of(hs[i]),
    decreases hs.len(),
{
    if hs.len() > 0 {
        lemma_gnodes(hs.skip(1));
        assert forall|i: int| 0 <= i < hs.len() implies gnodes_of(hs)[i] == gnode_of(hs[i]) by {
            if i >= 1 {
                assert(gnodes_of(hs)[i] == gnodes_of(hs.skip(1))[i - 1]);
                assert(hs.skip(1)[i - 1] == hs[i]);
            }
        }
    }
}

/// The mathematical value of a built document.
#[verifier::ext_equal]
pub struct GDoc {
    pub title: Option<Vec<char>>,
    pub description: Option<Vec<char>>,
    pub zprops: Seq<Property>,
    pub zbody: Seq<Element>,
    pub roots: Seq<GNode>,
}

pub open spec fn gdoc_of(doc: Document) -> GDoc {
    GDoc {
        title: doc.zeroth.title,
        description: doc.zeroth.description,
        zprops: doc.zeroth.properties@,
        zbody: doc.zeroth.body@,
        roots: gnodes_of(doc.headings@),
    }
}

/// Drawer entries merge into a property list first occurrence winning.
pub open spec fn merge_spec(dst: Seq<Property>, src: Seq<Property>) -> Seq<Property>
    decreases src.len(),
{
    if src.len() == 0 {
        dst
    } else {
        let d2 = if exists|j: int| 0 <= j < dst.len() && seq_eq_ci(
            #[trigger] dst[j].key@,
            src[0].key@,
        ) {
            dst
        } else {
            dst.push(src[0])
        };
        merge_spec(d2, src.skip(1))
    }
}

/// The tree builder's state between blocks: the zeroth section under
/// construction, the finished roots, and the stack of open headings.
#[verifier::ext_equal]
pub struct BState {
    pub title: Option<Vec<char>>,
    pub description: Option<Vec<char>>,
    pub zprops: Seq<Property>,
    pub zbody: Seq<Element>,
    pub roots: Seq<GNode>,
    pub stack: Seq<GNode>,
}

pub open spec fn bstate_init() -> BState {
    BState {
        title: Option::None,
        description: Option::None,
        zprops: Seq::empty(),
        zbody: Seq::empty(),
        roots: Seq::empty(),
        stack: Seq::empty(),
    }
}

/// Pops open headings at or below `lvl`, attaching each to the heading
/// beneath it, or to the roots when none is open.
pub open spec fn attach(stack: Seq<GNode>, roots: Seq<GNode>, lvl: int) -> (Seq<GNode>, Seq<
    GNode,
>)
    decreases stack.len(),
{
    if stack.len() == 0 || stack.last().head.level < lvl {
        (stack, roots)
    } else {
        let child = stack.last();
        let stack2 = stack.drop_last();
        if stack2.len() > 0 {
            let p = stack2.last();
            let p2 = GNode { children: p.children.push(child), ..p };
            attach(stack2.drop_last().push(p2), roots, lvl)
        } else {
            attach(stack2, roots.push(child), lvl)
        }
    }
}

/// Appends an element to the innermost open heading's section, or to the
/// zeroth section's body.
pub open spec fn bstate_put(st: BState, e: Element) -> BState {
    if st.stack.len() > 0 {
        let top = st.stack.last();
        let top2 = GNode { section: top.section.push(e), ..top };
        BState { stack: st.stack.drop_last().push(top2), ..st }
    } else {
        BState { zbody: st.zbody.push(e), ..st }
    }
}

/// One block of the tree builder, the level-stack rule itself: a heading
/// closes everything at or below its level and opens
/// itself; a drawer's entries join the innermost open heading (or the
/// zeroth section); the first title and description directives win;
/// planning lines and elements land in the innermost open section.
pub open spec fn build_step(st: BState, b: Block) -> BState {
    match b {
        Block::Heading(h) => {
            let (stack2, roots2) = attach(st.stack, st.roots, h.level as int);
            let node = GNode {
                head: h,
                properties: Seq::empty(),
                section: Seq::empty(),
                children: Seq::empty(),
            };
            BState { stack: stack2.push(node), roots: roots2, ..st }
        },
        Block::Drawer(ps) => {
            if st.stack.len() > 0 {
                let top = st.stack.last();
                let top2 = GNode { properties: merge_spec(top.properties, ps@), ..top };
                BState { stack: st.stack.drop_last().push(top2), ..st }
            } else {
                BState { zprops: merge_spec(st.zprops, ps@), ..st }
            }
        },
        Block::Directive { title: is_title, value } => {
            if is_title {
                if st.title is None {
                    BState { title: Option::Some(value), ..st }
                } else {
                    st
                }
            } else {
                if st.description is None {
                    BState { description: Option::Some(value), ..st }
                } else {
                    st
                }
            }
        },
        Block::Planning(l) => bstate_put(st, Element::Planning(l)),
        Block::Piece(e) => bstate_put(st, e),
    }
}

pub open spec fn build_fold(bs: Seq<Block>, i: int, st: BState) -> BState
    decreases bs.len() - i,
    when 0 <= i <= bs.len()
{
    if i >= bs.len() {
        st
    } else {
        build_fold(bs, i + 1, build_step(st, bs[i]))
    }
}

/// The document the level-stack rule builds from a block sequence: fold
/// every block, then close everything still open.
pub open spec fn build_spec(bs: Seq<Block>) -> GDoc {
    let st = build_fold(bs, 0, bstate_init());
    let (stack2, roots2) = attach(st.stack, st.roots, 0);
    GDoc {
        title: st.title,
        description: st.description,
        zprops: st.zprops,
        zbody: st.zbody,
        roots: roots2,
    }
}

/// Assembles the heading forest from the block sequence with a stack of
/// open headings, and is proved equal to the level-stack rule
/// [`build_spec`]. Never fails: a heading of any level always finds its
/// place, whether levels skip or not.
pub fn build_tree(blocks: Vec<Block>) -> (doc: Document)
    ensures
        blocks_wf(blocks@) ==> crate::model::document_wf(doc),
        gdoc_of(doc) == build_spec(blocks@),
{
    let ghost bs0 = blocks@;
    let mut title: Option<Vec<char>> = Option::None;
    let mut description: Option<Vec<char>> = Option::None;
    let mut zprops: Vec<Property> = Vec::new();
    let mut zbody: Vec<Element> = Vec::new();
    let mut roots: Vec<Heading> = Vec::new();
    let mut stack: Vec<Heading> = Vec::new();
    let ghost mut st = bstate_init();
    proof {
        lemma_gnodes(roots@);
        lemma_gnodes(stack@);
        assert(gnodes_of(roots@) =~= st.roots);
        assert(gnodes_of(stack@) =~= st.stack);
        assert(zprops@ =~= st.zprops);
        assert(zbody@ =~= st.zbody);
    }
    let mut rest = blocks;
    let n = rest.len();
    for i in 0..n
        invariant
            n == bs0.len(),
            rest@ == bs0.skip(i as int),
            forall|q: int|
                0 <= q < rest@.len() ==> blocks_wf(bs0) ==> block_wf(#[trigger] rest@[q]),
            blocks_wf(bs0) ==> props_wf(zprops@),
            blocks_wf(bs0) ==> (forall|q: int|
                0 <= q < roots@.len() ==> crate::model::heading_wf(#[trigger] roots@[q])),
            blocks_wf(bs0) ==> (forall|q: int|
                0 <= q < stack@.len() ==> crate::model::heading_wf(#[trigger] stack@[q])),
            forall|a: int, b: int|
                0 <= a < b < stack@.len() ==> (#[trigger] stack@[a].head.level)
                    < (#[trigger] stack@[b].head.level),
            title == st.title,
            description == st.description,
            zprops@ == st.zprops,
            zbody@ == st.zbody,
            gnodes_of(roots@) == st.roots,
            gnodes_of(stack@) == st.stack,
            build_fold(bs0, 0, bstate_init()) == build_fold(bs0, i as int, st),
        decreases n - i,
    {
        let ghost r0 = rest@;
        let b = rest.remove(0);
        proof {
            assert(r0[0] == bs0[i as int]);
            assert(b == bs0[i as int]);
            assert(rest@ =~= bs0.skip(i + 1 as int));
            assert forall|q: int| 0 <= q < rest@.len() implies blocks_wf(bs0) ==> block_wf(
                #[trigger] rest@[q],
            ) by {
                assert(rest@[q] == r0[q + 1]);
            }
            assert(blocks_wf(bs0) ==> block_wf(b));
        }
        match b {
            Block::Heading(h) => {
                let lvl = h.level;
                let ghost gs_in = gnodes_of(stack@);
                let ghost gr_in = gnodes_of(roots@);
                while stack.len() > 0 && stack[stack.len() - 1].head.level >= lvl
                    invariant
                        blocks_wf(bs0) ==> (forall|q: int|
                            0 <= q < roots@.len() ==> crate::model::heading_wf(
                                #[trigger] roots@[q],
                            )),
                        blocks_wf(bs0) ==> (forall|q: int|
                            0 <= q < stack@.len() ==> crate::model::heading_wf(
                                #[trigger] stack@[q],
                            )),
                        forall|a: int, b2: int|
                            0 <= a < b2 < stack@.len() ==> (#[trigger] stack@[a].head.level)
                                < (#[trigger] stack@[b2].head.level),
                        attach(gs_in, gr_in, lvl as int) == attach(
                            gnodes_of(stack@),
                            gnodes_of(roots@),
                            lvl as int,
                        ),
                    decreases stack@.len(),
                {
                    let ghost sk_pre = stack@;
                    let ghost gs_pre = gnodes_of(stack@);
                    let ghost gr_pre = gnodes_of(roots@);
                    proof {
                        lemma_gnodes(sk_pre);
                    }
                    let nl = stack.len();
                    let child = stack.remove(nl - 1);
                    proof {
                        lemma_gnodes(stack@);
                        assert(stack@ =~= sk_pre.drop_last());
                        assert(gnodes_of(stack@) =~= gs_pre.drop_last());
                        assert(gs_pre.last() == gnode_of(child));
                    }
                    if stack.len() > 0 {
                        let nl2 = stack.len();
                        let ghost sk_mid = stack@;
                        let mut parent = stack.remove(nl2 - 1);
                        let ghost par0 = parent;
                        parent.children.push(child);
                        proof {
                            lemma_gnodes(par0.children@);
                            lemma_gnodes(parent.children@);
                            assert(gnodes_of(parent.children@) =~= gnodes_of(
                                par0.children@,
                            ).push(gnode_of(child)));
                            assert(gnode_of(parent) =~~= GNode {
                                children: gnode_of(par0).children.push(gnode_of(child)),
                                ..gnode_of(par0)
                            });
                            if blocks_wf(bs0) {
                                assert forall|q: int|
                                    0 <= q < parent.children@.len() implies (
                                #[trigger] parent.children@[q]).head.level > parent.head.level
                                    && crate::model::heading_wf(parent.children@[q]) by {
                                    if q < par0.children@.len() {
                                        assert(parent.children@[q] == par0.children@[q]);
                                        assert(crate::model::heading_wf(par0));
                                    } else {
                                        assert(parent.children@[q] == child);
                                    }
                                }
                                assert(crate::model::heading_wf(parent));
                            }
                        }
                        stack.push(parent);
                        proof {
                            lemma_gnodes(sk_mid);
                            lemma_gnodes(stack@);
                            assert(stack@ =~= sk_mid.drop_last().push(parent));
                            assert(gnodes_of(stack@) =~= gs_pre.drop_last().drop_last().push(
                                gnode_of(parent),
                            ));
                            assert(gs_pre.drop_last().last() == gnode_of(par0));
                            assert(attach(gs_pre, gr_pre, lvl as int) == attach(
                                gnodes_of(stack@),
                                gnodes_of(roots@),
                                lvl as int,
                            ));
                        }
                    } else {
                        let ghost ro_pre = roots@;
                        roots.push(child);
                        proof {
                            lemma_gnodes(ro_pre);
                            lemma_gnodes(roots@);
                            assert(roots@ =~= ro_pre.push(child));
                            assert(gnodes_of(stack@) =~= gs_pre.drop_last());
                            assert(gs_pre.drop_last().len() == 0);
                            assert(gnodes_of(roots@) =~= gr_pre.push(gnode_of(child)));
                            assert(attach(gs_pre, gr_pre, lvl as int) == attach(
                                gnodes_of(stack@),
                                gnodes_of(roots@),
                                lvl as int,
                            ));
                        }
                    }
                }
                let node = Heading {
                    head: h,
                    properties: Vec::new(),
                    section: Vec::new(),
                    children: Vec::new(),
                };
                proof {
                    if blocks_wf(bs0) {
                        assert(crate::model::header_wf(node.head@));
                        assert(crate::model::heading_wf(node));
                    }
                }
                let ghost sk0 = stack@;
                let ghost gs_out = gnodes_of(stack@);
                let ghost gr_out = gnodes_of(roots@);
                proof {
                    lemma_gnodes(sk0);
                    assert(node.head.level == lvl);
                    if sk0.len() > 0 {
                        assert(sk0[sk0.len() - 1].head.level < lvl);
                        assert(gs_out.last() == gnode_of(sk0[sk0.len() - 1]));
                    }
                    assert(attach(gs_out, gr_out, lvl as int) == (gs_out, gr_out));
                }
                stack.push(node);
                proof {
                    lemma_gnodes(stack@);
                    assert(gnode_of(node) =~~= (GNode {
                        head: h,
                        properties: Seq::empty(),
                        section: Seq::empty(),
                        children: Seq::empty(),
                    }));
                    assert(gnodes_of(stack@) =~= gs_out.push(gnode_of(node)));
                    let st2 = build_step(st, b);
                    assert(st2.stack =~= gnodes_of(stack@));
                    assert(st2 =~~= (BState {
                        stack: gnodes_of(stack@),
                        roots: gnodes_of(roots@),
                        ..st
                    }));
                    st = st2;
                    assert forall|a: int, b2: int|
                        0 <= a < b2 < stack@.len() implies (#[trigger] stack@[a].head.level) < (
                    #[trigger] stack@[b2].head.level) by {
                        if b2 < sk0.len() {
                            assert(stack@[a] == sk0[a]);
                            assert(stack@[b2] == sk0[b2]);
                        } else {
                            assert(stack@[a] == sk0[a]);
                            assert(stack@[b2] == node);
                            if a < sk0.len() - 1 {
                                assert(sk0[a].head.level < sk0[sk0.len() - 1].head.level);
                            }
                        }
                    }
                }
            },
            Block::Drawer(ps) => {
                let ghost psv = ps@;
                if stack.len() > 0 {
                    let ns = stack.len();
                    let ghost sk0 = stack@;
                    let ghost gs0 = gnodes_of(stack@);
                    proof {
                        lemma_gnodes(sk0);
                    }
                    let mut top = stack.remove(ns - 1);
                    let ghost top0 = top;
                    top.properties = merge_props(top.properties, ps);
                    proof {
                        if blocks_wf(bs0) {
                            assert(crate::model::heading_wf(top0));
                            assert(props_wf(top0.properties@));
                            assert(crate::model::heading_wf(top));
                        }
                    }
                    stack.push(top);
                    proof {
                        lemma_stack_update_levels(sk0, stack@, top0, top);
                        lemma_gnodes(stack@);
                        assert(gnode_of(top) =~~= (GNode {
                            properties: merge_spec(gnode_of(top0).properties, psv),
                            ..gnode_of(top0)
                        }));
                        assert(gs0.last() == gnode_of(top0));
                        assert(gnodes_of(stack@) =~= gs0.drop_last().push(gnode_of(top)));
                        let st2 = build_step(st, b);
                        assert(st2 =~~= (BState { stack: gnodes_of(stack@), ..st }));
                        st = st2;
                    }
                } else {
                    zprops = merge_props(zprops, ps);
                    proof {
                        let st2 = build_step(st, b);
                        assert(st2 =~~= (BState { zprops: zprops@, ..st }));
                        st = st2;
                    }
                }
            },
            Block::Directive { title: is_title, value } => {
                if is_title {
                    match title {
                        Option::None => {
                            title = Option::Some(value);
                        },
                        Option::Some(t) => {
                            title = Option::Some(t);
                        },
                    }
                } else {
                    match description {
                        Option::None => {
                            description = Option::Some(value);
                        },
                        Option::Some(d) => {
                            description = Option::Some(d);
                        },
                    }
                }
                proof {
                    let st2 = build_step(st, b);
                    assert(st2 =~~= (BState { title: title, description: description, ..st }));
                    st = st2;
                }
            },
            Block::Planning(l) => {
                let ghost e = Element::Planning(l);
                if stack.len() > 0 {
                    let ns = stack.len();
                    let ghost sk0 = stack@;
                    let ghost gs0 = gnodes_of(stack@);
                    proof {
                        lemma_gnodes(sk0);
                    }
                    let mut top = stack.remove(ns - 1);
                    let ghost top0 = top;
                    top.section.push(Element::Planning(l));
                    proof {
                        if blocks_wf(bs0) {
                            assert(crate::model::heading_wf(top0));
                            assert(crate::model::heading_wf(top));
                        }
                    }
                    stack.push(top);
                    proof {
                        lemma_stack_update_levels(sk0, stack@, top0, top);
                        lemma_gnodes(stack@);
                        assert(gnode_of(top) =~~= (GNode {
                            section: gnode_of(top0).section.push(e),
                            ..gnode_of(top0)
                        }));
                        assert(gs0.last() == gnode_of(top0));
                        assert(gnodes_of(stack@) =~= gs0.drop_last().push(gnode_of(top)));
                        let st2 = build_step(st, b);
                        assert(st2 =~~= (BState { stack: gnodes_of(stack@), ..st }));
                        st = st2;
                    }
                } else {
                    zbody.push(Element::Planning(l));
                    proof {
                        let st2 = build_step(st, b);
                        assert(st2 =~~= (BState { zbody: zbody@, ..st }));
                        st = st2;
                    }
                }
            },
            Block::Piece(e) => {
                let ghost ev = e;
                if stack.len() > 0 {
                    let ns = stack.len();
                    let ghost sk0 = stack@;
                    let ghost gs0 = gnodes_of(stack@);
                    proof {
                        lemma_gnodes(sk0);
                    }
                    let mut top = stack.remove(ns - 1);
                    let ghost top0 = top;
                    top.section.push(e);
                    proof {
                        if blocks_wf(bs0) {
                            assert(crate::model::heading_wf(top0));
                            assert(crate::model::heading_wf(top));
                        }
                    }
                    stack.push(top);
                    proof {
                        lemma_stack_update_levels(sk0, stack@, top0, top);
                        lemma_gnodes(stack@);
                        assert(gnode_of(top) =~~= (GNode {
                            section: gnode_of(top0).section.push(ev),
                            ..gnode_of(top0)
                        }));
                        assert(gs0.last() == gnode_of(top0));
                        assert(gnodes_of(stack@) =~= gs0.drop_last().push(gnode_of(top)));
                        let st2 = build_step(st, b);
                        assert(st2 =~~= (BState { stack: gnodes_of(stack@), ..st }));
                        st = st2;
                    }
                } else {
                    zbody.push(e);
                    proof {
                        let st2 = build_step(st, b);
                        assert(st2 =~~= (BState { zbody: zbody@, ..st }));
                        st = st2;
                    }
                }
            },
        }
    }
    proof {
        assert(bs0.skip(n as int) =~= Seq::<Block>::empty());
        assert(build_fold(bs0, 0, bstate_init()) == st);
    }
    let ghost gs_in = gnodes_of(stack@);
    let ghost gr_in = gnodes_of(roots@);
    while stack.len() > 0
        invariant
            blocks_wf(bs0) ==> (forall|q: int|
                0 <= q < roots@.len() ==> crate::model::heading_wf(#[trigger] roots@[q])),
            blocks_wf(bs0) ==> (forall|q: int|
                0 <= q < stack@.len() ==> crate::model::heading_wf(#[trigger] stack@[q])),
            forall|a: int, b2: int|
                0 <= a < b2 < stack@.len() ==> (#[trigger] stack@[a].head.level)
                    < (#[trigger] stack@[b2].head.level),
            attach(gs_in, gr_in, 0) == attach(gnodes_of(stack@), gnodes_of(roots@), 0),
        decreases stack@.len(),
    {
        let ghost sk_pre = stack@;
        let ghost gs_pre = gnodes_of(stack@);
        let ghost gr_pre = gnodes_of(roots@);
        proof {
            lemma_gnodes(sk_pre);
            assert(gs_pre.last().head.level >= 0);
        }
        let nl = stack.len();
        let child = stack.remove(nl - 1);
        proof {
            lemma_gnodes(stack@);
            assert(stack@ =~= sk_pre.drop_last());
            assert(gnodes_of(stack@) =~= gs_pre.drop_last());
            assert(gs_pre.last() == gnode_of(child));
        }
        if stack.len() > 0 {
            let nl2 = stack.len();
            let ghost sk_mid = stack@;
            let mut parent = stack.remove(nl2 - 1);
            let ghost par0 = parent;
            parent.children.push(child);
            proof {
                lemma_gnodes(par0.children@);
                lemma_gnodes(parent.children@);
                assert(gnodes_of(parent.children@) =~= gnodes_of(par0.children@).push(
                    gnode_of(child),
                ));
                assert(gnode_of(parent) =~~= (GNode {
                    children: gnode_of(par0).children.push(gnode_of(child)),
                    ..gnode_of(par0)
                }));
                if blocks_wf(bs0) {
                    assert forall|q: int| 0 <= q < parent.children@.len() implies (
                    #[trigger] parent.children@[q]).head.level > parent.head.level
                        && crate::model::heading_wf(parent.children@[q]) by {
                        if q < par0.children@.len() {
                            assert(parent.children@[q] == par0.children@[q]);
                            assert(crate::model::heading_wf(par0));
                        } else {
                            assert(parent.children@[q] == child);
                        }
                    }
                    assert(crate::model::heading_wf(parent));
                }
            }
            stack.push(parent);
            proof {
                lemma_gnodes(sk_mid);
                lemma_gnodes(stack@);
                assert(stack@ =~= sk_mid.drop_last().push(parent));
                assert(gnodes_of(stack@) =~= gs_pre.drop_last().drop_last().push(
                    gnode_of(parent),
                ));
                assert(gs_pre.drop_last().last() == gnode_of(par0));
                assert(attach(gs_pre, gr_pre, 0) == attach(
                    gnodes_of(stack@),
                    gnodes_of(roots@),
                    0,
                ));
            }
        } else {
            let ghost ro_pre = roots@;
            roots.push(child);
            proof {
                lemma_gnodes(ro_pre);
                lemma_gnodes(roots@);
                assert(roots@ =~= ro_pre.push(child));
                assert(gnodes_of(stack@) =~= gs_pre.drop_last());
                assert(gs_pre.drop_last().len() == 0);
                assert(gnodes_of(roots@) =~= gr_pre.push(gnode_of(child)));
                assert(attach(gs_pre, gr_pre, 0) == attach(
                    gnodes_of(stack@),
                    gnodes_of(roots@),
                    0,
                ));
            }
        }
    }
    let doc = Document {
        zeroth: crate::model::ZerothSection { title, description, properties: zprops, body: zbody },
        headings: roots,
    };
    proof {
        assert(gnodes_of(stack@).len() == 0);
        assert(attach(gnodes_of(stack@), gnodes_of(roots@), 0) == (
            gnodes_of(stack@),
            gnodes_of(roots@),
        ));
        assert(gdoc_of(doc) =~~= build_spec(bs0));
    }
    doc
}

/// The whole parsing pipeline: split into lines, recognize the blocks,
/// build the tree. Succeeds exactly when the control machine accepts the
/// text. The result is then a well-formed document built by the level-stack
/// rule from a well-formed block sequence whose heading records and
/// directives are exactly the accepted lines' skeleton events, in order.
pub fn parse(
    text: &Vec<char>,
    keywords: &Vec<Vec<char>>,
    prios: &Vec<char>,
) -> (r: Result<Document, ParseError>)
    ensures
        ({
            let v = scan_verdict(lines_spec(text@), keywords.deep_view(), prios@);
            match r {
                Result::Ok(doc) => v is None && crate::model::document_wf(doc) && (exists|
                    bs: Seq<Block>,
                |
                    blocks_wf(bs) && #[trigger] events_of(bs) == events_scan(
                        lines_spec(text@),
                        0,
                        ctrl_init(),
                        keywords.deep_view(),
                        prios@,
                    ) && gdoc_of(doc) == build_spec(bs)),
                Result::Err(e) => v == Option::Some((e.line as int, e.kind)),
            }
        }),
{
    let lines = split_lines(text);
    match parse_blocks(&lines, keywords, prios) {
        Result::Ok(bs) => {
            let ghost gbs = bs@;
            let doc = build_tree(bs);
            proof {
                assert(blocks_wf(gbs) && events_of(gbs) == events_scan(
                    lines_spec(text@),
                    0,
                    ctrl_init(),
                    keywords.deep_view(),
                    prios@,
                ) && gdoc_of(doc) == build_spec(gbs));
            }
            Result::Ok(doc)
        },
        Result::Err(e) => Result::Err(e),
    }
}


/// A line that opens a heading and parses to one.
pub open spec fn heading_ok_line(l: Seq<char>, kws: Seq<Seq<char>>, prios: Seq<char>) -> bool {
    parse_heading_spec(l, kws, prios) matches Result::Ok(og) && og is Some
}

proof fn lemma_heading_run(
    lines: Seq<Seq<char>>,
    i: int,
    st: GCtrl,
    kws: Seq<Seq<char>>,
    prios: Seq<char>,
)
    requires
        0 <= i <= lines.len(),
        !st.in_drawer,
        (st.raw is None),
        st.containers.len() == 0,
        forall|j: int| 0 <= j < lines.len() ==> heading_ok_line(#[trigger] lines[j], kws, prios),
    ensures
        (ctrl_scan(lines, i, st, kws, prios) matches Result::Ok(st2) && !st2.in_drawer && (
        st2.raw is None) && st2.containers.len() == 0),
    decreases lines.len() - i,
{
    if i < lines.len() {
        assert(heading_ok_line(lines[i], kws, prios));
        let st2 = GCtrl { at_start: false, after_heading: true, ..st };
        assert(ctrl_step(st, lines[i], kws, prios) == Result::<GCtrl, ParseErrorKind>::Ok(st2));
        lemma_heading_run(lines, i + 1, st2, kws, prios);
    }
}

/// Skipped or reordered heading levels never cause an error: a document
/// whose every line opens a valid heading is always accepted, whatever the
/// sequence of levels; the tree builder then nests the headings without
/// ever failing.
pub proof fn lemma_heading_sequences_accepted(
    lines: Seq<Seq<char>>,
    kws: Seq<Seq<char>>,
    prios: Seq<char>,
)
    requires
        forall|j: int| 0 <= j < lines.len() ==> heading_ok_line(#[trigger] lines[j], kws, prios),
    ensures
        (scan_verdict(lines, kws, prios) is None),
{
    lemma_heading_run(lines, 0, ctrl_init(), kws, prios);
}

} // verus!
