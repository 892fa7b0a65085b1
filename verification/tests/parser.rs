use shakyrave::blocks::parse;
use shakyrave::config::{default_keywords, default_parse_config, default_priorities};
use shakyrave::heading::{header_level, is_valid_header_level, keyword, parse_heading_line, priority, serialize_heading};
use shakyrave::inline::{markup, parse_objects};
use shakyrave::model::{Element, HeadingLevel, MarkupKind, Object, ParseErrorKind};
use shakyrave::text::text;

fn t(s: &str) -> Vec<char> {
    text(s)
}

fn back(v: &[char]) -> String {
    v.iter().collect()
}

#[test]
fn parses_header_level() {
    let input = t("**** ");

    assert_eq!(header_level(&input).unwrap(), (t(""), 4));
}

#[test]
fn level_zero_and_seven_are_no_headings() {
    assert!(header_level(&t("plain text")).is_none());
    assert!(header_level(&t("******* deep")).is_none());
    assert!(header_level(&t("*stars_without_space")).is_none());

    let cfg = default_parse_config();
    let doc = parse(&t("******* deep"), &cfg.keywords, &cfg.priorities).unwrap();
    assert_eq!(doc.headings.len(), 0);
    assert_eq!(doc.zeroth.body.len(), 1);
    match &doc.zeroth.body[0] {
        Element::Paragraph(objs) => match &objs[0] {
            Object::PlainText(run) => assert_eq!(back(run), "******* deep"),
            other => panic!("expected plain text, got {:?}", other),
        },
        other => panic!("expected a paragraph, got {:?}", other),
    }
}

#[test]
fn valid_level_bounds() {
    assert!(!is_valid_header_level(&0));
    assert!(is_valid_header_level(&1));
    assert!(is_valid_header_level(&6));
    assert!(!is_valid_header_level(&7));
    assert!(HeadingLevel::new(3).is_ok());
    assert_eq!(HeadingLevel::new(0).unwrap_err(), ParseErrorKind::InvalidHeadingLevel);
    assert_eq!(HeadingLevel::new(7).unwrap_err(), ParseErrorKind::InvalidHeadingLevel);
}

#[test]
fn keyword_and_priority_recognition() {
    let kws = default_keywords();
    let (kw, rest) = keyword(&t("TODO mend the fence"), &kws);
    assert_eq!(back(&kw.unwrap()), "TODO");
    assert_eq!(back(&rest), "mend the fence");

    let (none_kw, rest2) = keyword(&t("NOPE mend the fence"), &kws);
    assert!(none_kw.is_none());
    assert_eq!(back(&rest2), "NOPE mend the fence");

    let prios = default_priorities();
    let (pri, rest3) = priority(&t("[#B] call home"), &prios);
    assert_eq!(pri, Some('B'));
    assert_eq!(back(&rest3), "call home");

    let (none_pri, rest4) = priority(&t("[#Z] call home"), &prios);
    assert!(none_pri.is_none());
    assert_eq!(back(&rest4), "[#Z] call home");
}

#[test]
fn full_heading_line_scenario() {
    let cfg = default_parse_config();
    let doc = parse(
        &t("* TODO [#A] hh.1 :tag1:tag2:\nbody text"),
        &cfg.keywords,
        &cfg.priorities,
    )
    .unwrap();
    assert_eq!(doc.headings.len(), 1);
    let h = &doc.headings[0];
    assert_eq!(h.head.level, 1);
    assert_eq!(back(h.head.keyword.as_ref().unwrap()), "TODO");
    assert_eq!(h.head.priority, Some('A'));
    assert_eq!(back(&h.head.headline), "hh.1");
    let tags: Vec<String> = h.head.tags.iter().map(|x| back(x)).collect();
    assert_eq!(tags, vec!["tag1".to_string(), "tag2".to_string()]);
    assert_eq!(h.section.len(), 1);
    match &h.section[0] {
        Element::Paragraph(objs) => {
            assert_eq!(objs.len(), 1);
            match &objs[0] {
                Object::PlainText(run) => assert_eq!(back(run), "body text"),
                other => panic!("expected plain text, got {:?}", other),
            }
        },
        other => panic!("expected a paragraph, got {:?}", other),
    }
}

#[test]
fn heading_serialize_round_trip() {
    let cfg = default_parse_config();
    let line = t("** DONE [#C] finish it :a:b:");
    let h = parse_heading_line(&line, &cfg.keywords, &cfg.priorities)
        .unwrap()
        .unwrap();
    let again = serialize_heading(&h);
    assert_eq!(back(&again), "** DONE [#C] finish it :a:b:");

    let plain = parse_heading_line(&t("*** just words"), &cfg.keywords, &cfg.priorities)
        .unwrap()
        .unwrap();
    assert_eq!(back(&serialize_heading(&plain)), "*** just words");
}

#[test]
fn duplicate_tags_are_dropped() {
    let cfg = default_parse_config();
    let h = parse_heading_line(&t("* note :x:y:x:"), &cfg.keywords, &cfg.priorities)
        .unwrap()
        .unwrap();
    let tags: Vec<String> = h.tags.iter().map(|x| back(x)).collect();
    assert_eq!(tags, vec!["x".to_string(), "y".to_string()]);
}

#[test]
fn empty_headline_is_an_error() {
    let cfg = default_parse_config();
    let err = parse(&t("** \nrest"), &cfg.keywords, &cfg.priorities).unwrap_err();
    assert_eq!(err.kind, ParseErrorKind::EmptyHeadline);
    assert_eq!(err.line, 0);
}

#[test]
fn bold_and_italic_scenario() {
    let objs = parse_objects(&t("*bold* and /italic/"));
    assert_eq!(objs.len(), 3);
    assert_eq!(
        objs[0],
        Object::Markup { kind: MarkupKind::Bold, content: t("bold") }
    );
    assert_eq!(objs[1], Object::PlainText(t(" and ")));
    assert_eq!(
        objs[2],
        Object::Markup { kind: MarkupKind::Italic, content: t("italic") }
    );
}

#[test]
fn space_after_opener_degrades_to_plain_text() {
    let objs = parse_objects(&t("*nope *"));
    assert_eq!(objs, vec![Object::PlainText(t("*nope *"))]);
}

#[test]
fn scripts_and_other_markup() {
    let objs = parse_objects(&t("x^{2} and a_{i} plus ~code~"));
    assert_eq!(objs[0], Object::PlainText(t("x")));
    assert_eq!(objs[1], Object::Superscript(t("2")));
    assert_eq!(objs[2], Object::PlainText(t(" and a")));
    assert_eq!(objs[3], Object::Subscript(t("i")));
    assert_eq!(objs[4], Object::PlainText(t(" plus ")));
    assert_eq!(objs[5], Object::Markup { kind: MarkupKind::Code, content: t("code") });
}

#[test]
fn misplaced_drawer_is_rejected() {
    let cfg = default_parse_config();
    let err = parse(
        &t("some text\n:PROPERTIES:\n:ID: x\n:END:"),
        &cfg.keywords,
        &cfg.priorities,
    )
    .unwrap_err();
    assert_eq!(err.kind, ParseErrorKind::MisplacedPropertyDrawer);
    assert_eq!(err.line, 1);
}

#[test]
fn drawers_attach_to_heading_and_zeroth() {
    let cfg = default_parse_config();
    let doc = parse(
        &t(":PROPERTIES:\n:CUSTOM_ID: zero\n:END:\n* one\n:PROPERTIES:\n:CUSTOM_ID: h1\n:Note: kept\n:END:"),
        &cfg.keywords,
        &cfg.priorities,
    )
    .unwrap();
    assert_eq!(doc.zeroth.properties.len(), 1);
    assert_eq!(back(&doc.zeroth.properties[0].key), "CUSTOM_ID");
    assert_eq!(back(&doc.zeroth.properties[0].value), "zero");
    let h = &doc.headings[0];
    assert_eq!(h.properties.len(), 2);
    assert_eq!(back(&h.properties[1].key), "Note");
    assert_eq!(back(&h.properties[1].value), "kept");
}

#[test]
fn unterminated_drawer_is_an_error() {
    let cfg = default_parse_config();
    let err = parse(
        &t("* one\n:PROPERTIES:\n:ID: x"),
        &cfg.keywords,
        &cfg.priorities,
    )
    .unwrap_err();
    assert_eq!(err.kind, ParseErrorKind::UnterminatedDrawer);
}

#[test]
fn fences_capture_and_nest() {
    let cfg = default_parse_config();
    let doc = parse(
        &t("#+BEGIN_EXAMPLE\n* not a heading\n#+END_EXAMPLE\n#+BEGIN_CENTER\ninner words\n#+END_CENTER"),
        &cfg.keywords,
        &cfg.priorities,
    )
    .unwrap();
    assert_eq!(doc.headings.len(), 0);
    assert_eq!(doc.zeroth.body.len(), 2);
    match &doc.zeroth.body[0] {
        Element::Verbatim { lines, .. } => {
            assert_eq!(lines.len(), 1);
            assert_eq!(back(&lines[0]), "* not a heading");
        },
        other => panic!("expected a verbatim block, got {:?}", other),
    }
    match &doc.zeroth.body[1] {
        Element::Greater { children, .. } => {
            assert_eq!(children.len(), 1);
        },
        other => panic!("expected a container block, got {:?}", other),
    }
}

#[test]
fn unterminated_fence_is_an_error() {
    let cfg = default_parse_config();
    let err = parse(&t("#+BEGIN_SRC\ncode"), &cfg.keywords, &cfg.priorities).unwrap_err();
    assert_eq!(err.kind, ParseErrorKind::UnterminatedFence);

    let err2 = parse(&t("#+BEGIN_QUOTE\nwords"), &cfg.keywords, &cfg.priorities).unwrap_err();
    assert_eq!(err2.kind, ParseErrorKind::UnterminatedFence);
}

#[test]
fn directives_fill_the_zeroth_section() {
    let cfg = default_parse_config();
    let doc = parse(
        &t("#+TITLE: My Page\n#+DESCRIPTION: All about it\n\nintro"),
        &cfg.keywords,
        &cfg.priorities,
    )
    .unwrap();
    assert_eq!(back(doc.zeroth.title.as_ref().unwrap()), "My Page");
    assert_eq!(back(doc.zeroth.description.as_ref().unwrap()), "All about it");
}

#[test]
fn skipped_levels_never_fail() {
    let cfg = default_parse_config();
    let doc = parse(
        &t("** b\n* a\n*** c\n** d"),
        &cfg.keywords,
        &cfg.priorities,
    )
    .unwrap();
    assert_eq!(doc.headings.len(), 2);
    assert_eq!(doc.headings[0].head.level, 2);
    assert_eq!(back(&doc.headings[0].head.headline), "b");
    let a = &doc.headings[1];
    assert_eq!(a.head.level, 1);
    assert_eq!(a.children.len(), 2);
    assert_eq!(a.children[0].head.level, 3);
    assert_eq!(back(&a.children[0].head.headline), "c");
    assert_eq!(a.children[1].head.level, 2);
    assert_eq!(back(&a.children[1].head.headline), "d");
}

#[test]
fn markup_combinator_matches_between_delimiters() {
    let r = markup(&t("<<content>> tail"), &t("<<"), &t(">>"));
    let (content, rest) = r.unwrap();
    assert_eq!(back(&content), "content");
    assert_eq!(back(&rest), " tail");

    assert!(markup(&t("no opener"), &t("<<"), &t(">>")).is_none());
    assert!(markup(&t("<<never closed"), &t("<<"), &t(">>")).is_none());
}

#[test]
fn planning_lines_are_kept() {
    let cfg = default_parse_config();
    let doc = parse(
        &t("* task\nSCHEDULED: <2024-01-01>\nwords"),
        &cfg.keywords,
        &cfg.priorities,
    )
    .unwrap();
    let h = &doc.headings[0];
    match &h.section[0] {
        Element::Planning(l) => assert_eq!(back(l), "SCHEDULED: <2024-01-01>"),
        other => panic!("expected a planning line, got {:?}", other),
    }
}
