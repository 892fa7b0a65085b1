use shakyrave::blocks::parse;
use shakyrave::config::{default_parse_config, Build, Config, Server};
use shakyrave::doctor::{fresh_id, is_normalized, normalize, NormalizePolicy, RepairKind};
use shakyrave::model::Heading;
use shakyrave::text::{chars_eq, chars_eq_ci, text, trim, trim_end};

fn t(s: &str) -> Vec<char> {
    text(s)
}

fn back(v: &[char]) -> String {
    v.iter().collect()
}

fn policy() -> NormalizePolicy {
    NormalizePolicy {
        placeholder_title: t("untitled"),
        placeholder_description: t("undescribed"),
    }
}

fn parsed(src: &str) -> shakyrave::model::Document {
    let cfg = default_parse_config();
    parse(&t(src), &cfg.keywords, &cfg.priorities).unwrap()
}

fn custom_id(h: &Heading) -> Option<String> {
    for p in h.properties.iter() {
        if back(&p.key).to_ascii_uppercase() == "CUSTOM_ID" {
            return Some(back(&p.value));
        }
    }
    None
}

#[test]
fn normalization_fills_title_description_and_ids() {
    let doc = parsed("* one\n** two\n* three");
    assert!(!is_normalized(&doc));
    let (out, report) = normalize(doc, &policy());
    assert!(is_normalized(&out));
    assert_eq!(back(out.zeroth.title.as_ref().unwrap()), "untitled");
    assert_eq!(back(out.zeroth.description.as_ref().unwrap()), "undescribed");
    let mut ids = Vec::new();
    for p in out.zeroth.properties.iter() {
        if back(&p.key) == "CUSTOM_ID" {
            ids.push(back(&p.value));
        }
    }
    fn walk(h: &Heading, ids: &mut Vec<String>) {
        ids.push(custom_id(h).expect("every heading carries an identifier"));
        for c in h.children.iter() {
            walk(c, ids);
        }
    }
    for h in out.headings.iter() {
        walk(h, &mut ids);
    }
    assert_eq!(ids.len(), 4);
    for i in 0..ids.len() {
        assert!(!ids[i].is_empty());
        for j in 0..i {
            assert_ne!(ids[j], ids[i]);
        }
    }
    assert!(!report.is_empty());
}

#[test]
fn normalization_is_idempotent() {
    let doc = parsed("#+TITLE: kept\n* a\n** b");
    let (once, first_report) = normalize(doc, &policy());
    assert!(!first_report.is_empty());
    let shown_once = format!("{:?}", once);
    let (twice, second_report) = normalize(once, &policy());
    let shown_twice = format!("{:?}", twice);
    assert_eq!(shown_once, shown_twice);
    assert!(second_report.is_empty());
}

#[test]
fn existing_values_are_never_touched() {
    let doc = parsed(
        ":PROPERTIES:\n:CUSTOM_ID: zero\n:END:\n#+TITLE: kept\n#+DESCRIPTION: also kept\n* a\n:PROPERTIES:\n:CUSTOM_ID: mine\n:END:",
    );
    let (out, report) = normalize(doc, &policy());
    assert!(report.is_empty());
    assert_eq!(back(out.zeroth.title.as_ref().unwrap()), "kept");
    assert_eq!(back(out.zeroth.description.as_ref().unwrap()), "also kept");
    assert_eq!(custom_id(&out.headings[0]).unwrap(), "mine");
}

#[test]
fn duplicate_id_scenario() {
    let doc = parsed(
        ":PROPERTIES:\n:CUSTOM_ID: zero\n:END:\n#+TITLE: x\n#+DESCRIPTION: y\n* first\n:PROPERTIES:\n:CUSTOM_ID: dup\n:END:\n* second\n:PROPERTIES:\n:CUSTOM_ID: dup\n:END:",
    );
    let (out, report) = normalize(doc, &policy());
    assert_eq!(custom_id(&out.headings[0]).unwrap(), "dup");
    let second = custom_id(&out.headings[1]).unwrap();
    assert_ne!(second, "dup");
    assert!(!second.is_empty());
    assert_eq!(report.len(), 1);
    assert_eq!(report[0].kind, RepairKind::ReplacedDuplicateId);
    assert_eq!(back(&report[0].old_value.clone().unwrap()), "dup");
    assert_eq!(back(&report[0].new_value), second);
}

#[test]
fn generated_ids_are_deterministic() {
    let doc1 = parsed("* Alpha One\n* Alpha One");
    let doc2 = parsed("* Alpha One\n* Alpha One");
    let (out1, _) = normalize(doc1, &policy());
    let (out2, _) = normalize(doc2, &policy());
    assert_eq!(custom_id(&out1.headings[0]), custom_id(&out2.headings[0]));
    assert_eq!(custom_id(&out1.headings[1]), custom_id(&out2.headings[1]));
    assert_ne!(custom_id(&out1.headings[0]), custom_id(&out1.headings[1]));
}

#[test]
fn config_supplies_the_policy() {
    let conf = Config {
        url: "https://example.com".to_string(),
        title: "My website".to_string(),
        description: "A description of the website".to_string(),
        build: Build {
            out_folder: "out".to_string(),
            assets_folder: "assets".to_string(),
            templates_folder: "templates".to_string(),
        },
        server: Server { port: 8080 },
    };
    let p = conf.policy();
    assert_eq!(back(&p.placeholder_title), "My website");
    assert_eq!(back(&p.placeholder_description), "A description of the website");

    let bare = Config {
        url: String::new(),
        title: String::new(),
        description: String::new(),
        build: Build {
            out_folder: String::new(),
            assets_folder: String::new(),
            templates_folder: String::new(),
        },
        server: Server { port: 0 },
    };
    let q = bare.policy();
    assert!(!q.placeholder_title.is_empty());
    assert!(!q.placeholder_description.is_empty());
}

#[test]
fn text_helpers_behave() {
    assert!(chars_eq(&t("abc"), &t("abc")));
    assert!(!chars_eq(&t("abc"), &t("abd")));
    assert!(chars_eq_ci(&t("Custom_Id"), &t("CUSTOM_ID")));
    assert!(!chars_eq_ci(&t("Custom_Id"), &t("CUSTOM-ID")));
    assert_eq!(back(&trim(&t("  padded\t "))), "padded");
    assert_eq!(back(&trim_end(&t("  padded\t "))), "  padded");
}

#[test]
fn fresh_ids_avoid_everything_seen() {
    let seen = vec![t("base-0"), t("base-1"), t("base-2")];
    let id = fresh_id(&t("base"), &seen);
    let shown = back(&id);
    assert!(!shown.is_empty());
    for s in seen.iter() {
        assert_ne!(back(s), shown);
    }
}
