use kerai::init_doc::{diff_init, json_escape, parse_init_doc, plan_changes, push_init, render_init_doc, render_push_summary, Change};

fn pairs(v: &[(&str, &str)]) -> Vec<(String, String)> {
    v.iter().map(|(a, b)| (a.to_string(), b.to_string())).collect()
}

#[test]
fn parse_document() {
    let doc = "# aliases\nls: list --all\n  // note\n\n: nokey\nkerai.editor   vim -u  \npostgres.global.connection postgres://x\nlonely\n";
    let d = parse_init_doc(doc);
    assert_eq!(d.aliases, pairs(&[("ls", "list --all"), ("postgres.global.connection postgres", "//x")]));
    assert_eq!(d.configs, pairs(&[("kerai.editor", "vim -u")]));
}

#[test]
fn lines_with_a_colon_are_never_config() {
    let d = parse_init_doc("name:\n");
    assert!(d.aliases.is_empty());
    assert!(d.configs.is_empty());
    let d = parse_init_doc("key val:\r\n");
    assert!(d.aliases.is_empty());
    assert!(d.configs.is_empty());
    let d = parse_init_doc("a b:\n:x y\n");
    assert!(d.aliases.is_empty());
    assert!(d.configs.is_empty());
}

#[test]
fn render_document() {
    let doc = render_init_doc(&pairs(&[("ll", "ls -l")]), &pairs(&[("theme", "dark")]));
    assert_eq!(doc, "# aliases\nll: ls -l\n\n# config\ntheme dark\n");
    assert_eq!(render_init_doc(&[], &pairs(&[("a", "b")])), "# config\na b\n");
    assert_eq!(
        render_init_doc(&[], &[]),
        "# empty \u{2014} add aliases (name: target) and config (key value)\n"
    );
}

#[test]
fn pull_then_push_changes_nothing() {
    let aliases = pairs(&[("ll", "ls -l"), ("g", "git status")]);
    let configs = pairs(&[("theme", "dark"), ("editor", "vim")]);
    let doc = render_init_doc(&aliases, &configs);
    let plan = push_init(Some(&doc), &aliases, &configs).unwrap();
    assert!(plan.alias_changes.is_empty() && plan.config_changes.is_empty());
    assert_eq!((plan.added, plan.updated, plan.deleted), (0, 0, 0));
    assert_eq!(diff_init(Some(&doc), &aliases, &configs), "[]");
}

#[test]
fn push_plans_adds_updates_deletes() {
    let stored_aliases = pairs(&[("ll", "ls -l"), ("old", "x")]);
    let stored_configs = pairs(&[("theme", "light"), ("postgres.global.connection", "pg://")]);
    let doc = "ll: ls -la\nnew: y\ntheme dark\n";
    let plan = push_init(Some(doc), &stored_aliases, &stored_configs).unwrap();
    assert_eq!((plan.added, plan.updated, plan.deleted), (1, 2, 1));
    assert_eq!(render_push_summary(&plan), "{\"added\":1,\"updated\":2,\"deleted\":1}");
    assert!(push_init(None, &stored_aliases, &stored_configs).is_none());
    let changes = plan_changes(&pairs(&[("a", "1")]), &pairs(&[("a", "2"), ("b", "3")]), false);
    assert!(matches!(&changes[0], Change::Update { key, old, new } if key == "a" && old == "2" && new == "1"));
    assert!(matches!(&changes[1], Change::Delete { key, value } if key == "b" && value == "3"));
}

#[test]
fn diff_json() {
    let out = diff_init(Some("a: \"q\"\nk v\n"), &[], &pairs(&[("z", "1")]));
    assert_eq!(
        out,
        "[{\"op\":\"add\",\"category\":\"alias\",\"key\":\"a\",\"value\":\"\\\"q\\\"\"},\
{\"op\":\"add\",\"category\":\"config\",\"key\":\"k\",\"value\":\"v\"},\
{\"op\":\"delete\",\"category\":\"config\",\"key\":\"z\",\"value\":\"1\"}]"
    );
    assert_eq!(diff_init(None, &[], &[]), "[]");
    assert_eq!(json_escape("a\\b\"c\nd\te\r"), "a\\\\b\\\"c\\nd\\te\\r");
}

fn apply(stored: &mut Vec<(String, String)>, changes: &[Change]) {
    for c in changes {
        match c {
            Change::Add { key, value } | Change::Update { key, new: value, .. } => {
                match stored.iter_mut().find(|(k, _)| k == key) {
                    Some(e) => e.1 = value.clone(),
                    None => stored.push((key.clone(), value.clone())),
                }
            }
            Change::Delete { key, .. } => stored.retain(|(k, _)| k != key),
        }
    }
}

#[test]
fn second_push_changes_nothing() {
    let doc = "# aliases\nls: list\ngs: git status\n\n# config\ntheme dark\npostgres.global.connection x\n";
    let mut aliases = pairs(&[("ls", "dir"), ("old", "gone")]);
    let mut configs = pairs(&[("theme", "light"), ("postgres.global.connection", "keep")]);
    let first = push_init(Some(doc), &aliases, &configs).unwrap();
    assert_eq!((first.added, first.updated, first.deleted), (1, 2, 1));
    apply(&mut aliases, &first.alias_changes);
    apply(&mut configs, &first.config_changes);
    let second = push_init(Some(doc), &aliases, &configs).unwrap();
    assert_eq!((second.added, second.updated, second.deleted), (0, 0, 0));
    assert_eq!(diff_init(Some(doc), &aliases, &configs), "[]");
}
