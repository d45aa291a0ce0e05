use driven::parser::{lit, DrivenFile, DrivenVar, StringPart, StringRef};
use driven::resolve::{resolve_chain, VisitResult};
use driven::shells::{from_name, Bash, Fish, Shell, SupportedShell, Zsh};
use driven::varmap::VarMap;
use driven::visit::{visit, Walk};

fn def(internal: bool, name: &str, value: &str) -> DrivenVar {
    DrivenVar { internal, name: lit(name), value: lit(value) }
}

fn reference(internal: bool, name: &str, target: &str) -> DrivenVar {
    DrivenVar {
        internal,
        name: lit(name),
        value: StringRef { parts: vec![StringPart::Variable(target.to_string())] },
    }
}

fn file(variables: Vec<DrivenVar>) -> DrivenFile {
    DrivenFile { ignore_parents: false, allow_shell_exec: false, variables }
}

fn get(m: &VarMap, k: &str) -> Option<String> {
    m.get(&k.to_string()).cloned()
}

#[test]
fn fixpoint_resolves_across_documents() {
    let found = vec![
        ("/root/child".to_string(), file(vec![reference(false, "Y", "X")])),
        ("/root".to_string(), file(vec![def(false, "X", "1")])),
    ];
    let r = resolve_chain(&found).unwrap();
    assert_eq!(get(r.vars(), "X"), Some("1".to_string()));
    assert_eq!(get(r.vars(), "Y"), Some("1".to_string()));
}

#[test]
fn forward_references_inside_a_document_resolve() {
    let mut r = VisitResult::new();
    let f = file(vec![reference(false, "A", "B"), reference(false, "B", "C"), def(false, "C", "c")]);
    assert_eq!(r.add_file(&f), Ok(()));
    assert_eq!(get(r.vars(), "A"), Some("c".to_string()));
    assert_eq!(get(r.vars(), "B"), Some("c".to_string()));
}

#[test]
fn mixed_fragments_concatenate() {
    let mut r = VisitResult::new();
    let v = DrivenVar {
        internal: false,
        name: lit("P"),
        value: StringRef {
            parts: vec![
                StringPart::Literal("/home/".to_string()),
                StringPart::Variable("U".to_string()),
                StringPart::Literal("/bin".to_string()),
            ],
        },
    };
    assert_eq!(r.add_file(&file(vec![def(true, "U", "me"), v])), Ok(()));
    assert_eq!(get(r.vars(), "P"), Some("/home/me/bin".to_string()));
}

#[test]
fn missing_reference_fails_naming_it() {
    let mut r = VisitResult::new();
    let f = file(vec![reference(false, "Y", "NOPE")]);
    assert_eq!(r.add_file(&f), Err("could not resolve variables: NOPE".to_string()));
    assert_eq!(get(r.vars(), "Y"), None);
}

#[test]
fn cycle_fails_with_every_missing_name() {
    let mut r = VisitResult::new();
    let f = file(vec![def(false, "ok", "1"), reference(false, "A", "B"), reference(false, "B", "A")]);
    assert_eq!(r.add_file(&f), Err("could not resolve variables: B, A".to_string()));
    assert_eq!(get(r.vars(), "ok"), Some("1".to_string()));
}

#[test]
fn chain_failure_names_the_directory() {
    let found = vec![("/d".to_string(), file(vec![reference(false, "Y", "Z")]))];
    assert_eq!(
        resolve_chain(&found).unwrap_err(),
        "error parsing drivenfile /d: could not resolve variables: Z".to_string()
    );
}

#[test]
fn internal_variables_are_visible_but_not_exported() {
    let found = vec![
        ("/r/c".to_string(), file(vec![reference(false, "B", "SECRET")])),
        ("/r".to_string(), file(vec![def(true, "SECRET", "s")])),
    ];
    let r = resolve_chain(&found).unwrap();
    assert_eq!(get(r.vars(), "SECRET"), None);
    assert_eq!(get(r.internal_vars(), "SECRET"), Some("s".to_string()));
    assert_eq!(get(r.vars(), "B"), Some("s".to_string()));
    let lines = visit(&Bash, &found).unwrap();
    assert_eq!(lines, vec!["export B=s\n".to_string()]);
}

#[test]
fn most_recent_binding_wins_for_references() {
    let mut r = VisitResult::new();
    let f = file(vec![def(false, "N", "exported"), def(true, "N", "internal"), reference(false, "M", "N")]);
    assert_eq!(r.add_file(&f), Ok(()));
    assert_eq!(get(r.vars(), "M"), Some("internal".to_string()));
}

#[test]
fn descendant_shadows_ancestor() {
    let found = vec![
        ("/a/c".to_string(), file(vec![def(false, "Z", "child")])),
        ("/a".to_string(), file(vec![def(false, "Z", "parent")])),
    ];
    let r = resolve_chain(&found).unwrap();
    assert_eq!(get(r.vars(), "Z"), Some("child".to_string()));
    assert_eq!(visit(&Bash, &found).unwrap(), vec!["export Z=child\n".to_string()]);
}

#[test]
fn a_directory_met_twice_is_resolved_once() {
    // deepest first: /a, then /a/c, then /a again; root first and once each
    // that is /a then /a/c
    let found = vec![
        ("/a".to_string(), file(vec![def(false, "X", "1")])),
        ("/a/c".to_string(), file(vec![def(false, "X", "2")])),
        ("/a".to_string(), file(vec![def(false, "X", "1")])),
    ];
    let r = resolve_chain(&found).unwrap();
    assert_eq!(get(r.vars(), "X"), Some("2".to_string()));
}

#[test]
fn exports_come_in_ascending_order() {
    let found = vec![(
        "/".to_string(),
        file(vec![def(false, "b", "2"), def(false, "a", "1"), def(false, "C", "3"), def(false, "a", "4")]),
    )];
    assert_eq!(
        visit(&Zsh, &found).unwrap(),
        vec!["export C=3\n".to_string(), "export a=4\n".to_string(), "export b=2\n".to_string()]
    );
    assert_eq!(visit(&Bash, &Vec::new()).unwrap(), Vec::<String>::new());
}

#[test]
fn varmap_keeps_names_sorted_and_unique() {
    let mut m = VarMap::new();
    m.insert("b".to_string(), "1".to_string());
    m.insert("ab".to_string(), "2".to_string());
    m.insert("a".to_string(), "3".to_string());
    m.insert("ab".to_string(), "4".to_string());
    let keys: Vec<(String, String)> = m.entries().clone();
    assert_eq!(
        keys,
        vec![
            ("a".to_string(), "3".to_string()),
            ("ab".to_string(), "4".to_string()),
            ("b".to_string(), "1".to_string()),
        ]
    );
    assert_eq!(get(&m, "ab"), Some("4".to_string()));
    assert_eq!(get(&m, "c"), None);
}

#[test]
fn resolve_reports_the_first_missing_reference() {
    let r = VisitResult::new();
    let v = StringRef {
        parts: vec![
            StringPart::Literal("x".to_string()),
            StringPart::Variable("M1".to_string()),
            StringPart::Variable("M2".to_string()),
        ],
    };
    assert_eq!(r.resolve(&v), Err("M1".to_string()));
    assert_eq!(r.resolve(&lit("plain")), Ok("plain".to_string()));
}

#[test]
fn shells_by_name() {
    assert_eq!(from_name("bash"), Some(SupportedShell::Bash));
    assert_eq!(from_name("zsh"), Some(SupportedShell::Zsh));
    assert_eq!(from_name("fish"), None);
    assert_eq!(from_name(""), None);
    assert_eq!(SupportedShell::Bash.export_var("A", "b c"), "export A=b c\n".to_string());
    assert!(Zsh.driven_init().contains("add-zsh-hook chpwd __driven_add_dir"));
    assert!(Bash.driven_init().contains("__DRIVEN_LAST_PWD"));
    assert!(Fish.driven_init().contains("--on-variable PWD"));
    assert_eq!(SupportedShell::Zsh.driven_init(), Zsh.driven_init());
}

fn parent_of(dir: &str) -> Option<String> {
    if dir == "/" {
        None
    } else {
        match dir.rfind('/') {
            Some(0) => Some("/".to_string()),
            Some(i) => Some(dir[..i].to_string()),
            None => None,
        }
    }
}

fn walk(start: &str, files: &[(&str, DrivenFile)]) -> (Vec<String>, Vec<(String, DrivenFile)>) {
    let mut w = Walk::new(start.to_string());
    let mut looked = Vec::new();
    while let Some(dir) = w.next_dir() {
        looked.push(dir.clone());
        let doc = files.iter().find(|(d, _)| *d == dir).map(|(_, f)| f.clone());
        let parent = parent_of(&dir);
        w.record(dir, parent, doc);
    }
    (looked, w.found_files().clone())
}

#[test]
fn walk_collects_files_deepest_first() {
    let files = [
        ("/A", file(vec![def(false, "X", "a")])),
        ("/A/B/C", file(vec![def(false, "Y", "c")])),
    ];
    let (looked, found) = walk("/A/B/C", &files);
    assert_eq!(looked, vec!["/A/B/C", "/A/B", "/A", "/"]);
    let dirs: Vec<&str> = found.iter().map(|(d, _)| d.as_str()).collect();
    assert_eq!(dirs, vec!["/A/B/C", "/A"]);
    let r = resolve_chain(&found).unwrap();
    assert_eq!(get(r.vars(), "X"), Some("a".to_string()));
    assert_eq!(get(r.vars(), "Y"), Some("c".to_string()));
}

#[test]
fn stop_inheritance_ends_the_walk() {
    let mut b = file(vec![def(false, "Y", "b")]);
    b.ignore_parents = true;
    let files = [("/A", file(vec![def(false, "X", "a")])), ("/A/B", b)];
    let (looked, found) = walk("/A/B/C", &files);
    assert_eq!(looked, vec!["/A/B/C", "/A/B"]);
    assert_eq!(found.len(), 1);
    let r = resolve_chain(&found).unwrap();
    assert_eq!(get(r.vars(), "X"), None);
}
