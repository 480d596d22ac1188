use rs_practice::auto_lifetime::names_needing_lifetime;

fn s(x: &str) -> String {
    x.to_string()
}

#[test]
fn lifetime_need_spreads_to_types_that_mention() {
    let deps = vec![
        (s("Ast"), vec![s("Vec"), s("Block")]),
        (s("Block"), vec![s("Vec"), s("Inline"), s("ListItem")]),
        (s("ListItem"), vec![s("Vec"), s("Inline"), s("ListItem")]),
        (s("Inline"), vec![s("Vec"), s("Inline")]),
        (s("Plain"), vec![s("u64")]),
    ];
    let direct = vec![s("Inline")];
    let mut need = names_needing_lifetime(&deps, &direct);
    need.sort();
    assert_eq!(need, vec![s("Ast"), s("Block"), s("Inline"), s("ListItem")]);
}

#[test]
fn nothing_needs_a_lifetime_without_references() {
    let deps = vec![(s("A"), vec![s("B")]), (s("B"), vec![s("A")])];
    assert!(names_needing_lifetime(&deps, &vec![]).is_empty());
}
