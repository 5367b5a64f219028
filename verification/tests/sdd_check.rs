use wiki::sdd_check::has_dependency_cycle;

fn chars(s: &str) -> Vec<char> {
    s.chars().collect()
}

fn graph(entries: &[(&str, &[&str])]) -> (Vec<Vec<char>>, Vec<Vec<Vec<char>>>) {
    let keys = entries.iter().map(|(k, _)| chars(k)).collect();
    let deps = entries.iter().map(|(_, ds)| ds.iter().map(|d| chars(d)).collect()).collect();
    (keys, deps)
}

#[test]
fn two_requirements_depending_on_each_other_form_a_cycle() {
    let (keys, deps) = graph(&[("A", &["B"]), ("B", &["A"])]);
    assert!(has_dependency_cycle(&keys, &deps));
}

#[test]
fn a_self_dependency_is_a_cycle() {
    let (keys, deps) = graph(&[("A", &["A"])]);
    assert!(has_dependency_cycle(&keys, &deps));
}

#[test]
fn chains_and_unknown_dependencies_are_not_cycles() {
    let (keys, deps) = graph(&[("A", &["B"]), ("B", &[])]);
    assert!(!has_dependency_cycle(&keys, &deps));
    let (keys, deps) = graph(&[("A", &["C"])]);
    assert!(!has_dependency_cycle(&keys, &deps));
}

#[test]
fn a_later_entry_replaces_an_earlier_one() {
    let (keys, deps) = graph(&[("A", &["B"]), ("B", &["A"]), ("B", &[])]);
    assert!(!has_dependency_cycle(&keys, &deps));
}
