use bundle_rust::lockfile::render_lockfile;
use bundle_rust::requirement::parse_req;
use bundle_rust::resolver::Resolver;
use bundle_rust::version::RubyVersion;

fn add(resolver: &mut Resolver, gem: &str, version: &str, deps: Vec<(&str, Vec<&str>)>) {
    let constraints = deps
        .into_iter()
        .map(|(n, rs)| {
            let joined = rs.join(", ");
            (
                n.to_string(),
                parse_req(&joined, ",").0,
                rs.into_iter().map(|r| r.to_string()).collect::<Vec<String>>(),
            )
        })
        .collect();
    resolver.add_dependencies(gem.to_string(), RubyVersion::parse(version), constraints);
}

fn sols(pairs: Vec<(&str, &str)>) -> Vec<(String, RubyVersion)> {
    pairs
        .into_iter()
        .map(|(n, v)| (n.to_string(), RubyVersion::parse(v)))
        .collect()
}

#[test]
fn canonical_lockfile_text() {
    let mut resolver = Resolver::new();
    add(&mut resolver, "root", "0.0.0", vec![("rails", vec![">= 6.0"])]);
    add(
        &mut resolver,
        "rails",
        "6.1.3",
        vec![("zeitwerk", vec![">= 0"]), ("actionpack", vec!["= 6.1.3"])],
    );
    add(&mut resolver, "actionpack", "6.1.3", vec![]);
    add(&mut resolver, "zeitwerk", "2.4.2", vec![]);

    let solutions = sols(vec![
        ("zeitwerk", "2.4.2"),
        ("root", "0.0.0"),
        ("rails", "6.1.3"),
        ("actionpack", "6.1.3"),
    ]);
    let text = render_lockfile(&solutions, &resolver, "https://rubygems.org/", "2.5.22");
    let expected = "GEM\n  remote: https://rubygems.org/\n  specs:\n    actionpack (6.1.3)\n    rails (6.1.3)\n      actionpack (= 6.1.3)\n      zeitwerk\n    zeitwerk (2.4.2)\n\nPLATFORMS\n  ruby\n\nDEPENDENCIES\n  rails (>= 6.0)\n\nBUNDLED WITH\n   2.5.22\n";
    assert_eq!(text, expected);
}

#[test]
fn lockfile_is_deterministic() {
    let mut resolver = Resolver::new();
    add(&mut resolver, "root", "0.0.0", vec![("a", vec!["~> 1.0"])]);
    add(&mut resolver, "a", "1.2.0", vec![("b", vec![">= 1.0", "< 3"])]);
    add(&mut resolver, "b", "2.0.0", vec![]);
    let solutions = sols(vec![("root", "0.0.0"), ("a", "1.2.0"), ("b", "2.0.0")]);
    let one = render_lockfile(&solutions, &resolver, "https://rubygems.org/", "2.5.22");
    let two = render_lockfile(&solutions, &resolver, "https://rubygems.org/", "2.5.22");
    assert_eq!(one, two);
}

#[test]
fn reversed_clause_strings_under_specs() {
    let mut resolver = Resolver::new();
    add(&mut resolver, "root", "0.0.0", vec![("a", vec![">= 1.0", "< 3"])]);
    add(&mut resolver, "a", "1.2.0", vec![("b", vec![">= 1.0", "< 3"])]);
    add(&mut resolver, "b", "2.0.0", vec![]);
    let solutions = sols(vec![("root", "0.0.0"), ("a", "1.2.0"), ("b", "2.0.0")]);
    let text = render_lockfile(&solutions, &resolver, "https://rubygems.org/", "2.5.22");
    // under specs the clause list renders reversed; under DEPENDENCIES it does not
    assert!(text.contains("      b (< 3, >= 1.0)\n"));
    assert!(text.contains("  a (>= 1.0, < 3)\n"));
}

#[test]
fn same_deps_in_different_order_render_identically() {
    let mut one = Resolver::new();
    add(&mut one, "root", "0.0.0", vec![("a", vec!["~> 1.0"])]);
    add(
        &mut one,
        "a",
        "1.0.0",
        vec![("b", vec![">= 2.0"]), ("c", vec!["~> 1.1"])],
    );
    add(&mut one, "b", "2.0.0", vec![]);
    add(&mut one, "c", "1.1.0", vec![]);

    let mut two = Resolver::new();
    add(&mut two, "root", "0.0.0", vec![("a", vec!["~> 1.0"])]);
    add(
        &mut two,
        "a",
        "1.0.0",
        vec![("c", vec!["~> 1.1"]), ("b", vec![">= 2.0"])],
    );
    add(&mut two, "b", "2.0.0", vec![]);
    add(&mut two, "c", "1.1.0", vec![]);

    let solutions = sols(vec![
        ("root", "0.0.0"),
        ("a", "1.0.0"),
        ("b", "2.0.0"),
        ("c", "1.1.0"),
    ]);
    let left = render_lockfile(&solutions, &one, "https://rubygems.org/", "2.5.22");
    let right = render_lockfile(&solutions, &two, "https://rubygems.org/", "2.5.22");
    assert_eq!(left, right);
}
