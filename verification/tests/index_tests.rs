use bundle_rust::index::{
    apply_response, cache_slug_for_url, parse_info, parse_versions, plan_range_header,
    CacheAction, CompactIndexError, Discovery, GemDependency, GemVersion,
};
use bundle_rust::requirement::parse_req;
use bundle_rust::version::RubyVersion;

#[test]
fn test_open_file() {
}

#[test]
fn cache_append_reconstructs_file() {
    // cached "L1\nL2\n"; a 206 body re-sends the cached last byte
    let cached = b"L1\nL2\n".to_vec();
    let body = b"\nL3\n".to_vec();
    match apply_response(206, &body, true, "https://example.test/info/x").unwrap() {
        CacheAction::Append(tail) => {
            assert_eq!(tail, b"L3\n".to_vec());
            let mut merged = cached.clone();
            merged.extend_from_slice(&tail);
            assert_eq!(merged, b"L1\nL2\nL3\n".to_vec());
        }
        _ => panic!("expected an append"),
    }
}

#[test]
fn cache_update_other_statuses() {
    let body = b"---\nrails 1.0\n".to_vec();
    assert!(matches!(
        apply_response(304, &body, true, "u").unwrap(),
        CacheAction::NotModified
    ));
    match apply_response(200, &body, false, "u").unwrap() {
        CacheAction::Replace(b) => assert_eq!(b, body),
        _ => panic!("expected a replace"),
    }
    let empty = b"---\n".to_vec();
    assert!(matches!(
        apply_response(200, &empty, false, "u").unwrap(),
        CacheAction::EmptyIndex
    ));
    assert!(matches!(
        apply_response(500, &body, false, "u"),
        Err(CompactIndexError::Other(_))
    ));
}

#[test]
fn range_header_rewinds_one_byte() {
    assert!(plan_range_header(0).is_none());
    assert_eq!(plan_range_header(6).unwrap(), "bytes=5-");
}

#[test]
fn versions_file_is_filtered_by_name() {
    let text = "created_at: 2024-01-01\n---\nrails 6.0.0,6.1.3 abcd\nrack 2.2.0 ffff\nignored 1.0 eeee\n";
    let gems = vec!["rails".to_string(), "rack".to_string()];
    let parsed = parse_versions(text, &gems);
    assert_eq!(parsed.len(), 2);
    assert_eq!(parsed[0].0, "rails");
    assert_eq!(parsed[0].1.len(), 2);
    assert_eq!(parsed[0].1[0].to_string(), "6.0.0");
    assert_eq!(parsed[0].1[1].to_string(), "6.1.3");
    assert_eq!(parsed[1].0, "rack");
    assert_eq!(parsed[1].1.len(), 1);
}

#[test]
fn info_file_lists_releases() {
    let text = "---\n1.0.0 dep1:>= 1.0&< 2.0,dep2:~> 1.2|checksum:abc\n1.1.0-x86-linux\n2.0.0\n";
    let releases = parse_info("mygem", text).unwrap();
    assert_eq!(releases.len(), 2); // the platform-tagged release is skipped
    assert_eq!(releases[0].name, "mygem");
    assert_eq!(releases[0].version.to_string(), "1.0.0");
    assert_eq!(releases[0].dependencies.len(), 2);
    assert_eq!(releases[0].dependencies[0].name, "dep1");
    assert_eq!(
        releases[0].dependencies[0].requirement_str,
        vec![">= 1.0".to_string(), "< 2.0".to_string()]
    );
    assert!(releases[0].dependencies[0]
        .requirement
        .contains(&RubyVersion::parse("1.5.0")));
    assert!(!releases[0].dependencies[0]
        .requirement
        .contains(&RubyVersion::parse("2.0.0")));
    assert_eq!(releases[0].dependencies[1].name, "dep2");
    assert_eq!(releases[1].version.to_string(), "2.0.0");
    assert!(releases[1].dependencies.is_empty());
}

#[test]
fn info_file_with_bad_requirement_is_fatal() {
    // a pessimistic clause without a version cannot be parsed
    let text = "---\n1.0.0 dep1:~>\n";
    assert!(parse_info("mygem", text).is_err());
}

#[test]
fn cache_slug_has_host_port_and_digest() {
    let slug = cache_slug_for_url("https://rubygems.org/").unwrap();
    assert!(slug.starts_with("rubygems.org.443."));
    let digest: Vec<char> = slug.chars().skip("rubygems.org.443.".len()).collect();
    assert_eq!(digest.len(), 8);
    assert!(digest.iter().all(|c| c.is_ascii_hexdigit()));
    // the digest comes from hashing, not from the URL text itself
    assert_ne!(digest.iter().collect::<String>(), "https://".to_string());

    let slug_http = cache_slug_for_url("http://gems.example.com:8080/x").unwrap();
    assert!(slug_http.starts_with("gems.example.com.8080."));
    assert!(matches!(
        cache_slug_for_url("not a url"),
        Err(CompactIndexError::UrlParse(_))
    ));
    assert!(matches!(
        cache_slug_for_url("mailto:someone@example.org"),
        Err(CompactIndexError::Other(_))
    ));
}

#[test]
fn sanitized_host_replaces_unsafe_bytes() {
    // brackets and colons of a literal address are outside the safe set
    let slug = cache_slug_for_url("https://[::1]/").unwrap();
    assert!(slug.starts_with("---1-.443."));
}

fn release(name: &str, version: &str, deps: Vec<&str>) -> GemVersion {
    GemVersion {
        name: name.to_string(),
        version: RubyVersion::parse(version),
        checksum: None,
        dependencies: deps
            .into_iter()
            .map(|d| GemDependency {
                name: d.to_string(),
                requirement: parse_req(">= 0", ",").0,
                requirement_str: vec![">= 0".to_string()],
            })
            .collect(),
    }
}

#[test]
fn discovery_walks_dependencies_once() {
    let mut d = Discovery::new(vec!["a".to_string()]);
    let first = d.next_to_schedule().unwrap();
    assert_eq!(first, "a");
    assert!(d.next_to_schedule().is_none()); // already scheduled

    d.complete("a".to_string(), vec![release("a", "1.0.0", vec!["b", "c"])]);
    assert_eq!(d.graph.len(), 1);
    assert_eq!(d.queue, vec!["b".to_string(), "c".to_string()]);

    let second = d.next_to_schedule().unwrap();
    assert_eq!(second, "b");
    d.complete("b".to_string(), vec![release("b", "2.0.0", vec!["a"])]);
    // "a" is already visited, so nothing joins the queue
    assert_eq!(d.queue, vec!["c".to_string()]);

    let third = d.next_to_schedule().unwrap();
    assert_eq!(third, "c");
    d.complete("c".to_string(), vec![]);
    assert!(d.next_to_schedule().is_none());
    assert_eq!(d.graph.len(), 3);

    // a repeated completion leaves the graph alone
    d.complete("a".to_string(), vec![]);
    assert_eq!(d.graph.len(), 3);
}

#[test]
fn small_types_round_trip() {
    let ex = bundle_rust::executor::Executor::new(vec!["ruby".to_string(), "app.rb".to_string()]);
    assert_eq!(ex.args.len(), 2);

    let cli = bundle_rust::cli::Cli { command: Some(bundle_rust::cli::Command::Lock) };
    assert!(matches!(cli.command(), Some(bundle_rust::cli::Command::Lock)));

    let inst = bundle_rust::installer::GemInstaller::new(
        "/home/user/.gem".to_string(),
        "/home/user/.bundle/cache".to_string(),
        "https://rubygems.org/".to_string(),
        "3.3.0".to_string(),
    );
    assert_eq!(inst.get_gems_base_dir(), "/home/user/.gem/gems/3.3.0");
    assert_eq!(inst.get_gems_dir(), "/home/user/.gem/gems/3.3.0/gems");
    assert_eq!(
        inst.get_specifications_dir(),
        "/home/user/.gem/gems/3.3.0/specifications"
    );
    assert_eq!(inst.get_extensions_dir(), "/home/user/.gem/gems/3.3.0/extensions");
    assert_eq!(inst.get_bin_dir(), "/home/user/.gem/gems/3.3.0/bin");
    assert_eq!(
        inst.installed_gem_dir("rails", "6.1.3"),
        "/home/user/.gem/gems/3.3.0/gems/rails-6.1.3"
    );
    assert_eq!(
        inst.installed_gemspec_path("rails", "6.1.3"),
        "/home/user/.gem/gems/3.3.0/specifications/rails-6.1.3.gemspec"
    );
}
