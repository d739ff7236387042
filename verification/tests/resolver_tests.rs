use std::cmp::Reverse;
use std::convert::Infallible;
use std::fmt;

use pubgrub::{Dependencies, DependencyProvider, PackageResolutionStatistics, VersionSet, resolve};

use bundle_rust::requirement::{parse_req, RichReq};
use bundle_rust::resolver::Resolver;
use bundle_rust::version::RubyVersion;

#[derive(Clone, Debug)]
struct Ver(RubyVersion);

impl PartialEq for Ver {
    fn eq(&self, other: &Self) -> bool {
        self.0.cmp_version(&other.0) == std::cmp::Ordering::Equal
    }
}

impl Eq for Ver {}

impl PartialOrd for Ver {
    fn partial_cmp(&self, other: &Self) -> Option<std::cmp::Ordering> {
        Some(self.0.cmp_version(&other.0))
    }
}

impl Ord for Ver {
    fn cmp(&self, other: &Self) -> std::cmp::Ordering {
        self.0.cmp_version(&other.0)
    }
}

impl fmt::Display for Ver {
    fn fmt(&self, f: &mut fmt::Formatter<'_>) -> fmt::Result {
        f.write_str(self.0.to_string().as_str())
    }
}

#[derive(Clone, Debug)]
struct Req(RichReq);

impl PartialEq for Req {
    fn eq(&self, other: &Self) -> bool {
        self.0.equivalent(&other.0)
    }
}

impl Eq for Req {}

impl fmt::Display for Req {
    fn fmt(&self, f: &mut fmt::Formatter<'_>) -> fmt::Result {
        f.write_str("requirement")
    }
}

impl VersionSet for Req {
    type V = Ver;

    fn empty() -> Self {
        Req(RichReq::empty())
    }

    fn singleton(v: Ver) -> Self {
        Req(RichReq::singleton(v.0))
    }

    fn complement(&self) -> Self {
        Req(self.0.complement())
    }

    fn intersection(&self, other: &Self) -> Self {
        Req(self.0.intersection(&other.0))
    }

    fn contains(&self, v: &Ver) -> bool {
        self.0.contains(&v.0)
    }

    fn full() -> Self {
        Req(RichReq::full())
    }

    fn union(&self, other: &Self) -> Self {
        Req(self.0.union(&other.0))
    }

    fn is_disjoint(&self, other: &Self) -> bool {
        self.0.is_disjoint(&other.0)
    }

    fn subset_of(&self, other: &Self) -> bool {
        self.0.subset_of(&other.0)
    }
}

struct Provider {
    resolver: Resolver,
}

impl DependencyProvider for Provider {
    type P = String;
    type V = Ver;
    type VS = Req;
    type M = String;
    type Err = Infallible;
    type Priority = (u32, Reverse<usize>);

    fn prioritize(
        &self,
        package: &String,
        range: &Req,
        package_statistics: &PackageResolutionStatistics,
    ) -> Self::Priority {
        let count = self.resolver.matching_count(package, &range.0);
        if count == 0 {
            (u32::MAX, Reverse(0))
        } else {
            (package_statistics.conflict_count(), Reverse(count))
        }
    }

    fn choose_version(&self, package: &String, range: &Req) -> Result<Option<Ver>, Infallible> {
        Ok(self.resolver.choose_version(package, &range.0).map(Ver))
    }

    fn get_dependencies(
        &self,
        package: &String,
        version: &Ver,
    ) -> Result<Dependencies<String, Req, String>, Infallible> {
        Ok(match self.resolver.get_dependencies(package, &version.0) {
            Some(deps) => Dependencies::Available(
                deps.into_iter().map(|(n, r)| (n, Req(r))).collect(),
            ),
            None => Dependencies::Unavailable("its dependencies could not be determined".to_string()),
        })
    }
}

fn req(text: &str) -> RichReq {
    parse_req(text, ",").0
}

fn add(
    resolver: &mut Resolver,
    gem: &str,
    version: &str,
    deps: Vec<(&str, &str)>,
) {
    let constraints = deps
        .into_iter()
        .map(|(n, r)| (n.to_string(), req(r), vec![r.to_string()]))
        .collect();
    resolver.add_dependencies(gem.to_string(), RubyVersion::parse(version), constraints);
}

#[test]
fn transitive_resolution_prefers_newest() {
    let mut resolver = Resolver::new();
    add(&mut resolver, "root", "0.0.0", vec![("a", "~> 1.1")]);
    add(&mut resolver, "a", "1.10.0", vec![("c", "~> 1.4")]);
    add(&mut resolver, "a", "1.11.0", vec![("c", "~> 1.7.0")]);
    add(&mut resolver, "c", "1.7.0", vec![]);
    add(&mut resolver, "c", "1.8.0", vec![]);

    let provider = Provider { resolver };
    let sol = resolve(&provider, "root".into(), Ver(RubyVersion::new(0, 0, 0))).unwrap();
    assert_eq!(sol.get(&"a".to_string()), Some(&Ver(RubyVersion::parse("1.11.0"))));
    assert_eq!(sol.get(&"c".to_string()), Some(&Ver(RubyVersion::parse("1.7.0"))));
}

#[test]
fn prerelease_excluded_by_default() {
    let mut resolver = Resolver::new();
    add(&mut resolver, "root", "0.0.0", vec![("x", ">= 1.0")]);
    add(&mut resolver, "x", "1.0.0", vec![]);
    add(&mut resolver, "x", "1.1.0.pre", vec![]);

    let provider = Provider { resolver };
    let sol = resolve(&provider, "root".into(), Ver(RubyVersion::new(0, 0, 0))).unwrap();
    assert_eq!(sol.get(&"x".to_string()), Some(&Ver(RubyVersion::parse("1.0.0"))));
}

#[test]
fn conflict_is_reported() {
    let mut resolver = Resolver::new();
    add(&mut resolver, "root", "0.0.0", vec![("a", ">= 2"), ("b", "~> 1")]);
    add(&mut resolver, "a", "2.0.0", vec![("b", "< 1")]);
    add(&mut resolver, "b", "1.0.0", vec![]);

    let provider = Provider { resolver };
    let sol = resolve(&provider, "root".into(), Ver(RubyVersion::new(0, 0, 0)));
    assert!(sol.is_err());
}

#[test]
fn choose_version_picks_newest_admissible() {
    let mut resolver = Resolver::new();
    add(&mut resolver, "a", "1.0.0", vec![]);
    add(&mut resolver, "a", "1.4.0", vec![]);
    add(&mut resolver, "a", "2.0.0", vec![]);
    let picked = resolver
        .choose_version(&"a".to_string(), &req("~> 1.0"))
        .unwrap();
    assert_eq!(picked.to_string(), "1.4.0");
    assert!(resolver.choose_version(&"a".to_string(), &req("> 3")).is_none());
}

#[test]
fn choose_version_respects_prerelease_flag() {
    let mut resolver = Resolver::new();
    add(&mut resolver, "a", "1.0.0", vec![]);
    add(&mut resolver, "a", "1.1.0.rc1", vec![]);
    let plain = resolver
        .choose_version(&"a".to_string(), &req(">= 1.0"))
        .unwrap();
    assert_eq!(plain.to_string(), "1.0.0");
    let pinned = resolver
        .choose_version(&"a".to_string(), &req("= 1.1.0.rc1"))
        .unwrap();
    assert_eq!(pinned.to_string(), "1.1.0.rc1");
}

#[test]
fn dependencies_round_trip() {
    let mut resolver = Resolver::new();
    add(&mut resolver, "a", "1.0.0", vec![("b", ">= 2.0"), ("c", "~> 1.1")]);
    let deps = resolver
        .get_dependencies(&"a".to_string(), &RubyVersion::parse("1.0.0"))
        .unwrap();
    assert_eq!(deps.len(), 2);
    assert_eq!(deps[0].0, "b");
    assert_eq!(deps[1].0, "c");
    assert!(deps[0].1.contains(&RubyVersion::parse("2.0.0")));
    assert!(!deps[0].1.contains(&RubyVersion::parse("1.9.0")));
    let strs = resolver
        .get_dependencies_str(&"a".to_string(), &RubyVersion::parse("1.0.0"))
        .unwrap();
    assert_eq!(strs[0].1, vec![">= 2.0".to_string()]);
    assert!(resolver
        .get_dependencies(&"a".to_string(), &RubyVersion::parse("9.9.9"))
        .is_none());
}
