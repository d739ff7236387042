//! The dependency universe and the version-selection policy.
//!
//! The universe records, per package name and version, the list of
//! dependencies to satisfy; a side table keeps the raw requirement
//! strings for the lockfile. Version choice is newest-first among the
//! stored versions that the remaining requirement admits.
use vstd::prelude::*;
use core::cmp::Ordering;
use crate::version::{
    RubyVersion, Segment, SegModel, spec_ver_cmp, ver_eq, lemma_ver_cmp_refl,
    lemma_ver_cmp_from_antisym, lemma_ver_cmp_from_trans,
};
use crate::ranges::{BoundModel, clone_version};
use crate::requirement::{RichReq, spec_req_contains, clone_req};
use crate::text::str_eq;

verus! {

/// The model of one dependency edge: target name, range model, flag.
pub open spec fn dep_view(d: (String, RichReq)) -> (Seq<char>, Seq<(BoundModel, BoundModel)>, bool) {
    (d.0@, d.1.range@, d.1.allow_pre)
}

pub open spec fn deps_view(ds: Seq<(String, RichReq)>) -> Seq<
    (Seq<char>, Seq<(BoundModel, BoundModel)>, bool),
> {
    Seq::new(ds.len(), |i: int| dep_view(ds[i]))
}

/// Whether a universe entry is keyed by this name and this version, the
/// latter compared in the version order.
pub open spec fn entry_matches(
    e: (String, RubyVersion, Vec<(String, RichReq)>),
    name: Seq<char>,
    vs: Seq<SegModel>,
) -> bool {
    e.0@ == name && ver_eq(e.1@.segs, vs)
}

/// The first index of an entry for this key, or the length.
pub open spec fn uni_index(
    u: Seq<(String, RubyVersion, Vec<(String, RichReq)>)>,
    name: Seq<char>,
    vs: Seq<SegModel>,
) -> int
    decreases u.len(),
{
    if u.len() == 0 {
        0
    } else if entry_matches(u[0], name, vs) {
        0
    } else {
        1 + uni_index(u.skip(1), name, vs)
    }
}

pub proof fn lemma_uni_index(
    u: Seq<(String, RubyVersion, Vec<(String, RichReq)>)>,
    name: Seq<char>,
    vs: Seq<SegModel>,
)
    ensures
        0 <= uni_index(u, name, vs) <= u.len(),
        forall|j: int| 0 <= j < uni_index(u, name, vs) ==> !entry_matches(#[trigger] u[j], name, vs),
        uni_index(u, name, vs) < u.len() ==> entry_matches(u[uni_index(u, name, vs)], name, vs),
    decreases u.len(),
{
    if u.len() > 0 && !entry_matches(u[0], name, vs) {
        lemma_uni_index(u.skip(1), name, vs);
        assert forall|j: int| 0 <= j < uni_index(u, name, vs) implies !entry_matches(
            #[trigger] u[j],
            name,
            vs,
        ) by {
            if j > 0 {
                assert(u.skip(1)[j - 1] == u[j]);
            }
        }
        if uni_index(u, name, vs) < u.len() {
            assert(u.skip(1)[uni_index(u, name, vs) - 1] == u[uni_index(u, name, vs)]);
        }
    }
}

/// The first index is determined by its characterization.
pub proof fn lemma_uni_index_is(
    u: Seq<(String, RubyVersion, Vec<(String, RichReq)>)>,
    name: Seq<char>,
    vs: Seq<SegModel>,
    k: int,
)
    requires
        0 <= k <= u.len(),
        forall|j: int| 0 <= j < k ==> !entry_matches(#[trigger] u[j], name, vs),
        k < u.len() ==> entry_matches(u[k], name, vs),
    ensures
        uni_index(u, name, vs) == k,
{
    lemma_uni_index(u, name, vs);
    let i = uni_index(u, name, vs);
    if i < k {
        assert(!entry_matches(u[i], name, vs));
    }
    if k < i {
        assert(!entry_matches(u[k], name, vs));
    }
}

/// The dependencies stored for a name and version, when any.
pub open spec fn uni_lookup(
    u: Seq<(String, RubyVersion, Vec<(String, RichReq)>)>,
    name: Seq<char>,
    vs: Seq<SegModel>,
) -> Option<Seq<(Seq<char>, Seq<(BoundModel, BoundModel)>, bool)>> {
    let i = uni_index(u, name, vs);
    if i < u.len() {
        Some(deps_view(u[i].2@))
    } else {
        None
    }
}

/// The deep model of recorded requirement strings.
pub open spec fn meta_strings_view(ds: Seq<(String, Vec<String>)>) -> Seq<
    (Seq<char>, Seq<Seq<char>>),
> {
    Seq::new(ds.len(), |i: int| (ds[i].0@, ds[i].1@.map_values(|s: String| s@)))
}

/// Whether a side-table record is keyed by this name and exactly this
/// version model.
pub open spec fn meta_matches(
    e: ((String, RubyVersion), Vec<(String, Vec<String>)>),
    name: Seq<char>,
    v: &RubyVersion,
) -> bool {
    e.0.0@ == name && e.0.1@ == v@
}

pub open spec fn meta_index(
    m: Seq<((String, RubyVersion), Vec<(String, Vec<String>)>)>,
    name: Seq<char>,
    v: &RubyVersion,
) -> int
    decreases m.len(),
{
    if m.len() == 0 {
        0
    } else if meta_matches(m[0], name, v) {
        0
    } else {
        1 + meta_index(m.skip(1), name, v)
    }
}

pub proof fn lemma_meta_index(
    m: Seq<((String, RubyVersion), Vec<(String, Vec<String>)>)>,
    name: Seq<char>,
    v: &RubyVersion,
)
    ensures
        0 <= meta_index(m, name, v) <= m.len(),
        forall|j: int| 0 <= j < meta_index(m, name, v) ==> !meta_matches(#[trigger] m[j], name, v),
        meta_index(m, name, v) < m.len() ==> meta_matches(m[meta_index(m, name, v)], name, v),
    decreases m.len(),
{
    if m.len() > 0 && !meta_matches(m[0], name, v) {
        lemma_meta_index(m.skip(1), name, v);
        assert forall|j: int| 0 <= j < meta_index(m, name, v) implies !meta_matches(
            #[trigger] m[j],
            name,
            v,
        ) by {
            if j > 0 {
                assert(m.skip(1)[j - 1] == m[j]);
            }
        }
        if meta_index(m, name, v) < m.len() {
            assert(m.skip(1)[meta_index(m, name, v) - 1] == m[meta_index(m, name, v)]);
        }
    }
}

pub proof fn lemma_meta_index_is(
    m: Seq<((String, RubyVersion), Vec<(String, Vec<String>)>)>,
    name: Seq<char>,
    v: &RubyVersion,
    k: int,
)
    requires
        0 <= k <= m.len(),
        forall|j: int| 0 <= j < k ==> !meta_matches(#[trigger] m[j], name, v),
        k < m.len() ==> meta_matches(m[k], name, v),
    ensures
        meta_index(m, name, v) == k,
{
    lemma_meta_index(m, name, v);
    let i = meta_index(m, name, v);
    if i < k {
        assert(!meta_matches(m[i], name, v));
    }
    if k < i {
        assert(!meta_matches(m[k], name, v));
    }
}

pub open spec fn meta_lookup(
    m: Seq<((String, RubyVersion), Vec<(String, Vec<String>)>)>,
    name: Seq<char>,
    v: &RubyVersion,
) -> Option<Seq<(Seq<char>, Seq<Seq<char>>)>> {
    let i = meta_index(m, name, v);
    if i < m.len() {
        Some(meta_strings_view(m[i].1@))
    } else {
        None
    }
}

/// The dependency universe and the raw-string side table.
pub struct Resolver {
    pub universe: Vec<(String, RubyVersion, Vec<(String, RichReq)>)>,
    pub lock_meta: Vec<((String, RubyVersion), Vec<(String, Vec<String>)>)>,
}

/// Structural equality of two versions' models.
fn version_model_eq(a: &RubyVersion, b: &RubyVersion) -> (r: bool)
    ensures
        r == (a@ == b@),
{
    let an = a.segments.len();
    let bn = b.segments.len();
    if an != bn {
        proof {
            assert(a@.segs.len() != b@.segs.len());
        }
        return false;
    }
    let mut i: usize = 0;
    while i < an
        invariant
            i <= an,
            an == a.segments@.len(),
            an == b.segments@.len(),
            forall|j: int| 0 <= j < i ==> #[trigger] a@.segs[j] == b@.segs[j],
        decreases an - i,
    {
        let same = match (&a.segments[i], &b.segments[i]) {
            (Segment::Numeric(x), Segment::Numeric(y)) => x == y,
            (Segment::Text(x), Segment::Text(y)) => str_eq(x.as_str(), y.as_str()),
            (Segment::Prerelease(x), Segment::Prerelease(y)) => str_eq(x.as_str(), y.as_str()),
            _ => false,
        };
        if !same {
            proof {
                assert(a@.segs[i as int] != b@.segs[i as int]);
            }
            return false;
        }
        proof {
            assert(a@.segs[i as int] == b@.segs[i as int]);
        }
        i = i + 1;
    }
    let platform_same = match (&a.platform_segment, &b.platform_segment) {
        (None, None) => true,
        (Some(Segment::Prerelease(x)), Some(Segment::Prerelease(y))) => str_eq(
            x.as_str(),
            y.as_str(),
        ),
        (Some(Segment::Numeric(x)), Some(Segment::Numeric(y))) => x == y,
        (Some(Segment::Text(x)), Some(Segment::Text(y))) => str_eq(x.as_str(), y.as_str()),
        _ => false,
    };
    if !platform_same {
        proof {
            assert(a@.platform != b@.platform);
        }
        return false;
    }
    proof {
        assert(a@.segs =~= b@.segs);
        assert(a@ =~= b@);
    }
    true
}

impl Resolver {
    /// An empty universe.
    pub fn new() -> (r: Resolver)
        ensures
            r.universe@.len() == 0,
            r.lock_meta@.len() == 0,
    {
        Resolver { universe: Vec::new(), lock_meta: Vec::new() }
    }

    /// Record the dependencies of one package version. The universe entry
    /// for this name and version is created or overwritten; the raw
    /// requirement strings are recorded only for a version not seen
    /// before.
    pub fn add_dependencies(
        &mut self,
        gem: String,
        version: RubyVersion,
        constraints: Vec<(String, RichReq, Vec<String>)>,
    )
        ensures
            uni_lookup(final(self).universe@, gem@, version@.segs) == Some(
                Seq::new(
                    constraints@.len(),
                    |i: int|
                        (
                            constraints@[i].0@,
                            constraints@[i].1.range@,
                            constraints@[i].1.allow_pre,
                        ),
                ),
            ),
            forall|n: Seq<char>, s: Seq<SegModel>|
                !(n == gem@ && ver_eq(s, version@.segs)) ==> #[trigger] uni_lookup(
                    final(self).universe@,
                    n,
                    s,
                ) == uni_lookup(old(self).universe@, n, s),
            meta_lookup(final(self).lock_meta@, gem@, &version) == if meta_lookup(
                old(self).lock_meta@,
                gem@,
                &version,
            ) is None {
                Some(
                    Seq::new(
                        constraints@.len(),
                        |i: int|
                            (
                                constraints@[i].0@,
                                constraints@[i].2@.map_values(|s: String| s@),
                            ),
                    ),
                )
            } else {
                meta_lookup(old(self).lock_meta@, gem@, &version)
            },
            forall|n: Seq<char>, w: RubyVersion|
                !(n == gem@ && w@ == version@) ==> #[trigger] meta_lookup(
                    final(self).lock_meta@,
                    n,
                    &w,
                ) == meta_lookup(old(self).lock_meta@, n, &w),
    {
        let nc = constraints.len();
        let mut deps: Vec<(String, RichReq)> = Vec::new();
        let mut metas: Vec<(String, Vec<String>)> = Vec::new();
        let mut ci: usize = 0;
        while ci < nc
            invariant
                ci <= nc,
                nc == constraints@.len(),
                deps@.len() == ci,
                metas@.len() == ci,
                forall|j: int|
                    0 <= j < ci ==> #[trigger] dep_view(deps@[j]) == (
                        constraints@[j].0@,
                        constraints@[j].1.range@,
                        constraints@[j].1.allow_pre,
                    ),
                forall|j: int|
                    0 <= j < ci ==> (#[trigger] metas@[j].0@, metas@[j].1@.map_values(
                        |s: String| s@,
                    )) == (constraints@[j].0@, constraints@[j].2@.map_values(|s: String| s@)),
            decreases nc - ci,
        {
            let c = &constraints[ci];
            deps.push((c.0.clone(), clone_req(&c.1)));
            let mut strings: Vec<String> = Vec::new();
            let ns = c.2.len();
            let mut si: usize = 0;
            while si < ns
                invariant
                    si <= ns,
                    ns == c.2@.len(),
                    c == &constraints@[ci as int],
                    strings@.len() == si,
                    forall|j: int| 0 <= j < si ==> #[trigger] strings@[j]@ == c.2@[j]@,
                decreases ns - si,
            {
                strings.push(c.2[si].clone());
                si = si + 1;
            }
            metas.push((c.0.clone(), strings));
            proof {
                assert(metas@[ci as int].1@.map_values(|s: String| s@) =~= constraints@[
                    ci as int].2@.map_values(|s: String| s@));
            }
            ci = ci + 1;
        }
        let ghost new_deps_view = Seq::new(
            constraints@.len(),
            |i: int|
                (constraints@[i].0@, constraints@[i].1.range@, constraints@[i].1.allow_pre),
        );
        proof {
            assert(deps_view(deps@) =~= new_deps_view);
        }
        // find an existing entry for this name and version
        let un = self.universe.len();
        let mut k: usize = 0;
        let mut found: bool = false;
        while k < un && !found
            invariant
                k <= un,
                un == self.universe@.len(),
                !found ==> forall|j: int|
                    0 <= j < k ==> !entry_matches(#[trigger] self.universe@[j], gem@, version@.segs),
                found ==> k < un && entry_matches(self.universe@[k as int], gem@, version@.segs)
                    && forall|j: int|
                    0 <= j < k ==> !entry_matches(#[trigger] self.universe@[j], gem@, version@.segs),
            decreases un - k + if found {
                0int
            } else {
                1int
            },
        {
            let e = &self.universe[k];
            let name_same = str_eq(e.0.as_str(), gem.as_str());
            let ver_same = matches!(e.1.cmp_version(&version), Ordering::Equal);
            if name_same && ver_same {
                found = true;
            } else {
                proof {
                    assert(!entry_matches(self.universe@[k as int], gem@, version@.segs));
                }
                k = k + 1;
            }
        }
        let ghost old_uni = self.universe@;
        if found {
            // overwrite the dependencies of the existing entry
            let name_keep = self.universe[k].0.clone();
            let version_keep = clone_version(&self.universe[k].1);
            let ghost kept = self.universe@[k as int];
            self.universe.set(k, (name_keep, version_keep, deps));
            proof {
                let u2 = self.universe@;
                assert(entry_matches(u2[k as int], gem@, version@.segs));
                lemma_uni_index_is(u2, gem@, version@.segs, k as int);
                assert(uni_lookup(u2, gem@, version@.segs) == Some(deps_view(deps@)));
                assert forall|n: Seq<char>, s: Seq<SegModel>|
                    !(n == gem@ && ver_eq(s, version@.segs)) implies #[trigger] uni_lookup(
                    u2,
                    n,
                    s,
                ) == uni_lookup(old_uni, n, s) by {
                    // the stored keys are unchanged, only the entry's dependencies
                    assert forall|j: int|
                        0 <= j < u2.len() implies (entry_matches(#[trigger] u2[j], n, s)
                        <==> entry_matches(old_uni[j], n, s)) by {
                        if j == k {
                            assert(u2[j].0@ == old_uni[j].0@);
                            assert(u2[j].1@ == old_uni[j].1@);
                        } else {
                            assert(u2[j] == old_uni[j]);
                        }
                    }
                    lemma_uni_index(old_uni, n, s);
                    let i0 = uni_index(old_uni, n, s);
                    lemma_uni_index_is(u2, n, s, i0);
                    if i0 < old_uni.len() {
                        if i0 == k {
                            // this key would be version-equal to the overwritten one
                            lemma_ver_cmp_from_antisym(kept.1@.segs, s, 0);
                            lemma_ver_cmp_from_antisym(version@.segs, kept.1@.segs, 0);
                            lemma_ver_cmp_from_trans(s, kept.1@.segs, version@.segs, 0);
                            lemma_ver_cmp_from_trans(version@.segs, kept.1@.segs, s, 0);
                            lemma_ver_cmp_from_antisym(s, version@.segs, 0);
                            assert(ver_eq(s, version@.segs));
                            assert(false);
                        }
                        assert(u2[i0].2 == old_uni[i0].2);
                    }
                }
            }
        } else {
            let ghost e = (gem@, version@.segs);
            self.universe.push((gem.clone(), clone_version(&version), deps));
            proof {
                let u2 = self.universe@;
                assert(u2 =~= old_uni.push((
                    u2[old_uni.len() as int].0,
                    u2[old_uni.len() as int].1,
                    u2[old_uni.len() as int].2,
                )));
                assert(entry_matches(u2[old_uni.len() as int], gem@, version@.segs)) by {
                    lemma_ver_cmp_refl(version@.segs);
                }
                lemma_uni_index_is(u2, gem@, version@.segs, old_uni.len() as int);
                assert(uni_lookup(u2, gem@, version@.segs) == Some(deps_view(deps@)));
                assert forall|n: Seq<char>, s: Seq<SegModel>|
                    !(n == gem@ && ver_eq(s, version@.segs)) implies #[trigger] uni_lookup(
                    u2,
                    n,
                    s,
                ) == uni_lookup(old_uni, n, s) by {
                    lemma_uni_index(old_uni, n, s);
                    let i0 = uni_index(old_uni, n, s);
                    assert forall|j: int| 0 <= j < old_uni.len() implies (entry_matches(
                        #[trigger] u2[j],
                        n,
                        s,
                    ) <==> entry_matches(old_uni[j], n, s)) by {
                        assert(u2[j] == old_uni[j]);
                    }
                    if i0 < old_uni.len() {
                        lemma_uni_index_is(u2, n, s, i0);
                    } else {
                        // the new last entry does not match this key either
                        lemma_ver_cmp_from_antisym(version@.segs, s, 0);
                        assert(!entry_matches(u2[old_uni.len() as int], n, s));
                        lemma_uni_index_is(u2, n, s, u2.len() as int);
                    }
                }
            }
        }
        // record the raw strings, first record winning
        let mn = self.lock_meta.len();
        let mut mk: usize = 0;
        let mut mfound: bool = false;
        while mk < mn && !mfound
            invariant
                mk <= mn,
                mn == self.lock_meta@.len(),
                !mfound ==> forall|j: int|
                    0 <= j < mk ==> !meta_matches(#[trigger] self.lock_meta@[j], gem@, &version),
                mfound ==> mk < mn && meta_matches(self.lock_meta@[mk as int], gem@, &version)
                    && forall|j: int|
                    0 <= j < mk ==> !meta_matches(#[trigger] self.lock_meta@[j], gem@, &version),
            decreases mn - mk + if mfound {
                0int
            } else {
                1int
            },
        {
            let e = &self.lock_meta[mk];
            let name_same = str_eq(e.0.0.as_str(), gem.as_str());
            let ver_same = version_model_eq(&e.0.1, &version);
            if name_same && ver_same {
                mfound = true;
            } else {
                proof {
                    assert(!meta_matches(self.lock_meta@[mk as int], gem@, &version));
                }
                mk = mk + 1;
            }
        }
        let ghost old_meta = self.lock_meta@;
        if !mfound {
            proof {
                lemma_meta_index_is(old_meta, gem@, &version, old_meta.len() as int);
            }
            self.lock_meta.push(((gem, version), metas));
            proof {
                let m2 = self.lock_meta@;
                assert(meta_matches(m2[old_meta.len() as int], gem@, &version));
                lemma_meta_index_is(m2, gem@, &version, old_meta.len() as int);
                assert(meta_strings_view(metas@) =~= Seq::new(
                    constraints@.len(),
                    |i: int|
                        (constraints@[i].0@, constraints@[i].2@.map_values(|s: String| s@)),
                ));
                assert forall|n: Seq<char>, w: RubyVersion|
                    !(n == gem@ && w@ == version@) implies #[trigger] meta_lookup(m2, n, &w)
                    == meta_lookup(old_meta, n, &w) by {
                    lemma_meta_index(old_meta, n, &w);
                    let i0 = meta_index(old_meta, n, &w);
                    assert forall|j: int| 0 <= j < old_meta.len() implies (meta_matches(
                        #[trigger] m2[j],
                        n,
                        &w,
                    ) <==> meta_matches(old_meta[j], n, &w)) by {
                        assert(m2[j] == old_meta[j]);
                    }
                    if i0 < old_meta.len() {
                        lemma_meta_index_is(m2, n, &w, i0);
                    } else {
                        assert(!meta_matches(m2[old_meta.len() as int], n, &w));
                        lemma_meta_index_is(m2, n, &w, m2.len() as int);
                    }
                }
            }
        } else {
            proof {
                lemma_meta_index_is(old_meta, gem@, &version, mk as int);
            }
        }
    }

    /// The newest stored version of the package that the requirement
    /// admits, if any: every admitted stored version lies at or below it.
    pub fn choose_version(&self, package: &String, range: &RichReq) -> (r: Option<RubyVersion>)
        ensures
            match r {
                None => forall|i: int|
                    0 <= i < self.universe@.len() && (#[trigger] self.universe@[i]).0@ == package@
                        ==> !spec_req_contains(range, self.universe@[i].1@.segs),
                Some(v) => {
                    &&& spec_req_contains(range, v@.segs)
                    &&& exists|i: int|
                        0 <= i < self.universe@.len() && (#[trigger] self.universe@[i]).0@
                            == package@ && self.universe@[i].1@ == v@
                    &&& forall|i: int|
                        0 <= i < self.universe@.len() && (#[trigger] self.universe@[i]).0@
                            == package@ && spec_req_contains(range, self.universe@[i].1@.segs)
                            ==> spec_ver_cmp(self.universe@[i].1@.segs, v@.segs)
                            != Ordering::Greater
                },
            },
    {
        let n = self.universe.len();
        let mut best: Option<RubyVersion> = None;
        let mut i: usize = 0;
        while i < n
            invariant
                i <= n,
                n == self.universe@.len(),
                match best {
                    None => forall|j: int|
                        0 <= j < i && (#[trigger] self.universe@[j]).0@ == package@
                            ==> !spec_req_contains(range, self.universe@[j].1@.segs),
                    Some(v) => {
                        &&& spec_req_contains(range, v@.segs)
                        &&& exists|j: int|
                            0 <= j < i && (#[trigger] self.universe@[j]).0@ == package@
                                && self.universe@[j].1@ == v@
                        &&& forall|j: int|
                            0 <= j < i && (#[trigger] self.universe@[j]).0@ == package@
                                && spec_req_contains(range, self.universe@[j].1@.segs)
                                ==> spec_ver_cmp(self.universe@[j].1@.segs, v@.segs)
                                != Ordering::Greater
                    },
                },
            decreases n - i,
        {
            let e = &self.universe[i];
            let name_same = str_eq(e.0.as_str(), package.as_str());
            if name_same {
                if range.contains(&e.1) {
                    let replace: bool = match &best {
                        None => true,
                        Some(b) => matches!(b.cmp_version(&e.1), Ordering::Less),
                    };
                    if replace {
                        let ghost prev = best;
                        let cand = clone_version(&e.1);
                        proof {
                            lemma_ver_cmp_refl(cand@.segs);
                        }
                        best = Some(cand);
                        proof {
                            let v = best->0;
                            assert(v@ == self.universe@[i as int].1@);
                            assert forall|j: int|
                                0 <= j < i + 1 && (#[trigger] self.universe@[j]).0@ == package@
                                    && spec_req_contains(
                                    range,
                                    self.universe@[j].1@.segs,
                                ) implies spec_ver_cmp(self.universe@[j].1@.segs, v@.segs)
                                != Ordering::Greater by {
                                if j < i {
                                    match prev {
                                        Some(b) => {
                                            lemma_ver_cmp_from_antisym(
                                                b@.segs,
                                                self.universe@[j].1@.segs,
                                                0,
                                            );
                                            lemma_ver_cmp_from_trans(
                                                self.universe@[j].1@.segs,
                                                b@.segs,
                                                v@.segs,
                                                0,
                                            );
                                        },
                                        None => {},
                                    }
                                }
                            }
                        }
                    } else {
                        proof {
                            let b = best->0;
                            lemma_ver_cmp_from_antisym(b@.segs, self.universe@[i as int].1@.segs, 0);
                        }
                    }
                }
            }
            i = i + 1;
        }
        best
    }

    /// The dependencies stored for this package version, copied out.
    pub fn get_dependencies(&self, package: &String, version: &RubyVersion) -> (r: Option<
        Vec<(String, RichReq)>,
    >)
        ensures
            match r {
                None => uni_lookup(self.universe@, package@, version@.segs) is None,
                Some(ds) => uni_lookup(self.universe@, package@, version@.segs) == Some(
                    deps_view(ds@),
                ),
            },
    {
        let n = self.universe.len();
        let mut i: usize = 0;
        proof {
            lemma_uni_index(self.universe@, package@, version@.segs);
        }
        while i < n
            invariant
                i <= n,
                n == self.universe@.len(),
                forall|j: int|
                    0 <= j < i ==> !entry_matches(
                        #[trigger] self.universe@[j],
                        package@,
                        version@.segs,
                    ),
            decreases n - i,
        {
            let e = &self.universe[i];
            let name_same = str_eq(e.0.as_str(), package.as_str());
            let ver_same = matches!(e.1.cmp_version(version), Ordering::Equal);
            if name_same && ver_same {
                proof {
                    lemma_uni_index_is(self.universe@, package@, version@.segs, i as int);
                }
                let nd = e.2.len();
                let mut out: Vec<(String, RichReq)> = Vec::new();
                let mut j: usize = 0;
                while j < nd
                    invariant
                        j <= nd,
                        nd == e.2@.len(),
                        e == &self.universe@[i as int],
                        out@.len() == j,
                        forall|x: int|
                            0 <= x < j ==> #[trigger] dep_view(out@[x]) == dep_view(e.2@[x]),
                    decreases nd - j,
                {
                    let d = &e.2[j];
                    out.push((d.0.clone(), clone_req(&d.1)));
                    j = j + 1;
                }
                proof {
                    assert(deps_view(out@) =~= deps_view(e.2@));
                }
                return Some(out);
            }
            proof {
                assert(!entry_matches(self.universe@[i as int], package@, version@.segs));
            }
            i = i + 1;
        }
        proof {
            lemma_uni_index_is(self.universe@, package@, version@.segs, n as int);
        }
        None
    }

    /// The recorded raw requirement strings for this package version.
    pub fn get_dependencies_str(&self, package: &String, version: &RubyVersion) -> (r: Option<
        &Vec<(String, Vec<String>)>,
    >)
        ensures
            match r {
                None => meta_lookup(self.lock_meta@, package@, version) is None,
                Some(ds) => meta_lookup(self.lock_meta@, package@, version) == Some(
                    meta_strings_view(ds@),
                ),
            },
    {
        let n = self.lock_meta.len();
        let mut i: usize = 0;
        while i < n
            invariant
                i <= n,
                n == self.lock_meta@.len(),
                forall|j: int|
                    0 <= j < i ==> !meta_matches(#[trigger] self.lock_meta@[j], package@, version),
            decreases n - i,
        {
            let e = &self.lock_meta[i];
            let name_same = str_eq(e.0.0.as_str(), package.as_str());
            let ver_same = version_model_eq(&e.0.1, version);
            if name_same && ver_same {
                proof {
                    lemma_meta_index_is(self.lock_meta@, package@, version, i as int);
                }
                return Some(&self.lock_meta[i].1);
            }
            proof {
                assert(!meta_matches(self.lock_meta@[i as int], package@, version));
            }
            i = i + 1;
        }
        proof {
            lemma_meta_index_is(self.lock_meta@, package@, version, n as int);
        }
        None
    }

    /// How many stored versions of the package the requirement admits;
    /// the priority policy counts candidates with it.
    pub fn matching_count(&self, package: &String, range: &RichReq) -> (r: usize)
        ensures
            r == spec_match_count(self.universe@, package@, range, self.universe@.len() as int),
    {
        let n = self.universe.len();
        let mut count: usize = 0;
        let mut i: usize = 0;
        while i < n
            invariant
                i <= n,
                n == self.universe@.len(),
                count <= i,
                count == spec_match_count(self.universe@, package@, range, i as int),
            decreases n - i,
        {
            let e = &self.universe[i];
            if str_eq(e.0.as_str(), package.as_str()) {
                if range.contains(&e.1) {
                    count = count + 1;
                }
            }
            i = i + 1;
        }
        count
    }
}

/// The number of entries before `upto` that carry this name and an
/// admitted version.
pub open spec fn spec_match_count(
    u: Seq<(String, RubyVersion, Vec<(String, RichReq)>)>,
    name: Seq<char>,
    range: &RichReq,
    upto: int,
) -> int
    decreases upto,
{
    if upto <= 0 {
        0
    } else {
        spec_match_count(u, name, range, upto - 1) + if u[upto - 1].0@ == name
            && spec_req_contains(range, u[upto - 1].1@.segs) {
            1int
        } else {
            0int
        }
    }
}

} // verus!
