//! Version sets as unions of half-open intervals over the version order.
//!
//! Every operation carries an exact membership contract: the members of
//! the result are characterized against the members of the arguments, for
//! every version. Emptiness and subset tests are exact too; the witnesses
//! they need (a version above, below or strictly between two others) are
//! constructed explicitly.
use vstd::prelude::*;
use core::cmp::Ordering;
use crate::version::{
    RubyVersion, Segment, SegModel, spec_ver_cmp, spec_ver_cmp_from, seg_at, spec_seg_cmp,
    lemma_ver_cmp_from_antisym, lemma_ver_cmp_from_trans, lemma_ver_cmp_prefix,
    lemma_ver_cmp_refl, lemma_seg_cmp_refl, clone_segment,
};

verus! {

/// One end of an interval.
#[derive(Debug, Clone)]
pub enum VBound {
    Unbounded,
    Included(RubyVersion),
    Excluded(RubyVersion),
}

/// The model of a bound: the segment list of its version, if any.
pub enum BoundModel {
    Unb,
    Inc(Seq<SegModel>),
    Exc(Seq<SegModel>),
}

impl View for VBound {
    type V = BoundModel;

    open spec fn view(&self) -> BoundModel {
        match self {
            VBound::Unbounded => BoundModel::Unb,
            VBound::Included(v) => BoundModel::Inc(v@.segs),
            VBound::Excluded(v) => BoundModel::Exc(v@.segs),
        }
    }
}

/// A union of intervals; no normal form is maintained, membership is the
/// only observation the contracts use.
#[derive(Debug, Clone)]
pub struct VersionRange {
    pub intervals: Vec<(VBound, VBound)>,
}

impl View for VersionRange {
    type V = Seq<(BoundModel, BoundModel)>;

    open spec fn view(&self) -> Seq<(BoundModel, BoundModel)> {
        Seq::new(self.intervals@.len(), |i: int| (self.intervals@[i].0@, self.intervals@[i].1@))
    }
}

/// Whether `v` satisfies a lower bound.
pub open spec fn lo_ok(lo: BoundModel, v: Seq<SegModel>) -> bool {
    match lo {
        BoundModel::Unb => true,
        BoundModel::Inc(l) => spec_ver_cmp(l, v) != Ordering::Greater,
        BoundModel::Exc(l) => spec_ver_cmp(l, v) == Ordering::Less,
    }
}

/// Whether `v` satisfies an upper bound.
pub open spec fn hi_ok(hi: BoundModel, v: Seq<SegModel>) -> bool {
    match hi {
        BoundModel::Unb => true,
        BoundModel::Inc(h) => spec_ver_cmp(v, h) != Ordering::Greater,
        BoundModel::Exc(h) => spec_ver_cmp(v, h) == Ordering::Less,
    }
}

pub open spec fn in_iv(iv: (BoundModel, BoundModel), v: Seq<SegModel>) -> bool {
    lo_ok(iv.0, v) && hi_ok(iv.1, v)
}

/// Membership in a union of intervals.
pub open spec fn range_mem(ivs: Seq<(BoundModel, BoundModel)>, v: Seq<SegModel>) -> bool {
    exists|i: int| 0 <= i < ivs.len() && in_iv(#[trigger] ivs[i], v)
}

/// A version strictly above `s`: `s` extended by a numeric one.
pub open spec fn spec_above(s: Seq<SegModel>) -> Seq<SegModel> {
    s.push(SegModel::Num(1))
}

pub proof fn lemma_above(s: Seq<SegModel>)
    ensures
        spec_ver_cmp(s, spec_above(s)) == Ordering::Less,
{
    let c = spec_above(s);
    assert forall|j: int| 0 <= j < s.len() implies spec_seg_cmp(seg_at(s, j), seg_at(c, j))
        == Ordering::Equal by {
        assert(c[j] == s[j]);
        lemma_seg_cmp_refl(s[j]);
    }
    lemma_ver_cmp_prefix(s, c, s.len() as int);
    assert(seg_at(c, s.len() as int) == SegModel::Num(1));
    assert(spec_seg_cmp(seg_at(s, s.len() as int), seg_at(c, s.len() as int)) == Ordering::Less);
}

/// A version strictly below `s`: `s` extended by a textual segment.
pub open spec fn spec_below(s: Seq<SegModel>) -> Seq<SegModel> {
    s.push(SegModel::Txt(seq!['a']))
}

pub proof fn lemma_below(s: Seq<SegModel>)
    ensures
        spec_ver_cmp(spec_below(s), s) == Ordering::Less,
{
    let c = spec_below(s);
    assert forall|j: int| 0 <= j < s.len() implies spec_seg_cmp(seg_at(c, j), seg_at(s, j))
        == Ordering::Equal by {
        assert(c[j] == s[j]);
        lemma_seg_cmp_refl(s[j]);
    }
    lemma_ver_cmp_prefix(c, s, s.len() as int);
    assert(seg_at(c, s.len() as int) == SegModel::Txt(seq!['a']));
    assert(spec_seg_cmp(seg_at(c, s.len() as int), seg_at(s, s.len() as int)) == Ordering::Less);
}

/// A version strictly between `a` and `b`: `a` padded with zeros to the
/// longer length, then extended by a numeric one.
pub open spec fn spec_mid(a: Seq<SegModel>, b: Seq<SegModel>) -> Seq<SegModel> {
    let m = if a.len() > b.len() {
        a.len() as int
    } else {
        b.len() as int
    };
    Seq::new(m as nat, |i: int| seg_at(a, i)).push(SegModel::Num(1))
}

proof fn lemma_mid_right(a: Seq<SegModel>, b: Seq<SegModel>, c: Seq<SegModel>, i: int)
    requires
        0 <= i,
        spec_ver_cmp_from(a, b, i) == Ordering::Less,
        c.len() > a.len(),
        c.len() > b.len(),
        forall|j: int| 0 <= j < c.len() - 1 ==> #[trigger] c[j] == seg_at(a, j),
    ensures
        spec_ver_cmp_from(c, b, i) == Ordering::Less,
    decreases a.len() + b.len() - i,
{
    if i >= a.len() && i >= b.len() {
        assert(spec_ver_cmp_from(a, b, i) == Ordering::Equal);
    } else {
        assert(i < c.len() - 1);
        assert(seg_at(c, i) == seg_at(a, i));
        let o = spec_seg_cmp(seg_at(a, i), seg_at(b, i));
        if o == Ordering::Equal {
            lemma_mid_right(a, b, c, i + 1);
        }
    }
}

pub proof fn lemma_mid(a: Seq<SegModel>, b: Seq<SegModel>)
    requires
        spec_ver_cmp(a, b) == Ordering::Less,
    ensures
        spec_ver_cmp(a, spec_mid(a, b)) == Ordering::Less,
        spec_ver_cmp(spec_mid(a, b), b) == Ordering::Less,
{
    let c = spec_mid(a, b);
    let m = c.len() - 1;
    assert forall|j: int| 0 <= j < m implies spec_seg_cmp(seg_at(a, j), seg_at(c, j))
        == Ordering::Equal by {
        assert(c[j] == seg_at(a, j));
        lemma_seg_cmp_refl(seg_at(a, j));
    }
    lemma_ver_cmp_prefix(a, c, m);
    assert(seg_at(a, m) == SegModel::Num(0));
    assert(seg_at(c, m) == SegModel::Num(1));
    assert(spec_ver_cmp_from(a, c, m) == Ordering::Less);
    lemma_mid_right(a, b, c, 0);
}

/// Exact comparison, shared by all the executable set operations.
fn vcmp(a: &RubyVersion, b: &RubyVersion) -> (r: Ordering)
    ensures
        r == spec_ver_cmp(a@.segs, b@.segs),
{
    a.cmp_version(b)
}

/// A copy of a version with an equal model.
pub fn clone_version(v: &RubyVersion) -> (r: RubyVersion)
    ensures
        r@ == v@,
{
    let n = v.segments.len();
    let mut segments: Vec<Segment> = Vec::new();
    let mut i: usize = 0;
    while i < n
        invariant
            i <= n,
            n == v.segments@.len(),
            segments@.len() == i,
            forall|j: int| 0 <= j < i ==> #[trigger] segments@[j]@ == v.segments@[j]@,
        decreases n - i,
    {
        segments.push(clone_segment(&v.segments[i]));
        i = i + 1;
    }
    let platform_segment = match &v.platform_segment {
        Some(s) => Some(clone_segment(s)),
        None => None,
    };
    let r = RubyVersion { segments, platform_segment };
    proof {
        assert(r@.segs =~= v@.segs);
        assert(r@ =~= v@);
    }
    r
}

/// A copy of a range with an equal model.
pub fn clone_range(r: &VersionRange) -> (c: VersionRange)
    ensures
        c@ == r@,
{
    let n = r.intervals.len();
    let mut intervals: Vec<(VBound, VBound)> = Vec::new();
    let mut i: usize = 0;
    while i < n
        invariant
            i <= n,
            n == r.intervals@.len(),
            intervals@.len() == i,
            forall|j: int|
                0 <= j < i ==> (#[trigger] intervals@[j].0@, intervals@[j].1@) == r@[j],
        decreases n - i,
    {
        let lo = clone_bound(&r.intervals[i].0);
        let hi = clone_bound(&r.intervals[i].1);
        intervals.push((lo, hi));
        i = i + 1;
    }
    let c = VersionRange { intervals };
    proof {
        assert(c@ =~= r@);
    }
    c
}

fn clone_bound(b: &VBound) -> (r: VBound)
    ensures
        r@ == b@,
{
    match b {
        VBound::Unbounded => VBound::Unbounded,
        VBound::Included(v) => VBound::Included(clone_version(v)),
        VBound::Excluded(v) => VBound::Excluded(clone_version(v)),
    }
}

impl VersionRange {
    /// The set with no member.
    pub fn empty() -> (r: VersionRange)
        ensures
            forall|v: Seq<SegModel>| !range_mem(r@, v),
    {
        let r = VersionRange { intervals: Vec::new() };
        proof {
            assert(r@.len() == 0);
        }
        r
    }

    /// The set of all versions.
    pub fn full() -> (r: VersionRange)
        ensures
            forall|v: Seq<SegModel>| range_mem(r@, v),
    {
        let mut intervals: Vec<(VBound, VBound)> = Vec::new();
        intervals.push((VBound::Unbounded, VBound::Unbounded));
        let r = VersionRange { intervals };
        proof {
            assert forall|v: Seq<SegModel>| range_mem(r@, v) by {
                assert(in_iv(r@[0], v));
            }
        }
        r
    }

    /// The versions equal to `v` in the version order.
    pub fn singleton(v: RubyVersion) -> (r: VersionRange)
        ensures
            forall|w: Seq<SegModel>|
                #[trigger] range_mem(r@, w) <==> spec_ver_cmp(w, v@.segs) == Ordering::Equal,
    {
        let lo = clone_version(&v);
        let mut intervals: Vec<(VBound, VBound)> = Vec::new();
        intervals.push((VBound::Included(lo), VBound::Included(v)));
        let r = VersionRange { intervals };
        proof {
            let s = r@[0].0->Inc_0;
            assert forall|w: Seq<SegModel>|
                #[trigger] range_mem(r@, w) <==> spec_ver_cmp(w, s) == Ordering::Equal by {
                lemma_ver_cmp_from_antisym(s, w, 0);
                if range_mem(r@, w) {
                    assert(in_iv(r@[0], w));
                }
                if spec_ver_cmp(w, s) == Ordering::Equal {
                    assert(in_iv(r@[0], w));
                }
            }
        }
        r
    }

    /// The versions strictly above `v`.
    pub fn strictly_higher_than(v: RubyVersion) -> (r: VersionRange)
        ensures
            forall|w: Seq<SegModel>|
                #[trigger] range_mem(r@, w) <==> spec_ver_cmp(v@.segs, w) == Ordering::Less,
    {
        let mut intervals: Vec<(VBound, VBound)> = Vec::new();
        intervals.push((VBound::Excluded(v), VBound::Unbounded));
        let r = VersionRange { intervals };
        proof {
            assert forall|w: Seq<SegModel>| #[trigger]
                range_mem(r@, w) <==> lo_ok(r@[0].0, w) by {
                if lo_ok(r@[0].0, w) {
                    assert(in_iv(r@[0], w));
                }
            }
        }
        r
    }

    /// The versions at or above `v`.
    pub fn higher_than(v: RubyVersion) -> (r: VersionRange)
        ensures
            forall|w: Seq<SegModel>|
                #[trigger] range_mem(r@, w) <==> spec_ver_cmp(v@.segs, w) != Ordering::Greater,
    {
        let mut intervals: Vec<(VBound, VBound)> = Vec::new();
        intervals.push((VBound::Included(v), VBound::Unbounded));
        let r = VersionRange { intervals };
        proof {
            assert forall|w: Seq<SegModel>| #[trigger]
                range_mem(r@, w) <==> lo_ok(r@[0].0, w) by {
                if lo_ok(r@[0].0, w) {
                    assert(in_iv(r@[0], w));
                }
            }
        }
        r
    }

    /// The versions strictly below `v`.
    pub fn strictly_lower_than(v: RubyVersion) -> (r: VersionRange)
        ensures
            forall|w: Seq<SegModel>|
                #[trigger] range_mem(r@, w) <==> spec_ver_cmp(w, v@.segs) == Ordering::Less,
    {
        let mut intervals: Vec<(VBound, VBound)> = Vec::new();
        intervals.push((VBound::Unbounded, VBound::Excluded(v)));
        let r = VersionRange { intervals };
        proof {
            assert forall|w: Seq<SegModel>| #[trigger]
                range_mem(r@, w) <==> hi_ok(r@[0].1, w) by {
                if hi_ok(r@[0].1, w) {
                    assert(in_iv(r@[0], w));
                }
            }
        }
        r
    }

    /// The versions at or below `v`.
    pub fn lower_than(v: RubyVersion) -> (r: VersionRange)
        ensures
            forall|w: Seq<SegModel>|
                #[trigger] range_mem(r@, w) <==> spec_ver_cmp(w, v@.segs) != Ordering::Greater,
    {
        let mut intervals: Vec<(VBound, VBound)> = Vec::new();
        intervals.push((VBound::Unbounded, VBound::Included(v)));
        let r = VersionRange { intervals };
        proof {
            assert forall|w: Seq<SegModel>| #[trigger]
                range_mem(r@, w) <==> hi_ok(r@[0].1, w) by {
                if hi_ok(r@[0].1, w) {
                    assert(in_iv(r@[0], w));
                }
            }
        }
        r
    }

    /// The half-open interval from `lo` (inclusive) to `hi` (exclusive).
    pub fn between(lo: RubyVersion, hi: RubyVersion) -> (r: VersionRange)
        ensures
            forall|w: Seq<SegModel>|
                #[trigger] range_mem(r@, w) <==> (spec_ver_cmp(lo@.segs, w) != Ordering::Greater
                    && spec_ver_cmp(w, hi@.segs) == Ordering::Less),
    {
        let mut intervals: Vec<(VBound, VBound)> = Vec::new();
        intervals.push((VBound::Included(lo), VBound::Excluded(hi)));
        let r = VersionRange { intervals };
        proof {
            assert forall|w: Seq<SegModel>| #[trigger]
                range_mem(r@, w) <==> in_iv(r@[0], w) by {
                if in_iv(r@[0], w) {
                    assert(range_mem(r@, w));
                }
            }
        }
        r
    }

    /// Exact membership test.
    pub fn contains(&self, v: &RubyVersion) -> (r: bool)
        ensures
            r == range_mem(self@, v@.segs),
    {
        let n = self.intervals.len();
        let mut i: usize = 0;
        while i < n
            invariant
                i <= n,
                n == self.intervals@.len(),
                forall|j: int| 0 <= j < i ==> !in_iv(#[trigger] self@[j], v@.segs),
            decreases n - i,
        {
            let lo_holds = match &self.intervals[i].0 {
                VBound::Unbounded => true,
                VBound::Included(l) => !matches!(vcmp(l, v), Ordering::Greater),
                VBound::Excluded(l) => matches!(vcmp(l, v), Ordering::Less),
            };
            let hi_holds = match &self.intervals[i].1 {
                VBound::Unbounded => true,
                VBound::Included(h) => !matches!(vcmp(v, h), Ordering::Greater),
                VBound::Excluded(h) => matches!(vcmp(v, h), Ordering::Less),
            };
            if lo_holds && hi_holds {
                proof {
                    assert(in_iv(self@[i as int], v@.segs));
                }
                return true;
            }
            proof {
                assert(!in_iv(self@[i as int], v@.segs));
            }
            i = i + 1;
        }
        false
    }

    /// The union: the members of either set.
    pub fn union(&self, other: &VersionRange) -> (r: VersionRange)
        ensures
            forall|v: Seq<SegModel>|
                #[trigger] range_mem(r@, v) <==> (range_mem(self@, v) || range_mem(other@, v)),
    {
        let mut intervals: Vec<(VBound, VBound)> = Vec::new();
        let n = self.intervals.len();
        let mut i: usize = 0;
        while i < n
            invariant
                i <= n,
                n == self.intervals@.len(),
                intervals@.len() == i,
                forall|j: int|
                    0 <= j < i ==> (#[trigger] intervals@[j].0@, intervals@[j].1@) == self@[j],
            decreases n - i,
        {
            let lo = clone_bound(&self.intervals[i].0);
            let hi = clone_bound(&self.intervals[i].1);
            intervals.push((lo, hi));
            i = i + 1;
        }
        let m = other.intervals.len();
        let mut k: usize = 0;
        while k < m
            invariant
                k <= m,
                m == other.intervals@.len(),
                intervals@.len() == n + k,
                forall|j: int|
                    0 <= j < n ==> (#[trigger] intervals@[j].0@, intervals@[j].1@) == self@[j],
                forall|j: int|
                    0 <= j < k ==> (#[trigger] intervals@[n + j].0@, intervals@[n + j].1@)
                        == other@[j],
            decreases m - k,
        {
            let lo = clone_bound(&other.intervals[k].0);
            let hi = clone_bound(&other.intervals[k].1);
            intervals.push((lo, hi));
            k = k + 1;
        }
        let r = VersionRange { intervals };
        proof {
            assert forall|v: Seq<SegModel>|
                #[trigger] range_mem(r@, v) <==> (range_mem(self@, v) || range_mem(
                    other@,
                    v,
                )) by {
                if range_mem(r@, v) {
                    let j = choose|j: int| 0 <= j < r@.len() && in_iv(#[trigger] r@[j], v);
                    if j < n {
                        assert(r@[j] == self@[j]);
                        assert(in_iv(self@[j], v));
                    } else {
                        let jj = j - n;
                        assert(0 <= jj < m);
                        assert(r@[n + jj] == other@[jj]);
                        assert(in_iv(other@[jj], v));
                    }
                }
                if range_mem(self@, v) {
                    let j = choose|j: int| 0 <= j < self@.len() && in_iv(#[trigger] self@[j], v);
                    assert(r@[j] == self@[j]);
                    assert(in_iv(r@[j], v));
                }
                if range_mem(other@, v) {
                    let j = choose|j: int| 0 <= j < other@.len() && in_iv(#[trigger] other@[j], v);
                    assert(r@[n + j] == other@[j]);
                    assert(in_iv(r@[n + j], v));
                }
            }
        }
        r
    }
}

/// Whether the lower bound `a` admits no version that `b` rejects.
fn lo_stronger_eq(a: &VBound, b: &VBound) -> (r: bool)
    ensures
        r ==> forall|v: Seq<SegModel>| #[trigger] lo_ok(a@, v) ==> lo_ok(b@, v),
        !r ==> forall|v: Seq<SegModel>| #[trigger] lo_ok(b@, v) ==> lo_ok(a@, v),
{
    match (a, b) {
        (_, VBound::Unbounded) => true,
        (VBound::Unbounded, _) => false,
        (VBound::Included(x), VBound::Included(y)) => {
            let r = !matches!(vcmp(y, x), Ordering::Greater);
            proof {
                if r {
                    assert forall|v: Seq<SegModel>| #[trigger] lo_ok(a@, v) implies lo_ok(
                        b@,
                        v,
                    ) by {
                        if lo_ok(a@, v) {
                            lemma_ver_cmp_from_antisym(x@.segs, y@.segs, 0);
                            lemma_ver_cmp_from_antisym(y@.segs, x@.segs, 0);
                            lemma_ver_cmp_from_trans(y@.segs, x@.segs, v, 0);
                        }
                    }
                } else {
                    assert forall|v: Seq<SegModel>| #[trigger] lo_ok(b@, v) implies lo_ok(
                        a@,
                        v,
                    ) by {
                        if lo_ok(b@, v) {
                            lemma_ver_cmp_from_antisym(x@.segs, y@.segs, 0);
                            lemma_ver_cmp_from_antisym(y@.segs, x@.segs, 0);
                            lemma_ver_cmp_from_trans(x@.segs, y@.segs, v, 0);
                        }
                    }
                }
            }
            r
        },
        (VBound::Included(x), VBound::Excluded(y)) => {
            let r = matches!(vcmp(y, x), Ordering::Less);
            proof {
                if r {
                    assert forall|v: Seq<SegModel>| #[trigger] lo_ok(a@, v) implies lo_ok(
                        b@,
                        v,
                    ) by {
                        if lo_ok(a@, v) {
                            lemma_ver_cmp_from_antisym(x@.segs, y@.segs, 0);
                            lemma_ver_cmp_from_antisym(y@.segs, x@.segs, 0);
                            lemma_ver_cmp_from_trans(y@.segs, x@.segs, v, 0);
                        }
                    }
                } else {
                    assert forall|v: Seq<SegModel>| #[trigger] lo_ok(b@, v) implies lo_ok(
                        a@,
                        v,
                    ) by {
                        if lo_ok(b@, v) {
                            lemma_ver_cmp_from_antisym(x@.segs, y@.segs, 0);
                            lemma_ver_cmp_from_antisym(y@.segs, x@.segs, 0);
                            lemma_ver_cmp_from_trans(x@.segs, y@.segs, v, 0);
                        }
                    }
                }
            }
            r
        },
        (VBound::Excluded(x), VBound::Included(y)) => {
            let r = !matches!(vcmp(y, x), Ordering::Greater);
            proof {
                if r {
                    assert forall|v: Seq<SegModel>| #[trigger] lo_ok(a@, v) implies lo_ok(
                        b@,
                        v,
                    ) by {
                        if lo_ok(a@, v) {
                            lemma_ver_cmp_from_antisym(x@.segs, y@.segs, 0);
                            lemma_ver_cmp_from_antisym(y@.segs, x@.segs, 0);
                            lemma_ver_cmp_from_trans(y@.segs, x@.segs, v, 0);
                        }
                    }
                } else {
                    assert forall|v: Seq<SegModel>| #[trigger] lo_ok(b@, v) implies lo_ok(
                        a@,
                        v,
                    ) by {
                        if lo_ok(b@, v) {
                            lemma_ver_cmp_from_antisym(x@.segs, y@.segs, 0);
                            lemma_ver_cmp_from_antisym(y@.segs, x@.segs, 0);
                            lemma_ver_cmp_from_trans(x@.segs, y@.segs, v, 0);
                        }
                    }
                }
            }
            r
        },
        (VBound::Excluded(x), VBound::Excluded(y)) => {
            let r = !matches!(vcmp(y, x), Ordering::Greater);
            proof {
                if r {
                    assert forall|v: Seq<SegModel>| #[trigger] lo_ok(a@, v) implies lo_ok(
                        b@,
                        v,
                    ) by {
                        if lo_ok(a@, v) {
                            lemma_ver_cmp_from_antisym(x@.segs, y@.segs, 0);
                            lemma_ver_cmp_from_antisym(y@.segs, x@.segs, 0);
                            lemma_ver_cmp_from_trans(y@.segs, x@.segs, v, 0);
                        }
                    }
                } else {
                    assert forall|v: Seq<SegModel>| #[trigger] lo_ok(b@, v) implies lo_ok(
                        a@,
                        v,
                    ) by {
                        if lo_ok(b@, v) {
                            lemma_ver_cmp_from_antisym(x@.segs, y@.segs, 0);
                            lemma_ver_cmp_from_antisym(y@.segs, x@.segs, 0);
                            lemma_ver_cmp_from_trans(x@.segs, y@.segs, v, 0);
                        }
                    }
                }
            }
            r
        },
    }
}

/// Whether the upper bound `a` admits no version that `b` rejects.
fn hi_stronger_eq(a: &VBound, b: &VBound) -> (r: bool)
    ensures
        r ==> forall|v: Seq<SegModel>| #[trigger] hi_ok(a@, v) ==> hi_ok(b@, v),
        !r ==> forall|v: Seq<SegModel>| #[trigger] hi_ok(b@, v) ==> hi_ok(a@, v),
{
    match (a, b) {
        (_, VBound::Unbounded) => true,
        (VBound::Unbounded, _) => false,
        (VBound::Included(x), VBound::Included(y)) => {
            let r = !matches!(vcmp(x, y), Ordering::Greater);
            proof {
                if r {
                    assert forall|v: Seq<SegModel>| #[trigger] hi_ok(a@, v) implies hi_ok(
                        b@,
                        v,
                    ) by {
                        if hi_ok(a@, v) {
                            lemma_ver_cmp_from_antisym(x@.segs, y@.segs, 0);
                            lemma_ver_cmp_from_antisym(y@.segs, x@.segs, 0);
                            lemma_ver_cmp_from_trans(v, x@.segs, y@.segs, 0);
                        }
                    }
                } else {
                    assert forall|v: Seq<SegModel>| #[trigger] hi_ok(b@, v) implies hi_ok(
                        a@,
                        v,
                    ) by {
                        if hi_ok(b@, v) {
                            lemma_ver_cmp_from_antisym(x@.segs, y@.segs, 0);
                            lemma_ver_cmp_from_antisym(y@.segs, x@.segs, 0);
                            lemma_ver_cmp_from_trans(v, y@.segs, x@.segs, 0);
                        }
                    }
                }
            }
            r
        },
        (VBound::Included(x), VBound::Excluded(y)) => {
            let r = matches!(vcmp(x, y), Ordering::Less);
            proof {
                if r {
                    assert forall|v: Seq<SegModel>| #[trigger] hi_ok(a@, v) implies hi_ok(
                        b@,
                        v,
                    ) by {
                        if hi_ok(a@, v) {
                            lemma_ver_cmp_from_antisym(x@.segs, y@.segs, 0);
                            lemma_ver_cmp_from_antisym(y@.segs, x@.segs, 0);
                            lemma_ver_cmp_from_trans(v, x@.segs, y@.segs, 0);
                        }
                    }
                } else {
                    assert forall|v: Seq<SegModel>| #[trigger] hi_ok(b@, v) implies hi_ok(
                        a@,
                        v,
                    ) by {
                        if hi_ok(b@, v) {
                            lemma_ver_cmp_from_antisym(x@.segs, y@.segs, 0);
                            lemma_ver_cmp_from_antisym(y@.segs, x@.segs, 0);
                            lemma_ver_cmp_from_trans(v, y@.segs, x@.segs, 0);
                        }
                    }
                }
            }
            r
        },
        (VBound::Excluded(x), VBound::Included(y)) => {
            let r = !matches!(vcmp(x, y), Ordering::Greater);
            proof {
                if r {
                    assert forall|v: Seq<SegModel>| #[trigger] hi_ok(a@, v) implies hi_ok(
                        b@,
                        v,
                    ) by {
                        if hi_ok(a@, v) {
                            lemma_ver_cmp_from_antisym(x@.segs, y@.segs, 0);
                            lemma_ver_cmp_from_antisym(y@.segs, x@.segs, 0);
                            lemma_ver_cmp_from_trans(v, x@.segs, y@.segs, 0);
                        }
                    }
                } else {
                    assert forall|v: Seq<SegModel>| #[trigger] hi_ok(b@, v) implies hi_ok(
                        a@,
                        v,
                    ) by {
                        if hi_ok(b@, v) {
                            lemma_ver_cmp_from_antisym(x@.segs, y@.segs, 0);
                            lemma_ver_cmp_from_antisym(y@.segs, x@.segs, 0);
                            lemma_ver_cmp_from_trans(v, y@.segs, x@.segs, 0);
                        }
                    }
                }
            }
            r
        },
        (VBound::Excluded(x), VBound::Excluded(y)) => {
            let r = !matches!(vcmp(x, y), Ordering::Greater);
            proof {
                if r {
                    assert forall|v: Seq<SegModel>| #[trigger] hi_ok(a@, v) implies hi_ok(
                        b@,
                        v,
                    ) by {
                        if hi_ok(a@, v) {
                            lemma_ver_cmp_from_antisym(x@.segs, y@.segs, 0);
                            lemma_ver_cmp_from_antisym(y@.segs, x@.segs, 0);
                            lemma_ver_cmp_from_trans(v, x@.segs, y@.segs, 0);
                        }
                    }
                } else {
                    assert forall|v: Seq<SegModel>| #[trigger] hi_ok(b@, v) implies hi_ok(
                        a@,
                        v,
                    ) by {
                        if hi_ok(b@, v) {
                            lemma_ver_cmp_from_antisym(x@.segs, y@.segs, 0);
                            lemma_ver_cmp_from_antisym(y@.segs, x@.segs, 0);
                            lemma_ver_cmp_from_trans(v, y@.segs, x@.segs, 0);
                        }
                    }
                }
            }
            r
        },
    }
}

/// The tighter of two lower bounds: satisfied exactly when both are.
fn max_lo(a: &VBound, b: &VBound) -> (r: VBound)
    ensures
        forall|v: Seq<SegModel>| #[trigger] lo_ok(r@, v) <==> (lo_ok(a@, v) && lo_ok(b@, v)),
{
    if lo_stronger_eq(a, b) {
        clone_bound(a)
    } else {
        clone_bound(b)
    }
}

/// The tighter of two upper bounds: satisfied exactly when both are.
fn min_hi(a: &VBound, b: &VBound) -> (r: VBound)
    ensures
        forall|v: Seq<SegModel>| #[trigger] hi_ok(r@, v) <==> (hi_ok(a@, v) && hi_ok(b@, v)),
{
    if hi_stronger_eq(a, b) {
        clone_bound(a)
    } else {
        clone_bound(b)
    }
}

proof fn lemma_mem_push(ivs: Seq<(BoundModel, BoundModel)>, p: (BoundModel, BoundModel))
    ensures
        forall|v: Seq<SegModel>|
            #[trigger] range_mem(ivs.push(p), v) <==> (range_mem(ivs, v) || in_iv(p, v)),
{
    assert forall|v: Seq<SegModel>|
        #[trigger] range_mem(ivs.push(p), v) <==> (range_mem(ivs, v) || in_iv(p, v)) by {
        if range_mem(ivs.push(p), v) {
            let j = choose|j: int| 0 <= j < ivs.push(p).len() && in_iv(#[trigger] ivs.push(p)[j], v);
            if j < ivs.len() {
                assert(ivs.push(p)[j] == ivs[j]);
                assert(in_iv(ivs[j], v));
            } else {
                assert(ivs.push(p)[j] == p);
            }
        }
        if range_mem(ivs, v) {
            let j = choose|j: int| 0 <= j < ivs.len() && in_iv(#[trigger] ivs[j], v);
            assert(ivs.push(p)[j] == ivs[j]);
            assert(in_iv(ivs.push(p)[j], v));
        }
        if in_iv(p, v) {
            assert(ivs.push(p)[ivs.len() as int] == p);
            assert(in_iv(ivs.push(p)[ivs.len() as int], v));
        }
    }
}

impl VersionRange {
    /// The intersection: the members of both sets.
    pub fn intersection(&self, other: &VersionRange) -> (r: VersionRange)
        ensures
            forall|v: Seq<SegModel>|
                #[trigger] range_mem(r@, v) <==> (range_mem(self@, v) && range_mem(other@, v)),
    {
        let mut acc = VersionRange { intervals: Vec::new() };
        let n = self.intervals.len();
        let m = other.intervals.len();
        let mut i: usize = 0;
        proof {
            assert(acc@.len() == 0);
        }
        while i < n
            invariant
                i <= n,
                n == self.intervals@.len(),
                m == other.intervals@.len(),
                forall|v: Seq<SegModel>|
                    #[trigger] range_mem(acc@, v) <==> ((exists|x: int|
                        0 <= x < i && in_iv(#[trigger] self@[x], v)) && range_mem(other@, v)),
            decreases n - i,
        {
            let mut j: usize = 0;
            while j < m
                invariant
                    i < n,
                    j <= m,
                    n == self.intervals@.len(),
                    m == other.intervals@.len(),
                    forall|v: Seq<SegModel>|
                        #[trigger] range_mem(acc@, v) <==> (((exists|x: int|
                            0 <= x < i && in_iv(#[trigger] self@[x], v)) && range_mem(other@, v))
                            || (in_iv(self@[i as int], v) && (exists|y: int|
                            0 <= y < j && in_iv(#[trigger] other@[y], v)))),
                decreases m - j,
            {
                let ghost acc0 = acc@;
                let lo = max_lo(&self.intervals[i].0, &other.intervals[j].0);
                let hi = min_hi(&self.intervals[i].1, &other.intervals[j].1);
                let ghost p = (lo@, hi@);
                acc.intervals.push((lo, hi));
                proof {
                    assert(acc@ =~= acc0.push(p));
                    lemma_mem_push(acc0, p);
                    assert forall|v: Seq<SegModel>|
                        #[trigger] in_iv(p, v) <==> (in_iv(self@[i as int], v) && in_iv(
                            other@[j as int],
                            v,
                        )) by {
                        assert(lo_ok(p.0, v) <==> (lo_ok(self@[i as int].0, v) && lo_ok(
                            other@[j as int].0,
                            v,
                        )));
                        assert(hi_ok(p.1, v) <==> (hi_ok(self@[i as int].1, v) && hi_ok(
                            other@[j as int].1,
                            v,
                        )));
                    }
                }
                j = j + 1;
            }
            proof {
                assert forall|v: Seq<SegModel>|
                    #[trigger] range_mem(acc@, v) <==> ((exists|x: int|
                        0 <= x < i + 1 && in_iv(#[trigger] self@[x], v)) && range_mem(
                        other@,
                        v,
                    )) by {
                    if range_mem(acc@, v) {
                    }
                    if (exists|x: int| 0 <= x < i + 1 && in_iv(#[trigger] self@[x], v))
                        && range_mem(other@, v) {
                        let x = choose|x: int| 0 <= x < i + 1 && in_iv(#[trigger] self@[x], v);
                        if x < i {
                        } else {
                            assert(in_iv(self@[i as int], v));
                        }
                    }
                }
            }
            i = i + 1;
        }
        acc
    }

    /// The versions outside one interval.
    fn iv_complement(lo: &VBound, hi: &VBound) -> (r: VersionRange)
        ensures
            forall|v: Seq<SegModel>|
                #[trigger] range_mem(r@, v) <==> !(lo_ok(lo@, v) && hi_ok(hi@, v)),
    {
        let mut intervals: Vec<(VBound, VBound)> = Vec::new();
        match lo {
            VBound::Unbounded => {},
            VBound::Included(l) => intervals.push(
                (VBound::Unbounded, VBound::Excluded(clone_version(l))),
            ),
            VBound::Excluded(l) => intervals.push(
                (VBound::Unbounded, VBound::Included(clone_version(l))),
            ),
        }
        let ghost low_pieces = intervals@.len() as int;
        match hi {
            VBound::Unbounded => {},
            VBound::Included(h) => intervals.push(
                (VBound::Excluded(clone_version(h)), VBound::Unbounded),
            ),
            VBound::Excluded(h) => intervals.push(
                (VBound::Included(clone_version(h)), VBound::Unbounded),
            ),
        }
        let r = VersionRange { intervals };
        proof {
            assert forall|v: Seq<SegModel>|
                #[trigger] range_mem(r@, v) <==> !(lo_ok(lo@, v) && hi_ok(hi@, v)) by {
                match lo@ {
                    BoundModel::Inc(l) => {
                        lemma_ver_cmp_from_antisym(l, v, 0);
                        assert(hi_ok(r@[0].1, v) <==> !lo_ok(lo@, v));
                    },
                    BoundModel::Exc(l) => {
                        lemma_ver_cmp_from_antisym(l, v, 0);
                        assert(hi_ok(r@[0].1, v) <==> !lo_ok(lo@, v));
                    },
                    BoundModel::Unb => {},
                }
                match hi@ {
                    BoundModel::Inc(h) => {
                        lemma_ver_cmp_from_antisym(h, v, 0);
                        assert(lo_ok(r@[low_pieces].0, v) <==> !hi_ok(hi@, v));
                    },
                    BoundModel::Exc(h) => {
                        lemma_ver_cmp_from_antisym(h, v, 0);
                        assert(lo_ok(r@[low_pieces].0, v) <==> !hi_ok(hi@, v));
                    },
                    BoundModel::Unb => {},
                }
                if !(lo_ok(lo@, v) && hi_ok(hi@, v)) {
                    if !lo_ok(lo@, v) {
                        assert(in_iv(r@[0], v));
                    } else {
                        assert(in_iv(r@[low_pieces], v));
                    }
                }
            }
        }
        r
    }

    /// The complement: the versions not in this set.
    pub fn complement(&self) -> (r: VersionRange)
        ensures
            forall|v: Seq<SegModel>| #[trigger] range_mem(r@, v) <==> !range_mem(self@, v),
    {
        let mut acc = VersionRange::full();
        let n = self.intervals.len();
        let mut i: usize = 0;
        while i < n
            invariant
                i <= n,
                n == self.intervals@.len(),
                forall|v: Seq<SegModel>|
                    #[trigger] range_mem(acc@, v) <==> !(exists|x: int|
                        0 <= x < i && in_iv(#[trigger] self@[x], v)),
            decreases n - i,
        {
            let piece = Self::iv_complement(&self.intervals[i].0, &self.intervals[i].1);
            proof {
                assert forall|v: Seq<SegModel>|
                    #[trigger] range_mem(piece@, v) <==> !in_iv(self@[i as int], v) by {
                    assert(self@[i as int] == (self.intervals@[i as int].0@, self.intervals@[
                        i as int].1@));
                }
            }
            let next = acc.intersection(&piece);
            acc = next;
            proof {
                assert forall|v: Seq<SegModel>|
                    #[trigger] range_mem(acc@, v) <==> !(exists|x: int|
                        0 <= x < i + 1 && in_iv(#[trigger] self@[x], v)) by {
                    if exists|x: int| 0 <= x < i + 1 && in_iv(#[trigger] self@[x], v) {
                        let x = choose|x: int| 0 <= x < i + 1 && in_iv(#[trigger] self@[x], v);
                    }
                }
            }
            i = i + 1;
        }
        acc
    }

    /// Exact emptiness of one interval; nonempty intervals have an
    /// explicitly constructed witness.
    fn iv_empty(lo: &VBound, hi: &VBound) -> (r: bool)
        ensures
            r <==> (forall|v: Seq<SegModel>| !in_iv((lo@, hi@), v)),
    {
        match (lo, hi) {
            (VBound::Unbounded, VBound::Unbounded) => {
                proof {
                    assert(in_iv((lo@, hi@), Seq::<SegModel>::empty()));
                }
                false
            },
            (VBound::Unbounded, VBound::Included(h)) => {
                proof {
                    lemma_ver_cmp_refl(h@.segs);
                    assert(in_iv((lo@, hi@), h@.segs));
                }
                false
            },
            (VBound::Unbounded, VBound::Excluded(h)) => {
                proof {
                    lemma_below(h@.segs);
                    assert(in_iv((lo@, hi@), crate::ranges::spec_below(h@.segs)));
                }
                false
            },
            (VBound::Included(l), VBound::Unbounded) => {
                proof {
                    lemma_ver_cmp_refl(l@.segs);
                    assert(in_iv((lo@, hi@), l@.segs));
                }
                false
            },
            (VBound::Excluded(l), VBound::Unbounded) => {
                proof {
                    lemma_above(l@.segs);
                    assert(in_iv((lo@, hi@), spec_above(l@.segs)));
                }
                false
            },
            (VBound::Included(l), VBound::Included(h)) => {
                let r = matches!(vcmp(l, h), Ordering::Greater);
                proof {
                    if r {
                        assert forall|v: Seq<SegModel>| !in_iv((lo@, hi@), v) by {
                            if in_iv((lo@, hi@), v) {
                                lemma_ver_cmp_from_trans(l@.segs, v, h@.segs, 0);
                            }
                        }
                    } else {
                        lemma_ver_cmp_refl(l@.segs);
                        assert(in_iv((lo@, hi@), l@.segs));
                    }
                }
                r
            },
            (VBound::Included(l), VBound::Excluded(h)) => {
                let r = !matches!(vcmp(l, h), Ordering::Less);
                proof {
                    if r {
                        assert forall|v: Seq<SegModel>| !in_iv((lo@, hi@), v) by {
                            if in_iv((lo@, hi@), v) {
                                lemma_ver_cmp_from_trans(l@.segs, v, h@.segs, 0);
                            }
                        }
                    } else {
                        lemma_ver_cmp_refl(l@.segs);
                        assert(in_iv((lo@, hi@), l@.segs));
                    }
                }
                r
            },
            (VBound::Excluded(l), VBound::Included(h)) => {
                let r = !matches!(vcmp(l, h), Ordering::Less);
                proof {
                    if r {
                        assert forall|v: Seq<SegModel>| !in_iv((lo@, hi@), v) by {
                            if in_iv((lo@, hi@), v) {
                                lemma_ver_cmp_from_trans(l@.segs, v, h@.segs, 0);
                            }
                        }
                    } else {
                        lemma_ver_cmp_refl(h@.segs);
                        assert(in_iv((lo@, hi@), h@.segs));
                    }
                }
                r
            },
            (VBound::Excluded(l), VBound::Excluded(h)) => {
                let r = !matches!(vcmp(l, h), Ordering::Less);
                proof {
                    if r {
                        assert forall|v: Seq<SegModel>| !in_iv((lo@, hi@), v) by {
                            if in_iv((lo@, hi@), v) {
                                lemma_ver_cmp_from_trans(l@.segs, v, h@.segs, 0);
                            }
                        }
                    } else {
                        lemma_mid(l@.segs, h@.segs);
                        assert(in_iv((lo@, hi@), spec_mid(l@.segs, h@.segs)));
                    }
                }
                r
            },
        }
    }

    /// Exact emptiness of the whole set.
    pub fn is_empty_range(&self) -> (r: bool)
        ensures
            r <==> (forall|v: Seq<SegModel>| !range_mem(self@, v)),
    {
        let n = self.intervals.len();
        let mut i: usize = 0;
        while i < n
            invariant
                i <= n,
                n == self.intervals@.len(),
                forall|x: int, v: Seq<SegModel>| 0 <= x < i ==> !#[trigger] in_iv(self@[x], v),
            decreases n - i,
        {
            let e = Self::iv_empty(&self.intervals[i].0, &self.intervals[i].1);
            proof {
                assert(self@[i as int] == (self.intervals@[i as int].0@, self.intervals@[
                    i as int].1@));
            }
            if !e {
                proof {
                    let v = choose|v: Seq<SegModel>|
                        in_iv((self.intervals@[i as int].0@, self.intervals@[i as int].1@), v);
                    assert(in_iv(self@[i as int], v));
                    assert(range_mem(self@, v));
                }
                return false;
            }
            i = i + 1;
        }
        proof {
            assert forall|v: Seq<SegModel>| !range_mem(self@, v) by {
                if range_mem(self@, v) {
                    let x = choose|x: int| 0 <= x < self@.len() && in_iv(#[trigger] self@[x], v);
                }
            }
        }
        true
    }

    /// Exact disjointness.
    pub fn is_disjoint(&self, other: &VersionRange) -> (r: bool)
        ensures
            r <==> (forall|v: Seq<SegModel>| !(range_mem(self@, v) && range_mem(other@, v))),
    {
        let both = self.intersection(other);
        let r = both.is_empty_range();
        proof {
            if r {
                assert forall|v: Seq<SegModel>| !(range_mem(self@, v) && range_mem(
                    other@,
                    v,
                )) by {
                    assert(!range_mem(both@, v));
                }
            } else {
                let v = choose|v: Seq<SegModel>| range_mem(both@, v);
                assert(range_mem(self@, v) && range_mem(other@, v));
            }
        }
        r
    }

    /// Exact subset test.
    pub fn subset_of(&self, other: &VersionRange) -> (r: bool)
        ensures
            r <==> (forall|v: Seq<SegModel>|
                #[trigger] range_mem(self@, v) ==> range_mem(other@, v)),
    {
        let outside = other.complement();
        let leak = self.intersection(&outside);
        let r = leak.is_empty_range();
        proof {
            if r {
                assert forall|v: Seq<SegModel>| #[trigger]
                    range_mem(self@, v) implies range_mem(other@, v) by {
                    assert(!range_mem(leak@, v));
                }
            } else {
                let v = choose|v: Seq<SegModel>| range_mem(leak@, v);
                assert(range_mem(self@, v) && !range_mem(other@, v));
            }
        }
        r
    }

    /// Exact equality of the two sets of members.
    pub fn same_set(&self, other: &VersionRange) -> (r: bool)
        ensures
            r <==> (forall|v: Seq<SegModel>|
                #[trigger] range_mem(self@, v) <==> range_mem(other@, v)),
    {
        let a = self.subset_of(other);
        let b = other.subset_of(self);
        a && b
    }
}

} // verus!
