//! Loose, multi-segment version values: parsing, rendering, ordering and
//! the bump rule of the pessimistic operator.
//!
//! A version is a sequence of segments, each numeric or textual, plus an
//! optional platform tag. The order compares segment by segment, padding
//! the shorter side with numeric zeros; numeric segments sort above
//! textual ones, which makes any version with a textual suffix — a
//! pre-release — sort below its base.
use vstd::prelude::*;
use vstd::string::{StrSliceExecFns, StringExecFns};
use core::cmp::Ordering;
use crate::text::{
    lex_cmp, cmp_str, lemma_lex_cmp_equal_iff, lemma_lex_cmp_antisym, lemma_lex_cmp_trans,
    spec_is_digit, spec_dec_u64, spec_dec_nat, spec_u64_string, spec_find, spec_split, spec_join,
    spec_digit_run, find_char, digit_run, dec_value, push_char, append_u64,
};

verus! {

/// One version segment.
#[derive(Debug, Clone, PartialEq, Eq, Hash)]
pub enum Segment {
    Numeric(u64),
    Text(String),
    Prerelease(String),
}

/// The mathematical model of a segment.
pub enum SegModel {
    Num(u64),
    Txt(Seq<char>),
    Pre(Seq<char>),
}

impl View for Segment {
    type V = SegModel;

    open spec fn view(&self) -> SegModel {
        match self {
            Segment::Numeric(n) => SegModel::Num(*n),
            Segment::Text(s) => SegModel::Txt(s@),
            Segment::Prerelease(s) => SegModel::Pre(s@),
        }
    }
}

/// A version: its main segments and an optional platform tag.
#[derive(Debug, Clone, PartialEq, Eq, Hash)]
pub struct RubyVersion {
    pub segments: Vec<Segment>,
    pub platform_segment: Option<Segment>,
}

/// The mathematical model of a version.
pub struct VersionModel {
    pub segs: Seq<SegModel>,
    pub platform: Option<SegModel>,
}

impl View for RubyVersion {
    type V = VersionModel;

    open spec fn view(&self) -> VersionModel {
        VersionModel {
            segs: Seq::new(self.segments@.len(), |i: int| self.segments@[i]@),
            platform: match self.platform_segment {
                Some(s) => Some(s@),
                None => None,
            },
        }
    }
}

/// Cross-kind segment comparison: numeric above textual, textual kinds
/// against each other by their character payloads.
pub open spec fn spec_seg_cmp(a: SegModel, b: SegModel) -> Ordering {
    match (a, b) {
        (SegModel::Num(x), SegModel::Num(y)) => if x < y {
            Ordering::Less
        } else if x > y {
            Ordering::Greater
        } else {
            Ordering::Equal
        },
        (SegModel::Num(_), SegModel::Txt(_)) => Ordering::Greater,
        (SegModel::Num(_), SegModel::Pre(_)) => Ordering::Greater,
        (SegModel::Txt(_), SegModel::Num(_)) => Ordering::Less,
        (SegModel::Txt(x), SegModel::Txt(y)) => lex_cmp(x, y),
        (SegModel::Txt(x), SegModel::Pre(y)) => lex_cmp(x, y),
        (SegModel::Pre(_), SegModel::Num(_)) => Ordering::Less,
        (SegModel::Pre(x), SegModel::Txt(y)) => lex_cmp(x, y),
        (SegModel::Pre(x), SegModel::Pre(y)) => lex_cmp(x, y),
    }
}

/// The segment at position `i`, right-padded with numeric zero.
pub open spec fn seg_at(s: Seq<SegModel>, i: int) -> SegModel {
    if 0 <= i < s.len() {
        s[i]
    } else {
        SegModel::Num(0)
    }
}

/// Segment-by-segment version comparison from position `i` on.
pub open spec fn spec_ver_cmp_from(a: Seq<SegModel>, b: Seq<SegModel>, i: int) -> Ordering
    decreases a.len() + b.len() - i,
{
    if i >= a.len() && i >= b.len() {
        Ordering::Equal
    } else {
        match spec_seg_cmp(seg_at(a, i), seg_at(b, i)) {
            Ordering::Equal => spec_ver_cmp_from(a, b, i + 1),
            o => o,
        }
    }
}

/// The total (pre)order on versions: compare the segment lists, padding
/// the shorter one with numeric zeros.
pub open spec fn spec_ver_cmp(a: Seq<SegModel>, b: Seq<SegModel>) -> Ordering {
    spec_ver_cmp_from(a, b, 0)
}

/// Comparison of two versions; the platform tag does not participate.
pub open spec fn spec_version_cmp(a: &RubyVersion, b: &RubyVersion) -> Ordering {
    spec_ver_cmp(a@.segs, b@.segs)
}

pub open spec fn ver_lt(a: Seq<SegModel>, b: Seq<SegModel>) -> bool {
    spec_ver_cmp(a, b) == Ordering::Less
}

pub open spec fn ver_eq(a: Seq<SegModel>, b: Seq<SegModel>) -> bool {
    spec_ver_cmp(a, b) == Ordering::Equal
}

pub open spec fn ver_le(a: Seq<SegModel>, b: Seq<SegModel>) -> bool {
    spec_ver_cmp(a, b) != Ordering::Greater
}

/// A version is a pre-release when any main segment is textual.
pub open spec fn spec_is_prerelease(segs: Seq<SegModel>) -> bool {
    exists|i: int| 0 <= i < segs.len() && segs[i] is Txt
}

pub proof fn lemma_seg_cmp_refl(a: SegModel)
    ensures
        spec_seg_cmp(a, a) == Ordering::Equal,
{
    match a {
        SegModel::Num(_) => {},
        SegModel::Txt(x) => lemma_lex_cmp_equal_iff(x, x),
        SegModel::Pre(x) => lemma_lex_cmp_equal_iff(x, x),
    }
}

pub proof fn lemma_seg_cmp_antisym(a: SegModel, b: SegModel)
    ensures
        spec_seg_cmp(a, b) == Ordering::Less <==> spec_seg_cmp(b, a) == Ordering::Greater,
        spec_seg_cmp(a, b) == Ordering::Equal <==> spec_seg_cmp(b, a) == Ordering::Equal,
{
    match (a, b) {
        (SegModel::Num(_), SegModel::Num(_)) => {},
        (SegModel::Txt(x), SegModel::Txt(y)) => lemma_lex_cmp_antisym(x, y),
        (SegModel::Txt(x), SegModel::Pre(y)) => lemma_lex_cmp_antisym(x, y),
        (SegModel::Pre(x), SegModel::Txt(y)) => lemma_lex_cmp_antisym(x, y),
        (SegModel::Pre(x), SegModel::Pre(y)) => lemma_lex_cmp_antisym(x, y),
        _ => {},
    }
}

pub proof fn lemma_seg_cmp_trans(a: SegModel, b: SegModel, c: SegModel)
    requires
        spec_seg_cmp(a, b) != Ordering::Greater,
        spec_seg_cmp(b, c) != Ordering::Greater,
    ensures
        spec_seg_cmp(a, c) != Ordering::Greater,
        spec_seg_cmp(a, b) == Ordering::Less || spec_seg_cmp(b, c) == Ordering::Less
            ==> spec_seg_cmp(a, c) == Ordering::Less,
{
    match (a, b, c) {
        (SegModel::Txt(x), SegModel::Txt(y), SegModel::Txt(z)) => lemma_lex_cmp_trans(x, y, z),
        (SegModel::Txt(x), SegModel::Txt(y), SegModel::Pre(z)) => lemma_lex_cmp_trans(x, y, z),
        (SegModel::Txt(x), SegModel::Pre(y), SegModel::Txt(z)) => lemma_lex_cmp_trans(x, y, z),
        (SegModel::Txt(x), SegModel::Pre(y), SegModel::Pre(z)) => lemma_lex_cmp_trans(x, y, z),
        (SegModel::Pre(x), SegModel::Txt(y), SegModel::Txt(z)) => lemma_lex_cmp_trans(x, y, z),
        (SegModel::Pre(x), SegModel::Txt(y), SegModel::Pre(z)) => lemma_lex_cmp_trans(x, y, z),
        (SegModel::Pre(x), SegModel::Pre(y), SegModel::Txt(z)) => lemma_lex_cmp_trans(x, y, z),
        (SegModel::Pre(x), SegModel::Pre(y), SegModel::Pre(z)) => lemma_lex_cmp_trans(x, y, z),
        _ => {},
    }
}

pub proof fn lemma_ver_cmp_refl_from(s: Seq<SegModel>, i: int)
    requires
        i >= 0,
    ensures
        spec_ver_cmp_from(s, s, i) == Ordering::Equal,
    decreases s.len() + s.len() - i,
{
    lemma_seg_cmp_refl(seg_at(s, i));
    if !(i >= s.len()) {
        lemma_ver_cmp_refl_from(s, i + 1);
    }
}

pub proof fn lemma_ver_cmp_refl(s: Seq<SegModel>)
    ensures
        spec_ver_cmp(s, s) == Ordering::Equal,
{
    lemma_ver_cmp_refl_from(s, 0);
}

pub proof fn lemma_ver_cmp_from_antisym(a: Seq<SegModel>, b: Seq<SegModel>, i: int)
    requires
        i >= 0,
    ensures
        spec_ver_cmp_from(a, b, i) == Ordering::Less <==> spec_ver_cmp_from(b, a, i)
            == Ordering::Greater,
        spec_ver_cmp_from(a, b, i) == Ordering::Equal <==> spec_ver_cmp_from(b, a, i)
            == Ordering::Equal,
    decreases a.len() + b.len() - i,
{
    lemma_seg_cmp_antisym(seg_at(a, i), seg_at(b, i));
    if !(i >= a.len() && i >= b.len()) {
        if spec_seg_cmp(seg_at(a, i), seg_at(b, i)) == Ordering::Equal {
            lemma_ver_cmp_from_antisym(a, b, i + 1);
        }
    }
}

pub proof fn lemma_ver_cmp_from_trans(a: Seq<SegModel>, b: Seq<SegModel>, c: Seq<SegModel>, i: int)
    requires
        i >= 0,
        spec_ver_cmp_from(a, b, i) != Ordering::Greater,
        spec_ver_cmp_from(b, c, i) != Ordering::Greater,
    ensures
        spec_ver_cmp_from(a, c, i) != Ordering::Greater,
        spec_ver_cmp_from(a, b, i) == Ordering::Less || spec_ver_cmp_from(b, c, i)
            == Ordering::Less ==> spec_ver_cmp_from(a, c, i) == Ordering::Less,
    decreases a.len() + b.len() + c.len() - i,
{
    let ha = seg_at(a, i);
    let hb = seg_at(b, i);
    let hc = seg_at(c, i);
    if i >= a.len() && i >= b.len() && i >= c.len() {
    } else {
        let o1 = spec_seg_cmp(ha, hb);
        let o2 = spec_seg_cmp(hb, hc);
        lemma_seg_cmp_refl(ha);
        lemma_seg_cmp_refl(hb);
        lemma_seg_cmp_refl(hc);
        lemma_seg_cmp_antisym(ha, hb);
        lemma_seg_cmp_antisym(hb, hc);
        lemma_seg_cmp_antisym(ha, hc);
        lemma_seg_cmp_trans(ha, hb, hc);
        if o1 == Ordering::Equal && o2 == Ordering::Equal {
            lemma_seg_cmp_trans(hc, hb, ha);
            lemma_ver_cmp_from_trans(a, b, c, i + 1);
        }
    }
}

/// The ordering on versions is total: of `a < b`, `a == b`, `a > b`
/// exactly one holds, where `a > b` means the comparison of `b` with `a`
/// says less; and it is transitive.
pub proof fn lemma_version_order_total(a: &RubyVersion, b: &RubyVersion)
    ensures
        spec_version_cmp(a, b) == Ordering::Less <==> spec_version_cmp(b, a) == Ordering::Greater,
        spec_version_cmp(a, b) == Ordering::Equal <==> spec_version_cmp(b, a) == Ordering::Equal,
        spec_version_cmp(a, b) == Ordering::Less || spec_version_cmp(a, b) == Ordering::Equal
            || spec_version_cmp(a, b) == Ordering::Greater,
        !(spec_version_cmp(a, b) == Ordering::Less && spec_version_cmp(a, b) == Ordering::Equal),
        !(spec_version_cmp(a, b) == Ordering::Less && spec_version_cmp(a, b) == Ordering::Greater),
        !(spec_version_cmp(a, b) == Ordering::Equal && spec_version_cmp(a, b)
            == Ordering::Greater),
{
    lemma_ver_cmp_from_antisym(a@.segs, b@.segs, 0);
}

/// Transitivity of the version order.
pub proof fn lemma_version_order_trans(a: &RubyVersion, b: &RubyVersion, c: &RubyVersion)
    requires
        spec_version_cmp(a, b) != Ordering::Greater,
        spec_version_cmp(b, c) != Ordering::Greater,
    ensures
        spec_version_cmp(a, c) != Ordering::Greater,
        spec_version_cmp(a, b) == Ordering::Less || spec_version_cmp(b, c) == Ordering::Less
            ==> spec_version_cmp(a, c) == Ordering::Less,
{
    lemma_ver_cmp_from_trans(a@.segs, b@.segs, c@.segs, 0);
}

/// Exact executable segment comparison.
pub fn seg_cmp(a: &Segment, b: &Segment) -> (r: Ordering)
    ensures
        r == spec_seg_cmp(a@, b@),
{
    match (a, b) {
        (Segment::Numeric(x), Segment::Numeric(y)) => if x < y {
            Ordering::Less
        } else if x > y {
            Ordering::Greater
        } else {
            Ordering::Equal
        },
        (Segment::Numeric(_), Segment::Text(_)) => Ordering::Greater,
        (Segment::Numeric(_), Segment::Prerelease(_)) => Ordering::Greater,
        (Segment::Text(_), Segment::Numeric(_)) => Ordering::Less,
        (Segment::Text(x), Segment::Text(y)) => cmp_str(x.as_str(), y.as_str()),
        (Segment::Text(x), Segment::Prerelease(y)) => cmp_str(x.as_str(), y.as_str()),
        (Segment::Prerelease(_), Segment::Numeric(_)) => Ordering::Less,
        (Segment::Prerelease(x), Segment::Text(y)) => cmp_str(x.as_str(), y.as_str()),
        (Segment::Prerelease(x), Segment::Prerelease(y)) => cmp_str(x.as_str(), y.as_str()),
    }
}

impl RubyVersion {
    /// A three-segment numeric version with no platform tag.
    pub fn new(major: u64, minor: u64, patch: u64) -> (r: RubyVersion)
        ensures
            r@.segs =~= seq![
                SegModel::Num(major),
                SegModel::Num(minor),
                SegModel::Num(patch),
            ],
            r@.platform is None,
    {
        RubyVersion {
            segments: vec![
                Segment::Numeric(major),
                Segment::Numeric(minor),
                Segment::Numeric(patch),
            ],
            platform_segment: None,
        }
    }

    /// Exact comparison in the padded segment order.
    pub fn cmp_version(&self, other: &RubyVersion) -> (r: Ordering)
        ensures
            r == spec_version_cmp(self, other),
    {
        let a_len = self.segments.len();
        let b_len = other.segments.len();
        let max_len = if a_len > b_len {
            a_len
        } else {
            b_len
        };
        let zero = Segment::Numeric(0);
        let mut i: usize = 0;
        while i < max_len
            invariant
                i <= max_len,
                a_len == self.segments@.len(),
                b_len == other.segments@.len(),
                max_len == if a_len > b_len { a_len as int } else { b_len as int },
                zero@ == SegModel::Num(0),
                spec_ver_cmp(self@.segs, other@.segs) == spec_ver_cmp_from(
                    self@.segs,
                    other@.segs,
                    i as int,
                ),
            decreases max_len - i,
        {
            let sa = if i < a_len {
                &self.segments[i]
            } else {
                &zero
            };
            let sb = if i < b_len {
                &other.segments[i]
            } else {
                &zero
            };
            let o = seg_cmp(sa, sb);
            proof {
                assert(sa@ == seg_at(self@.segs, i as int));
                assert(sb@ == seg_at(other@.segs, i as int));
            }
            if !matches!(o, Ordering::Equal) {
                return o;
            }
            i = i + 1;
        }
        Ordering::Equal
    }

    /// Whether any main segment is textual.
    pub fn is_prerelease(&self) -> (r: bool)
        ensures
            r == spec_is_prerelease(self@.segs),
    {
        let n = self.segments.len();
        let mut i: usize = 0;
        while i < n
            invariant
                i <= n,
                n == self.segments@.len(),
                forall|j: int| 0 <= j < i ==> !(self@.segs[j] is Txt),
            decreases n - i,
        {
            if matches!(&self.segments[i], Segment::Text(_)) {
                proof {
                    assert(self@.segs[i as int] is Txt);
                }
                return true;
            }
            i = i + 1;
        }
        false
    }

    /// Whether the version carries a platform tag.
    pub fn is_platform(&self) -> (r: bool)
        ensures
            r == (self@.platform is Some),
    {
        self.platform_segment.is_some()
    }
}

impl PartialOrd for RubyVersion {
    fn partial_cmp(&self, other: &Self) -> (r: Option<Ordering>) {
        Some(self.cmp_version(other))
    }
}

impl vstd::std_specs::cmp::PartialOrdSpecImpl for RubyVersion {
    open spec fn obeys_partial_cmp_spec() -> bool {
        true
    }

    open spec fn partial_cmp_spec(&self, other: &Self) -> Option<Ordering> {
        Some(spec_version_cmp(self, other))
    }
}

impl PartialOrd for Segment {
    fn partial_cmp(&self, other: &Self) -> (r: Option<Ordering>) {
        Some(seg_cmp(self, other))
    }
}

impl vstd::std_specs::cmp::PartialOrdSpecImpl for Segment {
    open spec fn obeys_partial_cmp_spec() -> bool {
        true
    }

    open spec fn partial_cmp_spec(&self, other: &Self) -> Option<Ordering> {
        Some(spec_seg_cmp(self@, other@))
    }
}

/// Extending a version with a textual segment puts it strictly below the
/// version it extends: a pre-release sorts below its base.
pub proof fn lemma_prerelease_strictly_below_base(v: &RubyVersion, base: &RubyVersion)
    requires
        v@.segs.len() > base@.segs.len(),
        v@.segs.take(base@.segs.len() as int) == base@.segs,
        v@.segs[base@.segs.len() as int] is Txt,
    ensures
        spec_version_cmp(v, base) == Ordering::Less,
{
    let a = v@.segs;
    let b = base@.segs;
    let n = b.len() as int;
    assert forall|j: int| 0 <= j < n implies spec_seg_cmp(seg_at(a, j), seg_at(b, j))
        == Ordering::Equal by {
        assert(a.take(n)[j] == a[j]);
        lemma_seg_cmp_refl(a[j]);
    }
    lemma_ver_cmp_prefix(a, b, n);
    assert(spec_seg_cmp(seg_at(a, n), seg_at(b, n)) == Ordering::Less);
}

/// If the segments agree (as compared) before `i`, the comparison from 0
/// equals the comparison from `i`.
pub proof fn lemma_ver_cmp_prefix(a: Seq<SegModel>, b: Seq<SegModel>, i: int)
    requires
        0 <= i,
        forall|j: int| 0 <= j < i ==> spec_seg_cmp(seg_at(a, j), seg_at(b, j)) == Ordering::Equal,
    ensures
        spec_ver_cmp(a, b) == spec_ver_cmp_from(a, b, i),
    decreases i,
{
    if i > 0 {
        lemma_ver_cmp_prefix_step(a, b, i - 1);
        lemma_ver_cmp_prefix(a, b, i - 1);
    }
}

proof fn lemma_ver_cmp_prefix_step(a: Seq<SegModel>, b: Seq<SegModel>, i: int)
    requires
        0 <= i,
        spec_seg_cmp(seg_at(a, i), seg_at(b, i)) == Ordering::Equal,
    ensures
        spec_ver_cmp_from(a, b, i) == spec_ver_cmp_from(a, b, i + 1),
{
}

/// The model of a vector of segments.
pub open spec fn segs_view(v: Seq<Segment>) -> Seq<SegModel> {
    Seq::new(v.len(), |i: int| v[i]@)
}

/// A well-formed segment list as parsing produces it: numeric segments,
/// or nonempty textual segments that start with a non-digit and carry no
/// separator character.
pub open spec fn seg_wf(s: SegModel) -> bool {
    match s {
        SegModel::Num(_) => true,
        SegModel::Txt(t) => t.len() > 0 && !spec_is_digit(t[0]) && forall|j: int|
            0 <= j < t.len() ==> #[trigger] t[j] != '.' && t[j] != '-' && t[j] != '+',
        SegModel::Pre(_) => false,
    }
}

pub open spec fn segs_wf(segs: Seq<SegModel>) -> bool {
    forall|i: int| 0 <= i < segs.len() ==> seg_wf(#[trigger] segs[i])
}

/// Rendering of one segment at position `idx`: a dot before every
/// numeric or textual segment but the first; platform markers in the
/// main list render as nothing.
pub open spec fn spec_render_one(s: SegModel, idx: int) -> Seq<char> {
    match s {
        SegModel::Num(n) => if idx > 0 {
            seq!['.'] + spec_u64_string(n)
        } else {
            spec_u64_string(n)
        },
        SegModel::Txt(t) => if idx > 0 {
            seq!['.'] + t
        } else {
            t
        },
        SegModel::Pre(_) => Seq::empty(),
    }
}

/// Rendering of the first `i` segments.
pub open spec fn spec_render_upto(segs: Seq<SegModel>, i: int) -> Seq<char>
    decreases i,
{
    if i <= 0 {
        Seq::empty()
    } else {
        spec_render_upto(segs, i - 1) + spec_render_one(segs[i - 1], i - 1)
    }
}

/// The canonical text of a version: dotted segments, then `-` and the
/// platform tag when one is present.
pub open spec fn spec_render(m: VersionModel) -> Seq<char> {
    spec_render_upto(m.segs, m.segs.len() as int) + match m.platform {
        Some(SegModel::Pre(p)) => seq!['-'] + p,
        _ => Seq::empty(),
    }
}

/// The segments a single dot-separated part contributes: the leading
/// digit run as one numeric segment, the remainder as one textual
/// segment.
pub open spec fn spec_parse_part(p: Seq<char>) -> Seq<SegModel> {
    let k = spec_digit_run(p);
    (if k > 0 {
        seq![SegModel::Num(spec_dec_u64(p.take(k)))]
    } else {
        Seq::<SegModel>::empty()
    }) + (if k < p.len() {
        seq![SegModel::Txt(p.skip(k))]
    } else {
        Seq::<SegModel>::empty()
    })
}

pub open spec fn spec_parse_parts(parts: Seq<Seq<char>>) -> Seq<SegModel>
    decreases parts.len(),
{
    if parts.len() == 0 {
        Seq::empty()
    } else {
        spec_parse_part(parts[0]) + spec_parse_parts(parts.skip(1))
    }
}

/// The parse of a version text: drop build metadata after `+`, split the
/// rest once on `-` into main text and platform tag, split the main text
/// on dots and read each part.
pub open spec fn spec_parse(s: Seq<char>) -> VersionModel {
    let before_plus = s.take(spec_find(s, '+'));
    let dash = spec_find(before_plus, '-');
    VersionModel {
        segs: spec_parse_parts(spec_split(before_plus.take(dash), '.')),
        platform: if dash < before_plus.len() {
            Some(SegModel::Pre(before_plus.skip(dash + 1)))
        } else {
            None
        },
    }
}

/// The bare payload text of a segment, without any dot.
pub open spec fn spec_seg_payload(s: SegModel) -> Seq<char> {
    match s {
        SegModel::Num(n) => spec_u64_string(n),
        SegModel::Txt(t) => t,
        SegModel::Pre(_) => Seq::empty(),
    }
}

pub open spec fn spec_payloads(segs: Seq<SegModel>) -> Seq<Seq<char>> {
    Seq::new(segs.len(), |i: int| spec_seg_payload(segs[i]))
}

proof fn lemma_payload_chars(s: SegModel)
    requires
        seg_wf(s),
    ensures
        forall|j: int|
            0 <= j < spec_seg_payload(s).len() ==> #[trigger] spec_seg_payload(s)[j] != '.'
                && spec_seg_payload(s)[j] != '-' && spec_seg_payload(s)[j] != '+',
{
    match s {
        SegModel::Num(n) => {
            crate::text::lemma_dec_of_u64_string(n);
            assert forall|j: int|
                0 <= j < spec_seg_payload(s).len() implies #[trigger] spec_seg_payload(s)[j] != '.'
                && spec_seg_payload(s)[j] != '-' && spec_seg_payload(s)[j] != '+' by {
                assert(spec_is_digit(spec_u64_string(n)[j]));
                assert(('.' as u32) == 46);
                assert(('-' as u32) == 45);
                assert(('+' as u32) == 43);
            }
        },
        _ => {},
    }
}

proof fn lemma_render_is_join(segs: Seq<SegModel>, i: int)
    requires
        segs_wf(segs),
        0 <= i <= segs.len(),
    ensures
        spec_render_upto(segs, i) == spec_join(spec_payloads(segs).take(i)),
    decreases i,
{
    let pays = spec_payloads(segs);
    if i > 0 {
        lemma_render_is_join(segs, i - 1);
        assert(seg_wf(segs[i - 1]));
        if i - 1 == 0 {
            assert(pays.take(1) =~= seq![pays[0]]);
            assert(spec_join(seq![pays[0]]) == pays[0]);
            assert(spec_render_upto(segs, 0) == Seq::<char>::empty());
            assert(spec_render_one(segs[0], 0) == pays[0]);
            assert(Seq::<char>::empty() + spec_render_one(segs[0], 0) =~= spec_render_one(
                segs[0],
                0,
            ));
        } else {
            assert(pays.take(i) =~= pays.take(i - 1).push(pays[i - 1]));
            crate::text::lemma_join_push(pays.take(i - 1), pays[i - 1]);
            assert(spec_render_one(segs[i - 1], i - 1) == seq!['.'] + pays[i - 1]);
            assert(spec_render_upto(segs, i - 1) + (seq!['.'] + pays[i - 1]) =~= (spec_render_upto(
                segs,
                i - 1,
            ) + seq!['.']) + pays[i - 1]);
        }
    } else {
        assert(pays.take(0) =~= Seq::<Seq<char>>::empty());
    }
}

proof fn lemma_parse_payloads(segs: Seq<SegModel>)
    requires
        segs_wf(segs),
    ensures
        spec_parse_parts(spec_payloads(segs)) == segs,
    decreases segs.len(),
{
    let pays = spec_payloads(segs);
    if segs.len() == 0 {
        assert(pays =~= Seq::<Seq<char>>::empty());
        assert(spec_parse_parts(pays) =~= segs);
    } else {
        assert(seg_wf(segs[0]));
        let p = pays[0];
        match segs[0] {
            SegModel::Num(n) => {
                crate::text::lemma_dec_of_u64_string(n);
                crate::text::lemma_spec_digit_run(p);
                let k = spec_digit_run(p);
                if k < p.len() {
                    assert(spec_is_digit(p[k]));
                    assert(false);
                }
                assert(k == p.len());
                assert(p.take(k) =~= p);
                assert(spec_dec_nat(p) <= u64::MAX);
                assert(spec_dec_u64(p) == n);
                assert(spec_parse_part(p) =~= seq![SegModel::Num(n)] + Seq::<SegModel>::empty());
                assert(spec_parse_part(p) =~= seq![segs[0]]);
            },
            SegModel::Txt(t) => {
                assert(!spec_is_digit(t[0]));
                assert(spec_digit_run(p) == 0);
                assert(p.skip(0) =~= t);
                assert(spec_parse_part(p) =~= Seq::<SegModel>::empty() + seq![SegModel::Txt(t)]);
                assert(spec_parse_part(p) =~= seq![segs[0]]);
            },
            SegModel::Pre(_) => {
                assert(false);
            },
        }
        assert forall|i: int| 0 <= i < segs.skip(1).len() implies seg_wf(
            #[trigger] segs.skip(1)[i],
        ) by {
            assert(segs.skip(1)[i] == segs[i + 1]);
        }
        lemma_parse_payloads(segs.skip(1));
        assert(pays.skip(1) =~= spec_payloads(segs.skip(1)));
        assert(spec_parse_parts(pays) == spec_parse_part(p) + spec_parse_parts(pays.skip(1)));
        assert(seq![segs[0]] + segs.skip(1) =~= segs);
    }
}

/// Round trip: parsing the rendered text of a well-formed version without
/// a platform tag yields the version back.
pub proof fn lemma_parse_render_roundtrip(m: VersionModel)
    requires
        segs_wf(m.segs),
        m.platform is None,
    ensures
        spec_parse(spec_render(m)).segs == m.segs,
        spec_parse(spec_render(m)).platform is None,
{
    let s = spec_render(m);
    assert(s =~= spec_render_upto(m.segs, m.segs.len() as int));
    lemma_render_is_join(m.segs, m.segs.len() as int);
    let pays = spec_payloads(m.segs);
    assert(pays.take(m.segs.len() as int) =~= pays);
    assert(s == spec_join(pays));
    assert forall|i: int, j: int|
        0 <= i < pays.len() && 0 <= j < pays[i].len() implies #[trigger] pays[i][j] != '-' by {
        lemma_payload_chars(m.segs[i]);
    }
    assert forall|i: int, j: int|
        0 <= i < pays.len() && 0 <= j < pays[i].len() implies #[trigger] pays[i][j] != '+' by {
        lemma_payload_chars(m.segs[i]);
    }
    assert(('.' as u32) != ('-' as u32));
    assert(('.' as u32) != ('+' as u32));
    crate::text::lemma_join_no_char(pays, '-');
    crate::text::lemma_join_no_char(pays, '+');
    crate::text::lemma_find_at(s, '+', s.len() as int);
    assert(s.take(spec_find(s, '+')) =~= s);
    crate::text::lemma_find_at(s, '-', s.len() as int);
    assert(spec_parse(s).platform is None);
    assert(s.take(spec_find(s, '-')) =~= s);
    if m.segs.len() == 0 {
        assert(s =~= Seq::<char>::empty());
        crate::text::lemma_find_at(s, '.', 0);
        assert(spec_split(s, '.') == seq![s]);
        assert(seq![s][0] == s);
        assert(seq![s].skip(1).len() == 0);
        assert(spec_digit_run(s) == 0);
        assert(spec_parse_part(s) =~= Seq::<SegModel>::empty() + Seq::<SegModel>::empty());
        assert(spec_parse_parts(seq![s]) =~= spec_parse_part(s) + spec_parse_parts(seq![s].skip(
            1,
        )));
        assert(spec_parse(s).segs =~= m.segs);
    } else {
        assert forall|i: int, j: int|
            0 <= i < pays.len() && 0 <= j < pays[i].len() implies #[trigger] pays[i][j] != '.' by {
            lemma_payload_chars(m.segs[i]);
        }
        crate::text::lemma_split_join(pays);
        lemma_parse_payloads(m.segs);
    }
}

/// The segments kept by the trim phase form a prefix of the input.
proof fn lemma_trim_prefix(s: Seq<SegModel>)
    ensures
        spec_trim_txt(s).len() <= s.len(),
        spec_trim_txt(s) == s.take(spec_trim_txt(s).len() as int),
        spec_trim_txt(s).len() == 0 ==> forall|i: int| 0 <= i < s.len() ==> s[i] is Txt,
    decreases s.len(),
{
    if s.len() > 0 && s.last() is Txt {
        lemma_trim_prefix(s.drop_last());
        let t = spec_trim_txt(s);
        assert(s.drop_last() =~= s.take(s.len() - 1));
        assert(s.drop_last().take(t.len() as int) =~= s.take(t.len() as int));
        if t.len() == 0 {
            assert forall|i: int| 0 <= i < s.len() implies s[i] is Txt by {
                if i < s.len() - 1 {
                    assert(s.drop_last()[i] == s[i]);
                }
            }
        }
    } else {
        assert(s.take(s.len() as int) =~= s);
    }
}

/// Whether the increment of the bump rule stays below the numeric limit.
pub open spec fn spec_bump_fits(segs: Seq<SegModel>, has_platform: bool) -> bool {
    let s1 = if has_platform && segs.len() > 0 {
        segs.drop_last()
    } else {
        segs
    };
    let s2 = spec_trim_txt(s1);
    let s3 = if s2.len() > 1 {
        s2.drop_last()
    } else {
        s2
    };
    s3.len() > 0 ==> match s3.last() {
        SegModel::Num(k) => k < u64::MAX,
        _ => true,
    }
}

/// The bump of a version lies strictly above it: the pessimistic range
/// `[v, bump v)` therefore holds `v` and not `bump v`.
pub proof fn lemma_bump_above(segs: Seq<SegModel>, has_platform: bool)
    requires
        segs_wf(segs),
        segs.len() >= if has_platform { 2int } else { 1int },
        spec_bump_fits(segs, has_platform),
    ensures
        spec_ver_cmp(segs, spec_bump_segs(segs, has_platform)) == Ordering::Less,
{
    let s1 = if has_platform && segs.len() > 0 {
        segs.drop_last()
    } else {
        segs
    };
    assert(s1.len() >= 1);
    assert(s1 == segs.take(s1.len() as int));
    let s2 = spec_trim_txt(s1);
    lemma_trim_prefix(s1);
    let s3 = if s2.len() > 1 {
        s2.drop_last()
    } else {
        s2
    };
    let res = spec_bump_segs(segs, has_platform);
    if s3.len() == 0 {
        assert(s2.len() == 0);
        assert(s1[0] is Txt);
        assert(segs[0] == s1[0]);
        assert(res == seq![SegModel::Num(1)]);
        assert(spec_seg_cmp(seg_at(segs, 0), seg_at(res, 0)) == Ordering::Less);
        lemma_ver_cmp_prefix(segs, res, 0);
    } else {
        let m = s3.len() as int;
        assert(s2.drop_last() =~= s2.take(s2.len() - 1));
        assert(s3 == segs.take(m)) by {
            if s2.len() > 1 {
                assert(s3 =~= s1.take(m));
                assert(s1.take(m) =~= segs.take(m));
            } else {
                assert(s3 =~= segs.take(m));
            }
        }
        assert(res == s3.drop_last().push(SegModel::Num(spec_inc_seg(s3.last()))));
        assert forall|j: int| 0 <= j < m - 1 implies spec_seg_cmp(
            seg_at(segs, j),
            seg_at(res, j),
        ) == Ordering::Equal by {
            assert(res[j] == s3.drop_last()[j]);
            assert(s3[j] == segs[j]);
            lemma_seg_cmp_refl(segs[j]);
        }
        lemma_ver_cmp_prefix(segs, res, m - 1);
        assert(seg_at(segs, m - 1) == s3.last());
        assert(seg_at(res, m - 1) == SegModel::Num(spec_inc_seg(s3.last())));
        assert(seg_wf(s3.last())) by {
            assert(s3.last() == segs[m - 1]);
        }
        assert(spec_seg_cmp(seg_at(segs, m - 1), seg_at(res, m - 1)) == Ordering::Less);
    }
}

/// A copy of a segment with an equal model.
pub fn clone_segment(s: &Segment) -> (r: Segment)
    ensures
        r@ == s@,
{
    match s {
        Segment::Numeric(n) => Segment::Numeric(*n),
        Segment::Text(t) => Segment::Text(t.clone()),
        Segment::Prerelease(t) => Segment::Prerelease(t.clone()),
    }
}

/// Wrapping increment of the last kept segment in a bump: a numeric
/// segment steps to its successor, anything else restarts at one.
pub open spec fn spec_inc_seg(s: SegModel) -> u64 {
    match s {
        SegModel::Num(k) => if k == u64::MAX {
            0
        } else {
            (k + 1) as u64
        },
        _ => 1,
    }
}

/// Trailing textual segments, as the bump rule removes them.
pub open spec fn spec_trim_txt(s: Seq<SegModel>) -> Seq<SegModel>
    decreases s.len(),
{
    if s.len() > 0 && s.last() is Txt {
        spec_trim_txt(s.drop_last())
    } else {
        s
    }
}

/// The bump rule on the segment model: a platform tag taints the last
/// rendered part and is removed with it; then trailing textual segments
/// go, one further segment goes when at least two remain, and the new
/// last segment is incremented (an empty remainder yields `1`).
pub open spec fn spec_bump_segs(segs: Seq<SegModel>, has_platform: bool) -> Seq<SegModel> {
    let s1 = if has_platform && segs.len() > 0 {
        segs.drop_last()
    } else {
        segs
    };
    let s2 = spec_trim_txt(s1);
    let s3 = if s2.len() > 1 {
        s2.drop_last()
    } else {
        s2
    };
    if s3.len() == 0 {
        seq![SegModel::Num(1)]
    } else {
        s3.drop_last().push(SegModel::Num(spec_inc_seg(s3.last())))
    }
}

impl RubyVersion {
    /// The canonical dotted text of this version.
    pub fn to_string(&self) -> (r: String)
        ensures
            r@ == spec_render(self@),
    {
        let mut out = String::new();
        let n = self.segments.len();
        let mut i: usize = 0;
        while i < n
            invariant
                i <= n,
                n == self.segments@.len(),
                out@ == spec_render_upto(self@.segs, i as int),
            decreases n - i,
        {
            proof {
                assert(self@.segs[i as int] == self.segments@[i as int]@);
            }
            match &self.segments[i] {
                Segment::Numeric(k) => {
                    if i > 0 {
                        push_char(&mut out, '.');
                    }
                    append_u64(&mut out, *k);
                    proof {
                        if i > 0 {
                            assert(out@ =~= spec_render_upto(self@.segs, i as int)
                                + (seq!['.'] + spec_u64_string(*k)));
                        }
                    }
                },
                Segment::Text(t) => {
                    if i > 0 {
                        push_char(&mut out, '.');
                    }
                    out.append(t.as_str());
                    proof {
                        if i > 0 {
                            assert(out@ =~= spec_render_upto(self@.segs, i as int) + (seq!['.']
                                + t@));
                        }
                    }
                },
                Segment::Prerelease(_) => {
                    proof {
                        assert(out@ =~= spec_render_upto(self@.segs, i as int) + Seq::<
                            char,
                        >::empty());
                    }
                },
            }
            i = i + 1;
        }
        match &self.platform_segment {
            Some(Segment::Prerelease(p)) => {
                push_char(&mut out, '-');
                out.append(p.as_str());
                proof {
                    assert(out@ =~= spec_render_upto(self@.segs, n as int) + (seq!['-'] + p@));
                }
            },
            _ => {
                proof {
                    assert(out@ =~= spec_render_upto(self@.segs, n as int) + Seq::<char>::empty());
                }
            },
        }
        out
    }

    /// Parse a version text; the result is exactly the model parse, and
    /// its segments are well formed.
    pub fn parse(text: &str) -> (r: RubyVersion)
        ensures
            r@ == spec_parse(text@),
            segs_wf(r@.segs),
    {
        proof {
            assert(text@.skip(0) =~= text@);
        }
        let plus = find_char(text, 0, '+');
        let before_plus = text.substring_char(0, plus);
        let ghost bp = before_plus@;
        proof {
            assert(bp =~= text@.take(spec_find(text@, '+')));
            assert(bp.skip(0) =~= bp);
        }
        let len1 = before_plus.unicode_len();
        let dash = find_char(before_plus, 0, '-');
        let main = before_plus.substring_char(0, dash);
        let ghost mn = main@;
        proof {
            assert(mn =~= bp.take(spec_find(bp, '-')));
        }
        let platform_segment = if dash < len1 {
            let p = before_plus.substring_char(dash + 1, len1);
            proof {
                assert(p@ =~= bp.skip(dash + 1));
            }
            Some(Segment::Prerelease(p.to_owned()))
        } else {
            None
        };
        let main_len = main.unicode_len();
        let mut segments: Vec<Segment> = Vec::new();
        let mut start: usize = 0;
        proof {
            assert(mn.skip(0) =~= mn);
            assert(segs_view(segments@) =~= Seq::<SegModel>::empty());
            assert(spec_parse_parts(spec_split(mn, '.')) =~= segs_view(segments@)
                + spec_parse_parts(spec_split(mn.skip(0), '.')));
            // the main text holds neither '-' nor '+'
            assert forall|j: int| 0 <= j < mn.len() implies mn[j] != '-' && mn[j] != '+' by {
                assert(mn[j] == bp[j]);
                assert(bp[j] == text@[j]);
            }
        }
        loop
            invariant_except_break
                spec_parse_parts(spec_split(mn, '.')) == segs_view(segments@) + spec_parse_parts(
                    spec_split(mn.skip(start as int), '.'),
                ),
            invariant
                start <= main_len,
                main_len == mn.len(),
                main@ == mn,
                forall|j: int| 0 <= j < mn.len() ==> #[trigger] mn[j] != '-' && mn[j] != '+',
                segs_wf(segs_view(segments@)),
            ensures
                segs_wf(segs_view(segments@)),
                spec_parse_parts(spec_split(mn, '.')) == segs_view(segments@),
            decreases main_len - start,
        {
            let ghost segs0 = segs_view(segments@);
            let ghost rest = mn.skip(start as int);
            let dot = find_char(main, start, '.');
            let part = main.substring_char(start, dot);
            let ghost pt = part@;
            proof {
                assert(spec_find(rest, '.') == dot - start);
                assert(pt =~= mn.subrange(start as int, dot as int));
                assert(pt =~= rest.take(dot - start));
                if dot == main_len {
                    assert(pt =~= rest);
                    assert(spec_find(rest, '.') == rest.len());
                    assert(spec_split(rest, '.') == seq![rest]);
                    assert(seq![rest].len() == 1);
                    assert(seq![rest][0] == rest);
                    assert(spec_parse_parts(seq![rest]) == spec_parse_part(rest)
                        + spec_parse_parts(seq![rest].skip(1)));
                    assert(seq![rest].skip(1).len() == 0);
                    assert(spec_parse_parts(seq![rest].skip(1)) == Seq::<SegModel>::empty());
                    assert(spec_parse_part(rest) + Seq::<SegModel>::empty()
                        =~= spec_parse_part(rest));
                    assert(spec_parse_parts(spec_split(rest, '.')) == spec_parse_part(pt));
                } else {
                    assert(spec_split(rest, '.') == seq![rest.take(dot - start)] + spec_split(
                        rest.skip(dot - start + 1),
                        '.',
                    ));
                    assert((seq![pt] + spec_split(rest.skip(dot - start + 1), '.'))[0] == pt);
                    assert((seq![pt] + spec_split(rest.skip(dot - start + 1), '.')).skip(1)
                        =~= spec_split(rest.skip(dot - start + 1), '.'));
                    assert(rest.skip(dot - start + 1) =~= mn.skip(dot + 1));
                    assert(spec_parse_parts(spec_split(rest, '.')) == spec_parse_part(pt)
                        + spec_parse_parts(spec_split(mn.skip(dot + 1), '.')));
                }
            }
            let part_len = part.unicode_len();
            let k = digit_run(part);
            if k > 0 {
                let digits = part.substring_char(0, k);
                proof {
                    assert(digits@ =~= pt.take(k as int));
                }
                let num = dec_value(digits);
                segments.push(Segment::Numeric(num));
                proof {
                    assert(segs_view(segments@) =~= segs0.push(SegModel::Num(num)));
                }
            }
            if k < part_len {
                let letters_str = part.substring_char(k, part_len);
                proof {
                    assert(letters_str@ =~= pt.skip(k as int));
                }
                let ghost before = segs_view(segments@);
                let letters = letters_str.to_owned();
                segments.push(Segment::Text(letters));
                proof {
                    assert(segs_view(segments@) =~= before.push(SegModel::Txt(pt.skip(k as int))));
                    // the textual payload is well formed
                    let t = pt.skip(k as int);
                    assert(t.len() > 0);
                    assert(t[0] == pt[k as int]);
                    assert(!spec_is_digit(t[0]));
                    assert forall|j: int| 0 <= j < t.len() implies #[trigger] t[j] != '.' && t[j]
                        != '-' && t[j] != '+' by {
                        assert(t[j] == pt[k + j]);
                        assert(pt[k + j] == mn[start + k + j]);
                        assert(start + k + j < dot);
                    }
                }
            }
            proof {
                if k > 0 && k < part_len {
                    assert(spec_parse_part(pt) =~= seq![SegModel::Num(spec_dec_u64(pt.take(
                        k as int,
                    )))] + seq![SegModel::Txt(pt.skip(k as int))]);
                } else if k > 0 {
                    assert(spec_parse_part(pt) =~= seq![SegModel::Num(spec_dec_u64(pt.take(
                        k as int,
                    )))] + Seq::<SegModel>::empty());
                } else if k < part_len {
                    assert(spec_parse_part(pt) =~= Seq::<SegModel>::empty() + seq![
                        SegModel::Txt(pt.skip(k as int)),
                    ]);
                } else {
                    assert(spec_parse_part(pt) =~= Seq::<SegModel>::empty() + Seq::<
                        SegModel,
                    >::empty());
                }
                assert(segs_view(segments@) =~= segs0 + spec_parse_part(pt));
            }
            if dot == main_len {
                proof {
                    assert(spec_parse_parts(spec_split(mn, '.')) =~= segs_view(segments@));
                }
                break;
            }
            proof {
                assert(segs0 + (spec_parse_part(pt) + spec_parse_parts(spec_split(mn.skip(dot + 1),
                    '.',
                ))) =~= (segs0 + spec_parse_part(pt)) + spec_parse_parts(spec_split(mn.skip(
                    dot + 1,
                ), '.')));
            }
            start = dot + 1;
        }
        let r = RubyVersion { segments, platform_segment };
        proof {
            assert(r@.segs =~= segs_view(r.segments@));
            assert(spec_parse(text@).segs == spec_parse_parts(spec_split(mn, '.')));
        }
        r
    }

    /// The bump rule: the first version above every pessimistic match.
    pub fn bump(&self) -> (r: RubyVersion)
        requires
            segs_wf(self@.segs),
        ensures
            r@.segs == spec_bump_segs(self@.segs, self@.platform is Some),
            r@.platform is None,
    {
        let n = self.segments.len();
        let mut segs: Vec<Segment> = Vec::new();
        let mut i: usize = 0;
        while i < n
            invariant
                i <= n,
                n == self.segments@.len(),
                segs_view(segs@) =~= self@.segs.take(i as int),
            decreases n - i,
        {
            segs.push(clone_segment(&self.segments[i]));
            proof {
                assert(segs_view(segs@) =~= self@.segs.take(i as int).push(
                    self@.segs[i as int],
                ));
                assert(self@.segs.take(i + 1) =~= self@.segs.take(i as int).push(
                    self@.segs[i as int],
                ));
            }
            i = i + 1;
        }
        proof {
            assert(self@.segs.take(n as int) =~= self@.segs);
        }
        // a platform tag taints the final rendered part: drop it with its part
        if self.platform_segment.is_some() && segs.len() > 0 {
            segs.pop();
            proof {
                assert(segs_view(segs@) =~= self@.segs.drop_last());
            }
        }
        let ghost s1 = segs_view(segs@);
        // drop trailing textual segments
        while segs.len() > 0 && matches!(&segs[segs.len() - 1], Segment::Text(_))
            invariant
                segs_wf(s1) ==> segs_wf(segs_view(segs@)),
                spec_trim_txt(s1) == spec_trim_txt(segs_view(segs@)),
                forall|j: int| 0 <= j < segs@.len() ==> segs@[j]@ == s1[j],
            decreases segs.len(),
        {
            let ghost cur = segs_view(segs@);
            proof {
                assert(cur.last() == segs@[segs@.len() - 1]@);
                assert(cur.last() is Txt);
            }
            segs.pop();
            proof {
                assert(segs_view(segs@) =~= cur.drop_last());
            }
        }
        proof {
            let cur = segs_view(segs@);
            if cur.len() > 0 {
                assert(cur.last() == segs@[segs@.len() - 1]@);
            }
            assert(spec_trim_txt(cur) == cur);
        }
        let ghost s2 = segs_view(segs@);
        // drop one further segment when at least two remain
        if segs.len() > 1 {
            let ghost cur = segs_view(segs@);
            segs.pop();
            proof {
                assert(segs_view(segs@) =~= cur.drop_last());
            }
        }
        let ghost s3 = segs_view(segs@);
        // increment the new last segment, or restart at one
        let last = segs.pop();
        let ghost after_pop = segs_view(segs@);
        let inc: u64 = match last {
            Some(Segment::Numeric(kk)) => if kk == u64::MAX {
                0
            } else {
                kk + 1
            },
            Some(_) => 1,
            None => 1,
        };
        proof {
            if s3.len() > 0 {
                assert(after_pop =~= s3.drop_last());
                assert(last is Some && last->0@ == s3.last());
                assert(inc == spec_inc_seg(s3.last()));
            } else {
                assert(after_pop =~= s3);
            }
        }
        segs.push(Segment::Numeric(inc));
        proof {
            if s3.len() > 0 {
                assert(segs_view(segs@) =~= s3.drop_last().push(SegModel::Num(spec_inc_seg(
                    s3.last(),
                ))));
            } else {
                assert(segs_view(segs@) =~= seq![SegModel::Num(1)]);
            }
        }
        let r = RubyVersion { segments: segs, platform_segment: None };
        proof {
            assert(r@.segs =~= segs_view(r.segments@));
        }
        r
    }
}

} // verus!
