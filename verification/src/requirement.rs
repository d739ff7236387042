//! Requirements: a version set paired with a pre-release admission flag,
//! and the parser for requirement texts such as `">= 1.2, < 2.0"`.
use vstd::prelude::*;
use vstd::string::{StrSliceExecFns, StringExecFns};
use core::cmp::Ordering;
use crate::version::{
    RubyVersion, SegModel, VersionModel, Segment, spec_ver_cmp, spec_is_prerelease, spec_parse,
    spec_bump_segs, segs_wf, spec_bump_fits, lemma_ver_cmp_refl, lemma_ver_cmp_from_antisym,
    lemma_bump_above, lemma_ver_cmp_prefix, lemma_seg_cmp_refl, seg_at, spec_seg_cmp,
};
use crate::ranges::{VersionRange, range_mem, clone_version};
use crate::version::clone_segment;
use crate::text::{spec_split, spec_find, spec_trim, find_char, trim_str, str_eq};

verus! {

/// A requirement: a set of versions and whether pre-releases are admitted.
#[derive(Debug, Clone)]
pub struct RichReq {
    pub range: VersionRange,
    pub allow_pre: bool,
}

/// What `contains` means: a pre-release is only a member when admitted,
/// every other version by range membership alone.
pub open spec fn spec_req_contains(req: &RichReq, v: Seq<SegModel>) -> bool {
    if spec_is_prerelease(v) && !req.allow_pre {
        false
    } else {
        range_mem(req.range@, v)
    }
}

impl RichReq {
    /// The empty requirement: no member at all.
    pub fn empty() -> (r: RichReq)
        ensures
            forall|v: Seq<SegModel>| !range_mem(r.range@, v),
            !r.allow_pre,
    {
        RichReq { range: VersionRange::empty(), allow_pre: false }
    }

    /// The full requirement: every version, pre-releases included.
    pub fn full() -> (r: RichReq)
        ensures
            forall|v: Seq<SegModel>| range_mem(r.range@, v),
            r.allow_pre,
    {
        RichReq { range: VersionRange::full(), allow_pre: true }
    }

    /// Exactly the given version; pre-releases are admitted when the
    /// version itself is one, so that a singleton always holds its
    /// version.
    pub fn singleton(v: RubyVersion) -> (r: RichReq)
        ensures
            forall|w: Seq<SegModel>|
                #[trigger] range_mem(r.range@, w) <==> spec_ver_cmp(w, v@.segs) == Ordering::Equal,
            r.allow_pre == spec_is_prerelease(v@.segs),
            spec_req_contains(&r, v@.segs),
    {
        let pre = v.is_prerelease();
        let range = VersionRange::singleton(v);
        let r = RichReq { range, allow_pre: pre };
        proof {
            lemma_ver_cmp_refl(v@.segs);
        }
        r
    }

    /// The complement of the range; the admission flag is kept.
    pub fn complement(&self) -> (r: RichReq)
        ensures
            forall|v: Seq<SegModel>|
                #[trigger] range_mem(r.range@, v) <==> !range_mem(self.range@, v),
            r.allow_pre == self.allow_pre,
    {
        RichReq { range: self.range.complement(), allow_pre: self.allow_pre }
    }

    /// Intersection; admission composes by conjunction.
    pub fn intersection(&self, other: &RichReq) -> (r: RichReq)
        ensures
            forall|v: Seq<SegModel>|
                #[trigger] range_mem(r.range@, v) <==> (range_mem(self.range@, v) && range_mem(
                    other.range@,
                    v,
                )),
            r.allow_pre == (self.allow_pre && other.allow_pre),
    {
        RichReq {
            range: self.range.intersection(&other.range),
            allow_pre: self.allow_pre && other.allow_pre,
        }
    }

    /// Union; admission composes by disjunction.
    pub fn union(&self, other: &RichReq) -> (r: RichReq)
        ensures
            forall|v: Seq<SegModel>|
                #[trigger] range_mem(r.range@, v) <==> (range_mem(self.range@, v) || range_mem(
                    other.range@,
                    v,
                )),
            r.allow_pre == (self.allow_pre || other.allow_pre),
    {
        RichReq {
            range: self.range.union(&other.range),
            allow_pre: self.allow_pre || other.allow_pre,
        }
    }

    /// Exact membership: a pre-release needs the admission flag.
    pub fn contains(&self, v: &RubyVersion) -> (r: bool)
        ensures
            r == spec_req_contains(self, v@.segs),
    {
        if v.is_prerelease() && !self.allow_pre {
            return false;
        }
        self.range.contains(v)
    }

    /// Disjointness of the ranges, as the underlying sets.
    pub fn is_disjoint(&self, other: &RichReq) -> (r: bool)
        ensures
            r <==> (forall|v: Seq<SegModel>|
                !(range_mem(self.range@, v) && range_mem(other.range@, v))),
    {
        self.range.is_disjoint(&other.range)
    }

    /// Subset of the ranges, as the underlying sets.
    pub fn subset_of(&self, other: &RichReq) -> (r: bool)
        ensures
            r <==> (forall|v: Seq<SegModel>|
                #[trigger] range_mem(self.range@, v) ==> range_mem(other.range@, v)),
    {
        self.range.subset_of(&other.range)
    }

    /// Whether two requirements admit exactly the same versions.
    pub fn equivalent(&self, other: &RichReq) -> (r: bool)
        ensures
            r <==> ((forall|v: Seq<SegModel>|
                #[trigger] range_mem(self.range@, v) <==> range_mem(other.range@, v))
                && self.allow_pre == other.allow_pre),
    {
        self.allow_pre == other.allow_pre && self.range.same_set(&other.range)
    }
}

/// A copy of a requirement with the same members and flag.
pub fn clone_req(r: &RichReq) -> (c: RichReq)
    ensures
        c.range@ == r.range@,
        c.allow_pre == r.allow_pre,
{
    RichReq { range: crate::ranges::clone_range(&r.range), allow_pre: r.allow_pre }
}

/// The resolver refuses a pre-release candidate unless admission was
/// granted: membership of a pre-release implies the flag.
pub proof fn lemma_prerelease_needs_flag(req: &RichReq, v: Seq<SegModel>)
    requires
        spec_req_contains(req, v),
        spec_is_prerelease(v),
    ensures
        req.allow_pre,
{
}

/// A clause operator.
#[derive(Debug, Clone, Copy, PartialEq, Eq)]
pub enum ReqOp {
    Pessimistic,
    Caret,
    Ge,
    Le,
    Gt,
    Lt,
    Ne,
    Exact,
}

pub open spec fn starts1(s: Seq<char>, c: char) -> bool {
    s.len() >= 1 && s[0] == c
}

pub open spec fn starts2(s: Seq<char>, c0: char, c1: char) -> bool {
    s.len() >= 2 && s[0] == c0 && s[1] == c1
}

/// The operator a trimmed clause starts with; `=` is the default.
pub open spec fn spec_clause_op(s: Seq<char>) -> ReqOp {
    if starts2(s, '~', '>') {
        ReqOp::Pessimistic
    } else if starts1(s, '^') {
        ReqOp::Caret
    } else if starts2(s, '>', '=') {
        ReqOp::Ge
    } else if starts2(s, '<', '=') {
        ReqOp::Le
    } else if starts1(s, '>') {
        ReqOp::Gt
    } else if starts1(s, '<') {
        ReqOp::Lt
    } else if starts2(s, '!', '=') {
        ReqOp::Ne
    } else {
        ReqOp::Exact
    }
}

/// The version text of a clause: the operator stripped, then trimmed.
pub open spec fn spec_clause_rest(s: Seq<char>) -> Seq<char> {
    match spec_clause_op(s) {
        ReqOp::Pessimistic => spec_trim(s.skip(2)),
        ReqOp::Ge => spec_trim(s.skip(2)),
        ReqOp::Le => spec_trim(s.skip(2)),
        ReqOp::Ne => spec_trim(s.skip(2)),
        ReqOp::Caret => spec_trim(s.skip(1)),
        ReqOp::Gt => spec_trim(s.skip(1)),
        ReqOp::Lt => spec_trim(s.skip(1)),
        ReqOp::Exact => if starts1(s, '=') {
            spec_trim(s.skip(1))
        } else {
            spec_trim(s)
        },
    }
}

/// The exclusive upper bound of a pessimistic clause: the bump for three
/// or more segments; for fewer, the incremented leading numeric alone.
pub open spec fn spec_pessimistic_upper(m: VersionModel) -> Seq<SegModel> {
    if m.segs.len() > 2 {
        spec_bump_segs(m.segs, m.platform is Some)
    } else if m.segs.len() == 0 {
        Seq::empty()
    } else {
        match m.segs[0] {
            SegModel::Num(k) => seq![
                SegModel::Num(
                    if k == u64::MAX {
                        0
                    } else {
                        (k + 1) as u64
                    },
                ),
            ],
            s => seq![s],
        }
    }
}

/// The exclusive upper bound of a caret clause: the next major, or the
/// next minor when the major is zero.
pub open spec fn spec_caret_upper(m: VersionModel) -> Seq<SegModel> {
    let segs = m.segs;
    if segs.len() >= 1 && (segs[0] matches SegModel::Num(maj) && maj > 0) {
        segs.update(
            0,
            SegModel::Num(
                if segs[0]->Num_0 == u64::MAX {
                    0
                } else {
                    (segs[0]->Num_0 + 1) as u64
                },
            ),
        )
    } else if segs.len() > 1 && segs[1] is Num {
        segs.update(
            1,
            SegModel::Num(
                if segs[1]->Num_0 == u64::MAX {
                    0
                } else {
                    (segs[1]->Num_0 + 1) as u64
                },
            ),
        )
    } else {
        segs
    }
}

/// The versions one clause admits.
pub open spec fn spec_clause_admits(c: Seq<char>, v: Seq<SegModel>) -> bool {
    if c == seq!['*'] {
        true
    } else {
        let m = spec_parse(spec_clause_rest(c));
        let w = m.segs;
        match spec_clause_op(c) {
            ReqOp::Exact => spec_ver_cmp(v, w) == Ordering::Equal,
            ReqOp::Gt => spec_ver_cmp(w, v) == Ordering::Less,
            ReqOp::Ge => spec_ver_cmp(w, v) != Ordering::Greater,
            ReqOp::Lt => spec_ver_cmp(v, w) == Ordering::Less,
            ReqOp::Le => spec_ver_cmp(v, w) != Ordering::Greater,
            ReqOp::Ne => spec_ver_cmp(v, w) == Ordering::Less || spec_ver_cmp(w, v)
                == Ordering::Less,
            ReqOp::Pessimistic => spec_ver_cmp(w, v) != Ordering::Greater && spec_ver_cmp(
                v,
                spec_pessimistic_upper(m),
            ) == Ordering::Less,
            ReqOp::Caret => spec_ver_cmp(w, v) != Ordering::Greater && spec_ver_cmp(
                v,
                spec_caret_upper(m),
            ) == Ordering::Less,
        }
    }
}

/// Whether a clause grants pre-release admission: an `=` clause whose
/// version is a pre-release.
pub open spec fn spec_clause_allows_pre(c: Seq<char>) -> bool {
    c != seq!['*'] && spec_clause_op(c) == ReqOp::Exact && spec_is_prerelease(
        spec_parse(spec_clause_rest(c)).segs,
    )
}

/// The trimmed clauses of a requirement text.
pub open spec fn spec_req_clauses(text: Seq<char>, sep: char) -> Seq<Seq<char>> {
    Seq::new(spec_split(text, sep).len(), |i: int| spec_trim(spec_split(text, sep)[i]))
}

/// A pessimistic clause needs a version with at least one segment.
pub open spec fn spec_clause_ok(c: Seq<char>) -> bool {
    spec_clause_op(c) == ReqOp::Pessimistic ==> spec_parse(spec_clause_rest(c)).segs.len() > 0
}

pub open spec fn spec_req_ok(text: Seq<char>, sep: char) -> bool {
    spec_trim(text) == seq!['*'] || forall|i: int|
        0 <= i < spec_req_clauses(text, sep).len() ==> spec_clause_ok(
            #[trigger] spec_req_clauses(text, sep)[i],
        )
}

/// The admission flag a requirement text yields: some `=` clause names
/// a pre-release. The bare text `*` has no clause at all, so it grants
/// no admission.
pub open spec fn spec_req_allow_pre(text: Seq<char>, sep: char) -> bool {
    if spec_trim(text) == seq!['*'] {
        false
    } else {
        exists|i: int|
            0 <= i < spec_req_clauses(text, sep).len() && spec_clause_allows_pre(
                #[trigger] spec_req_clauses(text, sep)[i],
            )
    }
}

/// The versions a requirement text admits: all its clauses at once.
pub open spec fn spec_req_admits(text: Seq<char>, sep: char, v: Seq<SegModel>) -> bool {
    spec_trim(text) == seq!['*'] || forall|i: int|
        0 <= i < spec_req_clauses(text, sep).len() ==> spec_clause_admits(
            #[trigger] spec_req_clauses(text, sep)[i],
            v,
        )
}

/// Split a requirement text on its separator and trim each clause.
fn split_clauses(text: &str, sep: char) -> (r: Vec<String>)
    ensures
        r@.len() == spec_req_clauses(text@, sep).len(),
        forall|i: int| 0 <= i < r@.len() ==> #[trigger] r@[i]@ == spec_req_clauses(text@, sep)[i],
{
    let len = text.unicode_len();
    let mut out: Vec<String> = Vec::new();
    let mut start: usize = 0;
    proof {
        assert(text@.skip(0) =~= text@);
    }
    loop
        invariant_except_break
            spec_split(text@, sep) =~= spec_split(text@, sep).take(out@.len() as int) + spec_split(
                text@.skip(start as int),
                sep,
            ),
        invariant
            start <= len,
            len == text@.len(),
            out@.len() <= spec_split(text@, sep).len(),
            forall|i: int|
                0 <= i < out@.len() ==> #[trigger] out@[i]@ == spec_trim(
                    spec_split(text@, sep)[i],
                ),
        ensures
            out@.len() == spec_split(text@, sep).len(),
            forall|i: int|
                0 <= i < out@.len() ==> #[trigger] out@[i]@ == spec_trim(
                    spec_split(text@, sep)[i],
                ),
        decreases len - start,
    {
        let ghost whole = spec_split(text@, sep);
        let ghost done = out@.len() as int;
        let ghost rest = text@.skip(start as int);
        let cut = find_char(text, start, sep);
        let part = text.substring_char(start, cut);
        proof {
            assert(spec_find(rest, sep) == cut - start);
            assert(part@ =~= rest.take(cut - start));
            if cut == len {
                assert(part@ =~= rest);
                assert(spec_split(rest, sep) == seq![rest]);
            } else {
                assert(spec_split(rest, sep) == seq![rest.take(cut - start)] + spec_split(
                    rest.skip(cut - start + 1),
                    sep,
                ));
                assert(rest.skip(cut - start + 1) =~= text@.skip(cut + 1));
            }
            assert(whole[done] == part@) by {
                assert(whole == whole.take(done) + spec_split(rest, sep));
                assert(spec_split(rest, sep)[0] == part@);
                assert((whole.take(done) + spec_split(rest, sep))[done] == spec_split(
                    rest,
                    sep,
                )[0]);
            }
        }
        let trimmed = trim_str(part);
        let owned = trimmed.to_owned();
        out.push(owned);
        if cut == len {
            proof {
                assert(spec_split(rest, sep).len() == 1);
                assert(out@.len() == whole.len()) by {
                    assert(whole.len() == done + 1);
                }
            }
            break;
        }
        proof {
            assert(whole =~= whole.take(done + 1) + spec_split(text@.skip(cut + 1), sep)) by {
                assert(whole == whole.take(done) + (seq![part@] + spec_split(
                    text@.skip(cut + 1),
                    sep,
                )));
                assert(whole.take(done + 1) =~= whole.take(done) + seq![part@]);
            }
        }
        start = cut + 1;
    }
    out
}

/// Whether a requirement text can be parsed: every pessimistic clause
/// names a version with at least one segment.
pub fn req_text_ok(text: &str, separator: &str) -> (r: bool)
    requires
        separator@.len() == 1,
    ensures
        r == spec_req_ok(text@, separator@[0]),
{
    let sep = separator.get_char(0);
    let whole = trim_str(text);
    proof {
        reveal_strlit("*");
        assert("*"@ =~= seq!['*']);
    }
    if str_eq(whole, "*") {
        return true;
    }
    proof {
        assert(whole@ != "*"@);
        assert(whole@ == spec_trim(text@));
        assert(spec_trim(text@) != seq!['*']);
    }
    let clauses = split_clauses(text, sep);
    let n = clauses.len();
    let mut i: usize = 0;
    while i < n
        invariant
            i <= n,
            n == clauses@.len(),
            sep == separator@[0],
            spec_trim(text@) != seq!['*'],
            n == spec_req_clauses(text@, sep).len(),
            forall|x: int|
                0 <= x < n ==> #[trigger] clauses@[x]@ == spec_req_clauses(text@, sep)[x],
            forall|x: int| 0 <= x < i ==> spec_clause_ok(#[trigger] spec_req_clauses(text@, sep)[x]),
        decreases n - i,
    {
        let c = &clauses[i];
        let clen = c.as_str().unicode_len();
        let is_pessimistic = if clen >= 2 {
            let c0 = c.as_str().get_char(0);
            let c1 = c.as_str().get_char(1);
            c0 == '~' && c1 == '>'
        } else {
            false
        };
        if is_pessimistic {
            let rest = trim_str(c.as_str().substring_char(2, clen));
            proof {
                assert(rest@ == spec_clause_rest(clauses@[i as int]@));
            }
            let rv = RubyVersion::parse(rest);
            if rv.segments.len() == 0 {
                proof {
                    assert(rv@.segs.len() == 0);
                    assert(spec_clause_op(spec_req_clauses(text@, sep)[i as int])
                        == ReqOp::Pessimistic);
                    assert(!spec_clause_ok(spec_req_clauses(text@, sep)[i as int]));
                    assert(spec_trim(text@) != seq!['*']);
                    assert(!spec_req_ok(text@, sep));
                }
                return false;
            }
        }
        proof {
            assert(spec_clause_ok(spec_req_clauses(text@, sep)[i as int]));
        }
        i = i + 1;
    }
    true
}

/// A comparison clause against its own reference version: the version a
/// clause names is admitted by `=`, `>=` and `<=` clauses, and rejected
/// by `>`, `<` and `!=` clauses.
pub proof fn lemma_clause_reference(c: Seq<char>)
    requires
        c != seq!['*'],
    ensures
        ({
            let v = spec_parse(spec_clause_rest(c)).segs;
            &&& spec_clause_op(c) == ReqOp::Exact ==> spec_clause_admits(c, v)
            &&& spec_clause_op(c) == ReqOp::Ge ==> spec_clause_admits(c, v)
            &&& spec_clause_op(c) == ReqOp::Le ==> spec_clause_admits(c, v)
            &&& spec_clause_op(c) == ReqOp::Gt ==> !spec_clause_admits(c, v)
            &&& spec_clause_op(c) == ReqOp::Lt ==> !spec_clause_admits(c, v)
            &&& spec_clause_op(c) == ReqOp::Ne ==> !spec_clause_admits(c, v)
        }),
{
    let v = spec_parse(spec_clause_rest(c)).segs;
    lemma_ver_cmp_refl(v);
}

/// A pessimistic clause admits its reference version and rejects the
/// bumped bound above it. The reference must have at least one segment,
/// a numeric leading segment when it has at most two, and an increment
/// that does not wrap around the numeric limit; a reference such as a
/// bare textual version falls outside the law.
pub proof fn lemma_pessimistic_reference(c: Seq<char>)
    requires
        spec_clause_op(c) == ReqOp::Pessimistic,
        segs_wf(spec_parse(spec_clause_rest(c)).segs),
        spec_parse(spec_clause_rest(c)).segs.len() > 0,
        ({
            let m = spec_parse(spec_clause_rest(c));
            if m.segs.len() > 2 {
                spec_bump_fits(m.segs, m.platform is Some)
            } else {
                m.segs[0] matches SegModel::Num(k) && k < u64::MAX
            }
        }),
    ensures
        spec_clause_admits(c, spec_parse(spec_clause_rest(c)).segs),
        !spec_clause_admits(c, spec_pessimistic_upper(spec_parse(spec_clause_rest(c)))),
{
    let m = spec_parse(spec_clause_rest(c));
    let v = m.segs;
    let up = spec_pessimistic_upper(m);
    lemma_ver_cmp_refl(v);
    lemma_ver_cmp_refl(up);
    if v.len() > 2 {
        lemma_bump_above(v, m.platform is Some);
    } else {
        assert(spec_seg_cmp(seg_at(v, 0), seg_at(up, 0)) == Ordering::Less);
    }
}

/// A text without its separator is a single clause: the requirement
/// admits exactly what that clause admits, and grants admission exactly
/// when that clause does. Together with the clause laws this carries the
/// per-operator facts to whole requirement texts.
pub proof fn lemma_single_clause_text(text: Seq<char>, sep: char)
    requires
        forall|i: int| 0 <= i < text.len() ==> #[trigger] text[i] != sep,
        spec_trim(text) != seq!['*'],
    ensures
        spec_req_clauses(text, sep) == seq![spec_trim(text)],
        forall|v: Seq<SegModel>|
            #[trigger] spec_req_admits(text, sep, v) == spec_clause_admits(spec_trim(text), v),
        spec_req_allow_pre(text, sep) == spec_clause_allows_pre(spec_trim(text)),
{
    crate::text::lemma_spec_find(text, sep);
    if spec_find(text, sep) < text.len() {
        assert(text[spec_find(text, sep)] == sep);
        assert(false);
    }
    assert(spec_split(text, sep) == seq![text]);
    assert(seq![text][0] == text);
    let cls = spec_req_clauses(text, sep);
    assert(cls =~= seq![spec_trim(text)]);
    assert forall|v: Seq<SegModel>|
        #[trigger] spec_req_admits(text, sep, v) == spec_clause_admits(spec_trim(text), v) by {
        if spec_clause_admits(spec_trim(text), v) {
            assert forall|i: int| 0 <= i < cls.len() implies spec_clause_admits(
                #[trigger] cls[i],
                v,
            ) by {
                assert(cls[i] == spec_trim(text));
            }
        }
        if spec_req_admits(text, sep, v) {
            assert(spec_clause_admits(cls[0], v));
        }
    }
    if spec_clause_allows_pre(spec_trim(text)) {
        assert(spec_clause_allows_pre(cls[0]));
    }
    if spec_req_allow_pre(text, sep) {
        let i = choose|i: int| 0 <= i < cls.len() && spec_clause_allows_pre(#[trigger] cls[i]);
        assert(cls[i] == spec_trim(text));
    }
}

/// Parse a requirement text: split on the separator, read one operator
/// and version per clause, and intersect the clause ranges. The second
/// result holds the trimmed clause texts verbatim, for the lockfile.
/// Pre-releases are admitted exactly when some `=` clause names one; the
/// bare text `*` yields the full range, no admission and no clause
/// strings.
pub fn parse_req(text: &str, separator: &str) -> (r: (RichReq, Vec<String>))
    requires
        separator@.len() == 1,
        spec_req_ok(text@, separator@[0]),
    ensures
        r.0.allow_pre == spec_req_allow_pre(text@, separator@[0]),
        forall|v: Seq<SegModel>|
            #[trigger] range_mem(r.0.range@, v) == spec_req_admits(text@, separator@[0], v),
        spec_trim(text@) == seq!['*'] ==> r.1@.len() == 0,
        spec_trim(text@) != seq!['*'] ==> r.1@.len() == spec_req_clauses(
            text@,
            separator@[0],
        ).len() && forall|i: int|
            0 <= i < r.1@.len() ==> #[trigger] r.1@[i]@ == spec_req_clauses(
                text@,
                separator@[0],
            )[i],
{
    let sep = separator.get_char(0);
    let whole = trim_str(text);
    proof {
        reveal_strlit("*");
        assert("*"@ =~= seq!['*']);
    }
    if str_eq(whole, "*") {
        return (RichReq { range: VersionRange::full(), allow_pre: false }, Vec::new());
    }
    let clauses = split_clauses(text, sep);
    let ghost cls = spec_req_clauses(text@, sep);
    let n = clauses.len();
    let mut range = VersionRange::full();
    let mut allow: bool = false;
    let mut i: usize = 0;
    while i < n
        invariant
            i <= n,
            n == clauses@.len(),
            sep == separator@[0],
            spec_trim(text@) != seq!['*'],
            spec_req_ok(text@, sep),
            cls == spec_req_clauses(text@, sep),
            n == cls.len(),
            forall|x: int| 0 <= x < n ==> #[trigger] clauses@[x]@ == cls[x],
            allow == (exists|x: int| 0 <= x < i && spec_clause_allows_pre(#[trigger] cls[x])),
            forall|v: Seq<SegModel>|
                #[trigger] range_mem(range@, v) <==> (forall|x: int|
                    0 <= x < i ==> #[trigger] spec_clause_admits(cls[x], v)),
        decreases n - i,
    {
        let ghost cc = cls[i as int];
        let c = &clauses[i];
        proof {
            assert(c@ == cc);
            reveal_strlit("*");
            assert("*"@ =~= seq!['*']);
        }
        if str_eq(c.as_str(), "*") {
            proof {
                assert(cc == seq!['*']);
                assert(!spec_clause_allows_pre(cc));
                assert forall|v: Seq<SegModel>|
                    #[trigger] range_mem(range@, v) <==> (forall|x: int|
                        0 <= x < i + 1 ==> #[trigger] spec_clause_admits(cls[x], v)) by {
                    assert(spec_clause_admits(cls[i as int], v));
                    if range_mem(range@, v) {
                        assert forall|x: int|
                            0 <= x < i + 1 implies #[trigger] spec_clause_admits(cls[x], v) by {}
                    }
                }
            }
        } else {
            let clen = c.as_str().unicode_len();
            let c0: char = if clen >= 1 {
                c.as_str().get_char(0)
            } else {
                ' '
            };
            let c1: char = if clen >= 2 {
                c.as_str().get_char(1)
            } else {
                ' '
            };
            let op: ReqOp;
            let skip: usize;
            if clen >= 2 && c0 == '~' && c1 == '>' {
                op = ReqOp::Pessimistic;
                skip = 2;
            } else if clen >= 1 && c0 == '^' {
                op = ReqOp::Caret;
                skip = 1;
            } else if clen >= 2 && c0 == '>' && c1 == '=' {
                op = ReqOp::Ge;
                skip = 2;
            } else if clen >= 2 && c0 == '<' && c1 == '=' {
                op = ReqOp::Le;
                skip = 2;
            } else if clen >= 1 && c0 == '>' {
                op = ReqOp::Gt;
                skip = 1;
            } else if clen >= 1 && c0 == '<' {
                op = ReqOp::Lt;
                skip = 1;
            } else if clen >= 2 && c0 == '!' && c1 == '=' {
                op = ReqOp::Ne;
                skip = 2;
            } else if clen >= 1 && c0 == '=' {
                op = ReqOp::Exact;
                skip = 1;
            } else {
                op = ReqOp::Exact;
                skip = 0;
            }
            proof {
                assert(op == spec_clause_op(cc));
            }
            let tail = c.as_str().substring_char(skip, clen);
            proof {
                assert(tail@ =~= cc.skip(skip as int));
                if skip == 0 {
                    assert(cc.skip(0) =~= cc);
                }
            }
            let rest = trim_str(tail);
            proof {
                assert(rest@ == spec_clause_rest(cc));
            }
            let rv = RubyVersion::parse(rest);
            let ghost m = spec_parse(rest@);
            let pre = rv.is_prerelease();
            proof {
                assert(rv@ == m);
                assert(spec_clause_allows_pre(cc) == (op == ReqOp::Exact && pre));
            }
            let rng: VersionRange = match op {
                ReqOp::Exact => VersionRange::singleton(rv),
                ReqOp::Gt => VersionRange::strictly_higher_than(rv),
                ReqOp::Ge => VersionRange::higher_than(rv),
                ReqOp::Lt => VersionRange::strictly_lower_than(rv),
                ReqOp::Le => VersionRange::lower_than(rv),
                ReqOp::Ne => {
                    let below = VersionRange::strictly_lower_than(clone_version(&rv));
                    let above = VersionRange::strictly_higher_than(rv);
                    below.union(&above)
                },
                ReqOp::Pessimistic => {
                    proof {
                        assert(spec_clause_ok(cc));
                        assert(rv@.segs.len() > 0);
                    }
                    if rv.segments.len() > 2 {
                        let up = rv.bump();
                        proof {
                            assert(up@.segs == spec_pessimistic_upper(m));
                        }
                        VersionRange::between(rv, up)
                    } else {
                        let first: Option<u64> = match &rv.segments[0] {
                            Segment::Numeric(k) => Some(*k),
                            _ => None,
                        };
                        let up_seg: Segment = match first {
                            Some(k) => Segment::Numeric(
                                if k == u64::MAX {
                                    0
                                } else {
                                    k + 1
                                },
                            ),
                            None => clone_segment(&rv.segments[0]),
                        };
                        let mut up_segments: Vec<Segment> = Vec::new();
                        up_segments.push(up_seg);
                        let up = RubyVersion { segments: up_segments, platform_segment: None };
                        proof {
                            assert(up@.segs =~= spec_pessimistic_upper(m));
                        }
                        VersionRange::between(rv, up)
                    }
                },
                ReqOp::Caret => {
                    let mut up = clone_version(&rv);
                    let ulen = up.segments.len();
                    let first: Option<u64> = if ulen >= 1 {
                        match &up.segments[0] {
                            Segment::Numeric(k) => Some(*k),
                            _ => None,
                        }
                    } else {
                        None
                    };
                    if first.is_some() && first.unwrap() > 0 {
                        let k = first.unwrap();
                        up.segments.set(
                            0,
                            Segment::Numeric(
                                if k == u64::MAX {
                                    0
                                } else {
                                    k + 1
                                },
                            ),
                        );
                        proof {
                            assert(up@.segs =~= spec_caret_upper(m));
                        }
                    } else if ulen > 1 {
                        let second: Option<u64> = match &up.segments[1] {
                            Segment::Numeric(k) => Some(*k),
                            _ => None,
                        };
                        match second {
                            Some(k) => {
                                up.segments.set(
                                    1,
                                    Segment::Numeric(
                                        if k == u64::MAX {
                                            0
                                        } else {
                                            k + 1
                                        },
                                    ),
                                );
                                proof {
                                    assert(up@.segs =~= spec_caret_upper(m));
                                }
                            },
                            None => {
                                proof {
                                    assert(up@.segs =~= spec_caret_upper(m));
                                }
                            },
                        }
                    } else {
                        proof {
                            assert(up@.segs =~= spec_caret_upper(m));
                        }
                    }
                    let at_least = VersionRange::higher_than(clone_version(&rv));
                    let strictly_under = VersionRange::strictly_lower_than(up);
                    at_least.intersection(&strictly_under)
                },
            };
            proof {
                assert forall|v: Seq<SegModel>|
                    #[trigger] range_mem(rng@, v) <==> spec_clause_admits(cc, v) by {}
            }
            if matches!(op, ReqOp::Exact) && pre {
                allow = true;
            }
            proof {
                assert(allow == (exists|x: int|
                    0 <= x < i + 1 && spec_clause_allows_pre(#[trigger] cls[x]))) by {
                    if allow {
                        if spec_clause_allows_pre(cls[i as int]) {
                        } else {
                            let x = choose|x: int| 0 <= x < i && spec_clause_allows_pre(
                                #[trigger] cls[x],
                            );
                        }
                    }
                }
            }
            let narrowed = range.intersection(&rng);
            range = narrowed;
            proof {
                assert forall|v: Seq<SegModel>|
                    #[trigger] range_mem(range@, v) <==> (forall|x: int|
                        0 <= x < i + 1 ==> #[trigger] spec_clause_admits(cls[x], v)) by {
                    if range_mem(range@, v) {
                        assert forall|x: int|
                            0 <= x < i + 1 implies #[trigger] spec_clause_admits(cls[x], v) by {
                            if x == i {
                                assert(range_mem(rng@, v));
                            }
                        }
                    }
                    if forall|x: int| 0 <= x < i + 1 ==> #[trigger] spec_clause_admits(cls[x], v) {
                        assert(spec_clause_admits(cls[i as int], v));
                    }
                }
            }
        }
        i = i + 1;
    }
    let req = RichReq { range, allow_pre: allow };
    proof {
        assert forall|v: Seq<SegModel>|
            #[trigger] range_mem(req.range@, v) == spec_req_admits(text@, sep, v) by {}
    }
    (req, clauses)
}

} // verus!
