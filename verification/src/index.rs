//! The compact-index client's logic: the cache update protocol over
//! ETag and Range, the wire-format parsers for the `/versions` and
//! `/info/<name>` endpoints, the cache directory slug, and the
//! bookkeeping of the concurrent discovery walk.
//!
//! Everything here computes over plain values; the HTTP requests and the
//! file reads and writes around it live outside the library and hand
//! bytes in and out.
use vstd::prelude::*;
use vstd::string::{StrSliceExecFns, StringExecFns, StringSliceAdditionalSpecFns};
use md5::Digest;
use crate::text::{
    spec_split, spec_find, spec_trim, spec_is_space, spec_u64_string, find_char, trim_str,
    is_space, append_u64, push_char, str_eq,
};
use crate::version::{RubyVersion, VersionModel, spec_parse};
use crate::requirement::{
    RichReq, parse_req, req_text_ok, spec_req_ok, spec_req_clauses, spec_req_allow_pre,
    spec_req_admits,
};
use crate::ranges::range_mem;
use crate::version::SegModel;

verus! {

/// The error taxonomy of the index client.
#[derive(Debug)]
pub enum CompactIndexError {
    Io(String),
    Http(String),
    ChecksumMismatch { expected: String, actual: String },
    UrlParse(String),
    Other(String),
}

/// One release of a package, as an info file line describes it.
#[derive(Debug, Clone)]
pub struct GemVersion {
    pub name: String,
    pub version: RubyVersion,
    pub checksum: Option<String>,
    pub dependencies: Vec<GemDependency>,
}

/// One dependency of a release.
#[derive(Debug, Clone)]
pub struct GemDependency {
    pub name: String,
    pub requirement: RichReq,
    pub requirement_str: Vec<String>,
}

/// What a cache update does to the cached file.
pub enum CacheAction {
    NotModified,
    EmptyIndex,
    Replace(Vec<u8>),
    Append(Vec<u8>),
}

/// Whether a body is the bare index header `---` with nothing after it.
pub open spec fn spec_empty_marker(b: Seq<u8>) -> bool {
    b == seq![45u8, 45u8, 45u8] || b == seq![45u8, 45u8, 45u8, 10u8] || b == seq![
        45u8,
        45u8,
        45u8,
        13u8,
        10u8,
    ]
}

fn bytes_eq3(b: &Vec<u8>, x0: u8, x1: u8, x2: u8) -> (r: bool)
    ensures
        r == (b@ == seq![x0, x1, x2]),
{
    let r = b.len() == 3 && b[0] == x0 && b[1] == x1 && b[2] == x2;
    proof {
        if r {
            assert(b@ =~= seq![x0, x1, x2]);
        }
    }
    r
}

fn bytes_eq4(b: &Vec<u8>, x0: u8, x1: u8, x2: u8, x3: u8) -> (r: bool)
    ensures
        r == (b@ == seq![x0, x1, x2, x3]),
{
    let r = b.len() == 4 && b[0] == x0 && b[1] == x1 && b[2] == x2 && b[3] == x3;
    proof {
        if r {
            assert(b@ =~= seq![x0, x1, x2, x3]);
        }
    }
    r
}

fn bytes_eq5(b: &Vec<u8>, x0: u8, x1: u8, x2: u8, x3: u8, x4: u8) -> (r: bool)
    ensures
        r == (b@ == seq![x0, x1, x2, x3, x4]),
{
    let r = b.len() == 5 && b[0] == x0 && b[1] == x1 && b[2] == x2 && b[3] == x3 && b[4] == x4;
    proof {
        if r {
            assert(b@ =~= seq![x0, x1, x2, x3, x4]);
        }
    }
    r
}

/// The `Range` header for an update: one byte before the recorded
/// length, so the server re-sends an anchor byte.
pub fn plan_range_header(recorded_len: u64) -> (r: Option<String>)
    ensures
        recorded_len == 0 ==> r is None,
        recorded_len > 0 ==> (r matches Some(h) && h@ == "bytes="@ + spec_u64_string(
            (recorded_len - 1) as u64,
        ) + "-"@),
{
    if recorded_len == 0 {
        return None;
    }
    let mut h = String::from_str("bytes=");
    append_u64(&mut h, recorded_len - 1);
    h.append("-");
    Some(h)
}

/// Decide what a response does to the cached file. `304` leaves it
/// alone; a partial response appends its body after dropping the anchor
/// byte; a fresh body that is only the `---` header materializes
/// nothing; any other successful body replaces the file; anything else
/// is a network error carrying status and URL.
pub fn apply_response(status: u16, body: &Vec<u8>, cached_exists: bool, url: &str) -> (r: Result<
    CacheAction,
    CompactIndexError,
>)
    requires
        status == 206 && cached_exists ==> body@.len() >= 1,
    ensures
        status == 304 ==> r matches Ok(CacheAction::NotModified),
        status == 206 && cached_exists ==> (r matches Ok(CacheAction::Append(t)) && t@
            == body@.skip(1)),
        200 <= status <= 299 && !(status == 206 && cached_exists) ==> (if spec_empty_marker(body@) {
            r matches Ok(CacheAction::EmptyIndex)
        } else {
            r matches Ok(CacheAction::Replace(b)) && b@ == body@
        }),
        !(200 <= status <= 299) && status != 304 ==> (r matches Err(CompactIndexError::Other(m))
            && m@ == "HTTP error: "@ + spec_u64_string(status as u64) + " for URL: "@ + url@),
{
    if status == 304 {
        return Ok(CacheAction::NotModified);
    }
    if 200 <= status && status <= 299 {
        if status == 206 && cached_exists {
            let n = body.len();
            let mut tail: Vec<u8> = Vec::new();
            let mut i: usize = 1;
            while i < n
                invariant
                    1 <= i <= n,
                    n == body@.len(),
                    tail@ =~= body@.subrange(1, i as int),
                decreases n - i,
            {
                tail.push(body[i]);
                i = i + 1;
            }
            proof {
                assert(tail@ =~= body@.skip(1));
            }
            return Ok(CacheAction::Append(tail));
        }
        let dash = 45u8;
        if bytes_eq3(body, dash, dash, dash) || bytes_eq4(body, dash, dash, dash, 10) || bytes_eq5(
            body,
            dash,
            dash,
            dash,
            13,
            10,
        ) {
            return Ok(CacheAction::EmptyIndex);
        }
        let n = body.len();
        let mut copy: Vec<u8> = Vec::new();
        let mut i: usize = 0;
        while i < n
            invariant
                i <= n,
                n == body@.len(),
                copy@ =~= body@.subrange(0, i as int),
            decreases n - i,
        {
            copy.push(body[i]);
            i = i + 1;
        }
        proof {
            assert(copy@ =~= body@);
        }
        return Ok(CacheAction::Replace(copy));
    }
    let mut msg = String::from_str("HTTP error: ");
    append_u64(&mut msg, status as u64);
    msg.append(" for URL: ");
    msg.append(url);
    proof {
        assert(msg@ =~= "HTTP error: "@ + spec_u64_string(status as u64) + " for URL: "@ + url@);
    }
    Err(CompactIndexError::Other(msg))
}

/// A line with its trailing carriage return removed.
pub open spec fn spec_strip_cr(l: Seq<char>) -> Seq<char> {
    if l.len() > 0 && l.last() == '\r' {
        l.drop_last()
    } else {
        l
    }
}

/// The lines of a text: pieces between newlines, any trailing carriage
/// return removed, and no phantom line after a final newline.
pub open spec fn spec_lines(text: Seq<char>) -> Seq<Seq<char>> {
    let raw = spec_split(text, '\n');
    let cut = if raw.len() > 0 && raw.last().len() == 0 {
        raw.drop_last()
    } else {
        raw
    };
    Seq::new(cut.len(), |i: int| spec_strip_cr(cut[i]))
}

/// Split a text into its lines.
pub fn split_lines(text: &str) -> (r: Vec<String>)
    ensures
        r@.len() == spec_lines(text@).len(),
        forall|i: int| 0 <= i < r@.len() ==> #[trigger] r@[i]@ == spec_lines(text@)[i],
{
    let len = text.unicode_len();
    let mut out: Vec<String> = Vec::new();
    let mut start: usize = 0;
    let ghost raw = spec_split(text@, '\n');
    proof {
        assert(text@.skip(0) =~= text@);
    }
    loop
        invariant_except_break
            raw =~= raw.take(out@.len() as int) + spec_split(text@.skip(start as int), '\n'),
        invariant
            start <= len,
            len == text@.len(),
            raw == spec_split(text@, '\n'),
            out@.len() <= raw.len(),
            forall|i: int|
                0 <= i < out@.len() ==> #[trigger] out@[i]@ == spec_strip_cr(raw[i]),
        ensures
            out@.len() == spec_lines(text@).len(),
            forall|i: int|
                0 <= i < out@.len() ==> #[trigger] out@[i]@ == spec_lines(text@)[i],
        decreases len - start,
    {
        let ghost done = out@.len() as int;
        let ghost rest = text@.skip(start as int);
        let cut = find_char(text, start, '\n');
        let ghost piece = rest.take(cut - start);
        proof {
            assert(spec_find(rest, '\n') == cut - start);
            if cut == len {
                assert(piece =~= rest);
                assert(spec_split(rest, '\n') == seq![rest]);
            } else {
                assert(spec_split(rest, '\n') == seq![piece] + spec_split(
                    rest.skip(cut - start + 1),
                    '\n',
                ));
                assert(rest.skip(cut - start + 1) =~= text@.skip(cut + 1));
            }
            assert(raw[done] == piece) by {
                assert(raw == raw.take(done) + spec_split(rest, '\n'));
                assert(spec_split(rest, '\n')[0] == piece);
                assert((raw.take(done) + spec_split(rest, '\n'))[done] == spec_split(
                    rest,
                    '\n',
                )[0]);
            }
        }
        if cut == len {
            // drop a final empty piece: the text ended with a newline
            if cut > start {
                let mut part_end = cut;
                let last_c = text.get_char(cut - 1);
                if last_c == '\r' {
                    part_end = cut - 1;
                }
                let part = text.substring_char(start, part_end);
                let owned = part.to_owned();
                out.push(owned);
                proof {
                    assert(part@ =~= spec_strip_cr(piece));
                }
            } else {
                proof {
                    assert(piece.len() == 0);
                }
            }
            proof {
                assert(raw.len() == done + 1);
                assert(raw.last() == piece);
                if piece.len() == 0 {
                    assert(spec_lines(text@) =~= Seq::new(
                        raw.drop_last().len(),
                        |i: int| spec_strip_cr(raw.drop_last()[i]),
                    ));
                    assert forall|i: int|
                        0 <= i < out@.len() implies #[trigger] out@[i]@ == spec_lines(
                        text@,
                    )[i] by {
                        assert(raw.drop_last()[i] == raw[i]);
                    }
                } else {
                    assert(spec_lines(text@) =~= Seq::new(
                        raw.len(),
                        |i: int| spec_strip_cr(raw[i]),
                    ));
                }
            }
            break;
        }
        let mut part_end = cut;
        if cut > start {
            let last_c = text.get_char(cut - 1);
            if last_c == '\r' {
                part_end = cut - 1;
            }
        }
        let part = text.substring_char(start, part_end);
        let owned = part.to_owned();
        out.push(owned);
        proof {
            assert(part@ =~= spec_strip_cr(piece));
            assert(raw =~= raw.take(done + 1) + spec_split(text@.skip(cut + 1), '\n')) by {
                assert(raw == raw.take(done) + (seq![piece] + spec_split(
                    text@.skip(cut + 1),
                    '\n',
                )));
                assert(raw.take(done + 1) =~= raw.take(done) + seq![piece]);
            }
        }
        start = cut + 1;
    }
    out
}

/// Length of the leading run of non-whitespace.
pub open spec fn spec_token_run(s: Seq<char>) -> nat
    decreases s.len(),
{
    if s.len() == 0 {
        0
    } else if spec_is_space(s[0]) {
        0
    } else {
        1 + spec_token_run(s.skip(1))
    }
}

proof fn lemma_spec_token_run(s: Seq<char>)
    ensures
        0 <= spec_token_run(s) <= s.len(),
        forall|j: int| 0 <= j < spec_token_run(s) ==> !spec_is_space(#[trigger] s[j]),
        spec_token_run(s) < s.len() ==> spec_is_space(s[spec_token_run(s) as int]),
    decreases s.len(),
{
    if s.len() > 0 && !spec_is_space(s[0]) {
        lemma_spec_token_run(s.skip(1));
        assert forall|j: int| 0 <= j < spec_token_run(s) implies !spec_is_space(
            #[trigger] s[j],
        ) by {
            if j > 0 {
                assert(s.skip(1)[j - 1] == s[j]);
            }
        }
        if spec_token_run(s) < s.len() {
            assert(s.skip(1)[spec_token_run(s) - 1] == s[spec_token_run(s) as int]);
        }
    }
}

/// The whitespace-separated tokens of a line.
pub open spec fn spec_tokens(s: Seq<char>) -> Seq<Seq<char>>
    decreases s.len(),
{
    if s.len() == 0 {
        Seq::empty()
    } else if spec_is_space(s[0]) {
        spec_tokens(s.skip(1))
    } else {
        let k0 = spec_token_run(s) as int;
        let k = if 1 <= k0 <= s.len() {
            k0
        } else {
            1
        };
        seq![s.take(k)] + spec_tokens(s.skip(k))
    }
}

/// Split a line into whitespace-separated tokens.
pub fn tokens(line: &str) -> (r: Vec<String>)
    ensures
        r@.len() == spec_tokens(line@).len(),
        forall|i: int| 0 <= i < r@.len() ==> #[trigger] r@[i]@ == spec_tokens(line@)[i],
{
    let len = line.unicode_len();
    let mut out: Vec<String> = Vec::new();
    let mut pos: usize = 0;
    proof {
        assert(line@.skip(0) =~= line@);
    }
    while pos < len
        invariant
            pos <= len,
            len == line@.len(),
            spec_tokens(line@) =~= out@.map_values(|s: String| s@) + spec_tokens(
                line@.skip(pos as int),
            ),
        decreases len - pos,
    {
        let ghost rest = line@.skip(pos as int);
        let c = line.get_char(pos);
        proof {
            assert(rest[0] == line@[pos as int]);
        }
        if is_space(c) {
            proof {
                assert(rest.skip(1) =~= line@.skip(pos + 1));
            }
            pos = pos + 1;
        } else {
            proof {
                lemma_spec_token_run(rest);
            }
            // scan to the end of the token
            let mut end: usize = pos;
            while end < len
                invariant
                    pos <= end <= len,
                    len == line@.len(),
                    rest == line@.skip(pos as int),
                    spec_token_run(rest) == (end - pos) + spec_token_run(line@.skip(end as int)),
                    forall|j: int| pos <= j < end ==> !spec_is_space(#[trigger] line@[j]),
                ensures
                    pos <= end <= len,
                    end - pos == spec_token_run(rest),
                decreases len - end,
            {
                let ec = line.get_char(end);
                proof {
                    assert(line@.skip(end as int)[0] == line@[end as int]);
                    assert(line@.skip(end as int).skip(1) =~= line@.skip(end + 1));
                }
                if is_space(ec) {
                    break;
                }
                end = end + 1;
            }
            proof {
                if end == len {
                    assert(line@.skip(end as int).len() == 0);
                }
            }
            let tok = line.substring_char(pos, end);
            let owned = tok.to_owned();
            let ghost before = out@;
            out.push(owned);
            proof {
                let k = spec_token_run(rest) as int;
                assert(1 <= k <= rest.len());
                assert(tok@ =~= rest.take(k));
                assert(rest.skip(k) =~= line@.skip(end as int));
                assert(out@.map_values(|s: String| s@) =~= before.map_values(|s: String| s@)
                    + seq![rest.take(k)]);
                assert(before.map_values(|s: String| s@) + (seq![rest.take(k)] + spec_tokens(
                    rest.skip(k),
                )) =~= (before.map_values(|s: String| s@) + seq![rest.take(k)]) + spec_tokens(
                    rest.skip(k),
                ));
            }
            pos = end;
        }
    }
    proof {
        assert(spec_tokens(line@.skip(pos as int)) =~= Seq::<Seq<char>>::empty());
        assert(spec_tokens(line@) =~= out@.map_values(|s: String| s@));
        assert forall|i: int| 0 <= i < out@.len() implies #[trigger] out@[i]@ == spec_tokens(
            line@,
        )[i] by {
            assert(out@.map_values(|s: String| s@)[i] == out@[i]@);
        }
    }
    out
}

/// Whether a name occurs in a list of names.
pub open spec fn seq_has(names: Seq<Seq<char>>, x: Seq<char>) -> bool {
    exists|i: int| 0 <= i < names.len() && names[i] == x
}

pub open spec fn strs_view(v: Seq<String>) -> Seq<Seq<char>> {
    v.map_values(|s: String| s@)
}

/// Whether a name occurs in a list of strings.
pub fn contains_name(names: &Vec<String>, x: &str) -> (r: bool)
    ensures
        r == seq_has(strs_view(names@), x@),
{
    let n = names.len();
    let mut i: usize = 0;
    while i < n
        invariant
            i <= n,
            n == names@.len(),
            forall|j: int| 0 <= j < i ==> #[trigger] names@[j]@ != x@,
        decreases n - i,
    {
        if str_eq(names[i].as_str(), x) {
            proof {
                assert(strs_view(names@)[i as int] == x@);
            }
            return true;
        }
        i = i + 1;
    }
    proof {
        if seq_has(strs_view(names@), x@) {
            let j = choose|j: int| 0 <= j < names@.len() && strs_view(names@)[j] == x@;
            assert(names@[j]@ == x@);
        }
    }
    false
}

/// The lines after the first `---` marker line.
pub open spec fn spec_after_marker(lines: Seq<Seq<char>>) -> Seq<Seq<char>>
    decreases lines.len(),
{
    if lines.len() == 0 {
        Seq::empty()
    } else if lines[0] == seq!['-', '-', '-'] {
        lines.skip(1)
    } else {
        spec_after_marker(lines.skip(1))
    }
}

/// First index of an entry with this name, or the length.
pub open spec fn vmap_name_index(acc: Seq<(Seq<char>, Seq<VersionModel>)>, name: Seq<char>) -> int
    decreases acc.len(),
{
    if acc.len() == 0 {
        0
    } else if acc[0].0 == name {
        0
    } else {
        1 + vmap_name_index(acc.skip(1), name)
    }
}

proof fn lemma_vmap_name_index(acc: Seq<(Seq<char>, Seq<VersionModel>)>, name: Seq<char>)
    ensures
        0 <= vmap_name_index(acc, name) <= acc.len(),
        forall|j: int| 0 <= j < vmap_name_index(acc, name) ==> (#[trigger] acc[j]).0 != name,
        vmap_name_index(acc, name) < acc.len() ==> acc[vmap_name_index(acc, name)].0 == name,
    decreases acc.len(),
{
    if acc.len() > 0 && acc[0].0 != name {
        lemma_vmap_name_index(acc.skip(1), name);
        assert forall|j: int| 0 <= j < vmap_name_index(acc, name) implies (#[trigger] acc[j]).0
            != name by {
            if j > 0 {
                assert(acc.skip(1)[j - 1] == acc[j]);
            }
        }
        if vmap_name_index(acc, name) < acc.len() {
            assert(acc.skip(1)[vmap_name_index(acc, name) - 1] == acc[vmap_name_index(acc, name)]);
        }
    }
}

proof fn lemma_vmap_name_index_is(
    acc: Seq<(Seq<char>, Seq<VersionModel>)>,
    name: Seq<char>,
    k: int,
)
    requires
        0 <= k <= acc.len(),
        forall|j: int| 0 <= j < k ==> (#[trigger] acc[j]).0 != name,
        k < acc.len() ==> acc[k].0 == name,
    ensures
        vmap_name_index(acc, name) == k,
{
    lemma_vmap_name_index(acc, name);
    let i = vmap_name_index(acc, name);
    if i < k {
        assert(acc[i].0 != name);
    }
    if k < i {
        assert(acc[k].0 != name);
    }
}

/// Add versions under a name: extend the existing record or open one.
pub open spec fn spec_vmap_add(
    acc: Seq<(Seq<char>, Seq<VersionModel>)>,
    name: Seq<char>,
    vs: Seq<VersionModel>,
) -> Seq<(Seq<char>, Seq<VersionModel>)> {
    let i = vmap_name_index(acc, name);
    if i < acc.len() {
        acc.update(i, (name, acc[i].1 + vs))
    } else {
        acc.push((name, vs))
    }
}

/// The versions named by one line's second token.
pub open spec fn spec_line_versions(tok: Seq<char>) -> Seq<VersionModel> {
    Seq::new(
        spec_split(tok, ',').len(),
        |i: int| spec_parse(spec_trim(spec_split(tok, ',')[i])),
    )
}

/// Collect the requested packages' versions from the data lines.
pub open spec fn spec_collect_versions(
    lines: Seq<Seq<char>>,
    gems: Seq<Seq<char>>,
    acc: Seq<(Seq<char>, Seq<VersionModel>)>,
) -> Seq<(Seq<char>, Seq<VersionModel>)>
    decreases lines.len(),
{
    if lines.len() == 0 {
        acc
    } else {
        let toks = spec_tokens(lines[0]);
        if toks.len() < 2 || !seq_has(gems, toks[0]) {
            spec_collect_versions(lines.skip(1), gems, acc)
        } else {
            spec_collect_versions(
                lines.skip(1),
                gems,
                spec_vmap_add(acc, toks[0], spec_line_versions(toks[1])),
            )
        }
    }
}

/// The whole `/versions` parse: skip to past the `---` marker, then read
/// `name v1,v2,…` lines for the requested names.
pub open spec fn spec_versions_map(text: Seq<char>, gems: Seq<Seq<char>>) -> Seq<
    (Seq<char>, Seq<VersionModel>),
> {
    spec_collect_versions(spec_after_marker(spec_lines(text)), gems, Seq::empty())
}

pub open spec fn vmap_view(r: Seq<(String, Vec<RubyVersion>)>) -> Seq<
    (Seq<char>, Seq<VersionModel>),
> {
    Seq::new(r.len(), |i: int| (r[i].0@, r[i].1@.map_values(|v: RubyVersion| v@)))
}

/// Parse the `/versions` body for the requested package names.
pub fn parse_versions(text: &str, gems: &Vec<String>) -> (r: Vec<(String, Vec<RubyVersion>)>)
    ensures
        vmap_view(r@) == spec_versions_map(text@, strs_view(gems@)),
{
    let all_lines = split_lines(text);
    let ghost linesv = Seq::new(all_lines@.len(), |i: int| all_lines@[i]@);
    proof {
        assert forall|i: int| 0 <= i < linesv.len() implies #[trigger] linesv[i] == spec_lines(
            text@,
        )[i] by {}
        assert(linesv =~= spec_lines(text@));
    }
    // find the marker line
    let n = all_lines.len();
    let mut m: usize = 0;
    proof {
        reveal_strlit("---");
        assert("---"@ =~= seq!['-', '-', '-']);
        assert(linesv.skip(0) =~= linesv);
    }
    while m < n
        invariant
            m <= n,
            n == all_lines@.len(),
            linesv == Seq::new(all_lines@.len(), |i: int| all_lines@[i]@),
            spec_after_marker(linesv) == spec_after_marker(linesv.skip(m as int)),
            forall|j: int| 0 <= j < m ==> #[trigger] linesv[j] != seq!['-', '-', '-'],
        ensures
            m <= n,
            n == all_lines@.len(),
            linesv == Seq::new(all_lines@.len(), |i: int| all_lines@[i]@),
            spec_after_marker(linesv) == spec_after_marker(linesv.skip(m as int)),
            m < n ==> linesv[m as int] == seq!['-', '-', '-'],
        decreases n - m,
    {
        proof {
            reveal_strlit("---");
            assert("---"@ =~= seq!['-', '-', '-']);
            assert(linesv.skip(m as int)[0] == linesv[m as int]);
        }
        if str_eq(all_lines[m].as_str(), "---") {
            proof {
                assert(linesv[m as int] == seq!['-', '-', '-']);
            }
            break;
        }
        proof {
            assert(linesv.skip(m as int).skip(1) =~= linesv.skip(m + 1));
        }
        m = m + 1;
    }
    let ghost data = spec_after_marker(linesv);
    let mut acc: Vec<(String, Vec<RubyVersion>)> = Vec::new();
    if m == n {
        proof {
            assert(linesv.skip(m as int).len() == 0);
            assert(data =~= Seq::<Seq<char>>::empty());
            assert(vmap_view(acc@) =~= spec_collect_versions(data, strs_view(gems@), vmap_view(
                acc@,
            )));
        }
        return acc;
    }
    let mut k: usize = m + 1;
    proof {
        assert(linesv.skip(m as int)[0] == linesv[m as int]);
        assert(data =~= linesv.skip(m as int).skip(1));
        assert(linesv.skip(m as int).skip(1) =~= linesv.skip(m + 1));
        assert(vmap_view(acc@) =~= Seq::<(Seq<char>, Seq<VersionModel>)>::empty());
    }
    while k < n
        invariant
            m < k <= n,
            n == all_lines@.len(),
            linesv == Seq::new(all_lines@.len(), |i: int| all_lines@[i]@),
            spec_collect_versions(linesv.skip(m + 1), strs_view(gems@), Seq::empty())
                == spec_collect_versions(linesv.skip(k as int), strs_view(gems@), vmap_view(acc@)),
        decreases n - k,
    {
        let ghost rest = linesv.skip(k as int);
        proof {
            assert(rest[0] == linesv[k as int]);
            assert(rest.skip(1) =~= linesv.skip(k + 1));
        }
        let toks = tokens(all_lines[k].as_str());
        let ghost tv = spec_tokens(linesv[k as int]);
        if toks.len() >= 2 && contains_name(gems, toks[0].as_str()) {
            // read the comma-separated version list
            let vers_tok = &toks[1];
            let ghost vt = tv[1];
            proof {
                assert(vers_tok@ == vt);
            }
            let vlen = vers_tok.as_str().unicode_len();
            let mut vers: Vec<RubyVersion> = Vec::new();
            let mut start: usize = 0;
            proof {
                assert(vt.skip(0) =~= vt);
            }
            loop
                invariant_except_break
                    spec_split(vt, ',') =~= spec_split(vt, ',').take(vers@.len() as int)
                        + spec_split(vt.skip(start as int), ','),
                invariant
                    start <= vlen,
                    vlen == vt.len(),
                    vers_tok@ == vt,
                    vers@.len() <= spec_split(vt, ',').len(),
                    forall|i: int|
                        0 <= i < vers@.len() ==> #[trigger] vers@[i]@ == spec_parse(
                            spec_trim(spec_split(vt, ',')[i]),
                        ),
                ensures
                    vers@.len() == spec_split(vt, ',').len(),
                    forall|i: int|
                        0 <= i < vers@.len() ==> #[trigger] vers@[i]@ == spec_parse(
                            spec_trim(spec_split(vt, ',')[i]),
                        ),
                decreases vlen - start,
            {
                let ghost whole = spec_split(vt, ',');
                let ghost done = vers@.len() as int;
                let ghost vrest = vt.skip(start as int);
                let cut = find_char(vers_tok.as_str(), start, ',');
                let part = vers_tok.as_str().substring_char(start, cut);
                proof {
                    assert(spec_find(vrest, ',') == cut - start);
                    assert(part@ =~= vrest.take(cut - start));
                    if cut == vlen {
                        assert(part@ =~= vrest);
                        assert(spec_split(vrest, ',') == seq![vrest]);
                    } else {
                        assert(spec_split(vrest, ',') == seq![vrest.take(cut - start)]
                            + spec_split(vrest.skip(cut - start + 1), ','));
                        assert(vrest.skip(cut - start + 1) =~= vt.skip(cut + 1));
                    }
                    assert(whole[done] == part@) by {
                        assert(whole == whole.take(done) + spec_split(vrest, ','));
                        assert(spec_split(vrest, ',')[0] == part@);
                        assert((whole.take(done) + spec_split(vrest, ','))[done] == spec_split(
                            vrest,
                            ',',
                        )[0]);
                    }
                }
                let trimmed = trim_str(part);
                let rv = RubyVersion::parse(trimmed);
                vers.push(rv);
                if cut == vlen {
                    proof {
                        assert(spec_split(vrest, ',').len() == 1);
                        assert(vers@.len() == whole.len());
                    }
                    break;
                }
                proof {
                    assert(whole =~= whole.take(done + 1) + spec_split(vt.skip(cut + 1), ','))
                        by {
                        assert(whole == whole.take(done) + (seq![part@] + spec_split(
                            vt.skip(cut + 1),
                            ',',
                        )));
                        assert(whole.take(done + 1) =~= whole.take(done) + seq![part@]);
                    }
                }
                start = cut + 1;
            }
            proof {
                assert(vers@.map_values(|v: RubyVersion| v@) =~= spec_line_versions(vt));
            }
            // merge into the accumulator
            let ghost acc0 = vmap_view(acc@);
            let name = &toks[0];
            let an = acc.len();
            let mut ai: usize = 0;
            let mut found: bool = false;
            while ai < an && !found
                invariant
                    ai <= an,
                    an == acc@.len(),
                    !found ==> forall|j: int| 0 <= j < ai ==> (#[trigger] acc@[j]).0@ != name@,
                    found ==> ai < an && acc@[ai as int].0@ == name@ && forall|j: int|
                        0 <= j < ai ==> (#[trigger] acc@[j]).0@ != name@,
                decreases an - ai + if found {
                    0int
                } else {
                    1int
                },
            {
                if str_eq(acc[ai].0.as_str(), name.as_str()) {
                    found = true;
                } else {
                    ai = ai + 1;
                }
            }
            if found {
                let (en, mut ev) = acc.remove(ai);
                let ghost ev0 = ev@;
                ev.append(&mut vers);
                acc.insert(ai, (en, ev));
                proof {
                    lemma_vmap_name_index_is(acc0, name@, ai as int);
                    assert(vmap_view(acc@) =~= spec_vmap_add(acc0, name@, spec_line_versions(
                        vt,
                    ))) by {
                        assert(vmap_view(acc@).len() == acc0.len());
                        assert forall|j: int| 0 <= j < acc0.len() implies vmap_view(acc@)[j]
                            == spec_vmap_add(acc0, name@, spec_line_versions(vt))[j] by {
                            if j == ai {
                                assert(vmap_view(acc@)[j].1 =~= acc0[j].1 + spec_line_versions(
                                    vt,
                                ));
                            }
                        }
                    }
                }
            } else {
                proof {
                    lemma_vmap_name_index_is(acc0, name@, an as int);
                }
                acc.push((name.clone(), vers));
                proof {
                    assert(vmap_view(acc@) =~= acc0.push((name@, spec_line_versions(vt))));
                }
            }
            proof {
                assert(seq_has(strs_view(gems@), tv[0])) by {
                    assert(tv[0] == name@);
                }
            }
        } else {
            proof {
                if tv.len() >= 2 {
                    assert(!seq_has(strs_view(gems@), tv[0])) by {
                        assert(toks@[0]@ == tv[0]);
                    }
                }
            }
        }
        k = k + 1;
    }
    proof {
        assert(linesv.skip(n as int).len() == 0);
        assert(spec_collect_versions(linesv.skip(n as int), strs_view(gems@), vmap_view(acc@))
            == vmap_view(acc@));
        assert(data =~= linesv.skip(m + 1));
    }
    acc
}

pub open spec fn starts_dashes(l: Seq<char>) -> bool {
    l.len() >= 3 && l[0] == '-' && l[1] == '-' && l[2] == '-'
}

/// The dependency entries of one info line: trimmed, nonempty,
/// colon-separated `name:requirement` pairs.
pub open spec fn spec_dep_entries_of(parts: Seq<Seq<char>>) -> Seq<(Seq<char>, Seq<char>)>
    decreases parts.len(),
{
    if parts.len() == 0 {
        Seq::empty()
    } else {
        let e = spec_trim(parts[0]);
        let rest = spec_dep_entries_of(parts.skip(1));
        if e.len() == 0 || spec_find(e, ':') == e.len() {
            rest
        } else {
            seq![(e.take(spec_find(e, ':')), spec_trim(e.skip(spec_find(e, ':') + 1)))] + rest
        }
    }
}

pub open spec fn spec_dep_entries(s: Seq<char>) -> Seq<(Seq<char>, Seq<char>)> {
    spec_dep_entries_of(spec_split(s, ','))
}

/// One info line decomposed: the version text before the first space,
/// and the dependency entries after it (all before any `|` checksum).
pub open spec fn spec_info_line(l: Seq<char>) -> (Seq<char>, Seq<(Seq<char>, Seq<char>)>) {
    let body = l.take(spec_find(l, '|'));
    let sp = spec_find(body, ' ');
    let vt = body.take(sp);
    let deps_str = if sp < body.len() {
        body.skip(sp + 1)
    } else {
        Seq::<char>::empty()
    };
    (vt, spec_dep_entries(deps_str))
}

/// The kept entries of an info file: every line that is not a header and
/// whose version carries no platform tag.
pub open spec fn spec_info_entries_of(lines: Seq<Seq<char>>) -> Seq<
    (Seq<char>, Seq<(Seq<char>, Seq<char>)>),
>
    decreases lines.len(),
{
    if lines.len() == 0 {
        Seq::empty()
    } else {
        let rest = spec_info_entries_of(lines.skip(1));
        if starts_dashes(lines[0]) {
            rest
        } else {
            let e = spec_info_line(lines[0]);
            if spec_parse(e.0).platform is Some {
                rest
            } else {
                seq![e] + rest
            }
        }
    }
}

pub open spec fn spec_info_entries(text: Seq<char>) -> Seq<
    (Seq<char>, Seq<(Seq<char>, Seq<char>)>),
> {
    spec_info_entries_of(spec_lines(text))
}

/// Whether every dependency requirement of an info file can be parsed.
pub open spec fn spec_info_ok(text: Seq<char>) -> bool {
    forall|i: int, j: int|
        0 <= i < spec_info_entries(text).len() && 0 <= j < spec_info_entries(text)[i].1.len()
            ==> spec_req_ok((#[trigger] spec_info_entries(text)[i].1[j]).1, '&')
}

/// What a parsed release list says, entry by entry: the package name
/// carried over, the parsed version, no checksum, and per dependency the
/// target name, the recorded clause strings, and the exact set semantics
/// of the parsed requirement.
pub open spec fn info_result_matches(
    vs: Seq<GemVersion>,
    gem_name: Seq<char>,
    entries: Seq<(Seq<char>, Seq<(Seq<char>, Seq<char>)>)>,
) -> bool {
    &&& vs.len() == entries.len()
    &&& forall|i: int|
        0 <= i < vs.len() ==> {
            let ds = (#[trigger] vs[i]).dependencies@;
            &&& vs[i].name@ == gem_name
            &&& vs[i].version@ == spec_parse(entries[i].0)
            &&& vs[i].checksum is None
            &&& ds.len() == entries[i].1.len()
            &&& forall|j: int|
                0 <= j < ds.len() ==> {
                    let rt = entries[i].1[j].1;
                    &&& (#[trigger] ds[j]).name@ == entries[i].1[j].0
                    &&& ds[j].requirement_str@.map_values(|s: String| s@) == (if spec_trim(rt)
                        == seq!['*'] {
                        Seq::<Seq<char>>::empty()
                    } else {
                        spec_req_clauses(rt, '&')
                    })
                    &&& ds[j].requirement.allow_pre == spec_req_allow_pre(rt, '&')
                    &&& forall|v: Seq<SegModel>|
                        #[trigger] range_mem(ds[j].requirement.range@, v) == spec_req_admits(
                            rt,
                            '&',
                            v,
                        )
                }
        }
}

/// Parse an info file into the releases it lists. Header lines and
/// platform-tagged versions are skipped; a dependency requirement that
/// cannot be parsed is a fatal parse error.
pub fn parse_info(gem_name: &str, text: &str) -> (r: Result<Vec<GemVersion>, CompactIndexError>)
    ensures
        r matches Ok(vs) ==> info_result_matches(vs@, gem_name@, spec_info_entries(text@))
            && spec_info_ok(text@),
        r is Err <==> !spec_info_ok(text@),
{
    let all_lines = split_lines(text);
    let ghost linesv = Seq::new(all_lines@.len(), |i: int| all_lines@[i]@);
    proof {
        assert forall|i: int| 0 <= i < linesv.len() implies #[trigger] linesv[i] == spec_lines(
            text@,
        )[i] by {}
        assert(linesv =~= spec_lines(text@));
        assert(linesv.skip(0) =~= linesv);
    }
    let ghost entries = spec_info_entries(text@);
    let n = all_lines.len();
    let mut out: Vec<GemVersion> = Vec::new();
    let mut k: usize = 0;
    while k < n
        invariant
            k <= n,
            n == all_lines@.len(),
            linesv == Seq::new(all_lines@.len(), |i: int| all_lines@[i]@),
            linesv == spec_lines(text@),
            entries == spec_info_entries_of(linesv),
            entries =~= entries.take(out@.len() as int) + spec_info_entries_of(
                linesv.skip(k as int),
            ),
            out@.len() <= entries.len(),
            info_result_matches(out@, gem_name@, entries.take(out@.len() as int)),
            forall|i: int, j: int|
                0 <= i < out@.len() && 0 <= j < entries[i].1.len() ==> spec_req_ok(
                    (#[trigger] entries[i].1[j]).1,
                    '&',
                ),
        decreases n - k,
    {
        let ghost rest = linesv.skip(k as int);
        let ghost done = out@.len() as int;
        proof {
            assert(rest[0] == linesv[k as int]);
            assert(rest.skip(1) =~= linesv.skip(k + 1));
        }
        let line = all_lines[k].as_str();
        let llen = line.unicode_len();
        let is_header = if llen >= 3 {
            line.get_char(0) == '-' && line.get_char(1) == '-' && line.get_char(2) == '-'
        } else {
            false
        };
        if !is_header {
            let pipe = find_char(line, 0, '|');
            proof {
                assert(line@.skip(0) =~= line@);
            }
            let body = line.substring_char(0, pipe);
            let ghost bodyv = line@.take(spec_find(line@, '|'));
            proof {
                assert(body@ =~= bodyv);
                assert(body@.skip(0) =~= body@);
            }
            let blen = body.unicode_len();
            let sp = find_char(body, 0, ' ');
            let ver_text = body.substring_char(0, sp);
            proof {
                assert(ver_text@ =~= bodyv.take(spec_find(bodyv, ' ')));
            }
            let rv = RubyVersion::parse(ver_text);
            let ghost entry = spec_info_line(linesv[k as int]);
            if !rv.is_platform() {
                let deps_str: &str = if sp < blen {
                    body.substring_char(sp + 1, blen)
                } else {
                    ""
                };
                proof {
                    if sp < blen {
                        assert(deps_str@ =~= bodyv.skip(spec_find(bodyv, ' ') + 1));
                    } else {
                        reveal_strlit("");
                        assert(""@ =~= Seq::<char>::empty());
                    }
                }
                let ghost depsv = deps_str@;
                proof {
                    assert(entry.1 == spec_dep_entries(depsv));
                    assert(depsv.skip(0) =~= depsv);
                    assert(!starts_dashes(linesv[k as int]));
                    assert(entry.0 == ver_text@);
                    assert(spec_parse(entry.0).platform is None);
                    assert(spec_info_entries_of(rest) == seq![entry] + spec_info_entries_of(
                        rest.skip(1),
                    ));
                    assert(spec_info_entries_of(linesv.skip(k as int)) == seq![entry]
                        + spec_info_entries_of(linesv.skip(k + 1)));
                    assert(entries[done] == entry) by {
                        assert(entries == entries.take(done) + spec_info_entries_of(rest));
                        assert((entries.take(done) + spec_info_entries_of(rest))[done]
                            == spec_info_entries_of(rest)[0]);
                    }
                    assert(done < entries.len());
                    reveal_strlit("&");
                    assert("&"@ =~= seq!['&']);
                }
                // read the comma-separated dependency entries
                let dlen = deps_str.unicode_len();
                let mut deps: Vec<GemDependency> = Vec::new();
                let mut start: usize = 0;
                loop
                    invariant_except_break
                        spec_dep_entries(depsv) =~= spec_dep_entries(depsv).take(
                            deps@.len() as int,
                        ) + spec_dep_entries_of(spec_split(depsv.skip(start as int), ',')),
                    invariant
                        start <= dlen,
                        dlen == depsv.len(),
                        deps_str@ == depsv,
                        entry.1 == spec_dep_entries(depsv),
                        entries == spec_info_entries_of(linesv),
                        entries == entries.take(done) + spec_info_entries_of(
                            linesv.skip(k as int),
                        ),
                        spec_info_entries_of(linesv.skip(k as int)) == seq![entry]
                            + spec_info_entries_of(linesv.skip(k + 1)),
                        done == out@.len(),
                        0 <= done < entries.len(),
                        entries[done] == entry,
                        entries == spec_info_entries(text@),
                        deps@.len() <= spec_dep_entries(depsv).len(),
                        forall|j: int|
                            0 <= j < deps@.len() ==> {
                                let rt = spec_dep_entries(depsv)[j].1;
                                &&& (#[trigger] deps@[j]).name@ == spec_dep_entries(depsv)[j].0
                                &&& deps@[j].requirement_str@.map_values(|s: String| s@) == (
                                if spec_trim(rt) == seq!['*'] {
                                    Seq::<Seq<char>>::empty()
                                } else {
                                    spec_req_clauses(rt, '&')
                                })
                                &&& deps@[j].requirement.allow_pre == spec_req_allow_pre(rt, '&')
                                &&& forall|v: Seq<SegModel>|
                                    #[trigger] range_mem(deps@[j].requirement.range@, v)
                                        == spec_req_admits(rt, '&', v)
                            },
                        forall|j: int|
                            0 <= j < deps@.len() ==> spec_req_ok(
                                (#[trigger] spec_dep_entries(depsv)[j]).1,
                                '&',
                            ),
                    ensures
                        deps@.len() == spec_dep_entries(depsv).len(),
                        forall|j: int|
                            0 <= j < deps@.len() ==> {
                                let rt = spec_dep_entries(depsv)[j].1;
                                &&& (#[trigger] deps@[j]).name@ == spec_dep_entries(depsv)[j].0
                                &&& deps@[j].requirement_str@.map_values(|s: String| s@) == (
                                if spec_trim(rt) == seq!['*'] {
                                    Seq::<Seq<char>>::empty()
                                } else {
                                    spec_req_clauses(rt, '&')
                                })
                                &&& deps@[j].requirement.allow_pre == spec_req_allow_pre(rt, '&')
                                &&& forall|v: Seq<SegModel>|
                                    #[trigger] range_mem(deps@[j].requirement.range@, v)
                                        == spec_req_admits(rt, '&', v)
                            },
                        forall|j: int|
                            0 <= j < deps@.len() ==> spec_req_ok(
                                (#[trigger] spec_dep_entries(depsv)[j]).1,
                                '&',
                            ),
                    decreases dlen - start,
                {
                    let ghost dwhole = spec_dep_entries(depsv);
                    let ghost ddone = deps@.len() as int;
                    let ghost drest = depsv.skip(start as int);
                    let cut = find_char(deps_str, start, ',');
                    let part = deps_str.substring_char(start, cut);
                    proof {
                        assert(spec_find(drest, ',') == cut - start);
                        assert(part@ =~= drest.take(cut - start));
                        if cut == dlen {
                            assert(part@ =~= drest);
                            assert(spec_split(drest, ',') == seq![drest]);
                            assert(seq![part@].skip(1) =~= Seq::<Seq<char>>::empty());
                            assert(spec_dep_entries_of(seq![part@]) =~= spec_dep_entries_of(
                                seq![part@],
                            ));
                        } else {
                            assert(spec_split(drest, ',') == seq![drest.take(cut - start)]
                                + spec_split(drest.skip(cut - start + 1), ','));
                            assert(drest.skip(cut - start + 1) =~= depsv.skip(cut + 1));
                            assert((seq![part@] + spec_split(depsv.skip(cut + 1), ','))[0]
                                == part@);
                            assert((seq![part@] + spec_split(depsv.skip(cut + 1), ',')).skip(1)
                                =~= spec_split(depsv.skip(cut + 1), ','));
                        }
                    }
                    let trimmed = trim_str(part);
                    let ghost e = spec_trim(part@);
                    let tlen = trimmed.unicode_len();
                    let colon = find_char(trimmed, 0, ':');
                    proof {
                        assert(trimmed@.skip(0) =~= trimmed@);
                        assert(spec_find(trimmed@, ':') == colon);
                    }
                    if tlen > 0 && colon < tlen {
                        let dep_name = trimmed.substring_char(0, colon).to_owned();
                        let req_tail = trimmed.substring_char(colon + 1, tlen);
                        let req_text = trim_str(req_tail);
                        proof {
                            assert(dep_name@ =~= e.take(spec_find(e, ':')));
                            assert(req_tail@ =~= e.skip(spec_find(e, ':') + 1));
                            assert(req_text@ == spec_trim(e.skip(spec_find(e, ':') + 1)));
                        }
                        let req_ok = {
                            proof {
                                reveal_strlit("&");
                                assert("&"@ =~= seq!['&']);
                            }
                            req_text_ok(req_text, "&")
                        };
                        if !req_ok {
                            proof {
                                reveal_strlit("&");
                                assert("&"@ =~= seq!['&']);
                                let bad = (e.take(spec_find(e, ':')), spec_trim(
                                    e.skip(spec_find(e, ':') + 1),
                                ));
                                assert(spec_dep_entries_of(spec_split(drest, ','))[0] == bad);
                                assert(dwhole[ddone] == bad) by {
                                    assert(dwhole == dwhole.take(ddone) + spec_dep_entries_of(
                                        spec_split(drest, ','),
                                    ));
                                    assert((dwhole.take(ddone) + spec_dep_entries_of(spec_split(
                                        drest,
                                        ',',
                                    )))[ddone] == spec_dep_entries_of(spec_split(drest, ','))[0]);
                                }
                                assert(!spec_req_ok(bad.1, '&'));
                                assert(entries[done].1[ddone] == bad);
                                assert(!spec_info_ok(text@));
                            }
                            return Err(
                                CompactIndexError::Other(
                                    String::from_str("unparsable requirement clause"),
                                ),
                            );
                        }
                        let parsed = parse_req(req_text, "&");
                        proof {
                            reveal_strlit("&");
                            assert("&"@ =~= seq!['&']);
                        }
                        let dep = GemDependency {
                            name: dep_name,
                            requirement: parsed.0,
                            requirement_str: parsed.1,
                        };
                        let ghost dbefore = deps@;
                        deps.push(dep);
                        proof {
                            let cur = (e.take(spec_find(e, ':')), spec_trim(
                                e.skip(spec_find(e, ':') + 1),
                            ));
                            assert(spec_dep_entries_of(spec_split(drest, ','))[0] == cur);
                            assert(dwhole[ddone] == cur) by {
                                assert(dwhole == dwhole.take(ddone) + spec_dep_entries_of(
                                    spec_split(drest, ','),
                                ));
                                assert((dwhole.take(ddone) + spec_dep_entries_of(spec_split(
                                    drest,
                                    ',',
                                )))[ddone] == spec_dep_entries_of(spec_split(drest, ','))[0]);
                            }
                            if cut < dlen {
                                assert(dwhole =~= dwhole.take(ddone + 1) + spec_dep_entries_of(
                                    spec_split(depsv.skip(cut + 1), ','),
                                )) by {
                                    assert(spec_dep_entries_of(spec_split(drest, ','))
                                        == seq![cur] + spec_dep_entries_of(spec_split(
                                        depsv.skip(cut + 1),
                                        ',',
                                    )));
                                    assert(dwhole.take(ddone + 1) =~= dwhole.take(ddone) + seq![
                                        cur,
                                    ]);
                                    assert(dwhole == dwhole.take(ddone) + (seq![cur]
                                        + spec_dep_entries_of(spec_split(
                                        depsv.skip(cut + 1),
                                        ',',
                                    ))));
                                }
                            } else {
                                assert(spec_dep_entries_of(spec_split(drest, ',')) == seq![cur]
                                    + spec_dep_entries_of(seq![drest].skip(1)));
                                assert(seq![drest].skip(1).len() == 0);
                                assert(spec_dep_entries_of(seq![drest].skip(1))
                                    =~= Seq::<(Seq<char>, Seq<char>)>::empty());
                                assert(dwhole =~= dwhole.take(ddone + 1)) by {
                                    assert(dwhole == dwhole.take(ddone) + seq![cur]);
                                }
                            }
                        }
                    } else {
                        proof {
                            assert(spec_dep_entries_of(spec_split(drest, ','))
                                =~= spec_dep_entries_of(spec_split(drest, ',').skip(1)));
                            if cut < dlen {
                                assert(spec_split(drest, ',').skip(1) =~= spec_split(
                                    depsv.skip(cut + 1),
                                    ',',
                                ));
                            } else {
                                assert(spec_split(drest, ',').skip(1).len() == 0);
                                assert(spec_dep_entries_of(spec_split(drest, ',').skip(1))
                                    =~= Seq::<(Seq<char>, Seq<char>)>::empty());
                            }
                        }
                    }
                    if cut == dlen {
                        proof {
                            assert(deps@.len() == dwhole.len());
                        }
                        break;
                    }
                    start = cut + 1;
                }
                let gv = GemVersion {
                    name: gem_name.to_owned(),
                    version: rv,
                    checksum: None,
                    dependencies: deps,
                };
                let ghost obefore = out@;
                out.push(gv);
                proof {
                    assert(entries[done] == entry) by {
                        assert(spec_info_entries_of(rest) == seq![entry] + spec_info_entries_of(
                            rest.skip(1),
                        ));
                        assert(entries == entries.take(done) + spec_info_entries_of(rest));
                        assert((entries.take(done) + spec_info_entries_of(rest))[done]
                            == spec_info_entries_of(rest)[0]);
                    }
                    assert(entries.take(done + 1) =~= entries.take(done) + seq![entry]);
                    assert(entries =~= entries.take(done + 1) + spec_info_entries_of(
                        linesv.skip(k + 1),
                    )) by {
                        assert(spec_info_entries_of(rest) == seq![entry] + spec_info_entries_of(
                            rest.skip(1),
                        ));
                        assert(entries == entries.take(done) + (seq![entry]
                            + spec_info_entries_of(rest.skip(1))));
                    }
                    assert(info_result_matches(out@, gem_name@, entries.take(done + 1))) by {
                        assert forall|i: int| 0 <= i < out@.len() implies out@[i]
                            == (if i < done {
                            obefore[i]
                        } else {
                            out@[done]
                        }) by {}
                    }
                }
            } else {
                proof {
                    assert(spec_info_entries_of(rest) == spec_info_entries_of(rest.skip(1)));
                }
            }
        } else {
            proof {
                assert(starts_dashes(linesv[k as int]));
                assert(spec_info_entries_of(rest) == spec_info_entries_of(rest.skip(1)));
            }
        }
        k = k + 1;
    }
    proof {
        assert(linesv.skip(n as int).len() == 0);
        assert(spec_info_entries_of(linesv.skip(n as int)) =~= Seq::<
            (Seq<char>, Seq<(Seq<char>, Seq<char>)>),
        >::empty());
        assert(entries =~= entries.take(out@.len() as int));
        assert(info_result_matches(out@, gem_name@, entries));
        assert(spec_info_ok(text@));
    }
    Ok(out)
}

/// The hex digest text of a byte sequence.
pub uninterp spec fn md5_hex_of(data: Seq<u8>) -> Seq<char>;

/// Relies on `md5::Md5::digest`: the 16-byte digest of the input bytes
/// alone, rendered as 32 lowercase hex characters.
#[verifier::external_body]
fn md5_hex(data: &[u8]) -> (r: String)
    ensures
        r@ == md5_hex_of(data@),
        r@.len() == 32,
{
    let digest = md5::Md5::digest(data);
    let mut out = String::new();
    for b in digest.iter() {
        out.push_str(&format!("{:02x}", b));
    }
    out
}

/// The parts of a URL text: scheme, host text, explicit port, and the
/// normalized form, when the text parses as a URL.
pub uninterp spec fn url_parts_of(s: Seq<char>) -> Option<
    (Seq<char>, Option<Seq<char>>, Option<u16>, Seq<char>),
>;

/// Relies on `url::Url::parse` and its accessors `scheme`, `host_str`,
/// `port` and `as_str`: all functions of the URL text alone.
#[verifier::external_body]
fn parse_url_parts(text: &str) -> (r: Option<(String, Option<String>, Option<u16>, String)>)
    ensures
        match r {
            Some(p) => (url_parts_of(text@) matches Some(q) && p.0@ == q.0 && (match (p.1, q.1) {
                (Some(h), Some(hq)) => h@ == hq,
                (None, None) => true,
                _ => false,
            }) && p.2 == q.2 && p.3@ == q.3),
            None => url_parts_of(text@) is None,
        },
{
    match url::Url::parse(text) {
        Ok(u) => {
            let scheme = u.scheme().to_string();
            let host = u.host_str().map(|h| h.to_string());
            let port = u.port();
            let normalized = u.as_str().to_string();
            Some((scheme, host, port, normalized))
        },
        Err(_) => None,
    }
}

/// A host character a cache directory name may keep.
pub open spec fn spec_slug_char_ok(c: char) -> bool {
    (65 <= (c as u32) <= 90) || (97 <= (c as u32) <= 122) || (48 <= (c as u32) <= 57) || c == '.'
        || c == '_' || c == '-'
}

/// The host text with every unsafe character replaced by a dash.
pub open spec fn spec_sanitize(h: Seq<char>) -> Seq<char> {
    Seq::new(
        h.len(),
        |i: int|
            if spec_slug_char_ok(h[i]) {
                h[i]
            } else {
                '-'
            },
    )
}

/// The port text of a URL: the explicit port, or the scheme's default.
pub open spec fn spec_port_text(port: Option<u16>, scheme: Seq<char>) -> Seq<char> {
    match port {
        Some(p) => spec_u64_string(p as u64),
        None => if scheme == seq!['h', 't', 't', 'p'] {
            spec_u64_string(80)
        } else if scheme == seq!['h', 't', 't', 'p', 's'] {
            spec_u64_string(443)
        } else {
            spec_u64_string(0)
        },
    }
}

/// The cache directory slug of a source URL: the sanitized host, the
/// port, and the first eight hex characters of the digest of the
/// normalized URL text, joined with dots.
pub fn cache_slug_for_url(url_text: &str) -> (r: Result<String, CompactIndexError>)
    ensures
        match url_parts_of(url_text@) {
            None => r is Err,
            Some(q) => match q.1 {
                None => r is Err,
                Some(host) => (r matches Ok(s) && s@ == spec_sanitize(host) + seq!['.']
                    + spec_port_text(q.2, q.0) + seq!['.'] + md5_hex_of(
                    vstd::utf8::encode_utf8(q.3),
                ).take(8)),
            },
        },
{
    let parts = parse_url_parts(url_text);
    let (scheme, host_opt, port_opt, normalized) = match parts {
        Some(p) => p,
        None => {
            return Err(CompactIndexError::UrlParse(String::from_str("invalid source URL")));
        },
    };
    let host = match host_opt {
        Some(h) => h,
        None => {
            return Err(CompactIndexError::Other(String::from_str("URL has no host")));
        },
    };
    let mut slug = String::new();
    let hlen = host.as_str().unicode_len();
    let mut i: usize = 0;
    while i < hlen
        invariant
            i <= hlen,
            hlen == host@.len(),
            slug@ =~= spec_sanitize(host@).take(i as int),
        decreases hlen - i,
    {
        let c = host.as_str().get_char(i);
        let n = c as u32;
        let keep = (65 <= n && n <= 90) || (97 <= n && n <= 122) || (48 <= n && n <= 57) || c
            == '.' || c == '_' || c == '-';
        if keep {
            push_char(&mut slug, c);
        } else {
            push_char(&mut slug, '-');
        }
        proof {
            assert(slug@ =~= spec_sanitize(host@).take(i + 1));
        }
        i = i + 1;
    }
    proof {
        assert(spec_sanitize(host@).take(hlen as int) =~= spec_sanitize(host@));
    }
    push_char(&mut slug, '.');
    match port_opt {
        Some(p) => {
            append_u64(&mut slug, p as u64);
        },
        None => {
            proof {
                reveal_strlit("http");
                reveal_strlit("https");
                assert("http"@ =~= seq!['h', 't', 't', 'p']);
                assert("https"@ =~= seq!['h', 't', 't', 'p', 's']);
            }
            if str_eq(scheme.as_str(), "http") {
                append_u64(&mut slug, 80);
            } else if str_eq(scheme.as_str(), "https") {
                append_u64(&mut slug, 443);
            } else {
                append_u64(&mut slug, 0);
            }
        },
    }
    push_char(&mut slug, '.');
    let digest = md5_hex(normalized.as_str().as_bytes());
    let prefix = digest.as_str().substring_char(0, 8);
    slug.append(prefix);
    proof {
        assert(prefix@ =~= md5_hex_of(vstd::utf8::encode_utf8(normalized@)).take(8));
    }
    Ok(slug)
}

/// The bookkeeping of the concurrent discovery walk: which names are in
/// the graph, which fetches were launched, and which names wait.
pub struct Discovery {
    pub graph: Vec<(String, Vec<GemVersion>)>,
    pub visited: Vec<String>,
    pub scheduled: Vec<String>,
    pub queue: Vec<String>,
}

/// The dependency names of one release that are not yet visited, in
/// order, among the first `j` dependencies.
pub open spec fn spec_new_names_upto(g: GemVersion, visited: Seq<Seq<char>>, j: int) -> Seq<
    Seq<char>,
>
    decreases j,
{
    if j <= 0 {
        Seq::empty()
    } else {
        spec_new_names_upto(g, visited, j - 1) + (if seq_has(
            visited,
            g.dependencies@[j - 1].name@,
        ) {
            Seq::<Seq<char>>::empty()
        } else {
            seq![g.dependencies@[j - 1].name@]
        })
    }
}

/// The names the releases up to `i` enqueue.
pub open spec fn spec_enqueued_upto(
    versions: Seq<GemVersion>,
    visited: Seq<Seq<char>>,
    i: int,
) -> Seq<Seq<char>>
    decreases i,
{
    if i <= 0 {
        Seq::empty()
    } else {
        spec_enqueued_upto(versions, visited, i - 1) + spec_new_names_upto(
            versions[i - 1],
            visited,
            versions[i - 1].dependencies@.len() as int,
        )
    }
}

impl Discovery {
    /// Start a walk from the root names.
    pub fn new(roots: Vec<String>) -> (r: Discovery)
        ensures
            r.graph@.len() == 0,
            r.visited@.len() == 0,
            r.scheduled@.len() == 0,
            r.queue@ == roots@,
    {
        Discovery { graph: Vec::new(), visited: Vec::new(), scheduled: Vec::new(), queue: roots }
    }

    /// The next name to fetch: the first queued name neither visited nor
    /// already scheduled; names that are get discarded. The returned
    /// name is marked scheduled.
    pub fn next_to_schedule(&mut self) -> (r: Option<String>)
        ensures
            match r {
                None => {
                    &&& final(self).queue@.len() == 0
                    &&& final(self).scheduled@ == old(self).scheduled@
                    &&& final(self).visited@ == old(self).visited@
                    &&& final(self).graph@ == old(self).graph@
                    &&& forall|j: int|
                        0 <= j < old(self).queue@.len() ==> (seq_has(
                            strs_view(old(self).visited@),
                            (#[trigger] old(self).queue@[j])@,
                        ) || seq_has(strs_view(old(self).scheduled@), old(self).queue@[j]@))
                },
                Some(g) => {
                    &&& !seq_has(strs_view(old(self).visited@), g@)
                    &&& !seq_has(strs_view(old(self).scheduled@), g@)
                    &&& exists|k: int|
                        {
                            &&& 0 <= k < old(self).queue@.len()
                            &&& (#[trigger] old(self).queue@[k])@ == g@
                            &&& final(self).queue@ == old(self).queue@.skip(k + 1)
                            &&& forall|j: int|
                                0 <= j < k ==> (seq_has(
                                    strs_view(old(self).visited@),
                                    (#[trigger] old(self).queue@[j])@,
                                ) || seq_has(
                                    strs_view(old(self).scheduled@),
                                    old(self).queue@[j]@,
                                ))
                        }
                    &&& strs_view(final(self).scheduled@) == strs_view(old(self).scheduled@).push(
                        g@,
                    )
                    &&& final(self).visited@ == old(self).visited@
                    &&& final(self).graph@ == old(self).graph@
                },
            },
    {
        let ghost q0 = self.queue@;
        let ghost mut dropped_count: int = 0;
        loop
            invariant
                0 <= dropped_count <= q0.len(),
                self.queue@ == q0.skip(dropped_count as int),
                self.scheduled@ == old(self).scheduled@,
                self.visited@ == old(self).visited@,
                self.graph@ == old(self).graph@,
                q0 == old(self).queue@,
                forall|j: int|
                    0 <= j < dropped_count ==> (seq_has(
                        strs_view(old(self).visited@),
                        (#[trigger] q0[j])@,
                    ) || seq_has(strs_view(old(self).scheduled@), q0[j]@)),
            ensures
                0 <= dropped_count <= q0.len(),
                q0 == old(self).queue@,
                self.scheduled@ == old(self).scheduled@,
                self.visited@ == old(self).visited@,
                self.graph@ == old(self).graph@,
                forall|j: int|
                    0 <= j < dropped_count ==> (seq_has(
                        strs_view(old(self).visited@),
                        (#[trigger] q0[j])@,
                    ) || seq_has(strs_view(old(self).scheduled@), q0[j]@)),
                self.queue@ == q0.skip(dropped_count as int),
                self.queue@.len() == 0 || (dropped_count < q0.len() && !seq_has(
                    strs_view(old(self).visited@),
                    q0[dropped_count as int]@,
                ) && !seq_has(strs_view(old(self).scheduled@), q0[dropped_count as int]@)),
            decreases q0.len() - dropped_count,
        {
            if self.queue.len() == 0 {
                break;
            }
            let candidate_visited = contains_name(&self.visited, self.queue[0].as_str());
            let candidate_scheduled = contains_name(&self.scheduled, self.queue[0].as_str());
            proof {
                assert(self.queue@[0] == q0[dropped_count as int]);
            }
            if !candidate_visited && !candidate_scheduled {
                break;
            }
            let _ = self.queue.remove(0);
            proof {
                assert(q0.skip(dropped_count as int).remove(0) =~= q0.skip(dropped_count + 1));
                dropped_count = dropped_count + 1;
            }
        }
        if self.queue.len() == 0 {
            return None;
        }
        let name = self.queue.remove(0);
        proof {
            assert(q0.skip(dropped_count as int).remove(0) =~= q0.skip(dropped_count + 1));
            assert(name@ == q0[dropped_count as int]@);
        }
        self.scheduled.push(name.clone());
        proof {
            assert(strs_view(self.scheduled@) =~= strs_view(old(self).scheduled@).push(name@));
            assert(0 <= dropped_count < q0.len() && (#[trigger] q0[dropped_count as int])@ == name@
                && self.queue@ == q0.skip(dropped_count + 1) && forall|j: int|
                0 <= j < dropped_count ==> (seq_has(
                    strs_view(old(self).visited@),
                    (#[trigger] q0[j])@,
                ) || seq_has(strs_view(old(self).scheduled@), q0[j]@)));
        }
        Some(name)
    }

    /// Record a finished fetch: the releases enter the graph when the
    /// name is newly visited, and every dependency name not yet visited
    /// joins the queue.
    pub fn complete(&mut self, gem: String, versions: Vec<GemVersion>)
        ensures
            seq_has(strs_view(old(self).visited@), gem@) ==> final(self).graph@ == old(
                self,
            ).graph@ && final(self).visited@ == old(self).visited@,
            !seq_has(strs_view(old(self).visited@), gem@) ==> final(self).graph@.len() == old(
                self,
            ).graph@.len() + 1 && final(self).graph@.take(old(self).graph@.len() as int) == old(
                self,
            ).graph@ && final(self).graph@.last().0@ == gem@ && final(self).graph@.last().1
                == versions && strs_view(final(self).visited@) == strs_view(
                old(self).visited@,
            ).push(gem@),
            final(self).scheduled@ == old(self).scheduled@,
            strs_view(final(self).queue@) == strs_view(old(self).queue@) + spec_enqueued_upto(
                versions@,
                strs_view(final(self).visited@),
                versions@.len() as int,
            ),
    {
        let already = contains_name(&self.visited, gem.as_str());
        if !already {
            self.visited.push(gem.clone());
            proof {
                assert(strs_view(self.visited@) =~= strs_view(old(self).visited@).push(gem@));
            }
        }
        let ghost vis = strs_view(self.visited@);
        let ghost q0 = strs_view(self.queue@);
        let ghost graph0 = self.graph@;
        let ghost vis_vec = self.visited@;
        let n = versions.len();
        let mut i: usize = 0;
        proof {
            assert(strs_view(self.queue@) =~= q0 + spec_enqueued_upto(versions@, vis, 0));
        }
        while i < n
            invariant
                i <= n,
                n == versions@.len(),
                self.visited@ == vis_vec,
                vis == strs_view(self.visited@),
                self.graph@ == graph0,
                self.scheduled@ == old(self).scheduled@,
                strs_view(self.queue@) == q0 + spec_enqueued_upto(versions@, vis, i as int),
            decreases n - i,
        {
            let g = &versions[i];
            let m = g.dependencies.len();
            let mut j: usize = 0;
            proof {
                assert(spec_new_names_upto(versions@[i as int], vis, 0)
                    =~= Seq::<Seq<char>>::empty());
                assert(strs_view(self.queue@) =~= q0 + spec_enqueued_upto(versions@, vis, i as int)
                    + spec_new_names_upto(versions@[i as int], vis, 0));
            }
            while j < m
                invariant
                    j <= m,
                    i < n,
                    n == versions@.len(),
                    g == &versions@[i as int],
                    m == g.dependencies@.len(),
                    self.visited@ == vis_vec,
                    vis == strs_view(self.visited@),
                    self.graph@ == graph0,
                    self.scheduled@ == old(self).scheduled@,
                    strs_view(self.queue@) == q0 + spec_enqueued_upto(versions@, vis, i as int)
                        + spec_new_names_upto(versions@[i as int], vis, j as int),
                decreases m - j,
            {
                let dep_name = &g.dependencies[j].name;
                let seen = contains_name(&self.visited, dep_name.as_str());
                if !seen {
                    self.queue.push(dep_name.clone());
                    proof {
                        assert(strs_view(self.queue@) =~= (q0 + spec_enqueued_upto(
                            versions@,
                            vis,
                            i as int,
                        ) + spec_new_names_upto(versions@[i as int], vis, j as int)).push(
                            versions@[i as int].dependencies@[j as int].name@,
                        ));
                        assert(strs_view(self.queue@) =~= q0 + spec_enqueued_upto(
                            versions@,
                            vis,
                            i as int,
                        ) + spec_new_names_upto(versions@[i as int], vis, j + 1));
                    }
                } else {
                    proof {
                        assert(spec_new_names_upto(versions@[i as int], vis, j + 1)
                            =~= spec_new_names_upto(versions@[i as int], vis, j as int));
                    }
                }
                j = j + 1;
            }
            proof {
                assert(q0 + spec_enqueued_upto(versions@, vis, i as int) + spec_new_names_upto(
                    versions@[i as int],
                    vis,
                    versions@[i as int].dependencies@.len() as int,
                ) =~= q0 + spec_enqueued_upto(versions@, vis, i + 1));
            }
            i = i + 1;
        }
        if !already {
            let ghost gb = self.graph@;
            self.graph.push((gem, versions));
            proof {
                assert(self.graph@.take(gb.len() as int) =~= gb);
            }
        }
    }
}

/// The append protocol reconstructs the full file: when a partial body
/// starts with the last cached byte, appending everything after that
/// anchor yields exactly the cached prefix grafted with the whole body.
pub proof fn lemma_append_reconstructs(cached: Seq<u8>, body: Seq<u8>)
    requires
        cached.len() >= 1,
        body.len() >= 1,
        body[0] == cached.last(),
    ensures
        cached + body.skip(1) == cached.take(cached.len() - 1) + body,
{
    assert(cached + body.skip(1) =~= cached.take(cached.len() - 1) + body);
}

} // verus!
