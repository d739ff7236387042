//! A line-oriented parser for the manifest: `source`, `gem` and `ruby`
//! statements, and `group … do … end` blocks. Every scanning step is
//! specified positionally; the parser returns exactly what the model
//! parse yields, or an error where the model rejects.
use vstd::prelude::*;
use vstd::string::{StrSliceExecFns, StringExecFns};
use crate::text::{spec_find, spec_trim, spec_is_space, find_char, trim_str, is_space};
use crate::index::{spec_lines, split_lines};
use super::ast::{Gemfile, Source, GemStatement, GemOption, OptionValue, GroupBlock};

verus! {

/// Parse failure, with a short description.
#[derive(Debug)]
pub struct GemfileError {
    pub message: String,
}

/// The parser type; parsing itself is the free function `parse`.
#[derive(Debug)]
pub struct GemfileParser {
}

/// The model of an option value the grammar can produce.
pub enum OptValModel {
    Str(Seq<char>),
    Sym(Seq<char>),
    SymArr(Seq<Seq<char>>),
}

pub struct GemStmtModel {
    pub name: Seq<char>,
    pub version: Option<Seq<char>>,
    pub options: Seq<(Seq<char>, OptValModel)>,
}

pub struct GroupModel {
    pub names: Seq<Seq<char>>,
    pub gems: Seq<GemStmtModel>,
}

pub struct GemfileModel {
    pub sources: Seq<Seq<char>>,
    pub gems: Seq<GemStmtModel>,
    pub ruby: Option<Seq<char>>,
    pub groups: Seq<GroupModel>,
}

/// A position clamped into `[lo, hi]`, keeping scans in range.
pub open spec fn clamp_pos(p: int, lo: int, hi: int) -> int {
    if p < lo {
        lo
    } else if p > hi {
        hi
    } else {
        p
    }
}

pub open spec fn is_ident_char(c: char) -> bool {
    (65 <= (c as u32) <= 90) || (97 <= (c as u32) <= 122) || (48 <= (c as u32) <= 57) || c == '_'
}

/// The first non-whitespace position at or after `i`.
pub open spec fn sp_ws(s: Seq<char>, i: int) -> int
    decreases s.len() - i,
{
    if 0 <= i < s.len() && spec_is_space(s[i]) {
        sp_ws(s, i + 1)
    } else {
        i
    }
}

proof fn lemma_sp_ws(s: Seq<char>, i: int)
    requires
        0 <= i <= s.len(),
    ensures
        i <= sp_ws(s, i) <= s.len(),
        forall|j: int| i <= j < sp_ws(s, i) ==> spec_is_space(#[trigger] s[j]),
        sp_ws(s, i) < s.len() ==> !spec_is_space(s[sp_ws(s, i)]),
    decreases s.len() - i,
{
    if i < s.len() && spec_is_space(s[i]) {
        lemma_sp_ws(s, i + 1);
    }
}

/// Length of the identifier run at `i`.
pub open spec fn sp_ident_run(s: Seq<char>, i: int) -> int
    decreases s.len() - i,
{
    if 0 <= i < s.len() && is_ident_char(s[i]) {
        1 + sp_ident_run(s, i + 1)
    } else {
        0
    }
}

proof fn lemma_sp_ident_run(s: Seq<char>, i: int)
    requires
        0 <= i <= s.len(),
    ensures
        0 <= sp_ident_run(s, i) <= s.len() - i,
        forall|j: int| i <= j < i + sp_ident_run(s, i) ==> is_ident_char(#[trigger] s[j]),
        i + sp_ident_run(s, i) < s.len() ==> !is_ident_char(s[i + sp_ident_run(s, i)]),
    decreases s.len() - i,
{
    if i < s.len() && is_ident_char(s[i]) {
        lemma_sp_ident_run(s, i + 1);
    }
}

/// A quoted string at `i`: its text and the position after the closing
/// quote.
pub open spec fn sp_string_lit(s: Seq<char>, i: int) -> Option<(Seq<char>, int)> {
    if 0 <= i < s.len() && (s[i] == '\'' || s[i] == '"') {
        let q = s[i];
        let k = spec_find(s.skip(i + 1), q);
        if k < s.len() - i - 1 {
            Some((s.subrange(i + 1, i + 1 + k), i + 1 + k + 1))
        } else {
            None
        }
    } else {
        None
    }
}

/// A `:symbol` at `i`: its name and the position after it.
pub open spec fn sp_symbol(s: Seq<char>, i: int) -> Option<(Seq<char>, int)> {
    if 0 <= i < s.len() && s[i] == ':' {
        let k = sp_ident_run(s, i + 1);
        if k > 0 {
            Some((s.subrange(i + 1, i + 1 + k), i + 1 + k))
        } else {
            None
        }
    } else {
        None
    }
}

/// The symbols of an array body, read until the closing bracket.
pub open spec fn sp_sym_items(s: Seq<char>, i: int, acc: Seq<Seq<char>>) -> Option<
    (Seq<Seq<char>>, int),
>
    decreases s.len() - i,
{
    if i < 0 || i > s.len() {
        None
    } else {
        let j = clamp_pos(sp_ws(s, i), i, s.len() as int);
        if j >= s.len() {
            None
        } else if s[j] == ']' {
            Some((acc, j + 1))
        } else {
            match sp_symbol(s, j) {
                None => None,
                Some((name, p0)) => {
                    let p = clamp_pos(p0, j + 1, s.len() as int);
                    let j2 = clamp_pos(sp_ws(s, p), p, s.len() as int);
                    if j2 < s.len() && s[j2] == ',' {
                        sp_sym_items(s, j2 + 1, acc.push(name))
                    } else if j2 < s.len() && s[j2] == ']' {
                        Some((acc.push(name), j2 + 1))
                    } else {
                        None
                    }
                },
            }
        }
    }
}

/// One option value at `i`: a string, a symbol, or an array of symbols.
pub open spec fn sp_value(s: Seq<char>, i: int) -> Option<(OptValModel, int)> {
    if 0 <= i < s.len() {
        if s[i] == '\'' || s[i] == '"' {
            match sp_string_lit(s, i) {
                Some((t, p)) => Some((OptValModel::Str(t), p)),
                None => None,
            }
        } else if s[i] == ':' {
            match sp_symbol(s, i) {
                Some((t, p)) => Some((OptValModel::Sym(t), p)),
                None => None,
            }
        } else if s[i] == '[' {
            match sp_sym_items(s, i + 1, Seq::empty()) {
                Some((items, p)) => Some((OptValModel::SymArr(items), p)),
                None => None,
            }
        } else {
            None
        }
    } else {
        None
    }
}

/// The comma-led arguments after a gem's name: version strings (the
/// last one kept) and `key: value` options.
pub open spec fn sp_gem_args(
    s: Seq<char>,
    i: int,
    version: Option<Seq<char>>,
    opts: Seq<(Seq<char>, OptValModel)>,
) -> Option<(Option<Seq<char>>, Seq<(Seq<char>, OptValModel)>)>
    decreases s.len() - i,
{
    if i < 0 || i > s.len() {
        None
    } else {
        let j = clamp_pos(sp_ws(s, i), i, s.len() as int);
        if j >= s.len() {
            Some((version, opts))
        } else if s[j] != ',' {
            None
        } else {
            let k = clamp_pos(sp_ws(s, j + 1), j + 1, s.len() as int);
            if k >= s.len() {
                None
            } else if s[k] == '\'' || s[k] == '"' {
                match sp_string_lit(s, k) {
                    Some((t, p0)) => sp_gem_args(
                        s,
                        clamp_pos(p0, j + 1, s.len() as int),
                        Some(t),
                        opts,
                    ),
                    None => None,
                }
            } else {
                let r = sp_ident_run(s, k);
                if r > 0 && k + r < s.len() && s[clamp_pos(k + r, 0, s.len() - 1)] == ':' {
                    let key = s.subrange(k, clamp_pos(k + r, k, s.len() as int));
                    let v = clamp_pos(sp_ws(s, clamp_pos(k + r + 1, 0, s.len() as int)), j + 1, s.len() as int);
                    match sp_value(s, v) {
                        Some((val, p0)) => sp_gem_args(
                            s,
                            clamp_pos(p0, j + 1, s.len() as int),
                            version,
                            opts.push((key, val)),
                        ),
                        None => None,
                    }
                } else {
                    None
                }
            }
        }
    }
}

/// A whole gem statement after the keyword: quoted name, then arguments.
pub open spec fn sp_gem_stmt(s: Seq<char>) -> Option<GemStmtModel> {
    let j = clamp_pos(sp_ws(s, 0), 0, s.len() as int);
    match sp_string_lit(s, j) {
        None => None,
        Some((name, p)) => match sp_gem_args(s, p, None, Seq::empty()) {
            None => None,
            Some((version, options)) => Some(GemStmtModel { name, version, options }),
        },
    }
}

/// A single quoted string and nothing else after it.
pub open spec fn sp_string_only(s: Seq<char>) -> Option<Seq<char>> {
    let j = clamp_pos(sp_ws(s, 0), 0, s.len() as int);
    match sp_string_lit(s, j) {
        None => None,
        Some((t, p)) => {
            let e = clamp_pos(sp_ws(s, clamp_pos(p, 0, s.len() as int)), 0, s.len() as int);
            if e >= s.len() {
                Some(t)
            } else {
                None
            }
        },
    }
}

/// The group names before the closing `do`.
pub open spec fn sp_group_names(s: Seq<char>, i: int, acc: Seq<Seq<char>>) -> Option<
    Seq<Seq<char>>,
>
    decreases s.len() - i,
{
    if i < 0 || i > s.len() {
        None
    } else {
        let j = clamp_pos(sp_ws(s, i), i, s.len() as int);
        match sp_symbol(s, j) {
            None => None,
            Some((name, p0)) => {
                let p = clamp_pos(p0, j + 1, s.len() as int);
                let j2 = clamp_pos(sp_ws(s, p), p, s.len() as int);
                if j2 < s.len() && s[j2] == ',' {
                    sp_group_names(s, j2 + 1, acc.push(name))
                } else if j2 + 2 <= s.len() && s.subrange(j2, j2 + 2) == seq!['d', 'o']
                    && clamp_pos(sp_ws(s, j2 + 2), 0, s.len() as int) >= s.len() {
                    Some(acc.push(name))
                } else {
                    None
                }
            },
        }
    }
}

pub open spec fn line_starts(l: Seq<char>, w: Seq<char>) -> bool {
    l.len() >= w.len() && l.subrange(0, w.len() as int) == w
}

/// The whole manifest: a walk over its lines, one group open at most.
pub open spec fn sp_walk(
    lines: Seq<Seq<char>>,
    i: int,
    acc: GemfileModel,
    group: Option<GroupModel>,
) -> Option<GemfileModel>
    decreases lines.len() - i,
{
    if i < 0 {
        None
    } else if i >= lines.len() {
        if group is Some {
            None
        } else {
            Some(acc)
        }
    } else {
        let l = spec_trim(lines[i]);
        if l.len() == 0 || l[0] == '#' {
            sp_walk(lines, i + 1, acc, group)
        } else if group is Some {
            let g = group->0;
            if l == seq!['e', 'n', 'd'] {
                sp_walk(
                    lines,
                    i + 1,
                    GemfileModel { groups: acc.groups.push(g), ..acc },
                    None,
                )
            } else if line_starts(l, seq!['g', 'e', 'm', ' ']) {
                match sp_gem_stmt(l.skip(4)) {
                    Some(st) => sp_walk(
                        lines,
                        i + 1,
                        acc,
                        Some(GroupModel { gems: g.gems.push(st), ..g }),
                    ),
                    None => None,
                }
            } else {
                None
            }
        } else {
            if line_starts(l, seq!['s', 'o', 'u', 'r', 'c', 'e', ' ']) {
                match sp_string_only(l.skip(7)) {
                    Some(url) => sp_walk(
                        lines,
                        i + 1,
                        GemfileModel { sources: acc.sources.push(url), ..acc },
                        None,
                    ),
                    None => None,
                }
            } else if line_starts(l, seq!['r', 'u', 'b', 'y', ' ']) {
                match sp_string_only(l.skip(5)) {
                    Some(v) => sp_walk(
                        lines,
                        i + 1,
                        GemfileModel { ruby: Some(v), ..acc },
                        None,
                    ),
                    None => None,
                }
            } else if line_starts(l, seq!['g', 'e', 'm', ' ']) {
                match sp_gem_stmt(l.skip(4)) {
                    Some(st) => sp_walk(
                        lines,
                        i + 1,
                        GemfileModel { gems: acc.gems.push(st), ..acc },
                        None,
                    ),
                    None => None,
                }
            } else if line_starts(l, seq!['g', 'r', 'o', 'u', 'p', ' ']) {
                match sp_group_names(l.skip(6), 0, Seq::empty()) {
                    Some(names) => sp_walk(
                        lines,
                        i + 1,
                        acc,
                        Some(GroupModel { names, gems: Seq::empty() }),
                    ),
                    None => None,
                }
            } else {
                None
            }
        }
    }
}

pub open spec fn empty_model() -> GemfileModel {
    GemfileModel { sources: Seq::empty(), gems: Seq::empty(), ruby: None, groups: Seq::empty() }
}

/// What the manifest text denotes, when it parses.
pub open spec fn spec_parse_gemfile(text: Seq<char>) -> Option<GemfileModel> {
    sp_walk(spec_lines(text), 0, empty_model(), None)
}

/// The exec value realizes the model value.
pub open spec fn ov_matches(v: OptionValue, m: OptValModel) -> bool {
    match m {
        OptValModel::Str(t) => v matches OptionValue::String(s) && s@ == t,
        OptValModel::Sym(t) => v matches OptionValue::Symbol(s) && s@ == t,
        OptValModel::SymArr(ts) => v matches OptionValue::Array(items) && items@.len() == ts.len()
            && forall|k: int|
            0 <= k < ts.len() ==> ((#[trigger] items@[k]) matches OptionValue::Symbol(x) && x@
                == ts[k]),
    }
}

pub open spec fn stmt_matches(g: GemStatement, m: GemStmtModel) -> bool {
    &&& g.name@ == m.name
    &&& (match (g.version, m.version) {
        (Some(a), Some(b)) => a@ == b,
        (None, None) => true,
        _ => false,
    })
    &&& g.options@.len() == m.options.len()
    &&& forall|k: int|
        0 <= k < m.options.len() ==> (#[trigger] g.options@[k]).key@ == m.options[k].0
            && ov_matches(g.options@[k].value, m.options[k].1)
}

pub open spec fn stmts_match(gs: Seq<GemStatement>, ms: Seq<GemStmtModel>) -> bool {
    gs.len() == ms.len() && forall|k: int|
        0 <= k < ms.len() ==> stmt_matches(#[trigger] gs[k], ms[k])
}

pub open spec fn group_matches(g: GroupBlock, m: GroupModel) -> bool {
    &&& g.names@.len() == m.names.len()
    &&& forall|k: int| 0 <= k < m.names.len() ==> (#[trigger] g.names@[k])@ == m.names[k]
    &&& stmts_match(g.gems@, m.gems)
}

pub open spec fn gemfile_matches(g: Gemfile, m: GemfileModel) -> bool {
    &&& g.sources@.len() == m.sources.len()
    &&& forall|k: int|
        0 <= k < m.sources.len() ==> (#[trigger] g.sources@[k]).url@ == m.sources[k]
            && g.sources@[k].name is None
    &&& stmts_match(g.gems@, m.gems)
    &&& (match (g.ruby_version, m.ruby) {
        (Some(a), Some(b)) => a@ == b,
        (None, None) => true,
        _ => false,
    })
    &&& g.groups@.len() == m.groups.len()
    &&& forall|k: int| 0 <= k < m.groups.len() ==> group_matches(#[trigger] g.groups@[k], m.groups[k])
}

fn skip_ws_at(s: &str, i: usize) -> (r: usize)
    requires
        i <= s@.len(),
    ensures
        r == sp_ws(s@, i as int),
        i <= r <= s@.len(),
{
    proof {
        lemma_sp_ws(s@, i as int);
    }
    let len = s.unicode_len();
    let mut p = i;
    while p < len
        invariant
            i <= p <= len,
            len == s@.len(),
            sp_ws(s@, i as int) == sp_ws(s@, p as int),
        decreases len - p,
    {
        let c = s.get_char(p);
        if !is_space(c) {
            return p;
        }
        p = p + 1;
    }
    p
}

fn ident_char(c: char) -> (r: bool)
    ensures
        r == is_ident_char(c),
{
    let n = c as u32;
    (65 <= n && n <= 90) || (97 <= n && n <= 122) || (48 <= n && n <= 57) || c == '_'
}

fn ident_run_at(s: &str, i: usize) -> (r: usize)
    requires
        i <= s@.len(),
    ensures
        r == sp_ident_run(s@, i as int),
        i + r <= s@.len(),
{
    proof {
        lemma_sp_ident_run(s@, i as int);
    }
    let len = s.unicode_len();
    let mut p = i;
    while p < len
        invariant
            i <= p <= len,
            len == s@.len(),
            sp_ident_run(s@, i as int) == (p - i) + sp_ident_run(s@, p as int),
        decreases len - p,
    {
        let c = s.get_char(p);
        if !ident_char(c) {
            return p - i;
        }
        p = p + 1;
    }
    p - i
}

fn scan_string_lit(s: &str, i: usize) -> (r: Option<(String, usize)>)
    requires
        i <= s@.len(),
    ensures
        match r {
            Some(p) => (sp_string_lit(s@, i as int) matches Some(q) && p.0@ == q.0 && p.1 == q.1
                && i < p.1 <= s@.len()),
            None => sp_string_lit(s@, i as int) is None,
        },
{
    let len = s.unicode_len();
    if i >= len {
        return None;
    }
    let q = s.get_char(i);
    if !(q == '\'' || q == '"') {
        return None;
    }
    let e = find_char(s, i + 1, q);
    proof {
        assert(spec_find(s@.skip(i + 1), q) == e - i - 1);
    }
    if e >= len {
        return None;
    }
    let lit = s.substring_char(i + 1, e).to_owned();
    proof {
        assert(lit@ =~= s@.subrange(i + 1, e as int));
    }
    Some((lit, e + 1))
}

fn scan_symbol(s: &str, i: usize) -> (r: Option<(String, usize)>)
    requires
        i <= s@.len(),
    ensures
        match r {
            Some(p) => (sp_symbol(s@, i as int) matches Some(q) && p.0@ == q.0 && p.1 == q.1 && i
                < p.1 <= s@.len()),
            None => sp_symbol(s@, i as int) is None,
        },
{
    let len = s.unicode_len();
    if i >= len {
        return None;
    }
    let c = s.get_char(i);
    if c != ':' {
        return None;
    }
    let k = ident_run_at(s, i + 1);
    if k == 0 {
        return None;
    }
    let name = s.substring_char(i + 1, i + 1 + k).to_owned();
    proof {
        assert(name@ =~= s@.subrange(i + 1, i + 1 + k));
    }
    Some((name, i + 1 + k))
}

fn scan_sym_array_items(s: &str, i: usize) -> (r: Option<(Vec<OptionValue>, usize)>)
    requires
        i <= s@.len(),
    ensures
        match r {
            Some(p) => (sp_sym_items(s@, i as int, Seq::empty()) matches Some(q) && p.1 == q.1
                && i < p.1 <= s@.len() && p.0@.len() == q.0.len() && forall|k: int|
                0 <= k < q.0.len() ==> ((#[trigger] p.0@[k]) matches OptionValue::Symbol(x) && x@
                    == q.0[k])),
            None => sp_sym_items(s@, i as int, Seq::empty()) is None,
        },
{
    let len = s.unicode_len();
    let mut items: Vec<OptionValue> = Vec::new();
    let mut pos = i;
    let ghost mut names: Seq<Seq<char>> = Seq::empty();
    loop
        invariant
            i <= pos <= len,
            len == s@.len(),
            items@.len() == names.len(),
            forall|k: int|
                0 <= k < names.len() ==> ((#[trigger] items@[k]) matches OptionValue::Symbol(x)
                    && x@ == names[k]),
            sp_sym_items(s@, i as int, Seq::empty()) == sp_sym_items(s@, pos as int, names),
        ensures
            i <= pos <= len,
            len == s@.len(),
            items@.len() == names.len(),
            forall|k: int|
                0 <= k < names.len() ==> ((#[trigger] items@[k]) matches OptionValue::Symbol(x)
                    && x@ == names[k]),
            sp_sym_items(s@, i as int, Seq::empty()) == Some((names, (pos + 1) as int)),
            pos < len,
        decreases len - pos,
    {
        let j = skip_ws_at(s, pos);
        if j >= len {
            return None;
        }
        let c = s.get_char(j);
        if c == ']' {
            pos = j;
            break;
        }
        match scan_symbol(s, j) {
            None => {
                return None;
            },
            Some((name, p)) => {
                let j2 = skip_ws_at(s, p);
                proof {
                    assert(clamp_pos(p as int, j + 1, s@.len() as int) == p as int);
                    assert(clamp_pos(sp_ws(s@, p as int), p as int, s@.len() as int)
                        == j2 as int);
                }
                if j2 < len && s.get_char(j2) == ',' {
                    items.push(OptionValue::Symbol(name));
                    proof {
                        names = names.push(name@);
                    }
                    pos = j2 + 1;
                } else if j2 < len && s.get_char(j2) == ']' {
                    items.push(OptionValue::Symbol(name));
                    proof {
                        names = names.push(name@);
                    }
                    pos = j2;
                    break;
                } else {
                    return None;
                }
            },
        }
    }
    Some((items, pos + 1))
}

fn scan_value(s: &str, i: usize) -> (r: Option<(OptionValue, usize)>)
    requires
        i <= s@.len(),
    ensures
        match r {
            Some(p) => (sp_value(s@, i as int) matches Some(q) && p.1 == q.1 && i < p.1
                <= s@.len() && ov_matches(p.0, q.0)),
            None => sp_value(s@, i as int) is None,
        },
{
    let len = s.unicode_len();
    if i >= len {
        return None;
    }
    let c = s.get_char(i);
    if c == '\'' || c == '"' {
        match scan_string_lit(s, i) {
            Some((t, p)) => Some((OptionValue::String(t), p)),
            None => None,
        }
    } else if c == ':' {
        match scan_symbol(s, i) {
            Some((t, p)) => Some((OptionValue::Symbol(t), p)),
            None => None,
        }
    } else if c == '[' {
        match scan_sym_array_items(s, i + 1) {
            Some((items, p)) => Some((OptionValue::Array(items), p)),
            None => None,
        }
    } else {
        None
    }
}

fn scan_gem_stmt(s: &str) -> (r: Option<GemStatement>)
    ensures
        match r {
            Some(g) => (sp_gem_stmt(s@) matches Some(m) && stmt_matches(g, m)),
            None => sp_gem_stmt(s@) is None,
        },
{
    let j = skip_ws_at(s, 0);
    proof {
        assert(clamp_pos(sp_ws(s@, 0), 0, s@.len() as int) == j as int);
    }
    let (name, p) = match scan_string_lit(s, j) {
        Some(x) => x,
        None => {
            return None;
        },
    };
    let len = s.unicode_len();
    let mut version: Option<String> = None;
    let mut options: Vec<GemOption> = Vec::new();
    let mut pos = p;
    let ghost mut vm: Option<Seq<char>> = None;
    let ghost mut om: Seq<(Seq<char>, OptValModel)> = Seq::empty();
    loop
        invariant
            pos <= len,
            len == s@.len(),
            p <= len,
            (sp_string_lit(s@, clamp_pos(sp_ws(s@, 0), 0, s@.len() as int)) matches Some(q)
                && q.0 == name@ && q.1 == p as int),
            options@.len() == om.len(),
            (match (version, vm) {
                (Some(a), Some(b)) => a@ == b,
                (None, None) => true,
                _ => false,
            }),
            forall|k: int|
                0 <= k < om.len() ==> (#[trigger] options@[k]).key@ == om[k].0 && ov_matches(
                    options@[k].value,
                    om[k].1,
                ),
            sp_gem_args(s@, p as int, None, Seq::empty()) == sp_gem_args(s@, pos as int, vm, om),
        ensures
            options@.len() == om.len(),
            (match (version, vm) {
                (Some(a), Some(b)) => a@ == b,
                (None, None) => true,
                _ => false,
            }),
            forall|k: int|
                0 <= k < om.len() ==> (#[trigger] options@[k]).key@ == om[k].0 && ov_matches(
                    options@[k].value,
                    om[k].1,
                ),
            sp_gem_args(s@, p as int, None, Seq::empty()) == Some((vm, om)),
        decreases len - pos,
    {
        let j1 = skip_ws_at(s, pos);
        proof {
            assert(clamp_pos(sp_ws(s@, pos as int), pos as int, s@.len() as int) == j1 as int);
        }
        if j1 >= len {
            break;
        }
        if s.get_char(j1) != ',' {
            return None;
        }
        let k = skip_ws_at(s, j1 + 1);
        proof {
            assert(clamp_pos(sp_ws(s@, j1 + 1), j1 + 1, s@.len() as int) == k as int);
        }
        if k >= len {
            return None;
        }
        let ck = s.get_char(k);
        if ck == '\'' || ck == '"' {
            match scan_string_lit(s, k) {
                Some((t, p2)) => {
                    proof {
                        vm = Some(t@);
                        assert(clamp_pos(p2 as int, j1 + 1, s@.len() as int) == p2 as int);
                    }
                    version = Some(t);
                    pos = p2;
                },
                None => {
                    return None;
                },
            }
        } else {
            let rl = ident_run_at(s, k);
            if rl > 0 && k + rl < len && s.get_char(k + rl) == ':' {
                let key = s.substring_char(k, k + rl).to_owned();
                proof {
                    assert(clamp_pos((k + rl) as int, 0, s@.len() - 1) == (k + rl) as int);
                    assert(clamp_pos((k + rl) as int, k as int, s@.len() as int) == (k
                        + rl) as int);
                    assert(key@ =~= s@.subrange(k as int, (k + rl) as int));
                    assert(clamp_pos((k + rl + 1) as int, 0, s@.len() as int) == (k + rl
                        + 1) as int);
                }
                let v = skip_ws_at(s, k + rl + 1);
                proof {
                    assert(clamp_pos(sp_ws(s@, (k + rl + 1) as int), j1 + 1, s@.len() as int)
                        == v as int);
                }
                match scan_value(s, v) {
                    Some((val, p2)) => {
                        proof {
                            let qv = sp_value(s@, v as int)->0;
                            om = om.push((key@, qv.0));
                            assert(clamp_pos(p2 as int, j1 + 1, s@.len() as int) == p2 as int);
                        }
                        options.push(GemOption { key, value: val });
                        pos = p2;
                    },
                    None => {
                        return None;
                    },
                }
            } else {
                return None;
            }
        }
    }
    Some(GemStatement { name, version, options })
}

fn scan_string_only(s: &str) -> (r: Option<String>)
    ensures
        match r {
            Some(t) => (sp_string_only(s@) matches Some(q) && t@ == q),
            None => sp_string_only(s@) is None,
        },
{
    let j = skip_ws_at(s, 0);
    proof {
        assert(clamp_pos(sp_ws(s@, 0), 0, s@.len() as int) == j as int);
    }
    match scan_string_lit(s, j) {
        None => None,
        Some((t, p)) => {
            proof {
                assert(clamp_pos(p as int, 0, s@.len() as int) == p as int);
            }
            let e = skip_ws_at(s, p);
            proof {
                assert(clamp_pos(sp_ws(s@, p as int), 0, s@.len() as int) == e as int);
            }
            let len = s.unicode_len();
            if e >= len {
                Some(t)
            } else {
                None
            }
        },
    }
}

fn scan_group_names(s: &str) -> (r: Option<Vec<String>>)
    ensures
        match r {
            Some(names) => (sp_group_names(s@, 0, Seq::empty()) matches Some(q) && names@.len()
                == q.len() && forall|k: int|
                0 <= k < q.len() ==> (#[trigger] names@[k])@ == q[k]),
            None => sp_group_names(s@, 0, Seq::empty()) is None,
        },
{
    let len = s.unicode_len();
    let mut names: Vec<String> = Vec::new();
    let ghost mut nm: Seq<Seq<char>> = Seq::empty();
    let mut pos: usize = 0;
    loop
        invariant
            pos <= len,
            len == s@.len(),
            names@.len() == nm.len(),
            forall|k: int| 0 <= k < nm.len() ==> (#[trigger] names@[k])@ == nm[k],
            sp_group_names(s@, 0, Seq::empty()) == sp_group_names(s@, pos as int, nm),
        ensures
            names@.len() == nm.len(),
            forall|k: int| 0 <= k < nm.len() ==> (#[trigger] names@[k])@ == nm[k],
            sp_group_names(s@, 0, Seq::empty()) == Some(nm),
        decreases len - pos,
    {
        let j = skip_ws_at(s, pos);
        proof {
            assert(clamp_pos(sp_ws(s@, pos as int), pos as int, s@.len() as int) == j as int);
        }
        let (name, p) = match scan_symbol(s, j) {
            Some(x) => x,
            None => {
                return None;
            },
        };
        let j2 = skip_ws_at(s, p);
        proof {
            assert(clamp_pos(p as int, j + 1, s@.len() as int) == p as int);
            assert(clamp_pos(sp_ws(s@, p as int), p as int, s@.len() as int) == j2 as int);
        }
        if j2 < len && s.get_char(j2) == ',' {
            names.push(name);
            proof {
                let qs = sp_symbol(s@, j as int)->0;
                nm = nm.push(qs.0);
            }
            pos = j2 + 1;
        } else if j2 < len && len - j2 >= 2 && s.get_char(j2) == 'd' && s.get_char(j2 + 1) == 'o' {
            let e = skip_ws_at(s, j2 + 2);
            proof {
                assert(s@.subrange(j2 as int, j2 + 2) =~= seq!['d', 'o']);
                assert(clamp_pos(sp_ws(s@, j2 + 2), 0, s@.len() as int) == e as int);
            }
            if e >= len {
                names.push(name);
                proof {
                    let qs = sp_symbol(s@, j as int)->0;
                nm = nm.push(qs.0);
                }
                return Some(names);
            }
            return None;
        } else {
            proof {
                if j2 + 2 <= s@.len() {
                    assert(s@.subrange(j2 as int, j2 + 2) != seq!['d', 'o']) by {
                        if s@.subrange(j2 as int, j2 + 2) == seq!['d', 'o'] {
                            assert(s@.subrange(j2 as int, j2 + 2)[0] == s@[j2 as int]);
                            assert(s@.subrange(j2 as int, j2 + 2)[1] == s@[j2 + 1]);
                        }
                    }
                }
            }
            return None;
        }
    }
    None
}

/// Parse a manifest text into its statements; an error wherever the
/// grammar rejects.
#[verifier::rlimit(80)]
pub fn parse(input: &str) -> (r: Result<Gemfile, GemfileError>)
    ensures
        match spec_parse_gemfile(input@) {
            Some(m) => (r matches Ok(g) && gemfile_matches(g, m)),
            None => r is Err,
        },
{
    let all_lines = split_lines(input);
    let ghost linesv = Seq::new(all_lines@.len(), |i: int| all_lines@[i]@);
    proof {
        assert forall|i: int| 0 <= i < linesv.len() implies #[trigger] linesv[i] == spec_lines(
            input@,
        )[i] by {}
        assert(linesv =~= spec_lines(input@));
    }
    let n = all_lines.len();
    let mut gemfile = Gemfile {
        sources: Vec::new(),
        gems: Vec::new(),
        ruby_version: None,
        groups: Vec::new(),
    };
    let mut group_names: Option<Vec<String>> = None;
    let mut group_gems: Vec<GemStatement> = Vec::new();
    let ghost mut am: GemfileModel = empty_model();
    let ghost mut gm: Option<GroupModel> = None;
    let mut i: usize = 0;
    while i < n
        invariant
            i <= n,
            n == all_lines@.len(),
            linesv == Seq::new(all_lines@.len(), |i: int| all_lines@[i]@),
            linesv == spec_lines(input@),
            spec_parse_gemfile(input@) == sp_walk(linesv, i as int, am, gm),
            gemfile_matches(gemfile, am),
            (match (group_names, gm) {
                (Some(ns), Some(g)) => ns@.len() == g.names.len() && (forall|k: int|
                    0 <= k < g.names.len() ==> (#[trigger] ns@[k])@ == g.names[k]) && stmts_match(
                    group_gems@,
                    g.gems,
                ),
                (None, None) => true,
                _ => false,
            }),
        decreases n - i,
    {
        let line = trim_str(all_lines[i].as_str());
        let ghost l = spec_trim(linesv[i as int]);
        proof {
            assert(line@ == l);
        }
        let llen = line.unicode_len();
        if llen == 0 || line.get_char(0) == '#' {
            // a blank or comment line
        } else if group_names.is_some() {
            proof {
                reveal_strlit("end");
                assert("end"@ =~= seq!['e', 'n', 'd']);
            }
            if crate::text::str_eq(line, "end") {
                let names = group_names.unwrap();
                group_names = None;
                let gems = group_gems;
                group_gems = Vec::new();
                gemfile.groups.push(GroupBlock { names, gems });
                proof {
                    let g = gm->0;
                    am = GemfileModel { groups: am.groups.push(g), ..am };
                    gm = None;
                }
            } else if llen >= 4 && line.get_char(0) == 'g' && line.get_char(1) == 'e'
                && line.get_char(2) == 'm' && line.get_char(3) == ' ' {
                proof {
                    assert(l.subrange(0, 4) =~= seq!['g', 'e', 'm', ' ']);
                }
                let tail = line.substring_char(4, llen);
                proof {
                    assert(tail@ =~= l.skip(4));
                }
                match scan_gem_stmt(tail) {
                    Some(st) => {
                        group_gems.push(st);
                        proof {
                            let g = gm->0;
                            gm = Some(
                                GroupModel { gems: g.gems.push(sp_gem_stmt(l.skip(4))->0), ..g },
                            );
                        }
                    },
                    None => {
                        return Err(
                            GemfileError { message: String::from_str("expected a gem statement") },
                        );
                    },
                }
            } else {
                proof {
                    assert(!line_starts(l, seq!['g', 'e', 'm', ' '])) by {
                        if line_starts(l, seq!['g', 'e', 'm', ' ']) {
                            assert(l.subrange(0, 4)[0] == l[0]);
                            assert(l.subrange(0, 4)[1] == l[1]);
                            assert(l.subrange(0, 4)[2] == l[2]);
                            assert(l.subrange(0, 4)[3] == l[3]);
                        }
                    }
                }
                return Err(
                    GemfileError {
                        message: String::from_str("only gem statements may stand in a group"),
                    },
                );
            }
        } else {
            let is_source = llen >= 7 && line.get_char(0) == 's' && line.get_char(1) == 'o'
                && line.get_char(2) == 'u' && line.get_char(3) == 'r' && line.get_char(4) == 'c'
                && line.get_char(5) == 'e' && line.get_char(6) == ' ';
            let is_ruby = llen >= 5 && line.get_char(0) == 'r' && line.get_char(1) == 'u'
                && line.get_char(2) == 'b' && line.get_char(3) == 'y' && line.get_char(4) == ' ';
            let is_gem = llen >= 4 && line.get_char(0) == 'g' && line.get_char(1) == 'e'
                && line.get_char(2) == 'm' && line.get_char(3) == ' ';
            let is_group = llen >= 6 && line.get_char(0) == 'g' && line.get_char(1) == 'r'
                && line.get_char(2) == 'o' && line.get_char(3) == 'u' && line.get_char(4) == 'p'
                && line.get_char(5) == ' ';
            proof {
                lemma_line_starts(l, seq!['s', 'o', 'u', 'r', 'c', 'e', ' '], is_source);
                lemma_line_starts(l, seq!['r', 'u', 'b', 'y', ' '], is_ruby);
                lemma_line_starts(l, seq!['g', 'e', 'm', ' '], is_gem);
                lemma_line_starts(l, seq!['g', 'r', 'o', 'u', 'p', ' '], is_group);
            }
            if is_source {
                let tail = line.substring_char(7, llen);
                proof {
                    assert(tail@ =~= l.skip(7));
                }
                match scan_string_only(tail) {
                    Some(url) => {
                        gemfile.sources.push(Source { name: None, url });
                        proof {
                            am = GemfileModel {
                                sources: am.sources.push(sp_string_only(l.skip(7))->0),
                                ..am
                            };
                        }
                    },
                    None => {
                        return Err(
                            GemfileError { message: String::from_str("expected a source URL") },
                        );
                    },
                }
            } else if is_ruby {
                let tail = line.substring_char(5, llen);
                proof {
                    assert(tail@ =~= l.skip(5));
                }
                match scan_string_only(tail) {
                    Some(v) => {
                        gemfile.ruby_version = Some(v);
                        proof {
                            am = GemfileModel { ruby: Some(sp_string_only(l.skip(5))->0), ..am };
                        }
                    },
                    None => {
                        return Err(
                            GemfileError {
                                message: String::from_str("expected an interpreter version"),
                            },
                        );
                    },
                }
            } else if is_gem {
                let tail = line.substring_char(4, llen);
                proof {
                    assert(tail@ =~= l.skip(4));
                }
                match scan_gem_stmt(tail) {
                    Some(st) => {
                        gemfile.gems.push(st);
                        proof {
                            am = GemfileModel { gems: am.gems.push(sp_gem_stmt(l.skip(4))->0), ..am };
                        }
                    },
                    None => {
                        return Err(
                            GemfileError { message: String::from_str("expected a gem statement") },
                        );
                    },
                }
            } else if is_group {
                let tail = line.substring_char(6, llen);
                proof {
                    assert(tail@ =~= l.skip(6));
                }
                match scan_group_names(tail) {
                    Some(ns) => {
                        group_names = Some(ns);
                        group_gems = Vec::new();
                        proof {
                            gm = Some(
                                GroupModel {
                                    names: sp_group_names(l.skip(6), 0, Seq::empty())->0,
                                    gems: Seq::empty(),
                                },
                            );
                        }
                    },
                    None => {
                        return Err(
                            GemfileError { message: String::from_str("expected group names") },
                        );
                    },
                }
            } else {
                return Err(GemfileError { message: String::from_str("unrecognized statement") });
            }
        }
        i = i + 1;
    }
    if group_names.is_some() {
        return Err(GemfileError { message: String::from_str("a group block was not closed") });
    }
    Ok(gemfile)
}

proof fn lemma_line_starts(l: Seq<char>, w: Seq<char>, flag: bool)
    requires
        flag == (l.len() >= w.len() && forall|j: int| 0 <= j < w.len() ==> l[j] == w[j]),
    ensures
        flag == line_starts(l, w),
{
    if l.len() >= w.len() {
        if forall|j: int| 0 <= j < w.len() ==> l[j] == w[j] {
            assert(l.subrange(0, w.len() as int) =~= w);
        } else {
            if l.subrange(0, w.len() as int) == w {
                assert forall|j: int| 0 <= j < w.len() implies l[j] == w[j] by {
                    assert(l.subrange(0, w.len() as int)[j] == l[j]);
                }
            }
        }
    }
}

} // verus!
