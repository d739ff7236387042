//! The lockfile writer: a canonical, sorted rendering of a resolution.
//!
//! The text is specified as a function of the solution's and the side
//! table's models alone, so equal inputs give byte-identical lockfiles.
//! Packages and dependencies are sorted by name; a dependency's raw
//! requirement strings are rendered reversed under `specs:` and in
//! recorded order under `DEPENDENCIES`; a requirement list that says
//! nothing beyond `">= 0"` is omitted.
use vstd::prelude::*;
use vstd::string::{StrSliceExecFns, StringExecFns};
use core::cmp::Ordering;
use crate::text::{
    lex_cmp, cmp_str, str_eq, lemma_lex_cmp_antisym, lemma_lex_cmp_trans, lemma_lex_cmp_equal_iff,
};
use crate::version::{RubyVersion, VersionModel, SegModel, spec_render};
use crate::ranges::clone_version;
use crate::resolver::{Resolver, meta_lookup, meta_strings_view, meta_index, meta_matches};

verus! {

/// Insert at the end of its key's run: after every entry whose key is
/// not above the new one.
pub open spec fn spec_insert_by_name<A>(sorted: Seq<(Seq<char>, A)>, x: (Seq<char>, A)) -> Seq<
    (Seq<char>, A),
>
    decreases sorted.len(),
{
    if sorted.len() == 0 {
        seq![x]
    } else if lex_cmp(x.0, sorted.last().0) == Ordering::Less {
        spec_insert_by_name(sorted.drop_last(), x).push(sorted.last())
    } else {
        sorted.push(x)
    }
}

/// Stable insertion sort by the first component.
pub open spec fn spec_sort_by_name<A>(s: Seq<(Seq<char>, A)>) -> Seq<(Seq<char>, A)>
    decreases s.len(),
{
    if s.len() == 0 {
        Seq::empty()
    } else {
        spec_insert_by_name(spec_sort_by_name(s.drop_last()), s.last())
    }
}

pub open spec fn spec_reverse<A>(s: Seq<A>) -> Seq<A>
    decreases s.len(),
{
    if s.len() == 0 {
        Seq::empty()
    } else {
        seq![s.last()] + spec_reverse(s.drop_last())
    }
}

/// The first `i` strings joined with `", "`.
pub open spec fn spec_join_comma_upto(parts: Seq<Seq<char>>, i: int) -> Seq<char>
    decreases i,
{
    if i <= 0 {
        Seq::empty()
    } else {
        spec_join_comma_upto(parts, i - 1) + (if i - 1 > 0 {
            seq![',', ' ']
        } else {
            Seq::<char>::empty()
        }) + parts[i - 1]
    }
}

/// The strings joined with `", "`.
pub open spec fn spec_join_comma(parts: Seq<Seq<char>>) -> Seq<char> {
    spec_join_comma_upto(parts, parts.len() as int)
}

pub proof fn lemma_reverse_index<A>(s: Seq<A>)
    ensures
        spec_reverse(s).len() == s.len(),
        forall|i: int| 0 <= i < s.len() ==> #[trigger] spec_reverse(s)[i] == s[s.len() - 1 - i],
    decreases s.len(),
{
    if s.len() > 0 {
        lemma_reverse_index(s.drop_last());
        assert forall|i: int| 0 <= i < s.len() implies #[trigger] spec_reverse(s)[i] == s[s.len()
            - 1 - i] by {
            if i > 0 {
                assert(spec_reverse(s)[i] == spec_reverse(s.drop_last())[i - 1]);
                assert(s.drop_last()[s.len() - 1 - i] == s[s.len() - 1 - i]);
            }
        }
    }
}

/// The unconstrained requirement string.
pub open spec fn default_req_text() -> Seq<char> {
    seq!['>', '=', ' ', '0']
}

/// Whether every clause string is the unconstrained one.
pub open spec fn spec_all_default(rs: Seq<Seq<char>>) -> bool {
    forall|i: int| 0 <= i < rs.len() ==> #[trigger] rs[i] == default_req_text()
}

/// One dependency line: indent, name, and the parenthesized clause list
/// unless it says nothing.
pub open spec fn spec_dep_line(indent: Seq<char>, dn: Seq<char>, rs: Seq<Seq<char>>) -> Seq<char> {
    indent + dn + (if spec_all_default(rs) {
        Seq::<char>::empty()
    } else {
        seq![' ', '('] + spec_join_comma(rs) + seq![')']
    }) + seq!['\n']
}

/// The dependency lines of one block, from position `i` on already done.
pub open spec fn spec_dep_lines_upto(
    indent: Seq<char>,
    rev: bool,
    ds: Seq<(Seq<char>, Seq<Seq<char>>)>,
    i: int,
) -> Seq<char>
    decreases i,
{
    if i <= 0 {
        Seq::empty()
    } else {
        spec_dep_lines_upto(indent, rev, ds, i - 1) + spec_dep_line(
            indent,
            ds[i - 1].0,
            if rev {
                spec_reverse(ds[i - 1].1)
            } else {
                ds[i - 1].1
            },
        )
    }
}

/// The model of the side table, keyed by name and version model.
pub open spec fn metav(m: Seq<((String, RubyVersion), Vec<(String, Vec<String>)>)>) -> Seq<
    ((Seq<char>, VersionModel), Seq<(Seq<char>, Seq<Seq<char>>)>),
> {
    Seq::new(m.len(), |i: int| ((m[i].0.0@, m[i].0.1@), meta_strings_view(m[i].1@)))
}

pub open spec fn metav_index(
    m: Seq<((Seq<char>, VersionModel), Seq<(Seq<char>, Seq<Seq<char>>)>)>,
    name: Seq<char>,
    vm: VersionModel,
) -> int
    decreases m.len(),
{
    if m.len() == 0 {
        0
    } else if m[0].0 == (name, vm) {
        0
    } else {
        1 + metav_index(m.skip(1), name, vm)
    }
}

pub open spec fn metav_lookup(
    m: Seq<((Seq<char>, VersionModel), Seq<(Seq<char>, Seq<Seq<char>>)>)>,
    name: Seq<char>,
    vm: VersionModel,
) -> Option<Seq<(Seq<char>, Seq<Seq<char>>)>> {
    let i = metav_index(m, name, vm);
    if i < m.len() {
        Some(m[i].1)
    } else {
        None
    }
}

/// The two lookups walk the same table.
pub proof fn lemma_meta_lookup_view(
    m: Seq<((String, RubyVersion), Vec<(String, Vec<String>)>)>,
    name: Seq<char>,
    v: &RubyVersion,
)
    ensures
        metav_index(metav(m), name, v@) == meta_index(m, name, v),
        metav_lookup(metav(m), name, v@) == meta_lookup(m, name, v),
    decreases m.len(),
{
    if m.len() > 0 {
        assert(metav(m)[0].0 == (m[0].0.0@, m[0].0.1@));
        if meta_matches(m[0], name, v) {
            assert(metav(m)[0].0 == (name, v@));
            assert(metav(m)[0].1 == meta_strings_view(m[0].1@));
        } else {
            if metav(m)[0].0 == (name, v@) {
                assert(m[0].0.0@ == name && m[0].0.1@ == v@);
            }
            lemma_meta_lookup_view(m.skip(1), name, v);
            assert(metav(m).skip(1) =~= metav(m.skip(1)));
            let i2 = metav_index(metav(m), name, v@);
            let i1 = meta_index(m, name, v);
            assert(i2 == 1 + metav_index(metav(m.skip(1)), name, v@));
            assert(i1 == 1 + meta_index(m.skip(1), name, v));
            crate::resolver::lemma_meta_index(m.skip(1), name, v);
            crate::resolver::lemma_meta_index(m, name, v);
            assert(i2 == i1);
            if i2 < metav(m).len() {
                assert(metav(m)[i2] == metav(m).skip(1)[i2 - 1]);
                assert(metav(m)[i2] == metav(m.skip(1))[i2 - 1]);
            }
            if i1 < m.len() {
                assert(m[i1] == m.skip(1)[i1 - 1]);
                assert(meta_strings_view(m[i1].1@) == meta_strings_view(m.skip(1)[i1 - 1].1@));
            }
        }
    }
}

/// The spec entry of one resolved package, or nothing for the synthetic
/// root.
pub open spec fn spec_pkg_entry(
    name: Seq<char>,
    vm: VersionModel,
    meta: Seq<((Seq<char>, VersionModel), Seq<(Seq<char>, Seq<Seq<char>>)>)>,
) -> Seq<char> {
    if name == seq!['r', 'o', 'o', 't'] {
        Seq::empty()
    } else {
        let head = seq![' ', ' ', ' ', ' '] + name + seq![' ', '('] + spec_render(vm) + seq![
            ')',
            '\n',
        ];
        let body = match metav_lookup(meta, name, vm) {
            None => Seq::<char>::empty(),
            Some(ds) => {
                let sorted = spec_sort_by_name(ds);
                spec_dep_lines_upto(
                    seq![' ', ' ', ' ', ' ', ' ', ' '],
                    true,
                    sorted,
                    sorted.len() as int,
                )
            },
        };
        head + body
    }
}

/// The `specs:` section over the first `i` sorted packages.
pub open spec fn spec_pkgs_upto(
    sorted: Seq<(Seq<char>, VersionModel)>,
    meta: Seq<((Seq<char>, VersionModel), Seq<(Seq<char>, Seq<Seq<char>>)>)>,
    i: int,
) -> Seq<char>
    decreases i,
{
    if i <= 0 {
        Seq::empty()
    } else {
        spec_pkgs_upto(sorted, meta, i - 1) + spec_pkg_entry(sorted[i - 1].0, sorted[i - 1].1, meta)
    }
}

/// The model of the synthetic root version.
pub open spec fn root_version_model() -> VersionModel {
    VersionModel {
        segs: seq![SegModel::Num(0), SegModel::Num(0), SegModel::Num(0)],
        platform: None,
    }
}

/// The `DEPENDENCIES` section: the root's requirements, sorted, in
/// recorded clause order.
pub open spec fn spec_root_section(
    meta: Seq<((Seq<char>, VersionModel), Seq<(Seq<char>, Seq<Seq<char>>)>)>,
) -> Seq<char> {
    match metav_lookup(meta, seq!['r', 'o', 'o', 't'], root_version_model()) {
        None => Seq::<char>::empty(),
        Some(ds) => {
            let sorted = spec_sort_by_name(ds);
            spec_dep_lines_upto(seq![' ', ' '], false, sorted, sorted.len() as int)
        },
    }
}

/// The whole lockfile text.
pub open spec fn spec_lockfile(
    sols: Seq<(Seq<char>, VersionModel)>,
    meta: Seq<((Seq<char>, VersionModel), Seq<(Seq<char>, Seq<Seq<char>>)>)>,
    remote: Seq<char>,
    bundled_with: Seq<char>,
) -> Seq<char> {
    let sorted = spec_sort_by_name(sols);
    "GEM\n  remote: "@ + remote + "\n  specs:\n"@ + spec_pkgs_upto(
        sorted,
        meta,
        sorted.len() as int,
    ) + "\nPLATFORMS\n  ruby\n\nDEPENDENCIES\n"@ + spec_root_section(meta)
        + "\nBUNDLED WITH\n   "@ + bundled_with + "\n"@
}

/// Ascending by name.
pub open spec fn sorted_by_name<A>(s: Seq<(Seq<char>, A)>) -> bool {
    forall|i: int, j: int|
        0 <= i < j < s.len() ==> lex_cmp((#[trigger] s[i]).0, (#[trigger] s[j]).0)
            != core::cmp::Ordering::Greater
}

/// Each name at most once.
pub open spec fn names_unique<A>(s: Seq<(Seq<char>, A)>) -> bool {
    forall|i: int, j: int| 0 <= i < j < s.len() ==> (#[trigger] s[i]).0 != (#[trigger] s[j]).0
}

proof fn lemma_insert_by_name_ensures<A>(sorted: Seq<(Seq<char>, A)>, x: (Seq<char>, A))
    requires
        sorted_by_name(sorted),
    ensures
        sorted_by_name(spec_insert_by_name(sorted, x)),
        spec_insert_by_name(sorted, x).to_multiset() == sorted.to_multiset().insert(x),
        spec_insert_by_name(sorted, x).len() == sorted.len() + 1,
    decreases sorted.len(),
{
    broadcast use vstd::seq_lib::group_to_multiset_ensures;
    broadcast use vstd::multiset::group_multiset_axioms;

    let res = spec_insert_by_name(sorted, x);
    if sorted.len() == 0 {
        assert(seq![x] =~= Seq::<(Seq<char>, A)>::empty().push(x));
        assert(sorted =~= Seq::<(Seq<char>, A)>::empty());
    } else if lex_cmp(x.0, sorted.last().0) == Ordering::Less {
        let d = sorted.drop_last();
        let last = sorted.last();
        assert forall|i: int, j: int|
            0 <= i < j < d.len() implies lex_cmp((#[trigger] d[i]).0, (#[trigger] d[j]).0)
            != core::cmp::Ordering::Greater by {
            assert(d[i] == sorted[i]);
            assert(d[j] == sorted[j]);
        }
        lemma_insert_by_name_ensures(d, x);
        let rec = spec_insert_by_name(d, x);
        assert(res == rec.push(last));
        // everything placed before the detached last element stays below it
        assert forall|i: int|
            0 <= i < rec.len() implies lex_cmp((#[trigger] rec[i]).0, last.0)
            != core::cmp::Ordering::Greater by {
            assert(rec.contains(rec[i]));
            assert(rec.to_multiset().count(rec[i]) > 0);
            assert(d.to_multiset().insert(x).count(rec[i]) > 0);
            if rec[i] == x {
                lemma_lex_cmp_antisym(x.0, last.0);
            } else {
                assert(d.to_multiset().count(rec[i]) > 0);
                assert(d.contains(rec[i]));
                let j = choose|j: int| 0 <= j < d.len() && d[j] == rec[i];
                assert(d[j] == sorted[j]);
                if j < sorted.len() - 1 {
                    assert(lex_cmp(sorted[j].0, sorted[sorted.len() - 1].0)
                        != core::cmp::Ordering::Greater);
                } else {
                    lemma_lex_cmp_equal_iff(sorted[j].0, last.0);
                }
            }
        }
        assert forall|i: int, j: int|
            0 <= i < j < res.len() implies lex_cmp((#[trigger] res[i]).0, (#[trigger] res[j]).0)
            != core::cmp::Ordering::Greater by {
            if j < rec.len() {
                assert(res[i] == rec[i]);
                assert(res[j] == rec[j]);
            } else {
                assert(res[j] == last);
                assert(res[i] == rec[i]);
            }
        }
        // the detached element commutes with the inserted one in the multiset
        assert(sorted =~= d.push(last));
        assert(res.to_multiset() =~= rec.to_multiset().insert(last));
        assert(d.to_multiset().insert(x).insert(last) =~= d.to_multiset().insert(last).insert(x));
        assert(sorted.to_multiset() =~= d.to_multiset().insert(last));
    } else {
        assert(res == sorted.push(x));
        lemma_lex_cmp_antisym(x.0, sorted.last().0);
        assert forall|i: int, j: int|
            0 <= i < j < res.len() implies lex_cmp((#[trigger] res[i]).0, (#[trigger] res[j]).0)
            != core::cmp::Ordering::Greater by {
            if j < sorted.len() {
                assert(res[i] == sorted[i]);
                assert(res[j] == sorted[j]);
            } else {
                assert(res[j] == x);
                assert(res[i] == sorted[i]);
                if i < sorted.len() - 1 {
                    assert(lex_cmp(sorted[i].0, sorted[sorted.len() - 1].0)
                        != core::cmp::Ordering::Greater);
                } else {
                    lemma_lex_cmp_equal_iff(sorted[i].0, sorted.last().0);
                }
                lemma_lex_cmp_trans(sorted[i].0, sorted.last().0, x.0);
            }
        }
    }
}

/// The sort is sorted and holds exactly the input's entries.
pub proof fn lemma_sort_by_name_ensures<A>(s: Seq<(Seq<char>, A)>)
    ensures
        sorted_by_name(spec_sort_by_name(s)),
        spec_sort_by_name(s).to_multiset() == s.to_multiset(),
        spec_sort_by_name(s).len() == s.len(),
    decreases s.len(),
{
    broadcast use vstd::seq_lib::group_to_multiset_ensures;

    if s.len() == 0 {
        assert(s =~= Seq::<(Seq<char>, A)>::empty());
    } else {
        let d = s.drop_last();
        lemma_sort_by_name_ensures(d);
        lemma_insert_by_name_ensures(spec_sort_by_name(d), s.last());
        assert(s =~= d.push(s.last()));
        assert(spec_sort_by_name(s).to_multiset() =~= s.to_multiset());
    }
}

/// Two name-sorted lists with unique names and the same entries are the
/// same list.
pub proof fn lemma_sorted_unique_equal<A>(s1: Seq<(Seq<char>, A)>, s2: Seq<(Seq<char>, A)>)
    requires
        sorted_by_name(s1),
        sorted_by_name(s2),
        names_unique(s1),
        names_unique(s2),
        s1.to_multiset() == s2.to_multiset(),
    ensures
        s1 == s2,
    decreases s1.len(),
{
    broadcast use vstd::seq_lib::group_to_multiset_ensures;
    broadcast use vstd::multiset::group_multiset_axioms;

    assert(s1.to_multiset().len() == s1.len());
    assert(s2.to_multiset().len() == s2.len());
    if s1.len() == 0 {
        assert(s2.len() == 0);
        assert(s1 =~= s2);
    } else {
        assert(s2.len() == s1.len());
        // each list's last entry occurs in the other
        assert(s1.contains(s1.last()));
        assert(s2.to_multiset().count(s1.last()) > 0);
        assert(s2.contains(s1.last()));
        let j = choose|j: int| 0 <= j < s2.len() && s2[j] == s1.last();
        assert(s2.contains(s2.last()));
        assert(s1.to_multiset().count(s2.last()) > 0);
        assert(s1.contains(s2.last()));
        let i = choose|i: int| 0 <= i < s1.len() && s1[i] == s2.last();
        // the two last names bound each other, so they are equal
        if j < s2.len() - 1 {
            assert(lex_cmp(s2[j].0, s2[s2.len() - 1].0) != core::cmp::Ordering::Greater);
        } else {
            lemma_lex_cmp_equal_iff(s2[j].0, s2.last().0);
        }
        if i < s1.len() - 1 {
            assert(lex_cmp(s1[i].0, s1[s1.len() - 1].0) != core::cmp::Ordering::Greater);
        } else {
            lemma_lex_cmp_equal_iff(s1[i].0, s1.last().0);
        }
        lemma_lex_cmp_trans(s1.last().0, s2.last().0, s1.last().0);
        lemma_lex_cmp_antisym(s1.last().0, s2.last().0);
        if lex_cmp(s1.last().0, s2.last().0) == Ordering::Less {
            lemma_lex_cmp_trans(s2.last().0, s1.last().0, s2.last().0);
            lemma_lex_cmp_equal_iff(s2.last().0, s2.last().0);
            assert(false);
        }
        lemma_lex_cmp_equal_iff(s1.last().0, s2.last().0);
        assert(s1.last().0 == s2.last().0);
        // unique names force the found occurrence to be the last entry
        assert(s2[j].0 == s2[s2.len() - 1].0);
        if j < s2.len() - 1 {
            assert(false);
        }
        assert(s2.last() == s1.last());
        // peel the equal last entries and recur
        let d1 = s1.drop_last();
        let d2 = s2.drop_last();
        assert(s1 =~= d1.push(s1.last()));
        assert(s2 =~= d2.push(s2.last()));
        assert(d1.to_multiset().insert(s1.last()) == d2.to_multiset().insert(s1.last()));
        assert forall|a: (Seq<char>, A)| d1.to_multiset().count(a) == d2.to_multiset().count(
            a,
        ) by {
            assert(d1.to_multiset().insert(s1.last()).count(a) == d2.to_multiset().insert(
                s1.last(),
            ).count(a));
        }
        assert(d1.to_multiset() =~= d2.to_multiset());
        assert forall|x: int, y: int|
            0 <= x < y < d1.len() implies lex_cmp((#[trigger] d1[x]).0, (#[trigger] d1[y]).0)
            != core::cmp::Ordering::Greater && d1[x].0 != d1[y].0 by {
            assert(d1[x] == s1[x]);
            assert(d1[y] == s1[y]);
        }
        assert forall|x: int, y: int|
            0 <= x < y < d2.len() implies lex_cmp((#[trigger] d2[x]).0, (#[trigger] d2[y]).0)
            != core::cmp::Ordering::Greater && d2[x].0 != d2[y].0 by {
            assert(d2[x] == s2[x]);
            assert(d2[y] == s2[y]);
        }
        lemma_sorted_unique_equal(d1, d2);
        assert(s1 =~= s2);
    }
}

/// Sorting cancels recording order: lists that hold the same entries,
/// each name once, sort to the same list.
pub proof fn lemma_sort_by_name_permutation<A>(s1: Seq<(Seq<char>, A)>, s2: Seq<(Seq<char>, A)>)
    requires
        s1.to_multiset() == s2.to_multiset(),
        names_unique(s1),
        names_unique(s2),
    ensures
        spec_sort_by_name(s1) == spec_sort_by_name(s2),
{
    broadcast use vstd::seq_lib::group_to_multiset_ensures;

    lemma_sort_by_name_ensures(s1);
    lemma_sort_by_name_ensures(s2);
    let t1 = spec_sort_by_name(s1);
    let t2 = spec_sort_by_name(s2);
    lemma_multiset_names_unique(s1, t1);
    lemma_multiset_names_unique(s2, t2);
    lemma_sorted_unique_equal(t1, t2);
}

/// Name uniqueness carries over to any list with the same entries.
proof fn lemma_multiset_names_unique<A>(s: Seq<(Seq<char>, A)>, t: Seq<(Seq<char>, A)>)
    requires
        names_unique(s),
        s.to_multiset() == t.to_multiset(),
    ensures
        names_unique(t),
{
    broadcast use vstd::seq_lib::group_to_multiset_ensures;

    assert forall|i: int, j: int|
        0 <= i < j < t.len() implies (#[trigger] t[i]).0 != (#[trigger] t[j]).0 by {
        if t[i].0 == t[j].0 {
            if t[i] == t[j] {
                // a doubled entry would count twice in the shared entries
                let r = t.remove(j);
                assert(r.to_multiset() == t.to_multiset().remove(t[j]));
                assert(r[i] == t[i]);
                assert(r.contains(t[i]));
                assert(r.to_multiset().count(t[i]) > 0);
                assert(t.to_multiset().count(t[i]) >= 2);
                assert(s.to_multiset().count(t[i]) >= 2);
                lemma_unique_count(s, t[i]);
                assert(false);
            } else {
                // two distinct entries of the same name both occur in `s`
                assert(t.contains(t[i]));
                assert(s.to_multiset().count(t[i]) > 0);
                assert(s.contains(t[i]));
                let a = choose|a: int| 0 <= a < s.len() && s[a] == t[i];
                assert(t.contains(t[j]));
                assert(s.to_multiset().count(t[j]) > 0);
                assert(s.contains(t[j]));
                let b = choose|b: int| 0 <= b < s.len() && s[b] == t[j];
                assert(a != b);
                assert(s[a].0 == s[b].0);
                assert(false);
            }
        }
    }
}

/// In a name-unique list every entry counts once.
proof fn lemma_unique_count<A>(s: Seq<(Seq<char>, A)>, e: (Seq<char>, A))
    requires
        names_unique(s),
    ensures
        s.to_multiset().count(e) <= 1,
    decreases s.len(),
{
    broadcast use vstd::seq_lib::group_to_multiset_ensures;
    broadcast use vstd::multiset::group_multiset_axioms;

    if s.len() == 0 {
        assert(s =~= Seq::<(Seq<char>, A)>::empty());
        if s.to_multiset().count(e) > 0 {
            assert(s.contains(e));
            assert(false);
        }
    } else {
        let d = s.drop_last();
        assert forall|x: int, y: int|
            0 <= x < y < d.len() implies (#[trigger] d[x]).0 != (#[trigger] d[y]).0 by {
            assert(d[x] == s[x]);
            assert(d[y] == s[y]);
        }
        lemma_unique_count(d, e);
        assert(s =~= d.push(s.last()));
        assert(s.to_multiset() =~= d.to_multiset().insert(s.last()));
        if e == s.last() {
            // the name of the last entry occurs nowhere earlier
            if d.to_multiset().count(e) > 0 {
                assert(d.contains(e));
                let a = choose|a: int| 0 <= a < d.len() && d[a] == e;
                assert(s[a].0 == s[s.len() - 1].0);
                assert(false);
            }
        }
    }
}

/// Recording order leaves no trace: two solution lists with the same
/// packages, each name once and in any order, render the same lockfile.
pub proof fn lemma_lockfile_order_invariant(
    sols1: Seq<(Seq<char>, VersionModel)>,
    sols2: Seq<(Seq<char>, VersionModel)>,
    meta: Seq<((Seq<char>, VersionModel), Seq<(Seq<char>, Seq<Seq<char>>)>)>,
    remote: Seq<char>,
    bundled_with: Seq<char>,
)
    requires
        sols1.to_multiset() == sols2.to_multiset(),
        names_unique(sols1),
        names_unique(sols2),
    ensures
        spec_lockfile(sols1, meta, remote, bundled_with) == spec_lockfile(
            sols2,
            meta,
            remote,
            bundled_with,
        ),
{
    lemma_sort_by_name_permutation(sols1, sols2);
}

/// Within one block the recorded order of dependencies leaves no trace:
/// records holding the same dependencies, each name once, render the
/// same lines once sorted.
pub proof fn lemma_dep_block_order_invariant(
    indent: Seq<char>,
    rev: bool,
    ds1: Seq<(Seq<char>, Seq<Seq<char>>)>,
    ds2: Seq<(Seq<char>, Seq<Seq<char>>)>,
)
    requires
        ds1.to_multiset() == ds2.to_multiset(),
        names_unique(ds1),
        names_unique(ds2),
    ensures
        spec_dep_lines_upto(
            indent,
            rev,
            spec_sort_by_name(ds1),
            spec_sort_by_name(ds1).len() as int,
        ) == spec_dep_lines_upto(
            indent,
            rev,
            spec_sort_by_name(ds2),
            spec_sort_by_name(ds2).len() as int,
        ),
{
    lemma_sort_by_name_permutation(ds1, ds2);
}

/// Byte-identical lockfiles for identical inputs: the text depends on
/// the models of the solution and the recorded strings alone.
pub proof fn lemma_lockfile_deterministic(
    sols1: Seq<(Seq<char>, VersionModel)>,
    meta1: Seq<((Seq<char>, VersionModel), Seq<(Seq<char>, Seq<Seq<char>>)>)>,
    sols2: Seq<(Seq<char>, VersionModel)>,
    meta2: Seq<((Seq<char>, VersionModel), Seq<(Seq<char>, Seq<Seq<char>>)>)>,
    remote: Seq<char>,
    bundled_with: Seq<char>,
)
    requires
        sols1 == sols2,
        meta1 == meta2,
    ensures
        spec_lockfile(sols1, meta1, remote, bundled_with) == spec_lockfile(
            sols2,
            meta2,
            remote,
            bundled_with,
        ),
{
}

/// The model of a solution list.
pub open spec fn sols_view(s: Seq<(String, RubyVersion)>) -> Seq<(Seq<char>, VersionModel)> {
    Seq::new(s.len(), |i: int| (s[i].0@, s[i].1@))
}

/// Insert a resolved package into a name-sorted list.
fn insert_sol(v: Vec<(String, RubyVersion)>, x: (String, RubyVersion)) -> (r: Vec<
    (String, RubyVersion),
>)
    ensures
        sols_view(r@) == spec_insert_by_name(sols_view(v@), (x.0@, x.1@)),
    decreases v.len(),
{
    let ghost before = sols_view(v@);
    let n = v.len();
    if n == 0 {
        let mut r = v;
        r.push(x);
        proof {
            assert(sols_view(r@) =~= seq![(x.0@, x.1@)]);
        }
        r
    } else {
        let less = matches!(cmp_str(x.0.as_str(), v[n - 1].0.as_str()), Ordering::Less);
        if less {
            let mut v2 = v;
            let last = v2.pop().unwrap();
            proof {
                assert(sols_view(v2@) =~= before.drop_last());
                assert((last.0@, last.1@) == before.last());
            }
            let mut r = insert_sol(v2, x);
            r.push(last);
            proof {
                assert(sols_view(r@) =~= spec_insert_by_name(before.drop_last(), (x.0@, x.1@)).push(
                    before.last(),
                ));
            }
            r
        } else {
            let mut r = v;
            r.push(x);
            proof {
                assert(sols_view(r@) =~= before.push((x.0@, x.1@)));
            }
            r
        }
    }
}

/// Copies of the solution entries, sorted by package name.
fn sort_sols(src: &Vec<(String, RubyVersion)>) -> (r: Vec<(String, RubyVersion)>)
    ensures
        sols_view(r@) == spec_sort_by_name(sols_view(src@)),
{
    let n = src.len();
    let mut acc: Vec<(String, RubyVersion)> = Vec::new();
    let mut i: usize = 0;
    proof {
        assert(sols_view(acc@) =~= spec_sort_by_name(sols_view(src@).take(0)));
    }
    while i < n
        invariant
            i <= n,
            n == src@.len(),
            sols_view(acc@) == spec_sort_by_name(sols_view(src@).take(i as int)),
        decreases n - i,
    {
        let name = src[i].0.clone();
        let ver = clone_version(&src[i].1);
        let next = insert_sol(acc, (name, ver));
        acc = next;
        proof {
            assert(sols_view(src@).take(i + 1).drop_last() =~= sols_view(src@).take(i as int));
            assert(sols_view(src@).take(i + 1).last() == sols_view(src@)[i as int]);
        }
        i = i + 1;
    }
    proof {
        assert(sols_view(src@).take(n as int) =~= sols_view(src@));
    }
    acc
}

/// Insert a dependency record into a name-sorted list.
fn insert_dep(v: Vec<(String, Vec<String>)>, x: (String, Vec<String>)) -> (r: Vec<
    (String, Vec<String>),
>)
    ensures
        meta_strings_view(r@) == spec_insert_by_name(
            meta_strings_view(v@),
            (x.0@, x.1@.map_values(|s: String| s@)),
        ),
    decreases v.len(),
{
    let ghost before = meta_strings_view(v@);
    let ghost xv = (x.0@, x.1@.map_values(|s: String| s@));
    let n = v.len();
    if n == 0 {
        let mut r = v;
        r.push(x);
        proof {
            assert(meta_strings_view(r@) =~= seq![xv]);
        }
        r
    } else {
        let less = matches!(cmp_str(x.0.as_str(), v[n - 1].0.as_str()), Ordering::Less);
        if less {
            let mut v2 = v;
            let last = v2.pop().unwrap();
            proof {
                assert(meta_strings_view(v2@) =~= before.drop_last());
                assert((last.0@, last.1@.map_values(|s: String| s@)) == before.last());
            }
            let mut r = insert_dep(v2, x);
            r.push(last);
            proof {
                assert(meta_strings_view(r@) =~= spec_insert_by_name(before.drop_last(), xv).push(
                    before.last(),
                ));
            }
            r
        } else {
            let mut r = v;
            r.push(x);
            proof {
                assert(meta_strings_view(r@) =~= before.push(xv));
            }
            r
        }
    }
}

/// A copy of a dependency record with an equal model.
fn clone_dep(d: &(String, Vec<String>)) -> (r: (String, Vec<String>))
    ensures
        r.0@ == d.0@,
        r.1@.map_values(|s: String| s@) == d.1@.map_values(|s: String| s@),
{
    let n = d.1.len();
    let mut strings: Vec<String> = Vec::new();
    let mut i: usize = 0;
    while i < n
        invariant
            i <= n,
            n == d.1@.len(),
            strings@.len() == i,
            forall|j: int| 0 <= j < i ==> #[trigger] strings@[j]@ == d.1@[j]@,
        decreases n - i,
    {
        strings.push(d.1[i].clone());
        i = i + 1;
    }
    proof {
        assert(strings@.map_values(|s: String| s@) =~= d.1@.map_values(|s: String| s@));
    }
    (d.0.clone(), strings)
}

/// Copies of a dependency list, sorted by name.
fn sort_deps(src: &Vec<(String, Vec<String>)>) -> (r: Vec<(String, Vec<String>)>)
    ensures
        meta_strings_view(r@) == spec_sort_by_name(meta_strings_view(src@)),
{
    let n = src.len();
    let mut acc: Vec<(String, Vec<String>)> = Vec::new();
    let mut i: usize = 0;
    proof {
        assert(meta_strings_view(acc@) =~= spec_sort_by_name(meta_strings_view(src@).take(0)));
    }
    while i < n
        invariant
            i <= n,
            n == src@.len(),
            meta_strings_view(acc@) == spec_sort_by_name(meta_strings_view(src@).take(i as int)),
        decreases n - i,
    {
        let entry = clone_dep(&src[i]);
        let ghost ev = (entry.0@, entry.1@.map_values(|s: String| s@));
        proof {
            assert(ev == meta_strings_view(src@)[i as int]);
        }
        let next = insert_dep(acc, entry);
        acc = next;
        proof {
            assert(meta_strings_view(src@).take(i + 1).drop_last() =~= meta_strings_view(
                src@,
            ).take(i as int));
            assert(meta_strings_view(src@).take(i + 1).last() == meta_strings_view(
                src@,
            )[i as int]);
        }
        i = i + 1;
    }
    proof {
        assert(meta_strings_view(src@).take(n as int) =~= meta_strings_view(src@));
    }
    acc
}

/// Append the clause strings joined with `", "`, in stored or reversed
/// order.
fn append_clauses(out: &mut String, rs: &Vec<String>, rev: bool)
    ensures
        final(out)@ == old(out)@ + spec_join_comma(
            if rev {
                spec_reverse(rs@.map_values(|s: String| s@))
            } else {
                rs@.map_values(|s: String| s@)
            },
        ),
{
    let ghost base = out@;
    let ghost parts = if rev {
        spec_reverse(rs@.map_values(|s: String| s@))
    } else {
        rs@.map_values(|s: String| s@)
    };
    proof {
        lemma_reverse_index(rs@.map_values(|s: String| s@));
    }
    let n = rs.len();
    let mut i: usize = 0;
    while i < n
        invariant
            i <= n,
            n == rs@.len(),
            n == parts.len(),
            base == old(out)@,
            parts == (if rev {
                spec_reverse(rs@.map_values(|s: String| s@))
            } else {
                rs@.map_values(|s: String| s@)
            }),
            forall|j: int|
                0 <= j < n ==> #[trigger] parts[j] == (if rev {
                    rs@[n - 1 - j]@
                } else {
                    rs@[j]@
                }),
            out@ == base + spec_join_comma_upto(parts, i as int),
        decreases n - i,
    {
        if i > 0 {
            out.append(", ");
            proof {
                reveal_strlit(", ");
                assert(", "@ =~= seq![',', ' ']);
            }
        }
        let piece: &String = if rev {
            &rs[n - 1 - i]
        } else {
            &rs[i]
        };
        out.append(piece.as_str());
        proof {
            if i > 0 {
                assert(out@ =~= base + (spec_join_comma_upto(parts, i as int) + seq![',', ' ']
                    + parts[i as int]));
                assert(base + (spec_join_comma_upto(parts, i as int) + seq![',', ' ']
                    + parts[i as int]) =~= base + spec_join_comma_upto(parts, i + 1));
            } else {
                assert(out@ =~= base + spec_join_comma_upto(parts, i + 1));
            }
        }
        i = i + 1;
    }
    proof {
        assert(out@ == base + spec_join_comma(parts));
    }
}

/// Whether every clause string is `">= 0"`.
fn all_default(rs: &Vec<String>) -> (r: bool)
    ensures
        r == spec_all_default(rs@.map_values(|s: String| s@)),
{
    proof {
        reveal_strlit(">= 0");
        assert(">= 0"@ =~= default_req_text());
    }
    let n = rs.len();
    let mut i: usize = 0;
    while i < n
        invariant
            i <= n,
            n == rs@.len(),
            forall|j: int| 0 <= j < i ==> #[trigger] rs@[j]@ == default_req_text(),
        decreases n - i,
    {
        if !str_eq(rs[i].as_str(), ">= 0") {
            proof {
                reveal_strlit(">= 0");
                assert(">= 0"@ =~= default_req_text());
                assert(rs@.map_values(|s: String| s@)[i as int] != default_req_text());
            }
            return false;
        }
        proof {
            reveal_strlit(">= 0");
            assert(">= 0"@ =~= default_req_text());
        }
        i = i + 1;
    }
    proof {
        let mapped = rs@.map_values(|s: String| s@);
        assert forall|j: int| 0 <= j < n implies #[trigger] mapped[j] == default_req_text() by {
            assert(rs@[j]@ == default_req_text());
        }
    }
    true
}

/// Whether every model clause is the unconstrained one — reversal does
/// not change that.
proof fn lemma_all_default_reverse(rs: Seq<Seq<char>>)
    ensures
        spec_all_default(spec_reverse(rs)) == spec_all_default(rs),
{
    lemma_reverse_index(rs);
    if spec_all_default(rs) {
        assert forall|i: int|
            0 <= i < spec_reverse(rs).len() implies #[trigger] spec_reverse(rs)[i]
            == default_req_text() by {
            assert(spec_reverse(rs)[i] == rs[rs.len() - 1 - i]);
        }
    }
    if spec_all_default(spec_reverse(rs)) {
        assert forall|i: int| 0 <= i < rs.len() implies #[trigger] rs[i] == default_req_text() by {
            assert(spec_reverse(rs)[rs.len() - 1 - i] == rs[i]);
        }
    }
}

/// Append the lines of one dependency block, sorted order assumed, each
/// line with the given indent.
fn append_dep_lines(out: &mut String, ds: &Vec<(String, Vec<String>)>, indent: &str, rev: bool)
    ensures
        final(out)@ == old(out)@ + spec_dep_lines_upto(
            indent@,
            rev,
            meta_strings_view(ds@),
            ds@.len() as int,
        ),
{
    let ghost base = out@;
    let ghost dsv = meta_strings_view(ds@);
    let n = ds.len();
    let mut i: usize = 0;
    while i < n
        invariant
            i <= n,
            n == ds@.len(),
            base == old(out)@,
            dsv == meta_strings_view(ds@),
            out@ == base + spec_dep_lines_upto(indent@, rev, dsv, i as int),
        decreases n - i,
    {
        let ghost before = out@;
        out.append(indent);
        out.append(ds[i].0.as_str());
        let rs = &ds[i].1;
        let ghost rsv = if rev {
            spec_reverse(dsv[i as int].1)
        } else {
            dsv[i as int].1
        };
        let defaulted = all_default(rs);
        proof {
            lemma_all_default_reverse(dsv[i as int].1);
            assert(spec_all_default(rsv) == defaulted);
        }
        if !defaulted {
            out.append(" (");
            append_clauses(out, rs, rev);
            out.append(")");
            proof {
                reveal_strlit(" (");
                reveal_strlit(")");
                assert(" ("@ =~= seq![' ', '(']);
                assert(")"@ =~= seq![')']);
            }
        }
        out.append("\n");
        proof {
            reveal_strlit("\n");
            assert("\n"@ =~= seq!['\n']);
            assert(out@ =~= before + spec_dep_line(indent@, dsv[i as int].0, rsv));
            assert(before + spec_dep_line(indent@, dsv[i as int].0, rsv) =~= base
                + spec_dep_lines_upto(indent@, rev, dsv, i + 1));
        }
        i = i + 1;
    }
}

/// Render the canonical lockfile for a resolved assignment.
pub fn render_lockfile(
    solutions: &Vec<(String, RubyVersion)>,
    resolver: &Resolver,
    remote: &str,
    bundled_with: &str,
) -> (r: String)
    ensures
        r@ == spec_lockfile(
            sols_view(solutions@),
            metav(resolver.lock_meta@),
            remote@,
            bundled_with@,
        ),
{
    let ghost meta = metav(resolver.lock_meta@);
    let sorted = sort_sols(solutions);
    let ghost sv = sols_view(sorted@);
    let mut out = String::new();
    out.append("GEM\n  remote: ");
    out.append(remote);
    out.append("\n  specs:\n");
    let ghost header = "GEM\n  remote: "@ + remote@ + "\n  specs:\n"@;
    proof {
        assert(out@ =~= header);
        assert(out@ =~= header + spec_pkgs_upto(sv, meta, 0));
    }
    let n = sorted.len();
    let mut i: usize = 0;
    while i < n
        invariant
            i <= n,
            n == sorted@.len(),
            sv == sols_view(sorted@),
            meta == metav(resolver.lock_meta@),
            out@ == header + spec_pkgs_upto(sv, meta, i as int),
        decreases n - i,
    {
        let ghost before = out@;
        let name = &sorted[i].0;
        let ver = &sorted[i].1;
        proof {
            reveal_strlit("root");
            assert("root"@ =~= seq!['r', 'o', 'o', 't']);
        }
        if !str_eq(name.as_str(), "root") {
            out.append("    ");
            out.append(name.as_str());
            out.append(" (");
            let vtext = ver.to_string();
            out.append(vtext.as_str());
            out.append(")\n");
            proof {
                reveal_strlit("    ");
                reveal_strlit(" (");
                reveal_strlit(")\n");
                assert("    "@ =~= seq![' ', ' ', ' ', ' ']);
                assert(" ("@ =~= seq![' ', '(']);
                assert(")\n"@ =~= seq![')', '\n']);
            }
            let ghost head = seq![' ', ' ', ' ', ' '] + name@ + seq![' ', '('] + spec_render(ver@)
                + seq![')', '\n'];
            proof {
                assert(out@ =~= before + head);
                lemma_meta_lookup_view(resolver.lock_meta@, name@, ver);
            }
            match resolver.get_dependencies_str(name, ver) {
                Some(ds) => {
                    let sorted_ds = sort_deps(ds);
                    append_dep_lines(&mut out, &sorted_ds, "      ", true);
                    proof {
                        reveal_strlit("      ");
                        assert("      "@ =~= seq![' ', ' ', ' ', ' ', ' ', ' ']);
                        assert(out@ =~= before + spec_pkg_entry(sv[i as int].0, sv[i as int].1,
                            meta,
                        ));
                    }
                },
                None => {
                    proof {
                        assert(out@ =~= before + spec_pkg_entry(sv[i as int].0, sv[i as int].1,
                            meta,
                        ));
                    }
                },
            }
        } else {
            proof {
                assert(spec_pkg_entry(sv[i as int].0, sv[i as int].1, meta)
                    =~= Seq::<char>::empty());
                assert(out@ =~= before + spec_pkg_entry(sv[i as int].0, sv[i as int].1, meta));
            }
        }
        proof {
            assert(out@ =~= header + spec_pkgs_upto(sv, meta, i + 1));
        }
        i = i + 1;
    }
    out.append("\nPLATFORMS\n  ruby\n\nDEPENDENCIES\n");
    let ghost mid = header + spec_pkgs_upto(sv, meta, n as int)
        + "\nPLATFORMS\n  ruby\n\nDEPENDENCIES\n"@;
    proof {
        assert(out@ =~= mid);
    }
    let root_name = String::from_str("root");
    let root_ver = RubyVersion::new(0, 0, 0);
    proof {
        reveal_strlit("root");
        assert("root"@ =~= seq!['r', 'o', 'o', 't']);
        assert(root_ver@ =~= root_version_model());
        lemma_meta_lookup_view(resolver.lock_meta@, seq!['r', 'o', 'o', 't'], &root_ver);
    }
    match resolver.get_dependencies_str(&root_name, &root_ver) {
        Some(ds) => {
            let sorted_ds = sort_deps(ds);
            append_dep_lines(&mut out, &sorted_ds, "  ", false);
            proof {
                reveal_strlit("  ");
                assert("  "@ =~= seq![' ', ' ']);
                assert(out@ =~= mid + spec_root_section(meta));
            }
        },
        None => {
            proof {
                assert(out@ =~= mid + spec_root_section(meta));
            }
        },
    }
    out.append("\nBUNDLED WITH\n   ");
    out.append(bundled_with);
    out.append("\n");
    proof {
        assert(out@ =~= spec_lockfile(sols_view(solutions@), meta, remote@, bundled_with@));
    }
    out
}

} // verus!
