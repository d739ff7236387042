//! Character-sequence utilities shared by the version algebra and the
//! text emitters: lexicographic comparison, decimal rendering and parsing,
//! and searching for a separator.
use vstd::prelude::*;
use vstd::string::StrSliceExecFns;
use core::cmp::Ordering;

verus! {

/// Lexicographic comparison of two character sequences by code point.
pub open spec fn lex_cmp(a: Seq<char>, b: Seq<char>) -> Ordering
    decreases a.len(), b.len(),
{
    if a.len() == 0 && b.len() == 0 {
        Ordering::Equal
    } else if a.len() == 0 {
        Ordering::Less
    } else if b.len() == 0 {
        Ordering::Greater
    } else if (a[0] as u32) < (b[0] as u32) {
        Ordering::Less
    } else if (a[0] as u32) > (b[0] as u32) {
        Ordering::Greater
    } else {
        lex_cmp(a.skip(1), b.skip(1))
    }
}

/// Casting to a code point is injective on characters.
pub proof fn lemma_char_cast_inj(a: char, b: char)
    requires
        (a as u32) == (b as u32),
    ensures
        a == b,
{
    vstd::utf8::char_u32_cast(a, a as u32);
    vstd::utf8::char_u32_cast(b, b as u32);
}

pub proof fn lemma_lex_cmp_equal_iff(a: Seq<char>, b: Seq<char>)
    ensures
        lex_cmp(a, b) == Ordering::Equal <==> a == b,
    decreases a.len(), b.len(),
{
    if a.len() == 0 && b.len() == 0 {
        assert(a =~= b);
    } else if a.len() == 0 || b.len() == 0 {
        assert(a != b);
    } else if (a[0] as u32) == (b[0] as u32) {
        lemma_char_cast_inj(a[0], b[0]);
        lemma_lex_cmp_equal_iff(a.skip(1), b.skip(1));
        if lex_cmp(a, b) == Ordering::Equal {
            assert(a =~= seq![a[0]] + a.skip(1));
            assert(b =~= seq![b[0]] + b.skip(1));
        } else {
            if a == b {
                assert(a.skip(1) == b.skip(1));
            }
        }
    } else {
        if a == b {
            assert(a[0] == b[0]);
        }
    }
}

pub proof fn lemma_lex_cmp_antisym(a: Seq<char>, b: Seq<char>)
    ensures
        lex_cmp(a, b) == Ordering::Less <==> lex_cmp(b, a) == Ordering::Greater,
        lex_cmp(a, b) == Ordering::Equal <==> lex_cmp(b, a) == Ordering::Equal,
    decreases a.len(), b.len(),
{
    if a.len() > 0 && b.len() > 0 && (a[0] as u32) == (b[0] as u32) {
        lemma_lex_cmp_antisym(a.skip(1), b.skip(1));
    }
}

pub proof fn lemma_lex_cmp_trans(a: Seq<char>, b: Seq<char>, c: Seq<char>)
    requires
        lex_cmp(a, b) != Ordering::Greater,
        lex_cmp(b, c) != Ordering::Greater,
    ensures
        lex_cmp(a, c) != Ordering::Greater,
        lex_cmp(a, b) == Ordering::Less || lex_cmp(b, c) == Ordering::Less
            ==> lex_cmp(a, c) == Ordering::Less,
    decreases a.len(), b.len(), c.len(),
{
    if a.len() == 0 {
        if c.len() == 0 {
            if b.len() > 0 {
                assert(lex_cmp(b, c) == Ordering::Greater);
            }
        }
    } else {
        // a nonempty, so b nonempty (else lex_cmp(a,b) == Greater), so c nonempty
        if b.len() == 0 {
            assert(false);
        }
        if c.len() == 0 {
            assert(false);
        }
        if (a[0] as u32) == (b[0] as u32) && (b[0] as u32) == (c[0] as u32) {
            lemma_lex_cmp_trans(a.skip(1), b.skip(1), c.skip(1));
        }
    }
}

/// Compare two string slices lexicographically by code point.
pub fn cmp_str(a: &str, b: &str) -> (r: Ordering)
    ensures
        r == lex_cmp(a@, b@),
{
    let a_len = a.unicode_len();
    let b_len = b.unicode_len();
    let mut i: usize = 0;
    proof {
        assert(a@.skip(0) =~= a@);
        assert(b@.skip(0) =~= b@);
    }
    loop
        invariant
            i <= a_len,
            i <= b_len,
            a_len == a@.len(),
            b_len == b@.len(),
            lex_cmp(a@, b@) == lex_cmp(a@.skip(i as int), b@.skip(i as int)),
        decreases a_len - i,
    {
        if i == a_len && i == b_len {
            return Ordering::Equal;
        }
        if i == a_len {
            return Ordering::Less;
        }
        if i == b_len {
            return Ordering::Greater;
        }
        let ca = a.get_char(i);
        let cb = b.get_char(i);
        let na = ca as u32;
        let nb = cb as u32;
        if na < nb {
            return Ordering::Less;
        }
        if na > nb {
            return Ordering::Greater;
        }
        proof {
            assert(a@.skip(i as int).skip(1) =~= a@.skip(i + 1));
            assert(b@.skip(i as int).skip(1) =~= b@.skip(i + 1));
        }
        i = i + 1;
    }
}

/// Equality of two string slices, decided by comparison.
pub fn str_eq(a: &str, b: &str) -> (r: bool)
    ensures
        r == (a@ == b@),
{
    let c = cmp_str(a, b);
    proof {
        lemma_lex_cmp_equal_iff(a@, b@);
    }
    matches!(c, Ordering::Equal)
}

/// Relies on `String::push`: appends exactly the given character.
#[verifier::external_body]
pub fn push_char(s: &mut String, c: char)
    ensures
        final(s)@ == old(s)@.push(c),
{
    s.push(c);
}

/// Whether a character is an ASCII decimal digit.
pub open spec fn spec_is_digit(c: char) -> bool {
    48 <= (c as u32) <= 57
}

pub fn is_digit(c: char) -> (r: bool)
    ensures
        r == spec_is_digit(c),
{
    let n = c as u32;
    48 <= n && n <= 57
}

/// Numeric value of an ASCII digit character.
pub open spec fn spec_digit_val(c: char) -> nat {
    ((c as u32) - 48) as nat
}

/// Value of a digit sequence read in decimal, as an unbounded natural.
pub open spec fn spec_dec_nat(s: Seq<char>) -> nat
    decreases s.len(),
{
    if s.len() == 0 {
        0
    } else {
        spec_dec_nat(s.drop_last()) * 10 + spec_digit_val(s.last())
    }
}

/// Value of a digit sequence as a `u64`; values that do not fit fall back to 0.
pub open spec fn spec_dec_u64(s: Seq<char>) -> u64 {
    if spec_dec_nat(s) > u64::MAX {
        0
    } else {
        spec_dec_nat(s) as u64
    }
}

proof fn lemma_dec_nat_monotone(s: Seq<char>, i: int)
    requires
        0 <= i <= s.len(),
    ensures
        spec_dec_nat(s.take(i)) <= spec_dec_nat(s),
    decreases s.len() - i,
{
    if i == s.len() {
        assert(s.take(i) =~= s);
    } else {
        lemma_dec_nat_monotone(s, i + 1);
        assert(s.take(i + 1).drop_last() =~= s.take(i));
        assert(spec_dec_nat(s.take(i + 1)) == spec_dec_nat(s.take(i)) * 10 + spec_digit_val(
            s.take(i + 1).last(),
        ));
    }
}

/// Decimal value of the digit characters of `s`, with fallback to 0 when the
/// value does not fit in a `u64`.
pub fn dec_value(s: &str) -> (r: u64)
    requires
        forall|j: int| 0 <= j < s@.len() ==> spec_is_digit(#[trigger] s@[j]),
    ensures
        r == spec_dec_u64(s@),
{
    let len = s.unicode_len();
    let mut i: usize = 0;
    let mut acc: u64 = 0;
    let mut over: bool = false;
    while i < len
        invariant
            i <= len,
            len == s@.len(),
            forall|j: int| 0 <= j < s@.len() ==> spec_is_digit(#[trigger] s@[j]),
            !over ==> acc == spec_dec_nat(s@.take(i as int)) && spec_dec_nat(s@.take(i as int))
                <= u64::MAX,
            over ==> spec_dec_nat(s@.take(i as int)) > u64::MAX,
        decreases len - i,
    {
        let c = s.get_char(i);
        let n = c as u32;
        let d: u64 = (n - 48) as u64;
        proof {
            assert(s@.take(i + 1).drop_last() =~= s@.take(i as int));
            assert(s@.take(i + 1).last() == s@[i as int]);
            assert(spec_dec_nat(s@.take(i + 1)) == spec_dec_nat(s@.take(i as int)) * 10
                + spec_digit_val(s@[i as int]));
        }
        if !over {
            if acc <= (u64::MAX - d) / 10 {
                proof {
                    assert(acc * 10 + d <= u64::MAX) by (nonlinear_arith)
                        requires
                            acc <= (u64::MAX - d) / 10,
                            d <= u64::MAX,
                    ;
                }
                acc = acc * 10 + d;
            } else {
                over = true;
                proof {
                    assert(acc * 10 + d > u64::MAX) by (nonlinear_arith)
                        requires
                            acc > (u64::MAX - d) / 10,
                            d <= u64::MAX,
                    ;
                }
            }
        } else {
            proof {
                lemma_dec_nat_monotone(s@.take(i + 1), i as int);
                assert(s@.take(i + 1).take(i as int) =~= s@.take(i as int));
            }
        }
        i = i + 1;
    }
    proof {
        assert(s@.take(len as int) =~= s@);
    }
    if over {
        0
    } else {
        acc
    }
}

/// Decimal rendering of a `u64`.
pub open spec fn spec_u64_string(n: u64) -> Seq<char>
    decreases n,
{
    if n < 10 {
        seq![spec_digit_char(n)]
    } else {
        spec_u64_string(n / 10).push(spec_digit_char(n % 10))
    }
}

/// The ASCII character of a single decimal digit.
pub open spec fn spec_digit_char(n: u64) -> char
    recommends
        n < 10,
{
    ((n + 48) as u8) as char
}

fn digit_char(n: u64) -> (r: char)
    requires
        n < 10,
    ensures
        r == spec_digit_char(n),
{
    ((n + 48) as u8) as char
}

/// Append the decimal rendering of `n` to `out`.
pub fn append_u64(out: &mut String, n: u64)
    ensures
        final(out)@ == old(out)@ + spec_u64_string(n),
    decreases n,
{
    if n < 10 {
        push_char(out, digit_char(n));
    } else {
        append_u64(out, n / 10);
        push_char(out, digit_char(n % 10));
    }
}

/// Index of the first occurrence of `c` in `s`, or `s.len()` when absent.
pub open spec fn spec_find(s: Seq<char>, c: char) -> int
    decreases s.len(),
{
    if s.len() == 0 {
        0
    } else if s[0] == c {
        0
    } else {
        1 + spec_find(s.skip(1), c)
    }
}

pub proof fn lemma_spec_find(s: Seq<char>, c: char)
    ensures
        0 <= spec_find(s, c) <= s.len(),
        forall|j: int| 0 <= j < spec_find(s, c) ==> s[j] != c,
        spec_find(s, c) < s.len() ==> s[spec_find(s, c)] == c,
    decreases s.len(),
{
    if s.len() > 0 && s[0] != c {
        lemma_spec_find(s.skip(1), c);
        assert forall|j: int| 0 <= j < spec_find(s, c) implies s[j] != c by {
            if j > 0 {
                assert(s.skip(1)[j - 1] == s[j]);
            }
        }
    }
}

/// The pieces of `s` between occurrences of the separator `c`; an empty
/// input yields one empty piece, as splitting does in Rust.
pub open spec fn spec_split(s: Seq<char>, c: char) -> Seq<Seq<char>>
    decreases s.len(),
{
    let k = spec_find(s, c);
    if 0 <= k < s.len() {
        seq![s.take(k)] + spec_split(s.skip(k + 1), c)
    } else {
        seq![s]
    }
}

/// The pieces joined back with the separator `'.'` between them.
pub open spec fn spec_join(parts: Seq<Seq<char>>) -> Seq<char>
    decreases parts.len(),
{
    if parts.len() == 0 {
        Seq::empty()
    } else if parts.len() == 1 {
        parts[0]
    } else {
        parts[0] + seq!['.'] + spec_join(parts.skip(1))
    }
}

pub proof fn lemma_find_at(s: Seq<char>, c: char, k: int)
    requires
        0 <= k <= s.len(),
        forall|j: int| 0 <= j < k ==> s[j] != c,
        k < s.len() ==> s[k] == c,
    ensures
        spec_find(s, c) == if k < s.len() {
            k
        } else {
            s.len() as int
        },
{
    lemma_spec_find(s, c);
    if k < s.len() {
        if spec_find(s, c) < k {
            assert(s[spec_find(s, c)] == c);
        }
    }
}

pub proof fn lemma_join_push(parts: Seq<Seq<char>>, p: Seq<char>)
    requires
        parts.len() > 0,
    ensures
        spec_join(parts.push(p)) == spec_join(parts) + seq!['.'] + p,
    decreases parts.len(),
{
    if parts.len() == 1 {
        assert(parts.push(p)[0] == parts[0]);
        assert(parts.push(p).skip(1) =~= seq![p]);
        assert(spec_join(seq![p]) == p);
        assert(spec_join(parts.push(p)) == parts[0] + seq!['.'] + p);
    } else {
        assert(parts.push(p).skip(1) =~= parts.skip(1).push(p));
        lemma_join_push(parts.skip(1), p);
        assert(parts.push(p)[0] == parts[0]);
        assert(spec_join(parts.push(p)) == parts[0] + seq!['.'] + (spec_join(parts.skip(1))
            + seq!['.'] + p));
        assert(parts[0] + seq!['.'] + (spec_join(parts.skip(1)) + seq!['.'] + p) =~= (parts[0]
            + seq!['.'] + spec_join(parts.skip(1))) + seq!['.'] + p);
    }
}

/// A character absent from every piece and distinct from the separator is
/// absent from the join.
pub proof fn lemma_join_no_char(parts: Seq<Seq<char>>, c: char)
    requires
        c != '.',
        forall|i: int, j: int|
            0 <= i < parts.len() && 0 <= j < parts[i].len() ==> #[trigger] parts[i][j] != c,
    ensures
        forall|j: int| 0 <= j < spec_join(parts).len() ==> #[trigger] spec_join(parts)[j] != c,
    decreases parts.len(),
{
    if parts.len() <= 1 {
    } else {
        assert forall|i: int, j: int|
            0 <= i < parts.skip(1).len() && 0 <= j < parts.skip(1)[i].len() implies #[trigger] parts.skip(
            1,
        )[i][j] != c by {
            assert(parts.skip(1)[i] == parts[i + 1]);
        }
        lemma_join_no_char(parts.skip(1), c);
        let s = spec_join(parts);
        let head = parts[0];
        let rest = spec_join(parts.skip(1));
        assert forall|j: int| 0 <= j < s.len() implies #[trigger] s[j] != c by {
            if j < head.len() {
                assert(s[j] == head[j]);
            } else if j == head.len() {
                assert(s[j] == '.');
            } else {
                assert(s[j] == rest[j - head.len() - 1]);
            }
        }
    }
}

/// Splitting a join of dot-free pieces recovers the pieces.
pub proof fn lemma_split_join(parts: Seq<Seq<char>>)
    requires
        parts.len() > 0,
        forall|i: int, j: int|
            0 <= i < parts.len() && 0 <= j < parts[i].len() ==> #[trigger] parts[i][j] != '.',
    ensures
        spec_split(spec_join(parts), '.') == parts,
    decreases parts.len(),
{
    let s = spec_join(parts);
    if parts.len() == 1 {
        lemma_find_at(s, '.', s.len() as int);
        assert(spec_split(s, '.') == seq![s]);
        assert(seq![s] =~= parts);
    } else {
        let head = parts[0];
        let rest = spec_join(parts.skip(1));
        assert(s == head + seq!['.'] + rest);
        let k = head.len() as int;
        assert forall|j: int| 0 <= j < k implies s[j] != '.' by {
            assert(s[j] == head[j]);
        }
        assert(s[k] == '.');
        lemma_find_at(s, '.', k);
        assert(spec_find(s, '.') == k);
        assert(spec_split(s, '.') == seq![s.take(k)] + spec_split(s.skip(k + 1), '.'));
        assert(s.take(k) =~= head);
        assert(s.skip(k + 1) =~= rest);
        lemma_split_join(parts.skip(1));
        assert(seq![head] + parts.skip(1) =~= parts);
    }
}

/// Rendering a number and reading it back in decimal is the identity; the
/// rendering is a nonempty run of digits.
pub proof fn lemma_dec_of_u64_string(n: u64)
    ensures
        spec_u64_string(n).len() > 0,
        forall|j: int|
            0 <= j < spec_u64_string(n).len() ==> spec_is_digit(#[trigger] spec_u64_string(n)[j]),
        spec_dec_nat(spec_u64_string(n)) == n,
    decreases n,
{
    if n < 10 {
        assert(spec_u64_string(n) == seq![spec_digit_char(n)]);
        assert(n + 48 < 256);
        assert((spec_digit_char(n) as u32) == n + 48);
        assert(spec_is_digit(spec_digit_char(n)));
        assert(spec_u64_string(n).drop_last() =~= Seq::<char>::empty());
        assert(spec_dec_nat(Seq::<char>::empty()) == 0);
        assert(spec_u64_string(n).last() == spec_digit_char(n));
        assert(spec_dec_nat(spec_u64_string(n)) == spec_digit_val(spec_digit_char(n)));
    } else {
        lemma_dec_of_u64_string(n / 10);
        let hd = spec_u64_string(n / 10);
        let d = n % 10;
        assert(d + 48 < 256);
        assert((spec_digit_char(d) as u32) == d + 48);
        assert(spec_is_digit(spec_digit_char(d)));
        assert(spec_u64_string(n) == hd.push(spec_digit_char(d)));
        assert(spec_u64_string(n).drop_last() =~= hd);
        assert(spec_u64_string(n).last() == spec_digit_char(d));
        assert(spec_dec_nat(spec_u64_string(n)) == spec_dec_nat(hd) * 10 + spec_digit_val(
            spec_digit_char(d),
        ));
        assert((n / 10) * 10 + n % 10 == n);
        assert forall|j: int|
            0 <= j < spec_u64_string(n).len() implies spec_is_digit(
            #[trigger] spec_u64_string(n)[j],
        ) by {
            if j < hd.len() {
                assert(spec_u64_string(n)[j] == hd[j]);
            }
        }
    }
}

/// Length of the leading run of ASCII digits.
pub open spec fn spec_digit_run(s: Seq<char>) -> int
    decreases s.len(),
{
    if s.len() == 0 {
        0
    } else if !spec_is_digit(s[0]) {
        0
    } else {
        1 + spec_digit_run(s.skip(1))
    }
}

pub proof fn lemma_spec_digit_run(s: Seq<char>)
    ensures
        0 <= spec_digit_run(s) <= s.len(),
        forall|j: int| 0 <= j < spec_digit_run(s) ==> spec_is_digit(#[trigger] s[j]),
        spec_digit_run(s) < s.len() ==> !spec_is_digit(s[spec_digit_run(s)]),
    decreases s.len(),
{
    if s.len() > 0 && spec_is_digit(s[0]) {
        lemma_spec_digit_run(s.skip(1));
        assert forall|j: int| 0 <= j < spec_digit_run(s) implies spec_is_digit(#[trigger] s[j]) by {
            if j > 0 {
                assert(s.skip(1)[j - 1] == s[j]);
            }
        }
        if spec_digit_run(s) < s.len() {
            assert(s.skip(1)[spec_digit_run(s) - 1] == s[spec_digit_run(s)]);
        }
    }
}

/// Length of the leading digit run of `s`.
pub fn digit_run(s: &str) -> (r: usize)
    ensures
        r == spec_digit_run(s@),
        r <= s@.len(),
        forall|j: int| 0 <= j < r ==> spec_is_digit(#[trigger] s@[j]),
        r < s@.len() ==> !spec_is_digit(s@[r as int]),
{
    proof {
        lemma_spec_digit_run(s@);
        assert(s@.skip(0) =~= s@);
    }
    let len = s.unicode_len();
    let mut i: usize = 0;
    while i < len
        invariant
            i <= len,
            len == s@.len(),
            spec_digit_run(s@) == i + spec_digit_run(s@.skip(i as int)),
            forall|j: int| 0 <= j < i ==> spec_is_digit(#[trigger] s@[j]),
        decreases len - i,
    {
        let c = s.get_char(i);
        proof {
            assert(s@.skip(i as int)[0] == s@[i as int]);
            assert(s@.skip(i as int).skip(1) =~= s@.skip(i + 1));
        }
        if !is_digit(c) {
            return i;
        }
        i = i + 1;
    }
    proof {
        assert(s@.skip(i as int).len() == 0);
    }
    i
}

/// Whitespace as trimming understands it.
pub open spec fn spec_is_space(c: char) -> bool {
    c == ' ' || c == '\t' || c == '\n' || c == '\r'
}

pub fn is_space(c: char) -> (r: bool)
    ensures
        r == spec_is_space(c),
{
    c == ' ' || c == '\t' || c == '\n' || c == '\r'
}

/// Length of the leading run of whitespace.
pub open spec fn spec_ws_prefix(s: Seq<char>) -> int
    decreases s.len(),
{
    if s.len() == 0 {
        0
    } else if !spec_is_space(s[0]) {
        0
    } else {
        1 + spec_ws_prefix(s.skip(1))
    }
}

pub proof fn lemma_spec_ws_prefix(s: Seq<char>)
    ensures
        0 <= spec_ws_prefix(s) <= s.len(),
        forall|j: int| 0 <= j < spec_ws_prefix(s) ==> spec_is_space(#[trigger] s[j]),
        spec_ws_prefix(s) < s.len() ==> !spec_is_space(s[spec_ws_prefix(s)]),
    decreases s.len(),
{
    if s.len() > 0 && spec_is_space(s[0]) {
        lemma_spec_ws_prefix(s.skip(1));
        assert forall|j: int| 0 <= j < spec_ws_prefix(s) implies spec_is_space(
            #[trigger] s[j],
        ) by {
            if j > 0 {
                assert(s.skip(1)[j - 1] == s[j]);
            }
        }
        if spec_ws_prefix(s) < s.len() {
            assert(s.skip(1)[spec_ws_prefix(s) - 1] == s[spec_ws_prefix(s)]);
        }
    }
}

/// Length of the trailing run of whitespace.
pub open spec fn spec_ws_suffix(s: Seq<char>) -> int
    decreases s.len(),
{
    if s.len() == 0 {
        0
    } else if !spec_is_space(s.last()) {
        0
    } else {
        1 + spec_ws_suffix(s.drop_last())
    }
}

pub proof fn lemma_spec_ws_suffix(s: Seq<char>)
    ensures
        0 <= spec_ws_suffix(s) <= s.len(),
        forall|j: int| s.len() - spec_ws_suffix(s) <= j < s.len() ==> spec_is_space(#[trigger] s[j]),
        spec_ws_suffix(s) < s.len() ==> !spec_is_space(s[s.len() - spec_ws_suffix(s) - 1]),
    decreases s.len(),
{
    if s.len() > 0 && spec_is_space(s.last()) {
        lemma_spec_ws_suffix(s.drop_last());
        assert forall|j: int| s.len() - spec_ws_suffix(s) <= j < s.len() implies spec_is_space(
            #[trigger] s[j],
        ) by {
            if j < s.len() - 1 {
                assert(s.drop_last()[j] == s[j]);
            }
        }
        if spec_ws_suffix(s) < s.len() {
            assert(s.drop_last()[s.len() - spec_ws_suffix(s) - 1] == s[s.len() - spec_ws_suffix(s)
                - 1]);
        }
    }
}

/// The text with leading and trailing whitespace removed.
pub open spec fn spec_trim(s: Seq<char>) -> Seq<char> {
    let t = s.skip(spec_ws_prefix(s));
    t.take(t.len() - spec_ws_suffix(t))
}

/// Remove leading and trailing whitespace.
#[verifier::rlimit(30)]
pub fn trim_str<'a>(s: &'a str) -> (r: &'a str)
    ensures
        r@ == spec_trim(s@),
{
    proof {
        lemma_spec_ws_prefix(s@);
    }
    let len = s.unicode_len();
    let mut a: usize = 0;
    proof {
        assert(s@.skip(0) =~= s@);
    }
    while a < len
        invariant
            a <= len,
            len == s@.len(),
            spec_ws_prefix(s@) == a + spec_ws_prefix(s@.skip(a as int)),
            forall|j: int| 0 <= j < a ==> spec_is_space(#[trigger] s@[j]),
        ensures
            a == spec_ws_prefix(s@),
        decreases len - a,
    {
        let c = s.get_char(a);
        proof {
            assert(s@.skip(a as int)[0] == s@[a as int]);
            assert(s@.skip(a as int).skip(1) =~= s@.skip(a + 1));
        }
        if !is_space(c) {
            break;
        }
        a = a + 1;
    }
    let ghost t = s@.skip(a as int);
    proof {
        lemma_spec_ws_suffix(t);
    }
    let mut b: usize = len;
    while b > a
        invariant
            a <= b <= len,
            len == s@.len(),
            t == s@.skip(a as int),
            forall|j: int| b <= j < len ==> spec_is_space(#[trigger] s@[j]),
        ensures
            a <= b <= len,
            forall|j: int| b <= j < len ==> spec_is_space(#[trigger] s@[j]),
            b > a ==> !spec_is_space(s@[b - 1]),
        decreases b,
    {
        let c = s.get_char(b - 1);
        if !is_space(c) {
            break;
        }
        b = b - 1;
    }
    proof {
        // the trailing-space count of the tail is exactly len - b
        let q = spec_ws_suffix(t);
        assert forall|j: int| t.len() - (len - b) <= j < t.len() implies spec_is_space(
            #[trigger] t[j],
        ) by {
            assert(t[j] == s@[a + j]);
        }
        if q > len - b {
            if b > a {
                assert(spec_is_space(t[b - 1 - a]));
                assert(t[b - 1 - a] == s@[b - 1]);
                assert(false);
            } else {
                assert(q <= t.len());
                assert(false);
            }
        }
        if q < len - b {
            assert(!spec_is_space(t[t.len() - q - 1]));
            assert(t[t.len() - q - 1] == s@[a + t.len() - q - 1]);
            assert(b <= a + t.len() - q - 1 < len);
            assert(false);
        }
        assert(q == len - b);
    }
    let r = s.substring_char(a, b);
    proof {
        assert(r@ =~= spec_trim(s@));
    }
    r
}

/// Find the first occurrence of `c` in `s` at or after `from`.
pub fn find_char(s: &str, from: usize, c: char) -> (r: usize)
    requires
        from <= s@.len(),
    ensures
        r == from + spec_find(s@.skip(from as int), c),
        from <= r <= s@.len(),
        forall|j: int| from <= j < r ==> s@[j] != c,
        r < s@.len() ==> s@[r as int] == c,
{
    let len = s.unicode_len();
    let mut i: usize = from;
    proof {
        lemma_spec_find(s@.skip(from as int), c);
    }
    while i < len
        invariant
            from <= i <= len,
            len == s@.len(),
            spec_find(s@.skip(from as int), c) == (i - from) + spec_find(s@.skip(i as int), c),
            forall|j: int| from <= j < i ==> s@[j] != c,
        decreases len - i,
    {
        let ch = s.get_char(i);
        if ch == c {
            proof {
                assert(s@.skip(i as int)[0] == s@[i as int]);
            }
            return i;
        }
        proof {
            assert(s@.skip(i as int)[0] == s@[i as int]);
            assert(s@.skip(i as int).skip(1) =~= s@.skip(i + 1));
        }
        i = i + 1;
    }
    proof {
        assert(s@.skip(i as int).len() == 0);
    }
    i
}

} // verus!
