//! Character-level string helpers shared by every module: conversion between
//! `str` and character vectors, the lexicographic order in which names are
//! kept, and the few splitting operations that dotted names need.

use vstd::prelude::*;
use vstd::std_specs::iter::IteratorSpec;
use vstd::string::StringExecFns;
use vstd::string::StrSliceExecFns;

verus! {

broadcast use vstd::string::group_string_axioms;

pub assume_specification[ String::push ](s: &mut String, ch: char)
    ensures
        final(s)@ == old(s)@.push(ch),
;

// ------------------------------------------------------------------ order --

/// Lexicographic order on character sequences, comparing code points. This is
/// the order Rust gives `str` (UTF-8 byte order agrees with code-point order).
pub open spec fn seq_lt(a: Seq<char>, b: Seq<char>) -> bool
    decreases a.len(),
{
    if a.len() == 0 {
        b.len() > 0
    } else if b.len() == 0 {
        false
    } else if a[0] == b[0] {
        seq_lt(a.drop_first(), b.drop_first())
    } else {
        (a[0] as int) < (b[0] as int)
    }
}

pub proof fn lemma_lt_irreflexive(a: Seq<char>)
    ensures
        !seq_lt(a, a),
    decreases a.len(),
{
    if a.len() > 0 {
        lemma_lt_irreflexive(a.drop_first());
    }
}

pub proof fn lemma_lt_asymmetric(a: Seq<char>, b: Seq<char>)
    ensures
        seq_lt(a, b) ==> !seq_lt(b, a),
    decreases a.len(),
{
    if a.len() > 0 && b.len() > 0 && a[0] == b[0] {
        lemma_lt_asymmetric(a.drop_first(), b.drop_first());
    }
}

pub proof fn lemma_lt_transitive(a: Seq<char>, b: Seq<char>, c: Seq<char>)
    ensures
        seq_lt(a, b) && seq_lt(b, c) ==> seq_lt(a, c),
    decreases a.len(),
{
    if a.len() > 0 && b.len() > 0 && c.len() > 0 {
        lemma_lt_transitive(a.drop_first(), b.drop_first(), c.drop_first());
    }
}

pub proof fn lemma_lt_total(a: Seq<char>, b: Seq<char>)
    ensures
        a != b ==> seq_lt(a, b) || seq_lt(b, a),
    decreases a.len(),
{
    if a.len() > 0 && b.len() > 0 {
        lemma_lt_total(a.drop_first(), b.drop_first());
        if a[0] == b[0] && a.drop_first() == b.drop_first() {
            assert(a =~= seq![a[0]] + a.drop_first());
            assert(b =~= seq![b[0]] + b.drop_first());
        }
        if a[0] != b[0] {
            assert((a[0] as int) != (b[0] as int));
        }
    } else if a.len() == 0 && b.len() == 0 {
        assert(a =~= b);
    }
}

/// Every law of a strict total order at once, for the three sequences given.
pub proof fn lemma_lt_order(a: Seq<char>, b: Seq<char>, c: Seq<char>)
    ensures
        !seq_lt(a, a),
        seq_lt(a, b) ==> !seq_lt(b, a),
        seq_lt(a, b) && seq_lt(b, c) ==> seq_lt(a, c),
        a != b ==> seq_lt(a, b) || seq_lt(b, a),
{
    lemma_lt_irreflexive(a);
    lemma_lt_asymmetric(a, b);
    lemma_lt_transitive(a, b, c);
    lemma_lt_total(a, b);
}

pub proof fn lemma_push_contains<A>(s: Seq<A>, v: A)
    ensures
        forall|x: A| #[trigger] s.push(v).contains(x) <==> (s.contains(x) || x == v),
{
    assert forall|x: A| #[trigger] s.push(v).contains(x) <==> (s.contains(x) || x == v) by {
        if s.push(v).contains(x) {
            let k = choose|k: int| 0 <= k < s.push(v).len() && s.push(v)[k] == x;
            if k < s.len() {
                assert(s[k] == x);
            }
        }
        if s.contains(x) {
            let k = choose|k: int| 0 <= k < s.len() && s[k] == x;
            assert(s.push(v)[k] == x);
        }
        if x == v {
            assert(s.push(v)[s.len() as int] == x);
        }
    }
}

/// A sequence of names in strictly increasing order (hence without repeats).
pub open spec fn strictly_sorted(s: Seq<Seq<char>>) -> bool {
    forall|i: int, j: int| 0 <= i < j < s.len() ==> seq_lt(#[trigger] s[i], #[trigger] s[j])
}

/// Two strictly sorted sequences holding the same names are the same sequence.
pub proof fn lemma_sorted_unique(a: Seq<Seq<char>>, b: Seq<Seq<char>>)
    requires
        strictly_sorted(a),
        strictly_sorted(b),
        forall|x: Seq<char>| #[trigger] a.contains(x) <==> b.contains(x),
    ensures
        a == b,
    decreases a.len(),
{
    if a.len() == 0 {
        if b.len() > 0 {
            assert(b.contains(b[0]));
            assert(a.contains(b[0]) <==> b.contains(b[0]));
        }
        assert(a =~= b);
    } else {
        assert(a.contains(a[0]));
        assert(b.len() > 0);
        assert(b.contains(b[0]));
        assert(a.contains(b[0]) <==> b.contains(b[0]));
        if a[0] != b[0] {
            let j = choose|j: int| 0 <= j < b.len() && b[j] == a[0];
            let i = choose|i: int| 0 <= i < a.len() && a[i] == b[0];
            assert(j > 0 && i > 0);
            assert(seq_lt(b[0], b[j]));
            assert(seq_lt(a[0], a[i]));
            lemma_lt_asymmetric(a[0], b[0]);
        }
        let a1 = a.drop_first();
        let b1 = b.drop_first();
        assert forall|x: Seq<char>| #[trigger] a1.contains(x) <==> b1.contains(x) by {
            if a1.contains(x) {
                let i = choose|i: int| 0 <= i < a1.len() && a1[i] == x;
                assert(a[i + 1] == x);
                assert(seq_lt(a[0], a[i + 1]));
                lemma_lt_irreflexive(x);
                assert(a.contains(x));
                assert(b.contains(x));
                let j = choose|j: int| 0 <= j < b.len() && b[j] == x;
                assert(j != 0);
                assert(b1[j - 1] == x);
            }
            if b1.contains(x) {
                let j = choose|j: int| 0 <= j < b1.len() && b1[j] == x;
                assert(b[j + 1] == x);
                assert(seq_lt(b[0], b[j + 1]));
                lemma_lt_irreflexive(x);
                assert(b.contains(x));
                assert(a.contains(x) <==> b.contains(x));
                assert(a.contains(x));
                let i = choose|i: int| 0 <= i < a.len() && a[i] == x;
                assert(i != 0);
                assert(a1[i - 1] == x);
            }
        }
        assert forall|i: int, j: int| 0 <= i < j < a1.len() implies seq_lt(#[trigger] a1[i], #[trigger] a1[j]) by {
            assert(a1[i] == a[i + 1] && a1[j] == a[j + 1]);
        }
        assert forall|i: int, j: int| 0 <= i < j < b1.len() implies seq_lt(#[trigger] b1[i], #[trigger] b1[j]) by {
            assert(b1[i] == b[i + 1] && b1[j] == b[j + 1]);
        }
        lemma_sorted_unique(a1, b1);
        assert(a =~= seq![a[0]] + a1);
        assert(b =~= seq![b[0]] + b1);
    }
}

/// A strictly sorted sequence drawn from `u` is no longer than `u`.
pub proof fn lemma_sorted_len_bound(s: Seq<Seq<char>>, u: Seq<Seq<char>>)
    requires
        strictly_sorted(s),
        forall|x: Seq<char>| #[trigger] s.contains(x) ==> u.contains(x),
    ensures
        s.len() <= u.len(),
{
    assert(s.no_duplicates()) by {
        assert forall|i: int, j: int| 0 <= i < s.len() && 0 <= j < s.len() && i != j implies s[i] != s[j] by {
            if i < j {
                assert(seq_lt(s[i], s[j]));
            } else {
                assert(seq_lt(s[j], s[i]));
            }
            lemma_lt_irreflexive(s[i]);
        }
    }
    s.unique_seq_to_set();
    u.lemma_cardinality_of_set();
    assert(s.to_set().subset_of(u.to_set()));
    vstd::set_lib::lemma_len_subset(s.to_set(), u.to_set());
}

// ------------------------------------------------------------- conversion --

/// The characters of `s`, in order.
pub fn chars_of(s: &str) -> (v: Vec<char>)
    ensures
        v@ == s@,
{
    let mut v: Vec<char> = Vec::new();
    for c in it: s.chars()
        invariant
            v@ == it.seq().take(it.index() as int),
    {
        v.push(c);
    }
    v
}

/// A `String` holding exactly the characters `cs[from..to]`.
pub fn string_of_range(cs: &Vec<char>, from: usize, to: usize) -> (s: String)
    requires
        from <= to <= cs.len(),
    ensures
        s@ == cs@.subrange(from as int, to as int),
{
    let mut s = String::new();
    let mut i = from;
    while i < to
        invariant
            from <= i <= to <= cs.len(),
            s@ == cs@.subrange(from as int, i as int),
        decreases to - i,
    {
        s.push(cs[i]);
        i = i + 1;
        assert(s@ =~= cs@.subrange(from as int, i as int));
    }
    s
}

/// A `String` holding exactly the characters of `cs`.
pub fn string_of(cs: &Vec<char>) -> (s: String)
    ensures
        s@ == cs@,
{
    let s = string_of_range(cs, 0, cs.len());
    assert(cs@.subrange(0, cs.len() as int) =~= cs@);
    s
}

/// A copy of `s` as an owned `String`.
pub fn owned(s: &str) -> (r: String)
    ensures
        r@ == s@,
{
    String::from_str(s)
}

/// `a` followed by `b`.
pub fn joined(a: &str, b: &str) -> (r: String)
    ensures
        r@ == a@ + b@,
{
    let mut r = String::from_str(a);
    r.append(b);
    r
}

/// `a`, then `b`, then `c`.
pub fn joined3(a: &str, b: &str, c: &str) -> (r: String)
    ensures
        r@ == a@ + b@ + c@,
{
    let mut r = String::from_str(a);
    r.append(b);
    r.append(c);
    r
}

// ------------------------------------------------------------ comparison --

/// Whether two strings hold the same characters.
pub fn same(a: &str, b: &str) -> (r: bool)
    ensures
        r == (a@ == b@),
{
    let x = chars_of(a);
    let y = chars_of(b);
    if x.len() != y.len() {
        return false;
    }
    let mut i: usize = 0;
    while i < x.len()
        invariant
            x@ == a@,
            y@ == b@,
            x.len() == y.len(),
            i <= x.len(),
            forall|k: int| 0 <= k < i ==> x@[k] == y@[k],
        decreases x.len() - i,
    {
        if x[i] != y[i] {
            return false;
        }
        i = i + 1;
    }
    assert(x@ =~= y@);
    true
}

/// The code point of a character.
pub fn code_point(c: char) -> (r: u32)
    ensures
        r as int == c as int,
{
    c as u32
}

/// Lexicographic comparison of two character vectors.
pub fn chars_lt(a: &Vec<char>, b: &Vec<char>) -> (r: bool)
    ensures
        r == seq_lt(a@, b@),
{
    let mut i: usize = 0;
    assert(a@.skip(0) =~= a@ && b@.skip(0) =~= b@);
    while i < a.len() && i < b.len() && a[i] == b[i]
        invariant
            i <= a.len(),
            i <= b.len(),
            seq_lt(a@, b@) == seq_lt(a@.skip(i as int), b@.skip(i as int)),
        decreases a.len() - i,
    {
        proof {
            let sa = a@.skip(i as int);
            let sb = b@.skip(i as int);
            assert(sa.drop_first() =~= a@.skip(i + 1));
            assert(sb.drop_first() =~= b@.skip(i + 1));
        }
        i = i + 1;
    }
    proof {
        let sa = a@.skip(i as int);
        let sb = b@.skip(i as int);
        assert(sa.len() == a.len() - i && sb.len() == b.len() - i);
        if i < a.len() && i < b.len() {
            assert(sa[0] == a@[i as int] && sb[0] == b@[i as int]);
        }
    }
    if i == a.len() {
        assert(seq_lt(a@, b@) == (i < b.len()));
        i < b.len()
    } else if i == b.len() {
        assert(!seq_lt(a@, b@));
        false
    } else {
        let ca = a[i];
        let cb = b[i];
        proof {
            let sa = a@.skip(i as int);
            let sb = b@.skip(i as int);
            assert(sa[0] != sb[0]);
            assert(seq_lt(sa, sb) == ((sa[0] as int) < (sb[0] as int)));
        }
        let r = code_point(ca) < code_point(cb);
        assert(r == ((ca as int) < (cb as int)));
        assert(ca == a@.skip(i as int)[0] && cb == b@.skip(i as int)[0]);
        assert(r == seq_lt(a@, b@));
        r
    }
}

/// Lexicographic comparison of two strings.
pub fn str_lt(a: &str, b: &str) -> (r: bool)
    ensures
        r == seq_lt(a@, b@),
{
    let x = chars_of(a);
    let y = chars_of(b);
    chars_lt(&x, &y)
}

// ----------------------------------------------------------------- numbers --

/// The decimal digit for `d`.
pub open spec fn spec_digit(d: nat) -> char {
    if d == 0 { '0' } else if d == 1 { '1' } else if d == 2 { '2' } else if d == 3 { '3' }
    else if d == 4 { '4' } else if d == 5 { '5' } else if d == 6 { '6' } else if d == 7 { '7' }
    else if d == 8 { '8' } else { '9' }
}

/// `n` written in decimal, without leading zeros.
pub open spec fn spec_decimal(n: nat) -> Seq<char>
    decreases n,
{
    if n < 10 {
        seq![spec_digit(n)]
    } else {
        spec_decimal(n / 10).push(spec_digit(n % 10))
    }
}

fn digit(d: usize) -> (c: char)
    requires
        d < 10,
    ensures
        c == spec_digit(d as nat),
{
    if d == 0 { '0' } else if d == 1 { '1' } else if d == 2 { '2' } else if d == 3 { '3' }
    else if d == 4 { '4' } else if d == 5 { '5' } else if d == 6 { '6' } else if d == 7 { '7' }
    else if d == 8 { '8' } else { '9' }
}

/// `n` written in decimal.
pub fn decimal(n: usize) -> (s: String)
    ensures
        s@ == spec_decimal(n as nat),
    decreases n,
{
    if n < 10 {
        let mut s = String::new();
        s.push(digit(n));
        assert(s@ =~= seq![spec_digit(n as nat)]);
        s
    } else {
        let mut s = decimal(n / 10);
        s.push(digit(n % 10));
        s
    }
}

// ------------------------------------------------------------- joining --

/// The parts joined with `sep` between each pair.
pub open spec fn spec_join(parts: Seq<Seq<char>>, sep: Seq<char>) -> Seq<char>
    decreases parts.len(),
{
    if parts.len() == 0 {
        Seq::empty()
    } else if parts.len() == 1 {
        parts[0]
    } else {
        spec_join(parts.drop_last(), sep) + sep + parts.last()
    }
}

/// The strings of `parts`, joined with `sep`.
pub fn join(parts: &Vec<String>, sep: &str) -> (r: String)
    ensures
        r@ == spec_join(parts@.map_values(|s: String| s@), sep@),
{
    let ghost views = parts@.map_values(|s: String| s@);
    let mut r = String::new();
    let mut i: usize = 0;
    while i < parts.len()
        invariant
            i <= parts.len(),
            views == parts@.map_values(|s: String| s@),
            r@ == spec_join(views.take(i as int), sep@),
        decreases parts.len() - i,
    {
        if i > 0 {
            r.append(sep);
        }
        r.append(parts[i].as_str());
        proof {
            assert(views.take(i + 1).drop_last() =~= views.take(i as int));
            if i == 0 {
                assert(views.take(1) =~= seq![views[0]]);
                assert(r@ =~= views[0]);
            }
        }
        i = i + 1;
    }
    assert(views.take(i as int) =~= views);
    r
}

// ------------------------------------------------------------ dotted names --

/// `a.b`.
pub open spec fn dotted(a: Seq<char>, b: Seq<char>) -> Seq<char> {
    a + seq!['.'] + b
}

/// `a` and `b` with a dot between.
pub fn dot(a: &str, b: &str) -> (r: String)
    ensures
        r@ == dotted(a@, b@),
{
    let mut r = String::from_str(a);
    r.push('.');
    r.append(b);
    r
}


/// The part of a dotted name after its last `.`, or the whole name.
pub open spec fn spec_leaf(s: Seq<char>) -> Seq<char>
    decreases s.len(),
{
    if s.len() == 0 {
        s
    } else if s.last() == '.' {
        Seq::empty()
    } else {
        spec_leaf(s.drop_last()).push(s.last())
    }
}

/// Index just past the last occurrence of `c` in `s[..n]`, or 0 when absent.
pub open spec fn after_last(s: Seq<char>, c: char, n: int) -> int
    decreases n,
{
    if n <= 0 {
        0
    } else if s[n - 1] == c {
        n
    } else {
        after_last(s, c, n - 1)
    }
}

pub proof fn lemma_after_last_bounds(s: Seq<char>, c: char, n: int)
    requires
        0 <= n <= s.len(),
    ensures
        0 <= after_last(s, c, n) <= n,
        after_last(s, c, n) > 0 ==> s[after_last(s, c, n) - 1] == c,
        forall|k: int| after_last(s, c, n) <= k < n ==> s[k] != c,
    decreases n,
{
    if n > 0 && s[n - 1] != c {
        lemma_after_last_bounds(s, c, n - 1);
    }
}

pub proof fn lemma_leaf_is_suffix(s: Seq<char>)
    ensures
        spec_leaf(s) == s.subrange(after_last(s, '.', s.len() as int), s.len() as int),
    decreases s.len(),
{
    if s.len() > 0 && s.last() != '.' {
        lemma_leaf_is_suffix(s.drop_last());
        let d = s.drop_last();
        assert(d =~= s.subrange(0, d.len() as int));
        assert(after_last(d, '.', d.len() as int) == after_last(s, '.', d.len() as int)) by {
            lemma_after_last_prefix(s, d.len() as int);
        }
        lemma_after_last_bounds(d, '.', d.len() as int);
        assert(spec_leaf(s) =~= s.subrange(after_last(s, '.', s.len() as int), s.len() as int));
    } else if s.len() > 0 {
        assert(spec_leaf(s) =~= s.subrange(after_last(s, '.', s.len() as int), s.len() as int));
    } else {
        assert(spec_leaf(s) =~= s.subrange(0, 0));
    }
}

proof fn lemma_after_last_prefix(s: Seq<char>, n: int)
    requires
        0 <= n <= s.len(),
    ensures
        after_last(s.subrange(0, n), '.', n) == after_last(s, '.', n),
    decreases n,
{
    if n > 0 {
        lemma_after_last_prefix(s, n - 1);
        let p = s.subrange(0, n);
        assert(p.subrange(0, n - 1) =~= s.subrange(0, n - 1));
        lemma_after_last_prefix(p, n - 1);
    }
}

/// Index just past the last `c` in `cs`, or 0 when `c` does not occur.
pub fn find_after_last(cs: &Vec<char>, c: char) -> (r: usize)
    ensures
        r == after_last(cs@, c, cs.len() as int),
{
    let mut n = cs.len();
    while n > 0 && cs[n - 1] != c
        invariant
            n <= cs.len(),
            after_last(cs@, c, cs.len() as int) == after_last(cs@, c, n as int),
        decreases n,
    {
        n = n - 1;
    }
    n
}

/// The last dotted segment of a name, as an owned string.
pub fn leaf_of(s: &str) -> (r: String)
    ensures
        r@ == spec_leaf(s@),
{
    let cs = chars_of(s);
    let start = find_after_last(&cs, '.');
    proof {
        lemma_after_last_bounds(cs@, '.', cs.len() as int);
        lemma_leaf_is_suffix(cs@);
    }
    string_of_range(&cs, start, cs.len())
}

/// Whether `c` occurs in `s`.
pub fn has_char(s: &str, c: char) -> (r: bool)
    ensures
        r == s@.contains(c),
{
    let cs = chars_of(s);
    let mut i: usize = 0;
    while i < cs.len()
        invariant
            cs@ == s@,
            i <= cs.len(),
            forall|k: int| 0 <= k < i ==> cs@[k] != c,
        decreases cs.len() - i,
    {
        if cs[i] == c {
            assert(s@[i as int] == c);
            return true;
        }
        i = i + 1;
    }
    false
}

/// What follows `prefix` in `s`, when `s` starts with it.
pub fn strip_prefix(s: &str, prefix: &str) -> (r: Option<String>)
    ensures
        match r {
            Some(rest) => s@ == prefix@ + rest@,
            None => !(prefix@.len() <= s@.len() && s@.subrange(0, prefix@.len() as int) == prefix@),
        },
{
    let cs = chars_of(s);
    let ps = chars_of(prefix);
    if ps.len() > cs.len() {
        return None;
    }
    let mut i: usize = 0;
    while i < ps.len()
        invariant
            cs@ == s@,
            ps@ == prefix@,
            ps.len() <= cs.len(),
            i <= ps.len(),
            forall|k: int| 0 <= k < i ==> cs@[k] == ps@[k],
        decreases ps.len() - i,
    {
        if cs[i] != ps[i] {
            assert(s@.subrange(0, prefix@.len() as int)[i as int] != prefix@[i as int]);
            return None;
        }
        i = i + 1;
    }
    let rest = string_of_range(&cs, ps.len(), cs.len());
    assert(s@ =~= prefix@ + rest@);
    Some(rest)
}

/// Whether `s` ends with `suffix`.
pub fn ends_with(s: &str, suffix: &str) -> (r: bool)
    ensures
        r == (suffix@.len() <= s@.len() && s@.subrange(
            s@.len() - suffix@.len(),
            s@.len() as int,
        ) == suffix@),
{
    let cs = chars_of(s);
    let ss = chars_of(suffix);
    if ss.len() > cs.len() {
        return false;
    }
    let off = cs.len() - ss.len();
    let mut i: usize = 0;
    while i < ss.len()
        invariant
            cs@ == s@,
            ss@ == suffix@,
            off + ss.len() == cs.len(),
            i <= ss.len(),
            forall|k: int| 0 <= k < i ==> cs@[off + k] == ss@[k],
        decreases ss.len() - i,
    {
        if cs[off + i] != ss[i] {
            assert(s@.subrange(s@.len() - suffix@.len(), s@.len() as int)[i as int] != suffix@[i as int]);
            return false;
        }
        i = i + 1;
    }
    assert(s@.subrange(s@.len() - suffix@.len(), s@.len() as int) =~= suffix@);
    true
}

/// Whether `s` begins with `prefix`.
pub open spec fn spec_starts_with(s: Seq<char>, prefix: Seq<char>) -> bool {
    prefix.len() <= s.len() && s.subrange(0, prefix.len() as int) == prefix
}

/// Index of the first `c` in `s` at or after `i`, or `s.len()` when there is none.
pub open spec fn first_at(s: Seq<char>, c: char, i: int) -> int
    decreases s.len() - i,
{
    if i >= s.len() {
        s.len() as int
    } else if i >= 0 && s[i] == c {
        i
    } else {
        first_at(s, c, i + 1)
    }
}

pub proof fn lemma_first_at(s: Seq<char>, c: char, i: int)
    requires
        0 <= i <= s.len(),
    ensures
        i <= first_at(s, c, i) <= s.len(),
        first_at(s, c, i) < s.len() ==> s[first_at(s, c, i)] == c,
        forall|k: int| i <= k < first_at(s, c, i) ==> s[k] != c,
    decreases s.len() - i,
{
    if i < s.len() && s[i] != c {
        lemma_first_at(s, c, i + 1);
    }
}

/// Split `s` at its first `c`: what comes before and what comes after.
pub fn split_once(s: &str, c: char) -> (r: Option<(String, String)>)
    ensures
        match r {
            Some((head, rest)) => {
                let at = first_at(s@, c, 0);
                &&& at < s@.len()
                &&& head@ == s@.subrange(0, at)
                &&& rest@ == s@.subrange(at + 1, s@.len() as int)
            },
            None => first_at(s@, c, 0) == s@.len(),
        },
{
    let cs = chars_of(s);
    let mut i: usize = 0;
    proof {
        lemma_first_at(cs@, c, 0);
    }
    while i < cs.len() && cs[i] != c
        invariant
            cs@ == s@,
            i <= cs.len(),
            first_at(cs@, c, 0) == first_at(cs@, c, i as int),
        decreases cs.len() - i,
    {
        i = i + 1;
    }
    if i == cs.len() {
        None
    } else {
        Some((string_of_range(&cs, 0, i), string_of_range(&cs, i + 1, cs.len())))
    }
}


// ---------------------------------------------------------------- layout --

/// `c`, `n` times.
pub open spec fn spec_repeat(c: char, n: nat) -> Seq<char> {
    Seq::new(n, |i: int| c)
}

/// `s` padded with spaces on the right to `w` characters; longer strings are
/// left alone.
pub open spec fn spec_pad(s: Seq<char>, w: nat) -> Seq<char> {
    if s.len() >= w {
        s
    } else {
        s + spec_repeat(' ', (w - s.len()) as nat)
    }
}

/// `c`, `n` times.
pub fn repeat_char(c: char, n: usize) -> (r: String)
    ensures
        r@ == spec_repeat(c, n as nat),
{
    let mut r = String::new();
    let mut i: usize = 0;
    while i < n
        invariant
            i <= n,
            r@ == spec_repeat(c, i as nat),
        decreases n - i,
    {
        r.push(c);
        assert(r@ =~= spec_repeat(c, (i + 1) as nat));
        i = i + 1;
    }
    r
}

/// `s` padded with spaces on the right to `w` characters.
pub fn pad(s: &str, w: usize) -> (r: String)
    ensures
        r@ == spec_pad(s@, w as nat),
{
    let n = s.unicode_len();
    let mut r = owned(s);
    if n < w {
        let fill = repeat_char(' ', w - n);
        r.append(fill.as_str());
    }
    r
}

/// `s` without its trailing spaces.
pub open spec fn spec_trim_end(s: Seq<char>) -> Seq<char>
    decreases s.len(),
{
    if s.len() > 0 && s.last() == ' ' {
        spec_trim_end(s.drop_last())
    } else {
        s
    }
}

/// `s` without its trailing spaces.
pub fn trim_end(s: &str) -> (r: String)
    ensures
        r@ == spec_trim_end(s@),
{
    let cs = chars_of(s);
    let mut n = cs.len();
    assert(cs@.subrange(0, cs.len() as int) =~= cs@);
    while n > 0 && cs[n - 1] == ' '
        invariant
            n <= cs.len(),
            cs@ == s@,
            spec_trim_end(s@) == spec_trim_end(cs@.subrange(0, n as int)),
        decreases n,
    {
        assert(cs@.subrange(0, n as int).drop_last() =~= cs@.subrange(0, n - 1));
        n = n - 1;
    }
    if n > 0 {
        assert(cs@.subrange(0, n as int).last() == cs@[n - 1]);
    }
    string_of_range(&cs, 0, n)
}

/// `s` cut at every newline; a string that ends in one gets an empty last
/// piece.
pub open spec fn split_nl(s: Seq<char>) -> Seq<Seq<char>>
    decreases s.len(),
{
    if s.len() == 0 {
        seq![Seq::empty()]
    } else {
        let r = split_nl(s.drop_last());
        if s.last() == '\n' {
            r.push(Seq::empty())
        } else {
            r.update(r.len() - 1, r.last().push(s.last()))
        }
    }
}

proof fn lemma_split_nl_len(s: Seq<char>)
    ensures
        split_nl(s).len() >= 1,
    decreases s.len(),
{
    if s.len() > 0 {
        lemma_split_nl_len(s.drop_last());
    }
}

/// The lines of `s`, as `str::lines` gives them for text without carriage
/// returns: no line for an empty string, none after a final newline.
pub open spec fn lines_of(s: Seq<char>) -> Seq<Seq<char>> {
    if s.len() == 0 {
        Seq::empty()
    } else if s.last() == '\n' {
        split_nl(s).drop_last()
    } else {
        split_nl(s)
    }
}

/// The lines of `s`.
pub fn lines(s: &str) -> (r: Vec<String>)
    ensures
        r@.map_values(|l: String| l@) == lines_of(s@),
{
    let cs = chars_of(s);
    let mut done: Vec<String> = Vec::new();
    let mut cur = String::new();
    let mut i: usize = 0;
    proof {
        assert(cs@.subrange(0, 0) =~= Seq::<char>::empty());
    }
    while i < cs.len()
        invariant
            cs@ == s@,
            i <= cs.len(),
            done@.map_values(|l: String| l@).push(cur@) == split_nl(cs@.subrange(0, i as int)),
        decreases cs.len() - i,
    {
        let ghost before = done@.map_values(|l: String| l@).push(cur@);
        proof {
            assert(cs@.subrange(0, i + 1).drop_last() =~= cs@.subrange(0, i as int));
            assert(cs@.subrange(0, i + 1).last() == cs@[i as int]);
        }
        if cs[i] == '\n' {
            let finished = cur;
            done.push(finished);
            cur = String::new();
            assert(done@.map_values(|l: String| l@).push(cur@) =~= before.push(Seq::empty()));
        } else {
            cur.push(cs[i]);
            assert(done@.map_values(|l: String| l@).push(cur@) =~= before.update(
                before.len() - 1,
                before.last().push(cs@[i as int]),
            ));
        }
        i = i + 1;
    }
    assert(cs@.subrange(0, cs.len() as int) =~= cs@);
    if cs.len() == 0 {
        let empty: Vec<String> = Vec::new();
        assert(empty@.map_values(|l: String| l@) =~= lines_of(s@));
        return empty;
    }
    if cs[cs.len() - 1] == '\n' {
        assert(done@.map_values(|l: String| l@) =~= split_nl(cs@).drop_last());
        done
    } else {
        let ghost before = done@.map_values(|l: String| l@);
        done.push(cur);
        assert(done@.map_values(|l: String| l@) =~= before.push(cur@));
        done
    }
}


/// `s` cut at every `c`, as `str::split` cuts it.
pub open spec fn spec_split(s: Seq<char>, c: char) -> Seq<Seq<char>>
    decreases s.len(),
{
    if s.len() == 0 {
        seq![Seq::empty()]
    } else {
        let r = spec_split(s.drop_last(), c);
        if s.last() == c {
            r.push(Seq::empty())
        } else {
            r.update(r.len() - 1, r.last().push(s.last()))
        }
    }
}

/// The pieces of `s` between occurrences of `c`.
pub fn split_char(s: &str, c: char) -> (r: Vec<String>)
    ensures
        r@.map_values(|x: String| x@) == spec_split(s@, c),
{
    let cs = chars_of(s);
    let mut done: Vec<String> = Vec::new();
    let mut cur = String::new();
    let mut i: usize = 0;
    proof {
        assert(cs@.subrange(0, 0) =~= Seq::<char>::empty());
        assert(done@.map_values(|x: String| x@).push(cur@) =~= seq![Seq::<char>::empty()]);
    }
    while i < cs.len()
        invariant
            cs@ == s@,
            i <= cs.len(),
            done@.map_values(|x: String| x@).push(cur@) == spec_split(cs@.subrange(0, i as int), c),
        decreases cs.len() - i,
    {
        let ghost before = done@.map_values(|x: String| x@).push(cur@);
        proof {
            assert(cs@.subrange(0, i + 1).drop_last() =~= cs@.subrange(0, i as int));
            assert(cs@.subrange(0, i + 1).last() == cs@[i as int]);
        }
        if cs[i] == c {
            let finished = cur;
            done.push(finished);
            cur = String::new();
            assert(done@.map_values(|x: String| x@).push(cur@) =~= before.push(Seq::empty()));
        } else {
            cur.push(cs[i]);
            assert(done@.map_values(|x: String| x@).push(cur@) =~= before.update(
                before.len() - 1,
                before.last().push(cs@[i as int]),
            ));
        }
        i = i + 1;
    }
    assert(cs@.subrange(0, cs.len() as int) =~= cs@);
    let ghost before = done@.map_values(|x: String| x@);
    done.push(cur);
    assert(done@.map_values(|x: String| x@) =~= before.push(cur@));
    done
}


/// `n` written in decimal, for the widest counts kept.
pub fn decimal_wide(n: u128) -> (s: String)
    ensures
        s@ == spec_decimal(n as nat),
    decreases n,
{
    if n < 10 {
        let mut s = String::new();
        s.push(digit(n as usize));
        assert(s@ =~= seq![spec_digit(n as nat)]);
        s
    } else {
        let mut s = decimal_wide(n / 10);
        s.push(digit((n % 10) as usize));
        s
    }
}

} // verus!
