//! Precedence of pre-release identifiers, stated over byte sequences.

use std::cmp::Ordering;
use vstd::prelude::*;

verus! {

/// A decimal digit `0`..`9` in ASCII.
pub open spec fn is_digit(c: u8) -> bool {
    48 <= c && c <= 57
}

/// An identifier made of digits only is numeric.
pub open spec fn is_numeric(id: Seq<u8>) -> bool {
    forall|i: int| 0 <= i < id.len() ==> is_digit(#[trigger] id[i])
}

pub open spec fn pow10(n: nat) -> nat
    decreases n,
{
    if n == 0 {
        1
    } else {
        10 * pow10((n - 1) as nat)
    }
}

/// The value of a string of decimal digits, most significant first.
pub open spec fn numeric_value(id: Seq<u8>) -> nat
    decreases id.len(),
{
    if id.len() == 0 {
        0
    } else {
        ((id[0] - 48) as nat) * pow10((id.len() - 1) as nat) + numeric_value(id.drop_first())
    }
}

pub open spec fn cmp_int(a: int, b: int) -> Ordering {
    if a < b {
        Ordering::Less
    } else if a == b {
        Ordering::Equal
    } else {
        Ordering::Greater
    }
}

pub open spec fn flip(o: Ordering) -> Ordering {
    match o {
        Ordering::Less => Ordering::Greater,
        Ordering::Equal => Ordering::Equal,
        Ordering::Greater => Ordering::Less,
    }
}

/// ASCII sort order: byte by byte, a proper prefix first.
pub open spec fn cmp_bytes(a: Seq<u8>, b: Seq<u8>) -> Ordering
    decreases a.len(),
{
    if a.len() == 0 {
        if b.len() == 0 {
            Ordering::Equal
        } else {
            Ordering::Less
        }
    } else if b.len() == 0 {
        Ordering::Greater
    } else if a[0] != b[0] {
        cmp_int(a[0] as int, b[0] as int)
    } else {
        cmp_bytes(a.drop_first(), b.drop_first())
    }
}

/// Numeric identifiers compare by value and come before all others, which
/// compare in ASCII sort order.
pub open spec fn cmp_identifier(a: Seq<u8>, b: Seq<u8>) -> Ordering {
    if is_numeric(a) && is_numeric(b) {
        cmp_int(numeric_value(a) as int, numeric_value(b) as int)
    } else if is_numeric(a) {
        Ordering::Less
    } else if is_numeric(b) {
        Ordering::Greater
    } else {
        cmp_bytes(a, b)
    }
}

/// Identifier by identifier; a proper prefix comes first.
pub open spec fn cmp_identifiers(a: Seq<Seq<u8>>, b: Seq<Seq<u8>>) -> Ordering
    decreases a.len(),
{
    if a.len() == 0 {
        if b.len() == 0 {
            Ordering::Equal
        } else {
            Ordering::Less
        }
    } else if b.len() == 0 {
        Ordering::Greater
    } else if cmp_identifier(a[0], b[0]) != Ordering::Equal {
        cmp_identifier(a[0], b[0])
    } else {
        cmp_identifiers(a.drop_first(), b.drop_first())
    }
}

/// The dot-separated parts of a text; a text without dots is one part.
pub open spec fn split_dots(s: Seq<u8>) -> Seq<Seq<u8>>
    decreases s.len(),
{
    if s.len() == 0 {
        seq![Seq::empty()]
    } else {
        let parts = split_dots(s.drop_last());
        if s.last() == 46 {
            parts.push(Seq::empty())
        } else {
            parts.update(parts.len() - 1, parts.last().push(s.last()))
        }
    }
}

/// A release (empty pre-release text) comes after every pre-release of the
/// same numbers; two pre-releases compare by their identifiers.
pub open spec fn cmp_prerelease(a: Seq<u8>, b: Seq<u8>) -> Ordering {
    if a.len() == 0 && b.len() == 0 {
        Ordering::Equal
    } else if a.len() == 0 {
        Ordering::Greater
    } else if b.len() == 0 {
        Ordering::Less
    } else {
        cmp_identifiers(split_dots(a), split_dots(b))
    }
}

/// Compares `a[i..]` with `b[j..]` in ASCII sort order.
fn compare_bytes_from(a: &[u8], i: usize, b: &[u8], j: usize) -> (r: Ordering)
    requires
        i <= a@.len(),
        j <= b@.len(),
    ensures
        r == cmp_bytes(a@.subrange(i as int, a@.len() as int), b@.subrange(j as int, b@.len() as int)),
{
    let mut x: usize = i;
    let mut y: usize = j;
    while x < a.len() && y < b.len() && a[x] == b[y]
        invariant
            i <= x <= a@.len(),
            j <= y <= b@.len(),
            cmp_bytes(a@.subrange(x as int, a@.len() as int), b@.subrange(y as int, b@.len() as int))
                == cmp_bytes(a@.subrange(i as int, a@.len() as int), b@.subrange(j as int, b@.len() as int)),
        decreases a@.len() - x,
    {
        assert(a@.subrange(x as int, a@.len() as int).drop_first() =~= a@.subrange(x + 1, a@.len() as int));
        assert(b@.subrange(y as int, b@.len() as int).drop_first() =~= b@.subrange(y + 1, b@.len() as int));
        x = x + 1;
        y = y + 1;
    }
    if x == a.len() {
        if y == b.len() {
            Ordering::Equal
        } else {
            Ordering::Less
        }
    } else if y == b.len() {
        Ordering::Greater
    } else if a[x] < b[y] {
        Ordering::Less
    } else {
        Ordering::Greater
    }
}

proof fn lemma_pow10_positive(n: nat)
    ensures
        pow10(n) >= 1,
    decreases n,
{
    if n > 0 {
        lemma_pow10_positive((n - 1) as nat);
    }
}

proof fn lemma_pow10_monotone(m: nat, n: nat)
    requires
        m <= n,
    ensures
        pow10(m) <= pow10(n),
    decreases n,
{
    if m < n {
        lemma_pow10_monotone(m, (n - 1) as nat);
        lemma_pow10_positive((n - 1) as nat);
    }
}

/// A string of `n` digits is worth less than `10^n`.
proof fn lemma_value_upper(s: Seq<u8>)
    requires
        is_numeric(s),
    ensures
        numeric_value(s) < pow10(s.len()),
    decreases s.len(),
{
    if s.len() > 0 {
        let rest = s.drop_first();
        assert(is_numeric(rest)) by {
            assert forall|i: int| 0 <= i < rest.len() implies is_digit(#[trigger] rest[i]) by {
                assert(rest[i] == s[i + 1]);
            }
        }
        lemma_value_upper(rest);
        assert(is_digit(s[0]));
        let d = (s[0] - 48) as nat;
        let p = pow10((s.len() - 1) as nat);
        assert(d <= 9);
        assert(d * p + numeric_value(rest) < 10 * p) by (nonlinear_arith)
            requires
                d <= 9,
                numeric_value(rest) < p,
        ;
    }
}

/// A string of `n` digits that does not start with zero is worth at least `10^(n-1)`.
proof fn lemma_value_lower(s: Seq<u8>)
    requires
        is_numeric(s),
        s.len() > 0,
        s[0] != 48,
    ensures
        numeric_value(s) >= pow10((s.len() - 1) as nat),
{
    assert(is_digit(s[0]));
    let d = (s[0] - 48) as nat;
    let p = pow10((s.len() - 1) as nat);
    assert(d * p >= p) by (nonlinear_arith)
        requires
            d >= 1,
    ;
}

proof fn lemma_numeric_suffix(s: Seq<u8>, i: int)
    requires
        is_numeric(s),
        0 <= i <= s.len(),
    ensures
        is_numeric(s.subrange(i, s.len() as int)),
{
    let t = s.subrange(i, s.len() as int);
    assert forall|k: int| 0 <= k < t.len() implies is_digit(#[trigger] t[k]) by {
        assert(t[k] == s[i + k]);
    }
}

/// Among digit strings of one length, ASCII order is numeric order.
proof fn lemma_same_length_order(a: Seq<u8>, b: Seq<u8>)
    requires
        is_numeric(a),
        is_numeric(b),
        a.len() == b.len(),
    ensures
        cmp_bytes(a, b) == cmp_int(numeric_value(a) as int, numeric_value(b) as int),
    decreases a.len(),
{
    if a.len() > 0 {
        let ra = a.drop_first();
        let rb = b.drop_first();
        lemma_numeric_suffix(a, 1);
        lemma_numeric_suffix(b, 1);
        assert(ra =~= a.subrange(1, a.len() as int));
        assert(rb =~= b.subrange(1, b.len() as int));
        lemma_same_length_order(ra, rb);
        lemma_value_upper(ra);
        lemma_value_upper(rb);
        assert(is_digit(a[0]) && is_digit(b[0]));
        let da = (a[0] - 48) as nat;
        let db = (b[0] - 48) as nat;
        let p = pow10((a.len() - 1) as nat);
        let va = numeric_value(ra);
        let vb = numeric_value(rb);
        if da < db {
            assert(da * p + va < db * p + vb) by (nonlinear_arith)
                requires
                    da < db,
                    va < p,
            ;
        } else if db < da {
            assert(db * p + vb < da * p + va) by (nonlinear_arith)
                requires
                    db < da,
                    vb < p,
            ;
        }
    }
}

proof fn lemma_leading_zero(s: Seq<u8>)
    requires
        s.len() > 0,
        s[0] == 48,
    ensures
        numeric_value(s) == numeric_value(s.drop_first()),
{
    let p = pow10((s.len() - 1) as nat);
    assert(((s[0] - 48) as nat) == 0);
    assert(0 * p == 0);
}

/// Compares two digit strings by value; leading zeros are skipped and the
/// digits may be arbitrarily many.
fn compare_numeric(a: &[u8], b: &[u8]) -> (r: Ordering)
    requires
        is_numeric(a@),
        is_numeric(b@),
    ensures
        r == cmp_int(numeric_value(a@) as int, numeric_value(b@) as int),
{
    let mut i: usize = 0;
    assert(a@.subrange(0, a@.len() as int) =~= a@);
    while i < a.len() && a[i] == 48
        invariant
            i <= a@.len(),
            numeric_value(a@.subrange(i as int, a@.len() as int)) == numeric_value(a@),
        decreases a@.len() - i,
    {
        proof {
            let t = a@.subrange(i as int, a@.len() as int);
            lemma_leading_zero(t);
            assert(t.drop_first() =~= a@.subrange(i + 1, a@.len() as int));
        }
        i = i + 1;
    }
    let mut j: usize = 0;
    assert(b@.subrange(0, b@.len() as int) =~= b@);
    while j < b.len() && b[j] == 48
        invariant
            j <= b@.len(),
            numeric_value(b@.subrange(j as int, b@.len() as int)) == numeric_value(b@),
        decreases b@.len() - j,
    {
        proof {
            let t = b@.subrange(j as int, b@.len() as int);
            lemma_leading_zero(t);
            assert(t.drop_first() =~= b@.subrange(j + 1, b@.len() as int));
        }
        j = j + 1;
    }
    let ghost ta = a@.subrange(i as int, a@.len() as int);
    let ghost tb = b@.subrange(j as int, b@.len() as int);
    proof {
        lemma_numeric_suffix(a@, i as int);
        lemma_numeric_suffix(b@, j as int);
        lemma_value_upper(ta);
        lemma_value_upper(tb);
    }
    let la = a.len() - i;
    let lb = b.len() - j;
    if la < lb {
        proof {
            assert(tb[0] == b@[j as int]);
            lemma_value_lower(tb);
            lemma_pow10_monotone(ta.len(), (tb.len() - 1) as nat);
        }
        Ordering::Less
    } else if lb < la {
        proof {
            assert(ta[0] == a@[i as int]);
            lemma_value_lower(ta);
            lemma_pow10_monotone(tb.len(), (ta.len() - 1) as nat);
        }
        Ordering::Greater
    } else {
        proof {
            lemma_same_length_order(ta, tb);
        }
        compare_bytes_from(a, i, b, j)
    }
}

fn all_digits(id: &[u8]) -> (r: bool)
    ensures
        r == is_numeric(id@),
{
    let mut i: usize = 0;
    while i < id.len()
        invariant
            i <= id@.len(),
            forall|k: int| 0 <= k < i ==> is_digit(#[trigger] id@[k]),
        decreases id@.len() - i,
    {
        if id[i] < 48 || id[i] > 57 {
            return false;
        }
        i = i + 1;
    }
    true
}

/// Compares two pre-release identifiers.
pub fn compare_identifier(a: &[u8], b: &[u8]) -> (r: Ordering)
    ensures
        r == cmp_identifier(a@, b@),
{
    let na = all_digits(a);
    let nb = all_digits(b);
    if na && nb {
        compare_numeric(a, b)
    } else if na {
        Ordering::Less
    } else if nb {
        Ordering::Greater
    } else {
        assert(a@.subrange(0, a@.len() as int) =~= a@);
        assert(b@.subrange(0, b@.len() as int) =~= b@);
        compare_bytes_from(a, 0, b, 0)
    }
}

/// Compares two sequences of pre-release identifiers.
pub fn compare_identifiers(a: &Vec<Vec<u8>>, b: &Vec<Vec<u8>>) -> (r: Ordering)
    ensures
        r == cmp_identifiers(a@.map_values(|x: Vec<u8>| x@), b@.map_values(|x: Vec<u8>| x@)),
{
    let ghost da = a@.map_values(|x: Vec<u8>| x@);
    let ghost db = b@.map_values(|x: Vec<u8>| x@);
    let mut i: usize = 0;
    assert(da.subrange(0, da.len() as int) =~= da);
    assert(db.subrange(0, db.len() as int) =~= db);
    while i < a.len() && i < b.len()
        invariant
            i <= a@.len(),
            i <= b@.len(),
            da == a@.map_values(|x: Vec<u8>| x@),
            db == b@.map_values(|x: Vec<u8>| x@),
            cmp_identifiers(da.subrange(i as int, da.len() as int), db.subrange(i as int, db.len() as int))
                == cmp_identifiers(da, db),
        decreases a@.len() - i,
    {
        let o = compare_identifier(a[i].as_slice(), b[i].as_slice());
        proof {
            let ta = da.subrange(i as int, da.len() as int);
            let tb = db.subrange(i as int, db.len() as int);
            assert(ta[0] == a@[i as int]@);
            assert(tb[0] == b@[i as int]@);
            assert(ta.drop_first() =~= da.subrange(i + 1, da.len() as int));
            assert(tb.drop_first() =~= db.subrange(i + 1, db.len() as int));
        }
        match o {
            Ordering::Equal => {},
            _ => {
                return o;
            },
        }
        i = i + 1;
    }
    if i == a.len() {
        if i == b.len() {
            Ordering::Equal
        } else {
            Ordering::Less
        }
    } else {
        Ordering::Greater
    }
}

/// Splits a text at each dot.
pub fn split_at_dots(s: &[u8]) -> (r: Vec<Vec<u8>>)
    ensures
        r@.map_values(|x: Vec<u8>| x@) == split_dots(s@),
{
    let mut parts: Vec<Vec<u8>> = Vec::new();
    let mut cur: Vec<u8> = Vec::new();
    let mut i: usize = 0;
    assert(s@.subrange(0, 0) =~= Seq::<u8>::empty());
    assert(parts@.map_values(|x: Vec<u8>| x@).push(cur@) =~= seq![Seq::<u8>::empty()]);
    while i < s.len()
        invariant
            i <= s@.len(),
            parts@.map_values(|x: Vec<u8>| x@).push(cur@) == split_dots(s@.subrange(0, i as int)),
        decreases s@.len() - i,
    {
        let ghost before = parts@.map_values(|x: Vec<u8>| x@).push(cur@);
        proof {
            let t = s@.subrange(0, i + 1);
            assert(t.drop_last() =~= s@.subrange(0, i as int));
            assert(t.last() == s@[i as int]);
        }
        if s[i] == 46 {
            let done = cur;
            parts.push(done);
            cur = Vec::new();
            assert(parts@.map_values(|x: Vec<u8>| x@).push(cur@) =~= before.push(Seq::empty()));
        } else {
            cur.push(s[i]);
            assert(parts@.map_values(|x: Vec<u8>| x@).push(cur@) =~= before.update(before.len() - 1, before.last().push(s@[i as int])));
        }
        i = i + 1;
    }
    assert(s@.subrange(0, s@.len() as int) =~= s@);
    let ghost last = parts@.map_values(|x: Vec<u8>| x@).push(cur@);
    parts.push(cur);
    assert(parts@.map_values(|x: Vec<u8>| x@) =~= last);
    parts
}

/// Compares two pre-release texts; an empty text stands for a release.
pub fn compare_prerelease(a: &[u8], b: &[u8]) -> (r: Ordering)
    ensures
        r == cmp_prerelease(a@, b@),
{
    if a.len() == 0 && b.len() == 0 {
        Ordering::Equal
    } else if a.len() == 0 {
        Ordering::Greater
    } else if b.len() == 0 {
        Ordering::Less
    } else {
        let ia = split_at_dots(a);
        let ib = split_at_dots(b);
        compare_identifiers(&ia, &ib)
    }
}

/// Three-way comparisons that form a total preorder: swapping the arguments
/// flips the outcome, every value equals itself, and the order is transitive.
pub open spec fn preorder_at<T>(cmp: spec_fn(T, T) -> Ordering, a: T, b: T, c: T) -> bool {
    &&& cmp(a, b) == flip(cmp(b, a))
    &&& cmp(a, a) == Ordering::Equal
    &&& (cmp(a, b) == Ordering::Equal && cmp(b, c) == Ordering::Equal) ==> cmp(a, c) == Ordering::Equal
    &&& (cmp(a, b) == Ordering::Less && cmp(b, c) != Ordering::Greater) ==> cmp(a, c) == Ordering::Less
    &&& (cmp(a, b) != Ordering::Greater && cmp(b, c) == Ordering::Less) ==> cmp(a, c) == Ordering::Less
}

proof fn lemma_bytes_flip(a: Seq<u8>, b: Seq<u8>)
    ensures
        cmp_bytes(a, b) == flip(cmp_bytes(b, a)),
        cmp_bytes(a, b) == Ordering::Equal ==> a == b,
        cmp_bytes(a, a) == Ordering::Equal,
    decreases a.len(),
{
    if a.len() > 0 && b.len() > 0 {
        lemma_bytes_flip(a.drop_first(), b.drop_first());
        if cmp_bytes(a, b) == Ordering::Equal {
            assert(a =~= b) by {
                assert forall|i: int| 0 <= i < a.len() implies a[i] == b[i] by {
                    if i > 0 {
                        assert(a[i] == a.drop_first()[i - 1]);
                        assert(b[i] == b.drop_first()[i - 1]);
                    }
                }
            }
        }
    }
    if a.len() > 0 {
        lemma_bytes_flip(a.drop_first(), a.drop_first());
    }
}

proof fn lemma_bytes_transitive(a: Seq<u8>, b: Seq<u8>, c: Seq<u8>)
    ensures
        (cmp_bytes(a, b) == Ordering::Less && cmp_bytes(b, c) == Ordering::Less) ==> cmp_bytes(a, c)
            == Ordering::Less,
    decreases a.len(),
{
    if a.len() > 0 && b.len() > 0 && c.len() > 0 {
        lemma_bytes_transitive(a.drop_first(), b.drop_first(), c.drop_first());
    }
}

proof fn lemma_bytes_preorder(a: Seq<u8>, b: Seq<u8>, c: Seq<u8>)
    ensures
        preorder_at(|x: Seq<u8>, y: Seq<u8>| cmp_bytes(x, y), a, b, c),
{
    lemma_bytes_flip(a, b);
    lemma_bytes_flip(b, c);
    lemma_bytes_flip(a, c);
    lemma_bytes_transitive(a, b, c);
}

proof fn lemma_identifier_preorder(a: Seq<u8>, b: Seq<u8>, c: Seq<u8>)
    ensures
        preorder_at(|x: Seq<u8>, y: Seq<u8>| cmp_identifier(x, y), a, b, c),
{
    lemma_bytes_preorder(a, b, c);
}

proof fn lemma_identifiers_preorder(a: Seq<Seq<u8>>, b: Seq<Seq<u8>>, c: Seq<Seq<u8>>)
    ensures
        preorder_at(|x: Seq<Seq<u8>>, y: Seq<Seq<u8>>| cmp_identifiers(x, y), a, b, c),
    decreases a.len(),
{
    if a.len() > 0 {
        lemma_identifier_preorder(a[0], a[0], a[0]);
        lemma_identifiers_preorder(a.drop_first(), a.drop_first(), a.drop_first());
    }
    if a.len() > 0 && b.len() > 0 {
        let c1 = if c.len() > 0 { c } else { b };
        lemma_identifier_preorder(a[0], b[0], c1[0]);
        lemma_identifiers_preorder(a.drop_first(), b.drop_first(), c1.drop_first());
    }
}

/// Pre-release texts are ordered by a total preorder.
pub proof fn lemma_prerelease_preorder(a: Seq<u8>, b: Seq<u8>, c: Seq<u8>)
    ensures
        preorder_at(|x: Seq<u8>, y: Seq<u8>| cmp_prerelease(x, y), a, b, c),
{
    lemma_identifiers_preorder(split_dots(a), split_dots(b), split_dots(c));
    lemma_identifiers_preorder(split_dots(a), split_dots(a), split_dots(a));
}

} // verus!
