//! The order in which configurations list their members: endpoints by their
//! bytes, lexicographically, as `String`'s own order does; node identifiers
//! by their integer value, as UUIDs order by their big-endian bytes.
use crate::common::{Endpoint, NodeId};
use vstd::prelude::*;
use vstd::utf8::{decode_utf8, encode_utf8, encode_utf8_decode_utf8};

verus! {

/// How one value stands to another.
#[derive(Debug, Clone, Copy, PartialEq, Eq, Structural)]
pub enum Precedence {
    Before,
    Same,
    After,
}

/// `a` comes strictly before `b` in lexicographic byte order.
pub open spec fn lex_lt(a: Seq<u8>, b: Seq<u8>) -> bool
    decreases a.len(),
{
    if a.len() == 0 {
        b.len() > 0
    } else if b.len() == 0 {
        false
    } else if a[0] < b[0] {
        true
    } else if a[0] > b[0] {
        false
    } else {
        lex_lt(a.drop_first(), b.drop_first())
    }
}

/// `a` comes strictly before `b` as strings compare: by their UTF-8 bytes.
pub open spec fn str_lt(a: Seq<char>, b: Seq<char>) -> bool {
    lex_lt(encode_utf8(a), encode_utf8(b))
}

/// The views of a sequence of strings.
pub open spec fn str_views(v: Seq<String>) -> Seq<Seq<char>> {
    v.map_values(|s: String| s@)
}

/// Strictly increasing as strings compare.
pub open spec fn strictly_sorted_str(s: Seq<Seq<char>>) -> bool {
    forall|i: int, j: int| 0 <= i < j < s.len() ==> str_lt(#[trigger] s[i], #[trigger] s[j])
}

/// Strictly increasing by identifier value.
pub open spec fn strictly_sorted_ids(s: Seq<NodeId>) -> bool {
    forall|i: int, j: int| 0 <= i < j < s.len() ==> (#[trigger] s[i]).id() < (#[trigger] s[j]).id()
}

pub proof fn lemma_lex_irreflexive(a: Seq<u8>)
    ensures
        !lex_lt(a, a),
    decreases a.len(),
{
    if a.len() > 0 {
        lemma_lex_irreflexive(a.drop_first());
    }
}

pub proof fn lemma_lex_transitive(a: Seq<u8>, b: Seq<u8>, c: Seq<u8>)
    requires
        lex_lt(a, b),
        lex_lt(b, c),
    ensures
        lex_lt(a, c),
    decreases a.len(),
{
    if a.len() > 0 && b.len() > 0 && c.len() > 0 {
        if a[0] == b[0] && b[0] == c[0] {
            lemma_lex_transitive(a.drop_first(), b.drop_first(), c.drop_first());
        }
    }
}

pub proof fn lemma_lex_total(a: Seq<u8>, b: Seq<u8>)
    ensures
        lex_lt(a, b) || a == b || lex_lt(b, a),
    decreases a.len(),
{
    if a.len() > 0 && b.len() > 0 && a[0] == b[0] {
        lemma_lex_total(a.drop_first(), b.drop_first());
        if a.drop_first() == b.drop_first() {
            assert(a =~= seq![a[0]] + a.drop_first());
            assert(b =~= seq![b[0]] + b.drop_first());
        }
    } else if a.len() == 0 && b.len() == 0 {
        assert(a =~= b);
    }
}

pub proof fn lemma_lex_asymmetric(a: Seq<u8>, b: Seq<u8>)
    requires
        lex_lt(a, b),
    ensures
        !lex_lt(b, a),
{
    if lex_lt(b, a) {
        lemma_lex_transitive(a, b, a);
        lemma_lex_irreflexive(a);
    }
}

/// Two strings with the same bytes are the same string.
pub proof fn lemma_encode_injective(a: Seq<char>, b: Seq<char>)
    requires
        encode_utf8(a) == encode_utf8(b),
    ensures
        a == b,
{
    encode_utf8_decode_utf8(a);
    encode_utf8_decode_utf8(b);
}

/// The string order is a strict total order.
pub proof fn lemma_str_order(a: Seq<char>, b: Seq<char>, c: Seq<char>)
    ensures
        !str_lt(a, a),
        str_lt(a, b) ==> !str_lt(b, a),
        str_lt(a, b) && str_lt(b, c) ==> str_lt(a, c),
        str_lt(a, b) || a == b || str_lt(b, a),
{
    lemma_lex_irreflexive(encode_utf8(a));
    if str_lt(a, b) {
        lemma_lex_asymmetric(encode_utf8(a), encode_utf8(b));
        if str_lt(b, c) {
            lemma_lex_transitive(encode_utf8(a), encode_utf8(b), encode_utf8(c));
        }
    }
    lemma_lex_total(encode_utf8(a), encode_utf8(b));
    if encode_utf8(a) == encode_utf8(b) {
        lemma_encode_injective(a, b);
    }
}

proof fn lemma_lex_skip(a: Seq<u8>, b: Seq<u8>, i: int)
    requires
        0 <= i <= a.len(),
        i <= b.len(),
        forall|j: int| 0 <= j < i ==> a[j] == b[j],
    ensures
        lex_lt(a, b) == lex_lt(a.skip(i), b.skip(i)),
    decreases i,
{
    if i > 0 {
        lemma_lex_skip(a.drop_first(), b.drop_first(), i - 1);
        assert(a.drop_first().skip(i - 1) =~= a.skip(i));
        assert(b.drop_first().skip(i - 1) =~= b.skip(i));
    } else {
        assert(a.skip(0) =~= a);
        assert(b.skip(0) =~= b);
    }
}

/// Compare two byte strings lexicographically.
pub fn compare_bytes(a: &[u8], b: &[u8]) -> (r: Precedence)
    ensures
        (r == Precedence::Before) == lex_lt(a@, b@),
        (r == Precedence::Same) == (a@ == b@),
        (r == Precedence::After) == lex_lt(b@, a@),
{
    let mut i: usize = 0;
    while i < a.len() && i < b.len() && a[i] == b[i]
        invariant
            i <= a@.len(),
            i <= b@.len(),
            forall|j: int| 0 <= j < i ==> a@[j] == b@[j],
        decreases a@.len() - i,
    {
        i += 1;
    }
    proof {
        lemma_lex_skip(a@, b@, i as int);
        lemma_lex_skip(b@, a@, i as int);
        lemma_lex_irreflexive(a@);
        lemma_lex_total(a@, b@);
        if lex_lt(a@, b@) {
            lemma_lex_asymmetric(a@, b@);
        }
        if lex_lt(b@, a@) {
            lemma_lex_asymmetric(b@, a@);
        }
    }
    if i < a.len() && i < b.len() {
        assert(a@.skip(i as int)[0] == a@[i as int]);
        assert(b@.skip(i as int)[0] == b@[i as int]);
        if a[i] < b[i] {
            Precedence::Before
        } else {
            Precedence::After
        }
    } else if i < b.len() {
        assert(a@.skip(i as int).len() == 0);
        Precedence::Before
    } else if i < a.len() {
        assert(b@.skip(i as int).len() == 0);
        Precedence::After
    } else {
        assert(a@ =~= b@);
        Precedence::Same
    }
}

/// Compare two endpoints as strings compare.
pub fn compare_endpoints(a: &Endpoint, b: &Endpoint) -> (r: Precedence)
    ensures
        (r == Precedence::Before) == str_lt(a@, b@),
        (r == Precedence::Same) == (a@ == b@),
        (r == Precedence::After) == str_lt(b@, a@),
{
    let r = compare_bytes(a.as_str().as_bytes(), b.as_str().as_bytes());
    proof {
        if encode_utf8(a@) == encode_utf8(b@) {
            lemma_encode_injective(a@, b@);
        }
    }
    r
}

/// Insert `x` into the strictly sorted `v` unless it is there already.
pub fn insert_sorted_endpoint(v: &mut Vec<Endpoint>, x: Endpoint)
    requires
        strictly_sorted_str(str_views(old(v)@)),
    ensures
        strictly_sorted_str(str_views(final(v)@)),
        str_views(final(v)@).to_set() == str_views(old(v)@).to_set().insert(x@),
{
    let ghost s = str_views(v@);
    let mut lo: usize = 0;
    let mut hi: usize = v.len();
    while lo < hi
        invariant
            s == str_views(v@),
            strictly_sorted_str(s),
            lo <= hi <= v@.len(),
            forall|i: int| 0 <= i < lo ==> str_lt(#[trigger] s[i], x@),
            forall|i: int| hi <= i < s.len() ==> !str_lt(#[trigger] s[i], x@),
        decreases hi - lo,
    {
        let mid = lo + (hi - lo) / 2;
        let c = compare_endpoints(&v[mid], &x);
        if c == Precedence::Before {
            assert forall|i: int| 0 <= i < mid + 1 implies str_lt(#[trigger] s[i], x@) by {
                if i < mid {
                    lemma_str_order(s[i], s[mid as int], x@);
                }
            }
            lo = mid + 1;
        } else {
            assert forall|i: int| mid <= i < s.len() implies !str_lt(#[trigger] s[i], x@) by {
                if i > mid {
                    lemma_str_order(s[mid as int], s[i], x@);
                    lemma_str_order(x@, s[mid as int], s[i]);
                    lemma_str_order(s[i], x@, s[i]);
                    lemma_str_order(s[mid as int], x@, s[i]);
                }
            }
            hi = mid;
        }
    }
    if lo < v.len() {
        let c = compare_endpoints(&v[lo], &x);
        if c == Precedence::Same {
            proof {
                assert(s.to_set().insert(x@) =~= s.to_set()) by {
                    assert(s.contains(s[lo as int]));
                }
            }
            return;
        }
    }
    let ghost xv = x@;
    v.insert(lo, x);
    let ghost n = str_views(v@);
    assert(n =~= s.insert(lo as int, xv));
    assert forall|i: int, j: int| 0 <= i < j < n.len() implies str_lt(#[trigger] n[i], #[trigger] n[j]) by {
        if lo < s.len() {
            lemma_str_order(s[lo as int], xv, s[lo as int]);
            lemma_str_order(xv, s[lo as int], xv);
        }
        if j < lo {
        } else if j == lo {
        } else if i < lo {
            lemma_str_order(n[i], xv, n[j]);
            lemma_str_order(xv, n[j], xv);
            lemma_str_order(n[j], xv, n[j]);
            assert(n[j] == s[j - 1]);
        } else if i == lo {
            assert(n[j] == s[j - 1]);
            lemma_str_order(xv, n[j], xv);
            lemma_str_order(n[j], xv, n[j]);
            if j - 1 > lo {
                lemma_str_order(s[lo as int], s[j - 1], xv);
                lemma_str_order(xv, s[lo as int], s[j - 1]);
            }
        } else {
            assert(n[i] == s[i - 1]);
            assert(n[j] == s[j - 1]);
        }
    }
    assert(n.to_set() =~= s.to_set().insert(xv)) by {
        assert forall|e: Seq<char>| n.to_set().contains(e) <==> s.to_set().insert(xv).contains(e) by {
            if n.contains(e) {
                let i = choose|i: int| 0 <= i < n.len() && n[i] == e;
                if i < lo {
                    assert(s[i] == e);
                } else if i > lo {
                    assert(s[i - 1] == e);
                }
            }
            if s.contains(e) {
                let i = choose|i: int| 0 <= i < s.len() && s[i] == e;
                if i < lo {
                    assert(n[i] == e);
                } else {
                    assert(n[i + 1] == e);
                }
            }
            if e == xv {
                assert(n[lo as int] == xv);
            }
        }
    }
}

/// Insert `x` into `v`, strictly sorted by identifier, unless it is there already.
pub fn insert_sorted_id(v: &mut Vec<NodeId>, x: NodeId)
    requires
        strictly_sorted_ids(old(v)@),
    ensures
        strictly_sorted_ids(final(v)@),
        final(v)@.to_set() == old(v)@.to_set().insert(x),
{
    let ghost s = v@;
    let xi = x.as_u128();
    let mut lo: usize = 0;
    let mut hi: usize = v.len();
    while lo < hi
        invariant
            s == v@,
            strictly_sorted_ids(s),
            xi == x.id(),
            lo <= hi <= v@.len(),
            forall|i: int| 0 <= i < lo ==> (#[trigger] s[i]).id() < x.id(),
            forall|i: int| hi <= i < s.len() ==> (#[trigger] s[i]).id() >= x.id(),
        decreases hi - lo,
    {
        let mid = lo + (hi - lo) / 2;
        if v[mid].as_u128() < xi {
            assert forall|i: int| 0 <= i < mid + 1 implies (#[trigger] s[i]).id() < x.id() by {
                if i < mid {
                    assert(s[i].id() < s[mid as int].id());
                }
            }
            lo = mid + 1;
        } else {
            assert forall|i: int| mid <= i < s.len() implies (#[trigger] s[i]).id() >= x.id() by {
                if i > mid {
                    assert(s[mid as int].id() < s[i].id());
                }
            }
            hi = mid;
        }
    }
    if lo < v.len() && v[lo].as_u128() == xi {
        proof {
            NodeId::lemma_id_injective(s[lo as int], x);
            assert(s.to_set().insert(x) =~= s.to_set()) by {
                assert(s.contains(s[lo as int]));
            }
        }
        return;
    }
    v.insert(lo, x);
    let ghost n = v@;
    assert(n =~= s.insert(lo as int, x));
    assert forall|i: int, j: int| 0 <= i < j < n.len() implies (#[trigger] n[i]).id() < (
    #[trigger] n[j]).id() by {
        if j < lo {
        } else if j == lo {
        } else if i < lo {
            assert(n[j] == s[j - 1]);
        } else if i == lo {
            assert(n[j] == s[j - 1]);
            if lo < s.len() {
                assert(s[lo as int].id() != x.id());
                if j - 1 > lo {
                    assert(s[lo as int].id() < s[j - 1].id());
                }
            }
        } else {
            assert(n[i] == s[i - 1]);
            assert(n[j] == s[j - 1]);
        }
    }
    assert(n.to_set() =~= s.to_set().insert(x)) by {
        assert forall|e: NodeId| n.to_set().contains(e) <==> s.to_set().insert(x).contains(e) by {
            if n.contains(e) {
                let i = choose|i: int| 0 <= i < n.len() && n[i] == e;
                if i < lo {
                    assert(s[i] == e);
                } else if i > lo {
                    assert(s[i - 1] == e);
                }
            }
            if s.contains(e) {
                let i = choose|i: int| 0 <= i < s.len() && s[i] == e;
                if i < lo {
                    assert(n[i] == e);
                } else {
                    assert(n[i + 1] == e);
                }
            }
            if e == x {
                assert(n[lo as int] == x);
            }
        }
    }
}

/// Two strictly sorted sequences of strings that hold the same strings are equal.
pub proof fn lemma_sorted_str_unique(a: Seq<Seq<char>>, b: Seq<Seq<char>>)
    requires
        strictly_sorted_str(a),
        strictly_sorted_str(b),
        a.to_set() == b.to_set(),
    ensures
        a == b,
    decreases a.len(),
{
    if a.len() == 0 {
        if b.len() > 0 {
            assert(b.to_set().contains(b[0]));
        }
        assert(a =~= b);
    } else if b.len() == 0 {
        assert(a.to_set().contains(a[0]));
    } else {
        let x = a.last();
        let y = b.last();
        assert(a.to_set().contains(x));
        assert(b.to_set().contains(y));
        assert(b.contains(x));
        assert(a.contains(y));
        let i = choose|i: int| 0 <= i < b.len() && b[i] == x;
        let j = choose|j: int| 0 <= j < a.len() && a[j] == y;
        lemma_str_order(x, y, x);
        if i < b.len() - 1 {
            if j < a.len() - 1 {
                lemma_str_order(x, y, x);
                lemma_str_order(y, x, y);
            }
        }
        assert(x == y) by {
            if x != y {
                if i < b.len() - 1 {
                    assert(str_lt(b[i], b[b.len() - 1]));
                    if j < a.len() - 1 {
                        assert(str_lt(a[j], a[a.len() - 1]));
                        lemma_str_order(x, y, x);
                    } else {
                        assert(a[j] == x);
                    }
                } else {
                    assert(b[i] == y);
                }
            }
        }
        let a2 = a.drop_last();
        let b2 = b.drop_last();
        assert forall|k: int, l: int| 0 <= k < l < a2.len() implies str_lt(#[trigger] a2[k], #[trigger] a2[l]) by {
            assert(a2[k] == a[k] && a2[l] == a[l]);
        }
        assert forall|k: int, l: int| 0 <= k < l < b2.len() implies str_lt(#[trigger] b2[k], #[trigger] b2[l]) by {
            assert(b2[k] == b[k] && b2[l] == b[l]);
        }
        assert(a2.to_set() =~= b2.to_set()) by {
            assert forall|e: Seq<char>| a2.to_set().contains(e) <==> b2.to_set().contains(e) by {
                if a2.contains(e) {
                    let k = choose|k: int| 0 <= k < a2.len() && a2[k] == e;
                    assert(str_lt(a[k], a[a.len() - 1]));
                    lemma_str_order(e, x, e);
                    assert(a.to_set().contains(e));
                    assert(b.contains(e));
                    let l = choose|l: int| 0 <= l < b.len() && b[l] == e;
                    assert(l != b.len() - 1);
                    assert(b2[l] == e);
                }
                if b2.contains(e) {
                    let k = choose|k: int| 0 <= k < b2.len() && b2[k] == e;
                    assert(str_lt(b[k], b[b.len() - 1]));
                    lemma_str_order(e, y, e);
                    assert(b.to_set().contains(e));
                    assert(a.contains(e));
                    let l = choose|l: int| 0 <= l < a.len() && a[l] == e;
                    assert(l != a.len() - 1);
                    assert(a2[l] == e);
                }
            }
        }
        lemma_sorted_str_unique(a2, b2);
        assert(a =~= a2.push(x));
        assert(b =~= b2.push(y));
    }
}

/// Two strictly sorted sequences of identifiers that hold the same identifiers
/// are equal.
pub proof fn lemma_sorted_ids_unique(a: Seq<NodeId>, b: Seq<NodeId>)
    requires
        strictly_sorted_ids(a),
        strictly_sorted_ids(b),
        a.to_set() == b.to_set(),
    ensures
        a == b,
    decreases a.len(),
{
    if a.len() == 0 {
        if b.len() > 0 {
            assert(b.to_set().contains(b[0]));
        }
        assert(a =~= b);
    } else if b.len() == 0 {
        assert(a.to_set().contains(a[0]));
    } else {
        let x = a.last();
        let y = b.last();
        assert(a.to_set().contains(x));
        assert(b.to_set().contains(y));
        assert(b.contains(x));
        assert(a.contains(y));
        let i = choose|i: int| 0 <= i < b.len() && b[i] == x;
        let j = choose|j: int| 0 <= j < a.len() && a[j] == y;
        assert(x == y) by {
            if x != y {
                if i < b.len() - 1 {
                    assert(b[i].id() < b[b.len() - 1].id());
                }
                if j < a.len() - 1 {
                    assert(a[j].id() < a[a.len() - 1].id());
                }
            }
        }
        let a2 = a.drop_last();
        let b2 = b.drop_last();
        assert forall|k: int, l: int| 0 <= k < l < a2.len() implies (#[trigger] a2[k]).id() < (
        #[trigger] a2[l]).id() by {
            assert(a2[k] == a[k] && a2[l] == a[l]);
        }
        assert forall|k: int, l: int| 0 <= k < l < b2.len() implies (#[trigger] b2[k]).id() < (
        #[trigger] b2[l]).id() by {
            assert(b2[k] == b[k] && b2[l] == b[l]);
        }
        assert(a2.to_set() =~= b2.to_set()) by {
            assert forall|e: NodeId| a2.to_set().contains(e) <==> b2.to_set().contains(e) by {
                if a2.contains(e) {
                    let k = choose|k: int| 0 <= k < a2.len() && a2[k] == e;
                    assert(a[k].id() < a[a.len() - 1].id());
                    assert(a.to_set().contains(e));
                    assert(b.contains(e));
                    let l = choose|l: int| 0 <= l < b.len() && b[l] == e;
                    assert(l != b.len() - 1);
                    assert(b2[l] == e);
                }
                if b2.contains(e) {
                    let k = choose|k: int| 0 <= k < b2.len() && b2[k] == e;
                    assert(b[k].id() < b[b.len() - 1].id());
                    assert(b.to_set().contains(e));
                    assert(a.contains(e));
                    let l = choose|l: int| 0 <= l < a.len() && a[l] == e;
                    assert(l != a.len() - 1);
                    assert(a2[l] == e);
                }
            }
        }
        lemma_sorted_ids_unique(a2, b2);
        assert(a =~= a2.push(x));
        assert(b =~= b2.push(y));
    }
}

/// Position of `x` in `v`, if it occurs.
pub(crate) fn find_endpoint(v: &Vec<Endpoint>, x: &Endpoint) -> (r: Option<usize>)
    ensures
        r matches Some(i) ==> i < v@.len() && v@[i as int]@ == x@,
        r is None ==> !str_views(v@).contains(x@),
{
    let mut i: usize = 0;
    while i < v.len()
        invariant
            i <= v@.len(),
            forall|j: int| 0 <= j < i ==> (#[trigger] v@[j])@ != x@,
        decreases v@.len() - i,
    {
        if v[i] == *x {
            return Some(i);
        }
        i += 1;
    }
    assert forall|j: int| 0 <= j < str_views(v@).len() implies str_views(v@)[j] != x@ by {
        assert(str_views(v@)[j] == v@[j]@);
    }
    None
}

/// Whether `x` occurs in `v`.
pub(crate) fn contains_endpoint(v: &Vec<Endpoint>, x: &Endpoint) -> (b: bool)
    ensures
        b == str_views(v@).contains(x@),
{
    match find_endpoint(v, x) {
        Some(i) => {
            assert(str_views(v@)[i as int] == x@);
            true
        },
        None => false,
    }
}

/// Remove `x`, which occurs once in `v`.
pub(crate) fn remove_endpoint(v: &mut Vec<Endpoint>, x: &Endpoint)
    requires
        str_views(old(v)@).no_duplicates(),
        str_views(old(v)@).contains(x@),
    ensures
        str_views(final(v)@).no_duplicates(),
        str_views(final(v)@).to_set() == str_views(old(v)@).to_set().remove(x@),
        final(v)@.len() == old(v)@.len() - 1,
{
    let ghost s = str_views(v@);
    let found = find_endpoint(v, x);
    let i = match found {
        Some(i) => i,
        None => {
            return;
        },
    };
    assert(s[i as int] == x@);
    v.remove(i);
    let ghost t = str_views(v@);
    assert(t =~= s.remove(i as int));
    assert(t.no_duplicates()) by {
        assert forall|a: int, b: int| 0 <= a < b < t.len() implies t[a] != t[b] by {
            let a2 = if a < i { a } else { a + 1 };
            let b2 = if b < i { b } else { b + 1 };
            assert(t[a] == s[a2] && t[b] == s[b2]);
        }
    }
    assert(t.to_set() =~= s.to_set().remove(x@)) by {
        assert forall|e: Seq<char>| t.to_set().contains(e) <==> s.to_set().remove(x@).contains(e) by {
            if t.contains(e) {
                let a = choose|a: int| 0 <= a < t.len() && t[a] == e;
                let a2 = if a < i { a } else { a + 1 };
                assert(s[a2] == e);
                assert(a2 != i);
            }
            if s.contains(e) && e != x@ {
                let a = choose|a: int| 0 <= a < s.len() && s[a] == e;
                assert(a != i);
                if a < i {
                    assert(t[a] == e);
                } else {
                    assert(t[a - 1] == e);
                }
            }
        }
    }
}

} // verus!
