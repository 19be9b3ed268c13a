//! Lexicographic order on names (by character code) and sorted name lists.
use vstd::prelude::*;
use vstd::string::*;
use crate::names::{NameSet, strs_view};

verus! {

/// `a` sorts strictly before `b`: lexicographic by character code, a proper prefix first.
pub open spec fn seq_lt(a: Seq<char>, b: Seq<char>) -> bool
    decreases a.len(),
{
    if a.len() == 0 {
        b.len() > 0
    } else if b.len() == 0 {
        false
    } else if (a[0] as int) < (b[0] as int) {
        true
    } else if a[0] == b[0] {
        seq_lt(a.drop_first(), b.drop_first())
    } else {
        false
    }
}

pub proof fn lemma_lt_irreflexive(a: Seq<char>)
    ensures
        !seq_lt(a, a),
    decreases a.len(),
{
    if a.len() > 0 {
        lemma_lt_irreflexive(a.drop_first());
    }
}

pub proof fn lemma_lt_asymmetric(a: Seq<char>, b: Seq<char>)
    ensures
        !(seq_lt(a, b) && seq_lt(b, a)),
    decreases a.len(),
{
    if a.len() > 0 && b.len() > 0 && a[0] == b[0] {
        lemma_lt_asymmetric(a.drop_first(), b.drop_first());
    }
}

pub proof fn lemma_lt_total(a: Seq<char>, b: Seq<char>)
    ensures
        a != b ==> seq_lt(a, b) || seq_lt(b, a),
    decreases a.len(),
{
    if a.len() > 0 && b.len() > 0 && a[0] == b[0] {
        lemma_lt_total(a.drop_first(), b.drop_first());
        if a.drop_first() == b.drop_first() {
            assert(a =~= seq![a[0]] + a.drop_first());
            assert(b =~= seq![b[0]] + b.drop_first());
        }
    }
    if a.len() > 0 && b.len() > 0 && a[0] != b[0] {
        assert((a[0] as int) != (b[0] as int));
    }
    if a.len() == 0 && b.len() == 0 {
        assert(a =~= b);
    }
}

pub proof fn lemma_lt_transitive(a: Seq<char>, b: Seq<char>, c: Seq<char>)
    requires
        seq_lt(a, b),
        seq_lt(b, c),
    ensures
        seq_lt(a, c),
    decreases a.len(),
{
    if a.len() > 0 && b.len() > 0 && c.len() > 0 && a[0] == b[0] && b[0] == c[0] {
        lemma_lt_transitive(a.drop_first(), b.drop_first(), c.drop_first());
    }
}

/// Compare two names: `Less` when `a` sorts first.
pub fn str_less(a: &str, b: &str) -> (r: bool)
    ensures
        r == seq_lt(a@, b@),
{
    let na = a.unicode_len();
    let nb = b.unicode_len();
    let mut i: usize = 0;
    proof {
        assert(a@.skip(0) =~= a@);
        assert(b@.skip(0) =~= b@);
        assert(a@.take(0) =~= b@.take(0));
    }
    while i < na && i < nb
        invariant
            na == a@.len(),
            nb == b@.len(),
            i <= na,
            i <= nb,
            a@.take(i as int) == b@.take(i as int),
            seq_lt(a@, b@) == seq_lt(a@.skip(i as int), b@.skip(i as int)),
        decreases na - i,
    {
        let ca = a.get_char(i);
        let cb = b.get_char(i);
        proof {
            assert(a@.skip(i as int)[0] == ca);
            assert(b@.skip(i as int)[0] == cb);
            assert(a@.skip(i as int).drop_first() =~= a@.skip(i + 1));
            assert(b@.skip(i as int).drop_first() =~= b@.skip(i + 1));
        }
        if (ca as u32) < (cb as u32) {
            return true;
        }
        if ca != cb {
            return false;
        }
        proof {
            assert(a@.take(i + 1) =~= a@.take(i as int).push(ca));
            assert(b@.take(i + 1) =~= b@.take(i as int).push(cb));
        }
        i = i + 1;
    }
    proof {
        if i == na {
            assert(a@.skip(i as int).len() == 0);
        } else {
            assert(b@.skip(i as int).len() == 0);
        }
    }
    i == na && i < nb
}

/// A strictly increasing list of names.
pub open spec fn strictly_sorted(s: Seq<Seq<char>>) -> bool {
    forall|i: int, j: int| 0 <= i < j < s.len() ==> seq_lt(#[trigger] s[i], #[trigger] s[j])
}

pub proof fn lemma_sorted_no_duplicates(s: Seq<Seq<char>>)
    requires
        strictly_sorted(s),
    ensures
        s.no_duplicates(),
{
    assert forall|i: int, j: int| 0 <= i < s.len() && 0 <= j < s.len() && i != j implies s[i] != s[j] by {
        if i < j {
            assert(seq_lt(s[i], s[j]));
            lemma_lt_irreflexive(s[i]);
        } else {
            assert(seq_lt(s[j], s[i]));
            lemma_lt_irreflexive(s[j]);
        }
    }
}

/// Two strictly sorted lists with the same elements are equal.
pub proof fn lemma_sorted_unique(a: Seq<Seq<char>>, b: Seq<Seq<char>>)
    requires
        strictly_sorted(a),
        strictly_sorted(b),
        a.to_set() == b.to_set(),
    ensures
        a == b,
    decreases a.len(),
{
    lemma_sorted_no_duplicates(a);
    lemma_sorted_no_duplicates(b);
    a.unique_seq_to_set();
    b.unique_seq_to_set();
    if a.len() > 0 {
        // the first elements are both the minimum
        let x = a[0];
        let y = b[0];
        assert(b.to_set().contains(x)) by {
            assert(a.to_set().contains(a[0]));
        }
        assert(a.to_set().contains(y)) by {
            assert(b.to_set().contains(b[0]));
        }
        if x != y {
            let jx = choose|j: int| 0 <= j < b.len() && b[j] == x;
            let jy = choose|j: int| 0 <= j < a.len() && a[j] == y;
            assert(jx != 0);
            assert(jy != 0);
            assert(seq_lt(y, x));
            assert(seq_lt(x, y));
            lemma_lt_asymmetric(x, y);
        }
        let a2 = a.drop_first();
        let b2 = b.drop_first();
        assert forall|i: int, j: int| 0 <= i < j < a2.len() implies seq_lt(#[trigger] a2[i], #[trigger] a2[j]) by {
            assert(a2[i] == a[i + 1] && a2[j] == a[j + 1]);
        }
        assert forall|i: int, j: int| 0 <= i < j < b2.len() implies seq_lt(#[trigger] b2[i], #[trigger] b2[j]) by {
            assert(b2[i] == b[i + 1] && b2[j] == b[j + 1]);
        }
        assert forall|z: Seq<char>| a2.to_set().contains(z) == b2.to_set().contains(z) by {
            if a2.contains(z) {
                let i = choose|i: int| 0 <= i < a2.len() && a2[i] == z;
                assert(a[i + 1] == z);
                assert(z != x);
                assert(b.to_set().contains(z)) by { assert(a.to_set().contains(a[i + 1])); }
                let j = choose|j: int| 0 <= j < b.len() && b[j] == z;
                assert(j != 0);
                assert(b2[j - 1] == z);
            }
            if b2.contains(z) {
                let i = choose|i: int| 0 <= i < b2.len() && b2[i] == z;
                assert(b[i + 1] == z);
                assert(z != y);
                assert(a.to_set().contains(z)) by { assert(b.to_set().contains(b[i + 1])); }
                let j = choose|j: int| 0 <= j < a.len() && a[j] == z;
                assert(j != 0);
                assert(a2[j - 1] == z);
            }
        }
        assert(a2.to_set() =~= b2.to_set());
        lemma_sorted_unique(a2, b2);
        assert(a =~= seq![x] + a2);
        assert(b =~= seq![y] + b2);
    } else {
        assert(b.len() == 0);
        assert(a =~= b);
    }
}

/// Insert `x` into the strictly sorted `v` unless present.
pub fn insert_sorted(v: &mut Vec<String>, x: String)
    requires
        strictly_sorted(strs_view(old(v)@)),
    ensures
        strictly_sorted(strs_view(final(v)@)),
        strs_view(final(v)@).to_set() == strs_view(old(v)@).to_set().insert(x@),
{
    let ghost xv = x@;
    let mut i: usize = 0;
    while i < v.len()
        invariant
            i <= v@.len(),
            v@ == old(v)@,
            x@ == xv,
            forall|j: int| 0 <= j < i ==> seq_lt(#[trigger] strs_view(v@)[j], xv),
        ensures
            i <= v@.len(),
            v@ == old(v)@,
            forall|j: int| 0 <= j < i ==> seq_lt(#[trigger] strs_view(v@)[j], xv),
            i < v@.len() ==> !seq_lt(strs_view(v@)[i as int], xv),
        decreases v@.len() - i,
    {
        let lt = str_less(v[i].as_str(), x.as_str());
        proof {
            assert(strs_view(v@)[i as int] == v@[i as int]@);
            assert(x@ == xv);
            assert(lt == seq_lt(v@[i as int]@, x@));
        }
        if !lt {
            break;
        }
        i = i + 1;
    }
    let ghost sv = strs_view(v@);
    if i < v.len() && crate::names::str_eq(v[i].as_str(), x.as_str()) {
        proof {
            assert(sv.to_set().contains(xv)) by { assert(sv[i as int] == xv); }
            assert(sv.to_set().insert(xv) =~= sv.to_set());
        }
        return;
    }
    proof {
        if i < v@.len() {
            lemma_lt_total(sv[i as int], xv);
            assert(seq_lt(xv, sv[i as int]));
        }
    }
    v.insert(i, x);
    proof {
        let nv = strs_view(v@);
        assert(nv =~= sv.take(i as int).push(xv) + sv.skip(i as int));
        assert forall|a: int, b: int| 0 <= a < b < nv.len() implies seq_lt(#[trigger] nv[a], #[trigger] nv[b]) by {
            if b < i {
                assert(nv[a] == sv[a] && nv[b] == sv[b]);
            } else if b == i {
                assert(nv[a] == sv[a]);
            } else if a == i {
                assert(nv[b] == sv[b - 1]);
                if b - 1 > i {
                    lemma_lt_transitive(xv, sv[i as int], sv[b - 1]);
                }
            } else if a < i {
                assert(nv[a] == sv[a]);
                assert(nv[b] == sv[b - 1]);
                assert(seq_lt(sv[a], xv));
                if b - 1 >= i {
                    lemma_lt_transitive(sv[a], xv, sv[i as int]);
                    if b - 1 > i {
                        lemma_lt_transitive(sv[a], sv[i as int], sv[b - 1]);
                    }
                }
            } else {
                assert(nv[a] == sv[a - 1] && nv[b] == sv[b - 1]);
            }
        }
        assert forall|z: Seq<char>| nv.to_set().contains(z) == sv.to_set().insert(xv).contains(z) by {
            if nv.contains(z) {
                let j = choose|j: int| 0 <= j < nv.len() && nv[j] == z;
                if j < i {
                    assert(sv[j] == z);
                } else if j > i {
                    assert(sv[j - 1] == z);
                }
            }
            if sv.contains(z) {
                let j = choose|j: int| 0 <= j < sv.len() && sv[j] == z;
                if j < i {
                    assert(nv[j] == z);
                } else {
                    assert(nv[j + 1] == z);
                }
            }
            if z == xv {
                assert(nv[i as int] == xv);
            }
        }
        assert(nv.to_set() =~= sv.to_set().insert(xv));
    }
}

/// The elements of `s`, strictly sorted.
pub fn sorted_names(s: &NameSet) -> (r: Vec<String>)
    ensures
        strictly_sorted(strs_view(r@)),
        strs_view(r@).to_set() == s@,
{
    let mut out: Vec<String> = Vec::new();
    let n = s.len();
    let mut i: usize = 0;
    while i < n
        invariant
            n == s.elems().len(),
            i <= n,
            strictly_sorted(strs_view(out@)),
            strs_view(out@).to_set() == s.elems().take(i as int).to_set(),
        decreases n - i,
    {
        let x = s.get(i);
        proof {
            assert(s.elems().take(i + 1) =~= s.elems().take(i as int).push(x@));
            crate::names::lemma_push_to_set_pub(s.elems().take(i as int), x@);
        }
        insert_sorted(&mut out, x.clone());
        i = i + 1;
    }
    proof {
        assert(s.elems().take(n as int) =~= s.elems());
    }
    out
}

// ---------------------------------------------------------------------------------------------
// Triples of names
// ---------------------------------------------------------------------------------------------

pub type Triple = (Seq<char>, Seq<char>, Seq<char>);

/// Lexicographic order on triples of names.
pub open spec fn triple_lt(a: Triple, b: Triple) -> bool {
    seq_lt(a.0, b.0) || (a.0 == b.0 && (seq_lt(a.1, b.1) || (a.1 == b.1 && seq_lt(a.2, b.2))))
}

pub proof fn lemma_triple_order()
    ensures
        forall|a: Triple| !triple_lt(a, a),
        forall|a: Triple, b: Triple| #[trigger] triple_lt(a, b) ==> !triple_lt(b, a),
        forall|a: Triple, b: Triple| a != b ==> #[trigger] triple_lt(a, b) || triple_lt(b, a),
        forall|a: Triple, b: Triple, c: Triple| #[trigger] triple_lt(a, b) && #[trigger] triple_lt(b, c) ==> triple_lt(a, c),
{
    assert forall|a: Triple| !triple_lt(a, a) by {
        lemma_lt_irreflexive(a.0);
        lemma_lt_irreflexive(a.1);
        lemma_lt_irreflexive(a.2);
    }
    assert forall|a: Triple, b: Triple| #[trigger] triple_lt(a, b) implies !triple_lt(b, a) by {
        lemma_lt_asymmetric(a.0, b.0);
        lemma_lt_asymmetric(a.1, b.1);
        lemma_lt_asymmetric(a.2, b.2);
        lemma_lt_irreflexive(a.0);
        lemma_lt_irreflexive(a.1);
    }
    assert forall|a: Triple, b: Triple| a != b implies #[trigger] triple_lt(a, b) || triple_lt(b, a) by {
        lemma_lt_total(a.0, b.0);
        lemma_lt_total(a.1, b.1);
        lemma_lt_total(a.2, b.2);
    }
    assert forall|a: Triple, b: Triple, c: Triple| #[trigger] triple_lt(a, b) && #[trigger] triple_lt(b, c) implies triple_lt(a, c) by {
        if seq_lt(a.0, b.0) && seq_lt(b.0, c.0) {
            lemma_lt_transitive(a.0, b.0, c.0);
        }
        if seq_lt(a.1, b.1) && seq_lt(b.1, c.1) {
            lemma_lt_transitive(a.1, b.1, c.1);
        }
        if seq_lt(a.2, b.2) && seq_lt(b.2, c.2) {
            lemma_lt_transitive(a.2, b.2, c.2);
        }
    }
}

/// A strictly increasing list of triples.
pub open spec fn triples_sorted(s: Seq<Triple>) -> bool {
    forall|i: int, j: int| 0 <= i < j < s.len() ==> triple_lt(#[trigger] s[i], #[trigger] s[j])
}

/// Two strictly sorted lists of triples with the same elements are equal.
pub proof fn lemma_triples_sorted_unique(a: Seq<Triple>, b: Seq<Triple>)
    requires
        triples_sorted(a),
        triples_sorted(b),
        a.to_set() == b.to_set(),
    ensures
        a == b,
    decreases a.len(),
{
    lemma_triple_order();
    assert(a.no_duplicates());
    assert(b.no_duplicates());
    a.unique_seq_to_set();
    b.unique_seq_to_set();
    if a.len() > 0 {
        let x = a[0];
        let y = b[0];
        assert(b.to_set().contains(x)) by {
            assert(a.to_set().contains(a[0]));
        }
        assert(a.to_set().contains(y)) by {
            assert(b.to_set().contains(b[0]));
        }
        if x != y {
            let jx = choose|j: int| 0 <= j < b.len() && b[j] == x;
            let jy = choose|j: int| 0 <= j < a.len() && a[j] == y;
            assert(triple_lt(y, x));
            assert(triple_lt(x, y));
        }
        let a2 = a.drop_first();
        let b2 = b.drop_first();
        assert forall|i: int, j: int| 0 <= i < j < a2.len() implies triple_lt(#[trigger] a2[i], #[trigger] a2[j]) by {
            assert(a2[i] == a[i + 1] && a2[j] == a[j + 1]);
        }
        assert forall|i: int, j: int| 0 <= i < j < b2.len() implies triple_lt(#[trigger] b2[i], #[trigger] b2[j]) by {
            assert(b2[i] == b[i + 1] && b2[j] == b[j + 1]);
        }
        assert forall|z: Triple| a2.to_set().contains(z) == b2.to_set().contains(z) by {
            if a2.contains(z) {
                let i = choose|i: int| 0 <= i < a2.len() && a2[i] == z;
                assert(a[i + 1] == z);
                assert(z != x);
                assert(b.to_set().contains(z)) by {
                    assert(a.to_set().contains(a[i + 1]));
                }
                let j = choose|j: int| 0 <= j < b.len() && b[j] == z;
                assert(j != 0);
                assert(b2[j - 1] == z);
            }
            if b2.contains(z) {
                let i = choose|i: int| 0 <= i < b2.len() && b2[i] == z;
                assert(b[i + 1] == z);
                assert(z != y);
                assert(a.to_set().contains(z)) by {
                    assert(b.to_set().contains(b[i + 1]));
                }
                let j = choose|j: int| 0 <= j < a.len() && a[j] == z;
                assert(j != 0);
                assert(a2[j - 1] == z);
            }
        }
        assert(a2.to_set() =~= b2.to_set());
        lemma_triples_sorted_unique(a2, b2);
        assert(a =~= seq![x] + a2);
        assert(b =~= seq![y] + b2);
    } else {
        assert(b.len() == 0);
        assert(a =~= b);
    }
}

pub open spec fn triple_view(t: (String, String, String)) -> Triple {
    (t.0@, t.1@, t.2@)
}

pub open spec fn triples_view(v: Seq<(String, String, String)>) -> Seq<Triple> {
    v.map_values(|t: (String, String, String)| triple_view(t))
}

/// Does `a` sort strictly before `b`?
pub fn triple_less(a: &(String, String, String), b: &(String, String, String)) -> (r: bool)
    ensures
        r == triple_lt(triple_view(*a), triple_view(*b)),
{
    if str_less(a.0.as_str(), b.0.as_str()) {
        return true;
    }
    if !crate::names::str_eq(a.0.as_str(), b.0.as_str()) {
        return false;
    }
    if str_less(a.1.as_str(), b.1.as_str()) {
        return true;
    }
    if !crate::names::str_eq(a.1.as_str(), b.1.as_str()) {
        return false;
    }
    str_less(a.2.as_str(), b.2.as_str())
}

/// Insert `x` into the strictly sorted `v` unless present.
pub fn insert_sorted_triple(v: &mut Vec<(String, String, String)>, x: (String, String, String))
    requires
        triples_sorted(triples_view(old(v)@)),
    ensures
        triples_sorted(triples_view(final(v)@)),
        triples_view(final(v)@).to_set() == triples_view(old(v)@).to_set().insert(triple_view(x)),
{
    proof {
        lemma_triple_order();
    }
    let ghost xv = triple_view(x);
    let mut i: usize = 0;
    while i < v.len()
        invariant
            i <= v@.len(),
            v@ == old(v)@,
            triple_view(x) == xv,
            forall|j: int| 0 <= j < i ==> triple_lt(#[trigger] triples_view(v@)[j], xv),
        ensures
            i <= v@.len(),
            v@ == old(v)@,
            forall|j: int| 0 <= j < i ==> triple_lt(#[trigger] triples_view(v@)[j], xv),
            i < v@.len() ==> !triple_lt(triples_view(v@)[i as int], xv),
        decreases v@.len() - i,
    {
        let lt = triple_less(&v[i], &x);
        proof {
            assert(triples_view(v@)[i as int] == triple_view(v@[i as int]));
        }
        if !lt {
            break;
        }
        i = i + 1;
    }
    let ghost sv = triples_view(v@);
    if i < v.len() && !triple_less(&x, &v[i]) {
        proof {
            assert(sv[i as int] == triple_view(v@[i as int]));
            assert(sv[i as int] == xv);
            assert(sv.to_set().contains(xv)) by {
                assert(sv[i as int] == xv);
            }
            assert(sv.to_set().insert(xv) =~= sv.to_set());
        }
        return;
    }
    proof {
        if i < v@.len() {
            assert(sv[i as int] == triple_view(v@[i as int]));
            assert(triple_lt(xv, sv[i as int]));
        }
    }
    v.insert(i, x);
    proof {
        let nv = triples_view(v@);
        assert(nv =~= sv.take(i as int).push(xv) + sv.skip(i as int));
        assert forall|a: int, b: int| 0 <= a < b < nv.len() implies triple_lt(#[trigger] nv[a], #[trigger] nv[b]) by {
            if b < i {
                assert(nv[a] == sv[a] && nv[b] == sv[b]);
            } else if b == i {
                assert(nv[a] == sv[a]);
            } else if a == i {
                assert(nv[b] == sv[b - 1]);
                if b - 1 > i {
                    assert(triple_lt(sv[i as int], sv[b - 1]));
                }
            } else if a < i {
                assert(nv[a] == sv[a]);
                assert(nv[b] == sv[b - 1]);
                assert(triple_lt(sv[a], xv));
                if b - 1 > i {
                    assert(triple_lt(sv[i as int], sv[b - 1]));
                }
            } else {
                assert(nv[a] == sv[a - 1] && nv[b] == sv[b - 1]);
            }
        }
        assert forall|z: Triple| nv.to_set().contains(z) == sv.to_set().insert(xv).contains(z) by {
            if nv.contains(z) {
                let j = choose|j: int| 0 <= j < nv.len() && nv[j] == z;
                if j < i {
                    assert(sv[j] == z);
                } else if j > i {
                    assert(sv[j - 1] == z);
                }
            }
            if sv.contains(z) {
                let j = choose|j: int| 0 <= j < sv.len() && sv[j] == z;
                if j < i {
                    assert(nv[j] == z);
                } else {
                    assert(nv[j + 1] == z);
                }
            }
            if z == xv {
                assert(nv[i as int] == xv);
            }
        }
        assert(nv.to_set() =~= sv.to_set().insert(xv));
    }
}

} // verus!
