//! Sets of names held as vectors sorted in lexicographic order without
//! repeats, the order in which the planner reports packages.

use vstd::prelude::*;

use crate::text::{
    chars_of, lemma_seq_lt_asymmetric, lemma_seq_lt_irreflexive, lemma_seq_lt_total,
    lemma_seq_lt_transitive, seq_lt, str_lt, string_views,
};

verus! {

/// Strictly increasing: sorted, and no name occurs twice.
pub open spec fn sorted_names(s: Seq<Seq<char>>) -> bool {
    forall|i: int, j: int| 0 <= i < j < s.len() ==> seq_lt(#[trigger] s[i], #[trigger] s[j])
}

/// A strictly increasing sequence holds no name twice.
pub proof fn lemma_sorted_no_duplicates(s: Seq<Seq<char>>)
    requires
        sorted_names(s),
    ensures
        s.no_duplicates(),
{
    assert forall|i: int, j: int| 0 <= i < s.len() && 0 <= j < s.len() && i != j implies s[i]
        != s[j] by {
        if i < j {
            lemma_seq_lt_irreflexive(s[i]);
        } else {
            lemma_seq_lt_irreflexive(s[j]);
        }
    }
}

/// Two strictly increasing sequences with the same members are equal.
pub proof fn lemma_sorted_unique(a: Seq<Seq<char>>, b: Seq<Seq<char>>)
    requires
        sorted_names(a),
        sorted_names(b),
        forall|x: Seq<char>| a.contains(x) <==> b.contains(x),
    ensures
        a == b,
    decreases a.len() + b.len(),
{
    if a.len() == 0 {
        if b.len() > 0 {
            assert(b.contains(b[0]));
        }
        assert(a =~= b);
    } else if b.len() == 0 {
        assert(a.contains(a[0]));
    } else {
        // The first elements are the least of equal sets.
        assert(a.contains(a[0]));
        assert(b.contains(b[0]));
        let ia = choose|k: int| 0 <= k < a.len() && a[k] == b[0];
        let ib = choose|k: int| 0 <= k < b.len() && b[k] == a[0];
        if a[0] != b[0] {
            assert(ia != 0);
            assert(ib != 0);
            assert(seq_lt(a[0], a[ia]));
            assert(seq_lt(b[0], b[ib]));
            lemma_seq_lt_asymmetric(a[0], b[0]);
        }
        let a2 = a.drop_first();
        let b2 = b.drop_first();
        assert forall|x: Seq<char>| a2.contains(x) <==> b2.contains(x) by {
            if a2.contains(x) {
                let k = choose|k: int| 0 <= k < a2.len() && a2[k] == x;
                assert(a[k + 1] == x);
                assert(seq_lt(a[0], x));
                lemma_seq_lt_irreflexive(x);
                assert(a.contains(x));
                let m = choose|m: int| 0 <= m < b.len() && b[m] == x;
                assert(m != 0);
                assert(b2[m - 1] == x);
            }
            if b2.contains(x) {
                let k = choose|k: int| 0 <= k < b2.len() && b2[k] == x;
                assert(b[k + 1] == x);
                assert(seq_lt(b[0], x));
                lemma_seq_lt_irreflexive(x);
                assert(b.contains(x));
                let m = choose|m: int| 0 <= m < a.len() && a[m] == x;
                assert(m != 0);
                assert(a2[m - 1] == x);
            }
        }
        lemma_sorted_unique(a2, b2);
        assert(a =~= seq![a[0]] + a2);
        assert(b =~= seq![b[0]] + b2);
    }
}

/// Whether two strings hold the same characters.
pub fn str_eq(a: &str, b: &str) -> (res: bool)
    ensures
        res == (a@ == b@),
{
    let av = chars_of(a);
    let bv = chars_of(b);
    if av.len() != bv.len() {
        return false;
    }
    let mut i: usize = 0;
    while i < av.len()
        invariant
            av@ == a@,
            bv@ == b@,
            av.len() == bv.len(),
            i <= av.len(),
            forall|k: int| 0 <= k < i ==> a@[k] == b@[k],
        decreases av.len() - i,
    {
        if av[i] != bv[i] {
            return false;
        }
        i = i + 1;
    }
    assert(a@ =~= b@);
    true
}

/// Whether `name` is one of `names`.
pub fn contains_name(names: &Vec<String>, name: &str) -> (res: bool)
    ensures
        res == string_views(names@).contains(name@),
{
    let mut i: usize = 0;
    while i < names.len()
        invariant
            i <= names.len(),
            forall|k: int| 0 <= k < i ==> names@[k]@ != name@,
        decreases names.len() - i,
    {
        if str_eq(names[i].as_str(), name) {
            assert(string_views(names@)[i as int] == name@);
            return true;
        }
        i = i + 1;
    }
    proof {
        if string_views(names@).contains(name@) {
            let k = choose|k: int|
                0 <= k < string_views(names@).len() && string_views(names@)[k] == name@;
            assert(names@[k]@ == name@);
        }
    }
    false
}

/// Adds `name` to a strictly increasing vector of names, at its place.
/// Returns whether it was not there before.
pub fn insert_name(names: &mut Vec<String>, name: String) -> (inserted: bool)
    requires
        sorted_names(string_views(old(names)@)),
    ensures
        sorted_names(string_views(final(names)@)),
        inserted == !string_views(old(names)@).contains(name@),
        forall|x: Seq<char>|
            string_views(final(names)@).contains(x) <==> (string_views(old(names)@).contains(x)
                || x == name@),
{
    let ghost old_views = string_views(names@);
    let mut k: usize = 0;
    while k < names.len() && str_lt(names[k].as_str(), name.as_str())
        invariant
            names@ == old(names)@,
            old_views == string_views(names@),
            sorted_names(old_views),
            k <= names.len(),
            forall|i: int| 0 <= i < k ==> seq_lt(#[trigger] old_views[i], name@),
        decreases names.len() - k,
    {
        k = k + 1;
    }
    if k < names.len() && str_eq(names[k].as_str(), name.as_str()) {
        assert(old_views[k as int] == name@);
        return false;
    }
    proof {
        if k < names.len() {
            if old_views[k as int] != name@ {
                lemma_seq_lt_total(old_views[k as int], name@);
            }
        }
        assert forall|j: int| k <= j < old_views.len() implies seq_lt(
            name@,
            #[trigger] old_views[j],
        ) by {
            if j > k {
                lemma_seq_lt_transitive(name@, old_views[k as int], old_views[j]);
            }
        }
        assert forall|x: Seq<char>| old_views.contains(x) implies x != name@ by {
            let i = choose|i: int| 0 <= i < old_views.len() && old_views[i] == x;
            if i < k {
                lemma_seq_lt_irreflexive(name@);
            } else {
                lemma_seq_lt_irreflexive(name@);
            }
        }
    }
    let ghost nm = name@;
    names.insert(k, name);
    proof {
        let nv = string_views(names@);
        assert(nv =~= old_views.insert(k as int, nm));
        assert forall|i: int, j: int| 0 <= i < j < nv.len() implies seq_lt(
            #[trigger] nv[i],
            #[trigger] nv[j],
        ) by {
            if j < k {
            } else if i < k && j == k {
            } else if i < k && j > k {
                lemma_seq_lt_transitive(nv[i], nm, nv[j]);
            } else if i == k {
            } else {
            }
        }
        assert forall|x: Seq<char>| nv.contains(x) <==> (old_views.contains(x) || x == nm) by {
            if nv.contains(x) {
                let i = choose|i: int| 0 <= i < nv.len() && nv[i] == x;
                if i < k {
                    assert(old_views[i] == x);
                } else if i > k {
                    assert(old_views[i - 1] == x);
                }
            }
            if old_views.contains(x) {
                let i = choose|i: int| 0 <= i < old_views.len() && old_views[i] == x;
                if i < k {
                    assert(nv[i] == x);
                } else {
                    assert(nv[i + 1] == x);
                }
            }
            if x == nm {
                assert(nv[k as int] == x);
            }
        }
    }
    true
}

} // verus!
