//! Insertion sorts of strings and modules, proved to return a sorted
//! permutation of their input.

use vstd::prelude::*;
use vstd::seq_lib::{to_multiset_build, to_multiset_remove, to_multiset_insert, to_multiset_len,
    to_multiset_contains};
use crate::text::{lex_order, compare_str, lemma_lex_order_antisymmetric, lemma_lex_order_transitive};
use crate::version::{version_order, lemma_version_order, semver_precedence};
use crate::module::TechModule;

verus! {

/// Mapping the elements of two permutations of each other gives permutations
/// of each other.
pub proof fn lemma_map_permutation<A, B>(s1: Seq<A>, s2: Seq<A>, f: spec_fn(A) -> B)
    requires
        s1.to_multiset() == s2.to_multiset(),
    ensures
        s1.map_values(f).to_multiset() == s2.map_values(f).to_multiset(),
    decreases s1.len(),
{
    broadcast use vstd::multiset::group_multiset_axioms;

    to_multiset_len(s1);
    to_multiset_len(s2);
    if s1.len() == 0 {
        assert(s1.map_values(f) =~= s2.map_values(f));
    } else {
        let x = s1.last();
        let rest1 = s1.drop_last();
        assert(s1 =~= rest1.push(x));
        to_multiset_build(rest1, x);
        to_multiset_contains(s2, x);
        to_multiset_contains(s1, x);
        assert(s1.contains(x)) by {
            assert(s1[s1.len() - 1] == x);
        }
        let k = choose|k: int| 0 <= k < s2.len() && s2[k] == x;
        to_multiset_remove(s2, k);
        assert(rest1.to_multiset() =~= s2.remove(k).to_multiset());
        lemma_map_permutation(rest1, s2.remove(k), f);
        let m1 = s1.map_values(f);
        let m2 = s2.map_values(f);
        assert(m1 =~= rest1.map_values(f).push(f(x)));
        to_multiset_build(rest1.map_values(f), f(x));
        assert(s2.remove(k).map_values(f) =~= m2.remove(k));
        to_multiset_remove(m2, k);
        to_multiset_contains(m2, f(x));
        assert(m2[k] == f(x));
        assert(m2.to_multiset() =~= m2.remove(k).to_multiset().insert(f(x)));
    }
}

/// Inserting `x` at position `p` of `r` keeps the multiset bookkeeping of a
/// sort: the result holds the elements of `r` and `x`.
proof fn lemma_insert_multiset<A>(r: Seq<A>, p: int, x: A)
    requires
        0 <= p <= r.len(),
    ensures
        r.insert(p, x).to_multiset() == r.to_multiset().insert(x),
{
    to_multiset_insert(r, p, x);
}

/// Every two elements of `s` are in the order `le`, the earlier one first.
pub open spec fn sorted_by<A>(s: Seq<A>, le: spec_fn(A, A) -> bool) -> bool {
    forall|i: int, j: int| 0 <= i < j < s.len() ==> le(s[i], s[j])
}

/// `le` is total and transitive on the elements of `s`.
pub open spec fn total_preorder_on<A>(s: Seq<A>, le: spec_fn(A, A) -> bool) -> bool {
    &&& forall|i: int, j: int|
        0 <= i < s.len() && 0 <= j < s.len() ==> #[trigger] le(s[i], s[j]) || le(s[j], s[i])
    &&& forall|i: int, j: int, k: int|
        0 <= i < s.len() && 0 <= j < s.len() && 0 <= k < s.len() && #[trigger] le(s[i], s[j])
            && #[trigger] le(s[j], s[k]) ==> le(s[i], s[k])
}

/// Inserting `x` before the first element that it may precede keeps a sorted
/// sequence sorted.
proof fn lemma_insert_sorted<A>(s: Seq<A>, p: int, x: A, le: spec_fn(A, A) -> bool)
    requires
        0 <= p <= s.len(),
        sorted_by(s, le),
        forall|k: int| 0 <= k < p ==> !le(x, #[trigger] s[k]),
        p < s.len() ==> le(x, s[p]),
        total_preorder_on(s.push(x), le),
    ensures
        sorted_by(s.insert(p, x), le),
{
    let all = s.push(x);
    let n = s.len() as int;
    assert(all[n] == x);
    let r = s.insert(p, x);
    assert forall|i: int, j: int| 0 <= i < j < r.len() implies le(r[i], r[j]) by {
        if j < p {
            assert(r[i] == s[i] && r[j] == s[j]);
        } else if i < p && j == p {
            assert(all[i] == s[i]);
            assert(le(all[i], all[n]) || le(all[n], all[i]));
        } else if i < p {
            assert(r[j] == s[j - 1] && r[i] == s[i]);
            assert(all[i] == s[i] && all[j - 1] == s[j - 1] && all[p] == s[p]);
            assert(le(all[i], all[n]) || le(all[n], all[i]));
            if j - 1 > p {
                assert(le(s[p], s[j - 1]));
                assert(le(all[n], all[p]) && le(all[p], all[j - 1]));
            }
            assert(le(all[n], all[j - 1]));
            assert(le(all[i], all[n]) && le(all[n], all[j - 1]));
        } else if i == p {
            assert(r[j] == s[j - 1]);
            assert(all[j - 1] == s[j - 1] && all[p] == s[p]);
            if j - 1 > p {
                assert(le(s[p], s[j - 1]));
                assert(le(all[n], all[p]) && le(all[p], all[j - 1]));
            }
        } else {
            assert(r[i] == s[i - 1] && r[j] == s[j - 1]);
        }
    }
}

/// An empty sequence has the empty multiset.
proof fn lemma_empty_multiset<A>(s: Seq<A>)
    requires
        s.len() == 0,
    ensures
        s.to_multiset() == vstd::multiset::Multiset::<A>::empty(),
{
    to_multiset_len(s);
    vstd::multiset::lemma_multiset_empty_len(s.to_multiset());
}

/// Code point order of two strings, as a relation on strings.
pub open spec fn string_le() -> spec_fn(String, String) -> bool {
    |a: String, b: String| lex_order(a@, b@) <= 0
}

/// Sorts strings by code point order (as `sort` on `String` does).
pub fn sort_strings(v: Vec<String>) -> (r: Vec<String>)
    ensures
        r@.to_multiset() == v@.to_multiset(),
        sorted_by(r@, string_le()),
{
    broadcast use vstd::multiset::group_multiset_axioms;

    let ghost orig = v@;
    let mut v = v;
    let mut r: Vec<String> = Vec::new();
    proof {
        lemma_empty_multiset(r@);
    }
    while v.len() > 0
        invariant
            r@.to_multiset().add(v@.to_multiset()) == orig.to_multiset(),
            sorted_by(r@, string_le()),
        decreases v.len(),
    {
        let ghost vold = v@;
        let x = v.pop().unwrap();
        proof {
            assert(vold =~= v@.push(x));
            to_multiset_build(v@, x);
        }
        let mut p: usize = 0;
        while p < r.len() && compare_str(x.as_str(), r[p].as_str()) > 0
            invariant
                p <= r.len(),
                forall|k: int| 0 <= k < p ==> lex_order(x@, #[trigger] r@[k]@) > 0,
            decreases r.len() - p,
        {
            p = p + 1;
        }
        let ghost rold = r@;
        proof {
            let all = rold.push(x);
            assert forall|i: int, j: int| 0 <= i < all.len() && 0 <= j < all.len() implies
                #[trigger] string_le()(all[i], all[j]) || string_le()(all[j], all[i]) by {
                lemma_lex_order_antisymmetric(all[i]@, all[j]@);
            }
            assert forall|i: int, j: int, k: int|
                0 <= i < all.len() && 0 <= j < all.len() && 0 <= k < all.len()
                    && #[trigger] string_le()(all[i], all[j]) && #[trigger] string_le()(
                    all[j],
                    all[k],
                ) implies string_le()(all[i], all[k]) by {
                lemma_lex_order_transitive(all[i]@, all[j]@, all[k]@);
            }
            assert forall|k: int| 0 <= k < p implies !string_le()(x, #[trigger] rold[k]) by {}
            lemma_insert_sorted(rold, p as int, x, string_le());
            lemma_insert_multiset(rold, p as int, x);
        }
        r.insert(p, x);
        proof {
            assert(r@ =~= rold.insert(p as int, x));
        }
    }
    proof {
        lemma_empty_multiset(v@);
        assert(r@.to_multiset().add(v@.to_multiset()) =~= r@.to_multiset());
    }
    r
}

/// The orders in which module lists are returned.
#[derive(Clone, Copy)]
pub enum ModuleOrder {
    /// By name, in code point order.
    ByName,
    /// By version precedence, greatest first.
    ByVersionDescending,
}

/// `a` may come before `b` in the order `by`.
pub open spec fn module_le(by: ModuleOrder) -> spec_fn(TechModule, TechModule) -> bool {
    match by {
        ModuleOrder::ByName => |a: TechModule, b: TechModule| lex_order(a.name@, b.name@) <= 0,
        ModuleOrder::ByVersionDescending => |a: TechModule, b: TechModule|
            version_order(a.version, b.version) >= 0,
    }
}

/// Every module of `s` has a version that `semver` accepts.
pub open spec fn versions_wf(s: Seq<TechModule>) -> bool {
    forall|i: int| 0 <= i < s.len() ==> (#[trigger] s[i]).version.wf()
}

/// Whether `a` may come before `b` in the order `by`.
fn module_precedes(by: ModuleOrder, a: &TechModule, b: &TechModule) -> (r: bool)
    requires
        a.version.wf(),
        b.version.wf(),
    ensures
        r == module_le(by)(*a, *b),
{
    match by {
        ModuleOrder::ByName => compare_str(a.name.as_str(), b.name.as_str()) <= 0,
        ModuleOrder::ByVersionDescending => semver_precedence(&a.version, &b.version) >= 0,
    }
}

/// Sorts modules in the order `by`: a sorted permutation of the input. (The
/// order among modules that compare equal is not stated.)
pub fn sort_modules(v: Vec<TechModule>, by: ModuleOrder) -> (r: Vec<TechModule>)
    requires
        versions_wf(v@),
    ensures
        r@.to_multiset() == v@.to_multiset(),
        sorted_by(r@, module_le(by)),
        versions_wf(r@),
{
    broadcast use vstd::multiset::group_multiset_axioms;

    let ghost orig = v@;
    let mut v = v;
    let mut r: Vec<TechModule> = Vec::new();
    proof {
        lemma_empty_multiset(r@);
    }
    while v.len() > 0
        invariant
            r@.to_multiset().add(v@.to_multiset()) == orig.to_multiset(),
            sorted_by(r@, module_le(by)),
            versions_wf(r@),
            versions_wf(v@),
        decreases v.len(),
    {
        let ghost vold = v@;
        let x = v.pop().unwrap();
        proof {
            assert(vold =~= v@.push(x));
            assert(vold[vold.len() - 1] == x);
            to_multiset_build(v@, x);
        }
        let mut p: usize = 0;
        while p < r.len() && !module_precedes(by, &x, &r[p])
            invariant
                p <= r.len(),
                versions_wf(r@),
                x.version.wf(),
                forall|k: int| 0 <= k < p ==> !module_le(by)(x, #[trigger] r@[k]),
            decreases r.len() - p,
        {
            p = p + 1;
        }
        let ghost rold = r@;
        proof {
            let all = rold.push(x);
            let le = module_le(by);
            assert forall|i: int, j: int| 0 <= i < all.len() && 0 <= j < all.len() implies
                #[trigger] le(all[i], all[j]) || le(all[j], all[i]) by {
                lemma_lex_order_antisymmetric(all[i].name@, all[j].name@);
                lemma_version_order(all[i].version, all[j].version, all[j].version);
            }
            assert forall|i: int, j: int, k: int|
                0 <= i < all.len() && 0 <= j < all.len() && 0 <= k < all.len()
                    && #[trigger] le(all[i], all[j]) && #[trigger] le(all[j], all[k]) implies le(
                all[i],
                all[k],
            ) by {
                match by {
                    ModuleOrder::ByName => {
                        lemma_lex_order_transitive(all[i].name@, all[j].name@, all[k].name@);
                    },
                    ModuleOrder::ByVersionDescending => {
                        lemma_version_order(all[k].version, all[j].version, all[i].version);
                        lemma_version_order(all[i].version, all[j].version, all[k].version);
                        lemma_version_order(all[j].version, all[i].version, all[k].version);
                        lemma_version_order(all[j].version, all[k].version, all[i].version);
                    },
                }
            }
            lemma_insert_sorted(rold, p as int, x, le);
            lemma_insert_multiset(rold, p as int, x);
        }
        r.insert(p, x);
        proof {
            assert(r@ =~= rold.insert(p as int, x));
            assert forall|i: int| 0 <= i < r@.len() implies (#[trigger] r@[i]).version.wf() by {
                if i > p {
                    assert(r@[i] == rold[i - 1]);
                } else if i < p {
                    assert(r@[i] == rold[i]);
                }
            }
        }
    }
    proof {
        lemma_empty_multiset(v@);
        assert(r@.to_multiset().add(v@.to_multiset()) =~= r@.to_multiset());
    }
    r
}

} // verus!
