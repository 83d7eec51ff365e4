//! What holds of every result of the combinatorial helpers.
use crate::pattern::Var;
use crate::language::Id;
use crate::rewrite::{
    changed_classes_spec,
    all_bound, is_first_unbound, rewrite_check, rewrite_outcome, var_names, Applier, Rewrite, Searcher,
};
use crate::language::Language;
use crate::pattern::{decimal, is_detector_pattern, MultiPattern};
use crate::tools::{
    is_vacuity_detector,
    cartesian, choice_groups, choices, lemma_choice_groups_flatten, lemma_reversed_cartesian_unfold, first_occurrences, group_keys, pairs_with_key, groups_of, items_with_key, keys_of,
    lemma_first_occurrences, lemma_items_with_key_absent, lemma_items_with_key_push,
    lexicographic_product, reversed_cartesian, seqs_of, values_of, vec_seqs, group_views, keyed,
};
use vstd::prelude::*;
use vstd::relations::injective;
use vstd::seq_lib::{lemma_no_dup_in_concat, lemma_seq_concat_contains_all_elements};

verus! {

/// The product of the lengths of the sequences.
pub open spec fn lens_product<A>(s: Seq<Seq<A>>) -> nat
    decreases s.len(),
{
    if s.len() == 0 {
        1
    } else {
        s[0].len() * lens_product(s.drop_first())
    }
}

proof fn lemma_flatten_contains<A>(x: Seq<Seq<A>>, e: A)
    ensures
        x.flatten().contains(e) <==> exists|i: int| 0 <= i < x.len() && #[trigger] x[i].contains(e),
    decreases x.len(),
{
    broadcast use lemma_seq_concat_contains_all_elements;

    if x.len() > 0 {
        let rest = x.drop_first();
        lemma_flatten_contains(rest, e);
        assert(x.flatten() == x[0] + rest.flatten());
        if exists|i: int| 0 <= i < x.len() && #[trigger] x[i].contains(e) {
            let i = choose|i: int| 0 <= i < x.len() && #[trigger] x[i].contains(e);
            if i > 0 {
                assert(rest[i - 1] == x[i]);
            }
        }
        if rest.flatten().contains(e) {
            let i = choose|i: int| 0 <= i < rest.len() && #[trigger] rest[i].contains(e);
            assert(x[i + 1] == rest[i]);
        }
    }
}

proof fn lemma_flatten_no_duplicates<A>(x: Seq<Seq<A>>)
    requires
        forall|i: int| 0 <= i < x.len() ==> (#[trigger] x[i]).no_duplicates(),
        forall|i: int, j: int, e: A|
            0 <= i < x.len() && 0 <= j < x.len() && i != j && #[trigger] x[i].contains(e)
                ==> !#[trigger] x[j].contains(e),
    ensures
        x.flatten().no_duplicates(),
    decreases x.len(),
{
    if x.len() > 0 {
        let rest = x.drop_first();
        assert forall|i: int, j: int, e: A|
            0 <= i < rest.len() && 0 <= j < rest.len() && i != j && #[trigger] rest[i].contains(e)
            implies !#[trigger] rest[j].contains(e) by {
            assert(rest[i] == x[i + 1] && rest[j] == x[j + 1]);
        }
        lemma_flatten_no_duplicates(rest);
        assert forall|a: int, b: int|
            0 <= a < x[0].len() && 0 <= b < rest.flatten().len() implies x[0][a]
            != rest.flatten()[b] by {
            let e = rest.flatten()[b];
            assert(rest.flatten().contains(e));
            lemma_flatten_contains(rest, e);
            let i = choose|i: int| 0 <= i < rest.len() && #[trigger] rest[i].contains(e);
            assert(x[i + 1] == rest[i]);
            if x[0][a] == e {
                assert(x[0].contains(e));
            }
        }
        lemma_no_dup_in_concat(x[0], rest.flatten());
        assert(x.flatten() == x[0] + rest.flatten());
    }
}

proof fn lemma_flatten_uniform_len<A>(x: Seq<Seq<A>>, n: nat)
    requires
        forall|i: int| 0 <= i < x.len() ==> (#[trigger] x[i]).len() == n,
    ensures
        x.flatten().len() == x.len() * n,
    decreases x.len(),
{
    if x.len() > 0 {
        let rest = x.drop_first();
        assert forall|i: int| 0 <= i < rest.len() implies (#[trigger] rest[i]).len() == n by {
            assert(rest[i] == x[i + 1]);
        }
        lemma_flatten_uniform_len(rest, n);
        assert(x.flatten() == x[0] + rest.flatten());
        let len = x.len();
        assert(len * n == n + (len - 1) * n) by (nonlinear_arith);
    }
}

proof fn lemma_prepend_injective<A>(a: A)
    ensures
        injective(|u: Seq<A>| seq![a] + u),
{
    assert forall|u1: Seq<A>, u2: Seq<A>| #[trigger] (seq![a] + u1) == #[trigger] (seq![a] + u2)
        implies u1 == u2 by {
        assert((seq![a] + u1).drop_first() =~= u1);
        assert((seq![a] + u2).drop_first() =~= u2);
    }
}

/// The lexicographic product has as many tuples as the product of the
/// lengths of the sequences.
pub proof fn cartesian_len<A>(s: Seq<Seq<A>>)
    ensures
        cartesian(s).len() == lens_product(s),
    decreases s.len(),
{
    if s.len() > 0 {
        let rest = s.drop_first();
        cartesian_len(rest);
        let rc = cartesian(rest);
        let groups = s[0].map_values(|a: A| rc.map_values(|t: Seq<A>| seq![a] + t));
        lemma_flatten_uniform_len(groups, rc.len());
    }
}

/// A tuple is in the lexicographic product exactly when it has one
/// component per sequence and each component is an element of its sequence.
pub proof fn cartesian_contains<A>(s: Seq<Seq<A>>, t: Seq<A>)
    ensures
        cartesian(s).contains(t) <==> (t.len() == s.len() && forall|j: int|
            0 <= j < s.len() ==> (#[trigger] s[j]).contains(t[j])),
    decreases s.len(),
{
    if s.len() == 0 {
        if t.len() == 0 {
            assert(t =~= Seq::<A>::empty());
            assert(cartesian(s)[0] == t);
        }
    } else {
        let rest = s.drop_first();
        let rc = cartesian(rest);
        let groups = s[0].map_values(|a: A| rc.map_values(|u: Seq<A>| seq![a] + u));
        lemma_flatten_contains(groups, t);
        if cartesian(s).contains(t) {
            let i = choose|i: int| 0 <= i < groups.len() && #[trigger] groups[i].contains(t);
            let m = choose|m: int| 0 <= m < groups[i].len() && groups[i][m] == t;
            let u = rc[m];
            assert(rc.contains(u));
            cartesian_contains(rest, u);
            assert(t == seq![s[0][i]] + u);
            assert forall|j: int| 0 <= j < s.len() implies (#[trigger] s[j]).contains(t[j]) by {
                if j == 0 {
                    assert(s[0][i] == t[0]);
                } else {
                    assert(rest[j - 1] == s[j]);
                    assert(rest[j - 1].contains(u[j - 1]));
                }
            }
        }
        if t.len() == s.len() && forall|j: int| 0 <= j < s.len() ==> (#[trigger] s[j]).contains(
            t[j],
        ) {
            assert(s[0].contains(t[0]));
            let i = choose|i: int| 0 <= i < s[0].len() && s[0][i] == t[0];
            let u = t.drop_first();
            assert forall|j: int| 0 <= j < rest.len() implies (#[trigger] rest[j]).contains(
                u[j],
            ) by {
                assert(rest[j] == s[j + 1]);
                assert(s[j + 1].contains(t[j + 1]));
            }
            cartesian_contains(rest, u);
            let m = choose|m: int| 0 <= m < rc.len() && rc[m] == u;
            assert(groups[i][m] =~= t);
            assert(groups[i].contains(t));
        }
    }
}

/// When no sequence repeats an element, the lexicographic product repeats
/// no tuple.
pub proof fn cartesian_no_duplicates<A>(s: Seq<Seq<A>>)
    requires
        forall|j: int| 0 <= j < s.len() ==> (#[trigger] s[j]).no_duplicates(),
    ensures
        cartesian(s).no_duplicates(),
    decreases s.len(),
{
    if s.len() > 0 {
        let rest = s.drop_first();
        assert forall|j: int| 0 <= j < rest.len() implies (#[trigger] rest[j]).no_duplicates() by {
            assert(rest[j] == s[j + 1]);
        }
        cartesian_no_duplicates(rest);
        let rc = cartesian(rest);
        let groups = s[0].map_values(|a: A| rc.map_values(|u: Seq<A>| seq![a] + u));
        assert forall|i: int| 0 <= i < groups.len() implies (#[trigger] groups[i]).no_duplicates() by {
            lemma_prepend_injective(s[0][i]);
            rc.lemma_no_duplicates_injective(|u: Seq<A>| seq![s[0][i]] + u);
        }
        assert forall|i: int, j: int, e: Seq<A>|
            0 <= i < groups.len() && 0 <= j < groups.len() && i != j && 
            #[trigger] groups[i].contains(e) implies !#[trigger] groups[j].contains(e) by {
            let m = choose|m: int| 0 <= m < groups[i].len() && groups[i][m] == e;
            assert(e[0] == s[0][i]);
            if groups[j].contains(e) {
                let n = choose|n: int| 0 <= n < groups[j].len() && groups[j][n] == e;
                assert(e[0] == s[0][j]);
            }
        }
        lemma_flatten_no_duplicates(groups);
    }
}

proof fn lemma_reverse_reverse<A>(t: Seq<A>)
    ensures
        t.reverse().len() == t.len(),
        forall|j: int| 0 <= j < t.len() ==> #[trigger] t.reverse()[j] == t[t.len() - 1 - j],
        t.reverse().reverse() == t,
{
    assert(t.reverse().reverse() =~= t);
}

proof fn lemma_reverse_injective<A>()
    ensures
        injective(|t: Seq<A>| t.reverse()),
{
    assert forall|t1: Seq<A>, t2: Seq<A>| #[trigger] t1.reverse() == #[trigger] t2.reverse()
        implies t1 == t2 by {
        lemma_reverse_reverse(t1);
        lemma_reverse_reverse(t2);
    }
}

/// `product` yields as many tuples as the product of the lengths of its
/// vectors (one empty tuple for no vector).
pub proof fn product_len<A>(s: Seq<Seq<A>>)
    ensures
        reversed_cartesian(s).len() == lens_product(s),
{
    cartesian_len(s);
}

/// A tuple is yielded by `product` exactly when it has one component per
/// vector and its `j`-th component, counted from the front, is an element of
/// the `j`-th vector counted from the back.
pub proof fn product_contains<A>(s: Seq<Seq<A>>, t: Seq<A>)
    ensures
        reversed_cartesian(s).contains(t) <==> (t.len() == s.len() && forall|j: int|
            0 <= j < s.len() ==> s[s.len() - 1 - j].contains(#[trigger] t[j])),
{
    let c = cartesian(s);
    let r = reversed_cartesian(s);
    lemma_reverse_reverse(t);
    cartesian_contains(s, t.reverse());
    if r.contains(t) {
        let m = choose|m: int| 0 <= m < r.len() && r[m] == t;
        lemma_reverse_reverse(c[m]);
        assert(c.contains(c[m]));
        assert(c[m] == t.reverse());
        assert forall|j: int| 0 <= j < s.len() implies s[s.len() - 1 - j].contains(
            #[trigger] t[j],
        ) by {
            assert(t.reverse()[s.len() - 1 - j] == t[j]);
        }
    }
    if t.len() == s.len() && forall|j: int| 0 <= j < s.len() ==> s[s.len() - 1 - j].contains(
        #[trigger] t[j],
    ) {
        assert forall|j: int| 0 <= j < s.len() implies (#[trigger] s[j]).contains(
            t.reverse()[j],
        ) by {
            assert(t.reverse()[j] == t[s.len() - 1 - j]);
            assert(s[s.len() - 1 - (s.len() - 1 - j)] == s[j]);
        }
        let m = choose|m: int| 0 <= m < c.len() && c[m] == t.reverse();
        assert(r[m] == t);
    }
}

/// When no vector repeats an element, `product` repeats no tuple.
pub proof fn product_no_duplicates<A>(s: Seq<Seq<A>>)
    requires
        forall|j: int| 0 <= j < s.len() ==> (#[trigger] s[j]).no_duplicates(),
    ensures
        reversed_cartesian(s).no_duplicates(),
{
    cartesian_no_duplicates(s);
    lemma_reverse_injective::<A>();
    cartesian(s).lemma_no_duplicates_injective(|t: Seq<A>| t.reverse());
}

/// For at least one vector, `product` and `combinations` yield the same
/// tuples in the same order, each reversed by `product`.
pub proof fn product_reverses_combinations<A>(s: Seq<Seq<A>>)
    requires
        s.len() > 0,
    ensures
        reversed_cartesian(s).len() == lexicographic_product(s).len(),
        forall|i: int|
            0 <= i < reversed_cartesian(s).len() ==> #[trigger] reversed_cartesian(s)[i]
                == lexicographic_product(s)[i].reverse(),
{
}

/// `combinations` yields as many tuples as the product of the lengths of its
/// vectors, and none for no vector.
pub proof fn combinations_len<A>(s: Seq<Seq<A>>)
    ensures
        lexicographic_product(s).len() == if s.len() == 0 {
            0
        } else {
            lens_product(s)
        },
{
    cartesian_len(s);
}

/// A tuple is yielded by `combinations` exactly when there is at least one
/// vector, the tuple has one component per vector, and each component is an
/// element of its vector.
pub proof fn combinations_contains<A>(s: Seq<Seq<A>>, t: Seq<A>)
    ensures
        lexicographic_product(s).contains(t) <==> (s.len() > 0 && t.len() == s.len() && forall|
            j: int,
        | 0 <= j < s.len() ==> (#[trigger] s[j]).contains(t[j])),
{
    cartesian_contains(s, t);
}

/// When no vector repeats an element, `combinations` repeats no tuple.
pub proof fn combinations_no_duplicates<A>(s: Seq<Seq<A>>)
    requires
        forall|j: int| 0 <= j < s.len() ==> (#[trigger] s[j]).no_duplicates(),
    ensures
        lexicographic_product(s).no_duplicates(),
{
    cartesian_no_duplicates(s);
}

/// The number of ways to pick `k` of `n` things.
pub open spec fn binomial(n: nat, k: nat) -> nat
    decreases n,
{
    if k == 0 {
        1
    } else if n == 0 {
        0
    } else {
        binomial((n - 1) as nat, (k - 1) as nat) + binomial((n - 1) as nat, k)
    }
}

/// `t` is made of elements of `s` taken in the order in which they stand in
/// `s`, each position used at most once.
pub open spec fn is_subsequence<A>(t: Seq<A>, s: Seq<A>) -> bool
    decreases s.len(),
{
    if t.len() == 0 {
        true
    } else if s.len() == 0 {
        false
    } else {
        (t[0] == s[0] && is_subsequence(t.drop_first(), s.drop_first())) || is_subsequence(
            t,
            s.drop_first(),
        )
    }
}

proof fn lemma_binomial_one(n: nat)
    ensures
        binomial(n, 1) == n,
    decreases n,
{
    if n > 0 {
        lemma_binomial_one((n - 1) as nat);
        assert(binomial((n - 1) as nat, 0) == 1);
        assert(binomial(n, 1) == binomial((n - 1) as nat, 0) + binomial((n - 1) as nat, 1));
    }
}

proof fn lemma_single_subsequence<A>(x: A, s: Seq<A>)
    ensures
        is_subsequence(seq![x], s) <==> s.contains(x),
    decreases s.len(),
{
    if s.len() > 0 {
        let rest = s.drop_first();
        lemma_single_subsequence(x, rest);
        assert(seq![x].drop_first() =~= Seq::<A>::empty());
        assert(is_subsequence(Seq::<A>::empty(), rest));
        assert(is_subsequence(seq![x], s) == ((x == s[0] && is_subsequence(
            seq![x].drop_first(),
            rest,
        )) || is_subsequence(seq![x], rest)));
        if rest.contains(x) {
            let i = choose|i: int| 0 <= i < rest.len() && rest[i] == x;
            assert(s[i + 1] == x);
        }
        if s.contains(x) && s[0] != x {
            let i = choose|i: int| 0 <= i < s.len() && s[i] == x;
            assert(rest[i - 1] == x);
        }
    }
}

proof fn lemma_reverse_push<A>(u: Seq<A>, x: A)
    ensures
        u.push(x).reverse() == seq![x] + u.reverse(),
{
    assert(u.push(x).reverse() =~= seq![x] + u.reverse());
}

/// Picking `k` elements yields `binomial(n, k)` picks, for `k` at least one.
pub proof fn choose_subsets_len<A>(s: Seq<A>, k: nat)
    requires
        k >= 1,
    ensures
        choices(s, k).len() == binomial(s.len(), k),
    decreases s.len(),
{
    if k == 1 {
        lemma_binomial_one(s.len());
    } else if s.len() > 0 {
        choose_subsets_len(s.drop_first(), (k - 1) as nat);
        choose_subsets_len(s.drop_first(), k);
    }
}

/// A sequence is a pick of `k` elements exactly when `k` is at least one, it
/// has `k` elements, and read backwards it is a subsequence of `s`.
pub proof fn choose_subsets_contains<A>(s: Seq<A>, k: nat, t: Seq<A>)
    ensures
        choices(s, k).contains(t) <==> (k >= 1 && t.len() == k && is_subsequence(t.reverse(), s)),
    decreases s.len(),
{
    lemma_reverse_reverse(t);
    if k == 0 {
    } else if k == 1 {
        let c = choices(s, k);
        if c.contains(t) {
            let i = choose|i: int| 0 <= i < c.len() && c[i] == t;
            assert(t == seq![s[i]]);
            assert(t.reverse() =~= t);
            lemma_single_subsequence(s[i], s);
        }
        if t.len() == 1 && is_subsequence(t.reverse(), s) {
            assert(t.reverse() =~= seq![t[0]]);
            lemma_single_subsequence(t[0], s);
            let i = choose|i: int| 0 <= i < s.len() && s[i] == t[0];
            assert(c[i] =~= t);
        }
    } else if s.len() == 0 {
    } else {
        broadcast use lemma_seq_concat_contains_all_elements;

        let rest = s.drop_first();
        let x = s[0];
        let a = choices(rest, (k - 1) as nat).map_values(|u: Seq<A>| u.push(x));
        let b = choices(rest, k);
        assert(choices(s, k) == a + b);
        choose_subsets_contains(rest, k, t);
        if t.len() > 0 {
            let u = t.drop_last();
            choose_subsets_contains(rest, (k - 1) as nat, u);
            assert(u.push(t.last()) =~= t);
            lemma_reverse_push(u, t.last());
            assert((seq![t.last()] + u.reverse()).drop_first() =~= u.reverse());
            if a.contains(t) {
                let m = choose|m: int| 0 <= m < a.len() && a[m] == t;
                let v = choices(rest, (k - 1) as nat)[m];
                assert(choices(rest, (k - 1) as nat).contains(v));
                choose_subsets_contains(rest, (k - 1) as nat, v);
                assert(v.push(x) == t);
                assert(v =~= u);
            }
            let ca = choices(rest, (k - 1) as nat);
            if t.len() == k && t.last() == x && is_subsequence(u.reverse(), rest) {
                assert(ca.contains(u));
                let m = choose|m: int| 0 <= m < ca.len() && ca[m] == u;
                assert(a[m] == t);
            }
        }
    }
}

/// When `s` repeats no element, no pick of `k` of its elements is yielded
/// twice.
pub proof fn choose_subsets_no_duplicates<A>(s: Seq<A>, k: nat)
    requires
        s.no_duplicates(),
    ensures
        choices(s, k).no_duplicates(),
    decreases s.len(),
{
    if k == 1 {
        assert forall|i: int, j: int|
            0 <= i < s.len() && 0 <= j < s.len() && i != j implies choices(s, k)[i] != choices(
            s,
            k,
        )[j] by {
            assert(choices(s, k)[i][0] == s[i]);
            assert(choices(s, k)[j][0] == s[j]);
        }
    } else if k >= 2 && s.len() > 0 {
        let rest = s.drop_first();
        let x = s[0];
        let ca = choices(rest, (k - 1) as nat);
        let a = ca.map_values(|u: Seq<A>| u.push(x));
        let b = choices(rest, k);
        choose_subsets_no_duplicates(rest, (k - 1) as nat);
        choose_subsets_no_duplicates(rest, k);
        assert(injective(|u: Seq<A>| u.push(x))) by {
            assert forall|u1: Seq<A>, u2: Seq<A>| #[trigger] u1.push(x) == #[trigger] u2.push(x)
                implies u1 == u2 by {
                assert(u1.push(x).drop_last() =~= u1);
                assert(u2.push(x).drop_last() =~= u2);
            }
        }
        ca.lemma_no_duplicates_injective(|u: Seq<A>| u.push(x));
        assert forall|i: int, j: int| 0 <= i < a.len() && 0 <= j < b.len() implies a[i]
            != b[j] by {
            let t = b[j];
            assert(b.contains(t));
            choose_subsets_contains(rest, k, t);
            lemma_reverse_reverse(t);
            assert(a[i].last() == x);
            if a[i] == t {
                assert(t.reverse()[0] == x);
                lemma_subsequence_elements(t.reverse(), rest, 0);
                let m = choose|m: int| 0 <= m < rest.len() && rest[m] == x;
                assert(s[m + 1] == s[0]);
            }
        }
        lemma_no_dup_in_concat(a, b);
        assert(choices(s, k) == a + b);
    }
}

proof fn lemma_subsequence_elements<A>(t: Seq<A>, s: Seq<A>, j: int)
    requires
        is_subsequence(t, s),
        0 <= j < t.len(),
    ensures
        s.contains(t[j]),
    decreases s.len(),
{
    if s.len() > 0 {
        let rest = s.drop_first();
        if is_subsequence(t, rest) {
            lemma_subsequence_elements(t, rest, j);
        } else if j > 0 {
            lemma_subsequence_elements(t.drop_first(), rest, j - 1);
        } else {
            assert(s.contains(s[0]));
        }
        if rest.contains(t[j]) {
            let m = choose|m: int| 0 <= m < rest.len() && rest[m] == t[j];
            assert(s[m + 1] == t[j]);
        }
    }
}

/// The number of items over all the groups.
pub open spec fn total_len<T>(groups: Seq<(u64, Seq<T>)>) -> nat
    decreases groups.len(),
{
    if groups.len() == 0 {
        0
    } else {
        total_len(groups.drop_last()) + groups.last().1.len()
    }
}

proof fn lemma_total_len_update<T>(groups: Seq<(u64, Seq<T>)>, j: int, g: (u64, Seq<T>))
    requires
        0 <= j < groups.len(),
    ensures
        total_len(groups.update(j, g)) + groups[j].1.len() == total_len(groups) + g.1.len(),
    decreases groups.len(),
{
    let u = groups.update(j, g);
    assert(u.drop_last() =~= if j == groups.len() - 1 {
        groups.drop_last()
    } else {
        groups.drop_last().update(j, g)
    });
    if j < groups.len() - 1 {
        lemma_total_len_update(groups.drop_last(), j, g);
    }
}

/// The groups have distinct keys: those of the items, each once.
pub proof fn grouped_keys<T>(pairs: Seq<(u64, T)>)
    ensures
        group_keys(groups_of(pairs)).no_duplicates(),
        forall|k: u64| #[trigger] group_keys(groups_of(pairs)).contains(k) <==> keys_of(pairs).contains(k),
{
    lemma_first_occurrences(keys_of(pairs));
    assert(group_keys(groups_of(pairs)) =~= first_occurrences(keys_of(pairs)));
}

/// An item stands in the group of a key exactly when it was given with that
/// key.
pub proof fn grouped_contains<T>(pairs: Seq<(u64, T)>, k: u64, x: T)
    ensures
        (exists|g: int|
            0 <= g < groups_of(pairs).len() && #[trigger] groups_of(pairs)[g].0 == k
                && groups_of(pairs)[g].1.contains(x)) <==> pairs.contains((k, x)),
{
    broadcast use Seq::lemma_filter_contains_rev, Seq::lemma_filter_pred, Seq::lemma_filter_contains;

    let fo = first_occurrences(keys_of(pairs));
    let groups = groups_of(pairs);
    let f = pairs_with_key(pairs, k);
    lemma_first_occurrences(keys_of(pairs));
    if exists|g: int|
        0 <= g < groups.len() && #[trigger] groups[g].0 == k && groups[g].1.contains(x) {
        let g = choose|g: int|
            0 <= g < groups.len() && #[trigger] groups[g].0 == k && groups[g].1.contains(x);
        assert(groups[g] == (fo[g], items_with_key(pairs, fo[g])));
        let m = choose|m: int|
            0 <= m < items_with_key(pairs, k).len() && items_with_key(pairs, k)[m] == x;
        assert(f[m].1 == x);
        assert(f[m].0 == k);
        assert(f.contains(f[m]));
        assert(f[m] == (k, x));
    }
    if pairs.contains((k, x)) {
        let i = choose|i: int| 0 <= i < pairs.len() && pairs[i] == (k, x);
        assert(keys_of(pairs)[i] == k);
        assert(fo.contains(k));
        let g = choose|g: int| 0 <= g < fo.len() && fo[g] == k;
        assert(groups[g] == (k, items_with_key(pairs, k)));
        assert(f.contains(pairs[i]));
        let m = choose|m: int| 0 <= m < f.len() && f[m] == (k, x);
        assert(items_with_key(pairs, k)[m] == x);
        assert(groups[g].1.contains(x));
        assert(groups_of(pairs)[g].0 == k && groups_of(pairs)[g].1.contains(x));
    }
}

/// Grouping keeps the number of items.
pub proof fn grouped_total<T>(pairs: Seq<(u64, T)>)
    ensures
        total_len(groups_of(pairs)) == pairs.len(),
    decreases pairs.len(),
{
    if pairs.len() > 0 {
        let before = pairs.drop_last();
        let p = pairs.last();
        let k = p.0;
        grouped_total(before);
        assert(before.push(p) =~= pairs);
        assert(keys_of(pairs) =~= keys_of(before).push(k));
        assert(keys_of(pairs).drop_last() =~= keys_of(before));
        lemma_first_occurrences(keys_of(before));
        let fo = first_occurrences(keys_of(before));
        let old_groups = groups_of(before);
        assert forall|k2: u64| true implies #[trigger] items_with_key(pairs, k2) == if k2 == k {
            items_with_key(before, k2).push(p.1)
        } else {
            items_with_key(before, k2)
        } by {
            lemma_items_with_key_push(before, p, k2);
        }
        if fo.contains(k) {
            let j = choose|j: int| 0 <= j < fo.len() && fo[j] == k;
            assert(first_occurrences(keys_of(pairs)) == fo);
            assert forall|m: int| 0 <= m < fo.len() && m != j implies fo[m] != k by {}
            assert(groups_of(pairs) =~= old_groups.update(j, (k, items_with_key(before, k).push(p.1))));
            lemma_total_len_update(old_groups, j, (k, items_with_key(before, k).push(p.1)));
        } else {
            assert(!keys_of(before).contains(k));
            lemma_items_with_key_absent(before, k);
            assert(first_occurrences(keys_of(pairs)) == fo.push(k));
            assert(groups_of(pairs) =~= old_groups.push((k, items_with_key(before, k).push(p.1))));
            assert(groups_of(pairs).drop_last() =~= old_groups);
        }
    }
}

/// `product` unfolds on its first vector: for each of its elements in turn,
/// every tuple of the product of the other vectors, followed by that element.
pub proof fn product_unfold<A>(s: Seq<Seq<A>>)
    requires
        s.len() > 0,
    ensures
        reversed_cartesian(s) == s[0].map_values(
            |a: A| reversed_cartesian(s.drop_first()).map_values(|t: Seq<A>| t.push(a)),
        ).flatten(),
{
    lemma_reversed_cartesian_unfold(s);
}

/// Picking `k` elements, for `k` at least two, unfolds over the positions in
/// turn: for each position, the picks of `k - 1` elements after it, each
/// followed by the element there.
pub proof fn choose_subsets_unfold<A>(s: Seq<A>, k: nat)
    requires
        k >= 2,
    ensures
        choices(s, k) == choice_groups(s, k).flatten(),
{
    lemma_choice_groups_flatten(s, k);
}

/// Building a rewrite with `new` comes to the same as with `old_new` given
/// the name as long name, when the searcher and the applier report the same
/// variables to both: both give a rewrite with the same names, searcher and
/// applier, or both refuse it with the same message.
pub proof fn new_agrees_with_old_new<S: Searcher, A: Applier>(
    by_new: Result<Rewrite<S, A>, String>,
    by_old_new: Result<Rewrite<S, A>, String>,
    name: Seq<char>,
    searcher: S,
    applier: A,
    bound: Seq<Var>,
    used: Seq<Var>,
)
    requires
        rewrite_outcome(by_new, name, name, searcher, applier, bound, used),
        rewrite_outcome(by_old_new, name, name, searcher, applier, bound, used),
    ensures
        match (by_new, by_old_new) {
            (Ok(r1), Ok(r2)) => {
                &&& r1.spec_name() == r2.spec_name()
                &&& r1.spec_long_name() == r2.spec_long_name()
                &&& r1.spec_searcher() == r2.spec_searcher()
                &&& r1.spec_applier() == r2.spec_applier()
            },
            (Err(m1), Err(m2)) => m1@ == m2@,
            _ => false,
        },
{
}

/// What `product` gives, read off the vectors themselves: every tuple has one
/// component per vector, its `j`-th component is an element of the `j`-th
/// vector counted from the back, and every such tuple is given.
pub proof fn product_result<T>(vecs: Seq<&Vec<T>>, res: Seq<Vec<&T>>)
    requires
        values_of(res) == reversed_cartesian(seqs_of(vecs)),
    ensures
        forall|k: int| 0 <= k < res.len() ==> #[trigger] res[k]@.len() == vecs.len(),
        forall|k: int, j: int|
            0 <= k < res.len() && 0 <= j < vecs.len() ==> vecs[vecs.len() - 1 - j]@.contains(
                *#[trigger] res[k]@[j],
            ),
        forall|t: Seq<T>|
            t.len() == vecs.len() && (forall|j: int|
                0 <= j < vecs.len() ==> vecs[vecs.len() - 1 - j]@.contains(#[trigger] t[j]))
                ==> exists|k: int|
                0 <= k < res.len() && #[trigger] values_of(res)[k] == t,
{
    let s = seqs_of(vecs);
    assert(s.len() == vecs.len());
    assert forall|j: int| 0 <= j < vecs.len() implies #[trigger] s[j] == vecs[j]@ by {}
    assert forall|k: int| 0 <= k < res.len() implies #[trigger] res[k]@.len() == vecs.len() by {
        let t = values_of(res)[k];
        assert(reversed_cartesian(s).contains(t));
        product_contains(s, t);
    }
    assert forall|k: int, j: int|
        0 <= k < res.len() && 0 <= j < vecs.len() implies vecs[vecs.len() - 1 - j]@.contains(
        *#[trigger] res[k]@[j],
    ) by {
        let t = values_of(res)[k];
        assert(reversed_cartesian(s).contains(t));
        product_contains(s, t);
        assert(t[j] == *res[k]@[j]);
        assert(s[s.len() - 1 - j] == vecs[vecs.len() - 1 - j]@);
    }
    assert forall|t: Seq<T>|
        t.len() == vecs.len() && (forall|j: int|
            0 <= j < vecs.len() ==> vecs[vecs.len() - 1 - j]@.contains(#[trigger] t[j]))
        implies exists|k: int| 0 <= k < res.len() && #[trigger] values_of(res)[k] == t by {
        product_contains(s, t);
        assert forall|j: int| 0 <= j < s.len() implies s[s.len() - 1 - j].contains(
            #[trigger] t[j],
        ) by {
            assert(s[s.len() - 1 - j] == vecs[vecs.len() - 1 - j]@);
        }
        let k = choose|k: int| 0 <= k < values_of(res).len() && values_of(res)[k] == t;
    }
}

/// What `combinations` gives, read off the vectors themselves: with at least
/// one vector, every tuple has one component per vector, each an element of
/// its vector, and every such tuple is given; with none, nothing.
pub proof fn combinations_result<T>(vecs: Seq<Vec<T>>, res: Seq<Vec<&T>>)
    requires
        values_of(res) == lexicographic_product(vec_seqs(vecs)),
    ensures
        vecs.len() == 0 ==> res.len() == 0,
        forall|k: int| 0 <= k < res.len() ==> #[trigger] res[k]@.len() == vecs.len(),
        forall|k: int, j: int|
            0 <= k < res.len() && 0 <= j < vecs.len() ==> vecs[j]@.contains(
                *#[trigger] res[k]@[j],
            ),
        forall|t: Seq<T>|
            vecs.len() > 0 && t.len() == vecs.len() && (forall|j: int|
                0 <= j < vecs.len() ==> vecs[j]@.contains(#[trigger] t[j]))
                ==> exists|k: int|
                0 <= k < res.len() && #[trigger] values_of(res)[k] == t,
{
    let s = vec_seqs(vecs);
    assert(s.len() == vecs.len());
    assert forall|j: int| 0 <= j < vecs.len() implies #[trigger] s[j] == vecs[j]@ by {}
    assert forall|k: int| 0 <= k < res.len() implies #[trigger] res[k]@.len() == vecs.len() by {
        let t = values_of(res)[k];
        assert(lexicographic_product(s).contains(t));
        combinations_contains(s, t);
    }
    assert forall|k: int, j: int|
        0 <= k < res.len() && 0 <= j < vecs.len() implies vecs[j]@.contains(
        *#[trigger] res[k]@[j],
    ) by {
        let t = values_of(res)[k];
        assert(lexicographic_product(s).contains(t));
        combinations_contains(s, t);
        assert(t[j] == *res[k]@[j]);
        assert(s[j] == vecs[j]@);
    }
    assert forall|t: Seq<T>|
        vecs.len() > 0 && t.len() == vecs.len() && (forall|j: int|
            0 <= j < vecs.len() ==> vecs[j]@.contains(#[trigger] t[j]))
        implies exists|k: int| 0 <= k < res.len() && #[trigger] values_of(res)[k] == t by {
        combinations_contains(s, t);
        assert forall|j: int| 0 <= j < s.len() implies (#[trigger] s[j]).contains(t[j]) by {
            assert(s[j] == vecs[j]@);
        }
        let k = choose|k: int| 0 <= k < values_of(res).len() && values_of(res)[k] == t;
    }
}

/// What grouping gives, read off the keyed items themselves: every item of a
/// group was given with that group's key, every given item stands in the
/// group of its key, and no two groups share a key.
pub proof fn group_keyed_result<T>(pairs: Seq<(u64, T)>, res: Seq<(u64, Vec<T>)>)
    requires
        group_views(res) == groups_of(pairs),
    ensures
        forall|g: int, m: int|
            0 <= g < res.len() && 0 <= m < res[g].1@.len() ==> pairs.contains(
                (res[g].0, #[trigger] res[g].1@[m]),
            ),
        forall|i: int|
            0 <= i < pairs.len() ==> exists|g: int|
                0 <= g < res.len() && res[g].0 == (#[trigger] pairs[i]).0 && res[g].1@.contains(
                    pairs[i].1,
                ),
        forall|g1: int, g2: int|
            0 <= g1 < res.len() && 0 <= g2 < res.len() && g1 != g2 ==> (#[trigger] res[g1]).0
                != (#[trigger] res[g2]).0,
        total_len(group_views(res)) == pairs.len(),
{
    let groups = groups_of(pairs);
    grouped_total(pairs);
    grouped_keys(pairs);
    assert forall|g: int| 0 <= g < res.len() implies #[trigger] groups[g] == (res[g].0, res[g].1@) by {
        assert(group_views(res)[g] == (res[g].0, res[g].1@));
    }
    assert forall|g: int, m: int|
        0 <= g < res.len() && 0 <= m < res[g].1@.len() implies pairs.contains(
        (res[g].0, #[trigger] res[g].1@[m]),
    ) by {
        let k = res[g].0;
        let x = res[g].1@[m];
        assert(groups[g] == (res[g].0, res[g].1@));
        assert(groups[g].1[m] == x);
        assert(groups[g].1.contains(x));
        assert(groups_of(pairs)[g].0 == k && groups_of(pairs)[g].1.contains(x));
        grouped_contains(pairs, k, x);
    }
    assert forall|i: int| 0 <= i < pairs.len() implies exists|g: int|
        0 <= g < res.len() && res[g].0 == (#[trigger] pairs[i]).0 && res[g].1@.contains(
            pairs[i].1,
        ) by {
        assert(pairs.contains(pairs[i]));
        grouped_contains(pairs, pairs[i].0, pairs[i].1);
        let g = choose|g: int|
            0 <= g < groups.len() && #[trigger] groups[g].0 == pairs[i].0 && groups[g].1.contains(
                pairs[i].1,
            );
        assert(groups[g] == (res[g].0, res[g].1@));
    }
    assert forall|g1: int, g2: int|
        0 <= g1 < res.len() && 0 <= g2 < res.len() && g1 != g2 implies (#[trigger] res[g1]).0
        != (#[trigger] res[g2]).0 by {
        assert(group_keys(groups)[g1] == groups[g1].0);
        assert(group_keys(groups)[g2] == groups[g2].0);
        assert(groups[g1] == (res[g1].0, res[g1].1@));
        assert(groups[g2] == (res[g2].0, res[g2].1@));
    }
}

/// Some position holds item `x` with key `k`.
pub open spec fn given_with_key<T>(keys: Seq<u64>, items: Seq<T>, k: u64, x: T) -> bool {
    exists|i: int| 0 <= i < items.len() && keys[i] == k && items[i] == x
}

/// Some group has key `k` and holds item `x`.
pub open spec fn grouped_under<T>(gs: Seq<(u64, Vec<T>)>, k: u64, x: T) -> bool {
    exists|g: int| 0 <= g < gs.len() && gs[g].0 == k && gs[g].1@.contains(x)
}

/// Grouping items by the keys given to them: every item of a group stands
/// at a position whose key is the group's key, and every item stands in the
/// group of its own key.
pub proof fn grouped_by_keys_result<T>(keys: Seq<u64>, items: Seq<T>, gs: Seq<(u64, Vec<T>)>)
    requires
        keys.len() == items.len(),
        group_views(gs) == groups_of(keyed(keys, items)),
    ensures
        forall|g: int, m: int|
            0 <= g < gs.len() && 0 <= m < gs[g].1@.len() ==> given_with_key(
                keys,
                items,
                gs[g].0,
                #[trigger] gs[g].1@[m],
            ),
        forall|i: int|
            0 <= i < items.len() ==> grouped_under(gs, keys[i], #[trigger] items[i]),
{
    let kp = keyed(keys, items);
    group_keyed_result(kp, gs);
    assert forall|g: int, m: int|
        0 <= g < gs.len() && 0 <= m < gs[g].1@.len() implies given_with_key(
        keys,
        items,
        gs[g].0,
        #[trigger] gs[g].1@[m],
    ) by {
        assert(kp.contains((gs[g].0, gs[g].1@[m])));
        let i = choose|i: int| 0 <= i < kp.len() && kp[i] == (gs[g].0, gs[g].1@[m]);
        assert(kp[i] == (keys[i], items[i]));
    }
    assert forall|i: int| 0 <= i < items.len() implies grouped_under(
        gs,
        keys[i],
        #[trigger] items[i],
    ) by {
        assert(kp[i] == (keys[i], items[i]));
        assert(kp[i].0 == keys[i]);
        let g = choose|g: int|
            0 <= g < gs.len() && gs[g].0 == (#[trigger] kp[i]).0 && gs[g].1@.contains(kp[i].1);
    }
}

/// The vacuity detector of each operator holds as special patterns those of
/// every other operator, each exactly once, in the order of the operators:
/// operator `j` sits at position `j` before the detector's own operator and
/// at position `j - 1` after it.
pub proof fn vacuity_specials_are_the_others<L: Language>(ops: Seq<L>, res: Seq<MultiPattern<L>>)
    requires
        res.len() == ops.len(),
        forall|i: int| 0 <= i < ops.len() ==> is_vacuity_detector(#[trigger] res[i], ops, i),
    ensures
        forall|i: int|
            0 <= i < ops.len() ==> (#[trigger] res[i]).specials@.len() == 1
                && res[i].specials@[0].1@.len() == ops.len() - 1,
        forall|i: int, j: int|
            0 <= i < ops.len() && 0 <= j < ops.len() && j != i ==> is_detector_pattern(
                (#[trigger] res[i]).specials@[0].1@[if j < i {
                    j
                } else {
                    j - 1
                }].nodes@,
                #[trigger] ops[j],
                true,
            ),
        forall|i: int, m: int|
            0 <= i < ops.len() && 0 <= m < ops.len() - 1 ==> is_detector_pattern(
                (#[trigger] res[i].specials@[0].1@[m]).nodes@,
                ops[if m < i {
                    m
                } else {
                    m + 1
                }],
                true,
            ),
{
    assert forall|i: int, j: int|
        0 <= i < ops.len() && 0 <= j < ops.len() && j != i implies is_detector_pattern(
        (#[trigger] res[i]).specials@[0].1@[if j < i {
            j
        } else {
            j - 1
        }].nodes@,
        #[trigger] ops[j],
        true,
    ) by {
        assert(is_vacuity_detector(res[i], ops, i));
        let m = if j < i {
            j
        } else {
            j - 1
        };
        assert(crate::tools::skip_index(i, m) == j);
    }
    assert forall|i: int, m: int|
        0 <= i < ops.len() && 0 <= m < ops.len() - 1 implies is_detector_pattern(
        (#[trigger] res[i].specials@[0].1@[m]).nodes@,
        ops[if m < i {
            m
        } else {
            m + 1
        }],
        true,
    ) by {
        assert(is_vacuity_detector(res[i], ops, i));
    }
}

/// Some variable of `bound` has the name of `u`.
pub open spec fn has_bound_name(bound: Seq<Var>, u: Var) -> bool {
    exists|m: int| 0 <= m < bound.len() && bound[m]@ == u@
}

/// The names of the variables are theirs, one per variable, in order.
pub proof fn var_names_are_the_names(vars: Seq<Var>)
    ensures
        var_names(vars).len() == vars.len(),
        forall|j: int| 0 <= j < vars.len() ==> #[trigger] var_names(vars)[j] == vars[j]@,
        forall|u: Var| #[trigger] var_names(vars).contains(u@) <==> has_bound_name(vars, u),
{
    assert forall|u: Var| #[trigger] var_names(vars).contains(u@) <==> has_bound_name(vars, u) by {
        if has_bound_name(vars, u) {
            let m = choose|m: int| 0 <= m < vars.len() && vars[m]@ == u@;
            assert(var_names(vars)[m] == u@);
        }
        if var_names(vars).contains(u@) {
            let m = choose|m: int| 0 <= m < var_names(vars).len() && var_names(vars)[m] == u@;
            assert(vars[m]@ == u@);
        }
    }
}

proof fn lemma_first_unbound_exists(bound: Seq<Var>, used: Seq<Var>)
    requires
        !all_bound(bound, used),
    ensures
        exists|i: int| is_first_unbound(bound, used, i),
    decreases used.len(),
{
    let n = used.len() as int;
    let init = used.drop_last();
    if !all_bound(bound, init) {
        lemma_first_unbound_exists(bound, init);
        let i = choose|i: int| is_first_unbound(bound, init, i);
        assert(init.take(i) =~= used.take(i));
        assert(init[i] == used[i]);
        assert(is_first_unbound(bound, used, i));
    } else {
        assert(used.take(n - 1) =~= init);
        let j = choose|j: int| 0 <= j < used.len() && !var_names(bound).contains(#[trigger] used[j]@);
        if j < n - 1 {
            assert(init[j] == used[j]);
        }
        assert(is_first_unbound(bound, used, n - 1));
    }
}

/// A rewrite is built exactly when every variable that the applier uses has
/// the name of some variable that the searcher binds; when it is refused, the
/// message names the first used variable that has no such name.
pub proof fn rewrite_accepted_iff_bound<S: Searcher, A: Applier>(
    res: Result<Rewrite<S, A>, String>,
    name: Seq<char>,
    long_name: Seq<char>,
    searcher: S,
    applier: A,
    bound: Seq<Var>,
    used: Seq<Var>,
)
    requires
        rewrite_outcome(res, name, long_name, searcher, applier, bound, used),
    ensures
        res is Ok <==> forall|j: int| 0 <= j < used.len() ==> has_bound_name(bound, #[trigger] used[j]),
        res is Err ==> exists|i: int|
            0 <= i < used.len() && !has_bound_name(bound, #[trigger] used[i]) && (forall|j: int|
                0 <= j < i ==> has_bound_name(bound, #[trigger] used[j])) && res->Err_0@ == "Rewrite "@
                + name + " refers to unbound var "@ + used[i]@,
{
    var_names_are_the_names(bound);
    if all_bound(bound, used) {
        assert forall|j: int| 0 <= j < used.len() implies has_bound_name(bound, #[trigger] used[j]) by {
            assert(var_names(bound).contains(used[j]@));
        }
    } else {
        let j0 = choose|j: int| 0 <= j < used.len() && !var_names(bound).contains(#[trigger] used[j]@);
        assert(!has_bound_name(bound, used[j0]));
        lemma_first_unbound_exists(bound, used);
        let i = choose|i: int| is_first_unbound(bound, used, i);
        assert(res is Err);
        assert forall|j: int| 0 <= j < i implies has_bound_name(bound, #[trigger] used[j]) by {
            assert(used.take(i)[j] == used[j]);
            assert(var_names(bound).contains(used.take(i)[j]@));
        }
        assert(!has_bound_name(bound, used[i]));
        assert(res->Err_0@ == "Rewrite "@ + name + " refers to unbound var "@ + used[i]@);
    }
}

/// `classes` lists, in order, the class of every outcome whose union changed
/// something, and nothing else: `idx` gives, for each listed class, the
/// position of its outcome.
pub open spec fn lists_changed(outcomes: Seq<(Id, bool)>, classes: Seq<Id>, idx: Seq<int>) -> bool {
    &&& idx.len() == classes.len()
    &&& forall|k: int|
        0 <= k < idx.len() ==> 0 <= #[trigger] idx[k] < outcomes.len() && outcomes[idx[k]] == (
        classes[k],
        true,
    )
    &&& forall|k1: int, k2: int|
        0 <= k1 < k2 < idx.len() ==> #[trigger] idx[k1] < #[trigger] idx[k2]
    &&& forall|i: int| 0 <= i < outcomes.len() && (#[trigger] outcomes[i]).1 ==> idx.contains(i)
}

/// With no outcome, no class is reported; one more outcome adds its class at
/// the end exactly when its union changed something.
pub proof fn changed_classes_step(outcomes: Seq<(Id, bool)>, to: Id, did_something: bool)
    ensures
        changed_classes_spec(Seq::empty()) == Seq::<Id>::empty(),
        changed_classes_spec(outcomes.push((to, did_something))) == if did_something {
            changed_classes_spec(outcomes).push(to)
        } else {
            changed_classes_spec(outcomes)
        },
{
    assert(outcomes.push((to, did_something)).drop_last() =~= outcomes);
}

/// The reported classes are those of the outcomes that changed something,
/// each once, in the order of the outcomes.
pub proof fn changed_classes_are_the_changed(outcomes: Seq<(Id, bool)>)
    ensures
        exists|idx: Seq<int>| lists_changed(outcomes, changed_classes_spec(outcomes), idx),
    decreases outcomes.len(),
{
    if outcomes.len() == 0 {
        assert(lists_changed(outcomes, changed_classes_spec(outcomes), Seq::<int>::empty()));
    } else {
        let init = outcomes.drop_last();
        let n = outcomes.len() as int;
        changed_classes_are_the_changed(init);
        let idx0 = choose|idx: Seq<int>| lists_changed(init, changed_classes_spec(init), idx);
        let r0 = changed_classes_spec(init);
        assert forall|k: int| 0 <= k < idx0.len() implies outcomes[idx0[k]] == init[idx0[k]] by {}
        if outcomes.last().1 {
            let idx = idx0.push(n - 1);
            let r = r0.push(outcomes.last().0);
            assert forall|k: int|
                0 <= k < idx.len() implies 0 <= #[trigger] idx[k] < outcomes.len() && outcomes[idx[k]]
                == (r[k], true) by {
                if k < idx0.len() {
                    assert(idx[k] == idx0[k]);
                    assert(init[idx0[k]] == (r0[k], true));
                }
            }
            assert forall|i: int| 0 <= i < outcomes.len() && (#[trigger] outcomes[i]).1 implies idx.contains(i) by {
                if i < n - 1 {
                    assert(init[i] == outcomes[i]);
                    let k = choose|k: int| 0 <= k < idx0.len() && idx0[k] == i;
                    assert(idx[k] == i);
                } else {
                    assert(idx[idx0.len() as int] == i);
                }
            }
            assert(lists_changed(outcomes, r, idx));
            assert(changed_classes_spec(outcomes) == r);
        } else {
            assert forall|k: int|
                0 <= k < idx0.len() implies 0 <= #[trigger] idx0[k] < outcomes.len() && outcomes[idx0[k]]
                == (r0[k], true) by {
                assert(init[idx0[k]] == (r0[k], true));
            }
            assert forall|i: int| 0 <= i < outcomes.len() && (#[trigger] outcomes[i]).1 implies idx0.contains(i) by {
                assert(i < n - 1);
                assert(init[i] == outcomes[i]);
            }
            assert(lists_changed(outcomes, r0, idx0));
            assert(changed_classes_spec(outcomes) == r0);
        }
    }
}

/// What `choose_subsets` gives, read off the input itself: every pick has
/// `size` elements, each an element of the input, and there are
/// `binomial(n, size)` picks for `size` at least one.
pub proof fn choose_subsets_result<K>(vec: Seq<K>, size: nat, res: Seq<Vec<&K>>)
    requires
        values_of(res) == choices(vec, size),
    ensures
        forall|k: int| 0 <= k < res.len() ==> #[trigger] res[k]@.len() == size,
        forall|k: int, j: int|
            0 <= k < res.len() && 0 <= j < res[k]@.len() ==> vec.contains(*#[trigger] res[k]@[j]),
        size >= 1 ==> res.len() == binomial(vec.len(), size),
{
    if size >= 1 {
        choose_subsets_len(vec, size);
    }
    assert forall|k: int| 0 <= k < res.len() implies #[trigger] res[k]@.len() == size by {
        let t = values_of(res)[k];
        assert(choices(vec, size).contains(t));
        choose_subsets_contains(vec, size, t);
    }
    assert forall|k: int, j: int|
        0 <= k < res.len() && 0 <= j < res[k]@.len() implies vec.contains(*#[trigger] res[k]@[j]) by {
        let t = values_of(res)[k];
        assert(choices(vec, size).contains(t));
        choose_subsets_contains(vec, size, t);
        lemma_reverse_reverse(t);
        assert(t[j] == *res[k]@[j]);
        assert(t.reverse()[t.len() - 1 - j] == t[j]);
        lemma_subsequence_elements(t.reverse(), vec, t.len() - 1 - j);
    }
}

/// The number that a sequence of decimal digits stands for.
pub open spec fn digits_value(d: Seq<char>) -> int
    decreases d.len(),
{
    if d.len() == 0 {
        0
    } else {
        digits_value(d.drop_last()) * 10 + (d.last() as int - 48)
    }
}

/// `decimal(n)` is the decimal writing of `n`: digits only, standing for `n`,
/// with no leading zero.
pub proof fn decimal_is_decimal(n: nat)
    ensures
        decimal(n).len() >= 1,
        forall|j: int| 0 <= j < decimal(n).len() ==> 48 <= #[trigger] decimal(n)[j] as int <= 57,
        digits_value(decimal(n)) == n,
        decimal(n)[0] as int == 48 ==> n == 0,
    decreases n,
{
    if n < 10 {
        let d = decimal(n);
        assert(d.drop_last() =~= Seq::<char>::empty());
        assert(d[0] as int == n + 48);
        assert(digits_value(d.drop_last()) == 0);
        assert(digits_value(d) == digits_value(d.drop_last()) * 10 + (d.last() as int - 48));
    } else {
        let q = n / 10;
        let r = n % 10;
        decimal_is_decimal(q);
        let d = decimal(n);
        assert(d == decimal(q) + seq![(r + 48) as char]);
        assert(d.drop_last() =~= decimal(q));
        assert(d.last() as int == r + 48);
        assert(q * 10 + r == n) by (nonlinear_arith)
            requires
                q == n / 10,
                r == n % 10,
        ;
        assert forall|j: int| 0 <= j < d.len() implies 48 <= #[trigger] d[j] as int <= 57 by {
            if j < decimal(q).len() {
                assert(d[j] == decimal(q)[j]);
            }
        }
        assert(d[0] == decimal(q)[0]);
        assert(digits_value(d) == digits_value(d.drop_last()) * 10 + (d.last() as int - 48));
        assert(digits_value(d) == q * 10 + r);
    }
}

} // verus!
