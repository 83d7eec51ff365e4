use itertools::Itertools;
use crate::language::Language;
use crate::pattern::{
    clone_pattern, detector_pattern, is_detector_pattern, lemma_copy_detector_pattern, ENodeOrVar,
    MultiPattern, Var,
};
use crate::language::RecExpr;
use std::collections::HashMap;
use vstd::prelude::*;

verus! {

/// The contents of a slice of vector references, as sequences of values.
pub open spec fn seqs_of<T>(vecs: Seq<&Vec<T>>) -> Seq<Seq<T>> {
    vecs.map_values(|v: &Vec<T>| v@)
}

/// The values that a vector of vectors of references points at.
pub open spec fn values_of<T>(res: Seq<Vec<&T>>) -> Seq<Seq<T>> {
    res.map_values(|v: Vec<&T>| v@.map_values(|x: &T| *x))
}

/// The n-ary cartesian product in lexicographic order: the first sequence
/// varies slowest, and each tuple lists one element of every sequence in turn.
pub open spec fn cartesian<A>(s: Seq<Seq<A>>) -> Seq<Seq<A>>
    decreases s.len(),
{
    if s.len() == 0 {
        seq![Seq::empty()]
    } else {
        let rest = cartesian(s.drop_first());
        s[0].map_values(|a: A| rest.map_values(|t: Seq<A>| seq![a] + t)).flatten()
    }
}

/// The tuples of the cartesian product, in lexicographic order, each reversed.
pub open spec fn reversed_cartesian<A>(s: Seq<Seq<A>>) -> Seq<Seq<A>> {
    cartesian(s).map_values(|t: Seq<A>| t.reverse())
}

proof fn lemma_flatten_map<A, B>(x: Seq<Seq<A>>, f: spec_fn(A) -> B)
    ensures
        x.flatten().map_values(f) == x.map_values(|y: Seq<A>| y.map_values(f)).flatten(),
    decreases x.len(),
{
    if x.len() > 0 {
        lemma_flatten_map(x.drop_first(), f);
        assert(x.map_values(|y: Seq<A>| y.map_values(f)).drop_first() =~= x.drop_first().map_values(
            |y: Seq<A>| y.map_values(f),
        ));
        assert((x[0] + x.drop_first().flatten()).map_values(f) =~= x[0].map_values(f)
            + x.drop_first().flatten().map_values(f));
    } else {
        assert(x.flatten().map_values(f) =~= x.map_values(|y: Seq<A>| y.map_values(f)).flatten());
    }
}

proof fn lemma_reverse_prepend<A>(a: A, t: Seq<A>)
    ensures
        (seq![a] + t).reverse() == t.reverse().push(a),
{
    assert((seq![a] + t).reverse() =~= t.reverse().push(a));
}

/// The reversed product unfolds on its first sequence: each element of it is
/// appended to every tuple of the reversed product of the rest.
pub(crate) proof fn lemma_reversed_cartesian_unfold<A>(s: Seq<Seq<A>>)
    requires
        s.len() > 0,
    ensures
        reversed_cartesian(s) == s[0].map_values(
            |a: A| reversed_cartesian(s.drop_first()).map_values(|t: Seq<A>| t.push(a)),
        ).flatten(),
{
    let rest = cartesian(s.drop_first());
    let rev = |t: Seq<A>| t.reverse();
    let groups = s[0].map_values(|a: A| rest.map_values(|t: Seq<A>| seq![a] + t));
    lemma_flatten_map(groups, rev);
    let lhs_groups = groups.map_values(|y: Seq<Seq<A>>| y.map_values(rev));
    let rhs_groups = s[0].map_values(
        |a: A| reversed_cartesian(s.drop_first()).map_values(|t: Seq<A>| t.push(a)),
    );
    assert forall|i: int| 0 <= i < s[0].len() implies lhs_groups[i] == rhs_groups[i] by {
        let a = s[0][i];
        assert forall|j: int| 0 <= j < rest.len() implies lhs_groups[i][j] == rhs_groups[i][j] by {
            lemma_reverse_prepend(a, rest[j]);
        }
        assert(lhs_groups[i] =~= rhs_groups[i]);
    }
    assert(lhs_groups =~= rhs_groups);
}

/// The cartesian product of the given vectors. Each result lists one element
/// of every input vector, the element of the last vector first; the results
/// come in lexicographic order, the first vector varying slowest. With no
/// vectors the result is a single empty tuple.
pub fn product<'a, T: 'a + Clone>(vecs: &[&'a Vec<T>]) -> (res: Vec<Vec<&'a T>>)
    ensures
        values_of(res@) == reversed_cartesian(seqs_of(vecs@)),
        forall|k: int| 0 <= k < res@.len() ==> #[trigger] res@[k]@.len() == vecs@.len(),
        forall|k: int, j: int|
            0 <= k < res@.len() && 0 <= j < vecs@.len() ==> vecs@[vecs@.len() - 1 - j]@.contains(
                *#[trigger] res@[k]@[j],
            ),
    decreases vecs@.len(),
{
    if vecs.is_empty() {
        let mut res: Vec<Vec<&'a T>> = Vec::new();
        let empty: Vec<&'a T> = Vec::new();
        res.push(empty);
        proof {
            assert(Seq::<T>::empty().reverse() =~= Seq::<T>::empty());
            assert(cartesian(seqs_of(vecs@)) == seq![Seq::<T>::empty()]);
            assert(reversed_cartesian(seqs_of(vecs@)) =~= seq![Seq::<T>::empty()]);
            assert(res@[0]@.map_values(|x: &T| *x) =~= Seq::<T>::empty());
            assert(values_of(res@) =~= seq![Seq::<T>::empty()]);
            crate::laws::product_result(vecs@, res@);
        }
        return res;
    }
    let ghost s = seqs_of(vecs@);
    proof {
        lemma_reversed_cartesian_unfold(s);
    }
    let rec_res = product(&vecs[1..vecs.len()]);
    let ghost rest = reversed_cartesian(s.drop_first());
    assert(seqs_of(vecs@.subrange(1, vecs@.len() as int)) =~= s.drop_first());
    let initial_set: &'a Vec<T> = vecs[0];
    let ghost groups = s[0].map_values(|a: T| rest.map_values(|t: Seq<T>| t.push(a)));
    let mut res: Vec<Vec<&'a T>> = Vec::new();
    for i in 0..initial_set.len()
        invariant
            s.len() > 0,
            initial_set@ == s[0],
            values_of(rec_res@) == rest,
            groups == s[0].map_values(|a: T| rest.map_values(|t: Seq<T>| t.push(a))),
            values_of(res@) == groups.take(i as int).flatten(),
    {
        let x: &'a T = &initial_set[i];
        let ghost before = values_of(res@);
        for j in 0..rec_res.len()
            invariant
                s.len() > 0,
                i < s[0].len(),
                initial_set@ == s[0],
                values_of(rec_res@) == rest,
                *x == s[0][i as int],
                values_of(res@) == before + rest.take(j as int).map_values(
                    |t: Seq<T>| t.push(s[0][i as int]),
                ),
        {
            let mut new_r: Vec<&'a T> = rec_res[j].clone();
            assert(new_r@ =~= rec_res@[j as int]@);
            new_r.push(x);
            assert(new_r@.map_values(|y: &T| *y) =~= rest[j as int].push(s[0][i as int]));
            let ghost old_vals = values_of(res@);
            res.push(new_r);
            assert(values_of(res@) =~= old_vals.push(rest[j as int].push(s[0][i as int])));
            assert(rest.take(j + 1).map_values(|t: Seq<T>| t.push(s[0][i as int])) =~= rest.take(
                j as int,
            ).map_values(|t: Seq<T>| t.push(s[0][i as int])).push(rest[j as int].push(s[0][i as int])));
        }
        assert(rest.take(rec_res.len() as int) =~= rest);
        assert(groups.take(i + 1) =~= groups.take(i as int).push(groups[i as int]));
        proof {
            groups.take(i as int).lemma_flatten_push(groups[i as int]);
        }
    }
    assert(groups.take(initial_set.len() as int) =~= groups);
    proof {
        crate::laws::product_result(vecs@, res@);
    }
    res
}

/// The ways to pick `k` elements of `s`, keeping their positions apart. Each
/// pick lists its elements from the last position to the first. The picks
/// that hold `s[0]` come first (the picks of `k - 1` elements of the rest, each
/// followed by `s[0]`), then the picks of `k` elements of the rest. There is
/// no pick of no element.
pub open spec fn choices<A>(s: Seq<A>, k: nat) -> Seq<Seq<A>>
    decreases s.len(),
{
    if k == 0 {
        seq![]
    } else if k == 1 {
        s.map_values(|a: A| seq![a])
    } else if s.len() == 0 {
        seq![]
    } else {
        choices(s.drop_first(), (k - 1) as nat).map_values(|t: Seq<A>| t.push(s[0])) + choices(
            s.drop_first(),
            k,
        )
    }
}

/// For each position `i` of `s`, the picks of `k - 1` elements after `i`,
/// each followed by `s[i]`.
pub open spec fn choice_groups<A>(s: Seq<A>, k: nat) -> Seq<Seq<Seq<A>>> {
    Seq::new(
        s.len(),
        |i: int|
            choices(s.subrange(i + 1, s.len() as int), (k - 1) as nat).map_values(
                |t: Seq<A>| t.push(s[i]),
            ),
    )
}

proof fn lemma_choices_too_many<A>(s: Seq<A>, k: nat)
    requires
        k > s.len(),
    ensures
        choices(s, k) == Seq::<Seq<A>>::empty(),
    decreases s.len(),
{
    if k == 1 {
        assert(choices(s, k) =~= Seq::<Seq<A>>::empty());
    } else if s.len() > 0 {
        lemma_choices_too_many(s.drop_first(), (k - 1) as nat);
        lemma_choices_too_many(s.drop_first(), k);
        assert(choices(s, k) =~= Seq::<Seq<A>>::empty());
    }
}

pub(crate) proof fn lemma_choice_groups_flatten<A>(s: Seq<A>, k: nat)
    requires
        k >= 2,
    ensures
        choice_groups(s, k).flatten() == choices(s, k),
    decreases s.len(),
{
    if s.len() == 0 {
        assert(choice_groups(s, k) =~= Seq::<Seq<Seq<A>>>::empty());
    } else {
        let rest = s.drop_first();
        lemma_choice_groups_flatten(rest, k);
        let g = choice_groups(s, k);
        assert forall|i: int| 0 <= i < rest.len() implies g.drop_first()[i] == choice_groups(
            rest,
            k,
        )[i] by {
            assert(rest.subrange(i + 1, rest.len() as int) =~= s.subrange(i + 2, s.len() as int));
        }
        assert(g.drop_first() =~= choice_groups(rest, k));
        assert(s.subrange(1, s.len() as int) =~= rest);
    }
}

/// The picks of `size` elements of `vec`, each listing its elements from the
/// last position to the first: for each position, the picks of `size - 1`
/// elements after it, each followed by the element there. Picks of one
/// element are the elements in turn; there is no pick of no element, nor of
/// more elements than `vec` has.
pub fn choose_subsets<K>(vec: &[K], size: usize) -> (res: Vec<Vec<&K>>)
    ensures
        values_of(res@) == choices(vec@, size as nat),
        forall|k: int| 0 <= k < res@.len() ==> #[trigger] res@[k]@.len() == size,
        forall|k: int, j: int|
            0 <= k < res@.len() && 0 <= j < res@[k]@.len() ==> vec@.contains(
                *#[trigger] res@[k]@[j],
            ),
        size >= 1 ==> res@.len() == crate::laws::binomial(vec@.len(), size as nat),
    decreases size,
{
    if size == 1 {
        let mut res: Vec<Vec<&K>> = Vec::new();
        for i in 0..vec.len()
            invariant
                size == 1,
                values_of(res@) == choices(vec@.take(i as int), 1),
        {
            let mut single: Vec<&K> = Vec::new();
            single.push(&vec[i]);
            assert(single@.map_values(|y: &K| *y) =~= seq![vec@[i as int]]);
            let ghost old_vals = values_of(res@);
            res.push(single);
            assert(values_of(res@) =~= old_vals.push(seq![vec@[i as int]]));
            assert(choices(vec@.take(i + 1), 1) =~= choices(vec@.take(i as int), 1).push(
                seq![vec@[i as int]],
            ));
        }
        assert(vec@.take(vec.len() as int) =~= vec@);
        proof {
            crate::laws::choose_subsets_result(vec@, size as nat, res@);
        }
        return res;
    }
    if size == 0 || size > vec.len() {
        let res: Vec<Vec<&K>> = Vec::new();
        proof {
            if size > 0 {
                lemma_choices_too_many(vec@, size as nat);
            }
            assert(values_of(res@) =~= choices(vec@, size as nat));
        }
        proof {
            crate::laws::choose_subsets_result(vec@, size as nat, res@);
        }
        return res;
    }
    let ghost groups = choice_groups(vec@, size as nat);
    let mut res: Vec<Vec<&K>> = Vec::new();
    for i in 0..vec.len()
        invariant
            2 <= size <= vec@.len(),
            groups == choice_groups(vec@, size as nat),
            values_of(res@) == groups.take(i as int).flatten(),
    {
        let k: &K = &vec[i];
        let rec_res = choose_subsets(&vec[i + 1..vec.len()], size - 1);
        let ghost sub = choices(vec@.subrange(i + 1, vec@.len() as int), (size - 1) as nat);
        let ghost before = values_of(res@);
        for j in 0..rec_res.len()
            invariant
                i < vec@.len(),
                values_of(rec_res@) == sub,
                *k == vec@[i as int],
                values_of(res@) == before + sub.take(j as int).map_values(
                    |t: Seq<K>| t.push(vec@[i as int]),
                ),
        {
            let mut new_r: Vec<&K> = rec_res[j].clone();
            assert(new_r@ =~= rec_res@[j as int]@);
            new_r.push(k);
            assert(new_r@.map_values(|y: &K| *y) =~= sub[j as int].push(vec@[i as int]));
            let ghost old_vals = values_of(res@);
            res.push(new_r);
            assert(values_of(res@) =~= old_vals.push(sub[j as int].push(vec@[i as int])));
            assert(sub.take(j + 1).map_values(|t: Seq<K>| t.push(vec@[i as int])) =~= sub.take(
                j as int,
            ).map_values(|t: Seq<K>| t.push(vec@[i as int])).push(sub[j as int].push(vec@[i as int])));
        }
        assert(sub.take(rec_res.len() as int) =~= sub);
        assert(groups.take(i + 1) =~= groups.take(i as int).push(groups[i as int]));
        proof {
            groups.take(i as int).lemma_flatten_push(groups[i as int]);
        }
    }
    assert(groups.take(vec.len() as int) =~= groups);
    proof {
        lemma_choice_groups_flatten(vec@, size as nat);
        crate::laws::choose_subsets_result(vec@, size as nat, res@);
    }
    res
}

/// The contents of a vector of vectors, as sequences of values.
pub open spec fn vec_seqs<T>(vecs: Seq<Vec<T>>) -> Seq<Seq<T>> {
    vecs.map_values(|v: Vec<T>| v@)
}

/// The lexicographic cartesian product of at least one sequence; with no
/// sequence at all there is no tuple.
pub open spec fn lexicographic_product<A>(s: Seq<Seq<A>>) -> Seq<Seq<A>> {
    if s.len() == 0 {
        Seq::empty()
    } else {
        cartesian(s)
    }
}

/// Calls `Itertools::multi_cartesian_product` on the element iterators of the
/// vectors and collects the tuples. The contract claims what its documentation
/// shows: the tuples of the cartesian product in lexicographic order, the
/// first vector varying slowest, each tuple holding references to one element
/// of every vector in turn; and, as its source shows, no tuple at all when
/// there is no vector.
#[verifier::external_body]
fn multi_cartesian_product_of<'a, T>(vecs: &'a Vec<Vec<T>>) -> (res: Vec<Vec<&'a T>>)
    ensures
        values_of(res@) == lexicographic_product(vec_seqs(vecs@)),
{
    vecs.iter().map(|v| v.iter()).multi_cartesian_product().collect()
}

/// The cartesian product of the given vectors, in lexicographic order: each
/// tuple takes one element of every vector in turn, the first vector varying
/// slowest. With no vector there is no tuple.
pub fn combinations<'a, T>(vecs: &'a Vec<Vec<T>>) -> (res: Vec<Vec<&'a T>>)
    ensures
        values_of(res@) == lexicographic_product(vec_seqs(vecs@)),
        vecs@.len() == 0 ==> res@.len() == 0,
        forall|k: int| 0 <= k < res@.len() ==> #[trigger] res@[k]@.len() == vecs@.len(),
        forall|k: int, j: int|
            0 <= k < res@.len() && 0 <= j < vecs@.len() ==> vecs@[j]@.contains(
                *#[trigger] res@[k]@[j],
            ),
{
    let res = multi_cartesian_product_of(vecs);
    proof {
        crate::laws::combinations_result(vecs@, res@);
    }
    res
}

/// The keys in the order of their first occurrence, each once.
pub open spec fn first_occurrences(keys: Seq<u64>) -> Seq<u64>
    decreases keys.len(),
{
    if keys.len() == 0 {
        Seq::empty()
    } else {
        let before = first_occurrences(keys.drop_last());
        if before.contains(keys.last()) {
            before
        } else {
            before.push(keys.last())
        }
    }
}

/// The keyed pairs whose key is `k`, in their order.
pub open spec fn pairs_with_key<T>(pairs: Seq<(u64, T)>, k: u64) -> Seq<(u64, T)> {
    pairs.filter(|p: (u64, T)| p.0 == k)
}

/// The items of the keyed pairs whose key is `k`, in their order.
pub open spec fn items_with_key<T>(pairs: Seq<(u64, T)>, k: u64) -> Seq<T> {
    pairs_with_key(pairs, k).map_values(|p: (u64, T)| p.1)
}

/// The keys of the keyed pairs, in their order.
pub open spec fn keys_of<T>(pairs: Seq<(u64, T)>) -> Seq<u64> {
    pairs.map_values(|p: (u64, T)| p.0)
}

/// One group per distinct key, in the order in which the keys first occur;
/// each group holds the items with its key, in their order.
pub open spec fn groups_of<T>(pairs: Seq<(u64, T)>) -> Seq<(u64, Seq<T>)> {
    first_occurrences(keys_of(pairs)).map_values(
        |k: u64| (k, items_with_key(pairs, k)),
    )
}

/// The keys of the groups, in their order.
pub open spec fn group_keys<T>(groups: Seq<(u64, Seq<T>)>) -> Seq<u64> {
    groups.map_values(|g: (u64, Seq<T>)| g.0)
}

/// The groups held in a vector of key and item-vector pairs.
pub open spec fn group_views<T>(groups: Seq<(u64, Vec<T>)>) -> Seq<(u64, Seq<T>)> {
    groups.map_values(|g: (u64, Vec<T>)| (g.0, g.1@))
}

pub(crate) proof fn lemma_items_with_key_push<T>(pairs: Seq<(u64, T)>, p: (u64, T), k: u64)
    ensures
        items_with_key(pairs.push(p), k) == if p.0 == k {
            items_with_key(pairs, k).push(p.1)
        } else {
            items_with_key(pairs, k)
        },
{
    reveal(Seq::filter);
    let q = pairs.push(p);
    assert(q.drop_last() =~= pairs);
    let f = pairs_with_key(pairs, k);
    assert(f.push(p).map_values(|x: (u64, T)| x.1) =~= f.map_values(|x: (u64, T)| x.1).push(p.1));
}

pub(crate) proof fn lemma_items_with_key_absent<T>(pairs: Seq<(u64, T)>, k: u64)
    requires
        !keys_of(pairs).contains(k),
    ensures
        items_with_key(pairs, k) == Seq::<T>::empty(),
    decreases pairs.len(),
{
    if pairs.len() == 0 {
        reveal(Seq::filter);
        assert(items_with_key(pairs, k) =~= Seq::<T>::empty());
    } else {
        let init = pairs.drop_last();
        let init_keys = keys_of(init);
        if init_keys.contains(k) {
            let i = choose|i: int| 0 <= i < init_keys.len() && init_keys[i] == k;
            assert(keys_of(pairs)[i] == k);
        }
        lemma_items_with_key_absent(init, k);
        assert(init.push(pairs.last()) =~= pairs);
        lemma_items_with_key_push(init, pairs.last(), k);
        assert(keys_of(pairs)[pairs.len() - 1] == pairs.last().0);
    }
}

pub(crate) proof fn lemma_first_occurrences(keys: Seq<u64>)
    ensures
        first_occurrences(keys).no_duplicates(),
        forall|k: u64| #[trigger] first_occurrences(keys).contains(k) <==> keys.contains(k),
    decreases keys.len(),
{
    if keys.len() > 0 {
        let init = keys.drop_last();
        let last = keys.last();
        let fi = first_occurrences(init);
        lemma_first_occurrences(init);
        assert(keys == init.push(last));
        assert forall|k: u64| keys.contains(k) <==> (init.contains(k) || k == last) by {
            if init.contains(k) {
                let i = choose|i: int| 0 <= i < init.len() && init[i] == k;
                assert(keys[i] == k);
            }
            if keys.contains(k) && k != last {
                let i = choose|i: int| 0 <= i < keys.len() && keys[i] == k;
                assert(init[i] == k);
            }
            assert(keys[keys.len() - 1] == last);
        }
        if fi.contains(last) {
            assert(init.contains(last));
            assert forall|k: u64| #[trigger] first_occurrences(keys).contains(k) <==> keys.contains(k) by {
                assert(first_occurrences(keys) == fi);
            }
        } else {
            assert(first_occurrences(keys) == fi.push(last));
            assert forall|k: u64| fi.push(last).contains(k) <==> (fi.contains(k) || k == last) by {
                if fi.contains(k) {
                    let i = choose|i: int| 0 <= i < fi.len() && fi[i] == k;
                    assert(fi.push(last)[i] == k);
                }
                if fi.push(last).contains(k) && k != last {
                    let i = choose|i: int| 0 <= i < fi.len() + 1 && fi.push(last)[i] == k;
                    assert(fi[i] == k);
                }
                assert(fi.push(last)[fi.len() as int] == last);
            }
            assert forall|k: u64| #[trigger] first_occurrences(keys).contains(k) <==> keys.contains(k) by {
                assert(fi.push(last).contains(k) <==> (fi.contains(k) || k == last));
            }
            assert forall|a: int, b: int|
                0 <= a < fi.len() + 1 && 0 <= b < fi.len() + 1 && a != b implies fi.push(last)[a]
                != fi.push(last)[b] by {
                if a == fi.len() {
                    assert(fi.contains(fi[b]));
                } else if b == fi.len() {
                    assert(fi.contains(fi[a]));
                }
            }
        }
    }
}

/// Groups keyed items: one group per distinct key, in the order in which the
/// keys first occur, each holding the items with its key in their order.
pub fn group_keyed<T>(pairs: Vec<(u64, T)>) -> (res: Vec<(u64, Vec<T>)>)
    ensures
        group_views(res@) == groups_of(pairs@),
        forall|g: int, m: int|
            0 <= g < res@.len() && 0 <= m < res@[g].1@.len() ==> pairs@.contains(
                (res@[g].0, #[trigger] res@[g].1@[m]),
            ),
        forall|i: int|
            0 <= i < pairs@.len() ==> exists|g: int|
                0 <= g < res@.len() && res@[g].0 == (#[trigger] pairs@[i]).0 && res@[g].1@.contains(
                    pairs@[i].1,
                ),
        forall|g1: int, g2: int|
            0 <= g1 < res@.len() && 0 <= g2 < res@.len() && g1 != g2 ==> (#[trigger] res@[g1]).0
                != (#[trigger] res@[g2]).0,
{
    broadcast use vstd::std_specs::hash::group_hash_axioms;

    let ghost all = pairs@;
    let mut res: Vec<(u64, Vec<T>)> = Vec::new();
    let mut index: HashMap<u64, usize> = HashMap::new();
    let ghost mut n: int = 0;
    for pair in it: pairs
        invariant
            it.seq() == all,
            n == it.index(),
            group_views(res@) == groups_of(all.take(n)),
            forall|k: u64| #[trigger]
                index@.contains_key(k) <==> first_occurrences(keys_of(all.take(n))).contains(k),
            forall|k: u64|
                #[trigger] index@.contains_key(k) ==> index@[k] < res@.len() && res@[index@[k] as int].0 == k,
    {
        let ghost before = all.take(n);
        let ghost after = all.take(n + 1);
        proof {
            assert(after =~= before.push(pair));
            assert(keys_of(after) =~= keys_of(before).push(pair.0));
            assert(keys_of(after).drop_last() =~= keys_of(before));
            lemma_first_occurrences(keys_of(before));
        }
        let (k, t) = pair;
        let found: Option<usize> = match index.get(&k) {
            Some(j) => Some(*j),
            None => None,
        };
        let ghost old_res = group_views(res@);
        let ghost fo = first_occurrences(keys_of(before));
        proof {
            assert(old_res == groups_of(before));
            assert(old_res.len() == fo.len());
            assert(forall|m: int|
                0 <= m < fo.len() ==> #[trigger] old_res[m] == (fo[m], items_with_key(before, fo[m])));
            assert forall|k2: u64| true implies #[trigger] items_with_key(after, k2) == if k2 == k {
                items_with_key(before, k2).push(t)
            } else {
                items_with_key(before, k2)
            } by {
                lemma_items_with_key_push(before, pair, k2);
            }
        }
        match found {
            Some(j) => {
                assert(res@[j as int].0 == k);
                assert(old_res[j as int] == (fo[j as int], items_with_key(before, fo[j as int])));
                let ghost raw = res@;
                res[j].1.push(t);
                proof {
                    assert(fo.contains(k));
                    assert(first_occurrences(keys_of(after)) == fo);
                    assert forall|m: int| 0 <= m < fo.len() implies #[trigger] group_views(res@)[m]
                        == (fo[m], items_with_key(after, fo[m])) by {
                        assert(old_res[m] == (fo[m], items_with_key(before, fo[m])));
                        assert(old_res[m] == (raw[m].0, raw[m].1@));
                        assert(group_views(res@)[m] == (res@[m].0, res@[m].1@));
                        assert(items_with_key(after, fo[m]) == if fo[m] == k {
                            items_with_key(before, fo[m]).push(t)
                        } else {
                            items_with_key(before, fo[m])
                        });
                        if m != j as int {
                            assert(fo[j as int] == k);
                            assert(fo[m] != k);
                        }
                    }
                    assert(group_views(res@) =~= groups_of(after));
                }
            },
            None => {
                index.insert(k, res.len());
                let mut g: Vec<T> = Vec::new();
                g.push(t);
                res.push((k, g));
                proof {
                    assert(group_views(res@) =~= old_res.push((k, g@)));
                    assert forall|k2: u64| fo.push(k).contains(k2) <==> (fo.contains(k2) || k2 == k) by {
                        if fo.contains(k2) {
                            let i = choose|i: int| 0 <= i < fo.len() && fo[i] == k2;
                            assert(fo.push(k)[i] == k2);
                        }
                        if fo.push(k).contains(k2) && k2 != k {
                            let i = choose|i: int| 0 <= i < fo.len() + 1 && fo.push(k)[i] == k2;
                            assert(fo[i] == k2);
                        }
                        assert(fo.push(k)[fo.len() as int] == k);
                    }
                    assert(!fo.contains(k));
                    assert(!keys_of(before).contains(k));
                    lemma_items_with_key_absent(before, k);
                    assert(first_occurrences(keys_of(after)) == fo.push(k));
                    assert forall|m: int| 0 <= m < fo.len() + 1 implies #[trigger] group_views(res@)[m]
                        == (fo.push(k)[m], items_with_key(after, fo.push(k)[m])) by {
                        if m < fo.len() {
                            assert(fo[m] != k);
                        } else {
                            assert(g@ =~= Seq::<T>::empty().push(t));
                        }
                    }
                    assert(group_views(res@) =~= groups_of(after));
                }
            },
        }
        proof {
            n = n + 1;
        }
    }
    proof {
        assert(all.take(n) =~= all);
        crate::laws::group_keyed_result(pairs@, res@);
    }
    res
}

/// Each item paired with the key at the same position.
pub open spec fn keyed<T>(keys: Seq<u64>, items: Seq<T>) -> Seq<(u64, T)> {
    Seq::new(items.len(), |i: int| (keys[i], items[i]))
}

/// Grouping of the items of a collection by a key computed from each item.
pub trait Grouped<T>: Sized {
    /// Groups the items by the key that `key` gives each of them: one group
    /// per distinct key, in the order in which the keys first occur, each
    /// holding the items with its key in their order.
    fn grouped<F: Fn(&T) -> u64>(self, key: F) -> Vec<(u64, Vec<T>)>
        requires
            forall|t: &T| call_requires(key, (t,)),
    ;
}

impl<T> Grouped<T> for Vec<T> {
    /// `key` is called once on each item, in order; the items are then
    /// grouped by the keys it gave.
    fn grouped<F: Fn(&T) -> u64>(self, key: F) -> (res: Vec<(u64, Vec<T>)>)
        ensures
            exists|keys: Seq<u64>|
                {
                    &&& keys.len() == self@.len()
                    &&& forall|i: int|
                        0 <= i < keys.len() ==> call_ensures(key, (&self@[i],), #[trigger] keys[i])
                    &&& group_views(res@) == groups_of(keyed(keys, self@))
                    &&& forall|g: int, m: int|
                        0 <= g < res@.len() && 0 <= m < res@[g].1@.len() ==> call_ensures(
                            key,
                            (&#[trigger] res@[g].1@[m],),
                            res@[g].0,
                        )
                    &&& forall|i: int|
                        0 <= i < self@.len() ==> exists|g: int|
                            0 <= g < res@.len() && res@[g].0 == keys[i] && res@[g].1@.contains(
                                #[trigger] self@[i],
                            )
                },
    {
        let ghost items = self@;
        let ghost mut keys: Seq<u64> = Seq::empty();
        let mut pairs: Vec<(u64, T)> = Vec::new();
        for t in it: self
            invariant
                it.seq() == items,
                forall|x: &T| call_requires(key, (x,)),
                keys.len() == it.index(),
                it.index() <= items.len(),
                forall|i: int|
                    0 <= i < keys.len() ==> call_ensures(key, (&items[i],), #[trigger] keys[i]),
                pairs@ == keyed(keys, items.take(it.index() as int)),
        {
            let k = key(&t);
            let ghost before = pairs@;
            pairs.push((k, t));
            proof {
                keys = keys.push(k);
                assert(pairs@ =~= keyed(keys, items.take(keys.len() as int)));
            }
        }
        proof {
            assert(items.take(items.len() as int) =~= items);
        }
        let res = group_keyed(pairs);
        assert(group_views(res@) == groups_of(keyed(keys, items)));
        proof {
            crate::laws::grouped_by_keys_result(keys, items, res@);
            assert forall|g: int, m: int|
                0 <= g < res@.len() && 0 <= m < res@[g].1@.len() implies call_ensures(
                key,
                (&#[trigger] res@[g].1@[m],),
                res@[g].0,
            ) by {
                assert(crate::laws::given_with_key(keys, items, res@[g].0, res@[g].1@[m]));
                let i = choose|i: int|
                    0 <= i < items.len() && keys[i] == res@[g].0 && items[i] == res@[g].1@[m];
            }
            assert forall|i: int| 0 <= i < items.len() implies exists|g: int|
                0 <= g < res@.len() && res@[g].0 == keys[i] && res@[g].1@.contains(
                    #[trigger] items[i],
                ) by {
                assert(crate::laws::grouped_under(res@, keys[i], items[i]));
            }
        }
        res
    }
}

/// Position `j` among all positions but `i`.
pub open spec fn skip_index(i: int, j: int) -> int {
    if j < i {
        j
    } else {
        j + 1
    }
}

/// The name of the variable that the vacuity detectors bind.
pub open spec fn multipattern_var_name() -> Seq<char> {
    "?multipattern_var"@
}

/// `mp` is the vacuity detector for operator `i` of `ops`: its main pattern
/// is (a copy of) the vacuity pattern of `ops[i]`, and its special patterns,
/// attached to the same variable, are (copies of) the vacuity patterns of all
/// the other operators, in their order.
pub open spec fn is_vacuity_detector<L: Language>(mp: MultiPattern<L>, ops: Seq<L>, i: int) -> bool {
    &&& mp.patterns@.len() == 1
    &&& mp.patterns@[0].0@ == multipattern_var_name()
    &&& is_detector_pattern(mp.patterns@[0].1.nodes@, ops[i], true)
    &&& mp.specials@.len() == 1
    &&& mp.specials@[0].0@ == multipattern_var_name()
    &&& mp.specials@[0].1@.len() == ops.len() - 1
    &&& forall|j: int|
        0 <= j < ops.len() - 1 ==> is_detector_pattern(
            #[trigger] mp.specials@[0].1@[j].nodes@,
            ops[skip_index(i, j)],
            true,
        )
}

/// For each operator, a multipattern that matches any use of it together
/// with any use of each of the other operators.
pub fn vacuity_detector_from_ops<L: Language>(ops: Vec<L>) -> (res: Vec<MultiPattern<L>>)
    ensures
        res@.len() == ops@.len(),
        forall|i: int| 0 <= i < ops@.len() ==> is_vacuity_detector(#[trigger] res@[i], ops@, i),
        forall|i: int, m: int|
            0 <= i < ops@.len() && 0 <= m < ops@.len() - 1 ==> is_detector_pattern(
                (#[trigger] res@[i].specials@[0].1@[m]).nodes@,
                ops@[if m < i {
                    m
                } else {
                    m + 1
                }],
                true,
            ),
{
    let ghost all = ops@;
    let mut patterns: Vec<RecExpr<ENodeOrVar<L>>> = Vec::new();
    for o in it: ops
        invariant
            it.seq() == all,
            patterns@.len() == it.index(),
            it.index() <= all.len(),
            forall|p: int|
                0 <= p < patterns@.len() ==> is_detector_pattern(
                    #[trigger] patterns@[p].nodes@,
                    all[p],
                    false,
                ),
    {
        patterns.push(detector_pattern(o));
    }
    let n = patterns.len();
    let mut res: Vec<MultiPattern<L>> = Vec::new();
    for i in 0..n
        invariant
            n == patterns@.len(),
            n == all.len(),
            forall|p: int|
                0 <= p < n ==> is_detector_pattern(#[trigger] patterns@[p].nodes@, all[p], false),
            res@.len() == i,
            forall|r: int| 0 <= r < i ==> is_vacuity_detector(#[trigger] res@[r], all, r),
    {
        let mut others: Vec<RecExpr<ENodeOrVar<L>>> = Vec::new();
        for j in 0..n
            invariant
                n == patterns@.len(),
                n == all.len(),
                i < n,
                forall|p: int|
                    0 <= p < n ==> is_detector_pattern(#[trigger] patterns@[p].nodes@, all[p], false),
                others@.len() == if j <= i {
                    j as int
                } else {
                    j - 1
                },
                forall|m: int|
                    0 <= m < others@.len() ==> is_detector_pattern(
                        #[trigger] others@[m].nodes@,
                        all[skip_index(i as int, m)],
                        true,
                    ),
        {
            if j != i {
                let copy = clone_pattern(&patterns[j]);
                proof {
                    lemma_copy_detector_pattern(patterns@[j as int].nodes@, copy.nodes@, all[j as int]);
                    assert(skip_index(i as int, others@.len() as int) == j);
                }
                others.push(copy);
            }
        }
        let main = clone_pattern(&patterns[i]);
        proof {
            lemma_copy_detector_pattern(patterns@[i as int].nodes@, main.nodes@, all[i as int]);
        }
        let mut mains: Vec<(Var, RecExpr<ENodeOrVar<L>>)> = Vec::new();
        mains.push((Var::new("?multipattern_var"), main));
        let mut specials: Vec<(Var, Vec<RecExpr<ENodeOrVar<L>>>)> = Vec::new();
        specials.push((Var::new("?multipattern_var"), others));
        let mp = MultiPattern::new_with_specials(mains, specials);
        res.push(mp);
    }
    proof {
        crate::laws::vacuity_specials_are_the_others(all, res@);
    }
    res
}

} // verus!
