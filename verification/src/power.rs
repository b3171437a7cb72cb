//! The power-set generator: every subset of a finite set exactly once,
//! grouped by increasing cardinality. One growable level per cardinality is
//! kept; each element extends, from the largest cardinality downwards, every
//! subset already present one level up.

use vstd::prelude::*;

use crate::binomial::binom;
use crate::binomial::binom_sum;
use crate::binomial::binomial_approx;
use crate::binomial::lemma_binom_le_two_pow;
use crate::binomial::lemma_binom_row_sum;
use crate::binomial::two_pow;

verus! {

broadcast use vstd::prelude::Seq::lemma_push_to_set_commute;

/// The views of a sequence of vectors.
pub open spec fn views<T>(s: Seq<Vec<T>>) -> Seq<Seq<T>> {
    s.map_values(|v: Vec<T>| v@)
}

/// The sequences of exactly k elements.
pub open spec fn len_is<T>(k: int) -> spec_fn(Seq<T>) -> bool {
    |x: Seq<T>| x.len() == k
}

/// How many of the given sequences have exactly k elements.
pub open spec fn card_count<T>(subs: Seq<Seq<T>>, k: int) -> int {
    subs.filter(len_is(k)).len() as int
}

/// A well-formed entry of cardinality level k after the first j elements of
/// s have been processed: k distinct elements, all drawn from that prefix.
pub open spec fn entry_ok<T>(sub: Seq<T>, s: Seq<T>, j: int, k: int) -> bool {
    &&& sub.len() == k
    &&& sub.no_duplicates()
    &&& forall|x: T| #[trigger] sub.contains(x) ==> s.take(j).contains(x)
}

/// A well-formed cardinality level: C(j, k) pairwise-distinct subsets,
/// each a k-subset of the first j elements of s.
pub open spec fn level_ok<T>(lv: Seq<Vec<T>>, s: Seq<T>, j: int, k: int) -> bool {
    &&& lv.len() == binom(j as nat, k as nat)
    &&& forall|i: int| 0 <= i < lv.len() ==> entry_ok((#[trigger] lv[i])@, s, j, k)
    &&& forall|i1: int, i2: int|
        #![trigger lv[i1], lv[i2]]
        0 <= i1 < i2 < lv.len() ==> lv[i1]@.to_set() != lv[i2]@.to_set()
}

/// Some entry of the level has exactly the given elements.
pub open spec fn level_has<T>(lv: Seq<Vec<T>>, a: Set<T>) -> bool {
    exists|i: int| 0 <= i < lv.len() && (#[trigger] lv[i])@.to_set() == a
}

/// Every subset of the first j elements of s sits in the level of its size.
pub open spec fn levels_complete<T>(levels: Seq<Vec<Vec<T>>>, s: Seq<T>, j: int) -> bool {
    forall|a: Set<T>|
        #[trigger] a.subset_of(s.take(j).to_set()) && a.finite() ==> a.len() < levels.len()
            && level_has(levels[a.len() as int]@, a)
}

/// One level extended by all subsets one size below, each with e added.
pub open spec fn extended<T>(new: Seq<Vec<T>>, oldk: Seq<Vec<T>>, oldm: Seq<Vec<T>>, e: T) -> bool {
    &&& new.len() == oldk.len() + oldm.len()
    &&& forall|i: int| 0 <= i < oldk.len() ==> (#[trigger] new[i])@ == oldk[i]@
    &&& forall|i: int| 0 <= i < oldm.len() ==> #[trigger] new[oldk.len() + i]@ == oldm[i]@.push(e)
}

/// Copy a vector of copyable elements, element by element.
fn vec_dup<T: Copy>(v: &Vec<T>) -> (r: Vec<T>)
    ensures
        r@ == v@,
{
    let mut r: Vec<T> = Vec::new();
    let mut i: usize = 0;
    while i < v.len()
        invariant
            i <= v@.len(),
            r@ == v@.take(i as int),
        decreases v@.len() - i,
    {
        r.push(v[i]);
        proof {
            assert(v@.take(i + 1) == v@.take(i as int).push(v@[i as int]));
        }
        i += 1;
    }
    proof {
        assert(v@.take(v@.len() as int) == v@);
    }
    r
}

/// Appending a fresh element keeps a sequence duplicate-free.
proof fn lemma_push_no_dup<T>(s: Seq<T>, e: T)
    requires
        s.no_duplicates(),
        !s.contains(e),
    ensures
        s.push(e).no_duplicates(),
{
    let t = s.push(e);
    assert forall|i1: int, i2: int| 0 <= i1 < i2 < t.len() implies t[i1] != t[i2] by {
        if i2 == s.len() {
            assert(t[i1] == s[i1]);
            if t[i1] == e {
                assert(s.contains(e));
            }
        }
    }
}

/// Membership in a prefix carries over to a longer prefix.
proof fn lemma_take_contains_mono<T>(s: Seq<T>, j: int, x: T)
    requires
        0 <= j < s.len(),
        s.take(j).contains(x),
    ensures
        s.take(j + 1).contains(x),
{
    let w = choose|w: int| 0 <= w < j && #[trigger] s.take(j)[w] == x;
    assert(s.take(j + 1)[w] == x);
}

/// A well-formed entry stays well formed when the prefix grows by one.
proof fn lemma_entry_mono<T>(sub: Seq<T>, s: Seq<T>, j: int, k: int)
    requires
        entry_ok(sub, s, j, k),
        0 <= j < s.len(),
    ensures
        entry_ok(sub, s, j + 1, k),
{
    assert forall|x: T| #[trigger] sub.contains(x) implies s.take(j + 1).contains(x) by {
        lemma_take_contains_mono(s, j, x);
    }
}

/// Every entry of a predicate-closed sequence survives the filter.
proof fn lemma_filter_all<A>(s: Seq<A>, p: spec_fn(A) -> bool)
    requires
        forall|i: int| 0 <= i < s.len() ==> p(#[trigger] s[i]),
    ensures
        s.filter(p) == s,
    decreases s.len(),
{
    reveal_with_fuel(Seq::filter, 2);
    if s.len() == 0 {
        assert(s =~= Seq::<A>::empty());
    } else {
        lemma_filter_all(s.drop_last(), p);
        assert(p(s.last()));
        assert(s.drop_last().push(s.last()) =~= s);
    }
}

/// No entry of a sequence disjoint from the predicate survives the filter.
proof fn lemma_filter_none<A>(s: Seq<A>, p: spec_fn(A) -> bool)
    requires
        forall|i: int| 0 <= i < s.len() ==> !p(#[trigger] s[i]),
    ensures
        s.filter(p) == Seq::<A>::empty(),
    decreases s.len(),
{
    reveal_with_fuel(Seq::filter, 2);
    if s.len() == 0 {
        assert(s =~= Seq::<A>::empty());
    } else {
        lemma_filter_none(s.drop_last(), p);
        assert(!p(s.last()));
    }
}

/// All 2^n subsets of a duplicate-free set, each exactly once, grouped by
/// increasing cardinality: exactly C(n, k) subsets of each size k, the empty
/// subset first, and every subset of the input accounted for.
pub fn power_set<T: Copy>(set: &Vec<T>) -> (r: Vec<Vec<T>>)
    requires
        set@.no_duplicates(),
        set@.len() * two_pow(set@.len()) <= usize::MAX,
    ensures
        r@.len() == two_pow(set@.len()),
        r@[0]@ == Seq::<T>::empty(),
        forall|i: int|
            0 <= i < r@.len() ==> (#[trigger] r@[i])@.no_duplicates() && r@[i]@.to_set().subset_of(
                set@.to_set(),
            ),
        forall|i1: int, i2: int|
            #![trigger r@[i1], r@[i2]]
            0 <= i1 < i2 < r@.len() ==> r@[i1]@.to_set() != r@[i2]@.to_set(),
        forall|i1: int, i2: int|
            #![trigger r@[i1], r@[i2]]
            0 <= i1 < i2 < r@.len() ==> r@[i1]@.len() <= r@[i2]@.len(),
        forall|a: Set<T>|
            #[trigger] a.subset_of(set@.to_set()) && a.finite() ==> exists|i: int|
                0 <= i < r@.len() && (#[trigger] r@[i])@.to_set() == a,
        forall|k: int|
            0 <= k <= set@.len() ==> card_count(views(r@), k) == binom(
                set@.len(),
                k as nat,
            ) as int,
{
    let ghost s = set@;
    let n = set.len();

    // one growable level per cardinality, level 0 holding the empty subset
    let mut levels: Vec<Vec<Vec<T>>> = Vec::new();
    let mut first: Vec<Vec<T>> = Vec::new();
    let empty_sub: Vec<T> = Vec::new();
    first.push(empty_sub);
    levels.push(first);
    proof {
        assert(binom(0, 0) == 1);
        assert(levels@.len() == 1);
        assert(levels@[0]@.len() == 1);
        assert(levels@[0]@[0]@ =~= Seq::<T>::empty());
        assert(entry_ok(levels@[0]@[0]@, s, 0, 0));
        assert(level_ok(levels@[0]@, s, 0, 0));
        assert forall|a: Set<T>| #[trigger] a.subset_of(s.take(0).to_set()) && a.finite() implies
            a.len() < levels@.len() && level_has(levels@[a.len() as int]@, a) by {
            assert(s.take(0).to_set() =~= Set::<T>::empty());
            assert(a =~= Set::<T>::empty());
            assert(a.len() == 0);
            assert(levels@[0]@[0]@.to_set() =~= Set::<T>::empty());
            assert(levels@[0]@[0]@.to_set() == a);
        }
    }
    let mut k: usize = 1;
    while k <= n
        invariant
            1 <= k <= n + 1,
            n == s.len(),
            set@ == s,
            s.no_duplicates(),
            s.len() * two_pow(s.len()) <= usize::MAX,
            levels@.len() == k,
            forall|kk: int| 0 <= kk < k ==> level_ok((#[trigger] levels@[kk])@, s, 0, kk),
            levels_complete(levels@, s, 0),
        decreases n + 1 - k,
    {
        proof {
            assert forall|i: int| 0 <= i < k && (k as int) < n implies #[trigger] binom(
                n as nat,
                i as nat,
            ) * (n - i) <= usize::MAX by {
                lemma_binom_le_two_pow(n as nat, i as nat);
                assert(binom(n as nat, i as nat) * (n - i) <= n * two_pow(n as nat))
                    by (nonlinear_arith)
                    requires
                        binom(n as nat, i as nat) <= two_pow(n as nat),
                        0 <= i < n,
                {}
            }
        }
        let cap = binomial_approx(n, k);
        let ghost before = levels@;
        levels.push(Vec::with_capacity(cap));
        proof {
            assert(binom(0, k as nat) == 0);
            assert forall|kk: int| 0 <= kk < k + 1 implies level_ok(
                (#[trigger] levels@[kk])@,
                s,
                0,
                kk,
            ) by {
                if kk < k {
                    assert(levels@[kk] == before[kk]);
                } else {
                    assert(levels@[kk]@ =~= Seq::<Vec<T>>::empty());
                }
            }
            assert forall|a: Set<T>| #[trigger] a.subset_of(s.take(0).to_set()) && a.finite()
                implies a.len() < levels@.len() && level_has(levels@[a.len() as int]@, a) by {
                assert(a.len() < before.len() && level_has(before[a.len() as int]@, a));
                assert(levels@[a.len() as int] == before[a.len() as int]);
            }
        }
        proof {
            crate::binomial::lemma_two_pow_pos((n - 1) as nat);
            assert(two_pow(n as nat) >= 2);
            assert(n * two_pow(n as nat) >= n * 2) by (nonlinear_arith)
                requires
                    two_pow(n as nat) >= 2,
                    n >= 1,
            {}
        }
        k += 1;
    }

    // fold each element into the levels, largest cardinality first
    let mut j: usize = 0;
    while j < n
        invariant
            j <= n,
            n == s.len(),
            set@ == s,
            s.no_duplicates(),
            levels@.len() == n + 1,
            forall|kk: int| 0 <= kk <= n ==> level_ok((#[trigger] levels@[kk])@, s, j as int, kk),
            levels_complete(levels@, s, j as int),
        decreases n - j,
    {
        let elem = set[j];
        let ghost lv_old = levels@;
        let mut cap: usize = n;
        while cap >= 1
            invariant
                cap <= n,
                n == s.len(),
                set@ == s,
                s.no_duplicates(),
                j < n,
                elem == s[j as int],
                levels@.len() == n + 1,
                lv_old.len() == n + 1,
                forall|kk: int| 0 <= kk <= n ==> level_ok((#[trigger] lv_old[kk])@, s, j as int, kk),
                forall|kk: int| 0 <= kk <= cap ==> levels@[kk] == lv_old[kk],
                forall|kk: int|
                    cap < kk <= n ==> extended(
                        (#[trigger] levels@[kk])@,
                        lv_old[kk]@,
                        lv_old[kk - 1]@,
                        elem,
                    ),
            decreases cap,
        {
            let ghost pre = levels@;
            let m = levels[cap - 1].len();
            let mut ext: Vec<Vec<T>> = Vec::new();
            let mut i: usize = 0;
            while i < m
                invariant
                    i <= m,
                    1 <= cap <= n,
                    levels@ == pre,
                    levels@.len() == n + 1,
                    m == levels@[cap - 1]@.len(),
                    ext@.len() == i,
                    forall|w: int|
                        0 <= w < i ==> (#[trigger] ext@[w])@ == levels@[cap - 1]@[w]@.push(elem),
                decreases m - i,
            {
                let mut tmp = vec_dup(&levels[cap - 1][i]);
                tmp.push(elem);
                ext.push(tmp);
                i += 1;
            }
            let mut dst = levels.remove(cap);
            let ghost dst_before = dst@;
            dst.append(&mut ext);
            let ghost dstv = dst@;
            levels.insert(cap, dst);
            proof {
                assert forall|kk: int| 0 <= kk <= n implies #[trigger] levels@[kk] == (if kk
                    == cap as int {
                    levels@[cap as int]
                } else {
                    pre[kk]
                }) by {
                    if kk < cap as int {
                        assert(pre.remove(cap as int)[kk] == pre[kk]);
                    } else if kk > cap as int {
                        assert(pre.remove(cap as int)[kk - 1] == pre[kk]);
                    }
                }
                assert(levels@[cap as int]@ == dstv);
                assert(dst_before == lv_old[cap as int]@);
                assert(extended(dstv, lv_old[cap as int]@, lv_old[cap as int - 1]@, elem));
            }
            cap -= 1;
        }
        proof {
            let sj = s.take(j as int);
            let sj1 = s.take(j as int + 1);
            assert(sj1 == sj.push(s[j as int]));
            assert(sj1.to_set() == sj.to_set().insert(elem));
            assert(!sj.contains(elem)) by {
                if sj.contains(elem) {
                    let w = choose|w: int| 0 <= w < j && #[trigger] sj[w] == elem;
                    assert(s[w] == s[j as int]);
                }
            }
            // each level is well formed for the longer prefix
            assert forall|kk: int| 0 <= kk <= n implies level_ok(
                (#[trigger] levels@[kk])@,
                s,
                j as int + 1,
                kk,
            ) by {
                if kk == 0 {
                    assert(levels@[0] == lv_old[0]);
                    assert(binom((j + 1) as nat, 0) == 1);
                    assert forall|i: int| 0 <= i < levels@[0]@.len() implies entry_ok(
                        (#[trigger] levels@[0]@[i])@,
                        s,
                        j as int + 1,
                        0,
                    ) by {
                        lemma_entry_mono(levels@[0]@[i]@, s, j as int, 0);
                    }
                } else {
                    let new = levels@[kk]@;
                    let oldk = lv_old[kk]@;
                    let oldm = lv_old[kk - 1]@;
                    assert(extended(new, oldk, oldm, elem));
                    assert(binom((j + 1) as nat, kk as nat) == binom(j as nat, (kk - 1) as nat)
                        + binom(j as nat, kk as nat));
                    // entries
                    assert forall|i: int| 0 <= i < new.len() implies entry_ok(
                        (#[trigger] new[i])@,
                        s,
                        j as int + 1,
                        kk,
                    ) by {
                        if i < oldk.len() {
                            assert(new[i]@ == oldk[i]@);
                            lemma_entry_mono(oldk[i]@, s, j as int, kk);
                        } else {
                            let w = i - oldk.len();
                            assert(new[oldk.len() + w]@ == oldm[w]@.push(elem));
                            assert(new[i]@ == oldm[w]@.push(elem));
                            assert(entry_ok(oldm[w]@, s, j as int, kk - 1));
                            assert(!oldm[w]@.contains(elem));
                            lemma_push_no_dup(oldm[w]@, elem);
                            assert forall|x: T| #[trigger] new[i]@.contains(x) implies
                                sj1.contains(x) by {
                                let u = choose|u: int|
                                    0 <= u < new[i]@.len() && new[i]@[u] == x;
                                if u < oldm[w]@.len() {
                                    assert(oldm[w]@.contains(x));
                                    lemma_take_contains_mono(s, j as int, x);
                                } else {
                                    assert(x == elem);
                                    assert(sj1[j as int] == elem);
                                }
                            }
                        }
                    }
                    // pairwise distinct
                    assert forall|i1: int, i2: int|
                        #![trigger new[i1], new[i2]]
                        0 <= i1 < i2 < new.len() implies new[i1]@.to_set() != new[i2]@.to_set() by {
                        if i2 < oldk.len() {
                            assert(new[i1]@ == oldk[i1]@ && new[i2]@ == oldk[i2]@);
                        } else if i1 < oldk.len() {
                            let w2 = i2 - oldk.len();
                            assert(new[oldk.len() + w2]@ == oldm[w2]@.push(elem));
                            assert(new[i2]@ == oldm[w2]@.push(elem));
                            assert(new[i2]@.to_set().contains(elem));
                            assert(!new[i1]@.to_set().contains(elem)) by {
                                if new[i1]@.contains(elem) {
                                    assert(entry_ok(oldk[i1]@, s, j as int, kk));
                                    assert(sj.contains(elem));
                                }
                            }
                        } else {
                            let w1 = i1 - oldk.len();
                            let w2 = i2 - oldk.len();
                            assert(new[oldk.len() + w1]@ == oldm[w1]@.push(elem));
                            assert(new[oldk.len() + w2]@ == oldm[w2]@.push(elem));
                            assert(new[i1]@ == oldm[w1]@.push(elem));
                            assert(new[i2]@ == oldm[w2]@.push(elem));
                            assert(!oldm[w1]@.contains(elem) && !oldm[w2]@.contains(elem));
                            if new[i1]@.to_set() == new[i2]@.to_set() {
                                assert(oldm[w1]@.to_set() =~= oldm[w2]@.to_set()) by {
                                    assert(new[i1]@.to_set() == oldm[w1]@.to_set().insert(elem));
                                    assert(new[i2]@.to_set() == oldm[w2]@.to_set().insert(elem));
                                    assert forall|x: T| oldm[w1]@.to_set().contains(x) implies
                                        oldm[w2]@.to_set().contains(x) by {
                                        assert(new[i2]@.to_set().contains(x));
                                        assert(x != elem);
                                    }
                                    assert forall|x: T| oldm[w2]@.to_set().contains(x) implies
                                        oldm[w1]@.to_set().contains(x) by {
                                        assert(new[i1]@.to_set().contains(x));
                                        assert(x != elem);
                                    }
                                }
                            }
                        }
                    }
                }
            }
            // completeness for the longer prefix
            assert forall|a: Set<T>| #[trigger] a.subset_of(sj1.to_set()) && a.finite() implies
                a.len() < levels@.len() && level_has(levels@[a.len() as int]@, a) by {
                vstd::set_lib::lemma_len_subset(a, sj1.to_set());
                sj1.lemma_cardinality_of_set();
                assert(a.len() <= j + 1);
                if a.contains(elem) {
                    let a0 = a.remove(elem);
                    assert(a0.subset_of(sj.to_set())) by {
                        assert forall|x: T| a0.contains(x) implies sj.to_set().contains(x) by {
                            assert(a.contains(x) && x != elem);
                            assert(sj1.to_set().contains(x));
                        }
                    }
                    assert(a0.len() == a.len() - 1);
                    assert(a0.len() < lv_old.len() && level_has(lv_old[a0.len() as int]@, a0));
                    let i = choose|i: int|
                        0 <= i < lv_old[a0.len() as int]@.len() && (#[trigger] lv_old[a0.len(
                        ) as int]@[i])@.to_set() == a0;
                    let kk = a.len() as int;
                    assert(extended(levels@[kk]@, lv_old[kk]@, lv_old[kk - 1]@, elem));
                    let pos = lv_old[kk]@.len() + i;
                    assert(levels@[kk]@[pos]@ == lv_old[kk - 1]@[i]@.push(elem));
                    assert(levels@[kk]@[pos]@.to_set() == a0.insert(elem));
                    assert(a0.insert(elem) =~= a);
                    assert(level_has(levels@[kk]@, a));
                } else {
                    assert(a.subset_of(sj.to_set())) by {
                        assert forall|x: T| a.contains(x) implies sj.to_set().contains(x) by {
                            assert(sj1.to_set().contains(x));
                            assert(x != elem);
                        }
                    }
                    assert(a.len() < lv_old.len() && level_has(lv_old[a.len() as int]@, a));
                    let i = choose|i: int|
                        0 <= i < lv_old[a.len() as int]@.len() && (#[trigger] lv_old[a.len(
                        ) as int]@[i])@.to_set() == a;
                    let kk = a.len() as int;
                    if kk == 0 {
                        assert(levels@[0] == lv_old[0]);
                        assert(level_has(levels@[0]@, a));
                    } else {
                        assert(extended(levels@[kk]@, lv_old[kk]@, lv_old[kk - 1]@, elem));
                        assert(levels@[kk]@[i]@ == lv_old[kk]@[i]@);
                        assert(level_has(levels@[kk]@, a));
                    }
                }
            }
        }
        j += 1;
    }

    proof {
        assert(s.take(n as int) == s);
    }

    // concatenate the levels in cardinality order
    let ghost fin = levels@;
    proof {
        assert(levels@ =~= fin.skip(0));
    }
    let mut out: Vec<Vec<T>> = Vec::new();
    let mut done: usize = 0;
    while done <= n
        invariant
            done <= n + 1,
            n == s.len(),
            set@ == s,
            s.len() * two_pow(s.len()) <= usize::MAX,
            levels@ == fin.skip(done as int),
            fin.len() == n + 1,
            forall|kk: int| 0 <= kk <= n ==> level_ok((#[trigger] fin[kk])@, s, n as int, kk),
            forall|a: Set<T>|
                #[trigger] a.subset_of(s.to_set()) && a.finite() ==> a.len() <= n && level_has(
                    fin[a.len() as int]@,
                    a,
                ),
            out@.len() == binom_sum(n as nat, done as nat),
            forall|i: int|
                0 <= i < out@.len() ==> (#[trigger] out@[i])@.no_duplicates() && out@[i]@.len()
                    < done && out@[i]@.to_set().subset_of(s.to_set()),
            forall|i1: int, i2: int|
                #![trigger out@[i1], out@[i2]]
                0 <= i1 < i2 < out@.len() ==> out@[i1]@.len() <= out@[i2]@.len(),
            forall|i1: int, i2: int|
                #![trigger out@[i1], out@[i2]]
                0 <= i1 < i2 < out@.len() ==> out@[i1]@.to_set() != out@[i2]@.to_set(),
            done >= 1 ==> out@.len() >= 1 && out@[0]@ == Seq::<T>::empty(),
            forall|a: Set<T>|
                #[trigger] a.subset_of(s.to_set()) && a.finite() && a.len() < done ==> exists|
                    i: int,
                |
                    0 <= i < out@.len() && (#[trigger] out@[i])@.to_set() == a,
            forall|kk: int|
                0 <= kk <= n ==> card_count(views(out@), kk) == (if kk < done {
                    binom(n as nat, kk as nat) as int
                } else {
                    0
                }),
        decreases n + 1 - done,
    {
        let ghost out_old = out@;
        let mut lv = levels.remove(0);
        let ghost lvv = lv@;
        proof {
            assert(fin.skip(done as int)[0] == fin[done as int]);
            assert(lvv == fin[done as int]@);
            assert(level_ok(lvv, s, n as int, done as int));
            assert(levels@ =~= fin.skip(done as int + 1));
        }
        out.append(&mut lv);
        proof {
            assert(out@ == out_old + lvv);
            // every entry of this level is a subset of s of size done
            assert forall|w: int| 0 <= w < lvv.len() implies entry_ok(
                (#[trigger] lvv[w])@,
                s,
                n as int,
                done as int,
            ) by {}
            // entries of s's full prefix are entries of s
            assert forall|i: int| 0 <= i < out@.len() implies (#[trigger] out@[i])@.no_duplicates()
                && out@[i]@.len() < done + 1 && out@[i]@.to_set().subset_of(s.to_set()) by {
                if i >= out_old.len() {
                    let w = i - out_old.len();
                    assert(out@[i] == lvv[w]);
                    assert(entry_ok(lvv[w]@, s, n as int, done as int));
                    assert forall|x: T| out@[i]@.to_set().contains(x) implies s.to_set().contains(
                        x,
                    ) by {
                        assert(out@[i]@.contains(x));
                    }
                }
            }
            // lengths of earlier entries are strictly below this level's
            assert forall|i1: int, i2: int|
                #![trigger out@[i1], out@[i2]]
                0 <= i1 < i2 < out@.len() implies out@[i1]@.len() <= out@[i2]@.len() && out@[i1]@.to_set()
                != out@[i2]@.to_set() by {
                if i2 >= out_old.len() {
                    let w2 = i2 - out_old.len();
                    assert(out@[i2] == lvv[w2]);
                    assert(entry_ok(lvv[w2]@, s, n as int, done as int));
                    if i1 >= out_old.len() {
                        let w1 = i1 - out_old.len();
                        assert(out@[i1] == lvv[w1]);
                    } else {
                        assert(out@[i1] == out_old[i1]);
                        assert(out@[i1]@.len() < done);
                        // distinct sizes give distinct element sets
                        out@[i1]@.unique_seq_to_set();
                        out@[i2]@.unique_seq_to_set();
                    }
                } else {
                    assert(out@[i1] == out_old[i1] && out@[i2] == out_old[i2]);
                }
            }
            // the empty subset heads the result
            if done == 0 {
                assert(binom(n as nat, 0) == 1);
                assert(out@[0] == lvv[0]);
                assert(entry_ok(lvv[0]@, s, n as int, 0));
                assert(out@[0]@ =~= Seq::<T>::empty());
            } else {
                assert(out@[0] == out_old[0]);
            }
            // coverage: subsets of size done are found in the appended level
            assert forall|a: Set<T>|
                #[trigger] a.subset_of(s.to_set()) && a.finite() && a.len() < done + 1 implies
                exists|i: int| 0 <= i < out@.len() && (#[trigger] out@[i])@.to_set() == a by {
                if a.len() < done {
                    let i = choose|i: int|
                        0 <= i < out_old.len() && (#[trigger] out_old[i])@.to_set() == a;
                    assert(out@[i] == out_old[i]);
                } else {
                    assert(level_has(fin[done as int]@, a));
                    let w = choose|w: int|
                        0 <= w < lvv.len() && (#[trigger] lvv[w])@.to_set() == a;
                    assert(out@[out_old.len() + w] == lvv[w]);
                }
            }
            // cardinality counts
            assert(views(out@) =~= views(out_old) + views(lvv));
            assert forall|kk: int| 0 <= kk <= n implies card_count(views(out@), kk) == (if kk
                < done + 1 {
                binom(n as nat, kk as nat) as int
            } else {
                0
            }) by {
                let p = len_is::<T>(kk);
                Seq::filter_distributes_over_add(views(out_old), views(lvv), p);
                if kk == done {
                    assert forall|w: int| 0 <= w < views(lvv).len() implies p(
                        #[trigger] views(lvv)[w],
                    ) by {
                        assert(views(lvv)[w] == lvv[w]@);
                        assert(entry_ok(lvv[w]@, s, n as int, done as int));
                        assert(lvv[w]@.len() == done);
                    }
                    lemma_filter_all(views(lvv), p);
                    assert(views(lvv).filter(p).len() == lvv.len());
                    assert(lvv.len() == binom(n as nat, done as nat));
                } else {
                    assert forall|w: int| 0 <= w < views(lvv).len() implies !p(
                        #[trigger] views(lvv)[w],
                    ) by {
                        assert(views(lvv)[w] == lvv[w]@);
                        assert(entry_ok(lvv[w]@, s, n as int, done as int));
                        assert(lvv[w]@.len() == done);
                    }
                    lemma_filter_none(views(lvv), p);
                    assert(views(lvv).filter(p).len() == 0);
                }
                assert(views(out@) == views(out_old) + views(lvv));
                assert(views(out@).filter(p).len() == views(out_old).filter(p).len() + views(
                    lvv,
                ).filter(p).len());
                assert(card_count(views(out_old), kk) == (if kk < done {
                    binom(n as nat, kk as nat) as int
                } else {
                    0
                }));
            }
        }
        proof {
            if n >= 1 {
                crate::binomial::lemma_two_pow_pos((n - 1) as nat);
                assert(two_pow(n as nat) >= 2);
                assert(n * two_pow(n as nat) >= n * 2) by (nonlinear_arith)
                    requires
                        two_pow(n as nat) >= 2,
                        n >= 1,
                {}
            }
        }
        done += 1;
    }
    proof {
        lemma_binom_row_sum(n as nat);
        assert forall|a: Set<T>| #[trigger] a.subset_of(set@.to_set()) && a.finite() implies
            exists|i: int| 0 <= i < out@.len() && (#[trigger] out@[i])@.to_set() == a by {
            assert(a.len() <= n);
        }
    }
    out
}

} // verus!
