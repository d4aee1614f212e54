use vstd::prelude::*;

verus! {

/// Values ordered by one integer key.
pub trait Keyed: Sized {
    /// The key that orders the value.
    spec fn key(&self) -> u128;

    /// The key, computed.
    fn sort_key(&self) -> (k: u128)
        ensures
            k == self.key(),
    ;
}

/// The keys never increase from left to right.
pub open spec fn sorted_desc<T: Keyed>(s: Seq<T>) -> bool {
    forall|i: int, j: int| 0 <= i < j < s.len() ==> (#[trigger] s[i]).key() >= (#[trigger] s[j]).key()
}

/// The values of `s` whose key is `k`, in their order in `s`.
pub open spec fn with_key<T: Keyed>(s: Seq<T>, k: u128) -> Seq<T>
    decreases s.len(),
{
    if s.len() == 0 {
        Seq::empty()
    } else if s.last().key() == k {
        with_key(s.drop_last(), k).push(s.last())
    } else {
        with_key(s.drop_last(), k)
    }
}

/// `r` is `s` stably sorted by decreasing key: sorted, and for every key the
/// values with that key come in the same order as in `s`.
pub open spec fn is_stable_desc_sort<T: Keyed>(r: Seq<T>, s: Seq<T>) -> bool {
    &&& r.len() == s.len()
    &&& sorted_desc(r)
    &&& forall|k: u128| #[trigger] with_key(r, k) == with_key(s, k)
}

/// Picking the values of one key distributes over concatenation.
pub proof fn lemma_with_key_concat<T: Keyed>(a: Seq<T>, b: Seq<T>, k: u128)
    ensures
        with_key(a + b, k) == with_key(a, k) + with_key(b, k),
    decreases b.len(),
{
    if b.len() == 0 {
        assert(a + b =~= a);
        assert(with_key(a, k) + with_key(b, k) =~= with_key(a, k));
    } else {
        assert((a + b).drop_last() =~= a + b.drop_last());
        assert((a + b).last() == b.last());
        lemma_with_key_concat(a, b.drop_last(), k);
        if b.last().key() == k {
            assert(with_key(a, k) + with_key(b, k) =~= (with_key(a, k) + with_key(b.drop_last(), k)).push(b.last()));
        }
    }
}

/// No value of `s` has key `k`: picking that key gives nothing.
pub proof fn lemma_with_key_none<T: Keyed>(s: Seq<T>, k: u128)
    requires
        forall|i: int| 0 <= i < s.len() ==> (#[trigger] s[i]).key() != k,
    ensures
        with_key(s, k) == Seq::<T>::empty(),
    decreases s.len(),
{
    if s.len() > 0 {
        assert(s.last() == s[s.len() - 1]);
        lemma_with_key_none(s.drop_last(), k);
    }
}

/// A single value: picking its key gives it, any other key gives nothing.
pub proof fn lemma_with_key_single<T: Keyed>(x: T, k: u128)
    ensures
        with_key(seq![x], k) == if x.key() == k { seq![x] } else { Seq::<T>::empty() },
{
    assert(seq![x].drop_last() =~= Seq::<T>::empty());
    assert(seq![x].last() == x);
    assert(with_key(Seq::<T>::empty(), k) == Seq::<T>::empty());
    if x.key() == k {
        assert(Seq::<T>::empty().push(x) =~= seq![x]);
    }
}

/// How many times `e` occurs in `s`.
pub open spec fn count_of<T>(s: Seq<T>, e: T) -> nat
    decreases s.len(),
{
    if s.len() == 0 {
        0
    } else {
        count_of(s.drop_last(), e) + if s.last() == e { 1nat } else { 0nat }
    }
}

/// A value occurs in `s` exactly when it is counted there.
pub proof fn lemma_count_contains<T>(s: Seq<T>, e: T)
    ensures
        (count_of(s, e) > 0) <==> (exists|i: int| 0 <= i < s.len() && s[i] == e),
    decreases s.len(),
{
    if s.len() > 0 {
        let init = s.drop_last();
        lemma_count_contains(init, e);
        if exists|i: int| 0 <= i < init.len() && init[i] == e {
            let i = choose|i: int| 0 <= i < init.len() && init[i] == e;
            assert(s[i] == e);
        }
        if exists|i: int| 0 <= i < s.len() && s[i] == e {
            let i = choose|i: int| 0 <= i < s.len() && s[i] == e;
            if i < s.len() - 1 {
                assert(init[i] == e);
            }
        }
    }
}

/// Two positions holding `e` make it counted at least twice, and the other way round.
pub proof fn lemma_count_two<T>(s: Seq<T>, e: T)
    ensures
        (count_of(s, e) >= 2) <==> (exists|i: int, j: int| 0 <= i < j < s.len() && s[i] == e && s[j] == e),
    decreases s.len(),
{
    if s.len() > 0 {
        let init = s.drop_last();
        lemma_count_two(init, e);
        lemma_count_contains(init, e);
        if count_of(s, e) >= 2 {
            if s.last() == e {
                let i = choose|i: int| 0 <= i < init.len() && init[i] == e;
                assert(s[i] == e && s[s.len() - 1] == e);
            } else {
                let (i, j) = choose|i: int, j: int| 0 <= i < j < init.len() && init[i] == e && init[j] == e;
                assert(s[i] == e && s[j] == e);
            }
        }
        if exists|i: int, j: int| 0 <= i < j < s.len() && s[i] == e && s[j] == e {
            let (i, j) = choose|i: int, j: int| 0 <= i < j < s.len() && s[i] == e && s[j] == e;
            if j == s.len() - 1 {
                assert(init[i] == e);
            } else {
                assert(init[i] == e && init[j] == e);
            }
        }
    }
}

/// Picking one key keeps the count of a value with that key and drops the others.
pub proof fn lemma_count_with_key<T: Keyed>(s: Seq<T>, k: u128, e: T)
    ensures
        count_of(with_key(s, k), e) == if e.key() == k { count_of(s, e) } else { 0 },
    decreases s.len(),
{
    if s.len() > 0 {
        lemma_count_with_key(s.drop_last(), k, e);
        if s.last().key() == k {
            let w = with_key(s.drop_last(), k);
            assert(w.push(s.last()).drop_last() =~= w);
        }
    }
}

/// A stable sort holds every value as often as the sorted sequence does.
pub proof fn lemma_stable_sort_counts<T: Keyed>(r: Seq<T>, s: Seq<T>, e: T)
    requires
        is_stable_desc_sort(r, s),
    ensures
        count_of(r, e) == count_of(s, e),
{
    lemma_count_with_key(r, e.key(), e);
    lemma_count_with_key(s, e.key(), e);
    assert(with_key(r, e.key()) == with_key(s, e.key()));
}

/// Sorts by decreasing key, keeping the order of values with equal keys.
pub fn sort_desc_stable<T: Keyed>(v: Vec<T>) -> (r: Vec<T>)
    ensures
        is_stable_desc_sort(r@, v@),
{
    let ghost orig = v@;
    let mut input = v;
    let mut out: Vec<T> = Vec::new();
    let mut n: usize = 0;
    // take the values from the back of `input`, so that the taken ones form a suffix
    let total: usize = input.len();
    let mut rev: Vec<T> = Vec::new();
    while input.len() > 0
        invariant
            input@.len() + rev@.len() == orig.len(),
            input@ == orig.take(input@.len() as int),
            forall|i: int| 0 <= i < rev@.len() ==> rev@[i] == orig[orig.len() - 1 - i],
        decreases input@.len(),
    {
        let x = input.pop().unwrap();
        assert(input@ =~= orig.take(input@.len() as int));
        rev.push(x);
    }
    // `rev` holds `orig` back to front; insert its values from its back, i.e. in the order of `orig`
    while rev.len() > 0
        invariant
            n + rev@.len() == orig.len(),
            forall|i: int| 0 <= i < rev@.len() ==> rev@[i] == orig[orig.len() - 1 - i],
            sorted_desc(out@),
            forall|k: u128| #[trigger] with_key(out@, k) == with_key(orig.take(n as int), k),
            n <= orig.len(),
            orig.len() == total,
            out@.len() == n,
        decreases rev@.len(),
    {
        let x = rev.pop().unwrap();
        assert(x == orig[n as int]);
        let xk = x.sort_key();
        let mut p: usize = 0;
        while p < out.len() && out[p].sort_key() >= xk
            invariant
                p <= out@.len(),
                forall|i: int| 0 <= i < p ==> (#[trigger] out@[i]).key() >= xk,
            decreases out@.len() - p,
        {
            p = p + 1;
        }
        let ghost old_out = out@;
        proof {
            assert forall|i: int| p <= i < old_out.len() implies (#[trigger] old_out[i]).key() < xk by {
                if p < old_out.len() {
                    assert(old_out[p as int].key() < xk);
                    if i > p {
                        assert(old_out[p as int].key() >= old_out[i].key());
                    }
                }
            }
        }
        out.insert(p, x);
        proof {
            let pre = old_out.take(p as int);
            let post = old_out.skip(p as int);
            assert(old_out =~= pre + post);
            assert(out@ =~= pre + seq![x] + post);
            assert(orig.take(n + 1) =~= orig.take(n as int) + seq![x]);
            assert forall|k: u128| #[trigger] with_key(out@, k) == with_key(orig.take(n + 1), k) by {
                lemma_with_key_concat(pre + seq![x], post, k);
                lemma_with_key_concat(pre, seq![x], k);
                lemma_with_key_concat(pre, post, k);
                lemma_with_key_concat(orig.take(n as int), seq![x], k);
                lemma_with_key_single(x, k);
                if k == xk {
                    assert forall|i: int| 0 <= i < post.len() implies (#[trigger] post[i]).key() != k by {
                        assert(post[i] == old_out[p + i]);
                    }
                    lemma_with_key_none(post, k);
                    assert(with_key(pre, k) + seq![x] + Seq::<T>::empty() =~= with_key(pre, k) + seq![x]);
                    assert(with_key(pre, k) + Seq::<T>::empty() =~= with_key(pre, k));
                } else {
                    assert(with_key(pre, k) + Seq::<T>::empty() =~= with_key(pre, k));
                }
            }
            assert forall|i: int, j: int| 0 <= i < j < out@.len() implies (#[trigger] out@[i]).key() >= (#[trigger] out@[j]).key() by {
                if j < p {
                    assert(out@[i] == old_out[i] && out@[j] == old_out[j]);
                } else if j == p {
                    assert(out@[i] == old_out[i]);
                } else if i < p {
                    assert(out@[i] == old_out[i] && out@[j] == old_out[j - 1]);
                } else if i == p {
                    assert(out@[j] == old_out[j - 1]);
                } else {
                    assert(out@[i] == old_out[i - 1] && out@[j] == old_out[j - 1]);
                }
            }
        }
        n = n + 1;
    }
    assert(orig.take(n as int) =~= orig);
    out
}

} // verus!
