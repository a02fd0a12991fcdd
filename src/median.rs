use vstd::prelude::*;
use vstd::relations::{sorted_by, total_ordering};
use vstd::seq_lib::{group_to_multiset_ensures, lemma_sorted_unique, to_multiset_len};
use crate::order::{key_of, keys_of, lemma_same_key_same_bits, order_keys, SIGN_BIT};

verus! {

broadcast use group_to_multiset_ensures;

/// A key together with the position it came from.
pub type Tagged = (u64, usize);

/// Order of tagged keys: by key, then by position. Sorting by it is a stable
/// sort of the keys.
pub open spec fn tagged_leq(a: Tagged, b: Tagged) -> bool {
    a.0 < b.0 || (a.0 == b.0 && a.1 <= b.1)
}

/// Plain order of keys.
pub open spec fn key_leq(a: u64, b: u64) -> bool {
    a <= b
}

/// Each key of `keys` with its position.
pub open spec fn tagged(keys: Seq<u64>) -> Seq<Tagged> {
    Seq::new(keys.len(), |i: int| (keys[i], i as usize))
}

/// The position of the middle of `n` sorted items, taking the lower of the two
/// middle ones when `n` is even.
pub open spec fn middle(n: nat) -> int {
    (n as int - 1) / 2
}

/// The position in `keys` of its lower median: the item that a stable
/// ascending sort puts at the middle; none for an empty sequence.
pub open spec fn lower_median_index(keys: Seq<u64>) -> Option<usize> {
    if keys.len() == 0 {
        None
    } else {
        Some(tagged(keys).sort_by(|a: Tagged, b: Tagged| tagged_leq(a, b))[middle(keys.len())].1)
    }
}

/// The lower median key of `keys`: the key at the middle of the ascending
/// order; none for an empty sequence.
pub open spec fn lower_median_key(keys: Seq<u64>) -> Option<u64> {
    if keys.len() == 0 {
        None
    } else {
        Some(keys.sort_by(|a: u64, b: u64| key_leq(a, b))[middle(keys.len())])
    }
}

/// The order of tagged keys is total.
pub proof fn lemma_tagged_leq_total()
    ensures
        total_ordering(|a: Tagged, b: Tagged| tagged_leq(a, b)),
{
}

/// The order of keys is total.
pub proof fn lemma_key_leq_total()
    ensures
        total_ordering(|a: u64, b: u64| key_leq(a, b)),
{
}

/// Sorts the tagged keys of `keys` by key, keeping positions in order among
/// equal keys.
fn sorted_tagged(keys: &Vec<u64>) -> (r: Vec<Tagged>)
    ensures
        r@ == tagged(keys@).sort_by(|a: Tagged, b: Tagged| tagged_leq(a, b)),
{
    let ghost leq = |a: Tagged, b: Tagged| tagged_leq(a, b);
    let ghost all = tagged(keys@);
    let mut out: Vec<Tagged> = Vec::with_capacity(keys.len());
    let mut i: usize = 0;
    while i < keys.len()
        invariant
            i <= keys.len(),
            all == tagged(keys@),
            leq == (|a: Tagged, b: Tagged| tagged_leq(a, b)),
            out@.to_multiset() == all.take(i as int).to_multiset(),
            sorted_by(out@, leq),
            forall|q: int| 0 <= q < out@.len() ==> (#[trigger] out@[q]).1 < i,
        decreases keys.len() - i,
    {
        let k = keys[i];
        // Every item placed so far came from an earlier position, so the new
        // one goes after all items with an equal key.
        let mut p: usize = 0;
        while p < out.len() && out[p].0 <= k
            invariant
                p <= out@.len(),
                sorted_by(out@, leq),
                leq == (|a: Tagged, b: Tagged| tagged_leq(a, b)),
                forall|q: int| 0 <= q < out@.len() ==> (#[trigger] out@[q]).1 < i,
                forall|q: int| 0 <= q < p ==> (#[trigger] out@[q]).0 <= k,
            decreases out@.len() - p,
        {
            p += 1;
        }
        assert(p == out@.len() || out@[p as int].0 > k);
        let ghost before = out@;
        out.insert(p, (k, i));
        proof {
            assert(all.take(i + 1) =~= all.take(i as int).push(all[i as int]));
            assert forall|a: int, b: int| 0 <= a < b < out@.len() implies #[trigger] leq(out@[a], out@[b]) by {
                if b < p {
                    assert(out@[a] == before[a] && out@[b] == before[b]);
                    assert(leq(before[a], before[b]));
                } else if a > p {
                    assert(out@[a] == before[a - 1] && out@[b] == before[b - 1]);
                    assert(leq(before[a - 1], before[b - 1]));
                } else if a == p {
                    assert(out@[b] == before[b - 1]);
                    if b - 1 > p {
                        assert(leq(before[p as int], before[b - 1]));
                        assert(tagged_leq(before[p as int], before[b - 1]));
                    }
                    assert(before[b - 1].0 > k);
                } else if b == p {
                    assert(out@[a] == before[a]);
                    assert(before[a].0 <= k && before[a].1 < i);
                } else {
                    assert(out@[a] == before[a] && out@[b] == before[b - 1]);
                    if b - 1 > p {
                        assert(leq(before[p as int], before[b - 1]));
                        assert(tagged_leq(before[p as int], before[b - 1]));
                    }
                    assert(before[a].0 <= k && before[b - 1].0 > k);
                }
            }
        }
        i += 1;
    }
    proof {
        assert(all.take(i as int) =~= all);
        lemma_tagged_leq_total();
        all.lemma_sort_by_ensures(leq);
        lemma_sorted_unique(out@, all.sort_by(leq), leq);
    }
    out
}

/// The position in `keys` of its lower median, as a stable ascending sort
/// would place it; `None` exactly when `keys` is empty.
pub fn median_index(keys: &Vec<u64>) -> (r: Option<usize>)
    ensures
        r == lower_median_index(keys@),
        r.is_none() <==> keys@.len() == 0,
        r matches Some(i) ==> i < keys@.len(),
{
    if keys.len() == 0 {
        None
    } else {
        let sorted = sorted_tagged(keys);
        proof {
            lemma_sorted_tagged_members(keys@);
        }
        Some(sorted[(keys.len() - 1) / 2].1)
    }
}

/// The lower median of the numbers whose binary64 bit patterns are `bits`, as
/// the position of the chosen number in `bits`; `None` exactly when `bits` is
/// empty.
pub fn median_of_bits(bits: &Vec<u64>) -> (r: Option<usize>)
    ensures
        r == lower_median_index(keys_of(bits@)),
        r.is_none() <==> bits@.len() == 0,
        r matches Some(i) ==> i < bits@.len(),
{
    let keys = order_keys(bits);
    median_index(&keys)
}

/// The sorted tagged keys hold the tags of `keys` and nothing else.
proof fn lemma_sorted_tagged_members(keys: Seq<u64>)
    requires
        keys.len() <= usize::MAX,
    ensures
        ({
            let s = tagged(keys).sort_by(|a: Tagged, b: Tagged| tagged_leq(a, b));
            &&& s.len() == keys.len()
            &&& forall|j: int| 0 <= j < s.len() ==> (#[trigger] s[j]).1 < keys.len() && s[j].0 == keys[s[j].1 as int]
        }),
{
    let leq = |a: Tagged, b: Tagged| tagged_leq(a, b);
    let all = tagged(keys);
    let s = all.sort_by(leq);
    lemma_tagged_leq_total();
    all.lemma_sort_by_ensures(leq);
    assert(s.len() == keys.len()) by {
        assert(s.to_multiset().len() == all.to_multiset().len());
    }
    assert forall|j: int| 0 <= j < s.len() implies (#[trigger] s[j]).1 < keys.len() && s[j].0 == keys[s[j].1 as int] by {
        assert(s.contains(s[j]));
        assert(all.contains(s[j]));
        let idx = choose|idx: int| 0 <= idx < all.len() && all[idx] == s[j];
        assert(all[idx] == (keys[idx], idx as usize));
    }
}

/// Mapping each item preserves equality of contents.
proof fn lemma_map_same_contents<A, B>(x: Seq<A>, y: Seq<A>, f: spec_fn(A) -> B)
    requires
        x.to_multiset() == y.to_multiset(),
    ensures
        x.map_values(f).to_multiset() == y.map_values(f).to_multiset(),
    decreases x.len(),
{
    broadcast use vstd::multiset::group_multiset_axioms;

    if x.len() == 0 {
        assert(y.to_multiset().len() == 0);
        assert(x.map_values(f) =~= y.map_values(f));
    } else {
        let a = x.last();
        let xs = x.drop_last();
        assert(x =~= xs.push(a));
        assert(y.to_multiset().count(a) > 0);
        assert(y.contains(a));
        let i = choose|i: int| 0 <= i < y.len() && y[i] == a;
        let ys = y.remove(i);
        assert(ys.to_multiset() =~= xs.to_multiset());
        lemma_map_same_contents(xs, ys, f);
        assert(x.map_values(f) =~= xs.map_values(f).push(f(a)));
        assert(y.map_values(f).remove(i) =~= ys.map_values(f));
        assert(y.map_values(f)[i] == f(a));
        assert(y.map_values(f).to_multiset() =~= ys.map_values(f).to_multiset().insert(f(a)));
    }
}

/// The key at the lower median index is the lower median key.
proof fn lemma_index_gives_key(keys: Seq<u64>)
    requires
        keys.len() <= usize::MAX,
    ensures
        lower_median_index(keys) matches Some(i) ==> lower_median_key(keys) == Some(keys[i as int]),
{
    if keys.len() > 0 {
        let tleq = |a: Tagged, b: Tagged| tagged_leq(a, b);
        let kleq = |a: u64, b: u64| key_leq(a, b);
        let fst = |t: Tagged| t.0;
        let all = tagged(keys);
        let t = all.sort_by(tleq);
        lemma_tagged_leq_total();
        lemma_key_leq_total();
        all.lemma_sort_by_ensures(tleq);
        keys.lemma_sort_by_ensures(kleq);
        lemma_sorted_tagged_members(keys);
        let proj = t.map_values(fst);
        lemma_map_same_contents(t, all, fst);
        assert(all.map_values(fst) =~= keys);
        assert forall|a: int, b: int| 0 <= a < b < proj.len() implies #[trigger] kleq(proj[a], proj[b]) by {
            assert(tleq(t[a], t[b]));
        }
        lemma_sorted_unique(proj, keys.sort_by(kleq), kleq);
    }
}

/// The lower median key depends on the contents of the sequence alone, not on
/// their order.
pub proof fn lemma_median_key_order_independent(a: Seq<u64>, b: Seq<u64>)
    requires
        a.to_multiset() == b.to_multiset(),
    ensures
        lower_median_key(a) == lower_median_key(b),
{
    let kleq = |x: u64, y: u64| key_leq(x, y);
    lemma_key_leq_total();
    a.lemma_sort_by_ensures(kleq);
    b.lemma_sort_by_ensures(kleq);
    to_multiset_len(a);
    to_multiset_len(b);
    lemma_sorted_unique(a.sort_by(kleq), b.sort_by(kleq), kleq);
}

/// Reordering the keys does not change the key that the median selects: both
/// orders have a median or neither does, and the selected keys are equal.
pub proof fn lemma_median_order_independent(a: Seq<u64>, b: Seq<u64>)
    requires
        a.len() <= usize::MAX,
        a.to_multiset() == b.to_multiset(),
    ensures
        lower_median_index(a).is_some() == lower_median_index(b).is_some(),
        lower_median_index(a) matches Some(i) ==> lower_median_index(b) matches Some(j)
            && a[i as int] == b[j as int],
{
    to_multiset_len(a);
    to_multiset_len(b);
    lemma_index_gives_key(a);
    lemma_index_gives_key(b);
    lemma_median_key_order_independent(a, b);
}

/// Reordering a sequence of numbers does not change the number that the median
/// selects, as long as the sequence does not hold both zeros (which compare
/// equal, so either may be selected).
pub proof fn lemma_median_of_bits_order_independent(a: Seq<u64>, b: Seq<u64>)
    requires
        a.len() <= usize::MAX,
        a.to_multiset() == b.to_multiset(),
        !(a.contains(0) && a.contains(SIGN_BIT)),
    ensures
        lower_median_index(keys_of(a)).is_some() == lower_median_index(keys_of(b)).is_some(),
        lower_median_index(keys_of(a)) matches Some(i) ==> lower_median_index(keys_of(b)) matches Some(j)
            && a[i as int] == b[j as int],
{
    let kf = |x: u64| key_of(x);
    to_multiset_len(a);
    to_multiset_len(b);
    lemma_map_same_contents(a, b, kf);
    lemma_median_order_independent(keys_of(a), keys_of(b));
    if let Some(i) = lower_median_index(keys_of(a)) {
        lemma_median_in_range(keys_of(a));
        lemma_median_in_range(keys_of(b));
        let j = lower_median_index(keys_of(b)).unwrap();
        lemma_same_key_same_bits(a[i as int], b[j as int]);
        if a[i as int] != b[j as int] {
            assert(b.to_multiset().count(b[j as int]) > 0);
            assert(a.to_multiset().count(b[j as int]) > 0);
            assert(a.contains(a[i as int]));
        }
    }
}

/// Asking for the median again of the same keys gives the same answer.
pub proof fn lemma_median_deterministic(a: Seq<u64>, b: Seq<u64>)
    requires
        a == b,
    ensures
        lower_median_index(a) == lower_median_index(b),
        lower_median_key(a) == lower_median_key(b),
{
}

/// The lower median index lies inside the sequence.
proof fn lemma_median_in_range(keys: Seq<u64>)
    requires
        keys.len() <= usize::MAX,
    ensures
        lower_median_index(keys) matches Some(i) ==> i < keys.len(),
{
    lemma_sorted_tagged_members(keys);
}

} // verus!
