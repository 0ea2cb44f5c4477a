use vstd::prelude::*;

verus! {

/// The sum of the numbers of `s`.
pub open spec fn sum(s: Seq<int>) -> int
    decreases s.len(),
{
    if s.len() == 0 {
        0
    } else {
        sum(s.drop_last()) + s.last()
    }
}

/// The numbers of `v` as mathematical integers.
pub open spec fn ints_u32(v: Seq<u32>) -> Seq<int> {
    Seq::new(v.len(), |i: int| v[i] as int)
}

/// The sum of a prefix of natural numbers is at most the sum of the whole.
pub proof fn lemma_sum_prefix(s: Seq<int>, k: int)
    requires
        0 <= k <= s.len(),
        forall|i: int| 0 <= i < s.len() ==> s[i] >= 0,
    ensures
        0 <= sum(s.take(k)) <= sum(s),
    decreases s.len() - k,
{
    if k < s.len() {
        lemma_sum_prefix(s, k + 1);
        assert(s.take(k + 1).drop_last() =~= s.take(k));
        lemma_sum_nonnegative(s.take(k));
    } else {
        assert(s.take(k) =~= s);
        lemma_sum_nonnegative(s);
    }
}

/// A sum of natural numbers is a natural number.
pub proof fn lemma_sum_nonnegative(s: Seq<int>)
    requires
        forall|i: int| 0 <= i < s.len() ==> s[i] >= 0,
    ensures
        sum(s) >= 0,
    decreases s.len(),
{
    if s.len() > 0 {
        lemma_sum_nonnegative(s.drop_last());
    }
}

/// Adds up the numbers of `v`.
pub fn total_u32(v: &Vec<u32>) -> (total: u32)
    requires
        sum(ints_u32(v@)) <= u32::MAX,
    ensures
        total == sum(ints_u32(v@)),
{
    let ghost s = ints_u32(v@);
    let mut total: u32 = 0;
    let mut i: usize = 0;
    assert(s.take(0) =~= Seq::<int>::empty());
    while i < v.len()
        invariant
            i <= v.len(),
            s == ints_u32(v@),
            sum(s) <= u32::MAX,
            total == sum(s.take(i as int)),
        decreases v.len() - i,
    {
        proof {
            lemma_sum_prefix(s, i + 1);
            assert(s.take(i + 1).drop_last() =~= s.take(i as int));
        }
        total = total + v[i];
        i += 1;
    }
    assert(s.take(i as int) =~= s);
    total
}

/// The numbers of `v` as mathematical integers.
pub open spec fn ints_i32(v: Seq<i32>) -> Seq<int> {
    Seq::new(v.len(), |i: int| v[i] as int)
}

/// No number of `s` is smaller than one that follows it.
pub open spec fn descending(s: Seq<int>) -> bool {
    forall|i: int, j: int| 0 <= i <= j < s.len() ==> s[i] >= s[j]
}

/// `t` holds the numbers of `s`, each as often as `s` does, the greatest
/// first.
pub open spec fn is_descending_order_of(t: Seq<int>, s: Seq<int>) -> bool {
    descending(t) && t.to_multiset() == s.to_multiset()
}

/// There is only one way to put numbers in descending order.
pub proof fn lemma_descending_unique(a: Seq<int>, b: Seq<int>, s: Seq<int>)
    requires
        is_descending_order_of(a, s),
        is_descending_order_of(b, s),
    ensures
        a == b,
{
    let geq = |x: int, y: int| x >= y;
    assert(vstd::relations::sorted_by(a, geq)) by {
        assert forall|i: int, j: int| 0 <= i < j < a.len() implies #[trigger] geq(a[i], a[j]) by {}
    }
    assert(vstd::relations::sorted_by(b, geq)) by {
        assert forall|i: int, j: int| 0 <= i < j < b.len() implies #[trigger] geq(b[i], b[j]) by {}
    }
    assert(vstd::relations::total_ordering(geq)) by {
        assert(vstd::relations::reflexive(geq)) by {
            assert forall|x: int| #[trigger] geq(x, x) by {}
        }
        assert(vstd::relations::antisymmetric(geq)) by {
            assert forall|x: int, y: int| #[trigger] geq(x, y) && #[trigger] geq(y, x) implies x
                == y by {}
        }
        assert(vstd::relations::transitive(geq)) by {
            assert forall|x: int, y: int, z: int| #[trigger] geq(x, y) && #[trigger] geq(
                y,
                z,
            ) implies geq(x, z) by {}
        }
        assert(vstd::relations::strongly_connected(geq)) by {
            assert forall|x: int, y: int| #[trigger] geq(x, y) || #[trigger] geq(y, x) by {}
        }
    }
    vstd::seq_lib::lemma_sorted_unique(a, b, geq);
}

/// `m` occurs in `s`, and nothing greater does.
pub open spec fn is_max_of(m: int, s: Seq<int>) -> bool {
    s.contains(m) && forall|i: int| 0 <= i < s.len() ==> s[i] <= m
}

/// The numbers of `v`, the greatest first.
pub fn sorted_descending(v: &Vec<i32>) -> (out: Vec<i32>)
    ensures
        is_descending_order_of(ints_i32(out@), ints_i32(v@)),
        out.len() == v.len(),
{
    let mut out: Vec<i32> = Vec::new();
    let mut i: usize = 0;
    assert(ints_i32(v@).take(0) =~= ints_i32(out@));
    while i < v.len()
        invariant
            i <= v.len(),
            out.len() == i,
            descending(ints_i32(out@)),
            ints_i32(out@).to_multiset() == ints_i32(v@).take(i as int).to_multiset(),
        decreases v.len() - i,
    {
        let x = v[i];
        let mut at: usize = 0;
        while at < out.len() && out[at] >= x
            invariant
                at <= out.len(),
                forall|k: int| 0 <= k < at ==> out@[k] >= x,
            decreases out.len() - at,
        {
            at += 1;
        }
        let ghost before = out@;
        out.insert(at, x);
        proof {
            assert(ints_i32(out@) =~= ints_i32(before).insert(at as int, x as int));
            assert(ints_i32(v@).take(i + 1) =~= ints_i32(v@).take(i as int).insert(
                i as int,
                x as int,
            ));
            vstd::seq_lib::to_multiset_insert(ints_i32(before), at as int, x as int);
            vstd::seq_lib::to_multiset_insert(ints_i32(v@).take(i as int), i as int, x as int);
            assert forall|a: int, b: int| 0 <= a <= b < out@.len() implies ints_i32(out@)[a]
                >= ints_i32(out@)[b] by {
                let p = |k: int|
                    if k < at {
                        k
                    } else {
                        k - 1
                    };
                if a != at && b != at {
                    assert(ints_i32(before)[p(a)] >= ints_i32(before)[p(b)]);
                } else if a == at && b != at {
                    assert(ints_i32(before)[at as int] >= ints_i32(before)[p(b)]);
                }
            }
        }
        i += 1;
    }
    assert(ints_i32(v@).take(i as int) =~= ints_i32(v@));
    out
}

/// The greatest number of `v`; `None` where `v` is empty.
pub fn max_i32(v: &Vec<i32>) -> (r: Option<i32>)
    ensures
        match r {
            Some(m) => is_max_of(m as int, ints_i32(v@)),
            None => v@.len() == 0,
        },
{
    if v.len() == 0 {
        return None;
    }
    let mut m = v[0];
    let mut i: usize = 1;
    let ghost mut at: int = 0;
    while i < v.len()
        invariant
            1 <= i <= v.len(),
            0 <= at < i,
            v@[at] == m,
            forall|k: int| 0 <= k < i ==> v@[k] <= m,
        decreases v.len() - i,
    {
        if v[i] > m {
            m = v[i];
            proof {
                at = i as int;
            }
        }
        i += 1;
    }
    assert(ints_i32(v@)[at] == m);
    Some(m)
}

} // verus!
