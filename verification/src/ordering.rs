//! Stable ordering of keyed batch indices.
use vstd::prelude::*;

verus! {

broadcast use vstd::seq_lib::group_seq_properties;

/// `(ka, a)` comes strictly before `(kb, b)`: smaller key first, equal keys in index order.
pub open spec fn keyed_before(ka: int, a: int, kb: int, b: int) -> bool {
    ka < kb || (ka == kb && a < b)
}

/// The pair `x` comes strictly before the pair `y`.
pub open spec fn pair_before(x: (i128, usize), y: (i128, usize)) -> bool {
    keyed_before(x.0 as int, x.1 as int, y.0 as int, y.1 as int)
}

/// Every pair comes strictly before every later pair.
pub open spec fn pairs_sorted(s: Seq<(i128, usize)>) -> bool {
    forall|i: int, j: int| 0 <= i < j < s.len() ==> pair_before(#[trigger] s[i], #[trigger] s[j])
}

/// No pair occurs twice.
pub open spec fn pairs_distinct(s: Seq<(i128, usize)>) -> bool {
    forall|i: int, j: int| 0 <= i < j < s.len() ==> #[trigger] s[i] != #[trigger] s[j]
}

fn merge(a: Vec<(i128, usize)>, b: Vec<(i128, usize)>) -> (r: Vec<(i128, usize)>)
    requires
        pairs_sorted(a@),
        pairs_sorted(b@),
        forall|x: (i128, usize)| a@.contains(x) ==> !b@.contains(x),
    ensures
        pairs_sorted(r@),
        r.len() == a.len() + b.len(),
        forall|x: (i128, usize)| r@.contains(x) <==> (a@.contains(x) || b@.contains(x)),
{
    let mut r: Vec<(i128, usize)> = Vec::new();
    let mut i: usize = 0;
    let mut j: usize = 0;
    while i < a.len() || j < b.len()
        invariant
            pairs_sorted(a@),
            pairs_sorted(b@),
            forall|x: (i128, usize)| a@.contains(x) ==> !b@.contains(x),
            i <= a.len(),
            j <= b.len(),
            r.len() == i + j,
            pairs_sorted(r@),
            forall|x: (i128, usize)|
                r@.contains(x) <==> (a@.take(i as int).contains(x) || b@.take(j as int).contains(x)),
            r.len() > 0 && i < a.len() ==> pair_before(r@.last(), a@[i as int]),
            r.len() > 0 && j < b.len() ==> pair_before(r@.last(), b@[j as int]),
        decreases a.len() + b.len() - i - j,
    {
        let take_a = if i < a.len() && j < b.len() {
            let x = a[i];
            let y = b[j];
            x.0 < y.0 || (x.0 == y.0 && x.1 <= y.1)
        } else {
            i < a.len()
        };
        if take_a {
            let x = a[i];
            proof {
                if j < b.len() {
                    assert(a@.contains(x));
                    assert(b@.contains(b@[j as int]));
                    assert(pair_before(x, b@[j as int]));
                }
                assert(a@.take(i + 1) =~= a@.take(i as int).push(x));
            }
            r.push(x);
            i = i + 1;
        } else {
            let y = b[j];
            proof {
                if i < a.len() {
                    assert(pair_before(y, a@[i as int]));
                }
                assert(b@.take(j + 1) =~= b@.take(j as int).push(y));
            }
            r.push(y);
            j = j + 1;
        }
    }
    proof {
        assert(a@.take(a.len() as int) =~= a@);
        assert(b@.take(b.len() as int) =~= b@);
    }
    r
}

/// Sorts distinct pairs by key, equal keys by index: the order a stable sort by
/// key gives to pairs that were listed in increasing index order.
pub fn sort_pairs(v: Vec<(i128, usize)>) -> (r: Vec<(i128, usize)>)
    requires
        pairs_distinct(v@),
    ensures
        pairs_sorted(r@),
        r.len() == v.len(),
        forall|x: (i128, usize)| r@.contains(x) <==> v@.contains(x),
    decreases v.len(),
{
    if v.len() <= 1 {
        return v;
    }
    let mid = v.len() / 2;
    let mut left: Vec<(i128, usize)> = Vec::new();
    let mut right: Vec<(i128, usize)> = Vec::new();
    let mut k: usize = 0;
    while k < v.len()
        invariant
            0 < mid < v.len(),
            k <= v.len(),
            left@ == v@.take(if k < mid { k as int } else { mid as int }),
            right@ == if k < mid { Seq::<(i128, usize)>::empty() } else { v@.subrange(mid as int, k as int) },
        decreases v.len() - k,
    {
        if k < mid {
            left.push(v[k]);
            assert(v@.take(k + 1) =~= v@.take(k as int).push(v@[k as int]));
        } else {
            right.push(v[k]);
            assert(v@.subrange(mid as int, k + 1) =~= v@.subrange(mid as int, k as int).push(v@[k as int]));
        }
        k = k + 1;
    }
    proof {
        assert(v@ =~= left@ + right@);
        assert forall|x: (i128, usize)| left@.contains(x) implies !right@.contains(x) by {
            let s = choose|s: int| 0 <= s < left@.len() && left@[s] == x;
            if right@.contains(x) {
                let t = choose|t: int| 0 <= t < right@.len() && right@[t] == x;
                assert(v@[s] == v@[mid + t]);
            }
        }
        assert(pairs_distinct(left@)) by {
            assert forall|i: int, j: int| 0 <= i < j < left@.len() implies left@[i] != left@[j] by {
                assert(left@[i] == v@[i] && left@[j] == v@[j]);
            }
        }
        assert(pairs_distinct(right@)) by {
            assert forall|i: int, j: int| 0 <= i < j < right@.len() implies right@[i] != right@[j] by {
                assert(right@[i] == v@[mid + i] && right@[j] == v@[mid + j]);
            }
        }
    }
    let sl = sort_pairs(left);
    let sr = sort_pairs(right);
    merge(sl, sr)
}

/// `order` lists exactly the members, by key, equal keys by position.
pub open spec fn is_visit_order(order: Seq<usize>, keys: Seq<int>, members: Seq<bool>) -> bool {
    &&& forall|i: int| 0 <= i < order.len() ==> (#[trigger] order[i] as int) < members.len() && members[order[i] as int]
    &&& forall|k: int| 0 <= k < members.len() && #[trigger] members[k] ==> order.contains(k as usize)
    &&& forall|i: int, j: int| 0 <= i < j < order.len() ==>
        keyed_before(keys[#[trigger] order[i] as int], order[i] as int, keys[#[trigger] order[j] as int], order[j] as int)
}

/// The visit order of the members (unique, see `lemma_visit_order_unique`).
pub open spec fn visit_order(keys: Seq<int>, members: Seq<bool>) -> Seq<usize> {
    choose|order: Seq<usize>| is_visit_order(order, keys, members)
}

/// A visit order is determined by its keys and members.
pub proof fn lemma_visit_order_unique(a: Seq<usize>, b: Seq<usize>, keys: Seq<int>, members: Seq<bool>)
    requires
        keys.len() == members.len(),
        members.len() <= usize::MAX,
        is_visit_order(a, keys, members),
        is_visit_order(b, keys, members),
    ensures
        a == b,
    decreases a.len(),
{
    if a.len() == 0 {
        if b.len() > 0 {
            assert(members[b[0] as int]);
            assert(a.contains(b[0]));
        }
        assert(b =~= a);
    } else {
        assert(members[a[0] as int]);
        assert(b.contains(a[0]));
        assert(b.len() > 0);
        assert(members[b[0] as int]);
        assert(a.contains(b[0]));
        let i = choose|i: int| 0 <= i < a.len() && a[i] == b[0];
        let j = choose|j: int| 0 <= j < b.len() && b[j] == a[0];
        if i > 0 {
            assert(keyed_before(keys[a[0] as int], a[0] as int, keys[a[i] as int], a[i] as int));
            if j > 0 {
                assert(keyed_before(keys[b[0] as int], b[0] as int, keys[b[j] as int], b[j] as int));
            }
        }
        if j > 0 {
            assert(keyed_before(keys[b[0] as int], b[0] as int, keys[b[j] as int], b[j] as int));
        }
        assert(a[0] == b[0]);
        let x = a[0];
        let members2 = members.update(x as int, false);
        let a2 = a.drop_first();
        let b2 = b.drop_first();
        assert(is_visit_order(a2, keys, members2)) by {
            assert forall|t: int| 0 <= t < a2.len() implies (#[trigger] a2[t] as int) < members2.len() && members2[a2[t] as int] by {
                assert(a2[t] == a[t + 1]);
                assert(keyed_before(keys[a[0] as int], a[0] as int, keys[a[t + 1] as int], a[t + 1] as int));
            }
            assert forall|k: int| 0 <= k < members2.len() && #[trigger] members2[k] implies a2.contains(k as usize) by {
                assert(a.contains(k as usize));
                let t = choose|t: int| 0 <= t < a.len() && a[t] == k as usize;
                assert(t != 0);
                assert(a2[t - 1] == k as usize);
            }
            assert forall|t: int, u: int| 0 <= t < u < a2.len() implies
                keyed_before(keys[#[trigger] a2[t] as int], a2[t] as int, keys[#[trigger] a2[u] as int], a2[u] as int) by {
                assert(a2[t] == a[t + 1] && a2[u] == a[u + 1]);
            }
        }
        assert(is_visit_order(b2, keys, members2)) by {
            assert forall|t: int| 0 <= t < b2.len() implies (#[trigger] b2[t] as int) < members2.len() && members2[b2[t] as int] by {
                assert(b2[t] == b[t + 1]);
                assert(keyed_before(keys[b[0] as int], b[0] as int, keys[b[t + 1] as int], b[t + 1] as int));
            }
            assert forall|k: int| 0 <= k < members2.len() && #[trigger] members2[k] implies b2.contains(k as usize) by {
                assert(b.contains(k as usize));
                let t = choose|t: int| 0 <= t < b.len() && b[t] == k as usize;
                assert(t != 0);
                assert(b2[t - 1] == k as usize);
            }
            assert forall|t: int, u: int| 0 <= t < u < b2.len() implies
                keyed_before(keys[#[trigger] b2[t] as int], b2[t] as int, keys[#[trigger] b2[u] as int], b2[u] as int) by {
                assert(b2[t] == b[t + 1] && b2[u] == b[u + 1]);
            }
        }
        lemma_visit_order_unique(a2, b2, keys, members2);
        assert(a =~= b) by {
            assert forall|t: int| 0 <= t < a.len() implies a[t] == b[t] by {
                if t > 0 {
                    assert(a[t] == a2[t - 1]);
                    assert(b[t] == b2[t - 1]);
                }
            }
        }
    }
}

/// Position `a` comes before position `b` under `keys`.
pub open spec fn comes_before(keys: Seq<int>, a: usize, b: usize) -> bool {
    keyed_before(keys[a as int], a as int, keys[b as int], b as int)
}

/// The first index at or after `i` whose element `x` comes before.
pub open spec fn insert_pos(o: Seq<usize>, keys: Seq<int>, x: usize, i: int) -> int
    decreases o.len() - i,
{
    if i >= o.len() {
        o.len() as int
    } else if comes_before(keys, x, o[i]) {
        i
    } else {
        insert_pos(o, keys, x, i + 1)
    }
}

proof fn lemma_insert_pos(o: Seq<usize>, keys: Seq<int>, x: usize, i: int)
    requires
        forall|a: int, b: int| 0 <= a < b < o.len() ==> comes_before(keys, #[trigger] o[a], #[trigger] o[b]),
        forall|j: int| 0 <= j < o.len() ==> #[trigger] o[j] != x,
        0 <= i <= o.len(),
        forall|j: int| 0 <= j < i ==> comes_before(keys, #[trigger] o[j], x),
    ensures
        i <= insert_pos(o, keys, x, i) <= o.len(),
        forall|j: int| 0 <= j < insert_pos(o, keys, x, i) ==> comes_before(keys, #[trigger] o[j], x),
        forall|j: int| insert_pos(o, keys, x, i) <= j < o.len() ==> comes_before(keys, x, #[trigger] o[j]),
    decreases o.len() - i,
{
    if i < o.len() {
        if comes_before(keys, x, o[i]) {
            assert forall|j: int| i <= j < o.len() implies comes_before(keys, x, #[trigger] o[j]) by {
                if j > i {
                    assert(comes_before(keys, o[i], o[j]));
                }
            }
        } else {
            assert(o[i] != x);
            lemma_insert_pos(o, keys, x, i + 1);
        }
    }
}

/// The members below `n`.
pub open spec fn members_below(members: Seq<bool>, n: int) -> Seq<bool> {
    Seq::new(members.len(), |k: int| k < n && members[k])
}

proof fn lemma_visit_order_exists_below(keys: Seq<int>, members: Seq<bool>, n: int)
    requires
        keys.len() == members.len(),
        members.len() <= usize::MAX,
        0 <= n <= members.len(),
    ensures
        exists|o: Seq<usize>| is_visit_order(o, keys, members_below(members, n)),
    decreases n,
{
    let mb = members_below(members, n);
    if n == 0 {
        let o = Seq::<usize>::empty();
        assert(is_visit_order(o, keys, mb));
    } else {
        lemma_visit_order_exists_below(keys, members, n - 1);
        let prev = members_below(members, n - 1);
        let o = choose|o: Seq<usize>| is_visit_order(o, keys, prev);
        if !members[n - 1] {
            assert(prev =~= mb);
            assert(is_visit_order(o, keys, mb));
        } else {
            let x = (n - 1) as usize;
            assert forall|j: int| 0 <= j < o.len() implies #[trigger] o[j] != x by {
                assert(prev[o[j] as int]);
            }
            assert forall|a: int, b: int| 0 <= a < b < o.len() implies comes_before(keys, #[trigger] o[a], #[trigger] o[b]) by {
            }
            lemma_insert_pos(o, keys, x, 0);
            let pos = insert_pos(o, keys, x, 0);
            let o2 = o.take(pos).push(x) + o.skip(pos);
            assert(o2.len() == o.len() + 1);
            assert forall|j: int| 0 <= j < o2.len() implies
                (j < pos ==> o2[j] == o[j]) && (j == pos ==> o2[j] == x) && (j > pos ==> o2[j] == o[j - 1]) by {
            }
            assert forall|i: int| 0 <= i < o2.len() implies (#[trigger] o2[i] as int) < mb.len() && mb[o2[i] as int] by {
                if i < pos {
                    assert(prev[o[i] as int]);
                } else if i > pos {
                    assert(prev[o[i - 1] as int]);
                }
            }
            assert forall|k: int| 0 <= k < mb.len() && #[trigger] mb[k] implies o2.contains(k as usize) by {
                if k == n - 1 {
                    assert(o2[pos] == x);
                } else {
                    assert(prev[k]);
                    assert(o.contains(k as usize));
                    let t = choose|t: int| 0 <= t < o.len() && o[t] == k as usize;
                    if t < pos {
                        assert(o2[t] == k as usize);
                    } else {
                        assert(o2[t + 1] == k as usize);
                    }
                }
            }
            assert forall|i: int, j: int| 0 <= i < j < o2.len() implies
                keyed_before(keys[#[trigger] o2[i] as int], o2[i] as int, keys[#[trigger] o2[j] as int], o2[j] as int) by {
                if i < pos && j < pos {
                    assert(comes_before(keys, o[i], o[j]));
                } else if i < pos && j == pos {
                    assert(comes_before(keys, o[i], x));
                } else if i < pos {
                    assert(comes_before(keys, o[i], o[j - 1]));
                } else if i == pos {
                    assert(comes_before(keys, x, o[j - 1]));
                } else {
                    assert(comes_before(keys, o[i - 1], o[j - 1]));
                }
            }
            assert(is_visit_order(o2, keys, mb));
        }
    }
}

/// Every set of members has a visit order.
pub proof fn lemma_visit_order_exists(keys: Seq<int>, members: Seq<bool>)
    requires
        keys.len() == members.len(),
        members.len() <= usize::MAX,
    ensures
        is_visit_order(visit_order(keys, members), keys, members),
{
    lemma_visit_order_exists_below(keys, members, members.len() as int);
    assert(members_below(members, members.len() as int) =~= members);
}

} // verus!
