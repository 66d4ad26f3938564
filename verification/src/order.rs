//! Lexicographic order on strings, and stable sorting by it.

use vstd::prelude::*;

use crate::text;

verus! {

/// Whether `a` comes before `b` in lexicographic order of characters.
pub open spec fn precedes(a: Seq<char>, b: Seq<char>) -> bool
    decreases a.len(),
{
    if b.len() == 0 {
        false
    } else if a.len() == 0 {
        true
    } else if a[0] != b[0] {
        a[0] < b[0]
    } else {
        precedes(a.drop_first(), b.drop_first())
    }
}

/// Exactly one of: `a` before `b`, `b` before `a`, the two are the same.
pub proof fn lemma_precedes_total(a: Seq<char>, b: Seq<char>)
    ensures
        precedes(a, b) ==> !precedes(b, a) && a != b,
        !precedes(a, b) && !precedes(b, a) ==> a == b,
        !precedes(a, a),
    decreases a.len(),
{
    if a.len() > 0 {
        lemma_precedes_total(a.drop_first(), a.drop_first());
    }
    if a.len() > 0 && b.len() > 0 {
        lemma_precedes_total(a.drop_first(), b.drop_first());
        if a[0] == b[0] && a.drop_first() == b.drop_first() {
            assert(a =~= seq![a[0]] + a.drop_first());
            assert(b =~= seq![b[0]] + b.drop_first());
        }
    } else if a.len() == 0 && b.len() == 0 {
        assert(a =~= b);
    }
}

pub proof fn lemma_precedes_transitive(a: Seq<char>, b: Seq<char>, c: Seq<char>)
    requires
        precedes(a, b),
        precedes(b, c),
    ensures
        precedes(a, c),
    decreases a.len(),
{
    if a.len() > 0 && a[0] == b[0] && b[0] == c[0] {
        lemma_precedes_transitive(a.drop_first(), b.drop_first(), c.drop_first());
    }
}

/// Whether `a` comes before `b`.
pub fn comes_before(a: &str, b: &str) -> (r: bool)
    ensures
        r == precedes(a@, b@),
{
    let x: Vec<char> = text::chars_of(a);
    let y: Vec<char> = text::chars_of(b);
    let mut i: usize = 0;
    assert(a@.skip(0) =~= a@);
    assert(b@.skip(0) =~= b@);
    while i < x.len() && i < y.len()
        invariant
            i <= x.len(),
            i <= y.len(),
            x@ == a@,
            y@ == b@,
            precedes(a@, b@) == precedes(a@.skip(i as int), b@.skip(i as int)),
        decreases x.len() - i,
    {
        assert(a@.skip(i as int).drop_first() =~= a@.skip(i + 1));
        assert(b@.skip(i as int).drop_first() =~= b@.skip(i + 1));
        if x[i] != y[i] {
            return x[i] < y[i];
        }
        i = i + 1;
    }
    i < y.len()
}

/// Whether item `i` of a list of keys goes in front of item `j` in a stable
/// sort: by key, and by position where the keys are the same.
pub open spec fn goes_first(keys: Seq<Seq<char>>, i: int, j: int) -> bool {
    precedes(keys[i], keys[j]) || keys[i] == keys[j] && i < j
}

/// Whether a listing holds position `i`.
pub open spec fn is_listed(order: Seq<usize>, i: int) -> bool {
    exists|a: int| 0 <= a < order.len() && #[trigger] order[a] == i
}

/// Whether `order` lists the positions of `keys` in sorted order: every
/// position once, each in front of the next.
pub open spec fn is_sorted_order(keys: Seq<Seq<char>>, order: Seq<usize>) -> bool {
    &&& order.len() == keys.len()
    &&& forall|a: int| 0 <= a < order.len() ==> (#[trigger] order[a]) < keys.len()
    &&& forall|a: int, b: int|
        0 <= a < b < order.len() ==> goes_first(
            keys,
            (#[trigger] order[a]) as int,
            (#[trigger] order[b]) as int,
        )
    &&& forall|i: int| 0 <= i < keys.len() ==> #[trigger] is_listed(order, i)
}

/// The keys of a list of strings.
pub open spec fn views(names: Seq<String>) -> Seq<Seq<char>> {
    names.map_values(|s: String| s@)
}

proof fn lemma_goes_first_transitive(keys: Seq<Seq<char>>, i: int, j: int, k: int)
    requires
        goes_first(keys, i, j),
        goes_first(keys, j, k),
    ensures
        goes_first(keys, i, k),
{
    if precedes(keys[i], keys[j]) && precedes(keys[j], keys[k]) {
        lemma_precedes_transitive(keys[i], keys[j], keys[k]);
    }
}

/// Positions listed so far: the first `n` of the keys, in sorted order.
spec fn partial_order(keys: Seq<Seq<char>>, order: Seq<usize>, n: int) -> bool {
    &&& order.len() == n
    &&& forall|a: int| 0 <= a < order.len() ==> (#[trigger] order[a]) < n
    &&& forall|a: int, b: int|
        0 <= a < b < order.len() ==> goes_first(
            keys,
            (#[trigger] order[a]) as int,
            (#[trigger] order[b]) as int,
        )
    &&& forall|i: int| 0 <= i < n ==> #[trigger] is_listed(order, i)
}

/// The positions of the names in sorted order.
pub fn sorted_order(names: &Vec<String>) -> (order: Vec<usize>)
    ensures
        is_sorted_order(views(names@), order@),
{
    let ghost keys = views(names@);
    let mut order: Vec<usize> = Vec::new();
    let mut n: usize = 0;
    while n < names.len()
        invariant
            n <= names.len(),
            keys == views(names@),
            keys.len() == names@.len(),
            partial_order(keys, order@, n as int),
        decreases names.len() - n,
    {
        let mut at: usize = order.len();
        while at > 0 && comes_before(names[n].as_str(), names[order[at - 1]].as_str())
            invariant
                n < names.len(),
                at <= order.len(),
                keys == views(names@),
                keys.len() == names@.len(),
                partial_order(keys, order@, n as int),
                forall|b: int|
                    at <= b < order@.len() ==> precedes(
                        keys[n as int],
                        keys[(#[trigger] order@[b]) as int],
                    ),
            decreases at,
        {
            at = at - 1;
        }
        let ghost before = order@;
        proof {
            if at > 0 {
                let p = before[at - 1] as int;
                lemma_precedes_total(keys[p], keys[n as int]);
                assert(goes_first(keys, p, n as int));
                assert forall|a: int| 0 <= a < at implies goes_first(
                    keys,
                    (#[trigger] before[a]) as int,
                    n as int,
                ) by {
                    if a < at - 1 {
                        lemma_goes_first_transitive(keys, before[a] as int, p, n as int);
                    }
                }
            }
        }
        order.insert(at, n);
        proof {
            let after = order@;
            assert(after =~= before.insert(at as int, n));
            assert forall|a: int| 0 <= a < after.len() implies (#[trigger] after[a]) < n + 1 by {
                if a < at {
                    assert(after[a] == before[a]);
                } else if a > at {
                    assert(after[a] == before[a - 1]);
                }
            }
            assert forall|a: int, b: int| 0 <= a < b < after.len() implies goes_first(
                keys,
                (#[trigger] after[a]) as int,
                (#[trigger] after[b]) as int,
            ) by {
                if a < at {
                    assert(after[a] == before[a]);
                }
                if a > at {
                    assert(after[a] == before[a - 1]);
                }
                if b < at {
                    assert(after[b] == before[b]);
                }
                if b > at {
                    assert(after[b] == before[b - 1]);
                }
            }
            assert forall|i: int| 0 <= i < n + 1 implies #[trigger] is_listed(after, i) by {
                if i == n {
                    assert(after[at as int] == n);
                } else {
                    assert(is_listed(before, i));
                    let a = choose|a: int| 0 <= a < before.len() && #[trigger] before[a] == i;
                    if a < at {
                        assert(after[a] == i);
                    } else {
                        assert(after[a + 1] == i);
                    }
                }
            }
        }
        n = n + 1;
    }
    order
}

/// There is one sorted order: two listings of the same keys agree.
pub proof fn law_sorted_order_unique(keys: Seq<Seq<char>>, p: Seq<usize>, q: Seq<usize>)
    requires
        is_sorted_order(keys, p),
        is_sorted_order(keys, q),
    ensures
        p == q,
{
    assert forall|n: int| 0 <= n <= keys.len() implies #[trigger] p.take(n) == q.take(n) by {
        lemma_same_start(keys, p, q, n);
    }
    assert(p.take(p.len() as int) =~= p);
    assert(q.take(q.len() as int) =~= q);
    assert(p.take(keys.len() as int) == q.take(keys.len() as int));
}

proof fn lemma_same_start(keys: Seq<Seq<char>>, p: Seq<usize>, q: Seq<usize>, n: int)
    requires
        is_sorted_order(keys, p),
        is_sorted_order(keys, q),
        0 <= n <= keys.len(),
    ensures
        p.take(n) == q.take(n),
    decreases n,
{
    if n == 0 {
        assert(p.take(0) =~= q.take(0));
    } else {
        lemma_same_start(keys, p, q, n - 1);
        let k = n - 1;
        assert forall|i: int| 0 <= i < k implies p[i] == q[i] by {
            assert(p.take(k)[i] == q.take(k)[i]);
        }
        if p[k] != q[k] {
            lemma_smaller_wins(keys, p, q, k);
            lemma_smaller_wins(keys, q, p, k);
            lemma_precedes_total(keys[p[k] as int], keys[q[k] as int]);
        }
        assert(p.take(n) =~= p.take(k).push(p[k]));
        assert(q.take(n) =~= q.take(k).push(q[k]));
    }
}

/// Where two listings first differ, the first one's item goes in front.
proof fn lemma_smaller_wins(keys: Seq<Seq<char>>, p: Seq<usize>, q: Seq<usize>, k: int)
    requires
        is_sorted_order(keys, p),
        is_sorted_order(keys, q),
        0 <= k < keys.len(),
        forall|i: int| 0 <= i < k ==> p[i] == q[i],
        p[k] != q[k],
    ensures
        goes_first(keys, p[k] as int, q[k] as int),
{
    let i = q[k] as int;
    assert(is_listed(p, i));
    let a = choose|a: int| 0 <= a < p.len() && #[trigger] p[a] == i;
    if a < k {
        assert(p[a] == q[a]);
        assert(goes_first(keys, q[a] as int, q[k] as int));
        lemma_precedes_total(keys[i], keys[i]);
    }
}

/// A text comes before another where they agree up to some place and then it ends, while
/// the other goes on, or has the smaller character there.
pub proof fn law_order_is_by_first_difference(a: &str, b: &str, r: bool)
    requires
        call_ensures(comes_before, (a, b), r),
    ensures
        r == exists|k: int| differs_below(a@, b@, k),
{
    lemma_first_difference(a@, b@);
}

/// Whether two texts agree up to `k`, and the first then ends or has the smaller
/// character.
pub open spec fn differs_below(a: Seq<char>, b: Seq<char>, k: int) -> bool {
    &&& 0 <= k <= a.len()
    &&& k < b.len()
    &&& forall|i: int| 0 <= i < k ==> #[trigger] a[i] == b[i]
    &&& k == a.len() || a[k] < b[k]
}

proof fn lemma_first_difference(a: Seq<char>, b: Seq<char>)
    ensures
        precedes(a, b) == exists|k: int| differs_below(a, b, k),
    decreases a.len(),
{
    if b.len() == 0 {
    } else if a.len() == 0 {
        assert(differs_below(a, b, 0));
    } else if a[0] != b[0] {
        if a[0] < b[0] {
            assert(differs_below(a, b, 0));
        }
        if exists|k: int| differs_below(a, b, k) {
            let k = choose|k: int| differs_below(a, b, k);
            if k > 0 {
                assert(a[0] == b[0]);
            }
        }
    } else {
        let x = a.drop_first();
        let y = b.drop_first();
        lemma_first_difference(x, y);
        if exists|k: int| differs_below(x, y, k) {
            let k = choose|k: int| differs_below(x, y, k);
            assert forall|i: int| 0 <= i < k + 1 implies #[trigger] a[i] == b[i] by {
                if i > 0 {
                    assert(x[i - 1] == y[i - 1]);
                }
            }
            assert(differs_below(a, b, k + 1));
        }
        if exists|k: int| differs_below(a, b, k) {
            let k = choose|k: int| differs_below(a, b, k);
            assert(k > 0);
            assert forall|i: int| 0 <= i < k - 1 implies #[trigger] x[i] == y[i] by {
                assert(a[i + 1] == b[i + 1]);
            }
            assert(differs_below(x, y, k - 1));
        }
    }
}

} // verus!
