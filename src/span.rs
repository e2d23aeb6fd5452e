use vstd::multiset::Multiset;
use vstd::prelude::*;

use crate::color::{
    fraction_le, lemma_normalized_den_positive, lemma_ratio_le_transitive, normalized, normalized_attribute, ratio_le,
    Attribute, Rgb,
};

verus! {

/// The order in which a span is sorted by its key.
#[derive(Clone, Copy, Debug, PartialEq, Eq, Structural)]
pub enum Order {
    Ascending,
    Descending,
}

/// `x` may stand before `y` in a span sorted by `attr` in `order`.
pub open spec fn key_before(x: Rgb, y: Rgb, attr: Attribute, order: Order) -> bool {
    match order {
        Order::Ascending => ratio_le(normalized(x, attr), normalized(y, attr)),
        Order::Descending => ratio_le(normalized(y, attr), normalized(x, attr)),
    }
}

/// Every colour of `s` may stand before every later one.
pub open spec fn sorted_by(s: Seq<Rgb>, attr: Attribute, order: Order) -> bool {
    forall|i: int, j: int| 0 <= i < j < s.len() ==> key_before(#[trigger] s[i], #[trigger] s[j], attr, order)
}

/// `[s, e)` is a span of `m`: a maximal, non-empty run of `true` entries.
pub open spec fn is_span(m: Seq<bool>, s: int, e: int) -> bool {
    &&& 0 <= s < e <= m.len()
    &&& forall|t: int| s <= t < e ==> #[trigger] m[t]
    &&& s == 0 || !m[s - 1]
    &&& e == m.len() || !m[e]
}

/// `out` is `inp` with each span of the mask `m` sorted by `attr` in `order`:
/// entries outside every span are left where they are, and each span holds a
/// sorted permutation of what it held.
pub open spec fn spans_sorted(inp: Seq<Rgb>, out: Seq<Rgb>, m: Seq<bool>, attr: Attribute, order: Order) -> bool {
    &&& out.len() == inp.len()
    &&& m.len() == inp.len()
    &&& forall|t: int| 0 <= t < m.len() && !m[t] ==> #[trigger] out[t] == inp[t]
    &&& forall|s: int, e: int|
        #[trigger] is_span(m, s, e) ==> {
            &&& out.subrange(s, e).to_multiset() == inp.subrange(s, e).to_multiset()
            &&& sorted_by(out.subrange(s, e), attr, order)
        }
}

/// Whether `x` may stand before `y`.
pub fn key_before_exec(x: Rgb, y: Rgb, attr: Attribute, order: Order) -> (r: bool)
    ensures
        r == key_before(x, y, attr, order),
{
    let kx = normalized_attribute(x, attr);
    let ky = normalized_attribute(y, attr);
    match order {
        Order::Ascending => fraction_le(kx, ky),
        Order::Descending => fraction_le(ky, kx),
    }
}

proof fn lemma_key_before_transitive(x: Rgb, y: Rgb, z: Rgb, attr: Attribute, order: Order)
    requires
        key_before(x, y, attr, order),
        key_before(y, z, attr, order),
    ensures
        key_before(x, z, attr, order),
{
    lemma_normalized_den_positive(x, attr);
    lemma_normalized_den_positive(y, attr);
    lemma_normalized_den_positive(z, attr);
    match order {
        Order::Ascending => lemma_ratio_le_transitive(normalized(x, attr), normalized(y, attr), normalized(z, attr)),
        Order::Descending => lemma_ratio_le_transitive(normalized(z, attr), normalized(y, attr), normalized(x, attr)),
    }
}

/// Merges two sorted sequences into one sorted sequence that holds both.
fn merge(a: Vec<Rgb>, b: Vec<Rgb>, attr: Attribute, order: Order) -> (r: Vec<Rgb>)
    requires
        sorted_by(a@, attr, order),
        sorted_by(b@, attr, order),
    ensures
        r@.len() == a@.len() + b@.len(),
        r@.to_multiset() == a@.to_multiset().add(b@.to_multiset()),
        sorted_by(r@, attr, order),
{
    broadcast use vstd::multiset::group_multiset_axioms;
    broadcast use vstd::seq_lib::to_multiset_build;

    let mut r: Vec<Rgb> = Vec::new();
    let mut i: usize = 0;
    let mut j: usize = 0;
    assert(r@ =~= Seq::<Rgb>::empty());
    assert(a@.take(0) =~= Seq::<Rgb>::empty());
    assert(b@.take(0) =~= Seq::<Rgb>::empty());
    proof {
        Seq::<Rgb>::empty().to_multiset_ensures();
        vstd::multiset::lemma_multiset_empty_len(Seq::<Rgb>::empty().to_multiset());
    }
    assert(Seq::<Rgb>::empty().to_multiset() =~= Multiset::<Rgb>::empty());
    assert(r@.to_multiset() =~= a@.take(0).to_multiset().add(b@.take(0).to_multiset()));
    while i < a.len() || j < b.len()
        invariant
            sorted_by(a@, attr, order),
            sorted_by(b@, attr, order),
            i <= a@.len(),
            j <= b@.len(),
            r@.len() == i + j,
            r@.to_multiset() == a@.take(i as int).to_multiset().add(b@.take(j as int).to_multiset()),
            sorted_by(r@, attr, order),
            r@.len() > 0 && i < a@.len() ==> key_before(r@.last(), a@[i as int], attr, order),
            r@.len() > 0 && j < b@.len() ==> key_before(r@.last(), b@[j as int], attr, order),
        decreases a@.len() + b@.len() - i - j,
    {
        let take_a = if i >= a.len() {
            false
        } else if j >= b.len() {
            true
        } else {
            key_before_exec(a[i], b[j], attr, order)
        };
        let x = if take_a {
            a[i]
        } else {
            b[j]
        };
        let ghost prev = r@;
        r.push(x);
        proof {
            assert(r@ == prev.push(x));
            vstd::seq_lib::to_multiset_build(prev, x);
            lemma_normalized_den_positive(x, attr);
            assert forall|p: int, q: int| 0 <= p < q < r@.len() implies key_before(
                #[trigger] r@[p],
                #[trigger] r@[q],
                attr,
                order,
            ) by {
                if q == prev.len() && p < prev.len() - 1 {
                    assert(key_before(prev[p], prev.last(), attr, order));
                    lemma_key_before_transitive(prev[p], prev.last(), x, attr, order);
                }
            }
        }
        if take_a {
            proof {
                assert(a@.take(i + 1) =~= a@.take(i as int).push(a@[i as int]));
                vstd::seq_lib::to_multiset_build(a@.take(i as int), a@[i as int]);
                if j < b.len() {
                    assert(key_before(a@[i as int], b@[j as int], attr, order));
                }
            }
            i += 1;
        } else {
            proof {
                assert(b@.take(j + 1) =~= b@.take(j as int).push(b@[j as int]));
                vstd::seq_lib::to_multiset_build(b@.take(j as int), b@[j as int]);
                if i < a.len() {
                    lemma_normalized_den_positive(a@[i as int], attr);
                    assert(key_before(b@[j as int], a@[i as int], attr, order));
                }
            }
            j += 1;
        }
        assert(r@.to_multiset() =~= a@.take(i as int).to_multiset().add(b@.take(j as int).to_multiset()));
    }
    assert(a@.take(i as int) =~= a@);
    assert(b@.take(j as int) =~= b@);
    r
}

/// A sorted copy of `v[lo..hi]`.
fn sorted_copy(v: &Vec<Rgb>, lo: usize, hi: usize, attr: Attribute, order: Order) -> (r: Vec<Rgb>)
    requires
        lo <= hi <= v@.len(),
    ensures
        r@.len() == hi - lo,
        r@.to_multiset() == v@.subrange(lo as int, hi as int).to_multiset(),
        sorted_by(r@, attr, order),
    decreases hi - lo,
{
    if hi - lo <= 1 {
        let mut r: Vec<Rgb> = Vec::with_capacity(1);
        if lo < hi {
            r.push(v[lo]);
        }
        assert(r@ =~= v@.subrange(lo as int, hi as int));
        r
    } else {
        let mid = lo + (hi - lo) / 2;
        let left = sorted_copy(v, lo, mid, attr, order);
        let right = sorted_copy(v, mid, hi, attr, order);
        let r = merge(left, right, attr, order);
        proof {
            vstd::seq_lib::lemma_multiset_commutative(
                v@.subrange(lo as int, mid as int),
                v@.subrange(mid as int, hi as int),
            );
            assert(v@.subrange(lo as int, mid as int) + v@.subrange(mid as int, hi as int) =~= v@.subrange(
                lo as int,
                hi as int,
            ));
        }
        r
    }
}

/// Sorts the entries `[lo, hi)` of `line` by `attr` in `order`, leaving the
/// others where they are.
pub fn sort_span(line: &mut Vec<Rgb>, lo: usize, hi: usize, attr: Attribute, order: Order)
    requires
        lo <= hi <= old(line).len(),
    ensures
        final(line)@.len() == old(line)@.len(),
        forall|t: int| 0 <= t < old(line)@.len() && (t < lo || hi <= t) ==> #[trigger] final(line)@[t] == old(line)@[t],
        final(line)@.subrange(lo as int, hi as int).to_multiset() == old(line)@.subrange(lo as int, hi as int).to_multiset(),
        sorted_by(final(line)@.subrange(lo as int, hi as int), attr, order),
{
    let ghost orig = line@;
    let sorted = sorted_copy(line, lo, hi, attr, order);
    let mut k: usize = 0;
    while k < hi - lo
        invariant
            lo <= hi <= orig.len(),
            sorted@.len() == hi - lo,
            line@.len() == orig.len(),
            k <= hi - lo,
            forall|t: int| 0 <= t < orig.len() && (t < lo || lo + k <= t) ==> #[trigger] line@[t] == orig[t],
            forall|t: int| 0 <= t < k ==> #[trigger] line@[lo + t] == sorted@[t],
        decreases hi - lo - k,
    {
        line.set(lo + k, sorted[k]);
        k += 1;
    }
    assert forall|t: int| 0 <= t < hi - lo implies #[trigger] line@.subrange(lo as int, hi as int)[t] == sorted@[t] by {
        assert(line@[lo + t] == sorted@[t]);
    }
    assert(line@.subrange(lo as int, hi as int) =~= sorted@);
}

/// Sorts every span of the mask `m` in `line` by `attr` in `order`.
pub fn sort_line(line: &mut Vec<Rgb>, m: &Vec<bool>, attr: Attribute, order: Order)
    requires
        m@.len() == old(line)@.len(),
    ensures
        spans_sorted(old(line)@, final(line)@, m@, attr, order),
{
    let ghost orig = line@;
    let n = line.len();
    let mut i: usize = 0;
    while i < n
        invariant
            i <= n == orig.len() == m@.len(),
            line@.len() == n,
            forall|t: int| i <= t < n ==> #[trigger] line@[t] == orig[t],
            forall|t: int| 0 <= t < i && !m@[t] ==> #[trigger] line@[t] == orig[t],
            i == 0 || i == n || !m@[i as int] || !m@[i - 1],
            forall|s: int, e: int|
                #[trigger] is_span(m@, s, e) && e <= i ==> {
                    &&& line@.subrange(s, e).to_multiset() == orig.subrange(s, e).to_multiset()
                    &&& sorted_by(line@.subrange(s, e), attr, order)
                },
        decreases n - i,
    {
        if m[i] {
            let mut j: usize = i + 1;
            while j < n && m[j]
                invariant
                    i < j <= n == m@.len(),
                    forall|t: int| i <= t < j ==> #[trigger] m@[t],
                decreases n - j,
            {
                j += 1;
            }
            let ghost before = line@;
            sort_span(line, i, j, attr, order);
            proof {
                assert(line@.subrange(i as int, j as int) =~= line@.subrange(i as int, j as int));
                assert(before.subrange(i as int, j as int) =~= orig.subrange(i as int, j as int));
                assert(is_span(m@, i as int, j as int));
                assert forall|s: int, e: int| #[trigger] is_span(m@, s, e) && e <= j implies {
                    &&& line@.subrange(s, e).to_multiset() == orig.subrange(s, e).to_multiset()
                    &&& sorted_by(line@.subrange(s, e), attr, order)
                } by {
                    if e <= i {
                        assert(line@.subrange(s, e) =~= before.subrange(s, e));
                    } else {
                        if s < i {
                            assert(m@[i - 1]);
                            assert(m@[i as int]);
                        } else if s > i {
                            assert(m@[s - 1]);
                        }
                        if e < j {
                            assert(m@[e]);
                        }
                    }
                }
            }
            i = j;
        } else {
            i += 1;
        }
    }
}

} // verus!
