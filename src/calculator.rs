//! Mixed-radix decomposition of a linear permutation index into one member
//! choice per enumeration group.
use vstd::prelude::*;
use vstd::arithmetic::div_mod::*;
use vstd::arithmetic::mul::*;

verus! {

/// The number of combinations of groups of the given sizes.
pub open spec fn product(s: Seq<usize>) -> int
    decreases s.len(),
{
    if s.len() == 0 {
        1
    } else {
        s[0] * product(s.skip(1))
    }
}

/// Every group has at least one member.
pub open spec fn all_positive(s: Seq<usize>) -> bool {
    forall|i: int| 0 <= i < s.len() ==> s[i] > 0
}

/// The weight of group `i`: the product of the sizes of the groups after it.
pub open spec fn place_value(s: Seq<usize>, i: int) -> int {
    product(s.subrange(i + 1, s.len() as int))
}

/// The member chosen from group `i` at linear index `k`.
pub open spec fn digit(s: Seq<usize>, k: int, i: int) -> int {
    (k / place_value(s, i)) % (s[i] as int)
}

/// The member chosen from each group at linear index `k`.
pub open spec fn selection(s: Seq<usize>, k: int) -> Seq<usize> {
    Seq::new(s.len(), |i: int| digit(s, k, i) as usize)
}

/// `v` picks one member of each group.
pub open spec fn is_choice(s: Seq<usize>, v: Seq<usize>) -> bool {
    &&& v.len() == s.len()
    &&& forall|i: int| 0 <= i < s.len() ==> v[i] < s[i]
}

/// The linear index whose selection is `v`.
pub open spec fn compose(s: Seq<usize>, v: Seq<usize>) -> int
    decreases s.len(),
{
    if s.len() == 0 || v.len() == 0 {
        0
    } else {
        compose(s.drop_last(), v.drop_last()) * s.last() + v.last()
    }
}

pub(crate) proof fn lemma_product_push(t: Seq<usize>, x: usize)
    ensures
        product(t.push(x)) == product(t) * x,
    decreases t.len(),
{
    if t.len() > 0 {
        assert(t.push(x).skip(1) =~= t.skip(1).push(x));
        lemma_product_push(t.skip(1), x);
        lemma_mul_is_associative(t[0] as int, product(t.skip(1)), x as int);
        assert(t.push(x)[0] == t[0]);
    } else {
        assert(t.push(x).skip(1) =~= Seq::<usize>::empty());
        assert(product(t.push(x).skip(1)) == 1);
        assert(product(t) == 1);
        assert(product(t.push(x)) == t.push(x)[0] * 1);
    }
}

pub(crate) proof fn lemma_product_positive(s: Seq<usize>)
    requires
        all_positive(s),
    ensures
        product(s) >= 1,
    decreases s.len(),
{
    if s.len() > 0 {
        assert(all_positive(s.skip(1)));
        lemma_product_positive(s.skip(1));
        lemma_mul_increases(s[0] as int, product(s.skip(1)));
    }
}

proof fn lemma_product_split(s: Seq<usize>, i: int)
    requires
        0 <= i <= s.len(),
    ensures
        product(s) == product(s.take(i)) * product(s.skip(i)),
    decreases i,
{
    if i > 0 {
        lemma_product_split(s.skip(1), i - 1);
        assert(s.take(i).skip(1) =~= s.skip(1).take(i - 1));
        assert(s.skip(1).skip(i - 1) =~= s.skip(i));
        lemma_mul_is_associative(s[0] as int, product(s.skip(1).take(i - 1)), product(s.skip(i)));
    } else {
        assert(s.skip(0) =~= s);
    }
}

/// The digits of `k` for all groups are those of `k / last` for the groups
/// but the last, followed by `k % last`.
proof fn lemma_selection_drop_last(s: Seq<usize>, k: int)
    requires
        s.len() > 0,
        all_positive(s),
        k >= 0,
    ensures
        selection(s, k) == selection(s.drop_last(), k / (s.last() as int)).push(
            (k % (s.last() as int)) as usize,
        ),
{
    let n = s.len() as int;
    let d = s.drop_last();
    let l = s.last() as int;
    assert forall|i: int| 0 <= i < n - 1 implies digit(s, k, i) == digit(d, k / l, i) by {
        assert(s.subrange(i + 1, n) =~= d.subrange(i + 1, n - 1).push(s.last()));
        lemma_product_push(d.subrange(i + 1, n - 1), s.last());
        assert(all_positive(d.subrange(i + 1, n - 1)));
        lemma_product_positive(d.subrange(i + 1, n - 1));
        lemma_div_denominator(k, l, place_value(d, i));
        lemma_mul_is_commutative(l, place_value(d, i));
    }
    assert(s.subrange(n, n) =~= Seq::<usize>::empty());
    assert(place_value(s, n - 1) == 1);
    assert(selection(s, k) =~= selection(d, k / l).push((k % l) as usize));
}

proof fn lemma_compose_selection(s: Seq<usize>, k: int)
    requires
        all_positive(s),
        0 <= k < product(s),
    ensures
        is_choice(s, selection(s, k)),
        compose(s, selection(s, k)) == k,
    decreases s.len(),
{
    if s.len() == 0 {
        assert(k == 0);
    } else {
        let d = s.drop_last();
        let l = s.last() as int;
        lemma_selection_drop_last(s, k);
        assert(s =~= d.push(s.last()));
        lemma_product_push(d, s.last());
        lemma_product_positive(d);
        lemma_fundamental_div_mod(k, l);
        lemma_mul_is_commutative(l, k / l);
        lemma_div_pos_is_pos(k, l);
        if k / l >= product(d) {
            lemma_mul_inequality(product(d), k / l, l);
        }
        assert(all_positive(d));
        lemma_compose_selection(d, k / l);
        let v = selection(s, k);
        assert(v.drop_last() =~= selection(d, k / l));
    }
}

proof fn lemma_selection_compose(s: Seq<usize>, v: Seq<usize>)
    requires
        all_positive(s),
        is_choice(s, v),
    ensures
        0 <= compose(s, v) < product(s),
        selection(s, compose(s, v)) == v,
    decreases s.len(),
{
    if s.len() == 0 {
        assert(v =~= selection(s, 0));
    } else {
        let d = s.drop_last();
        let l = s.last() as int;
        let c = compose(d, v.drop_last());
        assert(all_positive(d));
        lemma_selection_compose(d, v.drop_last());
        assert(s =~= d.push(s.last()));
        lemma_product_push(d, s.last());
        lemma_mul_inequality(c + 1, product(d), l);
        lemma_mul_is_distributive_add_other_way(l, c, 1);
        lemma_mul_nonnegative(c, l);
        lemma_fundamental_div_mod_converse(c * l + v.last(), l, c, v.last() as int);
        lemma_selection_drop_last(s, compose(s, v));
        assert(v =~= v.drop_last().push(v.last()));
    }
}

/// As the linear index runs over `[0, product(s))`, the selections run over
/// every choice of one member per group, each exactly once.
pub proof fn lemma_selections_enumerate_choices(s: Seq<usize>)
    requires
        all_positive(s),
    ensures
        forall|k: int| 0 <= k < product(s) ==> is_choice(s, #[trigger] selection(s, k)),
        forall|k1: int, k2: int|
            0 <= k1 < product(s) && 0 <= k2 < product(s) && #[trigger] selection(s, k1)
                == #[trigger] selection(s, k2) ==> k1 == k2,
        forall|v: Seq<usize>|
            #[trigger] is_choice(s, v) ==> exists|k: int|
                0 <= k < product(s) && #[trigger] selection(s, k) == v,
{
    assert forall|k: int| 0 <= k < product(s) implies is_choice(s, #[trigger] selection(s, k)) by {
        lemma_compose_selection(s, k);
    }
    assert forall|k1: int, k2: int|
        0 <= k1 < product(s) && 0 <= k2 < product(s) && #[trigger] selection(s, k1)
            == #[trigger] selection(s, k2) implies k1 == k2 by {
        lemma_compose_selection(s, k1);
        lemma_compose_selection(s, k2);
    }
    assert forall|v: Seq<usize>| #[trigger] is_choice(s, v) implies exists|k: int|
        0 <= k < product(s) && #[trigger] selection(s, k) == v by {
        lemma_selection_compose(s, v);
    }
}

/// The selection of an index depends on it only modulo `product(s)`: a
/// group list with fewer combinations than the indices that drive it cycles
/// through its combinations, repeating every `product(s)` indices.
pub proof fn lemma_selection_cycles(s: Seq<usize>, k: int)
    requires
        all_positive(s),
        k >= 0,
    ensures
        selection(s, k) == selection(s, k % product(s)),
        selection(s, k + product(s)) == selection(s, k),
{
    let p = product(s);
    let n = s.len() as int;
    lemma_product_positive(s);
    assert forall|i: int| 0 <= i < n implies #[trigger] digit(s, k, i) == digit(s, k % p, i)
        && digit(s, k + p, i) == digit(s, k, i) by {
        let pv = place_value(s, i);
        let pre = product(s.take(i));
        assert(all_positive(s.subrange(i + 1, n)));
        lemma_product_positive(s.subrange(i + 1, n));
        assert(all_positive(s.take(i)));
        lemma_product_positive(s.take(i));
        lemma_product_split(s, i);
        assert(s.skip(i).skip(1) =~= s.subrange(i + 1, n));
        assert(product(s.skip(i)) == s[i] * pv);
        // p == (pre * s[i]) * pv
        lemma_mul_is_associative(pre, s[i] as int, pv);
        let m = pre * s[i];
        lemma_fundamental_div_mod(k, p);
        let q = k / p;
        let r = k % p;
        lemma_div_pos_is_pos(k, p);
        lemma_mod_bound(k, p);
        // k == (q * m) * pv + r
        lemma_mul_is_commutative(p, q);
        lemma_mul_is_associative(q, m, pv);
        lemma_hoist_over_denominator(r, q * m, pv as nat);
        lemma_hoist_over_denominator(r, q * m + m, pv as nat);
        lemma_mul_is_distributive_add_other_way(pv, q * m, m);
        // (r / pv + q * m) % s[i] == (r / pv) % s[i]
        lemma_mul_is_associative(q, pre, s[i] as int);
        lemma_mul_is_commutative(q * pre, s[i] as int);
        lemma_mod_multiples_vanish(q * pre, r / pv, s[i] as int);
        lemma_mul_is_distributive_add(s[i] as int, q * pre, pre);
        lemma_mul_is_commutative(q * pre + pre, s[i] as int);
        lemma_mul_is_distributive_add_other_way(pre, q, 1);
        lemma_mul_is_associative(q + 1, pre, s[i] as int);
        lemma_mod_multiples_vanish((q + 1) * pre, r / pv, s[i] as int);
        assert(k + p == (q * m + m) * pv + r);
    }
    assert(selection(s, k) =~= selection(s, k % p));
    assert(selection(s, k + p) =~= selection(s, k));
}

proof fn lemma_suffix_product_bounded(s: Seq<usize>, i: int)
    requires
        all_positive(s),
        0 <= i <= s.len(),
    ensures
        1 <= product(s.subrange(i, s.len() as int)) <= product(s),
{
    lemma_product_split(s, i);
    assert(s.subrange(i, s.len() as int) =~= s.skip(i));
    assert(all_positive(s.take(i)));
    assert(all_positive(s.skip(i)));
    lemma_product_positive(s.take(i));
    lemma_product_positive(s.skip(i));
    lemma_mul_increases(product(s.take(i)), product(s.skip(i)));
}

/// Scratch space of the permutation engine for one list of group sizes: the
/// sizes, the place value of each group, and the selection last computed.
pub struct Calculator {
    pub permutation: Vec<usize>,
    pub set_sizes: Vec<usize>,
    pub digit_values: Vec<usize>,
}

impl Calculator {
    /// The place values belong to the sizes, and the number of combinations
    /// fits a `usize`.
    pub open spec fn wf(&self) -> bool {
        &&& all_positive(self.set_sizes@)
        &&& product(self.set_sizes@) <= usize::MAX
        &&& self.digit_values@.len() == self.set_sizes@.len()
        &&& self.permutation@.len() == self.set_sizes@.len()
        &&& forall|i: int|
            0 <= i < self.set_sizes@.len() ==> #[trigger] self.digit_values@[i] == place_value(
                self.set_sizes@,
                i,
            )
    }

    /// Prepares the engine for groups of the given sizes, in source order.
    pub fn new(set_sizes: &Vec<usize>) -> (r: Calculator)
        requires
            all_positive(set_sizes@),
            product(set_sizes@) <= usize::MAX,
        ensures
            r.wf(),
            r.set_sizes@ == set_sizes@,
    {
        let n = set_sizes.len();
        let ghost s = set_sizes@;
        let mut digit_values: Vec<usize> = Vec::new();
        let mut permutation: Vec<usize> = Vec::new();
        let mut sizes: Vec<usize> = Vec::new();
        let mut j: usize = 0;
        while j < n
            invariant
                j <= n == s.len(),
                digit_values@.len() == j,
                permutation@.len() == j,
                sizes@ == s.take(j as int),
                set_sizes@ == s,
            decreases n - j,
        {
            digit_values.push(1);
            permutation.push(0);
            sizes.push(set_sizes[j]);
            j += 1;
            assert(sizes@ =~= s.take(j as int));
        }
        assert(sizes@ =~= s);
        let mut running: usize = 1;
        let mut i: usize = n;
        proof {
            assert(s.subrange(n as int, n as int) =~= Seq::<usize>::empty());
        }
        while i > 0
            invariant
                i <= n == s.len(),
                sizes@ == s,
                all_positive(s),
                product(s) <= usize::MAX,
                digit_values@.len() == n,
                running == product(s.subrange(i as int, n as int)),
                forall|j: int| i <= j < n ==> #[trigger] digit_values@[j] == place_value(s, j),
            decreases i,
        {
            i -= 1;
            digit_values.set(i, running);
            proof {
                let t = s.subrange(i as int, n as int);
                assert(t.skip(1) =~= s.subrange(i + 1, n as int));
                lemma_suffix_product_bounded(s, i as int);
                lemma_mul_is_commutative(s[i as int] as int, running as int);
            }
            running = running * sizes[i];
        }
        Calculator { permutation, set_sizes: sizes, digit_values }
    }

    /// Computes the member chosen from each group at linear index `k`.
    pub fn permute(&mut self, k: usize)
        requires
            old(self).wf(),
        ensures
            final(self).wf(),
            final(self).set_sizes@ == old(self).set_sizes@,
            final(self).permutation@ == selection(old(self).set_sizes@, k as int),
    {
        let n = self.permutation.len();
        let mut i: usize = 0;
        while i < n
            invariant
                self.wf(),
                n == self.permutation@.len(),
                self.set_sizes@ == old(self).set_sizes@,
                i <= n,
                forall|j: int| 0 <= j < i ==> #[trigger] self.permutation@[j] == selection(
                    self.set_sizes@,
                    k as int,
                )[j],
            decreases n - i,
        {
            proof {
                lemma_suffix_product_bounded(self.set_sizes@, i + 1);
            }
            let x = k / self.digit_values[i];
            self.permutation.set(i, x % self.set_sizes[i]);
            i += 1;
        }
        proof {
            assert(self.permutation@ =~= selection(self.set_sizes@, k as int));
        }
    }
}

} // verus!
