use vstd::prelude::*;

use crate::flatten::spec_flatten;
use crate::formula::{lemma_rank_pos, lemma_rank_seq_bounds, lemma_views_of, rank, rank_seq,
    views_of, Formula, FormulaV};
use vstd::math::max;

verus! {

/// Structural equivalence of two formulas up to commutativity: terminals
/// must match exactly, sums (and likewise products) must carry the same
/// children as a multiset under this same relation, and the empty
/// expression equals only itself. Associativity is not handled here: it
/// is the business of flattening, which runs first.
pub open spec fn sem_eq(a: FormulaV, b: FormulaV) -> bool
    decreases max(rank(a) as int, rank(b) as int), 0int, 0int,
{
    match (a, b) {
        (FormulaV::TS(x), FormulaV::TS(y)) => x == y,
        (FormulaV::Add(xs), FormulaV::Add(ys)) => multiset_equiv(xs, ys),
        (FormulaV::Mul(xs), FormulaV::Mul(ys)) => multiset_equiv(xs, ys),
        (FormulaV::Empty, FormulaV::Empty) => true,
        _ => false,
    }
}

/// Two child sequences are equal as multisets under `sem_eq`: they have
/// the same length, and every child of either side matches equally many
/// children on both sides.
pub open spec fn multiset_equiv(xs: Seq<FormulaV>, ys: Seq<FormulaV>) -> bool
    decreases max(rank_seq(xs) as int, rank_seq(ys) as int), 2int, 0int,
    via multiset_equiv_decreases
{
    &&& xs.len() == ys.len()
    &&& forall|i: int|
        0 <= i < xs.len() ==> count_sem(xs, #[trigger] xs[i]) == count_sem(ys, xs[i])
    &&& forall|i: int|
        0 <= i < ys.len() ==> count_sem(xs, #[trigger] ys[i]) == count_sem(ys, ys[i])
}

#[via_fn]
proof fn multiset_equiv_decreases(xs: Seq<FormulaV>, ys: Seq<FormulaV>) {
    lemma_rank_seq_bounds(xs);
    lemma_rank_seq_bounds(ys);
}

#[via_fn]
proof fn count_sem_decreases(s: Seq<FormulaV>, x: FormulaV) {
    if s.len() > 0 {
        lemma_rank_pos(s[0]);
        lemma_rank_seq_bounds(s);
    }
}

/// How many elements of `s` are `sem_eq` to `x`.
pub open spec fn count_sem(s: Seq<FormulaV>, x: FormulaV) -> nat
    decreases max(rank_seq(s) as int, rank(x) as int), 1int, rank_seq(s),
    via count_sem_decreases
{
    if s.len() == 0 {
        0
    } else {
        (if sem_eq(s[0], x) {
            1nat
        } else {
            0nat
        }) + count_sem(s.subrange(1, s.len() as int), x)
    }
}

/// Appending an element raises the count by one exactly for the
/// formulas it matches.
pub proof fn lemma_count_sem_push(s: Seq<FormulaV>, x: FormulaV, y: FormulaV)
    ensures
        count_sem(s.push(x), y) == count_sem(s, y) + (if sem_eq(x, y) {
            1int
        } else {
            0int
        }),
    decreases s.len(),
{
    let all = s.push(x);
    assert(all.len() == s.len() + 1);
    if s.len() == 0 {
        assert(all.subrange(1, all.len() as int) =~= Seq::<FormulaV>::empty());
        assert(count_sem(all.subrange(1, all.len() as int), y) == 0);
        assert(all[0] == x);
        assert(count_sem(all, y) == (if sem_eq(x, y) { 1int } else { 0int }));
        assert(count_sem(s, y) == 0);
    } else {
        let srest = s.subrange(1, s.len() as int);
        assert(all.subrange(1, all.len() as int) =~= srest.push(x));
        lemma_count_sem_push(srest, x, y);
        assert(all[0] == s[0]);
        assert(count_sem(all, y) == (if sem_eq(s[0], y) { 1int } else { 0int }) + count_sem(
            srest.push(x), y));
        assert(count_sem(s, y) == (if sem_eq(s[0], y) { 1int } else { 0int }) + count_sem(srest, y));
    }
}

/// Every formula is `sem_eq` to itself.
pub proof fn lemma_sem_eq_reflexive(a: FormulaV)
    ensures
        sem_eq(a, a),
{
}

/// Removing an element lowers the count by one exactly when that
/// element matches.
pub proof fn lemma_count_sem_remove(s: Seq<FormulaV>, j: int, x: FormulaV)
    requires
        0 <= j < s.len(),
    ensures
        count_sem(s, x) == count_sem(s.remove(j), x) + (if sem_eq(s[j], x) {
            1int
        } else {
            0int
        }),
    decreases s.len(),
{
    if j == 0 {
        assert(s.remove(0) =~= s.subrange(1, s.len() as int));
    } else {
        let rest = s.subrange(1, s.len() as int);
        lemma_count_sem_remove(rest, j - 1, x);
        assert(s.remove(j)[0] == s[0]);
        assert(s.remove(j).subrange(1, s.remove(j).len() as int) =~= rest.remove(j - 1));
        assert(rest[j - 1] == s[j]);
        assert(count_sem(s, x) == (if sem_eq(s[0], x) {
            1int
        } else {
            0int
        }) + count_sem(rest, x));
        assert(count_sem(s.remove(j), x) == (if sem_eq(s[0], x) {
            1int
        } else {
            0int
        }) + count_sem(rest.remove(j - 1), x));
    }
}

/// The count of matches depends only on the multiset of the sequence,
/// not on the order of its elements.
pub proof fn lemma_count_sem_permutation(s1: Seq<FormulaV>, s2: Seq<FormulaV>, x: FormulaV)
    requires
        s1.to_multiset() == s2.to_multiset(),
    ensures
        count_sem(s1, x) == count_sem(s2, x),
    decreases s1.len(),
{
    broadcast use vstd::seq_lib::group_to_multiset_ensures;

    if s1.len() == 0 {
        assert(s2.to_multiset().len() == 0);
    } else {
        let h = s1[0];
        assert(s1.to_multiset().count(h) > 0) by {
            assert(s1.contains(h));
        }
        assert(s2.contains(h));
        let j = choose|j: int| 0 <= j < s2.len() && s2[j] == h;
        assert(s1.remove(0).to_multiset() =~= s2.remove(j).to_multiset());
        lemma_count_sem_permutation(s1.remove(0), s2.remove(j), x);
        lemma_count_sem_remove(s1, 0, x);
        lemma_count_sem_remove(s2, j, x);
    }
}

/// Child sequences that are reorderings of one another are equal as
/// multisets under `sem_eq`.
pub proof fn lemma_multiset_equiv_of_permutation(xs: Seq<FormulaV>, ys: Seq<FormulaV>)
    requires
        xs.to_multiset() == ys.to_multiset(),
    ensures
        multiset_equiv(xs, ys),
{
    broadcast use vstd::seq_lib::group_to_multiset_ensures;

    xs.to_multiset_ensures();
    ys.to_multiset_ensures();
    assert(xs.to_multiset().len() == ys.to_multiset().len());
    assert(xs.len() == ys.len());
    assert forall|i: int|
        0 <= i < xs.len() implies count_sem(xs, #[trigger] xs[i]) == count_sem(ys, xs[i]) by {
        lemma_count_sem_permutation(xs, ys, xs[i]);
    }
    assert forall|i: int|
        0 <= i < ys.len() implies count_sem(xs, #[trigger] ys[i]) == count_sem(ys, ys[i]) by {
        lemma_count_sem_permutation(xs, ys, ys[i]);
    }
}

/// Addition is commutative: a sum equals any reordering of its terms.
pub proof fn lemma_sum_commutative(xs: Seq<FormulaV>, ys: Seq<FormulaV>)
    requires
        xs.to_multiset() == ys.to_multiset(),
    ensures
        sem_eq(FormulaV::Add(xs), FormulaV::Add(ys)),
{
    lemma_multiset_equiv_of_permutation(xs, ys);
}

/// Multiplication is commutative: a product equals any reordering of
/// its factors.
pub proof fn lemma_product_commutative(xs: Seq<FormulaV>, ys: Seq<FormulaV>)
    requires
        xs.to_multiset() == ys.to_multiset(),
    ensures
        sem_eq(FormulaV::Mul(xs), FormulaV::Mul(ys)),
{
    lemma_multiset_equiv_of_permutation(xs, ys);
}

/// Compare two character strings for exact equality.
fn chars_eq(a: &Vec<char>, b: &Vec<char>) -> (r: bool)
    ensures
        r == (a@ == b@),
{
    if a.len() != b.len() {
        return false;
    }
    let n = a.len();
    let mut i: usize = 0;
    while i < n
        invariant
            n == a.len() == b.len(),
            0 <= i <= n,
            forall|j: int| 0 <= j < i ==> a@[j] == b@[j],
        decreases n - i,
    {
        if a[i] != b[i] {
            return false;
        }
        i += 1;
    }
    assert(a@ =~= b@);
    true
}

/// How many formulas of `v` are equivalent to `x` under `eq_without_expand`.
fn count_matching(v: &Vec<Formula>, x: &Formula) -> (r: usize)
    ensures
        r == count_sem(views_of(v@), x@),
    decreases max(rank_seq(views_of(v@)) as int, rank(x@) as int), 1int, rank_seq(views_of(v@)),
{
    proof {
        lemma_views_of(v@);
    }
    let ghost vs = views_of(v@);
    let n = v.len();
    let mut count: usize = 0;
    let mut i: usize = 0;
    while i < n
        invariant
            n == v.len(),
            vs == views_of(v@),
            vs.len() == n,
            forall|j: int| 0 <= j < n ==> vs[j] == #[trigger] v@[j]@,
            0 <= i <= n,
            count <= i,
            count == count_sem(vs.take(i as int), x@),
        decreases n - i,
    {
        proof {
            lemma_rank_seq_bounds(vs);
            assert(vs.take(i + 1) =~= vs.take(i as int).push(vs[i as int]));
            lemma_count_sem_push(vs.take(i as int), vs[i as int], x@);
        }
        if v[i].eq_without_expand(x) {
            count += 1;
        }
        i += 1;
    }
    proof {
        assert(vs.take(n as int) =~= vs);
    }
    count
}

/// Whether two child vectors hold the same formulas as multisets,
/// compared with `eq_without_expand`.
fn multiset_equal(xs: &Vec<Formula>, ys: &Vec<Formula>) -> (r: bool)
    ensures
        r == multiset_equiv(views_of(xs@), views_of(ys@)),
    decreases max(rank_seq(views_of(xs@)) as int, rank_seq(views_of(ys@)) as int), 2int, 0int,
{
    proof {
        lemma_views_of(xs@);
        lemma_views_of(ys@);
        lemma_rank_seq_bounds(views_of(xs@));
        lemma_rank_seq_bounds(views_of(ys@));
    }
    let ghost xv = views_of(xs@);
    let ghost yv = views_of(ys@);
    if xs.len() != ys.len() {
        return false;
    }
    let n = xs.len();
    let mut i: usize = 0;
    while i < n
        invariant
            n == xs.len() == ys.len(),
            xv == views_of(xs@),
            yv == views_of(ys@),
            xv.len() == n && yv.len() == n,
            forall|j: int| 0 <= j < n ==> xv[j] == #[trigger] xs@[j]@,
            forall|j: int| 0 <= j < n ==> yv[j] == #[trigger] ys@[j]@,
            0 <= i <= n,
            forall|j: int| 0 <= j < i ==> count_sem(xv, #[trigger] xv[j]) == count_sem(yv, xv[j]),
        decreases n - i,
    {
        proof {
            lemma_rank_seq_bounds(xv);
        }
        if count_matching(xs, &xs[i]) != count_matching(ys, &xs[i]) {
            return false;
        }
        i += 1;
    }
    let mut i: usize = 0;
    while i < n
        invariant
            n == xs.len() == ys.len(),
            xv == views_of(xs@),
            yv == views_of(ys@),
            xv.len() == n && yv.len() == n,
            forall|j: int| 0 <= j < n ==> xv[j] == #[trigger] xs@[j]@,
            forall|j: int| 0 <= j < n ==> yv[j] == #[trigger] ys@[j]@,
            0 <= i <= n,
            forall|j: int| 0 <= j < n ==> count_sem(xv, #[trigger] xv[j]) == count_sem(yv, xv[j]),
            forall|j: int| 0 <= j < i ==> count_sem(xv, #[trigger] yv[j]) == count_sem(yv, yv[j]),
        decreases n - i,
    {
        proof {
            lemma_rank_seq_bounds(yv);
        }
        if count_matching(xs, &ys[i]) != count_matching(ys, &ys[i]) {
            return false;
        }
        i += 1;
    }
    true
}

impl PartialEq for Formula {
    /// Full semantic equivalence: both formulas are flattened for
    /// associativity and then compared up to commutativity.
    fn eq(&self, other: &Self) -> (r: bool) {
        Formula::eq_without_expand(
            &self.duplicate().expand_paren(),
            &other.duplicate().expand_paren(),
        )
    }
}

impl vstd::std_specs::cmp::PartialEqSpecImpl for Formula {
    open spec fn obeys_eq_spec() -> bool {
        true
    }

    open spec fn eq_spec(&self, other: &Self) -> bool {
        sem_eq(spec_flatten(self@), spec_flatten(other@))
    }
}

impl Formula {
    /// Equivalence up to commutativity alone: compare this formula with
    /// another without flattening either one first. Terminals compare
    /// exactly; the children of two sums, or of two products, compare as
    /// multisets under this same relation.
    pub fn eq_without_expand(&self, other: &Self) -> (r: bool)
        ensures
            r == sem_eq(self@, other@),
        decreases max(rank(self@) as int, rank(other@) as int), 0int, 0int,
    {
        match (self, other) {
            (Formula::TS(x), Formula::TS(y)) => chars_eq(x, y),
            (Formula::Add(xs), Formula::Add(ys)) => multiset_equal(xs, ys),
            (Formula::Mul(xs), Formula::Mul(ys)) => multiset_equal(xs, ys),
            (Formula::Empty, Formula::Empty) => true,
            _ => false,
        }
    }
}

} // verus!
