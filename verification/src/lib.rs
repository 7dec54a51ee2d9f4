use vstd::prelude::*;

pub mod compare;
pub mod errors;
pub mod flatten;
pub mod formula;
pub mod operator;
pub mod parse;

use crate::compare::{lemma_multiset_equiv_of_permutation, lemma_sem_eq_reflexive, sem_eq};
use crate::errors::ParseFormulaError;
use crate::flatten::{flatten_each, lemma_flatten_each, spec_flatten, splice_add, splice_mul};
use crate::formula::{Formula, FormulaV};
use crate::parse::spec_parse;

verus! {

/// The outcome of deciding whether two expression texts are equivalent:
/// `None` when either text is malformed, and otherwise whether the two
/// parsed trees, flattened for associativity, are equal up to
/// commutativity.
pub open spec fn spec_exec(lhs: Seq<char>, rhs: Seq<char>) -> Option<bool> {
    match (spec_parse(lhs), spec_parse(rhs)) {
        (Some(a), Some(b)) => Some(sem_eq(spec_flatten(a), spec_flatten(b))),
        _ => Option::None,
    }
}

/// Decide whether the two expression texts are structurally equivalent
/// up to commutativity and associativity of `+` and `*`. An `Err` is
/// returned exactly when either text fails to parse; it is never
/// conflated with inputs that merely differ.
pub fn exec(lhs: &str, rhs: &str) -> (r: Result<bool, ParseFormulaError>)
    ensures
        match r {
            Ok(b) => spec_exec(lhs@, rhs@) == Some(b),
            Err(_) => spec_exec(lhs@, rhs@) is None,
        },
{
    let lhs_formula = match Formula::parse(lhs) {
        Ok(f) => f,
        Err(e) => {
            return Err(e);
        },
    };
    let rhs_formula = match Formula::parse(rhs) {
        Ok(f) => f,
        Err(e) => {
            return Err(e);
        },
    };
    let result = lhs_formula == rhs_formula;
    Ok(result)
}

/// Reflexivity: every text that parses at all is equivalent to itself.
pub proof fn lemma_exec_reflexive(s: Seq<char>)
    ensures
        spec_parse(s) is Some ==> spec_exec(s, s) == Some(true),
{
    if spec_parse(s) is Some {
        lemma_sem_eq_reflexive(spec_flatten(spec_parse(s)->Some_0));
    }
}

/// Flattening a two-element list walks both elements.
proof fn lemma_flatten_each_pair(x: FormulaV, y: FormulaV)
    ensures
        flatten_each(seq![x, y]) == seq![spec_flatten(x), spec_flatten(y)],
{
    let pair = seq![x, y];
    assert(pair.subrange(1, 2) =~= seq![y]);
    assert(seq![y].subrange(1, 1) =~= Seq::<FormulaV>::empty());
    assert(flatten_each(Seq::<FormulaV>::empty()) == Seq::<FormulaV>::empty());
    assert(flatten_each(seq![y]) =~= seq![spec_flatten(y)]);
    assert(flatten_each(pair) =~= seq![spec_flatten(x), spec_flatten(y)]);
}

/// What one formula contributes when spliced at sum level.
spec fn sum_piece(f: FormulaV) -> Seq<FormulaV> {
    match f {
        FormulaV::Add(children) => children,
        _ => seq![f],
    }
}

/// What one formula contributes when spliced at product level.
spec fn mul_piece(f: FormulaV) -> Seq<FormulaV> {
    match f {
        FormulaV::Mul(children) => children,
        _ => seq![f],
    }
}

/// Splicing a two-element list concatenates the two contributions.
proof fn lemma_splice_pair(x: FormulaV, y: FormulaV)
    ensures
        splice_add(seq![x, y]) == sum_piece(x) + sum_piece(y),
        splice_mul(seq![x, y]) == mul_piece(x) + mul_piece(y),
{
    let pair = seq![x, y];
    assert(pair.subrange(1, 2) =~= seq![y]);
    assert(seq![y].subrange(1, 1) =~= Seq::<FormulaV>::empty());
    assert(splice_add(Seq::<FormulaV>::empty()) == Seq::<FormulaV>::empty());
    assert(splice_mul(Seq::<FormulaV>::empty()) == Seq::<FormulaV>::empty());
    assert(splice_add(seq![y]) =~= sum_piece(y));
    assert(splice_mul(seq![y]) =~= mul_piece(y));
    assert(splice_add(pair) =~= sum_piece(x) + sum_piece(y));
    assert(splice_mul(pair) =~= mul_piece(x) + mul_piece(y));
}

/// Flattening element by element carries a reordering of the children
/// over to the flattened children.
proof fn lemma_flatten_each_multiset(xs: Seq<FormulaV>, ys: Seq<FormulaV>)
    requires
        xs.to_multiset() == ys.to_multiset(),
    ensures
        flatten_each(xs).to_multiset() == flatten_each(ys).to_multiset(),
    decreases xs.len(),
{
    broadcast use vstd::seq_lib::group_to_multiset_ensures;
    broadcast use vstd::multiset::group_multiset_axioms;

    xs.to_multiset_ensures();
    ys.to_multiset_ensures();
    lemma_flatten_each(xs);
    lemma_flatten_each(ys);
    if xs.len() == 0 {
        assert(ys.to_multiset().len() == 0);
        assert(flatten_each(xs).to_multiset() =~= flatten_each(ys).to_multiset());
    } else {
        let h = xs[0];
        let fh = spec_flatten(h);
        assert(xs.to_multiset().count(h) > 0) by {
            assert(xs.contains(h));
        }
        assert(ys.contains(h));
        let j = choose|j: int| 0 <= j < ys.len() && ys[j] == h;
        assert(xs.remove(0).to_multiset() =~= ys.remove(j).to_multiset());
        lemma_flatten_each_multiset(xs.remove(0), ys.remove(j));
        lemma_flatten_each(xs.remove(0));
        lemma_flatten_each(ys.remove(j));
        assert(flatten_each(xs).remove(0) =~= flatten_each(xs.remove(0))) by {
            assert forall|k: int|
                0 <= k < flatten_each(xs).remove(0).len() implies flatten_each(xs).remove(0)[k]
                == flatten_each(xs.remove(0))[k] by {
                assert(xs.remove(0)[k] == xs[k + 1]);
            }
        }
        assert(flatten_each(ys).remove(j) =~= flatten_each(ys.remove(j))) by {
            assert forall|k: int|
                0 <= k < flatten_each(ys).remove(j).len() implies flatten_each(ys).remove(j)[k]
                == flatten_each(ys.remove(j))[k] by {
                if k < j {
                    assert(ys.remove(j)[k] == ys[k]);
                } else {
                    assert(ys.remove(j)[k] == ys[k + 1]);
                }
            }
        }
        let m1 = flatten_each(xs).to_multiset();
        let m2 = flatten_each(ys).to_multiset();
        assert(flatten_each(xs).remove(0).to_multiset() == m1.remove(fh));
        assert(flatten_each(ys)[j] == fh);
        assert(flatten_each(ys).remove(j).to_multiset() == m2.remove(fh));
        assert(m1.remove(fh) == m2.remove(fh));
        assert(m1.count(fh) > 0) by {
            assert(flatten_each(xs).contains(fh)) by {
                assert(flatten_each(xs)[0] == fh);
            }
        }
        assert(m2.count(fh) > 0) by {
            assert(flatten_each(ys).contains(fh)) by {
                assert(flatten_each(ys)[j] == fh);
            }
        }
        assert(m1 =~= m2) by {
            assert forall|w: FormulaV| m1.count(w) == m2.count(w) by {
                assert(m1.remove(fh).count(w) == m2.remove(fh).count(w));
            }
        }
    }
}

/// What splicing a child list keeps is, as a multiset, the combined
/// contributions of its elements: removing an element removes its
/// contribution.
proof fn lemma_splice_remove(s: Seq<FormulaV>, j: int, in_sum: bool)
    requires
        0 <= j < s.len(),
    ensures
        (if in_sum {
            splice_add(s)
        } else {
            splice_mul(s)
        }).to_multiset() == (if in_sum {
            splice_add(s.remove(j))
        } else {
            splice_mul(s.remove(j))
        }).to_multiset().add(
            (if in_sum {
                sum_piece(s[j])
            } else {
                mul_piece(s[j])
            }).to_multiset(),
        ),
    decreases s.len(),
{
    broadcast use vstd::multiset::group_multiset_axioms;

    let rest = s.subrange(1, s.len() as int);
    let head = (if in_sum {
        sum_piece(s[0])
    } else {
        mul_piece(s[0])
    });
    let spliced_rest = (if in_sum {
        splice_add(rest)
    } else {
        splice_mul(rest)
    });
    assert((if in_sum {
        splice_add(s)
    } else {
        splice_mul(s)
    }) == head + spliced_rest);
    vstd::seq_lib::lemma_multiset_commutative(head, spliced_rest);
    if j == 0 {
        assert(s.remove(0) =~= rest);
        assert((head + spliced_rest).to_multiset() =~= spliced_rest.to_multiset().add(
            head.to_multiset(),
        ));
    } else {
        lemma_splice_remove(rest, j - 1, in_sum);
        assert(rest[j - 1] == s[j]);
        assert(s.remove(j)[0] == s[0]);
        assert(s.remove(j).subrange(1, s.remove(j).len() as int) =~= rest.remove(j - 1));
        let spliced_rest_removed = (if in_sum {
            splice_add(rest.remove(j - 1))
        } else {
            splice_mul(rest.remove(j - 1))
        });
        assert((if in_sum {
            splice_add(s.remove(j))
        } else {
            splice_mul(s.remove(j))
        }) == head + spliced_rest_removed);
        vstd::seq_lib::lemma_multiset_commutative(head, spliced_rest_removed);
        let piece_ms = (if in_sum {
            sum_piece(s[j])
        } else {
            mul_piece(s[j])
        }).to_multiset();
        assert(head.to_multiset().add(spliced_rest_removed.to_multiset().add(piece_ms)) =~= (
        head.to_multiset().add(spliced_rest_removed.to_multiset())).add(piece_ms));
    }
}

/// Splicing carries a reordering of the children over to the spliced
/// children, as multisets.
proof fn lemma_splice_multiset(xs: Seq<FormulaV>, ys: Seq<FormulaV>, in_sum: bool)
    requires
        xs.to_multiset() == ys.to_multiset(),
    ensures
        (if in_sum {
            splice_add(xs)
        } else {
            splice_mul(xs)
        }).to_multiset() == (if in_sum {
            splice_add(ys)
        } else {
            splice_mul(ys)
        }).to_multiset(),
    decreases xs.len(),
{
    broadcast use vstd::seq_lib::group_to_multiset_ensures;
    broadcast use vstd::multiset::group_multiset_axioms;

    xs.to_multiset_ensures();
    ys.to_multiset_ensures();
    if xs.len() == 0 {
        assert(ys.to_multiset().len() == 0);
        if in_sum {
            assert(splice_add(xs).to_multiset() =~= splice_add(ys).to_multiset());
        } else {
            assert(splice_mul(xs).to_multiset() =~= splice_mul(ys).to_multiset());
        }
    } else {
        let h = xs[0];
        assert(xs.to_multiset().count(h) > 0) by {
            assert(xs.contains(h));
        }
        assert(ys.contains(h));
        let j = choose|j: int| 0 <= j < ys.len() && ys[j] == h;
        assert(xs.remove(0).to_multiset() =~= ys.remove(j).to_multiset());
        lemma_splice_multiset(xs.remove(0), ys.remove(j), in_sum);
        lemma_splice_remove(xs, 0, in_sum);
        lemma_splice_remove(ys, j, in_sum);
    }
}

/// Commutativity through the whole comparison: a sum and any
/// reordering of its terms flatten to trees the comparator accepts as
/// equal; likewise for a product.
pub proof fn lemma_flatten_commutative(xs: Seq<FormulaV>, ys: Seq<FormulaV>)
    requires
        xs.to_multiset() == ys.to_multiset(),
    ensures
        sem_eq(spec_flatten(FormulaV::Add(xs)), spec_flatten(FormulaV::Add(ys))),
        sem_eq(spec_flatten(FormulaV::Mul(xs)), spec_flatten(FormulaV::Mul(ys))),
{
    lemma_flatten_each_multiset(xs, ys);
    lemma_splice_multiset(flatten_each(xs), flatten_each(ys), true);
    lemma_splice_multiset(flatten_each(xs), flatten_each(ys), false);
    lemma_multiset_equiv_of_permutation(
        splice_add(flatten_each(xs)),
        splice_add(flatten_each(ys)),
    );
    lemma_multiset_equiv_of_permutation(
        splice_mul(flatten_each(xs)),
        splice_mul(flatten_each(ys)),
    );
}

/// Associativity through parentheses is transparent: however a
/// three-element sum is grouped, the flattened trees are equal, and so
/// the comparator accepts them; likewise for a product.
pub proof fn lemma_grouping_transparent(a: FormulaV, b: FormulaV, c: FormulaV)
    ensures
        sem_eq(
            spec_flatten(FormulaV::Add(seq![a, FormulaV::Add(seq![b, c])])),
            spec_flatten(FormulaV::Add(seq![FormulaV::Add(seq![a, b]), c])),
        ),
        sem_eq(
            spec_flatten(FormulaV::Mul(seq![a, FormulaV::Mul(seq![b, c])])),
            spec_flatten(FormulaV::Mul(seq![FormulaV::Mul(seq![a, b]), c])),
        ),
{
    let fa = spec_flatten(a);
    let fb = spec_flatten(b);
    let fc = spec_flatten(c);
    lemma_flatten_each_pair(a, FormulaV::Add(seq![b, c]));
    lemma_flatten_each_pair(FormulaV::Add(seq![a, b]), c);
    lemma_flatten_each_pair(a, FormulaV::Mul(seq![b, c]));
    lemma_flatten_each_pair(FormulaV::Mul(seq![a, b]), c);
    lemma_flatten_each_pair(b, c);
    lemma_flatten_each_pair(a, b);
    lemma_splice_pair(fa, fb);
    lemma_splice_pair(fb, fc);
    lemma_splice_pair(fa, FormulaV::Add(splice_add(seq![fb, fc])));
    lemma_splice_pair(FormulaV::Add(splice_add(seq![fa, fb])), fc);
    lemma_splice_pair(fa, FormulaV::Mul(splice_mul(seq![fb, fc])));
    lemma_splice_pair(FormulaV::Mul(splice_mul(seq![fa, fb])), fc);
    assert(sum_piece(fa) + (sum_piece(fb) + sum_piece(fc)) =~= (sum_piece(fa) + sum_piece(fb))
        + sum_piece(fc));
    assert(mul_piece(fa) + (mul_piece(fb) + mul_piece(fc)) =~= (mul_piece(fa) + mul_piece(fb))
        + mul_piece(fc));
    lemma_sem_eq_reflexive(spec_flatten(FormulaV::Add(seq![a, FormulaV::Add(seq![b, c])])));
    lemma_sem_eq_reflexive(spec_flatten(FormulaV::Mul(seq![a, FormulaV::Mul(seq![b, c])])));
}

} // verus!
