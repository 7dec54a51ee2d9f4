use vstd::prelude::*;

use crate::formula::{lemma_rank_seq_bounds, lemma_views_of, lemma_views_of_push, rank, rank_seq,
    views_of, Formula, FormulaV};

verus! {

/// Associativity normalization: every sum whose direct child is itself a
/// sum absorbs that child's children in place, bottom up, and likewise
/// for products. A product inside a sum (or the reverse) is normalized
/// internally but never merged into its parent. Terminals and the empty
/// expression are unchanged.
pub open spec fn spec_flatten(f: FormulaV) -> FormulaV
    decreases f,
{
    match f {
        FormulaV::TS(text) => FormulaV::TS(text),
        FormulaV::Add(children) => FormulaV::Add(splice_add(flatten_each(children))),
        FormulaV::Mul(children) => FormulaV::Mul(splice_mul(flatten_each(children))),
        FormulaV::Empty => FormulaV::Empty,
    }
}

/// Flatten every formula of a sequence, element by element.
pub open spec fn flatten_each(s: Seq<FormulaV>) -> Seq<FormulaV>
    decreases s,
{
    if s.len() == 0 {
        Seq::empty()
    } else {
        seq![spec_flatten(s[0])] + flatten_each(s.subrange(1, s.len() as int))
    }
}

/// Splice one level of sums: each direct child that is a sum contributes
/// its own children in place; every other child contributes itself.
pub open spec fn splice_add(s: Seq<FormulaV>) -> Seq<FormulaV>
    decreases s.len(),
{
    if s.len() == 0 {
        Seq::empty()
    } else {
        (match s[0] {
            FormulaV::Add(children) => children,
            _ => seq![s[0]],
        }) + splice_add(s.subrange(1, s.len() as int))
    }
}

/// Splice one level of products, as `splice_add` does for sums.
pub open spec fn splice_mul(s: Seq<FormulaV>) -> Seq<FormulaV>
    decreases s.len(),
{
    if s.len() == 0 {
        Seq::empty()
    } else {
        (match s[0] {
            FormulaV::Mul(children) => children,
            _ => seq![s[0]],
        }) + splice_mul(s.subrange(1, s.len() as int))
    }
}

/// A formula is flat when no sum has a sum as a direct child and no
/// product has a product as a direct child, at any depth.
pub open spec fn is_flat(f: FormulaV) -> bool
    decreases f,
{
    match f {
        FormulaV::TS(_) => true,
        FormulaV::Add(children) => flat_children(children, true),
        FormulaV::Mul(children) => flat_children(children, false),
        FormulaV::Empty => true,
    }
}

/// Every formula of the sequence is flat, and none is a sum (when the
/// parent is a sum, `in_sum`) or a product (when the parent is one).
pub open spec fn flat_children(s: Seq<FormulaV>, in_sum: bool) -> bool
    decreases s,
{
    if s.len() == 0 {
        true
    } else {
        &&& if in_sum {
            !(s[0] is Add)
        } else {
            !(s[0] is Mul)
        }
        &&& is_flat(s[0])
        &&& flat_children(s.subrange(1, s.len() as int), in_sum)
    }
}

/// `flatten_each` maps the sequence element by element.
pub proof fn lemma_flatten_each(s: Seq<FormulaV>)
    ensures
        flatten_each(s).len() == s.len(),
        forall|i: int| 0 <= i < s.len() ==> flatten_each(s)[i] == spec_flatten(#[trigger] s[i]),
    decreases s.len(),
{
    if s.len() > 0 {
        let rest = s.subrange(1, s.len() as int);
        lemma_flatten_each(rest);
        assert forall|i: int| 0 <= i < s.len() implies flatten_each(s)[i] == spec_flatten(
            #[trigger] s[i]) by {
            if i > 0 {
                assert(s[i] == rest[i - 1]);
                assert(flatten_each(s)[i] == flatten_each(rest)[i - 1]);
            }
        }
    }
}

/// `flat_children` is the conjunction of its conditions over every element.
pub proof fn lemma_flat_children(s: Seq<FormulaV>, in_sum: bool)
    ensures
        flat_children(s, in_sum) <==> (forall|i: int|
            0 <= i < s.len() ==> is_flat(#[trigger] s[i]) && (if in_sum {
                !(s[i] is Add)
            } else {
                !(s[i] is Mul)
            })),
    decreases s.len(),
{
    if s.len() > 0 {
        let rest = s.subrange(1, s.len() as int);
        lemma_flat_children(rest, in_sum);
        if flat_children(s, in_sum) {
            assert forall|i: int| 0 <= i < s.len() implies is_flat(#[trigger] s[i]) && (if in_sum {
                !(s[i] is Add)
            } else {
                !(s[i] is Mul)
            }) by {
                if i > 0 {
                    assert(s[i] == rest[i - 1]);
                }
            }
        }
        if forall|i: int|
            0 <= i < s.len() ==> is_flat(#[trigger] s[i]) && (if in_sum {
                !(s[i] is Add)
            } else {
                !(s[i] is Mul)
            }) {
            assert forall|i: int| 0 <= i < rest.len() implies is_flat(#[trigger] rest[i]) && (
            if in_sum {
                !(rest[i] is Add)
            } else {
                !(rest[i] is Mul)
            }) by {
                assert(rest[i] == s[i + 1]);
            }
            assert(flat_children(rest, in_sum));
            assert(flat_children(s, in_sum));
        }
    }
}

/// Flattening one more element extends the mapped sequence by one.
pub proof fn lemma_flatten_each_push(s: Seq<FormulaV>, x: FormulaV)
    ensures
        flatten_each(s.push(x)) == flatten_each(s).push(spec_flatten(x)),
{
    lemma_flatten_each(s);
    lemma_flatten_each(s.push(x));
    let lhs = flatten_each(s.push(x));
    let rhs = flatten_each(s).push(spec_flatten(x));
    assert forall|i: int| 0 <= i < lhs.len() implies lhs[i] == rhs[i] by {
        assert(s.push(x)[i] == (if i < s.len() {
            s[i]
        } else {
            x
        }));
    }
    assert(lhs =~= rhs);
}

/// Splicing one more sum-level element appends its contribution.
pub proof fn lemma_splice_add_push(s: Seq<FormulaV>, x: FormulaV)
    ensures
        splice_add(s.push(x)) == splice_add(s) + (match x {
            FormulaV::Add(children) => children,
            _ => seq![x],
        }),
    decreases s.len(),
{
    let all = s.push(x);
    if s.len() == 0 {
        assert(all.subrange(1, all.len() as int) =~= Seq::<FormulaV>::empty());
        assert(all[0] == x);
        assert(splice_add(all.subrange(1, all.len() as int)) == Seq::<FormulaV>::empty());
        assert(splice_add(s) == Seq::<FormulaV>::empty());
        assert(splice_add(all) =~= splice_add(s) + (match x {
            FormulaV::Add(children) => children,
            _ => seq![x],
        }));
    } else {
        let srest = s.subrange(1, s.len() as int);
        assert(all.subrange(1, all.len() as int) =~= srest.push(x));
        lemma_splice_add_push(srest, x);
        assert(all[0] == s[0]);
        let piece = (match x {
            FormulaV::Add(children) => children,
            _ => seq![x],
        });
        let head = (match s[0] {
            FormulaV::Add(children) => children,
            _ => seq![s[0]],
        });
        assert(splice_add(all) == head + splice_add(srest.push(x)));
        assert(splice_add(s) == head + splice_add(srest));
        assert(head + (splice_add(srest) + piece) =~= (head + splice_add(srest)) + piece);
    }
}

/// Splicing one more product-level element appends its contribution.
pub proof fn lemma_splice_mul_push(s: Seq<FormulaV>, x: FormulaV)
    ensures
        splice_mul(s.push(x)) == splice_mul(s) + (match x {
            FormulaV::Mul(children) => children,
            _ => seq![x],
        }),
    decreases s.len(),
{
    let all = s.push(x);
    if s.len() == 0 {
        assert(all.subrange(1, all.len() as int) =~= Seq::<FormulaV>::empty());
        assert(all[0] == x);
        assert(splice_mul(all.subrange(1, all.len() as int)) == Seq::<FormulaV>::empty());
        assert(splice_mul(s) == Seq::<FormulaV>::empty());
        assert(splice_mul(all) =~= splice_mul(s) + (match x {
            FormulaV::Mul(children) => children,
            _ => seq![x],
        }));
    } else {
        let srest = s.subrange(1, s.len() as int);
        assert(all.subrange(1, all.len() as int) =~= srest.push(x));
        lemma_splice_mul_push(srest, x);
        assert(all[0] == s[0]);
        let piece = (match x {
            FormulaV::Mul(children) => children,
            _ => seq![x],
        });
        let head = (match s[0] {
            FormulaV::Mul(children) => children,
            _ => seq![s[0]],
        });
        assert(splice_mul(all) == head + splice_mul(srest.push(x)));
        assert(splice_mul(s) == head + splice_mul(srest));
        assert(head + (splice_mul(srest) + piece) =~= (head + splice_mul(srest)) + piece);
    }
}

/// Splicing a sequence of flat formulas, none of which is a sum, at sum
/// level leaves every resulting element flat and sum-free; likewise for
/// products.
proof fn lemma_splice_flat(s: Seq<FormulaV>, in_sum: bool)
    requires
        forall|i: int| 0 <= i < s.len() ==> is_flat(#[trigger] s[i]),
    ensures
        flat_children(if in_sum {
            splice_add(s)
        } else {
            splice_mul(s)
        }, in_sum),
    decreases s.len(),
{
    let spliced = if in_sum {
        splice_add(s)
    } else {
        splice_mul(s)
    };
    lemma_flat_children(spliced, in_sum);
    if s.len() == 0 {
    } else {
        let rest = s.subrange(1, s.len() as int);
        assert forall|i: int| 0 <= i < rest.len() implies is_flat(#[trigger] rest[i]) by {
            assert(rest[i] == s[i + 1]);
        }
        lemma_splice_flat(rest, in_sum);
        let spliced_rest = if in_sum {
            splice_add(rest)
        } else {
            splice_mul(rest)
        };
        lemma_flat_children(spliced_rest, in_sum);
        let head = s[0];
        let piece = (match head {
            FormulaV::Add(children) if in_sum => children,
            FormulaV::Mul(children) if !in_sum => children,
            _ => seq![head],
        });
        assert(spliced == piece + spliced_rest);
        if (in_sum && head is Add) || (!in_sum && head is Mul) {
            match head {
                FormulaV::Add(children) => {
                    lemma_flat_children(children, in_sum);
                }
                FormulaV::Mul(children) => {
                    lemma_flat_children(children, in_sum);
                }
                _ => {}
            }
        }
        assert forall|i: int| 0 <= i < spliced.len() implies is_flat(#[trigger] spliced[i]) && (
        if in_sum {
            !(spliced[i] is Add)
        } else {
            !(spliced[i] is Mul)
        }) by {
            if i < piece.len() {
                assert(spliced[i] == piece[i]);
            } else {
                assert(spliced[i] == spliced_rest[i - piece.len()]);
            }
        }
    }
}

/// Every flattened formula is flat.
pub proof fn lemma_flatten_flat(f: FormulaV)
    ensures
        is_flat(spec_flatten(f)),
    decreases f,
{
    match f {
        FormulaV::Add(children) => {
            lemma_flatten_each_flat(children);
            lemma_flatten_each(children);
            lemma_splice_flat(flatten_each(children), true);
        }
        FormulaV::Mul(children) => {
            lemma_flatten_each_flat(children);
            lemma_flatten_each(children);
            lemma_splice_flat(flatten_each(children), false);
        }
        _ => {}
    }
}

/// Every element of a flattened child list is flat.
proof fn lemma_flatten_each_flat(s: Seq<FormulaV>)
    ensures
        forall|i: int| 0 <= i < flatten_each(s).len() ==> is_flat(#[trigger] flatten_each(s)[i]),
    decreases s,
{
    lemma_flatten_each(s);
    if s.len() > 0 {
        lemma_flatten_flat(s[0]);
        lemma_flatten_each_flat(s.subrange(1, s.len() as int));
        assert forall|i: int| 0 <= i < flatten_each(s).len() implies is_flat(
            #[trigger] flatten_each(s)[i]) by {
            if i > 0 {
                let rest = s.subrange(1, s.len() as int);
                lemma_flatten_each(rest);
                assert(s[i] == rest[i - 1]);
                assert(flatten_each(s)[i] == spec_flatten(rest[i - 1]));
                assert(flatten_each(rest)[i - 1] == spec_flatten(rest[i - 1]));
            }
        }
    }
}

/// Splicing a child list in which no element carries the parent's own
/// operator changes nothing.
proof fn lemma_splice_of_spliced(s: Seq<FormulaV>, in_sum: bool)
    requires
        forall|i: int|
            0 <= i < s.len() ==> (if in_sum {
                !(#[trigger] s[i] is Add)
            } else {
                !(s[i] is Mul)
            }),
    ensures
        (if in_sum {
            splice_add(s)
        } else {
            splice_mul(s)
        }) == s,
    decreases s.len(),
{
    if s.len() > 0 {
        let rest = s.subrange(1, s.len() as int);
        assert forall|i: int|
            0 <= i < rest.len() implies (if in_sum {
                !(#[trigger] rest[i] is Add)
            } else {
                !(rest[i] is Mul)
            }) by {
            assert(rest[i] == s[i + 1]);
        }
        lemma_splice_of_spliced(rest, in_sum);
        assert(s[0] == s[0]);
        if in_sum {
            assert(splice_add(s) == seq![s[0]] + splice_add(rest));
            assert(seq![s[0]] + rest =~= s);
        } else {
            assert(splice_mul(s) == seq![s[0]] + splice_mul(rest));
            assert(seq![s[0]] + rest =~= s);
        }
    } else {
        if in_sum {
            assert(splice_add(s) =~= s);
        } else {
            assert(splice_mul(s) =~= s);
        }
    }
}

/// Flattening a flat formula changes nothing.
pub proof fn lemma_flatten_of_flat(f: FormulaV)
    requires
        is_flat(f),
    ensures
        spec_flatten(f) == f,
    decreases f,
{
    match f {
        FormulaV::Add(children) => {
            lemma_flat_children(children, true);
            lemma_flatten_each_of_flat(children);
            lemma_splice_of_spliced(children, true);
            assert(spec_flatten(f) == FormulaV::Add(splice_add(children)));
        }
        FormulaV::Mul(children) => {
            lemma_flat_children(children, false);
            lemma_flatten_each_of_flat(children);
            lemma_splice_of_spliced(children, false);
            assert(spec_flatten(f) == FormulaV::Mul(splice_mul(children)));
        }
        _ => {}
    }
}

/// Flattening a child list of flat formulas changes nothing.
proof fn lemma_flatten_each_of_flat(s: Seq<FormulaV>)
    requires
        forall|i: int| 0 <= i < s.len() ==> is_flat(#[trigger] s[i]),
    ensures
        flatten_each(s) == s,
    decreases s,
{
    lemma_flatten_each(s);
    if s.len() > 0 {
        lemma_flatten_of_flat(s[0]);
        let rest = s.subrange(1, s.len() as int);
        assert forall|i: int| 0 <= i < rest.len() implies is_flat(#[trigger] rest[i]) by {
            assert(rest[i] == s[i + 1]);
        }
        lemma_flatten_each_of_flat(rest);
        assert(flatten_each(s) == seq![spec_flatten(s[0])] + flatten_each(rest));
        assert(seq![s[0]] + rest =~= s);
    } else {
        assert(flatten_each(s) =~= s);
    }
}

/// Flattening is idempotent: flattening an already flattened formula
/// gives the same tree back, structurally.
pub proof fn lemma_flatten_idempotent(f: FormulaV)
    ensures
        spec_flatten(spec_flatten(f)) == spec_flatten(f),
{
    lemma_flatten_flat(f);
    lemma_flatten_of_flat(spec_flatten(f));
}

impl Formula {
    /// Splice one level of sums in a child list: a direct child that is
    /// itself a sum hands its own children over in place; every other
    /// child stays as it is.
    pub fn expand_add(selfs: Vec<Formula>) -> (r: Vec<Formula>)
        ensures
            views_of(r@) == splice_add(views_of(selfs@)),
    {
        let ghost orig = selfs@;
        let mut src = selfs;
        let mut out: Vec<Formula> = Vec::new();
        let ghost mut k: int = 0;
        proof {
            assert(orig.take(0) =~= Seq::<Formula>::empty());
            assert(views_of(out@) =~= splice_add(views_of(orig.take(0))));
            assert(src@ =~= orig.subrange(0, orig.len() as int));
        }
        while src.len() > 0
            invariant
                0 <= k <= orig.len(),
                src@ == orig.subrange(k, orig.len() as int),
                views_of(out@) == splice_add(views_of(orig.take(k))),
            decreases src@.len(),
        {
            let head = src.remove(0);
            proof {
                assert(head == orig[k]);
                assert(src@ =~= orig.subrange(k + 1, orig.len() as int));
                assert(orig.take(k + 1) =~= orig.take(k).push(orig[k]));
                lemma_views_of_push(orig.take(k), orig[k]);
                lemma_splice_add_push(views_of(orig.take(k)), orig[k]@);
            }
            match head {
                Formula::Add(grand) => {
                    proof {
                        lemma_views_of(grand@);
                    }
                    append_all(&mut out, grand);
                }
                other => {
                    proof {
                        lemma_views_of_push(out@, other);
                        assert(seq![other@] =~= Seq::<FormulaV>::empty().push(other@));
                        assert(splice_add(views_of(orig.take(k))) + seq![other@] =~= splice_add(
                            views_of(orig.take(k))).push(other@));
                    }
                    out.push(other);
                }
            }
            proof {
                k = k + 1;
            }
        }
        proof {
            assert(orig.take(orig.len() as int) =~= orig);
        }
        out
    }

    /// Splice one level of products in a child list, as `expand_add`
    /// does for sums.
    pub fn expand_mul(selfs: Vec<Formula>) -> (r: Vec<Formula>)
        ensures
            views_of(r@) == splice_mul(views_of(selfs@)),
    {
        let ghost orig = selfs@;
        let mut src = selfs;
        let mut out: Vec<Formula> = Vec::new();
        let ghost mut k: int = 0;
        proof {
            assert(orig.take(0) =~= Seq::<Formula>::empty());
            assert(views_of(out@) =~= splice_mul(views_of(orig.take(0))));
            assert(src@ =~= orig.subrange(0, orig.len() as int));
        }
        while src.len() > 0
            invariant
                0 <= k <= orig.len(),
                src@ == orig.subrange(k, orig.len() as int),
                views_of(out@) == splice_mul(views_of(orig.take(k))),
            decreases src@.len(),
        {
            let head = src.remove(0);
            proof {
                assert(head == orig[k]);
                assert(src@ =~= orig.subrange(k + 1, orig.len() as int));
                assert(orig.take(k + 1) =~= orig.take(k).push(orig[k]));
                lemma_views_of_push(orig.take(k), orig[k]);
                lemma_splice_mul_push(views_of(orig.take(k)), orig[k]@);
            }
            match head {
                Formula::Mul(grand) => {
                    proof {
                        lemma_views_of(grand@);
                    }
                    append_all(&mut out, grand);
                }
                other => {
                    proof {
                        lemma_views_of_push(out@, other);
                        assert(seq![other@] =~= Seq::<FormulaV>::empty().push(other@));
                        assert(splice_mul(views_of(orig.take(k))) + seq![other@] =~= splice_mul(
                            views_of(orig.take(k))).push(other@));
                    }
                    out.push(other);
                }
            }
            proof {
                k = k + 1;
            }
        }
        proof {
            assert(orig.take(orig.len() as int) =~= orig);
        }
        out
    }

    /// Normalize this formula for associativity: flatten every nested
    /// sum of sums and product of products, bottom up.
    pub fn expand_paren(self) -> (r: Self)
        ensures
            r@ == spec_flatten(self@),
        decreases rank(self@), 0int,
    {
        match self {
            Formula::TS(text) => Formula::TS(text),
            Formula::Empty => Formula::Empty,
            Formula::Add(children) => {
                let flat = Self::expand_children(children);
                Formula::Add(Self::expand_add(flat))
            }
            Formula::Mul(children) => {
                let flat = Self::expand_children(children);
                Formula::Mul(Self::expand_mul(flat))
            }
        }
    }

    /// Flatten each formula of a child list in turn.
    fn expand_children(children: Vec<Formula>) -> (r: Vec<Formula>)
        ensures
            views_of(r@) == flatten_each(views_of(children@)),
        decreases rank_seq(views_of(children@)), 1int,
    {
        let ghost orig = children@;
        proof {
            lemma_views_of(orig);
            lemma_rank_seq_bounds(views_of(orig));
        }
        let mut src = children;
        let mut out: Vec<Formula> = Vec::new();
        let ghost mut k: int = 0;
        proof {
            assert(orig.take(0) =~= Seq::<Formula>::empty());
            assert(views_of(out@) =~= flatten_each(views_of(orig.take(0))));
            assert(src@ =~= orig.subrange(0, orig.len() as int));
        }
        while src.len() > 0
            invariant
                0 <= k <= orig.len(),
                orig == children@,
                src@ == orig.subrange(k, orig.len() as int),
                views_of(out@) == flatten_each(views_of(orig.take(k))),
            decreases src@.len(),
        {
            let head = src.remove(0);
            proof {
                assert(head == orig[k]);
                assert(src@ =~= orig.subrange(k + 1, orig.len() as int));
                lemma_views_of(orig);
                lemma_rank_seq_bounds(views_of(orig));
                assert(views_of(orig)[k] == orig[k]@);
            }
            let flat_head = head.expand_paren();
            proof {
                assert(orig.take(k + 1) =~= orig.take(k).push(orig[k]));
                lemma_views_of_push(orig.take(k), orig[k]);
                lemma_flatten_each_push(views_of(orig.take(k)), orig[k]@);
                lemma_views_of_push(out@, flat_head);
            }
            out.push(flat_head);
            proof {
                k = k + 1;
            }
        }
        proof {
            assert(orig.take(orig.len() as int) =~= orig);
        }
        out
    }
}

/// Move every formula of `items` to the end of `out`, in order.
fn append_all(out: &mut Vec<Formula>, items: Vec<Formula>)
    ensures
        views_of(final(out)@) == views_of(old(out)@) + views_of(items@),
{
    let ghost orig = items@;
    let ghost start = old(out)@;
    let mut src = items;
    let ghost mut k: int = 0;
    proof {
        lemma_views_of(start);
        assert(orig.take(0) =~= Seq::<Formula>::empty());
        assert(views_of(orig.take(0)) =~= Seq::<FormulaV>::empty());
        assert(views_of(out@) =~= views_of(start) + views_of(orig.take(0)));
        assert(src@ =~= orig.subrange(0, orig.len() as int));
    }
    while src.len() > 0
        invariant
            0 <= k <= orig.len(),
            src@ == orig.subrange(k, orig.len() as int),
            views_of(out@) == views_of(start) + views_of(orig.take(k)),
        decreases src@.len(),
    {
        let head = src.remove(0);
        proof {
            assert(head == orig[k]);
            assert(src@ =~= orig.subrange(k + 1, orig.len() as int));
            assert(orig.take(k + 1) =~= orig.take(k).push(orig[k]));
            lemma_views_of_push(orig.take(k), orig[k]);
            lemma_views_of_push(out@, head);
            assert((views_of(start) + views_of(orig.take(k))).push(orig[k]@) =~= views_of(start)
                + views_of(orig.take(k)).push(orig[k]@));
        }
        out.push(head);
        proof {
            k = k + 1;
        }
    }
    proof {
        assert(orig.take(orig.len() as int) =~= orig);
    }
}

} // verus!
