use vstd::prelude::*;

verus! {

/// An algebraic expression: a terminal symbol, a sum of children,
/// a product of children, or the empty expression (the parse of a
/// blank input or of a vacuous group such as `()`).
#[derive(Debug)]
pub enum Formula {
    TS(Vec<char>),
    Add(Vec<Formula>),
    Mul(Vec<Formula>),
    Empty,
}

/// The mathematical model of a [`Formula`]: the same tree, with
/// sequences in place of vectors.
#[verifier::ext_equal]
pub enum FormulaV {
    TS(Seq<char>),
    Add(Seq<FormulaV>),
    Mul(Seq<FormulaV>),
    Empty,
}

impl View for Formula {
    type V = FormulaV;

    open spec fn view(&self) -> FormulaV
        decreases self,
    {
        match self {
            Formula::TS(text) => FormulaV::TS(text@),
            Formula::Add(children) => FormulaV::Add(views_of(children@)),
            Formula::Mul(children) => FormulaV::Mul(views_of(children@)),
            Formula::Empty => FormulaV::Empty,
        }
    }
}

/// The models of a sequence of formulas, element by element.
pub open spec fn views_of(s: Seq<Formula>) -> Seq<FormulaV>
    decreases s,
{
    if s.len() == 0 {
        Seq::empty()
    } else {
        seq![s[0]@] + views_of(s.subrange(1, s.len() as int))
    }
}

/// The size of a formula tree: one for each node. It serves as the
/// termination measure of the functions that walk two trees at once.
pub open spec fn rank(f: FormulaV) -> nat
    decreases f,
{
    match f {
        FormulaV::TS(_) => 1,
        FormulaV::Add(children) => 1 + rank_seq(children),
        FormulaV::Mul(children) => 1 + rank_seq(children),
        FormulaV::Empty => 1,
    }
}

/// The summed size of a sequence of formula trees.
pub open spec fn rank_seq(s: Seq<FormulaV>) -> nat
    decreases s,
{
    if s.len() == 0 {
        0
    } else {
        rank(s[0]) + rank_seq(s.subrange(1, s.len() as int))
    }
}

/// `views_of` maps the sequence element by element.
pub proof fn lemma_views_of(s: Seq<Formula>)
    ensures
        views_of(s).len() == s.len(),
        forall|i: int| 0 <= i < s.len() ==> views_of(s)[i] == #[trigger] s[i]@,
    decreases s.len(),
{
    if s.len() > 0 {
        let rest = s.subrange(1, s.len() as int);
        lemma_views_of(rest);
        assert(views_of(s) == seq![s[0]@] + views_of(rest));
        assert(views_of(s).len() == 1 + views_of(rest).len());
        assert forall|i: int| 0 <= i < s.len() implies views_of(s)[i] == #[trigger] s[i]@ by {
            if i > 0 {
                assert(s[i] == rest[i - 1]);
                assert(views_of(s)[i] == views_of(rest)[i - 1]);
            }
        }
    } else {
        assert(views_of(s).len() == 0);
    }
}

/// Every formula tree has at least one node.
pub proof fn lemma_rank_pos(f: FormulaV)
    ensures
        rank(f) >= 1,
{
}

/// `views_of` commutes with appending an element.
pub proof fn lemma_views_of_push(s: Seq<Formula>, x: Formula)
    ensures
        views_of(s.push(x)) == views_of(s).push(x@),
{
    lemma_views_of(s);
    lemma_views_of(s.push(x));
    let lhs = views_of(s.push(x));
    let rhs = views_of(s).push(x@);
    assert forall|i: int| 0 <= i < lhs.len() implies lhs[i] == rhs[i] by {
        assert(lhs[i] == s.push(x)[i]@);
        if i < s.len() {
            assert(s.push(x)[i] == s[i]);
            assert(rhs[i] == s[i]@);
        } else {
            assert(s.push(x)[i] == x);
        }
    }
    assert(lhs =~= rhs);
}

/// Every element of a sequence weighs no more than the whole sequence.
pub proof fn lemma_rank_seq_bounds(s: Seq<FormulaV>)
    ensures
        forall|i: int| 0 <= i < s.len() ==> #[trigger] rank(s[i]) <= rank_seq(s),
    decreases s.len(),
{
    if s.len() > 0 {
        let rest = s.subrange(1, s.len() as int);
        lemma_rank_seq_bounds(rest);
        assert forall|i: int| 0 <= i < s.len() implies #[trigger] rank(s[i]) <= rank_seq(s) by {
            if i > 0 {
                assert(s[i] == rest[i - 1]);
            }
        }
    }
}

impl Formula {
    /// Whether the formula is the empty expression.
    pub fn is_empty(&self) -> (r: bool)
        ensures
            r == (self@ is Empty),
    {
        matches!(self, Formula::Empty)
    }

    /// A deep copy of the formula: the new tree models the same value.
    pub fn duplicate(&self) -> (r: Self)
        ensures
            r@ == self@,
        decreases rank(self@), 0int,
    {
        match self {
            Formula::TS(text) => {
                let mut copy: Vec<char> = Vec::new();
                let n = text.len();
                let mut i: usize = 0;
                while i < n
                    invariant
                        0 <= i <= n,
                        n == text@.len(),
                        copy@ =~= text@.take(i as int),
                    decreases n - i,
                {
                    let c = text[i];
                    copy.push(c);
                    i += 1;
                    proof {
                        assert(copy@ =~= text@.take(i as int));
                    }
                }
                proof {
                    assert(copy@ =~= text@);
                }
                Formula::TS(copy)
            },
            Formula::Empty => Formula::Empty,
            Formula::Add(children) => Formula::Add(Self::duplicate_all(children)),
            Formula::Mul(children) => Formula::Mul(Self::duplicate_all(children)),
        }
    }

    /// Deep copies of every formula of a child list, in order.
    fn duplicate_all(children: &Vec<Formula>) -> (r: Vec<Formula>)
        ensures
            views_of(r@) == views_of(children@),
        decreases rank_seq(views_of(children@)), 1int,
    {
        proof {
            lemma_views_of(children@);
            lemma_rank_seq_bounds(views_of(children@));
        }
        let n = children.len();
        let mut out: Vec<Formula> = Vec::new();
        let mut i: usize = 0;
        proof {
            assert(views_of(out@) =~= Seq::<FormulaV>::empty());
        }
        while i < n
            invariant
                0 <= i <= n,
                n == children@.len(),
                views_of(children@).len() == n,
                forall|j: int| 0 <= j < n ==> views_of(children@)[j] == #[trigger] children@[j]@,
                forall|j: int|
                    0 <= j < n ==> rank(#[trigger] views_of(children@)[j]) <= rank_seq(
                        views_of(children@),
                    ),
                views_of(out@).len() == i,
                forall|j: int| 0 <= j < i ==> views_of(out@)[j] == views_of(children@)[j],
            decreases n - i,
        {
            let copy = children[i].duplicate();
            proof {
                lemma_views_of_push(out@, copy);
            }
            out.push(copy);
            i += 1;
        }
        proof {
            assert(views_of(out@) =~= views_of(children@));
        }
        out
    }
}

} // verus!
