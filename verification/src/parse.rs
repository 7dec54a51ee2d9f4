use vstd::prelude::*;

use crate::errors::ParseFormulaError;
use crate::formula::{lemma_views_of, lemma_views_of_push, views_of, Formula, FormulaV};

verus! {

/// What a character contributes to the parenthesis nesting depth.
pub open spec fn char_depth(c: char) -> int {
    if c == '(' {
        1
    } else if c == ')' {
        -1
    } else {
        0
    }
}

/// The net parenthesis nesting depth of a string.
pub open spec fn depth_of(s: Seq<char>) -> int
    decreases s.len(),
{
    if s.len() == 0 {
        0
    } else {
        depth_of(s.subrange(0, s.len() - 1)) + char_depth(s[s.len() - 1])
    }
}

/// The scan over a string fails when a closing parenthesis appears
/// before its opening partner (some prefix dips below depth zero) or
/// when an opening parenthesis is never closed (the final depth is not
/// zero).
pub open spec fn scan_fails(s: Seq<char>) -> bool {
    (exists|i: int| 0 <= i <= s.len() && depth_of(s.take(i)) < 0) || depth_of(s) != 0
}

/// Every character is a parenthesis, and there is at least one.
pub open spec fn is_all_parens(s: Seq<char>) -> bool {
    s.len() > 0 && forall|i: int| 0 <= i < s.len() ==> s[i] == '(' || s[i] == ')'
}

/// The whole string is wrapped in one matching pair of parentheses:
/// it opens with `(`, closes with `)`, and the nesting depth never
/// returns to zero before the final character.
pub open spec fn is_wrapped(s: Seq<char>) -> bool {
    &&& s.len() >= 2
    &&& s[0] == '('
    &&& s[s.len() - 1] == ')'
    &&& forall|i: int| 1 <= i < s.len() ==> depth_of(#[trigger] s.take(i)) != 0
}

/// Cut a string at every occurrence of `op` that stands at nesting
/// depth zero. The result always holds at least one piece; the cutting
/// characters themselves are dropped.
pub open spec fn split_top(s: Seq<char>, op: char) -> Seq<Seq<char>>
    decreases s.len(),
{
    if s.len() == 0 {
        seq![Seq::empty()]
    } else {
        let done = split_top(s.subrange(0, s.len() - 1), op);
        let c = s[s.len() - 1];
        if c == op && depth_of(s.subrange(0, s.len() - 1)) == 0 {
            done.push(Seq::empty())
        } else {
            done.update(done.len() - 1, done.last().push(c))
        }
    }
}

/// The summed length of a sequence of strings.
pub open spec fn total_len(ts: Seq<Seq<char>>) -> nat
    decreases ts.len(),
{
    if ts.len() == 0 {
        0
    } else {
        total_len(ts.subrange(0, ts.len() - 1)) + ts.last().len()
    }
}

/// Splitting distributes every character of the string over the pieces:
/// each cut drops one character, and nothing else is lost.
pub proof fn lemma_split_top_total(s: Seq<char>, op: char)
    ensures
        split_top(s, op).len() >= 1,
        total_len(split_top(s, op)) + split_top(s, op).len() - 1 == s.len(),
    decreases s.len(),
{
    if s.len() == 0 {
        let base = seq![Seq::<char>::empty()];
        assert(split_top(s, op) == base);
        assert(base.subrange(0, 0) =~= Seq::<Seq<char>>::empty());
        assert(total_len(Seq::<Seq<char>>::empty()) == 0);
        assert(total_len(base) == 0);
    } else {
        let shorter = s.subrange(0, s.len() - 1);
        lemma_split_top_total(shorter, op);
        let done = split_top(shorter, op);
        let c = s[s.len() - 1];
        if c == op && depth_of(shorter) == 0 {
            let pushed = done.push(Seq::empty());
            assert(split_top(s, op) == pushed);
            assert(pushed.subrange(0, pushed.len() - 1) =~= done);
            assert(pushed.last() =~= Seq::<char>::empty());
            assert(total_len(pushed) == total_len(done));
        } else {
            let grown = done.update(done.len() - 1, done.last().push(c));
            assert(split_top(s, op) == grown);
            assert(grown.len() == done.len());
            assert(grown.last() == done.last().push(c));
            assert(grown.subrange(0, grown.len() - 1) =~= done.subrange(0, done.len() - 1));
            assert(total_len(done) == total_len(done.subrange(0, done.len() - 1))
                + done.last().len());
            assert(total_len(grown) == total_len(grown.subrange(0, grown.len() - 1))
                + grown.last().len());
            assert(total_len(grown) == total_len(done) + 1);
        }
    }
}

/// No piece of a sequence of strings is longer than their total.
pub proof fn lemma_total_len_bounds(ts: Seq<Seq<char>>)
    ensures
        forall|i: int| 0 <= i < ts.len() ==> (#[trigger] ts[i]).len() <= total_len(ts),
    decreases ts.len(),
{
    if ts.len() > 0 {
        let front = ts.subrange(0, ts.len() - 1);
        lemma_total_len_bounds(front);
        assert forall|i: int| 0 <= i < ts.len() implies (#[trigger] ts[i]).len() <= total_len(
            ts) by {
            if i < ts.len() - 1 {
                assert(ts[i] == front[i]);
            }
        }
    }
}

/// Whether a character counts as blank space. It names the result of
/// `char::is_whitespace`, which depends on the character alone.
pub uninterp spec fn is_space(c: char) -> bool;

/// Relies on char::is_whitespace: whether the character has the Unicode
/// white-space property. The result is a function of the character
/// alone; the space character is blank, and the printable ASCII
/// characters `!` through `~` (so in particular `(`, `)`, `+`, `*`,
/// letters and digits) are not.
#[verifier::external_body]
pub(crate) fn char_is_space(c: char) -> (r: bool)
    ensures
        r == is_space(c),
        c == ' ' ==> r,
        '!' <= c <= '~' ==> !r,
{
    c.is_whitespace()
}

/// Drop blank characters from the front of a string.
pub open spec fn trim_front(s: Seq<char>) -> Seq<char>
    decreases s.len(),
{
    if s.len() > 0 && is_space(s[0]) {
        trim_front(s.subrange(1, s.len() as int))
    } else {
        s
    }
}

/// Drop blank characters from the back of a string.
pub open spec fn trim_back(s: Seq<char>) -> Seq<char>
    decreases s.len(),
{
    if s.len() > 0 && is_space(s[s.len() - 1]) {
        trim_back(s.subrange(0, s.len() - 1))
    } else {
        s
    }
}

/// Drop blank characters from both ends of a string.
pub open spec fn trim_spec(s: Seq<char>) -> Seq<char> {
    trim_back(trim_front(s))
}

/// Trimming never lengthens a string.
pub proof fn lemma_trim_len(s: Seq<char>)
    ensures
        trim_spec(s).len() <= s.len(),
{
    lemma_trim_front_len(s);
    lemma_trim_back_len(trim_front(s));
}

proof fn lemma_trim_front_len(s: Seq<char>)
    ensures
        trim_front(s).len() <= s.len(),
    decreases s.len(),
{
    if s.len() > 0 && is_space(s[0]) {
        lemma_trim_front_len(s.subrange(1, s.len() as int));
    }
}

proof fn lemma_trim_back_len(s: Seq<char>)
    ensures
        trim_back(s).len() <= s.len(),
    decreases s.len(),
{
    if s.len() > 0 && is_space(s[s.len() - 1]) {
        lemma_trim_back_len(s.subrange(0, s.len() - 1));
    }
}

/// Trim every piece and keep those that are left non-empty, in order.
pub open spec fn clean_terms(ts: Seq<Seq<char>>) -> Seq<Seq<char>>
    decreases ts.len(),
{
    if ts.len() == 0 {
        Seq::empty()
    } else {
        let t = trim_spec(ts[0]);
        (if t.len() > 0 {
            seq![t]
        } else {
            Seq::empty()
        }) + clean_terms(ts.subrange(1, ts.len() as int))
    }
}

/// There are never more cleaned terms than raw pieces.
pub proof fn lemma_clean_terms_len(ts: Seq<Seq<char>>)
    ensures
        clean_terms(ts).len() <= ts.len(),
    decreases ts.len(),
{
    if ts.len() > 0 {
        lemma_clean_terms_len(ts.subrange(1, ts.len() as int));
    }
}

/// A length bound on the raw pieces carries over to the cleaned terms.
pub proof fn lemma_clean_terms_bound(ts: Seq<Seq<char>>, m: nat)
    requires
        forall|j: int| 0 <= j < ts.len() ==> (#[trigger] ts[j]).len() <= m,
    ensures
        forall|i: int| 0 <= i < clean_terms(ts).len() ==> (#[trigger] clean_terms(ts)[i]).len()
            <= m,
    decreases ts.len(),
{
    if ts.len() > 0 {
        let rest = ts.subrange(1, ts.len() as int);
        assert forall|j: int| 0 <= j < rest.len() implies (#[trigger] rest[j]).len() <= m by {
            assert(rest[j] == ts[j + 1]);
        }
        lemma_clean_terms_bound(rest, m);
        lemma_trim_len(ts[0]);
        let t = trim_spec(ts[0]);
        let head = (if t.len() > 0 {
            seq![t]
        } else {
            Seq::<Seq<char>>::empty()
        });
        assert forall|i: int|
            0 <= i < clean_terms(ts).len() implies (#[trigger] clean_terms(ts)[i]).len() <= m by {
            if i < head.len() {
                assert(clean_terms(ts)[i] == t);
            } else {
                assert(clean_terms(ts)[i] == clean_terms(rest)[i - head.len()]);
            }
        }
    }
}

/// Cleaning one more piece appends its trimmed text when that is
/// non-empty and nothing otherwise.
pub proof fn lemma_clean_terms_push(ts: Seq<Seq<char>>, t: Seq<char>)
    ensures
        clean_terms(ts.push(t)) == clean_terms(ts) + (if trim_spec(t).len() > 0 {
            seq![trim_spec(t)]
        } else {
            Seq::<Seq<char>>::empty()
        }),
    decreases ts.len(),
{
    let all = ts.push(t);
    let piece = (if trim_spec(t).len() > 0 {
        seq![trim_spec(t)]
    } else {
        Seq::<Seq<char>>::empty()
    });
    if ts.len() == 0 {
        assert(all.subrange(1, all.len() as int) =~= Seq::<Seq<char>>::empty());
        assert(all[0] == t);
        assert(clean_terms(all.subrange(1, all.len() as int)) == Seq::<Seq<char>>::empty());
        assert(clean_terms(ts) == Seq::<Seq<char>>::empty());
        assert(clean_terms(all) =~= clean_terms(ts) + piece);
    } else {
        let rest = ts.subrange(1, ts.len() as int);
        assert(all.subrange(1, all.len() as int) =~= rest.push(t));
        lemma_clean_terms_push(rest, t);
        assert(all[0] == ts[0]);
        let h = trim_spec(ts[0]);
        let head = (if h.len() > 0 {
            seq![h]
        } else {
            Seq::<Seq<char>>::empty()
        });
        assert(clean_terms(all) == head + clean_terms(rest.push(t)));
        assert(clean_terms(ts) == head + clean_terms(rest));
        assert(head + (clean_terms(rest) + piece) =~= (head + clean_terms(rest)) + piece);
    }
}

/// The single characters of a term under implicit multiplication: each
/// becomes its own piece, blank characters becoming empty pieces.
pub open spec fn exploded(t: Seq<char>) -> Seq<Seq<char>> {
    Seq::new(t.len(), |i: int| if is_space(t[i]) {
        Seq::empty()
    } else {
        seq![t[i]]
    })
}

/// Parse each piece in turn: the first failure fails the whole list.
/// `bound` strictly exceeds the length of every piece.
pub open spec fn parse_terms(ts: Seq<Seq<char>>, bound: nat) -> Option<Seq<FormulaV>>
    decreases bound, 6int, ts.len(),
        when forall|i: int| 0 <= i < ts.len() ==> (#[trigger] ts[i]).len() < bound
{
    if ts.len() == 0 {
        Some(Seq::empty())
    } else {
        match spec_parse_part(ts[0]) {
            Option::None => Option::None,
            Option::Some(f) => match parse_terms(ts.subrange(1, ts.len() as int), bound) {
                Option::None => Option::None,
                Option::Some(rest) => Some(seq![f] + rest),
            },
        }
    }
}

/// Drop every empty expression from a list of parsed children.
pub open spec fn drop_empty(fs: Seq<FormulaV>) -> Seq<FormulaV>
    decreases fs.len(),
{
    if fs.len() == 0 {
        Seq::empty()
    } else {
        (if fs[0] is Empty {
            Seq::<FormulaV>::empty()
        } else {
            seq![fs[0]]
        }) + drop_empty(fs.subrange(1, fs.len() as int))
    }
}

/// Collapse a filtered child list into a sum: none left is the empty
/// expression, a single child stands alone, two or more form a sum.
pub open spec fn collapse_sum(children: Seq<FormulaV>) -> FormulaV {
    if children.len() == 0 {
        FormulaV::Empty
    } else if children.len() == 1 {
        children[0]
    } else {
        FormulaV::Add(children)
    }
}

/// Collapse a filtered child list into a product, as `collapse_sum`
/// does for sums.
pub open spec fn collapse_mul(children: Seq<FormulaV>) -> FormulaV {
    if children.len() == 0 {
        FormulaV::Empty
    } else if children.len() == 1 {
        children[0]
    } else {
        FormulaV::Mul(children)
    }
}

/// The parse of one fragment of the input - a term between operators,
/// the interior of a parenthesized group, or a single character under
/// implicit multiplication. It enters at the sum level; the product
/// level follows when no top-level `+` splits the fragment. `None` is
/// the single malformed-expression failure. A fragment of parentheses
/// alone collapses to the empty expression even when unbalanced (a lone
/// `(` freed by implicit multiplication dissolves); the balance of the
/// whole input is `spec_parse`'s business, not the fragments'.
pub open spec fn spec_parse_part(s: Seq<char>) -> Option<FormulaV>
    decreases s.len(), 9int, 0int,
{
    spec_parse_sum(s)
}

/// The parse of a whole input text: the scan must find its parentheses
/// balanced - a `)` before its opening partner or an unclosed `(` is
/// the malformed-expression failure, and no unbalanced input ever
/// yields a tree - and the text is then read as one fragment.
pub open spec fn spec_parse(s: Seq<char>) -> Option<FormulaV> {
    if scan_fails(s) {
        Option::None
    } else {
        spec_parse_part(s)
    }
}

/// The sum level: a fragment of parentheses alone is the empty
/// expression; a fully wrapped fragment is unwrapped and reparsed; a
/// fragment that fails the scan fails; otherwise the fragment is cut at every
/// top-level `+`, the pieces are trimmed, blank pieces are dropped, and
/// what remains is parsed - one piece at the product level, several as
/// the children of a sum, with children that parse to the empty
/// expression filtered away.
pub open spec fn spec_parse_sum(s: Seq<char>) -> Option<FormulaV>
    decreases s.len(), 8int, 0int,
    via spec_parse_sum_decreases
{
    if is_all_parens(s) {
        Some(FormulaV::Empty)
    } else if is_wrapped(s) {
        spec_parse_part(s.subrange(1, s.len() - 1))
    } else if scan_fails(s) {
        Option::None
    } else {
        let terms = clean_terms(split_top(s, '+'));
        if terms.len() == 0 {
            Some(FormulaV::Empty)
        } else if terms.len() == 1 {
            spec_parse_mul(terms[0])
        } else {
            match parse_terms(terms, s.len()) {
                Option::None => Option::None,
                Option::Some(children) => Some(collapse_sum(drop_empty(children))),
            }
        }
    }
}

#[via_fn]
proof fn spec_parse_sum_decreases(s: Seq<char>) {
    lemma_split_top_total(s, '+');
    lemma_total_len_bounds(split_top(s, '+'));
    lemma_clean_terms_bound(split_top(s, '+'), s.len());
}

/// The product level: as the sum level, but cutting at `*`; a single
/// remaining piece of one character is a terminal, and a longer one is
/// implicit multiplication - it is exploded into its characters, each
/// parsed on its own.
pub open spec fn spec_parse_mul(s: Seq<char>) -> Option<FormulaV>
    decreases s.len(), 7int, 0int,
    via spec_parse_mul_decreases
{
    if is_all_parens(s) {
        Some(FormulaV::Empty)
    } else if is_wrapped(s) {
        spec_parse_part(s.subrange(1, s.len() - 1))
    } else if scan_fails(s) {
        Option::None
    } else {
        let terms = clean_terms(split_top(s, '*'));
        if terms.len() == 0 {
            Some(FormulaV::Empty)
        } else if terms.len() == 1 && terms[0].len() == 1 {
            Some(FormulaV::TS(terms[0]))
        } else if terms.len() == 1 {
            match parse_terms(exploded(terms[0]), s.len()) {
                Option::None => Option::None,
                Option::Some(children) => Some(collapse_mul(drop_empty(children))),
            }
        } else {
            match parse_terms(terms, s.len()) {
                Option::None => Option::None,
                Option::Some(children) => Some(collapse_mul(drop_empty(children))),
            }
        }
    }
}

#[via_fn]
proof fn spec_parse_mul_decreases(s: Seq<char>) {
    lemma_split_top_total(s, '*');
    lemma_total_len_bounds(split_top(s, '*'));
    lemma_clean_terms_bound(split_top(s, '*'), s.len());
}

/// Well-formedness of a parsed tree, as the parser guarantees it:
/// every sum and every product holds at least two children and none of
/// them is the empty expression, and every terminal holds exactly one
/// character, which is not blank.
pub open spec fn well_formed(f: FormulaV) -> bool
    decreases f,
{
    match f {
        FormulaV::TS(text) => text.len() == 1 && !is_space(text[0]),
        FormulaV::Add(children) => children.len() >= 2 && well_formed_children(children),
        FormulaV::Mul(children) => children.len() >= 2 && well_formed_children(children),
        FormulaV::Empty => true,
    }
}

/// Every formula of the sequence is well formed, and none is the empty
/// expression.
pub open spec fn well_formed_children(s: Seq<FormulaV>) -> bool
    decreases s,
{
    if s.len() == 0 {
        true
    } else {
        !(s[0] is Empty) && well_formed(s[0]) && well_formed_children(
            s.subrange(1, s.len() as int),
        )
    }
}

/// `well_formed_children` is the conjunction of its conditions over the
/// elements.
pub proof fn lemma_well_formed_children(s: Seq<FormulaV>)
    ensures
        well_formed_children(s) <==> (forall|i: int|
            0 <= i < s.len() ==> !(#[trigger] s[i] is Empty) && well_formed(s[i])),
    decreases s.len(),
{
    if s.len() > 0 {
        let rest = s.subrange(1, s.len() as int);
        lemma_well_formed_children(rest);
        if well_formed_children(s) {
            assert forall|i: int|
                0 <= i < s.len() implies !(#[trigger] s[i] is Empty) && well_formed(s[i]) by {
                if i > 0 {
                    assert(s[i] == rest[i - 1]);
                }
            }
        }
        if forall|i: int| 0 <= i < s.len() ==> !(#[trigger] s[i] is Empty) && well_formed(s[i]) {
            assert forall|i: int|
                0 <= i < rest.len() implies !(#[trigger] rest[i] is Empty) && well_formed(
                rest[i]) by {
                assert(rest[i] == s[i + 1]);
            }
            assert(well_formed_children(rest));
            assert(well_formed_children(s));
        }
    }
}

/// Filtering the empty children keeps every remaining child well formed
/// and leaves no empty expression behind.
proof fn lemma_drop_empty_well(fs: Seq<FormulaV>)
    requires
        forall|j: int| 0 <= j < fs.len() ==> well_formed(#[trigger] fs[j]),
    ensures
        forall|k: int|
            0 <= k < drop_empty(fs).len() ==> well_formed(#[trigger] drop_empty(fs)[k]) && !(
            drop_empty(fs)[k] is Empty),
    decreases fs.len(),
{
    if fs.len() > 0 {
        let rest = fs.subrange(1, fs.len() as int);
        assert forall|j: int| 0 <= j < rest.len() implies well_formed(#[trigger] rest[j]) by {
            assert(rest[j] == fs[j + 1]);
        }
        lemma_drop_empty_well(rest);
        let head = (if fs[0] is Empty {
            Seq::<FormulaV>::empty()
        } else {
            seq![fs[0]]
        });
        assert forall|k: int|
            0 <= k < drop_empty(fs).len() implies well_formed(#[trigger] drop_empty(fs)[k]) && !(
        drop_empty(fs)[k] is Empty) by {
            if k < head.len() {
                assert(drop_empty(fs)[k] == fs[0]);
            } else {
                assert(drop_empty(fs)[k] == drop_empty(rest)[k - head.len()]);
            }
        }
    }
}

/// A non-empty trimmed string neither starts nor ends with a blank
/// character.
pub proof fn lemma_trim_edges(s: Seq<char>)
    ensures
        trim_spec(s).len() > 0 ==> !is_space(trim_spec(s)[0]),
        trim_spec(s).len() > 0 ==> !is_space(trim_spec(s)[trim_spec(s).len() - 1]),
{
    lemma_trim_front_edge(s);
    lemma_trim_back_edge(trim_front(s));
}

proof fn lemma_trim_front_edge(s: Seq<char>)
    ensures
        trim_front(s).len() > 0 ==> !is_space(trim_front(s)[0]),
    decreases s.len(),
{
    if s.len() > 0 && is_space(s[0]) {
        lemma_trim_front_edge(s.subrange(1, s.len() as int));
    }
}

proof fn lemma_trim_back_edge(s: Seq<char>)
    ensures
        trim_back(s).len() > 0 ==> !is_space(trim_back(s)[trim_back(s).len() - 1]),
        trim_back(s).len() > 0 ==> trim_back(s)[0] == s[0],
    decreases s.len(),
{
    if s.len() > 0 && is_space(s[s.len() - 1]) {
        let front = s.subrange(0, s.len() - 1);
        lemma_trim_back_edge(front);
        if trim_back(s).len() > 0 {
            assert(front[0] == s[0]);
        }
    }
}

/// Every cleaned term is non-empty and neither starts nor ends with a
/// blank character.
pub proof fn lemma_clean_terms_edges(ts: Seq<Seq<char>>)
    ensures
        forall|i: int|
            0 <= i < clean_terms(ts).len() ==> ((#[trigger] clean_terms(ts)[i]).len() > 0
                && !is_space(clean_terms(ts)[i][0]) && !is_space(
                clean_terms(ts)[i][clean_terms(ts)[i].len() - 1],
            )),
    decreases ts.len(),
{
    if ts.len() > 0 {
        let rest = ts.subrange(1, ts.len() as int);
        lemma_clean_terms_edges(rest);
        lemma_trim_edges(ts[0]);
        let t = trim_spec(ts[0]);
        let head = (if t.len() > 0 {
            seq![t]
        } else {
            Seq::<Seq<char>>::empty()
        });
        assert forall|i: int|
            0 <= i < clean_terms(ts).len() implies ((#[trigger] clean_terms(ts)[i]).len() > 0
            && !is_space(clean_terms(ts)[i][0]) && !is_space(
            clean_terms(ts)[i][clean_terms(ts)[i].len() - 1],
        )) by {
            if i < head.len() {
                assert(clean_terms(ts)[i] == t);
            } else {
                assert(clean_terms(ts)[i] == clean_terms(rest)[i - head.len()]);
            }
        }
    }
}

/// A parsed tree is well formed: no sum or product with fewer than two
/// children or with an empty-expression child, and no terminal other
/// than a single non-blank character, ever comes out of the parser.
pub proof fn lemma_parse_well_formed(s: Seq<char>)
    ensures
        spec_parse(s) is Some ==> well_formed(spec_parse(s)->Some_0),
{
    lemma_parse_part_well_formed(s);
}

/// Every parsed fragment is well formed, too.
pub proof fn lemma_parse_part_well_formed(s: Seq<char>)
    ensures
        spec_parse_part(s) is Some ==> well_formed(spec_parse_part(s)->Some_0),
    decreases s.len(), 9int, 0int,
{
    lemma_parse_sum_well_formed(s);
}

proof fn lemma_parse_sum_well_formed(s: Seq<char>)
    ensures
        spec_parse_sum(s) is Some ==> well_formed(spec_parse_sum(s)->Some_0),
    decreases s.len(), 8int, 0int,
{
    if is_all_parens(s) {
    } else if is_wrapped(s) {
        lemma_parse_part_well_formed(s.subrange(1, s.len() - 1));
    } else if scan_fails(s) {
    } else {
        lemma_split_top_total(s, '+');
        lemma_total_len_bounds(split_top(s, '+'));
        lemma_clean_terms_len(split_top(s, '+'));
        lemma_clean_terms_bound(split_top(s, '+'), s.len());
        let terms = clean_terms(split_top(s, '+'));
        if terms.len() == 0 {
        } else if terms.len() == 1 {
            lemma_parse_mul_well_formed(terms[0]);
        } else {
            lemma_clean_terms_bound(split_top(s, '+'), (s.len() - 1) as nat);
            lemma_collapse_well_formed(terms, s.len(), true);
        }
    }
}

proof fn lemma_parse_mul_well_formed(s: Seq<char>)
    ensures
        spec_parse_mul(s) is Some ==> well_formed(spec_parse_mul(s)->Some_0),
    decreases s.len(), 7int, 0int,
{
    if is_all_parens(s) {
    } else if is_wrapped(s) {
        lemma_parse_part_well_formed(s.subrange(1, s.len() - 1));
    } else if scan_fails(s) {
    } else {
        lemma_split_top_total(s, '*');
        lemma_total_len_bounds(split_top(s, '*'));
        lemma_clean_terms_len(split_top(s, '*'));
        lemma_clean_terms_bound(split_top(s, '*'), s.len());
        let terms = clean_terms(split_top(s, '*'));
        if terms.len() == 0 {
        } else if terms.len() == 1 && terms[0].len() == 1 {
            lemma_clean_terms_edges(split_top(s, '*'));
            assert(!is_space(terms[0][0]));
        } else if terms.len() == 1 {
            assert forall|i: int|
                0 <= i < exploded(terms[0]).len() implies (#[trigger] exploded(
                terms[0])[i]).len() < s.len() by {
                assert(exploded(terms[0])[i].len() <= 1);
                assert(terms[0].len() <= s.len());
            }
            lemma_collapse_well_formed(exploded(terms[0]), s.len(), false);
        } else {
            lemma_clean_terms_bound(split_top(s, '*'), (s.len() - 1) as nat);
            lemma_collapse_well_formed(terms, s.len(), false);
        }
    }
}

/// Parsing a term list and collapsing the non-empty children gives a
/// well-formed tree, at either level.
proof fn lemma_collapse_well_formed(ts: Seq<Seq<char>>, bound: nat, in_sum: bool)
    requires
        forall|i: int| 0 <= i < ts.len() ==> (#[trigger] ts[i]).len() < bound,
    ensures
        parse_terms(ts, bound) is Some ==> well_formed(
            if in_sum {
                collapse_sum(drop_empty(parse_terms(ts, bound)->Some_0))
            } else {
                collapse_mul(drop_empty(parse_terms(ts, bound)->Some_0))
            },
        ),
    decreases bound, 6int, 0int,
{
    lemma_parse_terms(ts, bound);
    if parse_terms(ts, bound) is Some {
        let children = parse_terms(ts, bound)->Some_0;
        assert forall|j: int| 0 <= j < children.len() implies well_formed(
            #[trigger] children[j]) by {
            assert(children[j] == spec_parse_part(ts[j])->Some_0);
            lemma_parse_part_well_formed(ts[j]);
        }
        lemma_drop_empty_well(children);
        let kept = drop_empty(children);
        if kept.len() >= 2 {
            lemma_well_formed_children(kept);
        }
    }
}

/// Depth adds over concatenation.
proof fn lemma_depth_concat(a: Seq<char>, b: Seq<char>)
    ensures
        depth_of(a + b) == depth_of(a) + depth_of(b),
    decreases b.len(),
{
    if b.len() == 0 {
        assert(a + b =~= a);
    } else {
        let front = b.subrange(0, b.len() - 1);
        lemma_depth_concat(a, front);
        assert((a + b).subrange(0, (a + b).len() - 1) =~= a + front);
        assert((a + b)[(a + b).len() - 1] == b[b.len() - 1]);
    }
}

/// Depth over a middle range is the difference of two prefix depths.
proof fn lemma_depth_subrange(p: Seq<char>, a: int, c: int)
    requires
        0 <= a <= c <= p.len(),
    ensures
        depth_of(p.subrange(a, c)) == depth_of(p.take(c)) - depth_of(p.take(a)),
{
    lemma_depth_concat(p.take(a), p.subrange(a, c));
    assert(p.take(a) + p.subrange(a, c) =~= p.take(c));
}

/// One more character shifts the depth by its contribution.
proof fn lemma_depth_push(s: Seq<char>, c: char)
    ensures
        depth_of(s.push(c)) == depth_of(s) + char_depth(c),
{
    assert(s.push(c).subrange(0, s.len() as int) =~= s);
    assert(s.push(c)[s.len() as int] == c);
}

/// A string without parentheses is depth neutral.
proof fn lemma_depth_of_nonparen(w: Seq<char>)
    requires
        forall|i: int| 0 <= i < w.len() ==> w[i] != '(' && #[trigger] w[i] != ')',
    ensures
        depth_of(w) == 0,
    decreases w.len(),
{
    if w.len() > 0 {
        let front = w.subrange(0, w.len() - 1);
        assert forall|i: int| 0 <= i < front.len() implies front[i] != '(' && #[trigger] front[i]
            != ')' by {
            assert(front[i] == w[i]);
        }
        lemma_depth_of_nonparen(front);
    }
}

/// Where the front trim cuts: the index of the first non-blank character.
spec fn trim_lo(p: Seq<char>) -> int
    decreases p.len(),
{
    if p.len() > 0 && is_space(p[0]) {
        1 + trim_lo(p.subrange(1, p.len() as int))
    } else {
        0
    }
}

/// How much the back trim keeps: the length up to the last non-blank
/// character.
spec fn trim_keep(q: Seq<char>) -> int
    decreases q.len(),
{
    if q.len() > 0 && is_space(q[q.len() - 1]) {
        trim_keep(q.subrange(0, q.len() - 1))
    } else {
        q.len() as int
    }
}

proof fn lemma_trim_front_decompose(p: Seq<char>)
    ensures
        0 <= trim_lo(p) <= p.len(),
        trim_front(p) == p.subrange(trim_lo(p), p.len() as int),
        forall|i: int| 0 <= i < trim_lo(p) ==> is_space(#[trigger] p[i]),
    decreases p.len(),
{
    if p.len() > 0 && is_space(p[0]) {
        let rest = p.subrange(1, p.len() as int);
        lemma_trim_front_decompose(rest);
        assert(rest.subrange(trim_lo(rest), rest.len() as int) =~= p.subrange(
            1 + trim_lo(rest),
            p.len() as int,
        ));
        assert forall|i: int| 0 <= i < trim_lo(p) implies is_space(#[trigger] p[i]) by {
            if i > 0 {
                assert(p[i] == rest[i - 1]);
            }
        }
    } else {
        assert(p.subrange(0, p.len() as int) =~= p);
    }
}

proof fn lemma_trim_back_decompose(q: Seq<char>)
    ensures
        0 <= trim_keep(q) <= q.len(),
        trim_back(q) == q.subrange(0, trim_keep(q)),
        forall|i: int| trim_keep(q) <= i < q.len() ==> is_space(#[trigger] q[i]),
    decreases q.len(),
{
    if q.len() > 0 && is_space(q[q.len() - 1]) {
        let front = q.subrange(0, q.len() - 1);
        lemma_trim_back_decompose(front);
        assert(front.subrange(0, trim_keep(front)) =~= q.subrange(0, trim_keep(front)));
        assert forall|i: int| trim_keep(q) <= i < q.len() implies is_space(#[trigger] q[i]) by {
            if i < q.len() - 1 {
                assert(q[i] == front[i]);
            }
        }
    } else {
        assert(q.subrange(0, q.len() as int) =~= q);
    }
}

/// The trimmed text is a middle range of the original, with nothing but
/// blank characters outside it.
proof fn lemma_trim_decompose(p: Seq<char>)
    ensures
        0 <= trim_lo(p) <= trim_lo(p) + trim_spec(p).len() <= p.len(),
        trim_spec(p) == p.subrange(trim_lo(p), trim_lo(p) + trim_spec(p).len()),
        forall|i: int| 0 <= i < trim_lo(p) ==> is_space(#[trigger] p[i]),
        forall|i: int|
            trim_lo(p) + trim_spec(p).len() <= i < p.len() ==> is_space(#[trigger] p[i]),
{
    lemma_trim_front_decompose(p);
    let q = trim_front(p);
    lemma_trim_back_decompose(q);
    let lo = trim_lo(p);
    let keep = trim_keep(q);
    assert(trim_spec(p) == q.subrange(0, keep));
    assert(q.subrange(0, keep) =~= p.subrange(lo, lo + keep));
    assert forall|i: int| lo + trim_spec(p).len() <= i < p.len() implies is_space(
        #[trigger] p[i]) by {
        assert(p[i] == q[i - lo]);
    }
}

/// Every cleaned term is the trimmed text of one of the raw pieces.
proof fn lemma_clean_terms_sources(ts: Seq<Seq<char>>)
    ensures
        forall|i: int|
            0 <= i < clean_terms(ts).len() ==> exists|j: int|
                0 <= j < ts.len() && #[trigger] clean_terms(ts)[i] == trim_spec(ts[j]),
    decreases ts.len(),
{
    if ts.len() > 0 {
        let rest = ts.subrange(1, ts.len() as int);
        lemma_clean_terms_sources(rest);
        let t = trim_spec(ts[0]);
        let head = (if t.len() > 0 {
            seq![t]
        } else {
            Seq::<Seq<char>>::empty()
        });
        assert forall|i: int| 0 <= i < clean_terms(ts).len() implies exists|j: int|
            0 <= j < ts.len() && #[trigger] clean_terms(ts)[i] == trim_spec(ts[j]) by {
            if i < head.len() {
                assert(clean_terms(ts)[i] == t);
                assert(0 <= 0 < ts.len() && clean_terms(ts)[i] == trim_spec(ts[0]));
            } else {
                assert(clean_terms(ts)[i] == clean_terms(rest)[i - head.len()]);
                let j0 = choose|j: int|
                    0 <= j < rest.len() && clean_terms(rest)[i - head.len()] == trim_spec(
                    #[trigger] rest[j]);
                assert(rest[j0] == ts[j0 + 1]);
                assert(0 <= j0 + 1 < ts.len() && clean_terms(ts)[i] == trim_spec(ts[j0 + 1]));
            }
        }
    }
}

/// How the pieces of a top-level cut relate to the string they come
/// from: every piece but the last is balanced and the last carries the
/// string's remaining depth; the cut operator never stands at depth
/// zero inside a piece; and a second character that stands only at
/// non-zero depth in the string keeps that property inside the pieces.
proof fn lemma_split_top_structure(s: Seq<char>, op: char, other: char)
    requires
        op != '(' && op != ')',
        other != '(' && other != ')',
    ensures
        depth_of(split_top(s, op).last()) == depth_of(s),
        forall|k: int|
            0 <= k < split_top(s, op).len() - 1 ==> depth_of(#[trigger] split_top(s, op)[k])
                == 0,
        forall|k: int, m: int|
            0 <= k < split_top(s, op).len() && 0 <= m < split_top(s, op)[k].len() && (#[trigger] split_top(
                s,
                op,
            )[k][m]) == op ==> depth_of(split_top(s, op)[k].take(m)) != 0,
        (forall|m: int| 0 <= m < s.len() && (#[trigger] s[m]) == other ==> depth_of(s.take(m)) != 0)
            ==> (forall|k: int, m: int|
            0 <= k < split_top(s, op).len() && 0 <= m < split_top(s, op)[k].len() && (#[trigger] split_top(
                s,
                op,
            )[k][m]) == other ==> depth_of(split_top(s, op)[k].take(m)) != 0),
    decreases s.len(),
{
    lemma_split_top_total(s, op);
    if s.len() == 0 {
        let base = seq![Seq::<char>::empty()];
        assert(split_top(s, op) == base);
        assert(depth_of(base.last()) == 0);
    } else {
        let shorter = s.subrange(0, s.len() - 1);
        lemma_split_top_total(shorter, op);
        lemma_split_top_structure(shorter, op, other);
        let done = split_top(shorter, op);
        let c = s[s.len() - 1];
        assert(depth_of(s) == depth_of(shorter) + char_depth(c));
        let hyp = (forall|m: int|
            0 <= m < s.len() && (#[trigger] s[m]) == other ==> depth_of(s.take(m)) != 0);
        if hyp {
            assert forall|m: int|
                0 <= m < shorter.len() && (#[trigger] shorter[m]) == other implies depth_of(
                shorter.take(m)) != 0 by {
                assert(shorter[m] == s[m]);
                assert(shorter.take(m) =~= s.take(m));
            }
        }
        if c == op && depth_of(shorter) == 0 {
            let ps = done.push(Seq::<char>::empty());
            assert(split_top(s, op) == ps);
            assert(ps.last() =~= Seq::<char>::empty());
            assert(depth_of(ps.last()) == 0);
            assert(depth_of(s) == 0);
            assert forall|k: int| 0 <= k < ps.len() - 1 implies depth_of(#[trigger] ps[k])
                == 0 by {
                assert(ps[k] == done[k]);
                if k == done.len() - 1 {
                    assert(done[k] == done.last());
                }
            }
            assert forall|k: int, m: int|
                0 <= k < ps.len() && 0 <= m < ps[k].len() && (#[trigger] ps[k][m])
                    == op implies depth_of(ps[k].take(m)) != 0 by {
                if k < done.len() {
                    assert(ps[k] == done[k]);
                    assert((done[k][m]) == op);
                } else {
                    assert(ps[k] =~= Seq::<char>::empty());
                }
            }
            if hyp {
                assert forall|k: int, m: int|
                    0 <= k < ps.len() && 0 <= m < ps[k].len() && (#[trigger] ps[k][m])
                        == other implies depth_of(ps[k].take(m)) != 0 by {
                    if k < done.len() {
                        assert(ps[k] == done[k]);
                        assert((done[k][m]) == other);
                    } else {
                        assert(ps[k] =~= Seq::<char>::empty());
                    }
                }
            }
        } else {
            let oldlast = done.last();
            let newlast = oldlast.push(c);
            let grown = done.update(done.len() - 1, newlast);
            assert(split_top(s, op) == grown);
            assert(grown.last() == newlast);
            lemma_depth_push(oldlast, c);
            assert(depth_of(grown.last()) == depth_of(s));
            assert forall|k: int| 0 <= k < grown.len() - 1 implies depth_of(#[trigger] grown[k])
                == 0 by {
                assert(grown[k] == done[k]);
            }
            assert forall|k: int, m: int|
                0 <= k < grown.len() && 0 <= m < grown[k].len() && (#[trigger] grown[k][m])
                    == op implies depth_of(grown[k].take(m)) != 0 by {
                if k < grown.len() - 1 {
                    assert(grown[k] == done[k]);
                    assert((done[k][m]) == op);
                } else {
                    assert(grown[k] == newlast);
                    assert(done[k] == oldlast);
                    if m < oldlast.len() {
                        assert(newlast[m] == oldlast[m]);
                        assert((done[k][m]) == op);
                        assert(newlast.take(m) =~= oldlast.take(m));
                    } else {
                        assert(newlast[m] == c);
                        assert(depth_of(shorter) != 0);
                        assert(newlast.take(m) =~= oldlast);
                    }
                }
            }
            if hyp {
                assert forall|k: int, m: int|
                    0 <= k < grown.len() && 0 <= m < grown[k].len() && (#[trigger] grown[k][m])
                        == other implies depth_of(grown[k].take(m)) != 0 by {
                    if k < grown.len() - 1 {
                        assert(grown[k] == done[k]);
                        assert((done[k][m]) == other);
                    } else {
                        assert(grown[k] == newlast);
                        assert(done[k] == oldlast);
                        if m < oldlast.len() {
                            assert(newlast[m] == oldlast[m]);
                            assert((done[k][m]) == other);
                            assert(newlast.take(m) =~= oldlast.take(m));
                        } else {
                            assert(newlast[m] == c);
                            assert((s[s.len() - 1]) == other);
                            assert(depth_of(s.take(s.len() - 1)) != 0);
                            assert(s.take(s.len() - 1) =~= shorter);
                            assert(newlast.take(m) =~= oldlast);
                        }
                    }
                }
            }
        }
    }
}

/// The four characters that structure an expression are not blank.
/// This holds of `char::is_whitespace` and is witnessed at run time by
/// `char_is_space`, but the name `is_space` alone leaves it open, so
/// the lemmas that need it carry it as an explicit hypothesis.
pub open spec fn structural_chars_not_blank() -> bool {
    &&& !is_space('(')
    &&& !is_space(')')
    &&& !is_space('+')
    &&& !is_space('*')
}

/// No terminal of the tree holds an operator or parenthesis character.
pub open spec fn terminals_plain(f: FormulaV) -> bool
    decreases f,
{
    match f {
        FormulaV::TS(text) => forall|i: int|
            0 <= i < text.len() ==> text[i] != '(' && text[i] != ')' && text[i] != '+' && (
            #[trigger] text[i]) != '*',
        FormulaV::Add(children) => plain_children(children),
        FormulaV::Mul(children) => plain_children(children),
        FormulaV::Empty => true,
    }
}

/// Every formula of the sequence keeps its terminals plain.
pub open spec fn plain_children(s: Seq<FormulaV>) -> bool
    decreases s,
{
    if s.len() == 0 {
        true
    } else {
        terminals_plain(s[0]) && plain_children(s.subrange(1, s.len() as int))
    }
}

/// `plain_children` is the conjunction of `terminals_plain` over the
/// elements.
proof fn lemma_plain_children(s: Seq<FormulaV>)
    ensures
        plain_children(s) <==> (forall|i: int|
            0 <= i < s.len() ==> terminals_plain(#[trigger] s[i])),
    decreases s.len(),
{
    if s.len() > 0 {
        let rest = s.subrange(1, s.len() as int);
        lemma_plain_children(rest);
        if plain_children(s) {
            assert forall|i: int| 0 <= i < s.len() implies terminals_plain(#[trigger] s[i]) by {
                if i > 0 {
                    assert(s[i] == rest[i - 1]);
                }
            }
        }
        if forall|i: int| 0 <= i < s.len() ==> terminals_plain(#[trigger] s[i]) {
            assert forall|i: int| 0 <= i < rest.len() implies terminals_plain(
                #[trigger] rest[i]) by {
                assert(rest[i] == s[i + 1]);
            }
            assert(plain_children(rest));
            assert(plain_children(s));
        }
    }
}

/// Filtering the empty children keeps every remaining child plain.
proof fn lemma_drop_empty_plain(fs: Seq<FormulaV>)
    requires
        forall|j: int| 0 <= j < fs.len() ==> terminals_plain(#[trigger] fs[j]),
    ensures
        forall|k: int|
            0 <= k < drop_empty(fs).len() ==> terminals_plain(#[trigger] drop_empty(fs)[k]),
    decreases fs.len(),
{
    if fs.len() > 0 {
        let rest = fs.subrange(1, fs.len() as int);
        assert forall|j: int| 0 <= j < rest.len() implies terminals_plain(#[trigger] rest[j]) by {
            assert(rest[j] == fs[j + 1]);
        }
        lemma_drop_empty_plain(rest);
        let head = (if fs[0] is Empty {
            Seq::<FormulaV>::empty()
        } else {
            seq![fs[0]]
        });
        assert forall|k: int|
            0 <= k < drop_empty(fs).len() implies terminals_plain(
            #[trigger] drop_empty(fs)[k]) by {
            if k < head.len() {
                assert(drop_empty(fs)[k] == fs[0]);
            } else {
                assert(drop_empty(fs)[k] == drop_empty(rest)[k - head.len()]);
            }
        }
    }
}

/// What a cleaned term inherits from the string it was cut out of,
/// provided the structural characters are not blank: the cut operator
/// never stands at depth zero in the term; a second character that
/// stands only at non-zero depth in the string keeps that property in
/// the term; and a single-character term of a balanced string is no
/// parenthesis.
proof fn lemma_clean_term_structure(s: Seq<char>, op: char, other: char, i: int)
    requires
        structural_chars_not_blank(),
        op == '+' || op == '*',
        other == '+' || other == '*',
        0 <= i < clean_terms(split_top(s, op)).len(),
    ensures
        forall|m: int|
            0 <= m < clean_terms(split_top(s, op))[i].len() && (#[trigger] clean_terms(
                split_top(s, op),
            )[i][m]) == op ==> depth_of(clean_terms(split_top(s, op))[i].take(m)) != 0,
        (forall|m: int| 0 <= m < s.len() && (#[trigger] s[m]) == other ==> depth_of(s.take(m)) != 0)
            ==> (forall|m: int|
            0 <= m < clean_terms(split_top(s, op))[i].len() && (#[trigger] clean_terms(
                split_top(s, op),
            )[i][m]) == other ==> depth_of(clean_terms(split_top(s, op))[i].take(m)) != 0),
        !scan_fails(s) && clean_terms(split_top(s, op))[i].len() == 1 ==> clean_terms(
            split_top(s, op),
        )[i][0] != '(' && clean_terms(split_top(s, op))[i][0] != ')',
{
    let pieces = split_top(s, op);
    let t = clean_terms(pieces)[i];
    lemma_clean_terms_sources(pieces);
    let j = choose|j: int| 0 <= j < pieces.len() && t == trim_spec(#[trigger] pieces[j]);
    let piece = pieces[j];
    lemma_trim_decompose(piece);
    let lo = trim_lo(piece);
    assert(t == piece.subrange(lo, lo + t.len()));
    let front = piece.take(lo);
    assert forall|m: int| 0 <= m < front.len() implies front[m] != '(' && (#[trigger] front[m])
        != ')' by {
        assert(front[m] == piece[m]);
        assert(is_space(piece[m]));
    }
    lemma_depth_of_nonparen(front);
    lemma_split_top_structure(s, op, other);
    assert forall|m: int|
        0 <= m < t.len() && (#[trigger] t[m]) == op implies depth_of(t.take(m)) != 0 by {
        assert(t[m] == piece[lo + m]);
        assert((pieces[j][lo + m]) == op);
        assert(depth_of(piece.take(lo + m)) != 0);
        assert(t.take(m) =~= piece.subrange(lo, lo + m));
        lemma_depth_subrange(piece, lo, lo + m);
    }
    if forall|m: int| 0 <= m < s.len() && (#[trigger] s[m]) == other ==> depth_of(s.take(m))
        != 0 {
        assert forall|m: int|
            0 <= m < t.len() && (#[trigger] t[m]) == other implies depth_of(t.take(m)) != 0 by {
            assert(t[m] == piece[lo + m]);
            assert((pieces[j][lo + m]) == other);
            assert(depth_of(piece.take(lo + m)) != 0);
            assert(t.take(m) =~= piece.subrange(lo, lo + m));
            lemma_depth_subrange(piece, lo, lo + m);
        }
    }
    if !scan_fails(s) && t.len() == 1 {
        let back = piece.subrange(lo + 1, piece.len() as int);
        assert forall|m: int| 0 <= m < back.len() implies back[m] != '(' && (#[trigger] back[m])
            != ')' by {
            assert(back[m] == piece[lo + 1 + m]);
            assert(is_space(piece[lo + 1 + m]));
        }
        lemma_depth_of_nonparen(back);
        assert(piece =~= front + t + back);
        lemma_depth_concat(front + t, back);
        lemma_depth_concat(front, t);
        assert(depth_of(piece) == depth_of(t));
        assert(t =~= Seq::<char>::empty().push(t[0]));
        lemma_depth_push(Seq::<char>::empty(), t[0]);
        assert(depth_of(t) == char_depth(t[0]));
        if j < pieces.len() - 1 {
            assert(depth_of(piece) == 0);
        } else {
            assert(piece == pieces.last());
            assert(depth_of(piece) == depth_of(s));
            assert(depth_of(s) == 0);
        }
        assert(char_depth(t[0]) == 0);
    }
}

/// Parsed terminals avoid the structural characters: provided `(`, `)`,
/// `+` and `*` are not blank - which is true of `char::is_whitespace`
/// and witnessed at run time by `char_is_space`, though the name
/// `is_space` alone does not pin it - no terminal that comes out of the
/// parser holds any of them.
pub proof fn lemma_parse_terminals_plain(s: Seq<char>)
    ensures
        structural_chars_not_blank() ==> (spec_parse(s) is Some ==> terminals_plain(
            spec_parse(s)->Some_0,
        )),
{
    if structural_chars_not_blank() {
        lemma_part_terminals_plain(s);
    }
}

proof fn lemma_part_terminals_plain(s: Seq<char>)
    requires
        structural_chars_not_blank(),
    ensures
        spec_parse_part(s) is Some ==> terminals_plain(spec_parse_part(s)->Some_0),
    decreases s.len(), 9int, 0int,
{
    lemma_sum_terminals_plain(s);
}

proof fn lemma_sum_terminals_plain(s: Seq<char>)
    requires
        structural_chars_not_blank(),
    ensures
        spec_parse_sum(s) is Some ==> terminals_plain(spec_parse_sum(s)->Some_0),
    decreases s.len(), 8int, 0int,
{
    if is_all_parens(s) {
    } else if is_wrapped(s) {
        lemma_part_terminals_plain(s.subrange(1, s.len() - 1));
    } else if scan_fails(s) {
    } else {
        lemma_split_top_total(s, '+');
        lemma_total_len_bounds(split_top(s, '+'));
        lemma_clean_terms_len(split_top(s, '+'));
        lemma_clean_terms_bound(split_top(s, '+'), s.len());
        let terms = clean_terms(split_top(s, '+'));
        if terms.len() == 0 {
        } else if terms.len() == 1 {
            lemma_clean_term_structure(s, '+', '+', 0);
            lemma_mul_terminals_plain(terms[0]);
        } else {
            lemma_clean_terms_bound(split_top(s, '+'), (s.len() - 1) as nat);
            lemma_collapse_terminals_plain(terms, s.len());
        }
    }
}

proof fn lemma_mul_terminals_plain(s: Seq<char>)
    requires
        structural_chars_not_blank(),
        forall|m: int| 0 <= m < s.len() && (#[trigger] s[m]) == '+' ==> depth_of(s.take(m)) != 0,
    ensures
        spec_parse_mul(s) is Some ==> terminals_plain(spec_parse_mul(s)->Some_0),
    decreases s.len(), 7int, 0int,
{
    if is_all_parens(s) {
    } else if is_wrapped(s) {
        lemma_part_terminals_plain(s.subrange(1, s.len() - 1));
    } else if scan_fails(s) {
    } else {
        lemma_split_top_total(s, '*');
        lemma_total_len_bounds(split_top(s, '*'));
        lemma_clean_terms_len(split_top(s, '*'));
        lemma_clean_terms_bound(split_top(s, '*'), s.len());
        let terms = clean_terms(split_top(s, '*'));
        if terms.len() == 0 {
        } else if terms.len() == 1 && terms[0].len() == 1 {
            lemma_clean_term_structure(s, '*', '+', 0);
            let t = terms[0];
            assert(t.take(0) =~= Seq::<char>::empty());
            assert(depth_of(t.take(0)) == 0);
            assert(t[0] != '*');
            assert(t[0] != '+');
            assert(t[0] != '(' && t[0] != ')');
            assert(terminals_plain(FormulaV::TS(t)));
        } else if terms.len() == 1 {
            assert forall|i: int|
                0 <= i < exploded(terms[0]).len() implies (#[trigger] exploded(
                terms[0])[i]).len() < s.len() by {
                assert(exploded(terms[0])[i].len() <= 1);
                assert(terms[0].len() <= s.len());
            }
            lemma_collapse_terminals_plain(exploded(terms[0]), s.len());
        } else {
            lemma_clean_terms_bound(split_top(s, '*'), (s.len() - 1) as nat);
            lemma_collapse_terminals_plain(terms, s.len());
        }
    }
}

/// Parsing a term list and collapsing the non-empty children keeps
/// every terminal plain, at either level.
proof fn lemma_collapse_terminals_plain(ts: Seq<Seq<char>>, bound: nat)
    requires
        structural_chars_not_blank(),
        forall|i: int| 0 <= i < ts.len() ==> (#[trigger] ts[i]).len() < bound,
    ensures
        parse_terms(ts, bound) is Some ==> terminals_plain(
            collapse_sum(drop_empty(parse_terms(ts, bound)->Some_0)),
        ) && terminals_plain(collapse_mul(drop_empty(parse_terms(ts, bound)->Some_0))),
    decreases bound, 6int, 0int,
{
    lemma_parse_terms(ts, bound);
    if parse_terms(ts, bound) is Some {
        let children = parse_terms(ts, bound)->Some_0;
        assert forall|j: int| 0 <= j < children.len() implies terminals_plain(
            #[trigger] children[j]) by {
            assert(children[j] == spec_parse_part(ts[j])->Some_0);
            lemma_part_terminals_plain(ts[j]);
        }
        lemma_drop_empty_plain(children);
        let kept = drop_empty(children);
        if kept.len() >= 2 {
            lemma_plain_children(kept);
        }
    }
}

/// The texts of a sequence of character vectors, element by element.
pub open spec fn string_views(s: Seq<Vec<char>>) -> Seq<Seq<char>>
    decreases s.len(),
{
    if s.len() == 0 {
        Seq::empty()
    } else {
        seq![s[0]@] + string_views(s.subrange(1, s.len() as int))
    }
}

/// `string_views` maps the sequence element by element.
pub proof fn lemma_string_views(s: Seq<Vec<char>>)
    ensures
        string_views(s).len() == s.len(),
        forall|i: int| 0 <= i < s.len() ==> string_views(s)[i] == #[trigger] s[i]@,
    decreases s.len(),
{
    if s.len() > 0 {
        let rest = s.subrange(1, s.len() as int);
        lemma_string_views(rest);
        assert forall|i: int| 0 <= i < s.len() implies string_views(s)[i] == #[trigger] s[i]@ by {
            if i > 0 {
                assert(s[i] == rest[i - 1]);
                assert(string_views(s)[i] == string_views(rest)[i - 1]);
            }
        }
    }
}

/// `string_views` commutes with appending an element.
pub proof fn lemma_string_views_push(s: Seq<Vec<char>>, x: Vec<char>)
    ensures
        string_views(s.push(x)) == string_views(s).push(x@),
{
    lemma_string_views(s);
    lemma_string_views(s.push(x));
    let lhs = string_views(s.push(x));
    let rhs = string_views(s).push(x@);
    assert forall|i: int| 0 <= i < lhs.len() implies lhs[i] == rhs[i] by {
        assert(lhs[i] == s.push(x)[i]@);
        if i < s.len() {
            assert(s.push(x)[i] == s[i]);
            assert(rhs[i] == s[i]@);
        } else {
            assert(s.push(x)[i] == x);
        }
    }
    assert(lhs =~= rhs);
}

/// Filtering one more parsed child appends it unless it is empty.
pub proof fn lemma_drop_empty_push(fs: Seq<FormulaV>, f: FormulaV)
    ensures
        drop_empty(fs.push(f)) == drop_empty(fs) + (if f is Empty {
            Seq::<FormulaV>::empty()
        } else {
            seq![f]
        }),
    decreases fs.len(),
{
    let all = fs.push(f);
    let piece = (if f is Empty {
        Seq::<FormulaV>::empty()
    } else {
        seq![f]
    });
    if fs.len() == 0 {
        assert(all.subrange(1, all.len() as int) =~= Seq::<FormulaV>::empty());
        assert(all[0] == f);
        assert(drop_empty(all.subrange(1, all.len() as int)) == Seq::<FormulaV>::empty());
        assert(drop_empty(fs) == Seq::<FormulaV>::empty());
        assert(drop_empty(all) =~= drop_empty(fs) + piece);
    } else {
        let rest = fs.subrange(1, fs.len() as int);
        assert(all.subrange(1, all.len() as int) =~= rest.push(f));
        lemma_drop_empty_push(rest, f);
        assert(all[0] == fs[0]);
        let head = (if fs[0] is Empty {
            Seq::<FormulaV>::empty()
        } else {
            seq![fs[0]]
        });
        assert(drop_empty(all) == head + drop_empty(rest.push(f)));
        assert(drop_empty(fs) == head + drop_empty(rest));
        assert(head + (drop_empty(rest) + piece) =~= (head + drop_empty(rest)) + piece);
    }
}

/// `parse_terms` succeeds exactly when every piece parses, and then
/// gives the parses in order.
pub proof fn lemma_parse_terms(ts: Seq<Seq<char>>, bound: nat)
    requires
        forall|i: int| 0 <= i < ts.len() ==> (#[trigger] ts[i]).len() < bound,
    ensures
        parse_terms(ts, bound) is Some <==> (forall|i: int|
            0 <= i < ts.len() ==> spec_parse_part(#[trigger] ts[i]) is Some),
        parse_terms(ts, bound) is Some ==> parse_terms(ts, bound)->Some_0 == Seq::new(
            ts.len(),
            |i: int| spec_parse_part(ts[i])->Some_0,
        ),
    decreases ts.len(),
{
    if ts.len() > 0 {
        let rest = ts.subrange(1, ts.len() as int);
        assert forall|i: int| 0 <= i < rest.len() implies (#[trigger] rest[i]).len() < bound by {
            assert(rest[i] == ts[i + 1]);
        }
        lemma_parse_terms(rest, bound);
        if spec_parse_part(ts[0]) is Some {
            if forall|i: int| 0 <= i < rest.len() ==> spec_parse_part(#[trigger] rest[i]) is Some {
                assert forall|i: int|
                    0 <= i < ts.len() implies spec_parse_part(#[trigger] ts[i]) is Some by {
                    if i > 0 {
                        assert(ts[i] == rest[i - 1]);
                    }
                }
                let whole = seq![spec_parse_part(ts[0])->Some_0] + parse_terms(rest, bound)->Some_0;
                assert(parse_terms(ts, bound)->Some_0 == whole);
                assert(whole =~= Seq::new(ts.len(), |i: int| spec_parse_part(ts[i])->Some_0)) by {
                    assert forall|i: int|
                        0 <= i < ts.len() implies whole[i] == spec_parse_part(ts[i])->Some_0 by {
                        if i > 0 {
                            assert(ts[i] == rest[i - 1]);
                            assert(whole[i] == parse_terms(rest, bound)->Some_0[i - 1]);
                            assert(parse_terms(rest, bound)->Some_0 == Seq::new(
                                rest.len(),
                                |j: int| spec_parse_part(rest[j])->Some_0,
                            ));
                        }
                    }
                }
            } else {
                let k = choose|k: int|
                    0 <= k < rest.len() && !(spec_parse_part(#[trigger] rest[k]) is Some);
                assert(rest[k] == ts[k + 1]);
                assert(!(spec_parse_part(ts[k + 1]) is Some));
            }
        } else {
            assert(!(spec_parse_part(ts[0]) is Some));
        }
    }
}

/// Scan the whole input once for parenthesis balance: no prefix may
/// close more groups than it has opened, and every opened group must
/// close by the end.
fn parens_balanced(s: &Vec<char>) -> (r: bool)
    ensures
        r == !scan_fails(s@),
{
    let n = s.len();
    let mut depth: usize = 0;
    let mut i: usize = 0;
    while i < n
        invariant
            0 <= i <= n,
            n == s@.len(),
            depth <= i,
            depth == depth_of(s@.take(i as int)),
            forall|j: int| 0 <= j <= i ==> depth_of(s@.take(j)) >= 0,
        decreases n - i,
    {
        let c = s[i];
        proof {
            assert(s@.take(i + 1).subrange(0, i as int) =~= s@.take(i as int));
            assert(s@.take(i + 1)[i as int] == s@[i as int]);
        }
        if c == '(' {
            depth += 1;
        } else if c == ')' {
            if depth == 0 {
                proof {
                    assert(depth_of(s@.take(i + 1)) < 0);
                }
                return false;
            }
            depth -= 1;
        }
        i += 1;
    }
    proof {
        assert(s@.take(n as int) =~= s@);
    }
    depth == 0
}

/// Read the characters of a string into a vector.
fn chars_of(s: &str) -> (r: Vec<char>)
    ensures
        r@ == s@,
{
    let n = s.unicode_len();
    let mut out: Vec<char> = Vec::new();
    let mut i: usize = 0;
    while i < n
        invariant
            0 <= i <= n,
            n == s@.len(),
            out@ =~= s@.take(i as int),
        decreases n - i,
    {
        let c = s.get_char(i);
        out.push(c);
        i += 1;
        proof {
            assert(out@ =~= s@.take(i as int));
        }
    }
    proof {
        assert(out@ =~= s@);
    }
    out
}

/// Copy a range of characters out of a vector.
fn copy_range(v: &Vec<char>, a: usize, b: usize) -> (r: Vec<char>)
    requires
        a <= b <= v@.len(),
    ensures
        r@ == v@.subrange(a as int, b as int),
{
    let mut out: Vec<char> = Vec::new();
    let mut i: usize = a;
    while i < b
        invariant
            a <= i <= b <= v@.len(),
            out@ =~= v@.subrange(a as int, i as int),
        decreases b - i,
    {
        let c = v[i];
        out.push(c);
        i += 1;
        proof {
            assert(out@ =~= v@.subrange(a as int, i as int));
        }
    }
    out
}

impl core::str::FromStr for Formula {
    type Err = ParseFormulaError;

    fn from_str(s: &str) -> Result<Self, Self::Err> {
        Formula::parse(s)
    }
}

impl Formula {
    /// Whether the fragment is nothing but parentheses: such a vacuous
    /// group parses to the empty expression, balanced or not - the
    /// balance of the whole input was already validated before any
    /// fragment is read, and implicit multiplication can free a lone
    /// parenthesis character into a fragment of its own.
    fn is_only_paren(s: &Vec<char>) -> (r: bool)
        ensures
            r == is_all_parens(s@),
    {
        let n = s.len();
        if n == 0 {
            return false;
        }
        let mut i: usize = 0;
        while i < n
            invariant
                0 <= i <= n,
                n == s@.len() > 0,
                forall|j: int| 0 <= j < i ==> s@[j] == '(' || s@[j] == ')',
            decreases n - i,
        {
            let c = s[i];
            if c != '(' && c != ')' {
                return false;
            }
            i += 1;
        }
        true
    }

    /// Whether the string is wrapped in one matching outer pair of
    /// parentheses that spans it entirely.
    fn is_single_paren(s: &Vec<char>) -> (r: bool)
        ensures
            r == is_wrapped(s@),
    {
        let n = s.len();
        if n < 2 {
            return false;
        }
        if s[0] != '(' || s[n - 1] != ')' {
            return false;
        }
        let mut depth: usize = 0;
        let mut i: usize = 0;
        while i < n - 1
            invariant
                0 <= i <= n - 1,
                n == s@.len() >= 2,
                s@[0] == '(',
                depth <= i,
                depth == depth_of(s@.take(i as int)),
                i > 0 ==> depth >= 1,
                forall|j: int| 1 <= j <= i ==> depth_of(#[trigger] s@.take(j)) != 0,
            decreases n - i,
        {
            let c = s[i];
            proof {
                assert(s@.take(i + 1).subrange(0, i as int) =~= s@.take(i as int));
                assert(s@.take(i + 1)[i as int] == s@[i as int]);
            }
            if c == '(' {
                depth += 1;
            } else if c == ')' {
                depth -= 1;
            }
            if depth == 0 {
                return false;
            }
            i += 1;
        }
        proof {
            assert forall|j: int| 1 <= j < s@.len() implies depth_of(#[trigger] s@.take(j))
                != 0 by {
            }
        }
        true
    }

    /// Scan the string once: validate its parentheses, cut it at every
    /// occurrence of `op` at nesting depth zero, trim each piece, and
    /// drop the pieces that are left empty.
    fn split_level(s: &Vec<char>, op: char) -> (r: Result<Vec<Vec<char>>, ParseFormulaError>)
        requires
            op != '(' && op != ')',
        ensures
            match r {
                Ok(ts) => !scan_fails(s@) && string_views(ts@) == clean_terms(
                    split_top(s@, op),
                ),
                Err(_) => scan_fails(s@),
            },
    {
        let n = s.len();
        let mut depth: usize = 0;
        let mut raw: Vec<Vec<char>> = Vec::new();
        let mut cur: Vec<char> = Vec::new();
        let mut i: usize = 0;
        proof {
            assert(s@.take(0) =~= Seq::<char>::empty());
            assert(string_views(raw@) =~= Seq::<Seq<char>>::empty());
            assert(string_views(raw@).push(cur@) =~= split_top(s@.take(0), op));
        }
        while i < n
            invariant
                0 <= i <= n,
                n == s@.len(),
                op != '(' && op != ')',
                depth <= i,
                depth == depth_of(s@.take(i as int)),
                forall|j: int| 0 <= j <= i ==> depth_of(s@.take(j)) >= 0,
                string_views(raw@).push(cur@) == split_top(s@.take(i as int), op),
            decreases n - i,
        {
            let c = s[i];
            proof {
                assert(s@.take(i + 1).subrange(0, i as int) =~= s@.take(i as int));
                assert(s@.take(i + 1)[i as int] == s@[i as int]);
            }
            if c == op && depth == 0 {
                let ghost old_raw = raw@;
                let ghost old_cur = cur@;
                raw.push(cur);
                cur = Vec::new();
                proof {
                    lemma_string_views_push(old_raw, raw@[raw@.len() - 1]);
                    assert(string_views(raw@) == string_views(old_raw).push(old_cur));
                    assert(split_top(s@.take(i + 1), op) == string_views(old_raw).push(
                        old_cur,
                    ).push(Seq::<char>::empty()));
                    assert(cur@ =~= Seq::<char>::empty());
                }
            } else {
                if c == ')' {
                    if depth == 0 {
                        proof {
                            assert(depth_of(s@.take(i + 1)) < 0);
                        }
                        return Err(ParseFormulaError);
                    }
                    depth -= 1;
                } else if c == '(' {
                    depth += 1;
                }
                let ghost old_done = string_views(raw@).push(cur@);
                cur.push(c);
                proof {
                    assert(old_done.len() >= 1);
                    assert(split_top(s@.take(i + 1), op) == old_done.update(
                        old_done.len() - 1,
                        old_done.last().push(c),
                    ));
                    assert(old_done.update(old_done.len() - 1, old_done.last().push(c))
                        =~= string_views(raw@).push(cur@));
                }
            }
            i += 1;
        }
        if depth != 0 {
            proof {
                assert(s@.take(n as int) =~= s@);
            }
            return Err(ParseFormulaError);
        }
        let ghost old_raw = raw@;
        let ghost old_cur = cur@;
        raw.push(cur);
        proof {
            assert(s@.take(n as int) =~= s@);
            lemma_string_views_push(old_raw, raw@[raw@.len() - 1]);
            assert(string_views(raw@) == split_top(s@, op));
        }
        let m = raw.len();
        let mut clean: Vec<Vec<char>> = Vec::new();
        let mut k: usize = 0;
        proof {
            lemma_string_views(raw@);
            assert(string_views(raw@).take(0) =~= Seq::<Seq<char>>::empty());
            assert(clean_terms(Seq::<Seq<char>>::empty()) == Seq::<Seq<char>>::empty());
            assert(string_views(clean@) =~= Seq::<Seq<char>>::empty());
        }
        while k < m
            invariant
                0 <= k <= m,
                m == raw@.len(),
                string_views(raw@) == split_top(s@, op),
                string_views(raw@).len() == m,
                forall|j: int| 0 <= j < m ==> string_views(raw@)[j] == #[trigger] raw@[j]@,
                string_views(clean@) == clean_terms(string_views(raw@).take(k as int)),
            decreases m - k,
        {
            let t = trim(&raw[k]);
            proof {
                assert(string_views(raw@).take(k + 1) =~= string_views(raw@).take(
                    k as int,
                ).push(raw@[k as int]@));
                lemma_clean_terms_push(string_views(raw@).take(k as int), raw@[k as int]@);
            }
            if t.len() > 0 {
                let ghost old_clean = clean@;
                clean.push(t);
                proof {
                    lemma_string_views_push(old_clean, clean@[clean@.len() - 1]);
                    assert(seq![trim_spec(raw@[k as int]@)] =~= Seq::<Seq<char>>::empty().push(
                        trim_spec(raw@[k as int]@),
                    ));
                    assert(string_views(clean@) =~= clean_terms(string_views(raw@).take(k + 1)));
                }
            } else {
                proof {
                    assert(string_views(clean@) =~= clean_terms(string_views(raw@).take(k + 1)));
                }
            }
            k += 1;
        }
        proof {
            assert(string_views(raw@).take(m as int) =~= string_views(raw@));
        }
        Ok(clean)
    }
}

impl Formula {
    /// Parse a textual algebraic expression into a formula tree. The
    /// result is `Ok` exactly when `spec_parse` accepts the text, and
    /// then carries the tree that `spec_parse` gives; it is `Err`
    /// exactly when the parentheses of the text do not balance, at
    /// whatever nesting level the scan finds it. Unbalanced input never
    /// yields a formula.
    pub fn parse(s: &str) -> (r: Result<Self, ParseFormulaError>)
        ensures
            match r {
                Ok(f) => spec_parse(s@) == Some(f@),
                Err(_) => spec_parse(s@) is None,
            },
    {
        let chars = chars_of(s);
        if !parens_balanced(&chars) {
            return Err(ParseFormulaError);
        }
        Self::parse_chars(&chars)
    }

    /// Parse a vector of characters, entering at the sum level.
    fn parse_chars(s: &Vec<char>) -> (r: Result<Self, ParseFormulaError>)
        ensures
            match r {
                Ok(f) => spec_parse_part(s@) == Some(f@),
                Err(_) => spec_parse_part(s@) is None,
            },
        decreases s@.len(), 3int,
    {
        Self::parse_by_add(s)
    }

    /// The sum level of the parser: mirror `spec_parse_sum`.
    fn parse_by_add(s: &Vec<char>) -> (r: Result<Self, ParseFormulaError>)
        ensures
            match r {
                Ok(f) => spec_parse_sum(s@) == Some(f@),
                Err(_) => spec_parse_sum(s@) is None,
            },
        decreases s@.len(), 2int,
    {
        if Self::is_only_paren(s) {
            return Ok(Formula::Empty);
        }
        if Self::is_single_paren(s) {
            let interior = copy_range(s, 1, s.len() - 1);
            return Self::parse_chars(&interior);
        }
        let terms = match Self::split_level(s, '+') {
            Err(e) => {
                return Err(e);
            },
            Ok(ts) => ts,
        };
        proof {
            lemma_string_views(terms@);
        }
        if terms.len() == 0 {
            return Ok(Formula::Empty);
        }
        if terms.len() == 1 {
            proof {
                lemma_split_top_total(s@, '+');
                lemma_total_len_bounds(split_top(s@, '+'));
                lemma_clean_terms_bound(split_top(s@, '+'), s@.len());
            }
            return Self::parse_by_mul(&terms[0]);
        }
        proof {
            lemma_split_top_total(s@, '+');
            lemma_total_len_bounds(split_top(s@, '+'));
            lemma_clean_terms_len(split_top(s@, '+'));
            lemma_clean_terms_bound(split_top(s@, '+'), (s@.len() - 1) as nat);
        }
        match Self::parse_all_terms(&terms, Ghost(s@.len())) {
            Err(e) => Err(e),
            Ok(kids) => Ok(Self::collapse_add(kids)),
        }
    }

    /// The product level of the parser: mirror `spec_parse_mul`.
    fn parse_by_mul(s: &Vec<char>) -> (r: Result<Self, ParseFormulaError>)
        ensures
            match r {
                Ok(f) => spec_parse_mul(s@) == Some(f@),
                Err(_) => spec_parse_mul(s@) is None,
            },
        decreases s@.len(), 1int,
    {
        if Self::is_only_paren(s) {
            return Ok(Formula::Empty);
        }
        if Self::is_single_paren(s) {
            let interior = copy_range(s, 1, s.len() - 1);
            return Self::parse_chars(&interior);
        }
        let terms = match Self::split_level(s, '*') {
            Err(e) => {
                return Err(e);
            },
            Ok(ts) => ts,
        };
        proof {
            lemma_string_views(terms@);
        }
        if terms.len() == 0 {
            return Ok(Formula::Empty);
        }
        if terms.len() == 1 {
            proof {
                lemma_split_top_total(s@, '*');
                lemma_total_len_bounds(split_top(s@, '*'));
                lemma_clean_terms_bound(split_top(s@, '*'), s@.len());
            }
            let mut terms = terms;
            let t = terms.remove(0);
            if t.len() == 1 {
                return Ok(Formula::TS(t));
            }
            // Implicit multiplication: each character of the remaining
            // term is parsed on its own.
            let m = t.len();
            let mut pieces: Vec<Vec<char>> = Vec::new();
            let mut i: usize = 0;
            proof {
                assert(string_views(pieces@) =~= exploded(t@).take(0));
            }
            while i < m
                invariant
                    0 <= i <= m,
                    m == t@.len(),
                    pieces@.len() == i,
                    string_views(pieces@) == exploded(t@).take(i as int),
                    forall|j: int| 0 <= j < i ==> (#[trigger] pieces@[j]@).len() <= 1,
                decreases m - i,
            {
                let c = t[i];
                let piece: Vec<char> = if char_is_space(c) {
                    Vec::new()
                } else {
                    let mut q: Vec<char> = Vec::new();
                    q.push(c);
                    q
                };
                proof {
                    lemma_string_views_push(pieces@, piece);
                    assert(exploded(t@)[i as int] == (if is_space(t@[i as int]) {
                        Seq::<char>::empty()
                    } else {
                        seq![t@[i as int]]
                    }));
                    assert(piece@ =~= exploded(t@)[i as int]);
                    assert(exploded(t@).take(i + 1) =~= exploded(t@).take(i as int).push(
                        exploded(t@)[i as int]));
                }
                pieces.push(piece);
                i += 1;
            }
            proof {
                assert(exploded(t@).take(m as int) =~= exploded(t@));
                lemma_string_views(pieces@);
            }
            match Self::parse_all_terms(&pieces, Ghost(s@.len())) {
                Err(e) => {
                    return Err(e);
                },
                Ok(kids) => {
                    return Ok(Self::collapse_mul_children(kids));
                },
            }
        }
        proof {
            lemma_split_top_total(s@, '*');
            lemma_total_len_bounds(split_top(s@, '*'));
            lemma_clean_terms_len(split_top(s@, '*'));
            lemma_clean_terms_bound(split_top(s@, '*'), (s@.len() - 1) as nat);
        }
        match Self::parse_all_terms(&terms, Ghost(s@.len())) {
            Err(e) => Err(e),
            Ok(kids) => Ok(Self::collapse_mul_children(kids)),
        }
    }

    /// Collapse a filtered child list into a sum.
    fn collapse_add(kids: Vec<Formula>) -> (r: Self)
        ensures
            r@ == collapse_sum(views_of(kids@)),
    {
        proof {
            lemma_views_of(kids@);
        }
        let mut kids = kids;
        if kids.len() == 0 {
            Formula::Empty
        } else if kids.len() == 1 {
            kids.remove(0)
        } else {
            Formula::Add(kids)
        }
    }

    /// Collapse a filtered child list into a product.
    fn collapse_mul_children(kids: Vec<Formula>) -> (r: Self)
        ensures
            r@ == collapse_mul(views_of(kids@)),
    {
        proof {
            lemma_views_of(kids@);
        }
        let mut kids = kids;
        if kids.len() == 0 {
            Formula::Empty
        } else if kids.len() == 1 {
            kids.remove(0)
        } else {
            Formula::Mul(kids)
        }
    }

    /// Parse every term of a list in turn, keeping the children that
    /// are not the empty expression; the first failure fails the list.
    fn parse_all_terms(terms: &Vec<Vec<char>>, Ghost(bound): Ghost<nat>) -> (r: Result<
        Vec<Formula>,
        ParseFormulaError,
    >)
        requires
            forall|i: int| 0 <= i < terms@.len() ==> (#[trigger] terms@[i]@).len() < bound,
        ensures
            match r {
                Ok(kids) => parse_terms(string_views(terms@), bound) is Some && views_of(kids@)
                    == drop_empty(parse_terms(string_views(terms@), bound)->Some_0),
                Err(_) => parse_terms(string_views(terms@), bound) is None,
            },
        decreases bound, 0int,
    {
        proof {
            lemma_string_views(terms@);
        }
        let ghost tsv = string_views(terms@);
        let n = terms.len();
        let mut kids: Vec<Formula> = Vec::new();
        let mut idx: usize = 0;
        proof {
            assert(views_of(kids@) =~= Seq::<FormulaV>::empty());
            assert(Seq::new(0nat, |j: int| spec_parse_part(tsv[j])->Some_0) =~= Seq::<
                FormulaV,
            >::empty());
            assert(drop_empty(Seq::<FormulaV>::empty()) == Seq::<FormulaV>::empty());
            assert forall|j: int| 0 <= j < n implies (#[trigger] tsv[j]).len() < bound by {
                assert(tsv[j] == terms@[j]@);
            }
        }
        while idx < n
            invariant
                0 <= idx <= n,
                n == terms@.len(),
                tsv == string_views(terms@),
                tsv.len() == n,
                forall|j: int| 0 <= j < n ==> tsv[j] == #[trigger] terms@[j]@,
                forall|j: int| 0 <= j < n ==> (#[trigger] tsv[j]).len() < bound,
                forall|j: int| 0 <= j < idx ==> spec_parse_part(#[trigger] tsv[j]) is Some,
                views_of(kids@) == drop_empty(
                    Seq::new(idx as nat, |j: int| spec_parse_part(tsv[j])->Some_0),
                ),
            decreases n - idx,
        {
            let child = match Self::parse_chars(&terms[idx]) {
                Ok(f) => f,
                Err(e) => {
                    proof {
                        lemma_parse_terms(tsv, bound);
                    }
                    return Err(e);
                },
            };
            proof {
                let prefix = Seq::new(idx as nat, |j: int| spec_parse_part(tsv[j])->Some_0);
                let longer = Seq::new((idx + 1) as nat, |j: int| spec_parse_part(tsv[j])->Some_0);
                assert(longer =~= prefix.push(spec_parse_part(tsv[idx as int])->Some_0));
                lemma_drop_empty_push(prefix, spec_parse_part(tsv[idx as int])->Some_0);
                lemma_views_of_push(kids@, child);
                if !(child@ is Empty) {
                    assert(seq![child@] =~= Seq::<FormulaV>::empty().push(child@));
                    assert(drop_empty(prefix) + seq![child@] =~= drop_empty(prefix).push(
                        child@,
                    ));
                } else {
                    assert(drop_empty(prefix) + Seq::<FormulaV>::empty() =~= drop_empty(
                        prefix,
                    ));
                }
            }
            if !child.is_empty() {
                kids.push(child);
            }
            idx += 1;
        }
        proof {
            lemma_parse_terms(tsv, bound);
            assert(parse_terms(tsv, bound)->Some_0 =~= Seq::new(
                n as nat,
                |j: int| spec_parse_part(tsv[j])->Some_0,
            ));
        }
        Ok(kids)
    }
}

/// Strip blank characters from both ends of a character vector.
fn trim(v: &Vec<char>) -> (r: Vec<char>)
    ensures
        r@ == trim_spec(v@),
{
    let n = v.len();
    proof {
        assert(v@.subrange(0, n as int) =~= v@);
    }
    let mut a: usize = 0;
    while a < n && char_is_space(v[a])
        invariant
            0 <= a <= n,
            n == v@.len(),
            trim_front(v@) == trim_front(v@.subrange(a as int, n as int)),
        decreases n - a,
    {
        proof {
            let t = v@.subrange(a as int, n as int);
            assert(t[0] == v@[a as int]);
            assert(t.subrange(1, t.len() as int) =~= v@.subrange(a + 1, n as int));
        }
        a += 1;
    }
    proof {
        let t = v@.subrange(a as int, n as int);
        if a < n {
            assert(t[0] == v@[a as int]);
            assert(!is_space(t[0]));
        }
        assert(trim_front(v@) == t);
    }
    let mut b: usize = n;
    while b > a && char_is_space(v[b - 1])
        invariant
            a <= b <= n,
            n == v@.len(),
            trim_front(v@) == v@.subrange(a as int, n as int),
            trim_back(v@.subrange(a as int, n as int)) == trim_back(
                v@.subrange(a as int, b as int),
            ),
        decreases b,
    {
        proof {
            let t = v@.subrange(a as int, b as int);
            assert(t[t.len() - 1] == v@[b - 1]);
            assert(t.subrange(0, t.len() - 1) =~= v@.subrange(a as int, b - 1));
        }
        b -= 1;
    }
    proof {
        let t = v@.subrange(a as int, b as int);
        if b > a {
            assert(t[t.len() - 1] == v@[b - 1]);
            assert(!is_space(t[t.len() - 1]));
        }
        assert(trim_back(v@.subrange(a as int, b as int)) == t);
    }
    copy_range(v, a, b)
}

} // verus!
