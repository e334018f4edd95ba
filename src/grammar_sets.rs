//! FIRST sets of context-free grammars, as the least solution of their defining rules.
use vstd::prelude::*;

use crate::regular_grammar::{is_epsilon, GrammarModel, EMPTY_SENTENCE_CHAR};

verus! {

/// A list of `(non-terminal, set)` pairs as a map.
pub open spec fn set_map(v: Seq<(char, Vec<char>)>) -> Map<char, Set<char>> {
    Map::new(
        |c: char| exists|i: int| 0 <= i < v.len() && v[i].0 == c,
        |c: char| v[choose|i: int| 0 <= i < v.len() && v[i].0 == c].1@.to_set(),
    )
}

/// The symbols a right-hand side derives in one step: none for the empty one.
pub open spec fn body(a: Seq<char>) -> Seq<char> {
    if is_epsilon(a) {
        Seq::empty()
    } else {
        a
    }
}

/// What a symbol contributes to a FIRST set: a terminal itself, a non-terminal its FIRST set
/// without the empty marker.
pub open spec fn sym_first(nts: Set<char>, f: Map<char, Set<char>>, c: char) -> Set<char> {
    if nts.contains(c) {
        f[c].remove(EMPTY_SENTENCE_CHAR)
    } else {
        set![c]
    }
}

/// A non-terminal whose FIRST set holds the empty marker.
pub open spec fn sym_nullable(nts: Set<char>, f: Map<char, Set<char>>, c: char) -> bool {
    nts.contains(c) && f[c].contains(EMPTY_SENTENCE_CHAR)
}

/// FIRST of a string of symbols, given FIRST of each non-terminal: scan left to right while
/// symbols derive the empty string; the empty marker when all of them do.
pub open spec fn first_of_seq(nts: Set<char>, f: Map<char, Set<char>>, a: Seq<char>) -> Set<char>
    decreases a.len(),
{
    if a.len() == 0 {
        set![EMPTY_SENTENCE_CHAR]
    } else if sym_nullable(nts, f, a[0]) {
        sym_first(nts, f, a[0]).union(first_of_seq(nts, f, a.skip(1)))
    } else {
        sym_first(nts, f, a[0])
    }
}

/// What the productions of `a` contribute to FIRST of `a`.
pub open spec fn first_of_alternatives(g: GrammarModel, f: Map<char, Set<char>>, a: char) -> Set<char> {
    Set::new(
        |t: char|
            exists|i: int|
                0 <= i < g.productions.len() && (#[trigger] g.productions[i]).0 == a && first_of_seq(
                    g.non_terminals,
                    f,
                    body(g.productions[i].1),
                ).contains(t),
    )
}

/// `f` satisfies the rules of FIRST: each production's FIRST lies in its left symbol's set.
pub open spec fn first_closed(g: GrammarModel, f: Map<char, Set<char>>) -> bool {
    &&& f.dom() == g.non_terminals
    &&& forall|i: int|
        0 <= i < g.productions.len() ==> first_of_seq(
            g.non_terminals,
            f,
            body((#[trigger] g.productions[i]).1),
        ).subset_of(f[g.productions[i].0])
}

/// `f` is FIRST: each set is exactly what the productions give, and it lies within every map
/// that satisfies the rules.
pub open spec fn is_first(g: GrammarModel, f: Map<char, Set<char>>) -> bool {
    &&& f.dom() == g.non_terminals
    &&& forall|a: char| #[trigger] g.non_terminals.contains(a) ==> f[a] == first_of_alternatives(g, f, a)
    &&& forall|f2: Map<char, Set<char>>, a: char|
        first_closed(g, f2) && g.non_terminals.contains(a) ==> #[trigger] f[a].subset_of(#[trigger] f2[a])
}

/// `a` reaches `y` in leftmost position: some production of `a` has `y` after a prefix of
/// non-terminals that all derive the empty string.
pub open spec fn left_edge(g: GrammarModel, f: Map<char, Set<char>>, a: char, y: char) -> bool {
    exists|i: int, j: int|
        #![trigger g.productions[i], body(g.productions[i].1)[j]]
        0 <= i < g.productions.len() && g.productions[i].0 == a && 0 <= j < body(
            g.productions[i].1,
        ).len() && body(g.productions[i].1)[j] == y && g.non_terminals.contains(y) && forall|m: int|
            0 <= m < j ==> sym_nullable(g.non_terminals, f, #[trigger] body(g.productions[i].1)[m])
}

/// A chain of leftmost reaches.
pub open spec fn left_path(g: GrammarModel, f: Map<char, Set<char>>, p: Seq<char>) -> bool {
    forall|k: int| 0 <= k < p.len() - 1 ==> #[trigger] left_edge(g, f, p[k], p[k + 1])
}

/// Some non-terminal reaches itself in leftmost position.
pub open spec fn left_recursive(g: GrammarModel, f: Map<char, Set<char>>) -> bool {
    exists|p: Seq<char>| p.len() >= 2 && p[0] == p.last() && #[trigger] left_path(g, f, p)
}

/// The scan of `a` reads only non-terminals of `d`.
pub open spec fn reads(nts: Set<char>, f: Map<char, Set<char>>, a: Seq<char>, d: Set<char>) -> bool
    decreases a.len(),
{
    if a.len() == 0 {
        true
    } else {
        (nts.contains(a[0]) ==> d.contains(a[0])) && (sym_nullable(nts, f, a[0]) ==> reads(
            nts,
            f,
            a.skip(1),
            d,
        ))
    }
}

/// What the first `j` symbols contribute.
pub open spec fn prefix_first(nts: Set<char>, f: Map<char, Set<char>>, a: Seq<char>, j: int) -> Set<char>
    decreases j,
{
    if j <= 0 {
        Set::empty()
    } else {
        prefix_first(nts, f, a, j - 1).union(sym_first(nts, f, a[j - 1]))
    }
}

/// The first `j` symbols all derive the empty string.
pub open spec fn null_prefix(nts: Set<char>, f: Map<char, Set<char>>, a: Seq<char>, j: int) -> bool {
    forall|m: int| 0 <= m < j ==> sym_nullable(nts, f, #[trigger] a[m])
}

/// Maps that agree on `d`.
pub open spec fn agree_on(f1: Map<char, Set<char>>, f2: Map<char, Set<char>>, d: Set<char>) -> bool {
    forall|c: char| #[trigger] d.contains(c) ==> f1[c] == f2[c]
}

/// `f1` lies within `f2` on `d`.
pub open spec fn within_on(f1: Map<char, Set<char>>, f2: Map<char, Set<char>>, d: Set<char>) -> bool {
    forall|c: char| #[trigger] d.contains(c) ==> f1[c].subset_of(f2[c])
}

pub proof fn lemma_reads_frame(
    nts: Set<char>,
    f1: Map<char, Set<char>>,
    f2: Map<char, Set<char>>,
    a: Seq<char>,
    d: Set<char>,
)
    requires
        reads(nts, f1, a, d),
        agree_on(f1, f2, d),
    ensures
        reads(nts, f2, a, d),
        first_of_seq(nts, f1, a) == first_of_seq(nts, f2, a),
    decreases a.len(),
{
    if a.len() > 0 {
        if nts.contains(a[0]) {
            assert(d.contains(a[0]));
        }
        if sym_nullable(nts, f1, a[0]) {
            lemma_reads_frame(nts, f1, f2, a.skip(1), d);
        }
    }
}

pub proof fn lemma_reads_grow(nts: Set<char>, f: Map<char, Set<char>>, a: Seq<char>, d: Set<char>, e: Set<char>)
    requires
        reads(nts, f, a, d),
        d.subset_of(e),
    ensures
        reads(nts, f, a, e),
    decreases a.len(),
{
    if a.len() > 0 && sym_nullable(nts, f, a[0]) {
        lemma_reads_grow(nts, f, a.skip(1), d, e);
    }
}

pub proof fn lemma_first_mono(
    nts: Set<char>,
    f1: Map<char, Set<char>>,
    f2: Map<char, Set<char>>,
    a: Seq<char>,
    d: Set<char>,
)
    requires
        reads(nts, f1, a, d),
        within_on(f1, f2, d),
    ensures
        first_of_seq(nts, f1, a).subset_of(first_of_seq(nts, f2, a)),
    decreases a.len(),
{
    if a.len() > 0 {
        if nts.contains(a[0]) {
            assert(d.contains(a[0]));
        }
        if sym_nullable(nts, f1, a[0]) {
            lemma_first_mono(nts, f1, f2, a.skip(1), d);
        }
    }
}

pub proof fn lemma_prefix_first_frame(
    nts: Set<char>,
    f1: Map<char, Set<char>>,
    f2: Map<char, Set<char>>,
    a: Seq<char>,
    j: int,
    d: Set<char>,
)
    requires
        0 <= j <= a.len(),
        forall|m: int| 0 <= m < j && nts.contains(#[trigger] a[m]) ==> d.contains(a[m]),
        agree_on(f1, f2, d),
    ensures
        prefix_first(nts, f1, a, j) == prefix_first(nts, f2, a, j),
        null_prefix(nts, f1, a, j) == null_prefix(nts, f2, a, j),
    decreases j,
{
    if j > 0 {
        lemma_prefix_first_frame(nts, f1, f2, a, j - 1, d);
        if nts.contains(a[j - 1]) {
            assert(d.contains(a[j - 1]));
        }
    }
}

/// Scanning a prefix that derives the empty string.
pub proof fn lemma_first_split(nts: Set<char>, f: Map<char, Set<char>>, a: Seq<char>, j: int)
    requires
        0 <= j <= a.len(),
        null_prefix(nts, f, a, j),
    ensures
        first_of_seq(nts, f, a) == prefix_first(nts, f, a, j).union(first_of_seq(nts, f, a.skip(j))),
    decreases j,
{
    if j == 0 {
        assert(a.skip(0) =~= a);
        assert(prefix_first(nts, f, a, 0).union(first_of_seq(nts, f, a)) =~= first_of_seq(nts, f, a));
    } else {
        lemma_first_split(nts, f, a, j - 1);
        let s = a.skip(j - 1);
        assert(s[0] == a[j - 1]);
        assert(s.skip(1) =~= a.skip(j));
        assert(sym_nullable(nts, f, a[j - 1]));
        assert(first_of_seq(nts, f, a) =~= prefix_first(nts, f, a, j).union(first_of_seq(nts, f, a.skip(j))));
    }
}

/// A scan that stops at `j` reads the first `j + 1` symbols (or all of them).
pub proof fn lemma_reads_scan(nts: Set<char>, f: Map<char, Set<char>>, a: Seq<char>, j: int, d: Set<char>)
    requires
        0 <= j <= a.len(),
        null_prefix(nts, f, a, j),
        forall|m: int| 0 <= m < j ==> d.contains(#[trigger] a[m]),
        j < a.len() ==> (nts.contains(a[j]) ==> d.contains(a[j])) && !sym_nullable(nts, f, a[j]),
    ensures
        reads(nts, f, a, d),
    decreases j,
{
    if a.len() > 0 {
        if j > 0 {
            let s = a.skip(1);
            assert forall|m: int| 0 <= m < j - 1 implies sym_nullable(nts, f, #[trigger] s[m]) by {
                assert(s[m] == a[m + 1]);
            }
            assert forall|m: int| 0 <= m < j - 1 implies d.contains(#[trigger] s[m]) by {
                assert(s[m] == a[m + 1]);
            }
            if j - 1 < s.len() {
                assert(s[j - 1] == a[j]);
            }
            lemma_reads_scan(nts, f, s, j - 1, d);
            assert(sym_nullable(nts, f, a[0]));
        }
    }
}

/// The end-of-input marker.
pub const BEGIN_END_CHAR: char = '#';

/// The FOLLOW rule for the non-terminal at position `j` of production `i`: FIRST of what
/// follows it, without the empty marker, follows it; and when what follows can vanish,
/// everything that follows the production's left symbol does too.
pub open spec fn follow_rule(
    g: GrammarModel,
    f: Map<char, Set<char>>,
    fo: Map<char, Set<char>>,
    i: int,
    j: int,
) -> bool {
    let b = body(g.productions[i].1);
    let rest = first_of_seq(g.non_terminals, f, b.skip(j + 1));
    &&& rest.remove(EMPTY_SENTENCE_CHAR).subset_of(fo[b[j]])
    &&& rest.contains(EMPTY_SENTENCE_CHAR) ==> fo[g.productions[i].0].subset_of(fo[b[j]])
}

/// `fo` satisfies the rules of FOLLOW, given FIRST `f`: the end marker follows the start
/// symbol, and every rule holds.
pub open spec fn follow_closed(g: GrammarModel, f: Map<char, Set<char>>, fo: Map<char, Set<char>>) -> bool {
    &&& fo.dom() == g.non_terminals
    &&& fo[g.start].contains(BEGIN_END_CHAR)
    &&& forall|i: int, j: int|
        #![trigger body(g.productions[i].1)[j]]
        0 <= i < g.productions.len() && 0 <= j < body(g.productions[i].1).len()
            && g.non_terminals.contains(body(g.productions[i].1)[j]) ==> follow_rule(g, f, fo, i, j)
}

/// `fo` is FOLLOW: it satisfies the rules and lies within every map that does.
pub open spec fn is_follow(g: GrammarModel, f: Map<char, Set<char>>, fo: Map<char, Set<char>>) -> bool {
    &&& follow_closed(g, f, fo)
    &&& forall|fo2: Map<char, Set<char>>, a: char|
        follow_closed(g, f, fo2) && g.non_terminals.contains(a) ==> #[trigger] fo[a].subset_of(
            #[trigger] fo2[a],
        )
}

/// FIRST of a string lies within the terminals and the empty marker when FIRST of each
/// non-terminal does and the string's other symbols are terminals.
pub proof fn lemma_first_of_seq_bounded(
    nts: Set<char>,
    ts: Set<char>,
    f: Map<char, Set<char>>,
    a: Seq<char>,
)
    requires
        forall|c: char| #[trigger] nts.contains(c) ==> f[c].subset_of(ts.insert(EMPTY_SENTENCE_CHAR)),
        forall|m: int| 0 <= m < a.len() && !nts.contains(#[trigger] a[m]) ==> ts.contains(a[m]),
    ensures
        first_of_seq(nts, f, a).subset_of(ts.insert(EMPTY_SENTENCE_CHAR)),
    decreases a.len(),
{
    if a.len() > 0 {
        let s = a.skip(1);
        assert forall|m: int| 0 <= m < s.len() && !nts.contains(#[trigger] s[m]) implies ts.contains(s[m]) by {
            assert(s[m] == a[m + 1]);
        }
        lemma_first_of_seq_bounded(nts, ts, f, s);
        if !nts.contains(a[0]) {
            assert(ts.contains(a[0]));
        }
    }
}

/// SELECT of production `i`: FIRST of its right-hand side, and, when that can vanish, also
/// FOLLOW of its left symbol, without the empty marker.
pub open spec fn select_of(g: GrammarModel, f: Map<char, Set<char>>, fo: Map<char, Set<char>>, i: int) -> Set<char> {
    let fs = first_of_seq(g.non_terminals, f, body(g.productions[i].1));
    if fs.contains(EMPTY_SENTENCE_CHAR) {
        fs.remove(EMPTY_SENTENCE_CHAR).union(fo[g.productions[i].0])
    } else {
        fs
    }
}

/// Two productions of one non-terminal share a SELECT terminal.
pub open spec fn select_conflict(
    g: GrammarModel,
    f: Map<char, Set<char>>,
    fo: Map<char, Set<char>>,
    i: int,
    j: int,
) -> bool {
    &&& 0 <= i < g.productions.len()
    &&& 0 <= j < g.productions.len()
    &&& i != j
    &&& g.productions[i].0 == g.productions[j].0
    &&& !select_of(g, f, fo, i).disjoint(select_of(g, f, fo, j))
}

/// No two productions of one non-terminal share a SELECT terminal.
pub open spec fn is_ll1(g: GrammarModel, f: Map<char, Set<char>>, fo: Map<char, Set<char>>) -> bool {
    forall|i: int, j: int| !#[trigger] select_conflict(g, f, fo, i, j)
}

/// The LL(1) table: under non-terminal `A` and terminal `t`, the production of `A` whose
/// SELECT set holds `t`.
pub open spec fn ll1_table(g: GrammarModel, f: Map<char, Set<char>>, fo: Map<char, Set<char>>) -> Map<(char, char), Seq<char>> {
    Map::new(
        |k: (char, char)|
            exists|i: int|
                0 <= i < g.productions.len() && (#[trigger] g.productions[i]).0 == k.0 && select_of(g, f, fo, i).contains(k.1),
        |k: (char, char)|
            g.productions[choose|i: int|
                0 <= i < g.productions.len() && (#[trigger] g.productions[i]).0 == k.0 && select_of(g, f, fo, i).contains(k.1)].1,
    )
}

/// Every left symbol is a non-terminal.
pub open spec fn left_symbols_declared(g: GrammarModel) -> bool {
    forall|i: int| 0 <= i < g.productions.len() ==> g.non_terminals.contains((#[trigger] g.productions[i]).0)
}

/// There is one FIRST map.
pub proof fn lemma_first_unique(g: GrammarModel, f1: Map<char, Set<char>>, f2: Map<char, Set<char>>)
    requires
        left_symbols_declared(g),
        is_first(g, f1),
        is_first(g, f2),
    ensures
        f1 == f2,
{
    lemma_first_is_closed(g, f1);
    lemma_first_is_closed(g, f2);
    assert forall|a: char| #[trigger] f1.contains_key(a) implies f1[a] == f2[a] by {
        assert(f1[a].subset_of(f2[a]));
        assert(f2[a].subset_of(f1[a]));
    }
    assert(f1 =~= f2);
}

/// FIRST satisfies its rules.
pub proof fn lemma_first_is_closed(g: GrammarModel, f: Map<char, Set<char>>)
    requires
        left_symbols_declared(g),
        is_first(g, f),
    ensures
        first_closed(g, f),
{
    assert forall|i: int| 0 <= i < g.productions.len() implies first_of_seq(
        g.non_terminals,
        f,
        body((#[trigger] g.productions[i]).1),
    ).subset_of(f[g.productions[i].0]) by {
        let a = g.productions[i].0;
        assert(g.non_terminals.contains(a));
        assert(f[a] == first_of_alternatives(g, f, a));
    }
}

/// There is one FOLLOW map for a FIRST map.
pub proof fn lemma_follow_unique(g: GrammarModel, f: Map<char, Set<char>>, fo1: Map<char, Set<char>>, fo2: Map<char, Set<char>>)
    requires
        is_follow(g, f, fo1),
        is_follow(g, f, fo2),
    ensures
        fo1 == fo2,
{
    assert forall|a: char| #[trigger] fo1.contains_key(a) implies fo1[a] == fo2[a] by {
        assert(fo1[a].subset_of(fo2[a]));
        assert(fo2[a].subset_of(fo1[a]));
    }
    assert(fo1 =~= fo2);
}

} // verus!
