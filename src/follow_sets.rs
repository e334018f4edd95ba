//! FOLLOW sets by iteration to a fixpoint.
use vstd::prelude::*;

use crate::first_search::{bodies_ok, fm};
use crate::grammar_sets::{
    body, first_closed, first_of_seq, follow_closed, follow_rule, is_first, is_follow,
    lemma_first_of_seq_bounded, lemma_first_split, null_prefix, prefix_first, set_map, sym_nullable,
    within_on, BEGIN_END_CHAR,
};
use crate::pushdown_automaton_grammar::{body_nts, body_terms, PushDownAutomatonGrammar};
use crate::regular_grammar::{GrammarModel, EMPTY_SENTENCE_CHAR};
use crate::utils::{add_all, add_all_except, contains_char, copy_chars, index_of, push_unique};

verus! {

/// The list holds one set per non-terminal, in the grammar's order.
pub open spec fn aligned(v: Seq<(char, Vec<char>)>, nv: Seq<char>) -> bool {
    &&& v.len() == nv.len()
    &&& forall|i: int| 0 <= i < v.len() ==> (#[trigger] v[i]).0 == nv[i]
}

pub proof fn lemma_set_map_at(v: Seq<(char, Vec<char>)>, nv: Seq<char>, i: int)
    requires
        aligned(v, nv),
        nv.no_duplicates(),
        0 <= i < nv.len(),
    ensures
        set_map(v).contains_key(nv[i]),
        set_map(v)[nv[i]] == v[i].1@.to_set(),
{
    assert(v[i].0 == nv[i]);
    let j = choose|j: int| 0 <= j < v.len() && v[j].0 == nv[i];
    assert(nv[j] == nv[i]);
}

impl PushDownAutomatonGrammar {
    /// A symbol of a right-hand side that is not a non-terminal is a terminal.
    proof fn lemma_body_symbol(&self, q: int, m: int)
        requires
            self.wf(),
            0 <= q < self@.productions.len(),
            0 <= m < body(self@.productions[q].1).len(),
        ensures
            !self@.non_terminals.contains(body(self@.productions[q].1)[m]) ==> self@.terminals.contains(
                body(self@.productions[q].1)[m],
            ),
    {
        let g = self@;
        let b = body(g.productions[q].1);
        let c = b[m];
        assert(b.contains(c));
        if crate::notation::is_ascii_upper(c) {
            assert(body_nts(b).contains(c));
        } else {
            assert(body_terms(b).contains(c));
        }
    }

    /// FIRST of the symbols of `b` from position `from` on.
    pub(crate) fn first_of_string(&self, first: &Vec<(char, Vec<char>)>, b: &Vec<char>, from: usize) -> (r: Vec<char>)
        requires
            self.wf(),
            aligned(first@, self.nt_seq()),
            from <= b.len(),
        ensures
            r@.no_duplicates(),
            r@.to_set() == first_of_seq(self@.non_terminals, set_map(first@), b@.skip(from as int)),
    {
        let ghost nts = self@.non_terminals;
        let ghost f = set_map(first@);
        let ghost s = b@.skip(from as int);
        let mut part: Vec<char> = Vec::new();
        let mut k: usize = from;
        let mut go = true;
        proof {
            assert(part@.to_set() =~= prefix_first(nts, f, s, 0));
        }
        while go && k < b.len()
            invariant
                self.wf(),
                aligned(first@, self.nt_seq()),
                nts == self@.non_terminals,
                f == set_map(first@),
                s == b@.skip(from as int),
                from <= k <= b.len(),
                part@.no_duplicates(),
                part@.to_set() == prefix_first(nts, f, s, k - from),
                go ==> null_prefix(nts, f, s, k - from),
                !go ==> k > from && null_prefix(nts, f, s, k - from - 1) && !sym_nullable(nts, f, s[k - from - 1]),
            decreases b.len() - k, if go { 1int } else { 0int },
        {
            let c = b[k];
            proof {
                assert(s[k - from] == c);
            }
            match index_of(&self.non_terminal, c) {
                Some(y) => {
                    proof {
                        lemma_set_map_at(first@, self.nt_seq(), y as int);
                        assert(self.non_terminal@.to_set().contains(c));
                    }
                    add_all_except(&mut part, &first[y].1, EMPTY_SENTENCE_CHAR);
                    go = contains_char(&first[y].1, EMPTY_SENTENCE_CHAR);
                    proof {
                        assert(part@.to_set() =~= prefix_first(nts, f, s, k - from + 1));
                    }
                },
                None => {
                    proof {
                        assert(!nts.contains(c)) by {
                            if nts.contains(c) {
                                assert(self.non_terminal@.to_set().contains(c));
                            }
                        }
                    }
                    push_unique(&mut part, c);
                    go = false;
                    proof {
                        assert(part@.to_set() =~= prefix_first(nts, f, s, k - from + 1));
                    }
                },
            }
            proof {
                if go {
                    assert forall|m: int| 0 <= m < k - from + 1 implies sym_nullable(nts, f, #[trigger] s[m]) by {
                        if m < k - from {
                            assert(null_prefix(nts, f, s, k - from));
                        }
                    }
                }
            }
            k = k + 1;
        }
        if go {
            proof {
                lemma_first_split(nts, f, s, k - from);
                assert(s.skip(k - from) =~= Seq::<char>::empty());
            }
            push_unique(&mut part, EMPTY_SENTENCE_CHAR);
            proof {
                assert(part@.to_set() =~= first_of_seq(nts, f, s));
            }
        } else {
            proof {
                let j = k - from - 1;
                lemma_first_split(nts, f, s, j);
                let t = s.skip(j);
                assert(t[0] == s[j]);
                assert(part@.to_set() =~= first_of_seq(nts, f, s));
            }
        }
        part
    }
}

/// The total size of the sets.
pub open spec fn total_len(s: Seq<Vec<char>>) -> int
    decreases s.len(),
{
    if s.len() == 0 {
        0
    } else {
        total_len(s.drop_last()) + s.last()@.len()
    }
}

proof fn lemma_total_update(s: Seq<Vec<char>>, y: int, v: Vec<char>)
    requires
        0 <= y < s.len(),
    ensures
        total_len(s.update(y, v)) == total_len(s) - s[y]@.len() + v@.len(),
    decreases s.len(),
{
    let u = s.update(y, v);
    if y < s.len() - 1 {
        assert(u.drop_last() =~= s.drop_last().update(y, v));
        lemma_total_update(s.drop_last(), y, v);
    } else {
        assert(u.drop_last() =~= s.drop_last());
    }
}

proof fn lemma_total_bound(s: Seq<Vec<char>>, cap: int)
    requires
        cap >= 0,
        forall|i: int| 0 <= i < s.len() ==> (#[trigger] s[i])@.len() <= cap,
    ensures
        0 <= total_len(s) <= s.len() * cap,
    decreases s.len(),
{
    if s.len() > 0 {
        assert forall|i: int| 0 <= i < s.drop_last().len() implies (#[trigger] s.drop_last()[i])@.len() <= cap by {
            assert(s.drop_last()[i] == s[i]);
        }
        lemma_total_bound(s.drop_last(), cap);
        assert(s.last() == s[s.len() - 1]);
        assert((s.len() - 1) * cap + cap == s.len() * cap) by (nonlinear_arith);
    }
}

/// A set without repetition within `u` is no larger than `u`.
proof fn lemma_len_within(a: Seq<char>, u: Set<char>)
    requires
        a.no_duplicates(),
        u.finite(),
        a.to_set().subset_of(u),
    ensures
        a.len() <= u.len(),
{
    a.unique_seq_to_set();
    vstd::set_lib::lemma_len_subset(a.to_set(), u);
}

/// What FOLLOW computation keeps: one set per non-terminal, without repetition, within
/// the terminals and the end marker, each within every map satisfying the rules, with the
/// end marker following the start symbol.
pub open spec fn follow_inv(g: GrammarModel, f: Map<char, Set<char>>, nv: Seq<char>, fol: Seq<Vec<char>>, si: int) -> bool {
    &&& fol.len() == nv.len()
    &&& 0 <= si < nv.len()
    &&& nv[si] == g.start
    &&& fol[si]@.contains(BEGIN_END_CHAR)
    &&& forall|y: int| 0 <= y < nv.len() ==> (#[trigger] fol[y])@.no_duplicates()
        && fol[y]@.to_set().subset_of(g.terminals.insert(BEGIN_END_CHAR))
    &&& forall|fo2: Map<char, Set<char>>| #[trigger] follow_closed(g, f, fo2) ==> within_on(fm(nv, fol), fo2, g.non_terminals)
}

/// From `a` to `b` each set only grows.
pub open spec fn sets_grow(a: Seq<Vec<char>>, b: Seq<Vec<char>>) -> bool {
    &&& a.len() == b.len()
    &&& forall|y: int| 0 <= y < a.len() ==> (#[trigger] a[y])@.to_set().subset_of(b[y]@.to_set())
}

/// The same sets, element for element.
pub open spec fn same_sets(a: Seq<Vec<char>>, b: Seq<Vec<char>>) -> bool {
    &&& a.len() == b.len()
    &&& forall|y: int| 0 <= y < a.len() ==> (#[trigger] a[y])@ == b[y]@
}

proof fn lemma_same_fm(nv: Seq<char>, a: Seq<Vec<char>>, b: Seq<Vec<char>>)
    requires
        same_sets(a, b),
        a.len() == nv.len(),
    ensures
        fm(nv, a) == fm(nv, b),
{
    assert forall|c: char| #[trigger] fm(nv, a).contains_key(c) implies fm(nv, a)[c] == fm(nv, b)[c] by {
        let i = nv.index_of(c);
        assert(a[i]@ == b[i]@);
    }
    assert(fm(nv, a) =~= fm(nv, b));
}

impl PushDownAutomatonGrammar {
    /// Applies the FOLLOW rule for position `j` of production `q` once; tells whether a set grew.
    fn follow_step(
        &self,
        first: &Vec<(char, Vec<char>)>,
        bodies: &Vec<Vec<char>>,
        fol: &mut Vec<Vec<char>>,
        si: usize,
        q: usize,
        j: usize,
        y: usize,
    ) -> (grew: bool)
        requires
            self.wf(),
            aligned(first@, self.nt_seq()),
            is_first(self@, set_map(first@)),
            bodies_ok(self@, bodies@),
            follow_inv(self@, set_map(first@), self.nt_seq(), old(fol)@, si as int),
            q < bodies.len(),
            j < bodies@[q as int].len(),
            y < self.nt_seq().len(),
            self.nt_seq()[y as int] == bodies@[q as int]@[j as int],
        ensures
            follow_inv(self@, set_map(first@), self.nt_seq(), final(fol)@, si as int),
            sets_grow(old(fol)@, final(fol)@),
            total_len(old(fol)@) <= total_len(final(fol)@),
            grew ==> total_len(old(fol)@) < total_len(final(fol)@),
            !grew ==> same_sets(old(fol)@, final(fol)@),
            follow_rule(self@, set_map(first@), fm(self.nt_seq(), final(fol)@), q as int, j as int),
    {
        let ghost g = self@;
        let ghost nv = self.nt_seq();
        let ghost nts = g.non_terminals;
        let ghost f = set_map(first@);
        let ghost ts = g.terminals.insert(BEGIN_END_CHAR);
        let ghost fol0 = fol@;
        let b = &bodies[q];
        let ghost bq = body(g.productions[q as int].1);
        proof {
            assert(b@ == bq);
            assert(g.productions[q as int].0 == g.productions[q as int].0);
        }
        let a = self.production_set[q].0;
        proof {
            assert(a == g.productions[q as int].0);
            assert(crate::pushdown_automaton_grammar::cfg_non_terminals(g.productions, g.start).contains(a)) by {
                let _ = g.productions[q as int];
            }
            assert(self.non_terminal@.to_set().contains(a));
        }
        let ai = index_of(&self.non_terminal, a).unwrap();
        let rest = self.first_of_string(first, b, j + 1);
        let ghost rs = first_of_seq(nts, f, bq.skip(j as int + 1));
        // FIRST sets hold terminals and the empty marker only.
        proof {
            let top = Map::new(|c: char| nts.contains(c), |c: char| g.terminals.insert(EMPTY_SENTENCE_CHAR));
            assert forall|x: int| 0 <= x < g.productions.len() implies first_of_seq(
                nts,
                top,
                body((#[trigger] g.productions[x]).1),
            ).subset_of(top[g.productions[x].0]) by {
                assert forall|m: int| 0 <= m < body(g.productions[x].1).len() && !nts.contains(#[trigger] body(g.productions[x].1)[m]) implies g.terminals.contains(body(g.productions[x].1)[m]) by {
                    self.lemma_body_symbol(x, m);
                }
                lemma_first_of_seq_bounded(nts, g.terminals, top, body(g.productions[x].1));
                assert(crate::pushdown_automaton_grammar::cfg_non_terminals(g.productions, g.start).contains(g.productions[x].0));
            }
            assert(top.dom() =~= nts);
            assert(first_closed(g, top));
            assert forall|c: char| #[trigger] nts.contains(c) implies f[c].subset_of(g.terminals.insert(EMPTY_SENTENCE_CHAR)) by {
                assert(f[c].subset_of(top[c]));
            }
            let sfx = bq.skip(j as int + 1);
            assert forall|m: int| 0 <= m < sfx.len() && !nts.contains(#[trigger] sfx[m]) implies g.terminals.contains(sfx[m]) by {
                assert(sfx[m] == bq[j + 1 + m]);
                self.lemma_body_symbol(q as int, j + 1 + m);
            }
            lemma_first_of_seq_bounded(nts, g.terminals, f, sfx);
        }
        let mut cur = copy_chars(&fol[y]);
        add_all_except(&mut cur, &rest, EMPTY_SENTENCE_CHAR);
        if contains_char(&rest, EMPTY_SENTENCE_CHAR) {
            let fa = copy_chars(&fol[ai]);
            add_all(&mut cur, &fa);
        }
        let grew = cur.len() != fol[y].len();
        let ghost cv = cur@;
        fol.set(y, cur);
        proof {
            let fo0 = fm(nv, fol0);
            let fo1 = fm(nv, fol@);
            crate::first_search::lemma_fm_at(nv, fol@, y as int);
            crate::first_search::lemma_fm_at(nv, fol0, y as int);
            crate::first_search::lemma_fm_at(nv, fol@, ai as int);
            crate::first_search::lemma_fm_at(nv, fol0, ai as int);
            lemma_total_update(fol0, y as int, fol@[y as int]);
            assert(fol@ == fol0.update(y as int, fol@[y as int]));
            // Growth.
            assert forall|z: int| 0 <= z < fol0.len() implies (#[trigger] fol0[z])@.to_set().subset_of(fol@[z]@.to_set()) by {
                if z != y {
                    assert(fol@[z] == fol0[z]);
                }
            }
            if !grew {
                assert(cv == fol0[y as int]@);
                assert forall|z: int| 0 <= z < fol0.len() implies (#[trigger] fol0[z])@ == fol@[z]@ by {
                    if z != y {
                        assert(fol@[z] == fol0[z]);
                    }
                }
            }
            // The rule holds now.
            assert(bq[j as int] == nv[y as int]);
            assert(fo1[bq[j as int]] == cv.to_set());
            if rs.contains(EMPTY_SENTENCE_CHAR) {
                assert(fo1[a].subset_of(cv.to_set())) by {
                    if ai != y {
                        assert(fol@[ai as int] == fol0[ai as int]);
                    }
                }
            }
            assert(follow_rule(g, f, fo1, q as int, j as int));
            // Each set stays within the terminals and the end marker, and within every
            // map that satisfies the rules.
            assert forall|z: int| 0 <= z < nv.len() implies (#[trigger] fol@[z])@.no_duplicates()
                && fol@[z]@.to_set().subset_of(ts) by {
                if z != y {
                    assert(fol@[z] == fol0[z]);
                } else {
                    assert(fol0[ai as int]@.to_set().subset_of(ts));
                    assert(fol0[y as int]@.to_set().subset_of(ts));
                }
            }
            assert(fol@[si as int]@.contains(BEGIN_END_CHAR)) by {
                assert(fol0[si as int]@.to_set().contains(BEGIN_END_CHAR));
                assert(fol0[si as int]@.to_set().subset_of(fol@[si as int]@.to_set()));
                assert(fol@[si as int]@.to_set().contains(BEGIN_END_CHAR));
            }
            assert forall|fo2: Map<char, Set<char>>| #[trigger] follow_closed(g, f, fo2) implies within_on(fo1, fo2, nts) by {
                assert(within_on(fo0, fo2, nts));
                assert(follow_rule(g, f, fo2, q as int, j as int)) by {
                    assert(nts.contains(bq[j as int])) by {
                        assert(nv.to_set().contains(nv[y as int]));
                    }
                }
                assert forall|c: char| #[trigger] nts.contains(c) implies fo1[c].subset_of(fo2[c]) by {
                    let z = nv.index_of(c);
                    assert(nv.to_set().contains(c));
                    assert(nv[z] == c);
                    crate::first_search::lemma_fm_at(nv, fol@, z);
                    crate::first_search::lemma_fm_at(nv, fol0, z);
                    if z != y {
                        assert(fol@[z] == fol0[z]);
                    } else {
                        assert(nts.contains(a));
                        assert(fo0[a].subset_of(fo2[a]));
                        assert(fo0[c].subset_of(fo2[c]));
                    }
                }
            }
        }
        grew
    }
}

impl PushDownAutomatonGrammar {
    /// One pass of the FOLLOW rules over every production; tells whether a set grew.
    fn follow_pass(
        &self,
        first: &Vec<(char, Vec<char>)>,
        bodies: &Vec<Vec<char>>,
        fol: &mut Vec<Vec<char>>,
        si: usize,
    ) -> (changed: bool)
        requires
            self.wf(),
            aligned(first@, self.nt_seq()),
            is_first(self@, set_map(first@)),
            bodies_ok(self@, bodies@),
            follow_inv(self@, set_map(first@), self.nt_seq(), old(fol)@, si as int),
        ensures
            follow_inv(self@, set_map(first@), self.nt_seq(), final(fol)@, si as int),
            total_len(old(fol)@) <= total_len(final(fol)@),
            changed ==> total_len(old(fol)@) < total_len(final(fol)@),
            !changed ==> follow_closed(self@, set_map(first@), fm(self.nt_seq(), final(fol)@)),
    {
        let ghost g = self@;
        let ghost nv = self.nt_seq();
        let ghost f = set_map(first@);
        let ghost fol0 = fol@;
        let mut changed = false;
        let mut q: usize = 0;
        while q < bodies.len()
            invariant
                self.wf(),
                g == self@,
                nv == self.nt_seq(),
                f == set_map(first@),
                aligned(first@, nv),
                is_first(g, f),
                bodies_ok(g, bodies@),
                follow_inv(g, f, nv, fol@, si as int),
                q <= bodies.len(),
                total_len(fol0) <= total_len(fol@),
                changed ==> total_len(fol0) < total_len(fol@),
                !changed ==> same_sets(fol0, fol@),
                !changed ==> forall|x: int, j: int|
                    #![trigger body(g.productions[x].1)[j]]
                    0 <= x < q && 0 <= j < body(g.productions[x].1).len() && g.non_terminals.contains(
                        body(g.productions[x].1)[j],
                    ) ==> follow_rule(g, f, fm(nv, fol@), x, j),
            decreases bodies.len() - q,
        {
            let b = &bodies[q];
            let mut j: usize = 0;
            while j < b.len()
                invariant
                    self.wf(),
                    g == self@,
                    nv == self.nt_seq(),
                    f == set_map(first@),
                    aligned(first@, nv),
                    is_first(g, f),
                    bodies_ok(g, bodies@),
                    q < bodies.len(),
                    b@ == body(g.productions[q as int].1),
                    follow_inv(g, f, nv, fol@, si as int),
                    j <= b.len(),
                    total_len(fol0) <= total_len(fol@),
                    changed ==> total_len(fol0) < total_len(fol@),
                    !changed ==> same_sets(fol0, fol@),
                    !changed ==> forall|x: int, k: int|
                        #![trigger body(g.productions[x].1)[k]]
                        0 <= x < q && 0 <= k < body(g.productions[x].1).len() && g.non_terminals.contains(
                            body(g.productions[x].1)[k],
                        ) ==> follow_rule(g, f, fm(nv, fol@), x, k),
                    !changed ==> forall|k: int|
                        #![trigger body(g.productions[q as int].1)[k]]
                        0 <= k < j && g.non_terminals.contains(body(g.productions[q as int].1)[k])
                            ==> follow_rule(g, f, fm(nv, fol@), q as int, k),
                decreases b.len() - j,
            {
                match index_of(&self.non_terminal, b[j]) {
                    Some(y) => {
                        let ghost before = fol@;
                        let grew = self.follow_step(first, bodies, fol, si, q, j, y);
                        proof {
                            if !grew {
                                lemma_same_fm(nv, before, fol@);
                                if !changed {
                                    assert forall|a: int| 0 <= a < fol0.len() implies (#[trigger] fol0[a])@ == fol@[a]@ by {
                                        assert(fol0[a]@ == before[a]@);
                                        assert(before[a]@ == fol@[a]@);
                                    }
                                }
                            }
                        }
                        changed = changed || grew;
                    },
                    None => {
                        proof {
                            assert(!g.non_terminals.contains(b@[j as int])) by {
                                if g.non_terminals.contains(b@[j as int]) {
                                    assert(self.non_terminal@.to_set().contains(b@[j as int]));
                                }
                            }
                        }
                    },
                }
                j = j + 1;
            }
            q = q + 1;
        }
        proof {
            if !changed {
                lemma_same_fm(nv, fol0, fol@);
                let fo = fm(nv, fol@);
                assert(fo.dom() =~= g.non_terminals) by {
                    assert forall|c: char| fo.dom().contains(c) <==> g.non_terminals.contains(c) by {
                        assert(nv.to_set().contains(c) == nv.contains(c));
                    }
                }
                crate::first_search::lemma_fm_at(nv, fol@, si as int);
                assert(fol@[si as int]@.to_set().contains(BEGIN_END_CHAR));
            }
        }
        changed
    }

    /// The FOLLOW set of every non-terminal, given FIRST: the end marker follows the start
    /// symbol; for every `A -> αBβ`, FIRST(β) without the empty marker follows `B`, and all
    /// of FOLLOW(`A`) does when β is absent or can vanish. Passes over all productions
    /// repeat until one changes nothing.
    pub fn get_follow_set(&self, first: &Vec<(char, Vec<char>)>) -> (r: Vec<(char, Vec<char>)>)
        requires
            self.wf(),
            aligned(first@, self.nt_seq()),
            is_first(self@, set_map(first@)),
        ensures
            aligned(r@, self.nt_seq()),
            is_follow(self@, set_map(first@), set_map(r@)),
    {
        let ghost g = self@;
        let ghost nv = self.nt_seq();
        let ghost f = set_map(first@);
        let ghost ts = g.terminals.insert(BEGIN_END_CHAR);
        let n = self.non_terminal.len();
        let bodies = self.production_bodies();
        proof {
            assert(crate::pushdown_automaton_grammar::cfg_non_terminals(g.productions, g.start).contains(g.start));
            assert(self.non_terminal@.to_set().contains(self.start));
        }
        let si = index_of(&self.non_terminal, self.start).unwrap();
        let mut fol: Vec<Vec<char>> = Vec::new();
        let mut i: usize = 0;
        while i < n
            invariant
                n == nv.len(),
                si < n,
                i <= n,
                fol.len() == i,
                forall|y: int| 0 <= y < i && y != si ==> (#[trigger] fol@[y])@.len() == 0,
                forall|y: int| 0 <= y < i && y == si ==> (#[trigger] fol@[y])@ == seq![BEGIN_END_CHAR],
            decreases n - i,
        {
            let mut s: Vec<char> = Vec::new();
            if i == si {
                s.push(BEGIN_END_CHAR);
            }
            proof {
                if i == si {
                    assert(s@ =~= seq![BEGIN_END_CHAR]);
                }
            }
            fol.push(s);
            i = i + 1;
        }
        proof {
            assert(fol@[si as int]@[0] == BEGIN_END_CHAR);
            assert forall|y: int| 0 <= y < nv.len() implies (#[trigger] fol@[y])@.no_duplicates()
                && fol@[y]@.to_set().subset_of(ts) by {
                if y == si {
                    assert forall|c: char| fol@[y]@.to_set().contains(c) implies ts.contains(c) by {
                        let k = choose|k: int| 0 <= k < fol@[y]@.len() && fol@[y]@[k] == c;
                    }
                } else {
                    assert forall|c: char| fol@[y]@.to_set().contains(c) implies ts.contains(c) by {
                        let k = choose|k: int| 0 <= k < fol@[y]@.len() && fol@[y]@[k] == c;
                    }
                }
            }
            assert forall|fo2: Map<char, Set<char>>| #[trigger] follow_closed(g, f, fo2) implies within_on(fm(nv, fol@), fo2, g.non_terminals) by {
                assert forall|c: char| #[trigger] g.non_terminals.contains(c) implies fm(nv, fol@)[c].subset_of(fo2[c]) by {
                    assert(nv.to_set().contains(c));
                    let z = nv.index_of(c);
                    crate::first_search::lemma_fm_at(nv, fol@, z);
                    assert forall|t: char| fol@[z]@.to_set().contains(t) implies fo2[c].contains(t) by {
                        let k = choose|k: int| 0 <= k < fol@[z]@.len() && fol@[z]@[k] == t;
                        assert(z == si);
                    }
                }
            }
            assert(follow_inv(g, f, nv, fol@, si as int));
        }
        let ghost cap = ts.len() as int;
        let mut stable = false;
        proof {
            assert(ts.finite()) by {
                vstd::seq_lib::seq_to_set_is_finite(self.terminal@);
            }
            assert forall|y: int| 0 <= y < fol.len() implies (#[trigger] fol@[y])@.len() <= cap by {
                lemma_len_within(fol@[y]@, ts);
            }
            lemma_total_bound(fol@, cap);
        }
        while !stable
            invariant
                self.wf(),
                g == self@,
                nv == self.nt_seq(),
                f == set_map(first@),
                ts == g.terminals.insert(BEGIN_END_CHAR),
                ts.finite(),
                cap == ts.len(),
                aligned(first@, nv),
                is_first(g, f),
                bodies_ok(g, bodies@),
                follow_inv(g, f, nv, fol@, si as int),
                0 <= total_len(fol@) <= nv.len() * cap,
                stable ==> follow_closed(g, f, fm(nv, fol@)),
            decreases nv.len() * cap - total_len(fol@), if stable { 0int } else { 1int },
        {
            let changed = self.follow_pass(first, &bodies, &mut fol, si);
            stable = !changed;
            proof {
                assert forall|y: int| 0 <= y < fol.len() implies (#[trigger] fol@[y])@.len() <= cap by {
                    lemma_len_within(fol@[y]@, ts);
                }
                lemma_total_bound(fol@, cap);
            }
        }
        let mut out: Vec<(char, Vec<char>)> = Vec::new();
        let mut k: usize = 0;
        while k < n
            invariant
                nv == self.nt_seq(),
                n == nv.len(),
                fol.len() == n,
                k <= n,
                out.len() == k,
                forall|x: int| 0 <= x < k ==> (#[trigger] out@[x]).0 == nv[x] && out@[x].1@ == fol@[x]@,
            decreases n - k,
        {
            let s = copy_chars(&fol[k]);
            out.push((self.non_terminal[k], s));
            k = k + 1;
        }
        proof {
            let fo = fm(nv, fol@);
            assert forall|c: char| set_map(out@).contains_key(c) <==> fo.contains_key(c) by {
                if fo.contains_key(c) {
                    let x = choose|x: int| 0 <= x < nv.len() && nv[x] == c;
                    assert(out@[x].0 == c);
                }
                if set_map(out@).contains_key(c) {
                    let x = choose|x: int| 0 <= x < out.len() && out@[x].0 == c;
                    assert(nv[x] == c);
                }
            }
            assert forall|c: char| #[trigger] set_map(out@).contains_key(c) implies set_map(out@)[c] == fo[c] by {
                let x = choose|x: int| 0 <= x < out.len() && out@[x].0 == c;
                assert(nv[x] == c);
                crate::first_search::lemma_fm_at(nv, fol@, x);
            }
            assert(set_map(out@) =~= fo);
            assert forall|fo2: Map<char, Set<char>>, a: char| follow_closed(g, f, fo2) && g.non_terminals.contains(a) implies #[trigger] fo[a].subset_of(#[trigger] fo2[a]) by {
                assert(within_on(fo, fo2, g.non_terminals));
            }
        }
        out
    }
}

} // verus!
