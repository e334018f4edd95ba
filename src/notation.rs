//! The textual notation: comma-separated units, `->` between a rule's sides, `|` between
//! alternatives.
use vstd::prelude::*;

use crate::utils::{chars_of, split_type_two_grammar};

verus! {

/// The lower-case form of an ASCII letter; other characters stay as they are.
pub open spec fn ascii_lower(c: char) -> char {
    if 'A' <= c && c <= 'Z' {
        ((c as u8) + 32u8) as char
    } else {
        c
    }
}

/// The upper-case form of an ASCII letter; other characters stay as they are.
pub open spec fn ascii_upper(c: char) -> char {
    if 'a' <= c && c <= 'z' {
        ((c as u8) - 32u8) as char
    } else {
        c
    }
}

/// Whether `c` is an ASCII upper-case letter.
pub open spec fn is_ascii_upper(c: char) -> bool {
    'A' <= c && c <= 'Z'
}

pub fn to_ascii_lower(c: char) -> (r: char)
    ensures
        r == ascii_lower(c),
{
    if 'A' <= c && c <= 'Z' {
        ((c as u8) + 32u8) as char
    } else {
        c
    }
}

pub fn to_ascii_upper(c: char) -> (r: char)
    ensures
        r == ascii_upper(c),
{
    if 'a' <= c && c <= 'z' {
        ((c as u8) - 32u8) as char
    } else {
        c
    }
}

/// The pieces of `s` between occurrences of `sep`; there is always at least one.
pub open spec fn split_by(s: Seq<char>, sep: char) -> Seq<Seq<char>>
    decreases s.len(),
{
    if s.len() == 0 {
        seq![Seq::empty()]
    } else {
        let p = split_by(s.drop_last(), sep);
        if s.last() == sep {
            p.push(Seq::empty())
        } else {
            p.update(p.len() - 1, p.last().push(s.last()))
        }
    }
}

pub proof fn lemma_split_by_len(s: Seq<char>, sep: char)
    ensures
        split_by(s, sep).len() >= 1,
    decreases s.len(),
{
    if s.len() > 0 {
        lemma_split_by_len(s.drop_last(), sep);
    }
}

/// Splits `s` at every occurrence of `sep`.
pub fn split_text(s: &str, sep: char) -> (r: Vec<String>)
    ensures
        r.len() == split_by(s@, sep).len(),
        forall|i: int| 0 <= i < r.len() ==> (#[trigger] r@[i])@ == split_by(s@, sep)[i],
{
    let cs = chars_of(s);
    let n = cs.len();
    let mut pieces: Vec<String> = Vec::new();
    let mut start: usize = 0;
    let mut i: usize = 0;
    while i < n
        invariant
            cs@ == s@,
            n == cs.len(),
            start <= i <= n,
            split_by(s@.take(i as int), sep).len() == pieces.len() + 1,
            forall|j: int|
                0 <= j < pieces.len() ==> (#[trigger] pieces@[j])@ == split_by(s@.take(i as int), sep)[j],
            split_by(s@.take(i as int), sep)[pieces.len() as int] == s@.subrange(start as int, i as int),
        decreases n - i,
    {
        let ghost p = split_by(s@.take(i as int), sep);
        proof {
            assert(s@.take(i as int + 1).drop_last() =~= s@.take(i as int));
            assert(s@.take(i as int + 1).last() == s@[i as int]);
            lemma_split_by_len(s@.take(i as int), sep);
        }
        if cs[i] == sep {
            let piece = s.substring_char(start, i).to_owned();
            pieces.push(piece);
            start = i + 1;
            proof {
                assert forall|j: int| 0 <= j < pieces.len() implies (#[trigger] pieces@[j])@ == split_by(
                    s@.take(i as int + 1),
                    sep,
                )[j] by {
                    if j < pieces.len() - 1 {
                        assert(pieces@[j] == pieces@.drop_last()[j]);
                    }
                }
                assert(s@.subrange(start as int, i as int + 1) =~= Seq::<char>::empty());
            }
        } else {
            proof {
                assert(s@.subrange(start as int, i as int + 1) =~= s@.subrange(start as int, i as int).push(
                    s@[i as int],
                ));
            }
        }
        i = i + 1;
    }
    let last = s.substring_char(start, n).to_owned();
    pieces.push(last);
    proof {
        assert(s@.take(n as int) =~= s@);
        assert forall|j: int| 0 <= j < pieces.len() implies (#[trigger] pieces@[j])@ == split_by(s@, sep)[j] by {
            if j < pieces.len() - 1 {
                assert(pieces@[j] == pieces@.drop_last()[j]);
            }
        }
    }
    pieces
}

/// The position of the first `->` in `s` at or after `k`, or the length of `s` when there is
/// none.
pub open spec fn next_arrow(s: Seq<char>, k: int) -> int
    decreases s.len() - k,
{
    if k < 0 || k + 1 >= s.len() {
        s.len() as int
    } else if s[k] == '-' && s[k + 1] == '>' {
        k
    } else {
        next_arrow(s, k + 1)
    }
}

/// A rule `X->rest`: its left symbol and the text after the arrow, up to a second arrow.
pub open spec fn rule_parts(s: Seq<char>) -> Option<(char, Seq<char>)> {
    if s.len() >= 3 && s[1] == '-' && s[2] == '>' {
        Some((s[0], s.subrange(3, next_arrow(s, 3))))
    } else {
        None
    }
}

/// The rules a unit `X->a|b` stands for: one per alternative, in order.
pub open spec fn unit_rules(u: Seq<char>) -> Option<Seq<(char, Seq<char>)>> {
    match rule_parts(u) {
        Some((l, rest)) => Some(split_by(rest, '|').map_values(|a: Seq<char>| (l, a))),
        None => None,
    }
}

/// The rules of a list of units, in order; `None` when some unit is not a rule.
pub open spec fn rules_of_units(us: Seq<Seq<char>>) -> Option<Seq<(char, Seq<char>)>>
    decreases us.len(),
{
    if us.len() == 0 {
        Some(Seq::empty())
    } else {
        match (rules_of_units(us.drop_last()), unit_rules(us.last())) {
            (Some(a), Some(b)) => Some(a + b),
            _ => None,
        }
    }
}

/// The rules of a text `X->a|b,Y->c`, in order.
pub open spec fn rules_of(text: Seq<char>) -> Option<Seq<(char, Seq<char>)>> {
    rules_of_units(split_by(text, ','))
}

/// The rules as plain values.
pub open spec fn rules_view(v: Seq<(char, String)>) -> Seq<(char, Seq<char>)> {
    v.map_values(|p: (char, String)| (p.0, p.1@))
}

proof fn lemma_rules_of_units_none(us: Seq<Seq<char>>, k: int)
    requires
        0 <= k <= us.len(),
        rules_of_units(us.take(k)) is None,
    ensures
        rules_of_units(us) is None,
    decreases us.len() - k,
{
    if k < us.len() {
        assert(us.take(k + 1).drop_last() =~= us.take(k));
        lemma_rules_of_units_none(us, k + 1);
    } else {
        assert(us.take(k) =~= us);
    }
}

/// Reads a list of rules `X->a|b,Y->c` into one `(left symbol, alternative)` pair per
/// alternative, in order.
pub fn parse_rules(text: &str) -> (r: Result<Vec<(char, String)>, ()>)
    ensures
        match rules_of(text@) {
            Some(rs) => r matches Ok(v) && rules_view(v@) == rs,
            None => r is Err,
        },
{
    let units = split_text(text, ',');
    let ghost us = split_by(text@, ',');
    let mut out: Vec<(char, String)> = Vec::new();
    let mut i: usize = 0;
    while i < units.len()
        invariant
            us == split_by(text@, ','),
            units.len() == us.len(),
            forall|j: int| 0 <= j < units.len() ==> (#[trigger] units@[j])@ == us[j],
            i <= units.len(),
            rules_of_units(us.take(i as int)) == Some(rules_view(out@)),
        decreases units.len() - i,
    {
        proof {
            assert(us.take(i as int + 1).drop_last() =~= us.take(i as int));
            assert(us.take(i as int + 1).last() == us[i as int]);
        }
        let unit = units[i].clone();
        match split_type_two_grammar(unit) {
            Err(()) => {
                proof {
                    lemma_rules_of_units_none(us, i as int + 1);
                }
                return Err(());
            },
            Ok((l, rest)) => {
                let alts = split_text(rest.as_str(), '|');
                let ghost base = rules_view(out@);
                let ghost ur = split_by(rest@, '|').map_values(|a: Seq<char>| (l, a));
                let mut j: usize = 0;
                while j < alts.len()
                    invariant
                        alts.len() == split_by(rest@, '|').len(),
                        forall|x: int| 0 <= x < alts.len() ==> (#[trigger] alts@[x])@ == split_by(rest@, '|')[x],
                        ur == split_by(rest@, '|').map_values(|a: Seq<char>| (l, a)),
                        j <= alts.len(),
                        rules_view(out@) == base + ur.take(j as int),
                    decreases alts.len() - j,
                {
                    let ghost before = out@;
                    out.push((l, alts[j].clone()));
                    proof {
                        assert(out@ == before.push((l, alts@[j as int])));
                        assert(rules_view(out@) =~= rules_view(before).push((l, alts@[j as int]@)));
                        assert(ur.take(j as int + 1) =~= ur.take(j as int).push(ur[j as int]));
                        assert(rules_view(out@) =~= base + ur.take(j as int + 1));
                    }
                    j = j + 1;
                }
                proof {
                    assert(ur.take(j as int) =~= ur);
                }
            },
        }
        i = i + 1;
    }
    proof {
        assert(us.take(units.len() as int) =~= us);
    }
    Ok(out)
}

} // verus!
