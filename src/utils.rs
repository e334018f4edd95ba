use vstd::prelude::*;

use crate::notation::{next_arrow, rule_parts};

verus! {

/// Whether `c` occurs in `v`.
pub fn contains_char(v: &Vec<char>, c: char) -> (r: bool)
    ensures
        r == v@.contains(c),
{
    let mut i: usize = 0;
    while i < v.len()
        invariant
            i <= v.len(),
            forall|j: int| 0 <= j < i ==> v@[j] != c,
        decreases v.len() - i,
    {
        if v[i] == c {
            return true;
        }
        i = i + 1;
    }
    false
}

/// The position of `c` in `v`, if it occurs there.
pub fn index_of(v: &Vec<char>, c: char) -> (r: Option<usize>)
    ensures
        match r {
            Some(i) => i < v.len() && v@[i as int] == c && forall|j: int| 0 <= j < i ==> v@[j] != c,
            None => !v@.contains(c),
        },
{
    let mut i: usize = 0;
    while i < v.len()
        invariant
            i <= v.len(),
            forall|j: int| 0 <= j < i ==> v@[j] != c,
        decreases v.len() - i,
    {
        if v[i] == c {
            return Some(i);
        }
        i = i + 1;
    }
    None
}

/// Appends `c` to `v` unless it is already there.
pub fn push_unique(v: &mut Vec<char>, c: char)
    requires
        old(v)@.no_duplicates(),
    ensures
        final(v)@.no_duplicates(),
        final(v)@.to_set() == old(v)@.to_set().insert(c),
        final(v)@.contains(c),
        old(v)@.contains(c) ==> final(v)@ == old(v)@,
        old(v)@.len() <= final(v)@.len(),
        final(v)@.len() == old(v)@.len() ==> final(v)@ == old(v)@,
{
    if !contains_char(v, c) {
        v.push(c);
        proof {
            old(v)@.lemma_push_to_set_commute(c);
            assert(v@[v@.len() - 1] == c);
        }
    } else {
        proof {
            assert(v@.to_set() =~= v@.to_set().insert(c));
        }
    }
}

/// The distinct elements of `v`, in order of first occurrence.
pub fn dedup_chars(v: &Vec<char>) -> (r: Vec<char>)
    ensures
        r@.no_duplicates(),
        r@.to_set() == v@.to_set(),
{
    let mut out: Vec<char> = Vec::new();
    let mut i: usize = 0;
    while i < v.len()
        invariant
            i <= v.len(),
            out@.no_duplicates(),
            out@.to_set() == v@.take(i as int).to_set(),
        decreases v.len() - i,
    {
        proof {
            assert(v@.take(i as int + 1) =~= v@.take(i as int).push(v@[i as int]));
            v@.take(i as int).lemma_push_to_set_commute(v@[i as int]);
        }
        push_unique(&mut out, v[i]);
        i = i + 1;
    }
    assert(v@.take(v.len() as int) =~= v@);
    out
}

/// The characters of `s`.
pub fn chars_of(s: &str) -> (r: Vec<char>)
    ensures
        r@ == s@,
{
    broadcast use vstd::string::axiom_spec_iter;

    let mut r: Vec<char> = Vec::new();
    for c in it: s.chars()
        invariant
            r@ == it.seq().take(it.index() as int),
    {
        r.push(c);
    }
    assert(r@ =~= s@);
    r
}

/// Splits a rule `X->rest` into its left symbol and the text after the arrow.
pub fn split_type_two_grammar(grammar: String) -> (r: Result<(char, String), ()>)
    ensures
        match rule_parts(grammar@) {
            Some((left, right)) => r matches Ok((l, s)) && l == left && s@ == right,
            None => r is Err,
        },
{
    let cs = chars_of(grammar.as_str());
    if cs.len() >= 3 && cs[1] == '-' && cs[2] == '>' {
        let mut k: usize = 3;
        while k < cs.len() - 1 && !(cs[k] == '-' && cs[k + 1] == '>')
            invariant
                cs@ == grammar@,
                3 <= k <= cs.len(),
                next_arrow(grammar@, k as int) == next_arrow(grammar@, 3),
            decreases cs.len() - k,
        {
            k = k + 1;
        }
        let end = if k < cs.len() - 1 {
            k
        } else {
            cs.len()
        };
        let rest = grammar.as_str().substring_char(3, end).to_owned();
        Ok((cs[0], rest))
    } else {
        Err(())
    }
}

/// A copy of `v`.
pub fn copy_chars(v: &Vec<char>) -> (r: Vec<char>)
    ensures
        r@ == v@,
{
    let mut r: Vec<char> = Vec::new();
    let mut i: usize = 0;
    while i < v.len()
        invariant
            i <= v.len(),
            r@ == v@.take(i as int),
        decreases v.len() - i,
    {
        r.push(v[i]);
        proof {
            assert(v@.take(i as int + 1) =~= v@.take(i as int).push(v@[i as int]));
        }
        i = i + 1;
    }
    assert(v@.take(v.len() as int) =~= v@);
    r
}

/// Adds to `acc` the elements of `src` other than `skip`.
pub fn add_all_except(acc: &mut Vec<char>, src: &Vec<char>, skip: char)
    requires
        old(acc)@.no_duplicates(),
    ensures
        final(acc)@.no_duplicates(),
        final(acc)@.to_set() == old(acc)@.to_set().union(src@.to_set().remove(skip)),
        old(acc)@.len() <= final(acc)@.len(),
        final(acc)@.len() == old(acc)@.len() ==> final(acc)@ == old(acc)@,
{
    let mut i: usize = 0;
    while i < src.len()
        invariant
            i <= src.len(),
            acc@.no_duplicates(),
            acc@.to_set() == old(acc)@.to_set().union(src@.take(i as int).to_set().remove(skip)),
            old(acc)@.len() <= acc@.len(),
            acc@.len() == old(acc)@.len() ==> acc@ == old(acc)@,
        decreases src.len() - i,
    {
        proof {
            assert(src@.take(i as int + 1) =~= src@.take(i as int).push(src@[i as int]));
            src@.take(i as int).lemma_push_to_set_commute(src@[i as int]);
        }
        if src[i] != skip {
            push_unique(acc, src[i]);
        }
        proof {
            assert(acc@.to_set() =~= old(acc)@.to_set().union(src@.take(i as int + 1).to_set().remove(skip)));
        }
        i = i + 1;
    }
    assert(src@.take(src.len() as int) =~= src@);
}

/// Adds to `acc` the elements of `src`.
pub fn add_all(acc: &mut Vec<char>, src: &Vec<char>)
    requires
        old(acc)@.no_duplicates(),
    ensures
        final(acc)@.no_duplicates(),
        final(acc)@.to_set() == old(acc)@.to_set().union(src@.to_set()),
        old(acc)@.len() <= final(acc)@.len(),
        final(acc)@.len() == old(acc)@.len() ==> final(acc)@ == old(acc)@,
{
    let mut i: usize = 0;
    while i < src.len()
        invariant
            i <= src.len(),
            acc@.no_duplicates(),
            acc@.to_set() == old(acc)@.to_set().union(src@.take(i as int).to_set()),
            old(acc)@.len() <= acc@.len(),
            acc@.len() == old(acc)@.len() ==> acc@ == old(acc)@,
        decreases src.len() - i,
    {
        proof {
            assert(src@.take(i as int + 1) =~= src@.take(i as int).push(src@[i as int]));
            src@.take(i as int).lemma_push_to_set_commute(src@[i as int]);
        }
        push_unique(acc, src[i]);
        proof {
            assert(acc@.to_set() =~= old(acc)@.to_set().union(src@.take(i as int + 1).to_set()));
        }
        i = i + 1;
    }
    assert(src@.take(src.len() as int) =~= src@);
}

/// The map a list of `(key, value)` entries stands for; a later entry overrides an earlier one.
pub open spec fn assoc_map<K, V>(s: Seq<(K, V)>) -> Map<K, V>
    decreases s.len(),
{
    if s.len() == 0 {
        Map::empty()
    } else {
        assoc_map(s.drop_last()).insert(s.last().0, s.last().1)
    }
}

/// No two entries share a key.
pub open spec fn assoc_keys_unique<K, V>(s: Seq<(K, V)>) -> bool {
    forall|i: int, j: int| 0 <= i < s.len() && 0 <= j < s.len() && i != j ==> s[i].0 != s[j].0
}

pub proof fn lemma_assoc_dom<K, V>(s: Seq<(K, V)>, k: K)
    ensures
        assoc_map(s).contains_key(k) <==> exists|i: int| 0 <= i < s.len() && s[i].0 == k,
    decreases s.len(),
{
    if s.len() > 0 {
        lemma_assoc_dom(s.drop_last(), k);
        if assoc_map(s).contains_key(k) && s.last().0 != k {
            let i = choose|i: int| 0 <= i < s.drop_last().len() && s.drop_last()[i].0 == k;
            assert(s[i].0 == k);
        }
        if exists|i: int| 0 <= i < s.len() && s[i].0 == k {
            let i = choose|i: int| 0 <= i < s.len() && s[i].0 == k;
            if i < s.len() - 1 {
                assert(s.drop_last()[i].0 == k);
            }
        }
    }
}

pub proof fn lemma_assoc_value<K, V>(s: Seq<(K, V)>, i: int)
    requires
        assoc_keys_unique(s),
        0 <= i < s.len(),
    ensures
        assoc_map(s).contains_key(s[i].0),
        assoc_map(s)[s[i].0] == s[i].1,
    decreases s.len(),
{
    if i < s.len() - 1 {
        assert(assoc_keys_unique(s.drop_last()));
        lemma_assoc_value(s.drop_last(), i);
        assert(s.last().0 != s[i].0);
    }
}

pub proof fn lemma_assoc_push<K, V>(s: Seq<(K, V)>, e: (K, V))
    ensures
        assoc_map(s.push(e)) == assoc_map(s).insert(e.0, e.1),
{
    assert(s.push(e).drop_last() =~= s);
}

pub proof fn lemma_assoc_update<K, V>(s: Seq<(K, V)>, j: int, e: (K, V))
    requires
        assoc_keys_unique(s),
        0 <= j < s.len(),
        s[j].0 == e.0,
    ensures
        assoc_keys_unique(s.update(j, e)),
        assoc_map(s.update(j, e)) == assoc_map(s).insert(e.0, e.1),
{
    let t = s.update(j, e);
    assert(assoc_keys_unique(t)) by {
        assert forall|a: int, b: int| 0 <= a < t.len() && 0 <= b < t.len() && a != b implies t[a].0 != t[b].0 by {
            assert(t[a].0 == s[a].0);
            assert(t[b].0 == s[b].0);
        }
    }
    assert forall|k: K| assoc_map(t).contains_key(k) == assoc_map(s).insert(e.0, e.1).contains_key(k) by {
        lemma_assoc_dom(t, k);
        lemma_assoc_dom(s, k);
        if exists|i: int| 0 <= i < s.len() && s[i].0 == k {
            let i = choose|i: int| 0 <= i < s.len() && s[i].0 == k;
            assert(t[i].0 == k);
        }
        if exists|i: int| 0 <= i < t.len() && t[i].0 == k {
            let i = choose|i: int| 0 <= i < t.len() && t[i].0 == k;
            assert(s[i].0 == k);
        }
    }
    assert forall|k: K| #[trigger] assoc_map(t).contains_key(k) implies assoc_map(t)[k] == assoc_map(s).insert(e.0, e.1)[k] by {
        lemma_assoc_dom(t, k);
        let i = choose|i: int| 0 <= i < t.len() && t[i].0 == k;
        lemma_assoc_value(t, i);
        if i != j {
            assert(s[i].0 == k);
            lemma_assoc_value(s, i);
        }
    }
    assert(assoc_map(t) =~= assoc_map(s).insert(e.0, e.1));
}

/// Where every entry with key `k` carries `v`, the map gives `v` at `k`.
pub proof fn lemma_assoc_agreeing<K, V>(s: Seq<(K, V)>, k: K, v: V)
    requires
        assoc_map(s).contains_key(k),
        forall|x: int| 0 <= x < s.len() && (#[trigger] s[x]).0 == k ==> s[x].1 == v,
    ensures
        assoc_map(s)[k] == v,
    decreases s.len(),
{
    if s.len() > 0 && s.last().0 != k {
        assert forall|x: int| 0 <= x < s.drop_last().len() && (#[trigger] s.drop_last()[x]).0 == k implies s.drop_last()[x].1 == v by {
            assert(s.drop_last()[x] == s[x]);
        }
        lemma_assoc_agreeing(s.drop_last(), k, v);
    } else if s.len() > 0 {
        assert(s[s.len() - 1] == s.last());
    }
}

/// Whether `a` and `b` share an element.
pub fn intersects(a: &Vec<char>, b: &Vec<char>) -> (r: bool)
    ensures
        r == !a@.to_set().disjoint(b@.to_set()),
{
    let mut i: usize = 0;
    while i < a.len()
        invariant
            i <= a.len(),
            forall|j: int| 0 <= j < i ==> !b@.contains(#[trigger] a@[j]),
        decreases a.len() - i,
    {
        if contains_char(b, a[i]) {
            proof {
                assert(a@.to_set().contains(a@[i as int]));
                assert(b@.to_set().contains(a@[i as int]));
            }
            return true;
        }
        i = i + 1;
    }
    proof {
        assert forall|c: char| a@.to_set().contains(c) implies !b@.to_set().contains(c) by {
            let j = choose|j: int| 0 <= j < a.len() && a@[j] == c;
        }
    }
    false
}

/// The elements of `s` in order of their characters.
pub open spec fn sorted_chars(s: Seq<char>) -> bool {
    forall|i: int, j: int| 0 <= i < j < s.len() ==> (s[i] as u32) <= (s[j] as u32)
}

/// The elements of `items`, sorted by character.
pub fn collect_ordered_vec(items: Vec<char>) -> (r: Vec<char>)
    ensures
        sorted_chars(r@),
        r@.to_multiset() == items@.to_multiset(),
{
    let mut v = items;
    let n = v.len();
    let mut i: usize = 1;
    if n == 0 {
        return v;
    }
    while i < n
        invariant
            1 <= i <= n,
            n == v.len(),
            forall|a: int, b: int| 0 <= a < b < i ==> (v@[a] as u32) <= (v@[b] as u32),
            v@.to_multiset() == items@.to_multiset(),
        decreases n - i,
    {
        let mut j: usize = i;
        while j > 0 && (v[j - 1] as u32) > (v[j] as u32)
            invariant
                0 <= j <= i < n,
                n == v.len(),
                v@.to_multiset() == items@.to_multiset(),
                forall|a: int, b: int| 0 <= a < b <= i && b != j ==> (v@[a] as u32) <= (v@[b] as u32),
                forall|a: int, b: int| 0 <= a < j && j < b <= i ==> (v@[a] as u32) <= (v@[b] as u32),
            decreases j,
        {
            let x = v[j - 1];
            let y = v[j];
            let ghost before = v@;
            v.set(j - 1, y);
            v.set(j, x);
            proof {
                let mid = before.update(j - 1, y);
                assert(v@ =~= mid.update(j as int, x));
                vstd::seq_lib::to_multiset_update(before, j - 1, y);
                vstd::seq_lib::to_multiset_update(mid, j as int, x);
                assert(mid[j as int] == y);
                assert(before[j - 1] == x);
                broadcast use vstd::multiset::group_multiset_axioms;
                assert(before.contains(x)) by {
                    assert(before[j - 1] == x);
                }
                assert(before.to_multiset().count(x) > 0) by {
                    before.to_multiset_ensures();
                }
                assert(mid.to_multiset().count(y) > 0) by {
                    mid.to_multiset_ensures();
                    assert(mid.contains(y)) by {
                        assert(mid[j as int] == y);
                    }
                }
                assert forall|e: char| v@.to_multiset().count(e) == before.to_multiset().count(e) by {
                }
                assert(v@.to_multiset() =~= before.to_multiset());
            }
            j = j - 1;
        }
        i = i + 1;
    }
    v
}

} // verus!
