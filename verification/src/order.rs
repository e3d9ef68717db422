//! The order of strings by their characters (what `Ord` for `String` is),
//! and lists of strings kept sorted without repeats.

use vstd::prelude::*;

use crate::table::names_of;
use crate::text::chars_of;

verus! {

/// `a` comes before `b` character by character; a proper prefix comes first.
pub open spec fn lex_lt(a: Seq<char>, b: Seq<char>) -> bool
    decreases a.len(),
{
    if a.len() == 0 {
        b.len() > 0
    } else if b.len() == 0 {
        false
    } else if a[0] != b[0] {
        a[0] < b[0]
    } else {
        lex_lt(a.drop_first(), b.drop_first())
    }
}

pub proof fn lemma_lex_irreflexive(a: Seq<char>)
    ensures
        !lex_lt(a, a),
    decreases a.len(),
{
    if a.len() > 0 {
        lemma_lex_irreflexive(a.drop_first());
    }
}

pub proof fn lemma_lex_asymmetric(a: Seq<char>, b: Seq<char>)
    ensures
        !(lex_lt(a, b) && lex_lt(b, a)),
    decreases a.len(),
{
    if a.len() > 0 && b.len() > 0 && a[0] == b[0] {
        lemma_lex_asymmetric(a.drop_first(), b.drop_first());
    }
}

pub proof fn lemma_lex_transitive(a: Seq<char>, b: Seq<char>, c: Seq<char>)
    requires
        lex_lt(a, b),
        lex_lt(b, c),
    ensures
        lex_lt(a, c),
    decreases a.len(),
{
    if a.len() > 0 && b.len() > 0 && c.len() > 0 && a[0] == b[0] && b[0] == c[0] {
        lemma_lex_transitive(a.drop_first(), b.drop_first(), c.drop_first());
    }
}

pub proof fn lemma_lex_total(a: Seq<char>, b: Seq<char>)
    requires
        a != b,
    ensures
        lex_lt(a, b) || lex_lt(b, a),
    decreases a.len(),
{
    if a.len() > 0 && b.len() > 0 && a[0] == b[0] {
        if a.drop_first() == b.drop_first() {
            assert(a =~= seq![a[0]] + a.drop_first());
            assert(b =~= seq![b[0]] + b.drop_first());
        }
        lemma_lex_total(a.drop_first(), b.drop_first());
    } else if a.len() == 0 && b.len() == 0 {
        assert(a =~= b);
    }
}

proof fn lemma_lex_skip(a: Seq<char>, b: Seq<char>, i: int)
    requires
        0 <= i <= a.len(),
        i <= b.len(),
        forall|j: int| 0 <= j < i ==> a[j] == b[j],
    ensures
        lex_lt(a, b) == lex_lt(a.skip(i), b.skip(i)),
    decreases i,
{
    if i > 0 {
        lemma_lex_skip(a.drop_first(), b.drop_first(), i - 1);
        assert(a.drop_first().skip(i - 1) =~= a.skip(i));
        assert(b.drop_first().skip(i - 1) =~= b.skip(i));
    } else {
        assert(a.skip(0) =~= a);
        assert(b.skip(0) =~= b);
    }
}

/// Whether `a` comes before `b`.
pub fn str_lt(a: &str, b: &str) -> (r: bool)
    ensures
        r == lex_lt(a@, b@),
{
    let x = chars_of(a);
    let y = chars_of(b);
    let mut i: usize = 0;
    while i < x.len() && i < y.len() && x[i] == y[i]
        invariant
            x@ == a@,
            y@ == b@,
            i <= x@.len(),
            i <= y@.len(),
            forall|j: int| 0 <= j < i ==> x@[j] == y@[j],
        decreases x.len() - i,
    {
        i = i + 1;
    }
    proof {
        lemma_lex_skip(a@, b@, i as int);
    }
    if i == x.len() {
        proof {
            assert(a@.skip(i as int).len() == 0);
        }
        i < y.len()
    } else if i == y.len() {
        false
    } else {
        proof {
            assert(a@.skip(i as int)[0] == x@[i as int]);
            assert(b@.skip(i as int)[0] == y@[i as int]);
        }
        x[i] < y[i]
    }
}

pub open spec fn texts(v: Seq<String>) -> Seq<Seq<char>> {
    v.map_values(|s: String| s@)
}

/// Each entry comes before every later one.
pub open spec fn strictly_sorted(s: Seq<Seq<char>>) -> bool {
    forall|i: int, j: int| 0 <= i < j < s.len() ==> lex_lt(#[trigger] s[i], #[trigger] s[j])
}

/// The names of a set, sorted, each once.
pub open spec fn sorted_names(names: Set<Seq<char>>) -> Seq<Seq<char>> {
    choose|s: Seq<Seq<char>>| strictly_sorted(s) && s.to_set() == names
}

/// Two sorted lists without repeats that hold the same names are the same list.
pub proof fn lemma_sorted_unique(s: Seq<Seq<char>>, t: Seq<Seq<char>>)
    requires
        strictly_sorted(s),
        strictly_sorted(t),
        s.to_set() == t.to_set(),
    ensures
        s == t,
    decreases s.len(),
{
    if s.len() == 0 {
        if t.len() > 0 {
            assert(t.to_set().contains(t[0]));
        }
        assert(s =~= t);
    } else if t.len() == 0 {
        assert(s.to_set().contains(s[0]));
    } else {
        assert(s.to_set().contains(t[0]));
        assert(t.to_set().contains(s[0]));
        let i = choose|i: int| 0 <= i < s.len() && s[i] == t[0];
        let j = choose|j: int| 0 <= j < t.len() && t[j] == s[0];
        if i > 0 && j > 0 {
            lemma_lex_asymmetric(s[0], t[0]);
        }
        if i > 0 && j == 0 {
            lemma_lex_irreflexive(s[0]);
        }
        if i == 0 && j > 0 {
            lemma_lex_irreflexive(t[0]);
        }
        assert(s[0] == t[0]);
        let s1 = s.drop_first();
        let t1 = t.drop_first();
        assert(strictly_sorted(s1)) by {
            assert forall|a: int, b: int| 0 <= a < b < s1.len() implies lex_lt(
                #[trigger] s1[a],
                #[trigger] s1[b],
            ) by {
                assert(s1[a] == s[a + 1] && s1[b] == s[b + 1]);
            }
        }
        assert(strictly_sorted(t1)) by {
            assert forall|a: int, b: int| 0 <= a < b < t1.len() implies lex_lt(
                #[trigger] t1[a],
                #[trigger] t1[b],
            ) by {
                assert(t1[a] == t[a + 1] && t1[b] == t[b + 1]);
            }
        }
        assert forall|x: Seq<char>| #[trigger] s1.to_set().contains(x) == t1.to_set().contains(x) by {
            if s1.to_set().contains(x) {
                let a = choose|a: int| 0 <= a < s1.len() && s1[a] == x;
                assert(s[a + 1] == x);
                assert(lex_lt(s[0], s[a + 1]));
                lemma_lex_irreflexive(x);
                assert(t.to_set().contains(x));
                let b = choose|b: int| 0 <= b < t.len() && t[b] == x;
                assert(b != 0);
                assert(t1[b - 1] == x);
            }
            if t1.to_set().contains(x) {
                let a = choose|a: int| 0 <= a < t1.len() && t1[a] == x;
                assert(t[a + 1] == x);
                assert(lex_lt(t[0], t[a + 1]));
                lemma_lex_irreflexive(x);
                assert(s.to_set().contains(x));
                let b = choose|b: int| 0 <= b < s.len() && s[b] == x;
                assert(b != 0);
                assert(s1[b - 1] == x);
            }
        }
        assert(s1.to_set() =~= t1.to_set());
        lemma_sorted_unique(s1, t1);
        assert(s.len() == t.len());
        assert forall|i: int| 0 <= i < s.len() implies s[i] == t[i] by {
            if i > 0 {
                assert(s[i] == s1[i - 1]);
                assert(t[i] == t1[i - 1]);
            }
        }
        assert(s =~= t);
    }
}

proof fn lemma_sorted_names_is(s: Seq<Seq<char>>)
    requires
        strictly_sorted(s),
    ensures
        sorted_names(s.to_set()) == s,
{
    let c = sorted_names(s.to_set());
    assert(strictly_sorted(c) && c.to_set() == s.to_set());
    lemma_sorted_unique(c, s);
}

/// The names listed, sorted, each once.
pub fn sorted_distinct(names: &Vec<String>) -> (r: Vec<String>)
    ensures
        strictly_sorted(texts(r@)),
        texts(r@).to_set() == names_of(names@),
        texts(r@) == sorted_names(names_of(names@)),
{
    let mut out: Vec<String> = Vec::new();
    let mut k: usize = 0;
    while k < names.len()
        invariant
            k <= names@.len(),
            strictly_sorted(texts(out@)),
            forall|x: Seq<char>| #[trigger] texts(out@).to_set().contains(x) <==> exists|j: int|
                0 <= j < k && (#[trigger] names@[j])@ == x,
        decreases names.len() - k,
    {
        let x = &names[k];
        let ghost before = texts(out@);
        let mut p: usize = 0;
        while p < out.len() && str_lt(out[p].as_str(), x.as_str())
            invariant
                p <= out@.len(),
                before == texts(out@),
                forall|j: int| 0 <= j < p ==> lex_lt(#[trigger] before[j], x@),
            decreases out.len() - p,
        {
            proof {
                assert(before[p as int] == out@[p as int]@);
            }
            p = p + 1;
        }
        let present = p < out.len() && out[p] == *x;
        if !present {
            out.insert(p, x.clone());
            proof {
                let after = texts(out@);
                assert(after =~= before.insert(p as int, x@));
                if p < before.len() {
                    assert(before[p as int] == out@[p as int + 1]@);
                    assert(before[p as int] != x@);
                    assert(!lex_lt(before[p as int], x@));
                    lemma_lex_total(before[p as int], x@);
                }
                assert forall|a: int, b: int| 0 <= a < b < after.len() implies lex_lt(
                    #[trigger] after[a],
                    #[trigger] after[b],
                ) by {
                    if b < p {
                        assert(after[a] == before[a] && after[b] == before[b]);
                    } else if b == p {
                        assert(after[a] == before[a]);
                    } else if a == p {
                        assert(after[b] == before[b - 1]);
                        if b - 1 > p {
                            lemma_lex_transitive(x@, before[p as int], before[b - 1]);
                        }
                    } else if a < p {
                        assert(after[a] == before[a] && after[b] == before[b - 1]);
                        if b - 1 >= p {
                        }
                    } else {
                        assert(after[a] == before[a - 1] && after[b] == before[b - 1]);
                    }
                }
            }
        }
        proof {
            let after = texts(out@);
            assert forall|y: Seq<char>| #[trigger] after.to_set().contains(y) <==> exists|j: int|
                0 <= j < k + 1 && (#[trigger] names@[j])@ == y by {
                if after.to_set().contains(y) {
                    let a = choose|a: int| 0 <= a < after.len() && after[a] == y;
                    if y != x@ {
                        if !present {
                            if a < p {
                                assert(before[a] == y);
                            } else if a > p {
                                assert(before[a - 1] == y);
                            }
                        } else {
                            assert(before[a] == y);
                        }
                        assert(before.to_set().contains(y));
                    } else {
                        assert(names@[k as int]@ == y);
                    }
                }
                if exists|j: int| 0 <= j < k + 1 && (#[trigger] names@[j])@ == y {
                    let j = choose|j: int| 0 <= j < k + 1 && (#[trigger] names@[j])@ == y;
                    if j < k {
                        assert(before.to_set().contains(y));
                        let a = choose|a: int| 0 <= a < before.len() && before[a] == y;
                        if !present {
                            if a < p {
                                assert(after[a] == y);
                            } else {
                                assert(after[a + 1] == y);
                            }
                        } else {
                            assert(after[a] == y);
                        }
                    } else {
                        if !present {
                            assert(after[p as int] == y);
                        } else {
                            assert(after[p as int] == out@[p as int]@);
                        }
                    }
                }
            }
        }
        k = k + 1;
    }
    proof {
        assert(texts(out@).to_set() =~= names_of(names@));
        lemma_sorted_names_is(texts(out@));
    }
    out
}

} // verus!
