//! Index labels and strictly ascending label sequences.
//!
//! Contraction-index sets and inferred outputs are kept as `Vec<char>`
//! sequences that are strictly ascending in Unicode scalar order: such a
//! sequence is a canonical representation of a finite set of labels.

use vstd::prelude::*;

verus! {

/// The order on index labels: by Unicode scalar value.
pub open spec fn char_lt(a: char, b: char) -> bool {
    (a as u32) < (b as u32)
}

/// Distinct labels are strictly ordered one way or the other.
pub proof fn lemma_char_lt_total(a: char, b: char)
    ensures
        a == b || char_lt(a, b) || char_lt(b, a),
{
    broadcast use vstd::utf8::char_u32_cast;

}

/// A strictly ascending label sequence: sorted and free of duplicates.
pub open spec fn strictly_sorted(s: Seq<char>) -> bool {
    forall|i: int, j: int| 0 <= i < j < s.len() ==> char_lt(s[i], s[j])
}

/// How often `c` occurs in `s`.
pub open spec fn count_in(s: Seq<char>, c: char) -> nat
    decreases s.len(),
{
    if s.len() == 0 {
        0
    } else {
        count_in(s.drop_last(), c) + if s.last() == c {
            1nat
        } else {
            0nat
        }
    }
}

/// A label occurs in a sequence exactly when its count is positive.
pub proof fn lemma_count_in_contains(s: Seq<char>, c: char)
    ensures
        count_in(s, c) > 0 <==> s.contains(c),
    decreases s.len(),
{
    if s.len() > 0 {
        lemma_count_in_contains(s.drop_last(), c);
        if s.contains(c) && s.last() != c {
            let i = choose|i: int| 0 <= i < s.len() && s[i] == c;
            assert(s.drop_last()[i] == c);
        }
        if s.drop_last().contains(c) {
            let i = choose|i: int| 0 <= i < s.drop_last().len() && s.drop_last()[i] == c;
            assert(s[i] == c);
        }
    }
}

/// Counting one more element.
pub proof fn lemma_count_in_push(s: Seq<char>, d: char, c: char)
    ensures
        count_in(s.push(d), c) == count_in(s, c) + if d == c {
            1nat
        } else {
            0nat
        },
{
    assert(s.push(d).drop_last() =~= s);
}

/// In a strictly ascending sequence every label occurs at most once.
pub proof fn lemma_strictly_sorted_count(s: Seq<char>, c: char)
    requires
        strictly_sorted(s),
    ensures
        count_in(s, c) <= 1,
        s.contains(c) ==> count_in(s, c) == 1,
    decreases s.len(),
{
    lemma_count_in_contains(s, c);
    if s.len() > 0 {
        assert(strictly_sorted(s.drop_last()));
        lemma_strictly_sorted_count(s.drop_last(), c);
        lemma_count_in_contains(s.drop_last(), c);
        if s.last() == c && s.drop_last().contains(c) {
            let i = choose|i: int| 0 <= i < s.drop_last().len() && s.drop_last()[i] == c;
            assert(char_lt(s[i], s[s.len() - 1]));
        }
    }
}

/// Two strictly ascending sequences holding the same labels are equal.
pub proof fn lemma_strictly_sorted_same_set(a: Seq<char>, b: Seq<char>)
    requires
        strictly_sorted(a),
        strictly_sorted(b),
        forall|c: char| a.contains(c) <==> b.contains(c),
    ensures
        a =~= b,
    decreases a.len(),
{
    if a.len() == 0 {
        if b.len() > 0 {
            assert(b.contains(b[0]));
        }
    } else if b.len() == 0 {
        assert(a.contains(a[0]));
    } else {
        // The heads agree: each is the unique minimum of the common label set.
        assert(a.contains(a[0]));
        assert(b.contains(b[0]));
        let ia = choose|i: int| 0 <= i < a.len() && a[i] == b[0];
        let ib = choose|i: int| 0 <= i < b.len() && b[i] == a[0];
        assert(a[ia] == b[0] && b[ib] == a[0]);
        assert(a[0] == b[0]) by {
            if a[0] != b[0] {
                if char_lt(a[0], b[0]) {
                    assert(0 < ib < b.len() ==> char_lt(b[0], b[ib]));
                    assert(ib == 0 ==> b[0] == a[0]);
                } else {
                    assert(0 < ia < a.len() ==> char_lt(a[0], a[ia]));
                    assert(ia == 0 ==> a[0] == b[0]);
                }
            }
        }
        let at = a.drop_first();
        let bt = b.drop_first();
        assert(strictly_sorted(at)) by {
            assert forall|i: int, j: int| 0 <= i < j < at.len() implies char_lt(at[i], at[j]) by {
                assert(at[i] == a[i + 1] && at[j] == a[j + 1]);
            }
        }
        assert(strictly_sorted(bt)) by {
            assert forall|i: int, j: int| 0 <= i < j < bt.len() implies char_lt(bt[i], bt[j]) by {
                assert(bt[i] == b[i + 1] && bt[j] == b[j + 1]);
            }
        }
        assert(forall|c: char| at.contains(c) <==> bt.contains(c)) by {
            assert forall|c: char| at.contains(c) implies bt.contains(c) by {
                lemma_tail_contains(a, b, c);
            }
            assert forall|c: char| bt.contains(c) implies at.contains(c) by {
                lemma_tail_contains(b, a, c);
            }
        }
        lemma_strictly_sorted_same_set(at, bt);
        assert(a =~= seq![a[0]] + at);
        assert(b =~= seq![b[0]] + bt);
    }
}

/// Helper: a label in the tail of `a` is in the tail of `b`, when both are
/// strictly ascending with equal heads and equal label sets.
proof fn lemma_tail_contains(a: Seq<char>, b: Seq<char>, c: char)
    requires
        strictly_sorted(a),
        strictly_sorted(b),
        a.len() > 0,
        b.len() > 0,
        a[0] == b[0],
        forall|d: char| a.contains(d) <==> b.contains(d),
        a.drop_first().contains(c),
    ensures
        b.drop_first().contains(c),
{
    let at = a.drop_first();
    let i = choose|i: int| 0 <= i < at.len() && at[i] == c;
    assert(a[i + 1] == c);
    assert(char_lt(a[0], c));
    assert(a.contains(c));
    let j = choose|j: int| 0 <= j < b.len() && b[j] == c;
    assert(j != 0);
    assert(b.drop_first()[j - 1] == c);
}

/// Whether `v` holds the label `c`.
pub fn contains_label(v: &Vec<char>, c: char) -> (r: bool)
    ensures
        r == v@.contains(c),
{
    let mut i: usize = 0;
    while i < v.len()
        invariant
            0 <= i <= v@.len(),
            forall|k: int| 0 <= k < i ==> v@[k] != c,
        decreases v@.len() - i,
    {
        if v[i] == c {
            return true;
        }
        i += 1;
    }
    false
}

/// Insert a label into a strictly ascending sequence, keeping it ascending;
/// a label already present is not duplicated.
pub fn insert_label(v: &mut Vec<char>, c: char)
    requires
        strictly_sorted(old(v)@),
    ensures
        strictly_sorted(final(v)@),
        forall|d: char| final(v)@.contains(d) <==> (old(v)@.contains(d) || d == c),
{
    let ghost orig = v@;
    let mut i: usize = 0;
    while i < v.len() && (v[i as usize] as u32) < (c as u32)
        invariant
            0 <= i <= v@.len(),
            v@ == orig,
            strictly_sorted(v@),
            forall|k: int| 0 <= k < i ==> char_lt(v@[k], c),
        decreases v@.len() - i,
    {
        i += 1;
    }
    if i < v.len() && v[i] == c {
        // already present
        assert(v@.contains(c));
        return ;
    }
    assert(i < v@.len() ==> char_lt(c, v@[i as int])) by {
        if i < v@.len() {
            lemma_char_lt_total(c, v@[i as int]);
        }
    }
    v.insert(i, c);
    proof {
        orig.insert_ensures(i as int, c);
    }
    assert(strictly_sorted(v@)) by {
        assert(forall|k: int| 0 <= k < i ==> v@[k] == orig[k]);
        assert(forall|k: int| i < k < v@.len() ==> v@[k] == orig[k - 1]);
        assert(v@[i as int] == c);
        assert forall|p: int, q: int| 0 <= p < q < v@.len() implies char_lt(v@[p], v@[q]) by {
            if q > i {
                // everything at or past the insertion point lies above `c`
                assert(i < orig.len());
                assert(char_lt(c, orig[i as int]));
                if i < q - 1 {
                    assert(char_lt(orig[i as int], orig[q - 1]));
                }
                assert(char_lt(c, orig[q - 1]));
                if p < i {
                    assert(char_lt(orig[p], c));
                } else if p > i {
                    assert(char_lt(orig[p - 1], orig[q - 1]));
                }
            }
        }
    }
    assert(v@[i as int] == c && v@.contains(c));
    assert forall|d: char| orig.contains(d) implies v@.contains(d) by {
        let k = choose|k: int| 0 <= k < orig.len() && orig[k] == d;
        if k < i {
            assert(v@[k] == d);
        } else {
            assert(v@[k + 1] == d);
        }
    }
    assert forall|d: char| v@.contains(d) implies orig.contains(d) || d == c by {
        let k = choose|k: int| 0 <= k < v@.len() && v@[k] == d;
        if k < i {
            assert(orig[k] == d);
        } else if k > i {
            assert(orig[k - 1] == d);
        }
    }
    assert(forall|d: char| v@.contains(d) <==> (orig.contains(d) || d == c));
}

} // verus!
