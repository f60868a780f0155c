//! The reconciliation a commit performs between an externally held view and
//! the engine's committed step list, stated as pure functions on sequences,
//! together with the facts about them that the engine's contracts rest on.

use vstd::prelude::*;

verus! {

/// The first components of a sequence of pairs; for a commit view, its step
/// sequence.
pub open spec fn firsts<K, S>(items: Seq<(K, S)>) -> Seq<K> {
    items.map_values(|p: (K, S)| p.0)
}

/// Whether `c` can be matched, in order and greedily from the front, against
/// a subsequence of `s`. Greedy matching finds a match exactly when one
/// exists, so this is the ordinary subsequence relation.
pub open spec fn subseq_of<K>(c: Seq<K>, s: Seq<K>) -> bool
    decreases s.len(),
{
    if c.len() == 0 {
        true
    } else if s.len() == 0 {
        false
    } else if c[0] == s[0] {
        subseq_of(c.drop_first(), s.drop_first())
    } else {
        subseq_of(c, s.drop_first())
    }
}

/// The entries of `head` that a commit retains: walking `head` in order, an
/// entry is kept exactly when its first component equals the next unconsumed
/// entry of `committed`, which is then consumed; otherwise it is dropped.
pub open spec fn retained<K, S>(head: Seq<(K, S)>, committed: Seq<K>) -> Seq<(K, S)>
    decreases head.len(),
{
    if head.len() == 0 {
        Seq::empty()
    } else if committed.len() > 0 && head[0].0 == committed[0] {
        seq![head[0]] + retained(head.drop_first(), committed.drop_first())
    } else {
        retained(head.drop_first(), committed)
    }
}

/// The step sequence of a view that starts with `x` is the step of `x`
/// followed by the step sequence of the rest.
pub proof fn lemma_firsts_cons<K, S>(x: (K, S), rest: Seq<(K, S)>)
    ensures
        firsts(seq![x] + rest) == seq![x.0] + firsts(rest),
{
    assert(firsts(seq![x] + rest) =~= seq![x.0] + firsts(rest));
}

/// Every sequence is a subsequence of itself.
pub proof fn lemma_subseq_of_self<K>(s: Seq<K>)
    ensures
        subseq_of(s, s),
    decreases s.len(),
{
    if s.len() > 0 {
        lemma_subseq_of_self(s.drop_first());
    }
}

/// Dropping the first element of the pattern preserves the subsequence
/// relation.
pub proof fn lemma_subseq_of_drop_first<K>(c: Seq<K>, s: Seq<K>)
    requires
        subseq_of(c, s),
        c.len() > 0,
    ensures
        subseq_of(c.drop_first(), s),
    decreases s.len(),
{
    if c[0] == s[0] {
        if c.drop_first().len() > 0 {
            if c.drop_first()[0] == s[0] {
                lemma_subseq_of_drop_first(c.drop_first(), s.drop_first());
            }
        }
    } else {
        lemma_subseq_of_drop_first(c, s.drop_first());
        if c.drop_first().len() > 0 && c.drop_first()[0] == s[0] {
            lemma_subseq_of_drop_first(c.drop_first(), s.drop_first());
        }
    }
}

/// A pattern that matches within the tail of `s` matches within `s`.
pub proof fn lemma_subseq_of_skip_head<K>(c: Seq<K>, s: Seq<K>)
    requires
        s.len() > 0,
        subseq_of(c, s.drop_first()),
    ensures
        subseq_of(c, s),
{
    if c.len() > 0 {
        if c[0] == s[0] {
            lemma_subseq_of_drop_first(c, s.drop_first());
        }
    }
}

/// Removing any element of the pattern preserves the subsequence relation.
pub proof fn lemma_subseq_of_remove<K>(c: Seq<K>, s: Seq<K>, i: int)
    requires
        subseq_of(c, s),
        0 <= i < c.len(),
    ensures
        subseq_of(c.remove(i), s),
    decreases s.len(),
{
    if c[0] == s[0] {
        if i == 0 {
            assert(c.remove(0) =~= c.drop_first());
            lemma_subseq_of_drop_first(c, s);
        } else {
            lemma_subseq_of_remove(c.drop_first(), s.drop_first(), i - 1);
            assert(c.remove(i)[0] == c[0]);
            assert(c.remove(i).drop_first() =~= c.drop_first().remove(i - 1));
        }
    } else {
        lemma_subseq_of_remove(c, s.drop_first(), i);
        lemma_subseq_of_skip_head(c.remove(i), s);
    }
}

/// Every element of a subsequence occurs in the enclosing sequence.
pub proof fn lemma_subseq_of_contains<K>(c: Seq<K>, s: Seq<K>)
    requires
        subseq_of(c, s),
    ensures
        forall|x: K| c.contains(x) ==> s.contains(x),
    decreases s.len(),
{
    if c.len() == 0 {
    } else if c[0] == s[0] {
        lemma_subseq_of_contains(c.drop_first(), s.drop_first());
        assert forall|x: K| c.contains(x) implies s.contains(x) by {
            let i = choose|i: int| 0 <= i < c.len() && c[i] == x;
            if i == 0 {
                assert(s[0] == x);
            } else {
                assert(c.drop_first()[i - 1] == x);
                assert(c.drop_first().contains(x));
                let j = choose|j: int|
                    0 <= j < s.drop_first().len() && s.drop_first()[j] == x;
                assert(s[j + 1] == x);
            }
        }
    } else {
        lemma_subseq_of_contains(c, s.drop_first());
        assert forall|x: K| c.contains(x) implies s.contains(x) by {
            assert(s.drop_first().contains(x));
            let j = choose|j: int| 0 <= j < s.drop_first().len() && s.drop_first()[j] == x;
            assert(s[j + 1] == x);
        }
    }
}

/// A subsequence of a duplicate-free sequence is duplicate-free.
pub proof fn lemma_subseq_of_no_duplicates<K>(c: Seq<K>, s: Seq<K>)
    requires
        subseq_of(c, s),
        s.no_duplicates(),
    ensures
        c.no_duplicates(),
    decreases s.len(),
{
    if c.len() == 0 {
    } else {
        assert(s.drop_first().no_duplicates());
        if c[0] == s[0] {
            lemma_subseq_of_no_duplicates(c.drop_first(), s.drop_first());
            lemma_subseq_of_contains(c.drop_first(), s.drop_first());
            assert forall|i: int, j: int|
                0 <= i < c.len() && 0 <= j < c.len() && i != j implies c[i] != c[j] by {
                if i != 0 && j != 0 {
                    assert(c.drop_first()[i - 1] == c[i]);
                    assert(c.drop_first()[j - 1] == c[j]);
                } else {
                    let k = if i == 0 { j } else { i };
                    assert(c.drop_first()[k - 1] == c[k]);
                    assert(c.drop_first().contains(c[k]));
                    assert(s.drop_first().contains(c[k]));
                    let m = choose|m: int|
                        0 <= m < s.drop_first().len() && s.drop_first()[m] == c[k];
                    assert(s[m + 1] == c[k]);
                    assert(s[0] != s[m + 1]);
                }
            }
        } else {
            lemma_subseq_of_no_duplicates(c, s.drop_first());
        }
    }
}

/// What a commit retains of `head` carries exactly the steps of `committed`,
/// provided `committed` occurs in order within the steps of `head`.
pub proof fn lemma_retained_firsts<K, S>(head: Seq<(K, S)>, committed: Seq<K>)
    requires
        subseq_of(committed, firsts(head)),
    ensures
        firsts(retained(head, committed)) == committed,
    decreases head.len(),
{
    if head.len() == 0 {
        assert(committed.len() == 0);
        assert(firsts(retained(head, committed)) =~= committed);
    } else {
        assert(firsts(head)[0] == head[0].0);
        assert(firsts(head).drop_first() =~= firsts(head.drop_first()));
        if committed.len() > 0 && head[0].0 == committed[0] {
            lemma_retained_firsts(head.drop_first(), committed.drop_first());
            lemma_firsts_cons(head[0], retained(head.drop_first(), committed.drop_first()));
            assert(firsts(retained(head, committed)) =~= committed);
        } else {
            lemma_retained_firsts(head.drop_first(), committed);
            assert(firsts(retained(head, committed)) =~= committed);
        }
    }
}

/// Reconciling a view against exactly its own steps retains everything.
pub proof fn lemma_retained_all<K, S>(head: Seq<(K, S)>)
    ensures
        retained(head, firsts(head)) == head,
    decreases head.len(),
{
    if head.len() == 0 {
        assert(retained(head, firsts(head)) =~= head);
    } else {
        assert(firsts(head)[0] == head[0].0);
        assert(firsts(head).drop_first() =~= firsts(head.drop_first()));
        lemma_retained_all::<K, S>(head.drop_first());
        assert(retained(head, firsts(head)) =~= head);
    }
}

/// When the steps of `head` are duplicate-free, removing one entry of
/// `committed` removes exactly the corresponding retained entry.
pub proof fn lemma_retained_remove<K, S>(head: Seq<(K, S)>, committed: Seq<K>, i: int)
    requires
        subseq_of(committed, firsts(head)),
        firsts(head).no_duplicates(),
        0 <= i < committed.len(),
    ensures
        retained(head, committed.remove(i)) == retained(head, committed).remove(i),
    decreases head.len(),
{
    assert(head.len() > 0);
    assert(firsts(head)[0] == head[0].0);
    assert(firsts(head).drop_first() =~= firsts(head.drop_first()));
    assert(firsts(head.drop_first()).no_duplicates());
    if committed[0] == head[0].0 {
        lemma_subseq_of_no_duplicates(committed, firsts(head));
        if i == 0 {
            assert(committed.remove(0) =~= committed.drop_first());
            let c1 = committed.drop_first();
            if c1.len() > 0 {
                assert(committed[1] != committed[0]);
                assert(c1[0] != head[0].0);
            }
            assert(retained(head, c1) == retained(head.drop_first(), c1));
            assert(retained(head, committed)
                =~= seq![head[0]] + retained(head.drop_first(), c1));
            assert((seq![head[0]] + retained(head.drop_first(), c1)).remove(0)
                =~= retained(head.drop_first(), c1));
        } else {
            lemma_retained_remove(head.drop_first(), committed.drop_first(), i - 1);
            lemma_retained_firsts(head.drop_first(), committed.drop_first());
            assert(retained(head.drop_first(), committed.drop_first()).len()
                == committed.drop_first().len());
            assert(committed.remove(i)[0] == committed[0]);
            assert(committed.remove(i).drop_first() =~= committed.drop_first().remove(i - 1));
            assert(retained(head, committed.remove(i))
                =~= seq![head[0]]
                    + retained(head.drop_first(), committed.drop_first().remove(i - 1)));
            assert((seq![head[0]] + retained(head.drop_first(), committed.drop_first())).remove(i)
                =~= seq![head[0]]
                    + retained(head.drop_first(), committed.drop_first()).remove(i - 1));
        }
    } else {
        lemma_retained_remove(head.drop_first(), committed, i);
        if i > 0 {
            assert(committed.remove(i)[0] == committed[0]);
        }
        if i == 0 && committed.remove(0).len() > 0 {
            lemma_subseq_of_contains(committed, firsts(head.drop_first()));
            assert(committed.contains(committed[1]));
            assert(firsts(head.drop_first()).contains(committed[1]));
            let m = choose|m: int|
                0 <= m < firsts(head.drop_first()).len()
                    && firsts(head.drop_first())[m] == committed[1];
            assert(firsts(head)[m + 1] == committed[1]);
            assert(firsts(head)[0] != firsts(head)[m + 1]);
            assert(committed.remove(0)[0] != head[0].0);
        }
        assert(retained(head, committed.remove(i)) == retained(head.drop_first(), committed.remove(i)));
        assert(retained(head, committed) == retained(head.drop_first(), committed));
    }
}

} // verus!
