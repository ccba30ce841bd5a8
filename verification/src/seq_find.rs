//! First-match search over a sequence, shared by the registry lookup, the
//! resolver and the orchestrator.

use vstd::prelude::*;

verus! {

/// The least index of `s` whose element satisfies `pred`, or `s.len()` when
/// no element does.
pub open spec fn first_where<T>(s: Seq<T>, pred: spec_fn(T) -> bool) -> int
    decreases s.len(),
{
    if s.len() == 0 {
        0
    } else if pred(s[0]) {
        0
    } else {
        1 + first_where(s.drop_first(), pred)
    }
}

pub proof fn lemma_first_where<T>(s: Seq<T>, pred: spec_fn(T) -> bool)
    ensures
        0 <= first_where(s, pred) <= s.len(),
        first_where(s, pred) < s.len() ==> pred(s[first_where(s, pred)]),
        forall|j: int| 0 <= j < first_where(s, pred) ==> !pred(s[j]),
        first_where(s, pred) == s.len() ==> forall|j: int| 0 <= j < s.len() ==> !pred(s[j]),
    decreases s.len(),
{
    if s.len() > 0 && !pred(s[0]) {
        lemma_first_where(s.drop_first(), pred);
        assert forall|j: int| 0 <= j < first_where(s, pred) implies !pred(s[j]) by {
            if j > 0 {
                assert(s[j] == s.drop_first()[j - 1]);
            }
        }
        assert forall|j: int|
            first_where(s, pred) == s.len() && 0 <= j < s.len() implies !pred(s[j]) by {
            if j > 0 {
                assert(s[j] == s.drop_first()[j - 1]);
            }
        }
    }
}

/// If the first `i` elements fail `pred` and `s[i]` satisfies it, then `i`
/// is the first match.
pub proof fn lemma_first_where_is<T>(s: Seq<T>, pred: spec_fn(T) -> bool, i: int)
    requires
        0 <= i < s.len(),
        pred(s[i]),
        forall|j: int| 0 <= j < i ==> !pred(s[j]),
    ensures
        first_where(s, pred) == i,
    decreases i,
{
    if i == 0 {
    } else {
        assert(!pred(s[0]));
        assert forall|j: int| 0 <= j < i - 1 implies !pred(s.drop_first()[j]) by {
            assert(s.drop_first()[j] == s[j + 1]);
        }
        assert(s.drop_first()[i - 1] == s[i]);
        lemma_first_where_is(s.drop_first(), pred, i - 1);
    }
}

/// If some element satisfies `pred`, there is a match.
pub proof fn lemma_first_where_exists<T>(s: Seq<T>, pred: spec_fn(T) -> bool, w: int)
    requires
        0 <= w < s.len(),
        pred(s[w]),
    ensures
        first_where(s, pred) < s.len(),
{
    lemma_first_where(s, pred);
    if first_where(s, pred) == s.len() {
        assert(!pred(s[w]));
    }
}

/// If every element fails `pred`, there is no match.
pub proof fn lemma_first_where_none<T>(s: Seq<T>, pred: spec_fn(T) -> bool)
    requires
        forall|j: int| 0 <= j < s.len() ==> !pred(s[j]),
    ensures
        first_where(s, pred) == s.len(),
    decreases s.len(),
{
    if s.len() > 0 {
        assert forall|j: int| 0 <= j < s.drop_first().len() implies !pred(s.drop_first()[j]) by {
            assert(s.drop_first()[j] == s[j + 1]);
        }
        lemma_first_where_none(s.drop_first(), pred);
    }
}

} // verus!
