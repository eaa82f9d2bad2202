//! Facts about sequences used across the library: first and last positions
//! of a value, and a counting argument for sequences without repetitions.
use vstd::prelude::*;

verus! {

/// The first position at or after `i` where `s` holds `x`.
pub open spec fn index_from<A>(s: Seq<A>, x: A, i: int) -> Option<int>
    decreases s.len() - i,
{
    if i >= s.len() || i < 0 {
        None
    } else if s[i] == x {
        Some(i)
    } else {
        index_from(s, x, i + 1)
    }
}

/// The first position where `s` holds `x`.
pub open spec fn first_index<A>(s: Seq<A>, x: A) -> Option<int> {
    index_from(s, x, 0)
}

/// The last position before `i` where `s` holds `x`.
pub open spec fn last_index_before<A>(s: Seq<A>, x: A, i: int) -> Option<int>
    decreases i,
{
    if i <= 0 || i > s.len() {
        None
    } else if s[i - 1] == x {
        Some(i - 1)
    } else {
        last_index_before(s, x, i - 1)
    }
}

/// The last position where `s` holds `x`.
pub open spec fn last_index<A>(s: Seq<A>, x: A) -> Option<int> {
    last_index_before(s, x, s.len() as int)
}

/// What `index_from` returns: a position holding `x` with no earlier one from `i`,
/// or none at all.
pub proof fn lemma_index_from<A>(s: Seq<A>, x: A, i: int)
    requires
        0 <= i <= s.len(),
    ensures
        match index_from(s, x, i) {
            Some(k) => i <= k < s.len() && s[k] == x && forall|j: int| i <= j < k ==> s[j] != x,
            None => forall|j: int| i <= j < s.len() ==> s[j] != x,
        },
    decreases s.len() - i,
{
    if i < s.len() && s[i] != x {
        lemma_index_from(s, x, i + 1);
    }
}

/// What `last_index_before` returns: the greatest position below `i` holding `x`.
pub proof fn lemma_last_index_before<A>(s: Seq<A>, x: A, i: int)
    requires
        0 <= i <= s.len(),
    ensures
        match last_index_before(s, x, i) {
            Some(k) => 0 <= k < i && s[k] == x && forall|j: int| k < j < i ==> s[j] != x,
            None => forall|j: int| 0 <= j < i ==> s[j] != x,
        },
    decreases i,
{
    if i > 0 && s[i - 1] != x {
        lemma_last_index_before(s, x, i - 1);
    }
}

/// A sequence without repetitions whose items all occur in `u` is no longer than `u`.
pub proof fn lemma_distinct_within<A>(s: Seq<A>, u: Seq<A>)
    requires
        s.no_duplicates(),
        forall|i: int| 0 <= i < s.len() ==> u.contains(#[trigger] s[i]),
    ensures
        s.len() <= u.len(),
{
    s.unique_seq_to_set();
    u.lemma_cardinality_of_set();
    vstd::seq_lib::seq_to_set_is_finite(u);
    assert(s.to_set().subset_of(u.to_set())) by {
        assert forall|a: A| s.to_set().contains(a) implies u.to_set().contains(a) by {
            let i = choose|i: int| 0 <= i < s.len() && s[i] == a;
            assert(u.contains(s[i]));
        }
    }
    vstd::set_lib::lemma_len_subset(s.to_set(), u.to_set());
}

} // verus!
