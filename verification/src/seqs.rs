//! Facts about reversing sequences, used by the digit-grouping code.
use vstd::prelude::*;

verus! {

/// Reversing twice gives back the sequence.
pub proof fn lemma_reverse_reverse<A>(s: Seq<A>)
    ensures
        s.reverse().reverse() == s,
{
    assert(s.reverse().reverse() =~= s);
}

/// The reverse of a concatenation is the concatenation of the reverses, swapped.
pub proof fn lemma_reverse_concat<A>(a: Seq<A>, b: Seq<A>)
    ensures
        (a + b).reverse() == b.reverse() + a.reverse(),
{
    assert((a + b).reverse() =~= b.reverse() + a.reverse());
}

/// The first `n` elements of a reverse are the reverse of the last `n` elements.
pub proof fn lemma_reverse_take<A>(s: Seq<A>, n: int)
    requires
        0 <= n <= s.len(),
    ensures
        s.reverse().take(n) == s.subrange(s.len() - n, s.len() as int).reverse(),
        s.reverse().skip(n) == s.subrange(0, s.len() - n).reverse(),
{
    assert(s.reverse().take(n) =~= s.subrange(s.len() - n, s.len() as int).reverse());
    assert(s.reverse().skip(n) =~= s.subrange(0, s.len() - n).reverse());
}

} // verus!
