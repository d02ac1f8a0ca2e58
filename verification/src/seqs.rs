//! Sequences of sequences.

use vstd::prelude::*;

verus! {

/// The parts one after the other.
pub open spec fn joined<A>(parts: Seq<Seq<A>>) -> Seq<A>
    decreases parts.len(),
{
    if parts.len() == 0 {
        Seq::empty()
    } else {
        joined(parts.drop_last()) + parts.last()
    }
}

/// The first `i + 1` parts are the first `i` parts and the next one.
pub proof fn lemma_joined_take<A>(parts: Seq<Seq<A>>, i: int)
    requires
        0 <= i < parts.len(),
    ensures
        joined(parts.take(i + 1)) == joined(parts.take(i)) + parts[i],
{
    assert(parts.take(i + 1).drop_last() =~= parts.take(i));
}

/// Joining two lists of parts is joining each and putting them together.
pub proof fn lemma_joined_add<A>(a: Seq<Seq<A>>, b: Seq<Seq<A>>)
    ensures
        joined(a + b) == joined(a) + joined(b),
    decreases b.len(),
{
    if b.len() == 0 {
        assert(a + b =~= a);
        assert(joined(a) + joined(b) =~= joined(a));
    } else {
        lemma_joined_add(a, b.drop_last());
        assert((a + b).drop_last() =~= a + b.drop_last());
        assert(joined(a + b) =~= joined(a) + joined(b));
    }
}

/// What is in the parts together is in one of them.
pub proof fn lemma_joined_contains<A>(parts: Seq<Seq<A>>, x: A)
    requires
        joined(parts).contains(x),
    ensures
        exists|i: int| 0 <= i < parts.len() && (#[trigger] parts[i]).contains(x),
    decreases parts.len(),
{
    let front = parts.drop_last();
    let whole = joined(parts);
    let k = choose|k: int| 0 <= k < whole.len() && whole[k] == x;
    if parts.len() > 0 {
        if k < joined(front).len() {
            assert(joined(front)[k] == x);
            lemma_joined_contains(front, x);
            let i = choose|i: int| 0 <= i < front.len() && (#[trigger] front[i]).contains(x);
            assert(parts[i].contains(x));
        } else {
            assert(parts.last()[k - joined(front).len()] == x);
            assert(parts[parts.len() - 1].contains(x));
        }
    }
}

/// What is in one of the parts is in them together.
pub proof fn lemma_joined_has<A>(parts: Seq<Seq<A>>, i: int, x: A)
    requires
        0 <= i < parts.len(),
        parts[i].contains(x),
    ensures
        joined(parts).contains(x),
    decreases parts.len(),
{
    let front = parts.drop_last();
    let whole = joined(parts);
    if i < parts.len() - 1 {
        lemma_joined_has(front, i, x);
        let k = choose|k: int| 0 <= k < joined(front).len() && joined(front)[k] == x;
        assert(whole[k] == x);
    } else {
        let k = choose|k: int| 0 <= k < parts[i].len() && parts[i][k] == x;
        assert(whole[joined(front).len() + k] == x);
    }
}

} // verus!
