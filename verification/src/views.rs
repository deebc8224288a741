use vstd::prelude::*;

verus! {

/// The deep view of a vector after `push`.
pub proof fn lemma_deep_push<T: DeepView>(before: Vec<T>, after: Vec<T>, x: T)
    requires
        after@ == before@.push(x),
    ensures
        after.deep_view() == before.deep_view().push(x.deep_view()),
{
    assert(after.deep_view() =~= before.deep_view().push(x.deep_view()));
}

/// The deep view of a vector after `set`.
pub proof fn lemma_deep_set<T: DeepView>(before: Vec<T>, after: Vec<T>, i: int, x: T)
    requires
        0 <= i < before@.len(),
        after@ == before@.update(i, x),
    ensures
        after.deep_view() == before.deep_view().update(i, x.deep_view()),
{
    assert(after.deep_view() =~= before.deep_view().update(i, x.deep_view()));
}

/// The deep view of a vector after `insert`.
pub proof fn lemma_deep_insert<T: DeepView>(before: Vec<T>, after: Vec<T>, i: int, x: T)
    requires
        0 <= i <= before@.len(),
        after@ == before@.insert(i, x),
    ensures
        after.deep_view() == before.deep_view().insert(i, x.deep_view()),
{
    assert(after.deep_view() =~= before.deep_view().insert(i, x.deep_view()));
}

/// The deep view of an empty vector.
pub proof fn lemma_deep_empty<T: DeepView>(v: Vec<T>)
    requires
        v@.len() == 0,
    ensures
        v.deep_view() == Seq::<T::V>::empty(),
{
    assert(v.deep_view() =~= Seq::<T::V>::empty());
}

/// A prefix that reaches the end is the whole sequence.
pub proof fn lemma_take_all<A>(s: Seq<A>)
    ensures
        s.take(s.len() as int) == s,
        s.skip(0) == s,
{
    assert(s.take(s.len() as int) =~= s);
    assert(s.skip(0) =~= s);
}

/// A prefix grows by the element behind it.
pub proof fn lemma_take_step<A>(s: Seq<A>, i: int)
    requires
        0 <= i < s.len(),
    ensures
        s.take(i + 1) == s.take(i).push(s[i]),
        s.take(i + 1).drop_last() == s.take(i),
        s.take(i + 1).last() == s[i],
        s.skip(i).drop_first() == s.skip(i + 1),
        s.skip(i)[0] == s[i],
{
    assert(s.take(i + 1) =~= s.take(i).push(s[i]));
    assert(s.take(i + 1).drop_last() =~= s.take(i));
    assert(s.skip(i).drop_first() =~= s.skip(i + 1));
}

} // verus!
