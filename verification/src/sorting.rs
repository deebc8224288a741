use crate::views::{lemma_deep_empty, lemma_deep_insert, lemma_take_all, lemma_take_step};
use vstd::prelude::*;

verus! {

/// `x` put in front of the first element of `t` that does not come before it.
pub open spec fn insert_before<A>(x: A, t: Seq<A>, lt: spec_fn(A, A) -> bool) -> Seq<A>
    decreases t.len(),
{
    if t.len() == 0 {
        seq![x]
    } else if lt(t[0], x) {
        seq![t[0]] + insert_before(x, t.drop_first(), lt)
    } else {
        seq![x] + t
    }
}

/// The elements of `s` in the order of `lt`, elements that `lt` does not
/// tell apart in the order in which they stand in `s`.
pub open spec fn sort_by<A>(s: Seq<A>, lt: spec_fn(A, A) -> bool) -> Seq<A>
    decreases s.len(),
{
    if s.len() == 0 {
        s
    } else {
        insert_before(s[0], sort_by(s.drop_first(), lt), lt)
    }
}

/// Sorting keeps the number of elements.
pub proof fn lemma_sort_len<A>(s: Seq<A>, lt: spec_fn(A, A) -> bool)
    ensures
        sort_by(s, lt).len() == s.len(),
    decreases s.len(),
{
    if s.len() > 0 {
        lemma_sort_len(s.drop_first(), lt);
        lemma_insert_len(s[0], sort_by(s.drop_first(), lt), lt);
    }
}

/// Inserting adds one element.
pub proof fn lemma_insert_len<A>(x: A, t: Seq<A>, lt: spec_fn(A, A) -> bool)
    ensures
        insert_before(x, t, lt).len() == t.len() + 1,
    decreases t.len(),
{
    if t.len() > 0 && lt(t[0], x) {
        lemma_insert_len(x, t.drop_first(), lt);
    }
}

/// Inserting adds `x` and nothing else.
pub proof fn lemma_insert_elements<A>(x: A, t: Seq<A>, lt: spec_fn(A, A) -> bool, y: A)
    ensures
        insert_before(x, t, lt).contains(y) <==> (y == x || t.contains(y)),
    decreases t.len(),
{
    let r = insert_before(x, t, lt);
    if t.len() == 0 {
        assert(r[0] == x);
        if r.contains(y) {
            let i = choose|i: int| 0 <= i < r.len() && r[i] == y;
        }
    } else if lt(t[0], x) {
        let rest = insert_before(x, t.drop_first(), lt);
        lemma_insert_elements(x, t.drop_first(), lt, y);
        assert(r =~= seq![t[0]] + rest);
        if r.contains(y) {
            let i = choose|i: int| 0 <= i < r.len() && r[i] == y;
            if i == 0 {
                assert(t[0] == y);
            } else {
                assert(rest[i - 1] == y);
                assert(rest.contains(y));
                if y != x {
                    let j = choose|j: int| 0 <= j < t.drop_first().len() && t.drop_first()[j] == y;
                    assert(t[j + 1] == y);
                }
            }
        }
        if y == x || t.contains(y) {
            if y != x && t[0] == y {
                assert(r[0] == y);
            } else {
                if y != x {
                    let j = choose|j: int| 0 <= j < t.len() && t[j] == y;
                    assert(t.drop_first()[j - 1] == y);
                    assert(t.drop_first().contains(y));
                }
                assert(rest.contains(y));
                let i = choose|i: int| 0 <= i < rest.len() && rest[i] == y;
                assert(r[i + 1] == y);
            }
        }
    } else {
        assert(r =~= seq![x] + t);
        if r.contains(y) {
            let i = choose|i: int| 0 <= i < r.len() && r[i] == y;
            if i > 0 {
                assert(t[i - 1] == y);
            }
        }
        if y == x {
            assert(r[0] == y);
        } else if t.contains(y) {
            let j = choose|j: int| 0 <= j < t.len() && t[j] == y;
            assert(r[j + 1] == y);
        }
    }
}

/// Sorting neither adds nor loses an element.
pub proof fn lemma_sort_elements<A>(s: Seq<A>, lt: spec_fn(A, A) -> bool, y: A)
    ensures
        sort_by(s, lt).contains(y) <==> s.contains(y),
    decreases s.len(),
{
    if s.len() > 0 {
        let t = sort_by(s.drop_first(), lt);
        lemma_sort_elements(s.drop_first(), lt, y);
        lemma_insert_elements(s[0], t, lt, y);
        if s.contains(y) {
            let j = choose|j: int| 0 <= j < s.len() && s[j] == y;
            if j > 0 {
                assert(s.drop_first()[j - 1] == y);
                assert(s.drop_first().contains(y));
            }
        }
        if y == s[0] {
            assert(s.contains(y));
        }
        if s.drop_first().contains(y) {
            let j = choose|j: int| 0 <= j < s.drop_first().len() && s.drop_first()[j] == y;
            assert(s[j + 1] == y);
        }
    }
}

/// Whether `lt` orders its elements in ranks: of two elements at most one
/// comes before the other, and an element that comes before neither of two
/// others does not lie between them.
pub open spec fn ranks<A>(lt: spec_fn(A, A) -> bool) -> bool {
    &&& forall|a: A, b: A| #[trigger] lt(a, b) ==> !lt(b, a)
    &&& forall|a: A, b: A, c: A| !(#[trigger] lt(a, b)) && !(#[trigger] lt(b, c)) ==> !lt(a, c)
}

/// Whether no element of `s` comes before one that stands before it.
pub open spec fn in_order<A>(s: Seq<A>, lt: spec_fn(A, A) -> bool) -> bool {
    forall|i: int, j: int| 0 <= i < j < s.len() ==> !lt(#[trigger] s[j], #[trigger] s[i])
}

/// Inserting into a sequence that is in order leaves it in order.
pub proof fn lemma_insert_in_order<A>(x: A, t: Seq<A>, lt: spec_fn(A, A) -> bool)
    requires
        ranks(lt),
        in_order(t, lt),
    ensures
        in_order(insert_before(x, t, lt), lt),
    decreases t.len(),
{
    let r = insert_before(x, t, lt);
    if t.len() == 0 {
    } else if lt(t[0], x) {
        let rest = insert_before(x, t.drop_first(), lt);
        assert forall|i: int, j: int| 0 <= i < j < t.drop_first().len() implies !lt(
            #[trigger] t.drop_first()[j],
            #[trigger] t.drop_first()[i],
        ) by {
            assert(t.drop_first()[j] == t[j + 1]);
            assert(t.drop_first()[i] == t[i + 1]);
        }
        lemma_insert_in_order(x, t.drop_first(), lt);
        assert(r =~= seq![t[0]] + rest);
        assert forall|i: int, j: int| 0 <= i < j < r.len() implies !lt(#[trigger] r[j], #[trigger] r[i]) by {
            if i == 0 {
                assert(r[j] == rest[j - 1]);
                assert(rest.contains(rest[j - 1]));
                lemma_insert_elements(x, t.drop_first(), lt, rest[j - 1]);
                if rest[j - 1] != x {
                    let k = choose|k: int|
                        0 <= k < t.drop_first().len() && t.drop_first()[k] == rest[j - 1];
                    assert(t[k + 1] == r[j]);
                }
            } else {
                assert(r[j] == rest[j - 1]);
                assert(r[i] == rest[i - 1]);
            }
        }
    } else {
        assert(r =~= seq![x] + t);
        assert forall|i: int, j: int| 0 <= i < j < r.len() implies !lt(#[trigger] r[j], #[trigger] r[i]) by {
            if i == 0 {
                assert(r[j] == t[j - 1]);
                if j - 1 > 0 {
                    assert(!lt(t[j - 1], t[0]));
                }
            } else {
                assert(r[j] == t[j - 1]);
                assert(r[i] == t[i - 1]);
            }
        }
    }
}

/// What was sorted is in order.
pub proof fn lemma_sort_in_order<A>(s: Seq<A>, lt: spec_fn(A, A) -> bool)
    requires
        ranks(lt),
    ensures
        in_order(sort_by(s, lt), lt),
    decreases s.len(),
{
    if s.len() > 0 {
        lemma_sort_in_order(s.drop_first(), lt);
        lemma_insert_in_order(s[0], sort_by(s.drop_first(), lt), lt);
    }
}

/// Sorts `v` by `less`, which decides `lt` on the views of the elements.
pub fn sort_vec<T: DeepView, F: Fn(&T, &T) -> bool>(
    v: Vec<T>,
    less: F,
    Ghost(lt): Ghost<spec_fn(T::V, T::V) -> bool>,
) -> (out: Vec<T>)
    requires
        forall|a: &T, b: &T| less.requires((a, b)),
        forall|a: &T, b: &T, r: bool|
            less.ensures((a, b), r) ==> r == lt(a.deep_view(), b.deep_view()),
    ensures
        out.deep_view() == sort_by(v.deep_view(), lt),
{
    let ghost all = v.deep_view();
    let mut v = v;
    let mut out: Vec<T> = Vec::new();
    proof {
        lemma_deep_empty(out);
        lemma_take_all(all);
        assert(all.skip(all.len() as int) =~= Seq::empty());
    }
    while v.len() > 0
        invariant
            v.deep_view() == all.take(v.len() as int),
            v.len() <= all.len(),
            out.deep_view() == sort_by(all.skip(v.len() as int), lt),
            forall|a: &T, b: &T| less.requires((a, b)),
            forall|a: &T, b: &T, r: bool|
                less.ensures((a, b), r) ==> r == lt(a.deep_view(), b.deep_view()),
        decreases v.len(),
    {
        let ghost n = v.len() as int;
        let ghost vv = v.deep_view();
        let x = v.pop().unwrap();
        let ghost t = out.deep_view();
        proof {
            assert(x.deep_view() == vv[n - 1]);
            assert(x.deep_view() == all[n - 1]);
            assert(v.deep_view() =~= all.take(n - 1));
            lemma_take_step(all, n - 1);
            assert(all.skip(n - 1)[0] == all[n - 1]);
            assert(sort_by(all.skip(n - 1), lt) == insert_before(all[n - 1], t, lt));
            lemma_take_all(t);
            assert(t.take(0) + insert_before(x.deep_view(), t, lt) =~= insert_before(
                x.deep_view(),
                t,
                lt,
            ));
        }
        let mut i: usize = 0;
        while i < out.len() && less(&out[i], &x)
            invariant
                i <= out.len(),
                out.deep_view() == t,
                insert_before(x.deep_view(), t, lt) == t.take(i as int) + insert_before(
                    x.deep_view(),
                    t.skip(i as int),
                    lt,
                ),
                forall|a: &T, b: &T| less.requires((a, b)),
                forall|a: &T, b: &T, r: bool|
                    less.ensures((a, b), r) ==> r == lt(a.deep_view(), b.deep_view()),
            decreases out.len() - i,
        {
            proof {
                lemma_take_step(t, i as int);
                let rest = t.skip(i as int);
                assert(rest[0] == out@[i as int].deep_view());
                assert(insert_before(x.deep_view(), rest, lt) == seq![rest[0]] + insert_before(
                    x.deep_view(),
                    rest.drop_first(),
                    lt,
                ));
                assert(t.take(i as int) + (seq![rest[0]] + insert_before(
                    x.deep_view(),
                    rest.drop_first(),
                    lt,
                )) =~= t.take(i + 1) + insert_before(x.deep_view(), t.skip(i + 1), lt));
            }
            i += 1;
        }
        proof {
            let rest = t.skip(i as int);
            if i < out.len() {
                assert(rest[0] == out@[i as int].deep_view());
                assert(!lt(rest[0], x.deep_view()));
                assert(insert_before(x.deep_view(), rest, lt) == seq![x.deep_view()] + rest);
            } else {
                assert(rest =~= Seq::empty());
            }
            assert(t.insert(i as int, x.deep_view()) =~= t.take(i as int) + insert_before(
                x.deep_view(),
                rest,
                lt,
            ));
        }
        let ghost before = out;
        out.insert(i, x);
        proof {
            lemma_deep_insert(before, out, i as int, x);
        }
    }
    proof {
        lemma_take_all(all);
    }
    out
}

} // verus!
