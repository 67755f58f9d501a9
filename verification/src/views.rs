//! Views of containers whose elements have a view of their own.

use vstd::prelude::*;

verus! {

/// The views of a sequence's elements.
pub open spec fn all<T: View>(s: Seq<T>) -> Seq<T::V> {
    Seq::new(s.len(), |i: int| s[i]@)
}

/// The view of an optional value.
pub open spec fn opt<T: View>(o: Option<T>) -> Option<T::V> {
    match o {
        Some(t) => Some(t@),
        None => None,
    }
}

/// The views of optional elements.
pub open spec fn opts<T: View>(s: Seq<Option<T>>) -> Seq<Option<T::V>> {
    Seq::new(s.len(), |i: int| opt(s[i]))
}

/// A cloned vector keeps its element views when cloning an element does.
pub proof fn lemma_views_equal<T: View>(a: Seq<T>, b: Seq<T>)
    requires
        a.len() == b.len(),
        forall|i: int| 0 <= i < a.len() ==> (#[trigger] a[i])@ == b[i]@,
    ensures
        all(a) == all(b),
{
    assert(all(a) =~= all(b));
}

pub broadcast proof fn lemma_views_push<T: View>(s: Seq<T>, t: T)
    ensures
        #[trigger] all(s.push(t)) == all(s).push(t@),
{
    assert(all(s.push(t)) =~= all(s).push(t@));
}

pub broadcast proof fn lemma_views_add<T: View>(a: Seq<T>, b: Seq<T>)
    ensures
        #[trigger] all(a + b) == all(a) + all(b),
{
    assert(all(a + b) =~= all(a) + all(b));
}

pub broadcast proof fn lemma_views_subrange<T: View>(s: Seq<T>, i: int, j: int)
    requires
        0 <= i <= j <= s.len(),
    ensures
        #[trigger] all(s.subrange(i, j)) == all(s).subrange(i, j),
{
    assert(all(s.subrange(i, j)) =~= all(s).subrange(i, j));
}

pub broadcast proof fn lemma_views_empty<T: View>(s: Seq<T>)
    requires
        s.len() == 0,
    ensures
        #[trigger] all(s) == Seq::<T::V>::empty(),
{
    assert(all(s) =~= Seq::<T::V>::empty());
}

pub broadcast proof fn lemma_opts_push<T: View>(s: Seq<Option<T>>, t: Option<T>)
    ensures
        #[trigger] opts(s.push(t)) == opts(s).push(opt(t)),
{
    assert(opts(s.push(t)) =~= opts(s).push(opt(t)));
}

pub broadcast group group_views {
    lemma_opts_push,
    lemma_views_push,
    lemma_views_add,
    lemma_views_subrange,
    lemma_views_empty,
}

} // verus!
