//! Laws of the store's model: how setting and removing bindings compose,
//! stated over the `Map` view that the store's contracts use.
//!
//! `set` ensures that the new view is `old(self)@.insert(key@, value@)`,
//! `remove` that it is `old(self)@.remove(key@)`, and `get` answers from the
//! view alone; the lemmas below therefore carry over to chains of those
//! calls on any store.

use crate::store::KvStore;
use vstd::prelude::*;
use vstd::std_specs::cmp::PartialEqSpec;

verus! {

/// Two stores whose views agree are equal under `==`, and two whose views
/// differ are not; in particular a store's duplicate, whose view `clone`
/// keeps, equals the store it was duplicated from.
pub proof fn lemma_equality_goes_by_view(a: &KvStore, b: &KvStore)
    ensures
        a.eq_spec(b) == (a@ == b@),
{
}

/// Setting a key on an empty store binds exactly that key to that value:
/// a `get` of the key afterwards finds the value.
pub proof fn lemma_set_then_get(k: Seq<char>, v: Seq<char>)
    ensures
        Map::<Seq<char>, Seq<char>>::empty().insert(k, v).contains_key(k),
        Map::<Seq<char>, Seq<char>>::empty().insert(k, v)[k] == v,
{
}

/// Setting the same key twice: the first `set` leaves the key bound to the
/// first value (so the second `set` returns it), and the second value wins
/// in the end, exactly as if the first `set` had never happened.
pub proof fn lemma_set_overwrites(
    m: Map<Seq<char>, Seq<char>>,
    k: Seq<char>,
    v1: Seq<char>,
    v2: Seq<char>,
)
    ensures
        m.insert(k, v1).contains_key(k),
        m.insert(k, v1)[k] == v1,
        m.insert(k, v1).insert(k, v2) == m.insert(k, v2),
        m.insert(k, v1).insert(k, v2)[k] == v2,
{
    assert(m.insert(k, v1).insert(k, v2) =~= m.insert(k, v2));
}

/// Removing a key unbinds it: a `get` of the key afterwards finds nothing,
/// and removing it a second time changes nothing and returns nothing.
pub proof fn lemma_remove_unbinds(m: Map<Seq<char>, Seq<char>>, k: Seq<char>)
    ensures
        !m.remove(k).contains_key(k),
        m.remove(k).remove(k) == m.remove(k),
{
    assert(m.remove(k).remove(k) =~= m.remove(k));
}

/// Removing a key that is not bound leaves the store exactly as it was,
/// its size included.
pub proof fn lemma_remove_absent(m: Map<Seq<char>, Seq<char>>, k: Seq<char>)
    requires
        !m.contains_key(k),
    ensures
        m.remove(k) == m,
        m.remove(k).dom().len() == m.dom().len(),
{
    assert(m.remove(k) =~= m);
}

} // verus!
