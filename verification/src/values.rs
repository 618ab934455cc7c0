use vstd::prelude::*;

verus! {

/// `clone` on `T` hands back a value with the same view. This holds of the
/// primitive integer types and of `String`, whose `clone` is specified to
/// return an equal value; the graph and traversal operations ask for it so
/// that the copies they store stand for the same abstract node.
pub open spec fn clone_respects_view<T: Clone + View>() -> bool {
    forall|a: T, b: T| cloned::<T>(a, b) ==> a@ == b@
}

/// Clones a value; under `clone_respects_view` the copy has the same view.
pub fn clone_value<T: Clone + View>(a: &T) -> (r: T)
    requires
        clone_respects_view::<T>(),
    ensures
        r@ == a@,
{
    let r = a.clone();
    proof {
        assert(cloned::<T>(*a, r));
    }
    r
}

/// The views of a sequence of values.
pub open spec fn views_of<T: View>(s: Seq<T>) -> Seq<T::V> {
    s.map_values(|t: T| t@)
}

/// `eq` on `T` decides exactly view equality: whatever `T::eq` can
/// return, the answer agrees with comparing the views. This holds of the
/// primitive integer types, whose `eq` is specified to decide spec
/// equality, and of `String`, whose `eq` is specified to decide equality
/// of the character sequences.
pub open spec fn eq_respects_view<T: PartialEq + View>() -> bool {
    forall|a: &T, b: &T, r: bool| #[trigger] call_ensures(T::eq, (a, b), r) ==> (r <==> a@ == b@)
}

/// Compares two values; under `eq_respects_view` the answer is exactly
/// view equality.
pub fn values_eq<T: PartialEq + View>(a: &T, b: &T) -> (r: bool)
    requires
        eq_respects_view::<T>(),
    ensures
        r == (a@ == b@),
{
    let r = *a == *b;
    proof {
        assert(call_ensures(T::eq, (a, b), r));
    }
    r
}

/// The equality and clone laws hold at `String` and at `u64`: `String`'s
/// `eq` is specified to decide equality of the character sequences and its
/// `clone` to return an equal value, and `u64`'s to decide and keep spec
/// equality, which is its view's equality. Verified callers instantiate
/// the graph at such types with this lemma.
pub proof fn lemma_eq_respects_view_instances()
    ensures
        eq_respects_view::<String>(),
        eq_respects_view::<u64>(),
        clone_respects_view::<String>(),
        clone_respects_view::<u64>(),
{
    assert forall|a: String, b: String| cloned::<String>(a, b) implies a@ == b@ by {}
    assert forall|a: u64, b: u64| cloned::<u64>(a, b) implies a@ == b@ by {}
    assert forall|a: &String, b: &String, r: bool|
        #[trigger] call_ensures(String::eq, (a, b), r) implies (r <==> a@ == b@) by {}
    assert forall|a: &u64, b: &u64, r: bool|
        #[trigger] call_ensures(u64::eq, (a, b), r) implies (r <==> a@ == b@) by {
        assert(<u64 as vstd::std_specs::cmp::PartialEqSpec>::obeys_eq_spec());
    }
}

} // verus!
