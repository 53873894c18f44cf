//! What options, results and lists of values stand for.

use vstd::prelude::*;

verus! {

pub open spec fn opt<T: View>(o: Option<T>) -> Option<T::V> {
    match o {
        Some(x) => Some(x@),
        None => None,
    }
}

pub open spec fn res<T: View, E: View>(r: Result<T, E>) -> Result<T::V, E::V> {
    match r {
        Ok(x) => Ok(x@),
        Err(e) => Err(e@),
    }
}

pub open spec fn list<T: View>(s: Seq<T>) -> Seq<T::V> {
    s.map_values(|x: T| x@)
}

pub open spec fn lists<T: View>(s: Seq<Vec<T>>) -> Seq<Seq<T::V>> {
    s.map_values(|x: Vec<T>| list(x@))
}

/// A longer list stands for the longer sequence.
pub proof fn lemma_list_push<T: View>(s: Seq<T>, x: T)
    ensures
        list(s.push(x)) == list(s).push(x@),
{
    assert(list(s.push(x)) =~= list(s).push(x@));
}

} // verus!
