//! Membership in an optional set of owned system indices.

use std::collections::BTreeSet;

use vstd::prelude::*;

verus! {

/// The owned systems as a set, when a filter is given.
pub open spec fn owned_view(owned: Option<&BTreeSet<usize>>) -> Option<Set<usize>> {
    match owned {
        Some(s) => Some(s@),
        None => None,
    }
}

/// A system passes the ownership filter: there is none, or it holds the
/// system.
pub open spec fn passes(owned: Option<Set<usize>>, sys_idx: usize) -> bool {
    match owned {
        Some(s) => s.contains(sys_idx),
        None => true,
    }
}

/// Whether a system passes the ownership filter.
pub fn owned_allows(owned: Option<&BTreeSet<usize>>, sys_idx: usize) -> (b: bool)
    ensures
        b == passes(owned_view(owned), sys_idx),
{
    broadcast use vstd::std_specs::btree::group_btree_axioms, vstd::laws_cmp::group_laws_cmp;

    match owned {
        Some(systems) => systems.contains(&sys_idx),
        None => true,
    }
}


/// The system indices of a list.
pub open spec fn list_set(sys: Seq<u8>) -> Set<usize> {
    Set::new(|x: usize| exists|j: int| 0 <= j < sys.len() && #[trigger] sys[j] as int == x as int)
}

/// The set of system indices in a list.
pub fn set_of(list: &[u8]) -> (r: BTreeSet<usize>)
    ensures
        r@ == list_set(list@),
{
    broadcast use vstd::std_specs::btree::group_btree_axioms, vstd::laws_cmp::group_laws_cmp;

    let mut out: BTreeSet<usize> = BTreeSet::new();
    let mut i: usize = 0;
    assert(list@.len() == list.len());
    while i < list.len()
        invariant
            list@.len() <= usize::MAX,
            i <= list@.len(),
            out@ == list_set(prefix(list@, i)),
        decreases list@.len() - i,
    {
        let v = usize::from(list[i]);
        proof {
            lemma_list_set_step(list@, i, v);
        }
        out.insert(v);
        i = i + 1;
    }
    proof {
        lemma_list_set_whole(list@);
    }
    out
}


/// The first `i` bytes of a list.
pub open spec fn prefix(list: Seq<u8>, i: usize) -> Seq<u8> {
    list.subrange(0, i as int)
}

proof fn lemma_list_set_step(list: Seq<u8>, i: usize, v: usize)
    requires
        list.len() <= usize::MAX,
        i < list.len(),
        v == list[i as int] as usize,
    ensures
        list_set(prefix(list, (i + 1) as usize)) == list_set(prefix(list, i)).insert(v),
{
    let a = list.subrange(0, i + 1);
    let b = list.subrange(0, i as int);
    assert forall|x: usize| list_set(a).contains(x) implies list_set(b).insert(v).contains(x) by {
        let j = choose|j: int| 0 <= j < a.len() && #[trigger] a[j] as int == x as int;
        if j < i {
            assert(b[j] == a[j]);
        }
    }
    assert forall|x: usize| list_set(b).insert(v).contains(x) implies list_set(a).contains(x) by {
        if x != v {
            let j = choose|j: int| 0 <= j < b.len() && #[trigger] b[j] as int == x as int;
            assert(a[j] == b[j]);
        } else {
            assert(a[i as int] as int == x as int);
        }
    }
    assert(list_set(a) =~= list_set(b).insert(v));
}

proof fn lemma_list_set_whole(list: Seq<u8>)
    requires
        list.len() <= usize::MAX,
    ensures
        list_set(prefix(list, list.len() as usize)) == list_set(list),
{
    assert(list.subrange(0, list.len() as int) =~= list);
}


/// The number of systems in a set.
pub fn set_len(s: &BTreeSet<usize>) -> (n: usize)
    ensures
        n == s@.len(),
{
    broadcast use vstd::std_specs::btree::group_btree_axioms, vstd::laws_cmp::group_laws_cmp;

    s.len()
}

} // verus!
