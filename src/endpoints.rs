//! The table of endpoints: named destinations for point-to-point messages,
//! kept as a vector whose names are unique and read as a map from name to
//! handler id.

use crate::handler::MessageHandler;
use vstd::prelude::*;

verus! {

/// A named destination for point-to-point messages.
pub(crate) struct Endpoint {
    pub(crate) name: String,
    pub(crate) handler: MessageHandler,
}

/// Whether some endpoint of `eps` is named `name`.
pub(crate) open spec fn has_endpoint(eps: Seq<Endpoint>, name: Seq<char>) -> bool {
    exists|i: int| 0 <= i < eps.len() && (#[trigger] eps[i]).name@ == name
}

/// No two endpoints of `eps` share a name.
pub(crate) open spec fn names_unique(eps: Seq<Endpoint>) -> bool {
    forall|i: int, j: int|
        0 <= i < eps.len() && 0 <= j < eps.len() && i != j ==> (#[trigger] eps[i]).name@ != (
        #[trigger] eps[j]).name@
}

/// The endpoints of `eps` as a table from name to handler id.
pub(crate) open spec fn endpoint_table(eps: Seq<Endpoint>) -> Map<Seq<char>, Seq<char>> {
    Map::new(
        |name: Seq<char>| has_endpoint(eps, name),
        |name: Seq<char>|
            eps[choose|i: int| 0 <= i < eps.len() && (#[trigger] eps[i]).name@ == name].handler@,
    )
}

/// The endpoint at `i` is what the table holds under its name.
pub(crate) proof fn lemma_table_at(eps: Seq<Endpoint>, i: int)
    requires
        names_unique(eps),
        0 <= i < eps.len(),
    ensures
        endpoint_table(eps).contains_key(eps[i].name@),
        endpoint_table(eps)[eps[i].name@] == eps[i].handler@,
{
    let name = eps[i].name@;
    assert(has_endpoint(eps, name));
    let j = choose|j: int| 0 <= j < eps.len() && (#[trigger] eps[j]).name@ == name;
    assert(j == i);
}

/// Replacing the endpoint at `i` by one of the same name updates that entry
/// of the table.
pub(crate) proof fn lemma_table_update(eps: Seq<Endpoint>, i: int, e: Endpoint)
    requires
        names_unique(eps),
        0 <= i < eps.len(),
        eps[i].name@ == e.name@,
    ensures
        names_unique(eps.update(i, e)),
        endpoint_table(eps.update(i, e)) == endpoint_table(eps).insert(e.name@, e.handler@),
{
    let new = eps.update(i, e);
    assert(names_unique(new)) by {
        assert forall|a: int, b: int|
            0 <= a < new.len() && 0 <= b < new.len() && a != b implies (#[trigger] new[a]).name@
            != (#[trigger] new[b]).name@ by {
            assert(new[a].name@ == eps[a].name@);
            assert(new[b].name@ == eps[b].name@);
        }
    }
    let t = endpoint_table(eps).insert(e.name@, e.handler@);
    assert forall|name: Seq<char>| #[trigger] endpoint_table(new).contains_key(name) <==> t.contains_key(name) by {
        if has_endpoint(new, name) {
            let j = choose|j: int| 0 <= j < new.len() && (#[trigger] new[j]).name@ == name;
            assert(eps[j].name@ == name);
        }
        if has_endpoint(eps, name) {
            let j = choose|j: int| 0 <= j < eps.len() && (#[trigger] eps[j]).name@ == name;
            assert(new[j].name@ == name);
        }
        if name == e.name@ {
            assert(new[i].name@ == name);
        }
    }
    assert forall|name: Seq<char>| #[trigger] endpoint_table(new).contains_key(name) implies endpoint_table(new)[name] == t[name] by {
        let j = choose|j: int| 0 <= j < new.len() && (#[trigger] new[j]).name@ == name;
        lemma_table_at(new, j);
        if j != i {
            lemma_table_at(eps, j);
        }
    }
    assert(endpoint_table(new) =~= t);
}

/// Appending an endpoint under a new name adds that entry to the table.
pub(crate) proof fn lemma_table_push(eps: Seq<Endpoint>, e: Endpoint)
    requires
        names_unique(eps),
        !has_endpoint(eps, e.name@),
    ensures
        names_unique(eps.push(e)),
        endpoint_table(eps.push(e)) == endpoint_table(eps).insert(e.name@, e.handler@),
{
    let new = eps.push(e);
    let n = eps.len() as int;
    assert(names_unique(new)) by {
        assert forall|a: int, b: int|
            0 <= a < new.len() && 0 <= b < new.len() && a != b implies (#[trigger] new[a]).name@
            != (#[trigger] new[b]).name@ by {
            if a < n {
                assert(new[a] == eps[a]);
            }
            if b < n {
                assert(new[b] == eps[b]);
            }
        }
    }
    let t = endpoint_table(eps).insert(e.name@, e.handler@);
    assert forall|name: Seq<char>| #[trigger] endpoint_table(new).contains_key(name) <==> t.contains_key(name) by {
        if has_endpoint(new, name) {
            let j = choose|j: int| 0 <= j < new.len() && (#[trigger] new[j]).name@ == name;
            if j < n {
                assert(eps[j].name@ == name);
            }
        }
        if has_endpoint(eps, name) {
            let j = choose|j: int| 0 <= j < eps.len() && (#[trigger] eps[j]).name@ == name;
            assert(new[j].name@ == name);
        }
        if name == e.name@ {
            assert(new[n].name@ == name);
        }
    }
    assert forall|name: Seq<char>| #[trigger] endpoint_table(new).contains_key(name) implies endpoint_table(new)[name] == t[name] by {
        let j = choose|j: int| 0 <= j < new.len() && (#[trigger] new[j]).name@ == name;
        lemma_table_at(new, j);
        if j < n {
            assert(new[j] == eps[j]);
            lemma_table_at(eps, j);
        }
    }
    assert(endpoint_table(new) =~= t);
}

/// Removing the endpoint at `i` removes its name from the table.
pub(crate) proof fn lemma_table_remove(eps: Seq<Endpoint>, i: int)
    requires
        names_unique(eps),
        0 <= i < eps.len(),
    ensures
        names_unique(eps.remove(i)),
        endpoint_table(eps.remove(i)) == endpoint_table(eps).remove(eps[i].name@),
{
    let new = eps.remove(i);
    let gone = eps[i].name@;
    // Position in `eps` of the endpoint at `k` in `new`.
    assert forall|k: int| 0 <= k < new.len() implies #[trigger] new[k] == eps[if k < i { k } else { k + 1 }] by {}
    assert(names_unique(new)) by {
        assert forall|a: int, b: int|
            0 <= a < new.len() && 0 <= b < new.len() && a != b implies (#[trigger] new[a]).name@
            != (#[trigger] new[b]).name@ by {
            assert(new[a] == eps[if a < i { a } else { a + 1 }]);
            assert(new[b] == eps[if b < i { b } else { b + 1 }]);
        }
    }
    let t = endpoint_table(eps).remove(gone);
    assert forall|name: Seq<char>| #[trigger] endpoint_table(new).contains_key(name) <==> t.contains_key(name) by {
        if has_endpoint(new, name) {
            let j = choose|j: int| 0 <= j < new.len() && (#[trigger] new[j]).name@ == name;
            let oj = if j < i { j } else { j + 1 };
            assert(new[j] == eps[oj]);
            assert(eps[oj].name@ == name);
        }
        if has_endpoint(eps, name) && name != gone {
            let j = choose|j: int| 0 <= j < eps.len() && (#[trigger] eps[j]).name@ == name;
            let nj = if j < i { j } else { j - 1 };
            assert(new[nj] == eps[j]);
            assert(new[nj].name@ == name);
        }
    }
    assert forall|name: Seq<char>| #[trigger] endpoint_table(new).contains_key(name) implies endpoint_table(new)[name] == t[name] by {
        let j = choose|j: int| 0 <= j < new.len() && (#[trigger] new[j]).name@ == name;
        let oj = if j < i { j } else { j + 1 };
        assert(new[j] == eps[oj]);
        lemma_table_at(new, j);
        lemma_table_at(eps, oj);
    }
    assert(endpoint_table(new) =~= t);
}

/// The table has one entry for each endpoint.
pub(crate) proof fn lemma_table_size(eps: Seq<Endpoint>)
    requires
        names_unique(eps),
    ensures
        endpoint_table(eps).dom().finite(),
        endpoint_table(eps).len() == eps.len(),
{
    let names = eps.map_values(|e: Endpoint| e.name@);
    assert(names.no_duplicates()) by {
        assert forall|a: int, b: int| 0 <= a < names.len() && 0 <= b < names.len() && a != b implies names[a] != names[b] by {
            assert(names[a] == eps[a].name@);
            assert(names[b] == eps[b].name@);
        }
    }
    assert forall|name: Seq<char>| #[trigger] names.to_set().contains(name) <==> has_endpoint(eps, name) by {
        if names.to_set().contains(name) {
            let j = choose|j: int| 0 <= j < names.len() && names[j] == name;
            assert(eps[j].name@ == name);
        }
        if has_endpoint(eps, name) {
            let j = choose|j: int| 0 <= j < eps.len() && (#[trigger] eps[j]).name@ == name;
            assert(names[j] == name);
        }
    }
    assert(endpoint_table(eps).dom() =~= names.to_set());
    names.unique_seq_to_set();
    vstd::seq_lib::seq_to_set_is_finite(names);
}

} // verus!
