//! Walks along links, whatever is gathered on the way.
use vstd::prelude::*;

use crate::error::ErrorView;
use crate::parsing::visited::{addresses_left, cycle_error, lemma_visit_leaves_fewer};

verus! {

/// What is gathered from `address` on, behind what was `found` before, where the walk has
/// already passed the addresses `visited`: `step` says what is found at an address, and at
/// which address the walk goes on (0 at its end).
pub open spec fn walk<T>(
    step: spec_fn(u64) -> Result<(Seq<T>, u64), ErrorView>,
    kind: Seq<char>,
    address: u64,
    visited: Set<u64>,
    found: Seq<T>,
) -> Result<Seq<T>, ErrorView>
    decreases addresses_left(visited),
{
    if address == 0 {
        Ok(found)
    } else if visited.contains(address) {
        Err(cycle_error(kind, address))
    } else {
        match step(address) {
            Err(error) => Err(error),
            Ok((here, next)) => {
                proof {
                    lemma_visit_leaves_fewer(visited, address);
                }
                walk(step, kind, next, visited.insert(address), found + here)
            },
        }
    }
}

/// What a walk that starts at `first` gathers.
pub open spec fn gathered<T>(
    step: spec_fn(u64) -> Result<(Seq<T>, u64), ErrorView>,
    kind: Seq<char>,
    first: u64,
) -> Result<Seq<T>, ErrorView> {
    walk(step, kind, first, Set::empty(), Seq::empty())
}

/// `path` leads from `first` to `last`: its addresses are distinct and no null links, each
/// can be read, and each leads to the next, the last of them to `last`.
pub open spec fn leads<T>(
    step: spec_fn(u64) -> Result<(Seq<T>, u64), ErrorView>,
    first: u64,
    path: Seq<u64>,
    last: u64,
) -> bool {
    &&& path.no_duplicates()
    &&& first == (if path.len() > 0 {
        path[0]
    } else {
        last
    })
    &&& forall|i: int|
        0 <= i < path.len() ==> #[trigger] path[i] != 0 && (step(path[i]) matches Ok(here)
            && here.1 == (if i + 1 < path.len() {
            path[i + 1]
        } else {
            last
        }))
}

/// What is found along a path, in its order.
pub open spec fn along_path<T>(
    step: spec_fn(u64) -> Result<(Seq<T>, u64), ErrorView>,
    path: Seq<u64>,
) -> Seq<T>
    decreases path.len(),
{
    if path.len() == 0 {
        Seq::empty()
    } else {
        step(path[0])->Ok_0.0 + along_path(step, path.drop_first())
    }
}

proof fn lemma_tail<T>(
    step: spec_fn(u64) -> Result<(Seq<T>, u64), ErrorView>,
    first: u64,
    path: Seq<u64>,
    last: u64,
)
    requires
        leads(step, first, path, last),
        path.len() > 0,
    ensures
        leads(step, step(first)->Ok_0.1, path.drop_first(), last),
        first != 0,
        step(first) is Ok,
        forall|i: int| 0 <= i < path.len() - 1 ==> #[trigger] path.drop_first()[i] != first,
{
    let rest = path.drop_first();
    assert(path[0] == first);
    assert forall|i: int| 0 <= i < rest.len() implies #[trigger] rest[i] != 0 && rest[i] != first
        && (step(rest[i]) matches Ok(here) && here.1 == (if i + 1 < rest.len() {
        rest[i + 1]
    } else {
        last
    })) by {
        assert(rest[i] == path[i + 1]);
    }
    assert forall|i: int, j: int|
        0 <= i < rest.len() && 0 <= j < rest.len() && i != j implies rest[i] != rest[j] by {
        assert(path[i + 1] != path[j + 1]);
    }
}

proof fn lemma_walk_along<T>(
    step: spec_fn(u64) -> Result<(Seq<T>, u64), ErrorView>,
    kind: Seq<char>,
    first: u64,
    path: Seq<u64>,
    last: u64,
    visited: Set<u64>,
    found: Seq<T>,
)
    requires
        leads(step, first, path, last),
        forall|i: int| 0 <= i < path.len() ==> !visited.contains(#[trigger] path[i]),
    ensures
        walk(step, kind, first, visited, found) == walk(
            step,
            kind,
            last,
            visited.union(path.to_set()),
            found + along_path(step, path),
        ),
    decreases path.len(),
{
    if path.len() == 0 {
        assert(found + along_path(step, path) =~= found);
        assert(visited.union(path.to_set()) =~= visited);
    } else {
        let rest = path.drop_first();
        let here = step(first)->Ok_0;
        lemma_tail(step, first, path, last);
        assert(path[0] == first);
        assert forall|i: int| 0 <= i < rest.len() implies !visited.insert(first).contains(
            #[trigger] rest[i],
        ) by {
            assert(rest[i] == path[i + 1]);
        }
        lemma_walk_along(step, kind, here.1, rest, last, visited.insert(first), found + here.0);
        assert(found + here.0 + along_path(step, rest) =~= found + along_path(step, path));
        assert(visited.insert(first).union(rest.to_set()) =~= visited.union(path.to_set())) by {
            assert forall|a: u64| path.to_set().contains(a) <==> a == first || rest.to_set().contains(
                a,
            ) by {
                if path.contains(a) {
                    let i = choose|i: int| 0 <= i < path.len() && path[i] == a;
                    if i > 0 {
                        assert(rest[i - 1] == a);
                    }
                }
                if rest.contains(a) {
                    let i = choose|i: int| 0 <= i < rest.len() && rest[i] == a;
                    assert(path[i + 1] == a);
                }
            }
        }
    }
}

/// A walk that comes to a null link gathers what lies along its path, in order; one that comes
/// to an address that cannot be read ends with its error; one that comes back to an address
/// is refused.
pub proof fn lemma_walk_ends<T>(
    step: spec_fn(u64) -> Result<(Seq<T>, u64), ErrorView>,
    kind: Seq<char>,
    first: u64,
    path: Seq<u64>,
    last: u64,
)
    requires
        leads(step, first, path, last),
    ensures
        last == 0 ==> gathered(step, kind, first) == Ok::<Seq<T>, ErrorView>(
            along_path(step, path),
        ),
        last != 0 && path.contains(last) ==> gathered(step, kind, first) == Err::<
            Seq<T>,
            ErrorView,
        >(cycle_error(kind, last)),
        last != 0 && !path.contains(last) ==> (step(last) matches Err(error) ==> gathered(
            step,
            kind,
            first,
        ) == Err::<Seq<T>, ErrorView>(error)),
{
    lemma_walk_along(step, kind, first, path, last, Set::empty(), Seq::empty());
    assert(Seq::<T>::empty() + along_path(step, path) =~= along_path(step, path));
    assert(Set::<u64>::empty().union(path.to_set()) =~= path.to_set());
}

proof fn lemma_path_taken<T>(
    step: spec_fn(u64) -> Result<(Seq<T>, u64), ErrorView>,
    kind: Seq<char>,
    first: u64,
    visited: Set<u64>,
    found: Seq<T>,
) -> (path: Seq<u64>)
    requires
        walk(step, kind, first, visited, found) is Ok,
    ensures
        leads(step, first, path, 0),
        forall|i: int| 0 <= i < path.len() ==> !visited.contains(#[trigger] path[i]),
    decreases addresses_left(visited),
{
    if first == 0 {
        Seq::empty()
    } else {
        lemma_visit_leaves_fewer(visited, first);
        let here = step(first)->Ok_0;
        let rest = lemma_path_taken(step, kind, here.1, visited.insert(first), found + here.0);
        let path = seq![first] + rest;
        assert forall|i: int| 0 <= i < path.len() implies #[trigger] path[i] != 0
            && !visited.contains(path[i]) && (step(path[i]) matches Ok(at) && at.1 == (if i + 1
            < path.len() {
            path[i + 1]
        } else {
            0
        })) by {
            if i > 0 {
                assert(path[i] == rest[i - 1]);
            }
        }
        assert(path.no_duplicates()) by {
            assert forall|i: int, j: int| 0 <= i < j < path.len() implies path[i] != path[j] by {
                assert(path[j] == rest[j - 1]);
                if i > 0 {
                    assert(path[i] == rest[i - 1]);
                }
            }
        }
        path
    }
}

/// An address can be walked from exactly when it can be read and the address that it leads to
/// can be walked from; then what is found there comes before what is gathered from there on.
pub proof fn lemma_walk_from<T>(
    step: spec_fn(u64) -> Result<(Seq<T>, u64), ErrorView>,
    kind: Seq<char>,
    first: u64,
)
    ensures
        gathered(step, kind, 0) == Ok::<Seq<T>, ErrorView>(Seq::empty()),
        first != 0 ==> (gathered(step, kind, first) is Ok <==> step(first) is Ok && gathered(
            step,
            kind,
            step(first)->Ok_0.1,
        ) is Ok),
        first != 0 && gathered(step, kind, first) is Ok ==> gathered(step, kind, first)->Ok_0
            == step(first)->Ok_0.0 + gathered(step, kind, step(first)->Ok_0.1)->Ok_0,
        first != 0 ==> (step(first) matches Err(error) ==> gathered(step, kind, first) == Err::<
            Seq<T>,
            ErrorView,
        >(error)),
{
    if first != 0 {
        if gathered(step, kind, first) is Ok {
            let path = lemma_path_taken(step, kind, first, Set::empty(), Seq::empty());
            lemma_walk_ends(step, kind, first, path, 0);
            lemma_tail(step, first, path, 0);
            assert(path[0] == first);
            lemma_walk_ends(step, kind, step(first)->Ok_0.1, path.drop_first(), 0);
        } else if step(first) is Ok && gathered(step, kind, step(first)->Ok_0.1) is Ok {
            let next = step(first)->Ok_0.1;
            let rest = lemma_path_taken(step, kind, next, Set::empty(), Seq::empty());
            let path = seq![first] + rest;
            assert(!rest.contains(first)) by {
                if rest.contains(first) {
                    let i = choose|i: int| 0 <= i < rest.len() && rest[i] == first;
                    assert(next == rest[0]);
                    assert(rest[0] != 0);
                    assert(rest[i + 1] == rest[0]);
                }
            }
            assert forall|i: int| 0 <= i < path.len() implies #[trigger] path[i] != 0 && (step(
                path[i],
            ) matches Ok(at) && at.1 == (if i + 1 < path.len() {
                path[i + 1]
            } else {
                0
            })) by {
                if i > 0 {
                    assert(path[i] == rest[i - 1]);
                }
            }
            assert forall|i: int, j: int| 0 <= i < j < path.len() implies path[i] != path[j] by {
                assert(path[j] == rest[j - 1]);
                if i > 0 {
                    assert(path[i] == rest[i - 1]);
                } else {
                    assert(rest.contains(rest[j - 1]));
                }
            }
            assert(leads(step, first, path, 0));
            lemma_walk_ends(step, kind, first, path, 0);
        }
    }
}

} // verus!
