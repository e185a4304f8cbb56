//! Refractive-index bookkeeping for nested transparent volumes.
//!
//! When a ray is shaded at one intersection out of the full `t`-sorted list,
//! the indices of refraction on either side of the surface are found by
//! walking the list while maintaining a stack of the objects the ray is
//! currently inside: meeting an object already on the stack means the ray is
//! leaving it, meeting a new one means the ray is entering it. The medium
//! just before the target intersection is the top of the stack before the
//! target is processed, the medium just after is the top once it has been.
//!
//! Objects are identified here by small integers; the caller numbers its
//! shapes so that two list entries carry the same number exactly when they
//! are the same object, and maps the returned identifiers back to the
//! objects' refractive indices (`None` standing for the surrounding vacuum).

use vstd::prelude::*;

verus! {

/// `c` with every occurrence of `id` removed, order kept.
pub open spec fn remove_id(c: Seq<usize>, id: usize) -> Seq<usize>
    decreases c.len(),
{
    if c.len() == 0 {
        c
    } else if c.last() == id {
        remove_id(c.drop_last(), id)
    } else {
        remove_id(c.drop_last(), id).push(c.last())
    }
}

/// One step of the walk: leave `id` if the stack holds it, else enter it.
pub open spec fn step(c: Seq<usize>, id: usize) -> Seq<usize> {
    if c.contains(id) {
        remove_id(c, id)
    } else {
        c.push(id)
    }
}

/// The stack after the first `k` entries of `ids` have been processed.
pub open spec fn containers(ids: Seq<usize>, k: int) -> Seq<usize>
    decreases k,
{
    if k <= 0 {
        Seq::empty()
    } else {
        step(containers(ids, k - 1), ids[k - 1])
    }
}

/// The object whose medium the ray is in: the top of the stack, or `None`
/// for the surrounding vacuum.
pub open spec fn innermost(c: Seq<usize>) -> Option<usize> {
    if c.len() == 0 {
        None
    } else {
        Some(c.last())
    }
}

/// Removal takes out every occurrence of the left object and nothing else.
proof fn lemma_remove_id(c: Seq<usize>, id: usize)
    ensures
        !remove_id(c, id).contains(id),
        forall|x: usize| remove_id(c, id).contains(x) ==> c.contains(x),
        c.no_duplicates() ==> remove_id(c, id).no_duplicates(),
    decreases c.len(),
{
    if c.len() > 0 {
        let d = c.drop_last();
        lemma_remove_id(d, id);
        assert forall|x: usize| #[trigger] d.contains(x) implies c.contains(x) by {
            let i = choose|i: int| 0 <= i < d.len() && d[i] == x;
            assert(c[i] == x);
        }
        assert(c.contains(c.last()));
        assert forall|x: usize| #[trigger] remove_id(c, id).contains(x) implies c.contains(x) by {
            if c.last() != id {
                let r = remove_id(d, id).push(c.last());
                let i = choose|i: int| 0 <= i < r.len() && r[i] == x;
                if i < r.len() - 1 {
                    assert(remove_id(d, id)[i] == x);
                    assert(remove_id(d, id).contains(x));
                    assert(d.contains(x));
                } else {
                    assert(x == c.last());
                }
            } else {
                assert(remove_id(d, id).contains(x));
                assert(d.contains(x));
            }
        }
        if c.no_duplicates() {
            assert forall|i: int, j: int|
                0 <= i < d.len() && 0 <= j < d.len() && i != j implies d[i] != d[j] by {
                assert(c[i] == d[i] && c[j] == d[j]);
            }
            assert(d.no_duplicates());
            if c.last() != id {
                let r = remove_id(d, id).push(c.last());
                assert(!remove_id(d, id).contains(c.last())) by {
                    if remove_id(d, id).contains(c.last()) {
                        assert(d.contains(c.last()));
                        let i = choose|i: int| 0 <= i < d.len() && d[i] == c.last();
                        assert(c[i] == c[c.len() - 1]);
                    }
                }
                assert forall|i: int, j: int|
                    0 <= i < r.len() && 0 <= j < r.len() && i != j implies r[i] != r[j] by {
                    if i < r.len() - 1 && j < r.len() - 1 {
                        assert(r[i] == remove_id(d, id)[i] && r[j] == remove_id(d, id)[j]);
                    } else {
                        assert(remove_id(d, id).contains(r[if i < j {
                            i
                        } else {
                            j
                        }]));
                    }
                }
            }
        }
    }
}

/// The ray is never inside one object twice over: the stack of containing
/// volumes holds no object more than once, at any point of the walk.
pub proof fn lemma_containers_distinct(ids: Seq<usize>, k: int)
    ensures
        containers(ids, k).no_duplicates(),
    decreases k,
{
    if k > 0 {
        lemma_containers_distinct(ids, k - 1);
        let c = containers(ids, k - 1);
        let id = ids[k - 1];
        if c.contains(id) {
            lemma_remove_id(c, id);
        } else {
            let r = c.push(id);
            assert forall|i: int, j: int|
                0 <= i < r.len() && 0 <= j < r.len() && i != j implies r[i] != r[j] by {
                if i < r.len() - 1 && j < r.len() - 1 {
                    assert(r[i] == c[i] && r[j] == c[j]);
                } else {
                    let other = if i < j {
                        i
                    } else {
                        j
                    };
                    assert(c.contains(r[other]) && r[if i < j {
                        j
                    } else {
                        i
                    }] == id);
                }
            }
        }
    }
}

/// Whether `v` holds `id`.
fn vec_contains(v: &Vec<usize>, id: usize) -> (b: bool)
    ensures
        b == v@.contains(id),
{
    let mut j: usize = 0;
    while j < v.len()
        invariant
            j <= v@.len(),
            forall|k: int| 0 <= k < j ==> v@[k] != id,
        decreases v@.len() - j,
    {
        if v[j] == id {
            return true;
        }
        j = j + 1;
    }
    false
}

/// Removes every occurrence of `id` from `v`, keeping the order.
fn vec_remove_id(v: &Vec<usize>, id: usize) -> (r: Vec<usize>)
    ensures
        r@ == remove_id(v@, id),
{
    let mut r: Vec<usize> = Vec::new();
    let mut j: usize = 0;
    while j < v.len()
        invariant
            j <= v@.len(),
            r@ == remove_id(v@.take(j as int), id),
        decreases v@.len() - j,
    {
        proof {
            assert(v@.take(j + 1).drop_last() =~= v@.take(j as int));
            assert(v@.take(j + 1).last() == v@[j as int]);
        }
        if v[j] != id {
            r.push(v[j]);
        }
        j = j + 1;
    }
    proof {
        assert(v@.take(v@.len() as int) =~= v@);
    }
    r
}

/// Applies one step of the walk to the stack.
fn push_or_remove(c: &mut Vec<usize>, id: usize)
    ensures
        final(c)@ == step(old(c)@, id),
{
    if vec_contains(c, id) {
        *c = vec_remove_id(c, id);
    } else {
        c.push(id);
    }
}

/// The top of the stack, or `None` when it is empty.
fn top(c: &Vec<usize>) -> (r: Option<usize>)
    ensures
        r == innermost(c@),
{
    if c.len() == 0 {
        None
    } else {
        Some(c[c.len() - 1])
    }
}

/// The identifiers of the objects whose media border the intersection at
/// position `hit` of the `t`-sorted intersection list `ids`: first the
/// medium the ray is leaving, then the one it is entering.
pub fn refraction_boundary(ids: &Vec<usize>, hit: usize) -> (r: (Option<usize>, Option<usize>))
    requires
        hit < ids@.len(),
    ensures
        r.0 == innermost(containers(ids@, hit as int)),
        r.1 == innermost(containers(ids@, hit as int + 1)),
{
    let mut c: Vec<usize> = Vec::new();
    let mut j: usize = 0;
    while j < hit
        invariant
            j <= hit,
            hit < ids@.len(),
            c@ == containers(ids@, j as int),
        decreases hit - j,
    {
        push_or_remove(&mut c, ids[j]);
        j = j + 1;
    }
    let n1 = top(&c);
    push_or_remove(&mut c, ids[hit]);
    let n2 = top(&c);
    (n1, n2)
}

} // verus!
