use vstd::prelude::*;

verus! {

/// The greatest number of vertices of a type that extensions are built on:
/// the enumeration behind an extension grows exponentially with it.
pub const MAX_TYPE_SIZE: usize = 12;

/// One inequality of a regularity argument: in the type numbered `type_id`,
/// the extension on vertex `from` weighs at least the extension on `to`.
pub type Comparison = (usize, usize, usize);

/// Whether an extension on vertex `i` of a type with `type_size` vertices is
/// allowed.
pub fn extension_in_range(type_size: usize, i: usize) -> (r: bool)
    ensures
        r == (i < type_size && type_size <= MAX_TYPE_SIZE),
{
    i < type_size && type_size <= MAX_TYPE_SIZE
}

/// Whether the weaker regularity argument can root its types on
/// `type_size` vertices inside flags of `basis_size` vertices.
pub fn weaker_type_size_in_range(type_size: usize, basis_size: usize) -> (r: bool)
    ensures
        r == (1 <= type_size && type_size < basis_size),
{
    1 <= type_size && type_size < basis_size
}

/// The comparisons around the cycle of the orbit representatives `reps` of
/// the type `id`: each representative against the next one, the last
/// against the first. A type with fewer than two orbits gives none.
pub open spec fn cycle_of(id: int, reps: Seq<usize>) -> Seq<Comparison> {
    if reps.len() >= 2 {
        Seq::new(reps.len(), |k: int| (id as usize, reps[k], reps[(k + 1) % (reps.len() as int)]))
    } else {
        Seq::empty()
    }
}

/// The comparisons of the types `0..len`, type by type.
pub open spec fn plan_of(orbits: Seq<Seq<usize>>, len: int) -> Seq<Comparison>
    decreases len,
{
    if len <= 0 {
        Seq::empty()
    } else {
        plan_of(orbits, len - 1) + cycle_of(len - 1, orbits[len - 1])
    }
}

/// The number of orbits summed over the types `0..len` that have at least two.
pub open spec fn symmetric_orbit_count(orbits: Seq<Seq<usize>>, len: int) -> nat
    decreases len,
{
    if len <= 0 {
        0
    } else {
        symmetric_orbit_count(orbits, len - 1) + if orbits[len - 1].len() >= 2 {
            orbits[len - 1].len()
        } else {
            0
        }
    }
}

/// The orbit representatives of each type, as sequences.
pub open spec fn reps_of(orbits: Seq<Vec<usize>>) -> Seq<Seq<usize>> {
    orbits.map_values(|o: Vec<usize>| o@)
}

/// The inequalities of a regularity argument: `orbits[id]` lists the orbit
/// representatives of the type numbered `id`, and every type with at least
/// two orbits gives one comparison per representative, around a cycle.
pub fn regularity_plan(orbits: &Vec<Vec<usize>>) -> (r: Vec<Comparison>)
    ensures
        r@ == plan_of(reps_of(orbits@), orbits@.len() as int),
{
    let ghost reps = reps_of(orbits@);
    let mut res: Vec<Comparison> = Vec::new();
    let mut id: usize = 0;
    while id < orbits.len()
        invariant
            reps == reps_of(orbits@),
            id <= orbits@.len(),
            res@ == plan_of(reps, id as int),
        decreases orbits@.len() - id,
    {
        let o = &orbits[id];
        let len = o.len();
        let ghost start = res@;
        proof {
            assert(reps[id as int] == o@);
        }
        if len >= 2 {
            let mut k: usize = 0;
            while k < len
                invariant
                    len == o@.len(),
                    len >= 2,
                    k <= len,
                    res@ == start + cycle_of(id as int, o@).take(k as int),
                decreases len - k,
            {
                let next = if k + 1 == len { 0 } else { k + 1 };
                proof {
                    if k + 1 == len {
                        vstd::arithmetic::div_mod::lemma_mod_self_0(len as int);
                    } else {
                        vstd::arithmetic::div_mod::lemma_small_mod((k + 1) as nat, len as nat);
                    }
                }
                res.push((id, o[k], o[next]));
                proof {
                    assert(cycle_of(id as int, o@).take(k + 1) == cycle_of(id as int, o@).take(k as int).push(
                        (id, o@[k as int], o@[next as int]),
                    ));
                }
                k = k + 1;
            }
            proof {
                assert(cycle_of(id as int, o@).take(len as int) == cycle_of(id as int, o@));
            }
        } else {
            proof {
                assert(start + cycle_of(id as int, o@) == start);
            }
        }
        id = id + 1;
    }
    res
}

/// A regularity argument gives exactly as many inequalities as there are
/// orbits in the types that have at least two.
pub proof fn lemma_plan_length(orbits: Seq<Seq<usize>>, len: int)
    requires
        0 <= len <= orbits.len(),
    ensures
        plan_of(orbits, len).len() == symmetric_orbit_count(orbits, len),
    decreases len,
{
    if len > 0 {
        lemma_plan_length(orbits, len - 1);
    }
}

/// Where every type has a single orbit there is no symmetry to exploit: a
/// regularity argument gives no inequality.
pub proof fn lemma_no_symmetry_no_plan(orbits: Seq<Seq<usize>>, len: int)
    requires
        0 <= len <= orbits.len(),
        forall|id: int| 0 <= id < len ==> (#[trigger] orbits[id]).len() == 1,
    ensures
        plan_of(orbits, len).len() == 0,
    decreases len,
{
    if len > 0 {
        lemma_no_symmetry_no_plan(orbits, len - 1);
    }
}

} // verus!
