use vstd::prelude::*;

verus! {

/// No vertex before `i` has the same rooted canonical form as `i`.
pub open spec fn opens_class(forms: Seq<Seq<u8>>, i: int) -> bool {
    forall|j: int| 0 <= j < i ==> forms[j] != forms[i]
}

/// The vertices of `0..len`, in increasing order, that open a class.
pub open spec fn class_openers(forms: Seq<Seq<u8>>, len: int) -> Seq<usize>
    decreases len,
{
    if len <= 0 {
        Seq::empty()
    } else if opens_class(forms, len - 1) {
        class_openers(forms, len - 1).push((len - 1) as usize)
    } else {
        class_openers(forms, len - 1)
    }
}

/// Whether two byte strings are equal.
pub fn same_bytes(a: &Vec<u8>, b: &Vec<u8>) -> (r: bool)
    ensures
        r == (a@ == b@),
{
    if a.len() != b.len() {
        return false;
    }
    let mut i: usize = 0;
    while i < a.len()
        invariant
            a@.len() == b@.len(),
            i <= a@.len(),
            forall|k: int| 0 <= k < i ==> a@[k] == b@[k],
        decreases a@.len() - i,
    {
        if a[i] != b[i] {
            return false;
        }
        i = i + 1;
    }
    proof {
        assert(a@ =~= b@);
    }
    true
}

/// Returns a list of representatives of the orbit classes of a flag under
/// the action of its automorphism group.
///
/// `forms[i]` is the encoded canonical form of the flag rooted at vertex
/// `i`: two vertices are in one orbit exactly when their forms are equal.
/// The representative of each class is its least vertex.
pub fn vertex_orbits(forms: &Vec<Vec<u8>>) -> (r: Vec<usize>)
    ensures
        r@ == class_openers(forms@.map_values(|f: Vec<u8>| f@), forms@.len() as int),
{
    let ghost keys = forms@.map_values(|f: Vec<u8>| f@);
    let mut res: Vec<usize> = Vec::new();
    let mut i: usize = 0;
    while i < forms.len()
        invariant
            keys == forms@.map_values(|f: Vec<u8>| f@),
            i <= forms@.len(),
            res@ == class_openers(keys, i as int),
        decreases forms@.len() - i,
    {
        let mut fresh = true;
        let mut j: usize = 0;
        while j < i
            invariant
                keys == forms@.map_values(|f: Vec<u8>| f@),
                j <= i,
                i < forms@.len(),
                fresh == (forall|k: int| 0 <= k < j ==> keys[k] != keys[i as int]),
            decreases i - j,
        {
            let same = same_bytes(&forms[j], &forms[i]);
            proof {
                assert(keys[j as int] == forms@[j as int]@);
                assert(keys[i as int] == forms@[i as int]@);
            }
            if same {
                fresh = false;
            }
            j = j + 1;
        }
        if fresh {
            res.push(i);
        }
        i = i + 1;
    }
    res
}

} // verus!
