//! Path assembly for the on-disk layout.  Paths are byte strings joined
//! with `/`; the caller supplies the repository root explicitly.

use vstd::prelude::*;
use crate::bytes::push_all;

verus! {

/// The number of leading hexadecimal characters of a fingerprint that name
/// the object subdirectory.
pub const OBJECT_ID_SPLIT_MID: usize = 2;

/// `base` followed by each part, each preceded by a `/` separator.
pub open spec fn path_join(base: Seq<u8>, parts: Seq<Seq<u8>>) -> Seq<u8>
    decreases parts.len(),
{
    if parts.len() == 0 {
        base
    } else {
        path_join(base + seq![47u8] + parts[0], parts.drop_first())
    }
}

/// Joins path components under the repository root directory.
pub fn resolve_path(root: &Vec<u8>, parts: &Vec<Vec<u8>>) -> (r: Vec<u8>)
    ensures
        r@ == path_join(root@, parts.deep_view()),
{
    let ghost dv: Seq<Seq<u8>> = parts.deep_view();
    let mut r: Vec<u8> = Vec::new();
    push_all(&mut r, root);
    let mut i: usize = 0;
    proof {
        assert(r@ =~= root@);
        assert(dv.subrange(0, dv.len() as int) =~= dv);
    }
    while i < parts.len()
        invariant
            i <= parts@.len(),
            dv == parts.deep_view(),
            dv.len() == parts@.len(),
            path_join(root@, dv) == path_join(r@, dv.subrange(i as int, dv.len() as int)),
        decreases parts@.len() - i,
    {
        let ghost r_old = r@;
        r.push(47);
        push_all(&mut r, &parts[i]);
        proof {
            let rest = dv.subrange(i as int, dv.len() as int);
            assert(rest[0] == dv[i as int]);
            assert(dv[i as int] =~= parts@[i as int]@);
            assert(r@ =~= r_old + seq![47u8] + rest[0]);
            assert(rest.drop_first() =~= dv.subrange(i + 1, dv.len() as int));
        }
        i = i + 1;
    }
    r
}

} // verus!
