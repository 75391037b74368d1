use vstd::prelude::*;

verus! {

/// Schema versions still to apply, in order, to a database at `current` with
/// `count` migrations known: every version in `current + 1 ..= count`.
pub fn migrations_to_apply(current: u32, count: u32) -> (v: Vec<u32>)
    ensures
        v@ == Seq::new(if count > current { (count - current) as nat } else { 0 }, |k: int| (current + 1 + k) as u32),
{
    let mut v: Vec<u32> = Vec::new();
    if count <= current {
        proof { assert(v@ =~= Seq::new(0, |k: int| (current + 1 + k) as u32)); }
        return v;
    }
    let mut version: u32 = current;
    while version < count
        invariant
            current <= version <= count,
            v@ == Seq::new((version - current) as nat, |k: int| (current + 1 + k) as u32),
        decreases count - version,
    {
        version = version + 1;
        v.push(version);
        proof {
            assert(v@ =~= Seq::new((version - current) as nat, |k: int| (current + 1 + k) as u32));
        }
    }
    v
}

} // verus!
