//! Flags for the places of a table: which of them a walk has been to.

use vstd::prelude::*;

verus! {

/// `n` flags, none set.
pub open spec fn no_flags(n: nat) -> Seq<bool> {
    Seq::new(n, |i: int| false)
}

/// How many of the flags are not set.
pub open spec fn unset(marks: Seq<bool>) -> nat
    decreases marks.len(),
{
    if marks.len() == 0 {
        0
    } else {
        unset(marks.drop_last()) + if marks.last() {
            0nat
        } else {
            1nat
        }
    }
}

/// Setting a flag that was not set leaves one flag less unset.
pub proof fn lemma_unset_update(marks: Seq<bool>, i: int)
    requires
        0 <= i < marks.len(),
        !marks[i],
    ensures
        unset(marks.update(i, true)) + 1 == unset(marks),
    decreases marks.len(),
{
    let after = marks.update(i, true);
    if i == marks.len() - 1 {
        assert(after.drop_last() =~= marks.drop_last());
    } else {
        lemma_unset_update(marks.drop_last(), i);
        assert(after.drop_last() =~= marks.drop_last().update(i, true));
    }
}

/// `n` flags, none set.
pub fn new_flags(n: usize) -> (r: Vec<bool>)
    ensures
        r@ == no_flags(n as nat),
{
    let mut flags: Vec<bool> = Vec::new();
    let mut i: usize = 0;
    while i < n
        invariant
            i <= n,
            flags@ == no_flags(i as nat),
        decreases n - i,
    {
        flags.push(false);
        proof {
            assert(flags@ =~= no_flags((i + 1) as nat));
        }
        i += 1;
    }
    flags
}

} // verus!
