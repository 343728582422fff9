//! How many flags of a row are set.
use vstd::prelude::*;

verus! {

/// How many of the flags are set.
pub open spec fn tally(flags: Seq<bool>) -> nat
    decreases flags.len(),
{
    if flags.len() == 0 {
        0
    } else if flags.last() {
        tally(flags.drop_last()) + 1
    } else {
        tally(flags.drop_last())
    }
}

/// No more flags are set than there are, and none are only if each is not.
pub proof fn lemma_tally_bounds(flags: Seq<bool>)
    ensures
        tally(flags) <= flags.len(),
        tally(flags) == 0 <==> forall|i: int| 0 <= i < flags.len() ==> !#[trigger] flags[i],
    decreases flags.len(),
{
    if flags.len() > 0 {
        let rest = flags.drop_last();
        lemma_tally_bounds(rest);
        if tally(flags) == 0 {
            assert forall|i: int| 0 <= i < flags.len() implies !#[trigger] flags[i] by {
                assert(i < rest.len() ==> rest[i] == flags[i]);
            }
        }
        if forall|i: int| 0 <= i < flags.len() ==> !#[trigger] flags[i] {
            assert(!flags[flags.len() - 1]);
            assert(forall|i: int| 0 <= i < rest.len() ==> #[trigger] rest[i] == flags[i]);
        }
    }
}

/// Setting or clearing one flag changes the number accordingly.
pub proof fn lemma_tally_update(flags: Seq<bool>, at: int, flag: bool)
    requires
        0 <= at < flags.len(),
    ensures
        tally(flags.update(at, flag)) + (if flags[at] {
            1nat
        } else {
            0
        }) == tally(flags) + (if flag {
            1nat
        } else {
            0
        }),
    decreases flags.len(),
{
    let rest = flags.drop_last();
    if at == flags.len() - 1 {
        assert(flags.update(at, flag).drop_last() =~= rest);
    } else {
        assert(flags.update(at, flag).drop_last() =~= rest.update(at, flag));
        lemma_tally_update(rest, at, flag);
    }
}

} // verus!
