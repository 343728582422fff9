//! Which slot of a ring a writer comes to.
//!
//! Every slot has a number that is odd while a writer is inside. A writer goes from slot to slot
//! until it comes to one that is not taken.
use vstd::arithmetic::div_mod::*;
use vstd::prelude::*;

verus! {

/// A writer is inside.
pub open spec fn busy(number: usize) -> bool {
    number % 2 == 1
}

/// Some slot is free for a writer.
pub open spec fn some_free(taken: Seq<bool>) -> bool {
    exists|i: int| 0 <= i < taken.len() && !#[trigger] taken[i]
}

/// How many slots in a row, `limit` at most, are taken from position `from` on.
pub open spec fn taken_run(taken: Seq<bool>, from: int, limit: nat) -> nat
    decreases limit,
{
    if limit == 0 || !taken[from % (taken.len() as int)] {
        0
    } else {
        1 + taken_run(taken, from + 1, (limit - 1) as nat)
    }
}

/// How many slots a writer passes over that begins at position `from`.
pub open spec fn passed_over(taken: Seq<bool>, from: int) -> nat {
    taken_run(taken, from, taken.len())
}

/// The run of slots that a writer passes over is taken, and the slot after it is free.
proof fn lemma_taken_run(taken: Seq<bool>, from: int, limit: nat)
    ensures
        taken_run(taken, from, limit) <= limit,
        forall|i: int|
            0 <= i < taken_run(taken, from, limit) ==> #[trigger] taken[(from + i) % (
            taken.len() as int)],
        taken_run(taken, from, limit) < limit ==> !taken[(from + taken_run(taken, from, limit)) % (
        taken.len() as int)],
    decreases limit,
{
    if limit > 0 && taken[from % (taken.len() as int)] {
        lemma_taken_run(taken, from + 1, (limit - 1) as nat);
        let run = taken_run(taken, from, limit);
        assert forall|i: int| 0 <= i < run implies #[trigger] taken[(from + i) % (
        taken.len() as int)] by {
            if i > 0 {
                assert(from + i == (from + 1) + (i - 1));
            }
        }
        assert(from + run == (from + 1) + (run - 1));
    }
}

/// A number tells of a writer inside exactly if it is odd.
pub proof fn law_busy(number: usize)
    ensures
        busy(number) <==> number % 2 == 1,
{
}

/// If some slot is free, a writer comes to a free one before it has gone all the way round.
pub proof fn lemma_passed_over(taken: Seq<bool>, from: int)
    requires
        some_free(taken),
    ensures
        passed_over(taken, from) < taken.len(),
        forall|i: int|
            0 <= i < passed_over(taken, from) ==> #[trigger] taken[(from + i) % (
            taken.len() as int)],
        0 <= (from + passed_over(taken, from)) % (taken.len() as int) < taken.len(),
        !taken[(from + passed_over(taken, from)) % (taken.len() as int)],
{
    let len = taken.len() as int;
    lemma_taken_run(taken, from, taken.len());
    let free = choose|i: int| 0 <= i < len && !#[trigger] taken[i];
    let ahead = (free - from) % len;
    lemma_mod_bound(free - from, len);
    lemma_mod_bound(from + passed_over(taken, from), len);
    assert((from + ahead) % len == free) by {
        lemma_add_mod_noop(from, free - from, len);
        lemma_add_mod_noop(from, ahead, len);
        lemma_mod_twice(free - from, len);
        lemma_small_mod(free as nat, len as nat);
    }
}

} // verus!
