use vstd::prelude::*;
use crate::search::SearchInfo;

verus! {

/// Some clock reading from position `from` on said that the time was up.
pub open spec fn time_up_seen(readings: Seq<bool>, from: int) -> bool {
    exists|i: int| from <= i < readings.len() && #[trigger] readings[i]
}

/// From `a` to `b` the clock readings only grow, and `b` is stopped exactly when `a` was or
/// one of the new readings said that the time was up.
pub open spec fn clock_kept(a: SearchInfo, b: SearchInfo) -> bool {
    &&& a.readings@.is_prefix_of(b.readings@)
    &&& b.stopped == (a.stopped || time_up_seen(b.readings@, a.readings@.len() as int))
}

/// Keeping to the clock carries over from one call to the next.
pub broadcast proof fn lemma_clock_kept_trans(a: SearchInfo, b: SearchInfo, c: SearchInfo)
    requires
        clock_kept(a, b),
        clock_kept(b, c),
    ensures
        #![trigger clock_kept(a, b), clock_kept(b, c)]
        clock_kept(a, c),
{
    let la = a.readings@.len() as int;
    let lb = b.readings@.len() as int;
    assert(a.readings@ =~= c.readings@.subrange(0, la)) by {
        assert forall|i: int| 0 <= i < la implies a.readings@[i] == c.readings@[i] by {
            assert(a.readings@[i] == b.readings@.subrange(0, la)[i]);
            assert(b.readings@[i] == c.readings@.subrange(0, lb)[i]);
        }
    }
    if time_up_seen(b.readings@, la) {
        let i = choose|i: int| la <= i < b.readings@.len() && #[trigger] b.readings@[i];
        assert(b.readings@[i] == c.readings@.subrange(0, lb)[i]);
        assert(c.readings@[i]);
    }
    if time_up_seen(c.readings@, la) && !time_up_seen(c.readings@, lb) {
        let i = choose|i: int| la <= i < c.readings@.len() && #[trigger] c.readings@[i];
        assert(i < lb);
        assert(b.readings@[i] == c.readings@.subrange(0, lb)[i]);
        assert(b.readings@[i]);
    }
}

/// A step that leaves the readings and the stop flag as they were keeps to the clock.
pub proof fn lemma_clock_kept_same(a: SearchInfo, b: SearchInfo)
    requires
        a.readings@ == b.readings@,
        a.stopped == b.stopped,
    ensures
        clock_kept(a, b),
{
    assert(a.readings@ =~= b.readings@.subrange(0, a.readings@.len() as int));
}

} // verus!
