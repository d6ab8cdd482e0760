//! Age-based cache eviction: a slot is removed when its metadata file is
//! unreadable or strictly older than the cutoff.  The staleness clock is
//! the metadata file's own timestamp, since expressions and closures have
//! no content timestamp of their own.
use vstd::prelude::*;

verus! {

/// How long a slot is kept, in platform clock units.
pub const MAX_CACHE_AGE_MS: u64 = 7 * 24 * 60 * 60 * 1000;

/// Whether one slot goes: its metadata file could not be read, or its
/// timestamp is strictly older than the cutoff.
pub open spec fn spec_should_remove(meta_mtime: Option<u64>, cutoff: u64) -> bool {
    match meta_mtime {
        None => true,
        Some(m) => m < cutoff,
    }
}

/// Decides one slot's fate.  A timestamp exactly at the cutoff is kept:
/// only strictly older slots go.
pub fn should_remove_slot(meta_mtime: Option<u64>, now: u64, max_age: u64) -> (r: bool)
    requires
        max_age <= now,
    ensures
        r == spec_should_remove(meta_mtime, (now - max_age) as u64),
{
    let cutoff = now - max_age;
    match meta_mtime {
        None => true,
        Some(m) => m < cutoff,
    }
}

/// The slots a sweep removes, in order: those whose metadata timestamp is
/// missing or strictly older than the cutoff.
pub open spec fn spec_sweep(slots: Seq<(String, Option<u64>)>, cutoff: u64) -> Seq<String>
    decreases slots,
{
    if slots.len() == 0 {
        Seq::empty()
    } else {
        spec_sweep(slots.drop_last(), cutoff) + (if spec_should_remove(slots.last().1, cutoff) {
            seq![slots.last().0]
        } else {
            Seq::empty()
        })
    }
}

/// Plans a sweep over the cache: which slot directories to delete, given
/// each slot's metadata-file timestamp (`None` when unreadable).
pub fn plan_sweep(slots: Vec<(String, Option<u64>)>, now: u64, max_age: u64) -> (r: Vec<String>)
    requires
        max_age <= now,
    ensures
        r@ == spec_sweep(slots@, (now - max_age) as u64),
{
    let ghost total = slots@;
    let ghost cutoff: u64 = (now - max_age) as u64;
    let mut out: Vec<String> = Vec::new();
    let mut rest = slots;
    proof {
        assert(total.take(0) =~= Seq::<(String, Option<u64>)>::empty());
        assert(out@ =~= spec_sweep(total.take(0), cutoff));
    }
    while rest.len() > 0
        invariant
            max_age <= now,
            cutoff == (now - max_age) as u64,
            total.len() >= rest@.len(),
            rest@ =~= total.skip(total.len() - rest@.len()),
            out@ == spec_sweep(total.take(total.len() - rest@.len()), cutoff),
        decreases rest@.len(),
    {
        let ghost done = total.len() - rest@.len();
        let ghost rest0 = rest@;
        let (name, mtime) = rest.remove(0);
        proof {
            assert((name, mtime) == total[done]);
            assert forall|t: int| 0 <= t < rest@.len() implies (#[trigger] rest@[t]) == total.skip(
                done + 1,
            )[t] by {
                assert(rest@[t] == rest0[t + 1]);
            }
            assert(rest@ =~= total.skip(done + 1));
            assert(total.take(done + 1).drop_last() =~= total.take(done));
            assert(total.take(done + 1).last() == total[done]);
        }
        if should_remove_slot(mtime, now, max_age) {
            out.push(name);
            proof {
                assert(out@ =~= spec_sweep(total.take(done + 1), cutoff));
            }
        } else {
            proof {
                assert(out@ =~= spec_sweep(total.take(done + 1), cutoff));
            }
        }
    }
    proof {
        assert(total.take(total.len() as int) =~= total);
    }
    out
}

/// A sweep with no allowed age removes every slot: each timestamp in the
/// past is strictly older than the cutoff, which is the present moment.
pub proof fn lemma_zero_age_sweeps_all(slots: Seq<(String, Option<u64>)>, now: u64)
    requires
        forall|i: int|
            0 <= i < slots.len() ==> match (#[trigger] slots[i]).1 {
                None => true,
                Some(m) => m < now,
            },
    ensures
        spec_sweep(slots, now).len() == slots.len(),
        forall|i: int| 0 <= i < slots.len() ==> spec_sweep(slots, now)[i] == (#[trigger]
        slots[i]).0,
    decreases slots,
{
    if slots.len() > 0 {
        assert(forall|i: int|
            0 <= i < slots.len() - 1 ==> (#[trigger] slots.drop_last()[i]) == slots[i]);
        lemma_zero_age_sweeps_all(slots.drop_last(), now);
        assert(spec_should_remove(slots.last().1, now));
        assert forall|i: int| 0 <= i < slots.len() implies spec_sweep(slots, now)[i] == (
        #[trigger] slots[i]).0 by {
            if i < slots.len() - 1 {
                assert(spec_sweep(slots.drop_last(), now)[i] == slots.drop_last()[i].0);
            }
        }
    }
}

} // verus!
