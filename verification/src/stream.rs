//! Relations between streams of samples, and what follows from them.

use vstd::prelude::*;

verus! {

/// The sample that stands for silence: the bits of the float zero.
pub const SILENCE: u32 = 0;

/// `kept` is `offered` with some samples, or none, left out and the order of
/// the others kept.
pub open spec fn is_thinning(kept: Seq<u32>, offered: Seq<u32>) -> bool
    decreases offered.len(),
{
    if kept.len() == 0 {
        true
    } else if offered.len() == 0 {
        false
    } else {
        ||| kept.last() == offered.last() && is_thinning(kept.drop_last(), offered.drop_last())
        ||| is_thinning(kept, offered.drop_last())
    }
}

/// The smaller of two counts.
pub open spec fn least(a: nat, b: nat) -> nat {
    if a <= b {
        a
    } else {
        b
    }
}

/// What is played for what a pop returned: the sample, or silence where the
/// pop found none.
pub open spec fn or_silence(popped: Option<u32>) -> u32 {
    match popped {
        Some(sample) => sample,
        None => SILENCE,
    }
}

/// What is played for a run of pops, one by one.
pub open spec fn played(popped: Seq<Option<u32>>) -> Seq<u32> {
    Seq::new(popped.len(), |s: int| or_silence(popped[s]))
}

/// The samples that a run of pops found, in order: a pop that found none
/// adds nothing.
pub open spec fn found(popped: Seq<Option<u32>>) -> Seq<u32>
    decreases popped.len(),
{
    if popped.len() == 0 {
        Seq::empty()
    } else {
        match popped.last() {
            Some(sample) => found(popped.drop_last()).push(sample),
            None => found(popped.drop_last()),
        }
    }
}

/// A suffix of a suffix is a suffix.
pub proof fn lemma_suffix_chain(a: Seq<u32>, b: Seq<u32>, c: Seq<u32>)
    requires
        a.is_suffix_of(b),
        b.is_suffix_of(c),
    ensures
        a.is_suffix_of(c),
{
    assert(a =~= c.subrange(c.len() - a.len(), c.len() as int));
}

/// Appending the same sample to a sequence and to a suffix of it leaves a
/// suffix.
pub proof fn lemma_suffix_push(a: Seq<u32>, b: Seq<u32>, sample: u32)
    requires
        a.is_suffix_of(b),
    ensures
        a.push(sample).is_suffix_of(b.push(sample)),
{
    let ap = a.push(sample);
    let bp = b.push(sample);
    assert(ap =~= bp.subrange(bp.len() - ap.len(), bp.len() as int));
}

/// Putting the same samples before a sequence and before a prefix of it
/// leaves a prefix.
pub proof fn lemma_prefix_append(a: Seq<u32>, b: Seq<u32>, head: Seq<u32>)
    requires
        a.is_prefix_of(b),
    ensures
        (head + a).is_prefix_of(head + b),
{
    assert(head + a =~= (head + b).subrange(0, (head + a).len() as int));
}

/// A prefix of a prefix is a prefix.
pub proof fn lemma_prefix_chain(a: Seq<u32>, b: Seq<u32>, c: Seq<u32>)
    requires
        a.is_prefix_of(b),
        b.is_prefix_of(c),
    ensures
        a.is_prefix_of(c),
{
    assert(a =~= c.subrange(0, a.len() as int));
}

/// A thinning stays one when more samples are offered.
pub proof fn lemma_thinning_extends(kept: Seq<u32>, offered: Seq<u32>, sample: u32)
    requires
        is_thinning(kept, offered),
    ensures
        is_thinning(kept, offered.push(sample)),
        is_thinning(kept.push(sample), offered.push(sample)),
{
    assert(offered.push(sample).drop_last() =~= offered);
    assert(kept.push(sample).drop_last() =~= kept);
}

/// A thinning is no longer than what was offered.
pub proof fn lemma_thinning_length(kept: Seq<u32>, offered: Seq<u32>)
    requires
        is_thinning(kept, offered),
    ensures
        kept.len() <= offered.len(),
    decreases offered.len(),
{
    if kept.len() > 0 {
        if kept.last() == offered.last() && is_thinning(kept.drop_last(), offered.drop_last()) {
            lemma_thinning_length(kept.drop_last(), offered.drop_last());
        } else {
            lemma_thinning_length(kept, offered.drop_last());
        }
    }
}

/// The start of a thinning is a thinning.
pub proof fn lemma_thinning_prefix(start: Seq<u32>, kept: Seq<u32>, offered: Seq<u32>)
    requires
        start.is_prefix_of(kept),
        is_thinning(kept, offered),
    ensures
        is_thinning(start, offered),
    decreases offered.len(),
{
    if start.len() > 0 {
        if kept.last() == offered.last() && is_thinning(kept.drop_last(), offered.drop_last()) {
            if start.len() == kept.len() {
                assert(start =~= kept);
            } else {
                assert(start.is_prefix_of(kept.drop_last()));
                lemma_thinning_prefix(start, kept.drop_last(), offered.drop_last());
            }
        } else {
            lemma_thinning_prefix(start, kept, offered.drop_last());
        }
    }
}

/// A run of pops finds no more samples than it has pops.
pub proof fn lemma_found_length(popped: Seq<Option<u32>>)
    ensures
        found(popped).len() <= popped.len(),
    decreases popped.len(),
{
    if popped.len() > 0 {
        lemma_found_length(popped.drop_last());
    }
}

/// Where the first `k` pops of a run each found a sample, those are the
/// first `k` samples found; and if no more than `k` were found in all, every
/// later pop found none.
pub proof fn lemma_found_first(popped: Seq<Option<u32>>, k: nat)
    requires
        k <= popped.len(),
        forall|s: int| 0 <= s < k ==> (#[trigger] popped[s]) is Some,
    ensures
        k <= found(popped).len(),
        forall|s: int| 0 <= s < k ==> #[trigger] found(popped)[s] == or_silence(popped[s]),
        found(popped).len() == k ==> forall|s: int|
            k <= s < popped.len() ==> (#[trigger] popped[s]) is None,
    decreases popped.len(),
{
    if popped.len() > k {
        let earlier = popped.drop_last();
        lemma_found_first(earlier, k);
        lemma_found_length(earlier);
        assert forall|s: int| 0 <= s < k implies #[trigger] found(popped)[s] == or_silence(
            popped[s],
        ) by {
            assert(earlier[s] == popped[s]);
        }
        if found(popped).len() == k {
            assert forall|s: int| k <= s < popped.len() implies (#[trigger] popped[s]) is None by {
                if s < popped.len() - 1 {
                    assert(earlier[s] == popped[s]);
                }
            }
        }
    } else if popped.len() > 0 {
        let earlier = popped.drop_last();
        assert forall|s: int| 0 <= s < k - 1 implies (#[trigger] earlier[s]) is Some by {
            assert(earlier[s] == popped[s]);
        }
        lemma_found_first(earlier, (k - 1) as nat);
        lemma_found_length(earlier);
        assert(popped[k - 1] is Some);
        assert forall|s: int| 0 <= s < k implies #[trigger] found(popped)[s] == or_silence(
            popped[s],
        ) by {
            if s < k - 1 {
                assert(earlier[s] == popped[s]);
                assert(found(earlier)[s] == or_silence(earlier[s]));
            }
        }
    }
}

} // verus!
