//! Scans over a row of flags: the first and the last flag that is set.

use vstd::prelude::*;

verus! {

/// No flag is set.
pub open spec fn none_set(flags: Seq<bool>) -> bool {
    forall|i: int| 0 <= i < flags.len() ==> !flags[i]
}

/// Index of the first flag that is set, if any is.
pub open spec fn first_set(flags: Seq<bool>) -> Option<int>
    decreases flags.len(),
{
    if flags.len() == 0 {
        None
    } else if flags[0] {
        Some(0)
    } else {
        match first_set(flags.drop_first()) {
            Some(i) => Some(i + 1),
            None => None,
        }
    }
}

/// Index of the last flag that is set, if any is.
pub open spec fn last_set(flags: Seq<bool>) -> Option<int>
    decreases flags.len(),
{
    if flags.len() == 0 {
        None
    } else if flags.last() {
        Some(flags.len() - 1)
    } else {
        last_set(flags.drop_last())
    }
}

/// `first_set` names a set flag with no set flag before it, and is `None`
/// only where no flag is set.
pub proof fn lemma_first_set(flags: Seq<bool>)
    ensures
        match first_set(flags) {
            Some(i) => 0 <= i < flags.len() && flags[i] && forall|j: int| 0 <= j < i ==> !flags[j],
            None => none_set(flags),
        },
    decreases flags.len(),
{
    if flags.len() > 0 && !flags[0] {
        let rest = flags.drop_first();
        lemma_first_set(rest);
        match first_set(rest) {
            Some(i) => {
                assert(flags[i + 1] == rest[i]);
                assert forall|j: int| 0 <= j < i + 1 implies !flags[j] by {
                    if j > 0 {
                        assert(flags[j] == rest[j - 1]);
                    }
                }
            },
            None => {
                assert forall|j: int| 0 <= j < flags.len() implies !flags[j] by {
                    if j > 0 {
                        assert(flags[j] == rest[j - 1]);
                    }
                }
            },
        }
    }
}

/// `last_set` names a set flag with no set flag after it, and is `None`
/// only where no flag is set.
pub proof fn lemma_last_set(flags: Seq<bool>)
    ensures
        match last_set(flags) {
            Some(i) => 0 <= i < flags.len() && flags[i] && forall|j: int|
                i < j < flags.len() ==> !flags[j],
            None => none_set(flags),
        },
    decreases flags.len(),
{
    if flags.len() > 0 && !flags.last() {
        let rest = flags.drop_last();
        lemma_last_set(rest);
        match last_set(rest) {
            Some(i) => {
                assert(flags[i] == rest[i]);
                assert forall|j: int| i < j < flags.len() implies !flags[j] by {
                    if j < rest.len() {
                        assert(flags[j] == rest[j]);
                    }
                }
            },
            None => {
                assert forall|j: int| 0 <= j < flags.len() implies !flags[j] by {
                    if j < rest.len() {
                        assert(flags[j] == rest[j]);
                    }
                }
            },
        }
    }
}

/// A set flag with no set flag before it is the first one.
pub proof fn lemma_first_set_unique(flags: Seq<bool>, i: int)
    requires
        0 <= i < flags.len(),
        flags[i],
        forall|j: int| 0 <= j < i ==> !flags[j],
    ensures
        first_set(flags) == Some(i),
{
    lemma_first_set(flags);
}

/// A set flag with no set flag after it is the last one.
pub proof fn lemma_last_set_unique(flags: Seq<bool>, i: int)
    requires
        0 <= i < flags.len(),
        flags[i],
        forall|j: int| i < j < flags.len() ==> !flags[j],
    ensures
        last_set(flags) == Some(i),
{
    lemma_last_set(flags);
}

/// Where no flag is set there is neither a first nor a last one.
pub proof fn lemma_none_set(flags: Seq<bool>)
    requires
        none_set(flags),
    ensures
        first_set(flags) is None,
        last_set(flags) is None,
{
    lemma_first_set(flags);
    lemma_last_set(flags);
}

/// Finds the first flag that is set.
pub fn first_match(flags: &[bool]) -> (hit: Option<usize>)
    ensures
        match hit {
            Some(i) => first_set(flags@) == Some(i as int),
            None => first_set(flags@) is None,
        },
{
    let mut i: usize = 0;
    while i < flags.len()
        invariant
            i <= flags.len(),
            forall|j: int| 0 <= j < i ==> !flags@[j],
        decreases flags.len() - i,
    {
        if flags[i] {
            proof {
                lemma_first_set_unique(flags@, i as int);
            }
            return Some(i);
        }
        i += 1;
    }
    proof {
        lemma_none_set(flags@);
    }
    None
}

/// Finds the last flag that is set.
pub fn last_match(flags: &[bool]) -> (hit: Option<usize>)
    ensures
        match hit {
            Some(i) => last_set(flags@) == Some(i as int),
            None => last_set(flags@) is None,
        },
{
    let mut hit: Option<usize> = None;
    let mut i: usize = 0;
    while i < flags.len()
        invariant
            i <= flags.len(),
            match hit {
                Some(k) => k < i && flags@[k as int] && forall|j: int| k < j < i ==> !flags@[j],
                None => forall|j: int| 0 <= j < i ==> !flags@[j],
            },
        decreases flags.len() - i,
    {
        if flags[i] {
            hit = Some(i);
        }
        i += 1;
    }
    proof {
        match hit {
            Some(k) => {
                lemma_last_set_unique(flags@, k as int);
            },
            None => {
                lemma_none_set(flags@);
            },
        }
    }
    hit
}

} // verus!
