use vstd::prelude::*;

verus! {

/// Whether `needle` occurs in `haystack` starting at byte `i`.
pub open spec fn occurs_at(haystack: Seq<u8>, needle: Seq<u8>, i: int) -> bool {
    &&& 0 <= i
    &&& i + needle.len() <= haystack.len()
    &&& haystack.subrange(i, i + needle.len()) == needle
}

/// How far a left-to-right scan moves on after a match: the needle's length,
/// or one byte for an empty needle (which matches at every position).
pub open spec fn scan_step(needle: Seq<u8>) -> int {
    if needle.len() == 0 {
        1
    } else {
        needle.len() as int
    }
}

/// The non-overlapping occurrences of `needle` in `haystack` found by scanning
/// from byte `from` to the end: each match is reported and the scan resumes
/// right after it.
pub open spec fn occurrences_from(haystack: Seq<u8>, needle: Seq<u8>, from: int) -> Seq<usize>
    decreases haystack.len() + 1 - from,
{
    if from < 0 || from > haystack.len() {
        seq![]
    } else if occurs_at(haystack, needle, from) {
        seq![from as usize] + occurrences_from(haystack, needle, from + scan_step(needle))
    } else {
        occurrences_from(haystack, needle, from + 1)
    }
}

/// The non-overlapping occurrences of `needle` in the whole of `haystack`.
pub open spec fn occurrences(haystack: Seq<u8>, needle: Seq<u8>) -> Seq<usize> {
    occurrences_from(haystack, needle, 0)
}

/// `memchr::memmem::find_iter`, collected: the start of every non-overlapping
/// occurrence of `needle` in `haystack`, leftmost first, the scan resuming
/// after each match (one byte further for an empty needle, which thus matches
/// at every position up to and including the haystack's length).
#[verifier::external_body]
pub(crate) fn find_occurrences(haystack: &[u8], needle: &[u8]) -> (offsets: Vec<usize>)
    ensures
        offsets@ == occurrences(haystack@, needle@),
{
    memchr::memmem::find_iter(haystack, needle).collect()
}

/// `memchr::memmem::rfind`: the start of the last occurrence of a non-empty
/// `needle` in `haystack`, or `None` when it does not occur.
#[verifier::external_body]
pub(crate) fn rfind(haystack: &[u8], needle: &[u8]) -> (found: Option<usize>)
    requires
        needle@.len() > 0,
    ensures
        match found {
            Some(i) => occurs_at(haystack@, needle@, i as int) && forall|j: int|
                i < j ==> !occurs_at(haystack@, needle@, j),
            None => forall|j: int| !occurs_at(haystack@, needle@, j),
        },
{
    memchr::memmem::rfind(haystack, needle)
}

/// Every occurrence reported by a scan from `from` lies at or after `from`,
/// really is an occurrence, and the reported positions are increasing and at
/// least one needle length apart.
pub proof fn lemma_occurrences_from_shape(haystack: Seq<u8>, needle: Seq<u8>, from: int)
    requires
        haystack.len() <= usize::MAX,
    ensures
        forall|k: int|
            0 <= k < occurrences_from(haystack, needle, from).len() ==> {
                let o = #[trigger] occurrences_from(haystack, needle, from)[k];
                &&& from <= o
                &&& occurs_at(haystack, needle, o as int)
            },
        forall|k: int|
            0 <= k < occurrences_from(haystack, needle, from).len() - 1 ==>
                occurrences_from(haystack, needle, from)[k] + scan_step(needle)
                    <= #[trigger] occurrences_from(haystack, needle, from)[k + 1],
    decreases haystack.len() + 1 - from,
{
    let all = occurrences_from(haystack, needle, from);
    if from < 0 || from > haystack.len() {
    } else if occurs_at(haystack, needle, from) {
        let next = from + scan_step(needle);
        lemma_occurrences_from_shape(haystack, needle, next);
        let rest = occurrences_from(haystack, needle, next);
        assert(all == seq![from as usize] + rest);
        assert forall|k: int| 0 <= k < all.len() - 1 implies all[k] + scan_step(needle)
            <= #[trigger] all[k + 1] by {
            assert(all[k + 1] == rest[k]);
            if k > 0 {
                assert(all[k] == rest[k - 1]);
                let k1 = k - 1;
                assert(rest[k1] + scan_step(needle) <= rest[k1 + 1]);
            } else {
                assert(next <= rest[0]);
                assert(all[0] as int == from);
            }
        }
        assert forall|k: int| 0 <= k < all.len() implies {
            let o = #[trigger] all[k];
            &&& from <= o
            &&& occurs_at(haystack, needle, o as int)
        } by {
            if k > 0 {
                assert(all[k] == rest[k - 1]);
                assert(next <= rest[k - 1]);
            }
        }
    } else {
        lemma_occurrences_from_shape(haystack, needle, from + 1);
        assert(all == occurrences_from(haystack, needle, from + 1));
    }
}

} // verus!
