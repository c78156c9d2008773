use vstd::prelude::*;
use crate::metadata::PrefixReplacement;
use crate::prefix_replacement::{
    binary_read, last_nul, nul_bytes, padded_view, trailing_at_least, unfinished_count, padded_view_from, text_offsets_fit, text_read, text_view, text_view_from,
};
use crate::search::{occurrences, occurrences_from, occurs_at, lemma_occurrences_from_shape, scan_step};

verus! {

/// Offsets at which placeholders of `plen` bytes sit side by side in a file
/// of `file_len` bytes: each lies inside the file, and each starts after the
/// previous one has ended.
pub open spec fn offsets_well_placed(offsets: Seq<usize>, plen: int, file_len: int) -> bool {
    &&& forall|k: int| 0 <= k < offsets.len() ==> #[trigger] offsets[k] + plen <= file_len
    &&& forall|i: int, j: int|
        0 <= i < j < offsets.len() ==> #[trigger] offsets[i] + plen <= #[trigger] offsets[j] && offsets[i] < offsets[j]
}

/// Whether every offset marks an occurrence of `needle` in `file`.
pub open spec fn all_occur(file: Seq<u8>, needle: Seq<u8>, offsets: Seq<usize>) -> bool {
    forall|k: int| 0 <= k < offsets.len() ==> occurs_at(file, needle, #[trigger] offsets[k] as int)
}

/// The offsets that `PrefixReplacement::from_placeholder` records are well
/// placed, and each marks an occurrence of the placeholder.
pub proof fn law_recorded_offsets_are_occurrences(file: Seq<u8>, needle: Seq<u8>)
    requires
        file.len() <= usize::MAX,
    ensures
        offsets_well_placed(occurrences(file, needle), needle.len() as int, file.len() as int),
        all_occur(file, needle, occurrences(file, needle)),
{
    let offs = occurrences(file, needle);
    lemma_occurrences_from_shape(file, needle, 0);
    assert forall|i: int, j: int| 0 <= i < j < offs.len() implies #[trigger] offs[i] + needle.len()
        <= #[trigger] offs[j] && offs[i] < offs[j] by {
        lemma_spaced(offs, scan_step(needle), i, j);
    }
}

proof fn lemma_occurrences_cover(haystack: Seq<u8>, needle: Seq<u8>, from: int, i: int)
    requires
        haystack.len() <= usize::MAX,
        needle.len() > 0,
        0 <= from <= i,
        occurs_at(haystack, needle, i),
    ensures
        exists|k: int| 0 <= k < occurrences_from(haystack, needle, from).len()
            && #[trigger] occurrences_from(haystack, needle, from)[k] <= i
            < occurrences_from(haystack, needle, from)[k] + needle.len(),
    decreases i - from,
{
    let all = occurrences_from(haystack, needle, from);
    assert(from <= haystack.len());
    if occurs_at(haystack, needle, from) {
        let rest = occurrences_from(haystack, needle, from + needle.len());
        assert(all == seq![from as usize] + rest);
        if i < from + needle.len() {
            assert(all[0] == from);
        } else {
            lemma_occurrences_cover(haystack, needle, from + needle.len(), i);
            let k = choose|k: int| 0 <= k < rest.len() && #[trigger] rest[k] <= i < rest[k] + needle.len();
            assert(all[k + 1] == rest[k]);
        }
    } else {
        assert(i != from);
        lemma_occurrences_cover(haystack, needle, from + 1, i);
        assert(all == occurrences_from(haystack, needle, from + 1));
    }
}

/// No occurrence of a non-empty placeholder in a file is missed by the
/// offsets that are recorded for it: every occurrence starts at a recorded
/// offset or inside the placeholder found at one (the scan does not overlap
/// matches).
pub proof fn law_recorded_offsets_cover_every_occurrence(file: Seq<u8>, needle: Seq<u8>, i: int)
    requires
        file.len() <= usize::MAX,
        needle.len() > 0,
        occurs_at(file, needle, i),
    ensures
        exists|k: int| 0 <= k < occurrences(file, needle).len()
            && #[trigger] occurrences(file, needle)[k] <= i < occurrences(file, needle)[k] + needle.len(),
{
    lemma_occurrences_cover(file, needle, 0, i);
    let all = occurrences_from(file, needle, 0);
    let k = choose|k: int| 0 <= k < all.len() && #[trigger] all[k] <= i < all[k] + needle.len();
    assert(occurrences(file, needle)[k] == all[k]);
}

proof fn lemma_spaced(offs: Seq<usize>, step: int, i: int, j: int)
    requires
        step >= 1,
        forall|k: int| 0 <= k < offs.len() - 1 ==> offs[k] + step <= #[trigger] offs[k + 1],
        0 <= i < j < offs.len(),
    ensures
        offs[i] + step <= offs[j],
    decreases j - i,
{
    if j > i + 1 {
        lemma_spaced(offs, step, i, j - 1);
        let j1 = j - 1;
        assert(offs[j1] + step <= offs[j1 + 1]);
    } else {
        assert(offs[i] + step <= offs[i + 1]);
    }
}

/// The length of the rewritten text from `from` on: each placeholder inside
/// the file is traded for the mount point.
proof fn lemma_text_view_from(file: Seq<u8>, offsets: Seq<usize>, plen: int, new: Seq<u8>, from: int)
    requires
        0 <= from <= file.len(),
        plen >= 0,
        offsets_well_placed(offsets, plen, file.len() as int),
        forall|k: int| 0 <= k < offsets.len() ==> from <= #[trigger] offsets[k],
    ensures
        text_view_from(file, offsets, plen, new, from).len() == file.len() - from - offsets.len() * (plen - new.len()),
        text_offsets_fit(file.len() as int, offsets, plen, from),
        all_occur(file, new, offsets) && new.len() == plen ==> text_view_from(file, offsets, plen, new, from) == file.subrange(from, file.len() as int),
    decreases offsets.len(),
{
    if offsets.len() > 0 {
        let o = offsets[0] as int;
        let rest = offsets.drop_first();
        assert(offsets_well_placed(rest, plen, file.len() as int)) by {
            assert forall|i: int, j: int| 0 <= i < j < rest.len() implies #[trigger] rest[i] + plen
                <= #[trigger] rest[j] && rest[i] < rest[j] by {
                assert(rest[i] == offsets[i + 1] && rest[j] == offsets[j + 1]);
            }
            assert forall|k: int| 0 <= k < rest.len() implies #[trigger] rest[k] + plen <= file.len() by {
                assert(rest[k] == offsets[k + 1]);
            }
        }
        assert(o + plen <= file.len());
        assert forall|k: int| 0 <= k < rest.len() implies o + plen <= #[trigger] rest[k] by {
            assert(rest[k] == offsets[k + 1]);
        }
        lemma_text_view_from(file, rest, plen, new, o + plen);
        assert(rest.len() * (plen - new.len()) + (plen - new.len()) == offsets.len() * (plen - new.len())) by (nonlinear_arith)
            requires
                rest.len() + 1 == offsets.len(),
        ;
        if all_occur(file, new, offsets) && new.len() == plen {
            assert(all_occur(file, new, rest)) by {
                assert forall|k: int| 0 <= k < rest.len() implies occurs_at(file, new, #[trigger] rest[k] as int) by {
                    assert(rest[k] == offsets[k + 1]);
                }
            }
            assert(occurs_at(file, new, o));
            assert(file.subrange(from, file.len() as int) =~= file.subrange(from, o) + file.subrange(o, o + new.len()) + file.subrange(o + plen, file.len() as int));
        }
    } else {
        if from < file.len() {
        } else {
            assert(file.subrange(from, file.len() as int) =~= Seq::<u8>::empty());
        }
    }
}

/// A text read always goes through on well-placed offsets when the mount
/// point is no longer than the placeholder and the read starts inside the
/// rewritten file, and the rewritten file is shorter than the cached one by
/// the difference in length for every placeholder.
pub proof fn law_text_view_length(placeholder: PrefixReplacement, file: Seq<u8>, mount_point: Seq<u8>)
    requires
        offsets_well_placed(placeholder.offsets@, placeholder.placeholder_bytes().len() as int, file.len() as int),
    ensures
        text_view(file, placeholder.offsets@, placeholder.placeholder_bytes().len() as int, mount_point).len()
            == file.len() - placeholder.offsets@.len() * (placeholder.placeholder_bytes().len() - mount_point.len()),
        text_offsets_fit(file.len() as int, placeholder.offsets@, placeholder.placeholder_bytes().len() as int, 0),
{
    lemma_text_view_from(file, placeholder.offsets@, placeholder.placeholder_bytes().len() as int, mount_point, 0);
}

/// Mounting at a path equal to the placeholder gives back the text file
/// unchanged, when the offsets mark the placeholder's occurrences.
pub proof fn law_text_same_prefix_is_identity(placeholder: PrefixReplacement, file: Seq<u8>)
    requires
        offsets_well_placed(placeholder.offsets@, placeholder.placeholder_bytes().len() as int, file.len() as int),
        all_occur(file, placeholder.placeholder_bytes(), placeholder.offsets@),
    ensures
        text_view(file, placeholder.offsets@, placeholder.placeholder_bytes().len() as int, placeholder.placeholder_bytes()) == file,
{
    lemma_text_view_from(file, placeholder.offsets@, placeholder.placeholder_bytes().len() as int, placeholder.placeholder_bytes(), 0);
    assert(file.subrange(0, file.len() as int) =~= file);
}

proof fn lemma_mul_succ(p: int, lc: int)
    requires
        p >= 0,
        lc >= 0,
    ensures
        (p + 1) * lc == p * lc + lc,
        p * lc >= 0,
{
    assert((p + 1) * lc == p * lc + lc) by (nonlinear_arith);
    assert(p * lc >= 0) by (nonlinear_arith)
        requires
            p >= 0,
            lc >= 0,
    ;
}

/// Reading a whole binary file through the mount gives its padded view when
/// the offsets are well placed: each placeholder is replaced by the mount
/// point, and every string that held placeholders is padded with NUL bytes
/// before its terminator (or at the end of the file), so that all other
/// bytes keep their positions.
pub proof fn law_binary_full_read_is_padded_view(placeholder: PrefixReplacement, file: Seq<u8>, mount_point: Seq<u8>)
    requires
        mount_point.len() <= placeholder.placeholder_bytes().len(),
        offsets_well_placed(placeholder.offsets@, placeholder.placeholder_bytes().len() as int, file.len() as int),
    ensures
        binary_read(placeholder, 0, file.len() as int, file, mount_point)
            == padded_view(file, placeholder.offsets@, placeholder.placeholder_bytes().len(), mount_point),
{
    law_binary_padded_view_keeps_length(placeholder, file, mount_point);
    if file.len() == 0 {
        assert(padded_view(file, placeholder.offsets@, placeholder.placeholder_bytes().len(), mount_point) =~= Seq::<u8>::empty());
    } else {
        assert(binary_read(placeholder, 0, file.len() as int, file, mount_point)
            =~= padded_view(file, placeholder.offsets@, placeholder.placeholder_bytes().len(), mount_point));
    }
}

/// Inside one string of a binary file (bytes `from..z` without NUL, ended by
/// a NUL byte at `z` or by the end of the file), the padded view is the
/// string rewritten as a text file is, then the padding of all its
/// replacements, then the terminator and the rest of the file.
proof fn lemma_string_run(
    file: Seq<u8>,
    offsets: Seq<usize>,
    plen: nat,
    new: Seq<u8>,
    from: int,
    next: int,
    pending: int,
    z: int,
    m: int,
)
    requires
        plen > 0,
        new.len() <= plen,
        0 <= from <= z <= file.len(),
        0 <= next <= m <= offsets.len(),
        pending >= 0,
        forall|i: int| from <= i < z ==> #[trigger] file[i] != 0,
        z == file.len() || file[z] == 0,
        forall|k: int| next <= k < m ==> from <= #[trigger] offsets[k] && offsets[k] + plen <= z,
        forall|a: int, b: int| next <= a < b < m ==> #[trigger] offsets[a] + plen <= #[trigger] offsets[b],
        forall|k: int| m <= k < offsets.len() ==> #[trigger] offsets[k] > z,
    ensures
        padded_view_from(file, offsets, plen, new, from, next, pending)
            == text_view_from(file.take(z), offsets.subrange(next, m), plen as int, new, from)
                + nul_bytes((pending + m - next) * (plen - new.len()))
                + (if z < file.len() { seq![0u8] + padded_view_from(file, offsets, plen, new, z + 1, m, 0) } else { seq![] }),
    decreases z - from, m - next,
{
    let body = file.take(z);
    let os = offsets.subrange(next, m);
    let lc = plen - new.len();
    if from == z {
        if next < m {
            assert(offsets[next] + plen <= z);
        }
        assert(os =~= Seq::<usize>::empty());
        assert(text_view_from(body, os, plen as int, new, from) =~= Seq::<u8>::empty());
        if z < file.len() {
            if 0 <= m < offsets.len() {
                assert(offsets[m] > z);
            }
            assert(nul_bytes(0 * lc) =~= Seq::<u8>::empty());
        }
    } else if next < m && offsets[next] == from {
        assert forall|k: int| next + 1 <= k < m implies from + plen <= #[trigger] offsets[k] by {
            assert(offsets[next] + plen <= offsets[k]);
        }
        lemma_string_run(file, offsets, plen, new, from + plen, next + 1, pending + 1, z, m);
        assert(os[0] == from);
        assert(os.drop_first() =~= offsets.subrange(next + 1, m));
        assert(body.subrange(from, from) =~= Seq::<u8>::empty());
        assert(pending + 1 + m - (next + 1) == pending + m - next);
    } else {
        assert(file[from] != 0);
        if 0 <= next < offsets.len() && offsets[next] == from {
            assert(next >= m);
            assert(offsets[next] > z);
        }
        assert forall|k: int| next <= k < m implies from + 1 <= #[trigger] offsets[k] by {
            if k > next {
                assert(offsets[next] + plen <= offsets[k]);
            }
        }
        lemma_string_run(file, offsets, plen, new, from + 1, next, pending, z, m);
        if os.len() == 0 {
            assert(body.subrange(from, z) =~= seq![file[from]] + body.subrange(from + 1, z));
            if from + 1 >= z {
                assert(body.subrange(from + 1, z) =~= Seq::<u8>::empty());
            }
        } else {
            assert(os[0] == offsets[next]);
            assert(os[0] <= body.len());
            assert(body.subrange(from, os[0] as int) =~= seq![file[from]] + body.subrange(from + 1, os[0] as int));
        }
    }
}

/// Up to the start `s` of a string (just after a NUL byte), the padded view
/// from `from` has released all its padding: it is `s - from` bytes plus
/// the padding still pending, followed by the view from `s` on.
proof fn lemma_walk_to_string(
    file: Seq<u8>,
    offsets: Seq<usize>,
    plen: nat,
    new: Seq<u8>,
    from: int,
    next: int,
    pending: int,
    s: int,
    a: int,
)
    requires
        plen > 0,
        new.len() <= plen,
        0 <= from <= s <= file.len(),
        from < s ==> file[s - 1] == 0,
        from == s ==> pending == 0,
        pending >= 0,
        0 <= next <= a <= offsets.len(),
        forall|k: int| next <= k < a ==> from <= #[trigger] offsets[k] && offsets[k] + plen <= s - 1,
        forall|i: int, j: int| next <= i < j < a ==> #[trigger] offsets[i] + plen <= #[trigger] offsets[j],
        forall|k: int| a <= k < offsets.len() ==> #[trigger] offsets[k] >= s,
    ensures
        exists|x: Seq<u8>| x.len() == s - from + pending * (plen - new.len())
            && #[trigger] padded_view_from(file, offsets, plen, new, from, next, pending) == x + padded_view_from(file, offsets, plen, new, s, a, 0),
    decreases s - from, a - next,
{
    let lc = plen - new.len();
    let here = padded_view_from(file, offsets, plen, new, from, next, pending);
    if from == s {
        if next < a {
            assert(offsets[next] + plen <= s - 1);
        }
        assert(here == Seq::<u8>::empty() + padded_view_from(file, offsets, plen, new, s, a, 0));
        assert(pending * lc == 0);
    } else if next < a && offsets[next] == from {
        assert forall|k: int| next + 1 <= k < a implies from + plen <= #[trigger] offsets[k] by {
            assert(offsets[next] + plen <= offsets[k]);
        }
        lemma_walk_to_string(file, offsets, plen, new, from + plen, next + 1, pending + 1, s, a);
        let x2 = choose|x: Seq<u8>| x.len() == s - (from + plen) + (pending + 1) * lc
            && #[trigger] padded_view_from(file, offsets, plen, new, from + plen, next + 1, pending + 1)
                == x + padded_view_from(file, offsets, plen, new, s, a, 0);
        assert((pending + 1) * lc == pending * lc + lc) by (nonlinear_arith);
        assert(here == (new + x2) + padded_view_from(file, offsets, plen, new, s, a, 0));
    } else {
        if 0 <= next < offsets.len() && offsets[next] == from {
            assert(next < a);
        }
        assert forall|k: int| next <= k < a implies from + 1 <= #[trigger] offsets[k] by {
            if k > next {
                assert(offsets[next] + plen <= offsets[k]);
            }
        }
        if file[from] == 0 {
            assert(pending * lc >= 0) by (nonlinear_arith)
                requires
                    pending >= 0,
                    lc >= 0,
            ;
            lemma_walk_to_string(file, offsets, plen, new, from + 1, next, 0, s, a);
            let x2 = choose|x: Seq<u8>| x.len() == s - (from + 1) + 0 * lc
                && #[trigger] padded_view_from(file, offsets, plen, new, from + 1, next, 0)
                    == x + padded_view_from(file, offsets, plen, new, s, a, 0);
            assert(here == (nul_bytes(pending * lc) + seq![0u8] + x2) + padded_view_from(file, offsets, plen, new, s, a, 0));
        } else {
            lemma_walk_to_string(file, offsets, plen, new, from + 1, next, pending, s, a);
            let x2 = choose|x: Seq<u8>| x.len() == s - (from + 1) + pending * lc
                && #[trigger] padded_view_from(file, offsets, plen, new, from + 1, next, pending)
                    == x + padded_view_from(file, offsets, plen, new, s, a, 0);
            assert(here == (seq![file[from]] + x2) + padded_view_from(file, offsets, plen, new, s, a, 0));
        }
    }
}

/// In a binary file only a NUL byte ends a string. Each string (the bytes
/// `s..z` after a NUL byte or the start of the file, up to the next NUL byte
/// or the end of the file), holding the placeholders `a..m`, keeps its
/// place: it is read as a text file with those placeholders would be,
/// followed by NUL padding for each of its replacements, so that its
/// terminator stays at `z`.
pub proof fn law_binary_string_is_text_then_padding(
    placeholder: PrefixReplacement,
    file: Seq<u8>,
    mount_point: Seq<u8>,
    s: int,
    z: int,
    a: int,
    m: int,
)
    requires
        placeholder.placeholder_bytes().len() > 0,
        mount_point.len() <= placeholder.placeholder_bytes().len(),
        offsets_well_placed(placeholder.offsets@, placeholder.placeholder_bytes().len() as int, file.len() as int),
        0 <= s <= z <= file.len(),
        s > 0 ==> file[s - 1] == 0,
        forall|i: int| s <= i < z ==> #[trigger] file[i] != 0,
        z == file.len() || file[z] == 0,
        0 <= a <= m <= placeholder.offsets@.len(),
        forall|k: int| 0 <= k < a ==> #[trigger] placeholder.offsets@[k] + placeholder.placeholder_bytes().len() <= s - 1,
        forall|k: int| a <= k < m ==> s <= #[trigger] placeholder.offsets@[k]
            && placeholder.offsets@[k] + placeholder.placeholder_bytes().len() <= z,
        forall|k: int| m <= k < placeholder.offsets@.len() ==> #[trigger] placeholder.offsets@[k] > z,
    ensures
        ({
            let plen = placeholder.placeholder_bytes().len() as int;
            let read = binary_read(placeholder, 0, file.len() as int, file, mount_point);
            &&& read.len() == file.len()
            &&& read.subrange(s, z) == text_view_from(file.take(z), placeholder.offsets@.subrange(a, m), plen, mount_point, s)
                + nul_bytes((m - a) * (plen - mount_point.len()))
            &&& z < file.len() ==> read[z] == 0
        }),
{
    let plen = placeholder.placeholder_bytes().len();
    let offsets = placeholder.offsets@;
    let lc = plen - mount_point.len();
    law_binary_full_read_is_padded_view(placeholder, file, mount_point);
    law_binary_padded_view_keeps_length(placeholder, file, mount_point);
    let read = binary_read(placeholder, 0, file.len() as int, file, mount_point);
    assert(read == padded_view(file, offsets, plen, mount_point));
    assert forall|k: int| a <= k < offsets.len() implies #[trigger] offsets[k] >= s by {
        if k >= m {
            assert(offsets[k] > z);
        }
    }
    lemma_walk_to_string(file, offsets, plen, mount_point, 0, 0, 0, s, a);
    let x = choose|x: Seq<u8>| x.len() == s - 0 + 0 * lc
        && #[trigger] padded_view_from(file, offsets, plen, mount_point, 0, 0, 0)
            == x + padded_view_from(file, offsets, plen, mount_point, s, a, 0);
    assert forall|i: int, j: int| a <= i < j < m implies #[trigger] offsets[i] + plen <= #[trigger] offsets[j] by {}
    lemma_string_run(file, offsets, plen, mount_point, s, a, 0, z, m);
    let os = offsets.subrange(a, m);
    let body = text_view_from(file.take(z), os, plen as int, mount_point, s) + nul_bytes((0 + m - a) * lc);
    assert(offsets_well_placed(os, plen as int, z)) by {
        assert forall|k: int| 0 <= k < os.len() implies #[trigger] os[k] + plen <= z by {
            assert(os[k] == offsets[k + a]);
        }
        assert forall|i: int, j: int| 0 <= i < j < os.len() implies #[trigger] os[i] + plen <= #[trigger] os[j]
            && os[i] < os[j] by {
            assert(os[i] == offsets[i + a] && os[j] == offsets[j + a]);
        }
    }
    assert forall|k: int| 0 <= k < os.len() implies s <= #[trigger] os[k] by {
        assert(os[k] == offsets[k + a]);
    }
    lemma_text_view_from(file.take(z), os, plen as int, mount_point, s);
    assert((m - a) * lc >= 0) by (nonlinear_arith)
        requires
            m - a >= 0,
            lc >= 0,
    ;
    assert(body.len() == z - s);
    assert(0 + m - a == m - a);
    if z < file.len() {
        let tail = seq![0u8] + padded_view_from(file, offsets, plen, mount_point, z + 1, m, 0);
        assert(read == x + body + tail);
        assert(read.subrange(s, z) =~= body);
        assert(read[z] == tail[0]);
    } else {
        assert(read == x + body + Seq::<u8>::empty());
        assert(read.subrange(s, z) =~= body);
    }
}

/// A binary read returns exactly `end - start` bytes once it starts inside
/// the file, and the bytes it reads past the end of the file are NUL bytes.
pub proof fn law_binary_read_length_and_past_end(placeholder: PrefixReplacement, start: int, end: int, file: Seq<u8>, mount_point: Seq<u8>)
    requires
        0 <= start < end,
        start < file.len(),
    ensures
        binary_read(placeholder, start, end, file, mount_point).len() == end - start,
        forall|k: int| 0 <= k < end - start && start + k >= file.len()
            ==> #[trigger] binary_read(placeholder, start, end, file, mount_point)[k] == 0,
{
}

/// A text read of part of a file gives the same bytes as reading the whole
/// file and taking that part (cut at the end of the rewritten text), and the
/// whole file reads as the cached file shortened by the difference in
/// length for every placeholder.
pub proof fn law_text_partial_read_is_slice(placeholder: PrefixReplacement, start: int, end: int, file: Seq<u8>, mount_point: Seq<u8>)
    requires
        mount_point.len() <= placeholder.placeholder_bytes().len(),
        offsets_well_placed(placeholder.offsets@, placeholder.placeholder_bytes().len() as int, file.len() as int),
        0 <= start < end,
        start < file.len(),
        start <= text_read(placeholder, 0, file.len() as int, file, mount_point).len(),
    ensures
        ({
            let whole = text_read(placeholder, 0, file.len() as int, file, mount_point);
            &&& whole.len() == file.len() - placeholder.offsets@.len() * (placeholder.placeholder_bytes().len() - mount_point.len())
            &&& text_read(placeholder, start, end, file, mount_point)
                == whole.subrange(start, if end < whole.len() { end } else { whole.len() as int })
        }),
{
    let plen = placeholder.placeholder_bytes().len() as int;
    let n = placeholder.offsets@.len() as int;
    let lc = plen - mount_point.len();
    law_text_view_length(placeholder, file, mount_point);
    assert(n * lc >= 0) by (nonlinear_arith)
        requires
            n >= 0,
            lc >= 0,
    ;
    let view = text_view(file, placeholder.offsets@, plen, mount_point);
    assert(text_read(placeholder, 0, file.len() as int, file, mount_point) =~= view);
}

proof fn lemma_last_nul_is_last(bytes: Seq<u8>)
    ensures
        (exists|j: int| 0 <= j < bytes.len() && bytes[j] == 0) ==> {
            &&& 0 <= last_nul(bytes) < bytes.len()
            &&& bytes[last_nul(bytes)] == 0
            &&& forall|j: int| last_nul(bytes) < j < bytes.len() ==> bytes[j] != 0
        },
        (forall|j: int| 0 <= j < bytes.len() ==> bytes[j] != 0) ==> last_nul(bytes) == 0,
    decreases bytes.len(),
{
    if bytes.len() > 0 && bytes.last() != 0 {
        let rest = bytes.drop_last();
        lemma_last_nul_is_last(rest);
        if exists|j: int| 0 <= j < bytes.len() && bytes[j] == 0 {
            let j = choose|j: int| 0 <= j < bytes.len() && bytes[j] == 0;
            assert(rest[j] == 0);
            let t = last_nul(rest);
            assert(last_nul(bytes) == t);
            assert(bytes[t] == rest[t]);
            assert forall|i: int| t < i < bytes.len() implies bytes[i] != 0 by {
                if i < rest.len() {
                    assert(bytes[i] == rest[i]);
                }
            }
        }
        if forall|j: int| 0 <= j < bytes.len() ==> bytes[j] != 0 {
            assert forall|j: int| 0 <= j < rest.len() implies rest[j] != 0 by {
                assert(rest[j] == bytes[j]);
            }
        }
    }
}

proof fn lemma_trailing_at_least(offsets: Seq<usize>, bound: int)
    ensures
        trailing_at_least(offsets, bound) <= offsets.len(),
        forall|k: int| offsets.len() - trailing_at_least(offsets, bound) <= k < offsets.len() ==> #[trigger] offsets[k] >= bound,
        trailing_at_least(offsets, bound) < offsets.len()
            ==> offsets[offsets.len() - trailing_at_least(offsets, bound) - 1] < bound,
    decreases offsets.len(),
{
    if offsets.len() > 0 {
        let rest = offsets.drop_last();
        lemma_trailing_at_least(rest, bound);
        if offsets.last() >= bound {
            assert forall|k: int| offsets.len() - trailing_at_least(offsets, bound) <= k < offsets.len()
                implies #[trigger] offsets[k] >= bound by {
                if k < offsets.len() - 1 {
                    assert(offsets[k] == rest[k]);
                }
            }
            if trailing_at_least(offsets, bound) < offsets.len() {
                let i = offsets.len() - trailing_at_least(offsets, bound) - 1;
                assert(offsets[i] == rest[i]);
            }
        }
    }
}

/// The placeholders counted as unfinished before a read position are the
/// last ones of the list, back to the first one that comes before the last
/// NUL byte of the file so far (position 0 when there is none): every
/// counted offset is at or after that NUL byte, the one before them is
/// before it, and no NUL byte follows it.
pub proof fn law_unfinished_are_the_trailing_offsets(file_before: Seq<u8>, offsets: Seq<usize>)
    ensures
        ({
            let t = last_nul(file_before);
            let c = unfinished_count(file_before, offsets);
            &&& (exists|j: int| 0 <= j < file_before.len() && file_before[j] == 0) ==> {
                &&& 0 <= t < file_before.len()
                &&& file_before[t] == 0
                &&& forall|j: int| t < j < file_before.len() ==> file_before[j] != 0
            }
            &&& (forall|j: int| 0 <= j < file_before.len() ==> file_before[j] != 0) ==> t == 0
            &&& c <= offsets.len()
            &&& forall|k: int| offsets.len() - c <= k < offsets.len() ==> #[trigger] offsets[k] >= t
            &&& c < offsets.len() ==> offsets[offsets.len() - c - 1] < t
        }),
{
    lemma_last_nul_is_last(file_before);
    lemma_trailing_at_least(offsets, last_nul(file_before));
}

/// A binary read of part of a file gives the same bytes as reading the
/// whole file and taking that part, wherever the part starts (inside a
/// replaced placeholder or its padding too).
pub proof fn law_binary_partial_read_is_slice(placeholder: PrefixReplacement, start: int, end: int, file: Seq<u8>, mount_point: Seq<u8>)
    requires
        0 <= start < end <= file.len(),
    ensures
        binary_read(placeholder, start, end, file, mount_point)
            == binary_read(placeholder, 0, file.len() as int, file, mount_point).subrange(start, end),
{
    assert(binary_read(placeholder, start, end, file, mount_point)
        =~= binary_read(placeholder, 0, file.len() as int, file, mount_point).subrange(start, end));
}

proof fn lemma_padded_view_from(file: Seq<u8>, offsets: Seq<usize>, plen: nat, new: Seq<u8>, from: int, next: int, pending: int)
    requires
        0 <= from <= file.len(),
        0 <= next <= offsets.len(),
        pending >= 0,
        new.len() <= plen,
        offsets_well_placed(offsets, plen as int, file.len() as int),
        forall|k: int| next <= k < offsets.len() ==> #[trigger] offsets[k] >= from,
    ensures
        padded_view_from(file, offsets, plen, new, from, next, pending).len() == file.len() - from + pending * (plen - new.len()),
        new.len() == plen && all_occur(file, new, offsets) ==> padded_view_from(file, offsets, plen, new, from, next, pending)
            == file.subrange(from, file.len() as int),
    decreases
            (if from < file.len() { file.len() - from } else { 0 }),
            (if next < offsets.len() { offsets.len() - next } else { 0 }),
{
    let lc = plen - new.len();
    lemma_mul_succ(pending, lc);
    let n = offsets.len() as int;
    if !(0 <= from < file.len()) {
        assert(file.subrange(from, file.len() as int) =~= Seq::<u8>::empty());
        if new.len() == plen {
            assert(pending * lc == 0) by (nonlinear_arith)
                requires
                    lc == 0,
            ;
        }
    } else if 0 <= next < n && offsets[next] == from {
        assert forall|k: int| next + 1 <= k < n implies #[trigger] offsets[k] >= from + plen by {
            assert(offsets[next] + plen <= offsets[k]);
        }
        assert(offsets[next] + plen <= file.len());
        lemma_padded_view_from(file, offsets, plen, new, from + plen, next + 1, pending + 1);
        if new.len() == plen && all_occur(file, new, offsets) {
            assert(occurs_at(file, new, offsets[next] as int));
            assert(file.subrange(from, file.len() as int) =~= new + file.subrange(from + plen, file.len() as int));
        }
    } else if file[from] == 0 {
        assert forall|k: int| next <= k < n implies #[trigger] offsets[k] >= from + 1 by {
            assert(offsets[k] >= offsets[next]);
        }
        lemma_padded_view_from(file, offsets, plen, new, from + 1, next, 0);
        assert(0 * lc == 0);
        if new.len() == plen && all_occur(file, new, offsets) {
            assert(pending * lc == 0) by (nonlinear_arith)
                requires
                    lc == 0,
            ;
            assert(nul_bytes(0) =~= Seq::<u8>::empty());
            assert(file.subrange(from, file.len() as int) =~= seq![0u8] + file.subrange(from + 1, file.len() as int));
        }
    } else {
        assert forall|k: int| next <= k < n implies #[trigger] offsets[k] >= from + 1 by {
            assert(offsets[k] >= offsets[next]);
        }
        lemma_padded_view_from(file, offsets, plen, new, from + 1, next, pending);
        if new.len() == plen && all_occur(file, new, offsets) {
            assert(file.subrange(from, file.len() as int) =~= seq![file[from]] + file.subrange(from + 1, file.len() as int));
        }
    }
}

/// A binary file read whole through the mount keeps its length, and
/// mounting at a path equal to the placeholder gives it back unchanged when
/// the offsets mark the placeholder's occurrences.
pub proof fn law_binary_padded_view_keeps_length(placeholder: PrefixReplacement, file: Seq<u8>, mount_point: Seq<u8>)
    requires
        mount_point.len() <= placeholder.placeholder_bytes().len(),
        offsets_well_placed(placeholder.offsets@, placeholder.placeholder_bytes().len() as int, file.len() as int),
    ensures
        padded_view(file, placeholder.offsets@, placeholder.placeholder_bytes().len(), mount_point).len() == file.len(),
        mount_point == placeholder.placeholder_bytes() && all_occur(file, mount_point, placeholder.offsets@)
            ==> padded_view(file, placeholder.offsets@, placeholder.placeholder_bytes().len(), mount_point) == file,
{
    lemma_padded_view_from(file, placeholder.offsets@, placeholder.placeholder_bytes().len(), mount_point, 0, 0, 0);
    assert(0 * (placeholder.placeholder_bytes().len() - mount_point.len()) == 0);
    assert(file.subrange(0, file.len() as int) =~= file);
}

} // verus!
