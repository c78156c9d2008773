use vstd::prelude::*;
use crate::metadata::PrefixReplacement;
use crate::search::{occurs_at, rfind};
use crate::replacement_laws::{law_binary_padded_view_keeps_length, offsets_well_placed};

verus! {

// ---------------------------------------------------------------------------
// Text files: the placeholder is replaced and the file gets shorter.
// ---------------------------------------------------------------------------

/// The text file as seen through the mount, from byte `from` of the cached file
/// on: the offsets are taken in order; an offset past the end of the file is
/// skipped, and every other one copies the bytes from `from` up to the
/// offset, then `new` in place of the `plen` placeholder bytes, and goes on
/// after the placeholder.
pub open spec fn text_view_from(file: Seq<u8>, offsets: Seq<usize>, plen: int, new: Seq<u8>, from: int) -> Seq<u8>
    decreases offsets.len(),
{
    if offsets.len() == 0 {
        if from < file.len() {
            file.subrange(from, file.len() as int)
        } else {
            seq![]
        }
    } else if offsets[0] > file.len() {
        text_view_from(file, offsets.drop_first(), plen, new, from)
    } else {
        file.subrange(from, offsets[0] as int) + new + text_view_from(
            file,
            offsets.drop_first(),
            plen,
            new,
            offsets[0] + plen,
        )
    }
}

/// The whole text file as seen through the mount.
pub open spec fn text_view(file: Seq<u8>, offsets: Seq<usize>, plen: int, new: Seq<u8>) -> Seq<u8> {
    text_view_from(file, offsets, plen, new, 0)
}

/// Whether the offsets inside the file can be spliced in order from byte
/// `from`: none of them starts before the end of the previous placeholder.
pub open spec fn text_offsets_fit(file_len: int, offsets: Seq<usize>, plen: int, from: int) -> bool
    decreases offsets.len(),
{
    if offsets.len() == 0 {
        true
    } else if offsets[0] > file_len {
        text_offsets_fit(file_len, offsets.drop_first(), plen, from)
    } else {
        from <= offsets[0] && text_offsets_fit(file_len, offsets.drop_first(), plen, offsets[0] + plen)
    }
}

/// Whether a text read of the range `start..end` of `file` with this
/// replacement and this mount point is answered (rather than aborted): the
/// range is empty or starts past the file, or the mount point is no longer
/// than the placeholder, the offsets can be spliced in order, `start` lies
/// within the rewritten file, and the lengths fit in `usize`.
pub open spec fn text_read_answered(placeholder: PrefixReplacement, start: int, end: int, file: Seq<u8>, mount_point: Seq<u8>) -> bool {
    let plen = placeholder.placeholder_bytes().len() as int;
    ||| start >= file.len()
    ||| end <= start
    ||| {
        &&& mount_point.len() <= plen
        &&& text_offsets_fit(file.len() as int, placeholder.offsets@, plen, 0)
        &&& start <= text_view(file, placeholder.offsets@, plen, mount_point).len()
        &&& file.len() + plen <= usize::MAX
    }
}

/// The result of a text read of the range `start..end` of the rewritten
/// file, cut at its end: empty when `start` is past the end of the cached
/// file or the range is empty.
pub open spec fn text_read(placeholder: PrefixReplacement, start: int, end: int, file: Seq<u8>, mount_point: Seq<u8>) -> Seq<u8> {
    if start >= file.len() || end <= start {
        seq![]
    } else {
        let view = text_view(
            file,
            placeholder.offsets@,
            placeholder.placeholder_bytes().len() as int,
            mount_point,
        );
        let stop = if end < view.len() {
            end
        } else {
            view.len() as int
        };
        view.subrange(start, stop)
    }
}

/// Appends `src[lo..hi]` to `out`.
fn push_range(out: &mut Vec<u8>, src: &[u8], lo: usize, hi: usize)
    requires
        lo <= hi <= src@.len(),
    ensures
        final(out)@ == old(out)@ + src@.subrange(lo as int, hi as int),
{
    let mut i = lo;
    while i < hi
        invariant
            lo <= i <= hi <= src@.len(),
            out@ == old(out)@ + src@.subrange(lo as int, i as int),
        decreases hi - i,
    {
        out.push(src[i]);
        assert(src@.subrange(lo as int, i + 1) == src@.subrange(lo as int, i as int) + seq![src@[i as int]]);
        i += 1;
    }
}

/// Reads the range `start..end` of a text file as the mount shows it:
/// every placeholder occurrence is replaced by the mount point, so the file
/// gets shorter. The range is cut at the end of the rewritten file, and the
/// result is empty when `start` is past the end of the cached file or the
/// range is empty. `_size` is not used.
pub fn text_prefix_replacement(
    placeholder: &PrefixReplacement,
    start: usize,
    end: usize,
    _size: usize,
    file: &[u8],
    mount_point: &[u8],
) -> (out: Vec<u8>)
    requires
        text_read_answered(*placeholder, start as int, end as int, file@, mount_point@),
    ensures
        out@ == text_read(*placeholder, start as int, end as int, file@, mount_point@),
{
    if start >= file.len() || end <= start {
        return Vec::new();
    }
    let old_prefix = placeholder.placeholder.as_str().as_bytes();
    let new_prefix = mount_point;
    let offsets = &placeholder.offsets;
    let ghost plen = old_prefix@.len() as int;
    let ghost full = text_view(file@, offsets@, plen, new_prefix@);

    let mut replaced: Vec<u8> = Vec::with_capacity(file.len());
    let mut last_pos: usize = 0;
    let mut k: usize = 0;
    assert(offsets@.skip(0) == offsets@);
    while k < offsets.len()
        invariant
            k <= offsets@.len(),
            plen == old_prefix@.len(),
            file@.len() + plen <= usize::MAX,
            replaced@ + text_view_from(file@, offsets@.skip(k as int), plen, new_prefix@, last_pos as int) == full,
            text_offsets_fit(file@.len() as int, offsets@.skip(k as int), plen, last_pos as int),
        decreases offsets@.len() - k,
    {
        let offset = offsets[k];
        assert(offsets@.skip(k as int).drop_first() == offsets@.skip(k + 1));
        if offset <= file.len() {
            let ghost before = replaced@;
            push_range(&mut replaced, file, last_pos, offset);
            let mut j: usize = 0;
            while j < new_prefix.len()
                invariant
                    j <= new_prefix@.len(),
                    replaced@ == before + file@.subrange(last_pos as int, offset as int) + new_prefix@.subrange(0, j as int),
                decreases new_prefix@.len() - j,
            {
                replaced.push(new_prefix[j]);
                assert(new_prefix@.subrange(0, j + 1) == new_prefix@.subrange(0, j as int) + seq![new_prefix@[j as int]]);
                j += 1;
            }
            assert(new_prefix@.subrange(0, new_prefix@.len() as int) == new_prefix@);
            last_pos = offset + old_prefix.len();
        }
        k += 1;
    }
    if last_pos < file.len() {
        push_range(&mut replaced, file, last_pos, file.len());
    }
    assert(replaced@ == full);

    let stop = if end < replaced.len() { end } else { replaced.len() };
    let mut out: Vec<u8> = Vec::new();
    let mut i = start;
    while i < stop
        invariant
            start <= stop <= replaced@.len(),
            start <= i <= stop,
            out@ == replaced@.subrange(start as int, i as int),
        decreases stop - i,
    {
        out.push(replaced[i]);
        assert(replaced@.subrange(start as int, i + 1) == replaced@.subrange(start as int, i as int) + seq![replaced@[i as int]]);
        i += 1;
    }
    out
}

// ---------------------------------------------------------------------------
// Placeholders that a read starting in the middle of a file has passed.
// ---------------------------------------------------------------------------

/// The position of the last NUL byte in `bytes`, or 0 when there is none.
pub open spec fn last_nul(bytes: Seq<u8>) -> int
    decreases bytes.len(),
{
    if bytes.len() == 0 {
        0
    } else if bytes.last() == 0 {
        bytes.len() - 1
    } else {
        last_nul(bytes.drop_last())
    }
}

/// How many offsets at the end of `offsets` are at least `bound`, counting
/// back from the last one until one is below `bound`.
pub open spec fn trailing_at_least(offsets: Seq<usize>, bound: int) -> nat
    decreases offsets.len(),
{
    if offsets.len() == 0 {
        0
    } else if offsets.last() >= bound {
        1 + trailing_at_least(offsets.drop_last(), bound)
    } else {
        0
    }
}

/// The number of placeholders before a read position whose C string has not
/// ended yet: the offsets from the end that are not before the last NUL byte
/// of the file before that position.
pub open spec fn unfinished_count(file_before: Seq<u8>, offsets: Seq<usize>) -> nat {
    trailing_at_least(offsets, last_nul(file_before))
}

proof fn lemma_last_nul(bytes: Seq<u8>, i: int)
    requires
        0 <= i < bytes.len(),
        bytes[i] == 0,
        forall|j: int| i < j < bytes.len() ==> bytes[j] != 0,
    ensures
        last_nul(bytes) == i,
    decreases bytes.len(),
{
    if bytes.last() != 0 {
        lemma_last_nul(bytes.drop_last(), i);
    }
}

proof fn lemma_last_nul_none(bytes: Seq<u8>)
    requires
        forall|j: int| 0 <= j < bytes.len() ==> bytes[j] != 0,
    ensures
        last_nul(bytes) == 0,
    decreases bytes.len(),
{
    if bytes.len() > 0 {
        lemma_last_nul_none(bytes.drop_last());
    }
}

/// Counts the placeholders at the end of `offsets` whose C string was not
/// yet closed by a NUL byte in `file_before`: the offsets from the last one
/// back that are not before the last NUL byte (position 0 when there is
/// none).
pub fn find_unfinished_replacements(file_before: Vec<u8>, offsets: Vec<usize>) -> (count: usize)
    requires
        offsets@.len() > 0,
    ensures
        count == unfinished_count(file_before@, offsets@),
{
    let nul: [u8; 1] = [0u8];
    let found = rfind(file_before.as_slice(), nul.as_slice());
    let last_nul_byte = match found {
        Some(last_nul_byte) => last_nul_byte,
        None => 0,
    };
    proof {
        let bytes = file_before@;
        assert(nul@ == seq![0u8]);
        assert forall|j: int| 0 <= j < bytes.len() && bytes[j] == 0 implies occurs_at(bytes, nul@, j) by {
            assert(bytes.subrange(j, j + 1) =~= nul@);
        }
        match found {
            Some(i) => {
                assert(bytes.subrange(i as int, i + 1)[0] == bytes[i as int]);
                lemma_last_nul(bytes, i as int);
            },
            None => {
                lemma_last_nul_none(bytes);
            },
        }
    }
    let ghost t = last_nul_byte as int;
    let n = offsets.len();
    if offsets[n - 1] < last_nul_byte {
        // The last NUL byte comes after the last placeholder: every string is closed.
        return 0;
    }
    let mut count: usize = 0;
    let mut k = n;
    assert(offsets@.take(n as int) == offsets@);
    while k > 0
        invariant
            k <= n == offsets@.len(),
            count == n - k,
            t == last_nul(file_before@),
            t == last_nul_byte,
            count + trailing_at_least(offsets@.take(k as int), t) == trailing_at_least(offsets@, t),
        decreases k,
    {
        let offset = offsets[k - 1];
        assert(offsets@.take(k as int).drop_last() == offsets@.take(k - 1));
        assert(offsets@.take(k as int).last() == offset);
        assert(trailing_at_least(offsets@.take(k as int), t) == if offset >= t {
            1 + trailing_at_least(offsets@.take(k - 1), t)
        } else {
            0
        });
        if offset >= last_nul_byte {
            count += 1;
        } else {
            return count;
        }
        k -= 1;
    }
    count
}

// ---------------------------------------------------------------------------
// Binary files: the placeholder is replaced inside NUL-terminated strings,
// and each string is padded with NUL bytes so the file keeps its length.
// ---------------------------------------------------------------------------

/// `n` NUL bytes (none when `n` is not positive).
pub open spec fn nul_bytes(n: int) -> Seq<u8> {
    Seq::new(if n > 0 { n as nat } else { 0 }, |i: int| 0u8)
}

/// A binary file as the mount shows it, from byte `from` on, where the
/// placeholder at offset `next` is the next one to come and `pending`
/// replacements of the current C string are still to be padded: a
/// placeholder is replaced by `new`; at a NUL byte, the string ends and the
/// bytes the replacements removed come back as NUL bytes before the
/// terminator; at the end of the file they come back as NUL bytes there.
pub open spec fn padded_view_from(
    file: Seq<u8>,
    offsets: Seq<usize>,
    plen: nat,
    new: Seq<u8>,
    from: int,
    next: int,
    pending: int,
) -> Seq<u8>
    decreases
            (if from < file.len() { file.len() - from } else { 0 }),
            (if next < offsets.len() { offsets.len() - next } else { 0 }),
{
    if !(0 <= from < file.len()) {
        nul_bytes(pending * (plen - new.len()))
    } else if 0 <= next < offsets.len() && offsets[next] == from {
        new + padded_view_from(file, offsets, plen, new, from + plen, next + 1, pending + 1)
    } else if file[from] == 0 {
        nul_bytes(pending * (plen - new.len())) + seq![0u8] + padded_view_from(file, offsets, plen, new, from + 1, next, 0)
    } else {
        seq![file[from]] + padded_view_from(file, offsets, plen, new, from + 1, next, pending)
    }
}

/// The whole binary file as the mount shows it.
pub open spec fn padded_view(file: Seq<u8>, offsets: Seq<usize>, plen: nat, new: Seq<u8>) -> Seq<u8> {
    padded_view_from(file, offsets, plen, new, 0, 0, 0)
}

/// Byte `i` of a file of `file_len` bytes whose padded view is `view`: the
/// view's byte inside the file, and a NUL byte past the view or the file.
pub open spec fn binary_byte(view: Seq<u8>, file_len: int, i: int) -> u8 {
    if 0 <= i < view.len() && i < file_len {
        view[i]
    } else {
        0
    }
}

/// The result of a binary read of the range `start..end`: those bytes of the
/// file as the mount shows it (NUL bytes past its end), or nothing when the
/// range is empty or starts past the end of the file.
pub open spec fn binary_read(placeholder: PrefixReplacement, start: int, end: int, file: Seq<u8>, mount_point: Seq<u8>) -> Seq<u8> {
    if start >= end || start >= file.len() {
        seq![]
    } else {
        let view = padded_view(file, placeholder.offsets@, placeholder.placeholder_bytes().len(), mount_point);
        Seq::new((end - start) as nat, |k: int| binary_byte(view, file.len() as int, start + k))
    }
}

proof fn lemma_nul_bytes_add(a: int, b: int)
    requires
        a >= 0,
        b >= 0,
    ensures
        nul_bytes(a) + nul_bytes(b) == nul_bytes(a + b),
{
    assert(nul_bytes(a) + nul_bytes(b) =~= nul_bytes(a + b));
}

/// Appends `n` NUL bytes to `out`.
fn push_nuls(out: &mut Vec<u8>, n: usize)
    ensures
        final(out)@ == old(out)@ + nul_bytes(n as int),
{
    let mut i: usize = 0;
    while i < n
        invariant
            i <= n,
            out@ == old(out)@ + nul_bytes(i as int),
        decreases n - i,
    {
        out.push(0u8);
        proof {
            lemma_nul_bytes_add(i as int, 1);
            assert(nul_bytes(1) =~= seq![0u8]);
        }
        i += 1;
    }
}

/// The padded view of a binary file, computed from its start until it holds
/// at least `limit` bytes or the whole view is done.
fn padded_prefix(placeholder: &PrefixReplacement, file: &[u8], mount_point: &[u8], limit: usize) -> (out: Vec<u8>)
    requires
        mount_point@.len() <= placeholder.placeholder_bytes().len(),
    ensures
        ({
            let view = padded_view(file@, placeholder.offsets@, placeholder.placeholder_bytes().len(), mount_point@);
            &&& out@.len() <= view.len()
            &&& out@ == view.take(out@.len() as int)
            &&& out@.len() >= limit || out@ == view
        }),
{
    let offsets = &placeholder.offsets;
    let plen = placeholder.placeholder.as_str().as_bytes().len();
    let new_prefix = mount_point;
    let lc = plen - new_prefix.len();
    let flen = file.len();
    let n = offsets.len();
    let ghost pl: nat = plen as nat;
    let ghost view = padded_view(file@, offsets@, pl, new_prefix@);
    let mut out: Vec<u8> = Vec::new();
    let mut from: usize = 0;
    let mut next: usize = 0;
    let mut pad: usize = 0;
    let ghost mut pending: int = 0;
    assert(out@ + padded_view_from(file@, offsets@, pl, new_prefix@, 0, 0, 0) =~= view);
    while from < flen && out.len() < limit
        invariant
            flen == file@.len(),
            n == offsets@.len(),
            pl == placeholder.placeholder_bytes().len(),
            plen == pl,
            lc == plen - new_prefix@.len(),
            new_prefix@.len() <= plen,
            from <= flen,
            next <= n,
            pending >= 0,
            pad == pending * lc,
            pad <= from,
            view == padded_view(file@, offsets@, pl, new_prefix@),
            out@ + padded_view_from(file@, offsets@, pl, new_prefix@, from as int, next as int, pending) == view,
        decreases flen - from, n - next,
    {
        let ghost rest_before = padded_view_from(file@, offsets@, pl, new_prefix@, from as int, next as int, pending);
        proof {
            assert((pending + 1) * lc == pending * lc + lc) by (nonlinear_arith);
        }
        if next < n && offsets[next] == from {
            let ghost before = out@;
            let mut j: usize = 0;
            while j < new_prefix.len()
                invariant
                    j <= new_prefix@.len(),
                    out@ == before + new_prefix@.take(j as int),
                decreases new_prefix@.len() - j,
            {
                out.push(new_prefix[j]);
                assert(new_prefix@.take(j + 1) == new_prefix@.take(j as int).push(new_prefix@[j as int]));
                j += 1;
            }
            assert(new_prefix@.take(new_prefix@.len() as int) == new_prefix@);
            if plen >= flen - from {
                // The placeholder reaches the end of the file: the rest is the padding.
                push_nuls(&mut out, pad);
                push_nuls(&mut out, lc);
                proof {
                    lemma_nul_bytes_add(pad as int, lc as int);
                    assert(padded_view_from(file@, offsets@, pl, new_prefix@, flen as int, next + 1, 0) =~= Seq::<u8>::empty());
                    assert(rest_before == new_prefix@ + padded_view_from(file@, offsets@, pl, new_prefix@, from + pl, next + 1, pending + 1));
                    assert(padded_view_from(file@, offsets@, pl, new_prefix@, from + pl, next + 1, pending + 1)
                        == nul_bytes((pending + 1) * (pl - new_prefix@.len())));
                    assert(rest_before == new_prefix@ + nul_bytes((pending + 1) * lc));
                    assert(out@ + padded_view_from(file@, offsets@, pl, new_prefix@, flen as int, next + 1, 0) =~= view);
                }
                from = flen;
                pad = 0;
                proof {
                    pending = 0;
                }
            } else {
                from = from + plen;
                pad = pad + lc;
                proof {
                    pending = pending + 1;
                }
            }
            next = next + 1;
        } else if file[from] == 0 {
            push_nuls(&mut out, pad);
            out.push(0u8);
            proof {
                assert(rest_before == nul_bytes(pending * lc) + seq![0u8]
                    + padded_view_from(file@, offsets@, pl, new_prefix@, from + 1, next as int, 0));
                pending = 0;
            }
            from = from + 1;
            pad = 0;
        } else {
            out.push(file[from]);
            from = from + 1;
        }
    }
    if from >= flen {
        push_nuls(&mut out, pad);
        assert(padded_view_from(file@, offsets@, pl, new_prefix@, from as int, next as int, pending) == nul_bytes(pending * lc));
    }
    out
}

/// Reads the range `start..end` of a binary file as the mount shows it: in
/// every NUL-terminated string the placeholder is replaced by the mount
/// point and the string is padded with NUL bytes before its terminator (or
/// at the end of the file), so that the file keeps its length. The result is
/// the range of the whole file's view, with NUL bytes past the end of the
/// file, and is empty when the range is empty or starts past the file; with
/// the placeholder's occurrences as offsets it is exactly a slice of that
/// view. `_size` is not used.
pub fn binary_prefix_replacement(
    placeholder: &PrefixReplacement,
    start: usize,
    end: usize,
    _size: usize,
    file: &[u8],
    mount_point: &[u8],
) -> (out: Vec<u8>)
    requires
        mount_point@.len() <= placeholder.placeholder_bytes().len(),
    ensures
        out@ == binary_read(*placeholder, start as int, end as int, file@, mount_point@),
        start < end <= file@.len() && offsets_well_placed(placeholder.offsets@, placeholder.placeholder_bytes().len() as int, file@.len() as int)
            ==> out@ == padded_view(file@, placeholder.offsets@, placeholder.placeholder_bytes().len(), mount_point@).subrange(start as int, end as int),
{
    if start >= end || start >= file.len() {
        return Vec::new();
    }
    let view = padded_prefix(placeholder, file, mount_point, end);
    let ghost whole = padded_view(file@, placeholder.offsets@, placeholder.placeholder_bytes().len(), mount_point@);
    let ghost target = binary_read(*placeholder, start as int, end as int, file@, mount_point@);
    let mut out: Vec<u8> = Vec::new();
    let mut i = start;
    while i < end
        invariant
            start <= i <= end,
            start < file@.len(),
            view@.len() <= whole.len(),
            view@ == whole.take(view@.len() as int),
            view@.len() >= end || view@ == whole,
            target == binary_read(*placeholder, start as int, end as int, file@, mount_point@),
            target.len() == end - start,
            forall|k: int| 0 <= k < end - start ==> #[trigger] target[k] == binary_byte(whole, file@.len() as int, start + k),
            out@ == target.take(i - start),
        decreases end - i,
    {
        let byte = if i < view.len() && i < file.len() { view[i] } else { 0u8 };
        assert(byte == binary_byte(whole, file@.len() as int, i as int));
        out.push(byte);
        assert(target.take(i + 1 - start) == target.take(i - start).push(target[i - start]));
        i += 1;
    }
    assert(target.take(end - start) == target);
    proof {
        if end <= file@.len() && offsets_well_placed(placeholder.offsets@, placeholder.placeholder_bytes().len() as int, file@.len() as int) {
            law_binary_padded_view_keeps_length(*placeholder, file@, mount_point@);
            assert(target =~= whole.subrange(start as int, end as int));
        }
    }
    out
}

} // verus!
