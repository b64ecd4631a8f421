//! Properties that relate several of the library's functions.
use vstd::prelude::*;

use crate::archive::{byte_at, children_of, chunk_content, directory_steps, item_steps, step_for, subtree_steps, ExtractStep};
use crate::path::parent_of;
use crate::format::{header_from_bytes, ArchiveIndex, ChunkRef, Entry, EntryKind, Header, HEADER_SIZE};
use crate::validate::{entry_ok, index_ok, payload_before, raw_before, raw_total, stored_before, stored_total};
use vstd::arithmetic::div_mod::lemma_fundamental_div_mod_converse;
use vstd::arithmetic::mul::lemma_mul_is_distributive_add_other_way;

verus! {

/// The bytes of the first `n` chunks, one after another.
pub open spec fn concat_chunks(parts: Seq<Seq<u8>>, n: int) -> Seq<u8>
    decreases n,
{
    if n <= 0 {
        Seq::<u8>::empty()
    } else {
        concat_chunks(parts, n - 1) + parts[n - 1]
    }
}

proof fn lemma_concat_len(parts: Seq<Seq<u8>>, cs: int, n: int)
    requires
        cs > 0,
        0 <= n <= parts.len(),
        forall|k: int| 0 <= k < n ==> (#[trigger] parts[k]).len() == cs,
    ensures
        concat_chunks(parts, n).len() == n * cs,
    decreases n,
{
    if n > 0 {
        lemma_concat_len(parts, cs, n - 1);
        lemma_mul_is_distributive_add_other_way(cs, n - 1, 1);
    } else {
        assert(0 * cs == 0) by (nonlinear_arith);
    }
}

/// Byte `p` of a file, read chunk by chunk as `RangeRead` does, is byte `p`
/// of the file's chunks laid end to end: every chunk but the last holds
/// `cs` bytes, and the last at most `cs`.
pub proof fn law_read_gives_file_bytes(parts: Seq<Seq<u8>>, cs: int, n: int, p: int)
    requires
        cs > 0,
        0 < n <= parts.len(),
        forall|k: int| 0 <= k < n - 1 ==> (#[trigger] parts[k]).len() == cs,
        parts[n - 1].len() <= cs,
        0 <= p < concat_chunks(parts, n).len(),
    ensures
        byte_at(parts, cs, p) == concat_chunks(parts, n)[p],
    decreases n,
{
    lemma_concat_len(parts, cs, n - 1);
    let before = concat_chunks(parts, n - 1);
    if p < before.len() {
        if n - 1 > 0 {
            law_read_gives_file_bytes(parts, cs, n - 1, p);
        }
    } else {
        lemma_fundamental_div_mod_converse(p, cs, n - 1, p - (n - 1) * cs);
    }
}

/// The bytes of `d` that chunk `k` holds: the `raw_len` bytes after those
/// of the chunks before it.
pub open spec fn chunk_slice(chunks: Seq<ChunkRef>, d: Seq<u8>, k: int) -> Seq<u8> {
    d.subrange(raw_before(chunks, k), raw_before(chunks, k) + chunks[k].raw_len)
}

proof fn lemma_raw_before_bounds(chunks: Seq<ChunkRef>, k: int, j: int)
    requires
        0 <= k <= j <= chunks.len(),
        forall|i: int| 0 <= i < chunks.len() ==> (#[trigger] chunks[i]).raw_len > 0,
    ensures
        0 <= raw_before(chunks, k) <= raw_before(chunks, j),
    decreases j,
{
    if k < j {
        lemma_raw_before_bounds(chunks, k, j - 1);
    } else if k > 0 {
        lemma_raw_before_bounds(chunks, k - 1, k - 1);
    }
}

proof fn lemma_concat_slices(chunks: Seq<ChunkRef>, d: Seq<u8>, k: int)
    requires
        0 <= k <= chunks.len(),
        forall|i: int| 0 <= i < chunks.len() ==> (#[trigger] chunks[i]).raw_len > 0,
        raw_total(chunks) == d.len(),
    ensures
        concat_chunks(Seq::new(chunks.len(), |i: int| chunk_slice(chunks, d, i)), k)
            == d.subrange(0, raw_before(chunks, k)),
    decreases k,
{
    let parts = Seq::new(chunks.len(), |i: int| chunk_slice(chunks, d, i));
    lemma_raw_before_bounds(chunks, 0, k);
    lemma_raw_before_bounds(chunks, k, chunks.len() as int);
    if k > 0 {
        lemma_concat_slices(chunks, d, k - 1);
        lemma_raw_before_bounds(chunks, k - 1, k);
        let x = raw_before(chunks, k - 1);
        let y = raw_before(chunks, k);
        assert(parts[k - 1] == d.subrange(x, y));
        assert(d.subrange(0, x) + d.subrange(x, y) =~= d.subrange(0, y));
    } else {
        assert(d.subrange(0, 0) =~= Seq::<u8>::empty());
    }
}

/// What was packed reads back: for a file of bytes `d` whose chunks (each of
/// at most `cs` bytes, all full but the last, holding `d.len()` bytes in
/// all) were stored as `data`, each decoding to its own bytes of `d`, byte
/// `p` of a read (`byte_at` of the decoded chunks, what `RangeRead` gives)
/// is byte `p` of `d`. `FileChunker` and `write_chunk` hand out such chunks
/// and bytes, and a valid index holds such chunks.
pub proof fn law_packed_file_reads_back(
    chunks: Seq<ChunkRef>,
    data: Seq<Seq<u8>>,
    d: Seq<u8>,
    cs: int,
    p: int,
)
    requires
        cs > 0,
        data.len() == chunks.len(),
        forall|k: int| 0 <= k < chunks.len() ==> 0 < (#[trigger] chunks[k]).raw_len <= cs,
        forall|k: int| 0 <= k < chunks.len() - 1 ==> (#[trigger] chunks[k]).raw_len == cs,
        raw_total(chunks) == d.len(),
        forall|k: int| 0 <= k < chunks.len() ==> chunk_content(#[trigger] chunks[k], data[k]) == chunk_slice(chunks, d, k),
        0 <= p < d.len(),
    ensures
        byte_at(Seq::new(chunks.len(), |k: int| chunk_content(chunks[k], data[k])), cs, p) == d[p],
{
    let n = chunks.len() as int;
    let parts = Seq::new(chunks.len(), |i: int| chunk_slice(chunks, d, i));
    let decoded = Seq::new(chunks.len(), |k: int| chunk_content(chunks[k], data[k]));
    assert(decoded =~= parts);
    lemma_concat_slices(chunks, d, n);
    assert(d.subrange(0, d.len() as int) =~= d);
    assert(n > 0) by {
        if n == 0 {
            assert(raw_total(chunks) == 0);
        }
    }
    assert forall|k: int| 0 <= k < n implies (#[trigger] parts[k]).len() == chunks[k].raw_len by {
        lemma_raw_before_bounds(chunks, k, k + 1);
        lemma_raw_before_bounds(chunks, k + 1, n);
    }
    law_read_gives_file_bytes(parts, cs, n, p);
}

/// The chunks of the entries before `k`, in entry order, then chunk order.
pub open spec fn chunks_before(entries: Seq<Entry>, k: int) -> Seq<ChunkRef>
    decreases k,
{
    if k <= 0 {
        Seq::<ChunkRef>::empty()
    } else {
        chunks_before(entries, k - 1) + entries[k - 1].chunks@
    }
}

proof fn lemma_stored_before_agree(a: Seq<ChunkRef>, b: Seq<ChunkRef>, m: int)
    requires
        0 <= m <= a.len(),
        m <= b.len(),
        forall|i: int| 0 <= i < m ==> a[i] == b[i],
    ensures
        stored_before(a, m) == stored_before(b, m),
    decreases m,
{
    if m > 0 {
        lemma_stored_before_agree(a, b, m - 1);
    }
}

proof fn lemma_stored_before_concat(a: Seq<ChunkRef>, b: Seq<ChunkRef>, j: int)
    requires
        0 <= j <= b.len(),
    ensures
        stored_before(a + b, a.len() + j) == stored_before(a, a.len() as int) + stored_before(b, j),
    decreases j,
{
    if j > 0 {
        lemma_stored_before_concat(a, b, j - 1);
        assert((a + b)[a.len() + j - 1] == b[j - 1]);
    } else {
        lemma_stored_before_agree(a + b, a, a.len() as int);
    }
}

#[verifier::spinoff_prover]
#[verifier::rlimit(40)]
proof fn lemma_flat_layout(entries: Seq<Entry>, h: Header, k: int)
    requires
        0 <= k <= entries.len(),
        forall|i: int| 0 <= i < k ==> #[trigger] entry_ok(entries, i, h),
    ensures
        stored_total(chunks_before(entries, k)) == payload_before(entries, k),
        forall|m: int| 0 <= m < chunks_before(entries, k).len() ==> {
            &&& (#[trigger] chunks_before(entries, k)[m]).offset == HEADER_SIZE + stored_before(chunks_before(entries, k), m)
            &&& chunks_before(entries, k)[m].stored_len > 0
        },
    decreases k,
{
    if k > 0 {
        lemma_flat_layout(entries, h, k - 1);
        let a = chunks_before(entries, k - 1);
        let c = entries[k - 1].chunks@;
        let all = chunks_before(entries, k);
        assert(all == a + c);
        assert(entry_ok(entries, k - 1, h));
        lemma_stored_before_concat(a, c, c.len() as int);
        assert forall|m: int| 0 <= m < all.len() implies {
            &&& (#[trigger] all[m]).offset == HEADER_SIZE + stored_before(all, m)
            &&& all[m].stored_len > 0
        } by {
            if m < a.len() {
                assert(all[m] == a[m]);
                lemma_stored_before_agree(all, a, m);
            } else {
                let j = m - a.len();
                assert(all[m] == c[j]);
                lemma_stored_before_concat(a, c, j);
                assert(entries[k - 1].kind == EntryKind::File);
                assert(crate::validate::chunk_shape_ok(c[j], j, c.len() as int, h.chunk_size));
            }
        }
    }
}

/// The payload of a well-formed index, chunk after chunk in entry order,
/// starts right after the header, leaves no gap and overlaps nothing, and
/// ends where the index starts.
pub proof fn law_payload_is_contiguous(index: ArchiveIndex, h: Header)
    requires
        index_ok(index, h),
    ensures
        ({
            let all = chunks_before(index.entries@, index.entries@.len() as int);
            &&& forall|m: int| 0 <= m < all.len() ==> {
                &&& (#[trigger] all[m]).offset == HEADER_SIZE + stored_before(all, m)
                &&& all[m].stored_len > 0
            }
            &&& HEADER_SIZE + stored_total(all) == h.index_offset
        }),
{
    let entries = index.entries@;
    lemma_flat_layout(entries, h, entries.len() as int);
}

/// Opening reads only the header and the index. Two archive files of one
/// length whose bytes differ only in the payload (between the header and
/// the index offset the first one's header records) give `read_header` the
/// same header bytes, hence the same header, and `decode_index` the same
/// index bytes; `Archive::new` then gets the same arguments, so both opens
/// succeed or fail alike and agree on the entries and the chunk size.
pub proof fn law_open_ignores_payload(b1: Seq<u8>, b2: Seq<u8>, h: Header)
    requires
        b1.len() == b2.len(),
        b1.len() >= HEADER_SIZE,
        header_from_bytes(b1.subrange(0, HEADER_SIZE as int)) == Some(h),
        h.index_offset <= b1.len(),
        forall|i: int|
            0 <= i < b1.len() && !(HEADER_SIZE <= i < h.index_offset) ==> #[trigger] b1[i] == b2[i],
    ensures
        b2.subrange(0, HEADER_SIZE as int) == b1.subrange(0, HEADER_SIZE as int),
        header_from_bytes(b2.subrange(0, HEADER_SIZE as int)) == Some(h),
        b2.subrange(h.index_offset as int, b2.len() as int) == b1.subrange(h.index_offset as int, b1.len() as int),
{
    assert(b2.subrange(0, HEADER_SIZE as int) =~= b1.subrange(0, HEADER_SIZE as int)) by {
        assert forall|i: int| 0 <= i < HEADER_SIZE implies b2.subrange(0, HEADER_SIZE as int)[i]
            == b1.subrange(0, HEADER_SIZE as int)[i] by {
            assert(b1[i] == b2[i]);
        }
    }
    let o = h.index_offset as int;
    assert(b2.subrange(o, b2.len() as int) =~= b1.subrange(o, b1.len() as int)) by {
        assert forall|i: int| 0 <= i < b1.len() - o implies b2.subrange(o, b2.len() as int)[i]
            == b1.subrange(o, b1.len() as int)[i] by {
            assert(b1[o + i] == b2[o + i]);
        }
    }
}

/// A directory's listing (`children` returns `children_of` of the key) is
/// the index's entries filtered by their parent alone: every entry whose
/// parent is the key is listed, whatever its kind (symbolic links too), in
/// index order, and every listed entry has that parent.
pub proof fn law_children_are_every_entry_under_parent(entries: Seq<Entry>, key: Seq<char>)
    ensures
        children_of(entries, key) == entries.filter(|e: Entry| parent_of(e.path@) == key),
        forall|i: int| 0 <= i < entries.len() && parent_of(entries[i].path@) == key
            ==> children_of(entries, key).contains(#[trigger] entries[i]),
        forall|j: int| 0 <= j < children_of(entries, key).len()
            ==> parent_of((#[trigger] children_of(entries, key)[j]).path@) == key,
    decreases entries.len(),
{
    broadcast use vstd::seq_lib::group_filter_ensures;

    let pred = |e: Entry| parent_of(e.path@) == key;
    reveal(Seq::filter);
    if entries.len() > 0 {
        law_children_are_every_entry_under_parent(entries.drop_last(), key);
    }
    assert(children_of(entries, key) == entries.filter(pred));
    assert forall|i: int| 0 <= i < entries.len() && parent_of(entries[i].path@) == key
        implies children_of(entries, key).contains(#[trigger] entries[i]) by {
        entries.lemma_filter_contains(pred, i);
    }
    assert forall|j: int| 0 <= j < children_of(entries, key).len()
        implies parent_of((#[trigger] children_of(entries, key)[j]).path@) == key by {
        entries.lemma_filter_pred(pred, j);
    }
}

/// `p` lies below the directory `d`, at any depth: it begins with `d`
/// followed by a `/`.
pub open spec fn lies_below(p: Seq<char>, d: Seq<char>) -> bool {
    &&& p.len() > d.len()
    &&& p[d.len() as int] == '/'
    &&& forall|t: int| 0 <= t < d.len() ==> p[t] == d[t]
}

proof fn lemma_prefix_slash(p: Seq<char>, d: Seq<char>)
    ensures
        crate::archive::starts_with(p, d + seq!['/']) <==> lies_below(p, d),
{
    let q = d + seq!['/'];
    if lies_below(p, d) {
        assert(p.take(q.len() as int) =~= q);
    }
    if crate::archive::starts_with(p, q) {
        assert forall|t: int| 0 <= t < d.len() implies p[t] == d[t] by {
            assert(p.take(q.len() as int)[t] == q[t]);
        }
        assert(p.take(q.len() as int)[d.len() as int] == q[d.len() as int]);
    }
}

proof fn lemma_subtree(entries: Seq<Entry>, d: Seq<char>, k: int)
    requires
        0 <= k <= entries.len(),
    ensures
        forall|j: int| 0 <= j < k && lies_below(entries[j].path@, d)
            ==> subtree_steps(entries, d + seq!['/'], k).contains(#[trigger] step_for(j, entries[j].kind)),
        forall|m: int| 0 <= m < subtree_steps(entries, d + seq!['/'], k).len() ==> exists|j: int|
            0 <= j < k && lies_below(entries[j].path@, d)
                && #[trigger] subtree_steps(entries, d + seq!['/'], k)[m] == step_for(j, entries[j].kind),
    decreases k,
{
    if k > 0 {
        lemma_subtree(entries, d, k - 1);
        lemma_prefix_slash(entries[k - 1].path@, d);
        let before = subtree_steps(entries, d + seq!['/'], k - 1);
        let now = subtree_steps(entries, d + seq!['/'], k);
        assert forall|j: int| 0 <= j < k && lies_below(entries[j].path@, d)
            implies now.contains(#[trigger] step_for(j, entries[j].kind)) by {
            if j == k - 1 {
                assert(now[now.len() - 1] == step_for(j, entries[j].kind));
            } else {
                assert(before.contains(step_for(j, entries[j].kind)));
                let m = choose|m: int| 0 <= m < before.len() && before[m] == step_for(j, entries[j].kind);
                assert(now[m] == before[m]);
            }
        }
        assert forall|m: int| 0 <= m < now.len() implies exists|j: int|
            0 <= j < k && lies_below(entries[j].path@, d) && #[trigger] now[m] == step_for(j, entries[j].kind) by {
            if m < before.len() {
                assert(now[m] == before[m]);
                let j = choose|j: int| 0 <= j < k - 1 && lies_below(entries[j].path@, d)
                    && #[trigger] before[m] == step_for(j, entries[j].kind);
                assert(0 <= j < k && lies_below(entries[j].path@, d) && now[m] == step_for(j, entries[j].kind));
            } else {
                assert(now[m] == step_for(k - 1, entries[k - 1].kind));
            }
        }
    }
}

/// Extracting a directory takes everything below it, at any depth: the
/// steps that follow its own `CreateDir` in `path_extraction_plan` hold a
/// step for every entry whose path begins with the directory's path and a
/// `/`, and a step for no other entry.
pub proof fn law_subtree_holds_every_descendant(entries: Seq<Entry>, d: Seq<char>)
    ensures
        forall|j: int| 0 <= j < entries.len() && lies_below(entries[j].path@, d)
            ==> subtree_steps(entries, d + seq!['/'], entries.len() as int).contains(
                #[trigger] step_for(j, entries[j].kind),
            ),
        forall|m: int| 0 <= m < subtree_steps(entries, d + seq!['/'], entries.len() as int).len()
            ==> exists|j: int| 0 <= j < entries.len() && lies_below(entries[j].path@, d)
                && #[trigger] subtree_steps(entries, d + seq!['/'], entries.len() as int)[m] == step_for(j, entries[j].kind),
{
    lemma_subtree(entries, d, entries.len() as int);
}

proof fn lemma_directory_steps(entries: Seq<Entry>, k: int)
    requires
        0 <= k <= entries.len(),
    ensures
        forall|j: int| 0 <= j < k && entries[j].kind == EntryKind::Directory
            ==> #[trigger] directory_steps(entries, k).contains(ExtractStep::CreateDir(j as usize)),
        forall|m: int| 0 <= m < directory_steps(entries, k).len() ==> exists|j: int|
            0 <= j < k && entries[j].kind == EntryKind::Directory
                && #[trigger] directory_steps(entries, k)[m] == ExtractStep::CreateDir(j as usize),
    decreases k,
{
    if k > 0 {
        lemma_directory_steps(entries, k - 1);
        let before = directory_steps(entries, k - 1);
        let now = directory_steps(entries, k);
        assert forall|j: int| 0 <= j < k && entries[j].kind == EntryKind::Directory
            implies #[trigger] now.contains(ExtractStep::CreateDir(j as usize)) by {
            if j == k - 1 {
                assert(now[now.len() - 1] == ExtractStep::CreateDir(j as usize));
            } else {
                assert(before.contains(ExtractStep::CreateDir(j as usize)));
                let m = choose|m: int| 0 <= m < before.len() && before[m] == ExtractStep::CreateDir(j as usize);
                assert(now[m] == before[m]);
            }
        }
        assert forall|m: int| 0 <= m < now.len() implies exists|j: int|
            0 <= j < k && entries[j].kind == EntryKind::Directory && #[trigger] now[m] == ExtractStep::CreateDir(j as usize) by {
            if m < before.len() {
                assert(now[m] == before[m]);
                let j = choose|j: int| 0 <= j < k - 1 && entries[j].kind == EntryKind::Directory
                    && #[trigger] before[m] == ExtractStep::CreateDir(j as usize);
                assert(0 <= j < k && now[m] == ExtractStep::CreateDir(j as usize));
            } else {
                assert(now[m] == ExtractStep::CreateDir((k - 1) as usize));
            }
        }
    }
}

proof fn lemma_item_steps(entries: Seq<Entry>, k: int)
    requires
        0 <= k <= entries.len(),
    ensures
        forall|j: int| 0 <= j < k && entries[j].kind == EntryKind::File
            ==> #[trigger] item_steps(entries, k).contains(ExtractStep::WriteFile(j as usize)),
        forall|j: int| 0 <= j < k && entries[j].kind == EntryKind::Symlink
            ==> #[trigger] item_steps(entries, k).contains(ExtractStep::MakeSymlink(j as usize)),
        forall|m: int| 0 <= m < item_steps(entries, k).len() ==> exists|j: int|
            0 <= j < k && entries[j].kind != EntryKind::Directory
                && #[trigger] item_steps(entries, k)[m] == step_for(j, entries[j].kind),
        forall|m: int| 0 <= m < item_steps(entries, k).len() ==> !(#[trigger] item_steps(entries, k)[m] is CreateDir),
    decreases k,
{
    if k > 0 {
        lemma_item_steps(entries, k - 1);
        let before = item_steps(entries, k - 1);
        let now = item_steps(entries, k);
        assert forall|j: int| 0 <= j < k && entries[j].kind == EntryKind::File
            implies #[trigger] now.contains(ExtractStep::WriteFile(j as usize)) by {
            if j == k - 1 {
                assert(now[now.len() - 1] == ExtractStep::WriteFile(j as usize));
            } else {
                assert(before.contains(ExtractStep::WriteFile(j as usize)));
                let m = choose|m: int| 0 <= m < before.len() && before[m] == ExtractStep::WriteFile(j as usize);
                assert(now[m] == before[m]);
            }
        }
        assert forall|j: int| 0 <= j < k && entries[j].kind == EntryKind::Symlink
            implies #[trigger] now.contains(ExtractStep::MakeSymlink(j as usize)) by {
            if j == k - 1 {
                assert(now[now.len() - 1] == ExtractStep::MakeSymlink(j as usize));
            } else {
                assert(before.contains(ExtractStep::MakeSymlink(j as usize)));
                let m = choose|m: int| 0 <= m < before.len() && before[m] == ExtractStep::MakeSymlink(j as usize);
                assert(now[m] == before[m]);
            }
        }
        assert forall|m: int| 0 <= m < now.len() implies exists|j: int|
            0 <= j < k && entries[j].kind != EntryKind::Directory && #[trigger] now[m] == step_for(j, entries[j].kind) by {
            if m < before.len() {
                assert(now[m] == before[m]);
                let j = choose|j: int| 0 <= j < k - 1 && entries[j].kind != EntryKind::Directory
                    && #[trigger] before[m] == step_for(j, entries[j].kind);
                assert(0 <= j < k && now[m] == step_for(j, entries[j].kind));
            } else {
                assert(now[m] == step_for(k - 1, entries[k - 1].kind));
            }
        }
        assert forall|m: int| 0 <= m < now.len() implies !(#[trigger] now[m] is CreateDir) by {
            if m < before.len() {
                assert(now[m] == before[m]);
            }
        }
    }
}

/// Extracting the whole archive (`extraction_plan`) creates every directory
/// before anything else, writes every regular file, makes every symbolic
/// link, and takes no step that is not one of these for some entry.
pub proof fn law_extraction_takes_every_entry(entries: Seq<Entry>)
    ensures
        ({
            let n = entries.len() as int;
            let plan = directory_steps(entries, n) + item_steps(entries, n);
            &&& forall|j: int| 0 <= j < n && entries[j].kind == EntryKind::Directory
                ==> #[trigger] plan.contains(ExtractStep::CreateDir(j as usize))
            &&& forall|j: int| 0 <= j < n && entries[j].kind == EntryKind::File
                ==> #[trigger] plan.contains(ExtractStep::WriteFile(j as usize))
            &&& forall|j: int| 0 <= j < n && entries[j].kind == EntryKind::Symlink
                ==> #[trigger] plan.contains(ExtractStep::MakeSymlink(j as usize))
            &&& forall|m: int| 0 <= m < plan.len() ==> exists|j: int|
                0 <= j < n && #[trigger] plan[m] == step_for(j, entries[j].kind)
            &&& forall|m1: int, m2: int| 0 <= m1 < m2 < plan.len() && (#[trigger] plan[m2]) is CreateDir
                ==> (#[trigger] plan[m1]) is CreateDir
        }),
{
    let n = entries.len() as int;
    lemma_directory_steps(entries, n);
    lemma_item_steps(entries, n);
    let d = directory_steps(entries, n);
    let it = item_steps(entries, n);
    let plan = d + it;
    assert forall|j: int| 0 <= j < n && entries[j].kind == EntryKind::Directory
        implies #[trigger] plan.contains(ExtractStep::CreateDir(j as usize)) by {
        assert(d.contains(ExtractStep::CreateDir(j as usize)));
        let m = choose|m: int| 0 <= m < d.len() && d[m] == ExtractStep::CreateDir(j as usize);
        assert(plan[m] == d[m]);
    }
    assert forall|j: int| 0 <= j < n && entries[j].kind == EntryKind::File
        implies #[trigger] plan.contains(ExtractStep::WriteFile(j as usize)) by {
        assert(it.contains(ExtractStep::WriteFile(j as usize)));
        let m = choose|m: int| 0 <= m < it.len() && it[m] == ExtractStep::WriteFile(j as usize);
        assert(plan[d.len() + m] == it[m]);
    }
    assert forall|j: int| 0 <= j < n && entries[j].kind == EntryKind::Symlink
        implies #[trigger] plan.contains(ExtractStep::MakeSymlink(j as usize)) by {
        assert(it.contains(ExtractStep::MakeSymlink(j as usize)));
        let m = choose|m: int| 0 <= m < it.len() && it[m] == ExtractStep::MakeSymlink(j as usize);
        assert(plan[d.len() + m] == it[m]);
    }
    assert forall|m: int| 0 <= m < plan.len() implies exists|j: int|
        0 <= j < n && #[trigger] plan[m] == step_for(j, entries[j].kind) by {
        if m < d.len() {
            assert(plan[m] == d[m]);
            let j = choose|j: int| 0 <= j < n && entries[j].kind == EntryKind::Directory
                && #[trigger] d[m] == ExtractStep::CreateDir(j as usize);
            assert(plan[m] == step_for(j, entries[j].kind));
        } else {
            assert(plan[m] == it[m - d.len()]);
            let j = choose|j: int| 0 <= j < n && entries[j].kind != EntryKind::Directory
                && #[trigger] it[m - d.len()] == step_for(j, entries[j].kind);
            assert(plan[m] == step_for(j, entries[j].kind));
        }
    }
    assert forall|m1: int, m2: int| 0 <= m1 < m2 < plan.len() && (#[trigger] plan[m2]) is CreateDir
        implies (#[trigger] plan[m1]) is CreateDir by {
        if m2 >= d.len() {
            assert(plan[m2] == it[m2 - d.len()]);
        }
        assert(plan[m1] == d[m1]);
        let j = choose|j: int| 0 <= j < n && entries[j].kind == EntryKind::Directory
            && #[trigger] d[m1] == ExtractStep::CreateDir(j as usize);
    }
}

} // verus!
