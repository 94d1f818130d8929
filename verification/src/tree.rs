//! The patch tree: the orchestrator that composes the backing store with the
//! compressed patch journal and its cursor. A write snapshots the bytes it
//! overwrites, mutates the region, truncates any redoable tail and appends
//! the encoded patch; revert and apply walk the cursor back and forth.

use crate::codec::{
    decode_patch, encode_patch, lemma_codec_round_trip, patch_wf, raw_of, xz_of, Patch,
    PatchModel,
};
use crate::store::{
    lemma_splice_frame, lemma_splice_len, lemma_splice_self, lemma_splice_splice, splice, Store,
};
use crate::StoreError;
use vstd::prelude::*;
use vstd::slice::slice_to_vec;

verus! {

/// The mathematical state of a patch tree: the region's bytes, the decoded
/// journal, and the cursor that separates applied history from redoable
/// history.
#[verifier::ext_equal]
pub ghost struct TreeModel {
    pub bytes: Seq<u8>,
    pub hist: Seq<PatchModel>,
    pub cursor: int,
}

/// A patch that lies within a region of `size` bytes.
pub open spec fn patch_fits(p: PatchModel, size: int) -> bool {
    &&& patch_wf(p)
    &&& p.off + p.old_bytes.len() <= size
}

/// One write step: snapshot the overwritten bytes, splice the new bytes into
/// the region, discard the redoable tail, append the patch, advance the
/// cursor.
pub open spec fn spec_write(t: TreeModel, off: int, data: Seq<u8>) -> TreeModel
    recommends
        0 <= off,
        off + data.len() <= t.bytes.len(),
{
    let p = PatchModel {
        off,
        old_bytes: t.bytes.subrange(off, off + data.len() as int),
        new_bytes: data,
    };
    TreeModel {
        bytes: splice(t.bytes, off, data),
        hist: t.hist.take(t.cursor).push(p),
        cursor: t.cursor + 1,
    }
}

/// One revert step: restore the old bytes of the patch before the cursor and
/// step the cursor back; with nothing applied, a no-op.
pub open spec fn spec_revert(t: TreeModel) -> TreeModel {
    if t.cursor <= 0 {
        t
    } else {
        let p = t.hist[t.cursor - 1];
        TreeModel { bytes: splice(t.bytes, p.off, p.old_bytes), hist: t.hist, cursor: t.cursor - 1 }
    }
}

/// One apply (redo) step: write the new bytes of the patch at the cursor and
/// advance it; with nothing redoable, a no-op.
pub open spec fn spec_apply(t: TreeModel) -> TreeModel {
    if t.cursor >= t.hist.len() {
        t
    } else {
        let p = t.hist[t.cursor];
        TreeModel { bytes: splice(t.bytes, p.off, p.new_bytes), hist: t.hist, cursor: t.cursor + 1 }
    }
}

/// A versioned byte region: a fixed-size mapped store plus an in-process
/// journal of compressed patches and the undo/redo cursor. The journal is
/// not persisted: history ends with the orchestrator.
pub struct ChronoPatchTree {
    store: Store,
    patches: Vec<Vec<u8>>,
    cursor: usize,
    hist: Ghost<Seq<PatchModel>>,
}

impl View for ChronoPatchTree {
    type V = TreeModel;

    closed spec fn view(&self) -> TreeModel {
        TreeModel { bytes: self.store@, hist: self.hist@, cursor: self.cursor as int }
    }
}

impl ChronoPatchTree {
    /// The tree's internal invariant: the cursor stays inside the journal,
    /// every stored blob is the encoding of its decoded counterpart, and
    /// every recorded patch lies within the region.
    pub closed spec fn wf(&self) -> bool {
        &&& self.cursor <= self.patches@.len()
        &&& self.hist@.len() == self.patches@.len()
        &&& forall|i: int|
            0 <= i < self.patches@.len() ==> (#[trigger] self.patches@[i])@ == xz_of(
                raw_of(self.hist@[i]),
            )
        &&& forall|i: int|
            0 <= i < self.hist@.len() ==> patch_fits(
                #[trigger] self.hist@[i],
                self.store@.len() as int,
            )
    }

    /// A well-formed tree's model keeps its cursor inside the journal and
    /// every journal entry inside the region.
    pub proof fn lemma_wf_model(&self)
        requires
            self.wf(),
        ensures
            0 <= self@.cursor <= self@.hist.len(),
            forall|i: int|
                0 <= i < self@.hist.len() ==> patch_fits(
                    #[trigger] self@.hist[i],
                    self@.bytes.len() as int,
                ),
    {
    }

    /// Opens a fresh anonymous region of exactly `size` zeroed bytes with an
    /// empty journal. A zero size is refused; a mapping failure is reported.
    pub fn create(size: usize) -> (r: Result<ChronoPatchTree, StoreError>)
        ensures
            size == 0 <==> r == Err::<ChronoPatchTree, StoreError>(StoreError::InvalidSize),
            r is Ok ==> r->Ok_0.wf(),
            r is Ok ==> r->Ok_0@.cursor == 0 && r->Ok_0@.hist.len() == 0,
            r is Ok ==> r->Ok_0@.bytes.len() == size,
            r is Ok ==> forall|i: int| 0 <= i < size ==> r->Ok_0@.bytes[i] == 0u8,
    {
        match Store::create(size) {
            Ok(s) => Ok(
                ChronoPatchTree {
                    store: s,
                    patches: Vec::new(),
                    cursor: 0,
                    hist: Ghost(Seq::empty()),
                },
            ),
            Err(e) => Err(e),
        }
    }

    /// Wraps a store the host already opened (typically file-backed), with an
    /// empty journal.
    pub fn from_store(store: Store) -> (r: ChronoPatchTree)
        ensures
            r.wf(),
            r@.cursor == 0 && r@.hist.len() == 0,
            r@.bytes == store@,
    {
        ChronoPatchTree { store, patches: Vec::new(), cursor: 0, hist: Ghost(Seq::empty()) }
    }

    /// The fixed byte length of the region.
    pub fn size(&self) -> (r: usize)
        ensures
            r == self@.bytes.len(),
    {
        self.store.size()
    }

    /// The cursor: how many journal entries are currently applied.
    pub fn cursor(&self) -> (r: usize)
        ensures
            r == self@.cursor,
    {
        self.cursor
    }

    /// How many entries the journal holds, applied and redoable together.
    pub fn journal_len(&self) -> (r: usize)
        requires
            self.wf(),
        ensures
            r == self@.hist.len(),
    {
        self.patches.len()
    }

    /// Returns a copy of the requested range, or nothing when the range
    /// reaches past the end of the region.
    pub fn read(&self, offset: usize, len: usize) -> (r: Option<Vec<u8>>)
        ensures
            r is Some <==> offset + len <= self@.bytes.len(),
            r is Some ==> r->0@ == self@.bytes.subrange(
                offset as int,
                offset as int + len as int,
            ),
    {
        self.store.read(offset, len)
    }

    /// Writes `data` at `offset`: the overwritten bytes are snapshotted into
    /// a new journal entry, any redoable tail is discarded for good, and the
    /// cursor lands at the journal's end. A range past the end of the region
    /// leaves the tree untouched and reports failure.
    pub fn write(&mut self, offset: usize, data: &Vec<u8>) -> (ok: bool)
        requires
            old(self).wf(),
            24 + 2 * data@.len() <= usize::MAX as int,
        ensures
            final (self).wf(),
            ok <==> offset + data@.len() <= old(self)@.bytes.len(),
            ok ==> final (self)@ == spec_write(old(self)@, offset as int, data@),
            ok ==> final (self)@.cursor == final (self)@.hist.len(),
            !ok ==> final (self)@ == old(self)@,
    {
        let len = data.len();
        let oldv = match self.store.read(offset, len) {
            Some(v) => v,
            None => { return false; },
        };
        self.store.write_range(offset, data);
        let newv = slice_to_vec(data.as_slice());
        let patch = Patch { offset, old_bytes: oldv, new_bytes: newv };
        if self.cursor < self.patches.len() {
            self.patches.truncate(self.cursor);
        }
        let blob = encode_patch(&patch);
        self.patches.push(blob);
        proof {
            lemma_splice_len(old(self)@.bytes, offset as int, data@);
        }
        self.hist = Ghost(self.hist@.take(self.cursor as int).push(patch@));
        self.cursor = self.patches.len();
        proof {
            assert(self.patches@.take(old(self).cursor as int) =~= old(
                self,
            ).patches@.take(old(self).cursor as int));
            assert(self@.hist =~= spec_write(old(self)@, offset as int, data@).hist);
            assert(self@ =~= spec_write(old(self)@, offset as int, data@));
        }
        true
    }

    /// Redo: decodes the patch at the cursor, writes its new bytes into the
    /// region and advances the cursor; a no-op when nothing is redoable.
    pub fn apply_patch(&mut self)
        requires
            old(self).wf(),
        ensures
            final (self).wf(),
            final (self)@ == spec_apply(old(self)@),
    {
        if self.cursor >= self.patches.len() {
            return ;
        }
        proof {
            lemma_codec_round_trip(self.hist@[self.cursor as int]);
        }
        let p = match decode_patch(&self.patches[self.cursor]) {
            Ok(p) => p,
            Err(_) => {
                proof {
                    assert(false);
                }
                unreached()
            },
        };
        self.store.write_range(p.offset, &p.new_bytes);
        self.cursor = self.cursor + 1;
        proof {
            assert(self@ =~= spec_apply(old(self)@));
        }
    }

    /// Undo: decodes the patch before the cursor, restores its old bytes
    /// into the region and steps the cursor back; a no-op with nothing
    /// applied. The journal entry is retained and stays redoable.
    pub fn revert_patch(&mut self)
        requires
            old(self).wf(),
        ensures
            final (self).wf(),
            final (self)@ == spec_revert(old(self)@),
    {
        if self.cursor == 0 {
            return ;
        }
        self.cursor = self.cursor - 1;
        proof {
            lemma_codec_round_trip(self.hist@[self.cursor as int]);
        }
        let p = match decode_patch(&self.patches[self.cursor]) {
            Ok(p) => p,
            Err(_) => {
                proof {
                    assert(false);
                }
                unreached()
            },
        };
        self.store.write_range(p.offset, &p.old_bytes);
        proof {
            assert(self@ =~= spec_revert(old(self)@));
        }
    }

    /// Flushes the region to its backing file and releases the tree: the
    /// library's durability barrier on shutdown. The journal is not
    /// persisted, so undo/redo history ends here.
    pub fn close(self) -> (r: bool) {
        self.store.sync()
    }
}

/// Each listed edit lies within a region of `size` bytes.
pub open spec fn ops_in_bounds(size: int, ops: Seq<(int, Seq<u8>)>) -> bool {
    forall|k: int|
        0 <= k < ops.len() ==> 0 <= (#[trigger] ops[k]).0 && ops[k].0 + ops[k].1.len() <= size
}

/// The listed edits written one after the other.
pub open spec fn spec_write_seq(t: TreeModel, ops: Seq<(int, Seq<u8>)>) -> TreeModel
    decreases ops.len(),
{
    if ops.len() == 0 {
        t
    } else {
        spec_write_seq(spec_write(t, ops[0].0, ops[0].1), ops.skip(1))
    }
}

/// `n` reverts, one after the other.
pub open spec fn spec_revert_n(t: TreeModel, n: nat) -> TreeModel
    decreases n,
{
    if n == 0 {
        t
    } else {
        spec_revert(spec_revert_n(t, (n - 1) as nat))
    }
}

/// Law: immediately after an in-bounds write, reading back the written range
/// yields exactly the bytes that were written.
pub proof fn lemma_read_after_write(t: TreeModel, off: int, data: Seq<u8>)
    requires
        0 <= off,
        off + data.len() <= t.bytes.len(),
    ensures
        spec_write(t, off, data).bytes.subrange(off, off + data.len() as int) == data,
{
    lemma_splice_len(t.bytes, off, data);
}

/// Law: a write discards the redo tail for good. Right after any in-bounds
/// write the cursor sits at the end of the journal, so a redo is a no-op.
pub proof fn lemma_write_truncates_redo(t: TreeModel, off: int, data: Seq<u8>)
    requires
        0 <= t.cursor <= t.hist.len(),
        0 <= off,
        off + data.len() <= t.bytes.len(),
    ensures
        spec_write(t, off, data).cursor == spec_write(t, off, data).hist.len(),
        spec_apply(spec_write(t, off, data)) == spec_write(t, off, data),
{
}

/// Writing never shrinks the journal below the starting cursor, leaves the
/// already-applied prefix of the journal intact, advances the cursor by one
/// entry per write and keeps the region's length.
proof fn lemma_write_seq_frame(t: TreeModel, ops: Seq<(int, Seq<u8>)>)
    requires
        0 <= t.cursor <= t.hist.len(),
        ops_in_bounds(t.bytes.len() as int, ops),
    ensures
        spec_write_seq(t, ops).bytes.len() == t.bytes.len(),
        spec_write_seq(t, ops).cursor == t.cursor + ops.len(),
        spec_write_seq(t, ops).cursor <= spec_write_seq(t, ops).hist.len(),
        spec_write_seq(t, ops).hist.take(t.cursor) == t.hist.take(t.cursor),
    decreases ops.len(),
{
    if ops.len() == 0 {
    } else {
        let off0 = ops[0].0;
        let data0 = ops[0].1;
        let x1 = spec_write(t, off0, data0);
        let rest = ops.skip(1);
        lemma_splice_len(t.bytes, off0, data0);
        assert(ops_in_bounds(x1.bytes.len() as int, rest)) by {
            assert(forall|k: int| 0 <= k < rest.len() ==> rest[k] == ops[k + 1]);
        }
        lemma_write_seq_frame(x1, rest);
        let w = spec_write_seq(t, ops);
        assert(w == spec_write_seq(x1, rest));
        assert(x1.hist.take(x1.cursor) == x1.hist);
        assert(w.hist.take(t.cursor) =~= w.hist.take(x1.cursor).take(t.cursor));
        assert(x1.hist.take(t.cursor) =~= t.hist.take(t.cursor));
    }
}

/// Law: undo is exact. Any number of in-bounds writes followed by the same
/// number of reverts restores the region's bytes, and the cursor, to their
/// pre-write values — regardless of compression, because every patch
/// snapshots the overwritten bytes exactly.
pub proof fn lemma_writes_then_reverts(t: TreeModel, ops: Seq<(int, Seq<u8>)>)
    requires
        0 <= t.cursor <= t.hist.len(),
        ops_in_bounds(t.bytes.len() as int, ops),
    ensures
        spec_revert_n(spec_write_seq(t, ops), ops.len()).bytes == t.bytes,
        spec_revert_n(spec_write_seq(t, ops), ops.len()).cursor == t.cursor,
        spec_revert_n(spec_write_seq(t, ops), ops.len()).hist == spec_write_seq(t, ops).hist,
    decreases ops.len(),
{
    if ops.len() == 0 {
    } else {
        let off0 = ops[0].0;
        let data0 = ops[0].1;
        let old0 = t.bytes.subrange(off0, off0 + data0.len() as int);
        let p0 = PatchModel { off: off0, old_bytes: old0, new_bytes: data0 };
        let x1 = spec_write(t, off0, data0);
        let rest = ops.skip(1);
        lemma_splice_len(t.bytes, off0, data0);
        assert(ops_in_bounds(x1.bytes.len() as int, rest)) by {
            assert(forall|k: int| 0 <= k < rest.len() ==> rest[k] == ops[k + 1]);
        }
        let w = spec_write_seq(t, ops);
        assert(w == spec_write_seq(x1, rest));
        lemma_writes_then_reverts(x1, rest);
        lemma_write_seq_frame(x1, rest);
        let rp = spec_revert_n(w, rest.len());
        assert(spec_revert_n(w, ops.len()) == spec_revert(rp));
        // The patch the final revert decodes is the one the first write pushed.
        assert(rp.hist[t.cursor] == p0) by {
            assert(x1.hist.take(x1.cursor) == x1.hist);
            assert(w.hist.take(x1.cursor)[t.cursor] == w.hist[t.cursor]);
            assert(x1.hist[t.cursor] == p0);
        }
        lemma_splice_splice(t.bytes, off0, data0, old0);
        lemma_splice_self(t.bytes, off0, data0.len() as int);
        assert(spec_revert(rp).bytes == t.bytes);
        assert(spec_revert(rp).cursor == t.cursor);
    }
}

/// The region contents after replaying, in order, the new bytes of the
/// first `k` journal entries onto the starting image `init`.
pub open spec fn replay(init: Seq<u8>, hist: Seq<PatchModel>, k: int) -> Seq<u8>
    decreases k,
{
    if k <= 0 {
        init
    } else {
        splice(replay(init, hist, k - 1), hist[k - 1].off, hist[k - 1].new_bytes)
    }
}

/// Journal entry `k` lies within the region and snapshots exactly the bytes
/// the region held at its offset when it was recorded: the bytes of the
/// replay of everything before it.
pub open spec fn snapshot_ok(init: Seq<u8>, hist: Seq<PatchModel>, k: int) -> bool {
    &&& 0 <= hist[k].off
    &&& hist[k].off + hist[k].old_bytes.len() <= init.len()
    &&& hist[k].old_bytes.len() == hist[k].new_bytes.len()
    &&& hist[k].old_bytes == replay(init, hist, k).subrange(
        hist[k].off,
        hist[k].off + hist[k].old_bytes.len() as int,
    )
}

/// The journal is consistent with the starting image `init`: the region
/// holds exactly the replay of the applied prefix, and every entry
/// snapshots the bytes it overwrote.
pub open spec fn consistent(init: Seq<u8>, t: TreeModel) -> bool {
    &&& 0 <= t.cursor <= t.hist.len()
    &&& t.bytes == replay(init, t.hist, t.cursor)
    &&& forall|k: int| 0 <= k < t.hist.len() ==> #[trigger] snapshot_ok(init, t.hist, k)
}

/// Replaying in-bounds entries keeps the region's length.
proof fn lemma_replay_len(init: Seq<u8>, hist: Seq<PatchModel>, k: int)
    requires
        k <= hist.len(),
        forall|j: int| 0 <= j < k ==> #[trigger] snapshot_ok(init, hist, j),
    ensures
        replay(init, hist, k).len() == init.len(),
    decreases k,
{
    if k > 0 {
        lemma_replay_len(init, hist, k - 1);
        assert(snapshot_ok(init, hist, k - 1));
        lemma_splice_len(replay(init, hist, k - 1), hist[k - 1].off, hist[k - 1].new_bytes);
    }
}

/// A replay reads only the entries before `k`.
proof fn lemma_replay_prefix(init: Seq<u8>, h1: Seq<PatchModel>, h2: Seq<PatchModel>, k: int)
    requires
        0 <= k <= h1.len(),
        k <= h2.len(),
        h1.take(k) == h2.take(k),
    ensures
        replay(init, h1, k) == replay(init, h2, k),
    decreases k,
{
    if k > 0 {
        assert(h1.take(k).take(k - 1) =~= h1.take(k - 1));
        assert(h2.take(k).take(k - 1) =~= h2.take(k - 1));
        lemma_replay_prefix(init, h1, h2, k - 1);
        assert(h1.take(k)[k - 1] == h1[k - 1]);
        assert(h2.take(k)[k - 1] == h2[k - 1]);
    }
}

/// Law: a fresh tree, before any write, is consistent with its own region
/// image: there is nothing to replay.
pub proof fn lemma_fresh_consistent(t: TreeModel)
    requires
        t.cursor == 0,
        t.hist.len() == 0,
    ensures
        consistent(t.bytes, t),
{
}

/// Law: an in-bounds write keeps the journal consistent: afterwards the
/// region is the replay of the extended applied prefix, and the new entry
/// snapshots exactly the bytes it overwrote.
pub proof fn lemma_write_consistent(init: Seq<u8>, t: TreeModel, off: int, data: Seq<u8>)
    requires
        consistent(init, t),
        0 <= off,
        off + data.len() <= t.bytes.len(),
    ensures
        consistent(init, spec_write(t, off, data)),
{
    let c = t.cursor;
    let w = spec_write(t, off, data);
    let p = w.hist[c];
    assert(w.hist.take(c) =~= t.hist.take(c));
    assert forall|k: int| 0 <= k < c implies w.hist.take(k) =~= t.hist.take(k) by {}
    lemma_replay_prefix(init, w.hist, t.hist, c);
    assert forall|k: int| 0 <= k < w.hist.len() implies #[trigger] snapshot_ok(
        init,
        w.hist,
        k,
    ) by {
        lemma_replay_prefix(init, w.hist, t.hist, k);
        if k < c {
            assert(w.hist[k] == t.hist[k]);
            assert(snapshot_ok(init, t.hist, k));
        } else {
            lemma_replay_len(init, t.hist, c);
        }
    }
    assert(w.bytes == replay(init, w.hist, c + 1));
}

/// Law: a redo keeps the journal consistent: the region becomes the replay
/// of one more entry.
pub proof fn lemma_apply_consistent(init: Seq<u8>, t: TreeModel)
    requires
        consistent(init, t),
    ensures
        consistent(init, spec_apply(t)),
{
    if t.cursor < t.hist.len() {
        assert(spec_apply(t).bytes == replay(init, t.hist, t.cursor + 1));
    }
}

/// Law: an undo keeps the journal consistent: restoring the snapshotted old
/// bytes takes the region back to the replay of one entry fewer.
pub proof fn lemma_revert_consistent(init: Seq<u8>, t: TreeModel)
    requires
        consistent(init, t),
    ensures
        consistent(init, spec_revert(t)),
{
    if t.cursor > 0 {
        let c = t.cursor;
        let p = t.hist[c - 1];
        assert(snapshot_ok(init, t.hist, c - 1));
        let base = replay(init, t.hist, c - 1);
        assert forall|j: int| 0 <= j < c - 1 implies #[trigger] snapshot_ok(init, t.hist, j) by {}
        lemma_replay_len(init, t.hist, c - 1);
        assert(t.bytes == splice(base, p.off, p.new_bytes));
        lemma_splice_splice(base, p.off, p.new_bytes, p.old_bytes);
        lemma_splice_self(base, p.off, p.old_bytes.len() as int);
        assert(spec_revert(t).bytes == base);
    }
}

/// Law: a byte outside every applied entry's range keeps its value from the
/// starting image.
pub proof fn lemma_replay_untouched(init: Seq<u8>, hist: Seq<PatchModel>, k: int, i: int)
    requires
        0 <= k <= hist.len(),
        forall|j: int| 0 <= j < k ==> #[trigger] snapshot_ok(init, hist, j),
        0 <= i < init.len(),
        forall|j: int|
            0 <= j < k ==> !((#[trigger] hist[j]).off <= i < hist[j].off
                + hist[j].new_bytes.len()),
    ensures
        replay(init, hist, k)[i] == init[i],
    decreases k,
{
    if k > 0 {
        lemma_replay_untouched(init, hist, k - 1, i);
        lemma_replay_len(init, hist, k - 1);
        let base = replay(init, hist, k - 1);
        let p = hist[k - 1];
        assert(snapshot_ok(init, hist, k - 1));
        lemma_splice_frame(base, p.off, p.new_bytes, i);
    }
}

/// Law: a revert immediately followed by a redo leaves the region
/// byte-identical, provided the range of the most recently applied patch
/// still holds that patch's new bytes — as it does whenever that patch was
/// the last edit to touch its range.
pub proof fn lemma_revert_then_apply(t: TreeModel)
    requires
        0 < t.cursor <= t.hist.len(),
        0 <= t.hist[t.cursor - 1].off,
        t.hist[t.cursor - 1].off + t.hist[t.cursor - 1].old_bytes.len() <= t.bytes.len(),
        t.hist[t.cursor - 1].old_bytes.len() == t.hist[t.cursor - 1].new_bytes.len(),
        t.bytes.subrange(
            t.hist[t.cursor - 1].off,
            t.hist[t.cursor - 1].off + t.hist[t.cursor - 1].new_bytes.len() as int,
        ) == t.hist[t.cursor - 1].new_bytes,
    ensures
        spec_apply(spec_revert(t)) == t,
{
    let p = t.hist[t.cursor - 1];
    lemma_splice_len(t.bytes, p.off, p.old_bytes);
    lemma_splice_splice(t.bytes, p.off, p.old_bytes, p.new_bytes);
    lemma_splice_self(t.bytes, p.off, p.new_bytes.len() as int);
    assert(spec_apply(spec_revert(t)) =~= t);
}

/// Law: a redo immediately followed by a revert leaves the region
/// byte-identical, provided the range of the redoable patch still holds
/// that patch's old bytes — as it does right after a revert of that patch.
pub proof fn lemma_apply_then_revert(t: TreeModel)
    requires
        0 <= t.cursor < t.hist.len(),
        0 <= t.hist[t.cursor].off,
        t.hist[t.cursor].off + t.hist[t.cursor].new_bytes.len() <= t.bytes.len(),
        t.hist[t.cursor].old_bytes.len() == t.hist[t.cursor].new_bytes.len(),
        t.bytes.subrange(
            t.hist[t.cursor].off,
            t.hist[t.cursor].off + t.hist[t.cursor].old_bytes.len() as int,
        ) == t.hist[t.cursor].old_bytes,
    ensures
        spec_revert(spec_apply(t)) == t,
{
    let p = t.hist[t.cursor];
    lemma_splice_len(t.bytes, p.off, p.new_bytes);
    lemma_splice_splice(t.bytes, p.off, p.new_bytes, p.old_bytes);
    lemma_splice_self(t.bytes, p.off, p.old_bytes.len() as int);
    assert(spec_revert(spec_apply(t)) =~= t);
}

} // verus!
