//! A fixed-size table of scalar parameter slots together with a change
//! bitmap. A control side stores 32-bit values (IEEE-754 bit patterns
//! travel through the slots unchanged, as plain `u32` words) and marks the
//! slot dirty; a consumer side scans the bitmap in increasing index order
//! and pulls exactly the changed `(index, value)` pairs, optionally
//! clearing each mark as it goes.

use vstd::prelude::*;

use crate::bit_words::{lemma_clear_bit, lemma_set_bit, lemma_zero_bit, nth_bit, word_and_bit,
    WORD_BITS};

verus! {

/// A set of parameter slots with one dirty bit per slot.
pub struct ParameterTransfer {
    values: Vec<u32>,
    changed: Vec<u64>,
}

/// Everything `set_parameter(i, v)` promises about the state it leaves
/// behind, relative to the state it started from: slot `i` holds `v` and is
/// marked dirty; every other slot keeps both its value and its mark.
pub open spec fn set_updates(pre: ParameterTransfer, post: ParameterTransfer, i: int, v: u32) -> bool {
    &&& post.wf()
    &&& post.param_count() == pre.param_count()
    &&& post.value_at(i) == v
    &&& forall|j: int| 0 <= j < pre.param_count() && j != i ==> post.value_at(j) == pre.value_at(j)
    &&& post.dirty(i)
    &&& forall|j: int| 0 <= j < pre.param_count() && j != i ==> post.dirty(j) == pre.dirty(j)
}

/// `0 <= i < 64 * n` places bit `i` inside word `i / 64` of an `n`-word
/// bitmap, at a bit offset below 64.
proof fn lemma_bit_pos(i: int, n: int)
    requires
        0 <= i,
        i < 64 * n,
    ensures
        0 <= i / 64 < n,
        0 <= i % 64 < 64,
        i == 64 * (i / 64) + (i % 64),
{
    assert(0 <= i / 64 && i / 64 < n && 0 <= i % 64 && i % 64 < 64 && i == 64 * (i / 64) + (i % 64))
        by (nonlinear_arith)
        requires
            0 <= i,
            i < 64 * n,
    ;
}

impl ParameterTransfer {
    /// Number of parameter slots.
    pub closed spec fn param_count(self) -> int {
        self.values@.len() as int
    }

    /// Number of bit positions the bitmap covers: a whole number of words,
    /// so at least `param_count()` and less than one word more.
    pub closed spec fn num_bits(self) -> int {
        (self.changed@.len() * 64) as int
    }

    /// The bit pattern currently stored in slot `i`.
    pub closed spec fn value_at(self, i: int) -> u32 {
        self.values@[i]
    }

    /// Whether slot `i` is marked changed.
    pub closed spec fn dirty(self, i: int) -> bool {
        nth_bit(self.changed@[i / 64], (i % 64) as u64)
    }

    /// Well-formed: the bitmap has exactly one word per 64 slots (rounded
    /// up), the slot count leaves room for that rounding, and no bit beyond
    /// the last slot is ever set.
    pub closed spec fn wf(self) -> bool {
        &&& self.values@.len() <= usize::MAX - 63
        &&& self.changed@.len() == (self.values@.len() + 63) / 64
        &&& forall|i: int| self.param_count() <= i < self.num_bits() ==> !self.dirty(i)
    }

    /// A well-formed table's bitmap covers every slot and rounds up to less
    /// than one word beyond the last.
    proof fn lemma_wf_bounds(self)
        requires
            self.wf(),
        ensures
            self.param_count() <= self.num_bits(),
            self.num_bits() <= self.param_count() + 63,
    {
        let c = self.values@.len() as int;
        let w = self.changed@.len() as int;
        assert(c <= 64 * w && 64 * w <= c + 63) by (nonlinear_arith)
            requires
                w == (c + 63) / 64,
                0 <= c,
        ;
    }

    /// Create a table for `parameter_count` slots, all values zero and no
    /// slot marked changed.
    pub fn new(parameter_count: usize) -> (r: ParameterTransfer)
        requires
            parameter_count <= usize::MAX - 63,
        ensures
            r.wf(),
            r.param_count() == parameter_count,
            forall|i: int| 0 <= i < parameter_count ==> r.value_at(i) == 0u32,
            forall|i: int| 0 <= i < parameter_count ==> !r.dirty(i),
    {
        let bit_words = (parameter_count + (WORD_BITS - 1)) / WORD_BITS;
        let mut values: Vec<u32> = Vec::new();
        let mut k: usize = 0;
        while k < parameter_count
            invariant
                k <= parameter_count,
                values@.len() == k,
                forall|i: int| 0 <= i < k ==> values@[i] == 0u32,
            decreases parameter_count - k,
        {
            values.push(0u32);
            k = k + 1;
        }
        let mut changed: Vec<u64> = Vec::new();
        let mut w: usize = 0;
        while w < bit_words
            invariant
                w <= bit_words,
                changed@.len() == w,
                forall|i: int| 0 <= i < w ==> changed@[i] == 0u64,
            decreases bit_words - w,
        {
            changed.push(0u64);
            w = w + 1;
        }
        let r = ParameterTransfer { values, changed };
        proof {
            assert forall|i: int| 0 <= i < r.num_bits() implies !r.dirty(i) by {
                lemma_bit_pos(i, r.changed@.len() as int);
                lemma_zero_bit((i % 64) as u64);
            }
        }
        r
    }

    /// The smallest dirty index at or after `from`, if any bit at or after
    /// `from` is set.
    pub closed spec fn next_dirty(self, from: int) -> Option<int>
        decreases self.num_bits() - from,
    {
        if from < 0 || from >= self.num_bits() {
            None
        } else if self.dirty(from) {
            Some(from)
        } else {
            self.next_dirty(from + 1)
        }
    }

    /// The `(index, value)` pairs of the dirty slots whose index is at
    /// least `from`, in increasing index order.
    pub closed spec fn pending_from(self, from: int) -> Seq<(usize, u32)>
        decreases self.num_bits() - from,
    {
        if from < 0 || from >= self.num_bits() {
            Seq::empty()
        } else if self.dirty(from) {
            seq![((from as usize), self.value_at(from))] + self.pending_from(from + 1)
        } else {
            self.pending_from(from + 1)
        }
    }

    /// The `(index, value)` pairs of all dirty slots, in increasing index
    /// order: what one full drain of the table yields.
    pub closed spec fn pending(self) -> Seq<(usize, u32)> {
        self.pending_from(0)
    }

    /// `next_dirty(from)` returns the first dirty index at or after `from`:
    /// it is dirty, nothing before it (from `from` on) is, and `None` means
    /// no index at or after `from` is dirty.
    proof fn lemma_next_dirty_props(self, from: int)
        requires
            0 <= from,
        ensures
            match self.next_dirty(from) {
                Some(i) => {
                    &&& from <= i < self.num_bits()
                    &&& self.dirty(i)
                    &&& forall|j: int| from <= j < i ==> !self.dirty(j)
                },
                None => forall|j: int| from <= j < self.num_bits() ==> !self.dirty(j),
            },
        decreases self.num_bits() - from,
    {
        if from < self.num_bits() && !self.dirty(from) {
            self.lemma_next_dirty_props(from + 1);
        }
    }

    /// The pending sequence decomposes at the first dirty index: it is
    /// empty when there is none, and otherwise starts with that slot's pair
    /// followed by the pending pairs after it.
    proof fn lemma_pending_decompose(self, from: int)
        requires
            0 <= from,
        ensures
            match self.next_dirty(from) {
                Some(i) => self.pending_from(from) == seq![((i as usize), self.value_at(i))]
                    + self.pending_from(i + 1),
                None => self.pending_from(from) == Seq::<(usize, u32)>::empty(),
            },
        decreases self.num_bits() - from,
    {
        if from < self.num_bits() && !self.dirty(from) {
            self.lemma_pending_decompose(from + 1);
        }
    }

    /// Every dirty slot at or after `from` appears in `pending_from(from)`
    /// with its current value.
    proof fn lemma_pending_contains(self, from: int, i: int)
        requires
            0 <= from <= i < self.num_bits(),
            self.dirty(i),
        ensures
            self.pending_from(from).contains(((i as usize), self.value_at(i))),
        decreases i - from,
    {
        let p = ((i as usize), self.value_at(i));
        if from == i {
            assert(self.pending_from(from)[0] == p);
        } else {
            self.lemma_pending_contains(from + 1, i);
            let rest = self.pending_from(from + 1);
            let k = choose|k: int| 0 <= k < rest.len() && rest[k] == p;
            if self.dirty(from) {
                assert(self.pending_from(from)[k + 1] == p);
            }
        }
    }

    /// Every pair in `pending_from(from)` is a dirty slot at or after
    /// `from`, below the slot count, paired with its current value.
    proof fn lemma_pending_pairs(self, from: int)
        requires
            self.wf(),
            0 <= from,
        ensures
            forall|p: (usize, u32)|
                self.pending_from(from).contains(p) ==> from <= p.0 < self.param_count()
                    && self.dirty(p.0 as int) && p.1 == self.value_at(p.0 as int),
        decreases self.num_bits() - from,
    {
        if from < self.num_bits() {
            self.lemma_pending_pairs(from + 1);
            self.lemma_wf_bounds();
            let head = seq![((from as usize), self.value_at(from))];
            let rest = self.pending_from(from + 1);
            assert forall|p: (usize, u32)|
                self.pending_from(from).contains(p) implies from <= p.0 < self.param_count()
                && self.dirty(p.0 as int) && p.1 == self.value_at(p.0 as int) by {
                let k = choose|k: int|
                    0 <= k < self.pending_from(from).len() && self.pending_from(from)[k] == p;
                if self.dirty(from) {
                    if k > 0 {
                        assert(rest[k - 1] == p);
                        assert(rest.contains(p));
                    } else {
                        assert(p == head[0]);
                    }
                } else {
                    assert(rest[k] == p);
                    assert(rest.contains(p));
                }
            }
        }
    }

    /// The pending pairs at or after `from` come out sorted: each index is
    /// at least `from`, and indices strictly increase along the sequence.
    proof fn lemma_pending_sorted(self, from: int)
        requires
            self.wf(),
            0 <= from,
        ensures
            forall|k: int|
                0 <= k < self.pending_from(from).len() ==> from <= (#[trigger] self.pending_from(
                    from,
                )[k]).0,
            forall|k1: int, k2: int|
                0 <= k1 < k2 < self.pending_from(from).len() ==> (#[trigger] self.pending_from(
                    from,
                )[k1]).0 < (#[trigger] self.pending_from(from)[k2]).0,
        decreases self.num_bits() - from,
    {
        if from < self.num_bits() {
            self.lemma_wf_bounds();
            self.lemma_pending_sorted(from + 1);
            if self.dirty(from) {
                let s = self.pending_from(from);
                let rest = self.pending_from(from + 1);
                assert(s[0] == ((from as usize), self.value_at(from)));
                assert forall|k: int| 0 <= k < s.len() implies from <= (#[trigger] s[k]).0 by {
                    if k > 0 {
                        assert(s[k] == rest[k - 1]);
                    }
                }
                assert forall|k1: int, k2: int| 0 <= k1 < k2 < s.len() implies (#[trigger] s[k1]).0
                    < (#[trigger] s[k2]).0 by {
                    assert(s[k2] == rest[k2 - 1]);
                    if k1 > 0 {
                        assert(s[k1] == rest[k1 - 1]);
                    }
                }
            }
        }
    }

    /// Two tables that agree on slot count, on every stored value, and on
    /// every dirty mark at or after `from` have the same first dirty index
    /// and the same pending pairs from `from` on.
    proof fn lemma_pending_congruent(self, other: ParameterTransfer, from: int)
        requires
            self.num_bits() == other.num_bits(),
            self.param_count() == other.param_count(),
            forall|j: int| 0 <= j < self.param_count() ==> self.value_at(j) == other.value_at(j),
            forall|j: int| from <= j < self.num_bits() ==> self.dirty(j) == other.dirty(j),
            self.wf(),
            0 <= from,
        ensures
            self.next_dirty(from) == other.next_dirty(from),
            self.pending_from(from) == other.pending_from(from),
        decreases self.num_bits() - from,
    {
        if from < self.num_bits() {
            self.lemma_pending_congruent(other, from + 1);
            if self.dirty(from) {
                self.lemma_wf_bounds();
            }
        }
    }

    /// Read the bit pattern currently stored in slot `index`.
    pub fn get_parameter(&self, index: usize) -> (r: u32)
        requires
            self.wf(),
            index < self.param_count(),
        ensures
            r == self.value_at(index as int),
    {
        self.values[index]
    }

    /// Store `value` into slot `index` and mark the slot as changed.
    /// Every other slot keeps both its value and its mark.
    pub fn set_parameter(&mut self, index: usize, value: u32)
        requires
            old(self).wf(),
            index < old(self).param_count(),
        ensures
            set_updates(*old(self), *final(self), index as int, value),
    {
        proof {
            old(self).lemma_wf_bounds();
            lemma_bit_pos(index as int, old(self).changed@.len() as int);
        }
        let (word, bit) = word_and_bit(index);
        self.values[index] = value;
        let old_word = self.changed[word];
        self.changed[word] = old_word | bit;
        proof {
            let b = ((index as int) % 64) as u64;
            lemma_set_bit(old_word, b, b);
            assert forall|j: int|
                0 <= j < old(self).num_bits() && j != index implies self.dirty(j) == old(
                self,
            ).dirty(j) by {
                lemma_bit_pos(j, old(self).changed@.len() as int);
                if j / 64 == word {
                    lemma_set_bit(old_word, b, (j % 64) as u64);
                }
            }
        }
    }

    /// Number of parameter slots this table was created for.
    pub fn parameter_count(&self) -> (r: usize)
        ensures
            r == self.param_count(),
    {
        self.values.len()
    }

    /// Store `value` into slot `index` and mark the slot, if `index` is in
    /// range, and report whether it was: an out-of-range index is rejected
    /// and leaves the table untouched.
    pub fn try_set_parameter(&mut self, index: usize, value: u32) -> (r: bool)
        requires
            old(self).wf(),
        ensures
            final(self).wf(),
            r == (index < old(self).param_count()),
            r ==> set_updates(*old(self), *final(self), index as int, value),
            !r ==> *final(self) == *old(self),
    {
        if index < self.values.len() {
            self.set_parameter(index, value);
            true
        } else {
            false
        }
    }

    /// Start a scan over the slots currently marked changed, from the
    /// lowest index upward. With `acquire` true the scan clears each mark
    /// it yields; with `acquire` false it leaves the table untouched.
    pub fn iterate(&self, acquire: bool) -> (r: ParameterTransferIterator)
        ensures
            r.cursor() == 0,
            r.acquires() == acquire,
    {
        ParameterTransferIterator { pos: 0, acquire }
    }

    /// Scan the whole bitmap once and return the `(index, value)` pair of
    /// every slot currently marked changed, in increasing index order.
    /// With `clear` true all marks are gone afterwards, so an immediate
    /// second drain yields nothing; with `clear` false every mark is left
    /// exactly as it was. Values are never modified.
    pub fn drain(&mut self, clear: bool) -> (r: Vec<(usize, u32)>)
        requires
            old(self).wf(),
        ensures
            final(self).wf(),
            r@ == old(self).pending(),
            final(self).param_count() == old(self).param_count(),
            final(self).num_bits() == old(self).num_bits(),
            forall|j: int|
                0 <= j < old(self).param_count() ==> final(self).value_at(j) == old(
                    self,
                ).value_at(j),
            clear ==> forall|j: int| 0 <= j < old(self).param_count() ==> !final(self).dirty(j),
            !clear ==> forall|j: int|
                0 <= j < old(self).param_count() ==> final(self).dirty(j) == old(self).dirty(j),
    {
        let mut it = self.iterate(clear);
        let mut out: Vec<(usize, u32)> = Vec::new();
        proof {
            old(self).lemma_wf_bounds();
            assert(Seq::<(usize, u32)>::empty() + old(self).pending_from(0) =~= old(
                self,
            ).pending_from(0));
        }
        loop
            invariant
                self.wf(),
                it.acquires() == clear,
                0 <= it.cursor(),
                self.param_count() == old(self).param_count(),
                self.num_bits() == old(self).num_bits(),
                forall|j: int|
                    0 <= j < old(self).param_count() ==> self.value_at(j) == old(self).value_at(j),
                forall|j: int|
                    it.cursor() <= j < old(self).num_bits() ==> self.dirty(j) == old(self).dirty(
                        j,
                    ),
                clear ==> forall|j: int|
                    0 <= j < it.cursor() && j < old(self).num_bits() ==> !self.dirty(j),
                !clear ==> forall|j: int|
                    0 <= j < old(self).num_bits() ==> self.dirty(j) == old(self).dirty(j),
                out@ + old(self).pending_from(it.cursor()) == old(self).pending(),
            ensures
                out@ == old(self).pending(),
                self.wf(),
                self.param_count() == old(self).param_count(),
                self.num_bits() == old(self).num_bits(),
                forall|j: int|
                    0 <= j < old(self).param_count() ==> self.value_at(j) == old(self).value_at(j),
                clear ==> forall|j: int| 0 <= j < old(self).num_bits() ==> !self.dirty(j),
                !clear ==> forall|j: int|
                    0 <= j < old(self).num_bits() ==> self.dirty(j) == old(self).dirty(j),
            decreases old(self).num_bits() + 1 - it.cursor(),
        {
            let ghost pre_self = *self;
            let ghost pre_cursor = it.cursor();
            let item = it.next(self);
            proof {
                pre_self.lemma_pending_congruent(*old(self), pre_cursor);
                old(self).lemma_next_dirty_props(pre_cursor);
                old(self).lemma_pending_decompose(pre_cursor);
            }
            match item {
                Some(p) => {
                    proof {
                        let i = old(self).next_dirty(pre_cursor)->Some_0;
                        assert(out@.push(p) + old(self).pending_from(i + 1) =~= out@ + (seq![p]
                            + old(self).pending_from(i + 1)));
                    }
                    out.push(p);
                }
                None => {
                    proof {
                        assert(out@ + old(self).pending_from(pre_cursor) =~= out@);
                    }
                    break ;
                }
            }
        }
        out
    }
}

/// Bit/value correspondence: storing `v` in slot `i` leaves exactly the bit
/// pattern `v` there, so a read of slot `i` returns `v` bit for bit.
pub proof fn lemma_set_then_get(pre: ParameterTransfer, post: ParameterTransfer, i: int, v: u32)
    requires
        0 <= i < pre.param_count(),
        set_updates(pre, post, i, v),
    ensures
        post.value_at(i) == v,
{
}

/// Drain completeness: every slot currently marked changed appears in what
/// a drain yields, paired with that slot's current value. Since every
/// store marks its slot and only a clearing drain unmarks one, no slot
/// written since the last clearing drain can be missed.
pub proof fn lemma_drain_complete(pt: ParameterTransfer, i: int)
    requires
        pt.wf(),
        0 <= i < pt.param_count(),
        pt.dirty(i),
    ensures
        pt.pending().contains(((i as usize), pt.value_at(i))),
{
    pt.lemma_wf_bounds();
    pt.lemma_pending_contains(0, i);
}

/// Drain soundness: every pair a drain yields is a slot that was marked
/// changed, paired with that slot's current value — never a stale or
/// invented one.
pub proof fn lemma_drain_sound(pt: ParameterTransfer, p: (usize, u32))
    requires
        pt.wf(),
        pt.pending().contains(p),
    ensures
        p.0 < pt.param_count(),
        pt.dirty(p.0 as int),
        p.1 == pt.value_at(p.0 as int),
{
    pt.lemma_pending_pairs(0);
}

/// A drain yields its pairs in strictly increasing index order: of any two
/// pairs it reports, the earlier one names the smaller slot index.
pub proof fn lemma_drain_in_index_order(pt: ParameterTransfer, k1: int, k2: int)
    requires
        pt.wf(),
        0 <= k1 < k2 < pt.pending().len(),
    ensures
        pt.pending()[k1].0 < pt.pending()[k2].0,
{
    pt.lemma_pending_sorted(0);
}

/// Last write wins under coalescing: after slot `i` is set to `v1` and
/// then to `v2` with no drain in between, a drain reports `(i, v2)` for
/// that slot and never `(i, v1)`.
pub proof fn lemma_last_write_wins(
    pt0: ParameterTransfer,
    pt1: ParameterTransfer,
    pt2: ParameterTransfer,
    i: int,
    v1: u32,
    v2: u32,
)
    requires
        0 <= i < pt0.param_count(),
        set_updates(pt0, pt1, i, v1),
        set_updates(pt1, pt2, i, v2),
    ensures
        pt2.pending().contains(((i as usize), v2)),
        v1 != v2 ==> !pt2.pending().contains(((i as usize), v1)),
{
    lemma_drain_complete(pt2, i);
    if pt2.pending().contains(((i as usize), v1)) {
        lemma_drain_sound(pt2, ((i as usize), v1));
    }
}

/// Idempotent non-clearing drain: a non-clearing drain leaves counts,
/// values and marks exactly as it found them, so a second drain with no
/// writes in between yields the identical sequence.
pub proof fn lemma_nonclearing_drain_idempotent(pt0: ParameterTransfer, pt1: ParameterTransfer)
    requires
        pt0.wf(),
        pt1.wf(),
        pt1.param_count() == pt0.param_count(),
        forall|j: int| 0 <= j < pt0.param_count() ==> pt1.value_at(j) == pt0.value_at(j),
        forall|j: int| 0 <= j < pt0.param_count() ==> pt1.dirty(j) == pt0.dirty(j),
    ensures
        pt1.pending() == pt0.pending(),
{
    pt0.lemma_wf_bounds();
    pt1.lemma_wf_bounds();
    pt0.lemma_pending_congruent(pt1, 0);
}

/// A clearing drain converges: it leaves no slot marked, so the very next
/// drain yields the empty sequence.
pub proof fn lemma_clearing_drain_converges(pt: ParameterTransfer)
    requires
        pt.wf(),
        forall|j: int| 0 <= j < pt.param_count() ==> !pt.dirty(j),
    ensures
        pt.pending() == Seq::<(usize, u32)>::empty(),
{
    pt.lemma_wf_bounds();
    pt.lemma_next_dirty_props(0);
    pt.lemma_pending_decompose(0);
    if pt.next_dirty(0) is Some {
        let i = pt.next_dirty(0)->Some_0;
        assert(!pt.dirty(i));
        assert(false);
    }
}

/// A resumable cursor over the slots of a [`ParameterTransfer`] that are
/// marked changed, yielding `(index, value)` pairs in increasing index
/// order. Created by [`ParameterTransfer::iterate`]; each call of
/// [`ParameterTransferIterator::next`] pulls the next pair.
pub struct ParameterTransferIterator {
    pos: usize,
    acquire: bool,
}

impl ParameterTransferIterator {
    /// The next bit position the cursor will examine.
    pub closed spec fn cursor(self) -> int {
        self.pos as int
    }

    /// Whether the cursor clears each mark it yields.
    pub closed spec fn acquires(self) -> bool {
        self.acquire
    }

    /// Yield the lowest-index slot at or after the cursor that is marked
    /// changed, together with its current value, and advance the cursor
    /// past it; clear that one mark if the cursor was created acquiring.
    /// Yield `None` once no marked slot remains at or after the cursor.
    /// Values are never modified.
    pub fn next(&mut self, pt: &mut ParameterTransfer) -> (r: Option<(usize, u32)>)
        requires
            old(pt).wf(),
        ensures
            final(pt).wf(),
            final(self).acquires() == old(self).acquires(),
            final(pt).param_count() == old(pt).param_count(),
            final(pt).num_bits() == old(pt).num_bits(),
            forall|j: int|
                0 <= j < old(pt).param_count() ==> final(pt).value_at(j) == old(pt).value_at(j),
            match old(pt).next_dirty(old(self).cursor()) {
                Some(i) => {
                    &&& r == Some(((i as usize), old(pt).value_at(i)))
                    &&& old(self).cursor() <= i < old(pt).param_count()
                    &&& old(pt).dirty(i)
                    &&& forall|j: int| old(self).cursor() <= j < i ==> !old(pt).dirty(j)
                    &&& final(self).cursor() == i + 1
                    &&& forall|j: int|
                        0 <= j < old(pt).param_count() ==> final(pt).dirty(j) == (old(pt).dirty(j)
                            && !(old(self).acquires() && j == i))
                },
                None => {
                    &&& r is None
                    &&& forall|j: int|
                        old(self).cursor() <= j < old(pt).param_count() ==> !old(pt).dirty(j)
                    &&& final(self).cursor() >= old(pt).num_bits()
                    &&& forall|j: int|
                        0 <= j < old(pt).param_count() ==> final(pt).dirty(j) == old(pt).dirty(j)
                },
            },
    {
        proof {
            old(pt).lemma_wf_bounds();
            old(pt).lemma_next_dirty_props(old(self).cursor());
        }
        let num_bits = pt.changed.len() * WORD_BITS;
        while self.pos < num_bits
            invariant
                pt.wf(),
                *pt == *old(pt),
                self.acquire == old(self).acquires(),
                num_bits == pt.num_bits(),
                old(self).cursor() <= self.pos as int,
                forall|j: int| old(self).cursor() <= j < self.pos as int ==> !pt.dirty(j),
            decreases num_bits - self.pos,
        {
            let word_idx = self.pos / WORD_BITS;
            let bit_off = self.pos % WORD_BITS;
            proof {
                lemma_bit_pos(self.pos as int, pt.changed@.len() as int);
            }
            let w = pt.changed[word_idx];
            if (w >> (bit_off as u64)) & 1 == 1 {
                let index = self.pos;
                proof {
                    assert(pt.dirty(index as int));
                    let c = old(self).cursor();
                    old(pt).lemma_next_dirty_props(c);
                    let nd = old(pt).next_dirty(c);
                    if nd is None {
                        assert(!old(pt).dirty(index as int));
                        assert(false);
                    } else {
                        let i = nd->Some_0;
                        if i < index as int {
                            assert(!pt.dirty(i));
                            assert(old(pt).dirty(i));
                            assert(false);
                        } else if i > index as int {
                            assert(!old(pt).dirty(index as int));
                            assert(false);
                        }
                    }
                    assert(nd == Some(index as int));
                }
                if self.acquire {
                    let mask = 1u64 << (bit_off as u64);
                    pt.changed[word_idx] = w & !mask;
                    proof {
                        let b = ((index as int) % 64) as u64;
                        lemma_clear_bit(w, b, b);
                        assert forall|j: int|
                            0 <= j < old(pt).num_bits() && j != index implies pt.dirty(j) == old(
                            pt,
                        ).dirty(j) by {
                            lemma_bit_pos(j, old(pt).changed@.len() as int);
                            if j / 64 == word_idx {
                                lemma_clear_bit(w, b, (j % 64) as u64);
                            }
                        }
                        assert(!pt.dirty(index as int));
                    }
                }
                let v = pt.values[index];
                self.pos = index + 1;
                return Some((index, v));
            }
            self.pos = self.pos + 1;
        }
        proof {
            old(pt).lemma_next_dirty_props(old(self).cursor());
            assert(old(pt).next_dirty(old(self).cursor()) is None);
        }
        None
    }
}

} // verus!
