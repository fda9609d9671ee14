use vstd::arithmetic::power2::pow2;
use vstd::prelude::*;

verus! {

/// Entry kind of a table whose keys are all interned text.
pub const DICT_KEYS_UNICODE: u8 = 1;

/// One slot of the packed entry array of a text-keyed table.
///
/// Keys are interned, so a key is identified by its handle. A slot whose
/// value is `None` is a tombstone left by a deletion.
#[derive(Clone, Copy, Debug, PartialEq, Eq, Structural)]
pub struct PyDictUnicodeEntry {
    pub me_key: u64,
    pub me_value: Option<usize>,
}

/// The keys object of a compact ordered hash table: a fixed-size header
/// followed by the packed array of entry slots, in insertion order.
///
/// The hash index that sits between header and entries is not held: the
/// decoders here walk the entry array directly and never probe it.
#[derive(Clone, Debug)]
pub struct PyDictKeysObject {
    /// Log2 of the number of slots of the hash index.
    pub dk_log2_size: u8,
    /// Log2 of the size in bytes of the hash index.
    pub dk_log2_index_bytes: u8,
    /// Kind of keys: general, interned text, or split.
    pub dk_kind: u8,
    /// Version tag, reset by any modification of the keys.
    pub dk_version: u32,
    /// Number of entry slots still free.
    pub dk_usable: usize,
    /// Number of entry slots in use, tombstones included.
    pub dk_nentries: usize,
    /// The packed entry array.
    pub dk_entries: Vec<PyDictUnicodeEntry>,
}

/// The values held by the live slots of `s`, in slot order.
pub open spec fn live_values(s: Seq<PyDictUnicodeEntry>) -> Seq<usize>
    decreases s.len(),
{
    if s.len() == 0 {
        Seq::empty()
    } else {
        let rest = live_values(s.drop_last());
        match s.last().me_value {
            Some(v) => rest.push(v),
            None => rest,
        }
    }
}

/// Whether a slot holds a value rather than a tombstone.
pub open spec fn is_live(e: PyDictUnicodeEntry) -> bool {
    e.me_value is Some
}

/// The live slots of `s`, in slot order.
pub open spec fn live_slots(s: Seq<PyDictUnicodeEntry>) -> Seq<PyDictUnicodeEntry> {
    s.filter(|e: PyDictUnicodeEntry| is_live(e))
}

proof fn lemma_live_values_of_live_slots(s: Seq<PyDictUnicodeEntry>)
    ensures
        live_values(s) == live_slots(s).map_values(|e: PyDictUnicodeEntry| e.me_value->0),
    decreases s.len(),
{
    reveal(Seq::filter);
    if s.len() > 0 {
        lemma_live_values_of_live_slots(s.drop_last());
    }
    assert(live_values(s) =~= live_slots(s).map_values(|e: PyDictUnicodeEntry| e.me_value->0));
}

/// Decoding a table, in either direction, yields exactly the values of its
/// live slots: one value per live slot, in slot order or its reverse, and
/// nothing for a tombstone.
pub proof fn lemma_decode_yields_live_slots(d: PyDictKeysObject)
    requires
        d.wf(),
    ensures
        d.values_spec() == live_slots(d.used_slots()).map_values(
            |e: PyDictUnicodeEntry| e.me_value->0,
        ),
        d.values_spec().len() == live_slots(d.used_slots()).len(),
        d.values_spec().reverse().len() == live_slots(d.used_slots()).len(),
        forall|k: int|
            0 <= k < d.values_spec().len() ==> d.values_spec().reverse()[k]
                == live_slots(d.used_slots())[d.values_spec().len() - 1 - k].me_value->0,
{
    lemma_live_values_of_live_slots(d.used_slots());
}

impl PyDictKeysObject {
    /// The header's counters describe slots that the entry array holds.
    pub open spec fn wf(&self) -> bool {
        self.dk_nentries <= self.dk_entries@.len()
    }

    /// The slots in use, tombstones included.
    pub open spec fn used_slots(&self) -> Seq<PyDictUnicodeEntry> {
        self.dk_entries@.subrange(0, self.dk_nentries as int)
    }

    /// The values of the table in insertion order.
    pub open spec fn values_spec(&self) -> Seq<usize> {
        live_values(self.used_slots())
    }

    /// Whether this table holds interned-text keys only, the one layout
    /// that the direct decoders read.
    pub fn is_unicode(&self) -> (r: bool)
        ensures
            r == (self.dk_kind == DICT_KEYS_UNICODE),
    {
        self.dk_kind == DICT_KEYS_UNICODE
    }

    /// Byte offset of the entry array from the start of the hash index:
    /// the index occupies `1 << dk_log2_index_bytes` bytes.
    pub fn entries_ptr(&self) -> (r: u64)
        requires
            self.dk_log2_index_bytes < 64,
        ensures
            r as nat == pow2(self.dk_log2_index_bytes as nat),
    {
        let sh = self.dk_log2_index_bytes as u64;
        proof {
            vstd::bits::lemma_u64_pow2_no_overflow(sh as nat);
            vstd::bits::lemma_u64_shl_is_mul(1u64, sh);
        }
        1u64 << sh
    }

    /// The slots in use, tombstones included, in insertion order.
    pub fn unicode_entries(&self) -> (r: &[PyDictUnicodeEntry])
        requires
            self.wf(),
        ensures
            r@ == self.used_slots(),
    {
        vstd::slice::slice_subrange(self.dk_entries.as_slice(), 0, self.dk_nentries)
    }

    /// The values of the live slots in insertion order, in one linear pass
    /// over the entry array.
    pub fn values_forward(&self) -> (r: Vec<usize>)
        requires
            self.wf(),
        ensures
            r@ == self.values_spec(),
    {
        let mut r: Vec<usize> = Vec::new();
        let n = self.dk_nentries;
        let mut i: usize = 0;
        while i < n
            invariant
                self.wf(),
                n == self.dk_nentries,
                i <= n,
                r@ == live_values(self.dk_entries@.subrange(0, i as int)),
            decreases n - i,
        {
            let e = self.dk_entries[i];
            proof {
                assert(self.dk_entries@.subrange(0, i + 1).drop_last()
                    =~= self.dk_entries@.subrange(0, i as int));
            }
            if let Some(v) = e.me_value {
                r.push(v);
            }
            i = i + 1;
        }
        r
    }

    /// The values of the live slots in reverse insertion order.
    pub fn values_reverse(&self) -> (r: Vec<usize>)
        requires
            self.wf(),
        ensures
            r@ == self.values_spec().reverse(),
    {
        let mut it = ReverseDictValuesIter::new(self);
        let mut r: Vec<usize> = Vec::new();
        loop
            invariant
                self.wf(),
                it.keys == self,
                it.current <= self.dk_nentries,
                r@ + it.remaining() == self.values_spec().reverse(),
            ensures
                r@ == self.values_spec().reverse(),
            decreases it.current,
        {
            match it.next() {
                Some(v) => {
                    r.push(v);
                    assert(r@ + it.remaining() =~= self.values_spec().reverse());
                },
                None => {
                    assert(r@ =~= self.values_spec().reverse());
                    break;
                },
            }
        }
        r
    }
}

/// Reads the values of a text-keyed table from its last used slot back to
/// its first, skipping tombstones.
pub struct ReverseDictValuesIter<'a> {
    pub keys: &'a PyDictKeysObject,
    pub current: usize,
}

impl<'a> ReverseDictValuesIter<'a> {
    /// The values still to come, in the order they will come.
    pub open spec fn remaining(&self) -> Seq<usize> {
        live_values(self.keys.dk_entries@.subrange(0, self.current as int)).reverse()
    }

    /// Starts after the last used slot.
    pub fn new(keys: &'a PyDictKeysObject) -> (r: Self)
        requires
            keys.wf(),
        ensures
            r.keys == keys,
            r.current == keys.dk_nentries,
            r.remaining() == keys.values_spec().reverse(),
    {
        ReverseDictValuesIter { keys, current: keys.dk_nentries }
    }

    /// The next live value going backwards, or `None` once the first slot
    /// has been passed.
    pub fn next(&mut self) -> (r: Option<usize>)
        requires
            old(self).keys.wf(),
            old(self).current <= old(self).keys.dk_nentries,
        ensures
            final(self).keys == old(self).keys,
            final(self).current <= old(self).current,
            match r {
                Some(v) => old(self).remaining() == seq![v] + final(self).remaining()
                    && final(self).current < old(self).current,
                None => old(self).remaining().len() == 0 && final(self).current == 0,
            },
    {
        while self.current > 0
            invariant
                self.keys == old(self).keys,
                self.keys.wf(),
                self.current <= old(self).current,
                old(self).current <= self.keys.dk_nentries,
                self.remaining() == old(self).remaining(),
            decreases self.current,
        {
            self.current = self.current - 1;
            let e = self.keys.dk_entries[self.current];
            let ghost s = self.keys.dk_entries@;
            proof {
                assert(s.subrange(0, self.current + 1).drop_last()
                    =~= s.subrange(0, self.current as int));
            }
            if let Some(v) = e.me_value {
                proof {
                    let pre = live_values(s.subrange(0, self.current as int));
                    assert(pre.push(v).reverse() =~= seq![v] + pre.reverse());
                }
                return Some(v);
            }
        }
        assert(self.keys.dk_entries@.subrange(0, 0) =~= Seq::<PyDictUnicodeEntry>::empty());
        None
    }
}

} // verus!
