//! Stable external ids on top of [`RotorQuantIndex`].
//!
//! [`RotorQuantIndex`] stores vectors positionally: `swap_remove`
//! invalidates external references because the previously-last vector
//! moves into the deleted slot. `IdMapIndex` wraps it with a bidirectional
//! `id <-> slot` mapping so callers can identify vectors by a stable `u64`
//! id.
use std::collections::HashMap;
use vstd::prelude::*;
use crate::index::{RotorQuantIndex, swap_remove_rows, swap_remove_norms};
use crate::io::{self, FormatError};
use crate::rotor::Rotation;
use crate::{DEFAULT_ROTATION, DEFAULT_ROTOR_SEED};

verus! {

broadcast use vstd::std_specs::hash::group_hash_axioms;

/// Each of the first `upto` ids maps to its own slot.
spec fn prefix_has_slots(ids: Seq<u64>, map: Map<u64, usize>, upto: int) -> bool {
    forall|t: int| 0 <= t < upto ==> #[trigger] map.contains_key(ids[t]) && map[ids[t]] == t
}

/// Each mapped id sits, among the first `upto` slots, in the slot it maps to.
spec fn slots_in_prefix(ids: Seq<u64>, map: Map<u64, usize>, upto: int) -> bool {
    forall|x: u64| #[trigger]
        map.contains_key(x) ==> map[x] < upto && ids[map[x] as int] == x
}

/// A [`RotorQuantIndex`] addressed by stable external `u64` ids: slot `s`
/// of the store holds the vector of id `slot_to_id[s]`, and `id_to_slot`
/// maps every present id back to its slot.
pub struct IdMapIndex {
    inner: RotorQuantIndex,
    slot_to_id: Vec<u64>,
    id_to_slot: HashMap<u64, usize>,
}

/// No id occurs twice.
pub open spec fn distinct_ids(ids: Seq<u64>) -> bool {
    forall|i: int, j: int| 0 <= i < j < ids.len() ==> ids[i] != ids[j]
}

/// The stored bytes of row `s` (rows of `row` bytes).
pub open spec fn row_at(codes: Seq<u8>, s: int, row: int) -> Seq<u8> {
    codes.subrange(s * row, s * row + row)
}

/// After `swap_remove(s)`, every remaining row keeps its bytes, except row
/// `s`, which takes the bytes of the old last row.
pub proof fn lemma_swap_remove_row(codes: Seq<u8>, s: int, n: int, row: int, t: int)
    requires
        0 <= s < n,
        0 <= t < n - 1,
        row >= 0,
        codes.len() == n * row,
    ensures
        row_at(swap_remove_rows(codes, s, n, row), t, row) == if t == s {
            row_at(codes, n - 1, row)
        } else {
            row_at(codes, t, row)
        },
{
    let new = swap_remove_rows(codes, s, n, row);
    assert(t * row + row <= (n - 1) * row && (n - 1) * row + row == n * row) by (nonlinear_arith)
        requires
            t < n - 1,
            row >= 0,
    ;
    if t == s {
        assert(row_at(new, t, row) =~= row_at(codes, n - 1, row));
    } else {
        assert forall|j: int| 0 <= j < row implies #[trigger] row_at(new, t, row)[j] == row_at(
            codes,
            t,
            row,
        )[j] by {
            assert(!(s * row <= t * row + j < s * row + row)) by (nonlinear_arith)
                requires
                    t != s,
                    0 <= j < row,
                    t >= 0,
                    s >= 0,
            ;
        }
        assert(row_at(new, t, row) =~= row_at(codes, t, row));
    }
}

impl IdMapIndex {
    /// The positional store underneath.
    pub closed spec fn store(&self) -> RotorQuantIndex {
        self.inner
    }

    /// The id of each slot, in slot order.
    pub closed spec fn ids(&self) -> Seq<u64> {
        self.slot_to_id@
    }

    /// The slot of each id.
    pub closed spec fn slots(&self) -> Map<u64, usize> {
        self.id_to_slot@
    }

    /// The id table and the slot map describe the same bijection between
    /// ids and the slots of the store.
    pub open spec fn wf(&self) -> bool {
        &&& self.store().wf()
        &&& self.ids().len() == self.store().spec_len()
        &&& self.ids_have_slots()
        &&& self.slots_have_ids()
    }

    /// Every slot's id maps back to that slot.
    pub open spec fn ids_have_slots(&self) -> bool {
        forall|s: int|
            0 <= s < self.ids().len() ==> #[trigger] self.slots().contains_key(self.ids()[s])
                && self.slots()[self.ids()[s]] == s
    }

    /// Every mapped id sits in the slot it maps to.
    pub open spec fn slots_have_ids(&self) -> bool {
        forall|x: u64| #[trigger]
            self.slots().contains_key(x) ==> self.slots()[x] < self.ids().len()
                && self.ids()[self.slots()[x] as int] == x
    }

    /// The stored codes and norm bits of slot `s`.
    pub open spec fn entry_at(&self, s: int) -> (Seq<u8>, u32) {
        (row_at(self.store().codes(), s, self.store().row()), self.store().norm_bits()[s])
    }

    /// What the index holds: for each present id, the bit-plane codes and
    /// the norm bits of its vector.
    pub open spec fn contents(&self) -> Map<u64, (Seq<u8>, u32)> {
        Map::new(
            |id: u64| self.slots().contains_key(id),
            |id: u64| self.entry_at(self.slots()[id] as int),
        )
    }

    /// An empty index with the default rotation and seed. `dim` must be a
    /// multiple of 8; `bits` must be 2, 3, or 4.
    pub fn new(dim: usize, bits: usize) -> (r: Self)
        requires
            2 <= bits <= 4,
            dim % 8 == 0,
        ensures
            r.wf(),
            r.contents().is_empty(),
            r.ids().len() == 0,
            r.store().spec_dim() == dim,
            r.store().spec_bits() == bits,
            r.store().spec_rotation() == DEFAULT_ROTATION,
            r.store().spec_seed() == DEFAULT_ROTOR_SEED,
    {
        Self::with_options(dim, bits, DEFAULT_ROTATION, DEFAULT_ROTOR_SEED)
    }

    /// An empty index with an explicit rotation kind and the default seed.
    pub fn with_rotation(dim: usize, bits: usize, rotation: Rotation) -> (r: Self)
        requires
            2 <= bits <= 4,
            dim % 8 == 0,
        ensures
            r.wf(),
            r.contents().is_empty(),
            r.ids().len() == 0,
            r.store().spec_dim() == dim,
            r.store().spec_bits() == bits,
            r.store().spec_rotation() == rotation,
            r.store().spec_seed() == DEFAULT_ROTOR_SEED,
    {
        Self::with_options(dim, bits, rotation, DEFAULT_ROTOR_SEED)
    }

    /// An empty index with the default rotation and an explicit seed.
    pub fn with_seed(dim: usize, bits: usize, seed: u64) -> (r: Self)
        requires
            2 <= bits <= 4,
            dim % 8 == 0,
        ensures
            r.wf(),
            r.contents().is_empty(),
            r.ids().len() == 0,
            r.store().spec_dim() == dim,
            r.store().spec_bits() == bits,
            r.store().spec_rotation() == DEFAULT_ROTATION,
            r.store().spec_seed() == seed,
    {
        Self::with_options(dim, bits, DEFAULT_ROTATION, seed)
    }

    /// An empty index with an explicit rotation kind and seed.
    pub fn with_options(dim: usize, bits: usize, rotation: Rotation, seed: u64) -> (r: Self)
        requires
            2 <= bits <= 4,
            dim % 8 == 0,
        ensures
            r.wf(),
            r.contents().is_empty(),
            r.ids().len() == 0,
            r.store().spec_dim() == dim,
            r.store().spec_bits() == bits,
            r.store().spec_rotation() == rotation,
            r.store().spec_seed() == seed,
    {
        let r = IdMapIndex {
            inner: RotorQuantIndex::with_options(dim, bits, rotation, seed),
            slot_to_id: Vec::new(),
            id_to_slot: HashMap::new(),
        };
        assert(r.contents() =~= Map::empty());
        r
    }

    /// Remove the vector with the given id. O(1). Returns whether the id
    /// was present; every other id keeps its vector. The last slot's id and
    /// vector move into the freed slot, as in `RotorQuantIndex::swap_remove`.
    #[verifier::spinoff_prover]
    pub fn remove(&mut self, id: u64) -> (removed: bool)
        requires
            old(self).wf(),
            old(self).store().spec_dim() % 8 == 0,
        ensures
            final(self).wf(),
            removed == old(self).contents().contains_key(id),
            final(self).contents() == old(self).contents().remove(id),
            removed ==> final(self).ids() == old(self).ids().update(
                old(self).slots()[id] as int,
                old(self).ids().last(),
            ).drop_last(),
            removed ==> final(self).store().codes() == swap_remove_rows(
                old(self).store().codes(),
                old(self).slots()[id] as int,
                old(self).ids().len() as int,
                old(self).store().row(),
            ),
            removed ==> final(self).store().norm_bits() == swap_remove_norms(
                old(self).store().norm_bits(),
                old(self).slots()[id] as int,
            ),
            !removed ==> final(self).ids() == old(self).ids(),
            !removed ==> final(self).store() == old(self).store(),
            final(self).ids().len() == old(self).ids().len() - if removed {
                1int
            } else {
                0int
            },
            final(self).store().spec_dim() == old(self).store().spec_dim(),
            final(self).store().spec_bits() == old(self).store().spec_bits(),
            final(self).store().spec_rotation() == old(self).store().spec_rotation(),
            final(self).store().spec_seed() == old(self).store().spec_seed(),
    {
        let ghost old_self = *self;
        let slot = match self.id_to_slot.remove(&id) {
            Some(s) => s,
            None => {
                assert(self.contents() =~= old_self.contents().remove(id));
                return false;
            },
        };
        assert(old_self.slots().contains_key(id) && old_self.slots()[id] == slot);
        let ghost n = old_self.ids().len() as int;
        let ghost row = old_self.store().row();
        let last = self.slot_to_id.len() - 1;
        self.inner.swap_remove(slot);
        if slot != last {
            let moved_id = self.slot_to_id[last];
            self.slot_to_id.set(slot, moved_id);
            self.id_to_slot.insert(moved_id, slot);
        }
        self.slot_to_id.pop();
        proof {
            let old_ids = old_self.ids();
            let old_slots = old_self.slots();
            assert(old_self.ids_have_slots());
            assert(old_self.slots_have_ids());
            assert(old_ids[slot as int] == id);
            // the new slot table
            assert forall|s: int| 0 <= s < self.ids().len() implies #[trigger] self.ids()[s] == if s
                == slot {
                old_ids[n - 1]
            } else {
                old_ids[s]
            } by {}
            // the id table and slot map still agree
            assert(old_slots.contains_key(old_ids[n - 1]) && old_slots[old_ids[n - 1]] == n - 1);
            assert forall|s: int| 0 <= s < self.ids().len() implies #[trigger] self.slots().contains_key(
                self.ids()[s],
            ) && self.slots()[self.ids()[s]] == s by {
                if s == slot {
                    assert(slot != last);
                    assert(self.ids()[s] == old_ids[n - 1]);
                } else {
                    assert(self.ids()[s] == old_ids[s]);
                    assert(0 <= s < n);
                    assert(old_self.slots().contains_key(old_self.ids()[s]));
                    assert(old_slots.contains_key(old_ids[s]) && old_slots[old_ids[s]] == s);
                    assert(old_ids[s] != id);
                    assert(old_ids[s] != old_ids[n - 1]);
                }
            }
            assert forall|x: u64| #[trigger] self.slots().contains_key(x) implies self.slots()[x]
                < self.ids().len() && self.ids()[self.slots()[x] as int] == x by {
                if x != old_ids[n - 1] || slot == last {
                    assert(old_slots.contains_key(x) && x != id);
                    assert(old_slots[x] != slot);
                    assert(old_slots[x] != n - 1 || slot == last);
                }
            }
            assert(self.store().wf());
            assert(self.ids().len() == self.store().spec_len());
            assert(self.ids_have_slots());
            assert(self.slots_have_ids());
            assert(self.wf());
            // every other id keeps its entry
            assert forall|x: u64| #[trigger] self.contents().contains_key(x) implies self.entry_at(
                self.slots()[x] as int,
            ) == old_self.entry_at(old_slots[x] as int) by {
                let t = self.slots()[x] as int;
                lemma_swap_remove_row(old_self.store().codes(), slot as int, n, row, t);
                if t == slot {
                    assert(x == old_ids[n - 1]);
                    assert(old_slots[x] == n - 1);
                } else {
                    assert(old_slots[x] == t);
                }
            }
            assert(self.contents() =~= old_self.contents().remove(id));
        }
        true
    }

    /// Add already encoded vectors (one row of `store().row()` bytes and
    /// one norm per vector) under the given ids. The ids must be new and
    /// distinct. Every id already present keeps its vector.
    pub fn add_encoded_with_ids(&mut self, packed: &[u8], norms: &[u32], ids: &[u64])
        requires
            old(self).wf(),
            ids@.len() == norms@.len(),
            packed@.len() == norms@.len() * old(self).store().row(),
            old(self).ids().len() + ids@.len() <= usize::MAX,
            distinct_ids(ids@),
            forall|i: int| 0 <= i < ids@.len() ==> !old(self).contents().contains_key(#[trigger] ids@[i]),
        ensures
            final(self).wf(),
            final(self).ids() == old(self).ids() + ids@,
            final(self).contents().dom() == old(self).contents().dom() + ids@.to_set(),
            forall|x: u64| #[trigger]
                old(self).contents().contains_key(x) ==> final(self).contents()[x] == old(
                    self,
                ).contents()[x],
            forall|i: int|
                0 <= i < ids@.len() ==> #[trigger] final(self).contents()[ids@[i]] == (
                row_at(packed@, i, old(self).store().row()),
                norms@[i],
            ),
            final(self).store().spec_dim() == old(self).store().spec_dim(),
            final(self).store().spec_bits() == old(self).store().spec_bits(),
            final(self).store().spec_rotation() == old(self).store().spec_rotation(),
            final(self).store().spec_seed() == old(self).store().spec_seed(),
    {
        let ghost old_self = *self;
        let base = self.slot_to_id.len();
        for i in 0..ids.len()
            invariant
                base == old_self.ids().len(),
                base + ids@.len() <= usize::MAX,
                self.slot_to_id == old_self.slot_to_id,
                self.inner == old_self.inner,
                distinct_ids(ids@),
                forall|t: int| 0 <= t < ids@.len() ==> !old_self.contents().contains_key(#[trigger] ids@[t]),
                self.id_to_slot@ == old_self.id_to_slot@.union_prefer_right(
                    Map::new(
                        |x: u64| ids@.take(i as int).contains(x),
                        |x: u64| (base + ids@.take(i as int).index_of(x)) as usize,
                    ),
                ),
        {
            let ghost before = self.id_to_slot@;
            self.id_to_slot.insert(ids[i], base + i);
            proof {
                let take_i = ids@.take(i as int);
                let take_n = ids@.take(i + 1);
                assert(take_n =~= take_i.push(ids@[i as int]));
                assert(!take_i.contains(ids@[i as int]));
                assert forall|x: u64| take_i.contains(x) implies take_n.index_of(x) == take_i.index_of(x)
                    by {
                    let a = take_i.index_of(x);
                    assert(take_n.contains(x)) by {
                        assert(take_n[a] == x);
                    }
                    let b = take_n.index_of(x);
                    assert(ids@[a] == x && ids@[b] == x);
                }
                assert(take_n.index_of(ids@[i as int]) == i) by {
                    assert(take_n[i as int] == ids@[i as int]);
                    let b = take_n.index_of(ids@[i as int]);
                    assert(ids@[b] == ids@[i as int]);
                }
                let m_i = Map::new(
                    |x: u64| take_i.contains(x),
                    |x: u64| (base + take_i.index_of(x)) as usize,
                );
                let m_n = Map::new(
                    |x: u64| take_n.contains(x),
                    |x: u64| (base + take_n.index_of(x)) as usize,
                );
                assert(before == old_self.id_to_slot@.union_prefer_right(m_i));
                assert(self.id_to_slot@ == before.insert(ids@[i as int], (base + i) as usize));
                assert forall|x: u64| #[trigger] take_n.contains(x) implies x == ids@[i as int]
                    || take_i.contains(x) by {
                    let t = choose|t: int| 0 <= t < take_n.len() && take_n[t] == x;
                    if t < i {
                        assert(take_i[t] == x);
                    }
                }
                assert forall|x: u64| #[trigger] take_i.contains(x) implies take_n.contains(x) by {
                    let t = choose|t: int| 0 <= t < take_i.len() && take_i[t] == x;
                    assert(take_n[t] == x);
                }
                assert(take_n.contains(ids@[i as int])) by {
                    assert(take_n[i as int] == ids@[i as int]);
                }
                assert(self.id_to_slot@ =~= old_self.id_to_slot@.union_prefer_right(m_n));
            }
        }
        let mut more = vstd::slice::slice_to_vec(ids);
        self.slot_to_id.append(&mut more);
        self.inner.add_encoded(packed, norms);
        proof {
            let row = old_self.store().row();
            let n_new = ids@.len() as int;
            assert(ids@.take(n_new) =~= ids@);
            let added = Map::new(|x: u64| ids@.contains(x), |x: u64| (base + ids@.index_of(x)) as usize);
            assert(self.slots() == old_self.slots().union_prefer_right(added));
            assert forall|t: int| 0 <= t < n_new implies ids@.index_of(#[trigger] ids@[t]) == t by {
                assert(ids@.contains(ids@[t]));
                let b = ids@.index_of(ids@[t]);
                assert(ids@[b] == ids@[t]);
            }
            assert(self.ids_have_slots()) by {
                assert forall|s: int| 0 <= s < self.ids().len() implies #[trigger] self.slots().contains_key(
                    self.ids()[s],
                ) && self.slots()[self.ids()[s]] == s by {
                    if s < base {
                        assert(old_self.slots().contains_key(old_self.ids()[s]));
                        assert(self.ids()[s] == old_self.ids()[s]);
                        assert(!ids@.contains(old_self.ids()[s])) by {
                            if ids@.contains(old_self.ids()[s]) {
                                let t = choose|t: int| 0 <= t < n_new && ids@[t] == old_self.ids()[s];
                                assert(old_self.contents().contains_key(ids@[t]));
                            }
                        }
                    } else {
                        assert(self.ids()[s] == ids@[s - base]);
                        assert(ids@.contains(ids@[s - base]));
                    }
                }
            }
            assert(self.slots_have_ids()) by {
                assert forall|x: u64| #[trigger] self.slots().contains_key(x) implies self.slots()[x]
                    < self.ids().len() && self.ids()[self.slots()[x] as int] == x by {
                    if ids@.contains(x) {
                    } else {
                        assert(old_self.slots().contains_key(x));
                    }
                }
            }
            assert(self.wf());
            assert forall|s: int| 0 <= s < base implies #[trigger] self.entry_at(s) == old_self.entry_at(s) by {
                assert(s * row + row <= base * row) by (nonlinear_arith)
                    requires
                        s < base,
                        row >= 0,
                ;
                assert(row_at(self.store().codes(), s, row) =~= row_at(old_self.store().codes(), s, row));
            }
            assert forall|t: int| 0 <= t < n_new implies #[trigger] self.entry_at(base + t) == (
                row_at(packed@, t, row),
                norms@[t],
            ) by {
                assert((base + t) * row == base * row + t * row && t * row + row <= n_new * row)
                    by (nonlinear_arith)
                    requires
                        0 <= t < n_new,
                        row >= 0,
                ;
                assert(row_at(self.store().codes(), base + t, row) =~= row_at(packed@, t, row));
            }
            assert forall|x: u64| #[trigger] old_self.contents().contains_key(x) implies self.contents()[x]
                == old_self.contents()[x] by {
                assert(!ids@.contains(x)) by {
                    if ids@.contains(x) {
                        let t = choose|t: int| 0 <= t < n_new && ids@[t] == x;
                        assert(!old_self.contents().contains_key(ids@[t]));
                    }
                }
                assert(self.slots()[x] == old_self.slots()[x]);
                assert(self.entry_at(old_self.slots()[x] as int) == old_self.entry_at(old_self.slots()[x] as int));
            }
            assert forall|t: int| 0 <= t < n_new implies #[trigger] self.contents()[ids@[t]] == (
                row_at(packed@, t, row),
                norms@[t],
            ) by {
                assert(ids@.contains(ids@[t]));
                assert(self.slots()[ids@[t]] == base + t);
            }
            assert(self.contents().dom() =~= old_self.contents().dom() + ids@.to_set());
        }
    }

    /// Serialize as a `.rvim` file.
    pub fn write(&self) -> (out: Vec<u8>)
        requires
            self.wf(),
        ensures
            out@ == io::rvim_bytes(
                self.store().spec_bits(),
                self.store().spec_dim(),
                self.store().spec_len(),
                self.store().spec_rotation(),
                self.store().spec_seed(),
                self.store().codes(),
                self.store().norm_bits(),
                self.ids(),
            ),
    {
        io::write_id_map(
            self.inner.bits(),
            self.inner.dim(),
            self.inner.len(),
            self.inner.rotation(),
            self.inner.seed(),
            self.inner.packed_codes(),
            self.inner.norms(),
            self.slot_to_id.as_slice(),
        )
    }

    /// Parse a `.rvim` file. Fails with the format error of the data, or
    /// with `DuplicateIds` when the data is well formed but its id table
    /// names an id twice.
    #[verifier::spinoff_prover]
    pub fn load(data: &[u8]) -> (r: Result<Self, FormatError>)
        ensures
            match r {
                Ok(m) => {
                    &&& io::rvim_error(data@) is None
                    &&& distinct_ids(io::stored_ids(data@))
                    &&& m.wf()
                    &&& m.ids() == io::stored_ids(data@)
                    &&& m.store().spec_bits() == io::stored_bits(data@)
                    &&& m.store().spec_dim() == io::stored_dim(data@)
                    &&& m.store().spec_rotation() == io::stored_rotation(data@)
                    &&& m.store().spec_seed() == io::stored_seed(data@)
                    &&& m.store().codes() == io::stored_packed(data@)
                    &&& m.store().norm_bits() == io::stored_norms(data@)
                },
                Err(e) => io::rvim_error(data@) == Some(e) || (io::rvim_error(data@) is None
                    && e == FormatError::DuplicateIds && !distinct_ids(io::stored_ids(data@))),
            },
    {
        let (bits, dim, n_vectors, rotation, seed, packed_codes, norms, slot_to_id) =
            io::load_id_map(data)?;
        proof {
            assert(packed_codes@.len() == n_vectors * crate::pack::row_bytes(dim as int, bits as int))
                by (nonlinear_arith)
                requires
                    packed_codes@.len() == (dim / 8) as int * bits as int * n_vectors as int,
            ;
        }
        let inner = RotorQuantIndex::from_parts(
            dim,
            bits,
            rotation,
            n_vectors,
            seed,
            packed_codes,
            norms,
        );
        let mut id_to_slot: HashMap<u64, usize> = HashMap::new();
        let n_ids = slot_to_id.len();
        let mut s: usize = 0;
        while s < n_ids
            invariant
                s <= n_ids,
                n_ids == slot_to_id@.len(),
                io::rvim_error(data@) is None,
                slot_to_id@ == io::stored_ids(data@),
                forall|a: int, b: int| 0 <= a < b < s ==> slot_to_id@[a] != slot_to_id@[b],
                prefix_has_slots(slot_to_id@, id_to_slot@, s as int),
                slots_in_prefix(slot_to_id@, id_to_slot@, s as int),
            decreases n_ids - s,
        {
            let id = slot_to_id[s];
            if id_to_slot.contains_key(&id) {
                proof {
                    let t = id_to_slot@[id] as int;
                    assert(t < s && slot_to_id@[t] == slot_to_id@[s as int]);
                    assert(!distinct_ids(slot_to_id@));
                }
                return Err(FormatError::DuplicateIds);
            }
            id_to_slot.insert(id, s);
            s = s + 1;
        }
        let ghost ids = slot_to_id@;
        let ghost map = id_to_slot@;
        assert(prefix_has_slots(ids, map, ids.len() as int));
        assert(slots_in_prefix(ids, map, ids.len() as int));
        let m = IdMapIndex { inner, slot_to_id, id_to_slot };
        assert(m.ids() == ids && m.slots() == map);
        assert(m.ids_have_slots());
        assert(m.slots_have_ids());
        Ok(m)
    }

    /// Whether `id` is present.
    pub fn contains(&self, id: u64) -> (b: bool)
        requires
            self.wf(),
        ensures
            b == self.contents().contains_key(id),
    {
        self.id_to_slot.contains_key(&id)
    }

    /// Number of present ids (and stored vectors).
    pub fn len(&self) -> (n: usize)
        requires
            self.wf(),
        ensures
            n == self.ids().len(),
            n == self.contents().len(),
    {
        proof {
            self.lemma_contents_len();
        }
        self.slot_to_id.len()
    }

    /// Whether no id is present.
    pub fn is_empty(&self) -> (b: bool)
        requires
            self.wf(),
        ensures
            b == (self.ids().len() == 0),
            b == self.contents().is_empty(),
    {
        proof {
            self.lemma_contents_len();
            if self.ids().len() > 0 {
                assert(self.contents().contains_key(self.ids()[0]));
            }
        }
        self.slot_to_id.len() == 0
    }

    /// The number of present ids is the number of slots.
    proof fn lemma_contents_len(&self)
        requires
            self.wf(),
        ensures
            self.contents().len() == self.ids().len(),
            self.contents().dom() == self.ids().to_set(),
    {
        let dom = self.contents().dom();
        assert(dom =~= self.ids().to_set()) by {
            assert forall|x: u64| dom.contains(x) implies self.ids().to_set().contains(x) by {
                assert(self.ids()[self.slots()[x] as int] == x);
            }
            assert forall|x: u64| self.ids().to_set().contains(x) implies dom.contains(x) by {
                let s = choose|s: int| 0 <= s < self.ids().len() && self.ids()[s] == x;
                assert(self.slots().contains_key(self.ids()[s]));
            }
        }
        assert(self.ids().no_duplicates()) by {
            assert forall|i: int, j: int|
                0 <= i < self.ids().len() && 0 <= j < self.ids().len() && i != j implies self.ids()[i]
                != self.ids()[j] by {
                assert(self.slots().contains_key(self.ids()[i]));
                assert(self.slots().contains_key(self.ids()[j]));
            }
        }
        self.ids().unique_seq_to_set();
    }

    /// Vector dimension.
    pub fn dim(&self) -> (d: usize)
        ensures
            d == self.store().spec_dim(),
    {
        self.inner.dim()
    }

    /// Bits per quantized coordinate.
    pub fn bits(&self) -> (b: usize)
        ensures
            b == self.store().spec_bits(),
    {
        self.inner.bits()
    }

    /// Rotation kind.
    pub fn rotation(&self) -> (r: Rotation)
        ensures
            r == self.store().spec_rotation(),
    {
        self.inner.rotation()
    }

    /// The positional store underneath; slot `s` of it holds the vector of
    /// id `ids()[s]`.
    pub fn index(&self) -> (r: &RotorQuantIndex)
        ensures
            *r == self.store(),
    {
        &self.inner
    }

    /// Map search result slots to external ids; the padding slot `-1` (and
    /// any negative slot) maps to `u64::MAX`.
    pub fn ids_for_slots(&self, slots: &[i64]) -> (ids: Vec<u64>)
        requires
            self.wf(),
            forall|i: int| 0 <= i < slots@.len() ==> #[trigger] slots@[i] < self.ids().len(),
        ensures
            ids@.len() == slots@.len(),
            forall|i: int|
                0 <= i < slots@.len() ==> #[trigger] ids@[i] == if slots@[i] < 0 {
                    u64::MAX
                } else {
                    self.ids()[slots@[i] as int]
                },
    {
        let mut ids: Vec<u64> = Vec::new();
        for i in 0..slots.len()
            invariant
                self.wf(),
                forall|t: int| 0 <= t < slots@.len() ==> #[trigger] slots@[t] < self.ids().len(),
                ids@.len() == i,
                forall|t: int|
                    0 <= t < i ==> #[trigger] ids@[t] == if slots@[t] < 0 {
                        u64::MAX
                    } else {
                        self.ids()[slots@[t] as int]
                    },
        {
            let slot = slots[i];
            if slot < 0 {
                ids.push(u64::MAX);
            } else {
                ids.push(self.slot_to_id[slot as usize]);
            }
        }
        ids
    }
}

/// Two well-formed indices with the same id table, codes, norms and row
/// size hold the same contents.
pub proof fn lemma_contents_determined(a: IdMapIndex, b: IdMapIndex)
    requires
        a.wf(),
        b.wf(),
        a.ids() == b.ids(),
        a.store().codes() == b.store().codes(),
        a.store().norm_bits() == b.store().norm_bits(),
        a.store().row() == b.store().row(),
    ensures
        a.contents() == b.contents(),
{
    assert forall|x: u64| a.slots().contains_key(x) <==> b.slots().contains_key(x) by {
        if a.slots().contains_key(x) {
            assert(a.ids()[a.slots()[x] as int] == x);
            assert(b.slots().contains_key(b.ids()[a.slots()[x] as int]));
        }
        if b.slots().contains_key(x) {
            assert(b.ids()[b.slots()[x] as int] == x);
            assert(a.slots().contains_key(a.ids()[b.slots()[x] as int]));
        }
    }
    assert forall|x: u64| #[trigger] a.slots().contains_key(x) implies a.slots()[x] == b.slots()[x] by {
        let s = a.slots()[x] as int;
        assert(a.ids()[s] == x);
        assert(b.slots().contains_key(b.ids()[s]));
    }
    assert(a.contents() =~= b.contents());
}

/// Removing an id right after adding it restores the contents from before
/// the add: the state `after` holds everything `before` held, unchanged,
/// plus the new id.
pub proof fn lemma_remove_undoes_add(before: IdMapIndex, after: IdMapIndex, id: u64)
    requires
        !before.contents().contains_key(id),
        after.contents().dom() == before.contents().dom().insert(id),
        forall|x: u64| #[trigger]
            before.contents().contains_key(x) ==> after.contents()[x] == before.contents()[x],
    ensures
        after.contents().remove(id) == before.contents(),
{
    assert(after.contents().remove(id) =~= before.contents());
}

/// Writing an id-mapped index and reading the bytes back gives a well-formed
/// file whose id table has no duplicate and whose every field is the
/// index's own, whenever the fields fit the format.
pub proof fn lemma_id_map_write_load(m: IdMapIndex)
    requires
        m.wf(),
        m.store().spec_bits() <= 255,
        m.store().spec_dim() <= u32::MAX,
        m.store().spec_len() <= u32::MAX,
    ensures
        ({
            let d = io::rvim_bytes(
                m.store().spec_bits(),
                m.store().spec_dim(),
                m.store().spec_len(),
                m.store().spec_rotation(),
                m.store().spec_seed(),
                m.store().codes(),
                m.store().norm_bits(),
                m.ids(),
            );
            &&& io::rvim_error(d) is None
            &&& distinct_ids(io::stored_ids(d))
            &&& io::stored_ids(d) == m.ids()
            &&& io::stored_bits(d) == m.store().spec_bits()
            &&& io::stored_dim(d) == m.store().spec_dim()
            &&& io::stored_rotation(d) == m.store().spec_rotation()
            &&& io::stored_seed(d) == m.store().spec_seed()
            &&& io::stored_packed(d) == m.store().codes()
            &&& io::stored_norms(d) == m.store().norm_bits()
        }),
{
    let st = m.store();
    crate::index::lemma_codes_len(st);
    io::lemma_rvim_roundtrip(
        st.spec_bits(),
        st.spec_dim(),
        st.spec_len(),
        st.spec_rotation(),
        st.spec_seed(),
        st.codes(),
        st.norm_bits(),
        m.ids(),
    );
    assert forall|i: int, j: int| 0 <= i < j < m.ids().len() implies m.ids()[i] != m.ids()[j] by {
        assert(m.slots().contains_key(m.ids()[i]));
        assert(m.slots().contains_key(m.ids()[j]));
    }
}

} // verus!
