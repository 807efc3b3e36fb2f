//! The layer catalog: how many bytes each transformer block takes, and how many stay resident.

use std::collections::BTreeMap;
use vstd::arithmetic::div_mod::lemma_fundamental_div_mod;
use vstd::prelude::*;

verus! {

/// What a tensor belongs to.
#[derive(Debug, Clone, Copy, PartialEq, Eq, Structural)]
pub enum TensorRole {
    /// The transformer block of this index.
    Layer(u32),
    /// Nothing that is streamed: the embedding, the head, a norm outside the blocks.
    Pinned,
}

/// A tensor on disk: what it belongs to, and how many bytes it takes.
#[derive(Debug, Clone, Copy)]
pub struct TensorInfo {
    pub role: TensorRole,
    pub byte_len: usize,
}

/// The bytes of the tensors with this role.
pub open spec fn bytes_of(tensors: Seq<TensorInfo>, role: TensorRole) -> nat
    decreases tensors.len(),
{
    if tensors.len() == 0 {
        0
    } else {
        bytes_of(tensors.drop_last(), role) + if tensors.last().role == role {
            tensors.last().byte_len as nat
        } else {
            0
        }
    }
}

/// The bytes of all tensors.
pub open spec fn all_bytes(tensors: Seq<TensorInfo>) -> nat
    decreases tensors.len(),
{
    if tensors.len() == 0 {
        0
    } else {
        all_bytes(tensors.drop_last()) + tensors.last().byte_len as nat
    }
}

/// The bytes of tensors add up: none of no tensors, those of a tensor where it counts, and those
/// of two lists for the one behind the other.
pub proof fn bytes_add_up(
    a: Seq<TensorInfo>,
    b: Seq<TensorInfo>,
    tensor: TensorInfo,
    role: TensorRole,
)
    ensures
        bytes_of(seq![], role) == 0,
        all_bytes(seq![]) == 0,
        tensor.role == role ==> bytes_of(seq![tensor], role) == tensor.byte_len,
        tensor.role != role ==> bytes_of(seq![tensor], role) == 0,
        all_bytes(seq![tensor]) == tensor.byte_len,
        bytes_of(a + b, role) == bytes_of(a, role) + bytes_of(b, role),
        all_bytes(a + b) == all_bytes(a) + all_bytes(b),
    decreases b.len(),
{
    reveal_with_fuel(bytes_of, 2);
    reveal_with_fuel(all_bytes, 2);
    assert(seq![tensor].drop_last() == Seq::<TensorInfo>::empty());
    assert(seq![tensor].last() == tensor);
    if b.len() == 0 {
        assert(a + b == a);
    } else {
        bytes_add_up(a, b.drop_last(), tensor, role);
        assert((a + b).drop_last() == a + b.drop_last());
        assert((a + b).last() == b.last());
    }
}

/// Whether some tensor belongs to block `index`.
pub open spec fn has_layer(tensors: Seq<TensorInfo>, index: u32) -> bool {
    exists|i: int|
        0 <= i < tensors.len() && (#[trigger] tensors[i]).role == TensorRole::Layer(index)
}

/// A block is there where one of the tensors belongs to it.
pub proof fn blocks_are_those_of_tensors(tensors: Seq<TensorInfo>, i: int, index: u32)
    ensures
        0 <= i < tensors.len() && tensors[i].role == TensorRole::Layer(index) ==> has_layer(
            tensors,
            index,
        ),
        (forall|j: int| 0 <= j < tensors.len() ==> (#[trigger] tensors[j]).role
            != TensorRole::Layer(index)) ==> !has_layer(tensors, index),
{
}

/// The bytes of the blocks with an index below `n`.
pub open spec fn sum_below(layers: Map<u32, u64>, n: nat) -> nat
    decreases n,
{
    if n == 0 {
        0
    } else {
        sum_below(layers, (n - 1) as nat) + if layers.contains_key((n - 1) as u32) {
            layers[(n - 1) as u32] as nat
        } else {
            0
        }
    }
}

/// The bytes of all blocks.
pub open spec fn total(layers: Map<u32, u64>) -> nat {
    sum_below(layers, 0x1_0000_0000)
}

/// The bytes that a table has for a block.
pub open spec fn entry(layers: Map<u32, u64>, k: u32) -> nat {
    if layers.contains_key(k) {
        layers[k] as nat
    } else {
        0
    }
}

proof fn lemma_sum_of_insert(layers: Map<u32, u64>, k: u32, v: u64, n: nat)
    requires
        n <= 0x1_0000_0000,
    ensures
        sum_below(layers.insert(k, v), n) + (if k < n {
            entry(layers, k)
        } else {
            0
        }) == sum_below(layers, n) + (if k < n {
            v as nat
        } else {
            0
        }),
    decreases n,
{
    if n > 0 {
        lemma_sum_of_insert(layers, k, v, (n - 1) as nat);
    }
}

/// Replacing an entry changes the total by the difference.
pub proof fn total_of_insert(layers: Map<u32, u64>, k: u32, v: u64)
    ensures
        total(layers.insert(k, v)) + entry(layers, k) == total(layers) + v,
{
    lemma_sum_of_insert(layers, k, v, 0x1_0000_0000);
}

proof fn lemma_sum_of_none(n: nat)
    ensures
        sum_below(Map::empty(), n) == 0,
    decreases n,
{
    if n > 0 {
        lemma_sum_of_none((n - 1) as nat);
    }
}

proof fn lemma_entry_in_sum(layers: Map<u32, u64>, k: u32, n: nat)
    requires
        k < n <= 0x1_0000_0000,
    ensures
        entry(layers, k) <= sum_below(layers, n),
    decreases n,
{
    if k < n - 1 {
        lemma_entry_in_sum(layers, k, (n - 1) as nat);
    }
}

/// Of no block there are no bytes, and one block has its own.
pub proof fn totals_start_at_nothing(k: u32, v: u64)
    ensures
        total(Map::empty()) == 0,
        total(Map::empty().insert(k, v)) == v,
{
    lemma_sum_of_none(0x1_0000_0000);
    total_of_insert(Map::empty(), k, v);
}

/// Each block takes no more than all of them.
pub proof fn entry_is_within_total(layers: Map<u32, u64>, k: u32)
    ensures
        entry(layers, k) <= total(layers),
{
    lemma_entry_in_sum(layers, k, 0x1_0000_0000);
}

proof fn lemma_bytes_within(tensors: Seq<TensorInfo>, i: int)
    requires
        0 <= i <= tensors.len(),
    ensures
        all_bytes(tensors.take(i)) <= all_bytes(tensors),
    decreases tensors.len(),
{
    if i < tensors.len() {
        assert(tensors.drop_last().take(i) == tensors.take(i));
        lemma_bytes_within(tensors.drop_last(), i);
    } else {
        assert(tensors.take(i) == tensors);
    }
}

/// The sizes of a model's weights.
#[derive(Debug)]
pub struct LayerCatalog {
    layer_bytes: BTreeMap<u32, u64>,
    pinned_bytes: u64,
}

impl LayerCatalog {
    /// The bytes of each block.
    pub closed spec fn layers(&self) -> Map<u32, u64> {
        self.layer_bytes@
    }

    /// The bytes that stay resident.
    pub closed spec fn pinned(&self) -> nat {
        self.pinned_bytes as nat
    }

    #[verifier::type_invariant]
    spec fn wf(self) -> bool {
        &&& total(self.layer_bytes@) + self.pinned_bytes <= u64::MAX
        &&& self.layer_bytes@.dom().finite()
    }

    /// Adds up the tensors of a checkpoint: each counts for its block, or as resident.
    pub fn build(tensors: &[TensorInfo]) -> (r: Self)
        requires
            all_bytes(tensors@) <= u64::MAX,
        ensures
            forall|k: u32| #[trigger] r.layers().contains_key(k) <==> has_layer(tensors@, k),
            forall|k: u32| #[trigger]
                r.layers().contains_key(k) ==> r.layers()[k] == bytes_of(
                    tensors@,
                    TensorRole::Layer(k),
                ),
            r.pinned() == bytes_of(tensors@, TensorRole::Pinned),
            r.pinned() + total(r.layers()) == all_bytes(tensors@),
    {
        let mut layer_bytes: BTreeMap<u32, u64> = BTreeMap::new();
        let mut pinned_bytes: u64 = 0;
        let mut i: usize = 0;
        proof {
            lemma_sum_of_none(0x1_0000_0000);
            assert(tensors@.take(0) == Seq::<TensorInfo>::empty());
        }
        while i < tensors.len()
            invariant
                i <= tensors@.len(),
                all_bytes(tensors@) <= u64::MAX,
                pinned_bytes == bytes_of(tensors@.take(i as int), TensorRole::Pinned),
                pinned_bytes + total(layer_bytes@) == all_bytes(tensors@.take(i as int)),
                layer_bytes@.dom().finite(),
                forall|k: u32| #[trigger]
                    layer_bytes@.contains_key(k) <==> has_layer(tensors@.take(i as int), k),
                forall|k: u32|
                    #![trigger layer_bytes@.contains_key(k)]
                    entry(layer_bytes@, k) == bytes_of(
                        tensors@.take(i as int),
                        TensorRole::Layer(k),
                    ),
            decreases tensors@.len() - i,
        {
            let info = tensors[i];
            let bytes = info.byte_len as u64;
            let ghost before = layer_bytes@;
            let ghost sofar = tensors@.take(i as int);
            let ghost now = tensors@.take(i + 1);
            proof {
                assert(now.drop_last() == sofar);
                lemma_bytes_within(tensors@, i + 1);
                assert forall|k: u32| has_layer(now, k) <==> has_layer(sofar, k) || info.role
                    == TensorRole::Layer(k) by {
                    if has_layer(sofar, k) {
                        let j = choose|j: int|
                            0 <= j < sofar.len() && (#[trigger] sofar[j]).role
                                == TensorRole::Layer(k);
                        assert(now[j].role == TensorRole::Layer(k));
                    }
                    assert(now[i as int] == info);
                    if has_layer(now, k) && info.role != TensorRole::Layer(k) {
                        let j = choose|j: int|
                            0 <= j < now.len() && (#[trigger] now[j]).role == TensorRole::Layer(k);
                        assert(sofar[j].role == TensorRole::Layer(k));
                    }
                }
            }
            match info.role {
                TensorRole::Layer(index) => {
                    let held: u64 = match layer_bytes.get(&index) {
                        Some(n) => *n,
                        None => 0,
                    };
                    proof {
                        assert(before.contains_key(index) || !before.contains_key(index));
                        assert(held == entry(before, index));
                        entry_is_within_total(before, index);
                        total_of_insert(before, index, (held + bytes) as u64);
                    }
                    layer_bytes.insert(index, held + bytes);
                    assert forall|k: u32| #![trigger layer_bytes@.contains_key(k)] entry(
                        layer_bytes@,
                        k,
                    ) == bytes_of(now, TensorRole::Layer(k)) by {
                        assert(before.contains_key(k) || !before.contains_key(k));
                    }
                },
                TensorRole::Pinned => {
                    pinned_bytes = pinned_bytes + bytes;
                },
            }
            i += 1;
        }
        assert(tensors@.take(tensors@.len() as int) == tensors@);
        LayerCatalog { layer_bytes, pinned_bytes }
    }

    /// The number of blocks.
    pub fn num_layers(&self) -> (r: u32)
        ensures
            r == self.layers().len() as u32,
    {
        self.layer_bytes.len() as u32
    }

    /// The bytes that stay resident.
    pub fn pinned_bytes(&self) -> (r: u64)
        ensures
            r == self.pinned(),
    {
        self.pinned_bytes
    }

    /// The bytes of a block, where there is one of this index.
    pub fn layer_bytes(&self, index: u32) -> (r: Option<u64>)
        ensures
            r == (if self.layers().contains_key(index) {
                Some(self.layers()[index])
            } else {
                None
            }),
    {
        match self.layer_bytes.get(&index) {
            Some(n) => Some(*n),
            None => None,
        }
    }

    /// Whether there is no block.
    pub fn is_empty(&self) -> (r: bool)
        ensures
            r == self.layers().is_empty(),
    {
        self.layer_bytes.is_empty()
    }

    /// The bytes of the largest block; zero where there is none.
    pub fn max_layer_bytes(&self) -> (r: u64)
        ensures
            forall|k: u32| #[trigger] self.layers().contains_key(k) ==> self.layers()[k] <= r,
            self.layers().is_empty() ==> r == 0,
            !self.layers().is_empty() ==> exists|k: u32| #[trigger]
                self.layers().contains_key(k) && self.layers()[k] == r,
    {
        let mut most: u64 = 0;
        let ghost m = self.layer_bytes@;
        let ghost mut seen: int = 0;
        let ghost mut at: u32 = 0;
        for kv in it: self.layer_bytes.iter()
            invariant
                m == self.layer_bytes@,
                seen == it.index(),
                it.seq().len() == m.dom().len(),
                forall|i: int| 0 <= i < seen ==> *(#[trigger] it.seq()[i]).1 <= most,
                seen == 0 ==> most == 0,
                seen > 0 ==> m.contains_key(at) && m[at] == most,
        {
            let (k, n) = kv;
            assert(m.contains_key(*k) && m[*k] == *n);
            if *n > most || most == 0 {
                most = *n;
                proof {
                    at = *k;
                }
            }
            proof {
                seen = seen + 1;
            }
        }
        proof {
            if !m.is_empty() {
                let k = choose|k: u32| m.dom().contains(k);
                assert(m.dom().contains(k));
                vstd::set_lib::lemma_set_empty_equivalency_len(m.dom());
                assert(self.layers().contains_key(at));
            }
        }
        most
    }

    /// The bytes of all blocks.
    pub fn total_layer_bytes(&self) -> (r: u64)
        ensures
            r == total(self.layers()),
    {
        let mut sum: u64 = 0;
        let ghost m = self.layer_bytes@;
        let ghost mut part: Map<u32, u64> = Map::empty();
        let ghost mut seen: int = 0;
        proof {
            use_type_invariant(self);
            lemma_sum_of_none(0x1_0000_0000);
        }
        for kv in it: self.layer_bytes.iter()
            invariant
                m == self.layer_bytes@,
                total(m) <= u64::MAX,
                seen == it.index(),
                sum == total(part),
                it.seq().no_duplicates(),
                forall|k: u32| #[trigger] part.contains_key(k) ==> m.contains_key(k) && part[k] == m[k],
                forall|k: u32| #[trigger]
                    part.contains_key(k) <==> exists|i: int|
                        0 <= i < seen && *(#[trigger] it.seq()[i]).0 == k,
        {
            let (k, n) = kv;
            assert(m.contains_key(*k) && m[*k] == *n);
            proof {
                let i = seen;
                assert(it.seq()[i] == kv);
                if part.contains_key(*k) {
                    let j = choose|j: int| 0 <= j < seen && *(#[trigger] it.seq()[j]).0 == *k;
                    assert(m[*it.seq()[j].0] == *it.seq()[j].1);
                    assert(it.seq()[j] == it.seq()[i]);
                }
                total_of_insert(part, *k, *n);
                let more = part.insert(*k, *n);
                lemma_part_of_total(more, m);
                assert forall|x: u32| #[trigger] more.contains_key(x) <==> exists|i: int|
                    0 <= i < seen + 1 && *(#[trigger] it.seq()[i]).0 == x by {
                    if part.contains_key(x) {
                        let j = choose|j: int| 0 <= j < seen && *(#[trigger] it.seq()[j]).0 == x;
                        assert(*it.seq()[j].0 == x);
                    }
                    if x == *k {
                        assert(*it.seq()[i].0 == x);
                    }
                }
                part = more;
                seen = seen + 1;
            }
            sum = sum + *n;
        }
        proof {
            assert forall|k: u32| #[trigger] m.contains_key(k) implies part.contains_key(k) by {}
            assert(part =~= m);
        }
        sum
    }

    /// The mean size of the blocks, rounded down; zero where there is none.
    pub fn mean_layer_bytes(&self) -> (r: u64)
        ensures
            r == (if self.layers().is_empty() {
                0
            } else {
                total(self.layers()) / self.layers().len()
            }),
    {
        if self.layer_bytes.is_empty() {
            0
        } else {
            proof {
                use_type_invariant(self);
                vstd::set_lib::lemma_set_empty_equivalency_len(self.layer_bytes@.dom());
            }
            self.total_layer_bytes() / (self.layer_bytes.len() as u64)
        }
    }
}

/// A part of a table has no greater total.
proof fn lemma_part_of_sum(part: Map<u32, u64>, all: Map<u32, u64>, n: nat)
    requires
        n <= 0x1_0000_0000,
        forall|k: u32| #[trigger] part.contains_key(k) ==> all.contains_key(k) && part[k] == all[k],
    ensures
        sum_below(part, n) <= sum_below(all, n),
    decreases n,
{
    if n > 0 {
        lemma_part_of_sum(part, all, (n - 1) as nat);
        let k = (n - 1) as u32;
        assert(part.contains_key(k) ==> all.contains_key(k));
    }
}

proof fn lemma_part_of_total(part: Map<u32, u64>, all: Map<u32, u64>)
    requires
        forall|k: u32| #[trigger] part.contains_key(k) ==> all.contains_key(k) && part[k] == all[k],
    ensures
        total(part) <= total(all),
{
    lemma_part_of_sum(part, all, 0x1_0000_0000);
}

/// Blocks that take between `least` and `most` each take between as many times that.
proof fn lemma_total_range(layers: Map<u32, u64>, least: u64, most: u64)
    requires
        layers.dom().finite(),
        forall|k: u32| #[trigger] layers.contains_key(k) ==> least <= layers[k] <= most,
    ensures
        least * layers.len() <= total(layers) <= most * layers.len(),
    decreases layers.len(),
{
    if layers.dom().is_empty() {
        lemma_sum_of_none(0x1_0000_0000);
        assert(layers =~= Map::<u32, u64>::empty());
    } else {
        let k = layers.dom().choose();
        assert(layers.contains_key(k));
        let rest = layers.remove(k);
        lemma_total_range(rest, least, most);
        total_of_insert(rest, k, layers[k]);
        assert(rest.insert(k, layers[k]) =~= layers);
        assert(rest.len() + 1 == layers.len());
        assert(most * layers.len() == most * rest.len() + most) by (nonlinear_arith)
            requires
                rest.len() + 1 == layers.len(),
        ;
        assert(least * layers.len() == least * rest.len() + least) by (nonlinear_arith)
            requires
                rest.len() + 1 == layers.len(),
        ;
    }
}

/// Blocks that take between `least` and `most` each take between `least` and `most` on average.
pub proof fn mean_is_within_range(layers: Map<u32, u64>, least: u64, most: u64)
    requires
        layers.dom().finite(),
        layers.len() > 0,
        forall|k: u32| #[trigger] layers.contains_key(k) ==> least <= layers[k] <= most,
    ensures
        least <= total(layers) / layers.len() <= most,
{
    lemma_total_range(layers, least, most);
    let sum = total(layers) as int;
    let n = layers.len() as int;
    lemma_fundamental_div_mod(sum, n);
    let mean = sum / n;
    assert(least <= mean <= most) by (nonlinear_arith)
        requires
            n > 0,
            sum == n * mean + sum % n,
            0 <= sum % n < n,
            least * n <= sum <= most * n,
    ;
}

impl Clone for LayerCatalog {
    fn clone(&self) -> (r: Self)
        ensures
            r.layers() == self.layers(),
            r.pinned() == self.pinned(),
    {
        proof {
            use_type_invariant(self);
        }
        LayerCatalog { layer_bytes: self.layer_bytes.clone(), pinned_bytes: self.pinned_bytes }
    }
}

impl Default for LayerCatalog {
    fn default() -> (r: Self)
        ensures
            r.layers() == Map::<u32, u64>::empty(),
            r.pinned() == 0,
    {
        proof {
            lemma_sum_of_none(0x1_0000_0000);
        }
        LayerCatalog { layer_bytes: BTreeMap::new(), pinned_bytes: 0 }
    }
}

} // verus!
