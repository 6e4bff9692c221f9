//! The size of each region, and the order of region ids by size.
//!
//! A size is kept as the bit pattern of an IEEE 754 binary64 number, as the
//! dataset stores it. Sizes are never computed with, only ordered: the
//! order is the total order of IEEE 754 (negative numbers below negative
//! zero, negative zero below positive zero, positive numbers above), read
//! off the bit pattern.

use crate::text::{ids_view, str_eq};
use vstd::prelude::*;

verus! {

/// The bit pattern of the size `0.0`, which stands for the size of a region
/// without a registered size.
pub const ZERO_SIZE: u64 = 0;

/// The rank of a binary64 bit pattern in the IEEE 754 total order.
///
/// Patterns with a clear sign bit rank by their value as unsigned numbers.
/// Patterns with the sign bit set rank below all of those, and the larger
/// their magnitude, the lower.
pub open spec fn size_rank(bits: u64) -> int {
    if bits < 0x8000_0000_0000_0000 {
        bits as int
    } else {
        0x7fff_ffff_ffff_ffff - bits
    }
}

/// Computes [`size_rank`].
pub fn size_order_key(bits: u64) -> (r: i64)
    ensures
        r == size_rank(bits),
{
    if bits < 0x8000_0000_0000_0000 {
        bits as i64
    } else {
        let magnitude: u64 = bits - 0x8000_0000_0000_0000;
        -1 - (magnitude as i64)
    }
}

/// Distinct bit patterns have distinct ranks, so the order by rank is total.
pub proof fn lemma_size_rank_injective(a: u64, b: u64)
    ensures
        size_rank(a) == size_rank(b) <==> a == b,
{
}

/// The mapping that a list of entries stands for: every later entry
/// replaces an earlier one with the same id.
pub open spec fn size_map(entries: Seq<(Seq<char>, u64)>) -> Map<Seq<char>, u64>
    decreases entries.len(),
{
    if entries.len() == 0 {
        Map::empty()
    } else {
        size_map(entries.drop_last()).insert(entries.last().0, entries.last().1)
    }
}

/// The size by which `id` is ordered: its registered size, or zero.
pub open spec fn size_of(sizes: Map<Seq<char>, u64>, id: Seq<char>) -> u64 {
    if sizes.contains_key(id) {
        sizes[id]
    } else {
        ZERO_SIZE
    }
}

/// Whether `ids` ascend by size.
pub open spec fn ascending_by_size(ids: Seq<Seq<char>>, sizes: Map<Seq<char>, u64>) -> bool {
    forall|i: int, j: int|
        0 <= i <= j < ids.len() ==> size_rank(size_of(sizes, #[trigger] ids[i])) <= size_rank(
            size_of(sizes, #[trigger] ids[j]),
        )
}

/// In an ascending list the ids without a registered size stand before
/// every id whose size ranks above zero.
pub proof fn lemma_unregistered_come_first(
    ids: Seq<Seq<char>>,
    sizes: Map<Seq<char>, u64>,
    i: int,
    j: int,
)
    requires
        ascending_by_size(ids, sizes),
        0 <= i < ids.len(),
        0 <= j < ids.len(),
        !sizes.contains_key(ids[i]),
        size_rank(size_of(sizes, ids[j])) > 0,
    ensures
        i < j,
{
    if j <= i {
        assert(size_rank(size_of(sizes, ids[j])) <= size_rank(size_of(sizes, ids[i])));
    }
}

/// `sorted` with `id` put behind the last element that is not larger than it.
pub open spec fn insert_by_size(
    sorted: Seq<Seq<char>>,
    id: Seq<char>,
    sizes: Map<Seq<char>, u64>,
) -> Seq<Seq<char>>
    decreases sorted.len(),
{
    if sorted.len() == 0 || size_rank(size_of(sizes, sorted.last())) <= size_rank(
        size_of(sizes, id),
    ) {
        sorted.push(id)
    } else {
        insert_by_size(sorted.drop_last(), id, sizes).push(sorted.last())
    }
}

/// `ids` in ascending order of size; ids of equal size keep the order they
/// have in `ids`.
pub open spec fn sorted_by_size(ids: Seq<Seq<char>>, sizes: Map<Seq<char>, u64>) -> Seq<Seq<char>>
    decreases ids.len(),
{
    if ids.len() == 0 {
        Seq::empty()
    } else {
        insert_by_size(sorted_by_size(ids.drop_last(), sizes), ids.last(), sizes)
    }
}

/// Putting an id into an ascending list keeps it ascending and adds
/// exactly that id.
proof fn lemma_insert_by_size(sorted: Seq<Seq<char>>, id: Seq<char>, sizes: Map<Seq<char>, u64>)
    requires
        ascending_by_size(sorted, sizes),
    ensures
        ascending_by_size(insert_by_size(sorted, id, sizes), sizes),
        insert_by_size(sorted, id, sizes).to_multiset() == sorted.to_multiset().insert(id),
        insert_by_size(sorted, id, sizes).len() == sorted.len() + 1,
    decreases sorted.len(),
{
    broadcast use {vstd::seq_lib::to_multiset_build, vstd::multiset::group_multiset_axioms};

    let out = insert_by_size(sorted, id, sizes);
    if sorted.len() == 0 || size_rank(size_of(sizes, sorted.last())) <= size_rank(
        size_of(sizes, id),
    ) {
        assert forall|i: int, j: int| 0 <= i <= j < out.len() implies size_rank(
            size_of(sizes, #[trigger] out[i]),
        ) <= size_rank(size_of(sizes, #[trigger] out[j])) by {
            if j < sorted.len() {
                assert(out[i] == sorted[i] && out[j] == sorted[j]);
            } else if i < sorted.len() {
                assert(out[i] == sorted[i]);
                assert(sorted.last() == sorted[sorted.len() - 1]);
            }
        }
    } else {
        let front = sorted.drop_last();
        assert forall|i: int, j: int| 0 <= i <= j < front.len() implies size_rank(
            size_of(sizes, #[trigger] front[i]),
        ) <= size_rank(size_of(sizes, #[trigger] front[j])) by {
            assert(front[i] == sorted[i] && front[j] == sorted[j]);
        }
        lemma_insert_by_size(front, id, sizes);
        let inner = insert_by_size(front, id, sizes);
        assert(sorted == front.push(sorted.last()));
        assert(inner.to_multiset().insert(sorted.last()) == sorted.to_multiset().insert(id));
        assert forall|i: int, j: int| 0 <= i <= j < out.len() implies size_rank(
            size_of(sizes, #[trigger] out[i]),
        ) <= size_rank(size_of(sizes, #[trigger] out[j])) by {
            if j < inner.len() {
                assert(out[i] == inner[i] && out[j] == inner[j]);
            } else if i < inner.len() {
                assert(out[i] == inner[i]);
                // every element of `inner` is `id` or an element of `front`
                vstd::seq_lib::to_multiset_contains(inner, inner[i]);
                vstd::seq_lib::to_multiset_contains(front, inner[i]);
                if inner[i] != id {
                    assert(front.to_multiset().count(inner[i]) > 0);
                    let k = choose|k: int| 0 <= k < front.len() && front[k] == inner[i];
                    assert(sorted[k] == front[k]);
                    assert(sorted.last() == sorted[sorted.len() - 1]);
                }
            }
        }
    }
}

/// The sorted ids ascend by size and are the given ids, each as often as given.
pub proof fn lemma_sorted_by_size(ids: Seq<Seq<char>>, sizes: Map<Seq<char>, u64>)
    ensures
        ascending_by_size(sorted_by_size(ids, sizes), sizes),
        sorted_by_size(ids, sizes).to_multiset() == ids.to_multiset(),
        sorted_by_size(ids, sizes).len() == ids.len(),
    decreases ids.len(),
{
    broadcast use vstd::seq_lib::to_multiset_build;

    if ids.len() == 0 {
        assert(ids =~= Seq::empty());
    } else {
        lemma_sorted_by_size(ids.drop_last(), sizes);
        lemma_insert_by_size(sorted_by_size(ids.drop_last(), sizes), ids.last(), sizes);
        assert(ids == ids.drop_last().push(ids.last()));
    }
}

/// Where all elements from `pos` on are larger than `id`, and the element
/// before `pos` is not, `pos` is where [`insert_by_size`] puts `id`.
proof fn lemma_insert_by_size_at(
    sorted: Seq<Seq<char>>,
    id: Seq<char>,
    sizes: Map<Seq<char>, u64>,
    pos: int,
)
    requires
        0 <= pos <= sorted.len(),
        pos > 0 ==> size_rank(size_of(sizes, sorted[pos - 1])) <= size_rank(size_of(sizes, id)),
        forall|k: int|
            pos <= k < sorted.len() ==> size_rank(size_of(sizes, #[trigger] sorted[k])) > size_rank(
                size_of(sizes, id),
            ),
    ensures
        insert_by_size(sorted, id, sizes) == sorted.insert(pos, id),
    decreases sorted.len() - pos,
{
    if pos == sorted.len() {
        assert(sorted.insert(pos, id) =~= sorted.push(id));
    } else {
        assert(sorted.last() == sorted[sorted.len() - 1]);
        let front = sorted.drop_last();
        assert forall|k: int| pos <= k < front.len() implies size_rank(
            size_of(sizes, #[trigger] front[k]),
        ) > size_rank(size_of(sizes, id)) by {
            assert(front[k] == sorted[k]);
        }
        lemma_insert_by_size_at(front, id, sizes, pos);
        assert(front.insert(pos, id).push(sorted.last()) =~= sorted.insert(pos, id));
    }
}

/// The registered sizes of the regions, by region id.
#[derive(Debug, Clone, PartialEq, Eq)]
pub struct GeometrySizes {
    entries: Vec<(String, u64)>,
}

impl View for GeometrySizes {
    type V = Map<Seq<char>, u64>;

    /// The size registered for each id.
    open spec fn view(&self) -> Map<Seq<char>, u64> {
        size_map(self.entries())
    }
}

impl GeometrySizes {
    /// All entries in the order in which they were inserted.
    pub closed spec fn entries(&self) -> Seq<(Seq<char>, u64)> {
        Seq::new(self.entries@.len(), |i: int| (self.entries@[i].0@, self.entries@[i].1))
    }

    /// A table without entries.
    pub fn new() -> (r: Self)
        ensures
            r.entries() == Seq::<(Seq<char>, u64)>::empty(),
            r@ == Map::<Seq<char>, u64>::empty(),
    {
        let r = GeometrySizes { entries: Vec::new() };
        assert(r.entries() =~= Seq::empty());
        r
    }

    /// Registers `size` for `id`, in place of any size registered for it before.
    pub fn insert(&mut self, id: String, size: u64)
        ensures
            final(self).entries() == old(self).entries().push((id@, size)),
            final(self)@ == old(self)@.insert(id@, size),
    {
        self.entries.push((id, size));
        proof {
            assert(self.entries() =~= old(self).entries().push((id@, size)));
            assert(self.entries().drop_last() =~= old(self).entries());
        }
    }

    /// The size registered for `id`, if there is one.
    pub fn get(&self, id: &str) -> (r: Option<u64>)
        ensures
            r == (if self@.contains_key(id@) {
                Some(self@[id@])
            } else {
                None
            }),
    {
        let mut i: usize = self.entries.len();
        assert(self.entries().take(i as int) == self.entries());
        while i > 0
            invariant
                i <= self.entries@.len(),
                self@.contains_key(id@) <==> size_map(self.entries().take(i as int)).contains_key(
                    id@,
                ),
                self@.contains_key(id@) ==> self@[id@] == size_map(
                    self.entries().take(i as int),
                )[id@],
            decreases i,
        {
            proof {
                let upto = self.entries().take(i as int);
                assert(upto.drop_last() == self.entries().take(i - 1));
                assert(upto.last() == (self.entries@[i - 1].0@, self.entries@[i - 1].1));
            }
            i -= 1;
            if str_eq(self.entries[i].0.as_str(), id) {
                return Some(self.entries[i].1);
            }
        }
        None
    }

    /// The rank of the size by which `id` is ordered.
    pub fn order_key(&self, id: &str) -> (r: i64)
        ensures
            r == size_rank(size_of(self@, id@)),
    {
        match self.get(id) {
            Some(size) => size_order_key(size),
            None => size_order_key(ZERO_SIZE),
        }
    }

    /// Sorts `ids` ascending by size. Ids without a registered size are
    /// ordered as if their size were zero; ids of equal size keep their order.
    pub fn sort_by_size<'a>(&self, ids: Vec<&'a str>) -> (r: Vec<&'a str>)
        ensures
            ids_view(r@) == sorted_by_size(ids_view(ids@), self@),
            ascending_by_size(ids_view(r@), self@),
            ids_view(r@).to_multiset() == ids_view(ids@).to_multiset(),
            r@.len() == ids@.len(),
    {
        let mut sorted: Vec<&'a str> = Vec::new();
        let mut keys: Vec<i64> = Vec::new();
        let mut i: usize = 0;
        assert(ids_view(ids@).take(0) =~= Seq::empty());
        assert(ids_view(sorted@) =~= Seq::empty());
        while i < ids.len()
            invariant
                i <= ids@.len(),
                keys@.len() == sorted@.len(),
                forall|k: int|
                    0 <= k < keys@.len() ==> #[trigger] keys@[k] == size_rank(
                        size_of(self@, ids_view(sorted@)[k]),
                    ),
                ids_view(sorted@) == sorted_by_size(ids_view(ids@).take(i as int), self@),
            decreases ids@.len() - i,
        {
            let id: &'a str = ids[i];
            let key = self.order_key(id);
            let mut pos: usize = sorted.len();
            while pos > 0 && keys[pos - 1] > key
                invariant
                    pos <= sorted@.len(),
                    keys@.len() == sorted@.len(),
                    forall|k: int| pos <= k < keys@.len() ==> #[trigger] keys@[k] > key,
                decreases pos,
            {
                pos -= 1;
            }
            proof {
                let before = ids_view(sorted@);
                assert forall|k: int| pos <= k < before.len() implies size_rank(
                    size_of(self@, #[trigger] before[k]),
                ) > size_rank(size_of(self@, id@)) by {
                    assert(keys@[k] > key);
                }
                if pos > 0 {
                    assert(keys@[pos - 1] <= key);
                }
                lemma_insert_by_size_at(before, id@, self@, pos as int);
                let next = ids_view(ids@).take(i + 1);
                assert(next.drop_last() == ids_view(ids@).take(i as int));
                assert(next.last() == id@);
            }
            let ghost before = ids_view(sorted@);
            let ghost keys_before = keys@;
            sorted.insert(pos, id);
            keys.insert(pos, key);
            proof {
                assert(ids_view(sorted@) =~= before.insert(pos as int, id@));
                assert forall|k: int| 0 <= k < keys@.len() implies #[trigger] keys@[k] == size_rank(
                    size_of(self@, ids_view(sorted@)[k]),
                ) by {
                    if k < pos {
                        assert(keys@[k] == keys_before[k]);
                    } else if k > pos {
                        assert(keys@[k] == keys_before[k - 1]);
                    }
                }
            }
            i += 1;
        }
        proof {
            assert(ids_view(ids@).take(i as int) == ids_view(ids@));
            lemma_sorted_by_size(ids_view(ids@), self@);
        }
        sorted
    }
}

} // verus!
