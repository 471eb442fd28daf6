//! The order in which visible entities are drawn: opaque ones as they are
//! found, then translucent ones from the farthest to the nearest.
use vstd::multiset::Multiset;
use vstd::prelude::*;

verus! {

broadcast use vstd::seq_lib::group_to_multiset_ensures;

/// A translucent entity waiting to be drawn: its depth key and its index.
#[derive(Clone, Copy)]
pub struct HeapEntity {
    pub cam_dist: i32,
    pub idx: usize,
}

impl View for HeapEntity {
    type V = (i32, usize);

    open spec fn view(&self) -> (i32, usize) {
        (self.cam_dist, self.idx)
    }
}

/// The order of queued entities: by depth key, then by index.
pub open spec fn entry_le(a: (i32, usize), b: (i32, usize)) -> bool {
    a.0 < b.0 || (a.0 == b.0 && a.1 <= b.1)
}

/// The rank of an `f32` bit pattern in the order of the numbers it encodes:
/// positive values by their magnitude, negative ones below them by minus
/// their magnitude, with `-0.0` just below `+0.0`.
pub open spec fn sign_magnitude_rank(bits: u32) -> int {
    if bits >= 0x8000_0000 {
        -((bits - 0x8000_0000) as int) - 1
    } else {
        bits as int
    }
}

/// The depth key of a camera distance, given as the bits of an `f32`: the bits
/// read as an `i32`, with the 31 low bits flipped when the sign bit is set.
pub fn depth_sort_key(dist_bits: u32) -> (r: i32)
    ensures
        r == sign_magnitude_rank(dist_bits),
{
    let cam_dist = dist_bits as i32;
    let mask = ((cam_dist >> 30u32) as u32 >> 1u32) as i32;
    let r = cam_dist ^ mask;
    assert(r == sign_magnitude_rank(dist_bits)) by (bit_vector)
        requires
            cam_dist == dist_bits as i32,
            mask == ((cam_dist >> 30u32) as u32 >> 1u32) as i32,
            r == cam_dist ^ mask,
    ;
    r
}


pub open spec fn entries_multiset(heap: Seq<HeapEntity>) -> Multiset<(i32, usize)> {
    heap.map_values(|e: HeapEntity| e@).to_multiset()
}

/// `e` is in `m` and no entry of `m` comes after it.
pub open spec fn is_farthest(m: Multiset<(i32, usize)>, e: (i32, usize)) -> bool {
    &&& m.contains(e)
    &&& forall|x: (i32, usize)| m.contains(x) ==> entry_le(x, e)
}

/// Parent position in a binary heap stored level by level.
pub open spec fn parent(i: int) -> int {
    (i - 1) / 2
}

/// No entry comes after its parent: the first entry comes last in the order.
pub open spec fn heap_ordered(s: Seq<(i32, usize)>) -> bool {
    forall|i: int| 0 < i < s.len() ==> entry_le(#[trigger] s[i], s[parent(i)])
}

pub open spec fn heap_view(heap: Seq<HeapEntity>) -> Seq<(i32, usize)> {
    heap.map_values(|x: HeapEntity| x@)
}

/// The translucent entities of a frame, waiting to be drawn after the opaque
/// ones: a binary heap, the entry that comes last in the order first.
pub struct RenderOrderBuilder {
    draw_order_heap: Vec<HeapEntity>,
}

impl RenderOrderBuilder {
    #[verifier::type_invariant]
    spec fn heap_invariant(self) -> bool {
        heap_ordered(heap_view(self.draw_order_heap@))
    }
}

impl View for RenderOrderBuilder {
    type V = Multiset<(i32, usize)>;

    closed spec fn view(&self) -> Multiset<(i32, usize)> {
        entries_multiset(self.draw_order_heap@)
    }
}

proof fn lemma_map_push(heap: Seq<HeapEntity>, e: HeapEntity)
    ensures
        heap_view(heap.push(e)) == heap_view(heap).push(e@),
{
    assert(heap_view(heap.push(e)) =~= heap_view(heap).push(e@));
}

proof fn lemma_entry_le_trans(a: (i32, usize), b: (i32, usize), c: (i32, usize))
    requires
        entry_le(a, b),
        entry_le(b, c),
    ensures
        entry_le(a, c),
{
}

/// In a heap-ordered sequence every entry is at most the first.
proof fn lemma_first_is_farthest(s: Seq<(i32, usize)>, i: int)
    requires
        heap_ordered(s),
        0 <= i < s.len(),
    ensures
        entry_le(s[i], s[0]),
    decreases i,
{
    if i > 0 {
        lemma_first_is_farthest(s, parent(i));
        lemma_entry_le_trans(s[i], s[parent(i)], s[0]);
    }
}

proof fn lemma_swap_multiset(s: Seq<(i32, usize)>, i: int, j: int)
    requires
        0 <= i < s.len(),
        0 <= j < s.len(),
    ensures
        s.update(i, s[j]).update(j, s[i]).to_multiset() == s.to_multiset(),
{
    let t = s.update(i, s[j]);
    vstd::seq_lib::to_multiset_update(s, i, s[j]);
    vstd::seq_lib::to_multiset_update(t, j, s[i]);
    vstd::seq_lib::to_multiset_contains(s, s[i]);
    vstd::seq_lib::to_multiset_contains(s, s[j]);
    if i == j {
        assert(s.update(i, s[j]).update(j, s[i]) =~= s);
    } else {
        assert(t[j] == s[j]);
        assert(s.update(i, s[j]).update(j, s[i]).to_multiset() =~= s.to_multiset());
    }
}

fn swap_entries(h: &mut Vec<HeapEntity>, i: usize, j: usize)
    requires
        i < old(h)@.len(),
        j < old(h)@.len(),
    ensures
        heap_view(final(h)@) == heap_view(old(h)@).update(i as int, heap_view(old(h)@)[j as int]).update(
            j as int,
            heap_view(old(h)@)[i as int],
        ),
        entries_multiset(final(h)@) == entries_multiset(old(h)@),
        final(h)@.len() == old(h)@.len(),
{
    let a = h[i];
    let b = h[j];
    h.set(i, b);
    h.set(j, a);
    proof {
        let s = heap_view(old(h)@);
        assert(heap_view(h@) =~= s.update(i as int, s[j as int]).update(j as int, s[i as int]));
        lemma_swap_multiset(s, i as int, j as int);
    }
}

/// Moves the entry at `k` up until no entry comes after its parent.
fn sift_up(h: &mut Vec<HeapEntity>, k0: usize)
    requires
        k0 < old(h)@.len(),
        forall|i: int|
            0 < i < old(h)@.len() && i != k0 ==> entry_le(
                #[trigger] heap_view(old(h)@)[i],
                heap_view(old(h)@)[parent(i)],
            ),
        k0 > 0 ==> forall|c: int|
            0 < c < old(h)@.len() && parent(c) == k0 ==> entry_le(
                #[trigger] heap_view(old(h)@)[c],
                heap_view(old(h)@)[parent(k0 as int)],
            ),
    ensures
        heap_ordered(heap_view(final(h)@)),
        entries_multiset(final(h)@) == entries_multiset(old(h)@),
        final(h)@.len() == old(h)@.len(),
{
    let mut k = k0;
    while k > 0
        invariant
            k < h@.len(),
            h@.len() == old(h)@.len(),
            entries_multiset(h@) == entries_multiset(old(h)@),
            forall|i: int|
                0 < i < h@.len() && i != k ==> entry_le(
                    #[trigger] heap_view(h@)[i],
                    heap_view(h@)[parent(i)],
                ),
            k > 0 ==> forall|c: int|
                0 < c < h@.len() && parent(c) == k ==> entry_le(
                    #[trigger] heap_view(h@)[c],
                    heap_view(h@)[parent(k as int)],
                ),
        decreases k,
    {
        let p = (k - 1) / 2;
        let a = h[k];
        let b = h[p];
        if a.cam_dist < b.cam_dist || (a.cam_dist == b.cam_dist && a.idx <= b.idx) {
            return;
        }
        let ghost s = heap_view(h@);
        swap_entries(h, k, p);
        proof {
            let t = heap_view(h@);
            assert forall|i: int| 0 < i < t.len() && i != p implies entry_le(#[trigger] t[i], t[parent(i)]) by {
                if i == k {
                } else if parent(i) == k {
                    assert(entry_le(s[i], s[parent(k as int)]));
                } else if parent(i) == p {
                    lemma_entry_le_trans(s[i], s[p as int], s[k as int]);
                } else if i != p && parent(i) != p && parent(i) != k {
                    assert(t[i] == s[i]);
                }
            }
            if p > 0 {
                assert forall|c: int| 0 < c < t.len() && parent(c) == p implies entry_le(#[trigger] t[c], t[parent(p as int)]) by {
                    assert(entry_le(s[p as int], s[parent(p as int)]));
                    if c != k {
                        lemma_entry_le_trans(s[c], s[p as int], s[parent(p as int)]);
                    }
                }
            }
        }
        k = p;
    }
}

/// Moves the entry at the top down until no entry comes after its parent.
fn sift_down(h: &mut Vec<HeapEntity>)
    requires
        forall|i: int|
            0 < i < old(h)@.len() && parent(i) != 0 ==> entry_le(
                #[trigger] heap_view(old(h)@)[i],
                heap_view(old(h)@)[parent(i)],
            ),
    ensures
        heap_ordered(heap_view(final(h)@)),
        entries_multiset(final(h)@) == entries_multiset(old(h)@),
        final(h)@.len() == old(h)@.len(),
{
    let n = h.len();
    let mut k: usize = 0;
    while k < n
        invariant
            n == h@.len(),
            h@.len() == old(h)@.len(),
            entries_multiset(h@) == entries_multiset(old(h)@),
            forall|i: int|
                0 < i < h@.len() && parent(i) != k ==> entry_le(
                    #[trigger] heap_view(h@)[i],
                    heap_view(h@)[parent(i)],
                ),
            k > 0 ==> forall|c: int|
                0 < c < h@.len() && parent(c) == k ==> entry_le(
                    #[trigger] heap_view(h@)[c],
                    heap_view(h@)[parent(k as int)],
                ),
        decreases n - k,
    {
        let ghost s = heap_view(h@);
        if n - 1 - k <= k {
            // no child
            proof {
                assert forall|i: int| 0 < i < s.len() implies entry_le(#[trigger] s[i], s[parent(i)]) by {
                    if parent(i) == k {
                        assert(i >= 2 * k + 1);
                    }
                }
            }
            return;
        }
        let l = 2 * k + 1;
        let m = if l + 1 < n {
            let a = h[l];
            let b = h[l + 1];
            if a.cam_dist < b.cam_dist || (a.cam_dist == b.cam_dist && a.idx <= b.idx) { l + 1 } else { l }
        } else {
            l
        };
        let top = h[k];
        let big = h[m];
        if big.cam_dist < top.cam_dist || (big.cam_dist == top.cam_dist && big.idx <= top.idx) {
            proof {
                assert forall|i: int| 0 < i < s.len() implies entry_le(#[trigger] s[i], s[parent(i)]) by {
                    if parent(i) == k {
                        assert(i == l || i == l + 1);
                        lemma_entry_le_trans(s[i], s[m as int], s[k as int]);
                    }
                }
            }
            return;
        }
        swap_entries(h, k, m);
        proof {
            let t = heap_view(h@);
            assert forall|i: int| 0 < i < t.len() && parent(i) != m implies entry_le(#[trigger] t[i], t[parent(i)]) by {
                if i == m {
                } else if parent(i) == k {
                    assert(i == l || i == l + 1);
                    assert(entry_le(s[i], s[m as int]));
                } else if i == k {
                    assert(entry_le(s[m as int], s[parent(k as int)]));
                } else {
                    assert(t[i] == s[i]);
                    assert(parent(i) != k && parent(i) != m);
                    assert(t[parent(i)] == s[parent(i)]);
                }
            }
            assert forall|c: int| 0 < c < t.len() && parent(c) == m implies entry_le(#[trigger] t[c], t[parent(m as int)]) by {
                assert(entry_le(s[c], s[m as int]));
            }
        }
        k = m;
    }
}

impl RenderOrderBuilder {
    /// No entity waiting.
    pub fn new() -> (r: RenderOrderBuilder)
        ensures
            r@ == Multiset::<(i32, usize)>::empty(),
    {
        let r = RenderOrderBuilder { draw_order_heap: Vec::new() };
        assert(heap_view(r.draw_order_heap@) =~= Seq::<(i32, usize)>::empty());
        r
    }

    /// Drops every waiting entity, as at the start of a frame.
    pub fn clear(&mut self)
        ensures
            final(self)@ == Multiset::<(i32, usize)>::empty(),
    {
        let mut heap: Vec<HeapEntity> = Vec::new();
        assert(heap_view(heap@) =~= Seq::<(i32, usize)>::empty());
        std::mem::swap(&mut heap, &mut self.draw_order_heap);
    }

    /// Takes the next visible entity: an opaque one is to be drawn at once and
    /// is returned; a translucent one waits, keyed by its camera distance
    /// (the bits of an `f32`).
    pub fn offer(&mut self, idx: usize, translucent: bool, cam_dist_bits: u32) -> (r: Option<usize>)
        ensures
            !translucent ==> r == Some(idx) && final(self)@ == old(self)@,
            translucent ==> r is None && final(self)@ == old(self)@.insert(
                (sign_magnitude_rank(cam_dist_bits) as i32, idx),
            ),
    {
        if !translucent {
            return Some(idx);
        }
        proof {
            use_type_invariant(&*self);
        }
        let cam_dist = depth_sort_key(cam_dist_bits);
        let e = HeapEntity { cam_dist, idx };
        let mut heap: Vec<HeapEntity> = Vec::new();
        assert(heap_view(heap@) =~= Seq::<(i32, usize)>::empty());
        std::mem::swap(&mut heap, &mut self.draw_order_heap);
        let ghost before = heap@;
        proof {
            lemma_map_push(heap@, e);
        }
        heap.push(e);
        let k = heap.len() - 1;
        proof {
            assert forall|i: int| 0 < i < heap@.len() && i != k implies entry_le(
                #[trigger] heap_view(heap@)[i],
                heap_view(heap@)[parent(i)],
            ) by {
                assert(heap_view(heap@)[i] == heap_view(before)[i]);
                assert(heap_view(heap@)[parent(i)] == heap_view(before)[parent(i)]);
            }
        }
        sift_up(&mut heap, k);
        std::mem::swap(&mut heap, &mut self.draw_order_heap);
        None
    }

    /// The waiting entity that comes last in the order (the farthest), taken
    /// out; `None` when none is waiting.
    pub fn pop_farthest(&mut self) -> (r: Option<HeapEntity>)
        ensures
            match r {
                None => old(self)@.len() == 0 && final(self)@ == old(self)@,
                Some(e) => is_farthest(old(self)@, e@) && final(self)@ == old(self)@.remove(e@),
            },
    {
        proof {
            use_type_invariant(&*self);
        }
        let n = self.draw_order_heap.len();
        if n == 0 {
            assert(heap_view(self.draw_order_heap@) =~= Seq::<(i32, usize)>::empty());
            return None;
        }
        let mut heap: Vec<HeapEntity> = Vec::new();
        assert(heap_view(heap@) =~= Seq::<(i32, usize)>::empty());
        std::mem::swap(&mut heap, &mut self.draw_order_heap);
        let ghost s = heap_view(heap@);
        let top = heap[0];
        proof {
            assert forall|x: (i32, usize)| s.to_multiset().contains(x) implies entry_le(x, s[0]) by {
                let k = choose|k: int| 0 <= k < s.len() && s[k] == x;
                lemma_first_is_farthest(s, k);
            }
            vstd::seq_lib::to_multiset_contains(s, s[0]);
        }
        let last = heap.pop().unwrap();
        if heap.len() > 0 {
            heap.set(0, last);
            proof {
                let t = heap_view(heap@);
                assert(t =~= s.update(0, s[n - 1]).drop_last());
                vstd::seq_lib::to_multiset_update(s, 0, s[n - 1]);
                vstd::seq_lib::to_multiset_remove(s.update(0, s[n - 1]), n - 1);
                assert(s.update(0, s[n - 1]).remove(n - 1) =~= t);
                vstd::seq_lib::to_multiset_contains(s, s[n - 1]);
                assert(t.to_multiset() =~= s.to_multiset().remove(s[0]));
                assert forall|i: int| 0 < i < t.len() && parent(i) != 0 implies entry_le(#[trigger] t[i], t[parent(i)]) by {
                    assert(t[i] == s[i]);
                    assert(t[parent(i)] == s[parent(i)]);
                }
            }
            sift_down(&mut heap);
        } else {
            proof {
                assert(heap_view(heap@) =~= Seq::<(i32, usize)>::empty());
                assert(s =~= seq![s[0]]);
                assert(s.to_multiset() =~= Multiset::<(i32, usize)>::empty().insert(s[0]));
            }
        }
        std::mem::swap(&mut heap, &mut self.draw_order_heap);
        Some(top)
    }
}

/// Translucent entities come out farthest first: of two entities taken out
/// one after the other, with none offered between, the second never comes
/// after the first in the order.
pub proof fn lemma_farthest_first(
    waiting: Multiset<(i32, usize)>,
    first: (i32, usize),
    second: (i32, usize),
)
    requires
        is_farthest(waiting, first),
        is_farthest(waiting.remove(first), second),
    ensures
        entry_le(second, first),
{
    assert(waiting.remove(first).count(second) <= waiting.count(second));
}

/// The depth key orders distances as the numbers they encode are ordered: a
/// smaller rank gives a smaller key, and different bit patterns give
/// different keys.
pub proof fn lemma_depth_key_order(a: u32, b: u32)
    ensures
        sign_magnitude_rank(a) < sign_magnitude_rank(b) <==> (sign_magnitude_rank(a) as i32) < (
        sign_magnitude_rank(b) as i32),
        a != b ==> sign_magnitude_rank(a) != sign_magnitude_rank(b),
{
}

} // verus!

verus! {

/// The indices of the opaque entities among `visible` (each an index, whether
/// the entity is translucent, and the bits of its camera distance), in the
/// order in which they were found.
pub open spec fn opaque_indices(visible: Seq<(usize, bool, u32)>) -> Seq<usize>
    decreases visible.len(),
{
    if visible.len() == 0 {
        Seq::empty()
    } else {
        let rest = opaque_indices(visible.drop_last());
        if visible.last().1 {
            rest
        } else {
            rest.push(visible.last().0)
        }
    }
}

/// The translucent entities among `visible`, each with its depth key.
pub open spec fn translucent_entries(visible: Seq<(usize, bool, u32)>) -> Multiset<(i32, usize)>
    decreases visible.len(),
{
    if visible.len() == 0 {
        Multiset::empty()
    } else {
        let rest = translucent_entries(visible.drop_last());
        if visible.last().1 {
            rest.insert((sign_magnitude_rank(visible.last().2) as i32, visible.last().0))
        } else {
            rest
        }
    }
}

/// No entry comes after an earlier one: the farthest first.
pub open spec fn farthest_first(t: Seq<(i32, usize)>) -> bool {
    forall|i: int, j: int| 0 <= i < j < t.len() ==> entry_le(#[trigger] t[j], #[trigger] t[i])
}

/// Farthest first is one order only: two sequences that hold the same
/// entries, each farthest first, are the same sequence. So the draw order
/// of a frame is determined by its visible entities.
pub proof fn lemma_farthest_first_unique(a: Seq<(i32, usize)>, b: Seq<(i32, usize)>)
    requires
        farthest_first(a),
        farthest_first(b),
        a.to_multiset() == b.to_multiset(),
    ensures
        a == b,
    decreases a.len(),
{
    vstd::seq_lib::to_multiset_len(a);
    vstd::seq_lib::to_multiset_len(b);
    if a.len() == 0 {
        assert(a =~= b);
    } else {
        vstd::seq_lib::to_multiset_contains(a, b[0]);
        vstd::seq_lib::to_multiset_contains(b, a[0]);
        let i = choose|i: int| 0 <= i < a.len() && a[i] == b[0];
        let j = choose|j: int| 0 <= j < b.len() && b[j] == a[0];
        if i > 0 {
            assert(entry_le(a[i], a[0]));
        }
        if j > 0 {
            assert(entry_le(b[j], b[0]));
        }
        assert(a[0] == b[0]);
        vstd::seq_lib::to_multiset_remove(a, 0);
        vstd::seq_lib::to_multiset_remove(b, 0);
        assert(a.remove(0) =~= a.drop_first());
        assert(b.remove(0) =~= b.drop_first());
        assert forall|x: int, y: int| 0 <= x < y < a.drop_first().len() implies entry_le(
            #[trigger] a.drop_first()[y],
            #[trigger] a.drop_first()[x],
        ) by {
            assert(a.drop_first()[y] == a[y + 1] && a.drop_first()[x] == a[x + 1]);
        }
        assert forall|x: int, y: int| 0 <= x < y < b.drop_first().len() implies entry_le(
            #[trigger] b.drop_first()[y],
            #[trigger] b.drop_first()[x],
        ) by {
            assert(b.drop_first()[y] == b[y + 1] && b.drop_first()[x] == b[x + 1]);
        }
        lemma_farthest_first_unique(a.drop_first(), b.drop_first());
        assert forall|k: int| 0 <= k < a.len() implies a[k] == b[k] by {
            if k > 0 {
                assert(a[k] == a.drop_first()[k - 1]);
                assert(b[k] == b.drop_first()[k - 1]);
            }
        }
        assert(a =~= b);
    }
}

impl RenderOrderBuilder {
    /// The draw order of one frame whose visible entities were found in the
    /// order of `visible`: the opaque ones as they were found, then the
    /// translucent ones from the farthest to the nearest. Nothing waiting from
    /// an earlier frame is drawn, and nothing is left waiting.
    pub fn draw_frame(&mut self, visible: &Vec<(usize, bool, u32)>) -> (order: Vec<usize>)
        ensures
            final(self)@ == Multiset::<(i32, usize)>::empty(),
            opaque_indices(visible@).len() <= order@.len(),
            order@.take(opaque_indices(visible@).len() as int) == opaque_indices(visible@),
            exists|t: Seq<(i32, usize)>|
                t.to_multiset() == translucent_entries(visible@) && farthest_first(t)
                    && order@.skip(opaque_indices(visible@).len() as int) == t.map_values(
                    |e: (i32, usize)| e.1,
                ),
    {
        self.clear();
        let mut order: Vec<usize> = Vec::new();
        let mut i: usize = 0;
        while i < visible.len()
            invariant
                i <= visible@.len(),
                order@ == opaque_indices(visible@.take(i as int)),
                self@ == translucent_entries(visible@.take(i as int)),
            decreases visible@.len() - i,
        {
            let (idx, translucent, bits) = visible[i];
            assert(visible@.take(i + 1).drop_last() == visible@.take(i as int));
            if let Some(shown) = self.offer(idx, translucent, bits) {
                order.push(shown);
            }
            i = i + 1;
        }
        assert(visible@.take(visible@.len() as int) == visible@);
        let ghost opaque = order@;
        let ghost all = self@;
        let ghost mut popped: Seq<(i32, usize)> = Seq::empty();
        assert(popped.to_multiset() =~= Multiset::<(i32, usize)>::empty());
        assert(opaque.skip(opaque.len() as int) =~= popped.map_values(|e: (i32, usize)| e.1));
        loop
            invariant
                opaque == opaque_indices(visible@),
                all == translucent_entries(visible@),
                self@.add(popped.to_multiset()) == all,
                farthest_first(popped),
                popped.len() > 0 ==> forall|x: (i32, usize)| self@.contains(x) ==> entry_le(x, popped.last()),
                opaque.len() <= order@.len(),
                order@.take(opaque.len() as int) == opaque,
                order@.skip(opaque.len() as int) == popped.map_values(|e: (i32, usize)| e.1),
            ensures
                self@ == Multiset::<(i32, usize)>::empty(),
                popped.to_multiset() == all,
                farthest_first(popped),
                opaque.len() <= order@.len(),
                order@.take(opaque.len() as int) == opaque,
                order@.skip(opaque.len() as int) == popped.map_values(|e: (i32, usize)| e.1),
            decreases self@.len(),
        {
            let ghost before = self@;
            let ghost old_order = order@;
            let ghost old_popped = popped;
            match self.pop_farthest() {
                None => {
                    assert(self@ =~= Multiset::<(i32, usize)>::empty());
                    assert(popped.to_multiset() =~= all);
                    break;
                },
                Some(e) => {
                    proof {
                        let next = popped.push(e@);
                        assert(next.to_multiset() =~= popped.to_multiset().insert(e@));
                        assert(self@.add(next.to_multiset()) =~= before.add(popped.to_multiset()));
                        assert forall|a: int, b: int| 0 <= a < b < next.len() implies entry_le(
                            #[trigger] next[b],
                            #[trigger] next[a],
                        ) by {
                            if b == next.len() - 1 {
                                assert(before.contains(e@));
                                assert(next[a] == popped[a] && next[b] == e@);
                                assert(entry_le(e@, popped.last()));
                                if a < popped.len() - 1 {
                                    assert(entry_le(popped[popped.len() - 1], popped[a]));
                                    lemma_entry_le_trans(e@, popped.last(), popped[a]);
                                }
                            } else {
                                assert(next[a] == popped[a] && next[b] == popped[b]);
                            }
                        }
                        assert forall|x: (i32, usize)| self@.contains(x) implies entry_le(x, next.last()) by {
                            assert(before.contains(x));
                        }
                        popped = next;
                    }
                    order.push(e.idx);
                    assert(order@.take(opaque.len() as int) =~= opaque);
                    assert(order@.skip(opaque.len() as int) =~= old_order.skip(opaque.len() as int).push(e.idx));
                    assert(popped.map_values(|e: (i32, usize)| e.1) =~= old_popped.map_values(|e: (i32, usize)| e.1).push(e.idx));
                },
            }
        }
        assert(farthest_first(popped) && order@.skip(opaque.len() as int) == popped.map_values(|e: (i32, usize)| e.1));
        order
    }
}

/// The sign bit of an `f32` bit pattern is set.
pub open spec fn f32_sign_set(bits: u32) -> bool {
    bits / 0x8000_0000 == 1
}

/// The bits of an `f32` without its sign: its magnitude, in the order of the
/// magnitudes the patterns encode (IEEE 754 orders the magnitudes of
/// patterns that are not NaN as the integers these bits form).
pub open spec fn f32_magnitude(bits: u32) -> int {
    (bits % 0x8000_0000) as int
}

/// The pattern encodes NaN: every exponent bit set and a fraction that is not
/// zero.
pub open spec fn f32_is_nan(bits: u32) -> bool {
    f32_magnitude(bits) > 0x7f80_0000
}

/// The number that `a` encodes is smaller than the one `b` encodes (neither
/// being NaN): a negative number is below every positive one, except that
/// `-0.0` equals `+0.0`; positive numbers are ordered by their magnitude, and
/// negative ones the other way round.
pub open spec fn f32_less(a: u32, b: u32) -> bool {
    if !f32_sign_set(a) && !f32_sign_set(b) {
        f32_magnitude(a) < f32_magnitude(b)
    } else if f32_sign_set(a) && f32_sign_set(b) {
        f32_magnitude(b) < f32_magnitude(a)
    } else if f32_sign_set(a) {
        !(f32_magnitude(a) == 0 && f32_magnitude(b) == 0)
    } else {
        false
    }
}

/// The depth key of a camera distance keeps the order of the distances: of
/// two distances that are not NaN, the smaller has the smaller key, so the
/// farther entity always has the larger key and is drawn first. Every key
/// fits an `i32`.
pub proof fn lemma_depth_key_keeps_distance_order(a: u32, b: u32)
    requires
        !f32_is_nan(a),
        !f32_is_nan(b),
    ensures
        f32_less(a, b) ==> sign_magnitude_rank(a) < sign_magnitude_rank(b),
        i32::MIN <= sign_magnitude_rank(a) <= i32::MAX,
{
}

} // verus!
