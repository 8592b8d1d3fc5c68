//! The store that hands rated selections out best first.
//!
//! The store is a binary min-heap on the spread: the parent of every entry
//! has a spread no greater than the entry's own, so the root is a best entry.
//! Among entries of equal spread the order in which they leave is not
//! fixed, and the contracts promise none.

use vstd::prelude::*;
use vstd::multiset::Multiset;
use vstd::multiset::group_multiset_axioms;
use vstd::seq_lib::group_to_multiset_ensures;
use crate::score::ConfigView;
use crate::score::PartyConfig;

verus! {

/// The views of a sequence of rated selections, in order.
pub open spec fn config_views(configs: Seq<PartyConfig>) -> Seq<ConfigView> {
    configs.map_values(|config: PartyConfig| config@)
}

/// An entry of a collection that no other entry beats: none has a lower spread.
pub open spec fn is_best(entries: Multiset<ConfigView>, config: ConfigView) -> bool {
    &&& entries.contains(config)
    &&& forall|other: ConfigView| #[trigger] entries.contains(other) ==> config.var <= other.var
}

/// The spreads of a sequence of selections never go down.
pub open spec fn ascending(configs: Seq<ConfigView>) -> bool {
    forall|i: int, j: int| 0 <= i <= j < configs.len() ==> configs[i].var <= configs[j].var
}

/// Taking a best entry out and then a best entry of what is left yields
/// spreads that do not go down.
pub proof fn lemma_best_then_next(
    entries: Multiset<ConfigView>,
    first: ConfigView,
    second: ConfigView,
)
    requires
        is_best(entries, first),
        is_best(entries.remove(first), second),
    ensures
        first.var <= second.var,
{
    broadcast use group_multiset_axioms;

    assert(entries.contains(second));
}

/// The position above a position of the heap.
spec fn parent(i: int) -> int {
    (i - 1) / 2
}

/// Every entry but the root is no better than its parent.
spec fn heap_ordered(heap: Seq<PartyConfig>) -> bool {
    forall|i: int| 0 < i < heap.len() ==> heap[parent(i)].var <= (#[trigger] heap[i]).var
}

/// The heap order holds but perhaps between `hole` and its parent, and the
/// entries below `hole` are no better than the entry above it.
spec fn ordered_above(heap: Seq<PartyConfig>, hole: int) -> bool {
    &&& forall|i: int|
        0 < i < heap.len() && i != hole ==> heap[parent(i)].var <= (#[trigger] heap[i]).var
    &&& forall|i: int|
        0 < i < heap.len() && parent(i) == hole && hole > 0 ==> heap[parent(hole)].var <= (
        #[trigger] heap[i]).var
}

/// The heap order holds but perhaps between `hole` and the entries below it,
/// and those entries are no better than the entry above `hole`.
spec fn ordered_below(heap: Seq<PartyConfig>, hole: int) -> bool {
    &&& forall|i: int|
        0 < i < heap.len() && parent(i) != hole ==> heap[parent(i)].var <= (#[trigger] heap[i]).var
    &&& forall|i: int|
        0 < i < heap.len() && parent(i) == hole && hole > 0 ==> heap[parent(hole)].var <= (
        #[trigger] heap[i]).var
}

/// In a heap no entry beats the root.
proof fn lemma_root_is_least(heap: Seq<PartyConfig>, i: int)
    requires
        heap_ordered(heap),
        0 <= i < heap.len(),
    ensures
        heap[0].var <= heap[i].var,
    decreases i,
{
    if i > 0 {
        lemma_root_is_least(heap, parent(i));
    }
}

/// The root of a heap is a best entry of the collection it holds.
proof fn lemma_root_is_best(heap: Seq<PartyConfig>)
    requires
        heap_ordered(heap),
        heap.len() > 0,
    ensures
        is_best(config_views(heap).to_multiset(), heap[0]@),
{
    broadcast use group_to_multiset_ensures;

    let views = config_views(heap);
    assert(views[0] == heap[0]@);
    assert(views.contains(heap[0]@));
    assert forall|other: ConfigView| #[trigger]
        views.to_multiset().contains(other) implies heap[0]@.var <= other.var by {
        assert(views.contains(other));
        let i = choose|i: int| 0 <= i < views.len() && views[i] == other;
        lemma_root_is_least(heap, i);
    }
}

/// Exchanging two entries keeps the collection.
proof fn lemma_swap_keeps_entries(heap: Seq<PartyConfig>, i: int, j: int)
    requires
        0 <= i < heap.len(),
        0 <= j < heap.len(),
    ensures
        config_views(heap.update(i, heap[j]).update(j, heap[i])).to_multiset() == config_views(
            heap,
        ).to_multiset(),
{
    broadcast use group_to_multiset_ensures, group_multiset_axioms;

    let views = config_views(heap);
    let swapped = config_views(heap.update(i, heap[j]).update(j, heap[i]));
    assert(swapped =~= views.update(i, views[j]).update(j, views[i]));
    assert(views.update(i, views[j]).update(j, views[i]).to_multiset() =~= views.to_multiset());
}

/// Exchanges two entries of a heap.
fn swap_entries(heap: &mut Vec<PartyConfig>, i: usize, j: usize)
    requires
        i < old(heap)@.len(),
        j < old(heap)@.len(),
        i != j,
    ensures
        final(heap)@ == old(heap)@.update(i as int, old(heap)@[j as int]).update(
            j as int,
            old(heap)@[i as int],
        ),
        config_views(final(heap)@).to_multiset() == config_views(old(heap)@).to_multiset(),
{
    let mut carried = PartyConfig { index: Vec::new(), var: 0, avg: 0 };
    heap.set_and_swap(i, &mut carried);
    heap.set_and_swap(j, &mut carried);
    heap.set_and_swap(i, &mut carried);
    proof {
        lemma_swap_keeps_entries(old(heap)@, i as int, j as int);
        assert(heap@ =~= old(heap)@.update(i as int, old(heap)@[j as int]).update(
            j as int,
            old(heap)@[i as int],
        ));
    }
}

/// Lets the entry at `start` rise until its parent is no worse.
fn sift_up(heap: &mut Vec<PartyConfig>, start: usize)
    requires
        start < old(heap)@.len(),
        ordered_above(old(heap)@, start as int),
    ensures
        heap_ordered(final(heap)@),
        config_views(final(heap)@).to_multiset() == config_views(old(heap)@).to_multiset(),
{
    let mut hole: usize = start;
    while hole > 0
        invariant
            hole < heap@.len(),
            ordered_above(heap@, hole as int),
            config_views(heap@).to_multiset() == config_views(old(heap)@).to_multiset(),
        ensures
            heap_ordered(heap@),
            config_views(heap@).to_multiset() == config_views(old(heap)@).to_multiset(),
        decreases hole,
    {
        let above: usize = (hole - 1) / 2;
        if heap[hole].var < heap[above].var {
            swap_entries(heap, hole, above);
            hole = above;
        } else {
            break ;
        }
    }
}

/// Lets the entry at the root sink until the entries below it are no better.
fn sift_down(heap: &mut Vec<PartyConfig>)
    requires
        ordered_below(old(heap)@, 0),
    ensures
        heap_ordered(final(heap)@),
        config_views(final(heap)@).to_multiset() == config_views(old(heap)@).to_multiset(),
{
    let n: usize = heap.len();
    let mut hole: usize = 0;
    while hole < n / 2
        invariant
            n == heap@.len(),
            hole < n || n == 0,
            ordered_below(heap@, hole as int),
            config_views(heap@).to_multiset() == config_views(old(heap)@).to_multiset(),
        ensures
            heap_ordered(heap@),
            config_views(heap@).to_multiset() == config_views(old(heap)@).to_multiset(),
        decreases n - hole,
    {
        let left: usize = 2 * hole + 1;
        let right: usize = left + 1;
        let below: usize = if right < n && heap[right].var < heap[left].var {
            right
        } else {
            left
        };
        if heap[below].var < heap[hole].var {
            swap_entries(heap, hole, below);
            hole = below;
        } else {
            break ;
        }
    }
}

/// Rated selections, handed out lowest spread first.
pub struct RankingStore {
    heap: Vec<PartyConfig>,
}

impl View for RankingStore {
    type V = Multiset<ConfigView>;

    closed spec fn view(&self) -> Multiset<ConfigView> {
        config_views(self.heap@).to_multiset()
    }
}

impl RankingStore {
    /// The entries are in heap order.
    pub closed spec fn wf(&self) -> bool {
        heap_ordered(self.heap@)
    }

    /// A store that holds nothing.
    pub fn new() -> (store: RankingStore)
        ensures
            store.wf(),
            store@ == Multiset::<ConfigView>::empty(),
    {
        broadcast use group_to_multiset_ensures, group_multiset_axioms;

        let store = RankingStore { heap: Vec::new() };
        assert(store@.len() == 0);
        assert(store@ =~= Multiset::<ConfigView>::empty());
        store
    }

    /// The number of selections in the store.
    pub fn len(&self) -> (n: usize)
        ensures
            n == self@.len(),
    {
        broadcast use group_to_multiset_ensures;

        self.heap.len()
    }

    /// Whether the store holds nothing.
    pub fn is_empty(&self) -> (empty: bool)
        ensures
            empty <==> self@.len() == 0,
    {
        broadcast use group_to_multiset_ensures;

        self.heap.len() == 0
    }

    /// Adds a selection.
    pub fn insert(&mut self, config: PartyConfig)
        requires
            old(self).wf(),
        ensures
            final(self).wf(),
            final(self)@ == old(self)@.insert(config@),
    {
        heap_insert(&mut self.heap, config);
    }

    /// Takes out a selection that no other in the store beats, or nothing
    /// where the store is empty.
    pub fn pop_best(&mut self) -> (best: Option<PartyConfig>)
        requires
            old(self).wf(),
        ensures
            final(self).wf(),
            old(self)@.len() == 0 ==> best is None && final(self)@ == old(self)@,
            old(self)@.len() > 0 ==> {
                &&& best matches Some(config)
                &&& is_best(old(self)@, config@)
                &&& final(self)@ == old(self)@.remove(config@)
            },
    {
        heap_remove(&mut self.heap)
    }

    /// Empties the store by taking a best entry out again and again, and
    /// returns the entries in the order in which they left: their spreads
    /// never go down.
    pub fn drain_sorted(&mut self) -> (configs: Vec<PartyConfig>)
        requires
            old(self).wf(),
        ensures
            final(self).wf(),
            final(self)@ == Multiset::<ConfigView>::empty(),
            config_views(configs@).to_multiset() == old(self)@,
            ascending(config_views(configs@)),
    {
        let mut configs: Vec<PartyConfig> = Vec::new();
        proof {
            broadcast use group_to_multiset_ensures, group_multiset_axioms;

            assert(config_views(configs@).to_multiset().len() == 0);
            assert(config_views(configs@).to_multiset().add(self@) =~= self@);
        }
        loop
            invariant
                self.wf(),
                config_views(configs@).to_multiset().add(self@) == old(self)@,
                ascending(config_views(configs@)),
                forall|i: int, other: ConfigView|
                    0 <= i < configs@.len() && #[trigger] self@.contains(other)
                        ==> #[trigger] config_views(configs@)[i].var <= other.var,
            ensures
                self.wf(),
                self@ == Multiset::<ConfigView>::empty(),
                config_views(configs@).to_multiset() == old(self)@,
                ascending(config_views(configs@)),
            decreases self@.len(),
        {
            let ghost before = self@;
            let ghost taken = config_views(configs@);
            match self.pop_best() {
                None => {
                    proof {
                        broadcast use group_multiset_axioms;

                        assert(self@ =~= Multiset::<ConfigView>::empty());
                        assert(taken.to_multiset().add(self@) =~= taken.to_multiset());
                    }
                    break ;
                },
                Some(config) => {
                    configs.push(config);
                    proof {
                        broadcast use group_to_multiset_ensures, group_multiset_axioms;

                        assert(config_views(configs@) =~= taken.push(config@));
                        assert(taken.push(config@).to_multiset().add(self@) =~= taken.to_multiset().add(
                            before,
                        ));
                        assert forall|other: ConfigView| #[trigger]
                            self@.contains(other) implies before.contains(other) by {}
                    }
                },
            }
        }
        configs
    }
}

/// Adds an entry to a heap.
fn heap_insert(heap: &mut Vec<PartyConfig>, config: PartyConfig)
    requires
        heap_ordered(old(heap)@),
    ensures
        heap_ordered(final(heap)@),
        config_views(final(heap)@).to_multiset() == config_views(old(heap)@).to_multiset().insert(
            config@,
        ),
{
    let last: usize = heap.len();
    heap.push(config);
    proof {
        broadcast use group_to_multiset_ensures;

        assert(config_views(heap@) =~= config_views(old(heap)@).push(config@));
    }
    sift_up(heap, last);
}

/// Takes the root out of a heap.
fn heap_remove(heap: &mut Vec<PartyConfig>) -> (root: Option<PartyConfig>)
    requires
        heap_ordered(old(heap)@),
    ensures
        heap_ordered(final(heap)@),
        config_views(old(heap)@).to_multiset().len() == old(heap)@.len(),
        old(heap)@.len() == 0 ==> root is None && final(heap)@ == old(heap)@,
        old(heap)@.len() > 0 ==> {
            &&& root matches Some(config)
            &&& is_best(config_views(old(heap)@).to_multiset(), config@)
            &&& config_views(final(heap)@).to_multiset() == config_views(
                old(heap)@,
            ).to_multiset().remove(config@)
        },
{
    proof {
        config_views(heap@).to_multiset_ensures();
    }
    if heap.len() == 0 {
        return None;
    }
    let root = heap.swap_remove(0);
    proof {
        broadcast use group_to_multiset_ensures, group_multiset_axioms;

        lemma_root_is_best(old(heap)@);
        let before = config_views(old(heap)@);
        let moved = before.update(0, before.last());
        assert(config_views(heap@) =~= moved.remove(moved.len() - 1));
        assert(config_views(heap@).to_multiset() =~= before.to_multiset().remove(root@));
    }
    sift_down(heap);
    Some(root)
}

} // verus!
