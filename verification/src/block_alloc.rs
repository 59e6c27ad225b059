use vstd::prelude::*;

verus! {

/// Size of one block, in bytes.
pub const ALLOC_BLOCK_SIZE: u8 = 64;

/// Number of blocks the allocator manages.
pub const ALLOC_BLOCK_NUM: usize = 16384;

/// Bookkeeping of the allocator: one flag per block, `false` meaning free.
pub struct MyAllocData {
    pub tab_alloc: [bool; ALLOC_BLOCK_NUM],
}

/// A fixed arena of blocks together with its bookkeeping.
pub struct MyAlloc {
    pub memory: [u8; ALLOC_BLOCK_NUM],
    pub data: MyAllocData,
}

/// `n` free blocks end at index `i`: the blocks `i - n + 1 ..= i` all exist and are free.
pub open spec fn run_ends_at(tab: Seq<bool>, n: int, i: int) -> bool {
    &&& 1 <= n
    &&& n - 1 <= i < tab.len()
    &&& forall|k: int| i - n < k <= i ==> !tab[k]
}

/// The smallest index at which `n` free blocks end, if there is one.
pub open spec fn first_fit_end(tab: Seq<bool>, n: int) -> Option<int> {
    if exists|i: int| run_ends_at(tab, n, i) {
        Some(choose|i: int| run_ends_at(tab, n, i) && forall|j: int| j < i ==> !run_ends_at(tab, n, j))
    } else {
        None
    }
}

/// The table `tab` with the blocks `first .. first + num` set to `state`.
pub open spec fn marked(tab: Seq<bool>, first: int, num: int, state: bool) -> Seq<bool> {
    Seq::new(tab.len(), |k: int| if first <= k < first + num { state } else { tab[k] })
}

/// If `n` free blocks end at `w`, the first fit exists and ends no later than `w`.
pub proof fn lemma_first_fit_no_later_than(tab: Seq<bool>, n: int, w: int)
    requires
        run_ends_at(tab, n, w),
    ensures
        first_fit_end(tab, n) matches Some(i) && i <= w && run_ends_at(tab, n, i),
    decreases w,
{
    if exists|j: int| j < w && run_ends_at(tab, n, j) {
        let j = choose|j: int| j < w && run_ends_at(tab, n, j);
        lemma_first_fit_no_later_than(tab, n, j);
    } else {
        assert(run_ends_at(tab, n, w) && forall|j: int| j < w ==> !run_ends_at(tab, n, j));
        let c = choose|c: int| run_ends_at(tab, n, c) && forall|j: int| j < c ==> !run_ends_at(tab, n, j);
        assert(run_ends_at(tab, n, c) && forall|j: int| j < c ==> !run_ends_at(tab, n, j));
        assert(c == w);
    }
}

/// Freeing `n >= 1` blocks starting at `first` guarantees that a search for
/// `n` blocks succeeds, with a run that ends no later than the freed one.
pub proof fn lemma_freeing_makes_room(tab: Seq<bool>, first: int, n: int)
    requires
        1 <= n,
        0 <= first,
        first + n <= tab.len(),
    ensures
        first_fit_end(marked(tab, first, n, false), n) matches Some(i) && i <= first + n - 1,
{
    let t = marked(tab, first, n, false);
    assert(run_ends_at(t, n, first + n - 1));
    lemma_first_fit_no_later_than(t, n, first + n - 1);
}

/// Taking free blocks and then releasing them gives back the table one started with.
pub proof fn lemma_take_then_release_restores(tab: Seq<bool>, first: int, n: int)
    requires
        forall|k: int| first <= k < first + n && 0 <= k < tab.len() ==> !tab[k],
    ensures
        marked(marked(tab, first, n, true), first, n, false) == tab,
{
    assert(marked(marked(tab, first, n, true), first, n, false) =~= tab);
}

/// After blocks are taken, no run of free blocks overlaps them.
pub proof fn lemma_taken_blocks_are_not_free(tab: Seq<bool>, first: int, n: int, m: int, i: int)
    requires
        run_ends_at(marked(tab, first, n, true), m, i),
    ensures
        n <= 0 || i < first || first + n <= i - m + 1,
{
    let t = marked(tab, first, n, true);
    if n > 0 && first <= i && i - m + 1 < first + n {
        let k = if i - m + 1 <= first { first } else { i - m + 1 };
        assert(!t[k]);
    }
}

/// A table in which every block is taken has no room for any request.
pub proof fn lemma_full_table_has_no_fit(n: int)
    ensures
        first_fit_end(Seq::new(ALLOC_BLOCK_NUM as nat, |k: int| true), n) is None,
{
    let t = Seq::new(ALLOC_BLOCK_NUM as nat, |k: int| true);
    assert forall|i: int| !run_ends_at(t, n, i) by {
        if run_ends_at(t, n, i) {
            assert(!t[i]);
        }
    }
}

impl MyAlloc {
    /// An arena with zeroed memory in which every block is marked as taken.
    pub fn new() -> (a: Self)
        ensures
            a.data.tab_alloc@ == Seq::new(ALLOC_BLOCK_NUM as nat, |k: int| true),
            a.memory@ == Seq::new(ALLOC_BLOCK_NUM as nat, |k: int| 0u8),
    {
        let a = MyAlloc { memory: [0u8; ALLOC_BLOCK_NUM], data: MyAllocData { tab_alloc: [true; ALLOC_BLOCK_NUM] } };
        assert(a.data.tab_alloc@ =~= Seq::new(ALLOC_BLOCK_NUM as nat, |k: int| true));
        assert(a.memory@ =~= Seq::new(ALLOC_BLOCK_NUM as nat, |k: int| 0u8));
        a
    }
}

impl MyAllocData {
    /// Sets the `num_blocks` blocks starting at `first_block` to `state`.
    pub fn mark_blocks(&mut self, first_block: usize, num_blocks: usize, state: bool)
        requires
            num_blocks == 0 || first_block + num_blocks <= ALLOC_BLOCK_NUM,
        ensures
            final(self).tab_alloc@ == marked(
                old(self).tab_alloc@,
                first_block as int,
                num_blocks as int,
                state,
            ),
    {
        if num_blocks == 0 {
            assert(self.tab_alloc@ =~= marked(self.tab_alloc@, first_block as int, 0, state));
            return;
        }
        let end = first_block + num_blocks;
        let mut i = first_block;
        while i < end
            invariant
                first_block <= i <= end,
                end == first_block + num_blocks,
                end <= ALLOC_BLOCK_NUM,
                self.tab_alloc@.len() == ALLOC_BLOCK_NUM,
                forall|k: int|
                    0 <= k < ALLOC_BLOCK_NUM ==> #[trigger] self.tab_alloc@[k] == if first_block
                        <= k < i {
                        state
                    } else {
                        old(self).tab_alloc@[k]
                    },
            decreases end - i,
        {
            self.tab_alloc[i] = state;
            i = i + 1;
        }
        assert(self.tab_alloc@ =~= marked(
            old(self).tab_alloc@,
            first_block as int,
            num_blocks as int,
            state,
        ));
    }

    /// Looks for `num_blocks` consecutive free blocks and returns the index of
    /// the last block of the first such run.
    pub fn find_blocks(&self, num_blocks: usize) -> (r: Option<usize>)
        ensures
            r matches Some(i) ==> run_ends_at(self.tab_alloc@, num_blocks as int, i as int)
                && forall|j: int| j < i ==> !run_ends_at(self.tab_alloc@, num_blocks as int, j),
            r is None ==> forall|j: int| !run_ends_at(self.tab_alloc@, num_blocks as int, j),
            r matches Some(i) ==> first_fit_end(self.tab_alloc@, num_blocks as int) == Some(i as int),
            r is None ==> first_fit_end(self.tab_alloc@, num_blocks as int) is None,
    {
        let ghost tab = self.tab_alloc@;
        let ghost n = num_blocks as int;
        let mut cpt: usize = 0;
        let mut i: usize = 0;
        while i < ALLOC_BLOCK_NUM
            invariant
                tab == self.tab_alloc@,
                tab.len() == ALLOC_BLOCK_NUM,
                n == num_blocks,
                i <= ALLOC_BLOCK_NUM,
                cpt <= i,
                num_blocks >= 1 ==> cpt < num_blocks,
                forall|k: int| i - cpt <= k < i ==> !tab[k],
                i - cpt == 0 || tab[i - cpt - 1],
                forall|j: int| j < i ==> !run_ends_at(tab, n, j),
            decreases ALLOC_BLOCK_NUM - i,
        {
            if !self.tab_alloc[i] {
                cpt = cpt + 1;
                if cpt == num_blocks {
                    assert(run_ends_at(tab, n, i as int));
                    proof {
                        let c = choose|c: int| run_ends_at(tab, n, c) && forall|j: int| j < c ==> !run_ends_at(tab, n, j);
                        assert(run_ends_at(tab, n, c) && forall|j: int| j < c ==> !run_ends_at(tab, n, j));
                        assert(c == i);
                    }
                    return Some(i);
                }
                assert(!run_ends_at(tab, n, i as int)) by {
                    if run_ends_at(tab, n, i as int) {
                        if i - cpt >= 1 {
                            assert(!tab[i - cpt]);
                        }
                    }
                }
            } else {
                assert(!run_ends_at(tab, n, i as int));
                cpt = 0;
            }
            i = i + 1;
        }
        assert forall|j: int| !run_ends_at(tab, n, j) by {
            if j < i {
            }
        }
        None
    }
}

} // verus!
