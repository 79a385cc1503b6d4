//! A k-way merge of sorted streams; on equal keys the stream of smaller index wins.
use vstd::prelude::*;
use crate::block::{Entry, sorted_entries};
use crate::codec::copy_range;
use crate::error::LsmError;
use crate::iterators::StorageIterator;
use crate::key::{compare_keys, key_lt, lemma_cmp_antisym, lemma_cmp_trans};

verus! {

/// Stream `c` has the smallest head: by key, then by index.
pub open spec fn is_min_head(streams: Seq<Seq<Entry>>, c: int) -> bool {
    &&& 0 <= c < streams.len()
    &&& streams[c].len() > 0
    &&& forall|j: int|
        0 <= j < streams.len() && #[trigger] streams[j].len() > 0 ==> key_lt(
            streams[c][0].0,
            streams[j][0].0,
        ) || (streams[c][0].0 == streams[j][0].0 && c <= j)
}

pub open spec fn all_empty(streams: Seq<Seq<Entry>>) -> bool {
    forall|j: int| 0 <= j < streams.len() ==> #[trigger] streams[j].len() == 0
}

/// Each stream whose head has key `k` moves past it.
pub open spec fn advance_past(streams: Seq<Seq<Entry>>, k: Seq<u8>) -> Seq<Seq<Entry>> {
    Seq::new(
        streams.len(),
        |j: int|
            if streams[j].len() > 0 && streams[j][0].0 == k {
                streams[j].drop_first()
            } else {
                streams[j]
            },
    )
}

pub open spec fn streams_of<I: StorageIterator>(v: Seq<Box<I>>) -> Seq<Seq<Entry>> {
    Seq::new(v.len(), |i: int| v[i].remaining())
}

/// No cursor of `v` can fail to move on.
pub open spec fn all_infallible<I: StorageIterator>(v: Seq<Box<I>>) -> bool {
    forall|i: int| 0 <= i < v.len() ==> #[trigger] v[i].infallible()
}

pub open spec fn all_inv<I: StorageIterator>(v: Seq<Box<I>>) -> bool {
    forall|i: int| 0 <= i < v.len() ==> #[trigger] v[i].inv()
}

/// Merges iterators of the same type. A key in several of them is taken from the one of
/// smallest index, and the others move past it.
pub struct MergeIterator<I: StorageIterator> {
    iters: Vec<Box<I>>,
    current: usize,
}

/// The stream with the smallest head, or the count of streams when all are empty.
fn find_min<I: StorageIterator>(iters: &Vec<Box<I>>) -> (c: usize)
    requires
        all_inv(iters@),
    ensures
        c < iters@.len() ==> is_min_head(streams_of(iters@), c as int),
        c >= iters@.len() ==> c == iters@.len() && all_empty(streams_of(iters@)),
{
    let ghost ss = streams_of(iters@);
    let n = iters.len();
    let mut best: usize = n;
    let mut j: usize = 0;
    while j < n
        invariant
            n == iters@.len(),
            ss == streams_of(iters@),
            all_inv(iters@),
            j <= n,
            best == n ==> forall|i: int| 0 <= i < j ==> #[trigger] ss[i].len() == 0,
            best != n ==> best < j && ss[best as int].len() > 0 && forall|i: int|
                0 <= i < j && #[trigger] ss[i].len() > 0 ==> key_lt(ss[best as int][0].0, ss[i][0].0)
                    || (ss[best as int][0].0 == ss[i][0].0 && best <= i),
        decreases n - j,
    {
        assert(iters@[j as int].inv());
        if iters[j].is_valid() {
            if best == n {
                best = j;
            } else {
                assert(iters@[best as int].inv());
                let c = compare_keys(iters[j].key(), iters[best].key());
                let ghost kb = ss[best as int][0].0;
                let ghost kj = ss[j as int][0].0;
                proof {
                    lemma_cmp_antisym(kj, kb);
                }
                if c < 0 {
                    proof {
                        assert forall|i: int|
                            0 <= i < j + 1 && #[trigger] ss[i].len() > 0 implies key_lt(kj, ss[i][0].0)
                            || (kj == ss[i][0].0 && j <= i) by {
                            if i < j {
                                lemma_cmp_antisym(kb, ss[i][0].0);
                                lemma_cmp_trans(kj, kb, ss[i][0].0);
                            }
                        }
                    }
                    best = j;
                }
            }
        }
        j = j + 1;
    }
    best
}

impl<I: StorageIterator> MergeIterator<I> {
    /// What remains of each stream, by index.
    pub closed spec fn streams(&self) -> Seq<Seq<Entry>> {
        streams_of(self.iters@)
    }

    /// No underlying cursor can fail to move on.
    pub closed spec fn cursors_infallible(&self) -> bool {
        all_infallible(self.iters@)
    }

    /// The stream that supplies the current entry.
    pub closed spec fn current_stream(&self) -> int {
        self.current as int
    }

    pub closed spec fn wf(&self) -> bool {
        &&& all_inv(self.iters@)
        &&& self.current < self.iters@.len() ==> is_min_head(self.streams(), self.current as int)
        &&& self.current >= self.iters@.len() ==> self.current == self.iters@.len() && all_empty(
            self.streams(),
        )
    }

    /// The merge is on an entry: some stream is not exhausted, and the current one has the
    /// smallest head.
    pub open spec fn valid(&self) -> bool {
        is_min_head(self.streams(), self.current_stream())
    }

    /// Merges `iters`; a smaller index takes precedence on equal keys.
    pub fn create(iters: Vec<Box<I>>) -> (r: Self)
        requires
            all_inv(iters@),
        ensures
            r.wf(),
            r.streams() == streams_of(iters@),
            r.valid() <==> !all_empty(r.streams()),
            r.cursors_infallible() == all_infallible(iters@),
    {
        let current = find_min(&iters);
        MergeIterator { iters, current }
    }

    /// The key of the current entry: the smallest head key of all streams.
    pub fn key(&self) -> (r: &[u8])
        requires
            self.wf(),
            self.valid(),
        ensures
            r@ == self.streams()[self.current_stream()][0].0,
    {
        assert(self.iters@[self.current as int].inv());
        self.iters[self.current].key()
    }

    /// The value of the current entry: from the stream of smallest index among those whose
    /// head has the current key.
    pub fn value(&self) -> (r: &[u8])
        requires
            self.wf(),
            self.valid(),
        ensures
            r@ == self.streams()[self.current_stream()][0].1,
    {
        assert(self.iters@[self.current as int].inv());
        self.iters[self.current].value()
    }

    /// Some stream has entries left.
    pub fn is_valid(&self) -> (r: bool)
        requires
            self.wf(),
        ensures
            r == self.valid(),
            r == !all_empty(self.streams()),
    {
        self.current < self.iters.len()
    }

    /// Moves every stream whose head has the current key past it.
    pub fn next(&mut self) -> (r: Result<(), LsmError>)
        requires
            old(self).wf(),
            old(self).valid(),
        ensures
            final(self).wf(),
            old(self).cursors_infallible() ==> r is Ok && final(self).cursors_infallible(),
            r is Ok ==> final(self).streams() == advance_past(
                old(self).streams(),
                old(self).streams()[old(self).current_stream()][0].0,
            ),
            r is Ok ==> (final(self).valid() <==> !all_empty(final(self).streams())),
    {
        let ghost ss = self.streams();
        assert(self.iters@[self.current as int].inv());
        let k = {
            let kk = self.iters[self.current].key();
            copy_range(kk, 0, kk.len())
        };
        assert(k@ =~= ss[self.current as int][0].0);
        let ghost target = advance_past(ss, k@);
        let n = self.iters.len();
        let mut j: usize = 0;
        while j < n
            invariant
                n == self.iters@.len(),
                all_inv(self.iters@),
                j <= n,
                target == advance_past(ss, k@),
                ss.len() == n,
                forall|i: int| 0 <= i < j ==> #[trigger] streams_of(self.iters@)[i] == target[i],
                forall|i: int| j <= i < n ==> #[trigger] streams_of(self.iters@)[i] == ss[i],
                old(self).cursors_infallible() ==> all_infallible(self.iters@),
            decreases n - j,
        {
            let ghost before = self.iters@;
            let mut it = self.iters.remove(j);
            assert(before[j as int] == it);
            assert(it.inv());
            assert(old(self).cursors_infallible() ==> it.infallible());
            let ghost rem0 = it.remaining();
            assert(streams_of(before)[j as int] == ss[j as int]);
            assert(rem0 == ss[j as int]);
            let mut advance = false;
            if it.is_valid() {
                advance = compare_keys(it.key(), k.as_slice()) == 0;
                proof {
                    lemma_cmp_antisym(it.remaining()[0].0, k@);
                }
            }
            if advance {
                match it.next() {
                    Ok(()) => {},
                    Err(e) => {
                        self.iters.insert(j, it);
                        proof {
                            assert forall|i: int| 0 <= i < n implies #[trigger] self.iters@[i].inv() by {
                                if i != j {
                                    assert(self.iters@[i] == before[i]);
                                }
                            }
                        }
                        self.current = find_min(&self.iters);
                        return Err(e);
                    },
                }
            }
            assert(it.remaining() == target[j as int]);
            self.iters.insert(j, it);
            proof {
                assert(self.iters@ == before.update(j as int, it));
                if old(self).cursors_infallible() {
                    assert forall|i: int| 0 <= i < n implies #[trigger] self.iters@[i].infallible() by {
                        if i != j {
                            assert(self.iters@[i] == before[i]);
                        }
                    }
                }
                assert forall|i: int| 0 <= i < n implies #[trigger] self.iters@[i].inv() by {
                    if i != j {
                        assert(self.iters@[i] == before[i]);
                    }
                }
                assert forall|i: int| 0 <= i < j + 1 implies #[trigger] streams_of(self.iters@)[i] == target[i] by {
                    if i < j {
                        assert(self.iters@[i] == before[i]);
                        assert(streams_of(before)[i] == target[i]);
                    }
                }
                assert forall|i: int| j + 1 <= i < n implies #[trigger] streams_of(self.iters@)[i] == ss[i] by {
                    assert(self.iters@[i] == before[i]);
                    assert(streams_of(before)[i] == ss[i]);
                }
            }
            j = j + 1;
        }
        assert(streams_of(self.iters@) =~= target);
        self.current = find_min(&self.iters);
        Ok(())
    }

    /// Number of underlying cursors that still have entries.
    pub fn num_active_iterators(&self) -> usize
        requires
            self.wf(),
    {
        let mut total: usize = 0;
        let mut j: usize = 0;
        while j < self.iters.len()
            invariant
                all_inv(self.iters@),
                j <= self.iters@.len(),
            decreases self.iters@.len() - j,
        {
            assert(self.iters@[j as int].inv());
            if self.iters[j].is_valid() {
                total = total.saturating_add(self.iters[j].num_active_iterators());
            }
            j = j + 1;
        }
        total
    }
}

/// Entries left in all streams.
pub open spec fn total_len(ss: Seq<Seq<Entry>>) -> nat
    decreases ss.len(),
{
    if ss.len() == 0 {
        0
    } else {
        total_len(ss.drop_last()) + ss.last().len()
    }
}

/// Moving streams past a key leaves no more entries, and fewer when stream `c` has it at
/// its head.
pub proof fn lemma_advance_shrinks(ss: Seq<Seq<Entry>>, k: Seq<u8>, c: int)
    ensures
        total_len(advance_past(ss, k)) <= total_len(ss),
        0 <= c < ss.len() && ss[c].len() > 0 && ss[c][0].0 == k ==> total_len(advance_past(ss, k))
            < total_len(ss),
    decreases ss.len(),
{
    if ss.len() > 0 {
        let a = advance_past(ss, k);
        assert(a.drop_last() =~= advance_past(ss.drop_last(), k));
        lemma_advance_shrinks(ss.drop_last(), k, c);
        if 0 <= c < ss.len() - 1 {
            assert(ss.drop_last()[c] == ss[c]);
        }
    }
}

/// At most one stream has the smallest head.
pub proof fn lemma_min_head_unique(ss: Seq<Seq<Entry>>, c1: int, c2: int)
    requires
        is_min_head(ss, c1),
        is_min_head(ss, c2),
    ensures
        c1 == c2,
{
    lemma_cmp_antisym(ss[c1][0].0, ss[c2][0].0);
    assert(ss[c2].len() > 0);
    assert(ss[c1].len() > 0);
}

/// The sequence a merge yields: the smallest head, then the merge of the streams moved past
/// its key.
pub open spec fn merged(ss: Seq<Seq<Entry>>) -> Seq<Entry>
    decreases total_len(ss),
{
    if exists|c: int| is_min_head(ss, c) {
        let c = choose|c: int| is_min_head(ss, c);
        proof {
            lemma_advance_shrinks(ss, ss[c][0].0, c);
        }
        seq![ss[c][0]] + merged(advance_past(ss, ss[c][0].0))
    } else {
        Seq::empty()
    }
}

/// The merge starts with the head of the stream of smallest index among those whose head has
/// the smallest key, and goes on with every stream moved past that key.
pub proof fn lemma_merged_first(ss: Seq<Seq<Entry>>, c: int)
    requires
        is_min_head(ss, c),
    ensures
        merged(ss) == seq![ss[c][0]] + merged(advance_past(ss, ss[c][0].0)),
{
    let c0 = choose|c: int| is_min_head(ss, c);
    lemma_min_head_unique(ss, c0, c);
}

/// Over streams whose heads are all above `lo`, the merge yields only keys above `lo`.
proof fn lemma_merged_above(ss: Seq<Seq<Entry>>, lo: Seq<u8>)
    requires
        forall|j: int| 0 <= j < ss.len() ==> sorted_entries(#[trigger] ss[j]),
        forall|j: int| 0 <= j < ss.len() && #[trigger] ss[j].len() > 0 ==> key_lt(lo, ss[j][0].0),
    ensures
        forall|x: int| 0 <= x < merged(ss).len() ==> key_lt(lo, #[trigger] merged(ss)[x].0),
    decreases total_len(ss),
{
    if exists|c: int| is_min_head(ss, c) {
        let c = choose|c: int| is_min_head(ss, c);
        let k = ss[c][0].0;
        let a = advance_past(ss, k);
        lemma_advance_shrinks(ss, k, c);
        lemma_merge_step_ascends(ss, c);
        assert forall|j: int| 0 <= j < a.len() && #[trigger] a[j].len() > 0 implies key_lt(lo, a[j][0].0) by {
            let s = ss[j];
            if s.len() > 0 && s[0].0 == k {
                reveal(sorted_entries);
                assert(a[j][0] == s[1]);
                assert(key_lt(s[0].0, s[1].0));
                lemma_cmp_trans(lo, s[0].0, s[1].0);
            }
        }
        lemma_merged_above(a, lo);
        assert(merged(ss) == seq![ss[c][0]] + merged(a));
        assert forall|x: int| 0 <= x < merged(ss).len() implies key_lt(lo, #[trigger] merged(ss)[x].0) by {
            if x > 0 {
                assert(merged(ss)[x] == merged(a)[x - 1]);
            }
        }
    }
}

/// Merging streams with ascending keys yields strictly ascending keys.
pub proof fn lemma_merged_sorted(ss: Seq<Seq<Entry>>)
    requires
        forall|j: int| 0 <= j < ss.len() ==> sorted_entries(#[trigger] ss[j]),
    ensures
        sorted_entries(merged(ss)),
    decreases total_len(ss),
{
    reveal(sorted_entries);
    if exists|c: int| is_min_head(ss, c) {
        let c = choose|c: int| is_min_head(ss, c);
        let k = ss[c][0].0;
        let a = advance_past(ss, k);
        lemma_advance_shrinks(ss, k, c);
        lemma_merge_step_ascends(ss, c);
        lemma_merged_sorted(a);
        lemma_merged_above(a, k);
        let m = merged(ss);
        assert(m == seq![ss[c][0]] + merged(a));
        assert forall|x: int, y: int| 0 <= x < y < m.len() implies key_lt(#[trigger] m[x].0, #[trigger] m[y].0) by {
            assert(m[y] == merged(a)[y - 1]);
            if x > 0 {
                assert(m[x] == merged(a)[x - 1]);
            }
        }
    } else {
        assert(merged(ss) =~= Seq::<Entry>::empty());
    }
}

/// A merge step over sorted streams leaves them sorted, with every head above the key just
/// produced: the merge yields strictly ascending keys, and a key is produced once.
pub proof fn lemma_merge_step_ascends(streams: Seq<Seq<Entry>>, c: int)
    requires
        is_min_head(streams, c),
        forall|j: int| 0 <= j < streams.len() ==> sorted_entries(#[trigger] streams[j]),
    ensures
        ({
            let k = streams[c][0].0;
            let after = advance_past(streams, k);
            &&& forall|j: int| 0 <= j < after.len() ==> sorted_entries(#[trigger] after[j])
            &&& forall|j: int|
                0 <= j < after.len() && #[trigger] after[j].len() > 0 ==> key_lt(k, after[j][0].0)
        }),
{
    let k = streams[c][0].0;
    let after = advance_past(streams, k);
    reveal(sorted_entries);
    assert forall|j: int| 0 <= j < after.len() implies sorted_entries(#[trigger] after[j]) by {
        let s = streams[j];
        assert(sorted_entries(s));
        if s.len() > 0 && s[0].0 == k {
            let t = s.drop_first();
            assert forall|a: int, b: int| 0 <= a < b < t.len() implies key_lt(#[trigger] t[a].0, #[trigger] t[b].0) by {
                assert(t[a] == s[a + 1]);
                assert(t[b] == s[b + 1]);
            }
        }
    }
    assert forall|j: int| 0 <= j < after.len() && #[trigger] after[j].len() > 0 implies key_lt(k, after[j][0].0) by {
        let s = streams[j];
        if s.len() > 0 && s[0].0 == k {
            assert(after[j][0] == s[1]);
            assert(key_lt(s[0].0, s[1].0));
        } else {
            assert(s.len() > 0);
            assert(key_lt(k, s[0].0) || (k == s[0].0 && c <= j));
        }
    }
}

} // verus!

verus! {

impl<I: StorageIterator> StorageIterator for MergeIterator<I> {
    open spec fn inv(&self) -> bool {
        self.wf()
    }

    open spec fn remaining(&self) -> Seq<Entry> {
        merged(self.streams())
    }

    open spec fn infallible(&self) -> bool {
        self.cursors_infallible()
    }

    fn key(&self) -> (r: &[u8]) {
        proof {
            self.lemma_valid_is_nonempty();
        }
        MergeIterator::key(self)
    }

    fn value(&self) -> (r: &[u8]) {
        proof {
            self.lemma_valid_is_nonempty();
        }
        MergeIterator::value(self)
    }

    fn is_valid(&self) -> (r: bool) {
        proof {
            self.lemma_valid_is_nonempty();
        }
        MergeIterator::is_valid(self)
    }

    fn next(&mut self) -> (r: Result<(), LsmError>) {
        proof {
            self.lemma_valid_is_nonempty();
        }
        if !MergeIterator::is_valid(self) {
            return Ok(());
        }
        let ghost ss = self.streams();
        let r = MergeIterator::next(self);
        proof {
            let c = self.current_stream();
            let c0 = choose|c: int| is_min_head(ss, c);
            lemma_min_head_unique(ss, c0, old(self).current_stream());
            assert(merged(ss).drop_first() =~= merged(advance_past(ss, ss[c0][0].0)));
        }
        r
    }

    fn num_active_iterators(&self) -> usize {
        MergeIterator::num_active_iterators(self)
    }
}

impl<I: StorageIterator> MergeIterator<I> {
    /// The merge has an entry exactly when it is valid, and that entry is the current
    /// stream's head.
    pub proof fn lemma_valid_is_nonempty(&self)
        requires
            self.wf(),
        ensures
            self.valid() <==> merged(self.streams()).len() > 0,
            self.valid() ==> merged(self.streams())[0] == self.streams()[self.current_stream()][0],
    {
        let ss = self.streams();
        if self.valid() {
            let c0 = choose|c: int| is_min_head(ss, c);
            lemma_min_head_unique(ss, c0, self.current_stream());
        } else {
            assert forall|c: int| !is_min_head(ss, c) by {
                if is_min_head(ss, c) {
                    assert(ss[c].len() > 0);
                }
            }
        }
    }
}

} // verus!
