//! The decisions of the work harness: ordering files, grouping them into chunks,
//! a worker's idle count, and collecting the workers' dictionaries.
use crate::dictionary::{merge_fits, merged, Dictionary};
use vstd::prelude::*;

verus! {

/// A job sent to a worker.
pub enum MessageFromMain {
    ReadTheseFiles(Vec<String>),
}

/// A worker's reply.
pub enum MessageToMain {
    NewDictionary(Dictionary),
    Done,
}

/// `order` lists each index below `n` once.
pub open spec fn is_permutation(order: Seq<usize>, n: nat) -> bool {
    &&& order.len() == n
    &&& order.no_duplicates()
    &&& forall|k: int| 0 <= k < order.len() ==> order[k] < n
}

/// `order` lists indices by ascending size, equal sizes by ascending index.
pub open spec fn sorted_by_size(sizes: Seq<u64>, order: Seq<usize>) -> bool {
    forall|a: int, b: int|
        0 <= a < b < order.len() ==> sizes[order[a] as int] < sizes[order[b] as int] || (sizes[order[a] as int]
            == sizes[order[b] as int] && order[a] < order[b])
}

/// The indices of `sizes`, ordered by ascending size; equal sizes keep their order.
pub fn order_by_size(sizes: &[u64]) -> (r: Vec<usize>)
    ensures
        is_permutation(r@, sizes@.len()),
        sorted_by_size(sizes@, r@),
{
    let mut r: Vec<usize> = Vec::new();
    let mut i: usize = 0;
    while i < sizes.len()
        invariant
            i <= sizes@.len(),
            is_permutation(r@, i as nat),
            sorted_by_size(sizes@, r@),
        decreases sizes@.len() - i,
    {
        let mut p: usize = 0;
        while p < r.len() && sizes[r[p]] <= sizes[i]
            invariant
                i < sizes@.len(),
                p <= r@.len(),
                is_permutation(r@, i as nat),
                forall|k: int| 0 <= k < p ==> sizes@[#[trigger] r@[k] as int] <= sizes@[i as int],
            decreases r@.len() - p,
        {
            p += 1;
        }
        let ghost old_r = r@;
        r.insert(p, i);
        proof {
            assert(r@ == old_r.insert(p as int, i));
            assert forall|a: int, b: int| 0 <= a < b < r@.len() && r@[a] == r@[b] implies false by {
                if a < p && b > p {
                    assert(r@[b] == old_r[b - 1]);
                } else if a > p {
                    assert(old_r[a - 1] == old_r[b - 1]);
                } else if b < p {
                    assert(old_r[a] == old_r[b]);
                }
            }
            assert forall|a: int, b: int| 0 <= a < b < r@.len() implies sizes@[r@[a] as int] < sizes@[r@[b] as int]
                || (sizes@[r@[a] as int] == sizes@[r@[b] as int] && r@[a] < r@[b]) by {
                if p < old_r.len() {
                    assert(sizes@[old_r[p as int] as int] > sizes@[i as int]);
                }
                if b > p && a < p {
                    assert(r@[b] == old_r[b - 1]);
                    if b - 1 >= p {
                        assert(sizes@[old_r[b - 1] as int] >= sizes@[old_r[p as int] as int] || b - 1 == p);
                    }
                } else if a == p && b > p {
                    assert(r@[b] == old_r[b - 1]);
                    if b - 1 > p {
                        assert(sizes@[old_r[b - 1] as int] >= sizes@[old_r[p as int] as int]);
                    }
                }
            }
        }
        i += 1;
    }
    r
}

/// The total size of `sizes[start..end]`.
pub open spec fn size_sum(sizes: Seq<u64>, start: int, end: int) -> int
    decreases end - start,
{
    if end <= start {
        0
    } else {
        size_sum(sizes, start, end - 1) + sizes[end - 1]
    }
}

/// Where a chunk from `start` ends once it holds the files up to `end`: it takes
/// more files while its total is under `chunk_size` and files are left.
pub open spec fn chunk_end_from(sizes: Seq<u64>, start: int, end: int, chunk_size: usize) -> int
    decreases sizes.len() - end,
{
    if end >= sizes.len() || size_sum(sizes, start, end) >= chunk_size {
        end
    } else {
        chunk_end_from(sizes, start, end + 1, chunk_size)
    }
}

/// The end of each chunk, in order, for the files from `start` on: each chunk
/// takes at least one file.
pub open spec fn chunk_ends(sizes: Seq<u64>, start: int, chunk_size: usize) -> Seq<int>
    decreases sizes.len() - start,
{
    if start >= sizes.len() {
        seq![]
    } else {
        let end = chunk_end_from(sizes, start, start + 1, chunk_size);
        if end <= start || end > sizes.len() {
            seq![]
        } else {
            seq![end] + chunk_ends(sizes, end, chunk_size)
        }
    }
}

proof fn lemma_chunk_end_bounds(sizes: Seq<u64>, start: int, end: int, chunk_size: usize)
    requires
        end <= sizes.len(),
    ensures
        end <= chunk_end_from(sizes, start, end, chunk_size) <= sizes.len(),
    decreases sizes.len() - end,
{
    if end < sizes.len() && size_sum(sizes, start, end) < chunk_size {
        lemma_chunk_end_bounds(sizes, start, end + 1, chunk_size);
    }
}

/// Groups files, in the given order, into chunks: a chunk takes files while its
/// total size is under `chunk_size`, and at least one. Returns where each chunk ends.
pub fn plan_chunks(sizes: &[u64], chunk_size: usize) -> (r: Vec<usize>)
    ensures
        r@.map_values(|e: usize| e as int) == chunk_ends(sizes@, 0, chunk_size),
{
    let mut r: Vec<usize> = Vec::new();
    let mut start: usize = 0;
    let n = sizes.len();
    while start < n
        invariant
            n == sizes@.len(),
            start <= n,
            r@.map_values(|e: usize| e as int) + chunk_ends(sizes@, start as int, chunk_size)
                == chunk_ends(sizes@, 0, chunk_size),
        decreases n - start,
    {
        let mut end: usize = start + 1;
        let mut total: u128 = sizes[start] as u128;
        assert(size_sum(sizes@, start as int, start as int) == 0);
        assert(size_sum(sizes@, start as int, end as int) == sizes@[start as int]);
        while end < n && total < chunk_size as u128
            invariant
                n == sizes@.len(),
                start < end <= n,
                total == size_sum(sizes@, start as int, end as int),
                total <= chunk_size as u128 + 0xffff_ffff_ffff_ffffu128,
                chunk_end_from(sizes@, start as int, end as int, chunk_size) == chunk_end_from(
                    sizes@,
                    start as int,
                    start + 1,
                    chunk_size,
                ),
            decreases n - end,
        {
            total = total + sizes[end] as u128;
            end += 1;
        }
        proof {
            lemma_chunk_end_bounds(sizes@, start as int, start + 1, chunk_size);
        }
        let ghost before = r@.map_values(|e: usize| e as int);
        r.push(end);
        assert(r@.map_values(|e: usize| e as int) =~= before.push(end as int));
        assert(before.push(end as int) + chunk_ends(sizes@, end as int, chunk_size) =~= before + chunk_ends(
            sizes@,
            start as int,
            chunk_size,
        ));
        start = end;
    }
    assert(chunk_ends(sizes@, start as int, chunk_size) =~= Seq::<int>::empty());
    assert(r@.map_values(|e: usize| e as int) =~= r@.map_values(|e: usize| e as int) + Seq::<
        int,
    >::empty());
    r
}

/// Idle rounds in a row after which a worker reports that it is done.
pub const IDLE_ROUNDS_LIMIT: usize = 5;

/// A worker's count of rounds in a row without work.
pub struct WorkerState {
    pub idle_rounds: usize,
}

impl WorkerState {
    pub fn new() -> (r: Self)
        ensures
            r.idle_rounds == 0,
    {
        WorkerState { idle_rounds: 0 }
    }

    /// Ends a round: work resets the count, a round without work adds one.
    /// Returns whether the worker is done: the count passed the limit.
    pub fn end_round(&mut self, got_work: bool) -> (done: bool)
        requires
            old(self).idle_rounds <= IDLE_ROUNDS_LIMIT,
        ensures
            final(self).idle_rounds == if got_work {
                0
            } else {
                old(self).idle_rounds + 1
            },
            done == (final(self).idle_rounds > IDLE_ROUNDS_LIMIT),
    {
        if got_work {
            self.idle_rounds = 0;
        } else {
            self.idle_rounds = self.idle_rounds + 1;
        }
        self.idle_rounds > IDLE_ROUNDS_LIMIT
    }
}

/// The coordinator's state: the dictionary merged so far, and how many of the
/// workers have reported that they are done.
pub struct Coordinator {
    pub result: Dictionary,
    pub done: usize,
    pub workers: usize,
}

impl Coordinator {
    pub fn new(workers: usize) -> (r: Self)
        ensures
            r.result.wf(),
            r.result.entries() == Seq::<crate::dictionary::Entry>::empty(),
            r.done == 0,
            r.workers == workers,
    {
        Coordinator { result: Dictionary::empty(), done: 0, workers }
    }

    /// Takes in a worker's reply: a dictionary is merged into the result, a
    /// report of being done is counted. Returns whether the result changed.
    pub fn on_message(&mut self, msg: MessageToMain) -> (has_update: bool)
        requires
            old(self).result.wf(),
            match msg {
                MessageToMain::NewDictionary(d) => d.wf() && merge_fits(
                    old(self).result.entries(),
                    d.entries(),
                ),
                MessageToMain::Done => true,
            },
        ensures
            final(self).result.wf(),
            final(self).workers == old(self).workers,
            match msg {
                MessageToMain::NewDictionary(d) => {
                    &&& has_update
                    &&& final(self).result.entries() == merged(old(self).result.entries(), d.entries())
                    &&& final(self).done == old(self).done
                },
                MessageToMain::Done => {
                    &&& !has_update
                    &&& final(self).result.entries() == old(self).result.entries()
                    &&& final(self).done == if old(self).done < old(self).workers {
                        old(self).done + 1
                    } else {
                        old(self).done as int
                    }
                },
            },
    {
        match msg {
            MessageToMain::NewDictionary(d) => {
                self.result.merge(&d);
                true
            },
            MessageToMain::Done => {
                if self.done < self.workers {
                    self.done = self.done + 1;
                }
                false
            },
        }
    }

    /// Every worker has reported that it is done.
    pub fn finished(&self) -> (r: bool)
        ensures
            r == (self.done >= self.workers),
    {
        self.done >= self.workers
    }
}

/// The files' bytes joined in order, with the separator byte, where one is
/// set, between two files.
pub open spec fn joined(parts: Seq<Seq<u8>>, separator: Option<u8>) -> Seq<u8>
    decreases parts.len(),
{
    if parts.len() == 0 {
        seq![]
    } else if parts.len() == 1 {
        parts[0]
    } else {
        joined(parts.drop_last(), separator) + match separator {
            Some(b) => seq![b],
            None => seq![],
        } + parts.last()
    }
}

/// Joins the contents of several files into one buffer.
pub fn join_files(parts: &[Vec<u8>], separator: Option<u8>) -> (r: Vec<u8>)
    ensures
        r@ == joined(parts@.map_values(|p: Vec<u8>| p@), separator),
{
    let ghost views = parts@.map_values(|p: Vec<u8>| p@);
    let mut r: Vec<u8> = Vec::new();
    let mut i: usize = 0;
    while i < parts.len()
        invariant
            i <= parts@.len(),
            views == parts@.map_values(|p: Vec<u8>| p@),
            r@ == joined(views.take(i as int), separator),
        decreases parts@.len() - i,
    {
        let ghost before = r@;
        if i > 0 {
            if let Some(b) = separator {
                r.push(b);
            }
        }
        r.extend_from_slice(parts[i].as_slice());
        proof {
            assert(views.take(i + 1).drop_last() =~= views.take(i as int));
            if i == 0 {
                assert(r@ =~= views.take(1)[0]);
            } else {
                assert(r@ =~= before + match separator {
                    Some(b) => seq![b],
                    None => seq![],
                } + views.take(i + 1).last());
            }
        }
        i += 1;
    }
    assert(views.take(i as int) =~= views);
    r
}

} // verus!
