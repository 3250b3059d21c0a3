use vstd::prelude::*;
use vstd::arithmetic::div_mod::lemma_fundamental_div_mod_converse;
use crate::record::{Record, RecordView};

verus! {

broadcast use vstd::seq::Seq::group_seq_flatten;

/// The contents of a list of records.
pub open spec fn records_view(v: Seq<Record>) -> Seq<RecordView> {
    v.map_values(|r: Record| r@)
}

/// The contents of a list of batches.
pub open spec fn batches_view(bs: Seq<Vec<Record>>) -> Seq<Seq<RecordView>> {
    bs.map_values(|b: Vec<Record>| records_view(b@))
}

/// `bs` cuts `s`, in order, into batches of `n`: every batch but the last
/// holds exactly `n` items, and the last holds between one and `n`.
pub open spec fn is_partition<A>(bs: Seq<Seq<A>>, s: Seq<A>, n: nat) -> bool {
    &&& bs.flatten() == s
    &&& forall|i: int| 0 <= i < bs.len() - 1 ==> #[trigger] bs[i].len() == n
    &&& bs.len() > 0 ==> 1 <= bs.last().len() <= n
}

/// The number of batches of `n` that `r` items need: `r / n` rounded up.
pub open spec fn batch_count(r: nat, n: nat) -> nat
    recommends
        n > 0,
{
    ((r + n - 1) as nat) / n
}

/// The size of the last batch when `r` items are cut into batches of `n`.
pub open spec fn last_batch_len(r: nat, n: nat) -> nat
    recommends
        n > 0,
{
    if r % n == 0 {
        n
    } else {
        r % n
    }
}

/// Batches that are all full lay their items out at multiples of `n`.
proof fn lemma_full_batches<A>(bs: Seq<Seq<A>>, n: nat)
    requires
        forall|i: int| 0 <= i < bs.len() ==> #[trigger] bs[i].len() == n,
    ensures
        bs.flatten().len() == bs.len() * n,
        forall|i: int|
            0 <= i < bs.len() ==> bs.flatten().subrange(i * n, i * n + n) == #[trigger] bs[i],
    decreases bs.len(),
{
    if bs.len() > 0 {
        let d = bs.drop_last();
        lemma_full_batches(d, n);
        assert(bs == d.push(bs.last()));
        let f = bs.flatten();
        assert(f == d.flatten() + bs.last());
        let k = d.len();
        assert(k * n + n == (k + 1) * n) by (nonlinear_arith);
        assert forall|i: int| 0 <= i < bs.len() implies f.subrange(i * n, i * n + n) == #[trigger] bs[i] by {
            if i < k {
                assert(i * n + n <= k * n) by (nonlinear_arith)
                    requires i < k, n >= 0;
                assert(0 <= i * n) by (nonlinear_arith)
                    requires i >= 0, n >= 0;
                assert(f.subrange(i * n, i * n + n) =~= d.flatten().subrange(i * n, i * n + n));
                assert(d[i] == bs[i]);
            } else {
                assert(f.subrange(i * n, i * n + n) =~= bs.last());
            }
        }
    }
}

/// Cutting `r` items into batches of `n` gives `r / n` batches rounded up;
/// every batch but the last is full, the last holds `r % n` items (`n` when
/// that is zero), and batch `i` holds items `i * n` up to `(i + 1) * n`.
pub proof fn lemma_batch_partition<A>(bs: Seq<Seq<A>>, s: Seq<A>, n: nat)
    requires
        n > 0,
        is_partition(bs, s, n),
    ensures
        bs.len() == batch_count(s.len(), n),
        bs.len() > 0 ==> bs.last().len() == last_batch_len(s.len(), n),
        forall|i: int|
            0 <= i < bs.len() ==> #[trigger] bs[i] == s.subrange(
                i * n,
                if (i + 1) * n <= s.len() {
                    (i + 1) * n
                } else {
                    s.len() as int
                },
            ),
{
    if bs.len() == 0 {
        assert(s.len() == 0);
        lemma_fundamental_div_mod_converse((n - 1) as int, n as int, 0, (n - 1) as int);
    } else {
        let k = (bs.len() - 1) as nat;
        let d = bs.drop_last();
        let last = bs.last();
        let l = last.len();
        assert(bs == d.push(last));
        assert forall|i: int| 0 <= i < d.len() implies #[trigger] d[i].len() == n by {
            assert(d[i] == bs[i]);
        }
        lemma_full_batches(d, n);
        assert(s == d.flatten() + last);
        assert(s.len() == k * n + l);
        // The count of batches.
        assert((k + 1) * n + (l - 1) == k * n + l + n - 1) by (nonlinear_arith);
        lemma_fundamental_div_mod_converse((k * n + l + n - 1) as int, n as int, (k + 1) as int, (l - 1) as int);
        // The size of the last batch.
        if l == n {
            lemma_fundamental_div_mod_converse((k * n + l) as int, n as int, (k + 1) as int, 0);
            assert((k + 1) * n + 0 == k * n + l) by (nonlinear_arith)
                requires l == n;
        } else {
            lemma_fundamental_div_mod_converse((k * n + l) as int, n as int, k as int, l as int);
        }
        // Where each batch stands.
        assert forall|i: int| 0 <= i < bs.len() implies #[trigger] bs[i] == s.subrange(
            i * n,
            if (i + 1) * n <= s.len() { (i + 1) * n } else { s.len() as int },
        ) by {
            assert((i + 1) * n == i * n + n) by (nonlinear_arith);
            if i < k {
                assert(i * n + n <= k * n) by (nonlinear_arith)
                    requires i < k, n >= 0;
                assert(0 <= i * n) by (nonlinear_arith)
                    requires i >= 0, n >= 0;
                assert(d.flatten().subrange(i * n, i * n + n) == d[i]);
                assert(s.subrange(i * n, i * n + n) =~= d.flatten().subrange(i * n, i * n + n));
                assert(d[i] == bs[i]);
            } else {
                assert(i == k);
                assert(k * n + n >= k * n + l);
                if l == n {
                    assert(s.subrange((k * n) as int, (k * n + n) as int) =~= last);
                } else {
                    assert(s.subrange((k * n) as int, s.len() as int) =~= last);
                }
            }
        }
    }
}

/// Groups records, in the order they arrive, into batches of a fixed capacity.
pub struct Batcher {
    capacity: usize,
    current: Vec<Record>,
    done: Vec<Vec<Record>>,
}

impl Batcher {
    /// The capacity of each batch.
    pub closed spec fn capacity(&self) -> nat {
        self.capacity as nat
    }

    /// Every record received so far, in order of arrival.
    pub closed spec fn contents(&self) -> Seq<RecordView> {
        batches_view(self.done@).flatten() + records_view(self.current@)
    }

    /// The number of batches already filled.
    pub closed spec fn filled(&self) -> nat {
        self.done@.len()
    }

    pub closed spec fn wf(&self) -> bool {
        &&& self.capacity > 0
        &&& self.current.len() < self.capacity
        &&& forall|i: int| 0 <= i < self.done@.len() ==> #[trigger] self.done@[i].len() == self.capacity
    }

    /// A batcher that has received nothing yet.
    pub fn new(capacity: usize) -> (b: Batcher)
        requires
            capacity > 0,
        ensures
            b.wf(),
            b.capacity() == capacity,
            b.contents() == Seq::<RecordView>::empty(),
    {
        let b = Batcher { capacity, current: Vec::new(), done: Vec::new() };
        assert(batches_view(b.done@) =~= Seq::empty());
        assert(b.contents() =~= Seq::empty());
        b
    }

    /// Appends one record; it closes the current batch when that is full.
    pub fn push(&mut self, r: Record)
        requires
            old(self).wf(),
        ensures
            final(self).wf(),
            final(self).capacity() == old(self).capacity(),
            final(self).contents() == old(self).contents().push(r@),
    {
        let ghost before = self.contents();
        let ghost rv = r@;
        let ghost cur = self.current@;
        let ghost rr = r;
        self.current.push(r);
        assert(records_view(self.current@) =~= records_view(cur).push(rv));
        if self.current.len() == self.capacity {
            let mut full: Vec<Record> = Vec::new();
            full.append(&mut self.current);
            let ghost d = self.done@;
            self.done.push(full);
            proof {
                assert(full@ =~= cur.push(rr));
                assert(batches_view(self.done@) =~= batches_view(d).push(records_view(full@)));
                assert(records_view(self.current@) =~= Seq::empty());
            }
        }
        assert(self.contents() =~= before.push(rv));
    }

    /// Closes the last, partly filled batch and hands out all batches.
    pub fn finish(self) -> (bs: Vec<Vec<Record>>)
        requires
            self.wf(),
        ensures
            is_partition(batches_view(bs@), self.contents(), self.capacity()),
    {
        let ghost all = self.contents();
        let Batcher { capacity, current, mut done } = self;
        let ghost d = done@;
        if current.len() > 0 {
            let ghost c = current@;
            done.push(current);
            assert(batches_view(done@) =~= batches_view(d).push(records_view(c)));
        } else {
            assert(records_view(current@) =~= Seq::empty());
            assert(all =~= batches_view(d).flatten());
        }
        let ghost bv = batches_view(done@);
        assert(bv.flatten() == all);
        assert forall|i: int| 0 <= i < bv.len() - 1 implies #[trigger] bv[i].len() == capacity by {
            assert(done@[i].len() == capacity);
        }
        proof {
            if bv.len() > 0 {
                let j = bv.len() - 1;
                assert(bv.last() == records_view(done@[j]@));
                if j < d.len() {
                    assert(d[j].len() == capacity);
                }
                assert(1 <= done@[j].len() <= capacity);
            }
        }
        done
    }
}

} // verus!
