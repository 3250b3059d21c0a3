use vstd::prelude::*;
use vstd::seq_lib::lemma_multiset_commutative;
use crate::batch::records_view;
use crate::record::{Record, RecordView};

verus! {

broadcast use vstd::seq::Seq::group_seq_flatten;

/// The name of the field that the worker transformation adds.
pub open spec fn processed_key() -> Seq<char> {
    "processed"@
}

/// The value that the worker transformation gives that field.
pub open spec fn processed_value() -> Seq<char> {
    "true"@
}

/// A record after the worker transformation: marked as processed.
pub open spec fn processed(r: RecordView) -> RecordView {
    r.insert(processed_key(), processed_value())
}

/// A batch after the worker transformation.
pub open spec fn processed_batch(b: Seq<RecordView>) -> Seq<RecordView> {
    b.map_values(|r: RecordView| processed(r))
}

/// The worker transformation: marks every record of a batch as processed,
/// and touches nothing but that batch.
pub fn transform_batch(batch: Vec<Record>) -> (out: Vec<Record>)
    ensures
        records_view(out@) == processed_batch(records_view(batch@)),
{
    let mut batch = batch;
    let ghost orig = records_view(batch@);
    let mut i: usize = 0;
    while i < batch.len()
        invariant
            i <= batch.len(),
            orig.len() == batch.len(),
            forall|j: int| 0 <= j < i ==> #[trigger] batch@[j]@ == processed(orig[j]),
            forall|j: int| i <= j < batch.len() ==> #[trigger] batch@[j]@ == orig[j],
        decreases batch.len() - i,
    {
        let key = String::from_str("processed");
        let value = String::from_str("true");
        batch[i].insert(key, value);
        i = i + 1;
    }
    assert(records_view(batch@) =~= processed_batch(orig));
    batch
}

/// The total number of items in a list of batches.
pub open spec fn total_len<A>(bs: Seq<Seq<A>>) -> nat
    decreases bs.len(),
{
    if bs.len() == 0 {
        0
    } else {
        total_len(bs.drop_last()) + bs.last().len()
    }
}

/// The concatenation of batches holds as many items as the batches together.
pub proof fn lemma_flatten_len<A>(bs: Seq<Seq<A>>)
    ensures
        bs.flatten().len() == total_len(bs),
    decreases bs.len(),
{
    if bs.len() > 0 {
        lemma_flatten_len(bs.drop_last());
        assert(bs == bs.drop_last().push(bs.last()));
    }
}

/// Taking one batch out of a list takes exactly its items out of the concatenation's bag.
proof fn lemma_flatten_multiset_remove<A>(bs: Seq<Seq<A>>, j: int)
    requires
        0 <= j < bs.len(),
    ensures
        bs.flatten().to_multiset() == bs.remove(j).flatten().to_multiset().add(bs[j].to_multiset()),
    decreases bs.len(),
{
    let d = bs.drop_last();
    assert(bs == d.push(bs.last()));
    lemma_multiset_commutative(d.flatten(), bs.last());
    if j == bs.len() - 1 {
        assert(bs.remove(j) =~= d);
    } else {
        lemma_flatten_multiset_remove(d, j);
        let r = bs.remove(j);
        assert(r =~= d.remove(j).push(bs.last()));
        lemma_multiset_commutative(d.remove(j).flatten(), bs.last());
        assert(d[j] == bs[j]);
        assert(bs.flatten().to_multiset() =~= r.flatten().to_multiset().add(bs[j].to_multiset()));
    }
}

/// Batches appended in any order give the same bag of records: two lists
/// that hold the same batches, each as often, concatenate to equal bags.
pub proof fn lemma_aggregate_order_independent<A>(a: Seq<Seq<A>>, b: Seq<Seq<A>>)
    requires
        a.to_multiset() == b.to_multiset(),
    ensures
        a.flatten().to_multiset() == b.flatten().to_multiset(),
    decreases a.len(),
{
    broadcast use vstd::seq_lib::group_to_multiset_ensures;

    if a.len() == 0 {
        assert(b.to_multiset().len() == 0);
        assert(b.len() == 0);
        assert(b =~= a);
    } else {
        let x = a.last();
        let d = a.drop_last();
        assert(a == d.push(x));
        assert(a.to_multiset().count(x) > 0);
        assert(b.contains(x));
        let j = choose|j: int| 0 <= j < b.len() && b[j] == x;
        let r = b.remove(j);
        assert(r.to_multiset() == b.to_multiset().remove(x));
        assert(d.to_multiset() == a.to_multiset().remove(x)) by {
            assert(a.to_multiset() =~= d.to_multiset().insert(x));
            assert(d.to_multiset() =~= d.to_multiset().insert(x).remove(x));
        }
        lemma_aggregate_order_independent(d, r);
        lemma_flatten_multiset_remove(b, j);
        lemma_multiset_commutative(d.flatten(), x);
    }
}

/// The shared result of a run: every batch appended so far, record for record.
pub struct Aggregator {
    records: Vec<Record>,
    appended: Ghost<Seq<Seq<RecordView>>>,
}

impl Aggregator {
    /// The batches appended so far, in the order they came.
    pub closed spec fn batches(&self) -> Seq<Seq<RecordView>> {
        self.appended@
    }

    /// The records held.
    pub closed spec fn contents(&self) -> Seq<RecordView> {
        records_view(self.records@)
    }

    pub closed spec fn wf(&self) -> bool {
        self.contents() == self.batches().flatten()
    }

    /// An aggregate that holds nothing.
    pub fn new() -> (a: Aggregator)
        ensures
            a.wf(),
            a.batches() == Seq::<Seq<RecordView>>::empty(),
            a.contents() == Seq::<RecordView>::empty(),
    {
        let a = Aggregator { records: Vec::new(), appended: Ghost(Seq::empty()) };
        assert(a.contents() =~= Seq::empty());
        a
    }

    /// Adds every record of a completed batch, as one step.
    pub fn append(&mut self, batch: Vec<Record>)
        requires
            old(self).wf(),
        ensures
            final(self).wf(),
            final(self).batches() == old(self).batches().push(records_view(batch@)),
            final(self).contents() == old(self).contents() + records_view(batch@),
    {
        let ghost bv = records_view(batch@);
        let ghost before = self.contents();
        let mut batch = batch;
        self.records.append(&mut batch);
        self.appended = Ghost(self.appended@.push(bv));
        assert(self.contents() =~= before + bv);
    }

    /// The number of records held: the sizes of all appended batches summed.
    pub fn len(&self) -> (n: usize)
        requires
            self.wf(),
        ensures
            n == self.contents().len(),
            n == total_len(self.batches()),
    {
        proof { lemma_flatten_len(self.batches()); }
        self.records.len()
    }

    /// The records held.
    pub fn records(&self) -> (r: &Vec<Record>)
        ensures
            records_view(r@) == self.contents(),
    {
        &self.records
    }

    /// Ends the aggregation and hands out the records.
    pub fn into_records(self) -> (r: Vec<Record>)
        ensures
            records_view(r@) == self.contents(),
    {
        self.records
    }
}

} // verus!
