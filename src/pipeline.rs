use vstd::prelude::*;
use crate::aggregate::{processed_batch, transform_batch, Aggregator};
use crate::batch::{batches_view, is_partition, records_view, Batcher};
use crate::record::{decode, record_of, strings_view, Record, RecordView};

verus! {

broadcast use vstd::seq::Seq::group_seq_flatten;

/// Why a run failed.
#[derive(Debug, Clone, Copy, PartialEq, Eq, Structural)]
pub enum IngestError {
    /// The source could not be opened.
    SourceNotFound,
    /// The delimited reader rejected the text (it is not valid UTF-8).
    Malformed,
    /// The source holds no line, or its first line names no field.
    EmptyHeader,
    /// The first line is no header: the name in `column` is empty or starts
    /// like a number, as a data value would.
    HeaderMissing { column: usize },
    /// Data row `row` (counted from 1) holds `found` values where the header
    /// names `expected` fields.
    FieldCountMismatch { row: usize, expected: usize, found: usize },
    /// The worker of batch `batch` (counted from 0) ended without a result.
    WorkerPanic { batch: usize },
}

/// A character that begins a number rather than a name.
pub open spec fn starts_number(c: char) -> bool {
    ('0' <= c && c <= '9') || c == '-' || c == '+' || c == '.'
}

/// A field name is non-empty and does not begin like a number.
pub open spec fn is_field_name(s: Seq<char>) -> bool {
    s.len() > 0 && !starts_number(s[0])
}

/// Every name of the header is a field name.
pub open spec fn names_ok(h: Seq<Seq<char>>) -> bool {
    forall|j: int| 0 <= j < h.len() ==> #[trigger] is_field_name(h[j])
}

/// `column` is the first position of the header that holds no field name.
pub open spec fn first_bad_name(h: Seq<Seq<char>>, column: int) -> bool {
    &&& 0 <= column < h.len()
    &&& !is_field_name(h[column])
    &&& forall|j: int| 0 <= j < column ==> #[trigger] is_field_name(h[j])
}

/// The rows of a source, each a list of fields.
pub open spec fn rows_view(rows: Seq<Vec<String>>) -> Seq<Seq<Seq<char>>> {
    rows.map_values(|r: Vec<String>| strings_view(r@))
}

/// The source has no header line, or one without fields.
pub open spec fn header_absent(rv: Seq<Seq<Seq<char>>>) -> bool {
    rv.len() == 0 || rv[0].len() == 0
}

/// The source starts with a header of field names.
pub open spec fn header_ok(rv: Seq<Seq<Seq<char>>>) -> bool {
    !header_absent(rv) && names_ok(rv[0])
}

/// Data row `i` holds as many values as the header names.
pub open spec fn row_ok(rv: Seq<Seq<Seq<char>>>, i: int) -> bool {
    rv[i].len() == rv[0].len()
}

/// Every data row holds as many values as the header names.
pub open spec fn rows_ok(rv: Seq<Seq<Seq<char>>>) -> bool {
    forall|i: int| 1 <= i < rv.len() ==> #[trigger] row_ok(rv, i)
}

/// `row` is the first data row whose length differs from the header's.
pub open spec fn first_bad_row(rv: Seq<Seq<Seq<char>>>, row: int) -> bool {
    &&& 1 <= row < rv.len()
    &&& !row_ok(rv, row)
    &&& forall|i: int| 1 <= i < row ==> #[trigger] row_ok(rv, i)
}

/// The records that the data rows denote, in source order.
pub open spec fn decoded(rv: Seq<Seq<Seq<char>>>) -> Seq<RecordView>
    recommends
        rv.len() > 0,
{
    Seq::new((rv.len() - 1) as nat, |i: int| record_of(rv[0], rv[i + 1]))
}

/// The outcome `r` is the one owed for the rows `rv` and batches of `n`.
pub open spec fn ingest_spec(
    rv: Seq<Seq<Seq<char>>>,
    n: nat,
    r: Result<Seq<Seq<RecordView>>, IngestError>,
) -> bool {
    match r {
        Ok(bs) => header_ok(rv) && rows_ok(rv) && is_partition(bs, decoded(rv), n),
        Err(IngestError::EmptyHeader) => header_absent(rv),
        Err(IngestError::HeaderMissing { column }) => !header_absent(rv) && first_bad_name(
            rv[0],
            column as int,
        ),
        Err(IngestError::FieldCountMismatch { row, expected, found }) => {
            &&& header_ok(rv)
            &&& first_bad_row(rv, row as int)
            &&& expected == rv[0].len()
            &&& found == rv[row as int].len()
        },
        Err(_) => false,
    }
}

/// The outcome `r` of a whole run is the one owed for the rows `rv`: the
/// records of all data rows, in source order, each marked as processed.
pub open spec fn process_spec(rv: Seq<Seq<Seq<char>>>, r: Result<Seq<RecordView>, IngestError>) -> bool {
    match r {
        Ok(recs) => header_ok(rv) && rows_ok(rv) && recs == processed_batch(decoded(rv)),
        Err(e) => ingest_spec(rv, 1, Err(e)),
    }
}

/// The contents of an outcome that holds batches.
pub open spec fn ingest_view(r: Result<Vec<Vec<Record>>, IngestError>) -> Result<Seq<Seq<RecordView>>, IngestError> {
    match r {
        Ok(bs) => Ok(batches_view(bs@)),
        Err(e) => Err(e),
    }
}

/// The contents of an outcome that holds records.
pub open spec fn records_outcome(r: Result<Vec<Record>, IngestError>) -> Result<Seq<RecordView>, IngestError> {
    match r {
        Ok(v) => Ok(records_view(v@)),
        Err(e) => Err(e),
    }
}

/// Whether `s` can name a field: it is non-empty and does not begin like a number.
pub fn is_valid_name(s: &String) -> (b: bool)
    ensures
        b == is_field_name(s@),
{
    let t = s.as_str();
    if t.unicode_len() == 0 {
        return false;
    }
    let c = t.get_char(0);
    !(('0' <= c && c <= '9') || c == '-' || c == '+' || c == '.')
}

/// Checks the first line of a source as a header.
pub fn check_header(header: &Vec<String>) -> (r: Result<(), IngestError>)
    ensures
        match r {
            Ok(()) => header.len() > 0 && names_ok(strings_view(header@)),
            Err(IngestError::EmptyHeader) => header.len() == 0,
            Err(IngestError::HeaderMissing { column }) => header.len() > 0 && first_bad_name(
                strings_view(header@),
                column as int,
            ),
            Err(_) => false,
        },
{
    if header.len() == 0 {
        return Err(IngestError::EmptyHeader);
    }
    let ghost h = strings_view(header@);
    let mut j: usize = 0;
    while j < header.len()
        invariant
            j <= header.len(),
            h == strings_view(header@),
            forall|k: int| 0 <= k < j ==> #[trigger] is_field_name(h[k]),
        decreases header.len() - j,
    {
        if !is_valid_name(&header[j]) {
            return Err(IngestError::HeaderMissing { column: j });
        }
        j = j + 1;
    }
    Ok(())
}

/// Decodes the data rows of a parsed source against its first row, the
/// header, and cuts the records, in source order, into batches of
/// `batch_size`. The first fault found stops the run.
pub fn ingest_rows(rows: &Vec<Vec<String>>, batch_size: usize) -> (r: Result<Vec<Vec<Record>>, IngestError>)
    requires
        batch_size > 0,
    ensures
        ingest_spec(rows_view(rows@), batch_size as nat, ingest_view(r)),
{
    let ghost rv = rows_view(rows@);
    if rows.len() == 0 {
        return Err(IngestError::EmptyHeader);
    }
    let header = &rows[0];
    assert(rv[0] == strings_view(header@));
    match check_header(header) {
        Ok(()) => {},
        Err(e) => {
            return Err(e);
        },
    }
    let mut batcher = Batcher::new(batch_size);
    let mut i: usize = 1;
    while i < rows.len()
        invariant
            1 <= i <= rows.len(),
            rv == rows_view(rows@),
            header == &rows@[0],
            rv[0] == strings_view(header@),
            header_ok(rv),
            batcher.wf(),
            batcher.capacity() == batch_size,
            batcher.contents() =~= decoded(rv).take(i - 1),
            forall|k: int| 1 <= k < i ==> #[trigger] row_ok(rv, k),
        decreases rows.len() - i,
    {
        assert(rv[i as int] == strings_view(rows@[i as int]@));
        match decode(header, &rows[i]) {
            Ok(rec) => {
                batcher.push(rec);
            },
            Err(_) => {
                return Err(
                    IngestError::FieldCountMismatch {
                        row: i,
                        expected: header.len(),
                        found: rows[i].len(),
                    },
                );
            },
        }
        i = i + 1;
    }
    assert(decoded(rv).take(rows.len() - 1) =~= decoded(rv));
    Ok(batcher.finish())
}

/// A whole run over parsed rows, one batch after another: every batch is
/// transformed and appended to the aggregate, which is handed out.
pub fn process_rows(rows: &Vec<Vec<String>>, batch_size: usize) -> (r: Result<Vec<Record>, IngestError>)
    requires
        batch_size > 0,
    ensures
        process_spec(rows_view(rows@), records_outcome(r)),
{
    let batches = match ingest_rows(rows, batch_size) {
        Ok(bs) => bs,
        Err(e) => {
            return Err(e);
        },
    };
    let ghost bv = batches_view(batches@);
    let mut agg = Aggregator::new();
    let mut rest = batches;
    let ghost k: int = 0;
    while rest.len() > 0
        invariant
            0 <= k <= bv.len(),
            batches_view(rest@) == bv.subrange(k, bv.len() as int),
            agg.wf(),
            agg.contents() == processed_batch(bv.subrange(0, k).flatten()),
        decreases rest.len(),
    {
        let ghost before = agg.contents();
        let ghost rs = rest@;
        assert(batches_view(rs).len() == rs.len());
        assert(k < bv.len());
        assert(batches_view(rs)[0] == bv.subrange(k, bv.len() as int)[0]);
        let batch = rest.remove(0);
        assert(records_view(batch@) == bv[k]);
        let done = transform_batch(batch);
        agg.append(done);
        proof {
            assert(bv.subrange(0, k + 1) =~= bv.subrange(0, k).push(bv[k]));
            assert(processed_batch(bv.subrange(0, k + 1).flatten()) =~= before + processed_batch(bv[k]));
            assert(batches_view(rest@) =~= batches_view(rs).drop_first());
            k = k + 1;
            assert(batches_view(rest@) =~= bv.subrange(k, bv.len() as int));
        }
    }
    assert(bv.subrange(0, k) =~= bv);
    Ok(agg.into_records())
}

/// Transforming each batch and then concatenating is concatenating and then transforming.
proof fn lemma_processed_flatten(bs: Seq<Seq<RecordView>>)
    ensures
        bs.map_values(|b: Seq<RecordView>| processed_batch(b)).flatten() == processed_batch(bs.flatten()),
    decreases bs.len(),
{
    let m = bs.map_values(|b: Seq<RecordView>| processed_batch(b));
    if bs.len() == 0 {
        assert(m =~= Seq::empty());
        assert(processed_batch(bs.flatten()) =~= Seq::empty());
    } else {
        let d = bs.drop_last();
        lemma_processed_flatten(d);
        assert(bs == d.push(bs.last()));
        assert(m =~= d.map_values(|b: Seq<RecordView>| processed_batch(b)).push(processed_batch(bs.last())));
        assert(processed_batch(d.flatten() + bs.last()) =~= processed_batch(d.flatten()) + processed_batch(bs.last()));
    }
}

/// When every row is well formed, a run succeeds with exactly one record
/// per data row.
pub proof fn lemma_run_record_count(rv: Seq<Seq<Seq<char>>>, r: Result<Seq<RecordView>, IngestError>)
    requires
        header_ok(rv),
        rows_ok(rv),
        process_spec(rv, r),
    ensures
        r matches Ok(recs) && recs.len() == rv.len() - 1,
{
    if let Err(IngestError::HeaderMissing { column }) = r {
        assert(is_field_name(rv[0][column as int]));
    }
    if let Err(IngestError::FieldCountMismatch { row, expected, found }) = r {
        assert(row_ok(rv, row as int));
    }
}

/// A source with a header and no data row gives no batch, and a run over it
/// succeeds with no record.
pub proof fn lemma_header_only(
    rv: Seq<Seq<Seq<char>>>,
    n: nat,
    b: Result<Seq<Seq<RecordView>>, IngestError>,
    r: Result<Seq<RecordView>, IngestError>,
)
    requires
        n > 0,
        rv.len() == 1,
        header_ok(rv),
        ingest_spec(rv, n, b),
        process_spec(rv, r),
    ensures
        b matches Ok(bs) && bs.len() == 0,
        r matches Ok(recs) && recs.len() == 0,
{
    lemma_run_record_count(rv, r);
    if let Err(IngestError::HeaderMissing { column }) = b {
        assert(is_field_name(rv[0][column as int]));
    }
    if let Ok(bs) = b {
        crate::batch::lemma_batch_partition(bs, decoded(rv), n);
        assert(decoded(rv).len() == 0);
        vstd::arithmetic::div_mod::lemma_fundamental_div_mod_converse((n - 1) as int, n as int, 0, (n - 1) as int);
    }
}

/// A source that does not start with a header of field names fails with
/// `EmptyHeader` or `HeaderMissing`, however its other rows look.
pub proof fn lemma_missing_header_fails(
    rv: Seq<Seq<Seq<char>>>,
    n: nat,
    b: Result<Seq<Seq<RecordView>>, IngestError>,
)
    requires
        !header_ok(rv),
        ingest_spec(rv, n, b),
    ensures
        b == Err::<Seq<Seq<RecordView>>, IngestError>(IngestError::EmptyHeader) || b matches Err(
            IngestError::HeaderMissing { .. },
        ),
{
}

/// Under a header of field names, a data row whose length differs from the
/// header's makes the run fail with `FieldCountMismatch`.
pub proof fn lemma_field_count_mismatch_fails(
    rv: Seq<Seq<Seq<char>>>,
    n: nat,
    row: int,
    b: Result<Seq<Seq<RecordView>>, IngestError>,
)
    requires
        header_ok(rv),
        1 <= row < rv.len(),
        rv[row].len() != rv[0].len(),
        ingest_spec(rv, n, b),
    ensures
        b matches Err(IngestError::FieldCountMismatch { .. }),
{
    assert(!row_ok(rv, row));
    if let Err(IngestError::HeaderMissing { column }) = b {
        assert(is_field_name(rv[0][column as int]));
    }
}

/// Whatever order the workers finish in: the processed batches of a
/// successful ingest, appended in any order, make an aggregate with one
/// record per data row and the same bag of records as the run in source
/// order.
pub proof fn lemma_any_completion_order(
    rv: Seq<Seq<Seq<char>>>,
    n: nat,
    bs: Seq<Seq<RecordView>>,
    order: Seq<Seq<RecordView>>,
)
    requires
        ingest_spec(rv, n, Ok(bs)),
        order.to_multiset() == bs.map_values(|b: Seq<RecordView>| processed_batch(b)).to_multiset(),
    ensures
        order.flatten().len() == rv.len() - 1,
        order.flatten().to_multiset() == processed_batch(decoded(rv)).to_multiset(),
{
    broadcast use vstd::seq_lib::group_to_multiset_ensures;

    let m = bs.map_values(|b: Seq<RecordView>| processed_batch(b));
    crate::aggregate::lemma_aggregate_order_independent(order, m);
    lemma_processed_flatten(bs);
    assert(order.flatten().to_multiset().len() == order.flatten().len());
    assert(m.flatten().to_multiset().len() == m.flatten().len());
}

} // verus!
