//! Records of text fields, held in csv's `StringRecord`, and the joining of
//! fields into one text.
use vstd::prelude::*;
use csv::StringRecord;
use crate::text::views;

verus! {

#[verifier::external_type_specification]
#[verifier::external_body]
pub struct ExStringRecord(StringRecord);

/// The fields that a record holds, in order.
pub uninterp spec fn record_fields(r: StringRecord) -> Seq<Seq<char>>;

/// Relies on `csv::StringRecord::new`: a record with no fields.
#[verifier::external_body]
fn new_record() -> (r: StringRecord)
    ensures
        record_fields(r) == Seq::<Seq<char>>::empty(),
{
    StringRecord::new()
}

/// Relies on `csv::StringRecord::push_field`: the field is added after the others.
#[verifier::external_body]
fn push_field(r: &mut StringRecord, f: &str)
    ensures
        record_fields(*final(r)) == record_fields(*old(r)).push(f@),
{
    r.push_field(f)
}

/// Relies on `csv::StringRecord::len`: the number of fields.
#[verifier::external_body]
fn record_len(r: &StringRecord) -> (n: usize)
    ensures
        n == record_fields(*r).len(),
{
    r.len()
}

/// Relies on `csv::StringRecord::get`: the field at `i`, or `None` past the last one.
#[verifier::external_body]
fn record_get<'a>(r: &'a StringRecord, i: usize) -> (f: Option<&'a str>)
    ensures
        match f {
            Some(x) => i < record_fields(*r).len() && x@ == record_fields(*r)[i as int],
            None => i >= record_fields(*r).len(),
        },
{
    r.get(i)
}

/// The fields of a record, in order.
pub fn record_to_fields(r: &StringRecord) -> (v: Vec<String>)
    ensures
        views(v@) == record_fields(*r),
{
    let n = record_len(r);
    let mut v: Vec<String> = Vec::new();
    let mut i: usize = 0;
    while i < n
        invariant
            i <= n,
            n == record_fields(*r).len(),
            views(v@) == record_fields(*r).subrange(0, i as int),
            v@.len() == i,
        decreases n - i,
    {
        match record_get(r, i) {
            Some(f) => {
                let owned = f.to_owned();
                v.push(owned);
                assert(v@[i as int]@ == record_fields(*r)[i as int]);
            },
            None => {
                return v;
            },
        }
        assert(views(v@) =~= record_fields(*r).subrange(0, i as int + 1));
        i = i + 1;
    }
    assert(record_fields(*r).subrange(0, n as int) =~= record_fields(*r));
    v
}

/// A record that holds the given fields, in order.
pub fn fields_to_record(v: &Vec<String>) -> (r: StringRecord)
    ensures
        record_fields(r) == views(v@),
{
    let mut r = new_record();
    let mut i: usize = 0;
    while i < v.len()
        invariant
            i <= v@.len(),
            record_fields(r) == views(v@).subrange(0, i as int),
        decreases v@.len() - i,
    {
        push_field(&mut r, v[i].as_str());
        assert(views(v@).subrange(0, i as int + 1) =~= views(v@).subrange(0, i as int).push(v@[i as int]@));
        i = i + 1;
    }
    assert(views(v@).subrange(0, v@.len() as int) =~= views(v@));
    r
}

/// The fields joined into one text, with `sep` between each two.
pub open spec fn joined_with(fields: Seq<Seq<char>>, sep: Seq<char>) -> Seq<char>
    decreases fields.len(),
{
    if fields.len() == 0 {
        Seq::empty()
    } else if fields.len() == 1 {
        fields[0]
    } else {
        joined_with(fields.drop_last(), sep) + sep + fields.last()
    }
}

/// The fields joined into one text, with a comma between each two.
pub open spec fn comma_joined(fields: Seq<Seq<char>>) -> Seq<char> {
    joined_with(fields, seq![','])
}

/// Relies on `itertools::join`: the fields, in order, with `sep` between each two.
#[verifier::external_body]
fn join_with(fields: &[String], sep: &str) -> (r: String)
    ensures
        r@ == joined_with(views(fields@), sep@),
{
    itertools::join(fields, sep)
}

/// The fields from index `from` on, joined with commas.
pub fn join_from(fields: &Vec<String>, from: usize) -> (r: String)
    requires
        from <= fields@.len(),
    ensures
        r@ == comma_joined(views(fields@).skip(from as int)),
{
    if from == fields.len() {
        assert(views(fields@).skip(from as int) =~= Seq::<Seq<char>>::empty());
        return String::new();
    }
    let tail = slice_from(fields.as_slice(), from);
    assert(views(tail@) =~= views(fields@).skip(from as int));
    let sep = ",";
    proof {
        reveal_strlit(",");
        assert(sep@ =~= seq![',']);
    }
    join_with(tail, sep)
}

fn slice_from(v: &[String], from: usize) -> (r: &[String])
    requires
        from <= v@.len(),
    ensures
        r@ == v@.skip(from as int),
{
    let (_, tail) = v.split_at(from);
    tail
}

/// The fields of each record, in order.
pub open spec fn records_view(v: Seq<StringRecord>) -> Seq<Seq<Seq<char>>> {
    v.map_values(|r: StringRecord| record_fields(r))
}

/// The fields of each row, in order.
pub open spec fn rows_view(v: Seq<Vec<String>>) -> Seq<Seq<Seq<char>>> {
    v.map_values(|r: Vec<String>| views(r@))
}

/// Values that can be written out as csv records.
pub trait Csv {
    /// The fields of each record that `csv` writes.
    spec fn csv_rows(&self) -> Seq<Seq<Seq<char>>>;

    /// The value as csv records.
    fn csv(&self) -> (r: Vec<StringRecord>)
        ensures
            records_view(r@) == self.csv_rows(),
    ;
}

/// One record for each row.
pub fn rows_to_records(rows: &Vec<Vec<String>>) -> (r: Vec<StringRecord>)
    ensures
        records_view(r@) == rows_view(rows@),
{
    let mut out: Vec<StringRecord> = Vec::new();
    let mut i: usize = 0;
    while i < rows.len()
        invariant
            i <= rows@.len(),
            out@.len() == i,
            records_view(out@) == rows_view(rows@.subrange(0, i as int)),
        decreases rows@.len() - i,
    {
        let rec = fields_to_record(&rows[i]);
        let ghost before = out@;
        out.push(rec);
        assert forall|j: int| 0 <= j < i + 1 implies records_view(out@)[j] == rows_view(rows@.subrange(0, i + 1))[j] by {
            if j < i {
                assert(records_view(out@)[j] == records_view(before)[j]);
            }
        }
        assert(records_view(out@) =~= rows_view(rows@.subrange(0, i + 1)));
        i = i + 1;
    }
    assert(rows@.subrange(0, rows@.len() as int) =~= rows@);
    out
}

impl Csv for StringRecord {
    open spec fn csv_rows(&self) -> Seq<Seq<Seq<char>>> {
        seq![record_fields(*self)]
    }

    fn csv(&self) -> (r: Vec<StringRecord>) {
        let copy = fields_to_record(&record_to_fields(self));
        let r = vec![copy];
        assert(records_view(r@) =~= seq![record_fields(*self)]);
        r
    }
}

} // verus!
