//! Delimited text, written by the `csv` crate into memory.
//!
//! What the crate's writer does is stated here, call by call, and taken on trust;
//! the rest of the library builds on those statements. The writer decides how fields
//! are separated and quoted, so the text is known only as what the writer puts out
//! for a list of records: see [`delimited`]. Which records it takes is stated: those
//! as long as the first.

use vstd::prelude::*;

verus! {

/// A writer of the `csv` crate that writes into a byte vector.
#[verifier::external_body]
pub struct MemoryWriter {
    inner: csv::Writer<Vec<u8>>,
}

/// The records that a writer has taken so far, each a list of fields.
pub uninterp spec fn written(writer: MemoryWriter) -> Seq<Seq<Seq<char>>>;

/// The bytes that the `csv` crate's writer, as `Writer::from_writer` sets it up, puts
/// out for a list of records.
pub uninterp spec fn delimited(records: Seq<Seq<Seq<char>>>) -> Seq<u8>;

/// `csv::Writer::from_writer` on an empty byte vector: a writer that has taken no
/// record yet.
#[verifier::external_body]
pub(crate) fn start() -> (writer: MemoryWriter)
    ensures
        written(writer) == Seq::<Seq<Seq<char>>>::empty(),
{
    MemoryWriter { inner: csv::Writer::from_writer(Vec::new()) }
}

/// `csv::Writer::write_record`. The writer, set up without `flexible`, takes a
/// record if it is the first or has as many fields as the first, and refuses any
/// other; writing into a byte vector, nothing else can fail. A writer that has
/// refused a record holds fields of it and is given up: only a writer that took the
/// record comes back.
#[verifier::external_body]
pub(crate) fn put(writer: MemoryWriter, fields: &Vec<String>) -> (r: Option<MemoryWriter>)
    ensures
        r is Some <==> (written(writer).len() == 0 || fields.len() == written(writer)[0].len()),
        r matches Some(next) ==> written(next) == written(writer).push(fields.deep_view()),
{
    let mut writer = writer;
    match writer.inner.write_record(fields) {
        Ok(()) => Some(writer),
        Err(_) => None,
    }
}

/// `csv::Writer::into_inner`: it flushes the writer into its byte vector, which
/// cannot fail, and hands the vector back; the vector then holds the delimited text
/// of the records taken.
#[verifier::external_body]
pub(crate) fn finish(writer: MemoryWriter) -> (r: Option<Vec<u8>>)
    ensures
        r is Some,
        r matches Some(bytes) ==> bytes@ == delimited(written(writer)),
{
    writer.inner.into_inner().ok()
}

/// Every record has as many fields as the first.
pub open spec fn rectangular(records: Seq<Seq<Seq<char>>>) -> bool {
    forall|i: int| 0 <= i < records.len() ==> (#[trigger] records[i]).len() == records[0].len()
}

/// The delimited text of `records`. The writer takes them if and only if each has as
/// many fields as the first.
pub fn encode(records: &Vec<Vec<String>>) -> (r: Option<Vec<u8>>)
    ensures
        r is Some <==> rectangular(records.deep_view()),
        r matches Some(bytes) ==> bytes@ == delimited(records.deep_view()),
{
    let ghost all = records.deep_view();
    let mut writer: MemoryWriter = start();
    let mut i: usize = 0;
    while i < records.len()
        invariant
            i <= records.len(),
            all == records.deep_view(),
            written(writer) == all.take(i as int),
            forall|j: int| 0 <= j < i ==> (#[trigger] all[j]).len() == all[0].len(),
        decreases records.len() - i,
    {
        assert(all[i as int] == records[i as int].deep_view());
        assert(all[i as int].len() == records[i as int].len());
        assert(i > 0 ==> all.take(i as int)[0] == all[0]);
        match put(writer, &records[i]) {
            Some(next) => {
                writer = next;
            },
            None => {
                assert(!rectangular(all));
                return None;
            },
        }
        assert(all.take(i + 1) =~= all.take(i as int).push(all[i as int]));
        i += 1;
    }
    assert(all.take(records.len() as int) =~= all);
    finish(writer)
}

} // verus!
