//! Building the snapshot archive in memory: named entries go in, the
//! packaged bytes come out.  The compression itself is the zip crate's
//! work, behind trusted wrappers over an in-memory cursor; what the
//! writer has received is tracked by a contents name, so the packaged
//! bytes are pinned to exactly the entries that were fed in.

use vstd::prelude::*;

use crate::errors::Error;

verus! {

/// An in-progress archive: the zip writer over its in-memory cursor.
/// The writer's type carries trait bounds Verus does not accept in a
/// type declaration, so the whole struct is opaque.
#[verifier::external_body]
pub struct ArchiveBuilder {
    inner: zip::write::ZipWriter<std::io::Cursor<Vec<u8>>>,
}

/// What the builder has received so far: each started entry's name with
/// the bytes written to it, in order.
pub uninterp spec fn builder_entries(w: &ArchiveBuilder) -> Seq<(Seq<char>, Seq<u8>)>;

/// The bytes zip's writer emits for exactly these entries, in order,
/// under the default options; a function of the entries alone, as the
/// entry metadata is fixed.
pub uninterp spec fn packaged_of(entries: Seq<(Seq<char>, Seq<u8>)>) -> Seq<u8>;

/// Relies on zip's `ZipWriter::new` over a fresh in-memory cursor: the
/// new writer holds no entries.
#[verifier::external_body]
fn archive_new() -> (w: ArchiveBuilder)
    ensures
        builder_entries(&w) == Seq::<(Seq<char>, Seq<u8>)>::empty(),
{
    ArchiveBuilder { inner: zip::write::ZipWriter::new(std::io::Cursor::new(Vec::new())) }
}

/// Relies on zip's `start_file`: on success it begins one new, empty
/// entry under the given name, with the default options.
#[verifier::external_body]
fn archive_start_entry(w: &mut ArchiveBuilder, name: &str) -> (r: Result<(), Error>)
    ensures
        r is Ok ==> builder_entries(final(w)) == builder_entries(old(w)) + seq![
            (name@, Seq::<u8>::empty()),
        ],
        r is Err ==> r->Err_0 == Error::Io,
{
    match w.inner.start_file(name, zip::write::SimpleFileOptions::DEFAULT) {
        Ok(()) => Ok(()),
        Err(_) => Err(Error::Io),
    }
}

/// Relies on the writer's `write_all`: on success the data extends the
/// last started entry; writing with no entry started fails.
#[verifier::external_body]
fn archive_write_data(w: &mut ArchiveBuilder, data: &[u8]) -> (r: Result<(), Error>)
    ensures
        r is Ok ==> ({
            let before = builder_entries(old(w));
            &&& before.len() > 0
            &&& builder_entries(final(w)) == before.update(
                before.len() - 1,
                (before.last().0, before.last().1 + data@),
            )
        }),
        r is Err ==> r->Err_0 == Error::Io,
{
    match std::io::Write::write_all(&mut w.inner, data) {
        Ok(()) => Ok(()),
        Err(_) => Err(Error::Io),
    }
}

/// Relies on zip's `finish`: it writes the central directory and
/// returns the packaged form of exactly the entries the writer
/// received, which is never empty.
#[verifier::external_body]
fn archive_finish(w: ArchiveBuilder) -> (r: Result<Vec<u8>, Error>)
    ensures
        r matches Ok(bytes) ==> bytes@ == packaged_of(builder_entries(&w)) && bytes@.len() > 0,
        r is Err ==> r->Err_0 == Error::Io,
{
    match w.inner.finish() {
        Ok(cursor) => Ok(cursor.into_inner()),
        Err(_) => Err(Error::Io),
    }
}

/// The entries of an archive input, as name and byte sequences.
pub open spec fn entries_view(es: Seq<(String, Vec<u8>)>) -> Seq<(Seq<char>, Seq<u8>)> {
    Seq::new(es.len(), |i: int| (es[i].0@, es[i].1@))
}

/// Packages named entries into one compressed archive: on success the
/// bytes are the packaged form of exactly the given entries, in order;
/// any failure of the underlying writer surfaces as an I/O error.
pub fn build_archive(entries: &Vec<(String, Vec<u8>)>) -> (r: Result<Vec<u8>, Error>)
    ensures
        match r {
            Ok(bytes) => bytes@ == packaged_of(entries_view(entries@)) && bytes@.len() > 0,
            Err(e) => e == Error::Io,
        },
{
    let ghost full = entries_view(entries@);
    let mut w = archive_new();
    let n = entries.len();
    let mut i: usize = 0;
    proof {
        assert(full.take(0) =~= Seq::<(Seq<char>, Seq<u8>)>::empty());
    }
    while i < n
        invariant
            i <= n,
            n == entries.len(),
            full == entries_view(entries@),
            builder_entries(&w) == full.take(i as int),
        decreases n - i,
    {
        let ghost prefix = builder_entries(&w);
        match archive_start_entry(&mut w, entries[i].0.as_str()) {
            Ok(()) => {},
            Err(e) => {
                return Err(e);
            },
        }
        let ghost started = builder_entries(&w);
        proof {
            assert(started == prefix + seq![(full[i as int].0, Seq::<u8>::empty())]);
            assert(started.len() == i + 1);
            assert(started.last() == (full[i as int].0, Seq::<u8>::empty()));
        }
        match archive_write_data(&mut w, entries[i].1.as_slice()) {
            Ok(()) => {},
            Err(e) => {
                return Err(e);
            },
        }
        proof {
            assert(Seq::<u8>::empty() + entries@[i as int].1@ =~= full[i as int].1);
            assert(builder_entries(&w) == started.update(
                i as int,
                (full[i as int].0, full[i as int].1),
            ));
            assert(full.take(i + 1) =~= full.take(i as int) + seq![full[i as int]]);
            assert(builder_entries(&w) =~= full.take(i + 1));
        }
        i += 1;
    }
    proof {
        assert(full.take(n as int) =~= full);
    }
    archive_finish(w)
}

} // verus!
