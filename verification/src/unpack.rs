//! Unpacking an addon: the containers that were found are decoded, stream
//! after stream, into the files that they hold.

use crate::comment::{superchunk, superchunk_spec};
use crate::container::{decode, decode_spec, records_of, ContainerFormat, Entry, Record};
use crate::error::UnpackingError;
use crate::scan::{bytes_eq, contents_of};
use vstd::prelude::*;
use vstd::slice::slice_to_vec;

verus! {

/// Where an addon is unpacked from, and where to.
pub struct Unpacker {
    /// The path of the folder of the addon.
    pub dir: Vec<u8>,
    /// The path of the folder that receives the unpacked addon.
    pub out_dir: Vec<u8>,
    /// Whether the unpack goes on without printing its progress.
    pub quiet: bool,
}

/// What an unpack gives.
pub struct Unpacked {
    /// The files to write below the script folder of the output, in the
    /// order in which the containers hold them: the server-side stream
    /// first, then the client-side one, then the shared one.
    pub entries: Vec<Entry>,
    /// The number of containers that were decoded.
    pub total_packed_files: usize,
}

impl Unpacked {
    /// The number of files that were decoded.
    pub fn total_unpacked_files(&self) -> (count: usize)
        ensures
            count == self.entries@.len(),
    {
        self.entries.len()
    }
}

/// The records of the legacy container, if there is one.
pub open spec fn server_side_spec(sv_packed_file: Option<Seq<u8>>) -> Result<
    Seq<Record>,
    UnpackingError,
> {
    match sv_packed_file {
        Some(data) => decode_spec(ContainerFormat::Legacy, data),
        None => Ok(Seq::empty()),
    }
}

/// The records of the stream that a list of chunk files holds.
pub open spec fn stream_spec(chunk_files: Seq<Seq<u8>>) -> Result<Seq<Record>, UnpackingError> {
    decode_spec(ContainerFormat::Chunked, superchunk_spec(chunk_files))
}

/// The number of containers that an unpack decodes: the legacy container
/// where there is one, and the two streams of chunk files, each counted
/// once whether or not it holds a file.
pub open spec fn packed_count(sv_packed_file: Option<Seq<u8>>) -> int {
    if sv_packed_file is Some {
        3
    } else {
        2
    }
}

/// What an unpack gives: the records of the three streams in order and the
/// number of containers, or the first failure in that order.
pub open spec fn unpack_spec(
    sv_packed_file: Option<Seq<u8>>,
    cl_chunk_files: Seq<Seq<u8>>,
    sh_chunk_files: Seq<Seq<u8>>,
) -> Result<(Seq<Record>, int), UnpackingError> {
    match server_side_spec(sv_packed_file) {
        Err(error) => Err(error),
        Ok(server) => match stream_spec(cl_chunk_files) {
            Err(error) => Err(error),
            Ok(client) => match stream_spec(sh_chunk_files) {
                Err(error) => Err(error),
                Ok(shared) => Ok((server + client + shared, packed_count(sv_packed_file))),
            },
        },
    }
}

/// The bytes of a file that may be missing.
pub open spec fn file_view(file: Option<&[u8]>) -> Option<Seq<u8>> {
    match file {
        Some(data) => Some(data@),
        None => None,
    }
}

impl Unpacker {
    /// An unpacker for the addon in `dir`. Without an `out_dir` the addon
    /// is unpacked in place.
    pub fn new(dir: Vec<u8>, out_dir: Option<Vec<u8>>, quiet: bool) -> (unpacker: Unpacker)
        ensures
            unpacker.dir@ == dir@,
            unpacker.out_dir@ == (match out_dir {
                Some(out) => out@,
                None => dir@,
            }),
            unpacker.quiet == quiet,
    {
        let out_dir = match out_dir {
            Some(out) => out,
            None => slice_to_vec(dir.as_slice()),
        };
        Unpacker { dir, out_dir, quiet }
    }

    /// Tells whether the addon is unpacked where it lies.
    pub fn in_place(&self) -> (same: bool)
        ensures
            same == (self.dir@ == self.out_dir@),
    {
        bytes_eq(self.dir.as_slice(), self.out_dir.as_slice())
    }

    /// Decodes the legacy container.
    pub fn parse_sv_packed_file(sv_packed_file: &[u8]) -> (parsed: Result<
        Vec<Entry>,
        UnpackingError,
    >)
        ensures
            match decode_spec(ContainerFormat::Legacy, sv_packed_file@) {
                Ok(records) => parsed matches Ok(entries) && records_of(entries@) == records,
                Err(error) => parsed matches Err(e) && e == error,
            },
    {
        decode(ContainerFormat::Legacy, sv_packed_file)
    }

    /// Decodes the stream that the chunk files in `packed_files` hold
    /// together, in the order of the list.
    pub fn parse_packed_files(packed_files: &Vec<Vec<u8>>) -> (parsed: Result<
        Vec<Entry>,
        UnpackingError,
    >)
        ensures
            match stream_spec(contents_of(packed_files@)) {
                Ok(records) => parsed matches Ok(entries) && records_of(entries@) == records,
                Err(error) => parsed matches Err(e) && e == error,
            },
    {
        let container = superchunk(packed_files);
        decode(ContainerFormat::Chunked, container.as_slice())
    }

    /// Decodes the containers of an addon: the legacy container where there
    /// is one, then the client-side stream, then the shared one. The first
    /// failure ends the unpack.
    pub fn unpack(
        sv_packed_file: Option<&[u8]>,
        cl_chunk_files: &Vec<Vec<u8>>,
        sh_chunk_files: &Vec<Vec<u8>>,
    ) -> (unpacked: Result<Unpacked, UnpackingError>)
        ensures
            match unpack_spec(
                file_view(sv_packed_file),
                contents_of(cl_chunk_files@),
                contents_of(sh_chunk_files@),
            ) {
                Ok((records, count)) => unpacked matches Ok(done) && records_of(done.entries@)
                    == records && done.total_packed_files == count,
                Err(error) => unpacked matches Err(e) && e == error,
            },
    {
        let mut total_packed_files: usize = 0;
        let mut entries: Vec<Entry> = Vec::new();
        if let Some(data) = sv_packed_file {
            total_packed_files += 1;
            entries = Self::parse_sv_packed_file(data)?;
        }
        let ghost server = records_of(entries@);
        assert(server_side_spec(file_view(sv_packed_file)) == Ok::<Seq<Record>, UnpackingError>(
            server,
        )) by {
            if sv_packed_file is None {
                assert(server =~= Seq::<Record>::empty());
            }
        }
        let mut client = Self::parse_packed_files(cl_chunk_files)?;
        let ghost client_records = records_of(client@);
        entries.append(&mut client);
        assert(records_of(entries@) =~= server + client_records);
        let mut shared = Self::parse_packed_files(sh_chunk_files)?;
        let ghost shared_records = records_of(shared@);
        entries.append(&mut shared);
        assert(records_of(entries@) =~= server + client_records + shared_records);
        Ok(Unpacked { entries, total_packed_files: total_packed_files + 2 })
    }
}

} // verus!
