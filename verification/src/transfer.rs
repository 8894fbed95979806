//! What travels between peers: a whole log, gzip-compressed.

use crate::database;
use crate::database::Snapshot;
use flate2::read::GzDecoder;
use flate2::write::GzEncoder;
use flate2::Compression;
use std::io::{Read, Write};
use vstd::prelude::*;

verus! {

/// The effort of the compression, the highest there is.
pub const COMPRESSION_LEVEL: u32 = 9;

/// What `flate2::read::GzDecoder` makes of a stream: the bytes of its first gzip
/// member, or the message of its error, such as for a truncated or damaged stream.
pub uninterp spec fn gunzipped(stream: Seq<u8>) -> Result<Seq<u8>, Seq<char>>;

/// What `flate2::write::GzEncoder` makes of bytes at a compression level.
pub uninterp spec fn gzipped(bytes: Seq<u8>, level: u32) -> Seq<u8>;

/// `flate2::write::GzEncoder` on all the bytes, into a `Vec`, which takes every write.
/// The stream follows from the bytes and the level: its header holds no time. The
/// decoder gives back what the encoder was given.
#[verifier::external_body]
fn gzip(bytes: &[u8], level: u32) -> (stream: Vec<u8>)
    requires
        level <= 9,
    ensures
        stream@ == gzipped(bytes@, level),
        match gunzipped(stream@) {
            Ok(back) => back == bytes@,
            Err(_) => false,
        },
{
    let mut encoder = GzEncoder::new(Vec::new(), Compression::new(level));
    encoder.write_all(bytes).unwrap();
    encoder.finish().unwrap()
}

/// `flate2::read::GzDecoder`, read to its end, where it holds the stream against the
/// checksum and the length behind the data.
#[verifier::external_body]
fn gunzip(stream: &[u8]) -> (r: Result<Vec<u8>, String>)
    ensures
        match (gunzipped(stream@), r) {
            (Ok(bytes), Ok(out)) => out@ == bytes,
            (Err(message), Err(text)) => text@ == message,
            _ => false,
        },
{
    let mut out = Vec::new();
    match GzDecoder::new(stream).read_to_end(&mut out) {
        Ok(_) => Ok(out),
        Err(e) => Err(e.to_string()),
    }
}

/// Why a stream did not become a log.
#[derive(Debug)]
pub enum ReceiveError {
    /// The stream is truncated or damaged; the decoder's message.
    Damaged(String),
}

/// The stream for a log.
pub fn send_log(log: &[u8]) -> (stream: Vec<u8>)
    ensures
        stream@ == gzipped(log@, COMPRESSION_LEVEL),
        gunzipped(stream@) == Ok::<Seq<u8>, Seq<char>>(log@),
{
    gzip(log, COMPRESSION_LEVEL)
}

/// The log in a stream, and its snapshot. A truncated or damaged stream gives no log, so
/// that it cannot take the place of a log that works.
pub fn receive_log(stream: &[u8], modified_unix: u64) -> (r: Result<
    (Vec<u8>, Snapshot),
    ReceiveError,
>)
    ensures
        match r {
            Ok((log, snapshot)) => {
                &&& gunzipped(stream@) == Ok::<Seq<u8>, Seq<char>>(log@)
                &&& snapshot.describes(database::scan_log(log@, modified_unix))
                &&& snapshot.wf()
            },
            Err(ReceiveError::Damaged(message)) => gunzipped(stream@) == Err::<
                Seq<u8>,
                Seq<char>,
            >(message@),
        },
{
    let log = match gunzip(stream) {
        Ok(log) => log,
        Err(message) => {
            return Err(ReceiveError::Damaged(message));
        },
    };
    let snapshot = Snapshot::from_file(log.as_slice(), modified_unix);
    Ok((log, snapshot))
}

/// What one peer sends is what the other loads, age and version, which travel in the
/// log's meta record, included.
pub proof fn law_transfer_keeps_the_log(
    stream: Seq<u8>,
    log: Seq<u8>,
    sent_unix: u64,
    received_unix: u64,
)
    requires
        gunzipped(stream) == Ok::<Seq<u8>, Seq<char>>(log),
        database::states_age(log),
    ensures
        database::scan_log(gunzipped(stream)->Ok_0, received_unix) == database::scan_log(
            log,
            sent_unix,
        ),
{
    database::law_age_comes_from_the_log(log, sent_unix, received_unix);
}

} // verus!
