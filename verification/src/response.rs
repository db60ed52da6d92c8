//! The response writer: status lines, `Content-Length` framing for
//! downloads, and the instructional reply that carries a fresh upload's
//! download URL.
use vstd::prelude::*;
use vstd::string::StringExecFns;
use crate::hex::chars_of_bytes;
use crate::hex::dec_bytes;
use crate::hex::dec_of_u64;
use crate::hex::string_of_bytes;

verus! {

/// The decimal rendering of a length, as text.
pub open spec fn dec_chars(n: int) -> Seq<char> {
    chars_of_bytes(dec_bytes(n))
}

/// The status line and headers framing a successful download of `n`
/// bytes.
pub open spec fn ok_head(n: int) -> Seq<char> {
    "HTTP/1.1 200 OK\r\nContent-Length: "@ + dec_chars(n) + "\r\n\r\n"@
}

/// The reply to a download of a missing blob.
pub open spec fn not_found_head() -> Seq<char> {
    "HTTP/1.1 404 File not found\r\n\r\n"@
}

/// The reply to a deletion that removed a blob.
pub open spec fn delete_ok_head() -> Seq<char> {
    "HTTP/1.1 200 The file has been removed\r\n\r\n"@
}

/// The reply to a deletion that found nothing to remove.
pub open spec fn delete_missing_head() -> Seq<char> {
    "HTTP/1.1 404 The file could not be removed\r\n\r\n"@
}

/// The instructional reply to a successful upload, naming the download
/// URL twice: once to read, once in a ready-made command.
pub open spec fn put_ok_head(host: Seq<char>, key: Seq<char>) -> Seq<char> {
    "HTTP/1.1 200 Your file should be accessible at: \"http://"@ + host + "/"@ + key
        + "\" for the retention window.\r\nTo download the file, run:\r\n$ curl http://"@ + host
        + "/"@ + key + " --output filename.txt\r\n"@
}

/// One reply on the wire: the status line with its headers, then the raw
/// body bytes.
pub struct Reply {
    pub head: String,
    pub body: Vec<u8>,
}

/// Frames `data` as a successful download.
pub fn ok_reply(data: Vec<u8>) -> (r: Reply)
    ensures
        r.head@ == ok_head(data@.len() as int),
        r.body@ == data@,
{
    let mut head = String::new();
    head.append("HTTP/1.1 200 OK\r\nContent-Length: ");
    let len = dec_of_u64(data.len() as u64);
    let len_text = string_of_bytes(len.as_slice());
    head.append(len_text.as_str());
    head.append("\r\n\r\n");
    assert(head@ =~= ok_head(data@.len() as int));
    Reply { head, body: data }
}

/// The bodiless miss reply.
pub fn not_found_reply() -> (r: Reply)
    ensures
        r.head@ == not_found_head(),
        r.body@ == Seq::<u8>::empty(),
{
    let mut head = String::new();
    head.append("HTTP/1.1 404 File not found\r\n\r\n");
    assert(head@ =~= not_found_head());
    let body: Vec<u8> = Vec::new();
    assert(body@ =~= Seq::<u8>::empty());
    Reply { head, body }
}

/// The bodiless reply to a completed deletion.
pub fn delete_ok_reply() -> (r: Reply)
    ensures
        r.head@ == delete_ok_head(),
        r.body@ == Seq::<u8>::empty(),
{
    let mut head = String::new();
    head.append("HTTP/1.1 200 The file has been removed\r\n\r\n");
    assert(head@ =~= delete_ok_head());
    let body: Vec<u8> = Vec::new();
    assert(body@ =~= Seq::<u8>::empty());
    Reply { head, body }
}

/// The bodiless reply to a deletion that found nothing.
pub fn delete_missing_reply() -> (r: Reply)
    ensures
        r.head@ == delete_missing_head(),
        r.body@ == Seq::<u8>::empty(),
{
    let mut head = String::new();
    head.append("HTTP/1.1 404 The file could not be removed\r\n\r\n");
    assert(head@ =~= delete_missing_head());
    let body: Vec<u8> = Vec::new();
    assert(body@ =~= Seq::<u8>::empty());
    Reply { head, body }
}

/// The reply to a successful upload filed under `key`.
pub fn put_ok_reply(host: &str, key: &[u8]) -> (r: Reply)
    ensures
        r.head@ == put_ok_head(host@, chars_of_bytes(key@)),
        r.body@ == Seq::<u8>::empty(),
{
    let key_text = string_of_bytes(key);
    let mut head = String::new();
    head.append("HTTP/1.1 200 Your file should be accessible at: \"http://");
    head.append(host);
    head.append("/");
    head.append(key_text.as_str());
    head.append("\" for the retention window.\r\nTo download the file, run:\r\n$ curl http://");
    head.append(host);
    head.append("/");
    head.append(key_text.as_str());
    head.append(" --output filename.txt\r\n");
    assert(head@ =~= put_ok_head(host@, chars_of_bytes(key@)));
    let body: Vec<u8> = Vec::new();
    assert(body@ =~= Seq::<u8>::empty());
    Reply { head, body }
}

} // verus!
