//! One connection's request lifecycle as a function on the received
//! bytes: split off the request line, parse it, drive the store, and
//! build the reply — or none, where the protocol says the connection is
//! closed silently.
use vstd::prelude::*;
use crate::digest::fresh_salt;
use crate::hex::chars_of_bytes;
use crate::parse::LF;
use crate::parse::Method;
use crate::parse::find_header_end;
use crate::parse::find_line_end;
use crate::parse::HDR_AFTER_LINE;
use crate::parse::hdr_state;
use crate::parse::parse_line;
use crate::parse::parse_request_line;
use crate::response::Reply;
use crate::response::delete_missing_reply;
use crate::response::delete_ok_reply;
use crate::response::delete_ok_head;
use crate::response::delete_missing_head;
use crate::response::not_found_head;
use crate::response::not_found_reply;
use crate::response::ok_head;
use crate::response::ok_reply;
use crate::response::put_ok_head;
use crate::response::put_ok_reply;
use crate::store::Blob;
use crate::store::Store;
use crate::store::normalize;
use crate::store::put_key;

verus! {

/// `i` is where the request line ends: the first line feed.
pub open spec fn is_first_lf(s: Seq<u8>, i: int) -> bool {
    0 <= i < s.len() && s[i] == LF && (forall|k: int| 0 <= k < i ==> s[k] != LF)
}

/// `j` is where an upload's body starts within the bytes after the
/// request line: the first point at which the header scan, taken up in
/// the state the request line's terminator leaves it in, reaches state
/// four.
pub open spec fn is_hdr_end(rest: Seq<u8>, j: int) -> bool {
    0 <= j <= rest.len() && hdr_state(HDR_AFTER_LINE, rest.take(j)) == 4 && (forall|m: int|
        0 <= m < j ==> hdr_state(HDR_AFTER_LINE, rest.take(m)) != 4)
}

/// What serving a download does: the reply frames the blob the path
/// resolves to, or reports a miss.
pub open spec fn get_served(m0: Map<Seq<u8>, Blob>, path: Seq<u8>, r: Option<Reply>) -> bool {
    match normalize(path) {
        Some(k) => if m0.contains_key(k) {
            r matches Some(rep) && rep.head@ == ok_head(m0[k].data.len() as int) && rep.body@
                == m0[k].data
        } else {
            r matches Some(rep) && rep.head@ == not_found_head() && rep.body@ == Seq::<u8>::empty()
        },
        None => r matches Some(rep) && rep.head@ == not_found_head() && rep.body@
            == Seq::<u8>::empty(),
    }
}

/// What serving a deletion does: the blob the path resolves to leaves
/// the store and the reply reports which way it went.
pub open spec fn delete_served(
    m0: Map<Seq<u8>, Blob>,
    m1: Map<Seq<u8>, Blob>,
    path: Seq<u8>,
    r: Option<Reply>,
) -> bool {
    match normalize(path) {
        Some(k) => if m0.contains_key(k) {
            m1 == m0.remove(k) && (r matches Some(rep) && rep.head@ == delete_ok_head()
                && rep.body@ == Seq::<u8>::empty())
        } else {
            m1 == m0 && (r matches Some(rep) && rep.head@ == delete_missing_head() && rep.body@
                == Seq::<u8>::empty())
        },
        None => m1 == m0 && (r matches Some(rep) && rep.head@ == delete_missing_head()
            && rep.body@ == Seq::<u8>::empty()),
    }
}

/// What serving an upload does. With no header terminator the
/// connection is abandoned. Otherwise the body is everything after the
/// terminator; on a fresh key the blob is filed and the reply names the
/// download URL, on a colliding key nothing changes and nothing is sent.
pub open spec fn put_served(
    m0: Map<Seq<u8>, Blob>,
    m1: Map<Seq<u8>, Blob>,
    path: Seq<u8>,
    rest: Seq<u8>,
    host: Seq<char>,
    salt: u64,
    now: u64,
    r: Option<Reply>,
) -> bool {
    &&& ((forall|j: int| 0 <= j <= rest.len() ==> hdr_state(HDR_AFTER_LINE, rest.take(j)) != 4)
        ==> (r is None && m1 == m0))
    &&& (forall|j: int|
        is_hdr_end(rest, j) ==> {
            let body = rest.skip(j);
            let k = put_key(path, body, salt);
            if m0.contains_key(k) {
                r is None && m1 == m0
            } else {
                &&& m1 == m0.insert(k, Blob { data: body, created_at: now })
                &&& r matches Some(rep) && rep.head@ == put_ok_head(host, chars_of_bytes(k))
                    && rep.body@ == Seq::<u8>::empty()
            }
        })
}

/// What serving one connection does, for a store holding `m0` before
/// and `m1` after: nothing without a complete, well-formed request line;
/// otherwise whatever the method asks for.
pub open spec fn served(
    m0: Map<Seq<u8>, Blob>,
    m1: Map<Seq<u8>, Blob>,
    input: Seq<u8>,
    host: Seq<char>,
    salt: u64,
    now: u64,
    r: Option<Reply>,
) -> bool {
    &&& ((forall|k: int| 0 <= k < input.len() ==> input[k] != LF) ==> (r is None && m1 == m0))
    &&& (forall|i: int|
        is_first_lf(input, i) ==> {
            let line = input.take(i);
            let rest = input.skip(i + 1);
            match parse_line(line) {
                None => r is None && m1 == m0,
                Some((method, path, _version)) => match method {
                    Method::Put => put_served(m0, m1, path, rest, host, salt, now, r),
                    Method::Get => m1 == m0 && get_served(m0, path, r),
                    Method::Delete => delete_served(m0, m1, path, r),
                    Method::Other => r is None && m1 == m0,
                },
            }
        })
}

/// Serves one connection's bytes against the store, with the salt an
/// upload would be filed under given from outside; `host` is the
/// address the download URL names. No reply means the connection is
/// closed without a byte sent back.
pub fn handle(store: &mut Store, input: &[u8], host: &str, salt: u64, now: u64) -> (r: Option<
    Reply,
>)
    requires
        old(store).wf(),
    ensures
        final(store).wf(),
        final(store).spec_window() == old(store).spec_window(),
        served(old(store).map(), final(store).map(), input@, host@, salt, now, r),
{
    let line_end = match find_line_end(input) {
        None => {
            return None;
        },
        Some(i) => i,
    };
    proof {
        assert(is_first_lf(input@, line_end as int));
        assert forall|i: int| is_first_lf(input@, i) implies i == line_end as int by {
            if i < line_end as int {
                assert(input@[i] == LF);
            }
            if i > line_end as int {
                assert(input@[line_end as int] == LF);
            }
        }
    }
    let line = vstd::slice::slice_subrange(input, 0, line_end);
    assert(line@ =~= input@.take(line_end as int));
    let ghost rest = input@.skip(line_end + 1);
    let req = match parse_request_line(line) {
        None => {
            return None;
        },
        Some(req) => req,
    };
    match req.method {
        Method::Other => None,
        Method::Get => {
            let rep = match store.get(req.path.as_slice()) {
                Some(data) => ok_reply(data),
                None => not_found_reply(),
            };
            Some(rep)
        },
        Method::Delete => {
            let removed = store.delete(req.path.as_slice());
            let rep = if removed {
                delete_ok_reply()
            } else {
                delete_missing_reply()
            };
            Some(rep)
        },
        Method::Put => {
            let input_len = input.len();
            assert(line_end < input_len);
            let body_start = match find_header_end(input, line_end + 1, HDR_AFTER_LINE) {
                None => {
                    proof {
                        assert forall|j: int| 0 <= j <= rest.len() implies hdr_state(
                            HDR_AFTER_LINE,
                            rest.take(j),
                        ) != 4 by {
                            assert(rest.take(j) =~= input@.subrange(
                                line_end + 1,
                                line_end + 1 + j,
                            ));
                        }
                    }
                    return None;
                },
                Some(j) => j,
            };
            let ghost j0 = body_start - (line_end + 1);
            proof {
                assert(rest.take(j0) =~= input@.subrange(line_end + 1, body_start as int));
                assert forall|m: int| 0 <= m < j0 implies hdr_state(HDR_AFTER_LINE, rest.take(m)) != 4 by {
                    assert(rest.take(m) =~= input@.subrange(line_end + 1, line_end + 1 + m));
                }
                assert(is_hdr_end(rest, j0));
                assert forall|j: int| is_hdr_end(rest, j) implies j == j0 by {
                    if j < j0 {
                        assert(hdr_state(HDR_AFTER_LINE, rest.take(j)) != 4);
                    }
                    if j > j0 {
                        assert(hdr_state(HDR_AFTER_LINE, rest.take(j0)) != 4);
                    }
                }
            }
            let body = vstd::slice::slice_subrange(input, body_start, input.len());
            assert(body@ =~= rest.skip(j0));
            match store.put(req.path.as_slice(), body, salt, now) {
                None => None,
                Some(key) => Some(put_ok_reply(host, key.as_slice())),
            }
        },
    }
}

/// Serves one connection's bytes, drawing the salt an upload is filed
/// under; the outcome is that of `handle` for the salt that was drawn.
pub fn handle_fresh(store: &mut Store, input: &[u8], host: &str, now: u64) -> (r: Option<Reply>)
    requires
        old(store).wf(),
    ensures
        final(store).wf(),
        final(store).spec_window() == old(store).spec_window(),
        exists|salt: u64|
            served(old(store).map(), final(store).map(), input@, host@, salt, now, r),
{
    let salt = fresh_salt();
    let r = handle(store, input, host, salt, now);
    r
}

} // verus!

