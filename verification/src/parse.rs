//! The protocol reader: splits the received bytes at the first line feed,
//! parses the request line as three whitespace-delimited tokens whose
//! third begins with `HTTP`, and, for uploads, finds the end of the
//! header section with a four-state scan for CR LF CR LF.
use vstd::prelude::*;

verus! {

pub const CR: u8 = 13;

pub const LF: u8 = 10;

pub const SPACE: u8 = 32;

pub const TAB: u8 = 9;

/// A token delimiter in the request line.
pub open spec fn is_ws(b: u8) -> bool {
    b == SPACE || b == TAB
}

/// The length of the delimiter-free prefix of `s`.
pub open spec fn tok_len(s: Seq<u8>) -> nat
    decreases s.len(),
{
    if s.len() == 0 || is_ws(s[0]) {
        0
    } else {
        1 + tok_len(s.skip(1))
    }
}

proof fn lemma_tok_len_le(s: Seq<u8>)
    ensures
        tok_len(s) <= s.len(),
    decreases s.len(),
{
    if s.len() > 0 && !is_ws(s[0]) {
        lemma_tok_len_le(s.skip(1));
    }
}

#[via_fn]
proof fn tokens_decreases(s: Seq<u8>) {
    lemma_tok_len_le(s);
}

/// The whitespace-delimited tokens of the request line, in order.
pub open spec fn tokens(s: Seq<u8>) -> Seq<Seq<u8>>
    decreases s.len(),
    via tokens_decreases
{
    if s.len() == 0 {
        Seq::empty()
    } else if is_ws(s[0]) {
        tokens(s.skip(1))
    } else {
        seq![s.take(tok_len(s) as int)] + tokens(s.skip(tok_len(s) as int))
    }
}

/// The methods the service reacts to; anything else closes the
/// connection without a reply.
#[derive(PartialEq, Eq, Structural, Clone, Copy, Debug)]
pub enum Method {
    Put,
    Get,
    Delete,
    Other,
}

/// A parsed request line.
pub struct Request {
    pub method: Method,
    pub path: Vec<u8>,
    pub version: Vec<u8>,
}

/// The bytes of the token `PUT`.
pub open spec fn put_token() -> Seq<u8> {
    seq![80u8, 85u8, 84u8]
}

/// The bytes of the token `GET`.
pub open spec fn get_token() -> Seq<u8> {
    seq![71u8, 69u8, 84u8]
}

/// The bytes of the token `DELETE`.
pub open spec fn delete_token() -> Seq<u8> {
    seq![68u8, 69u8, 76u8, 69u8, 84u8, 69u8]
}

/// The bytes of the literal `HTTP`.
pub open spec fn http_prefix() -> Seq<u8> {
    seq![72u8, 84u8, 84u8, 80u8]
}

/// Which method a token names.
pub open spec fn method_of(tok: Seq<u8>) -> Method {
    if tok == put_token() {
        Method::Put
    } else if tok == get_token() {
        Method::Get
    } else if tok == delete_token() {
        Method::Delete
    } else {
        Method::Other
    }
}

/// What a request line parses to: its three tokens, when it has exactly
/// three and the third begins with `HTTP`; nothing otherwise. The path
/// is the second token, the version whatever follows the `HTTP` prefix.
pub open spec fn parse_line(line: Seq<u8>) -> Option<(Method, Seq<u8>, Seq<u8>)> {
    let ts = tokens(line);
    if ts.len() == 3 && ts[2].len() >= 4 && ts[2].take(4) == http_prefix() {
        Some((method_of(ts[0]), ts[1], ts[2].skip(4)))
    } else {
        None
    }
}

fn is_ws_byte(b: u8) -> (r: bool)
    ensures
        r == is_ws(b),
{
    b == SPACE || b == TAB
}

fn tok_len_at(s: &[u8], i: usize) -> (r: usize)
    requires
        i <= s@.len(),
    ensures
        r == tok_len(s@.skip(i as int)),
        i + r <= s@.len(),
    decreases s@.len() - i,
{
    if i == s.len() {
        assert(s@.skip(i as int).len() == 0);
        0
    } else if is_ws_byte(s[i]) {
        assert(s@.skip(i as int)[0] == s@[i as int]);
        0
    } else {
        assert(s@.skip(i as int)[0] == s@[i as int]);
        let n = tok_len_at(s, i + 1);
        assert(s@.skip(i as int).skip(1) =~= s@.skip(i + 1));
        n + 1
    }
}

fn tokens_at(s: &[u8], i: usize) -> (r: Vec<Vec<u8>>)
    requires
        i <= s@.len(),
    ensures
        r@.map_values(|v: Vec<u8>| v@) == tokens(s@.skip(i as int)),
    decreases s@.len() - i,
{
    if i == s.len() {
        let r: Vec<Vec<u8>> = Vec::new();
        assert(s@.skip(i as int).len() == 0);
        assert(r@.map_values(|v: Vec<u8>| v@) =~= tokens(s@.skip(i as int)));
        r
    } else if is_ws_byte(s[i]) {
        assert(s@.skip(i as int)[0] == s@[i as int]);
        let r = tokens_at(s, i + 1);
        assert(s@.skip(i as int).skip(1) =~= s@.skip(i + 1));
        r
    } else {
        assert(s@.skip(i as int)[0] == s@[i as int]);
        let l = tok_len_at(s, i);
        let tok = vstd::slice::slice_to_vec(vstd::slice::slice_subrange(s, i, i + l));
        let mut r: Vec<Vec<u8>> = Vec::new();
        r.push(tok);
        let mut rest = tokens_at(s, i + l);
        r.append(&mut rest);
        proof {
            let tail = s@.skip(i as int);
            assert(l == tok_len(tail));
            assert(tail.take(l as int) =~= s@.subrange(i as int, i + l));
            assert(tail.skip(l as int) =~= s@.skip(i + l));
            assert(r@.map_values(|v: Vec<u8>| v@) =~= tokens(tail));
        }
        r
    }
}

/// Parses a request line; yields nothing on any line that is not three
/// whitespace-delimited tokens with the third beginning `HTTP`.
pub fn parse_request_line(line: &[u8]) -> (r: Option<Request>)
    ensures
        match r {
            Some(req) => parse_line(line@) matches Some((m, p, v)) && req.method == m && req.path@
                == p && req.version@ == v,
            None => parse_line(line@) is None,
        },
{
    let toks = tokens_at(line, 0);
    proof {
        assert(line@.skip(0) =~= line@);
    }
    if toks.len() != 3 {
        assert(tokens(line@).len() != 3);
        return None;
    }
    let ghost ts = tokens(line@);
    assert(toks@[0]@ == ts[0] && toks@[1]@ == ts[1] && toks@[2]@ == ts[2]);
    let ver_tok = &toks[2];
    if ver_tok.len() < 4 {
        return None;
    }
    // the literal `HTTP`
    if !(ver_tok[0] == 72 && ver_tok[1] == 84 && ver_tok[2] == 84 && ver_tok[3] == 80) {
        assert(ts[2].take(4) != http_prefix()) by {
            if ts[2].take(4) == http_prefix() {
                assert(ts[2][0] == 72 && ts[2][1] == 84 && ts[2][2] == 84 && ts[2][3] == 80) by {
                    assert(ts[2].take(4)[0] == 72 && ts[2].take(4)[1] == 84 && ts[2].take(4)[2]
                        == 84 && ts[2].take(4)[3] == 80);
                }
            }
        }
        return None;
    }
    assert(ts[2].take(4) =~= http_prefix());
    let method_tok = &toks[0];
    let method = if method_tok.len() == 3 && method_tok[0] == 80 && method_tok[1] == 85
        && method_tok[2] == 84 {
        // `PUT`
        assert(ts[0] =~= put_token());
        Method::Put
    } else if method_tok.len() == 3 && method_tok[0] == 71 && method_tok[1] == 69 && method_tok[2]
        == 84 {
        // `GET`
        assert(ts[0] =~= get_token());
        Method::Get
    } else if method_tok.len() == 6 && method_tok[0] == 68 && method_tok[1] == 69 && method_tok[2]
        == 76 && method_tok[3] == 69 && method_tok[4] == 84 && method_tok[5] == 69 {
        // `DELETE`
        assert(ts[0] =~= delete_token());
        Method::Delete
    } else {
        proof {
            if ts[0] == put_token() {
                assert(ts[0].len() == 3 && ts[0][0] == 80 && ts[0][1] == 85 && ts[0][2] == 84);
            }
            if ts[0] == get_token() {
                assert(ts[0].len() == 3 && ts[0][0] == 71 && ts[0][1] == 69 && ts[0][2] == 84);
            }
            if ts[0] == delete_token() {
                assert(ts[0].len() == 6 && ts[0][0] == 68 && ts[0][1] == 69 && ts[0][2] == 76
                    && ts[0][3] == 69 && ts[0][4] == 84 && ts[0][5] == 69);
            }
        }
        Method::Other
    };
    let path = vstd::slice::slice_to_vec(toks[1].as_slice());
    let version = vstd::slice::slice_to_vec(
        vstd::slice::slice_subrange(toks[2].as_slice(), 4, toks[2].len()),
    );
    assert(version@ =~= ts[2].skip(4));
    Some(Request { method, path, version })
}

/// The scan state in which the body search begins: the request line's
/// own terminator counts as the first carriage-return line-feed of the
/// four-byte sequence, so an upload with no headers is the request line
/// followed directly by one empty line.
pub const HDR_AFTER_LINE: u8 = 2;

/// One step of the header-terminator scan: a carriage return advances an
/// even state, a line feed an odd one; any other byte starts over.
pub open spec fn hdr_step(st: u8, b: u8) -> u8 {
    if b == CR && st % 2 == 0 {
        (st + 1) as u8
    } else if b == LF && st % 2 == 1 {
        (st + 1) as u8
    } else {
        0
    }
}

/// The scan state after reading `s` from state `init`, stopping once
/// state four is reached.
pub open spec fn hdr_state(init: u8, s: Seq<u8>) -> u8
    decreases s.len(),
{
    if s.len() == 0 {
        init
    } else {
        let p = hdr_state(init, s.drop_last());
        if p == 4 {
            4
        } else {
            hdr_step(p, s.last())
        }
    }
}

/// Scans forward from `from` for the header terminator, starting the
/// scan in state `init`. The result is the position just past the first
/// point where the scan reaches state four, or nothing when the bytes
/// run out first.
pub fn find_header_end(s: &[u8], from: usize, init: u8) -> (r: Option<usize>)
    requires
        from <= s@.len(),
        init <= 4,
    ensures
        match r {
            Some(j) => from <= j <= s@.len() && hdr_state(
                init,
                s@.subrange(from as int, j as int),
            ) == 4 && forall|m: int|
                from <= m < j ==> hdr_state(init, s@.subrange(from as int, m)) != 4,
            None => forall|m: int|
                from <= m <= s@.len() ==> hdr_state(init, s@.subrange(from as int, m)) != 4,
        },
{
    let mut j = from;
    let mut st: u8 = init;
    assert(s@.subrange(from as int, from as int).len() == 0);
    while st != 4 && j < s.len()
        invariant
            from <= j <= s@.len(),
            st == hdr_state(init, s@.subrange(from as int, j as int)),
            st <= 4,
            forall|m: int| from <= m < j ==> hdr_state(init, s@.subrange(from as int, m)) != 4,
        decreases s@.len() - j,
    {
        let b = s[j];
        let st0 = st;
        if b == CR && st % 2 == 0 {
            st = st + 1;
        } else if b == LF && st % 2 == 1 {
            st = st + 1;
        } else {
            st = 0;
        }
        j = j + 1;
        proof {
            let pre = s@.subrange(from as int, j as int);
            assert(pre.drop_last() =~= s@.subrange(from as int, j - 1));
            assert(pre.last() == s@[j - 1]);
            assert(st == hdr_step(st0, s@[j - 1]));
            assert(st == hdr_state(init, pre));
        }
    }
    if st == 4 {
        Some(j)
    } else {
        None
    }
}

/// The position of the first line feed, where the request line ends.
pub fn find_line_end(s: &[u8]) -> (r: Option<usize>)
    ensures
        match r {
            Some(i) => i < s@.len() && s@[i as int] == LF && forall|k: int|
                0 <= k < i ==> s@[k] != LF,
            None => forall|k: int| 0 <= k < s@.len() ==> s@[k] != LF,
        },
{
    let mut i: usize = 0;
    while i < s.len()
        invariant
            i <= s@.len(),
            forall|k: int| 0 <= k < i ==> s@[k] != LF,
        decreases s@.len() - i,
    {
        if s[i] == LF {
            return Some(i);
        }
        i = i + 1;
    }
    None
}

} // verus!
