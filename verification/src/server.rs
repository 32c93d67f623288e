//! The wire protocol and the per-request server step.
//!
//! Requests and replies travel as the same kind of self-delimiting textual
//! records as the log uses, concatenated on the stream. The host accepts
//! connections and shuttles characters; decoding a request, consulting the
//! engine and encoding the reply all happen here.

use vstd::prelude::*;
use crate::codec::{Command, CommandModel, spec_encode, encodes_at, encode_command, dec_rep,
    dec_val, digit_val, digit_run_at, is_digit, canonical_digits, parse_decimal, chars_to_string,
    push_decimal, push_str_chars, lemma_subrange_concat, lemma_sub_transfer, lemma_dec_rep,
    lemma_digit_run_unique, lemma_dec_val_prefix_mono, lemma_encodes_at_parts};
use crate::error::KvsError;
use crate::engine::KvsEngine;

verus! {

/// A client request.
pub enum Request {
    /// Look a key up.
    Get { key: String },
    /// Bind a key to a value.
    Put { key: String, value: String },
    /// Unbind a key.
    Remove { key: String },
}

/// The abstract form of a request.
pub enum RequestModel {
    Get { key: Seq<char> },
    Put { key: Seq<char>, value: Seq<char> },
    Remove { key: Seq<char> },
}

impl View for Request {
    type V = RequestModel;

    open spec fn view(&self) -> RequestModel {
        match self {
            Request::Get { key } => RequestModel::Get { key: key@ },
            Request::Put { key, value } => RequestModel::Put { key: key@, value: value@ },
            Request::Remove { key } => RequestModel::Remove { key: key@ },
        }
    }
}

/// The server's answer to one request.
pub enum Reply {
    /// A value was found.
    Value { value: String },
    /// The key is not bound.
    Missing,
    /// The write was applied.
    Done,
    /// The request failed; the message says why.
    Error { msg: String },
}

/// The abstract form of a reply.
pub enum ReplyModel {
    Value { value: Seq<char> },
    Missing,
    Done,
    Error { msg: Seq<char> },
}

impl View for Reply {
    type V = ReplyModel;

    open spec fn view(&self) -> ReplyModel {
        match self {
            Reply::Value { value } => ReplyModel::Value { value: value@ },
            Reply::Missing => ReplyModel::Missing,
            Reply::Done => ReplyModel::Done,
            Reply::Error { msg } => ReplyModel::Error { msg: msg@ },
        }
    }
}

/// The characters of one encoded request.
pub open spec fn spec_encode_request(rq: RequestModel) -> Seq<char> {
    match rq {
        RequestModel::Get { key } => seq!['G', ' '] + dec_rep(key.len()) + seq!['\n'] + key,
        RequestModel::Put { key, value } => spec_encode(CommandModel::Put { key, value }),
        RequestModel::Remove { key } => spec_encode(CommandModel::Remove { key }),
    }
}

/// The characters of one encoded reply.
pub open spec fn spec_encode_reply(rp: ReplyModel) -> Seq<char> {
    match rp {
        ReplyModel::Value { value } => seq!['V', ' '] + dec_rep(value.len()) + seq!['\n'] + value,
        ReplyModel::Missing => seq!['N', '\n'],
        ReplyModel::Done => seq!['O', '\n'],
        ReplyModel::Error { msg } => seq!['E', ' '] + dec_rep(msg.len()) + seq!['\n'] + msg,
    }
}

/// Appends the encoding of `rq` to `out`.
pub fn encode_request(rq: &Request, out: &mut Vec<char>)
    ensures
        final(out)@ == old(out)@ + spec_encode_request(rq@),
{
    match rq {
        Request::Get { key } => {
            out.push('G');
            out.push(' ');
            push_decimal(out, key.as_str().unicode_len());
            out.push('\n');
            push_str_chars(out, key.as_str());
            assert(out@ =~= old(out)@ + spec_encode_request(rq@));
        },
        Request::Put { key, value } => {
            let c = Command::Put { key: key.clone(), value: value.clone() };
            encode_command(&c, out);
        },
        Request::Remove { key } => {
            let c = Command::Remove { key: key.clone() };
            encode_command(&c, out);
        },
    }
}

/// Appends the encoding of `rp` to `out`.
pub fn encode_reply(rp: &Reply, out: &mut Vec<char>)
    ensures
        final(out)@ == old(out)@ + spec_encode_reply(rp@),
{
    match rp {
        Reply::Value { value } => {
            out.push('V');
            out.push(' ');
            push_decimal(out, value.as_str().unicode_len());
            out.push('\n');
            push_str_chars(out, value.as_str());
            assert(out@ =~= old(out)@ + spec_encode_reply(rp@));
        },
        Reply::Missing => {
            out.push('N');
            out.push('\n');
            assert(out@ =~= old(out)@ + spec_encode_reply(rp@));
        },
        Reply::Done => {
            out.push('O');
            out.push('\n');
            assert(out@ =~= old(out)@ + spec_encode_reply(rp@));
        },
        Reply::Error { msg } => {
            out.push('E');
            out.push(' ');
            push_decimal(out, msg.as_str().unicode_len());
            out.push('\n');
            push_str_chars(out, msg.as_str());
            assert(out@ =~= old(out)@ + spec_encode_reply(rp@));
        },
    }
}

/// The characters of a length-prefixed payload.
pub open spec fn spec_payload(s: Seq<char>) -> Seq<char> {
    seq![' '] + dec_rep(s.len()) + seq!['\n'] + s
}

/// A length-prefixed payload for `s` occupies `d` starting at `p`.
pub open spec fn payload_at(d: Seq<char>, p: int, s: Seq<char>) -> bool {
    &&& 0 <= p
    &&& p + spec_payload(s).len() <= d.len()
    &&& d.subrange(p, p + spec_payload(s).len() as int) == spec_payload(s)
}

proof fn lemma_payload_parts(d: Seq<char>, p: int, s: Seq<char>)
    requires
        payload_at(d, p, s),
    ensures
        ({
            let l = dec_rep(s.len()).len() as int;
            &&& d[p] == ' '
            &&& digit_run_at(d, p + 1, p + 1 + l)
            &&& dec_val(d.subrange(p + 1, p + 1 + l)) == s.len()
            &&& d[p + 1 + l] == '\n'
            &&& d.subrange(p + 2 + l, p + 2 + l + s.len()) == s
            &&& p + spec_payload(s).len() == p + 2 + l + s.len()
        }),
{
    let e = spec_payload(s);
    let l = dec_rep(s.len()).len() as int;
    lemma_dec_rep(s.len());
    assert(e.subrange(1, 1 + l) =~= dec_rep(s.len()));
    assert(e.subrange(2 + l, 2 + l + s.len()) =~= s);
    assert(d[p] == e[0]) by {
        assert(d.subrange(p, p + e.len() as int)[0] == d[p]);
    }
    assert(d[p + 1 + l] == e[1 + l]) by {
        assert(d.subrange(p, p + e.len() as int)[1 + l] == d[p + 1 + l]);
    }
    lemma_sub_transfer(d, p, e, 1, 1 + l);
    lemma_sub_transfer(d, p, e, 2 + l, 2 + l + s.len());
    assert(!crate::codec::is_digit(d[p + 1 + l]));
    assert(digit_run_at(d, p + 1, p + 1 + l));
}

/// Reads a length-prefixed payload: a space, a decimal length, a newline and
/// that many characters. On failure no payload at all starts at `from`.
fn decode_payload(data: &Vec<char>, from: usize) -> (r: Result<(String, usize), KvsError>)
    requires
        from <= data@.len(),
    ensures
        match r {
            Ok((s, end)) => {
                &&& from < end <= data@.len()
                &&& data@.subrange(from as int, end as int) == spec_payload(s@)
            },
            Err(e) => {
                &&& e == KvsError::Decode
                &&& forall|s: Seq<char>| !payload_at(data@, from as int, s)
            },
        },
{
    let n = data.len();
    if from >= n || data[from] != ' ' {
        proof {
            assert forall|s: Seq<char>| !payload_at(data@, from as int, s) by {
                if payload_at(data@, from as int, s) {
                    lemma_payload_parts(data@, from as int, s);
                }
            }
        }
        return Err(KvsError::Decode);
    }
    let (len, p1) = match parse_decimal(data, from + 1) {
        Ok(x) => x,
        Err(e) => {
            proof {
                assert forall|s: Seq<char>| !payload_at(data@, from as int, s) by {
                    if payload_at(data@, from as int, s) {
                        lemma_payload_parts(data@, from as int, s);
                        let l = dec_rep(s.len()).len() as int;
                        assert(digit_run_at(data@, from as int + 1, from as int + 1 + l));
                        assert(s.len() <= data@.len());
                    }
                }
            }
            return Err(e);
        },
    };
    if p1 >= n || data[p1] != '\n' {
        proof {
            assert forall|s: Seq<char>| !payload_at(data@, from as int, s) by {
                if payload_at(data@, from as int, s) {
                    lemma_payload_parts(data@, from as int, s);
                    let l = dec_rep(s.len()).len() as int;
                    lemma_digit_run_unique(data@, from as int + 1, from as int + 1 + l,
                        p1 as int);
                }
            }
        }
        return Err(KvsError::Decode);
    }
    let body = p1 + 1;
    if len > n - body {
        proof {
            assert forall|s: Seq<char>| !payload_at(data@, from as int, s) by {
                if payload_at(data@, from as int, s) {
                    lemma_payload_parts(data@, from as int, s);
                    let l = dec_rep(s.len()).len() as int;
                    lemma_digit_run_unique(data@, from as int + 1, from as int + 1 + l,
                        p1 as int);
                    lemma_dec_rep(s.len());
                    assert(s.len() == len as nat);
                }
            }
        }
        return Err(KvsError::Decode);
    }
    let s = chars_to_string(data, body, body + len);
    let end = body + len;
    proof {
        lemma_subrange_concat(data@, from as int, from as int + 1, p1 as int);
        lemma_subrange_concat(data@, from as int, p1 as int, p1 as int + 1);
        lemma_subrange_concat(data@, from as int, p1 as int + 1, end as int);
        assert(data@.subrange(from as int, from as int + 1) =~= seq![' ']);
        assert(data@.subrange(p1 as int, p1 as int + 1) =~= seq!['\n']);
        assert(data@.subrange(from as int, end as int) == seq![' '] + dec_rep(len as nat)
            + seq!['\n'] + s@);
    }
    Ok((s, end))
}

/// An encoded request occupies `d` starting at `p`.
pub open spec fn encodes_req_at(d: Seq<char>, p: int, rq: RequestModel) -> bool {
    &&& 0 <= p
    &&& p + spec_encode_request(rq).len() <= d.len()
    &&& d.subrange(p, p + spec_encode_request(rq).len() as int) == spec_encode_request(rq)
}

/// An encoded reply occupies `d` starting at `p`.
pub open spec fn encodes_reply_at(d: Seq<char>, p: int, rp: ReplyModel) -> bool {
    &&& 0 <= p
    &&& p + spec_encode_reply(rp).len() <= d.len()
    &&& d.subrange(p, p + spec_encode_reply(rp).len() as int) == spec_encode_reply(rp)
}

proof fn lemma_req_at_parts(d: Seq<char>, p: int, rq: RequestModel)
    requires
        encodes_req_at(d, p, rq),
    ensures
        p + 1 < d.len(),
        d[p] == (match rq {
            RequestModel::Get { .. } => 'G',
            RequestModel::Put { .. } => 'S',
            RequestModel::Remove { .. } => 'R',
        }),
        rq is Get ==> payload_at(d, p + 1, rq.arrow_Get_key()),
        rq is Put ==> encodes_at(d, p, (CommandModel::Put {
            key: rq.arrow_Put_key(),
            value: rq.arrow_Put_value(),
        })),
        rq is Remove ==> encodes_at(d, p, (CommandModel::Remove { key: rq.arrow_Remove_key() })),
{
    let e = spec_encode_request(rq);
    match rq {
        RequestModel::Get { key } => {
            assert(d[p] == e[0]) by {
                assert(d.subrange(p, p + e.len() as int)[0] == d[p]);
            }
            assert(e.subrange(1, e.len() as int) =~= spec_payload(key));
            lemma_sub_transfer(d, p, e, 1, e.len() as int);
            assert(payload_at(d, p + 1, key));
        }
        RequestModel::Put { key, value } => {
            let cm = (CommandModel::Put { key, value });
            assert(encodes_at(d, p, cm));
            lemma_encodes_at_parts(d, p, cm);
        }
        RequestModel::Remove { key } => {
            let cm = (CommandModel::Remove { key });
            assert(encodes_at(d, p, cm));
            lemma_encodes_at_parts(d, p, cm);
        }
    }
}

proof fn lemma_reply_at_parts(d: Seq<char>, p: int, rp: ReplyModel)
    requires
        encodes_reply_at(d, p, rp),
    ensures
        p + 1 < d.len(),
        d[p] == (match rp {
            ReplyModel::Value { .. } => 'V',
            ReplyModel::Missing => 'N',
            ReplyModel::Done => 'O',
            ReplyModel::Error { .. } => 'E',
        }),
        rp is Value ==> payload_at(d, p + 1, rp.arrow_Value_value()),
        rp is Error ==> payload_at(d, p + 1, rp.arrow_Error_msg()),
        rp is Missing ==> d[p + 1] == '\n',
        rp is Done ==> d[p + 1] == '\n',
{
    let e = spec_encode_reply(rp);
    assert(d[p] == e[0]) by {
        assert(d.subrange(p, p + e.len() as int)[0] == d[p]);
    }
    assert(d[p + 1] == e[1]) by {
        assert(d.subrange(p, p + e.len() as int)[1] == d[p + 1]);
    }
    match rp {
        ReplyModel::Value { value } => {
            assert(e.subrange(1, e.len() as int) =~= spec_payload(value));
            lemma_sub_transfer(d, p, e, 1, e.len() as int);
            assert(payload_at(d, p + 1, value));
        }
        ReplyModel::Error { msg } => {
            assert(e.subrange(1, e.len() as int) =~= spec_payload(msg));
            lemma_sub_transfer(d, p, e, 1, e.len() as int);
            assert(payload_at(d, p + 1, msg));
        }
        _ => {}
    }
}

/// Carrying a run from the buffer into any extension of it keeps the run.
proof fn lemma_run_extend(d: Seq<char>, ext: Seq<char>, p: int, e: int)
    requires
        digit_run_at(d, p, e),
        e < d.len(),
    ensures
        digit_run_at(d + ext, p, e),
{
    assert((d + ext).subrange(p, e) =~= d.subrange(p, e));
}

/// How an attempt to read a decimal number out of a growing buffer ended.
enum NumParse {
    /// A number and the position of the non-digit that ends it.
    Num { v: usize, end: usize },
    /// The digits run to the end of the buffer: more may follow.
    Incomplete,
    /// No run readable here can ever name a number a buffer could hold.
    Malformed,
}

/// Reads a decimal number from a buffer that may still be growing.
fn parse_decimal_stream(data: &Vec<char>, from: usize) -> (r: NumParse)
    requires
        from <= data@.len(),
    ensures
        match r {
            NumParse::Num { v, end } => {
                &&& from < end < data@.len()
                &&& digit_run_at(data@, from as int, end as int)
                &&& dec_val(data@.subrange(from as int, end as int)) == v as nat
                &&& data@.subrange(from as int, end as int) == dec_rep(v as nat)
                &&& !is_digit(data@[end as int])
            },
            NumParse::Incomplete => forall|j: int|
                from <= j < data@.len() ==> is_digit(#[trigger] data@[j]),
            NumParse::Malformed => forall|ext: Seq<char>, e2: int|
                digit_run_at(data@ + ext, from as int, e2) ==> dec_val(
                    (data@ + ext).subrange(from as int, e2),
                ) > usize::MAX,
        },
{
    let n = data.len();
    if from >= n {
        return NumParse::Incomplete;
    }
    let digit0 = match crate::codec::char_digit(data[from]) {
        Some(d) => d,
        None => {
            proof {
                assert forall|ext: Seq<char>, e2: int|
                    digit_run_at(data@ + ext, from as int, e2) implies dec_val(
                    (data@ + ext).subrange(from as int, e2),
                ) > usize::MAX by {
                    let w = data@ + ext;
                    assert(w.subrange(from as int, e2)[0] == w[from as int]);
                    assert(w[from as int] == data@[from as int]);
                    assert(is_digit(w.subrange(from as int, e2)[0]));
                }
            }
            return NumParse::Malformed;
        },
    };
    if digit0 == 0 && from + 1 < n {
        if crate::codec::char_digit(data[from + 1]).is_some() {
            proof {
                assert forall|ext: Seq<char>, e2: int|
                    digit_run_at(data@ + ext, from as int, e2) implies dec_val(
                    (data@ + ext).subrange(from as int, e2),
                ) > usize::MAX by {
                    let w = data@ + ext;
                    let run = w.subrange(from as int, e2);
                    assert(run[0] == w[from as int]);
                    assert(w[from as int] == data@[from as int]);
                    assert(digit_val(data@[from as int]) == 0);
                    assert(run[0] == '0');
                    assert(e2 == from + 1);
                    assert(w[e2] == data@[from as int + 1]);
                    assert(is_digit(w[e2]));
                }
            }
            return NumParse::Malformed;
        }
    }
    match parse_decimal(data, from) {
        Ok((v, end)) => {
            if end < n {
                NumParse::Num { v, end }
            } else {
                proof {
                    assert forall|j: int| from <= j < data@.len() implies is_digit(
                        #[trigger] data@[j],
                    ) by {
                        assert(data@.subrange(from as int, end as int)[j - from] == data@[j]);
                        assert(is_digit(data@.subrange(from as int, end as int)[j - from]));
                    }
                }
                NumParse::Incomplete
            }
        },
        Err(_) => {
            // the only remaining failure: the number is too large to hold
            proof {
                assert forall|ext: Seq<char>, e2: int|
                    digit_run_at(data@ + ext, from as int, e2) implies dec_val(
                    (data@ + ext).subrange(from as int, e2),
                ) > usize::MAX by {
                    let w = data@ + ext;
                    let run = w.subrange(from as int, e2);
                    if e2 <= n {
                        // the run lies inside the buffer
                        assert(digit_run_at(data@, from as int, e2)) by {
                            assert(data@.subrange(from as int, e2) =~= run);
                            if e2 < n {
                                assert(w[e2] == data@[e2]);
                            }
                        }
                        assert(dec_val(data@.subrange(from as int, e2)) > usize::MAX);
                        assert(data@.subrange(from as int, e2) =~= run);
                    } else {
                        // its prefix inside the buffer is already too large
                        let pre = data@.subrange(from as int, n as int);
                        assert(pre =~= run.subrange(0, n - from as int));
                        assert(canonical_digits(pre)) by {
                            assert(pre.len() >= 1);
                            assert forall|j: int| 0 <= j < pre.len() implies is_digit(
                                #[trigger] pre[j],
                            ) by {
                                assert(pre[j] == run[j]);
                            }
                            if pre[0] == '0' {
                                assert(run[0] == '0');
                                assert(e2 == from + 1);
                            }
                        }
                        assert(digit_run_at(data@, from as int, n as int));
                        assert(dec_val(pre) > usize::MAX);
                        lemma_dec_val_prefix_mono(run, n - from as int);
                        assert(dec_val(run) >= dec_val(pre)) by {
                            assert(run.subrange(0, n - from as int) =~= pre);
                        }
                    }
                }
            }
            NumParse::Malformed
        },
    }
}

/// The key a request names.
pub open spec fn req_key(rq: RequestModel) -> Seq<char> {
    match rq {
        RequestModel::Get { key } => key,
        RequestModel::Put { key, .. } => key,
        RequestModel::Remove { key } => key,
    }
}

/// The value a request carries; empty unless it is a `Put`.
pub open spec fn req_value(rq: RequestModel) -> Seq<char> {
    match rq {
        RequestModel::Put { value, .. } => value,
        _ => Seq::empty(),
    }
}

/// Where the digit runs and terminators of an encoded request sit.
proof fn lemma_req_runs(d: Seq<char>, p: int, rq: RequestModel)
    requires
        encodes_req_at(d, p, rq),
    ensures
        ({
            let kl = req_key(rq).len() as int;
            let l1 = dec_rep(req_key(rq).len()).len() as int;
            let vl = req_value(rq).len() as int;
            let l2 = dec_rep(req_value(rq).len()).len() as int;
            &&& d[p] == (match rq {
                RequestModel::Get { .. } => 'G',
                RequestModel::Put { .. } => 'S',
                RequestModel::Remove { .. } => 'R',
            })
            &&& d[p + 1] == ' '
            &&& digit_run_at(d, p + 2, p + 2 + l1)
            &&& dec_val(d.subrange(p + 2, p + 2 + l1)) == req_key(rq).len()
            &&& p + 2 + l1 < d.len()
            &&& d[p + 2 + l1] == (if rq is Put { ' ' } else { '\n' })
            &&& (rq is Put ==> {
                &&& digit_run_at(d, p + 3 + l1, p + 3 + l1 + l2)
                &&& dec_val(d.subrange(p + 3 + l1, p + 3 + l1 + l2)) == req_value(rq).len()
                &&& p + 3 + l1 + l2 < d.len()
                &&& d[p + 3 + l1 + l2] == '\n'
                &&& p + spec_encode_request(rq).len() == p + 4 + l1 + l2 + kl + vl
            })
            &&& (!(rq is Put) ==> p + spec_encode_request(rq).len() == p + 3 + l1 + kl)
            &&& spec_encode_request(rq).len() >= req_key(rq).len()
            &&& spec_encode_request(rq).len() >= req_value(rq).len()
        }),
{
    lemma_req_at_parts(d, p, rq);
    match rq {
        RequestModel::Get { key } => {
            lemma_payload_parts(d, p + 1, key);
        }
        RequestModel::Put { key, value } => {
            let cm = (CommandModel::Put { key, value });
            lemma_encodes_at_parts(d, p, cm);
        }
        RequestModel::Remove { key } => {
            let cm = (CommandModel::Remove { key });
            lemma_encodes_at_parts(d, p, cm);
        }
    }
}

/// How an attempt to read a request out of a growing buffer ended.
pub enum RequestParse {
    /// A complete request and the characters it occupied.
    Parsed { req: Request, used: usize },
    /// The buffer ends inside a request; more characters may complete it.
    Incomplete,
    /// No extension of the buffer can turn this into a request.
    Malformed,
}

/// Reads one request from a buffer that may still be growing: a complete
/// request is returned with its length; a buffer that merely ends too soon
/// encodes nothing yet; a corrupt one can never encode a request, however
/// the stream continues.
#[verifier::rlimit(100)]
#[verifier::spinoff_prover]
pub fn read_request(data: &Vec<char>, from: usize) -> (r: RequestParse)
    requires
        from <= data@.len(),
    ensures
        match r {
            RequestParse::Parsed { req, used } => {
                &&& 1 <= used
                &&& from + used <= data@.len()
                &&& spec_encode_request(req@).len() == used as nat
                &&& encodes_req_at(data@, from as int, req@)
            },
            RequestParse::Incomplete => forall|rq: RequestModel|
                !encodes_req_at(data@, from as int, rq),
            RequestParse::Malformed => forall|ext: Seq<char>, rq: RequestModel|
                data@.len() + ext.len() <= usize::MAX ==> !encodes_req_at(
                    data@ + ext,
                    from as int,
                    rq,
                ),
        },
{
    let n = data.len();
    if from >= n {
        proof {
            assert forall|rq: RequestModel| !encodes_req_at(data@, from as int, rq) by {
                if encodes_req_at(data@, from as int, rq) {
                    lemma_req_at_parts(data@, from as int, rq);
                }
            }
        }
        return RequestParse::Incomplete;
    }
    let tag = data[from];
    if tag != 'G' && tag != 'S' && tag != 'R' {
        proof {
            assert forall|ext: Seq<char>, rq: RequestModel|
                data@.len() + ext.len() <= usize::MAX implies !encodes_req_at(
                data@ + ext,
                from as int,
                rq,
            ) by {
                if encodes_req_at(data@ + ext, from as int, rq) {
                    lemma_req_at_parts(data@ + ext, from as int, rq);
                    assert((data@ + ext)[from as int] == data@[from as int]);
                }
            }
        }
        return RequestParse::Malformed;
    }
    if from + 1 >= n {
        proof {
            assert forall|rq: RequestModel| !encodes_req_at(data@, from as int, rq) by {
                if encodes_req_at(data@, from as int, rq) {
                    lemma_req_at_parts(data@, from as int, rq);
                }
            }
        }
        return RequestParse::Incomplete;
    }
    if data[from + 1] != ' ' {
        proof {
            assert forall|ext: Seq<char>, rq: RequestModel|
                data@.len() + ext.len() <= usize::MAX implies !encodes_req_at(
                data@ + ext,
                from as int,
                rq,
            ) by {
                if encodes_req_at(data@ + ext, from as int, rq) {
                    lemma_req_runs(data@ + ext, from as int, rq);
                    assert((data@ + ext)[from as int + 1] == data@[from as int + 1]);
                }
            }
        }
        return RequestParse::Malformed;
    }
    let (klen, p1) = match parse_decimal_stream(data, from + 2) {
        NumParse::Incomplete => {
            proof {
                assert forall|rq: RequestModel| !encodes_req_at(data@, from as int, rq) by {
                    if encodes_req_at(data@, from as int, rq) {
                        lemma_req_runs(data@, from as int, rq);
                        let l1 = dec_rep(req_key(rq).len()).len() as int;
                        assert(is_digit(data@[from as int + 2 + l1]));
                    }
                }
            }
            return RequestParse::Incomplete;
        },
        NumParse::Malformed => {
            proof {
                assert forall|ext: Seq<char>, rq: RequestModel|
                    data@.len() + ext.len() <= usize::MAX implies !encodes_req_at(
                    data@ + ext,
                    from as int,
                    rq,
                ) by {
                    if encodes_req_at(data@ + ext, from as int, rq) {
                        lemma_req_runs(data@ + ext, from as int, rq);
                        assert(req_key(rq).len() > usize::MAX);
                    }
                }
            }
            return RequestParse::Malformed;
        },
        NumParse::Num { v, end } => (v, end),
    };
    proof {
        // in any extension, a request's key-length run is the one just read
        assert forall|ext: Seq<char>, rq: RequestModel|
            encodes_req_at(data@ + ext, from as int, rq) implies {
            &&& req_key(rq).len() == klen as nat
            &&& from as int + 2 + dec_rep(req_key(rq).len()).len() as int == p1 as int
            &&& (data@ + ext)[from as int] == data@[from as int]
        } by {
            lemma_req_runs(data@ + ext, from as int, rq);
            let l1 = dec_rep(req_key(rq).len()).len() as int;
            lemma_run_extend(data@, ext, from as int + 2, p1 as int);
            lemma_digit_run_unique(data@ + ext, from as int + 2, from as int + 2 + l1, p1 as int);
            assert((data@ + ext).subrange(from as int + 2, p1 as int) =~= data@.subrange(
                from as int + 2,
                p1 as int,
            ));
            lemma_dec_rep(req_key(rq).len());
        }
        assert forall|rq: RequestModel|
            encodes_req_at(data@, from as int, rq) implies {
            &&& req_key(rq).len() == klen as nat
            &&& from as int + 2 + dec_rep(req_key(rq).len()).len() as int == p1 as int
        } by {
            assert(data@ + Seq::<char>::empty() =~= data@);
            assert(encodes_req_at(data@ + Seq::<char>::empty(), from as int, rq));
        }
    }
    if tag == 'S' {
        if data[p1] != ' ' {
            proof {
                assert forall|ext: Seq<char>, rq: RequestModel|
                    data@.len() + ext.len() <= usize::MAX implies !encodes_req_at(
                    data@ + ext,
                    from as int,
                    rq,
                ) by {
                    if encodes_req_at(data@ + ext, from as int, rq) {
                        lemma_req_runs(data@ + ext, from as int, rq);
                        assert((data@ + ext)[p1 as int] == data@[p1 as int]);
                    }
                }
            }
            return RequestParse::Malformed;
        }
        let (vlen, p2) = match parse_decimal_stream(data, p1 + 1) {
            NumParse::Incomplete => {
                proof {
                    assert forall|rq: RequestModel| !encodes_req_at(data@, from as int, rq) by {
                        if encodes_req_at(data@, from as int, rq) {
                            lemma_req_runs(data@, from as int, rq);
                            let l2 = dec_rep(req_value(rq).len()).len() as int;
                            assert(is_digit(data@[p1 as int + 1 + l2]));
                        }
                    }
                }
                return RequestParse::Incomplete;
            },
            NumParse::Malformed => {
                proof {
                    assert forall|ext: Seq<char>, rq: RequestModel|
                        data@.len() + ext.len() <= usize::MAX implies !encodes_req_at(
                        data@ + ext,
                        from as int,
                        rq,
                    ) by {
                        if encodes_req_at(data@ + ext, from as int, rq) {
                            lemma_req_runs(data@ + ext, from as int, rq);
                            assert(req_value(rq).len() > usize::MAX);
                        }
                    }
                }
                return RequestParse::Malformed;
            },
            NumParse::Num { v, end } => (v, end),
        };
        proof {
            assert forall|ext: Seq<char>, rq: RequestModel|
                encodes_req_at(data@ + ext, from as int, rq) implies {
                &&& req_value(rq).len() == vlen as nat
                &&& p1 as int + 1 + dec_rep(req_value(rq).len()).len() as int == p2 as int
            } by {
                lemma_req_runs(data@ + ext, from as int, rq);
                let l2 = dec_rep(req_value(rq).len()).len() as int;
                lemma_run_extend(data@, ext, p1 as int + 1, p2 as int);
                lemma_digit_run_unique(data@ + ext, p1 as int + 1, p1 as int + 1 + l2, p2 as int);
                assert((data@ + ext).subrange(p1 as int + 1, p2 as int) =~= data@.subrange(
                    p1 as int + 1,
                    p2 as int,
                ));
                lemma_dec_rep(req_value(rq).len());
            }
            assert forall|rq: RequestModel|
                encodes_req_at(data@, from as int, rq) implies {
                &&& req_value(rq).len() == vlen as nat
                &&& p1 as int + 1 + dec_rep(req_value(rq).len()).len() as int == p2 as int
            } by {
                assert(data@ + Seq::<char>::empty() =~= data@);
                assert(encodes_req_at(data@ + Seq::<char>::empty(), from as int, rq));
            }
        }
        if data[p2] != '\n' {
            proof {
                assert forall|ext: Seq<char>, rq: RequestModel|
                    data@.len() + ext.len() <= usize::MAX implies !encodes_req_at(
                    data@ + ext,
                    from as int,
                    rq,
                ) by {
                    if encodes_req_at(data@ + ext, from as int, rq) {
                        lemma_req_runs(data@ + ext, from as int, rq);
                        assert((data@ + ext)[p2 as int] == data@[p2 as int]);
                    }
                }
            }
            return RequestParse::Malformed;
        }
        let body = p2 + 1;
        if klen > usize::MAX - body || vlen > usize::MAX - body - klen {
            proof {
                assert forall|ext: Seq<char>, rq: RequestModel|
                    data@.len() + ext.len() <= usize::MAX implies !encodes_req_at(
                    data@ + ext,
                    from as int,
                    rq,
                ) by {
                    if encodes_req_at(data@ + ext, from as int, rq) {
                        lemma_req_runs(data@ + ext, from as int, rq);
                        assert(from + spec_encode_request(rq).len() > usize::MAX);
                    }
                }
            }
            return RequestParse::Malformed;
        }
        if body + klen + vlen > n {
            proof {
                assert forall|rq: RequestModel| !encodes_req_at(data@, from as int, rq) by {
                    if encodes_req_at(data@, from as int, rq) {
                        lemma_req_runs(data@, from as int, rq);
                    }
                }
            }
            return RequestParse::Incomplete;
        }
        let key = chars_to_string(data, body, body + klen);
        let value = chars_to_string(data, body + klen, body + klen + vlen);
        let used = body + klen + vlen - from;
        let req = Request::Put { key, value };
        proof {
            let e = spec_encode_request(req@);
            let endp = from as int + used as int;
            lemma_subrange_concat(data@, from as int, from as int + 2, p1 as int);
            lemma_subrange_concat(data@, from as int, p1 as int, p1 as int + 1);
            lemma_subrange_concat(data@, from as int, p1 as int + 1, p2 as int);
            lemma_subrange_concat(data@, from as int, p2 as int, p2 as int + 1);
            lemma_subrange_concat(data@, from as int, p2 as int + 1, body + klen as int);
            lemma_subrange_concat(data@, from as int, body + klen as int, endp);
            assert(data@.subrange(from as int, from as int + 2) =~= seq!['S', ' ']);
            assert(data@.subrange(p1 as int, p1 as int + 1) =~= seq![' ']);
            assert(data@.subrange(p2 as int, p2 as int + 1) =~= seq!['\n']);
            assert(data@.subrange(from as int, endp) == seq!['S', ' '] + dec_rep(klen as nat)
                + seq![' '] + dec_rep(vlen as nat) + seq!['\n'] + key@ + value@);
            assert(data@.subrange(from as int, endp) == e);
        }
        RequestParse::Parsed { req, used }
    } else {
        if data[p1] != '\n' {
            proof {
                assert forall|ext: Seq<char>, rq: RequestModel|
                    data@.len() + ext.len() <= usize::MAX implies !encodes_req_at(
                    data@ + ext,
                    from as int,
                    rq,
                ) by {
                    if encodes_req_at(data@ + ext, from as int, rq) {
                        lemma_req_runs(data@ + ext, from as int, rq);
                        assert((data@ + ext)[p1 as int] == data@[p1 as int]);
                    }
                }
            }
            return RequestParse::Malformed;
        }
        let body = p1 + 1;
        if klen > usize::MAX - body {
            proof {
                assert forall|ext: Seq<char>, rq: RequestModel|
                    data@.len() + ext.len() <= usize::MAX implies !encodes_req_at(
                    data@ + ext,
                    from as int,
                    rq,
                ) by {
                    if encodes_req_at(data@ + ext, from as int, rq) {
                        lemma_req_runs(data@ + ext, from as int, rq);
                        assert(from + spec_encode_request(rq).len() > usize::MAX);
                    }
                }
            }
            return RequestParse::Malformed;
        }
        if body + klen > n {
            proof {
                assert forall|rq: RequestModel| !encodes_req_at(data@, from as int, rq) by {
                    if encodes_req_at(data@, from as int, rq) {
                        lemma_req_runs(data@, from as int, rq);
                    }
                }
            }
            return RequestParse::Incomplete;
        }
        let key = chars_to_string(data, body, body + klen);
        let used = body + klen - from;
        let req = if tag == 'G' {
            Request::Get { key }
        } else {
            Request::Remove { key }
        };
        proof {
            let e = spec_encode_request(req@);
            let endp = from as int + used as int;
            lemma_subrange_concat(data@, from as int, from as int + 2, p1 as int);
            lemma_subrange_concat(data@, from as int, p1 as int, p1 as int + 1);
            lemma_subrange_concat(data@, from as int, p1 as int + 1, endp);
            assert(data@.subrange(p1 as int, p1 as int + 1) =~= seq!['\n']);
            if tag == 'G' {
                assert(data@.subrange(from as int, from as int + 2) =~= seq!['G', ' ']);
                assert(data@.subrange(from as int, endp) == seq!['G', ' '] + dec_rep(klen as nat)
                    + seq!['\n'] + key@);
                assert(seq!['G', ' '] + dec_rep(klen as nat) + seq!['\n'] + key@ =~= e);
            } else {
                assert(data@.subrange(from as int, from as int + 2) =~= seq!['R', ' ']);
                assert(data@.subrange(from as int, endp) == seq!['R', ' '] + dec_rep(klen as nat)
                    + seq!['\n'] + key@);
            }
            assert(data@.subrange(from as int, endp) == e);
        }
        RequestParse::Parsed { req, used }
    }
}

/// Reads one reply starting at `from`: the client side of the protocol.
/// On failure no reply at all is encoded there.
pub fn decode_reply(data: &Vec<char>, from: usize) -> (r: Result<(Reply, usize), KvsError>)
    requires
        from <= data@.len(),
    ensures
        match r {
            Ok((rp, used)) => {
                &&& 1 <= used
                &&& from + used <= data@.len()
                &&& spec_encode_reply(rp@).len() == used as nat
                &&& encodes_reply_at(data@, from as int, rp@)
            },
            Err(e) => {
                &&& e == KvsError::Decode
                &&& forall|rp: ReplyModel| !encodes_reply_at(data@, from as int, rp)
            },
        },
{
    let n = data.len();
    if from >= n {
        proof {
            assert forall|rp: ReplyModel| !encodes_reply_at(data@, from as int, rp) by {
                if encodes_reply_at(data@, from as int, rp) {
                    lemma_reply_at_parts(data@, from as int, rp);
                }
            }
        }
        return Err(KvsError::Decode);
    }
    let tag = data[from];
    if tag == 'N' || tag == 'O' {
        if from + 1 >= n || data[from + 1] != '\n' {
            proof {
                assert forall|rp: ReplyModel| !encodes_reply_at(data@, from as int, rp) by {
                    if encodes_reply_at(data@, from as int, rp) {
                        lemma_reply_at_parts(data@, from as int, rp);
                    }
                }
            }
            return Err(KvsError::Decode);
        }
        let rp = if tag == 'N' {
            Reply::Missing
        } else {
            Reply::Done
        };
        proof {
            assert(data@.subrange(from as int, from as int + 2) =~= spec_encode_reply(rp@));
        }
        Ok((rp, 2))
    } else if tag == 'V' || tag == 'E' {
        match decode_payload(data, from + 1) {
            Ok((body, end)) => {
                let used = end - from;
                let rp = if tag == 'V' {
                    Reply::Value { value: body }
                } else {
                    Reply::Error { msg: body }
                };
                proof {
                    lemma_subrange_concat(data@, from as int, from as int + 1, end as int);
                    if tag == 'V' {
                        assert(data@.subrange(from as int, from as int + 1) =~= seq!['V']);
                        assert(seq!['V'] + (seq![' '] + dec_rep(rp@.arrow_Value_value().len())
                            + seq!['\n'] + rp@.arrow_Value_value()) =~= spec_encode_reply(rp@));
                    } else {
                        assert(data@.subrange(from as int, from as int + 1) =~= seq!['E']);
                        assert(seq!['E'] + (seq![' '] + dec_rep(rp@.arrow_Error_msg().len())
                            + seq!['\n'] + rp@.arrow_Error_msg()) =~= spec_encode_reply(rp@));
                    }
                }
                Ok((rp, used))
            },
            Err(e) => {
                proof {
                    assert forall|rp: ReplyModel| !encodes_reply_at(
                        data@,
                        from as int,
                        rp,
                    ) by {
                        if encodes_reply_at(data@, from as int, rp) {
                            lemma_reply_at_parts(data@, from as int, rp);
                        }
                    }
                }
                Err(e)
            },
        }
    } else {
        proof {
            assert forall|rp: ReplyModel| !encodes_reply_at(data@, from as int, rp) by {
                if encodes_reply_at(data@, from as int, rp) {
                    lemma_reply_at_parts(data@, from as int, rp);
                }
            }
        }
        Err(KvsError::Decode)
    }
}


/// What one request does: the engine map before and after, and the reply the
/// client sees. A failed `remove` of an absent key reports "Key not found".
pub open spec fn request_effect(
    m0: Map<Seq<char>, Seq<char>>,
    rq: RequestModel,
    m1: Map<Seq<char>, Seq<char>>,
    rp: ReplyModel,
) -> bool {
    match rq {
        RequestModel::Get { key } => m1 == m0 && (match rp {
            ReplyModel::Value { value } => m0.contains_key(key) && value == m0[key],
            ReplyModel::Missing => !m0.contains_key(key),
            _ => false,
        }),
        RequestModel::Put { key, value } => (match rp {
            ReplyModel::Done => m1 == m0.insert(key, value),
            ReplyModel::Error { .. } => m1 == m0,
            _ => false,
        }),
        RequestModel::Remove { key } => (match rp {
            ReplyModel::Done => m0.contains_key(key) && m1 == m0.remove(key),
            ReplyModel::Error { msg } => m1 == m0 && (!m0.contains_key(key) ==> msg
                == "Key not found"@),
            _ => false,
        }),
    }
}

/// How serving one request from a connection's buffer ended.
pub enum ServeOutcome {
    /// One request was decoded, acted on, and answered.
    Served { used: usize },
    /// The buffer ends inside a request; read more and try again.
    Incomplete,
    /// The stream is corrupt beyond repair: an error reply was appended,
    /// and the connection should close once it is sent.
    Malformed,
}

/// Serves the request starting at `from`: decodes it, lets the engine act,
/// and appends the encoded reply. A buffer that merely ends too soon leaves
/// everything untouched; a corrupt one gets a string-encoded error reply and
/// the connection ends.
pub fn serve_request<E: KvsEngine>(
    engine: &mut E,
    data: &Vec<char>,
    from: usize,
    out: &mut Vec<char>,
) -> (r: ServeOutcome)
    requires
        old(engine).inv(),
        from <= data@.len(),
    ensures
        final(engine).inv(),
        match r {
            ServeOutcome::Served { used } => {
                &&& 1 <= used
                &&& from + used <= data@.len()
                &&& exists|rq: RequestModel, rp: ReplyModel|
                    {
                        &&& data@.subrange(from as int, from as int + used as int)
                            == #[trigger] spec_encode_request(rq)
                        &&& final(out)@ == old(out)@ + #[trigger] spec_encode_reply(rp)
                        &&& request_effect(old(engine)@, rq, final(engine)@, rp)
                    }
            },
            ServeOutcome::Incomplete => {
                &&& final(engine)@ == old(engine)@
                &&& final(out)@ == old(out)@
                &&& forall|rq: RequestModel| !encodes_req_at(data@, from as int, rq)
            },
            ServeOutcome::Malformed => {
                &&& final(engine)@ == old(engine)@
                &&& final(out)@ == old(out)@ + spec_encode_reply(
                    (ReplyModel::Error { msg: "Decode error"@ }),
                )
                &&& forall|ext: Seq<char>, rq: RequestModel|
                    data@.len() + ext.len() <= usize::MAX ==> !encodes_req_at(
                        data@ + ext,
                        from as int,
                        rq,
                    )
            },
        },
        (exists|rq: RequestModel| #[trigger] encodes_req_at(data@, from as int, rq)) ==> r
            is Served,
{
    let n = data.len();
    let (rq, used) = match read_request(data, from) {
        RequestParse::Parsed { req, used } => (req, used),
        RequestParse::Incomplete => {
            return ServeOutcome::Incomplete;
        },
        RequestParse::Malformed => {
            let reply = Reply::Error { msg: KvsError::Decode.message() };
            encode_reply(&reply, out);
            proof {
                assert forall|rq: RequestModel| !encodes_req_at(data@, from as int, rq) by {
                    assert(data@ + Seq::<char>::empty() =~= data@);
                    assert(data@.len() + Seq::<char>::empty().len() <= usize::MAX);
                    assert(!encodes_req_at(data@ + Seq::<char>::empty(), from as int, rq));
                }
            }
            return ServeOutcome::Malformed;
        },
    };
    let ghost rqm = rq@;
    let ghost m0 = engine@;
    let reply: Reply;
    match rq {
        Request::Get { key } => {
            match engine.get(key) {
                Ok(Some(v)) => {
                    reply = Reply::Value { value: v };
                },
                Ok(None) => {
                    reply = Reply::Missing;
                },
                Err(e) => {
                    proof {
                        assert(false);
                    }
                    reply = Reply::Error { msg: e.message() };
                },
            }
        },
        Request::Put { key, value } => {
            match engine.set(key, value) {
                Ok(()) => {
                    reply = Reply::Done;
                },
                Err(e) => {
                    reply = Reply::Error { msg: e.message() };
                },
            }
        },
        Request::Remove { key } => {
            match engine.remove(key) {
                Ok(()) => {
                    reply = Reply::Done;
                },
                Err(e) => {
                    proof {
                        reveal_strlit("Key not found");
                    }
                    reply = Reply::Error { msg: e.message() };
                },
            }
        },
    }
    encode_reply(&reply, out);
    proof {
        assert(request_effect(m0, rqm, engine@, reply@));
        assert(data@.subrange(from as int, from as int + used as int) == spec_encode_request(
            rqm,
        ));
        assert(final(out)@ == old(out)@ + spec_encode_reply(reply@));
    }
    ServeOutcome::Served { used }
}

/// The request/response server: an engine behind a listener the host runs.
/// The host hands each connection's characters to [`serve_request`] through
/// this server's engine, one request at a time.
pub struct KvsServer<E: KvsEngine> {
    /// The storage backend serving the requests.
    pub engine: E,
}

impl<E: KvsEngine> KvsServer<E> {
    /// Builds a server around the given engine.
    pub fn new(engine: E) -> (r: KvsServer<E>)
        ensures
            r.engine == engine,
    {
        KvsServer { engine }
    }

    /// Serves one request from a connection's character stream: decodes it,
    /// invokes the engine, appends the encoded reply. See [`serve_request`].
    pub fn serve(&mut self, data: &Vec<char>, from: usize, out: &mut Vec<char>) -> (r:
        ServeOutcome)
        requires
            old(self).engine.inv(),
            from <= data@.len(),
        ensures
            final(self).engine.inv(),
            match r {
                ServeOutcome::Served { used } => {
                    &&& 1 <= used
                    &&& from + used <= data@.len()
                    &&& exists|rq: RequestModel, rp: ReplyModel|
                        {
                            &&& data@.subrange(from as int, from as int + used as int)
                                == #[trigger] spec_encode_request(rq)
                            &&& final(out)@ == old(out)@ + #[trigger] spec_encode_reply(rp)
                            &&& request_effect(
                                old(self).engine@,
                                rq,
                                final(self).engine@,
                                rp,
                            )
                        }
                },
                ServeOutcome::Incomplete => {
                    &&& final(self).engine@ == old(self).engine@
                    &&& final(out)@ == old(out)@
                    &&& forall|rq: RequestModel| !encodes_req_at(data@, from as int, rq)
                },
                ServeOutcome::Malformed => {
                    &&& final(self).engine@ == old(self).engine@
                    &&& final(out)@ == old(out)@ + spec_encode_reply(
                        (ReplyModel::Error { msg: "Decode error"@ }),
                    )
                    &&& forall|ext: Seq<char>, rq: RequestModel|
                        data@.len() + ext.len() <= usize::MAX ==> !encodes_req_at(
                            data@ + ext,
                            from as int,
                            rq,
                        )
                },
            },
            (exists|rq: RequestModel| #[trigger] encodes_req_at(data@, from as int, rq)) ==> r
                is Served,
    {
        serve_request(&mut self.engine, data, from, out)
    }
}

} // verus!
