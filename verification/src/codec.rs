//! The self-delimiting textual encoding of command records.
//!
//! A record is a header naming the variant and the key/value lengths in
//! decimal, a newline, then the key and value characters themselves:
//!
//! ```text
//! S <key-len> <value-len>\n<key><value>
//! R <key-len>\n<key>
//! ```
//!
//! The decimal lengths carry no leading zeros, so every record has exactly
//! one reading: the encoding is canonical, and records can be concatenated
//! without separators and decoded back one by one.

use vstd::prelude::*;
use vstd::string::StrSliceExecFns;
use crate::error::KvsError;

verus! {

/// The abstract form of a command record.
pub enum CommandModel {
    Put { key: Seq<char>, value: Seq<char> },
    Remove { key: Seq<char> },
}

/// A command record, as appended to a log file.
#[derive(Clone, Debug)]
pub enum Command {
    /// Bind `key` to `value`.
    Put { key: String, value: String },
    /// Unbind `key`.
    Remove { key: String },
}

impl View for Command {
    type V = CommandModel;

    open spec fn view(&self) -> CommandModel {
        match self {
            Command::Put { key, value } => CommandModel::Put { key: key@, value: value@ },
            Command::Remove { key } => CommandModel::Remove { key: key@ },
        }
    }
}

// ---------------------------------------------------------------------------
// Decimal digits
// ---------------------------------------------------------------------------

/// Is `c` one of the ten decimal digit characters?
pub open spec fn is_digit(c: char) -> bool {
    c == '0' || c == '1' || c == '2' || c == '3' || c == '4' || c == '5' || c == '6' || c == '7'
        || c == '8' || c == '9'
}

/// The numeric value of a digit character.
pub open spec fn digit_val(c: char) -> nat {
    if c == '0' { 0 } else if c == '1' { 1 } else if c == '2' { 2 } else if c == '3' { 3 }
    else if c == '4' { 4 } else if c == '5' { 5 } else if c == '6' { 6 } else if c == '7' { 7 }
    else if c == '8' { 8 } else { 9 }
}

/// The digit character for a value below ten.
pub open spec fn digit_char(d: nat) -> char {
    if d == 0 { '0' } else if d == 1 { '1' } else if d == 2 { '2' } else if d == 3 { '3' }
    else if d == 4 { '4' } else if d == 5 { '5' } else if d == 6 { '6' } else if d == 7 { '7' }
    else if d == 8 { '8' } else { '9' }
}

/// The canonical decimal representation of `n`: most significant digit first,
/// no leading zeros.
pub open spec fn dec_rep(n: nat) -> Seq<char>
    decreases n,
{
    if n < 10 {
        seq![digit_char(n)]
    } else {
        dec_rep((n / 10) as nat).push(digit_char((n % 10) as nat))
    }
}

/// The numeric value of a digit string, most significant digit first.
pub open spec fn dec_val(s: Seq<char>) -> nat
    decreases s.len(),
{
    if s.len() == 0 {
        0
    } else {
        dec_val(s.drop_last()) * 10 + digit_val(s.last())
    }
}

/// A digit string is canonical when it is nonempty, all digits, and carries
/// no leading zero (the single digit `0` excepted).
pub open spec fn canonical_digits(s: Seq<char>) -> bool {
    &&& s.len() >= 1
    &&& (forall|i: int| 0 <= i < s.len() ==> is_digit(#[trigger] s[i]))
    &&& (s[0] == '0' ==> s.len() == 1)
}

proof fn lemma_digit_char_val(d: nat)
    requires
        d < 10,
    ensures
        is_digit(digit_char(d)),
        digit_val(digit_char(d)) == d,
{
}

proof fn lemma_digit_val_char(c: char)
    requires
        is_digit(c),
    ensures
        digit_val(c) < 10,
        digit_char(digit_val(c)) == c,
{
}

/// The canonical representation really is canonical, and reads back as `n`.
pub proof fn lemma_dec_rep(n: nat)
    ensures
        canonical_digits(dec_rep(n)),
        dec_val(dec_rep(n)) == n,
    decreases n,
{
    if n < 10 {
        lemma_digit_char_val(n);
        assert(dec_rep(n) == seq![digit_char(n)]);
        assert(dec_val(dec_rep(n)) == dec_val(seq![digit_char(n)]));
        assert(seq![digit_char(n)].drop_last() =~= Seq::<char>::empty());
        assert(dec_val(Seq::<char>::empty()) == 0);
        assert(dec_val(seq![digit_char(n)]) == digit_val(digit_char(n)));
    } else {
        lemma_dec_rep((n / 10) as nat);
        lemma_digit_char_val((n % 10) as nat);
        let s = dec_rep((n / 10) as nat);
        let w = s.push(digit_char((n % 10) as nat));
        assert(w.drop_last() =~= s);
        assert(w.last() == digit_char((n % 10) as nat));
        assert(dec_val(w) == dec_val(s) * 10 + digit_val(digit_char((n % 10) as nat)));
        assert(dec_val(w) == (n / 10) * 10 + (n % 10));
        assert((n / 10) * 10 + (n % 10) == n) by (nonlinear_arith);
        // canonical: the first digit is the first digit of dec_rep(n / 10)
        assert(w[0] == s[0]);
        if w[0] == '0' {
            assert(s.len() == 1);
            assert(s[0] == digit_char(((n / 10) as nat) % 10) || true);
            assert(dec_val(s) == n / 10);
            assert(digit_val('0') == 0);
            assert(dec_val(s) == digit_val(s[0])) by {
                assert(s.drop_last() =~= Seq::<char>::empty());
                assert(dec_val(Seq::<char>::empty()) == 0);
                assert(s.last() == s[0]);
            }
            assert(n / 10 == 0);
            assert(false);
        }
        assert(forall|i: int| 0 <= i < w.len() ==> is_digit(#[trigger] w[i]));
    }
}

/// A nonempty digit string without a leading zero names a positive number;
/// with two or more digits, at least ten.
proof fn lemma_dec_val_pos(s: Seq<char>)
    requires
        canonical_digits(s),
        s[0] != '0',
    ensures
        dec_val(s) >= 1,
        s.len() >= 2 ==> dec_val(s) >= 10,
    decreases s.len(),
{
    if s.len() == 1 {
        assert(s.drop_last() =~= Seq::<char>::empty());
        assert(dec_val(Seq::<char>::empty()) == 0);
        assert(s.last() == s[0]);
        assert(dec_val(s) == digit_val(s[0]));
    } else {
        let b = s.drop_last();
        assert(b[0] == s[0]);
        assert(forall|i: int| 0 <= i < b.len() ==> b[i] == s[i]);
        lemma_dec_val_pos(b);
        assert(dec_val(s) == dec_val(b) * 10 + digit_val(s.last()));
        assert(dec_val(b) * 10 >= 10) by (nonlinear_arith)
            requires dec_val(b) >= 1;
    }
}

/// Every canonical digit string is the canonical representation of its value.
pub proof fn lemma_dec_canonical(s: Seq<char>)
    requires
        canonical_digits(s),
    ensures
        s == dec_rep(dec_val(s)),
    decreases s.len(),
{
    if s.len() == 1 {
        assert(s.drop_last() =~= Seq::<char>::empty());
        assert(dec_val(Seq::<char>::empty()) == 0);
        assert(s.last() == s[0]);
        assert(dec_val(s) == digit_val(s[0]));
        lemma_digit_val_char(s[0]);
        assert(dec_rep(dec_val(s)) =~= seq![digit_char(digit_val(s[0]))]);
        assert(s =~= seq![s[0]]);
    } else {
        let b = s.drop_last();
        assert(b[0] == s[0]);
        assert(forall|i: int| 0 <= i < b.len() ==> b[i] == s[i]);
        assert(s[0] != '0');
        lemma_dec_val_pos(b);
        lemma_dec_canonical(b);
        lemma_digit_val_char(s.last());
        let n = dec_val(s);
        assert(n == dec_val(b) * 10 + digit_val(s.last()));
        assert(n >= 10) by (nonlinear_arith)
            requires dec_val(b) >= 1, n == dec_val(b) * 10 + digit_val(s.last());
        assert(n / 10 == dec_val(b) && n % 10 == digit_val(s.last())) by (nonlinear_arith)
            requires n == dec_val(b) * 10 + digit_val(s.last()), digit_val(s.last()) < 10;
        assert(dec_rep(n) == dec_rep(dec_val(b)).push(digit_char((n % 10) as nat)));
        assert(dec_rep(n) =~= b.push(s.last()));
        assert(s =~= b.push(s.last()));
    }
}

// ---------------------------------------------------------------------------
// Record encoding
// ---------------------------------------------------------------------------

/// The characters of one encoded record.
pub open spec fn spec_encode(cm: CommandModel) -> Seq<char> {
    match cm {
        CommandModel::Put { key, value } => seq!['S', ' '] + dec_rep(key.len()) + seq![' ']
            + dec_rep(value.len()) + seq!['\n'] + key + value,
        CommandModel::Remove { key } => seq!['R', ' '] + dec_rep(key.len()) + seq!['\n'] + key,
    }
}

/// `cm`'s encoding occupies `d` starting at position `p`.
pub open spec fn encodes_at(d: Seq<char>, p: int, cm: CommandModel) -> bool {
    &&& 0 <= p
    &&& p + spec_encode(cm).len() <= d.len()
    &&& d.subrange(p, p + spec_encode(cm).len() as int) == spec_encode(cm)
}

fn digit_to_char(d: usize) -> (c: char)
    requires
        d < 10,
    ensures
        c == digit_char(d as nat),
{
    match d {
        0 => '0',
        1 => '1',
        2 => '2',
        3 => '3',
        4 => '4',
        5 => '5',
        6 => '6',
        7 => '7',
        8 => '8',
        _ => '9',
    }
}

/// Appends the canonical decimal representation of `n`.
pub(crate) fn push_decimal(out: &mut Vec<char>, n: usize)
    ensures
        final(out)@ == old(out)@ + dec_rep(n as nat),
    decreases n,
{
    if n < 10 {
        out.push(digit_to_char(n));
        assert(out@ =~= old(out)@ + dec_rep(n as nat));
    } else {
        push_decimal(out, n / 10);
        out.push(digit_to_char(n % 10));
        assert(out@ =~= old(out)@ + dec_rep(n as nat));
    }
}

/// Appends every character of `s`.
pub(crate) fn push_str_chars(out: &mut Vec<char>, s: &str)
    ensures
        final(out)@ == old(out)@ + s@,
{
    let n = s.unicode_len();
    let mut i: usize = 0;
    while i < n
        invariant
            i <= n,
            n == s@.len(),
            out@ == old(out)@ + s@.subrange(0, i as int),
        decreases n - i,
    {
        out.push(s.get_char(i));
        assert(out@ =~= old(out)@ + s@.subrange(0, i as int + 1));
        i = i + 1;
    }
    assert(s@.subrange(0, n as int) =~= s@);
}

/// Appends the encoding of `c` to `out`.
pub fn encode_command(c: &Command, out: &mut Vec<char>)
    ensures
        final(out)@ == old(out)@ + spec_encode(c@),
{
    match c {
        Command::Put { key, value } => {
            out.push('S');
            out.push(' ');
            push_decimal(out, key.as_str().unicode_len());
            out.push(' ');
            push_decimal(out, value.as_str().unicode_len());
            out.push('\n');
            push_str_chars(out, key.as_str());
            push_str_chars(out, value.as_str());
            assert(out@ =~= old(out)@ + spec_encode(c@));
        }
        Command::Remove { key } => {
            out.push('R');
            out.push(' ');
            push_decimal(out, key.as_str().unicode_len());
            out.push('\n');
            push_str_chars(out, key.as_str());
            assert(out@ =~= old(out)@ + spec_encode(c@));
        }
    }
}


// ---------------------------------------------------------------------------
// Record structure within a longer text
// ---------------------------------------------------------------------------

/// The key named by a command.
pub open spec fn cmd_key(cm: CommandModel) -> Seq<char> {
    match cm {
        CommandModel::Put { key, .. } => key,
        CommandModel::Remove { key } => key,
    }
}

/// The value bound by a `Put`; empty for a `Remove`.
pub open spec fn cmd_value(cm: CommandModel) -> Seq<char> {
    match cm {
        CommandModel::Put { value, .. } => value,
        CommandModel::Remove { .. } => Seq::empty(),
    }
}

/// The header length of a record: tag, space, lengths and newline.
pub open spec fn header_len(cm: CommandModel) -> int {
    if cm is Put {
        2 + dec_rep(cmd_key(cm).len()).len() as int + 1 + dec_rep(cmd_value(cm).len()).len() as int + 1
    } else {
        2 + dec_rep(cmd_key(cm).len()).len() as int + 1
    }
}

/// A maximal digit run: the characters from `p` to `e` are a canonical
/// number and the run is ended by the text itself or a non-digit.
pub open spec fn digit_run_at(d: Seq<char>, p: int, e: int) -> bool {
    &&& 0 <= p < e <= d.len()
    &&& canonical_digits(d.subrange(p, e))
    &&& (e < d.len() ==> !is_digit(d[e]))
}

pub(crate) proof fn lemma_digit_run_unique(d: Seq<char>, p: int, e1: int, e2: int)
    requires
        digit_run_at(d, p, e1),
        digit_run_at(d, p, e2),
    ensures
        e1 == e2,
{
    if e1 < e2 {
        assert(is_digit(d.subrange(p, e2)[e1 - p]));
        assert(d.subrange(p, e2)[e1 - p] == d[e1]);
    }
    if e2 < e1 {
        assert(is_digit(d.subrange(p, e1)[e2 - p]));
        assert(d.subrange(p, e1)[e2 - p] == d[e2]);
    }
}

pub(crate) proof fn lemma_dec_val_prefix_mono(s: Seq<char>, k: int)
    requires
        0 <= k <= s.len(),
    ensures
        dec_val(s) >= dec_val(s.subrange(0, k)),
    decreases s.len() - k,
{
    if k == s.len() {
        assert(s.subrange(0, k) =~= s);
    } else {
        lemma_dec_val_prefix_mono(s, k + 1);
        let a = s.subrange(0, k);
        let b = s.subrange(0, k + 1);
        assert(b.drop_last() =~= a);
        assert(b.last() == s[k]);
        assert(dec_val(b) == dec_val(a) * 10 + digit_val(s[k]));
        assert(dec_val(a) * 10 >= dec_val(a)) by (nonlinear_arith);
    }
}

pub(crate) proof fn lemma_subrange_concat(d: Seq<char>, a: int, b: int, c: int)
    requires
        0 <= a <= b <= c <= d.len(),
    ensures
        d.subrange(a, c) == d.subrange(a, b) + d.subrange(b, c),
{
    assert(d.subrange(a, c) =~= d.subrange(a, b) + d.subrange(b, c));
}

pub(crate) proof fn lemma_sub_transfer(d: Seq<char>, p: int, e: Seq<char>, a: int, b: int)
    requires
        0 <= p,
        p + e.len() <= d.len(),
        d.subrange(p, p + e.len() as int) == e,
        0 <= a <= b <= e.len(),
    ensures
        d.subrange(p + a, p + b) == e.subrange(a, b),
{
    assert(d.subrange(p + a, p + b) =~= e.subrange(a, b)) by {
        assert forall|i: int| 0 <= i < b - a implies d.subrange(p + a, p + b)[i] == e.subrange(
            a,
            b,
        )[i] by {
            assert(e[a + i] == d.subrange(p, p + e.len() as int)[a + i]);
        }
    }
}

proof fn lemma_encode_put(key: Seq<char>, value: Seq<char>)
    ensures
        ({
            let cm = (CommandModel::Put { key, value });
            let e = spec_encode(cm);
            let l1 = dec_rep(key.len()).len() as int;
            let l2 = dec_rep(value.len()).len() as int;
            let h = header_len(cm);
            &&& e.len() == h + key.len() + value.len()
            &&& e[0] == 'S'
            &&& e[1] == ' '
            &&& e.subrange(2, 2 + l1) == dec_rep(key.len())
            &&& e[2 + l1] == ' '
            &&& e.subrange(3 + l1, 3 + l1 + l2) == dec_rep(value.len())
            &&& e[3 + l1 + l2] == '\n'
            &&& e.subrange(h, h + key.len()) == key
            &&& e.subrange(h + key.len(), e.len() as int) == value
        }),
{
    let cm = (CommandModel::Put { key, value });
    let e = spec_encode(cm);
    let b1 = dec_rep(key.len());
    let b2 = dec_rep(value.len());
    let l1 = b1.len() as int;
    let l2 = b2.len() as int;
    let h = header_len(cm);
    lemma_dec_rep(key.len());
    lemma_dec_rep(value.len());
    assert(e == seq!['S', ' '] + b1 + seq![' '] + b2 + seq!['\n'] + key + value);
    assert(e.subrange(2, 2 + l1) =~= b1);
    assert(e.subrange(3 + l1, 3 + l1 + l2) =~= b2);
    assert(e.subrange(h, h + key.len()) =~= key);
    assert(e.subrange(h + key.len(), e.len() as int) =~= value);
}

proof fn lemma_encode_remove(key: Seq<char>)
    ensures
        ({
            let cm = (CommandModel::Remove { key });
            let e = spec_encode(cm);
            let l1 = dec_rep(key.len()).len() as int;
            let h = header_len(cm);
            &&& e.len() == h + key.len()
            &&& e[0] == 'R'
            &&& e[1] == ' '
            &&& e.subrange(2, 2 + l1) == dec_rep(key.len())
            &&& e[2 + l1] == '\n'
            &&& e.subrange(h, h + key.len()) == key
        }),
{
    let cm = (CommandModel::Remove { key });
    let e = spec_encode(cm);
    let b1 = dec_rep(key.len());
    let l1 = b1.len() as int;
    let h = header_len(cm);
    lemma_dec_rep(key.len());
    assert(e == seq!['R', ' '] + b1 + seq!['\n'] + key);
    assert(e.subrange(2, 2 + l1) =~= b1);
    assert(e.subrange(h, h + key.len()) =~= key);
}

/// Where each part of an encoded record sits inside the surrounding text.
pub(crate) proof fn lemma_encodes_at_parts(d: Seq<char>, p: int, cm: CommandModel)
    requires
        encodes_at(d, p, cm),
    ensures
        ({
            let kl = cmd_key(cm).len() as int;
            let vl = cmd_value(cm).len() as int;
            let l1 = dec_rep(cmd_key(cm).len()).len() as int;
            let l2 = dec_rep(cmd_value(cm).len()).len() as int;
            let h = header_len(cm);
            &&& d[p] == (if cm is Put { 'S' } else { 'R' })
            &&& d[p + 1] == ' '
            &&& digit_run_at(d, p + 2, p + 2 + l1)
            &&& dec_val(d.subrange(p + 2, p + 2 + l1)) == cmd_key(cm).len()
            &&& d[p + 2 + l1] == (if cm is Put { ' ' } else { '\n' })
            &&& (cm is Put ==> {
                &&& digit_run_at(d, p + 3 + l1, p + 3 + l1 + l2)
                &&& dec_val(d.subrange(p + 3 + l1, p + 3 + l1 + l2)) == cmd_value(cm).len()
                &&& d[p + 3 + l1 + l2] == '\n'
            })
            &&& d.subrange(p + h, p + h + kl) == cmd_key(cm)
            &&& (cm is Put ==> d.subrange(p + h + kl, p + h + kl + vl) == cmd_value(cm))
            &&& p + spec_encode(cm).len() == p + h + kl + (if cm is Put { vl } else { 0 })
        }),
{
    let e = spec_encode(cm);
    let kl = cmd_key(cm).len() as int;
    let vl = cmd_value(cm).len() as int;
    let l1 = dec_rep(cmd_key(cm).len()).len() as int;
    let l2 = dec_rep(cmd_value(cm).len()).len() as int;
    let h = header_len(cm);
    lemma_dec_rep(cmd_key(cm).len());
    lemma_dec_rep(cmd_value(cm).len());
    match cm {
        CommandModel::Put { key, value } => {
            lemma_encode_put(key, value);
        }
        CommandModel::Remove { key } => {
            lemma_encode_remove(key);
        }
    }
    assert(d[p] == e[0]) by {
        assert(d.subrange(p, p + e.len() as int)[0] == d[p]);
    }
    assert(d[p + 1] == e[1]) by {
        assert(d.subrange(p, p + e.len() as int)[1] == d[p + 1]);
    }
    lemma_sub_transfer(d, p, e, 2, 2 + l1);
    assert(d[p + 2 + l1] == e[2 + l1]) by {
        assert(d.subrange(p, p + e.len() as int)[2 + l1] == d[p + 2 + l1]);
    }
    assert(!is_digit(d[p + 2 + l1]));
    assert(digit_run_at(d, p + 2, p + 2 + l1));
    if cm is Put {
        lemma_sub_transfer(d, p, e, 3 + l1, 3 + l1 + l2);
        assert(d[p + 3 + l1 + l2] == e[3 + l1 + l2]) by {
            assert(d.subrange(p, p + e.len() as int)[3 + l1 + l2] == d[p + 3 + l1 + l2]);
        }
        assert(!is_digit(d[p + 3 + l1 + l2]));
        assert(digit_run_at(d, p + 3 + l1, p + 3 + l1 + l2));
        lemma_sub_transfer(d, p, e, h + kl, h + kl + vl);
    }
    lemma_sub_transfer(d, p, e, h, h + kl);
}

/// At most one command can be read at a given position: the encoding is
/// prefix-free, so concatenated records decode unambiguously.
pub proof fn lemma_encodes_at_unique(d: Seq<char>, p: int, cm1: CommandModel, cm2: CommandModel)
    requires
        encodes_at(d, p, cm1),
        encodes_at(d, p, cm2),
    ensures
        cm1 == cm2,
{
    lemma_encodes_at_parts(d, p, cm1);
    lemma_encodes_at_parts(d, p, cm2);
    let l1a = dec_rep(cmd_key(cm1).len()).len() as int;
    let l1b = dec_rep(cmd_key(cm2).len()).len() as int;
    assert(cm1 is Put <==> cm2 is Put);
    lemma_digit_run_unique(d, p + 2, p + 2 + l1a, p + 2 + l1b);
    assert(cmd_key(cm1).len() == cmd_key(cm2).len());
    if cm1 is Put {
        let l2a = dec_rep(cmd_value(cm1).len()).len() as int;
        let l2b = dec_rep(cmd_value(cm2).len()).len() as int;
        lemma_digit_run_unique(d, p + 3 + l1a, p + 3 + l1a + l2a, p + 3 + l1a + l2b);
        assert(cmd_value(cm1).len() == cmd_value(cm2).len());
    }
    assert(cmd_key(cm1) == cmd_key(cm2));
    if cm1 is Put {
        assert(cmd_value(cm1) == cmd_value(cm2));
    }
    match cm1 {
        CommandModel::Put { key, value } => {
            assert(cm2 == (CommandModel::Put { key, value }));
        }
        CommandModel::Remove { key } => {
            assert(cm2 == (CommandModel::Remove { key }));
        }
    }
}

/// Extending the text to the right does not disturb a record already present.
pub proof fn lemma_encodes_at_extend(d: Seq<char>, t: Seq<char>, p: int, cm: CommandModel)
    requires
        encodes_at(d, p, cm),
    ensures
        encodes_at(d + t, p, cm),
{
    let e = spec_encode(cm);
    assert((d + t).subrange(p, p + e.len() as int) =~= d.subrange(p, p + e.len() as int));
}


// ---------------------------------------------------------------------------
// Decoding
// ---------------------------------------------------------------------------

pub(crate) fn char_digit(c: char) -> (r: Option<usize>)
    ensures
        match r {
            Some(d) => is_digit(c) && d < 10 && d as nat == digit_val(c),
            None => !is_digit(c),
        },
{
    match c {
        '0' => Some(0),
        '1' => Some(1),
        '2' => Some(2),
        '3' => Some(3),
        '4' => Some(4),
        '5' => Some(5),
        '6' => Some(6),
        '7' => Some(7),
        '8' => Some(8),
        '9' => Some(9),
        _ => None,
    }
}

/// Reads the maximal digit run starting at `from`. On success the run is
/// canonical and its value fits a `usize`; on failure no such run exists.
pub(crate) fn parse_decimal(data: &Vec<char>, from: usize) -> (r: Result<(usize, usize), KvsError>)
    requires
        from <= data@.len(),
    ensures
        match r {
            Ok((v, end)) => {
                &&& from < end <= data@.len()
                &&& digit_run_at(data@, from as int, end as int)
                &&& dec_val(data@.subrange(from as int, end as int)) == v as nat
                &&& data@.subrange(from as int, end as int) == dec_rep(v as nat)
            },
            Err(e) => {
                &&& e == KvsError::Decode
                &&& forall|end: int|
                    digit_run_at(data@, from as int, end) ==> dec_val(
                        data@.subrange(from as int, end),
                    ) > usize::MAX
            },
        },
{
    let n = data.len();
    if from >= n {
        return Err(KvsError::Decode);
    }
    let d0 = match char_digit(data[from]) {
        Some(d) => d,
        None => {
            proof {
                assert forall|end: int| !digit_run_at(data@, from as int, end) by {
                    if digit_run_at(data@, from as int, end) {
                        assert(is_digit(data@.subrange(from as int, end)[0]));
                    }
                }
            }
            return Err(KvsError::Decode);
        },
    };
    if d0 == 0 {
        // a leading zero stands alone
        if from + 1 < n && char_digit(data[from + 1]).is_some() {
            proof {
                assert forall|end: int| !digit_run_at(data@, from as int, end) by {
                    if digit_run_at(data@, from as int, end) {
                        let run = data@.subrange(from as int, end);
                        assert(run[0] == data@[from as int]);
                        assert(digit_val(data@[from as int]) == 0);
                        assert(run[0] == '0');
                        assert(end == from + 1);
                        assert(is_digit(data@[end]));
                    }
                }
            }
            return Err(KvsError::Decode);
        }
    }
    let mut val: usize = d0;
    let mut end: usize = from + 1;
    proof {
        assert(data@.subrange(from as int, end as int) =~= seq![data@[from as int]]);
        assert(seq![data@[from as int]].drop_last() =~= Seq::<char>::empty());
        assert(dec_val(Seq::<char>::empty()) == 0);
        assert(dec_val(data@.subrange(from as int, end as int)) == digit_val(
            data@[from as int],
        ));
    }
    loop
        invariant
            from < end <= n,
            n == data@.len(),
            d0 < 10,
            d0 as nat == digit_val(data@[from as int]),
            is_digit(data@[from as int]),
            d0 == 0 ==> !(from + 1 < n && is_digit(data@[from as int + 1])),
            canonical_digits(data@.subrange(from as int, end as int)),
            dec_val(data@.subrange(from as int, end as int)) == val as nat,
        ensures
            from < end <= n,
            canonical_digits(data@.subrange(from as int, end as int)),
            dec_val(data@.subrange(from as int, end as int)) == val as nat,
            end == n || !is_digit(data@[end as int]),
        decreases n - end,
    {
        if end >= n {
            break;
        }
        let d = match char_digit(data[end]) {
            Some(d) => d,
            None => { break; },
        };
        // the run continues: accept the digit or report overflow
        if val > (usize::MAX - d) / 10 {
            proof {
                let pre = data@.subrange(from as int, end as int + 1);
                assert(pre.drop_last() =~= data@.subrange(from as int, end as int));
                assert(pre.last() == data@[end as int]);
                assert(dec_val(pre) == (val as nat) * 10 + (d as nat));
                assert((val as nat) * 10 + (d as nat) > usize::MAX) by (nonlinear_arith)
                    requires
                        val > (usize::MAX - d) / 10,
                        d < 10,
                ;
                assert forall|e2: int|
                    digit_run_at(data@, from as int, e2) implies dec_val(
                    data@.subrange(from as int, e2),
                ) > usize::MAX by {
                    // any run extends past this digit, so its value is at least as large
                    let run = data@.subrange(from as int, e2);
                    if e2 <= end {
                        assert(is_digit(data@[e2])) by {
                            if e2 < end + 1 {
                                assert(data@.subrange(from as int, end as int + 1)[e2 - from]
                                    == data@[e2]);
                                assert(is_digit(
                                    data@.subrange(from as int, end as int + 1)[e2 - from],
                                )) by {
                                    if e2 - from < end - from {
                                        assert(canonical_digits(
                                            data@.subrange(from as int, end as int),
                                        ));
                                        assert(data@.subrange(from as int, end as int)[e2 - from]
                                            == data@[e2]);
                                    }
                                }
                            }
                        }
                        assert(false);
                    } else {
                        lemma_dec_val_prefix_mono(run, end + 1 - from);
                        assert(run.subrange(0, end + 1 - from) =~= pre);
                    }
                }
            }
            return Err(KvsError::Decode);
        }
        val = val * 10 + d;
        proof {
            let pre = data@.subrange(from as int, end as int + 1);
            assert(pre.drop_last() =~= data@.subrange(from as int, end as int));
            assert(pre.last() == data@[end as int]);
            assert(dec_val(pre) == dec_val(data@.subrange(from as int, end as int)) * 10 + (
            d as nat));
            assert(pre[0] == data@.subrange(from as int, end as int)[0]);
            assert(pre[0] == '0' ==> pre.len() == 1) by {
                if pre[0] == '0' {
                    let run = data@.subrange(from as int, end as int);
                    assert(run[0] == pre[0]);
                    assert(run[0] == '0' ==> run.len() == 1);
                    assert(end == from + 1);
                    assert(data@[from as int] == run[0]);
                    assert(digit_val(data@[from as int]) == 0);
                    assert(is_digit(data@[from as int + 1]));
                    assert(false);
                }
            }
        }
        end = end + 1;
    }
    proof {
        lemma_dec_canonical(data@.subrange(from as int, end as int));
    }
    Ok((val, end))
}

/// Relies on `Iterator::collect` for `String`: builds the string holding
/// exactly the characters of `data[from..to]`, in order.
#[verifier::external_body]
pub(crate) fn chars_to_string(data: &Vec<char>, from: usize, to: usize) -> (s: String)
    requires
        from <= to <= data@.len(),
    ensures
        s@ == data@.subrange(from as int, to as int),
{
    data[from..to].iter().collect()
}

/// Reads one record starting at `from`. On success, the characters consumed
/// are exactly the encoding of the returned command; on failure, no command
/// at all is encoded at `from`.
#[verifier::rlimit(100)]
pub fn decode_command(data: &Vec<char>, from: usize) -> (r: Result<(Command, usize), KvsError>)
    requires
        from <= data@.len(),
    ensures
        match r {
            Ok((c, used)) => {
                &&& 1 <= used
                &&& from + used <= data@.len()
                &&& spec_encode(c@).len() == used as nat
                &&& encodes_at(data@, from as int, c@)
            },
            Err(e) => {
                &&& e == KvsError::Decode
                &&& forall|cm: CommandModel| !encodes_at(data@, from as int, cm)
            },
        },
{
    let n = data.len();
    if from >= n || from + 1 >= n {
        proof {
            assert forall|cm: CommandModel| !encodes_at(data@, from as int, cm) by {
                if encodes_at(data@, from as int, cm) {
                    lemma_encodes_at_parts(data@, from as int, cm);
                    assert(digit_run_at(data@, from as int + 2, from as int + 2 + dec_rep(
                        cmd_key(cm).len(),
                    ).len() as int));
                }
            }
        }
        return Err(KvsError::Decode);
    }
    let tag = data[from];
    if tag != 'S' && tag != 'R' {
        proof {
            assert forall|cm: CommandModel| !encodes_at(data@, from as int, cm) by {
                if encodes_at(data@, from as int, cm) {
                    lemma_encodes_at_parts(data@, from as int, cm);
                }
            }
        }
        return Err(KvsError::Decode);
    }
    if data[from + 1] != ' ' {
        proof {
            assert forall|cm: CommandModel| !encodes_at(data@, from as int, cm) by {
                if encodes_at(data@, from as int, cm) {
                    lemma_encodes_at_parts(data@, from as int, cm);
                }
            }
        }
        return Err(KvsError::Decode);
    }
    let (klen, p1) = match parse_decimal(data, from + 2) {
        Ok(x) => x,
        Err(e) => {
            proof {
                assert forall|cm: CommandModel| !encodes_at(data@, from as int, cm) by {
                    if encodes_at(data@, from as int, cm) {
                        lemma_encodes_at_parts(data@, from as int, cm);
                        let l1 = dec_rep(cmd_key(cm).len()).len() as int;
                        assert(digit_run_at(data@, from as int + 2, from as int + 2 + l1));
                        lemma_dec_rep(cmd_key(cm).len());
                        assert(dec_val(data@.subrange(from as int + 2, from as int + 2 + l1))
                            == cmd_key(cm).len());
                        assert(cmd_key(cm).len() <= spec_encode(cm).len());
                        assert(spec_encode(cm).len() <= data@.len());
                    }
                }
            }
            return Err(e);
        },
    };
    proof {
        // at most one command variant fits the tag, and its key-length run
        // must be the one just parsed
        assert forall|cm: CommandModel|
            encodes_at(data@, from as int, cm) implies {
            &&& (cm is Put <==> data@[from as int] == 'S')
            &&& cmd_key(cm).len() == klen as nat
            &&& from as int + 2 + dec_rep(cmd_key(cm).len()).len() as int == p1 as int
        } by {
            lemma_encodes_at_parts(data@, from as int, cm);
            let l1 = dec_rep(cmd_key(cm).len()).len() as int;
            lemma_digit_run_unique(data@, from as int + 2, from as int + 2 + l1, p1 as int);
            lemma_dec_rep(cmd_key(cm).len());
        }
    }
    if tag == 'S' {
        if p1 >= n || data[p1] != ' ' {
            proof {
                assert forall|cm: CommandModel| !encodes_at(data@, from as int, cm) by {
                    if encodes_at(data@, from as int, cm) {
                        lemma_encodes_at_parts(data@, from as int, cm);
                    }
                }
            }
            return Err(KvsError::Decode);
        }
        let (vlen, p2) = match parse_decimal(data, p1 + 1) {
            Ok(x) => x,
            Err(e) => {
                proof {
                    assert forall|cm: CommandModel| !encodes_at(data@, from as int, cm) by {
                        if encodes_at(data@, from as int, cm) {
                            lemma_encodes_at_parts(data@, from as int, cm);
                            let l1 = dec_rep(cmd_key(cm).len()).len() as int;
                            let l2 = dec_rep(cmd_value(cm).len()).len() as int;
                            assert(digit_run_at(data@, from as int + 3 + l1, from as int + 3 + l1
                                + l2));
                            lemma_dec_rep(cmd_value(cm).len());
                            assert(cmd_value(cm).len() <= spec_encode(cm).len());
                        }
                    }
                }
                return Err(e);
            },
        };
        proof {
            assert forall|cm: CommandModel|
                encodes_at(data@, from as int, cm) implies {
                &&& cmd_value(cm).len() == vlen as nat
                &&& p1 as int + 1 + dec_rep(cmd_value(cm).len()).len() as int == p2 as int
            } by {
                lemma_encodes_at_parts(data@, from as int, cm);
                let l1 = dec_rep(cmd_key(cm).len()).len() as int;
                let l2 = dec_rep(cmd_value(cm).len()).len() as int;
                lemma_digit_run_unique(data@, from as int + 3 + l1, from as int + 3 + l1 + l2,
                    p2 as int);
                lemma_dec_rep(cmd_value(cm).len());
            }
        }
        if p2 >= n || data[p2] != '\n' {
            proof {
                assert forall|cm: CommandModel| !encodes_at(data@, from as int, cm) by {
                    if encodes_at(data@, from as int, cm) {
                        lemma_encodes_at_parts(data@, from as int, cm);
                    }
                }
            }
            return Err(KvsError::Decode);
        }
        let body = p2 + 1;
        if klen > n - body || vlen > n - body - klen {
            proof {
                assert forall|cm: CommandModel| !encodes_at(data@, from as int, cm) by {
                    if encodes_at(data@, from as int, cm) {
                        lemma_encodes_at_parts(data@, from as int, cm);
                    }
                }
            }
            return Err(KvsError::Decode);
        }
        let key = chars_to_string(data, body, body + klen);
        let value = chars_to_string(data, body + klen, body + klen + vlen);
        let used = body + klen + vlen - from;
        let c = Command::Put { key, value };
        proof {
            let cm = c@;
            let e = spec_encode(cm);
            let l1 = dec_rep(cm.arrow_Put_key().len()).len() as int;
            lemma_encode_put(cm.arrow_Put_key(), cm.arrow_Put_value());
            let end = from as int + used as int;
            lemma_subrange_concat(data@, from as int, from as int + 2, p1 as int);
            lemma_subrange_concat(data@, from as int, p1 as int, p1 as int + 1);
            lemma_subrange_concat(data@, from as int, p1 as int + 1, p2 as int);
            lemma_subrange_concat(data@, from as int, p2 as int, p2 as int + 1);
            lemma_subrange_concat(data@, from as int, p2 as int + 1, body + klen);
            lemma_subrange_concat(data@, from as int, body + klen as int, end);
            assert(data@.subrange(from as int, from as int + 2) =~= seq!['S', ' ']);
            assert(data@.subrange(p1 as int, p1 as int + 1) =~= seq![' ']);
            assert(data@.subrange(p2 as int, p2 as int + 1) =~= seq!['\n']);
            assert(data@.subrange(from as int, end) == seq!['S', ' '] + dec_rep(klen as nat)
                + seq![' '] + dec_rep(vlen as nat) + seq!['\n'] + key@ + value@);
            assert(data@.subrange(from as int, end) == e);
        }
        Ok((c, used))
    } else {
        if p1 >= n || data[p1] != '\n' {
            proof {
                assert forall|cm: CommandModel| !encodes_at(data@, from as int, cm) by {
                    if encodes_at(data@, from as int, cm) {
                        lemma_encodes_at_parts(data@, from as int, cm);
                    }
                }
            }
            return Err(KvsError::Decode);
        }
        let body = p1 + 1;
        if klen > n - body {
            proof {
                assert forall|cm: CommandModel| !encodes_at(data@, from as int, cm) by {
                    if encodes_at(data@, from as int, cm) {
                        lemma_encodes_at_parts(data@, from as int, cm);
                    }
                }
            }
            return Err(KvsError::Decode);
        }
        let key = chars_to_string(data, body, body + klen);
        let used = body + klen - from;
        let c = Command::Remove { key };
        proof {
            let cm = c@;
            let e = spec_encode(cm);
            lemma_encode_remove(cm.arrow_Remove_key());
            let end = from as int + used as int;
            lemma_subrange_concat(data@, from as int, from as int + 2, p1 as int);
            lemma_subrange_concat(data@, from as int, p1 as int, p1 as int + 1);
            lemma_subrange_concat(data@, from as int, p1 as int + 1, end);
            assert(data@.subrange(from as int, from as int + 2) =~= seq!['R', ' ']);
            assert(data@.subrange(p1 as int, p1 as int + 1) =~= seq!['\n']);
            assert(data@.subrange(from as int, end) == seq!['R', ' '] + dec_rep(klen as nat)
                + seq!['\n'] + key@);
            assert(data@.subrange(from as int, end) == e);
        }
        Ok((c, used))
    }
}

} // verus!
