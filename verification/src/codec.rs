use vstd::prelude::*;

use crate::record::ProcessConfig;
use crate::record::RecordView;
use crate::record::SuperviseError;
use crate::registry::State;
use crate::status::ProcessStatus;

verus! {

// The persisted state is one file: a sequence of records with fields
// `name` (optional string), `cmd` (string), `status` (tagged value,
// defaulting to `Disabled` when absent) and `output` (optional string),
// written as one line of JSON. The encoding is canonical — field order and
// tag encoding are fixed — so that loading and saving without intervening
// mutation is byte-stable. Every byte value is representable: bytes stand
// for themselves, except the quote and the backslash (escaped with a
// backslash) and the control range below 0x20 (written `\u00` and two hex
// digits). The reader accepts exactly this canonical shape — no other
// whitespace, field order or escape forms — so files written by other JSON
// writers (for instance pretty-printed ones) do not load.

/// The views of the registry's records.
pub open spec fn state_views(s: Seq<ProcessConfig>) -> Seq<RecordView> {
    s.map(|i: int, r: ProcessConfig| r@)
}

// Byte values the encoding is built from.
pub open spec fn quote() -> u8 {
    34
}

pub open spec fn backslash() -> u8 {
    92
}

/// The lowercase hex digit for a value below sixteen.
pub open spec fn hex_digit(n: int) -> u8 {
    if n < 10 {
        (48 + n) as u8
    } else {
        (87 + n) as u8
    }
}

/// How one string byte is written: quote and backslash get a backslash in
/// front, control bytes are written `\u00` and two hex digits, everything
/// else stands for itself.
pub open spec fn esc(c: u8) -> Seq<u8> {
    if c == quote() || c == backslash() {
        seq![backslash(), c]
    } else if c < 0x20 {
        seq![backslash(), 117u8, 48u8, 48u8, hex_digit(c as int / 16), hex_digit(c as int % 16)]
    } else {
        seq![c]
    }
}

pub open spec fn enc_str_body(s: Seq<u8>) -> Seq<u8>
    decreases s.len(),
{
    if s.len() == 0 {
        Seq::empty()
    } else {
        esc(s[0]) + enc_str_body(s.drop_first())
    }
}

pub open spec fn enc_string(s: Seq<u8>) -> Seq<u8> {
    seq![quote()] + enc_str_body(s) + seq![quote()]
}

/// `null`
pub open spec fn lit_null() -> Seq<u8> {
    seq![110u8, 117, 108, 108]
}

pub open spec fn enc_opt_string(o: Option<Seq<u8>>) -> Seq<u8> {
    match o {
        None => lit_null(),
        Some(s) => enc_string(s),
    }
}

/// The decimal digits of `n`.
pub open spec fn enc_nat(n: nat) -> Seq<u8>
    decreases n,
{
    if n < 10 {
        seq![(48 + n) as u8]
    } else {
        enc_nat(n / 10) + seq![(48 + n % 10) as u8]
    }
}

/// A (possibly negative) integer in decimal.
pub open spec fn enc_int(p: int) -> Seq<u8> {
    if p < 0 {
        seq![45u8] + enc_nat((-p) as nat)
    } else {
        enc_nat(p as nat)
    }
}

/// `"Disabled"`
pub open spec fn lit_disabled() -> Seq<u8> {
    seq![34u8, 68, 105, 115, 97, 98, 108, 101, 100, 34]
}

/// `{"Running":`
pub open spec fn lit_running() -> Seq<u8> {
    seq![123u8, 34, 82, 117, 110, 110, 105, 110, 103, 34, 58]
}

/// `{"Invalid":`
pub open spec fn lit_invalid() -> Seq<u8> {
    seq![123u8, 34, 73, 110, 118, 97, 108, 105, 100, 34, 58]
}

/// `{"Stopped":`
pub open spec fn lit_stopped() -> Seq<u8> {
    seq![123u8, 34, 83, 116, 111, 112, 112, 101, 100, 34, 58]
}

pub open spec fn enc_status(st: ProcessStatus) -> Seq<u8> {
    match st {
        ProcessStatus::Disabled => lit_disabled(),
        ProcessStatus::Running(p) => lit_running() + enc_int(p as int) + seq![125u8],
        ProcessStatus::Invalid(p) => lit_invalid() + enc_int(p as int) + seq![125u8],
        ProcessStatus::Stopped(p) => lit_stopped() + enc_int(p as int) + seq![125u8],
    }
}

/// `{"name":`
pub open spec fn lit_name() -> Seq<u8> {
    seq![123u8, 34, 110, 97, 109, 101, 34, 58]
}

/// `,"cmd":`
pub open spec fn lit_cmd() -> Seq<u8> {
    seq![44u8, 34, 99, 109, 100, 34, 58]
}

/// `,"status":`
pub open spec fn lit_status() -> Seq<u8> {
    seq![44u8, 34, 115, 116, 97, 116, 117, 115, 34, 58]
}

/// `,"output":`
pub open spec fn lit_output() -> Seq<u8> {
    seq![44u8, 34, 111, 117, 116, 112, 117, 116, 34, 58]
}

/// One record. `with_status` says whether the status field is written; the
/// canonical form always writes it, but a record whose status is `Disabled`
/// may also appear without it (the status then defaults on load).
pub open spec fn enc_record(r: RecordView, with_status: bool) -> Seq<u8> {
    lit_name() + enc_opt_string(r.name) + lit_cmd() + enc_string(r.cmd) + (if with_status {
        lit_status() + enc_status(r.status)
    } else {
        Seq::<u8>::empty()
    }) + lit_output() + enc_opt_string(r.output) + seq![125u8]
}

/// A non-empty comma-separated list of records, the first without a leading
/// comma.
pub open spec fn enc_records(s: Seq<RecordView>, flags: Seq<bool>) -> Seq<u8>
    decreases s.len(),
{
    if s.len() == 0 {
        Seq::empty()
    } else if s.len() == 1 {
        enc_record(s[0], flags[0])
    } else {
        enc_records(s.drop_last(), flags.drop_last()) + seq![44u8] + enc_record(
            s.last(),
            flags.last(),
        )
    }
}

/// `flags[i]` says whether record `i` carries its status field; a record
/// without one must hold status `Disabled`, since that is what it decodes
/// to.
pub open spec fn flags_ok(s: Seq<RecordView>, flags: Seq<bool>) -> bool {
    flags.len() == s.len() && forall|i: int|
        0 <= i < s.len() ==> !(#[trigger] flags[i]) ==> s[i].status == ProcessStatus::Disabled
}

/// A whole persisted file: the record list in brackets and a trailing
/// newline.
pub open spec fn enc_state(s: Seq<RecordView>, flags: Seq<bool>) -> Seq<u8> {
    seq![91u8] + enc_records(s, flags) + seq![93u8, 10]
}

/// The canonical form: every record carries its status field.
pub open spec fn enc_canonical(s: Seq<RecordView>) -> Seq<u8> {
    enc_state(s, Seq::new(s.len(), |i: int| true))
}

proof fn lemma_enc_str_body_push(s: Seq<u8>, c: u8)
    ensures
        enc_str_body(s.push(c)) == enc_str_body(s) + esc(c),
    decreases s.len(),
{
    if s.len() == 0 {
        assert(s.push(c).drop_first() =~= Seq::<u8>::empty());
        assert(s.push(c)[0] == c);
        assert(enc_str_body(s.push(c)) == esc(c) + enc_str_body(Seq::<u8>::empty()));
        assert(esc(c) + Seq::<u8>::empty() =~= esc(c));
        assert(enc_str_body(s) + esc(c) =~= esc(c));
    } else {
        assert(s.push(c).drop_first() =~= s.drop_first().push(c));
        lemma_enc_str_body_push(s.drop_first(), c);
        assert(enc_str_body(s.push(c)) =~= enc_str_body(s) + esc(c));
    }
}

fn push_str_body(out: &mut Vec<u8>, s: &Vec<u8>)
    ensures
        final(out)@ == old(out)@ + enc_str_body(s@),
{
    let ghost out0 = out@;
    let mut i: usize = 0;
    while i < s.len()
        invariant
            i <= s@.len(),
            out@ == out0 + enc_str_body(s@.take(i as int)),
        decreases s@.len() - i,
    {
        let c = s[i];
        if c == 34 || c == 92 {
            out.push(92);
            out.push(c);
        } else if c < 32 {
            out.push(92);
            out.push(117);
            out.push(48);
            out.push(48);
            let hi = c / 16;
            let lo = c % 16;
            out.push(if hi < 10 { 48 + hi } else { 87 + hi });
            out.push(if lo < 10 { 48 + lo } else { 87 + lo });
        } else {
            out.push(c);
        }
        proof {
            lemma_enc_str_body_push(s@.take(i as int), c);
            assert(s@.take(i as int).push(c) =~= s@.take(i + 1));
            assert(out@ =~= out0 + enc_str_body(s@.take(i + 1)));
        }
        i = i + 1;
    }
    proof {
        assert(s@.take(s@.len() as int) =~= s@);
    }
}

fn push_string(out: &mut Vec<u8>, s: &Vec<u8>)
    ensures
        final(out)@ == old(out)@ + enc_string(s@),
{
    let ghost out0 = out@;
    out.push(34);
    push_str_body(out, s);
    out.push(34);
    proof {
        assert(out@ =~= out0 + enc_string(s@));
    }
}

fn push_opt_string(out: &mut Vec<u8>, s: &Option<Vec<u8>>)
    ensures
        final(out)@ == old(out)@ + enc_opt_string(crate::record::opt_bytes(*s)),
{
    let ghost out0 = out@;
    match s {
        None => {
            out.push(110);
            out.push(117);
            out.push(108);
            out.push(108);
            proof {
                assert(out@ =~= out0 + lit_null());
            }
        },
        Some(v) => {
            push_string(out, v);
        },
    }
}

fn push_nat(out: &mut Vec<u8>, n: u64)
    ensures
        final(out)@ == old(out)@ + enc_nat(n as nat),
    decreases n,
{
    if n < 10 {
        out.push(48 + (n as u8));
        proof {
            assert(out@ =~= old(out)@ + enc_nat(n as nat));
        }
    } else {
        push_nat(out, n / 10);
        out.push(48 + ((n % 10) as u8));
        proof {
            assert(out@ =~= old(out)@ + enc_nat(n as nat));
        }
    }
}

fn push_int(out: &mut Vec<u8>, p: i32)
    ensures
        final(out)@ == old(out)@ + enc_int(p as int),
{
    let ghost out0 = out@;
    if p < 0 {
        out.push(45);
        let m: u64 = (-(p as i64)) as u64;
        push_nat(out, m);
        proof {
            assert(m as nat == (-(p as int)) as nat);
            assert(out@ =~= out0 + enc_int(p as int));
        }
    } else {
        push_nat(out, p as u64);
    }
}

fn push_status(out: &mut Vec<u8>, st: &ProcessStatus)
    ensures
        final(out)@ == old(out)@ + enc_status(*st),
{
    let ghost out0 = out@;
    match st {
        ProcessStatus::Disabled => {
            out.push(34);
            out.push(68);
            out.push(105);
            out.push(115);
            out.push(97);
            out.push(98);
            out.push(108);
            out.push(101);
            out.push(100);
            out.push(34);
            proof {
                assert(out@ =~= out0 + lit_disabled());
            }
        },
        ProcessStatus::Running(p) => {
            out.push(123);
            out.push(34);
            out.push(82);
            out.push(117);
            out.push(110);
            out.push(110);
            out.push(105);
            out.push(110);
            out.push(103);
            out.push(34);
            out.push(58);
            proof {
                assert(out@ =~= out0 + lit_running());
            }
            push_int(out, *p);
            out.push(125);
            proof {
                assert(out@ =~= out0 + enc_status(*st));
            }
        },
        ProcessStatus::Invalid(p) => {
            out.push(123);
            out.push(34);
            out.push(73);
            out.push(110);
            out.push(118);
            out.push(97);
            out.push(108);
            out.push(105);
            out.push(100);
            out.push(34);
            out.push(58);
            proof {
                assert(out@ =~= out0 + lit_invalid());
            }
            push_int(out, *p);
            out.push(125);
            proof {
                assert(out@ =~= out0 + enc_status(*st));
            }
        },
        ProcessStatus::Stopped(p) => {
            out.push(123);
            out.push(34);
            out.push(83);
            out.push(116);
            out.push(111);
            out.push(112);
            out.push(112);
            out.push(101);
            out.push(100);
            out.push(34);
            out.push(58);
            proof {
                assert(out@ =~= out0 + lit_stopped());
            }
            push_int(out, *p);
            out.push(125);
            proof {
                assert(out@ =~= out0 + enc_status(*st));
            }
        },
    }
}

fn push_lit_name(out: &mut Vec<u8>)
    ensures
        final(out)@ == old(out)@ + lit_name(),
{
    let ghost out0 = out@;
    out.push(123);
    out.push(34);
    out.push(110);
    out.push(97);
    out.push(109);
    out.push(101);
    out.push(34);
    out.push(58);
    proof {
        assert(out@ =~= out0 + lit_name());
    }
}

fn push_lit_cmd(out: &mut Vec<u8>)
    ensures
        final(out)@ == old(out)@ + lit_cmd(),
{
    let ghost out0 = out@;
    out.push(44);
    out.push(34);
    out.push(99);
    out.push(109);
    out.push(100);
    out.push(34);
    out.push(58);
    proof {
        assert(out@ =~= out0 + lit_cmd());
    }
}

fn push_lit_status(out: &mut Vec<u8>)
    ensures
        final(out)@ == old(out)@ + lit_status(),
{
    let ghost out0 = out@;
    out.push(44);
    out.push(34);
    out.push(115);
    out.push(116);
    out.push(97);
    out.push(116);
    out.push(117);
    out.push(115);
    out.push(34);
    out.push(58);
    proof {
        assert(out@ =~= out0 + lit_status());
    }
}

fn push_lit_output(out: &mut Vec<u8>)
    ensures
        final(out)@ == old(out)@ + lit_output(),
{
    let ghost out0 = out@;
    out.push(44);
    out.push(34);
    out.push(111);
    out.push(117);
    out.push(116);
    out.push(112);
    out.push(117);
    out.push(116);
    out.push(34);
    out.push(58);
    proof {
        assert(out@ =~= out0 + lit_output());
    }
}

fn push_record(out: &mut Vec<u8>, r: &ProcessConfig)
    ensures
        final(out)@ == old(out)@ + enc_record(r@, true),
{
    let ghost out0 = out@;
    push_lit_name(out);
    push_opt_string(out, &r.name);
    push_lit_cmd(out);
    push_string(out, &r.cmd);
    push_lit_status(out);
    push_status(out, &r.status);
    push_lit_output(out);
    push_opt_string(out, &r.output);
    out.push(125);
    proof {
        assert(out@ =~= out0 + enc_record(r@, true));
    }
}

/// Serialize the registry into its canonical persisted form. The caller
/// writes these bytes out as the whole state file.
pub fn save(state: &State) -> (r: Vec<u8>)
    ensures
        r@ == enc_canonical(state_views(state@)),
{
    let ghost views = state_views(state@);
    let ghost flags = Seq::new(views.len(), |i: int| true);
    let mut out: Vec<u8> = Vec::new();
    out.push(91);
    let n = state.len();
    let mut i: usize = 0;
    while i < n
        invariant
            i <= n,
            n == state@.len(),
            views == state_views(state@),
            flags == Seq::new(views.len(), |j: int| true),
            out@ == seq![91u8] + enc_records(views.take(i as int), flags.take(i as int)),
        decreases n - i,
    {
        if i > 0 {
            out.push(44);
        }
        push_record(&mut out, &state[i]);
        proof {
            let k = i as int;
            assert(views.take(k + 1).drop_last() =~= views.take(k));
            assert(flags.take(k + 1).drop_last() =~= flags.take(k));
            assert(views.take(k + 1).last() == state@[k]@);
            if i > 0 {
                assert(out@ =~= seq![91u8] + enc_records(views.take(k + 1), flags.take(k + 1)));
            } else {
                assert(views.take(1).len() == 1);
                assert(out@ =~= seq![91u8] + enc_records(views.take(k + 1), flags.take(k + 1)));
            }
        }
        i = i + 1;
    }
    out.push(93);
    out.push(10);
    proof {
        assert(views.take(n as int) =~= views);
        assert(flags.take(n as int) =~= flags);
        assert(out@ =~= enc_state(views, flags));
    }
    out
}

// ---------------------------------------------------------------------
// Decoding. The grammar is given as total spec-level parsing functions
// over the raw bytes; the executable parser is proved to return exactly
// what they describe. A file is accepted iff `sp_state` accepts it: the
// canonical form, except that a record may omit its status field (which
// then defaults to `Disabled`) and that numbers may carry leading zeros.
/// Whether `lit` stands at `pos`.
pub open spec fn at_lit(b: Seq<u8>, pos: int, lit: Seq<u8>) -> bool {
    0 <= pos && pos + lit.len() <= b.len() && b.subrange(pos, pos + lit.len()) == lit
}

/// A hex digit, either case.
pub open spec fn is_hex(c: u8) -> bool {
    48 <= c <= 57 || 97 <= c <= 102 || 65 <= c <= 70
}

pub open spec fn hex_val(c: u8) -> int {
    if 48 <= c <= 57 {
        c - 48
    } else if 97 <= c <= 102 {
        c - 87
    } else {
        c - 55
    }
}

/// The body of a string after its opening quote: bytes until an unescaped
/// closing quote, with only the escapes the encoder writes (raw control
/// bytes are refused; an escaped one is read back from its hex digits).
pub open spec fn sp_str_body(b: Seq<u8>, pos: int) -> Option<(Seq<u8>, int)>
    decreases b.len() - pos,
{
    if pos < 0 || pos >= b.len() {
        None
    } else if b[pos] == quote() {
        Some((Seq::empty(), pos + 1))
    } else if b[pos] == backslash() {
        if pos + 1 < b.len() && (b[pos + 1] == quote() || b[pos + 1] == backslash()) {
            prepend(seq![b[pos + 1]], sp_str_body(b, pos + 2))
        } else if pos + 5 < b.len() && b[pos + 1] == 117 && b[pos + 2] == 48 && b[pos + 3] == 48
            && is_hex(b[pos + 4]) && is_hex(b[pos + 5]) {
            prepend(
                seq![(hex_val(b[pos + 4]) * 16 + hex_val(b[pos + 5])) as u8],
                sp_str_body(b, pos + 6),
            )
        } else {
            None
        }
    } else if b[pos] >= 0x20 {
        prepend(seq![b[pos]], sp_str_body(b, pos + 1))
    } else {
        None
    }
}

/// `pre` prepended to a partial string-parse result.
pub open spec fn prepend(pre: Seq<u8>, o: Option<(Seq<u8>, int)>) -> Option<(Seq<u8>, int)> {
    match o {
        Some(p) => Some((pre + p.0, p.1)),
        None => None,
    }
}

pub open spec fn sp_string(b: Seq<u8>, pos: int) -> Option<(Seq<u8>, int)> {
    if 0 <= pos < b.len() && b[pos] == quote() {
        sp_str_body(b, pos + 1)
    } else {
        None
    }
}

pub open spec fn sp_opt_string(b: Seq<u8>, pos: int) -> Option<(Option<Seq<u8>>, int)> {
    if at_lit(b, pos, lit_null()) {
        Some((None, pos + 4))
    } else {
        match sp_string(b, pos) {
            Some(p) => Some((Some(p.0), p.1)),
            None => None,
        }
    }
}

pub open spec fn is_digit(c: u8) -> bool {
    48 <= c <= 57
}

/// The magnitude cap: one past `i32::MAX`, the largest magnitude a stored
/// pid can have (as `-i32::MIN`).
pub open spec fn mag_cap() -> nat {
    0x8000_0000
}

/// Consume digits, accumulating their value; reject once the value passes
/// the cap.
pub open spec fn sp_digits(b: Seq<u8>, pos: int, acc: nat) -> Option<(nat, int)>
    decreases b.len() - pos,
{
    if 0 <= pos < b.len() && is_digit(b[pos]) {
        if acc * 10 + (b[pos] - 48) > mag_cap() {
            None
        } else {
            sp_digits(b, pos + 1, (acc * 10 + (b[pos] - 48)) as nat)
        }
    } else {
        Some((acc, pos))
    }
}

/// A decimal integer in pid range.
pub open spec fn sp_int(b: Seq<u8>, pos: int) -> Option<(int, int)> {
    if 0 <= pos < b.len() && b[pos] == 45 {
        if pos + 1 < b.len() && is_digit(b[pos + 1]) {
            match sp_digits(b, pos + 1, 0) {
                Some(p) => Some((-(p.0 as int), p.1)),
                None => None,
            }
        } else {
            None
        }
    } else if 0 <= pos < b.len() && is_digit(b[pos]) {
        match sp_digits(b, pos, 0) {
            Some(p) => if p.0 <= 0x7fff_ffff {
                Some((p.0 as int, p.1))
            } else {
                None
            },
            None => None,
        }
    } else {
        None
    }
}

pub open spec fn sp_status(b: Seq<u8>, pos: int) -> Option<(ProcessStatus, int)> {
    if at_lit(b, pos, lit_disabled()) {
        Some((ProcessStatus::Disabled, pos + 10))
    } else if at_lit(b, pos, lit_running()) {
        match sp_int(b, pos + 11) {
            Some(p) => if at_lit(b, p.1, seq![125u8]) {
                Some((ProcessStatus::Running(p.0 as i32), p.1 + 1))
            } else {
                None
            },
            None => None,
        }
    } else if at_lit(b, pos, lit_invalid()) {
        match sp_int(b, pos + 11) {
            Some(p) => if at_lit(b, p.1, seq![125u8]) {
                Some((ProcessStatus::Invalid(p.0 as i32), p.1 + 1))
            } else {
                None
            },
            None => None,
        }
    } else if at_lit(b, pos, lit_stopped()) {
        match sp_int(b, pos + 11) {
            Some(p) => if at_lit(b, p.1, seq![125u8]) {
                Some((ProcessStatus::Stopped(p.0 as i32), p.1 + 1))
            } else {
                None
            },
            None => None,
        }
    } else {
        None
    }
}

/// The closing fields of a record, from `,"output":` on.
pub open spec fn sp_record_tail(
    b: Seq<u8>,
    pos: int,
    name: Option<Seq<u8>>,
    cmd: Seq<u8>,
    status: ProcessStatus,
) -> Option<(RecordView, int)> {
    if at_lit(b, pos, lit_output()) {
        match sp_opt_string(b, pos + 10) {
            Some(p) => if at_lit(b, p.1, seq![125u8]) {
                Some((RecordView { name, cmd, status, output: p.0 }, p.1 + 1))
            } else {
                None
            },
            None => None,
        }
    } else {
        None
    }
}

pub open spec fn sp_record(b: Seq<u8>, pos: int) -> Option<(RecordView, int)> {
    if at_lit(b, pos, lit_name()) {
        match sp_opt_string(b, pos + 8) {
            Some(pn) => if at_lit(b, pn.1, lit_cmd()) {
                match sp_string(b, pn.1 + 7) {
                    Some(pc) => if at_lit(b, pc.1, lit_status()) {
                        match sp_status(b, pc.1 + 10) {
                            Some(ps) => sp_record_tail(b, ps.1, pn.0, pc.0, ps.0),
                            None => None,
                        }
                    } else {
                        // a record without a status field holds `Disabled`
                        sp_record_tail(b, pc.1, pn.0, pc.0, ProcessStatus::Disabled)
                    },
                    None => None,
                }
            } else {
                None
            },
            None => None,
        }
    } else {
        None
    }
}

/// `pre` prepended to a partial record-list parse.
pub open spec fn prepend_recs(
    pre: Seq<RecordView>,
    o: Option<(Seq<RecordView>, int)>,
) -> Option<(Seq<RecordView>, int)> {
    match o {
        Some(p) => Some((pre + p.0, p.1)),
        None => None,
    }
}

/// One or more comma-separated records.
pub open spec fn sp_records(b: Seq<u8>, pos: int) -> Option<(Seq<RecordView>, int)>
    decreases b.len() - pos,
        via sp_records_dec
{
    match sp_record(b, pos) {
        Some(p) => if p.1 < b.len() && b[p.1] == 44 {
            prepend_recs(seq![p.0], sp_records(b, p.1 + 1))
        } else {
            Some((seq![p.0], p.1))
        },
        None => None,
    }
}

#[via_fn]
proof fn sp_records_dec(b: Seq<u8>, pos: int) {
    match sp_record(b, pos) {
        Some(p) => {
            lemma_sp_record_bounds(b, pos);
        },
        None => {},
    }
}

/// A whole persisted file: the bracketed record list. The canonical form
/// ends with a newline after the closing bracket, as [`save`] writes it,
/// but a file that stops right at the bracket is accepted too.
pub open spec fn sp_state(b: Seq<u8>) -> Option<Seq<RecordView>> {
    if b.len() < 1 || b[0] != 91 {
        None
    } else if b.len() >= 2 && b[1] == 93 {
        if b.len() == 2 || (b.len() == 3 && b[2] == 10) {
            Some(Seq::empty())
        } else {
            None
        }
    } else {
        match sp_records(b, 1) {
            Some(p) => if (p.1 + 1 == b.len() && b[p.1] == 93) || (p.1 + 2 == b.len() && b[p.1]
                == 93 && b[p.1 + 1] == 10) {
                Some(p.0)
            } else {
                None
            },
            None => None,
        }
    }
}

// Every successful partial parse lies within the input and consumes at
// least one byte (except a bare digit run, which may consume none).
proof fn lemma_sp_str_body_bounds(b: Seq<u8>, pos: int)
    ensures
        sp_str_body(b, pos) matches Some(p) ==> pos < p.1 <= b.len(),
    decreases b.len() - pos,
{
    if 0 <= pos < b.len() {
        if b[pos] == quote() {
        } else if b[pos] == backslash() {
            if pos + 1 < b.len() && (b[pos + 1] == quote() || b[pos + 1] == backslash()) {
                lemma_sp_str_body_bounds(b, pos + 2);
            } else if pos + 5 < b.len() {
                lemma_sp_str_body_bounds(b, pos + 6);
            }
        } else if b[pos] >= 0x20 {
            lemma_sp_str_body_bounds(b, pos + 1);
        }
    }
}

proof fn lemma_sp_opt_string_bounds(b: Seq<u8>, pos: int)
    ensures
        sp_opt_string(b, pos) matches Some(p) ==> pos < p.1 <= b.len(),
{
    lemma_sp_str_body_bounds(b, pos + 1);
}

proof fn lemma_sp_digits_bounds(b: Seq<u8>, pos: int, acc: nat)
    requires
        0 <= pos <= b.len(),
    ensures
        sp_digits(b, pos, acc) matches Some(p) ==> pos <= p.1 <= b.len(),
    decreases b.len() - pos,
{
    if pos < b.len() && is_digit(b[pos]) && acc * 10 + (b[pos] - 48) <= mag_cap() {
        lemma_sp_digits_bounds(b, pos + 1, (acc * 10 + (b[pos] - 48)) as nat);
    }
}

proof fn lemma_sp_int_bounds(b: Seq<u8>, pos: int)
    ensures
        sp_int(b, pos) matches Some(p) ==> pos < p.1 <= b.len(),
{
    if 0 <= pos < b.len() {
        lemma_sp_digits_bounds(b, pos + 1, 0);
        if is_digit(b[pos]) {
            lemma_sp_digits_bounds(b, pos, 0);
            lemma_sp_digits_bounds(b, pos + 1, (b[pos] - 48) as nat);
        }
    }
}

proof fn lemma_sp_status_bounds(b: Seq<u8>, pos: int)
    ensures
        sp_status(b, pos) matches Some(p) ==> pos < p.1 <= b.len(),
{
    lemma_sp_int_bounds(b, pos + 11);
}

proof fn lemma_sp_record_bounds(b: Seq<u8>, pos: int)
    ensures
        sp_record(b, pos) matches Some(p) ==> pos < p.1 <= b.len(),
{
    if at_lit(b, pos, lit_name()) {
        lemma_sp_opt_string_bounds(b, pos + 8);
        match sp_opt_string(b, pos + 8) {
            Some(pn) => {
                lemma_sp_str_body_bounds(b, pn.1 + 8);
                match sp_string(b, pn.1 + 7) {
                    Some(pc) => {
                        lemma_sp_status_bounds(b, pc.1 + 10);
                        if at_lit(b, pc.1, lit_status()) {
                            match sp_status(b, pc.1 + 10) {
                                Some(ps) => {
                                    lemma_sp_opt_string_bounds(b, ps.1 + 10);
                                },
                                None => {},
                            }
                        } else {
                            lemma_sp_opt_string_bounds(b, pc.1 + 10);
                        }
                    },
                    None => {},
                }
            },
            None => {},
        }
    }
}

fn eat_lit<const N: usize>(b: &Vec<u8>, pos: usize, lit: &[u8; N]) -> (r: bool)
    requires
        pos <= b@.len(),
    ensures
        r == at_lit(b@, pos as int, lit@),
{
    let n = b.len();
    if n - pos < N {
        assert(!at_lit(b@, pos as int, lit@));
        return false;
    }
    let mut i: usize = 0;
    while i < N
        invariant
            i <= N,
            pos + N <= n,
            n == b@.len(),
            forall|k: int| 0 <= k < i ==> b@[pos + k] == lit@[k],
        decreases N - i,
    {
        if b[pos + i] != lit[i] {
            proof {
                assert(b@.subrange(pos as int, pos as int + N)[i as int] == b@[pos + i]);
            }
            return false;
        }
        i = i + 1;
    }
    proof {
        assert(b@.subrange(pos as int, pos as int + N) =~= lit@);
    }
    true
}

proof fn lemma_prepend_empty(o: Option<(Seq<u8>, int)>)
    ensures
        prepend(Seq::empty(), o) == o,
{
    match o {
        Some(p) => {
            assert(Seq::<u8>::empty() + p.0 =~= p.0);
            assert(prepend(Seq::empty(), o) =~~= o);
        },
        None => {},
    }
}

proof fn lemma_prepend_assoc(a: Seq<u8>, c: Seq<u8>, o: Option<(Seq<u8>, int)>)
    ensures
        prepend(a, prepend(c, o)) == prepend(a + c, o),
{
    match o {
        Some(p) => {
            assert(a + (c + p.0) =~= (a + c) + p.0);
            assert(prepend(a, prepend(c, o)) =~~= prepend(a + c, o));
        },
        None => {},
    }
}

proof fn lemma_prepend_recs_empty(o: Option<(Seq<RecordView>, int)>)
    ensures
        prepend_recs(Seq::empty(), o) == o,
{
    match o {
        Some(p) => {
            assert(Seq::<RecordView>::empty() + p.0 =~= p.0);
            assert(prepend_recs(Seq::empty(), o) =~~= o);
        },
        None => {},
    }
}

proof fn lemma_prepend_recs_assoc(a: Seq<RecordView>, c: Seq<RecordView>, o: Option<(Seq<RecordView>, int)>)
    ensures
        prepend_recs(a, prepend_recs(c, o)) == prepend_recs(a + c, o),
{
    match o {
        Some(p) => {
            assert(a + (c + p.0) =~= (a + c) + p.0);
            assert(prepend_recs(a, prepend_recs(c, o)) =~~= prepend_recs(a + c, o));
        },
        None => {},
    }
}

fn is_hex_byte(c: u8) -> (r: bool)
    ensures
        r == is_hex(c),
{
    (48 <= c && c <= 57) || (97 <= c && c <= 102) || (65 <= c && c <= 70)
}

fn hex_val_byte(c: u8) -> (r: u8)
    requires
        is_hex(c),
    ensures
        r as int == hex_val(c),
        r <= 15,
{
    if 48 <= c && c <= 57 {
        c - 48
    } else if 97 <= c && c <= 102 {
        c - 87
    } else {
        c - 55
    }
}

fn parse_string(b: &Vec<u8>, pos: usize) -> (r: Option<(Vec<u8>, usize)>)
    requires
        pos <= b@.len(),
    ensures
        match r {
            Some(p) => sp_string(b@, pos as int) == Some((p.0@, p.1 as int)) && p.1 <= b@.len(),
            None => sp_string(b@, pos as int) is None,
        },
{
    if pos >= b.len() || b[pos] != 34 {
        return None;
    }
    let mut cur: usize = pos + 1;
    let mut acc: Vec<u8> = Vec::new();
    proof {
        lemma_prepend_empty(sp_str_body(b@, pos as int + 1));
    }
    while cur < b.len()
        invariant
            pos as int + 1 <= cur <= b@.len(),
            sp_str_body(b@, pos as int + 1) == prepend(acc@, sp_str_body(b@, cur as int)),
            0 <= pos < b@.len() && b@[pos as int] == quote(),
        decreases b@.len() - cur,
    {
        let c = b[cur];
        if c == 34 {
            proof {
                assert(sp_str_body(b@, cur as int) == Some((Seq::<u8>::empty(), cur + 1)));
                assert(acc@ + Seq::<u8>::empty() =~= acc@);
            }
            return Some((acc, cur + 1));
        } else if c == 92 {
            if cur + 1 < b.len() && (b[cur + 1] == 34 || b[cur + 1] == 92) {
                let c2 = b[cur + 1];
                proof {
                    assert(sp_str_body(b@, cur as int) == prepend(
                        seq![c2],
                        sp_str_body(b@, cur as int + 2),
                    ));
                    lemma_prepend_assoc(acc@, seq![c2], sp_str_body(b@, cur as int + 2));
                    assert(acc@ + seq![c2] =~= acc@.push(c2));
                }
                acc.push(c2);
                cur = cur + 2;
            } else if b.len() - cur > 5 && b[cur + 1] == 117 && b[cur + 2] == 48 && b[cur + 3]
                == 48 && is_hex_byte(b[cur + 4]) && is_hex_byte(b[cur + 5]) {
                let v: u8 = hex_val_byte(b[cur + 4]) * 16 + hex_val_byte(b[cur + 5]);
                proof {
                    assert(v == (hex_val(b@[cur + 4]) * 16 + hex_val(b@[cur + 5])) as u8);
                    assert(sp_str_body(b@, cur as int) == prepend(
                        seq![v],
                        sp_str_body(b@, cur as int + 6),
                    ));
                    lemma_prepend_assoc(acc@, seq![v], sp_str_body(b@, cur as int + 6));
                    assert(acc@ + seq![v] =~= acc@.push(v));
                }
                acc.push(v);
                cur = cur + 6;
            } else {
                return None;
            }
        } else if c >= 32 {
            proof {
                assert(sp_str_body(b@, cur as int) == prepend(
                    seq![c],
                    sp_str_body(b@, cur as int + 1),
                ));
                lemma_prepend_assoc(acc@, seq![c], sp_str_body(b@, cur as int + 1));
                assert(acc@ + seq![c] =~= acc@.push(c));
            }
            acc.push(c);
            cur = cur + 1;
        } else {
            return None;
        }
    }
    None
}

fn parse_opt_string(b: &Vec<u8>, pos: usize) -> (r: Option<(Option<Vec<u8>>, usize)>)
    requires
        pos <= b@.len(),
    ensures
        match r {
            Some(p) => sp_opt_string(b@, pos as int) == Some(
                (crate::record::opt_bytes(p.0), p.1 as int),
            ) && p.1 <= b@.len(),
            None => sp_opt_string(b@, pos as int) is None,
        },
{
    let n = b.len();
    let lnull: [u8; 4] = [110, 117, 108, 108];
    proof {
        assert(lnull@ =~= lit_null());
    }
    if eat_lit(b, pos, &lnull) {
        assert(pos + 4 <= n);
        return Some((None, pos + 4));
    }
    match parse_string(b, pos) {
        Some(p) => Some((Some(p.0), p.1)),
        None => None,
    }
}

fn parse_digits(b: &Vec<u8>, pos: usize) -> (r: Option<(u64, usize)>)
    requires
        pos <= b@.len(),
    ensures
        match r {
            Some(p) => sp_digits(b@, pos as int, 0) == Some((p.0 as nat, p.1 as int)) && p.1
                <= b@.len() && p.0 <= 0x8000_0000,
            None => sp_digits(b@, pos as int, 0) is None,
        },
{
    let mut cur: usize = pos;
    let mut acc: u64 = 0;
    while cur < b.len() && 48 <= b[cur] && b[cur] <= 57
        invariant
            pos <= cur <= b@.len(),
            acc <= 0x8000_0000,
            sp_digits(b@, pos as int, 0) == sp_digits(b@, cur as int, acc as nat),
        decreases b@.len() - cur,
    {
        let d: u64 = (b[cur] - 48) as u64;
        let acc2: u64 = acc * 10 + d;
        if acc2 > 0x8000_0000 {
            proof {
                assert(sp_digits(b@, cur as int, acc as nat) is None);
            }
            return None;
        }
        proof {
            assert(sp_digits(b@, cur as int, acc as nat) == sp_digits(
                b@,
                cur as int + 1,
                acc2 as nat,
            ));
        }
        acc = acc2;
        cur = cur + 1;
    }
    proof {
        assert(sp_digits(b@, cur as int, acc as nat) == Some((acc as nat, cur as int)));
    }
    Some((acc, cur))
}

fn parse_int(b: &Vec<u8>, pos: usize) -> (r: Option<(i32, usize)>)
    requires
        pos <= b@.len(),
    ensures
        match r {
            Some(p) => sp_int(b@, pos as int) == Some((p.0 as int, p.1 as int)) && p.1
                <= b@.len(),
            None => sp_int(b@, pos as int) is None,
        },
{
    if pos >= b.len() {
        return None;
    }
    if b[pos] == 45 {
        if pos + 1 < b.len() && 48 <= b[pos + 1] && b[pos + 1] <= 57 {
            match parse_digits(b, pos + 1) {
                Some(p) => {
                    let v: i32 = (-(p.0 as i64)) as i32;
                    proof {
                        assert(v as int == -(p.0 as int));
                    }
                    Some((v, p.1))
                },
                None => None,
            }
        } else {
            None
        }
    } else if 48 <= b[pos] && b[pos] <= 57 {
        match parse_digits(b, pos) {
            Some(p) => {
                if p.0 <= 0x7fff_ffff {
                    Some((p.0 as i32, p.1))
                } else {
                    None
                }
            },
            None => None,
        }
    } else {
        None
    }
}

fn parse_status(b: &Vec<u8>, pos: usize) -> (r: Option<(ProcessStatus, usize)>)
    requires
        pos <= b@.len(),
    ensures
        match r {
            Some(p) => sp_status(b@, pos as int) == Some((p.0, p.1 as int)) && p.1 <= b@.len(),
            None => sp_status(b@, pos as int) is None,
        },
{
    let n = b.len();
    let ldis: [u8; 10] = [34, 68, 105, 115, 97, 98, 108, 101, 100, 34];
    proof {
        assert(ldis@ =~= lit_disabled());
    }
    if eat_lit(b, pos, &ldis) {
        assert(pos + 10 <= n);
        return Some((ProcessStatus::Disabled, pos + 10));
    }
    let rb: [u8; 1] = [125];
    proof {
        assert(rb@ =~= seq![125u8]);
    }
    let lrun: [u8; 11] = [123, 34, 82, 117, 110, 110, 105, 110, 103, 34, 58];
    proof {
        assert(lrun@ =~= lit_running());
    }
    if eat_lit(b, pos, &lrun) {
        assert(pos + 11 <= n);
        match parse_int(b, pos + 11) {
            Some(p) => {
                if eat_lit(b, p.1, &rb) {
                    return Some((ProcessStatus::Running(p.0), p.1 + 1));
                } else {
                    return None;
                }
            },
            None => {
                return None;
            },
        }
    }
    let linv: [u8; 11] = [123, 34, 73, 110, 118, 97, 108, 105, 100, 34, 58];
    proof {
        assert(linv@ =~= lit_invalid());
    }
    if eat_lit(b, pos, &linv) {
        assert(pos + 11 <= n);
        match parse_int(b, pos + 11) {
            Some(p) => {
                if eat_lit(b, p.1, &rb) {
                    return Some((ProcessStatus::Invalid(p.0), p.1 + 1));
                } else {
                    return None;
                }
            },
            None => {
                return None;
            },
        }
    }
    let lstp: [u8; 11] = [123, 34, 83, 116, 111, 112, 112, 101, 100, 34, 58];
    proof {
        assert(lstp@ =~= lit_stopped());
    }
    if eat_lit(b, pos, &lstp) {
        assert(pos + 11 <= n);
        match parse_int(b, pos + 11) {
            Some(p) => {
                if eat_lit(b, p.1, &rb) {
                    return Some((ProcessStatus::Stopped(p.0), p.1 + 1));
                } else {
                    return None;
                }
            },
            None => {
                return None;
            },
        }
    }
    None
}

fn parse_record(b: &Vec<u8>, pos: usize) -> (r: Option<(ProcessConfig, usize)>)
    requires
        pos <= b@.len(),
    ensures
        match r {
            Some(p) => sp_record(b@, pos as int) == Some((p.0@, p.1 as int)) && p.1 <= b@.len(),
            None => sp_record(b@, pos as int) is None,
        },
{
    let n = b.len();
    let lname: [u8; 8] = [123, 34, 110, 97, 109, 101, 34, 58];
    proof {
        assert(lname@ =~= lit_name());
    }
    if !eat_lit(b, pos, &lname) {
        return None;
    }
    assert(pos + 8 <= n);
    let (name, e1) = match parse_opt_string(b, pos + 8) {
        Some(p) => p,
        None => {
            return None;
        },
    };
    let lcmd: [u8; 7] = [44, 34, 99, 109, 100, 34, 58];
    proof {
        assert(lcmd@ =~= lit_cmd());
    }
    if !eat_lit(b, e1, &lcmd) {
        return None;
    }
    assert(e1 + 7 <= n);
    let (cmd, e2) = match parse_string(b, e1 + 7) {
        Some(p) => p,
        None => {
            return None;
        },
    };
    let lstat: [u8; 10] = [44, 34, 115, 116, 97, 116, 117, 115, 34, 58];
    proof {
        assert(lstat@ =~= lit_status());
    }
    let (status, e3) = if eat_lit(b, e2, &lstat) {
        assert(e2 + 10 <= n);
        match parse_status(b, e2 + 10) {
            Some(p) => p,
            None => {
                return None;
            },
        }
    } else {
        (ProcessStatus::Disabled, e2)
    };
    let lout: [u8; 10] = [44, 34, 111, 117, 116, 112, 117, 116, 34, 58];
    proof {
        assert(lout@ =~= lit_output());
    }
    if !eat_lit(b, e3, &lout) {
        return None;
    }
    assert(e3 + 10 <= n);
    let (output, e4) = match parse_opt_string(b, e3 + 10) {
        Some(p) => p,
        None => {
            return None;
        },
    };
    let rb: [u8; 1] = [125];
    proof {
        assert(rb@ =~= seq![125u8]);
    }
    if !eat_lit(b, e4, &rb) {
        return None;
    }
    let rec = ProcessConfig { name, cmd, status, output };
    Some((rec, e4 + 1))
}

// ---------------------------------------------------------------------
// The decoder inverts the encoder: parsing an encoded state yields exactly
// the state that was encoded. This is proved segment by segment, peeling
// the encoding apart from the left.
/// Splitting a known subrange at a concatenation boundary.
proof fn lemma_subrange_split(b: Seq<u8>, pos: int, x: Seq<u8>, y: Seq<u8>)
    requires
        0 <= pos,
        pos + x.len() + y.len() <= b.len(),
        b.subrange(pos, pos + x.len() + y.len()) == x + y,
    ensures
        b.subrange(pos, pos + x.len()) == x,
        b.subrange(pos + x.len(), pos + x.len() + y.len()) == y,
{
    assert(b.subrange(pos, pos + x.len()) =~= x) by {
        assert(forall|i: int|
            0 <= i < x.len() ==> b.subrange(pos, pos + x.len() + y.len())[i] == (x + y)[i]);
    }
    assert(b.subrange(pos + x.len(), pos + x.len() + y.len()) =~= y) by {
        assert(forall|i: int|
            0 <= i < y.len() ==> #[trigger] b.subrange(pos + x.len(), pos + x.len() + y.len())[i]
                == b.subrange(pos, pos + x.len() + y.len())[x.len() + i]);
    }
}

proof fn lemma_sp_str_body_exact(b: Seq<u8>, pos: int, s: Seq<u8>)
    requires
        0 <= pos,
        pos + enc_str_body(s).len() + 1 <= b.len(),
        b.subrange(pos, pos + enc_str_body(s).len() + 1) == enc_str_body(s) + seq![quote()],
    ensures
        sp_str_body(b, pos) == Some((s, pos + enc_str_body(s).len() + 1)),
    decreases s.len(),
{
    let e = enc_str_body(s) + seq![quote()];
    let l = enc_str_body(s).len() + 1;
    if s.len() == 0 {
        assert(b[pos] == e[0]);
        assert(b[pos] == quote());
        assert(sp_str_body(b, pos) == Some((Seq::<u8>::empty(), pos + 1)));
        assert(Seq::<u8>::empty() =~= s);
    } else {
        let c = s[0];
        let rest = s.drop_first();
        assert(enc_str_body(s) == esc(c) + enc_str_body(rest));
        assert(e =~= esc(c) + (enc_str_body(rest) + seq![quote()]));
        lemma_subrange_split(b, pos, esc(c), enc_str_body(rest) + seq![quote()]);
        let p2 = pos + esc(c).len();
        lemma_sp_str_body_exact(b, p2, rest);
        if c == quote() || c == backslash() {
            assert(b[pos] == esc(c)[0]) by {
                assert(b.subrange(pos, pos + 2)[0] == b[pos]);
            }
            assert(b[pos + 1] == esc(c)[1]) by {
                assert(b.subrange(pos, pos + 2)[1] == b[pos + 1]);
            }
            assert(b[pos] == backslash() && b[pos + 1] == c);
            assert(sp_str_body(b, pos) == prepend(seq![c], sp_str_body(b, pos + 2)));
            assert(seq![c] + rest =~= s);
        } else if c < 0x20 {
            let h = hex_digit(c as int / 16);
            let l = hex_digit(c as int % 16);
            assert(b[pos] == esc(c)[0]) by {
                assert(b.subrange(pos, pos + 6)[0] == b[pos]);
            }
            assert(b[pos + 1] == esc(c)[1]) by {
                assert(b.subrange(pos, pos + 6)[1] == b[pos + 1]);
            }
            assert(b[pos + 2] == esc(c)[2]) by {
                assert(b.subrange(pos, pos + 6)[2] == b[pos + 2]);
            }
            assert(b[pos + 3] == esc(c)[3]) by {
                assert(b.subrange(pos, pos + 6)[3] == b[pos + 3]);
            }
            assert(b[pos + 4] == esc(c)[4]) by {
                assert(b.subrange(pos, pos + 6)[4] == b[pos + 4]);
            }
            assert(b[pos + 5] == esc(c)[5]) by {
                assert(b.subrange(pos, pos + 6)[5] == b[pos + 5]);
            }
            assert(b[pos] == backslash() && b[pos + 1] == 117 && b[pos + 2] == 48 && b[pos + 3]
                == 48);
            assert(b[pos + 4] == h && b[pos + 5] == l);
            assert(is_hex(h) && is_hex(l));
            assert(hex_val(h) == c as int / 16 && hex_val(l) == c as int % 16);
            vstd::arithmetic::div_mod::lemma_fundamental_div_mod(c as int, 16);
            assert((hex_val(b[pos + 4]) * 16 + hex_val(b[pos + 5])) as u8 == c);
            assert(sp_str_body(b, pos) == prepend(seq![c], sp_str_body(b, pos + 6)));
            assert(seq![c] + rest =~= s);
        } else {
            assert(b[pos] == esc(c)[0]) by {
                assert(b.subrange(pos, pos + 1)[0] == b[pos]);
            }
            assert(b[pos] == c);
            assert(sp_str_body(b, pos) == prepend(seq![c], sp_str_body(b, pos + 1)));
            assert(seq![c] + rest =~= s);
        }
    }
}

proof fn lemma_sp_string_exact(b: Seq<u8>, pos: int, s: Seq<u8>)
    requires
        0 <= pos,
        pos + enc_string(s).len() <= b.len(),
        b.subrange(pos, pos + enc_string(s).len()) == enc_string(s),
    ensures
        sp_string(b, pos) == Some((s, pos + enc_string(s).len())),
{
    assert(enc_string(s) =~= seq![quote()] + (enc_str_body(s) + seq![quote()]));
    lemma_subrange_split(b, pos, seq![quote()], enc_str_body(s) + seq![quote()]);
    assert(b[pos] == quote()) by {
        assert(b.subrange(pos, pos + 1)[0] == b[pos]);
    }
    lemma_sp_str_body_exact(b, pos + 1, s);
}

proof fn lemma_sp_opt_string_exact(b: Seq<u8>, pos: int, o: Option<Seq<u8>>)
    requires
        0 <= pos,
        pos + enc_opt_string(o).len() <= b.len(),
        b.subrange(pos, pos + enc_opt_string(o).len()) == enc_opt_string(o),
    ensures
        sp_opt_string(b, pos) == Some((o, pos + enc_opt_string(o).len())),
{
    match o {
        None => {
            assert(at_lit(b, pos, lit_null()));
        },
        Some(s) => {
            assert(b[pos] == quote()) by {
                assert(b.subrange(pos, pos + enc_string(s).len())[0] == b[pos]);
            }
            assert(!at_lit(b, pos, lit_null())) by {
                if at_lit(b, pos, lit_null()) {
                    assert(b.subrange(pos, pos + 4)[0] == b[pos]);
                }
            }
            lemma_sp_string_exact(b, pos, s);
        },
    }
}

/// The value a digit run accumulates onto `acc`.
spec fn digits_val(d: Seq<u8>, acc: nat) -> nat
    decreases d.len(),
{
    if d.len() == 0 {
        acc
    } else {
        digits_val(d.drop_first(), (acc * 10 + (d[0] - 48)) as nat)
    }
}

proof fn lemma_digits_val_mono(d: Seq<u8>, acc: nat)
    requires
        forall|i: int| 0 <= i < d.len() ==> is_digit(#[trigger] d[i]),
    ensures
        digits_val(d, acc) >= acc,
    decreases d.len(),
{
    if d.len() > 0 {
        let acc2 = (acc * 10 + (d[0] - 48)) as nat;
        assert(acc * 10 >= acc) by (nonlinear_arith)
            requires
                acc >= 0,
        ;
        assert(forall|i: int|
            0 <= i < d.drop_first().len() ==> is_digit(#[trigger] d.drop_first()[i]));
        lemma_digits_val_mono(d.drop_first(), acc2);
    }
}

proof fn lemma_sp_digits_exact(b: Seq<u8>, pos: int, d: Seq<u8>, acc: nat)
    requires
        0 <= pos,
        pos + d.len() <= b.len(),
        b.subrange(pos, pos + d.len()) == d,
        forall|i: int| 0 <= i < d.len() ==> is_digit(#[trigger] d[i]),
        pos + d.len() == b.len() || !is_digit(b[pos + d.len()]),
        digits_val(d, acc) <= mag_cap(),
    ensures
        sp_digits(b, pos, acc) == Some((digits_val(d, acc), pos + d.len())),
    decreases d.len(),
{
    if d.len() == 0 {
    } else {
        assert(b[pos] == d[0]) by {
            assert(b.subrange(pos, pos + d.len())[0] == b[pos]);
        }
        let acc2 = (acc * 10 + (d[0] - 48)) as nat;
        assert(forall|i: int|
            0 <= i < d.drop_first().len() ==> is_digit(#[trigger] d.drop_first()[i]));
        lemma_digits_val_mono(d.drop_first(), acc2);
        assert(b.subrange(pos + 1, pos + d.len()) =~= d.drop_first()) by {
            assert(forall|i: int|
                0 <= i < d.len() ==> #[trigger] b.subrange(pos, pos + d.len())[i] == b[pos + i]);
        }
        lemma_sp_digits_exact(b, pos + 1, d.drop_first(), acc2);
    }
}

spec fn pow10(k: nat) -> nat
    decreases k,
{
    if k == 0 {
        1
    } else {
        10 * pow10((k - 1) as nat)
    }
}

proof fn lemma_enc_nat_digits(n: nat)
    ensures
        enc_nat(n).len() >= 1,
        forall|i: int| 0 <= i < enc_nat(n).len() ==> is_digit(#[trigger] enc_nat(n)[i]),
    decreases n,
{
    if n >= 10 {
        lemma_enc_nat_digits(n / 10);
    }
}

proof fn lemma_digits_val_append(d1: Seq<u8>, d2: Seq<u8>, acc: nat)
    ensures
        digits_val(d1 + d2, acc) == digits_val(d2, digits_val(d1, acc)),
    decreases d1.len(),
{
    if d1.len() == 0 {
        assert(d1 + d2 =~= d2);
    } else {
        assert((d1 + d2)[0] == d1[0]);
        assert((d1 + d2).drop_first() =~= d1.drop_first() + d2);
        lemma_digits_val_append(d1.drop_first(), d2, (acc * 10 + (d1[0] - 48)) as nat);
    }
}

proof fn lemma_enc_nat_val(n: nat, acc: nat)
    ensures
        digits_val(enc_nat(n), acc) == acc * pow10(enc_nat(n).len() as nat) + n,
    decreases n,
{
    if n < 10 {
        assert(digits_val(enc_nat(n), acc) == acc * 10 + n) by {
            assert(enc_nat(n) == seq![(48 + n) as u8]);
            assert(enc_nat(n)[0] == (48 + n) as u8);
            assert(((48 + n) as u8 - 48) as nat == n);
            assert(enc_nat(n).drop_first() =~= Seq::<u8>::empty());
            assert(digits_val(Seq::<u8>::empty(), (acc * 10 + n) as nat) == acc * 10 + n);
        }
        assert(pow10(0) == 1);
        assert(pow10(1) == 10);
    } else {
        let e1 = enc_nat(n / 10);
        let l: u8 = (48 + n % 10) as u8;
        assert(enc_nat(n) == e1 + seq![l]);
        lemma_digits_val_append(e1, seq![l], acc);
        lemma_enc_nat_val(n / 10, acc);
        let m = digits_val(e1, acc);
        assert(digits_val(seq![l], m) == m * 10 + n % 10) by {
            assert(seq![l][0] == l);
            assert((l - 48) as nat == n % 10);
            assert(seq![l].drop_first() =~= Seq::<u8>::empty());
            assert(digits_val(Seq::<u8>::empty(), (m * 10 + n % 10) as nat) == m * 10 + n % 10);
        }
        let k = e1.len() as nat;
        assert(m == acc * pow10(k) + n / 10);
        assert(enc_nat(n).len() == k + 1);
        assert(pow10(k + 1) == 10 * pow10(k));
        assert((acc * pow10(k) + n / 10) * 10 == acc * (pow10(k) * 10) + (n / 10) * 10)
            by (nonlinear_arith);
        vstd::arithmetic::div_mod::lemma_fundamental_div_mod(n as int, 10);
        assert(m * 10 + n % 10 == acc * pow10(k + 1) + n) by (nonlinear_arith)
            requires
                m == acc * pow10(k) + n / 10,
                pow10(k + 1) == 10 * pow10(k),
                n == 10 * (n as int / 10) + n as int % 10,
        ;
    }
}

proof fn lemma_sp_int_exact(b: Seq<u8>, pos: int, p: int)
    requires
        -0x8000_0000 <= p <= 0x7fff_ffff,
        0 <= pos,
        pos + enc_int(p).len() <= b.len(),
        b.subrange(pos, pos + enc_int(p).len()) == enc_int(p),
        pos + enc_int(p).len() == b.len() || !is_digit(b[pos + enc_int(p).len()]),
    ensures
        sp_int(b, pos) == Some((p, pos + enc_int(p).len())),
{
    if p < 0 {
        let m = (-p) as nat;
        lemma_enc_nat_digits(m);
        assert(enc_int(p) =~= seq![45u8] + enc_nat(m));
        lemma_subrange_split(b, pos, seq![45u8], enc_nat(m));
        assert(b[pos] == 45) by {
            assert(b.subrange(pos, pos + 1)[0] == b[pos]);
        }
        assert(b[pos + 1] == enc_nat(m)[0]) by {
            assert(b.subrange(pos + 1, pos + 1 + enc_nat(m).len())[0] == b[pos + 1]);
        }
        lemma_enc_nat_val(m, 0);
        lemma_sp_digits_exact(b, pos + 1, enc_nat(m), 0);
        assert(digits_val(enc_nat(m), 0) == m);
    } else {
        let m = p as nat;
        lemma_enc_nat_digits(m);
        assert(b[pos] == enc_nat(m)[0]) by {
            assert(b.subrange(pos, pos + enc_nat(m).len())[0] == b[pos]);
        }
        assert(is_digit(b[pos]) && b[pos] != 45);
        lemma_enc_nat_val(m, 0);
        lemma_sp_digits_exact(b, pos, enc_nat(m), 0);
        assert(digits_val(enc_nat(m), 0) == m);
    }
}

proof fn lemma_sp_status_exact(b: Seq<u8>, pos: int, st: ProcessStatus)
    requires
        0 <= pos,
        pos + enc_status(st).len() <= b.len(),
        b.subrange(pos, pos + enc_status(st).len()) == enc_status(st),
    ensures
        sp_status(b, pos) == Some((st, pos + enc_status(st).len())),
{
    match st {
        ProcessStatus::Disabled => {
            assert(at_lit(b, pos, lit_disabled()));
        },
        ProcessStatus::Running(pid) => {
            lemma_sp_status_tagged(b, pos, lit_running(), pid);
            assert(!at_lit(b, pos, lit_disabled())) by {
                assert(b[pos] == 123) by {
                    assert(b.subrange(pos, pos + enc_status(st).len())[0] == b[pos]);
                }
                if at_lit(b, pos, lit_disabled()) {
                    assert(b.subrange(pos, pos + 10)[0] == b[pos]);
                }
            }
        },
        ProcessStatus::Invalid(pid) => {
            lemma_sp_status_tagged(b, pos, lit_invalid(), pid);
            assert(b[pos] == 123 && b[pos + 2] == 73) by {
                assert(b.subrange(pos, pos + enc_status(st).len())[0] == b[pos]);
                assert(b.subrange(pos, pos + enc_status(st).len())[2] == b[pos + 2]);
            }
            assert(!at_lit(b, pos, lit_disabled())) by {
                if at_lit(b, pos, lit_disabled()) {
                    assert(b.subrange(pos, pos + 10)[0] == b[pos]);
                }
            }
            assert(!at_lit(b, pos, lit_running())) by {
                if at_lit(b, pos, lit_running()) {
                    assert(b.subrange(pos, pos + 11)[2] == b[pos + 2]);
                }
            }
        },
        ProcessStatus::Stopped(pid) => {
            lemma_sp_status_tagged(b, pos, lit_stopped(), pid);
            assert(b[pos] == 123 && b[pos + 2] == 83) by {
                assert(b.subrange(pos, pos + enc_status(st).len())[0] == b[pos]);
                assert(b.subrange(pos, pos + enc_status(st).len())[2] == b[pos + 2]);
            }
            assert(!at_lit(b, pos, lit_disabled())) by {
                if at_lit(b, pos, lit_disabled()) {
                    assert(b.subrange(pos, pos + 10)[0] == b[pos]);
                }
            }
            assert(!at_lit(b, pos, lit_running())) by {
                if at_lit(b, pos, lit_running()) {
                    assert(b.subrange(pos, pos + 11)[2] == b[pos + 2]);
                }
            }
            assert(!at_lit(b, pos, lit_invalid())) by {
                if at_lit(b, pos, lit_invalid()) {
                    assert(b.subrange(pos, pos + 11)[2] == b[pos + 2]);
                }
            }
        },
    }
}

/// The shared shape of the three pid-carrying status encodings: the tag
/// literal, the pid, and a closing brace.
proof fn lemma_sp_status_tagged(b: Seq<u8>, pos: int, tag: Seq<u8>, pid: i32)
    requires
        0 <= pos,
        tag.len() == 11,
        pos + tag.len() + enc_int(pid as int).len() + 1 <= b.len(),
        b.subrange(pos, pos + tag.len() + enc_int(pid as int).len() + 1) == tag + enc_int(
            pid as int,
        ) + seq![125u8],
    ensures
        at_lit(b, pos, tag),
        sp_int(b, pos + 11) == Some((pid as int, pos + 11 + enc_int(pid as int).len())),
        at_lit(b, pos + 11 + enc_int(pid as int).len(), seq![125u8]),
{
    let ei = enc_int(pid as int);
    assert(tag + ei + seq![125u8] =~= tag + (ei + seq![125u8]));
    lemma_subrange_split(b, pos, tag, ei + seq![125u8]);
    lemma_subrange_split(b, pos + 11, ei, seq![125u8]);
    assert(b[pos + 11 + ei.len()] == 125) by {
        assert(b.subrange(pos + 11 + ei.len(), pos + 11 + ei.len() + 1)[0] == b[pos + 11
            + ei.len()]);
    }
    lemma_sp_int_exact(b, pos + 11, pid as int);
}

#[verifier::rlimit(100)]
proof fn lemma_sp_record_exact(b: Seq<u8>, pos: int, r: RecordView, f: bool)
    requires
        !f ==> r.status == ProcessStatus::Disabled,
        0 <= pos,
        pos + enc_record(r, f).len() <= b.len(),
        b.subrange(pos, pos + enc_record(r, f).len()) == enc_record(r, f),
    ensures
        sp_record(b, pos) == Some((r, pos + enc_record(r, f).len())),
{
    let a = enc_opt_string(r.name);
    let c = enc_string(r.cmd);
    let stseg = if f {
        lit_status() + enc_status(r.status)
    } else {
        Seq::<u8>::empty()
    };
    let o = enc_opt_string(r.output);
    let e = enc_record(r, f);
    assert(e =~= lit_name() + (a + (lit_cmd() + (c + (stseg + (lit_output() + (o
        + seq![125u8])))))));
    let p1 = pos + 8;
    lemma_subrange_split(b, pos, lit_name(), a + (lit_cmd() + (c + (stseg + (lit_output() + (o
        + seq![125u8]))))));
    assert(at_lit(b, pos, lit_name()));
    lemma_subrange_split(b, p1, a, lit_cmd() + (c + (stseg + (lit_output() + (o
        + seq![125u8])))));
    lemma_sp_opt_string_exact(b, p1, r.name);
    let p2 = p1 + a.len();
    lemma_subrange_split(b, p2, lit_cmd(), c + (stseg + (lit_output() + (o + seq![125u8]))));
    assert(at_lit(b, p2, lit_cmd()));
    let p3 = p2 + 7;
    lemma_subrange_split(b, p3, c, stseg + (lit_output() + (o + seq![125u8])));
    lemma_sp_string_exact(b, p3, r.cmd);
    let p4 = p3 + c.len();
    lemma_subrange_split(b, p4, stseg, lit_output() + (o + seq![125u8]));
    let p6 = p4 + stseg.len();
    lemma_subrange_split(b, p6, lit_output(), o + seq![125u8]);
    assert(at_lit(b, p6, lit_output()));
    let p7 = p6 + 10;
    lemma_subrange_split(b, p7, o, seq![125u8]);
    lemma_sp_opt_string_exact(b, p7, r.output);
    let p8 = p7 + o.len();
    assert(at_lit(b, p8, seq![125u8]));
    if f {
        assert(stseg =~= lit_status() + enc_status(r.status));
        lemma_subrange_split(b, p4, lit_status(), enc_status(r.status));
        assert(at_lit(b, p4, lit_status()));
        lemma_sp_status_exact(b, p4 + 10, r.status);
        assert(sp_record_tail(b, p6, r.name, r.cmd, r.status) == Some((r, p8 + 1))) by {
            assert(RecordView { name: r.name, cmd: r.cmd, status: r.status, output: r.output }
                == r);
        }
    } else {
        assert(p6 == p4);
        assert(!at_lit(b, p4, lit_status())) by {
            assert(b[p4 + 2] == lit_output()[2]) by {
                assert(b.subrange(p6, p6 + 10)[2] == b[p6 + 2]);
            }
            if at_lit(b, p4, lit_status()) {
                assert(b.subrange(p4, p4 + 10)[2] == b[p4 + 2]);
            }
        }
        assert(sp_record_tail(b, p4, r.name, r.cmd, ProcessStatus::Disabled) == Some(
            (r, p8 + 1),
        )) by {
            assert(RecordView {
                name: r.name,
                cmd: r.cmd,
                status: ProcessStatus::Disabled,
                output: r.output,
            } == r);
        }
    }
}

/// Front-first decomposition of the record list encoding.
proof fn lemma_enc_records_front(s: Seq<RecordView>, flags: Seq<bool>)
    requires
        s.len() >= 1,
        flags.len() == s.len(),
    ensures
        s.len() == 1 ==> enc_records(s, flags) == enc_record(s[0], flags[0]),
        s.len() >= 2 ==> enc_records(s, flags) == enc_record(s[0], flags[0]) + seq![44u8]
            + enc_records(s.drop_first(), flags.drop_first()),
    decreases s.len(),
{
    if s.len() == 1 {
    } else if s.len() == 2 {
        assert(s.drop_last()[0] == s[0] && flags.drop_last()[0] == flags[0]);
        assert(s.drop_first().len() == 1);
        assert(s.drop_first()[0] == s[1] && flags.drop_first()[0] == flags[1]);
        assert(enc_records(s.drop_first(), flags.drop_first()) == enc_record(s[1], flags[1]));
        assert(s.last() == s[1] && flags.last() == flags[1]);
        assert(enc_records(s.drop_last(), flags.drop_last()) == enc_record(s[0], flags[0]));
        assert(enc_records(s, flags) == enc_record(s[0], flags[0]) + seq![44u8] + enc_record(
            s[1],
            flags[1],
        ));
    } else {
        lemma_enc_records_front(s.drop_last(), flags.drop_last());
        assert(s.drop_last()[0] == s[0] && flags.drop_last()[0] == flags[0]);
        let sd = s.drop_first();
        let fd = flags.drop_first();
        assert(s.drop_last().drop_first() =~= sd.drop_last());
        assert(flags.drop_last().drop_first() =~= fd.drop_last());
        assert(sd.last() == s.last() && fd.last() == flags.last());
        assert(enc_records(sd, fd) == enc_records(sd.drop_last(), fd.drop_last()) + seq![44u8]
            + enc_record(sd.last(), fd.last()));
        assert(enc_records(s, flags) =~= enc_record(s[0], flags[0]) + seq![44u8] + enc_records(
            sd,
            fd,
        ));
    }
}

#[verifier::rlimit(100)]
proof fn lemma_sp_records_exact(b: Seq<u8>, pos: int, s: Seq<RecordView>, flags: Seq<bool>)
    requires
        s.len() >= 1,
        flags_ok(s, flags),
        0 <= pos,
        pos + enc_records(s, flags).len() < b.len(),
        b.subrange(pos, pos + enc_records(s, flags).len()) == enc_records(s, flags),
        b[pos + enc_records(s, flags).len()] == 93,
    ensures
        sp_records(b, pos) == Some((s, pos + enc_records(s, flags).len())),
    decreases s.len(),
{
    lemma_enc_records_front(s, flags);
    if s.len() == 1 {
        lemma_sp_record_exact(b, pos, s[0], flags[0]);
        let e = pos + enc_record(s[0], flags[0]).len();
        assert(b[e] != 44);
        assert(seq![s[0]] =~= s);
    } else {
        let r0 = enc_record(s[0], flags[0]);
        let rest = enc_records(s.drop_first(), flags.drop_first());
        assert(enc_records(s, flags) =~= r0 + (seq![44u8] + rest));
        lemma_subrange_split(b, pos, r0, seq![44u8] + rest);
        lemma_subrange_split(b, pos + r0.len(), seq![44u8], rest);
        lemma_sp_record_exact(b, pos, s[0], flags[0]);
        let p1 = pos + r0.len();
        assert(b[p1] == 44) by {
            assert(b.subrange(p1, p1 + 1)[0] == b[p1]);
        }
        assert(flags_ok(s.drop_first(), flags.drop_first())) by {
            assert(forall|i: int|
                0 <= i < s.drop_first().len() ==> s.drop_first()[i] == s[i + 1]
                    && flags.drop_first()[i] == flags[i + 1]);
        }
        lemma_sp_records_exact(b, p1 + 1, s.drop_first(), flags.drop_first());
        assert(seq![s[0]] + s.drop_first() =~= s);
    }
}

/// Law: decoding inverts encoding. Any persisted form of any state —
/// canonical or with status fields omitted where they default — decodes to
/// exactly that state. With [`save`]'s and [`load`]'s contracts
/// this gives the round trip both ways: `load(save(s))` returns `s`
/// unchanged, and saving what a well-shaped file loads to reproduces that
/// file byte for byte.
#[verifier::rlimit(100)]
pub proof fn lemma_decode_inverts_encode(s: Seq<RecordView>, flags: Seq<bool>)
    requires
        flags_ok(s, flags),
    ensures
        sp_state(enc_state(s, flags)) == Some(s),
{
    let b = enc_state(s, flags);
    let recs = enc_records(s, flags);
    assert(b =~= seq![91u8] + (recs + seq![93u8, 10]));
    assert(b[0] == 91);
    if s.len() == 0 {
        assert(recs =~= Seq::<u8>::empty());
        assert(b =~= seq![91u8, 93u8, 10u8]);
        assert(sp_state(b) == Some(Seq::<RecordView>::empty()));
        assert(Seq::<RecordView>::empty() =~= s);
    } else {
        lemma_enc_records_front(s, flags);
        assert(recs[0] == enc_record(s[0], flags[0])[0]);
        assert(enc_record(s[0], flags[0])[0] == 123);
        assert(b[1] == recs[0]);
        assert(b.subrange(1, 1 + recs.len() as int) =~= recs);
        assert(b[1 + recs.len() as int] == 93 && b[1 + recs.len() as int + 1] == 10);
        lemma_sp_records_exact(b, 1, s, flags);
    }
}

/// Law: the canonical encoding of any state decodes to that state; this is [`lemma_decode_inverts_encode`] at the flags [`save`]
/// uses, so `save(load(bytes)) == bytes` for every canonically-shaped
/// `bytes`.
pub proof fn lemma_round_trip(s: Seq<RecordView>)
    ensures
        sp_state(enc_canonical(s)) == Some(s),
{
    lemma_decode_inverts_encode(s, Seq::new(s.len(), |i: int| true));
}

/// Decode a whole persisted state file. Returns the registry it holds, or
/// [`SuperviseError::MalformedState`] if and only if the bytes are not a
/// well-shaped persisted state. Only this crate's own shape is accepted —
/// a record may omit its status field and the trailing newline may be
/// missing, but no other whitespace, field order or escape form loads.
pub fn load(bytes: &Vec<u8>) -> (r: Result<State, SuperviseError>)
    ensures
        match r {
            Ok(s) => sp_state(bytes@) == Some(state_views(s@)),
            Err(e) => e == SuperviseError::MalformedState && sp_state(bytes@) is None,
        },
{
    if bytes.len() < 1 || bytes[0] != 91 {
        return Err(SuperviseError::MalformedState);
    }
    if bytes.len() >= 2 && bytes[1] == 93 {
        if bytes.len() == 2 || (bytes.len() == 3 && bytes[2] == 10) {
            let s: State = Vec::new();
            proof {
                assert(state_views(s@) =~= Seq::<RecordView>::empty());
            }
            return Ok(s);
        } else {
            return Err(SuperviseError::MalformedState);
        }
    }
    let mut acc: State = Vec::new();
    let mut cur: usize = 1;
    proof {
        lemma_prepend_recs_empty(sp_records(bytes@, 1));
        assert(state_views(acc@) =~= Seq::<RecordView>::empty());
    }
    loop
        invariant
            1 <= cur <= bytes@.len(),
            bytes@.len() >= 1 && bytes@[0] == 91,
            !(bytes@.len() >= 2 && bytes@[1] == 93),
            sp_records(bytes@, 1) == prepend_recs(state_views(acc@), sp_records(bytes@, cur as int)),
        decreases bytes@.len() - cur,
    {
        match parse_record(bytes, cur) {
            None => {
                return Err(SuperviseError::MalformedState);
            },
            Some((rec, e)) => {
                proof {
                    lemma_sp_record_bounds(bytes@, cur as int);
                    assert(state_views(acc@.push(rec)) =~= state_views(acc@) + seq![rec@]);
                }
                if e < bytes.len() && bytes[e] == 44 {
                    proof {
                        assert(sp_records(bytes@, cur as int) == prepend_recs(
                            seq![rec@],
                            sp_records(bytes@, e as int + 1),
                        ));
                        lemma_prepend_recs_assoc(
                            state_views(acc@),
                            seq![rec@],
                            sp_records(bytes@, e as int + 1),
                        );
                    }
                    acc.push(rec);
                    cur = e + 1;
                } else {
                    proof {
                        assert(sp_records(bytes@, cur as int) == Some((seq![rec@], e as int)));
                    }
                    acc.push(rec);
                    let rem = bytes.len() - e;
                    if (rem == 1 && bytes[e] == 93) || (rem == 2 && bytes[e] == 93 && bytes[e
                        + 1] == 10) {
                        return Ok(acc);
                    } else {
                        return Err(SuperviseError::MalformedState);
                    }
                }
            },
        }
    }
}

} // verus!
