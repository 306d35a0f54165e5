//! Byte-level codec for the persisted store document.
//!
//! The store is durable as a JSON object that maps each task's id, written as
//! a string of decimal digits, to the task object
//! `{"id":<digits>,"name":"<text>","completed":<bool>}`. The serializer
//! emits the document in a canonical compact form; the parser accepts that
//! form together with whitespace between tokens, the standard JSON string
//! escapes, the three task members in any order, and unknown task members,
//! which are skipped. `spec_ser_db` and `spec_parse_db` are the mathematical
//! statements of the two directions, and `lemma_parse_ser_db` proves that
//! parsing a serialized store recovers exactly the serialized records.

use vstd::prelude::*;
use vstd::string::StrSliceExecFns;
use vstd::utf8::{decode_utf8, encode_scalar, encode_utf8, is_scalar, valid_utf8};

use crate::model::{Task, TaskView};

verus! {

/// Error for a persisted document whose bytes are not well-formed.
#[derive(Clone, Copy, Debug, PartialEq, Eq)]
pub struct ParseError;

// --- byte classes ---

/// JSON whitespace.
pub open spec fn is_ws_byte(b: u8) -> bool {
    b == 0x20 || b == 0x09 || b == 0x0a || b == 0x0d
}

/// ASCII decimal digit.
pub open spec fn is_digit_byte(b: u8) -> bool {
    0x30 <= b <= 0x39
}

/// ASCII hexadecimal digit (either case).
pub open spec fn is_hex_byte(b: u8) -> bool {
    is_digit_byte(b) || (0x61 <= b <= 0x66) || (0x41 <= b <= 0x46)
}

/// Numeric value of a hexadecimal digit byte.
pub open spec fn hex_val(b: u8) -> u32
    recommends
        is_hex_byte(b),
{
    if is_digit_byte(b) {
        (b - 0x30) as u32
    } else if 0x61 <= b <= 0x66 {
        (b - 0x61 + 10) as u32
    } else {
        (b - 0x41 + 10) as u32
    }
}

/// The lower-case hexadecimal digit for a value below 16.
pub open spec fn hex_digit(d: u8) -> u8
    recommends
        d < 16,
{
    if d < 10 {
        (0x30 + d) as u8
    } else {
        (0x57 + d) as u8
    }
}

// --- serializer, specification ---

/// Decimal digits of `n`, most significant first.
pub open spec fn ser_u64(n: u64) -> Seq<u8>
    decreases n,
{
    if n < 10 {
        seq![(0x30 + n) as u8]
    } else {
        ser_u64((n / 10) as u64).push((0x30 + n % 10) as u8)
    }
}

/// JSON escape of one byte of string content: quote and backslash get a
/// backslash escape, control bytes a four-digit hexadecimal escape, and every
/// other byte stands for itself.
pub open spec fn esc_byte(b: u8) -> Seq<u8> {
    if b == 0x22 {
        seq![0x5cu8, 0x22u8]
    } else if b == 0x5c {
        seq![0x5cu8, 0x5cu8]
    } else if b < 0x20 {
        seq![0x5cu8, 0x75u8, 0x30u8, 0x30u8, hex_digit((b / 16) as u8), hex_digit((b % 16) as u8)]
    } else {
        seq![b]
    }
}

/// JSON escape of a whole byte sequence of string content.
pub open spec fn esc_bytes(s: Seq<u8>) -> Seq<u8>
    decreases s.len(),
{
    if s.len() == 0 {
        seq![]
    } else {
        esc_byte(s[0]) + esc_bytes(s.drop_first())
    }
}

/// The canonical task object `{"id":...,"name":"...","completed":...}`.
pub open spec fn ser_task(t: TaskView) -> Seq<u8> {
    seq![0x7bu8, 0x22u8, 0x69u8, 0x64u8, 0x22u8, 0x3au8] + ser_u64(t.id) + seq![
        0x2cu8,
        0x22u8,
        0x6eu8,
        0x61u8,
        0x6du8,
        0x65u8,
        0x22u8,
        0x3au8,
        0x22u8,
    ] + esc_bytes(encode_utf8(t.name)) + seq![
        0x22u8,
        0x2cu8,
        0x22u8,
        0x63u8,
        0x6fu8,
        0x6du8,
        0x70u8,
        0x6cu8,
        0x65u8,
        0x74u8,
        0x65u8,
        0x64u8,
        0x22u8,
        0x3au8,
    ] + (if t.completed {
        seq![0x74u8, 0x72u8, 0x75u8, 0x65u8]
    } else {
        seq![0x66u8, 0x61u8, 0x6cu8, 0x73u8, 0x65u8]
    }) + seq![0x7du8]
}

/// One member of the document object: the id as a string key, then the task
/// object.
pub open spec fn ser_entry(t: TaskView) -> Seq<u8> {
    seq![0x22u8] + ser_u64(t.id) + seq![0x22u8, 0x3au8] + ser_task(t)
}

/// The comma-separated members for the given records, in order.
pub open spec fn ser_entries(s: Seq<TaskView>) -> Seq<u8>
    decreases s.len(),
{
    if s.len() == 0 {
        seq![]
    } else if s.len() == 1 {
        ser_entry(s[0])
    } else {
        ser_entries(s.drop_last()) + seq![0x2cu8] + ser_entry(s.last())
    }
}

/// The whole persisted document for the given records.
pub open spec fn spec_ser_db(s: Seq<TaskView>) -> Seq<u8> {
    seq![0x7bu8] + ser_entries(s) + seq![0x7du8]
}

// --- serializer, executable ---

/// Appends the lower-case hexadecimal digit for `d`.
fn hex_digit_exec(d: u8) -> (r: u8)
    requires
        d < 16,
    ensures
        r == hex_digit(d),
{
    if d < 10 {
        0x30 + d
    } else {
        0x57 + d
    }
}

/// Appends the decimal digits of `n` to `out`.
fn push_u64(out: &mut Vec<u8>, n: u64)
    ensures
        final(out)@ == old(out)@ + ser_u64(n),
    decreases n,
{
    if n >= 10 {
        push_u64(out, n / 10);
    }
    out.push(0x30 + (n % 10) as u8);
    proof {
        if n >= 10 {
            assert(final(out)@ =~= old(out)@ + ser_u64(n));
        } else {
            assert(final(out)@ =~= old(out)@ + ser_u64(n));
        }
    }
}

/// Appends the JSON escape of one content byte to `out`.
fn push_esc_byte(out: &mut Vec<u8>, b: u8)
    ensures
        final(out)@ == old(out)@ + esc_byte(b),
{
    if b == 0x22 {
        out.push(0x5c);
        out.push(0x22);
    } else if b == 0x5c {
        out.push(0x5c);
        out.push(0x5c);
    } else if b < 0x20 {
        out.push(0x5c);
        out.push(0x75);
        out.push(0x30);
        out.push(0x30);
        out.push(hex_digit_exec(b / 16));
        out.push(hex_digit_exec(b % 16));
    } else {
        out.push(b);
    }
    proof {
        assert(final(out)@ =~= old(out)@ + esc_byte(b));
    }
}

/// `esc_bytes` of a sequence extended by one byte.
proof fn lemma_esc_snoc(s: Seq<u8>, b: u8)
    ensures
        esc_bytes(s.push(b)) == esc_bytes(s) + esc_byte(b),
    decreases s.len(),
{
    if s.len() == 0 {
        assert(s.push(b).drop_first() =~= Seq::<u8>::empty());
        assert(s.push(b)[0] == b);
        assert(esc_bytes(s.push(b)) == esc_byte(b) + esc_bytes(Seq::<u8>::empty()));
        assert(esc_byte(b) + Seq::<u8>::empty() =~= esc_byte(b));
        assert(esc_bytes(s) + esc_byte(b) =~= esc_byte(b));
    } else {
        assert(s.push(b).drop_first() =~= s.drop_first().push(b));
        lemma_esc_snoc(s.drop_first(), b);
        assert(s.push(b)[0] == s[0]);
        assert(esc_bytes(s.push(b)) == esc_byte(s[0]) + (esc_bytes(s.drop_first()) + esc_byte(b)));
        assert(esc_byte(s[0]) + (esc_bytes(s.drop_first()) + esc_byte(b)) =~= (esc_byte(s[0])
            + esc_bytes(s.drop_first())) + esc_byte(b));
        assert(esc_bytes(s) == esc_byte(s[0]) + esc_bytes(s.drop_first()));
    }
}

/// Appends the JSON escape of the whole content `bytes` to `out`.
#[verifier::loop_isolation(false)]
fn push_esc_bytes(out: &mut Vec<u8>, bytes: &Vec<u8>)
    ensures
        final(out)@ == old(out)@ + esc_bytes(bytes@),
{
    let mut i: usize = 0;
    while i < bytes.len()
        invariant
            i <= bytes@.len(),
            out@ == old(out)@ + esc_bytes(bytes@.take(i as int)),
        decreases bytes@.len() - i,
    {
        proof {
            lemma_esc_snoc(bytes@.take(i as int), bytes@[i as int]);
            assert(bytes@.take(i as int).push(bytes@[i as int]) =~= bytes@.take(i + 1));
        }
        push_esc_byte(out, bytes[i]);
        proof {
            assert(out@ =~= old(out)@ + esc_bytes(bytes@.take(i + 1)));
        }
        i += 1;
    }
    proof {
        assert(bytes@.take(bytes@.len() as int) =~= bytes@);
    }
}

/// Appends the canonical task object for `t` to `out`.
#[verifier::rlimit(100)]
fn push_task(out: &mut Vec<u8>, t: &Task)
    ensures
        final(out)@ == old(out)@ + ser_task(t@),
{
    out.push(0x7b);
    out.push(0x22);
    out.push(0x69);
    out.push(0x64);
    out.push(0x22);
    out.push(0x3a);
    let ghost c1 = out@;
    proof {
        assert(c1 =~= old(out)@ + seq![0x7bu8, 0x22u8, 0x69u8, 0x64u8, 0x22u8, 0x3au8]);
    }
    push_u64(out, t.id);
    out.push(0x2c);
    out.push(0x22);
    out.push(0x6e);
    out.push(0x61);
    out.push(0x6d);
    out.push(0x65);
    out.push(0x22);
    out.push(0x3a);
    out.push(0x22);
    let ghost c2 = out@;
    proof {
        assert(c2 =~= c1 + ser_u64(t.id) + seq![
            0x2cu8,
            0x22u8,
            0x6eu8,
            0x61u8,
            0x6du8,
            0x65u8,
            0x22u8,
            0x3au8,
            0x22u8,
        ]);
    }
    let nb = t.name.as_str().as_bytes_vec();
    push_esc_bytes(out, &nb);
    out.push(0x22);
    out.push(0x2c);
    out.push(0x22);
    out.push(0x63);
    out.push(0x6f);
    out.push(0x6d);
    out.push(0x70);
    out.push(0x6c);
    out.push(0x65);
    out.push(0x74);
    out.push(0x65);
    out.push(0x64);
    out.push(0x22);
    out.push(0x3a);
    let ghost c3 = out@;
    proof {
        assert(c3 =~= c2 + esc_bytes(encode_utf8(t@.name)) + seq![
            0x22u8,
            0x2cu8,
            0x22u8,
            0x63u8,
            0x6fu8,
            0x6du8,
            0x70u8,
            0x6cu8,
            0x65u8,
            0x74u8,
            0x65u8,
            0x64u8,
            0x22u8,
            0x3au8,
        ]);
    }
    if t.completed {
        out.push(0x74);
        out.push(0x72);
        out.push(0x75);
        out.push(0x65);
    } else {
        out.push(0x66);
        out.push(0x61);
        out.push(0x6c);
        out.push(0x73);
        out.push(0x65);
    }
    out.push(0x7d);
    proof {
        assert(final(out)@ =~= old(out)@ + ser_task(t@));
    }
}

/// Appends the object member for `t` (string key, colon, task object).
fn push_entry(out: &mut Vec<u8>, t: &Task)
    ensures
        final(out)@ == old(out)@ + ser_entry(t@),
{
    out.push(0x22);
    push_u64(out, t.id);
    out.push(0x22);
    out.push(0x3a);
    push_task(out, t);
    proof {
        assert(final(out)@ =~= old(out)@ + ser_entry(t@));
    }
}

/// Serializes the given records as the persisted document, in their order.
#[verifier::loop_isolation(false)]
pub fn serialize_tasks(tasks: &Vec<Task>) -> (r: Vec<u8>)
    ensures
        r@ == spec_ser_db(tasks@.map_values(|t: Task| t@)),
{
    let ghost views = tasks@.map_values(|t: Task| t@);
    let mut out: Vec<u8> = Vec::new();
    out.push(0x7b);
    let mut i: usize = 0;
    while i < tasks.len()
        invariant
            i <= tasks@.len(),
            out@ == seq![0x7bu8] + ser_entries(views.take(i as int)),
        decreases tasks@.len() - i,
    {
        if i > 0 {
            out.push(0x2c);
        }
        push_entry(&mut out, &tasks[i]);
        proof {
            assert(views.take(i + 1).drop_last() =~= views.take(i as int));
            assert(views.take(i + 1).last() == views[i as int]);
            if i == 0 {
                assert(ser_entries(views.take(1)) == ser_entry(views[0]));
                assert(out@ =~= seq![0x7bu8] + ser_entries(views.take(i + 1)));
            } else {
                assert(ser_entries(views.take(i + 1)) == ser_entries(views.take(i as int)) + seq![
                    0x2cu8,
                ] + ser_entry(views[i as int]));
                assert(out@ =~= seq![0x7bu8] + ser_entries(views.take(i + 1)));
            }
        }
        i += 1;
    }
    out.push(0x7d);
    proof {
        assert(views.take(views.len() as int) =~= views);
        assert(out@ =~= spec_ser_db(views));
    }
    out
}

// --- parser, specification ---
//
// Each parsing function takes the still-unread suffix of the document and
// yields the parsed value together with the number of bytes consumed, or
// `None` when the suffix is not well-formed.

/// Number of leading whitespace bytes.
pub open spec fn ws_len(s: Seq<u8>) -> int
    decreases s.len(),
{
    if s.len() > 0 && is_ws_byte(s[0]) {
        1 + ws_len(s.drop_first())
    } else {
        0
    }
}

/// Number of leading decimal-digit bytes.
pub open spec fn digits_len(s: Seq<u8>) -> int
    decreases s.len(),
{
    if s.len() > 0 && is_digit_byte(s[0]) {
        1 + digits_len(s.drop_first())
    } else {
        0
    }
}

/// The number denoted by a sequence of decimal digits, most significant
/// first.
pub open spec fn digits_val(s: Seq<u8>) -> int
    decreases s.len(),
{
    if s.len() == 0 {
        0
    } else {
        digits_val(s.drop_last()) * 10 + (s.last() - 0x30)
    }
}

/// Parses a nonempty run of decimal digits as a `u64`; `None` when no digit
/// leads the suffix or the value does not fit.
pub open spec fn p_u64(s: Seq<u8>) -> Option<(u64, int)> {
    let k = digits_len(s);
    if k == 0 {
        None
    } else if digits_val(s.take(k)) > u64::MAX {
        None
    } else {
        Some((digits_val(s.take(k)) as u64, k))
    }
}

/// True when the suffix starts with the given literal.
pub open spec fn p_lit(s: Seq<u8>, lit: Seq<u8>) -> bool {
    s.len() >= lit.len() && s.take(lit.len() as int) == lit
}

/// Index just past the literal when the suffix at `i` starts with it.
pub open spec fn after_lit(s: Seq<u8>, i: int, lit: Seq<u8>) -> Option<int> {
    if 0 <= i <= s.len() && p_lit(s.skip(i), lit) {
        Some(i + lit.len())
    } else {
        None
    }
}

/// Index just past the whitespace run starting at `i`.
pub open spec fn after_ws(s: Seq<u8>, i: int) -> int {
    i + ws_len(s.skip(i))
}

/// Value of four hexadecimal digit bytes, most significant first.
pub open spec fn hex4_val(s: Seq<u8>) -> u32
    recommends
        s.len() == 4,
{
    (hex_val(s[0]) * 0x1000 + hex_val(s[1]) * 0x100 + hex_val(s[2]) * 0x10 + hex_val(s[3])) as u32
}

/// Parses one string escape, the suffix starting just after the backslash:
/// the UTF-8 bytes the escape stands for, and the bytes consumed. A `\u`
/// escape carrying a high surrogate must be followed by a `\u` escape with a
/// low surrogate; a lone surrogate is malformed.
pub open spec fn p_escape(s: Seq<u8>) -> Option<(Seq<u8>, int)> {
    if s.len() == 0 {
        None
    } else if s[0] == 0x22 {
        Some((seq![0x22u8], 1))
    } else if s[0] == 0x5c {
        Some((seq![0x5cu8], 1))
    } else if s[0] == 0x2f {
        Some((seq![0x2fu8], 1))
    } else if s[0] == 0x62 {
        Some((seq![0x08u8], 1))
    } else if s[0] == 0x66 {
        Some((seq![0x0cu8], 1))
    } else if s[0] == 0x6e {
        Some((seq![0x0au8], 1))
    } else if s[0] == 0x72 {
        Some((seq![0x0du8], 1))
    } else if s[0] == 0x74 {
        Some((seq![0x09u8], 1))
    } else if s[0] == 0x75 {
        if s.len() >= 5 && is_hex_byte(s[1]) && is_hex_byte(s[2]) && is_hex_byte(s[3])
            && is_hex_byte(s[4]) {
            let cp = hex4_val(s.subrange(1, 5));
            if 0xD800 <= cp <= 0xDBFF {
                if s.len() >= 11 && s[5] == 0x5c && s[6] == 0x75 && is_hex_byte(s[7]) && is_hex_byte(
                    s[8],
                ) && is_hex_byte(s[9]) && is_hex_byte(s[10]) {
                    let lo = hex4_val(s.subrange(7, 11));
                    if 0xDC00 <= lo <= 0xDFFF {
                        Some(
                            (
                                encode_scalar(
                                    (0x10000 + (cp - 0xD800) * 0x400 + (lo - 0xDC00)) as u32,
                                ),
                                11,
                            ),
                        )
                    } else {
                        None
                    }
                } else {
                    None
                }
            } else if 0xDC00 <= cp <= 0xDFFF {
                None
            } else {
                Some((encode_scalar(cp), 5))
            }
        } else {
            None
        }
    } else {
        None
    }
}

/// Parses JSON string content up to and including the closing quote: the
/// UTF-8 bytes of the content, and the bytes consumed. An unescaped control
/// byte or an unterminated string is malformed.
pub open spec fn p_strbody(s: Seq<u8>) -> Option<(Seq<u8>, int)>
    decreases s.len(),
{
    if s.len() == 0 {
        None
    } else if s[0] == 0x22 {
        Some((seq![], 1))
    } else if s[0] == 0x5c {
        match p_escape(s.drop_first()) {
            Some((o, k)) => {
                if 0 <= k && 1 + k <= s.len() {
                    match p_strbody(s.skip(1 + k)) {
                        Some((o2, m)) => Some((o + o2, 1 + k + m)),
                        None => None,
                    }
                } else {
                    None
                }
            },
            None => None,
        }
    } else if s[0] < 0x20 {
        None
    } else {
        match p_strbody(s.drop_first()) {
            Some((o2, m)) => Some((seq![s[0]] + o2, 1 + m)),
            None => None,
        }
    }
}

/// The decoded member key `id`.
pub open spec fn key_id() -> Seq<u8> {
    seq![0x69u8, 0x64u8]
}

/// The decoded member key `name`.
pub open spec fn key_name() -> Seq<u8> {
    seq![0x6eu8, 0x61u8, 0x6du8, 0x65u8]
}

/// The decoded member key `completed`.
pub open spec fn key_completed() -> Seq<u8> {
    seq![0x63u8, 0x6fu8, 0x6du8, 0x70u8, 0x6cu8, 0x65u8, 0x74u8, 0x65u8, 0x64u8]
}

/// Parses the literal `true` or `false`.
pub open spec fn p_bool(s: Seq<u8>) -> Option<(bool, int)> {
    if p_lit(s, seq![0x74u8, 0x72u8, 0x75u8, 0x65u8]) {
        Some((true, 4))
    } else if p_lit(s, seq![0x66u8, 0x61u8, 0x6cu8, 0x73u8, 0x65u8]) {
        Some((false, 5))
    } else {
        None
    }
}

/// A byte that can occur in a JSON number.
pub open spec fn is_number_byte(b: u8) -> bool {
    is_digit_byte(b) || b == 0x2d || b == 0x2b || b == 0x2e || b == 0x65 || b == 0x45
}

/// Number of leading number bytes.
pub open spec fn number_len(s: Seq<u8>) -> int
    decreases s.len(),
{
    if s.len() > 0 && is_number_byte(s[0]) {
        1 + number_len(s.drop_first())
    } else {
        0
    }
}

/// Parses one member's key and separator: the key string, then whitespace,
/// a colon and whitespace, yielding the decoded key bytes and the index
/// where the member's value begins.
#[verifier::opaque]
pub open spec fn p_member_key(s: Seq<u8>) -> Option<(Seq<u8>, int)> {
    let a = after_lit(s, 0, seq![0x22u8]);
    if a is None {
        None
    } else {
        match p_strbody(s.skip(1)) {
            None => None,
            Some((key, k)) => {
                let i = after_ws(s, 1 + k);
                let c = after_lit(s, i, seq![0x3au8]);
                if c is None {
                    None
                } else {
                    Some((key, after_ws(s, c.unwrap())))
                }
            },
        }
    }
}

/// Skips one JSON value of any kind, yielding the bytes consumed. Used for
/// the values of unknown task-object members, which are ignored. Numbers are
/// skipped as a run of number bytes, which accepts every JSON number.
#[verifier::opaque]
pub open spec fn skip_value(s: Seq<u8>) -> Option<int>
    decreases s.len(), 0int,
{
    if s.len() == 0 {
        None
    } else if s[0] == 0x22 {
        match p_strbody(s.skip(1)) {
            Some((o, k)) => if 1 + k <= s.len() {
                Some(1 + k)
            } else {
                None
            },
            None => None,
        }
    } else if s[0] == 0x7b {
        let i = after_ws(s, 1);
        let close = after_lit(s, i, seq![0x7du8]);
        if close is Some {
            Some(close.unwrap())
        } else if 0 < i <= s.len() {
            match skip_members(s.skip(i)) {
                Some(k) => Some(i + k),
                None => None,
            }
        } else {
            None
        }
    } else if s[0] == 0x5b {
        let i = after_ws(s, 1);
        let close = after_lit(s, i, seq![0x5du8]);
        if close is Some {
            Some(close.unwrap())
        } else if 0 < i <= s.len() {
            match skip_elems(s.skip(i)) {
                Some(k) => Some(i + k),
                None => None,
            }
        } else {
            None
        }
    } else if p_lit(s, seq![0x74u8, 0x72u8, 0x75u8, 0x65u8]) {
        Some(4)
    } else if p_lit(s, seq![0x66u8, 0x61u8, 0x6cu8, 0x73u8, 0x65u8]) {
        Some(5)
    } else if p_lit(s, seq![0x6eu8, 0x75u8, 0x6cu8, 0x6cu8]) {
        Some(4)
    } else if is_number_byte(s[0]) {
        Some(number_len(s))
    } else {
        None
    }
}

/// Skips the members of a JSON object being ignored, the suffix starting at
/// the first member's opening quote, through the closing brace.
#[verifier::opaque]
pub open spec fn skip_members(s: Seq<u8>) -> Option<int>
    decreases s.len(), 1int,
{
    match p_member_key(s) {
        None => None,
        Some((key, j)) => {
            if !(0 < j <= s.len()) {
                None
            } else {
                match skip_value(s.skip(j)) {
                    None => None,
                    Some(v) => {
                        let e = after_ws(s, j + v);
                        let comma = after_lit(s, e, seq![0x2cu8]);
                        if comma is Some {
                            let j2 = after_ws(s, comma.unwrap());
                            if 0 < j2 <= s.len() {
                                match skip_members(s.skip(j2)) {
                                    Some(m) => Some(j2 + m),
                                    None => None,
                                }
                            } else {
                                None
                            }
                        } else {
                            match after_lit(s, e, seq![0x7du8]) {
                                Some(z) => Some(z),
                                None => None,
                            }
                        }
                    },
                }
            }
        },
    }
}

/// Skips the elements of a JSON array being ignored, the suffix starting at
/// the first element, through the closing bracket.
#[verifier::opaque]
pub open spec fn skip_elems(s: Seq<u8>) -> Option<int>
    decreases s.len(), 1int,
{
    match skip_value(s) {
        None => None,
        Some(v) => {
            let e = after_ws(s, v);
            let comma = after_lit(s, e, seq![0x2cu8]);
            if comma is Some {
                let j = after_ws(s, comma.unwrap());
                if 0 < j <= s.len() {
                    match skip_elems(s.skip(j)) {
                        Some(m) => Some(j + m),
                        None => None,
                    }
                } else {
                    None
                }
            } else {
                match after_lit(s, e, seq![0x5du8]) {
                    Some(z) => Some(z),
                    None => None,
                }
            }
        },
    }
}

/// Parses the members of a task object, the suffix starting at a member's
/// opening quote. `id`, `name` and `comp` hold the required fields already
/// seen; a second occurrence of a required field is malformed. Members with
/// any other key are skipped. At the closing brace all three required fields
/// must have appeared.
#[verifier::opaque]
pub open spec fn p_members(
    s: Seq<u8>,
    id: Option<u64>,
    name: Option<Seq<u8>>,
    comp: Option<bool>,
) -> Option<((u64, Seq<u8>, bool), int)>
    decreases s.len(), 1int,
{
    match p_member_key(s) {
        None => None,
        Some((key, j)) => {
            if !(0 < j <= s.len()) {
                None
            } else {
                if key == key_id() {
                    if id is Some {
                        None
                    } else {
                        match p_u64(s.skip(j)) {
                            None => None,
                            Some((v, n)) => p_members_rest(s, j + n, Some(v), name, comp),
                        }
                    }
                } else if key == key_name() {
                    if name is Some {
                        None
                    } else {
                        let q = after_lit(s, j, seq![0x22u8]);
                        if q is None {
                            None
                        } else {
                            match p_strbody(s.skip(q.unwrap())) {
                                None => None,
                                Some((nb, m)) => p_members_rest(
                                    s,
                                    q.unwrap() + m,
                                    id,
                                    Some(nb),
                                    comp,
                                ),
                            }
                        }
                    }
                } else if key == key_completed() {
                    if comp is Some {
                        None
                    } else {
                        match p_bool(s.skip(j)) {
                            None => None,
                            Some((v, m)) => p_members_rest(s, j + m, id, name, Some(v)),
                        }
                    }
                } else {
                    match skip_value(s.skip(j)) {
                        None => None,
                        Some(v) => p_members_rest(s, j + v, id, name, comp),
                    }
                }
            }
        },
    }
}

/// After a member's value, ending at index `e`: either a comma and further
/// members, or the closing brace, at which all three required fields must be
/// present.
#[verifier::opaque]
pub open spec fn p_members_rest(
    s: Seq<u8>,
    e: int,
    id: Option<u64>,
    name: Option<Seq<u8>>,
    comp: Option<bool>,
) -> Option<((u64, Seq<u8>, bool), int)>
    decreases s.len(), 0int,
{
    let i = after_ws(s, e);
    let comma = after_lit(s, i, seq![0x2cu8]);
    if comma is Some {
        let j = after_ws(s, comma.unwrap());
        if 0 < j <= s.len() {
            match p_members(s.skip(j), id, name, comp) {
                Some((vals, k)) => Some((vals, j + k)),
                None => None,
            }
        } else {
            None
        }
    } else {
        match after_lit(s, i, seq![0x7du8]) {
            None => None,
            Some(z) => {
                if id is Some && name is Some && comp is Some {
                    Some(((id.unwrap(), name.unwrap(), comp.unwrap()), z))
                } else {
                    None
                }
            },
        }
    }
}

/// Parses one task object, the suffix starting at its opening brace. The
/// members may come in any order, with whitespace allowed between tokens;
/// the three fields `id`, `name` and `completed` are required, a duplicate
/// of one is malformed, and members with unknown keys are skipped. The name
/// must decode as UTF-8.
#[verifier::opaque]
pub open spec fn p_task(s: Seq<u8>) -> Option<(TaskView, int)> {
    let a = after_lit(s, 0, seq![0x7bu8]);
    if a is None {
        None
    } else {
        let i1 = after_ws(s, 1);
        if !(0 <= i1 <= s.len()) {
            None
        } else {
            match p_members(s.skip(i1), None, None, None) {
                None => None,
                Some(((id, nb, c), k)) => {
                    if !valid_utf8(nb) {
                        None
                    } else {
                        Some((TaskView { id: id, name: decode_utf8(nb), completed: c }, i1 + k))
                    }
                },
            }
        }
    }
}

/// Parses one object member: the string key of decimal digits, a colon, and
/// the task object. The key must equal the task's own id field.
#[verifier::opaque]
pub open spec fn p_entry(s: Seq<u8>) -> Option<(TaskView, int)> {
    let a = after_lit(s, 0, seq![0x22u8]);
    if a is None {
        None
    } else {
        if s.len() < 1 {
            None
        } else {
            let n = p_u64(s.skip(1));
            if n is None {
                None
            } else {
                let b = after_lit(s, 1 + n.unwrap().1, seq![0x22u8]);
                if b is None {
                    None
                } else {
                    let c = after_lit(s, after_ws(s, b.unwrap()), seq![0x3au8]);
                    if c is None {
                        None
                    } else {
                        let i = after_ws(s, c.unwrap());
                        if !(0 <= i <= s.len()) {
                            None
                        } else {
                            let t = p_task(s.skip(i));
                            if t is None {
                                None
                            } else {
                                if t.unwrap().0.id != n.unwrap().0 {
                                    None
                                } else {
                                    Some((t.unwrap().0, i + t.unwrap().1))
                                }
                            }
                        }
                    }
                }
            }
        }
    }
}

/// Parses a nonempty run of object members separated by commas, up to and
/// including the closing brace of the document object.
pub open spec fn p_entries(s: Seq<u8>) -> Option<(Seq<TaskView>, int)>
    decreases s.len(),
{
    let e = p_entry(s);
    if e is None {
        None
    } else {
        let i = after_ws(s, e.unwrap().1);
        let comma = after_lit(s, i, seq![0x2cu8]);
        if comma is Some {
            let j = after_ws(s, comma.unwrap());
            if 0 < j <= s.len() {
                let rest = p_entries(s.skip(j));
                if rest is None {
                    None
                } else {
                    Some((seq![e.unwrap().0] + rest.unwrap().0, j + rest.unwrap().1))
                }
            } else {
                None
            }
        } else {
            let close = after_lit(s, i, seq![0x7du8]);
            if close is None {
                None
            } else {
                Some((seq![e.unwrap().0], close.unwrap()))
            }
        }
    }
}

/// Parses a whole persisted document: an object of members, with whitespace
/// allowed around it, and nothing after it. The records are yielded in
/// document order.
pub open spec fn spec_parse_db(s: Seq<u8>) -> Option<Seq<TaskView>> {
    let i0 = after_ws(s, 0);
    if !(0 <= i0 <= s.len()) {
        None
    } else {
        let a = after_lit(s, i0, seq![0x7bu8]);
        if a is None {
            None
        } else {
            let i1 = after_ws(s, a.unwrap());
            let close = after_lit(s, i1, seq![0x7du8]);
            if close is Some {
                if after_ws(s, close.unwrap()) == s.len() {
                    Some(seq![])
                } else {
                    None
                }
            } else {
                if !(0 <= i1 <= s.len()) {
                    None
                } else {
                    let e = p_entries(s.skip(i1));
                    if e is None {
                        None
                    } else {
                        if after_ws(s, i1 + e.unwrap().1) == s.len() {
                            Some(e.unwrap().0)
                        } else {
                            None
                        }
                    }
                }
            }
        }
    }
}

// --- parser, executable ---

/// `ws_len` is determined by the position of the first non-whitespace byte.
proof fn lemma_ws_len_is(s: Seq<u8>, k: int)
    requires
        0 <= k <= s.len(),
        forall|j: int| 0 <= j < k ==> is_ws_byte(s[j]),
        k < s.len() ==> !is_ws_byte(s[k]),
    ensures
        ws_len(s) == k,
    decreases s.len(),
{
    if k == 0 {
    } else {
        assert(is_ws_byte(s[0]));
        assert forall|j: int| 0 <= j < k - 1 implies is_ws_byte(s.drop_first()[j]) by {
            assert(s.drop_first()[j] == s[j + 1]);
        }
        if k - 1 < s.drop_first().len() {
            assert(s.drop_first()[k - 1] == s[k]);
        }
        lemma_ws_len_is(s.drop_first(), k - 1);
    }
}

/// `digits_len` is determined by the position of the first non-digit byte.
proof fn lemma_digits_len_is(s: Seq<u8>, k: int)
    requires
        0 <= k <= s.len(),
        forall|j: int| 0 <= j < k ==> is_digit_byte(s[j]),
        k < s.len() ==> !is_digit_byte(s[k]),
    ensures
        digits_len(s) == k,
    decreases s.len(),
{
    if k == 0 {
    } else {
        assert(is_digit_byte(s[0]));
        assert forall|j: int| 0 <= j < k - 1 implies is_digit_byte(s.drop_first()[j]) by {
            assert(s.drop_first()[j] == s[j + 1]);
        }
        if k - 1 < s.drop_first().len() {
            assert(s.drop_first()[k - 1] == s[k]);
        }
        lemma_digits_len_is(s.drop_first(), k - 1);
    }
}

/// The leading digit run: its bytes are digits and it stops at a non-digit.
proof fn lemma_digits_len_props(s: Seq<u8>)
    ensures
        0 <= digits_len(s) <= s.len(),
        forall|j: int| 0 <= j < digits_len(s) ==> is_digit_byte(s[j]),
        digits_len(s) < s.len() ==> !is_digit_byte(s[digits_len(s)]),
    decreases s.len(),
{
    if s.len() > 0 && is_digit_byte(s[0]) {
        lemma_digits_len_props(s.drop_first());
        assert forall|j: int| 0 <= j < digits_len(s) implies is_digit_byte(s[j]) by {
            if j > 0 {
                assert(s.drop_first()[j - 1] == s[j]);
            }
        }
        if digits_len(s) < s.len() {
            assert(s.drop_first()[digits_len(s) - 1] == s[digits_len(s)]);
        }
    }
}

/// A digit string denotes a nonnegative value.
proof fn lemma_digits_val_nonneg(s: Seq<u8>)
    requires
        forall|j: int| 0 <= j < s.len() ==> is_digit_byte(s[j]),
    ensures
        digits_val(s) >= 0,
    decreases s.len(),
{
    if s.len() > 0 {
        lemma_digits_val_nonneg(s.drop_last());
        assert(is_digit_byte(s.last()));
    }
}

/// Extending a digit string can only grow its value.
proof fn lemma_digits_val_prefix_le(s: Seq<u8>, m: int)
    requires
        forall|j: int| 0 <= j < s.len() ==> is_digit_byte(s[j]),
        0 <= m <= s.len(),
    ensures
        digits_val(s.take(m)) <= digits_val(s),
    decreases s.len(),
{
    if m == s.len() {
        assert(s.take(m) =~= s);
    } else {
        lemma_digits_val_nonneg(s.drop_last());
        lemma_digits_val_prefix_le(s.drop_last(), m);
        assert(s.drop_last().take(m) =~= s.take(m));
        assert(is_digit_byte(s.last()));
        assert(digits_val(s.drop_last()) * 10 >= digits_val(s.drop_last()));
    }
}

/// Advances past whitespace bytes.
#[verifier::loop_isolation(false)]
fn skip_ws(b: &Vec<u8>, pos: usize) -> (r: usize)
    requires
        pos <= b@.len(),
    ensures
        r == pos + ws_len(b@.skip(pos as int)),
        pos <= r <= b@.len(),
{
    let mut i: usize = pos;
    while i < b.len() && (b[i] == 0x20 || b[i] == 0x09 || b[i] == 0x0a || b[i] == 0x0d)
        invariant
            pos <= i <= b@.len(),
            forall|j: int| pos <= j < i ==> is_ws_byte(b@[j]),
        decreases b@.len() - i,
    {
        i += 1;
    }
    proof {
        let s = b@.skip(pos as int);
        assert forall|j: int| 0 <= j < i - pos implies is_ws_byte(s[j]) by {
            assert(s[j] == b@[pos + j]);
        }
        if i < b.len() {
            assert(s[i - pos] == b@[i as int]);
        }
        lemma_ws_len_is(s, i - pos);
    }
    i
}

/// Parses a run of decimal digits as a `u64`.
#[verifier::loop_isolation(false)]
fn parse_u64(b: &Vec<u8>, pos: usize) -> (r: Option<(u64, usize)>)
    requires
        pos <= b@.len(),
    ensures
        match r {
            Some((n, end)) => pos <= end <= b@.len() && p_u64(b@.skip(pos as int)) == Some(
                (n, end - pos as int),
            ),
            None => p_u64(b@.skip(pos as int)) is None,
        },
{
    let ghost s = b@.skip(pos as int);
    if pos == b.len() || !(0x30 <= b[pos] && b[pos] <= 0x39) {
        proof {
            if s.len() > 0 {
                assert(s[0] == b@[pos as int]);
            }
            lemma_digits_len_is(s, 0);
        }
        return None;
    }
    let mut i: usize = pos;
    let mut acc: u64 = 0;
    while i < b.len() && 0x30 <= b[i] && b[i] <= 0x39
        invariant
            pos <= i <= b@.len(),
            forall|j: int| pos <= j < i ==> is_digit_byte(b@[j]),
            acc == digits_val(b@.subrange(pos as int, i as int)),
        decreases b@.len() - i,
    {
        let d: u64 = (b[i] - 0x30) as u64;
        proof {
            let t = b@.subrange(pos as int, i + 1);
            assert(t.drop_last() =~= b@.subrange(pos as int, i as int));
            assert(t.last() == b@[i as int]);
        }
        if acc > 1844674407370955161 || (acc == 1844674407370955161 && d > 5) {
            proof {
                let t = b@.subrange(pos as int, i + 1);
                assert(digits_val(t) == acc * 10 + d);
                assert(digits_val(t) > u64::MAX);
                lemma_digits_len_props(s);
                let k = digits_len(s);
                assert forall|j: int| 0 <= j < i + 1 - pos implies is_digit_byte(s[j]) by {
                    assert(s[j] == b@[pos + j]);
                }
                assert(k >= i + 1 - pos);
                lemma_digits_val_prefix_le(s.take(k), i + 1 - pos);
                assert(s.take(k).take(i + 1 - pos) =~= s.take(i + 1 - pos));
                assert(s.take(i + 1 - pos) =~= t);
                assert(digits_val(s.take(k)) >= digits_val(t));
            }
            return None;
        }
        proof {
            assert(acc * 10 + d <= u64::MAX);
        }
        acc = acc * 10 + d;
        i += 1;
        proof {
            assert(acc == digits_val(b@.subrange(pos as int, i as int)));
        }
    }
    proof {
        assert forall|j: int| 0 <= j < i - pos implies is_digit_byte(s[j]) by {
            assert(s[j] == b@[pos + j]);
        }
        if i < b.len() {
            assert(s[i - pos] == b@[i as int]);
        }
        lemma_digits_len_is(s, i - pos);
        assert(s.take(i - pos) =~= b@.subrange(pos as int, i as int));
    }
    Some((acc, i))
}

/// Tests for a single expected byte.
fn expect_byte(b: &Vec<u8>, pos: usize, c: u8) -> (r: bool)
    requires
        pos <= b@.len(),
    ensures
        r == p_lit(b@.skip(pos as int), seq![c]),
{
    let ghost s = b@.skip(pos as int);
    if pos < b.len() && b[pos] == c {
        proof {
            assert(s[0] == b@[pos as int]);
            assert(s.take(1) =~= seq![c]);
        }
        true
    } else {
        proof {
            if s.len() >= 1 && s.take(1) == seq![c] {
                assert(s.take(1)[0] == s[0]);
                assert(s[0] == b@[pos as int]);
            }
        }
        false
    }
}

/// Tests whether decoded key bytes are exactly `id`.
fn is_key_id(v: &Vec<u8>) -> (r: bool)
    ensures
        r == (v@ == key_id()),
{
    if v.len() == 2 && v[0] == 0x69 && v[1] == 0x64 {
        proof {
            assert(v@ =~= key_id());
        }
        true
    } else {
        proof {
            if v@ == key_id() {
                assert(v@.len() == 2 && v@[0] == 0x69 && v@[1] == 0x64);
            }
        }
        false
    }
}

/// Tests whether decoded key bytes are exactly `name`.
fn is_key_name(v: &Vec<u8>) -> (r: bool)
    ensures
        r == (v@ == key_name()),
{
    if v.len() == 4 && v[0] == 0x6e && v[1] == 0x61 && v[2] == 0x6d && v[3] == 0x65 {
        proof {
            assert(v@ =~= key_name());
        }
        true
    } else {
        proof {
            if v@ == key_name() {
                assert(v@.len() == 4 && v@[0] == 0x6e && v@[1] == 0x61 && v@[2] == 0x6d && v@[3]
                    == 0x65);
            }
        }
        false
    }
}

/// Tests whether decoded key bytes are exactly `completed`.
fn is_key_completed(v: &Vec<u8>) -> (r: bool)
    ensures
        r == (v@ == key_completed()),
{
    if v.len() == 9 && v[0] == 0x63 && v[1] == 0x6f && v[2] == 0x6d && v[3] == 0x70 && v[4] == 0x6c
        && v[5] == 0x65 && v[6] == 0x74 && v[7] == 0x65 && v[8] == 0x64 {
        proof {
            assert(v@ =~= key_completed());
        }
        true
    } else {
        proof {
            if v@ == key_completed() {
                assert(v@.len() == 9 && v@[0] == 0x63 && v@[1] == 0x6f && v@[2] == 0x6d && v@[3]
                    == 0x70 && v@[4] == 0x6c && v@[5] == 0x65 && v@[6] == 0x74 && v@[7] == 0x65
                    && v@[8] == 0x64);
            }
        }
        false
    }
}

/// Parses the literal `true` or `false`.
fn parse_bool(b: &Vec<u8>, pos: usize) -> (r: Option<(bool, usize)>)
    requires
        pos <= b@.len(),
    ensures
        match r {
            Some((v, end)) => pos <= end <= b@.len() && p_bool(b@.skip(pos as int)) == Some(
                (v, end - pos as int),
            ),
            None => p_bool(b@.skip(pos as int)) is None,
        },
{
    let ghost s = b@.skip(pos as int);
    proof {
        assert forall|j: int| 0 <= j < s.len() implies s[j] == b@[pos + j] by {}
    }
    if b.len() - pos >= 4 && b[pos] == 0x74 && b[pos + 1] == 0x72 && b[pos + 2] == 0x75 && b[pos
        + 3] == 0x65 {
        proof {
            assert(s.take(4) =~= seq![0x74u8, 0x72u8, 0x75u8, 0x65u8]);
        }
        return Some((true, pos + 4));
    }
    proof {
        if s.len() >= 4 && s.take(4) == seq![0x74u8, 0x72u8, 0x75u8, 0x65u8] {
            assert(s.take(4)[0] == s[0] && s.take(4)[1] == s[1] && s.take(4)[2] == s[2] && s.take(
                4,
            )[3] == s[3]);
        }
    }
    if b.len() - pos >= 5 && b[pos] == 0x66 && b[pos + 1] == 0x61 && b[pos + 2] == 0x6c && b[pos
        + 3] == 0x73 && b[pos + 4] == 0x65 {
        proof {
            assert(s.take(5) =~= seq![0x66u8, 0x61u8, 0x6cu8, 0x73u8, 0x65u8]);
        }
        return Some((false, pos + 5));
    }
    proof {
        if s.len() >= 5 && s.take(5) == seq![0x66u8, 0x61u8, 0x6cu8, 0x73u8, 0x65u8] {
            assert(s.take(5)[0] == s[0] && s.take(5)[1] == s[1] && s.take(5)[2] == s[2] && s.take(
                5,
            )[3] == s[3] && s.take(5)[4] == s[4]);
        }
    }
    None
}

/// Numeric value of one hexadecimal digit byte.
fn hex_digit_val(c: u8) -> (r: Option<u32>)
    ensures
        match r {
            Some(v) => is_hex_byte(c) && v == hex_val(c) && v < 16,
            None => !is_hex_byte(c),
        },
{
    if 0x30 <= c && c <= 0x39 {
        Some((c - 0x30) as u32)
    } else if 0x61 <= c && c <= 0x66 {
        Some((c - 0x61) as u32 + 10)
    } else if 0x41 <= c && c <= 0x46 {
        Some((c - 0x41) as u32 + 10)
    } else {
        None
    }
}

/// Appends the UTF-8 encoding of a Unicode scalar value to `out`.
fn push_scalar_utf8(out: &mut Vec<u8>, cp: u32)
    requires
        is_scalar(cp),
    ensures
        final(out)@ == old(out)@ + encode_scalar(cp),
{
    if cp <= 0x7F {
        out.push((cp & 0x7F) as u8);
    } else if cp <= 0x7FF {
        out.push(0xC0 | (((cp >> 6) & 0x1F) as u8));
        out.push(0x80 | ((cp & 0x3F) as u8));
    } else if cp <= 0xFFFF {
        out.push(0xE0 | (((cp >> 12) & 0x0F) as u8));
        out.push(0x80 | (((cp >> 6) & 0x3F) as u8));
        out.push(0x80 | ((cp & 0x3F) as u8));
    } else {
        out.push(0xF0 | (((cp >> 18) & 0x7) as u8));
        out.push(0x80 | (((cp >> 12) & 0x3F) as u8));
        out.push(0x80 | (((cp >> 6) & 0x3F) as u8));
        out.push(0x80 | ((cp & 0x3F) as u8));
    }
    proof {
        assert(final(out)@ =~= old(out)@ + encode_scalar(cp));
    }
}

/// Parses one string escape (the suffix after the backslash), appending the
/// bytes it stands for to `out`.
fn parse_escape(b: &Vec<u8>, pos: usize, out: &mut Vec<u8>) -> (r: Option<usize>)
    requires
        pos <= b@.len(),
    ensures
        match r {
            Some(end) => {
                &&& pos <= end <= b@.len()
                &&& p_escape(b@.skip(pos as int)) is Some
                &&& final(out)@ == old(out)@ + p_escape(b@.skip(pos as int)).unwrap().0
                &&& end - pos == p_escape(b@.skip(pos as int)).unwrap().1
            },
            None => p_escape(b@.skip(pos as int)) is None,
        },
{
    let ghost s = b@.skip(pos as int);
    proof {
        assert forall|j: int| 0 <= j < s.len() implies s[j] == b@[pos + j] by {}
    }
    if pos >= b.len() {
        return None;
    }
    let c = b[pos];
    if c == 0x22 || c == 0x5c || c == 0x2f {
        out.push(c);
        proof {
            assert(final(out)@ =~= old(out)@ + p_escape(s).unwrap().0);
        }
        return Some(pos + 1);
    }
    if c == 0x62 || c == 0x66 || c == 0x6e || c == 0x72 || c == 0x74 {
        let decoded: u8 = if c == 0x62 {
            0x08
        } else if c == 0x66 {
            0x0c
        } else if c == 0x6e {
            0x0a
        } else if c == 0x72 {
            0x0d
        } else {
            0x09
        };
        out.push(decoded);
        proof {
            assert(final(out)@ =~= old(out)@ + p_escape(s).unwrap().0);
        }
        return Some(pos + 1);
    }
    if c != 0x75 {
        return None;
    }
    if b.len() - pos < 5 {
        return None;
    }
    let h1 = hex_digit_val(b[pos + 1]);
    let h2 = hex_digit_val(b[pos + 2]);
    let h3 = hex_digit_val(b[pos + 3]);
    let h4 = hex_digit_val(b[pos + 4]);
    if h1.is_none() || h2.is_none() || h3.is_none() || h4.is_none() {
        return None;
    }
    let cp: u32 = h1.unwrap() * 0x1000 + h2.unwrap() * 0x100 + h3.unwrap() * 0x10 + h4.unwrap();
    proof {
        assert(s.subrange(1, 5)[0] == s[1] && s.subrange(1, 5)[1] == s[2] && s.subrange(1, 5)[2]
            == s[3] && s.subrange(1, 5)[3] == s[4]);
        assert(cp == hex4_val(s.subrange(1, 5)));
        assert(cp <= 0xFFFF);
    }
    if 0xD800 <= cp && cp <= 0xDBFF {
        if b.len() - pos < 11 {
            return None;
        }
        if !(b[pos + 5] == 0x5c && b[pos + 6] == 0x75) {
            return None;
        }
        let g1 = hex_digit_val(b[pos + 7]);
        let g2 = hex_digit_val(b[pos + 8]);
        let g3 = hex_digit_val(b[pos + 9]);
        let g4 = hex_digit_val(b[pos + 10]);
        if g1.is_none() || g2.is_none() || g3.is_none() || g4.is_none() {
            return None;
        }
        let lo: u32 = g1.unwrap() * 0x1000 + g2.unwrap() * 0x100 + g3.unwrap() * 0x10
            + g4.unwrap();
        proof {
            assert(s.subrange(7, 11)[0] == s[7] && s.subrange(7, 11)[1] == s[8] && s.subrange(
                7,
                11,
            )[2] == s[9] && s.subrange(7, 11)[3] == s[10]);
            assert(lo == hex4_val(s.subrange(7, 11)));
            assert(lo <= 0xFFFF);
        }
        if !(0xDC00 <= lo && lo <= 0xDFFF) {
            return None;
        }
        let scalar: u32 = 0x10000 + (cp - 0xD800) * 0x400 + (lo - 0xDC00);
        proof {
            assert(is_scalar(scalar));
        }
        push_scalar_utf8(out, scalar);
        return Some(pos + 11);
    }
    if 0xDC00 <= cp && cp <= 0xDFFF {
        return None;
    }
    proof {
        assert(is_scalar(cp));
    }
    push_scalar_utf8(out, cp);
    Some(pos + 5)
}

/// Parses JSON string content through the closing quote, appending the
/// decoded bytes to `out`.
#[verifier::rlimit(50)]
fn parse_strbody(b: &Vec<u8>, pos: usize, out: &mut Vec<u8>) -> (r: Option<usize>)
    requires
        pos <= b@.len(),
    ensures
        match r {
            Some(end) => {
                &&& pos <= end <= b@.len()
                &&& p_strbody(b@.skip(pos as int)) is Some
                &&& final(out)@ == old(out)@ + p_strbody(b@.skip(pos as int)).unwrap().0
                &&& end - pos == p_strbody(b@.skip(pos as int)).unwrap().1
            },
            None => p_strbody(b@.skip(pos as int)) is None,
        },
    decreases b@.len() - pos,
{
    let ghost s = b@.skip(pos as int);
    if pos >= b.len() {
        return None;
    }
    proof {
        assert(s[0] == b@[pos as int]);
    }
    let c = b[pos];
    if c == 0x22 {
        proof {
            assert(out@ =~= out@ + Seq::<u8>::empty());
        }
        return Some(pos + 1);
    }
    if c == 0x5c {
        proof {
            assert(s.drop_first() =~= b@.skip(pos + 1));
        }
        let e = parse_escape(b, pos + 1, out);
        if e.is_none() {
            return None;
        }
        let end1 = e.unwrap();
        let ghost o1 = p_escape(b@.skip(pos + 1)).unwrap().0;
        let ghost k = p_escape(b@.skip(pos + 1)).unwrap().1;
        proof {
            assert(k == end1 - (pos + 1));
            assert(0 <= k && 1 + k <= s.len());
            assert(s.skip(1 + k) =~= b@.skip(end1 as int));
        }
        let r2 = parse_strbody(b, end1, out);
        if r2.is_none() {
            return None;
        }
        let end2 = r2.unwrap();
        proof {
            let o2 = p_strbody(b@.skip(end1 as int)).unwrap().0;
            assert((old(out)@ + o1) + o2 =~= old(out)@ + (o1 + o2));
        }
        return Some(end2);
    }
    if c < 0x20 {
        return None;
    }
    out.push(c);
    proof {
        assert(s.drop_first() =~= b@.skip(pos + 1));
        assert(out@ =~= old(out)@ + seq![c]);
    }
    let r2 = parse_strbody(b, pos + 1, out);
    if r2.is_none() {
        return None;
    }
    let end2 = r2.unwrap();
    proof {
        let o2 = p_strbody(b@.skip(pos + 1)).unwrap().0;
        assert((old(out)@ + seq![c]) + o2 =~= old(out)@ + (seq![c] + o2));
    }
    Some(end2)
}

/// Relies on `String::from_utf8`: it succeeds exactly on UTF-8 input, and
/// the returned string's bytes are the input bytes.
#[verifier::external_body]
fn string_from_utf8(v: Vec<u8>) -> (r: Option<String>)
    ensures
        r is Some <==> valid_utf8(v@),
        r matches Some(s) ==> encode_utf8(s@) == v@,
{
    String::from_utf8(v).ok()
}

/// Number of leading number bytes, determined by the first byte past them.
proof fn lemma_number_len_is(s: Seq<u8>, k: int)
    requires
        0 <= k <= s.len(),
        forall|j: int| 0 <= j < k ==> is_number_byte(s[j]),
        k < s.len() ==> !is_number_byte(s[k]),
    ensures
        number_len(s) == k,
    decreases s.len(),
{
    if k == 0 {
    } else {
        assert(is_number_byte(s[0]));
        assert forall|j: int| 0 <= j < k - 1 implies is_number_byte(s.drop_first()[j]) by {
            assert(s.drop_first()[j] == s[j + 1]);
        }
        if k - 1 < s.drop_first().len() {
            assert(s.drop_first()[k - 1] == s[k]);
        }
        lemma_number_len_is(s.drop_first(), k - 1);
    }
}

/// Tests for a four-byte literal at `pos`.
fn expect_lit4(b: &Vec<u8>, pos: usize, c0: u8, c1: u8, c2: u8, c3: u8) -> (r: bool)
    requires
        pos <= b@.len(),
    ensures
        r == p_lit(b@.skip(pos as int), seq![c0, c1, c2, c3]),
{
    let ghost s = b@.skip(pos as int);
    proof {
        assert forall|j: int| 0 <= j < s.len() implies s[j] == b@[pos + j] by {}
    }
    if b.len() - pos >= 4 && b[pos] == c0 && b[pos + 1] == c1 && b[pos + 2] == c2 && b[pos + 3]
        == c3 {
        proof {
            assert(s.take(4) =~= seq![c0, c1, c2, c3]);
        }
        true
    } else {
        proof {
            if s.len() >= 4 && s.take(4) == seq![c0, c1, c2, c3] {
                assert(s.take(4)[0] == s[0] && s.take(4)[1] == s[1] && s.take(4)[2] == s[2]
                    && s.take(4)[3] == s[3]);
            }
        }
        false
    }
}

/// Parses one member's key and separator, yielding the decoded key bytes
/// and the position where the member's value begins.
#[verifier::rlimit(100)]
fn parse_member_key(b: &Vec<u8>, pos: usize) -> (r: Option<(Vec<u8>, usize)>)
    requires
        pos <= b@.len(),
    ensures
        match r {
            Some((kb, j)) => pos < j <= b@.len() && p_member_key(b@.skip(pos as int)) == Some(
                (kb@, j - pos as int),
            ),
            None => p_member_key(b@.skip(pos as int)) is None,
        },
{
    proof {
        reveal(p_member_key);
        vstd::std_specs::vec::axiom_spec_len(b);
    }
    let ghost s = b@.skip(pos as int);
    proof {
        assert(s.skip(0) =~= b@.skip(pos as int));
    }
    if !expect_byte(b, pos, 0x22) {
        return None;
    }
    proof {
        assert(after_lit(s, 0, seq![0x22u8]) == Some(1int));
        assert(s.skip(1) =~= b@.skip(pos + 1));
    }
    let mut kb: Vec<u8> = Vec::new();
    let ks = parse_strbody(b, pos + 1, &mut kb);
    if ks.is_none() {
        return None;
    }
    let e1 = ks.unwrap();
    let ghost key = p_strbody(b@.skip(pos + 1)).unwrap().0;
    proof {
        assert(kb@ =~= key);
    }
    let i = skip_ws(b, e1);
    proof {
        assert(s.skip(e1 - pos) =~= b@.skip(e1 as int));
        assert(after_ws(s, 1 + (e1 - (pos + 1))) == i - pos);
        assert(s.skip(i - pos) =~= b@.skip(i as int));
    }
    if !expect_byte(b, i, 0x3a) {
        return None;
    }
    proof {
        assert(after_lit(s, i - pos, seq![0x3au8]) == Some(i - pos + 1));
    }
    let j = skip_ws(b, i + 1);
    proof {
        assert(s.skip(i - pos + 1) =~= b@.skip(i + 1));
        assert(after_ws(s, i - pos + 1) == j - pos);
    }
    Some((kb, j))
}

/// Skips one JSON value, yielding the index just past it.
#[verifier::rlimit(100)]
fn skip_value_exec(b: &Vec<u8>, pos: usize) -> (r: Option<usize>)
    requires
        pos <= b@.len(),
    ensures
        match r {
            Some(end) => pos <= end <= b@.len() && skip_value(b@.skip(pos as int)) == Some(
                end - pos as int,
            ),
            None => skip_value(b@.skip(pos as int)) is None,
        },
    decreases b@.len() - pos, 0int,
{
    proof {
        reveal(skip_value);
        reveal(skip_members);
        reveal(skip_elems);
        vstd::std_specs::vec::axiom_spec_len(b);
    }
    let ghost s = b@.skip(pos as int);
    if pos >= b.len() {
        return None;
    }
    proof {
        assert(s[0] == b@[pos as int]);
    }
    let c = b[pos];
    if c == 0x22 {
        proof {
            assert(s.skip(1) =~= b@.skip(pos + 1));
        }
        let mut scratch: Vec<u8> = Vec::new();
        let sb = parse_strbody(b, pos + 1, &mut scratch);
        match sb {
            None => None,
            Some(end) => Some(end),
        }
    } else if c == 0x7b {
        let i = skip_ws(b, pos + 1);
        proof {
            assert(s.skip(1) =~= b@.skip(pos + 1));
            assert(after_ws(s, 1) == i - pos);
            assert(s.skip(i - pos) =~= b@.skip(i as int));
        }
        if expect_byte(b, i, 0x7d) {
            proof {
                assert(s.skip(i - pos).take(1) =~= seq![0x7du8]);
                assert(after_lit(s, i - pos, seq![0x7du8]) == Some(i - pos + 1));
            }
            Some(i + 1)
        } else {
            proof {
                assert(after_lit(s, i - pos, seq![0x7du8]) is None);
            }
            match skip_members_exec(b, i) {
                None => None,
                Some(end) => Some(end),
            }
        }
    } else if c == 0x5b {
        let i = skip_ws(b, pos + 1);
        proof {
            assert(s.skip(1) =~= b@.skip(pos + 1));
            assert(after_ws(s, 1) == i - pos);
            assert(s.skip(i - pos) =~= b@.skip(i as int));
        }
        if expect_byte(b, i, 0x5d) {
            proof {
                assert(s.skip(i - pos).take(1) =~= seq![0x5du8]);
                assert(after_lit(s, i - pos, seq![0x5du8]) == Some(i - pos + 1));
            }
            Some(i + 1)
        } else {
            proof {
                assert(after_lit(s, i - pos, seq![0x5du8]) is None);
            }
            match skip_elems_exec(b, i) {
                None => None,
                Some(end) => Some(end),
            }
        }
    } else if expect_lit4(b, pos, 0x74, 0x72, 0x75, 0x65) {
        Some(pos + 4)
    } else if b.len() - pos >= 5 && b[pos] == 0x66 && b[pos + 1] == 0x61 && b[pos + 2] == 0x6c
        && b[pos + 3] == 0x73 && b[pos + 4] == 0x65 {
        proof {
            assert forall|j: int| 0 <= j < s.len() implies s[j] == b@[pos + j] by {}
            assert(s.take(5) =~= seq![0x66u8, 0x61u8, 0x6cu8, 0x73u8, 0x65u8]);
        }
        Some(pos + 5)
    } else if expect_lit4(b, pos, 0x6e, 0x75, 0x6c, 0x6c) {
        proof {
            if s.len() >= 5 && s.take(5) == seq![0x66u8, 0x61u8, 0x6cu8, 0x73u8, 0x65u8] {
                assert(s.take(5)[0] == s[0]);
            }
        }
        Some(pos + 4)
    } else if 0x30 <= c && c <= 0x39 || c == 0x2d || c == 0x2b || c == 0x2e || c == 0x65 || c
        == 0x45 {
        proof {
            if s.len() >= 5 && s.take(5) == seq![0x66u8, 0x61u8, 0x6cu8, 0x73u8, 0x65u8] {
                assert(s.take(5)[0] == s[0]);
            }
        }
        let mut i: usize = pos;
        while i < b.len() && (0x30 <= b[i] && b[i] <= 0x39 || b[i] == 0x2d || b[i] == 0x2b || b[i]
            == 0x2e || b[i] == 0x65 || b[i] == 0x45)
            invariant
                pos <= i <= b@.len(),
                forall|j: int| pos <= j < i ==> is_number_byte(b@[j]),
            decreases b@.len() - i,
        {
            i += 1;
        }
        proof {
            assert forall|j: int| 0 <= j < i - pos implies is_number_byte(s[j]) by {
                assert(s[j] == b@[pos + j]);
            }
            if i < b.len() {
                assert(s[i - pos] == b@[i as int]);
            }
            lemma_number_len_is(s, i - pos);
        }
        Some(i)
    } else {
        proof {
            if s.len() >= 4 && s.take(4) == seq![0x74u8, 0x72u8, 0x75u8, 0x65u8] {
                assert(s.take(4)[0] == s[0]);
            }
            if s.len() >= 5 && s.take(5) == seq![0x66u8, 0x61u8, 0x6cu8, 0x73u8, 0x65u8] {
                assert(s.take(5)[0] == s[0]);
            }
            if s.len() >= 4 && s.take(4) == seq![0x6eu8, 0x75u8, 0x6cu8, 0x6cu8] {
                assert(s.take(4)[0] == s[0]);
            }
        }
        None
    }
}

/// Skips the members of an ignored object, through the closing brace.
#[verifier::rlimit(100)]
fn skip_members_exec(b: &Vec<u8>, pos: usize) -> (r: Option<usize>)
    requires
        pos <= b@.len(),
    ensures
        match r {
            Some(end) => pos <= end <= b@.len() && skip_members(b@.skip(pos as int)) == Some(
                end - pos as int,
            ),
            None => skip_members(b@.skip(pos as int)) is None,
        },
    decreases b@.len() - pos, 1int,
{
    proof {
        reveal(skip_value);
        reveal(skip_members);
        reveal(skip_elems);
        vstd::std_specs::vec::axiom_spec_len(b);
    }
    let ghost s = b@.skip(pos as int);
    let mk = parse_member_key(b, pos);
    if mk.is_none() {
        return None;
    }
    let (_, j) = mk.unwrap();
    proof {
        assert(0 < j - pos <= s.len());
        assert(s.skip(j - pos) =~= b@.skip(j as int));
    }
    let v = skip_value_exec(b, j);
    if v.is_none() {
        return None;
    }
    let e2 = v.unwrap();
    let e = skip_ws(b, e2);
    proof {
        assert(s.skip(e2 - pos) =~= b@.skip(e2 as int));
        assert(after_ws(s, (j - pos) + (e2 - j)) == e - pos);
        assert(s.skip(e - pos) =~= b@.skip(e as int));
    }
    if expect_byte(b, e, 0x2c) {
        proof {
            assert(after_lit(s, e - pos, seq![0x2cu8]) == Some(e - pos + 1));
        }
        let j2 = skip_ws(b, e + 1);
        proof {
            assert(s.skip(e - pos + 1) =~= b@.skip(e + 1));
            assert(after_ws(s, e - pos + 1) == j2 - pos);
            assert(s.skip(j2 - pos) =~= b@.skip(j2 as int));
        }
        match skip_members_exec(b, j2) {
            None => None,
            Some(end) => Some(end),
        }
    } else {
        proof {
            assert(after_lit(s, e - pos, seq![0x2cu8]) is None);
        }
        if expect_byte(b, e, 0x7d) {
            proof {
                assert(after_lit(s, e - pos, seq![0x7du8]) == Some(e - pos + 1));
            }
            Some(e + 1)
        } else {
            proof {
                assert(after_lit(s, e - pos, seq![0x7du8]) is None);
            }
            None
        }
    }
}

/// Skips the elements of an ignored array, through the closing bracket.
#[verifier::rlimit(100)]
fn skip_elems_exec(b: &Vec<u8>, pos: usize) -> (r: Option<usize>)
    requires
        pos <= b@.len(),
    ensures
        match r {
            Some(end) => pos <= end <= b@.len() && skip_elems(b@.skip(pos as int)) == Some(
                end - pos as int,
            ),
            None => skip_elems(b@.skip(pos as int)) is None,
        },
    decreases b@.len() - pos, 1int,
{
    proof {
        reveal(skip_value);
        reveal(skip_members);
        reveal(skip_elems);
        vstd::std_specs::vec::axiom_spec_len(b);
    }
    let ghost s = b@.skip(pos as int);
    let v = skip_value_exec(b, pos);
    if v.is_none() {
        return None;
    }
    let e2 = v.unwrap();
    let e = skip_ws(b, e2);
    proof {
        assert(s.skip(e2 - pos) =~= b@.skip(e2 as int));
        assert(after_ws(s, e2 - pos) == e - pos);
        assert(s.skip(e - pos) =~= b@.skip(e as int));
    }
    if expect_byte(b, e, 0x2c) {
        proof {
            assert(after_lit(s, e - pos, seq![0x2cu8]) == Some(e - pos + 1));
        }
        let j = skip_ws(b, e + 1);
        proof {
            assert(s.skip(e - pos + 1) =~= b@.skip(e + 1));
            assert(after_ws(s, e - pos + 1) == j - pos);
            assert(s.skip(j - pos) =~= b@.skip(j as int));
        }
        match skip_elems_exec(b, j) {
            None => None,
            Some(end) => Some(end),
        }
    } else {
        proof {
            assert(after_lit(s, e - pos, seq![0x2cu8]) is None);
        }
        if expect_byte(b, e, 0x5d) {
            proof {
                assert(after_lit(s, e - pos, seq![0x5du8]) == Some(e - pos + 1));
            }
            Some(e + 1)
        } else {
            proof {
                assert(after_lit(s, e - pos, seq![0x5du8]) is None);
            }
            None
        }
    }
}

/// The required-field slots as the specification sees them.
pub open spec fn opt_bytes(o: Option<Vec<u8>>) -> Option<Seq<u8>> {
    match o {
        Some(v) => Some(v@),
        None => None,
    }
}

/// Parses the members of a task object, carrying the required fields seen so
/// far.
#[verifier::rlimit(100)]
fn parse_members(
    b: &Vec<u8>,
    pos: usize,
    id: Option<u64>,
    name: Option<Vec<u8>>,
    comp: Option<bool>,
) -> (r: Option<(u64, Vec<u8>, bool, usize)>)
    requires
        pos <= b@.len(),
    ensures
        match r {
            Some((idv, nb, cv, end)) => pos <= end <= b@.len() && p_members(
                b@.skip(pos as int),
                id,
                opt_bytes(name),
                comp,
            ) == Some(((idv, nb@, cv), end - pos as int)),
            None => p_members(b@.skip(pos as int), id, opt_bytes(name), comp) is None,
        },
    decreases b@.len() - pos, 1int,
{
    proof {
        reveal(p_members);
        reveal(p_members_rest);
        vstd::std_specs::vec::axiom_spec_len(b);
    }
    let ghost s = b@.skip(pos as int);
    let mk = parse_member_key(b, pos);
    if mk.is_none() {
        return None;
    }
    let (kb, j) = mk.unwrap();
    proof {
        assert(0 < j - pos <= s.len());
        assert(s.skip(j - pos) =~= b@.skip(j as int));
    }
    if is_key_id(&kb) {
        if id.is_some() {
            return None;
        }
        let n = parse_u64(b, j);
        if n.is_none() {
            return None;
        }
        let (v, e2) = n.unwrap();
        parse_members_rest(b, pos, e2, Some(v), name, comp)
    } else if is_key_name(&kb) {
        if name.is_some() {
            return None;
        }
        if !expect_byte(b, j, 0x22) {
            proof {
                assert(after_lit(s, j - pos, seq![0x22u8]) is None);
            }
            return None;
        }
        proof {
            assert(after_lit(s, j - pos, seq![0x22u8]) == Some(j - pos + 1));
            assert(s.skip(j - pos + 1) =~= b@.skip(j + 1));
        }
        let mut nb: Vec<u8> = Vec::new();
        let sb = parse_strbody(b, j + 1, &mut nb);
        if sb.is_none() {
            return None;
        }
        let e2 = sb.unwrap();
        parse_members_rest(b, pos, e2, id, Some(nb), comp)
    } else if is_key_completed(&kb) {
        if comp.is_some() {
            return None;
        }
        let bl = parse_bool(b, j);
        if bl.is_none() {
            return None;
        }
        let (v, e2) = bl.unwrap();
        parse_members_rest(b, pos, e2, id, name, Some(v))
    } else {
        let sk = skip_value_exec(b, j);
        if sk.is_none() {
            return None;
        }
        let e2 = sk.unwrap();
        parse_members_rest(b, pos, e2, id, name, comp)
    }
}

/// Handles what follows a member's value: a comma and further members, or
/// the closing brace.
#[verifier::rlimit(100)]
fn parse_members_rest(
    b: &Vec<u8>,
    base: usize,
    end: usize,
    id: Option<u64>,
    name: Option<Vec<u8>>,
    comp: Option<bool>,
) -> (r: Option<(u64, Vec<u8>, bool, usize)>)
    requires
        base <= b@.len(),
        base <= end <= b@.len(),
    ensures
        match r {
            Some((idv, nb, cv, endd)) => base <= endd <= b@.len() && p_members_rest(
                b@.skip(base as int),
                end - base as int,
                id,
                opt_bytes(name),
                comp,
            ) == Some(((idv, nb@, cv), endd - base as int)),
            None => p_members_rest(
                b@.skip(base as int),
                end - base as int,
                id,
                opt_bytes(name),
                comp,
            ) is None,
        },
    decreases b@.len() - base, 0int,
{
    proof {
        reveal(p_members);
        reveal(p_members_rest);
        vstd::std_specs::vec::axiom_spec_len(b);
    }
    let ghost s = b@.skip(base as int);
    let i = skip_ws(b, end);
    proof {
        assert(s.skip(end - base) =~= b@.skip(end as int));
        assert(after_ws(s, end - base) == i - base);
        assert(s.skip(i - base) =~= b@.skip(i as int));
    }
    if expect_byte(b, i, 0x2c) {
        proof {
            assert(after_lit(s, i - base, seq![0x2cu8]) == Some(i - base + 1));
        }
        let j = skip_ws(b, i + 1);
        proof {
            assert(s.skip(i - base + 1) =~= b@.skip(i + 1));
            assert(after_ws(s, i - base + 1) == j - base);
            assert(s.skip(j - base) =~= b@.skip(j as int));
        }
        match parse_members(b, j, id, name, comp) {
            None => None,
            Some((idv, nb, cv, end2)) => Some((idv, nb, cv, end2)),
        }
    } else {
        proof {
            assert(after_lit(s, i - base, seq![0x2cu8]) is None);
        }
        if expect_byte(b, i, 0x7d) {
            proof {
                assert(after_lit(s, i - base, seq![0x7du8]) == Some(i - base + 1));
            }
            if id.is_some() && name.is_some() && comp.is_some() {
                Some((id.unwrap(), name.unwrap(), comp.unwrap(), i + 1))
            } else {
                None
            }
        } else {
            proof {
                assert(after_lit(s, i - base, seq![0x7du8]) is None);
            }
            None
        }
    }
}

/// Parses one task object, the suffix starting at its opening brace.
#[verifier::rlimit(100)]
fn parse_task(b: &Vec<u8>, pos: usize) -> (r: Option<(Task, usize)>)
    requires
        pos <= b@.len(),
    ensures
        match r {
            Some((task, end)) => pos <= end <= b@.len() && p_task(b@.skip(pos as int)) == Some(
                (task@, end - pos as int),
            ),
            None => p_task(b@.skip(pos as int)) is None,
        },
{
    proof {
        reveal(p_task);
        vstd::std_specs::vec::axiom_spec_len(b);
    }
    let ghost t = b@.skip(pos as int);
    proof {
        assert(t.skip(0) =~= b@.skip(pos as int));
    }
    if !expect_byte(b, pos, 0x7b) {
        return None;
    }
    proof {
        assert(after_lit(t, 0, seq![0x7bu8]) == Some(1int));
    }
    let i1 = skip_ws(b, pos + 1);
    proof {
        assert(t.skip(1) =~= b@.skip(pos + 1));
        assert(after_ws(t, 1) == i1 - pos);
        assert(t.skip(i1 - pos) =~= b@.skip(i1 as int));
    }
    let m = parse_members(b, i1, None, None, None);
    if m.is_none() {
        return None;
    }
    let (idv, nb, cv, end) = m.unwrap();
    let ghost o = p_members(b@.skip(i1 as int), None, None, None).unwrap().0.1;
    proof {
        assert(nb@ =~= o);
    }
    let name = string_from_utf8(nb);
    if name.is_none() {
        proof {
            assert(!valid_utf8(o));
        }
        return None;
    }
    let nm = name.unwrap();
    proof {
        vstd::utf8::encode_utf8_decode_utf8(nm@);
        assert(decode_utf8(o) == nm@);
    }
    let task = Task { id: idv, name: nm, completed: cv };
    proof {
        assert(p_task(t) == Some((task@, end - pos as int)));
    }
    Some((task, end))
}

/// Parses one object member: a digit-string key, a colon, and the task
/// object, whose id field must equal the key.
#[verifier::rlimit(100)]
fn parse_entry(b: &Vec<u8>, pos: usize) -> (r: Option<(Task, usize)>)
    requires
        pos <= b@.len(),
    ensures
        match r {
            Some((task, end)) => pos <= end <= b@.len() && p_entry(b@.skip(pos as int)) == Some(
                (task@, end - pos as int),
            ),
            None => p_entry(b@.skip(pos as int)) is None,
        },
{
    let ghost t = b@.skip(pos as int);
    proof {
        reveal(p_entry);
        vstd::std_specs::vec::axiom_spec_len(b);
        assert(t.skip(0) =~= b@.skip(pos as int));
    }
    if !expect_byte(b, pos, 0x22) {
        return None;
    }
    proof {
        assert(after_lit(t, 0, seq![0x22u8]) == Some(1int));
        assert(t.skip(1) =~= b@.skip(pos + 1));
    }
    let n = parse_u64(b, pos + 1);
    if n.is_none() {
        return None;
    }
    let (key, e1) = n.unwrap();
    proof {
        assert(p_u64(t.skip(1)) == Some((key, e1 - (pos + 1) as int)));
        assert(t.skip(e1 - pos) =~= b@.skip(e1 as int));
    }
    if !expect_byte(b, e1, 0x22) {
        return None;
    }
    proof {
        assert(after_lit(t, 1 + (e1 - (pos + 1)), seq![0x22u8]) == Some(e1 - pos + 1));
    }
    let a = skip_ws(b, e1 + 1);
    proof {
        assert(t.skip(e1 - pos + 1) =~= b@.skip(e1 + 1));
        assert(after_ws(t, e1 - pos + 1) == a - pos);
        assert(t.skip(a - pos) =~= b@.skip(a as int));
    }
    if !expect_byte(b, a, 0x3a) {
        return None;
    }
    proof {
        assert(after_lit(t, a - pos, seq![0x3au8]) == Some(a - pos + 1));
    }
    let i = skip_ws(b, a + 1);
    proof {
        assert(t.skip(a - pos + 1) =~= b@.skip(a + 1));
        assert(after_ws(t, a - pos + 1) == i - pos);
        assert(t.skip(i - pos) =~= b@.skip(i as int));
    }
    let tk = parse_task(b, i);
    if tk.is_none() {
        return None;
    }
    let (task, end) = tk.unwrap();
    proof {
        assert(p_task(t.skip(i - pos)) == Some((task@, end - i as int)));
    }
    if task.id != key {
        return None;
    }
    Some((task, end))
}

/// Parses the comma-separated members through the closing brace, appending
/// the parsed records to `acc`.
#[verifier::rlimit(100)]
fn parse_entries(b: &Vec<u8>, pos: usize, acc: &mut Vec<Task>) -> (r: Option<usize>)
    requires
        pos <= b@.len(),
    ensures
        match r {
            Some(end) => {
                &&& pos <= end <= b@.len()
                &&& p_entries(b@.skip(pos as int)) is Some
                &&& final(acc)@.map_values(|x: Task| x@) == old(acc)@.map_values(|x: Task| x@)
                    + p_entries(b@.skip(pos as int)).unwrap().0
                &&& end - pos == p_entries(b@.skip(pos as int)).unwrap().1
            },
            None => p_entries(b@.skip(pos as int)) is None,
        },
    decreases b@.len() - pos,
{
    let ghost t = b@.skip(pos as int);
    proof {
        vstd::std_specs::vec::axiom_spec_len(b);
    }
    let e = parse_entry(b, pos);
    if e.is_none() {
        return None;
    }
    let (task, e1) = e.unwrap();
    let ghost tv = task@;
    acc.push(task);
    proof {
        assert(acc@.map_values(|x: Task| x@) =~= old(acc)@.map_values(|x: Task| x@) + seq![tv]);
    }
    let i = skip_ws(b, e1);
    proof {
        assert(t.skip(e1 - pos) =~= b@.skip(e1 as int));
        assert(after_ws(t, e1 - pos) == i - pos);
        assert(t.skip(i - pos) =~= b@.skip(i as int));
    }
    if expect_byte(b, i, 0x2c) {
        proof {
            assert(after_lit(t, i - pos, seq![0x2cu8]) == Some(i - pos + 1));
        }
        let j = skip_ws(b, i + 1);
        proof {
            assert(t.skip(i - pos + 1) =~= b@.skip(i + 1));
            assert(after_ws(t, i - pos + 1) == j - pos);
            assert(t.skip(j - pos) =~= b@.skip(j as int));
            assert(0 < j - pos <= t.len());
        }
        let r2 = parse_entries(b, j, acc);
        if r2.is_none() {
            return None;
        }
        let end = r2.unwrap();
        proof {
            let rest = p_entries(b@.skip(j as int)).unwrap().0;
            assert((old(acc)@.map_values(|x: Task| x@) + seq![tv]) + rest =~= old(acc)@.map_values(
                |x: Task| x@,
            ) + (seq![tv] + rest));
        }
        Some(end)
    } else {
        proof {
            assert(after_lit(t, i - pos, seq![0x2cu8]) is None);
        }
        if expect_byte(b, i, 0x7d) {
            proof {
                assert(after_lit(t, i - pos, seq![0x7du8]) == Some(i - pos + 1));
            }
            Some(i + 1)
        } else {
            proof {
                assert(after_lit(t, i - pos, seq![0x7du8]) is None);
            }
            None
        }
    }
}

/// Parses a whole persisted document into its task records, in document
/// order; `None` when the bytes are not a well-formed document.
#[verifier::rlimit(100)]
pub fn deserialize_tasks(b: &Vec<u8>) -> (r: Option<Vec<Task>>)
    ensures
        match r {
            Some(tasks) => spec_parse_db(b@) == Some(tasks@.map_values(|x: Task| x@)),
            None => spec_parse_db(b@) is None,
        },
{
    proof {
        vstd::std_specs::vec::axiom_spec_len(b);
        assert(b@.skip(0) =~= b@);
    }
    let i0 = skip_ws(b, 0);
    proof {
        assert(after_ws(b@, 0) == i0);
    }
    if !expect_byte(b, i0, 0x7b) {
        return None;
    }
    proof {
        assert(after_lit(b@, i0 as int, seq![0x7bu8]) == Some(i0 + 1));
    }
    let i1 = skip_ws(b, i0 + 1);
    proof {
        assert(after_ws(b@, i0 + 1) == i1);
    }
    if expect_byte(b, i1, 0x7d) {
        proof {
            assert(after_lit(b@, i1 as int, seq![0x7du8]) == Some(i1 + 1));
        }
        let i2 = skip_ws(b, i1 + 1);
        proof {
            assert(after_ws(b@, i1 + 1) == i2);
        }
        if i2 == b.len() {
            let tasks: Vec<Task> = Vec::new();
            proof {
                assert(tasks@.map_values(|x: Task| x@) =~= Seq::<TaskView>::empty());
            }
            Some(tasks)
        } else {
            None
        }
    } else {
        proof {
            assert(after_lit(b@, i1 as int, seq![0x7du8]) is None);
        }
        let mut acc: Vec<Task> = Vec::new();
        let r = parse_entries(b, i1, &mut acc);
        match r {
            None => None,
            Some(end) => {
                proof {
                    assert(acc@.map_values(|x: Task| x@) =~= p_entries(
                        b@.skip(i1 as int),
                    ).unwrap().0);
                }
                let i3 = skip_ws(b, end);
                proof {
                    assert(after_ws(b@, i1 + p_entries(b@.skip(i1 as int)).unwrap().1) == i3);
                }
                if i3 == b.len() {
                    Some(acc)
                } else {
                    None
                }
            },
        }
    }
}

// --- round trip: parsing recovers what the serializer wrote ---

/// The digits of `n` are digits and denote `n`.
proof fn lemma_ser_u64_digits(n: u64)
    ensures
        ser_u64(n).len() >= 1,
        forall|j: int| 0 <= j < ser_u64(n).len() ==> is_digit_byte(#[trigger] ser_u64(n)[j]),
        digits_val(ser_u64(n)) == n,
    decreases n,
{
    if n < 10 {
        assert(ser_u64(n).drop_last() =~= Seq::<u8>::empty());
        assert(digits_val(Seq::<u8>::empty()) == 0);
        assert(digits_val(ser_u64(n)) == n);
    } else {
        lemma_ser_u64_digits(n / 10);
        let w = ser_u64(n);
        assert(w.drop_last() =~= ser_u64(n / 10));
        assert(w.last() == (0x30 + n % 10) as u8);
        assert(digits_val(w) == (n / 10) * 10 + n % 10);
        assert(n / 10 * 10 + n % 10 == n);
        assert forall|j: int| 0 <= j < w.len() implies is_digit_byte(#[trigger] w[j]) by {
            if j < w.len() - 1 {
                assert(w[j] == ser_u64(n / 10)[j]);
            }
        }
    }
}

/// Parsing the digits of `n`, followed by anything that does not start with
/// a digit, yields `n` and consumes exactly the digits.
proof fn lemma_p_u64_of_ser(n: u64, rest: Seq<u8>)
    requires
        rest.len() == 0 || !is_digit_byte(rest[0]),
    ensures
        p_u64(ser_u64(n) + rest) == Some((n, ser_u64(n).len() as int)),
{
    lemma_ser_u64_digits(n);
    let d = ser_u64(n);
    let w = d + rest;
    let l = d.len() as int;
    assert forall|j: int| 0 <= j < l implies is_digit_byte(w[j]) by {
        assert(w[j] == d[j]);
    }
    if l < w.len() {
        assert(w[l] == rest[0]);
    }
    lemma_digits_len_is(w, l);
    assert(w.take(l) =~= d);
}

/// Escaped string content followed by the closing quote parses back to the
/// content, consuming through the quote.
#[verifier::rlimit(100)]
proof fn lemma_p_strbody_of_esc(nm: Seq<u8>, rest: Seq<u8>)
    ensures
        p_strbody(esc_bytes(nm) + seq![0x22u8] + rest) == Some(
            (nm, esc_bytes(nm).len() as int + 1),
        ),
    decreases nm.len(),
{
    let w = esc_bytes(nm) + seq![0x22u8] + rest;
    if nm.len() == 0 {
        assert(w[0] == 0x22);
        assert(w.len() >= 1);
        assert(nm =~= Seq::<u8>::empty());
    } else {
        let b = nm[0];
        let nm2 = nm.drop_first();
        let w2 = esc_bytes(nm2) + seq![0x22u8] + rest;
        lemma_p_strbody_of_esc(nm2, rest);
        assert(esc_bytes(nm) == esc_byte(b) + esc_bytes(nm2));
        assert(w =~= esc_byte(b) + w2);
        let m = esc_bytes(nm2).len() + 1;
        if b == 0x22 || b == 0x5c {
            assert(w[0] == 0x5c);
            assert(w.drop_first() =~= seq![b] + w2);
            assert((seq![b] + w2)[0] == b);
            assert(p_escape(w.drop_first()) == Some((seq![b], 1int)));
            assert(w.skip(2) =~= w2);
            assert(seq![b] + nm2 =~= nm);
        } else if b < 0x20 {
            assert(w[0] == 0x5c);
            let u = w.drop_first();
            assert(u =~= seq![0x75u8, 0x30u8, 0x30u8, hex_digit((b / 16) as u8), hex_digit(
                (b % 16) as u8,
            )] + w2);
            assert(u[0] == 0x75 && u[1] == 0x30 && u[2] == 0x30 && u[3] == hex_digit(
                (b / 16) as u8,
            ) && u[4] == hex_digit((b % 16) as u8));
            assert(is_hex_byte(u[1]) && is_hex_byte(u[2]) && is_hex_byte(u[3]) && is_hex_byte(
                u[4],
            ));
            let cp = hex4_val(u.subrange(1, 5));
            assert(u.subrange(1, 5)[0] == u[1] && u.subrange(1, 5)[1] == u[2] && u.subrange(1, 5)[2]
                == u[3] && u.subrange(1, 5)[3] == u[4]);
            assert(hex_val(hex_digit((b / 16) as u8)) == b / 16);
            assert(hex_val(hex_digit((b % 16) as u8)) == b % 16);
            assert(b / 16 * 16 + b % 16 == b);
            assert(cp == b as u32);
            assert(!(0xD800 <= cp <= 0xDBFF) && !(0xDC00 <= cp <= 0xDFFF));
            assert(((b as u32) & 0x7F) as u8 == b) by (bit_vector)
                requires
                    b < 0x20,
            ;
            assert(encode_scalar(cp) =~= seq![b]);
            assert(p_escape(u) == Some((seq![b], 5int)));
            assert(w.skip(6) =~= w2);
            assert(seq![b] + nm2 =~= nm);
        } else {
            assert(w[0] == b);
            assert(w.drop_first() =~= w2);
            assert(seq![b] + nm2 =~= nm);
        }
    }
}

/// Escaping leaves a sequence of plain bytes (no quote, backslash or
/// control byte) unchanged.
proof fn lemma_esc_bytes_plain(s: Seq<u8>)
    requires
        forall|j: int| 0 <= j < s.len() ==> 0x20 <= #[trigger] s[j] && s[j] != 0x22 && s[j]
            != 0x5c,
    ensures
        esc_bytes(s) == s,
    decreases s.len(),
{
    if s.len() == 0 {
        assert(esc_bytes(s) =~= s);
    } else {
        assert forall|j: int|
            0 <= j < s.drop_first().len() implies 0x20 <= #[trigger] s.drop_first()[j]
            && s.drop_first()[j] != 0x22 && s.drop_first()[j] != 0x5c by {
            assert(s.drop_first()[j] == s[j + 1]);
        }
        lemma_esc_bytes_plain(s.drop_first());
        assert(esc_byte(s[0]) == seq![s[0]]);
        assert(esc_bytes(s) =~= s);
    }
}

/// String content made of plain bytes, followed by the closing quote,
/// parses back to exactly those bytes.
proof fn lemma_p_strbody_plain(kb: Seq<u8>, rest: Seq<u8>)
    requires
        forall|j: int| 0 <= j < kb.len() ==> 0x20 <= #[trigger] kb[j] && kb[j] != 0x22 && kb[j]
            != 0x5c,
    ensures
        p_strbody(kb + seq![0x22u8] + rest) == Some((kb, kb.len() as int + 1)),
{
    lemma_esc_bytes_plain(kb);
    lemma_p_strbody_of_esc(kb, rest);
}

/// The keys are pairwise distinct and made of plain bytes.
proof fn lemma_keys_plain()
    ensures
        forall|j: int|
            0 <= j < key_id().len() ==> 0x20 <= #[trigger] key_id()[j] && key_id()[j] != 0x22
                && key_id()[j] != 0x5c,
        forall|j: int|
            0 <= j < key_name().len() ==> 0x20 <= #[trigger] key_name()[j] && key_name()[j]
                != 0x22 && key_name()[j] != 0x5c,
        forall|j: int|
            0 <= j < key_completed().len() ==> 0x20 <= #[trigger] key_completed()[j]
                && key_completed()[j] != 0x22 && key_completed()[j] != 0x5c,
        key_id() != key_name(),
        key_id() != key_completed(),
        key_name() != key_completed(),
{
    assert(key_id().len() != key_name().len());
    assert(key_id().len() != key_completed().len());
    assert(key_name().len() != key_completed().len());
}

/// A member key of plain bytes, a colon, and a value that does not begin
/// with whitespace parse as one member head.
#[verifier::rlimit(100)]
proof fn lemma_p_member_key_plain(kb: Seq<u8>, rest: Seq<u8>)
    requires
        forall|j: int| 0 <= j < kb.len() ==> 0x20 <= #[trigger] kb[j] && kb[j] != 0x22 && kb[j]
            != 0x5c,
        rest.len() > 0,
        !is_ws_byte(rest[0]),
    ensures
        p_member_key(seq![0x22u8] + kb + seq![0x22u8, 0x3au8] + rest) == Some(
            (kb, kb.len() as int + 3),
        ),
{
    reveal(p_member_key);
    let w = seq![0x22u8] + kb + seq![0x22u8, 0x3au8] + rest;
    let l = kb.len() as int;
    assert(w[0] == 0x22);
    assert(w.skip(0) =~= w);
    assert(w.skip(0).take(1) =~= seq![0x22u8]);
    assert(after_lit(w, 0, seq![0x22u8]) == Some(1int));
    assert(w.skip(1) =~= kb + seq![0x22u8] + (seq![0x3au8] + rest));
    lemma_p_strbody_plain(kb, seq![0x3au8] + rest);
    assert(p_strbody(w.skip(1)) == Some((kb, l + 1)));
    assert(w.skip(l + 2)[0] == 0x3a);
    assert(ws_len(w.skip(l + 2)) == 0);
    assert(after_ws(w, l + 2) == l + 2);
    assert(w.skip(l + 2).take(1) =~= seq![0x3au8]);
    assert(after_lit(w, l + 2, seq![0x3au8]) == Some(l + 3));
    assert(w.skip(l + 3)[0] == rest[0]);
    assert(ws_len(w.skip(l + 3)) == 0);
    assert(after_ws(w, l + 3) == l + 3);
}

/// The serialized `completed` member followed by the closing brace parses,
/// completing the three required fields.
#[verifier::rlimit(100)]
proof fn lemma_member_completed(id: u64, nb: Seq<u8>, c: bool, rest: Seq<u8>)
    ensures
        p_members(
            seq![0x22u8] + key_completed() + seq![0x22u8, 0x3au8] + (if c {
                seq![0x74u8, 0x72u8, 0x75u8, 0x65u8]
            } else {
                seq![0x66u8, 0x61u8, 0x6cu8, 0x73u8, 0x65u8]
            }) + seq![0x7du8] + rest,
            Some(id),
            Some(nb),
            None,
        ) == Some(((id, nb, c), (if c { 17int } else { 18int }))),
{
    reveal(p_members);
    reveal(p_members_rest);
    lemma_keys_plain();
    let bl = if c {
        seq![0x74u8, 0x72u8, 0x75u8, 0x65u8]
    } else {
        seq![0x66u8, 0x61u8, 0x6cu8, 0x73u8, 0x65u8]
    };
    let blen = bl.len() as int;
    let w = seq![0x22u8] + key_completed() + seq![0x22u8, 0x3au8] + bl + seq![0x7du8] + rest;
    assert(w =~= seq![0x22u8] + key_completed() + seq![0x22u8, 0x3au8] + (bl + seq![0x7du8]
        + rest));
    assert((bl + seq![0x7du8] + rest)[0] == bl[0]);
    lemma_p_member_key_plain(key_completed(), bl + seq![0x7du8] + rest);
    assert(p_member_key(w) == Some((key_completed(), 12int)));
    assert(w.skip(12)[0] == bl[0]);
    let u = w.skip(12);
    if c {
        assert(u.take(4) =~= seq![0x74u8, 0x72u8, 0x75u8, 0x65u8]);
        assert(p_bool(u) == Some((true, 4int)));
    } else {
        if u.len() >= 4 && u.take(4) == seq![0x74u8, 0x72u8, 0x75u8, 0x65u8] {
            assert(u.take(4)[0] == u[0]);
            assert(false);
        }
        assert(u.take(5) =~= seq![0x66u8, 0x61u8, 0x6cu8, 0x73u8, 0x65u8]);
        assert(p_bool(u) == Some((false, 5int)));
    }
    assert(w.skip(12 + blen)[0] == 0x7d);
    assert(ws_len(w.skip(12 + blen)) == 0);
    assert(after_ws(w, 12 + blen) == 12 + blen);
    if w.skip(12 + blen).len() >= 1 && w.skip(12 + blen).take(1) == seq![0x2cu8] {
        assert(w.skip(12 + blen).take(1)[0] == w.skip(12 + blen)[0]);
        assert(false);
    }
    assert(after_lit(w, 12 + blen, seq![0x2cu8]) is None);
    assert(w.skip(12 + blen).take(1) =~= seq![0x7du8]);
    assert(after_lit(w, 12 + blen, seq![0x7du8]) == Some(12 + blen + 1));
}

/// The serialized `name` member, followed by further members that complete
/// the record, parses and fills the name slot.
#[verifier::rlimit(100)]
proof fn lemma_member_name(
    id: u64,
    name: Seq<char>,
    tail: Seq<u8>,
    vals: (u64, Seq<u8>, bool),
    k: int,
)
    requires
        tail.len() > 0,
        !is_ws_byte(tail[0]),
        p_members(tail, Some(id), Some(encode_utf8(name)), None) == Some((vals, k)),
    ensures
        p_members(
            seq![0x22u8, 0x6eu8, 0x61u8, 0x6du8, 0x65u8, 0x22u8, 0x3au8, 0x22u8] + esc_bytes(
                encode_utf8(name),
            ) + seq![0x22u8, 0x2cu8] + tail,
            Some(id),
            None,
            None,
        ) == Some((vals, 10 + esc_bytes(encode_utf8(name)).len() as int + k)),
{
    reveal(p_members);
    reveal(p_members_rest);
    lemma_keys_plain();
    let esc = esc_bytes(encode_utf8(name));
    let e = esc.len() as int;
    let w = seq![0x22u8, 0x6eu8, 0x61u8, 0x6du8, 0x65u8, 0x22u8, 0x3au8, 0x22u8] + esc + seq![
        0x22u8,
        0x2cu8,
    ] + tail;
    assert(w =~= seq![0x22u8] + key_name() + seq![0x22u8, 0x3au8] + (seq![0x22u8] + esc + seq![
        0x22u8,
        0x2cu8,
    ] + tail));
    assert((seq![0x22u8] + esc + seq![0x22u8, 0x2cu8] + tail)[0] == 0x22);
    lemma_p_member_key_plain(key_name(), seq![0x22u8] + esc + seq![0x22u8, 0x2cu8] + tail);
    assert(p_member_key(w) == Some((key_name(), 7int)));
    assert(key_name() != key_id());
    assert(w.skip(7)[0] == 0x22);
    assert(w.skip(7).take(1) =~= seq![0x22u8]);
    assert(after_lit(w, 7, seq![0x22u8]) == Some(8int));
    assert(w.skip(8) =~= esc + seq![0x22u8] + (seq![0x2cu8] + tail));
    lemma_p_strbody_of_esc(encode_utf8(name), seq![0x2cu8] + tail);
    assert(p_strbody(w.skip(8)) == Some((encode_utf8(name), e + 1)));
    assert(w.skip(9 + e)[0] == 0x2c);
    assert(ws_len(w.skip(9 + e)) == 0);
    assert(after_ws(w, 9 + e) == 9 + e);
    assert(w.skip(9 + e).take(1) =~= seq![0x2cu8]);
    assert(after_lit(w, 9 + e, seq![0x2cu8]) == Some(10 + e));
    assert(w.skip(10 + e) =~= tail);
    assert(ws_len(w.skip(10 + e)) == 0);
    assert(after_ws(w, 10 + e) == 10 + e);
    assert(p_members(w.skip(10 + e), Some(id), Some(encode_utf8(name)), None) == p_members(
        tail,
        Some(id),
        Some(encode_utf8(name)),
        None,
    )) by {
        assert(w.skip(10 + e) =~= tail);
    }
}

/// The serialized `id` member, followed by further members that complete the
/// record, parses and fills the id slot.
#[verifier::rlimit(100)]
proof fn lemma_member_id(id: u64, tail: Seq<u8>, vals: (u64, Seq<u8>, bool), k: int)
    requires
        tail.len() > 0,
        !is_ws_byte(tail[0]),
        p_members(tail, Some(id), None, None) == Some((vals, k)),
    ensures
        p_members(
            seq![0x22u8, 0x69u8, 0x64u8, 0x22u8, 0x3au8] + ser_u64(id) + seq![0x2cu8] + tail,
            None,
            None,
            None,
        ) == Some((vals, 6 + ser_u64(id).len() as int + k)),
{
    reveal(p_members);
    reveal(p_members_rest);
    lemma_keys_plain();
    lemma_ser_u64_digits(id);
    let digits = ser_u64(id);
    let l = digits.len() as int;
    let w = seq![0x22u8, 0x69u8, 0x64u8, 0x22u8, 0x3au8] + digits + seq![0x2cu8] + tail;
    assert(w =~= seq![0x22u8] + key_id() + seq![0x22u8, 0x3au8] + (digits + seq![0x2cu8] + tail));
    assert((digits + seq![0x2cu8] + tail)[0] == digits[0]);
    lemma_p_member_key_plain(key_id(), digits + seq![0x2cu8] + tail);
    assert(p_member_key(w) == Some((key_id(), 5int)));
    assert(w.skip(5) =~= digits + (seq![0x2cu8] + tail));
    lemma_p_u64_of_ser(id, seq![0x2cu8] + tail);
    assert(p_u64(w.skip(5)) == Some((id, l)));
    assert(w.skip(5 + l)[0] == 0x2c);
    assert(ws_len(w.skip(5 + l)) == 0);
    assert(after_ws(w, 5 + l) == 5 + l);
    assert(w.skip(5 + l).take(1) =~= seq![0x2cu8]);
    assert(after_lit(w, 5 + l, seq![0x2cu8]) == Some(6 + l));
    assert(w.skip(6 + l) =~= tail);
    assert(ws_len(w.skip(6 + l)) == 0);
    assert(after_ws(w, 6 + l) == 6 + l);
    assert(p_members(w.skip(6 + l), Some(id), None, None) == p_members(tail, Some(id), None, None))
        by {
        assert(w.skip(6 + l) =~= tail);
    }
}

/// A serialized task object, followed by anything, parses back to exactly
/// that task, consuming exactly the object's bytes.
#[verifier::rlimit(100)]
proof fn lemma_p_task_of_ser(t: TaskView, rest: Seq<u8>)
    ensures
        p_task(ser_task(t) + rest) == Some((t, ser_task(t).len() as int)),
{
    reveal(p_task);
    let w = ser_task(t) + rest;
    let enc = encode_utf8(t.name);
    let esc = esc_bytes(enc);
    let digits = ser_u64(t.id);
    let l = digits.len() as int;
    let e = esc.len() as int;
    let bl = if t.completed {
        seq![0x74u8, 0x72u8, 0x75u8, 0x65u8]
    } else {
        seq![0x66u8, 0x61u8, 0x6cu8, 0x73u8, 0x65u8]
    };
    let blen = bl.len() as int;
    let cblock = seq![0x22u8] + key_completed() + seq![0x22u8, 0x3au8] + bl + seq![0x7du8];
    let tail2 = cblock + rest;
    let nblock = seq![0x22u8, 0x6eu8, 0x61u8, 0x6du8, 0x65u8, 0x22u8, 0x3au8, 0x22u8] + esc + seq![
        0x22u8,
        0x2cu8,
    ];
    let tail1 = nblock + tail2;
    let idblock = seq![0x22u8, 0x69u8, 0x64u8, 0x22u8, 0x3au8] + digits + seq![0x2cu8];

    lemma_member_completed(t.id, enc, t.completed, rest);
    assert(cblock + rest =~= seq![0x22u8] + key_completed() + seq![0x22u8, 0x3au8] + bl + seq![
        0x7du8,
    ] + rest);
    let k3: int = if t.completed {
        17
    } else {
        18
    };
    assert(p_members(tail2, Some(t.id), Some(enc), None) == Some(((t.id, enc, t.completed), k3)));

    assert(tail2[0] == 0x22);
    lemma_member_name(t.id, t.name, tail2, (t.id, enc, t.completed), k3);
    assert(tail1 =~= seq![0x22u8, 0x6eu8, 0x61u8, 0x6du8, 0x65u8, 0x22u8, 0x3au8, 0x22u8] + esc
        + seq![0x22u8, 0x2cu8] + tail2);
    assert(p_members(tail1, Some(t.id), None, None) == Some(
        ((t.id, enc, t.completed), 10 + e + k3),
    ));

    assert(tail1[0] == 0x22);
    lemma_member_id(t.id, tail1, (t.id, enc, t.completed), 10 + e + k3);
    assert(idblock + tail1 =~= seq![0x22u8, 0x69u8, 0x64u8, 0x22u8, 0x3au8] + digits + seq![
        0x2cu8,
    ] + tail1);
    assert(p_members(idblock + tail1, None, None, None) == Some(
        ((t.id, enc, t.completed), 6 + l + 10 + e + k3),
    ));

    assert(w.skip(1) == idblock + tail1) by {
        assert(w.skip(1) =~= idblock + tail1);
    }
    assert(w[0] == 0x7b);
    assert(w.skip(0) =~= w);
    assert(w.skip(0).take(1) =~= seq![0x7bu8]);
    assert(after_lit(w, 0, seq![0x7bu8]) == Some(1int));
    assert(w.skip(1)[0] == 0x22);
    assert(ws_len(w.skip(1)) == 0);
    assert(after_ws(w, 1) == 1);
    assert(p_members(w.skip(1), None, None, None) == Some(
        ((t.id, enc, t.completed), 6 + l + 10 + e + k3),
    ));
    vstd::utf8::encode_utf8_valid_utf8(t.name);
    vstd::utf8::encode_utf8_decode_utf8(t.name);
    assert(ser_task(t).len() == 1 + 6 + l + 10 + e + k3);
    assert(TaskView { id: t.id, name: decode_utf8(enc), completed: t.completed } == t);
}

/// Front decomposition of the serialized members: the first member, then a
/// comma and the remaining members.
proof fn lemma_ser_entries_front(s: Seq<TaskView>)
    requires
        s.len() >= 1,
    ensures
        ser_entries(s) == ser_entry(s[0]) + (if s.len() == 1 {
            Seq::<u8>::empty()
        } else {
            seq![0x2cu8] + ser_entries(s.drop_first())
        }),
    decreases s.len(),
{
    if s.len() == 1 {
        assert(ser_entries(s) =~= ser_entry(s[0]) + Seq::<u8>::empty());
    } else if s.len() == 2 {
        assert(s.drop_last() =~= seq![s[0]]);
        assert(s.drop_last()[0] == s[0]);
        assert(s.drop_first() =~= seq![s[1]]);
        assert(s.drop_first()[0] == s[1]);
        assert(ser_entries(s.drop_last()) == ser_entry(s[0]));
        assert(ser_entries(s.drop_first()) == ser_entry(s[1]));
        assert(ser_entries(s) =~= ser_entry(s[0]) + (seq![0x2cu8] + ser_entries(s.drop_first())));
    } else {
        lemma_ser_entries_front(s.drop_last());
        assert(s.drop_last()[0] == s[0]);
        assert(s.drop_last().drop_first() =~= s.drop_first().drop_last());
        lemma_ser_entries_front(s.drop_first());
        assert(s.drop_first().len() >= 2);
        assert(ser_entries(s.drop_first()) == ser_entries(s.drop_first().drop_last()) + seq![
            0x2cu8,
        ] + ser_entry(s.drop_first().last()));
        assert(s.drop_first().last() == s.last());
        assert(ser_entries(s) == ser_entries(s.drop_last()) + seq![0x2cu8] + ser_entry(s.last()));
        assert(ser_entries(s) =~= ser_entry(s[0]) + (seq![0x2cu8] + ser_entries(s.drop_first())));
    }
}

/// A serialized member, followed by anything, parses back to exactly its
/// task, consuming exactly the member's bytes.
#[verifier::rlimit(100)]
proof fn lemma_p_entry_of_ser(t: TaskView, rest: Seq<u8>)
    ensures
        p_entry(ser_entry(t) + rest) == Some((t, ser_entry(t).len() as int)),
{
    reveal(p_entry);
    let w = ser_entry(t) + rest;
    let l = ser_u64(t.id).len() as int;
    let m = ser_task(t).len() as int;
    lemma_ser_u64_digits(t.id);
    assert(w.skip(1) == ser_u64(t.id) + w.skip(1 + l)) by {
        assert(w.skip(1) =~= ser_u64(t.id) + w.skip(1 + l));
    }
    assert(w.skip(3 + l) == ser_task(t) + rest) by {
        assert(w.skip(3 + l) =~= ser_task(t) + rest);
    }
    assert(w[0] == 0x22);
    assert(w.skip(0) =~= w);
    assert(w.skip(0).take(1) =~= seq![0x22u8]);
    assert(after_lit(w, 0, seq![0x22u8]) == Some(1int));
    assert(w.skip(1 + l)[0] == 0x22);
    lemma_p_u64_of_ser(t.id, w.skip(1 + l));
    assert(p_u64(w.skip(1)) == Some((t.id, l)));
    assert(w.skip(1 + l).take(1) =~= seq![0x22u8]);
    assert(after_lit(w, 1 + l, seq![0x22u8]) == Some(2 + l));
    assert(w.skip(2 + l)[0] == 0x3a);
    assert(ws_len(w.skip(2 + l)) == 0);
    assert(w.skip(2 + l).take(1) =~= seq![0x3au8]);
    assert(after_lit(w, 2 + l, seq![0x3au8]) == Some(3 + l));
    assert(w.skip(3 + l)[0] == 0x7b);
    assert(ws_len(w.skip(3 + l)) == 0);
    lemma_p_task_of_ser(t, rest);
    assert(p_task(w.skip(3 + l)) == Some((t, m)));
    assert(ser_entry(t).len() == 3 + l + m);
}

/// Serialized members followed by the closing brace parse back to exactly
/// those records, consuming through the brace.
#[verifier::rlimit(100)]
proof fn lemma_p_entries_of_ser(s: Seq<TaskView>, rest: Seq<u8>)
    requires
        s.len() >= 1,
    ensures
        p_entries(ser_entries(s) + seq![0x7du8] + rest) == Some(
            (s, ser_entries(s).len() as int + 1),
        ),
    decreases s.len(),
{
    let w = ser_entries(s) + seq![0x7du8] + rest;
    let k = ser_entry(s[0]).len() as int;
    lemma_ser_entries_front(s);
    if s.len() == 1 {
        assert(ser_entries(s) == ser_entry(s[0]) + Seq::<u8>::empty());
        assert(w =~= ser_entry(s[0]) + (seq![0x7du8] + rest));
        lemma_p_entry_of_ser(s[0], seq![0x7du8] + rest);
        assert(p_entry(w) == Some((s[0], k)));
        assert(w.skip(k)[0] == 0x7d);
        assert(ws_len(w.skip(k)) == 0);
        if w.skip(k).len() >= 1 && w.skip(k).take(1) == seq![0x2cu8] {
            assert(w.skip(k).take(1)[0] == w.skip(k)[0]);
            assert(false);
        }
        assert(after_lit(w, k, seq![0x2cu8]) is None);
        assert(w.skip(k).take(1) =~= seq![0x7du8]);
        assert(after_lit(w, k, seq![0x7du8]) == Some(k + 1));
        assert(seq![s[0]] =~= s);
    } else {
        let s2 = s.drop_first();
        assert(ser_entries(s) == ser_entry(s[0]) + (seq![0x2cu8] + ser_entries(s2)));
        assert(w =~= ser_entry(s[0]) + (seq![0x2cu8] + (ser_entries(s2) + seq![0x7du8] + rest)));
        lemma_p_entry_of_ser(s[0], seq![0x2cu8] + (ser_entries(s2) + seq![0x7du8] + rest));
        assert(p_entry(w) == Some((s[0], k)));
        assert(w.skip(k) == seq![0x2cu8] + (ser_entries(s2) + seq![0x7du8] + rest)) by {
            assert(w.skip(k) =~= seq![0x2cu8] + (ser_entries(s2) + seq![0x7du8] + rest));
        }
        assert(w.skip(k)[0] == 0x2c);
        assert(ws_len(w.skip(k)) == 0);
        assert(w.skip(k).take(1) =~= seq![0x2cu8]);
        assert(after_lit(w, k, seq![0x2cu8]) == Some(k + 1));
        assert(w.skip(k + 1) == ser_entries(s2) + seq![0x7du8] + rest) by {
            assert(w.skip(k + 1) =~= ser_entries(s2) + seq![0x7du8] + rest);
        }
        lemma_ser_entries_front(s2);
        assert(ser_entries(s2)[0] == ser_entry(s2[0])[0]);
        assert(ser_entry(s2[0])[0] == 0x22);
        assert(w.skip(k + 1)[0] == 0x22);
        assert(ws_len(w.skip(k + 1)) == 0);
        assert(after_ws(w, k + 1) == k + 1);
        lemma_p_entries_of_ser(s2, rest);
        assert(p_entries(w.skip(k + 1)) == Some((s2, ser_entries(s2).len() as int + 1)));
        assert(seq![s[0]] + s2 =~= s);
        assert(ser_entries(s).len() == k + 1 + ser_entries(s2).len());
    }
}

/// Round-trip law: parsing a serialized store document recovers exactly the
/// records that were serialized, in their order.
#[verifier::rlimit(100)]
pub proof fn lemma_parse_ser_db(s: Seq<TaskView>)
    ensures
        spec_parse_db(spec_ser_db(s)) == Some(s),
{
    let w = spec_ser_db(s);
    assert(w[0] == 0x7b);
    assert(w.skip(0) =~= w);
    assert(ws_len(w.skip(0)) == 0);
    assert(after_ws(w, 0) == 0);
    assert(w.skip(0).take(1) =~= seq![0x7bu8]);
    assert(after_lit(w, 0, seq![0x7bu8]) == Some(1int));
    if s.len() == 0 {
        assert(w =~= seq![0x7bu8, 0x7du8]);
        assert(w.skip(1)[0] == 0x7d);
        assert(ws_len(w.skip(1)) == 0);
        assert(w.skip(1).take(1) =~= seq![0x7du8]);
        assert(after_lit(w, 1, seq![0x7du8]) == Some(2int));
        assert(w.skip(2) =~= Seq::<u8>::empty());
        assert(ws_len(w.skip(2)) == 0);
        assert(after_ws(w, 2) == w.len());
        assert(s =~= Seq::<TaskView>::empty());
    } else {
        lemma_ser_entries_front(s);
        assert(ser_entries(s)[0] == ser_entry(s[0])[0]);
        assert(ser_entry(s[0])[0] == 0x22);
        assert(w.skip(1) == ser_entries(s) + seq![0x7du8] + Seq::<u8>::empty()) by {
            assert(w.skip(1) =~= ser_entries(s) + seq![0x7du8] + Seq::<u8>::empty());
        }
        assert(w.skip(1)[0] == 0x22);
        assert(ws_len(w.skip(1)) == 0);
        assert(after_ws(w, 1) == 1);
        if w.skip(1).len() >= 1 && w.skip(1).take(1) == seq![0x7du8] {
            assert(w.skip(1).take(1)[0] == w.skip(1)[0]);
            assert(false);
        }
        assert(after_lit(w, 1, seq![0x7du8]) is None);
        lemma_p_entries_of_ser(s, Seq::<u8>::empty());
        let e = ser_entries(s).len() as int;
        assert(p_entries(w.skip(1)) == Some((s, e + 1)));
        assert(w.skip(1 + (e + 1)) =~= Seq::<u8>::empty());
        assert(ws_len(w.skip(1 + (e + 1))) == 0);
        assert(after_ws(w, 1 + (e + 1)) == w.len());
    }
}

} // verus!
