//! The RESP2 wire grammar, as mathematics: the byte-exact framing of each
//! token, and the mode-dependent mapping from abstract-model values to wire
//! bytes. Both the encoder's and the decoder's contracts are stated against
//! these functions.
use crate::value::ValueModel;
use vstd::prelude::*;

verus! {

pub open spec fn crlf() -> Seq<u8> {
    seq![13u8, 10u8]
}

/// The decimal digits of a nonnegative number, most significant first, with
/// no leading zeros.
pub open spec fn dec_rep(n: nat) -> Seq<u8>
    decreases n,
{
    if n < 10 {
        seq![(48 + n) as u8]
    } else {
        dec_rep(n / 10) + seq![(48 + n % 10) as u8]
    }
}

/// The canonical base-10 representation of an integer: an optional leading
/// minus sign, then the digits of its magnitude.
pub open spec fn int_rep(i: int) -> Seq<u8> {
    if i < 0 {
        seq![45u8] + dec_rep((-i) as nat)
    } else {
        dec_rep(i as nat)
    }
}

/// `:<integer>\r\n`
pub open spec fn int_token(i: int) -> Seq<u8> {
    seq![58u8] + int_rep(i) + crlf()
}

/// `$<len>\r\n<body>\r\n`
pub open spec fn bulk_token(body: Seq<u8>) -> Seq<u8> {
    seq![36u8] + int_rep(body.len() as int) + crlf() + body + crlf()
}

/// `$-1\r\n`, the nil bulk string: a length of -1 and no body.
pub open spec fn nil_token() -> Seq<u8> {
    seq![36u8, 45u8, 49u8, 13u8, 10u8]
}

/// `+<text>\r\n`; only sound when the text holds no CR or LF byte.
pub open spec fn simple_token(body: Seq<u8>) -> Seq<u8> {
    seq![43u8] + body + crlf()
}

/// `-<text>\r\n`, the error token read from the reply side channel.
pub open spec fn error_token(body: Seq<u8>) -> Seq<u8> {
    seq![45u8] + body + crlf()
}

/// `*<count>\r\n`; the count elements follow, each a token of its own.
pub open spec fn array_header(n: int) -> Seq<u8> {
    seq![42u8] + int_rep(n) + crlf()
}

/// Whether the bytes contain a CR or LF, which rules out simple-string
/// framing.
pub open spec fn has_line_break(b: Seq<u8>) -> bool {
    exists|i: int| 0 <= i < b.len() && (b[i] == 13 || b[i] == 10)
}

/// Text framing: a simple string when the content is line-safe, a bulk
/// string otherwise.
pub open spec fn text_token(body: Seq<u8>) -> Seq<u8> {
    if has_line_break(body) {
        bulk_token(body)
    } else {
        simple_token(body)
    }
}

/// ASCII upper-casing of one byte.
pub open spec fn upper_byte(b: u8) -> u8 {
    if 97 <= b <= 122 {
        (b - 32) as u8
    } else {
        b
    }
}

/// ASCII upper-casing of a byte sequence; what a variant name becomes on the
/// wire, and the key under which candidate names are matched.
pub open spec fn upper(b: Seq<u8>) -> Seq<u8> {
    b.map_values(|x: u8| upper_byte(x))
}

/// Why an encoding has no wire form.
pub enum EncErr {
    /// The shape has no RESP2 representation here (non-ASCII character).
    Unsupported,
    /// An unsigned value above the signed 64-bit range.
    IntConversion,
    /// A tagged-variant shape in reply mode.
    InvalidTypeForReply,
    /// A non-enum value at the top of a command frame.
    InvalidTypeForCommand,
}

/// The outcome of encoding a value: its wire bytes, or the first failure met
/// in encoding order.
pub enum EncOut {
    Bytes(Seq<u8>),
    Fail(EncErr),
}

/// The name of a variant as it stands on the wire: the UTF-8 bytes of the
/// declared name, ASCII upper-cased, framed as a bulk string.
pub open spec fn name_token(name: Seq<char>) -> Seq<u8> {
    bulk_token(upper(vstd::utf8::encode_utf8(name)))
}

/// The wire bytes of one abstract-model value, in command mode (`cmd`) or
/// reply mode. This is the whole context-dependent mapping of the codec.
pub open spec fn wire_value(v: ValueModel, cmd: bool) -> EncOut
    decreases v,
{
    match v {
        ValueModel::Bool(b) => EncOut::Bytes(int_token(if b { 1int } else { 0int })),
        ValueModel::Int(i) => EncOut::Bytes(int_token(i)),
        ValueModel::UInt(u) => if u <= i64::MAX {
            EncOut::Bytes(int_token(u))
        } else {
            EncOut::Fail(EncErr::IntConversion)
        },
        ValueModel::Char(c) => if c as u32 > 127 {
            EncOut::Fail(EncErr::Unsupported)
        } else if c == '\r' || c == '\n' {
            EncOut::Bytes(bulk_token(seq![c as u8]))
        } else {
            EncOut::Bytes(simple_token(seq![c as u8]))
        },
        ValueModel::Str(s) => EncOut::Bytes(text_token(vstd::utf8::encode_utf8(s))),
        ValueModel::Bytes(b) => EncOut::Bytes(bulk_token(b)),
        ValueModel::Nil => EncOut::Bytes(nil_token()),
        ValueModel::Opt(o) => match o {
            Option::None => if cmd {
                // An absent optional argument is omitted from the command
                // frame entirely.
                EncOut::Bytes(Seq::empty())
            } else {
                EncOut::Bytes(nil_token())
            },
            Option::Some(inner) => wire_value(*inner, cmd),
        },
        ValueModel::List(elems) => match wire_list(elems, cmd) {
            EncOut::Bytes(bs) => if cmd {
                // Command mode streams the elements into the surrounding
                // frame without a header of their own.
                EncOut::Bytes(bs)
            } else {
                EncOut::Bytes(array_header(elems.len() as int) + bs)
            },
            EncOut::Fail(e) => EncOut::Fail(e),
        },
        ValueModel::UnitVariant(name) => if cmd {
            EncOut::Bytes(array_header(1) + name_token(name))
        } else {
            EncOut::Fail(EncErr::InvalidTypeForReply)
        },
        ValueModel::NewtypeVariant(name, inner) => if cmd {
            match wire_value(*inner, cmd) {
                EncOut::Bytes(bs) => EncOut::Bytes(array_header(2) + name_token(name) + bs),
                EncOut::Fail(e) => EncOut::Fail(e),
            }
        } else {
            EncOut::Fail(EncErr::InvalidTypeForReply)
        },
        ValueModel::TupleVariant(name, fields) => match wire_list(fields, cmd) {
            EncOut::Bytes(bs) => if cmd {
                EncOut::Bytes(array_header(fields.len() as int + 1) + name_token(name) + bs)
            } else {
                // Reply mode drops the variant name and frames the payload
                // fields as a plain array.
                EncOut::Bytes(array_header(fields.len() as int) + bs)
            },
            EncOut::Fail(e) => EncOut::Fail(e),
        },
    }
}

/// The concatenated wire bytes of a row of values, or the first failure.
pub open spec fn wire_list(elems: Seq<ValueModel>, cmd: bool) -> EncOut
    decreases elems,
{
    if elems.len() == 0 {
        EncOut::Bytes(Seq::empty())
    } else {
        match wire_value(elems[0], cmd) {
            EncOut::Bytes(first) => match wire_list(elems.drop_first(), cmd) {
                EncOut::Bytes(rest) => EncOut::Bytes(first + rest),
                EncOut::Fail(e) => EncOut::Fail(e),
            },
            EncOut::Fail(e) => EncOut::Fail(e),
        }
    }
}

/// The bytes a failing encode has already appended before it stops: empty
/// for the failures that precede any write (an unsigned value above the
/// signed range, a non-ASCII character, a tagged variant in reply mode), and
/// the successfully encoded part of the frame when a payload fails further
/// in. Meaningful only where `wire_value` fails.
pub open spec fn enc_prefix(v: ValueModel, cmd: bool) -> Seq<u8>
    decreases v,
{
    match v {
        ValueModel::Bool(_) => Seq::empty(),
        ValueModel::Int(_) => Seq::empty(),
        ValueModel::UInt(_) => Seq::empty(),
        ValueModel::Char(_) => Seq::empty(),
        ValueModel::Str(_) => Seq::empty(),
        ValueModel::Bytes(_) => Seq::empty(),
        ValueModel::Nil => Seq::empty(),
        ValueModel::Opt(o) => match o {
            Option::None => Seq::empty(),
            Option::Some(inner) => enc_prefix(*inner, cmd),
        },
        ValueModel::List(elems) => if cmd {
            enc_prefix_list(elems, cmd)
        } else {
            array_header(elems.len() as int) + enc_prefix_list(elems, cmd)
        },
        ValueModel::UnitVariant(_) => Seq::empty(),
        ValueModel::NewtypeVariant(name, inner) => if cmd {
            array_header(2) + name_token(name) + enc_prefix(*inner, cmd)
        } else {
            Seq::empty()
        },
        ValueModel::TupleVariant(name, fields) => if cmd {
            array_header(fields.len() as int + 1) + name_token(name) + enc_prefix_list(
                fields,
                cmd,
            )
        } else {
            array_header(fields.len() as int) + enc_prefix_list(fields, cmd)
        },
    }
}

/// The bytes a failing row encode has already appended: the wire bytes of
/// the elements before the failing one, then that element's own prefix.
pub open spec fn enc_prefix_list(elems: Seq<ValueModel>, cmd: bool) -> Seq<u8>
    decreases elems,
{
    if elems.len() == 0 {
        Seq::empty()
    } else {
        match wire_value(elems[0], cmd) {
            EncOut::Bytes(first) => first + enc_prefix_list(elems.drop_first(), cmd),
            EncOut::Fail(_) => enc_prefix(elems[0], cmd),
        }
    }
}

/// When a row's first failing element stands at `i`, the row's failure
/// prefix is the wire bytes of the elements before it followed by its own
/// prefix.
pub proof fn lemma_enc_prefix_list_split(s: Seq<ValueModel>, cmd: bool, i: int)
    requires
        0 <= i < s.len(),
        wire_list(s.take(i), cmd) is Bytes,
        wire_value(s[i], cmd) is Fail,
    ensures
        enc_prefix_list(s, cmd) == wire_list(s.take(i), cmd)->Bytes_0 + enc_prefix(s[i], cmd),
    decreases i,
{
    if i == 0 {
        assert(s.take(0) =~= Seq::<ValueModel>::empty());
        assert(Seq::<u8>::empty() + enc_prefix(s[0], cmd) =~= enc_prefix(s[0], cmd));
    } else {
        let rest = s.drop_first();
        assert(s.take(i)[0] == s[0]);
        assert(s.take(i).drop_first() =~= rest.take(i - 1));
        match wire_value(s[0], cmd) {
            EncOut::Bytes(f) => {
                lemma_enc_prefix_list_split(rest, cmd, i - 1);
                match wire_list(rest.take(i - 1), cmd) {
                    EncOut::Bytes(pre) => {
                        assert((f + pre) + enc_prefix(s[i], cmd) =~= f + (pre + enc_prefix(
                            s[i],
                            cmd,
                        )));
                    },
                    EncOut::Fail(_) => {},
                }
            },
            EncOut::Fail(_) => {},
        }
    }
}

/// The wire bytes of a whole command frame: the enum value's array framing
/// followed by the frame's own extra terminating CRLF.
pub open spec fn wire_command(v: ValueModel) -> EncOut {
    if !v.is_enum_shaped() {
        EncOut::Fail(EncErr::InvalidTypeForCommand)
    } else {
        match wire_value(v, true) {
            EncOut::Bytes(bs) => EncOut::Bytes(bs + crlf()),
            EncOut::Fail(e) => EncOut::Fail(e),
        }
    }
}

/// The error the library reports for a failed encoding.
pub open spec fn enc_error(e: EncErr) -> crate::error::Error {
    match e {
        EncErr::Unsupported => crate::error::Error::UnsupportedType,
        EncErr::IntConversion => crate::error::Error::IntConversion,
        EncErr::InvalidTypeForReply => crate::error::Error::InvalidTypeForReply,
        EncErr::InvalidTypeForCommand => crate::error::Error::InvalidTypeForCommand,
    }
}

/// Splitting a row of values splits its wire bytes: when the whole row
/// encodes, every prefix and suffix of it encode to the matching pieces; and
/// the first failure in encoding order is the row's failure.
pub proof fn lemma_wire_list_split(s: Seq<ValueModel>, cmd: bool, i: int)
    requires
        0 <= i <= s.len(),
    ensures
        (wire_list(s.take(i), cmd) is Fail ==> wire_list(s, cmd) == wire_list(s.take(i), cmd)),
        ((wire_list(s.take(i), cmd) is Bytes) && (wire_list(s.skip(i), cmd) is Fail)
            ==> wire_list(s, cmd) == wire_list(s.skip(i), cmd)),
        ((wire_list(s.take(i), cmd) is Bytes) && (wire_list(s.skip(i), cmd) is Bytes)
            ==> (wire_list(s, cmd) is Bytes) && wire_list(s, cmd)->Bytes_0 == wire_list(
            s.take(i),
            cmd,
        )->Bytes_0 + wire_list(s.skip(i), cmd)->Bytes_0),
    decreases i,
{
    if i == 0 {
        assert(s.take(0) =~= Seq::<ValueModel>::empty());
        assert(s.skip(0) =~= s);
        match wire_list(s, cmd) {
            EncOut::Bytes(all) => {
                assert(Seq::<u8>::empty() + all =~= all);
            },
            EncOut::Fail(_) => {},
        }
    } else {
        assert(s.len() >= 1);
        let rest = s.drop_first();
        lemma_wire_list_split(rest, cmd, i - 1);
        assert(s.take(i).len() == i >= 1);
        assert(s.take(i)[0] == s[0]);
        assert(s.take(i).drop_first() =~= rest.take(i - 1));
        assert(s.skip(i) =~= rest.skip(i - 1));
        match wire_value(s[0], cmd) {
            EncOut::Bytes(f) => {
                match wire_list(rest.take(i - 1), cmd) {
                    EncOut::Bytes(pre_rest) => {
                        match wire_list(rest.skip(i - 1), cmd) {
                            EncOut::Bytes(post) => {
                                assert((f + pre_rest) + post =~= f + (pre_rest + post));
                            },
                            EncOut::Fail(_) => {},
                        }
                    },
                    EncOut::Fail(_) => {},
                }
            },
            EncOut::Fail(_) => {},
        }
    }
}

/// Extending an encoded row by one element appends that element's wire
/// bytes; a failing element makes the extended row fail the same way.
pub proof fn lemma_wire_list_snoc(s: Seq<ValueModel>, cmd: bool, i: int)
    requires
        0 <= i < s.len(),
    ensures
        ((wire_list(s.take(i), cmd) is Bytes) && (wire_value(s[i], cmd) is Bytes) ==> (wire_list(
            s.take(i + 1),
            cmd,
        ) is Bytes) && wire_list(s.take(i + 1), cmd)->Bytes_0 == wire_list(s.take(i), cmd)->Bytes_0
            + wire_value(s[i], cmd)->Bytes_0),
        ((wire_list(s.take(i), cmd) is Bytes) && (wire_value(s[i], cmd) is Fail) ==> wire_list(
            s.take(i + 1),
            cmd,
        ) == EncOut::Fail(wire_value(s[i], cmd)->Fail_0)),
{
    let ext = s.take(i + 1);
    lemma_wire_list_split(ext, cmd, i);
    assert(ext.take(i) =~= s.take(i));
    assert(ext.skip(i) =~= seq![s[i]]);
    let single = seq![s[i]];
    assert(single[0] == s[i]);
    assert(single.drop_first() =~= Seq::<ValueModel>::empty());
    assert(wire_list(Seq::<ValueModel>::empty(), cmd) == EncOut::Bytes(Seq::<u8>::empty()));
    match wire_value(s[i], cmd) {
        EncOut::Bytes(f) => {
            assert(wire_list(single, cmd) == EncOut::Bytes(f + Seq::<u8>::empty()));
            assert(f + Seq::<u8>::empty() =~= f);
            assert(wire_list(single, cmd) is Bytes);
        },
        EncOut::Fail(_) => {},
    }
}

/// How many bytes one line read consumes from `pos`: everything up to and
/// including the first LF, or the whole rest when no LF follows (the input
/// ended before a terminator).
pub open spec fn line_len(b: Seq<u8>, pos: int) -> int
    decreases b.len() - pos,
    when 0 <= pos <= b.len()
{
    if pos >= b.len() {
        0
    } else if b[pos] == 10 {
        1
    } else {
        1 + line_len(b, pos + 1)
    }
}

/// A line read consumes at least one byte when any byte is left, and never
/// runs past the input.
pub broadcast proof fn lemma_line_len_bounds(b: Seq<u8>, pos: int)
    requires
        0 <= pos <= b.len(),
    ensures
        0 <= #[trigger] line_len(b, pos),
        pos + line_len(b, pos) <= b.len(),
        pos < b.len() ==> 1 <= line_len(b, pos),
    decreases b.len() - pos,
{
    if pos < b.len() && b[pos] != 10 {
        lemma_line_len_bounds(b, pos + 1);
    }
}

/// The content of a raw line: the trailing LF stripped if present, then one
/// trailing CR stripped if present, so both terminator conventions are
/// accepted.
pub open spec fn strip_line(raw: Seq<u8>) -> Seq<u8> {
    let no_lf = if raw.len() > 0 && raw.last() == 10 {
        raw.drop_last()
    } else {
        raw
    };
    if no_lf.len() > 0 && no_lf.last() == 13 {
        no_lf.drop_last()
    } else {
        no_lf
    }
}

/// The content of the line starting at `pos`.
pub open spec fn line_content(b: Seq<u8>, pos: int) -> Seq<u8> {
    strip_line(b.subrange(pos, pos + line_len(b, pos)))
}

/// Whether every byte is an ASCII decimal digit.
pub open spec fn all_digits(b: Seq<u8>) -> bool {
    forall|i: int| 0 <= i < b.len() ==> 48 <= #[trigger] b[i] <= 57
}

/// The number a digit run denotes, most significant digit first.
pub open spec fn digits_val(b: Seq<u8>) -> int
    decreases b.len(),
{
    if b.len() == 0 {
        0
    } else {
        digits_val(b.drop_last()) * 10 + (b.last() - 48)
    }
}

/// Parsing an integer line's content as a signed 64-bit number: an optional
/// sign, then at least one digit and nothing else, the value within the
/// 64-bit range. Leading zeros are accepted. `None` is the `IntParsing`
/// failure.
pub open spec fn parse_int_content(b: Seq<u8>) -> Option<int> {
    let neg = b.len() > 0 && b[0] == 45;
    let digs = if b.len() > 0 && (b[0] == 45 || b[0] == 43) {
        b.drop_first()
    } else {
        b
    };
    if digs.len() > 0 && all_digits(digs) {
        let v = if neg {
            -digits_val(digs)
        } else {
            digits_val(digs)
        };
        if i64::MIN <= v <= i64::MAX {
            Option::Some(v)
        } else {
            Option::None
        }
    } else {
        Option::None
    }
}

/// Digits are digits: every byte of a decimal representation is `0`..`9`.
/// A digit run denotes a nonnegative number.
pub proof fn lemma_digits_val_nonneg(b: Seq<u8>)
    requires
        all_digits(b),
    ensures
        digits_val(b) >= 0,
    decreases b.len(),
{
    if b.len() > 0 {
        assert(all_digits(b.drop_last()));
        lemma_digits_val_nonneg(b.drop_last());
    }
}

/// Dropping digits from the right can only shrink the denoted number.
pub proof fn lemma_digits_val_take(b: Seq<u8>, j: int)
    requires
        all_digits(b),
        0 <= j <= b.len(),
    ensures
        digits_val(b.take(j)) <= digits_val(b),
    decreases b.len() - j,
{
    if j < b.len() {
        lemma_digits_val_take(b, j + 1);
        assert(b.take(j + 1).drop_last() =~= b.take(j));
        assert(all_digits(b.take(j)));
        lemma_digits_val_nonneg(b.take(j));
    } else {
        assert(b.take(j) =~= b);
    }
}

/// A decimal representation denotes the number it was made from.
pub proof fn lemma_dec_rep_val(n: nat)
    ensures
        all_digits(dec_rep(n)),
        digits_val(dec_rep(n)) == n,
    decreases n,
{
    lemma_dec_rep_digits(n);
    if n >= 10 {
        lemma_dec_rep_val(n / 10);
        assert(dec_rep(n).drop_last() =~= dec_rep(n / 10));
        assert(dec_rep(n).last() == 48 + n % 10);
    } else {
        assert(dec_rep(n) =~= seq![(48 + n) as u8]);
        assert(dec_rep(n).drop_last() =~= Seq::<u8>::empty());
        assert(digits_val(dec_rep(n).drop_last()) == 0);
        assert(dec_rep(n).last() == 48 + n);
    }
}

/// Where the first LF after `pos` stands decides exactly how long the line
/// read from `pos` is.
pub proof fn lemma_line_len_at(b: Seq<u8>, pos: int, end: int)
    requires
        0 <= pos <= end <= b.len(),
        forall|k: int| pos <= k < end ==> b[k] != 10,
        end == b.len() || b[end] == 10,
    ensures
        line_len(b, pos) == if end < b.len() {
            end + 1 - pos
        } else {
            end - pos
        },
    decreases end - pos,
{
    if pos < end {
        lemma_line_len_at(b, pos + 1, end);
    }
}

pub proof fn lemma_dec_rep_digits(n: nat)
    ensures
        dec_rep(n).len() >= 1,
        forall|i: int| 0 <= i < dec_rep(n).len() ==> 48 <= #[trigger] dec_rep(n)[i] <= 57,
    decreases n,
{
    if n >= 10 {
        lemma_dec_rep_digits(n / 10);
    }
}

/// An integer representation holds no CR or LF byte, so it always fits on
/// one line.
pub proof fn lemma_int_rep_line_safe(i: int)
    ensures
        int_rep(i).len() >= 1,
        forall|k: int| 0 <= k < int_rep(i).len() ==> #[trigger] int_rep(i)[k] != 13
            && int_rep(i)[k] != 10,
{
    if i < 0 {
        lemma_dec_rep_digits((-i) as nat);
    } else {
        lemma_dec_rep_digits(i as nat);
    }
}

} // verus!
