//! The decoder's mathematics: reading lines and counted byte runs out of a
//! byte sequence, parsing integer lines, and the mode-dependent mapping from
//! wire bytes back to abstract-model values. The executable decoder's
//! contracts are stated against `parse_value` and `parse_row`.
use crate::value::{ShapeModel, ValueModel, VariantModel};
use crate::wire::{all_digits, digits_val, line_content, line_len, parse_int_content, strip_line, upper};
use vstd::prelude::*;

verus! {

broadcast use crate::wire::lemma_line_len_bounds;

/// Why a decode has no value; each kind names the `Error` the library
/// reports.
pub enum DecErr {
    /// The input ended before a full token could be read.
    IO,
    /// An integer line that does not parse as a signed 64-bit number.
    IntParsing,
    /// A negative integer against an unsigned target.
    IntConversion,
    /// A malformed token or a mismatch between wire and requested shape.
    De,
    /// A command frame whose outer tag is not an array.
    InvalidTypeForCommand,
    /// A command array count of zero or less.
    InvalidSizeForCommandArray,
    /// An enum-shaped decode target in reply mode.
    InvalidTypeForReply,
}

/// The outcome of parsing one value from `pos`: the value and the position
/// after it; a diverted protocol error (the raw text of an error token met
/// in reply mode) and the position after it; or a decode failure.
pub enum ParseOut {
    Val(ValueModel, int),
    Divert(Seq<u8>, int),
    Fail(DecErr),
}

/// The outcome of parsing a row of values in sequence.
pub enum RowOut {
    Vals(Seq<ValueModel>, int),
    Divert(Seq<u8>, int),
    Fail(DecErr),
}

/// The first candidate variant whose upper-cased wire name equals the
/// upper-cased name read from the frame.
pub open spec fn find_variant(vars: Seq<VariantModel>, name: Seq<u8>) -> Option<int>
    decreases vars.len(),
{
    if vars.len() == 0 {
        Option::None
    } else if upper(vstd::utf8::encode_utf8(vars[0].name)) == upper(name) {
        Option::Some(0)
    } else {
        match find_variant(vars.drop_first(), name) {
            Option::Some(j) => Option::Some(j + 1),
            Option::None => Option::None,
        }
    }
}

/// A position bounded back into `[lo, hi]`; the parser's positions never
/// leave that range, so this is the identity wherever it is applied.
pub open spec fn clamp_pos(p: int, lo: int, hi: int) -> int {
    if p < lo {
        lo
    } else if p > hi {
        hi
    } else {
        p
    }
}

/// Parses one value of the requested shape from `pos`, in command mode
/// (`cmd`) or reply mode. In reply mode an error token diverts the parse
/// wherever a value was expected; in command mode the enum rules apply and
/// nothing diverts.
pub open spec fn parse_value(b: Seq<u8>, pos: int, s: ShapeModel, cmd: bool) -> ParseOut
    decreases b.len() - pos, s,
    when 0 <= pos <= b.len()
{
    if pos >= b.len() {
        ParseOut::Fail(DecErr::IO)
    } else {
        let tag = b[pos];
        let p1 = pos + 1;
        if !cmd && tag == 45 {
            ParseOut::Divert(line_content(b, p1), p1 + line_len(b, p1))
        } else {
            match s {
                ShapeModel::Bool => match parse_int_token(b, pos) {
                    ParseOut::Val(v, p2) => {
                        let n = v->Int_0;
                        if n == 0 {
                            ParseOut::Val(ValueModel::Bool(false), p2)
                        } else if n == 1 {
                            ParseOut::Val(ValueModel::Bool(true), p2)
                        } else {
                            ParseOut::Fail(DecErr::De)
                        }
                    },
                    other => other,
                },
                ShapeModel::Int => parse_int_token(b, pos),
                ShapeModel::UInt => match parse_int_token(b, pos) {
                    ParseOut::Val(v, p2) => {
                        let n = v->Int_0;
                        if n >= 0 {
                            ParseOut::Val(ValueModel::UInt(n), p2)
                        } else {
                            ParseOut::Fail(DecErr::IntConversion)
                        }
                    },
                    other => other,
                },
                ShapeModel::Char => match parse_text(b, pos) {
                    ParseOut::Val(v, p2) => {
                        let t = v->Bytes_0;
                        if t.len() == 1 && t[0] < 128 {
                            ParseOut::Val(ValueModel::Char(t[0] as char), p2)
                        } else {
                            ParseOut::Fail(DecErr::De)
                        }
                    },
                    other => other,
                },
                ShapeModel::Str => match parse_text(b, pos) {
                    ParseOut::Val(v, p2) => {
                        let t = v->Bytes_0;
                        if vstd::utf8::valid_utf8(t) {
                            ParseOut::Val(ValueModel::Str(vstd::utf8::decode_utf8(t)), p2)
                        } else {
                            ParseOut::Fail(DecErr::IO)
                        }
                    },
                    other => other,
                },
                ShapeModel::Bytes => if tag == 36 {
                    parse_bulk_body(b, p1)
                } else {
                    ParseOut::Fail(DecErr::De)
                },
                ShapeModel::Opt(inner) => if tag == 36 && parse_int_content(
                    line_content(b, p1),
                ) == Option::Some(-1int) {
                    ParseOut::Val(ValueModel::Opt(Option::None), p1 + line_len(b, p1))
                } else {
                    match parse_value(b, pos, *inner, cmd) {
                        ParseOut::Val(v, p2) => ParseOut::Val(
                            ValueModel::Opt(Option::Some(Box::new(v))),
                            p2,
                        ),
                        other => other,
                    }
                },
                ShapeModel::List(elem) => if cmd {
                    // A row streamed into a command frame carries no header
                    // of its own, so its extent cannot be recovered.
                    ParseOut::Fail(DecErr::De)
                } else if tag != 42 {
                    ParseOut::Fail(DecErr::De)
                } else {
                    match parse_int_content(line_content(b, p1)) {
                        Option::None => ParseOut::Fail(DecErr::IntParsing),
                        Option::Some(n) => if n < 0 {
                            ParseOut::Fail(DecErr::De)
                        } else {
                            let p2 = p1 + line_len(b, p1);
                            match parse_row(b, p2, Seq::new(n as nat, |i: int| *elem), cmd) {
                                RowOut::Vals(vs, p3) => ParseOut::Val(ValueModel::List(vs), p3),
                                RowOut::Divert(t, p3) => ParseOut::Divert(t, p3),
                                RowOut::Fail(e) => ParseOut::Fail(e),
                            }
                        },
                    }
                },
                ShapeModel::Tuple(shapes) => if cmd {
                    ParseOut::Fail(DecErr::De)
                } else if tag != 42 {
                    ParseOut::Fail(DecErr::De)
                } else {
                    match parse_int_content(line_content(b, p1)) {
                        Option::None => ParseOut::Fail(DecErr::IntParsing),
                        Option::Some(n) => if n != shapes.len() {
                            ParseOut::Fail(DecErr::De)
                        } else {
                            let p2 = p1 + line_len(b, p1);
                            match parse_row(b, p2, shapes, cmd) {
                                RowOut::Vals(vs, p3) => ParseOut::Val(ValueModel::List(vs), p3),
                                RowOut::Divert(t, p3) => ParseOut::Divert(t, p3),
                                RowOut::Fail(e) => ParseOut::Fail(e),
                            }
                        },
                    }
                },
                ShapeModel::Enum(vars) => if !cmd {
                    ParseOut::Fail(DecErr::InvalidTypeForReply)
                } else if tag != 42 {
                    ParseOut::Fail(DecErr::InvalidTypeForCommand)
                } else {
                    match parse_int_content(line_content(b, p1)) {
                        Option::None => ParseOut::Fail(DecErr::IntParsing),
                        Option::Some(count) => if count <= 0 {
                            ParseOut::Fail(DecErr::InvalidSizeForCommandArray)
                        } else {
                            let p2 = p1 + line_len(b, p1);
                            // The bulk string's length line is read and
                            // ignored; the name itself is read as a line.
                            let p3 = p2 + line_len(b, p2);
                            let name = line_content(b, p3);
                            let p4 = p3 + line_len(b, p3);
                            match find_variant(vars, name) {
                                Option::None => ParseOut::Fail(DecErr::De),
                                Option::Some(j) => {
                                    let var = vars[j];
                                    if var.fields.len() != count - 1 {
                                        ParseOut::Fail(DecErr::De)
                                    } else if count == 1 {
                                        ParseOut::Val(ValueModel::UnitVariant(var.name), p4)
                                    } else if count == 2 {
                                        match parse_value(b, p4, var.fields[0], cmd) {
                                            ParseOut::Val(v, p5) => ParseOut::Val(
                                                ValueModel::NewtypeVariant(var.name, Box::new(v)),
                                                p5,
                                            ),
                                            other => other,
                                        }
                                    } else {
                                        match parse_row(b, p4, var.fields, cmd) {
                                            RowOut::Vals(vs, p5) => ParseOut::Val(
                                                ValueModel::TupleVariant(var.name, vs),
                                                p5,
                                            ),
                                            RowOut::Divert(t, p5) => ParseOut::Divert(t, p5),
                                            RowOut::Fail(e) => ParseOut::Fail(e),
                                        }
                                    }
                                },
                            }
                        },
                    }
                },
            }
        }
    }
}

/// Parses a row of values, one per shape, in order; the first divert or
/// failure is the row's outcome.
pub open spec fn parse_row(b: Seq<u8>, pos: int, shapes: Seq<ShapeModel>, cmd: bool) -> RowOut
    decreases b.len() - pos, shapes,
    when 0 <= pos <= b.len()
{
    if shapes.len() == 0 {
        RowOut::Vals(Seq::empty(), pos)
    } else {
        match parse_value(b, pos, shapes[0], cmd) {
            ParseOut::Val(v, p) => {
                let p2 = clamp_pos(p, pos, b.len() as int);
                match parse_row(b, p2, shapes.drop_first(), cmd) {
                    RowOut::Vals(vs, p3) => RowOut::Vals(seq![v] + vs, p3),
                    RowOut::Divert(t, p3) => RowOut::Divert(t, p3),
                    RowOut::Fail(e) => RowOut::Fail(e),
                }
            },
            ParseOut::Divert(t, p) => RowOut::Divert(t, p),
            ParseOut::Fail(e) => RowOut::Fail(e),
        }
    }
}

/// Parses one integer token, `:<integer>\r\n`.
pub open spec fn parse_int_token(b: Seq<u8>, pos: int) -> ParseOut {
    if pos >= b.len() {
        ParseOut::Fail(DecErr::IO)
    } else if b[pos] != 58 {
        ParseOut::Fail(DecErr::De)
    } else {
        match parse_int_content(line_content(b, pos + 1)) {
            Option::Some(v) => ParseOut::Val(ValueModel::Int(v), pos + 1 + line_len(b, pos + 1)),
            Option::None => ParseOut::Fail(DecErr::IntParsing),
        }
    }
}

/// Parses text framed either way: a simple string read as a line, or a bulk
/// string read by its declared length. The value carries the raw bytes.
pub open spec fn parse_text(b: Seq<u8>, pos: int) -> ParseOut {
    if pos >= b.len() {
        ParseOut::Fail(DecErr::IO)
    } else if b[pos] == 43 {
        ParseOut::Val(ValueModel::Bytes(line_content(b, pos + 1)), pos + 1 + line_len(b, pos + 1))
    } else if b[pos] == 36 {
        parse_bulk_body(b, pos + 1)
    } else {
        ParseOut::Fail(DecErr::De)
    }
}

/// Parses the remainder of a bulk string after its `$` tag: the length line,
/// that many raw bytes, and a closing terminator (CRLF or bare LF). A
/// negative length (nil) has no byte value here.
pub open spec fn parse_bulk_body(b: Seq<u8>, pos: int) -> ParseOut {
    match parse_int_content(line_content(b, pos)) {
        Option::None => ParseOut::Fail(DecErr::IntParsing),
        Option::Some(n) => if n < 0 {
            ParseOut::Fail(DecErr::De)
        } else {
            let p1 = pos + line_len(b, pos);
            if p1 + n > b.len() {
                ParseOut::Fail(DecErr::IO)
            } else {
                let body = b.subrange(p1, p1 + n);
                let p2 = p1 + n;
                if p2 + 2 <= b.len() && b[p2] == 13 && b[p2 + 1] == 10 {
                    ParseOut::Val(ValueModel::Bytes(body), p2 + 2)
                } else if p2 + 1 <= b.len() && b[p2] == 10 {
                    ParseOut::Val(ValueModel::Bytes(body), p2 + 1)
                } else {
                    ParseOut::Fail(DecErr::De)
                }
            }
        },
    }
}

/// A finished prefix of decoded values carried into the rest of a row's
/// outcome.
pub open spec fn row_cont(sub: RowOut, built: Seq<ValueModel>) -> RowOut {
    match sub {
        RowOut::Vals(vs, p) => RowOut::Vals(built + vs, p),
        RowOut::Divert(t, p) => RowOut::Divert(t, p),
        RowOut::Fail(e) => RowOut::Fail(e),
    }
}

/// A match at `j`, with no earlier match, is exactly what `find_variant`
/// returns.
pub proof fn lemma_find_variant_at(vars: Seq<VariantModel>, name: Seq<u8>, j: int)
    requires
        0 <= j < vars.len(),
        upper(vstd::utf8::encode_utf8(vars[j].name)) == upper(name),
        forall|k: int| 0 <= k < j ==> upper(vstd::utf8::encode_utf8(#[trigger] vars[k].name))
            != upper(name),
    ensures
        find_variant(vars, name) == Option::Some(j),
    decreases j,
{
    if j > 0 {
        let rest = vars.drop_first();
        assert(forall|k: int| 0 <= k < j - 1 ==> #[trigger] rest[k] == vars[k + 1]);
        lemma_find_variant_at(rest, name, j - 1);
    }
}

/// With no candidate matching, `find_variant` finds nothing.
pub proof fn lemma_find_variant_none(vars: Seq<VariantModel>, name: Seq<u8>)
    requires
        forall|k: int| 0 <= k < vars.len() ==> upper(
            vstd::utf8::encode_utf8(#[trigger] vars[k].name),
        ) != upper(name),
    ensures
        find_variant(vars, name) is None,
    decreases vars.len(),
{
    if vars.len() > 0 {
        let rest = vars.drop_first();
        assert(forall|k: int| 0 <= k < rest.len() ==> #[trigger] rest[k] == vars[k + 1]);
        lemma_find_variant_none(rest, name);
    }
}

/// Parsing a whole command frame: the decode target must be enum-shaped,
/// and the frame is read in command mode from the head of the input.
pub open spec fn parse_command(b: Seq<u8>, s: ShapeModel) -> ParseOut {
    if !(s is Enum) {
        ParseOut::Fail(DecErr::De)
    } else {
        parse_value(b, 0, s, true)
    }
}

/// Parsing a whole reply: any shape, read in reply mode from the head of
/// the input; an error token at any point diverts the outcome.
pub open spec fn parse_reply(b: Seq<u8>, s: ShapeModel) -> ParseOut {
    parse_value(b, 0, s, false)
}

/// Whether a library error reports the given parse failure kind.
pub open spec fn reports(e: crate::error::Error, k: DecErr) -> bool {
    match k {
        DecErr::IO => e is IO,
        DecErr::IntParsing => e is IntParsing,
        DecErr::IntConversion => e is IntConversion,
        DecErr::De => e is De,
        DecErr::InvalidTypeForCommand => e is InvalidTypeForCommand,
        DecErr::InvalidSizeForCommandArray => e is InvalidSizeForCommandArray,
        DecErr::InvalidTypeForReply => e is InvalidTypeForReply,
    }
}

} // verus!
