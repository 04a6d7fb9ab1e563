//! The value decoder: a cursor over the wire bytes, the primitive line- and
//! length-delimited reads, the shape-driven decode in command or reply mode,
//! and the two decoding entry points. Every function's behaviour is pinned
//! to the parsing mathematics of `crate::parse`.
use crate::error::Error;
use crate::parse::{
    clamp_pos, lemma_find_variant_at, lemma_find_variant_none, parse_bulk_body, parse_command,
    parse_int_token, parse_reply, parse_row, parse_text, parse_value, reports, row_cont, ParseOut,
    RowOut,
};
use crate::value::{
    shape_model, shape_models, value_models, variant_models, Shape, ShapeModel, Value, ValueModel,
    VariantModel,
};
use crate::wire::{
    all_digits, digits_val, lemma_digits_val_take, lemma_line_len_at, line_content, line_len,
    parse_int_content, strip_line, upper,
};
use vstd::prelude::*;
use vstd::string::StrSliceExecFns;

verus! {

broadcast use crate::wire::lemma_line_len_bounds;

/// Relies on String::from_utf8: it succeeds exactly on valid UTF-8 input and
/// returns the string of those bytes.
#[verifier::external_body]
fn bytes_to_string(v: Vec<u8>) -> (r: Option<String>)
    ensures
        (r is Some) == vstd::utf8::valid_utf8(v@),
        (r matches Some(s) ==> vstd::utf8::encode_utf8(s@) == v@),
{
    match String::from_utf8(v) {
        Ok(s) => Some(s),
        Err(_) => None,
    }
}

/// A decoding cursor over one frame's bytes: the input and how far into it
/// the reads have come. One instance drives one top-level decode and is then
/// discarded.
pub struct Deserializer<'a> {
    pub input: &'a Vec<u8>,
    pub pos: usize,
}

impl<'a> Deserializer<'a> {
    /// The bytes the cursor reads from.
    pub open spec fn src(self) -> Seq<u8> {
        self.input@
    }

    /// The cursor never stands past the end of its input.
    pub open spec fn wf(self) -> bool {
        self.pos <= self.input@.len()
    }

    /// Starts a cursor at the head of the input.
    pub fn new(input: &'a Vec<u8>) -> (r: Deserializer<'a>)
        ensures
            r.wf(),
            r.input == input,
            r.pos == 0,
    {
        Deserializer { input, pos: 0 }
    }

    /// Reads the single byte under the cursor; the input ending here is an
    /// `IO` failure.
    pub fn read_byte(&mut self) -> (r: Result<u8, Error>)
        requires
            old(self).wf(),
        ensures
            final(self).wf(),
            final(self).input == old(self).input,
            old(self).pos < old(self).src().len() ==> (r matches Ok(x) && x
                == old(self).src()[old(self).pos as int]) && final(self).pos == old(self).pos + 1,
            old(self).pos >= old(self).src().len() ==> (r matches Err(e) && e is IO)
                && final(self).pos == old(self).pos,
    {
        if self.pos < self.input.len() {
            let x: u8 = self.input[self.pos];
            self.pos = self.pos + 1;
            Ok(x)
        } else {
            Err(Error::IO)
        }
    }

    /// A copy of the byte run `[from, to)` of the input.
    fn copy_range(&self, from: usize, to: usize) -> (r: Vec<u8>)
        requires
            self.wf(),
            from <= to <= self.src().len(),
        ensures
            r@ == self.src().subrange(from as int, to as int),
    {
        let mut r: Vec<u8> = Vec::new();
        let mut i: usize = from;
        while i < to
            invariant
                from <= i <= to <= self.src().len(),
                r@ == self.src().subrange(from as int, i as int),
            decreases to - i,
        {
            r.push(self.input[i]);
            assert(self.src().subrange(from as int, i + 1) =~= self.src().subrange(
                from as int,
                i as int,
            ).push(self.src()[i as int]));
            i = i + 1;
        }
        r
    }

    /// Reads one line from `from` without moving the cursor: its content
    /// (both terminator conventions stripped) and the position after it.
    fn scan_line(&self, from: usize) -> (r: (Vec<u8>, usize))
        requires
            self.wf(),
            from <= self.src().len(),
        ensures
            r.0@ == line_content(self.src(), from as int),
            r.1 == from + line_len(self.src(), from as int),
            from <= r.1 <= self.src().len(),
    {
        let ghost src = self.src();
        let mut end: usize = from;
        while end < self.input.len() && self.input[end] != 10
            invariant
                from <= end <= src.len(),
                src == self.src(),
                self.wf(),
                forall|k: int| from <= k < end ==> src[k] != 10,
            decreases src.len() - end,
        {
            end = end + 1;
        }
        proof {
            lemma_line_len_at(src, from as int, end as int);
        }
        let found: bool = end < self.input.len();
        let next: usize = if found {
            end + 1
        } else {
            end
        };
        let content_end: usize = if end > from && self.input[end - 1] == 13 {
            end - 1
        } else {
            end
        };
        let r = self.copy_range(from, content_end);
        proof {
            let raw = src.subrange(from as int, from + line_len(src, from as int));
            if found {
                assert(raw.last() == 10);
                assert(raw.drop_last() =~= src.subrange(from as int, end as int));
            } else {
                assert(raw =~= src.subrange(from as int, end as int));
            }
            let no_lf = src.subrange(from as int, end as int);
            if end > from && src[end - 1] == 13 {
                assert(no_lf.last() == 13);
                assert(no_lf.drop_last() =~= src.subrange(from as int, end - 1));
            }
            assert(r@ =~= strip_line(raw));
        }
        (r, next)
    }

    /// Reads one line at the cursor and moves past it.
    fn read_line_bytes(&mut self) -> (r: Vec<u8>)
        requires
            old(self).wf(),
        ensures
            final(self).wf(),
            final(self).input == old(self).input,
            r@ == line_content(old(self).src(), old(self).pos as int),
            final(self).pos == old(self).pos + line_len(old(self).src(), old(self).pos as int),
    {
        let (content, next) = self.scan_line(self.pos);
        self.pos = next;
        content
    }

    /// Reads one line and parses its content as a base-10 signed 64-bit
    /// integer; non-numeric or out-of-range content is an `IntParsing`
    /// failure. The line is consumed either way.
    pub fn read_int(&mut self) -> (r: Result<i64, Error>)
        requires
            old(self).wf(),
        ensures
            final(self).wf(),
            final(self).input == old(self).input,
            final(self).pos == old(self).pos + line_len(old(self).src(), old(self).pos as int),
            (parse_int_content(line_content(old(self).src(), old(self).pos as int))
                matches Some(v) ==> (r matches Ok(x) && x as int == v)),
            (parse_int_content(line_content(old(self).src(), old(self).pos as int)) is None ==> (
            r matches Err(e) && e is IntParsing)),
    {
        let line = self.read_line_bytes();
        parse_i64(&line)
    }

    /// Reads one line as UTF-8 text; bytes that are not UTF-8 are an `IO`
    /// failure, as a failing read of the underlying source would be.
    pub fn read_string(&mut self) -> (r: Result<String, Error>)
        requires
            old(self).wf(),
        ensures
            final(self).wf(),
            final(self).input == old(self).input,
            final(self).pos == old(self).pos + line_len(old(self).src(), old(self).pos as int),
            (vstd::utf8::valid_utf8(line_content(old(self).src(), old(self).pos as int)) ==> (
            r matches Ok(s) && vstd::utf8::encode_utf8(s@) == line_content(
                old(self).src(),
                old(self).pos as int,
            ))),
            (!vstd::utf8::valid_utf8(line_content(old(self).src(), old(self).pos as int)) ==> (
            r matches Err(e) && e is IO)),
    {
        let line = self.read_line_bytes();
        match bytes_to_string(line) {
            Some(s) => Ok(s),
            None => Err(Error::IO),
        }
    }
}

impl<'a> Deserializer<'a> {
    /// Reads one integer token, `:<integer>\r\n`, at the cursor.
    fn read_int_token(&mut self) -> (r: Result<i64, Error>)
        requires
            old(self).wf(),
        ensures
            final(self).wf(),
            final(self).input == old(self).input,
            final(self).pos >= old(self).pos,
            (parse_int_token(old(self).src(), old(self).pos as int) matches ParseOut::Val(v, p)
                ==> (r matches Ok(x) && x as int == v->Int_0) && final(self).pos == p
                && final(self).pos > old(self).pos),
            (parse_int_token(old(self).src(), old(self).pos as int) matches ParseOut::Fail(k) ==> (
            r matches Err(e) && reports(e, k))),
    {
        if self.pos >= self.input.len() {
            return Err(Error::IO);
        }
        if self.input[self.pos] != 58 {
            return Err(Error::De("an integer token was expected here".to_owned()));
        }
        self.pos = self.pos + 1;
        self.read_int()
    }

    /// Reads the remainder of a bulk string after its `$` tag: the length
    /// line, that many raw bytes, and the closing terminator.
    fn read_bulk_body(&mut self) -> (r: Result<Vec<u8>, Error>)
        requires
            old(self).wf(),
        ensures
            final(self).wf(),
            final(self).input == old(self).input,
            final(self).pos >= old(self).pos,
            (parse_bulk_body(old(self).src(), old(self).pos as int) matches ParseOut::Val(v, p)
                ==> (r matches Ok(body) && body@ == v->Bytes_0) && final(self).pos == p),
            (parse_bulk_body(old(self).src(), old(self).pos as int) matches ParseOut::Fail(k)
                ==> (r matches Err(e) && reports(e, k))),
    {
        let n: i64 = match self.read_int() {
            Ok(n) => n,
            Err(e) => {
                return Err(e);
            },
        };
        if n < 0 {
            return Err(Error::De("a nil bulk string carries no value here".to_owned()));
        }
        let remaining: usize = self.input.len() - self.pos;
        if (n as u64) > (remaining as u64) {
            return Err(Error::IO);
        }
        let body_len: usize = n as usize;
        let body = self.copy_range(self.pos, self.pos + body_len);
        self.pos = self.pos + body_len;
        if self.input.len() - self.pos >= 2 && self.input[self.pos] == 13 && self.input[self.pos
            + 1] == 10 {
            self.pos = self.pos + 2;
            Ok(body)
        } else if self.input.len() - self.pos >= 1 && self.input[self.pos] == 10 {
            self.pos = self.pos + 1;
            Ok(body)
        } else {
            Err(Error::De("a bulk string body must end in a line terminator".to_owned()))
        }
    }

    /// Reads one text token framed either way: a simple string as a line, or
    /// a bulk string by its declared length.
    fn read_text_token(&mut self) -> (r: Result<Vec<u8>, Error>)
        requires
            old(self).wf(),
        ensures
            final(self).wf(),
            final(self).input == old(self).input,
            final(self).pos >= old(self).pos,
            (parse_text(old(self).src(), old(self).pos as int) matches ParseOut::Val(v, p) ==> (
            r matches Ok(body) && body@ == v->Bytes_0) && final(self).pos == p && final(self).pos
                > old(self).pos),
            (parse_text(old(self).src(), old(self).pos as int) matches ParseOut::Fail(k) ==> (
            r matches Err(e) && reports(e, k))),
    {
        if self.pos >= self.input.len() {
            return Err(Error::IO);
        }
        let tag: u8 = self.input[self.pos];
        if tag == 43 {
            self.pos = self.pos + 1;
            Ok(self.read_line_bytes())
        } else if tag == 36 {
            self.pos = self.pos + 1;
            self.read_bulk_body()
        } else {
            Err(Error::De("a string token was expected here".to_owned()))
        }
    }

    /// Whether the bytes at the cursor are exactly a nil bulk string's head,
    /// `$-1`, without moving the cursor.
    fn peek_nil(&self) -> (r: bool)
        requires
            self.wf(),
        ensures
            r == (self.pos < self.src().len() && self.src()[self.pos as int] == 36
                && parse_int_content(line_content(self.src(), self.pos + 1)) == Option::Some(
                -1int,
            )),
    {
        if self.pos >= self.input.len() {
            return false;
        }
        if self.input[self.pos] != 36 {
            return false;
        }
        let (line, _end) = self.scan_line(self.pos + 1);
        match parse_i64(&line) {
            Ok(v) => v == -1,
            Err(_) => false,
        }
    }
}

/// Whether two byte rows hold the same bytes.
fn bytes_eq(a: &Vec<u8>, b: &Vec<u8>) -> (r: bool)
    ensures
        r == (a@ == b@),
{
    if a.len() != b.len() {
        return false;
    }
    let mut i: usize = 0;
    while i < a.len()
        invariant
            i <= a@.len(),
            a@.len() == b@.len(),
            forall|k: int| 0 <= k < i ==> a@[k] == b@[k],
        decreases a@.len() - i,
    {
        if a[i] != b[i] {
            return false;
        }
        i = i + 1;
    }
    assert(a@ =~= b@);
    true
}

/// What one decode step yields: a value of the requested shape, or the text
/// of an error token that diverted a reply.
pub enum Decoded {
    Val(Value),
    Divert(String),
}

/// What decoding a row of values yields.
pub enum RowDecoded {
    Vals(Vec<Value>),
    Divert(String),
}

/// Decodes one value of the requested shape at the cursor, in command mode
/// (`cmd`) or reply mode: the executable counterpart of `parse_value`, which
/// pins its outcome exactly.
#[verifier::rlimit(80)]
#[verifier::spinoff_prover]
pub fn decode_value(d: &mut Deserializer, s: &Shape, cmd: bool) -> (r: Result<Decoded, Error>)
    requires
        old(d).wf(),
    ensures
        final(d).wf(),
        final(d).input == old(d).input,
        final(d).pos >= old(d).pos,
        (r is Ok ==> final(d).pos > old(d).pos),
        (parse_value(old(d).src(), old(d).pos as int, s@, cmd) matches ParseOut::Val(v, p) ==> (
        r matches Ok(o) && o matches Decoded::Val(ev) && ev@ == v) && final(d).pos == p),
        (parse_value(old(d).src(), old(d).pos as int, s@, cmd) matches ParseOut::Divert(t, p)
            ==> final(d).pos == p && (vstd::utf8::valid_utf8(t) ==> (r matches Ok(o) && (
        o matches Decoded::Divert(es) && vstd::utf8::encode_utf8(es@) == t))) && (
        !vstd::utf8::valid_utf8(t) ==> (r matches Err(e) && e is IO))),
        (parse_value(old(d).src(), old(d).pos as int, s@, cmd) matches ParseOut::Fail(k) ==> (
        r matches Err(e) && reports(e, k))),
        (!cmd && (s@ is Enum) && (parse_value(old(d).src(), old(d).pos as int, s@, cmd) is Fail)
            ==> final(d).pos == old(d).pos),
    decreases d.input@.len() - d.pos, s,
{
    if d.pos >= d.input.len() {
        return Err(Error::IO);
    }
    let tag: u8 = d.input[d.pos];
    if !cmd && tag == 45 {
        d.pos = d.pos + 1;
        let line = d.read_line_bytes();
        return match bytes_to_string(line) {
            Some(text) => Ok(Decoded::Divert(text)),
            None => Err(Error::IO),
        };
    }
    match s {
        Shape::Bool => match d.read_int_token() {
            Ok(n) => if n == 0 {
                Ok(Decoded::Val(Value::Bool(false)))
            } else if n == 1 {
                Ok(Decoded::Val(Value::Bool(true)))
            } else {
                Err(Error::De("a boolean is the integer 0 or 1".to_owned()))
            },
            Err(e) => Err(e),
        },
        Shape::Int => match d.read_int_token() {
            Ok(n) => Ok(Decoded::Val(Value::Int(n))),
            Err(e) => Err(e),
        },
        Shape::UInt => match d.read_int_token() {
            Ok(n) => if n >= 0 {
                Ok(Decoded::Val(Value::UInt(n as u64)))
            } else {
                Err(Error::IntConversion)
            },
            Err(e) => Err(e),
        },
        Shape::Char => match d.read_text_token() {
            Ok(body) => if body.len() == 1 && body[0] < 128 {
                Ok(Decoded::Val(Value::Char(body[0] as char)))
            } else {
                Err(Error::De("a character is a single ASCII scalar".to_owned()))
            },
            Err(e) => Err(e),
        },
        Shape::Str => match d.read_text_token() {
            Ok(body) => {
                let ghost t = body@;
                match bytes_to_string(body) {
                    Some(text) => {
                        proof {
                            vstd::utf8::encode_utf8_decode_utf8(text@);
                        }
                        Ok(Decoded::Val(Value::Str(text)))
                    },
                    None => Err(Error::IO),
                }
            },
            Err(e) => Err(e),
        },
        Shape::Bytes => {
            if tag != 36 {
                return Err(Error::De("a byte sequence is framed as a bulk string".to_owned()));
            }
            d.pos = d.pos + 1;
            match d.read_bulk_body() {
                Ok(body) => Ok(Decoded::Val(Value::Bytes(body))),
                Err(e) => Err(e),
            }
        },
        Shape::Opt(inner) => {
            if d.peek_nil() {
                d.pos = d.pos + 1;
                let _nil_line = d.read_line_bytes();
                Ok(Decoded::Val(Value::Opt(None)))
            } else {
                match decode_value(d, inner, cmd) {
                    Ok(Decoded::Val(v)) => Ok(Decoded::Val(Value::Opt(Some(Box::new(v))))),
                    Ok(Decoded::Divert(text)) => Ok(Decoded::Divert(text)),
                    Err(e) => Err(e),
                }
            }
        },
        Shape::List(elem) => {
            if cmd {
                // Elements streamed into a command frame carry no header, so
                // their extent cannot be recovered.
                return Err(Error::De("a sequence cannot be decoded from a command frame".to_owned()));
            }
            if tag != 42 {
                return Err(Error::De("a sequence is framed as an array".to_owned()));
            }
            d.pos = d.pos + 1;
            let n: i64 = match d.read_int() {
                Ok(n) => n,
                Err(e) => {
                    return Err(e);
                },
            };
            if n < 0 {
                return Err(Error::De("an array count cannot be negative here".to_owned()));
            }
            match decode_list_elems(d, elem, n as u64, cmd) {
                Ok(RowDecoded::Vals(vs)) => Ok(Decoded::Val(Value::List(vs))),
                Ok(RowDecoded::Divert(text)) => Ok(Decoded::Divert(text)),
                Err(e) => Err(e),
            }
        },
        Shape::Tuple(shapes) => {
            if cmd {
                return Err(Error::De("a tuple cannot be decoded from a command frame".to_owned()));
            }
            if tag != 42 {
                return Err(Error::De("a tuple is framed as an array".to_owned()));
            }
            d.pos = d.pos + 1;
            let n: i64 = match d.read_int() {
                Ok(n) => n,
                Err(e) => {
                    return Err(e);
                },
            };
            proof {
                crate::value::lemma_shape_models_index(shapes@);
            }
            if n < 0 || (n as u64) != (shapes.len() as u64) {
                return Err(Error::De("the array count must equal the tuple's width".to_owned()));
            }
            match decode_fields(d, shapes, cmd) {
                Ok(RowDecoded::Vals(vs)) => Ok(Decoded::Val(Value::List(vs))),
                Ok(RowDecoded::Divert(text)) => Ok(Decoded::Divert(text)),
                Err(e) => Err(e),
            }
        },
        Shape::Enum(vars) => {
            if !cmd {
                return Err(Error::InvalidTypeForReply);
            }
            if tag != 42 {
                return Err(Error::InvalidTypeForCommand);
            }
            d.pos = d.pos + 1;
            let count: i64 = match d.read_int() {
                Ok(c) => c,
                Err(e) => {
                    return Err(e);
                },
            };
            if count <= 0 {
                return Err(Error::InvalidSizeForCommandArray);
            }
            // The bulk string's length line is read and ignored; the name
            // itself is read as a line.
            let _len_line = d.read_int();
            let name_line = d.read_line_bytes();
            let upper_name = crate::ser::to_upper(&name_line);
            let ghost vms = variant_models(vars@);
            proof {
                crate::value::lemma_variant_models_index(vars@);
            }
            let mut j: usize = 0;
            let mut found: bool = false;
            while !found && j < vars.len()
                invariant
                    j <= vars@.len(),
                    vms == variant_models(vars@),
                    vms.len() == vars@.len(),
                    forall|k: int| 0 <= k < vars@.len() ==> vms[k] == (VariantModel {
                        name: vars@[k].name@,
                        fields: shape_models(vars@[k].fields@),
                    }),
                    upper_name@ == upper(name_line@),
                    forall|k: int| 0 <= k < j ==> upper(
                        vstd::utf8::encode_utf8(#[trigger] vms[k].name),
                    ) != upper(name_line@),
                    found ==> j < vars@.len() && upper(vstd::utf8::encode_utf8(vms[j as int].name))
                        == upper(name_line@),
                decreases vars@.len() - j + (if found {
                    0int
                } else {
                    1int
                }),
            {
                let cand: Vec<u8> = vars[j].name.as_str().as_bytes_vec();
                let cand_upper = crate::ser::to_upper(&cand);
                if bytes_eq(&cand_upper, &upper_name) {
                    found = true;
                } else {
                    j = j + 1;
                }
            }
            if !found {
                proof {
                    lemma_find_variant_none(vms, name_line@);
                }
                return Err(Error::De("no variant of the enum matches the command name".to_owned()));
            }
            proof {
                lemma_find_variant_at(vms, name_line@, j as int);
            }
            let var = &vars[j];
            proof {
                crate::value::lemma_shape_models_index(var.fields@);
            }
            if (var.fields.len() as u64) != ((count - 1) as u64) {
                return Err(Error::De("the command's argument count does not fit the variant".to_owned()));
            }
            if count == 1 {
                Ok(Decoded::Val(Value::UnitVariant(var.name.clone())))
            } else if count == 2 {
                match decode_value(d, &var.fields[0], cmd) {
                    Ok(Decoded::Val(v)) => Ok(Decoded::Val(Value::NewtypeVariant(
                        var.name.clone(),
                        Box::new(v),
                    ))),
                    Ok(Decoded::Divert(text)) => Ok(Decoded::Divert(text)),
                    Err(e) => Err(e),
                }
            } else {
                match decode_fields(d, &var.fields, cmd) {
                    Ok(RowDecoded::Vals(vs)) => Ok(Decoded::Val(Value::TupleVariant(
                        var.name.clone(),
                        vs,
                    ))),
                    Ok(RowDecoded::Divert(text)) => Ok(Decoded::Divert(text)),
                    Err(e) => Err(e),
                }
            }
        },
    }
}

/// Decodes one value per shape, in order: the executable counterpart of
/// `parse_row` over the shapes' models.
fn decode_fields(d: &mut Deserializer, shapes: &Vec<Shape>, cmd: bool) -> (r: Result<
    RowDecoded,
    Error,
>)
    requires
        old(d).wf(),
    ensures
        final(d).wf(),
        final(d).input == old(d).input,
        final(d).pos >= old(d).pos,
        (parse_row(old(d).src(), old(d).pos as int, shape_models(shapes@), cmd)
            matches RowOut::Vals(vs, p) ==> (r matches Ok(o) && o matches RowDecoded::Vals(evs)
            && value_models(evs@) == vs) && final(d).pos == p),
        (parse_row(old(d).src(), old(d).pos as int, shape_models(shapes@), cmd)
            matches RowOut::Divert(t, p) ==> final(d).pos == p && (vstd::utf8::valid_utf8(t) ==> (
        r matches Ok(o) && (o matches RowDecoded::Divert(es) && vstd::utf8::encode_utf8(es@)
            == t))) && (!vstd::utf8::valid_utf8(t) ==> (r matches Err(e) && e is IO))),
        (parse_row(old(d).src(), old(d).pos as int, shape_models(shapes@), cmd)
            matches RowOut::Fail(k) ==> (r matches Err(e) && reports(e, k))),
    decreases d.input@.len() - d.pos, shapes,
{
    let ghost src = d.src();
    let ghost pos0 = d.pos as int;
    let ghost row = shape_models(shapes@);
    proof {
        crate::value::lemma_shape_models_index(shapes@);
        assert(row.skip(0) =~= row);
    }
    let mut out: Vec<Value> = Vec::new();
    let mut i: usize = 0;
    while i < shapes.len()
        invariant
            old(d).wf(),
            d.wf(),
            d.input == old(d).input,
            src == d.src(),
            pos0 == old(d).pos as int,
            pos0 <= d.pos as int <= src.len(),
            row == shape_models(shapes@),
            row.len() == shapes@.len(),
            forall|k: int| 0 <= k < shapes@.len() ==> row[k] == shape_model(shapes@[k]),
            i <= shapes@.len(),
            i > 0 ==> d.pos > pos0,
            parse_row(src, pos0, row, cmd) == row_cont(
                parse_row(src, d.pos as int, row.skip(i as int), cmd),
                value_models(out@),
            ),
        decreases shapes@.len() - i,
    {
        let ghost cur = d.pos as int;
        let ghost built = value_models(out@);
        proof {
            assert(decreases_to!(shapes => shapes@[i as int]));
            assert(row.skip(i as int)[0] == row[i as int]);
            assert(row.skip(i as int).drop_first() =~= row.skip(i as int + 1));
        }
        match decode_value(d, &shapes[i], cmd) {
            Ok(Decoded::Val(v)) => {
                proof {
                    assert(clamp_pos(d.pos as int, cur, src.len() as int) == d.pos as int);
                    crate::value::lemma_value_models_push(out@, v);
                    match parse_row(src, d.pos as int, row.skip(i as int + 1), cmd) {
                        RowOut::Vals(vs, p) => {
                            assert(built + (seq![v@] + vs) =~= (built + seq![v@]) + vs);
                        },
                        RowOut::Divert(_, _) => {},
                        RowOut::Fail(_) => {},
                    }
                }
                out.push(v);
            },
            Ok(Decoded::Divert(text)) => {
                return Ok(RowDecoded::Divert(text));
            },
            Err(e) => {
                return Err(e);
            },
        }
        i = i + 1;
    }
    proof {
        assert(row.skip(i as int) =~= Seq::<ShapeModel>::empty());
        match parse_row(src, pos0, row, cmd) {
            RowOut::Vals(vs, p) => {
                assert(value_models(out@) + Seq::<ValueModel>::empty() =~= value_models(out@));
            },
            RowOut::Divert(_, _) => {},
            RowOut::Fail(_) => {},
        }
    }
    Ok(RowDecoded::Vals(out))
}

/// Decodes `n` values of one element shape, in order: the executable
/// counterpart of `parse_row` over `n` copies of that shape.
fn decode_list_elems(d: &mut Deserializer, elem: &Shape, n: u64, cmd: bool) -> (r: Result<
    RowDecoded,
    Error,
>)
    requires
        old(d).wf(),
    ensures
        final(d).wf(),
        final(d).input == old(d).input,
        final(d).pos >= old(d).pos,
        (parse_row(old(d).src(), old(d).pos as int, Seq::new(n as nat, |q: int| elem@), cmd)
            matches RowOut::Vals(vs, p) ==> (r matches Ok(o) && o matches RowDecoded::Vals(evs)
            && value_models(evs@) == vs) && final(d).pos == p),
        (parse_row(old(d).src(), old(d).pos as int, Seq::new(n as nat, |q: int| elem@), cmd)
            matches RowOut::Divert(t, p) ==> final(d).pos == p && (vstd::utf8::valid_utf8(t) ==> (
        r matches Ok(o) && (o matches RowDecoded::Divert(es) && vstd::utf8::encode_utf8(es@)
            == t))) && (!vstd::utf8::valid_utf8(t) ==> (r matches Err(e) && e is IO))),
        (parse_row(old(d).src(), old(d).pos as int, Seq::new(n as nat, |q: int| elem@), cmd)
            matches RowOut::Fail(k) ==> (r matches Err(e) && reports(e, k))),
    decreases d.input@.len() - d.pos, Seq::new(n as nat, |q: int| *elem),
{
    let ghost src = d.src();
    let ghost pos0 = d.pos as int;
    let ghost row = Seq::new(n as nat, |q: int| elem@);
    proof {
        assert(row.skip(0) =~= row);
    }
    let mut out: Vec<Value> = Vec::new();
    let mut i: u64 = 0;
    while i < n
        invariant
            old(d).wf(),
            d.wf(),
            d.input == old(d).input,
            src == d.src(),
            pos0 == old(d).pos as int,
            pos0 <= d.pos as int <= src.len(),
            row == Seq::new(n as nat, |q: int| elem@),
            i <= n,
            i > 0 ==> d.pos > pos0,
            parse_row(src, pos0, row, cmd) == row_cont(
                parse_row(src, d.pos as int, row.skip(i as int), cmd),
                value_models(out@),
            ),
        decreases n - i,
    {
        let ghost cur = d.pos as int;
        let ghost built = value_models(out@);
        proof {
            assert(row.skip(i as int)[0] == row[i as int]);
            assert(row.skip(i as int).drop_first() =~= row.skip(i as int + 1));
            assert(Seq::new(n as nat, |q: int| *elem)[i as int] == *elem);
        }
        match decode_value(d, elem, cmd) {
            Ok(Decoded::Val(v)) => {
                proof {
                    assert(clamp_pos(d.pos as int, cur, src.len() as int) == d.pos as int);
                    crate::value::lemma_value_models_push(out@, v);
                    match parse_row(src, d.pos as int, row.skip(i as int + 1), cmd) {
                        RowOut::Vals(vs, p) => {
                            assert(built + (seq![v@] + vs) =~= (built + seq![v@]) + vs);
                        },
                        RowOut::Divert(_, _) => {},
                        RowOut::Fail(_) => {},
                    }
                }
                out.push(v);
            },
            Ok(Decoded::Divert(text)) => {
                return Ok(RowDecoded::Divert(text));
            },
            Err(e) => {
                return Err(e);
            },
        }
        i = i + 1;
    }
    proof {
        assert(row.skip(i as int) =~= Seq::<ShapeModel>::empty());
        match parse_row(src, pos0, row, cmd) {
            RowOut::Vals(vs, p) => {
                assert(value_models(out@) + Seq::<ValueModel>::empty() =~= value_models(out@));
            },
            RowOut::Divert(_, _) => {},
            RowOut::Fail(_) => {},
        }
    }
    Ok(RowDecoded::Vals(out))
}

/// Decodes a command invocation from a frame's bytes: the target shape must
/// be an enum, whose matched variant is the decoded command. Bytes after the
/// frame, such as its trailing CRLF terminator, are left unread.
pub fn read_command(input: &Vec<u8>, shape: &Shape) -> (r: Result<Value, Error>)
    ensures
        (parse_command(input@, shape@) matches ParseOut::Val(v, p) ==> (r matches Ok(ev) && ev@
            == v)),
        (parse_command(input@, shape@) is Divert ==> r is Err),
        (parse_command(input@, shape@) matches ParseOut::Fail(k) ==> (r matches Err(e) && reports(
            e,
            k,
        ))),
{
    match shape {
        Shape::Enum(_) => {},
        _ => {
            return Err(Error::De("a command decodes only into an enum".to_owned()));
        },
    }
    let mut d = Deserializer::new(input);
    match decode_value(&mut d, shape, true) {
        Ok(Decoded::Val(v)) => Ok(v),
        Ok(Decoded::Divert(_)) => Err(Error::De("unexpected error token in a command".to_owned())),
        Err(e) => Err(e),
    }
}

/// Decodes a reply: `Ok(Ok(value))` for a well-formed reply of the requested
/// shape, `Ok(Err(text))` when the peer reported an application-level error
/// through an error token, and `Err(..)` only when this decode call itself
/// failed on a malformed or truncated frame.
pub fn read_reply(input: &Vec<u8>, shape: &Shape) -> (r: Result<Result<Value, String>, Error>)
    ensures
        (parse_reply(input@, shape@) matches ParseOut::Val(v, p) ==> (r matches Ok(inner) && (
        inner matches Ok(ev) && ev@ == v))),
        (parse_reply(input@, shape@) matches ParseOut::Divert(t, p) ==> (vstd::utf8::valid_utf8(t)
            ==> (r matches Ok(inner) && (inner matches Err(es) && vstd::utf8::encode_utf8(es@)
            == t))) && (!vstd::utf8::valid_utf8(t) ==> (r matches Err(e) && e is IO))),
        (parse_reply(input@, shape@) matches ParseOut::Fail(k) ==> (r matches Err(e) && reports(
            e,
            k,
        ))),
{
    let mut d = Deserializer::new(input);
    match decode_value(&mut d, shape, false) {
        Ok(Decoded::Val(v)) => Ok(Ok(v)),
        Ok(Decoded::Divert(text)) => Ok(Err(text)),
        Err(e) => Err(e),
    }
}

/// Parses a whole digit line as a signed 64-bit integer: an optional sign,
/// then at least one digit and nothing else; overflow is an `IntParsing`
/// failure, exactly as `parse_int_content` has it.
fn parse_i64(b: &Vec<u8>) -> (r: Result<i64, Error>)
    ensures
        (parse_int_content(b@) matches Some(v) ==> (r matches Ok(x) && x as int == v)),
        (parse_int_content(b@) is None ==> (r matches Err(e) && e is IntParsing)),
{
    let neg: bool = b.len() > 0 && b[0] == 45;
    let start: usize = if b.len() > 0 && (b[0] == 45 || b[0] == 43) {
        1
    } else {
        0
    };
    let ghost digs = if b@.len() > 0 && (b@[0] == 45 || b@[0] == 43) {
        b@.drop_first()
    } else {
        b@
    };
    assert(digs =~= b@.subrange(start as int, b@.len() as int));
    if b.len() == start {
        assert(digs.len() == 0);
        return Err(Error::IntParsing);
    }
    // The largest magnitude still in range: one more for the negative side.
    let limit: u64 = if neg {
        9223372036854775808
    } else {
        9223372036854775807
    };
    let mut acc: u64 = 0;
    let mut i: usize = start;
    while i < b.len()
        invariant
            start <= i <= b@.len(),
            b@.len() > 0,
            start == (if b@[0] == 45 || b@[0] == 43 {
                1int
            } else {
                0int
            }),
            neg == (b@[0] == 45),
            limit == if neg {
                9223372036854775808u64
            } else {
                9223372036854775807u64
            },
            digs =~= b@.subrange(start as int, b@.len() as int),
            forall|k: int| start <= k < i ==> 48 <= #[trigger] b@[k] <= 57,
            acc == digits_val(b@.subrange(start as int, i as int)),
            acc <= limit,
        decreases b@.len() - i,
    {
        let d: u8 = b[i];
        if d < 48 || d > 57 {
            assert(!all_digits(digs)) by {
                assert(digs[i - start] == b@[i as int]);
            }
            return Err(Error::IntParsing);
        }
        let dv: u64 = (d - 48) as u64;
        let last_limit: u64 = if neg {
            8
        } else {
            7
        };
        if acc > 922337203685477580 || (acc == 922337203685477580 && dv > last_limit) {
            // The value overflows 64 bits already; more digits only grow it.
            proof {
                let taken = b@.subrange(start as int, i + 1);
                assert(taken.drop_last() =~= b@.subrange(start as int, i as int));
                assert(taken.last() == b@[i as int]);
                assert(digits_val(taken) == acc * 10 + dv);
                assert(acc * 10 + dv > limit);
                if all_digits(digs) {
                    assert(taken =~= digs.take(i + 1 - start));
                    lemma_digits_val_take(digs, i + 1 - start);
                    if neg {
                        assert(-digits_val(digs) < i64::MIN);
                    } else {
                        assert(digits_val(digs) > i64::MAX);
                    }
                    assert((if b@.len() > 0 && (b@[0] == 45 || b@[0] == 43) {
                        b@.drop_first()
                    } else {
                        b@
                    }) =~= digs);
                    assert(parse_int_content(b@) is None);
                }
            }
            return Err(Error::IntParsing);
        }
        proof {
            let taken = b@.subrange(start as int, i + 1);
            assert(taken.drop_last() =~= b@.subrange(start as int, i as int));
            assert(taken.last() == b@[i as int]);
        }
        acc = acc * 10 + dv;
        i = i + 1;
    }
    assert(b@.subrange(start as int, i as int) =~= digs);
    assert(all_digits(digs));
    assert(digs.len() > 0);
    if neg {
        if acc == 9223372036854775808 {
            Ok(i64::MIN)
        } else {
            Ok(-(acc as i64))
        }
    } else {
        Ok(acc as i64)
    }
}

} // verus!
