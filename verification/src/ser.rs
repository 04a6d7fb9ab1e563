//! The value encoder: maps an abstract-model value to RESP2 wire bytes,
//! parameterized by the mode (command or reply), plus the two encoding entry
//! points. Every function's output is pinned, byte for byte, to the wire
//! grammar of `crate::wire`.
use crate::error::Error;
use crate::value::{value_model, value_models, Value, ValueModel};
use crate::wire::{
    array_header, bulk_token, crlf, dec_rep, enc_error, enc_prefix, enc_prefix_list,
    has_line_break, int_rep, int_token, lemma_enc_prefix_list_split, lemma_wire_list_snoc,
    lemma_wire_list_split, name_token, nil_token, simple_token, text_token, upper, upper_byte,
    wire_command, wire_list, wire_value, EncOut,
};
use vstd::prelude::*;
use vstd::string::StrSliceExecFns;

verus! {

/// Appends the two line-terminator bytes.
fn push_crlf(out: &mut Vec<u8>)
    ensures
        final(out)@ == old(out)@ + crlf(),
{
    out.push(13);
    out.push(10);
    assert(out@ =~= old(out)@ + crlf());
}

/// Appends a copy of `src`.
fn push_bytes(src: &Vec<u8>, out: &mut Vec<u8>)
    ensures
        final(out)@ == old(out)@ + src@,
{
    let mut i: usize = 0;
    while i < src.len()
        invariant
            i <= src.len(),
            out@ == old(out)@ + src@.take(i as int),
        decreases src.len() - i,
    {
        out.push(src[i]);
        assert(src@.take(i + 1) =~= src@.take(i as int).push(src@[i as int]));
        i = i + 1;
    }
    assert(src@.take(src@.len() as int) =~= src@);
}

/// Appends the decimal digits of `n`, most significant first.
fn push_dec(n: u128, out: &mut Vec<u8>)
    ensures
        final(out)@ == old(out)@ + dec_rep(n as nat),
{
    let mut digits: Vec<u8> = Vec::new();
    let mut m: u128 = n;
    while m >= 10
        invariant
            dec_rep(n as nat) == dec_rep(m as nat) + digits@,
        decreases m,
    {
        let d: u8 = (m % 10) as u8;
        let ghost pre = digits@;
        digits.insert(0, 48 + d);
        assert(digits@ =~= seq![(48 + d) as u8] + pre);
        assert(dec_rep(m as nat) == dec_rep((m as nat) / 10) + seq![(48 + (m as nat) % 10) as u8]);
        m = m / 10;
    }
    let ghost pre = digits@;
    digits.insert(0, 48 + (m as u8));
    assert(digits@ =~= seq![(48 + m) as u8] + pre);
    assert(dec_rep(n as nat) =~= digits@);
    push_bytes(&digits, out);
}

/// Appends the canonical base-10 representation of `i`: an optional minus
/// sign, then the digits of its magnitude.
fn push_int_rep(i: i64, out: &mut Vec<u8>)
    ensures
        final(out)@ == old(out)@ + int_rep(i as int),
{
    if i < 0 {
        let mag: u64 = ((-(i + 1)) as u64) + 1;
        assert(mag as nat == (-(i as int)) as nat);
        out.push(45);
        push_dec(mag as u128, out);
        assert(out@ =~= old(out)@ + int_rep(i as int));
    } else {
        push_dec(i as u128, out);
    }
}

/// Appends a whole integer token, `:<integer>\r\n`.
fn push_int_token(i: i64, out: &mut Vec<u8>)
    ensures
        final(out)@ == old(out)@ + int_token(i as int),
{
    out.push(58);
    push_int_rep(i, out);
    push_crlf(out);
    assert(out@ =~= old(out)@ + int_token(i as int));
}

/// Appends a whole bulk-string token, `$<len>\r\n<body>\r\n`.
fn push_bulk_token(body: &Vec<u8>, out: &mut Vec<u8>)
    ensures
        final(out)@ == old(out)@ + bulk_token(body@),
{
    out.push(36);
    push_dec(body.len() as u128, out);
    push_crlf(out);
    push_bytes(body, out);
    push_crlf(out);
    assert(int_rep(body@.len() as int) == dec_rep(body@.len() as nat));
    assert(out@ =~= old(out)@ + bulk_token(body@));
}

/// Appends a simple-string token, `+<text>\r\n`; the caller has ruled line
/// breaks out of the body.
fn push_simple_token(body: &Vec<u8>, out: &mut Vec<u8>)
    ensures
        final(out)@ == old(out)@ + simple_token(body@),
{
    out.push(43);
    push_bytes(body, out);
    push_crlf(out);
    assert(out@ =~= old(out)@ + simple_token(body@));
}

/// Appends an array header, `*<count>\r\n`.
fn push_array_header(n: u128, out: &mut Vec<u8>)
    ensures
        final(out)@ == old(out)@ + array_header(n as int),
{
    out.push(42);
    push_dec(n, out);
    push_crlf(out);
    assert(int_rep(n as int) == dec_rep(n as nat));
    assert(out@ =~= old(out)@ + array_header(n as int));
}

/// Appends the nil bulk string, `$-1\r\n`.
fn push_nil_token(out: &mut Vec<u8>)
    ensures
        final(out)@ == old(out)@ + nil_token(),
{
    out.push(36);
    out.push(45);
    out.push(49);
    out.push(13);
    out.push(10);
    assert(out@ =~= old(out)@ + nil_token());
}

/// Whether the bytes hold a CR or LF, which forces bulk framing.
fn contains_line_break(b: &Vec<u8>) -> (r: bool)
    ensures
        r == has_line_break(b@),
{
    let mut i: usize = 0;
    while i < b.len()
        invariant
            i <= b.len(),
            forall|k: int| 0 <= k < i ==> b@[k] != 13 && b@[k] != 10,
        decreases b.len() - i,
    {
        let x: u8 = b[i];
        if x == 13 || x == 10 {
            assert(has_line_break(b@));
            return true;
        }
        i = i + 1;
    }
    false
}

/// The ASCII upper-casing of a byte sequence.
pub(crate) fn to_upper(src: &Vec<u8>) -> (r: Vec<u8>)
    ensures
        r@ == upper(src@),
{
    let mut r: Vec<u8> = Vec::new();
    let mut i: usize = 0;
    while i < src.len()
        invariant
            i <= src.len(),
            r@ == upper(src@.take(i as int)),
        decreases src.len() - i,
    {
        let x: u8 = src[i];
        let u: u8 = if 97 <= x && x <= 122 {
            x - 32
        } else {
            x
        };
        r.push(u);
        assert(upper(src@.take(i + 1)) =~= upper(src@.take(i as int)).push(upper_byte(src@[i as int])));
        i = i + 1;
    }
    assert(src@.take(src@.len() as int) =~= src@);
    r
}

/// Appends the wire form of a variant name: its UTF-8 bytes, ASCII
/// upper-cased, framed as a bulk string.
fn push_name_token(name: &String, out: &mut Vec<u8>)
    ensures
        final(out)@ == old(out)@ + name_token(name@),
{
    let bytes: Vec<u8> = name.as_str().as_bytes_vec();
    let upper_bytes: Vec<u8> = to_upper(&bytes);
    push_bulk_token(&upper_bytes, out);
}

/// A text string becomes a simple string when it is line-safe, a bulk string
/// otherwise.
fn push_text_token(body: &Vec<u8>, out: &mut Vec<u8>)
    ensures
        final(out)@ == old(out)@ + text_token(body@),
{
    if contains_line_break(body) {
        push_bulk_token(body, out);
    } else {
        push_simple_token(body, out);
    }
}

/// Encodes one abstract-model value as its RESP2 wire bytes, appended to
/// `out`: in command mode (`cmd`) when it is streamed into a command frame,
/// otherwise in reply mode. Succeeds exactly when the wire grammar gives the
/// value a form in that mode, and then appends exactly those bytes; fails
/// with the error the grammar names. On failure the output is pinned too:
/// the failures that precede any write leave it untouched, and a payload
/// failing mid-frame leaves exactly the frame prefix written before it.
pub fn encode_value(v: &Value, cmd: bool, out: &mut Vec<u8>) -> (r: Result<(), Error>)
    ensures
        (wire_value(v@, cmd) is Bytes ==> (r is Ok) && final(out)@ == old(out)@ + wire_value(
            v@,
            cmd,
        )->Bytes_0),
        (wire_value(v@, cmd) is Fail ==> (r is Err) && r->Err_0 == enc_error(
            wire_value(v@, cmd)->Fail_0,
        )),
        (wire_value(v@, cmd) is Fail ==> final(out)@ == old(out)@ + enc_prefix(v@, cmd)),
    decreases v,
{
    match v {
        Value::Bool(b) => {
            push_int_token(if *b { 1 } else { 0 }, out);
            Ok(())
        },
        Value::Int(i) => {
            push_int_token(*i, out);
            Ok(())
        },
        Value::UInt(u) => {
            if *u <= i64::MAX as u64 {
                push_int_token(*u as i64, out);
                Ok(())
            } else {
                assert(out@ =~= old(out)@ + Seq::<u8>::empty());
                Err(Error::IntConversion)
            }
        },
        Value::Char(c) => {
            if (*c as u32) > 127 {
                assert(out@ =~= old(out)@ + Seq::<u8>::empty());
                Err(Error::UnsupportedType)
            } else {
                let byte: u8 = *c as u8;
                let body: Vec<u8> = vec![byte];
                if byte == 13 || byte == 10 {
                    push_bulk_token(&body, out);
                } else {
                    push_simple_token(&body, out);
                }
                Ok(())
            }
        },
        Value::Str(s) => {
            let bytes: Vec<u8> = s.as_str().as_bytes_vec();
            push_text_token(&bytes, out);
            Ok(())
        },
        Value::Bytes(b) => {
            push_bulk_token(b, out);
            Ok(())
        },
        Value::Nil => {
            push_nil_token(out);
            Ok(())
        },
        Value::Opt(o) => {
            match o {
                Option::None => {
                    if !cmd {
                        push_nil_token(out);
                    } else {
                        assert(out@ =~= old(out)@ + Seq::<u8>::empty());
                    }
                    Ok(())
                },
                Option::Some(inner) => encode_value(inner, cmd, out),
            }
        },
        Value::List(elems) => {
            proof {
                crate::value::lemma_value_models_index(elems@);
            }
            if !cmd {
                push_array_header(elems.len() as u128, out);
            }
            let r = encode_list(elems, cmd, out);
            if r.is_ok() {
                assert(out@ =~= old(out)@ + wire_value(v@, cmd)->Bytes_0);
            } else {
                assert(out@ =~= old(out)@ + enc_prefix(v@, cmd));
            }
            r
        },
        Value::UnitVariant(n) => {
            if cmd {
                push_array_header(1, out);
                push_name_token(n, out);
                assert(out@ =~= old(out)@ + (array_header(1) + name_token(n@)));
                Ok(())
            } else {
                assert(out@ =~= old(out)@ + Seq::<u8>::empty());
                Err(Error::InvalidTypeForReply)
            }
        },
        Value::NewtypeVariant(n, inner) => {
            if cmd {
                push_array_header(2, out);
                push_name_token(n, out);
                let r = encode_value(inner, cmd, out);
                if r.is_ok() {
                    assert(out@ =~= old(out)@ + wire_value(v@, cmd)->Bytes_0);
                } else {
                    assert(out@ =~= old(out)@ + enc_prefix(v@, cmd));
                }
                r
            } else {
                assert(out@ =~= old(out)@ + Seq::<u8>::empty());
                Err(Error::InvalidTypeForReply)
            }
        },
        Value::TupleVariant(n, fields) => {
            proof {
                crate::value::lemma_value_models_index(fields@);
            }
            if cmd {
                push_array_header(fields.len() as u128 + 1, out);
                push_name_token(n, out);
            } else {
                push_array_header(fields.len() as u128, out);
            }
            let r = encode_list(fields, cmd, out);
            if r.is_ok() {
                assert(out@ =~= old(out)@ + wire_value(v@, cmd)->Bytes_0);
            } else {
                assert(out@ =~= old(out)@ + enc_prefix(v@, cmd));
            }
            r
        },
    }
}

/// Encodes a row of values one after the other, appending each element's
/// wire bytes in order; stops at the first element the grammar refuses,
/// reporting its error and leaving exactly the bytes written up to it.
fn encode_list(elems: &Vec<Value>, cmd: bool, out: &mut Vec<u8>) -> (r: Result<(), Error>)
    ensures
        (wire_list(value_models(elems@), cmd) is Bytes ==> (r is Ok) && final(out)@ == old(out)@
            + wire_list(value_models(elems@), cmd)->Bytes_0),
        (wire_list(value_models(elems@), cmd) is Fail ==> (r is Err) && r->Err_0 == enc_error(
            wire_list(value_models(elems@), cmd)->Fail_0,
        )),
        (wire_list(value_models(elems@), cmd) is Fail ==> final(out)@ == old(out)@
            + enc_prefix_list(value_models(elems@), cmd)),
    decreases elems,
{
    let ghost ms = value_models(elems@);
    proof {
        crate::value::lemma_value_models_index(elems@);
        assert(ms.take(0) =~= Seq::<ValueModel>::empty());
    }
    let mut i: usize = 0;
    while i < elems.len()
        invariant
            i <= elems.len(),
            ms == value_models(elems@),
            ms.len() == elems@.len(),
            forall|k: int| 0 <= k < elems@.len() ==> ms[k] == value_model(elems@[k]),
            wire_list(ms.take(i as int), cmd) is Bytes,
            out@ == old(out)@ + wire_list(ms.take(i as int), cmd)->Bytes_0,
        decreases elems.len() - i,
    {
        proof {
            assert(decreases_to!(elems => elems@[i as int]));
        }
        let r = encode_value(&elems[i], cmd, out);
        proof {
            lemma_wire_list_snoc(ms, cmd, i as int);
        }
        match r {
            Ok(_) => {},
            Err(e) => {
                proof {
                    lemma_wire_list_split(ms, cmd, i as int + 1);
                    lemma_enc_prefix_list_split(ms, cmd, i as int);
                    assert(out@ =~= old(out)@ + enc_prefix_list(ms, cmd));
                }
                return Err(e);
            },
        }
        i = i + 1;
    }
    assert(ms.take(ms.len() as int) =~= ms);
    Ok(())
}

/// Encodes a command invocation: the value must be enum-shaped (the variant
/// is the command name), and the frame is closed by one extra CRLF beyond
/// the outermost array's own framing.
pub fn write_command(value: &Value) -> (r: Result<Vec<u8>, Error>)
    ensures
        (wire_command(value@) is Bytes ==> (r is Ok) && r->Ok_0@ == wire_command(
            value@,
        )->Bytes_0),
        (wire_command(value@) is Fail ==> (r is Err) && r->Err_0 == enc_error(
            wire_command(value@)->Fail_0,
        )),
{
    let enum_shaped: bool = match value {
        Value::UnitVariant(_) => true,
        Value::NewtypeVariant(_, _) => true,
        Value::TupleVariant(_, _) => true,
        _ => false,
    };
    if !enum_shaped {
        return Err(Error::InvalidTypeForCommand);
    }
    let mut out: Vec<u8> = Vec::new();
    match encode_value(value, true, &mut out) {
        Ok(_) => {
            push_crlf(&mut out);
            assert(out@ =~= Seq::<u8>::empty() + wire_value(value@, true)->Bytes_0 + crlf());
            assert(out@ =~= wire_command(value@)->Bytes_0);
            Ok(out)
        },
        Err(e) => Err(e),
    }
}

/// Encodes a reply: any shape the reply-mode grammar accepts; no extra
/// terminator follows the value's own framing.
pub fn write_reply(value: &Value) -> (r: Result<Vec<u8>, Error>)
    ensures
        (wire_value(value@, false) is Bytes ==> (r is Ok) && r->Ok_0@ == wire_value(
            value@,
            false,
        )->Bytes_0),
        (wire_value(value@, false) is Fail ==> (r is Err) && r->Err_0 == enc_error(
            wire_value(value@, false)->Fail_0,
        )),
{
    let mut out: Vec<u8> = Vec::new();
    match encode_value(value, false, &mut out) {
        Ok(_) => {
            assert(out@ =~= wire_value(value@, false)->Bytes_0);
            Ok(out)
        },
        Err(e) => Err(e),
    }
}

} // verus!
