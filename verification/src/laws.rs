//! The codec's laws: what a value must look like for its wire form to carry
//! it faithfully, and the proofs that decoding an encoded value gives that
//! value back — for command frames and for replies — and that command-name
//! matching is insensitive to letter case.
use crate::parse::{
    find_variant, parse_bulk_body, parse_command, parse_int_token, parse_reply, parse_row,
    parse_text, parse_value, DecErr, ParseOut, RowOut,
};
use crate::value::{ShapeModel, ValueModel, VariantModel};
use crate::wire::{
    all_digits, array_header, bulk_token, crlf, dec_rep, digits_val, error_token, has_line_break,
    int_rep, int_token, lemma_dec_rep_val, lemma_int_rep_line_safe, lemma_line_len_at,
    line_content, line_len, name_token, nil_token, parse_int_content, simple_token, upper,
    upper_byte, wire_command, wire_list, wire_value, EncOut,
};
use vstd::prelude::*;

verus! {

broadcast use crate::wire::lemma_line_len_bounds;

/// Whether a value fits the requested decode shape, field for field. Variant
/// names must match their declared spelling exactly; the wire carries them
/// upper-cased.
pub open spec fn conforms(v: ValueModel, s: ShapeModel) -> bool
    decreases v,
{
    match v {
        ValueModel::Bool(_) => s is Bool,
        ValueModel::Int(_) => s is Int,
        ValueModel::UInt(_) => s is UInt,
        ValueModel::Char(_) => s is Char,
        ValueModel::Str(_) => s is Str,
        ValueModel::Bytes(_) => s is Bytes,
        ValueModel::Nil => false,
        ValueModel::Opt(o) => match o {
            Option::None => s is Opt,
            Option::Some(x) => s matches ShapeModel::Opt(t) && conforms(*x, *t),
        },
        ValueModel::List(es) => match s {
            ShapeModel::List(t) => forall|i: int| 0 <= i < es.len() ==> conforms(
                #[trigger] es[i],
                *t,
            ),
            ShapeModel::Tuple(ts) => es.len() == ts.len() && forall|i: int|
                0 <= i < es.len() ==> conforms(#[trigger] es[i], ts[i]),
            _ => false,
        },
        ValueModel::UnitVariant(n) => s matches ShapeModel::Enum(vars) && exists|j: int|
            0 <= j < vars.len() && (#[trigger] vars[j]).name == n && vars[j].fields.len() == 0,
        ValueModel::NewtypeVariant(n, x) => s matches ShapeModel::Enum(vars) && exists|j: int|
            0 <= j < vars.len() && (#[trigger] vars[j]).name == n && vars[j].fields.len() == 1
                && conforms(*x, vars[j].fields[0]),
        ValueModel::TupleVariant(n, fs) => s matches ShapeModel::Enum(vars) && exists|j: int|
            0 <= j < vars.len() && (#[trigger] vars[j]).name == n && vars[j].fields.len()
                == fs.len() && forall|i: int| 0 <= i < fs.len() ==> conforms(
                #[trigger] fs[i],
                vars[j].fields[i],
            ),
    }
}

/// Whether a variant name survives the trip over the wire: its upper-cased
/// UTF-8 bytes fit on one line.
pub open spec fn name_ok(n: Seq<char>) -> bool {
    forall|k: int| 0 <= k < upper(vstd::utf8::encode_utf8(n)).len() ==> #[trigger] upper(
        vstd::utf8::encode_utf8(n),
    )[k] != 10 && upper(vstd::utf8::encode_utf8(n))[k] != 13
}

/// Whether a value's wire form, in the given mode, determines the value: the
/// inputs on which the codec round-trips. Absent optionals are omitted from
/// command frames, sequences stream into them headerless, and a one-field or
/// zero-field tuple variant is indistinguishable on the wire from a newtype
/// or unit variant, so those are left out; an optional directly inside an
/// optional would collide with the nil encoding; and a bulk string's length
/// must fit a signed 64-bit count.
pub open spec fn codable(v: ValueModel, cmd: bool) -> bool
    decreases v,
{
    match v {
        ValueModel::Bool(_) => true,
        ValueModel::Int(i) => i64::MIN <= i <= i64::MAX,
        ValueModel::UInt(u) => 0 <= u <= i64::MAX,
        ValueModel::Char(c) => c as u32 <= 127,
        ValueModel::Str(s) => vstd::utf8::encode_utf8(s).len() <= i64::MAX,
        ValueModel::Bytes(bs) => bs.len() <= i64::MAX,
        ValueModel::Nil => false,
        ValueModel::Opt(o) => match o {
            Option::None => !cmd,
            Option::Some(x) => !(*x is Opt) && codable(*x, cmd),
        },
        ValueModel::List(es) => !cmd && es.len() <= i64::MAX && forall|i: int|
            0 <= i < es.len() ==> codable(#[trigger] es[i], cmd),
        ValueModel::UnitVariant(n) => cmd && name_ok(n),
        ValueModel::NewtypeVariant(n, x) => cmd && name_ok(n) && codable(*x, cmd),
        ValueModel::TupleVariant(n, fs) => cmd && name_ok(n) && 2 <= fs.len() && fs.len() + 1
            <= i64::MAX && forall|i: int| 0 <= i < fs.len() ==> codable(#[trigger] fs[i], cmd),
    }
}

/// Whether every enum node of a decode shape names its variants
/// case-insensitively apart, so that name matching is unambiguous.
pub open spec fn distinct_names(s: ShapeModel) -> bool
    decreases s,
{
    match s {
        ShapeModel::Bool => true,
        ShapeModel::Int => true,
        ShapeModel::UInt => true,
        ShapeModel::Char => true,
        ShapeModel::Str => true,
        ShapeModel::Bytes => true,
        ShapeModel::Opt(t) => distinct_names(*t),
        ShapeModel::List(t) => distinct_names(*t),
        ShapeModel::Tuple(ts) => forall|i: int| 0 <= i < ts.len() ==> distinct_names(
            #[trigger] ts[i],
        ),
        ShapeModel::Enum(vars) => (forall|j: int, k: int|
            0 <= j < vars.len() && 0 <= k < vars.len() && j != k ==> upper(
                vstd::utf8::encode_utf8(#[trigger] vars[j].name),
            ) != upper(vstd::utf8::encode_utf8(#[trigger] vars[k].name))) && (forall|j: int, i: int|
            0 <= j < vars.len() && 0 <= i < vars[j].fields.len() ==> distinct_names(
                #[trigger] vars[j].fields[i],
            )),
    }
}

/// A prefix of a byte sequence read off element by element.
pub proof fn lemma_starts_with(b: Seq<u8>, pos: int, t: Seq<u8>)
    requires
        0 <= pos,
        pos + t.len() <= b.len(),
        b.subrange(pos, pos + t.len()) == t,
    ensures
        forall|k: int| 0 <= k < t.len() ==> b[pos + k] == #[trigger] t[k],
{
    assert forall|k: int| 0 <= k < t.len() implies b[pos + k] == #[trigger] t[k] by {
        assert(b.subrange(pos, pos + t.len())[k] == b[pos + k]);
    }
}

/// A line whose content and CRLF terminator stand at `pos` reads back as
/// exactly that content.
pub proof fn lemma_line_of(b: Seq<u8>, pos: int, content: Seq<u8>)
    requires
        0 <= pos,
        pos + content.len() + 2 <= b.len(),
        forall|k: int| 0 <= k < content.len() ==> b[pos + k] == #[trigger] content[k],
        forall|k: int| 0 <= k < content.len() ==> #[trigger] content[k] != 10,
        b[pos + content.len()] == 13,
        b[pos + content.len() + 1] == 10,
    ensures
        line_len(b, pos) == content.len() + 2,
        line_content(b, pos) == content,
{
    assert forall|k: int| pos <= k < pos + content.len() + 1 implies b[k] != 10 by {
        if k < pos + content.len() {
            assert(b[k] == content[k - pos]);
        }
    }
    lemma_line_len_at(b, pos, pos + content.len() + 1);
    let raw = b.subrange(pos, pos + content.len() + 2);
    assert(raw.last() == 10);
    assert(raw.drop_last().last() == 13);
    assert(raw.drop_last().drop_last() =~= content);
    assert(line_content(b, pos) =~= content);
}

/// The canonical representation of an in-range integer parses back to it.
pub proof fn lemma_parse_int_rep(i: int)
    requires
        i64::MIN <= i <= i64::MAX,
    ensures
        parse_int_content(int_rep(i)) == Option::Some(i),
{
    if i >= 0 {
        lemma_dec_rep_val(i as nat);
        let b = int_rep(i);
        assert(b == dec_rep(i as nat));
        assert(b.len() > 0);
        assert(48 <= b[0] <= 57);
        assert(b[0] != 45 && b[0] != 43);
    } else {
        lemma_dec_rep_val((-i) as nat);
        let b = int_rep(i);
        assert(b[0] == 45);
        assert(b.drop_first() =~= dec_rep((-i) as nat));
        assert(digits_val(b.drop_first()) == -i);
    }
}

/// ASCII upper-casing is idempotent.
pub proof fn lemma_upper_idem(x: Seq<u8>)
    ensures
        upper(upper(x)) == upper(x),
{
    assert forall|k: int| 0 <= k < x.len() implies upper(upper(x))[k] == upper(x)[k] by {
        assert(upper_byte(upper_byte(x[k])) == upper_byte(x[k]));
    }
    assert(upper(upper(x)) =~= upper(x));
}

/// Variant matching is case-insensitive: two command names that agree up to
/// letter case select the same candidate variant, whatever the candidates.
pub proof fn lemma_match_case_insensitive(vars: Seq<VariantModel>, w1: Seq<u8>, w2: Seq<u8>)
    requires
        upper(w1) == upper(w2),
    ensures
        find_variant(vars, w1) == find_variant(vars, w2),
    decreases vars.len(),
{
    if vars.len() > 0 {
        lemma_match_case_insensitive(vars.drop_first(), w1, w2);
    }
}

/// An integer token standing at `pos` parses back to its integer, whatever
/// follows it.
pub proof fn lemma_parse_int_token_at(b: Seq<u8>, pos: int, i: int)
    requires
        i64::MIN <= i <= i64::MAX,
        0 <= pos,
        pos + int_token(i).len() <= b.len(),
        b.subrange(pos, pos + int_token(i).len() as int) == int_token(i),
    ensures
        parse_int_token(b, pos) == ParseOut::Val(ValueModel::Int(i), pos + int_token(i).len() as int),
{
    let t = int_token(i);
    let rep = int_rep(i);
    lemma_starts_with(b, pos, t);
    lemma_int_rep_line_safe(i);
    assert(t.len() == 3 + rep.len());
    assert(t[0] == 58);
    assert forall|k: int| 0 <= k < rep.len() implies t[1 + k] == #[trigger] rep[k] by {}
    assert(t[1 + rep.len() as int] == 13);
    assert(t[2 + rep.len() as int] == 10);
    assert forall|k: int| 0 <= k < rep.len() implies b[pos + 1 + k] == #[trigger] rep[k] by {
        assert(b[pos + (1 + k)] == t[1 + k]);
    }
    assert(b[pos + 1 + rep.len() as int] == 13);
    assert(b[pos + 1 + rep.len() as int + 1] == 10);
    lemma_line_of(b, pos + 1, rep);
    lemma_parse_int_rep(i);
    assert(b[pos] == 58);
}

/// A simple-string token standing at `pos` parses back to its line-safe
/// body, whatever follows it.
pub proof fn lemma_parse_simple_at(b: Seq<u8>, pos: int, body: Seq<u8>)
    requires
        !has_line_break(body),
        0 <= pos,
        pos + simple_token(body).len() <= b.len(),
        b.subrange(pos, pos + simple_token(body).len() as int) == simple_token(body),
    ensures
        parse_text(b, pos) == ParseOut::Val(
            ValueModel::Bytes(body),
            pos + simple_token(body).len() as int,
        ),
{
    let t = simple_token(body);
    lemma_starts_with(b, pos, t);
    assert(t.len() == 3 + body.len());
    assert(t[0] == 43);
    assert forall|k: int| 0 <= k < body.len() implies b[pos + 1 + k] == #[trigger] body[k] by {
        assert(t[1 + k] == body[k]);
        assert(b[pos + (1 + k)] == t[1 + k]);
    }
    assert forall|k: int| 0 <= k < body.len() implies #[trigger] body[k] != 10 by {
        if body[k] == 10 {
            assert(has_line_break(body));
        }
    }
    assert(t[1 + body.len() as int] == 13);
    assert(t[2 + body.len() as int] == 10);
    assert(b[pos + 1 + body.len() as int] == 13);
    assert(b[pos + 1 + body.len() as int + 1] == 10);
    lemma_line_of(b, pos + 1, body);
    assert(b[pos] == 43);
}

/// A bulk-string token standing at `pos` parses back to its body, whatever
/// the body holds and whatever follows the token.
pub proof fn lemma_parse_bulk_at(b: Seq<u8>, pos: int, body: Seq<u8>)
    requires
        body.len() <= i64::MAX,
        0 <= pos,
        pos + bulk_token(body).len() <= b.len(),
        b.subrange(pos, pos + bulk_token(body).len() as int) == bulk_token(body),
    ensures
        b[pos] == 36,
        parse_bulk_body(b, pos + 1) == ParseOut::Val(
            ValueModel::Bytes(body),
            pos + bulk_token(body).len() as int,
        ),
        parse_int_content(line_content(b, pos + 1)) == Option::Some(body.len() as int),
{
    let t = bulk_token(body);
    let lent = body.len() as int;
    let rep = int_rep(lent);
    lemma_starts_with(b, pos, t);
    lemma_int_rep_line_safe(lent);
    assert(t.len() == 5 + rep.len() + body.len());
    assert(t[0] == 36);
    assert(b[pos] == 36);
    assert forall|k: int| 0 <= k < rep.len() implies b[pos + 1 + k] == #[trigger] rep[k] by {
        assert(t[1 + k] == rep[k]);
        assert(b[pos + (1 + k)] == t[1 + k]);
    }
    assert(t[1 + rep.len() as int] == 13);
    assert(t[2 + rep.len() as int] == 10);
    assert(b[pos + 1 + rep.len() as int] == 13);
    assert(b[pos + 1 + rep.len() as int + 1] == 10);
    lemma_line_of(b, pos + 1, rep);
    lemma_parse_int_rep(lent);
    let p1 = pos + 1 + rep.len() as int + 2;
    assert forall|k: int| 0 <= k < body.len() implies b[p1 + k] == #[trigger] body[k] by {
        assert(t[3 + rep.len() + k] == body[k]);
        assert(b[pos + (3 + rep.len() + k)] == t[3 + rep.len() + k]);
    }
    assert(b.subrange(p1, p1 + lent) =~= body);
    assert(t[3 + rep.len() as int + body.len() as int] == 13);
    assert(t[4 + rep.len() as int + body.len() as int] == 10);
    assert(b[p1 + lent] == 13);
    assert(b[p1 + lent + 1] == 10);
}

/// No wire form of a codable non-optional value looks like the nil bulk
/// string, so the decoder's nil peek never mistakes a present inner value.
proof fn lemma_enc_not_nil(b: Seq<u8>, pos: int, x: ValueModel, cmd: bool)
    requires
        codable(x, cmd),
        !(x is Opt),
        wire_value(x, cmd) is Bytes,
        0 <= pos,
        pos + wire_value(x, cmd)->Bytes_0.len() <= b.len(),
        b.subrange(pos, pos + wire_value(x, cmd)->Bytes_0.len() as int) == wire_value(
            x,
            cmd,
        )->Bytes_0,
    ensures
        !(pos < b.len() && b[pos] == 36 && parse_int_content(line_content(b, pos + 1))
            == Option::Some(-1int)),
{
    let bs = wire_value(x, cmd)->Bytes_0;
    lemma_starts_with(b, pos, bs);
    match x {
        ValueModel::Bool(v0) => {
            assert(bs[0] == 58);
            assert(b[pos] == 58);
        },
        ValueModel::Int(_) => {
            assert(bs[0] == 58);
            assert(b[pos] == 58);
        },
        ValueModel::UInt(_) => {
            assert(bs[0] == 58);
            assert(b[pos] == 58);
        },
        ValueModel::Char(c) => {
            if c == '\r' || c == '\n' {
                assert(bs == bulk_token(seq![c as u8]));
                lemma_parse_bulk_at(b, pos, seq![c as u8]);
            } else {
                assert(bs[0] == 43);
                assert(b[pos] == 43);
            }
        },
        ValueModel::Str(s0) => {
            let ut = vstd::utf8::encode_utf8(s0);
            if has_line_break(ut) {
                assert(bs == bulk_token(ut));
                lemma_parse_bulk_at(b, pos, ut);
            } else {
                assert(bs[0] == 43);
                assert(b[pos] == 43);
            }
        },
        ValueModel::Bytes(body) => {
            assert(bs == bulk_token(body));
            lemma_parse_bulk_at(b, pos, body);
        },
        ValueModel::Nil => {
            // A nil-encoding value is never codable, so this case cannot
            // arise.
            assert(false);
        },
        ValueModel::Opt(_) => {},
        ValueModel::List(elems) => {
            assert(wire_list(elems, cmd) is Bytes);
            assert(bs == array_header(elems.len() as int) + wire_list(elems, cmd)->Bytes_0);
            assert(bs[0] == array_header(elems.len() as int)[0]);
            assert(b[pos] == 42);
        },
        ValueModel::UnitVariant(n1) => {
            assert(bs[0] == array_header(1)[0]);
            assert(b[pos] == 42);
        },
        ValueModel::NewtypeVariant(n1, x1) => {
            assert(wire_value(*x1, cmd) is Bytes);
            assert(bs == array_header(2) + name_token(n1) + wire_value(*x1, cmd)->Bytes_0);
            assert(bs[0] == (array_header(2) + name_token(n1))[0]);
            assert((array_header(2) + name_token(n1))[0] == array_header(2)[0]);
            assert(b[pos] == 42);
        },
        ValueModel::TupleVariant(n1, fs1) => {
            assert(wire_list(fs1, cmd) is Bytes);
            assert(bs == array_header(fs1.len() as int + 1) + name_token(n1) + wire_list(
                fs1,
                cmd,
            )->Bytes_0);
            assert(bs[0] == (array_header(fs1.len() as int + 1) + name_token(n1))[0]);
            assert((array_header(fs1.len() as int + 1) + name_token(n1))[0] == array_header(
                fs1.len() as int + 1,
            )[0]);
            assert(b[pos] == 42);
        },
    }
}

/// Decoding reads back what encoding wrote: a codable value's wire form,
/// standing anywhere in a byte sequence, parses as exactly that value and
/// consumes exactly its own bytes, whatever follows.
#[verifier::rlimit(80)]
#[verifier::spinoff_prover]
pub proof fn lemma_parse_of_wire(b: Seq<u8>, pos: int, v: ValueModel, s: ShapeModel, cmd: bool)
    requires
        conforms(v, s),
        codable(v, cmd),
        distinct_names(s),
        wire_value(v, cmd) is Bytes,
        0 <= pos,
        pos + wire_value(v, cmd)->Bytes_0.len() <= b.len(),
        b.subrange(pos, pos + wire_value(v, cmd)->Bytes_0.len() as int) == wire_value(
            v,
            cmd,
        )->Bytes_0,
    ensures
        parse_value(b, pos, s, cmd) == ParseOut::Val(
            v,
            pos + wire_value(v, cmd)->Bytes_0.len() as int,
        ),
    decreases v, 1int,
{
    let bs = wire_value(v, cmd)->Bytes_0;
    lemma_starts_with(b, pos, bs);
    match v {
        ValueModel::Bool(v0) => {
            let i: int = if v0 {
                1
            } else {
                0
            };
            assert(bs == int_token(i));
            lemma_parse_int_token_at(b, pos, i);
            assert(bs[0] == 58);
            assert(b[pos] == 58);
        },
        ValueModel::Int(i) => {
            assert(bs == int_token(i));
            lemma_parse_int_token_at(b, pos, i);
            assert(bs[0] == 58);
            assert(b[pos] == 58);
        },
        ValueModel::UInt(u) => {
            assert(bs == int_token(u));
            lemma_parse_int_token_at(b, pos, u);
            assert(bs[0] == 58);
            assert(b[pos] == 58);
        },
        ValueModel::Char(c) => {
            let cb = c as u8;
            assert(cb < 128);
            if c == '\r' || c == '\n' {
                assert(bs == bulk_token(seq![cb]));
                lemma_parse_bulk_at(b, pos, seq![cb]);
                assert(seq![cb].len() == 1 && seq![cb][0] == cb);
                assert((cb as char) == c);
            } else {
                assert(bs == simple_token(seq![cb]));
                assert(!has_line_break(seq![cb])) by {
                    assert(c as u32 != 13 && c as u32 != 10);
                }
                lemma_parse_simple_at(b, pos, seq![cb]);
                assert((cb as char) == c);
            }
        },
        ValueModel::Str(s0) => {
            let ut = vstd::utf8::encode_utf8(s0);
            vstd::utf8::encode_utf8_valid_utf8(s0);
            vstd::utf8::encode_utf8_decode_utf8(s0);
            if has_line_break(ut) {
                assert(bs == bulk_token(ut));
                lemma_parse_bulk_at(b, pos, ut);
                assert(b[pos] == 36);
            } else {
                assert(bs == simple_token(ut));
                lemma_parse_simple_at(b, pos, ut);
                assert(b[pos] == 43);
            }
        },
        ValueModel::Bytes(body) => {
            assert(bs == bulk_token(body));
            lemma_parse_bulk_at(b, pos, body);
        },
        ValueModel::Nil => {
            // Nothing decodes to a unit value, so it conforms to no shape
            // and this case cannot arise.
            assert(false);
        },
        ValueModel::Opt(o) => {
            match o {
                Option::None => {
                    assert(bs == nil_token());
                    assert(b[pos] == 36);
                    let content = seq![45u8, 49u8];
                    assert forall|k: int| 0 <= k < 2 implies b[pos + 1 + k] == #[trigger] content[k] by {
                        assert(b[pos + (1 + k)] == bs[1 + k]);
                    }
                    assert(b[pos + 1 + 2] == 13);
                    assert(b[pos + 1 + 2 + 1] == 10);
                    lemma_line_of(b, pos + 1, content);
                    assert(parse_int_content(content) == Option::Some(-1int)) by {
                        let digs = content.drop_first();
                        assert(digs =~= seq![49u8]);
                        assert(digs.drop_last() =~= Seq::<u8>::empty());
                        assert(digits_val(Seq::<u8>::empty()) == 0);
                        assert(digs.last() == 49);
                        assert(digits_val(digs) == 1);
                        assert(all_digits(digs));
                    }
                },
                Option::Some(x) => {
                    let t = s->Opt_0;
                    lemma_enc_not_nil(b, pos, *x, cmd);
                    lemma_parse_of_wire(b, pos, *x, *t, cmd);
                },
            }
        },
        ValueModel::List(es) => {
            let hdr = array_header(es.len() as int);
            let ebs = wire_list(es, cmd)->Bytes_0;
            assert(wire_list(es, cmd) is Bytes);
            assert(bs == hdr + ebs);
            assert(bs[0] == hdr[0]);
            assert(hdr[0] == 42);
            assert(b[pos] == 42);
            let rep = int_rep(es.len() as int);
            lemma_int_rep_line_safe(es.len() as int);
            assert(hdr.len() == 3 + rep.len());
            assert forall|k: int| 0 <= k < rep.len() implies b[pos + 1 + k] == #[trigger] rep[k] by {
                assert(hdr[1 + k] == rep[k]);
                assert(bs[1 + k] == hdr[1 + k]);
                assert(b[pos + (1 + k)] == bs[1 + k]);
            }
            assert(b[pos + 1 + rep.len() as int] == 13) by {
                assert(bs[1 + rep.len() as int] == hdr[1 + rep.len() as int]);
            }
            assert(b[pos + 1 + rep.len() as int + 1] == 10) by {
                assert(bs[2 + rep.len() as int] == hdr[2 + rep.len() as int]);
            }
            lemma_line_of(b, pos + 1, rep);
            lemma_parse_int_rep(es.len() as int);
            let p2 = pos + hdr.len() as int;
            assert(b.subrange(p2, p2 + ebs.len() as int) =~= ebs) by {
                assert forall|k: int| 0 <= k < ebs.len() implies b[p2 + k] == #[trigger] ebs[k] by {
                    assert(bs[hdr.len() + k] == ebs[k]);
                    assert(b[pos + (hdr.len() + k)] == bs[hdr.len() + k]);
                }
            }
            match s {
                ShapeModel::List(t) => {
                    let row = Seq::new(es.len(), |q: int| *t);
                    assert forall|i: int| 0 <= i < es.len() implies conforms(
                        #[trigger] es[i],
                        row[i],
                    ) by {
                        assert(row[i] == *t);
                    }
                    assert forall|i: int| 0 <= i < row.len() implies distinct_names(
                        #[trigger] row[i],
                    ) by {
                        assert(row[i] == *t);
                    }
                    lemma_parse_row_of_wire(b, p2, es, row, cmd);
                },
                ShapeModel::Tuple(ts) => {
                    lemma_parse_row_of_wire(b, p2, es, ts, cmd);
                },
                _ => {
                    assert(false);
                },
            }
        },
        ValueModel::UnitVariant(n) => {
            lemma_parse_enum_of_wire(b, pos, v, s, cmd);
        },
        ValueModel::NewtypeVariant(n, x) => {
            lemma_parse_enum_of_wire(b, pos, v, s, cmd);
        },
        ValueModel::TupleVariant(n, fs) => {
            lemma_parse_enum_of_wire(b, pos, v, s, cmd);
        },
    }
}

/// The head of a command frame — the array header, the ignored bulk-length
/// line and the upper-cased name line — reads back as written.
proof fn lemma_parse_cmd_frame_head(b: Seq<u8>, pos: int, count: int, n: Seq<char>)
    requires
        1 <= count <= i64::MAX,
        name_ok(n),
        0 <= pos,
        pos + (array_header(count) + name_token(n)).len() <= b.len(),
        b.subrange(pos, pos + (array_header(count) + name_token(n)).len() as int) == array_header(
            count,
        ) + name_token(n),
    ensures
        b[pos] == 42,
        parse_int_content(line_content(b, pos + 1)) == Option::Some(count),
        pos + 1 + line_len(b, pos + 1) == pos + array_header(count).len(),
        ({
            let p2 = pos + array_header(count).len() as int;
            let name = upper(vstd::utf8::encode_utf8(n));
            let p3 = p2 + line_len(b, p2);
            &&& p3 == p2 + int_rep(name.len() as int).len() + 3
            &&& line_content(b, p3) == name
            &&& p3 + line_len(b, p3) == pos + (array_header(count) + name_token(n)).len()
        }),
{
    let hd = array_header(count) + name_token(n);
    let nt = name_token(n);
    let name = upper(vstd::utf8::encode_utf8(n));
    let lname = name.len() as int;
    let repc = int_rep(count);
    let repl = int_rep(lname);
    lemma_starts_with(b, pos, hd);
    lemma_int_rep_line_safe(count);
    lemma_int_rep_line_safe(lname);
    assert(array_header(count).len() == 3 + repc.len());
    assert(nt.len() == 5 + repl.len() + name.len());
    assert(hd[0] == 42);
    assert(b[pos] == 42);
    // The count line.
    assert forall|k: int| 0 <= k < repc.len() implies b[pos + 1 + k] == #[trigger] repc[k] by {
        assert(hd[1 + k] == repc[k]);
        assert(b[pos + (1 + k)] == hd[1 + k]);
    }
    assert(b[pos + 1 + repc.len() as int] == 13) by {
        assert(hd[1 + repc.len() as int] == 13);
    }
    assert(b[pos + 1 + repc.len() as int + 1] == 10) by {
        assert(hd[2 + repc.len() as int] == 10);
    }
    lemma_line_of(b, pos + 1, repc);
    lemma_parse_int_rep(count);
    let p2 = pos + array_header(count).len() as int;
    let off2 = 3 + repc.len() as int;
    // The ignored bulk-length line: `$<len>`.
    let c2 = seq![36u8] + repl;
    assert forall|k: int| 0 <= k < c2.len() implies b[p2 + k] == #[trigger] c2[k] by {
        assert(nt[k] == c2[k]);
        assert(hd[off2 + k] == nt[k]);
        assert(b[pos + (off2 + k)] == hd[off2 + k]);
    }
    assert forall|k: int| 0 <= k < c2.len() implies #[trigger] c2[k] != 10 by {
        if k > 0 {
            assert(c2[k] == repl[k - 1]);
        }
    }
    assert(b[p2 + c2.len() as int] == 13) by {
        assert(nt[1 + repl.len() as int] == 13);
        assert(hd[off2 + 1 + repl.len() as int] == nt[1 + repl.len() as int]);
        assert(b[pos + (off2 + 1 + repl.len() as int)] == hd[off2 + 1 + repl.len() as int]);
    }
    assert(b[p2 + c2.len() as int + 1] == 10) by {
        assert(nt[2 + repl.len() as int] == 10);
        assert(hd[off2 + 2 + repl.len() as int] == nt[2 + repl.len() as int]);
        assert(b[pos + (off2 + 2 + repl.len() as int)] == hd[off2 + 2 + repl.len() as int]);
    }
    lemma_line_of(b, p2, c2);
    let p3 = p2 + line_len(b, p2);
    assert(p3 == p2 + repl.len() + 3);
    // The name line.
    let off3 = off2 + 3 + repl.len() as int;
    assert forall|k: int| 0 <= k < name.len() implies b[p3 + k] == #[trigger] name[k] by {
        assert(nt[3 + repl.len() as int + k] == name[k]);
        assert(hd[off2 + 3 + repl.len() as int + k] == nt[3 + repl.len() as int + k]);
        assert(b[pos + (off2 + 3 + repl.len() as int + k)] == hd[off2 + 3 + repl.len() as int
            + k]);
    }
    assert(b[p3 + name.len() as int] == 13) by {
        assert(nt[3 + repl.len() as int + lname] == 13);
        assert(hd[off3 + lname] == nt[3 + repl.len() as int + lname]);
        assert(b[pos + (off3 + lname)] == hd[off3 + lname]);
    }
    assert(b[p3 + name.len() as int + 1] == 10) by {
        assert(nt[4 + repl.len() as int + lname] == 10);
        assert(hd[off3 + lname + 1] == nt[4 + repl.len() as int + lname]);
        assert(b[pos + (off3 + lname + 1)] == hd[off3 + lname + 1]);
    }
    assert forall|k: int| 0 <= k < name.len() implies #[trigger] name[k] != 10 by {}
    lemma_line_of(b, p3, name);
}

/// A tagged-variant value's command frame decodes back to the variant and
/// its payload.
proof fn lemma_parse_enum_of_wire(b: Seq<u8>, pos: int, v: ValueModel, s: ShapeModel, cmd: bool)
    requires
        v.is_enum_shaped(),
        conforms(v, s),
        codable(v, cmd),
        distinct_names(s),
        wire_value(v, cmd) is Bytes,
        0 <= pos,
        pos + wire_value(v, cmd)->Bytes_0.len() <= b.len(),
        b.subrange(pos, pos + wire_value(v, cmd)->Bytes_0.len() as int) == wire_value(
            v,
            cmd,
        )->Bytes_0,
    ensures
        parse_value(b, pos, s, cmd) == ParseOut::Val(
            v,
            pos + wire_value(v, cmd)->Bytes_0.len() as int,
        ),
    decreases v, 0int,
{
    let bs = wire_value(v, cmd)->Bytes_0;
    lemma_starts_with(b, pos, bs);
    assert(cmd);
    let vars = s->Enum_0;
    let n = match v {
        ValueModel::UnitVariant(n) => n,
        ValueModel::NewtypeVariant(n, _) => n,
        ValueModel::TupleVariant(n, _) => n,
        _ => Seq::empty(),
    };
    let count: int = match v {
        ValueModel::UnitVariant(_) => 1,
        ValueModel::NewtypeVariant(_, _) => 2,
        ValueModel::TupleVariant(_, fs) => fs.len() as int + 1,
        _ => 0,
    };
    let name = upper(vstd::utf8::encode_utf8(n));
    let hd = array_header(count) + name_token(n);
    let tail: Seq<u8> = match v {
        ValueModel::UnitVariant(_) => Seq::empty(),
        ValueModel::NewtypeVariant(_, x) => wire_value(*x, cmd)->Bytes_0,
        ValueModel::TupleVariant(_, fs) => wire_list(fs, cmd)->Bytes_0,
        _ => Seq::empty(),
    };
    match v {
        ValueModel::NewtypeVariant(_, x) => {
            assert(wire_value(*x, cmd) is Bytes);
        },
        ValueModel::TupleVariant(_, fs) => {
            assert(wire_list(fs, cmd) is Bytes);
        },
        _ => {},
    }
    assert(bs == hd + tail) by {
        assert(array_header(count) + name_token(n) + tail =~= (array_header(count) + name_token(n))
            + tail);
    }
    assert(b.subrange(pos, pos + hd.len() as int) =~= hd) by {
        assert forall|k: int| 0 <= k < hd.len() implies b[pos + k] == #[trigger] hd[k] by {
            assert(bs[k] == hd[k]);
        }
    }
    lemma_parse_cmd_frame_head(b, pos, count, n);
    let p2 = pos + array_header(count).len() as int;
    let p3 = p2 + line_len(b, p2);
    let p4 = p3 + line_len(b, p3);
    assert(p4 == pos + hd.len());
    // The declared variant is the unique case-insensitive match.
    let j0 = choose|j: int|
        0 <= j < vars.len() && (#[trigger] vars[j]).name == n && vars[j].fields.len() == count - 1;
    lemma_upper_idem(vstd::utf8::encode_utf8(n));
    assert(upper(vstd::utf8::encode_utf8(vars[j0].name)) == upper(name));
    assert forall|k: int| 0 <= k < j0 implies upper(
        vstd::utf8::encode_utf8(#[trigger] vars[k].name),
    ) != upper(name) by {}
    crate::parse::lemma_find_variant_at(vars, name, j0);
    assert(find_variant(vars, name) == Option::Some(j0));
    // The payload, if any, follows the head.
    assert(b.subrange(p4, p4 + tail.len() as int) =~= tail) by {
        assert forall|k: int| 0 <= k < tail.len() implies b[p4 + k] == #[trigger] tail[k] by {
            assert(bs[hd.len() + k] == tail[k]);
            assert(b[pos + (hd.len() + k)] == bs[hd.len() + k]);
        }
    }
    match v {
        ValueModel::UnitVariant(_) => {
            assert(parse_value(b, pos, s, cmd) == ParseOut::Val(
                ValueModel::UnitVariant(vars[j0].name),
                p4,
            ));
        },
        ValueModel::NewtypeVariant(_, x) => {
            lemma_parse_of_wire(b, p4, *x, vars[j0].fields[0], cmd);
        },
        ValueModel::TupleVariant(_, fs) => {
            assert(count != 1 && count != 2);
            lemma_parse_row_of_wire(b, p4, fs, vars[j0].fields, cmd);
        },
        _ => {},
    }
}

/// The rows of a frame decode element by element: a row's concatenated wire
/// bytes parse back, shape by shape, to the row's values.
pub proof fn lemma_parse_row_of_wire(
    b: Seq<u8>,
    pos: int,
    es: Seq<ValueModel>,
    ss: Seq<ShapeModel>,
    cmd: bool,
)
    requires
        es.len() == ss.len(),
        forall|i: int| 0 <= i < es.len() ==> conforms(#[trigger] es[i], ss[i]),
        forall|i: int| 0 <= i < es.len() ==> codable(#[trigger] es[i], cmd),
        forall|i: int| 0 <= i < ss.len() ==> distinct_names(#[trigger] ss[i]),
        wire_list(es, cmd) is Bytes,
        0 <= pos,
        pos + wire_list(es, cmd)->Bytes_0.len() <= b.len(),
        b.subrange(pos, pos + wire_list(es, cmd)->Bytes_0.len() as int) == wire_list(
            es,
            cmd,
        )->Bytes_0,
    ensures
        parse_row(b, pos, ss, cmd) == RowOut::Vals(
            es,
            pos + wire_list(es, cmd)->Bytes_0.len() as int,
        ),
    decreases es, 1int,
{
    let bs = wire_list(es, cmd)->Bytes_0;
    lemma_starts_with(b, pos, bs);
    if es.len() == 0 {
        assert(bs =~= Seq::<u8>::empty());
        assert(ss.len() == 0);
        assert(es =~= Seq::<ValueModel>::empty());
        assert(ss =~= Seq::<ShapeModel>::empty());
    } else {
        let first = wire_value(es[0], cmd);
        assert(first is Bytes);
        let fbs = first->Bytes_0;
        let restout = wire_list(es.drop_first(), cmd);
        assert(restout is Bytes);
        let rbs = restout->Bytes_0;
        assert(bs == fbs + rbs);
        assert(b.subrange(pos, pos + fbs.len() as int) =~= fbs) by {
            assert forall|k: int| 0 <= k < fbs.len() implies b[pos + k] == #[trigger] fbs[k] by {
                assert(bs[k] == fbs[k]);
            }
        }
        lemma_parse_of_wire(b, pos, es[0], ss[0], cmd);
        let p1 = pos + fbs.len() as int;
        assert(b.subrange(p1, p1 + rbs.len() as int) =~= rbs) by {
            assert forall|k: int| 0 <= k < rbs.len() implies b[p1 + k] == #[trigger] rbs[k] by {
                assert(bs[fbs.len() + k] == rbs[k]);
                assert(b[pos + (fbs.len() + k)] == bs[fbs.len() + k]);
            }
        }
        let es2 = es.drop_first();
        let ss2 = ss.drop_first();
        assert(forall|i: int| 0 <= i < es2.len() ==> #[trigger] es2[i] == es[i + 1]);
        assert(forall|i: int| 0 <= i < ss2.len() ==> #[trigger] ss2[i] == ss[i + 1]);
        lemma_parse_row_of_wire(b, p1, es2, ss2, cmd);
        assert(crate::parse::clamp_pos(p1, pos, b.len() as int) == p1);
        assert(ss[0] == ss.first());
        assert(seq![es[0]] + es2 =~= es);
    }
}

/// A well-formed error token read in reply mode diverts the outcome into
/// the error side channel instead of producing a value, whatever shape was
/// requested: the decode itself does not fail.
pub proof fn lemma_error_token_diverts(b: Seq<u8>, pos: int, text: Seq<u8>, s: ShapeModel)
    requires
        forall|k: int| 0 <= k < text.len() ==> #[trigger] text[k] != 10 && text[k] != 13,
        0 <= pos,
        pos + error_token(text).len() <= b.len(),
        b.subrange(pos, pos + error_token(text).len() as int) == error_token(text),
    ensures
        parse_value(b, pos, s, false) == ParseOut::Divert(
            text,
            pos + error_token(text).len() as int,
        ),
{
    let t = error_token(text);
    lemma_starts_with(b, pos, t);
    assert(t[0] == 45);
    assert(b[pos] == 45);
    assert forall|k: int| 0 <= k < text.len() implies b[pos + 1 + k] == #[trigger] text[k] by {
        assert(t[1 + k] == text[k]);
        assert(b[pos + (1 + k)] == t[1 + k]);
    }
    assert(t[1 + text.len() as int] == 13);
    assert(t[2 + text.len() as int] == 10);
    assert(b[pos + 1 + text.len() as int] == 13);
    assert(b[pos + 1 + text.len() as int + 1] == 10);
    lemma_line_of(b, pos + 1, text);
}

/// A codable value always has a wire form in its mode.
pub proof fn lemma_codable_encodes(v: ValueModel, cmd: bool)
    requires
        codable(v, cmd),
    ensures
        wire_value(v, cmd) is Bytes,
    decreases v,
{
    match v {
        ValueModel::Opt(o) => match o {
            Option::Some(x) => lemma_codable_encodes(*x, cmd),
            Option::None => {},
        },
        ValueModel::List(es) => lemma_codable_list(es, cmd),
        ValueModel::NewtypeVariant(_, x) => lemma_codable_encodes(*x, cmd),
        ValueModel::TupleVariant(_, fs) => lemma_codable_list(fs, cmd),
        _ => {},
    }
}

proof fn lemma_codable_list(es: Seq<ValueModel>, cmd: bool)
    requires
        forall|i: int| 0 <= i < es.len() ==> codable(#[trigger] es[i], cmd),
    ensures
        wire_list(es, cmd) is Bytes,
    decreases es,
{
    if es.len() > 0 {
        lemma_codable_encodes(es[0], cmd);
        lemma_codable_list(es.drop_first(), cmd);
    }
}

/// Round trip for command frames: a codable enum-shaped value that conforms
/// to a decode shape with case-insensitively distinct variant names encodes
/// to a command frame, and decoding that frame gives the value back. The
/// frame's extra trailing CRLF lies beyond the parsed value and is left to
/// the frame delimiter.
pub proof fn lemma_command_round_trip(v: ValueModel, s: ShapeModel)
    requires
        v.is_enum_shaped(),
        conforms(v, s),
        codable(v, true),
        distinct_names(s),
    ensures
        wire_command(v) is Bytes,
        (parse_command(wire_command(v)->Bytes_0, s) matches ParseOut::Val(w, p) && w == v),
{
    lemma_codable_encodes(v, true);
    let bs = wire_value(v, true)->Bytes_0;
    let full = bs + crlf();
    assert(wire_command(v) == EncOut::Bytes(full));
    assert(full.subrange(0, bs.len() as int) =~= bs);
    lemma_parse_of_wire(full, 0, v, s, true);
    assert(s is Enum);
}

/// Round trip for replies: a codable value that conforms to its decode
/// shape encodes to a reply, and decoding that reply gives the value back,
/// consuming exactly its bytes.
pub proof fn lemma_reply_round_trip(v: ValueModel, s: ShapeModel)
    requires
        conforms(v, s),
        codable(v, false),
        distinct_names(s),
    ensures
        wire_value(v, false) is Bytes,
        parse_reply(wire_value(v, false)->Bytes_0, s) == ParseOut::Val(
            v,
            wire_value(v, false)->Bytes_0.len() as int,
        ),
{
    lemma_codable_encodes(v, false);
    let bs = wire_value(v, false)->Bytes_0;
    assert(bs.subrange(0, bs.len() as int) =~= bs);
    lemma_parse_of_wire(bs, 0, v, s, false);
}

/// Malformed command frames fail with their own error kinds, not a generic
/// one: an outer tag other than `*` is `InvalidTypeForCommand`, and a
/// declared count of zero or less is `InvalidSizeForCommandArray`.
pub proof fn lemma_command_error_kinds(b: Seq<u8>, s: ShapeModel)
    requires
        s is Enum,
        b.len() > 0,
    ensures
        b[0] != 42 ==> parse_command(b, s) == ParseOut::Fail(DecErr::InvalidTypeForCommand),
        (b[0] == 42 && (parse_int_content(line_content(b, 1)) matches Some(c) && c <= 0)
            ==> parse_command(b, s) == ParseOut::Fail(DecErr::InvalidSizeForCommandArray)),
{
}

} // verus!
