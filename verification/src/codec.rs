//! The record format of the log and of the wire.
//!
//! A command is encoded as a self-describing object with explicit field
//! names, for example `{"Set":{"key":"a","value":"b"}}`. Key and value are
//! quoted fields in which the quote, the backslash and the record delimiter
//! are escaped, so an encoded command never contains the delimiter byte and
//! a log of records can be split at every delimiter.

use vstd::prelude::*;
use vstd::utf8::*;
use crate::command::{Command, CommandView};

verus! {

/// The byte that ends every log record.
pub const DELIM: u8 = 10;

/// The byte that opens and closes a key or value field.
pub const QUOTE: u8 = 34;

/// The escape byte inside a field.
pub const BSLASH: u8 = 92;

/// The escaped form of the delimiter: a backslash followed by this byte.
pub const ESC_N: u8 = 110;

/// The bytes that open a `Set` record, up to the first byte of the key.
pub open spec fn set_open() -> Seq<u8> {
    seq![123, 34, 83, 101, 116, 34, 58, 123, 34, 107, 101, 121, 34, 58, 34]
}

/// The bytes that open a `Rm` record, up to the first byte of the key.
pub open spec fn rm_open() -> Seq<u8> {
    seq![123, 34, 82, 109, 34, 58, 123, 34, 107, 101, 121, 34, 58, 34]
}

/// The bytes that open a `Get` record, up to the first byte of the key.
pub open spec fn get_open() -> Seq<u8> {
    seq![123, 34, 71, 101, 116, 34, 58, 123, 34, 107, 101, 121, 34, 58, 34]
}

/// The bytes between the key field and the value field of a `Set` record.
pub open spec fn value_mid() -> Seq<u8> {
    seq![44, 34, 118, 97, 108, 117, 101, 34, 58, 34]
}

/// The bytes that close a record, after the last field's closing quote.
pub open spec fn obj_end() -> Seq<u8> {
    seq![125, 125]
}

/// The escaped form of one field byte.
pub open spec fn esc_byte(b: u8) -> Seq<u8> {
    if b == QUOTE {
        seq![BSLASH, QUOTE]
    } else if b == BSLASH {
        seq![BSLASH, BSLASH]
    } else if b == DELIM {
        seq![BSLASH, ESC_N]
    } else {
        seq![b]
    }
}

/// The escaped form of a whole field.
pub open spec fn esc(s: Seq<u8>) -> Seq<u8>
    decreases s.len(),
{
    if s.len() == 0 {
        Seq::empty()
    } else {
        esc_byte(s[0]) + esc(s.skip(1))
    }
}

/// The bytes that may follow the escape byte.
pub open spec fn escapable(b: u8) -> bool {
    b == QUOTE || b == BSLASH || b == ESC_N
}

/// The field byte that an escape pair stands for.
pub open spec fn unesc_byte(b: u8) -> u8 {
    if b == ESC_N {
        DELIM
    } else {
        b
    }
}

/// Read a quoted field up to its closing quote: the unescaped content, and
/// the bytes after the quote. `None` when the field never closes or an
/// escape pair is malformed.
pub open spec fn unesc_prefix(s: Seq<u8>) -> Option<(Seq<u8>, Seq<u8>)>
    decreases s.len(),
{
    if s.len() == 0 {
        None
    } else if s[0] == QUOTE {
        Some((Seq::empty(), s.skip(1)))
    } else if s[0] == BSLASH {
        if s.len() >= 2 && escapable(s[1]) {
            match unesc_prefix(s.skip(2)) {
                Some(p) => Some((seq![unesc_byte(s[1])] + p.0, p.1)),
                None => None,
            }
        } else {
            None
        }
    } else {
        match unesc_prefix(s.skip(1)) {
            Some(p) => Some((seq![s[0]] + p.0, p.1)),
            None => None,
        }
    }
}

/// The encoding of a command, without the record delimiter.
pub open spec fn spec_encode_command(c: CommandView) -> Seq<u8> {
    match c {
        CommandView::Put { key, value } => set_open() + esc(encode_utf8(key)) + seq![QUOTE]
            + value_mid() + esc(encode_utf8(value)) + seq![QUOTE] + obj_end(),
        CommandView::Rm { key } => rm_open() + esc(encode_utf8(key)) + seq![QUOTE] + obj_end(),
        CommandView::Get { key } => get_open() + esc(encode_utf8(key)) + seq![QUOTE] + obj_end(),
    }
}

/// What a sequence of bytes decodes to, if anything.
pub open spec fn spec_parse_command(s: Seq<u8>) -> Option<CommandView> {
    if set_open().is_prefix_of(s) {
        match unesc_prefix(s.skip(set_open().len() as int)) {
            None => None,
            Some(kp) => {
                if value_mid().is_prefix_of(kp.1) {
                    match unesc_prefix(kp.1.skip(value_mid().len() as int)) {
                        None => None,
                        Some(vp) => {
                            if vp.1 == obj_end() && valid_utf8(kp.0) && valid_utf8(vp.0) {
                                Some(
                                    CommandView::Put {
                                        key: decode_utf8(kp.0),
                                        value: decode_utf8(vp.0),
                                    },
                                )
                            } else {
                                None
                            }
                        },
                    }
                } else {
                    None
                }
            },
        }
    } else if rm_open().is_prefix_of(s) {
        match unesc_prefix(s.skip(rm_open().len() as int)) {
            None => None,
            Some(kp) => {
                if kp.1 == obj_end() && valid_utf8(kp.0) {
                    Some(CommandView::Rm { key: decode_utf8(kp.0) })
                } else {
                    None
                }
            },
        }
    } else if get_open().is_prefix_of(s) {
        match unesc_prefix(s.skip(get_open().len() as int)) {
            None => None,
            Some(kp) => {
                if kp.1 == obj_end() && valid_utf8(kp.0) {
                    Some(CommandView::Get { key: decode_utf8(kp.0) })
                } else {
                    None
                }
            },
        }
    } else {
        None
    }
}

/// Escaping one more byte appends that byte's escaped form.
pub proof fn lemma_esc_push(a: Seq<u8>, x: u8)
    ensures
        esc(a.push(x)) == esc(a) + esc_byte(x),
    decreases a.len(),
{
    if a.len() == 0 {
        assert(a.push(x)[0] == x);
        assert(a.push(x).skip(1) =~= Seq::<u8>::empty());
        assert(esc(a.push(x)) =~= esc_byte(x) + esc(Seq::<u8>::empty()));
        assert(esc_byte(x) + esc(Seq::<u8>::empty()) =~= esc_byte(x));
        assert(esc(a) + esc_byte(x) =~= esc_byte(x));
        assert(esc(a.push(x)) =~= esc(a) + esc_byte(x));
    } else {
        assert(a.push(x).skip(1) =~= a.skip(1).push(x));
        lemma_esc_push(a.skip(1), x);
        assert(esc(a.push(x)) =~= esc(a) + esc_byte(x));
    }
}

/// Append the opening literal of a `Set` record.
fn push_set_open(out: &mut Vec<u8>)
    ensures
        final(out)@ == old(out)@ + set_open(),
{
    out.push(123);
    out.push(34);
    out.push(83);
    out.push(101);
    out.push(116);
    out.push(34);
    out.push(58);
    out.push(123);
    out.push(34);
    out.push(107);
    out.push(101);
    out.push(121);
    out.push(34);
    out.push(58);
    out.push(34);
}

/// Append the opening literal of a `Rm` record.
fn push_rm_open(out: &mut Vec<u8>)
    ensures
        final(out)@ == old(out)@ + rm_open(),
{
    out.push(123);
    out.push(34);
    out.push(82);
    out.push(109);
    out.push(34);
    out.push(58);
    out.push(123);
    out.push(34);
    out.push(107);
    out.push(101);
    out.push(121);
    out.push(34);
    out.push(58);
    out.push(34);
}

/// Append the opening literal of a `Get` record.
fn push_get_open(out: &mut Vec<u8>)
    ensures
        final(out)@ == old(out)@ + get_open(),
{
    out.push(123);
    out.push(34);
    out.push(71);
    out.push(101);
    out.push(116);
    out.push(34);
    out.push(58);
    out.push(123);
    out.push(34);
    out.push(107);
    out.push(101);
    out.push(121);
    out.push(34);
    out.push(58);
    out.push(34);
}

/// Append the literal between the key and the value of a `Set` record.
fn push_value_mid(out: &mut Vec<u8>)
    ensures
        final(out)@ == old(out)@ + value_mid(),
{
    out.push(44);
    out.push(34);
    out.push(118);
    out.push(97);
    out.push(108);
    out.push(117);
    out.push(101);
    out.push(34);
    out.push(58);
    out.push(34);
}

/// Append the closing literal of a record.
fn push_obj_end(out: &mut Vec<u8>)
    ensures
        final(out)@ == old(out)@ + obj_end(),
{
    out.push(125);
    out.push(125);
}

/// Append the escaped form of a field.
fn push_escaped(out: &mut Vec<u8>, s: &[u8])
    ensures
        final(out)@ == old(out)@ + esc(s@),
{
    let ghost base: Seq<u8> = out@;
    let mut i: usize = 0;
    while i < s.len()
        invariant
            i <= s@.len(),
            out@ == base + esc(s@.take(i as int)),
        decreases s@.len() - i,
    {
        let b = s[i];
        if b == QUOTE {
            out.push(BSLASH);
            out.push(QUOTE);
        } else if b == BSLASH {
            out.push(BSLASH);
            out.push(BSLASH);
        } else if b == DELIM {
            out.push(BSLASH);
            out.push(ESC_N);
        } else {
            out.push(b);
        }
        proof {
            lemma_esc_push(s@.take(i as int), s@[i as int]);
            assert(s@.take(i as int + 1) =~= s@.take(i as int).push(s@[i as int]));
            assert(out@ =~= base + esc(s@.take(i as int + 1)));
        }
        i = i + 1;
    }
    proof {
        assert(s@.take(s@.len() as int) =~= s@);
    }
}

/// Encode a command, without the record delimiter.
pub fn encode_command(c: &Command) -> (r: Vec<u8>)
    ensures
        r@ == spec_encode_command(c@),
{
    let mut out: Vec<u8> = Vec::new();
    match c {
        Command::Put { key, value } => {
            push_set_open(&mut out);
            push_escaped(&mut out, key.as_str().as_bytes());
            out.push(QUOTE);
            push_value_mid(&mut out);
            push_escaped(&mut out, value.as_str().as_bytes());
            out.push(QUOTE);
            push_obj_end(&mut out);
            proof {
                assert(out@ =~= spec_encode_command(c@));
            }
        },
        Command::Rm { key } => {
            push_rm_open(&mut out);
            push_escaped(&mut out, key.as_str().as_bytes());
            out.push(QUOTE);
            push_obj_end(&mut out);
            proof {
                assert(out@ =~= spec_encode_command(c@));
            }
        },
        Command::Get { key } => {
            push_get_open(&mut out);
            push_escaped(&mut out, key.as_str().as_bytes());
            out.push(QUOTE);
            push_obj_end(&mut out);
            proof {
                assert(out@ =~= spec_encode_command(c@));
            }
        },
    }
    out
}


/// Holds when no byte of the sequence is the record delimiter.
pub open spec fn delim_free(s: Seq<u8>) -> bool {
    forall|i: int| 0 <= i < s.len() ==> s[i] != DELIM
}

/// Two delimiter-free parts concatenate to a delimiter-free whole.
pub proof fn lemma_delim_free_concat(a: Seq<u8>, b: Seq<u8>)
    requires
        delim_free(a),
        delim_free(b),
    ensures
        delim_free(a + b),
{
    assert forall|i: int| 0 <= i < (a + b).len() implies (a + b)[i] != DELIM by {
        if i < a.len() {
            assert((a + b)[i] == a[i]);
        } else {
            assert((a + b)[i] == b[i - a.len()]);
        }
    }
}

/// An escaped field never contains the delimiter.
pub proof fn lemma_esc_delim_free(s: Seq<u8>)
    ensures
        delim_free(esc(s)),
    decreases s.len(),
{
    if s.len() == 0 {
    } else {
        lemma_esc_delim_free(s.skip(1));
        assert(delim_free(esc_byte(s[0])));
        lemma_delim_free_concat(esc_byte(s[0]), esc(s.skip(1)));
    }
}

/// An encoded command never contains the delimiter, so records can be
/// recovered by splitting the log at every delimiter byte.
pub proof fn lemma_encode_delim_free(c: CommandView)
    ensures
        delim_free(spec_encode_command(c)),
{
    assert(delim_free(set_open()));
    assert(delim_free(rm_open()));
    assert(delim_free(get_open()));
    assert(delim_free(value_mid()));
    assert(delim_free(obj_end()));
    assert(delim_free(seq![QUOTE]));
    match c {
        CommandView::Put { key, value } => {
            lemma_esc_delim_free(encode_utf8(key));
            lemma_esc_delim_free(encode_utf8(value));
            lemma_delim_free_concat(set_open(), esc(encode_utf8(key)));
            lemma_delim_free_concat(set_open() + esc(encode_utf8(key)), seq![QUOTE]);
            lemma_delim_free_concat(set_open() + esc(encode_utf8(key)) + seq![QUOTE], value_mid());
            lemma_delim_free_concat(
                set_open() + esc(encode_utf8(key)) + seq![QUOTE] + value_mid(),
                esc(encode_utf8(value)),
            );
            lemma_delim_free_concat(
                set_open() + esc(encode_utf8(key)) + seq![QUOTE] + value_mid() + esc(
                    encode_utf8(value),
                ),
                seq![QUOTE],
            );
            lemma_delim_free_concat(
                set_open() + esc(encode_utf8(key)) + seq![QUOTE] + value_mid() + esc(
                    encode_utf8(value),
                ) + seq![QUOTE],
                obj_end(),
            );
        },
        CommandView::Rm { key } => {
            lemma_esc_delim_free(encode_utf8(key));
            lemma_delim_free_concat(rm_open(), esc(encode_utf8(key)));
            lemma_delim_free_concat(rm_open() + esc(encode_utf8(key)), seq![QUOTE]);
            lemma_delim_free_concat(rm_open() + esc(encode_utf8(key)) + seq![QUOTE], obj_end());
        },
        CommandView::Get { key } => {
            lemma_esc_delim_free(encode_utf8(key));
            lemma_delim_free_concat(get_open(), esc(encode_utf8(key)));
            lemma_delim_free_concat(get_open() + esc(encode_utf8(key)), seq![QUOTE]);
            lemma_delim_free_concat(get_open() + esc(encode_utf8(key)) + seq![QUOTE], obj_end());
        },
    }
}

/// Reading a quoted field out of its own escaped form recovers the field and
/// leaves exactly the bytes after the closing quote.
pub proof fn lemma_unesc_of_esc(s: Seq<u8>, rest: Seq<u8>)
    ensures
        unesc_prefix(esc(s) + seq![QUOTE] + rest) is Some,
        unesc_prefix(esc(s) + seq![QUOTE] + rest).unwrap().0 == s,
        unesc_prefix(esc(s) + seq![QUOTE] + rest).unwrap().1 == rest,
    decreases s.len(),
{
    let w = esc(s) + seq![QUOTE] + rest;
    if s.len() == 0 {
        assert(esc(s) =~= Seq::<u8>::empty());
        assert(w[0] == QUOTE);
        assert(w.skip(1) =~= rest);
        assert(unesc_prefix(w).unwrap().0 =~= s);
    } else {
        let b = s[0];
        assert(esc(s) == esc_byte(b) + esc(s.skip(1)));
        lemma_unesc_of_esc(s.skip(1), rest);
        if b == QUOTE || b == BSLASH || b == DELIM {
            assert(esc_byte(b).len() == 2);
            assert(w[0] == esc_byte(b)[0]);
            assert(w[1] == esc_byte(b)[1]);
            assert(w[0] == BSLASH);
            assert(escapable(w[1]));
            assert(unesc_byte(w[1]) == b);
            assert(w.skip(2) =~= esc(s.skip(1)) + seq![QUOTE] + rest);
            assert(unesc_prefix(w).unwrap().0 =~= seq![b] + s.skip(1));
            assert(seq![b] + s.skip(1) =~= s);
        } else {
            assert(esc_byte(b) =~= seq![b]);
            assert(w[0] == b);
            assert(w[0] != QUOTE && w[0] != BSLASH);
            assert(w.skip(1) =~= esc(s.skip(1)) + seq![QUOTE] + rest);
            assert(unesc_prefix(w).unwrap().0 =~= seq![b] + s.skip(1));
            assert(seq![b] + s.skip(1) =~= s);
        }
    }
}

/// Decoding an encoded command gives the command back.
pub proof fn lemma_parse_encode(c: CommandView)
    ensures
        spec_parse_command(spec_encode_command(c)) == Some(c),
{
    let w = spec_encode_command(c);
    match c {
        CommandView::Put { key, value } => {
            let kb = encode_utf8(key);
            let vb = encode_utf8(value);
            let after_key = value_mid() + esc(vb) + seq![QUOTE] + obj_end();
            assert(set_open().is_prefix_of(w)) by {
                assert(set_open() =~= w.subrange(0, set_open().len() as int));
            }
            assert(w.skip(set_open().len() as int) =~= esc(kb) + seq![QUOTE] + after_key);
            lemma_unesc_of_esc(kb, after_key);
            let kp = unesc_prefix(w.skip(set_open().len() as int)).unwrap();
            assert(kp.1 == after_key);
            assert(value_mid().is_prefix_of(after_key)) by {
                assert(value_mid() =~= after_key.subrange(0, value_mid().len() as int));
            }
            assert(after_key.skip(value_mid().len() as int) =~= esc(vb) + seq![QUOTE] + obj_end());
            lemma_unesc_of_esc(vb, obj_end());
            let vp = unesc_prefix(after_key.skip(value_mid().len() as int)).unwrap();
            assert(vp.1 == obj_end());
            encode_utf8_valid_utf8(key);
            encode_utf8_valid_utf8(value);
            encode_utf8_decode_utf8(key);
            encode_utf8_decode_utf8(value);
            assert(spec_parse_command(w) == Some(c));
        },
        CommandView::Rm { key } => {
            let kb = encode_utf8(key);
            assert(w[2] == 82);
            assert(!set_open().is_prefix_of(w));
            assert(rm_open().is_prefix_of(w)) by {
                assert(rm_open() =~= w.subrange(0, rm_open().len() as int));
            }
            assert(w.skip(rm_open().len() as int) =~= esc(kb) + seq![QUOTE] + obj_end());
            lemma_unesc_of_esc(kb, obj_end());
            encode_utf8_valid_utf8(key);
            encode_utf8_decode_utf8(key);
            assert(spec_parse_command(w) == Some(c));
        },
        CommandView::Get { key } => {
            let kb = encode_utf8(key);
            assert(w[2] == 71);
            assert(!set_open().is_prefix_of(w));
            assert(!rm_open().is_prefix_of(w));
            assert(get_open().is_prefix_of(w)) by {
                assert(get_open() =~= w.subrange(0, get_open().len() as int));
            }
            assert(w.skip(get_open().len() as int) =~= esc(kb) + seq![QUOTE] + obj_end());
            lemma_unesc_of_esc(kb, obj_end());
            encode_utf8_valid_utf8(key);
            encode_utf8_decode_utf8(key);
            assert(spec_parse_command(w) == Some(c));
        },
    }
}

/// The least index holding the record delimiter, if any.
pub open spec fn find_delim(s: Seq<u8>) -> Option<int>
    decreases s.len(),
{
    if s.len() == 0 {
        None
    } else if s[0] == DELIM {
        Some(0)
    } else {
        match find_delim(s.skip(1)) {
            Some(i) => Some(i + 1),
            None => None,
        }
    }
}

/// What `find_delim` finds is a delimiter, and the least one.
pub proof fn lemma_find_delim_bounds(s: Seq<u8>)
    ensures
        find_delim(s) is Some ==> {
            &&& 0 <= find_delim(s).unwrap() < s.len()
            &&& s[find_delim(s).unwrap()] == DELIM
            &&& delim_free(s.take(find_delim(s).unwrap()))
        },
        find_delim(s) is None ==> delim_free(s),
    decreases s.len(),
{
    if s.len() == 0 {
    } else if s[0] == DELIM {
        assert(delim_free(s.take(0)));
    } else {
        lemma_find_delim_bounds(s.skip(1));
        match find_delim(s.skip(1)) {
            Some(i) => {
                assert(s[i + 1] == s.skip(1)[i]);
                assert forall|j: int| 0 <= j < i + 1 implies #[trigger] s.take(i + 1)[j] != DELIM by {
                    if j > 0 {
                        assert(s.take(i + 1)[j] == s.skip(1).take(i)[j - 1]);
                    }
                }
            },
            None => {
                assert forall|j: int| 0 <= j < s.len() implies s[j] != DELIM by {
                    if j > 0 {
                        assert(s[j] == s.skip(1)[j - 1]);
                    }
                }
            },
        }
    }
}

/// Extending a sequence that already holds a delimiter does not move the
/// first delimiter.
pub proof fn lemma_find_delim_extend(l: Seq<u8>, t: Seq<u8>)
    requires
        find_delim(l) is Some,
    ensures
        find_delim(l + t) == find_delim(l),
    decreases l.len(),
{
    if l.len() == 0 {
    } else {
        assert((l + t)[0] == l[0]);
        if l[0] == DELIM {
        } else {
            assert((l + t).skip(1) =~= l.skip(1) + t);
            lemma_find_delim_extend(l.skip(1), t);
        }
    }
}

/// In a delimiter-free part followed by a delimiter, the first delimiter is
/// right after that part.
pub proof fn lemma_find_delim_after_free(e: Seq<u8>, r: Seq<u8>)
    requires
        delim_free(e),
    ensures
        find_delim(e + seq![DELIM] + r) == Some(e.len() as int),
    decreases e.len(),
{
    let w = e + seq![DELIM] + r;
    if e.len() == 0 {
        assert(w[0] == DELIM);
    } else {
        assert(w[0] == e[0]);
        assert(w[0] != DELIM);
        assert(w.skip(1) =~= e.skip(1) + seq![DELIM] + r);
        lemma_find_delim_after_free(e.skip(1), r);
    }
}

/// The commands of a whole log, one record per delimiter. `None` when a
/// record does not decode or the last record is unterminated: corruption.
pub open spec fn spec_parse_log(s: Seq<u8>) -> Option<Seq<CommandView>>
    decreases s.len(),
{
    if s.len() == 0 {
        Some(Seq::empty())
    } else {
        match find_delim(s) {
            None => None,
            Some(i) => {
                if 0 <= i < s.len() {
                    match spec_parse_command(s.take(i)) {
                        None => None,
                        Some(c) => {
                            match spec_parse_log(s.skip(i + 1)) {
                                None => None,
                                Some(rest) => Some(seq![c] + rest),
                            }
                        },
                    }
                } else {
                    None
                }
            },
        }
    }
}

/// Appending one whole record to a well-formed log parses to the log's
/// commands followed by that record's command.
pub proof fn lemma_parse_log_append(l: Seq<u8>, e: Seq<u8>, c: CommandView)
    requires
        spec_parse_log(l) is Some,
        delim_free(e),
        spec_parse_command(e) == Some(c),
    ensures
        spec_parse_log(l + e + seq![DELIM]) is Some,
        spec_parse_log(l + e + seq![DELIM]).unwrap() == spec_parse_log(l).unwrap().push(c),
    decreases l.len(),
{
    let w = l + e + seq![DELIM];
    if l.len() == 0 {
        assert(w =~= e + seq![DELIM] + Seq::<u8>::empty());
        lemma_find_delim_after_free(e, Seq::<u8>::empty());
        let i = e.len() as int;
        assert(find_delim(w) == Some(i));
        assert(w.take(i) =~= e);
        assert(w.skip(i + 1) =~= Seq::<u8>::empty());
        assert(spec_parse_log(Seq::<u8>::empty()) == Some(Seq::<CommandView>::empty()));
        assert(spec_parse_log(w.skip(i + 1)) == Some(Seq::<CommandView>::empty()));
        assert(spec_parse_log(w) == Some(seq![c] + Seq::<CommandView>::empty()));
        assert(seq![c] + Seq::<CommandView>::empty() =~= seq![c]);
        assert(spec_parse_log(l) == Some(Seq::<CommandView>::empty()));
        assert(spec_parse_log(l).unwrap().push(c) =~= seq![c]);
    } else {
        lemma_find_delim_bounds(l);
        let i = find_delim(l).unwrap();
        lemma_find_delim_extend(l, e + seq![DELIM]);
        assert(w =~= l + (e + seq![DELIM]));
        assert(find_delim(w) == Some(i));
        assert(w.take(i) =~= l.take(i));
        assert(w.skip(i + 1) =~= l.skip(i + 1) + e + seq![DELIM]);
        lemma_parse_log_append(l.skip(i + 1), e, c);
        let c0 = spec_parse_command(l.take(i)).unwrap();
        let rest = spec_parse_log(l.skip(i + 1)).unwrap();
        assert(spec_parse_log(w).unwrap() =~= seq![c0] + rest.push(c));
        assert(seq![c0] + rest.push(c) =~= (seq![c0] + rest).push(c));
        assert(spec_parse_log(l).unwrap() == seq![c0] + rest);
    }
}


/// Build the opening literal of a `Set` record.
fn set_open_vec() -> (v: Vec<u8>)
    ensures
        v@ == set_open(),
{
    let mut v: Vec<u8> = Vec::new();
    push_set_open(&mut v);
    proof {
        assert(v@ =~= set_open());
    }
    v
}

/// Build the opening literal of a `Rm` record.
fn rm_open_vec() -> (v: Vec<u8>)
    ensures
        v@ == rm_open(),
{
    let mut v: Vec<u8> = Vec::new();
    push_rm_open(&mut v);
    proof {
        assert(v@ =~= rm_open());
    }
    v
}

/// Build the opening literal of a `Get` record.
fn get_open_vec() -> (v: Vec<u8>)
    ensures
        v@ == get_open(),
{
    let mut v: Vec<u8> = Vec::new();
    push_get_open(&mut v);
    proof {
        assert(v@ =~= get_open());
    }
    v
}

/// Build the literal between the key and the value of a `Set` record.
fn value_mid_vec() -> (v: Vec<u8>)
    ensures
        v@ == value_mid(),
{
    let mut v: Vec<u8> = Vec::new();
    push_value_mid(&mut v);
    proof {
        assert(v@ =~= value_mid());
    }
    v
}

/// Whether the bytes at `start` begin with the given literal.
fn match_lit_at(b: &[u8], start: usize, p: &Vec<u8>) -> (r: bool)
    requires
        start <= b@.len(),
    ensures
        r == p@.is_prefix_of(b@.skip(start as int)),
{
    if b.len() - start < p.len() {
        proof {
            assert(b@.skip(start as int).len() < p@.len());
        }
        return false;
    }
    let mut i: usize = 0;
    while i < p.len()
        invariant
            0 <= i <= p@.len(),
            b@.len() <= usize::MAX,
            start <= b@.len(),
            p@.len() <= b@.len() - start,
            forall|j: int| 0 <= j < i ==> p@[j] == b@[start as int + j],
        decreases p@.len() - i,
    {
        proof {
            assert(start + i < b@.len());
        }
        if b[start + i] != p[i] {
            proof {
                let t = b@.skip(start as int);
                if p@.is_prefix_of(t) {
                    assert(p@[i as int] == t.subrange(0, p@.len() as int)[i as int]);
                    assert(t[i as int] == b@[start as int + i]);
                    assert(false);
                }
            }
            return false;
        }
        i = i + 1;
    }
    proof {
        let t = b@.skip(start as int);
        assert forall|j: int| 0 <= j < p@.len() implies p@[j] == #[trigger] t.subrange(
            0,
            p@.len() as int,
        )[j] by {
            assert(t[j] == b@[start as int + j]);
        }
        assert(p@ =~= t.subrange(0, p@.len() as int));
    }
    true
}

/// Relies on `String::from_utf8`: it returns the string whose UTF-8 encoding
/// is the given bytes, and rejects bytes that are not valid UTF-8.
#[verifier::external_body]
fn string_from_utf8(bytes: Vec<u8>) -> (r: Option<String>)
    ensures
        r is Some <==> valid_utf8(bytes@),
        r is Some ==> encode_utf8(r.unwrap()@) == bytes@,
{
    String::from_utf8(bytes).ok()
}

/// Read a quoted field out of the bytes at `start`: the unescaped content
/// and the position right after the closing quote.
fn unescape_field(b: &[u8], start: usize) -> (r: Option<(Vec<u8>, usize)>)
    requires
        start <= b@.len(),
    ensures
        match r {
            Some(p) => {
                &&& unesc_prefix(b@.skip(start as int)) is Some
                &&& p.0@ == unesc_prefix(b@.skip(start as int)).unwrap().0
                &&& p.1 <= b@.len()
                &&& b@.skip(p.1 as int) == unesc_prefix(b@.skip(start as int)).unwrap().1
            },
            None => unesc_prefix(b@.skip(start as int)) is None,
        },
{
    proof {
        vstd::slice::axiom_spec_len(b);
    }
    let mut i: usize = start;
    let mut out: Vec<u8> = Vec::new();
    loop
        invariant
            b@.len() <= usize::MAX,
            start <= i <= b@.len(),
            unesc_prefix(b@.skip(start as int)) is Some <==> unesc_prefix(b@.skip(i as int))
                is Some,
            unesc_prefix(b@.skip(i as int)) is Some ==> {
                &&& unesc_prefix(b@.skip(start as int)).unwrap().0 == out@ + unesc_prefix(
                    b@.skip(i as int),
                ).unwrap().0
                &&& unesc_prefix(b@.skip(start as int)).unwrap().1 == unesc_prefix(
                    b@.skip(i as int),
                ).unwrap().1
            },
        decreases b@.len() - i,
    {
        if i >= b.len() {
            proof {
                assert(b@.skip(i as int) =~= Seq::<u8>::empty());
            }
            return None;
        }
        let c = b[i];
        proof {
            assert(b@.skip(i as int).len() == b@.len() - i);
            assert(b@.skip(i as int)[0] == b@[i as int]);
        }
        if c == QUOTE {
            proof {
                assert(b@.skip(i as int).skip(1) =~= b@.skip(i as int + 1));
                assert(out@ + Seq::<u8>::empty() =~= out@);
            }
            return Some((out, i + 1));
        } else if c == BSLASH {
            if i + 1 >= b.len() {
                proof {
                    assert(b@.skip(i as int).len() < 2);
                }
                return None;
            }
            let d = b[i + 1];
            proof {
                assert(b@.skip(i as int)[1] == b@[i as int + 1]);
            }
            if d == QUOTE || d == BSLASH || d == ESC_N {
                let u = if d == ESC_N {
                    DELIM
                } else {
                    d
                };
                let ghost out0 = out@;
                out.push(u);
                proof {
                    assert(b@.skip(i as int).skip(2) =~= b@.skip(i as int + 2));
                    assert(u == unesc_byte(b@.skip(i as int)[1]));
                    if unesc_prefix(b@.skip(i as int + 2)) is Some {
                        let q0 = unesc_prefix(b@.skip(i as int + 2)).unwrap().0;
                        assert(unesc_prefix(b@.skip(i as int)).unwrap().0 == seq![u] + q0);
                        assert(out0 + (seq![u] + q0) =~= (out0 + seq![u]) + q0);
                        assert(out@ =~= out0 + seq![u]);
                    }
                }
                i = i + 2;
            } else {
                return None;
            }
        } else {
            let ghost out0 = out@;
            out.push(c);
            proof {
                assert(b@.skip(i as int).skip(1) =~= b@.skip(i as int + 1));
                if unesc_prefix(b@.skip(i as int + 1)) is Some {
                    let q0 = unesc_prefix(b@.skip(i as int + 1)).unwrap().0;
                    assert(unesc_prefix(b@.skip(i as int)).unwrap().0 == seq![c] + q0);
                    assert(out0 + (seq![c] + q0) =~= (out0 + seq![c]) + q0);
                    assert(out@ =~= out0 + seq![c]);
                }
            }
            i = i + 1;
        }
    }
}

/// Decode a command from its encoded bytes; `None` on anything else.
pub fn parse_command(b: &[u8]) -> (r: Option<Command>)
    ensures
        match spec_parse_command(b@) {
            Some(c) => r is Some && r.unwrap()@ == c,
            None => r is None,
        },
{
    proof {
        vstd::slice::axiom_spec_len(b);
        assert(b@.skip(0) =~= b@);
    }
    let so = set_open_vec();
    if match_lit_at(b, 0, &so) {
        match unescape_field(b, so.len()) {
            None => None,
            Some((kbytes, kpos)) => {
                let vm = value_mid_vec();
                proof {
                    assert(b@.skip(kpos as int) == unesc_prefix(
                        b@.skip(set_open().len() as int),
                    ).unwrap().1);
                }
                if !match_lit_at(b, kpos, &vm) {
                    return None;
                }
                proof {
                    assert(kpos + 10 <= b@.len());
                    assert(b@.skip(kpos as int).skip(value_mid().len() as int) =~= b@.skip(
                        kpos as int + 10,
                    ));
                }
                let vstart = kpos + vm.len();
                match unescape_field(b, vstart) {
                    None => None,
                    Some((vbytes, vpos)) => {
                        if b.len() - vpos == 2 {
                            let x = b[vpos];
                            let y = b[vpos + 1];
                            proof {
                                assert(b@.skip(vpos as int)[0] == b@[vpos as int]);
                                assert(b@.skip(vpos as int)[1] == b@[vpos as int + 1]);
                            }
                            if x == 125 && y == 125 {
                                proof {
                                    assert(b@.skip(vpos as int) =~= obj_end());
                                }
                                match string_from_utf8(kbytes) {
                                    None => None,
                                    Some(kstr) => {
                                        match string_from_utf8(vbytes) {
                                            None => None,
                                            Some(vstr) => {
                                                proof {
                                                    encode_utf8_decode_utf8(kstr@);
                                                    encode_utf8_decode_utf8(vstr@);
                                                }
                                                Some(Command::Put { key: kstr, value: vstr })
                                            },
                                        }
                                    },
                                }
                            } else {
                                proof {
                                    if b@.skip(vpos as int) == obj_end() {
                                        assert(b@.skip(vpos as int)[0] == 125);
                                        assert(b@.skip(vpos as int)[1] == 125);
                                        assert(false);
                                    }
                                }
                                None
                            }
                        } else {
                            proof {
                                assert(b@.skip(vpos as int).len() == b@.len() - vpos);
                                if b@.skip(vpos as int) == obj_end() {
                                    assert(false);
                                }
                            }
                            None
                        }
                    },
                }
            },
        }
    } else {
        let ro = rm_open_vec();
        let go = get_open_vec();
        let is_rm = match_lit_at(b, 0, &ro);
        let is_get = if is_rm {
            false
        } else {
            match_lit_at(b, 0, &go)
        };
        if is_rm || is_get {
            let open_len = if is_rm {
                ro.len()
            } else {
                go.len()
            };
            match unescape_field(b, open_len) {
                None => None,
                Some((kbytes, kpos)) => {
                    if b.len() - kpos == 2 {
                        let x = b[kpos];
                        let y = b[kpos + 1];
                        proof {
                            assert(b@.skip(kpos as int)[0] == b@[kpos as int]);
                            assert(b@.skip(kpos as int)[1] == b@[kpos as int + 1]);
                        }
                        if x == 125 && y == 125 {
                            proof {
                                assert(b@.skip(kpos as int) =~= obj_end());
                            }
                            match string_from_utf8(kbytes) {
                                None => None,
                                Some(kstr) => {
                                    proof {
                                        encode_utf8_decode_utf8(kstr@);
                                    }
                                    if is_rm {
                                        Some(Command::Rm { key: kstr })
                                    } else {
                                        Some(Command::Get { key: kstr })
                                    }
                                },
                            }
                        } else {
                            proof {
                                if b@.skip(kpos as int) == obj_end() {
                                    assert(b@.skip(kpos as int)[0] == 125);
                                    assert(b@.skip(kpos as int)[1] == 125);
                                    assert(false);
                                }
                            }
                            None
                        }
                    } else {
                        proof {
                            assert(b@.skip(kpos as int).len() == b@.len() - kpos);
                            if b@.skip(kpos as int) == obj_end() {
                                assert(false);
                            }
                        }
                        None
                    }
                },
            }
        } else {
            None
        }
    }
}

} // verus!
