//! The printer: canonical text for any well-formed value.
//!
//! The rendering is specified character by character (`text_of`) and the
//! executable printer is proved to produce exactly that sequence. Maps
//! print their entries in insertion order, sets in their stored sorted
//! order, and the two built-in tagged forms delegate their payload text
//! to the same outside calls the parser trusts.

use vstd::prelude::*;
use crate::float::FloatValue;
use crate::text::dec_digits;
use crate::text::int_digits;
use crate::text::u64_to_digits;
use crate::text::i64_to_digits;
use crate::text::str_chars;
use crate::text::string_of_chars;
use crate::value::Value;
use crate::value::ValueMap;
use crate::value::Key;
use crate::value::ValueModel;
use crate::value::KeyModel;
use crate::value::model_shape;
use crate::value::key_shape;
use crate::value::shapes_all;
use crate::value::entries_shape;
use crate::value::seq_model;
use crate::value::entries_model;
use crate::value::map_model;
use crate::symbol::SymbolStore;

verus! {

/// The escape the printer emits for one string character.
pub open spec fn escape_char_text(c: char) -> Seq<char> {
    if c == '"' {
        seq!['\\', '"']
    } else if c == '\\' {
        seq!['\\', '\\']
    } else if c == '\n' {
        seq!['\\', 'n']
    } else if c == '\t' {
        seq!['\\', 't']
    } else if c == '\r' {
        seq!['\\', 'r']
    } else if c == '\u{0C}' {
        seq!['\\', 'f']
    } else if c == '\u{08}' {
        seq!['\\', 'b']
    } else {
        seq![c]
    }
}

/// The escaped body of a string literal.
pub open spec fn string_text(s: Seq<char>) -> Seq<char>
    decreases s.len(),
{
    if s.len() == 0 {
        Seq::empty()
    } else {
        escape_char_text(s[0]) + string_text(s.drop_first())
    }
}

/// The name a character literal prints as.
pub open spec fn charname_text(c: char) -> Seq<char> {
    if c == '\n' {
        seq!['n', 'e', 'w', 'l', 'i', 'n', 'e']
    } else if c == '\r' {
        seq!['r', 'e', 't', 'u', 'r', 'n']
    } else if c == ' ' {
        seq!['s', 'p', 'a', 'c', 'e']
    } else if c == '\t' {
        seq!['t', 'a', 'b']
    } else {
        seq![c]
    }
}

/// A run of zero digits.
pub open spec fn zeros(k: int) -> Seq<char>
    decreases k,
{
    if k <= 0 {
        Seq::empty()
    } else {
        seq!['0'] + zeros(k - 1)
    }
}

/// The canonical text of a float: plain decimal notation close to the
/// point, scientific notation further out, always with a fraction or an
/// exponent so the token reads back as a float.
pub open spec fn float_text(f: FloatValue) -> Seq<char> {
    if f.mantissa == 0 {
        seq!['0', '.', '0']
    } else {
        let digits = dec_digits(f.mantissa as nat);
        let n = digits.len() as int;
        let body = if 0 <= f.exponent <= 2 {
            digits + zeros(f.exponent as int) + seq!['.', '0']
        } else if -n < f.exponent < 0 {
            digits.take(n + f.exponent) + seq!['.'] + digits.skip(n + f.exponent)
        } else if -n - 3 < f.exponent <= -n {
            seq!['0', '.'] + zeros(-(f.exponent + n)) + digits
        } else {
            digits.take(1) + (if n > 1 {
                seq!['.'] + digits.skip(1)
            } else {
                Seq::empty()
            }) + seq!['E'] + int_digits(f.exponent + n - 1)
        };
        if f.negative {
            seq!['-'] + body
        } else {
            body
        }
    }
}

/// The text of a map key.
pub open spec fn key_text(k: KeyModel, tab: Seq<Seq<char>>) -> Seq<char> {
    match k {
        KeyModel::Keyword(id) => seq![':'] + tab[id],
        KeyModel::String(s) => seq!['"'] + string_text(s) + seq!['"'],
        KeyModel::Symbol(id) => tab[id],
        KeyModel::Integer(i) => int_digits(i),
        KeyModel::Boolean(b) => if b {
            seq!['t', 'r', 'u', 'e']
        } else {
            seq!['f', 'a', 'l', 's', 'e']
        },
        KeyModel::Character(c) => seq!['\\'] + charname_text(c),
        KeyModel::Uuid(u) => seq!['#', 'u', 'u', 'i', 'd', ' ', '"'] + crate::foreign::uuid_text_of(
            u as u128,
        ) + seq!['"'],
    }
}

/// The canonical text of a value.
pub open spec fn text_of(m: ValueModel, tab: Seq<Seq<char>>) -> Seq<char>
    decreases m,
{
    match m {
        ValueModel::Nil => seq!['n', 'i', 'l'],
        ValueModel::Boolean(b) => if b {
            seq!['t', 'r', 'u', 'e']
        } else {
            seq!['f', 'a', 'l', 's', 'e']
        },
        ValueModel::Integer(i) => int_digits(i),
        ValueModel::Float(f) => float_text(f),
        ValueModel::String(s) => seq!['"'] + string_text(s) + seq!['"'],
        ValueModel::Symbol(id) => tab[id],
        ValueModel::Keyword(id) => seq![':'] + tab[id],
        ValueModel::Vector(vs) => seq!['['] + join_texts(vs, tab) + seq![']'],
        ValueModel::List(vs) => seq!['('] + join_texts(vs, tab) + seq![')'],
        ValueModel::SetOf(vs) => seq!['#', '{'] + join_texts(vs, tab) + seq!['}'],
        ValueModel::MapOf(es) => seq!['{'] + join_entries(es, tab) + seq!['}'],
        ValueModel::Instant(ms) => seq!['#', 'i', 'n', 's', 't', ' ', '"']
            + crate::foreign::rfc3339_text_of(ms as i64) + seq!['"'],
        ValueModel::Uuid(u) => seq!['#', 'u', 'u', 'i', 'd', ' ', '"']
            + crate::foreign::uuid_text_of(u as u128) + seq!['"'],
        ValueModel::Character(c) => seq!['\\'] + charname_text(c),
        ValueModel::Tagged(t, v) => seq!['#'] + tab[t] + seq![' '] + text_of(*v, tab),
    }
}

/// Element texts joined by single blanks.
pub open spec fn join_texts(vs: Seq<ValueModel>, tab: Seq<Seq<char>>) -> Seq<char>
    decreases vs,
{
    if vs.len() == 0 {
        Seq::empty()
    } else if vs.len() == 1 {
        text_of(vs[0], tab)
    } else {
        text_of(vs[0], tab) + seq![' '] + join_texts(vs.drop_first(), tab)
    }
}

/// Entry texts (`key value`) joined by comma-blank.
pub open spec fn join_entries(es: Seq<(KeyModel, ValueModel)>, tab: Seq<Seq<char>>) -> Seq<char>
    decreases es,
{
    if es.len() == 0 {
        Seq::empty()
    } else if es.len() == 1 {
        key_text(es[0].0, tab) + seq![' '] + text_of(es[0].1, tab)
    } else {
        key_text(es[0].0, tab) + seq![' '] + text_of(es[0].1, tab) + seq![',', ' ']
            + join_entries(es.drop_first(), tab)
    }
}

/// Appends the characters of `s` to `out`.
fn push_str_chars(out: &mut Vec<char>, s: &str)
    ensures
        final(out)@ == old(out)@ + s@,
{
    let mut cv = str_chars(s);
    out.append(&mut cv);
}

/// Appends a run of zero digits.
fn push_zeros(out: &mut Vec<char>, k: u64)
    ensures
        final(out)@ == old(out)@ + zeros(k as int),
    decreases k,
{
    if k == 0 {
        proof {
            assert(old(out)@ + zeros(0) =~= old(out)@);
        }
    } else {
        out.push('0');
        proof {
            assert(out@ =~= old(out)@ + seq!['0']);
        }
        push_zeros(out, k - 1);
        proof {
            assert((old(out)@ + seq!['0']) + zeros(k as int - 1) =~= old(out)@ + (seq!['0']
                + zeros(k as int - 1)));
        }
    }
}

/// Appends the escaped body of a string, from position `i`.
fn push_string_body(out: &mut Vec<char>, s: &Vec<char>, i: usize)
    requires
        i <= s@.len(),
    ensures
        final(out)@ == old(out)@ + string_text(s@.skip(i as int)),
    decreases s@.len() - i,
{
    if i == s.len() {
        proof {
            assert(s@.skip(i as int) =~= Seq::<char>::empty());
            assert(old(out)@ + string_text(Seq::empty()) =~= old(out)@);
        }
        return;
    }
    let c = s[i];
    let ghost rest = s@.skip(i as int);
    proof {
        assert(rest[0] == s@[i as int]);
        assert(rest.drop_first() =~= s@.skip(i + 1));
    }
    if c == '"' {
        out.push('\\');
        out.push('"');
    } else if c == '\\' {
        out.push('\\');
        out.push('\\');
    } else if c == '\n' {
        out.push('\\');
        out.push('n');
    } else if c == '\t' {
        out.push('\\');
        out.push('t');
    } else if c == '\r' {
        out.push('\\');
        out.push('r');
    } else if c == '\u{0C}' {
        out.push('\\');
        out.push('f');
    } else if c == '\u{08}' {
        out.push('\\');
        out.push('b');
    } else {
        out.push(c);
    }
    proof {
        assert(out@ =~= old(out)@ + escape_char_text(s@[i as int]));
    }
    push_string_body(out, s, i + 1);
    proof {
        assert((old(out)@ + escape_char_text(s@[i as int])) + string_text(s@.skip(i + 1))
            =~= old(out)@ + (escape_char_text(s@[i as int]) + string_text(s@.skip(i + 1))));
    }
}

/// The printed name of one character: the named forms for the four
/// whitespace-like characters, the character itself otherwise.
pub fn escape_character(c: char) -> (r: String)
    ensures
        r@ == charname_text(c),
{
    let mut out: Vec<char> = Vec::new();
    push_charname(&mut out, c);
    proof {
        assert(out@ =~= charname_text(c));
    }
    string_of_chars(&out)
}

/// Appends a character literal's name.
fn push_charname(out: &mut Vec<char>, c: char)
    ensures
        final(out)@ == old(out)@ + charname_text(c),
{
    if c == '\n' {
        push_str_chars(out, "newline");
        proof {
            reveal_strlit("newline");
            assert("newline"@ =~= seq!['n', 'e', 'w', 'l', 'i', 'n', 'e']);
        }
    } else if c == '\r' {
        push_str_chars(out, "return");
        proof {
            reveal_strlit("return");
            assert("return"@ =~= seq!['r', 'e', 't', 'u', 'r', 'n']);
        }
    } else if c == ' ' {
        push_str_chars(out, "space");
        proof {
            reveal_strlit("space");
            assert("space"@ =~= seq!['s', 'p', 'a', 'c', 'e']);
        }
    } else if c == '\t' {
        push_str_chars(out, "tab");
        proof {
            reveal_strlit("tab");
            assert("tab"@ =~= seq!['t', 'a', 'b']);
        }
    } else {
        out.push(c);
        proof {
            assert(out@ =~= old(out)@ + seq![c]);
        }
    }
}

/// Appends the canonical text of a float.
#[verifier::spinoff_prover]
#[verifier::rlimit(100)]
fn push_float(out: &mut Vec<char>, f: &FloatValue)
    requires
        crate::float::float_normal(*f),
    ensures
        final(out)@ == old(out)@ + float_text(*f),
{
    if f.mantissa == 0 {
        out.push('0');
        out.push('.');
        out.push('0');
        proof {
            assert(out@ =~= old(out)@ + float_text(*f));
        }
        return;
    }
    let ghost start0 = out@;
    if f.negative {
        out.push('-');
    }
    let ghost start = out@;
    let digits = u64_to_digits(f.mantissa);
    let n: i64 = digits.len() as i64;
    proof {
        crate::float::lemma_n_digits_u64(f.mantissa);
        crate::text::lemma_dec_digits_shape(f.mantissa as nat);
        crate::text::lemma_dec_digits_len(f.mantissa as nat);
        assert(digits@.len() == dec_digits(f.mantissa as nat).len());
        assert(1 <= n <= 20);
    }
    let ghost dg = dec_digits(f.mantissa as nat);
    let e: i64 = f.exponent;
    if 0 <= e && e <= 2 {
        let mut dv = digits;
        out.append(&mut dv);
        push_zeros(out, e as u64);
        out.push('.');
        out.push('0');
        proof {
            assert(out@ =~= start + (dg + zeros(e as int) + seq!['.', '0']));
        }
    } else if -n < e && e < 0 {
        let cut: usize = (n + e) as usize;
        let mut k: usize = 0;
        while k < cut
            invariant
                cut <= digits@.len(),
                k <= cut,
                out@ =~= start + dg.take(k as int),
                dg == digits@,
            decreases cut - k,
        {
            out.push(digits[k]);
            proof {
                assert(out@ =~= start + dg.take(k + 1));
            }
            k = k + 1;
        }
        out.push('.');
        let mut k2: usize = cut;
        let ghost mid = start + dg.take(cut as int) + seq!['.'];
        proof {
            assert(out@ =~= mid + dg.skip(cut as int).take(0));
        }
        while k2 < digits.len()
            invariant
                cut <= k2 <= digits@.len(),
                out@ =~= mid + dg.skip(cut as int).take(k2 - cut),
                dg == digits@,
            decreases digits@.len() - k2,
        {
            out.push(digits[k2]);
            proof {
                assert(dg.skip(cut as int).take(k2 + 1 - cut) =~= dg.skip(cut as int).take(
                    k2 - cut,
                ).push(dg[k2 as int]));
                assert(out@ =~= mid + dg.skip(cut as int).take(k2 + 1 - cut));
            }
            k2 = k2 + 1;
        }
        proof {
            assert(dg.skip(cut as int).take((digits@.len() - cut) as int) =~= dg.skip(
                cut as int,
            ));
            assert(out@ =~= start + (dg.take(cut as int) + seq!['.'] + dg.skip(cut as int)));
        }
    } else if -n - 3 < e && e <= -n {
        out.push('0');
        out.push('.');
        proof {
            assert(out@ =~= start + seq!['0', '.']);
        }
        push_zeros(out, (-(e + n)) as u64);
        let mut dv = digits;
        out.append(&mut dv);
        proof {
            assert(out@ =~= start + (seq!['0', '.'] + zeros(-(e as int + n as int)) + dg));
        }
    } else {
        out.push(digits[0]);
        proof {
            assert(out@ =~= start + dg.take(1));
        }
        if digits.len() > 1 {
            out.push('.');
            let ghost mid = start + dg.take(1) + seq!['.'];
            proof {
                assert(out@ =~= mid + dg.skip(1).take(0));
            }
            let mut k3: usize = 1;
            while k3 < digits.len()
                invariant
                    1 <= k3 <= digits@.len(),
                    out@ =~= mid + dg.skip(1).take(k3 - 1),
                    dg == digits@,
                decreases digits@.len() - k3,
            {
                out.push(digits[k3]);
                proof {
                    assert(dg.skip(1).take(k3 as int) =~= dg.skip(1).take(k3 - 1).push(
                        dg[k3 as int],
                    ));
                }
                k3 = k3 + 1;
            }
            proof {
                assert(dg.skip(1).take((digits@.len() - 1) as int) =~= dg.skip(1));
            }
        }
        out.push('E');
        let exp_digits = i64_to_digits(e + n - 1);
        let mut ev = exp_digits;
        out.append(&mut ev);
        proof {
            if dg.len() > 1 {
                assert(out@ =~= start + (dg.take(1) + (seq!['.'] + dg.skip(1)) + seq!['E']
                    + int_digits(e as int + n as int - 1)));
            } else {
                assert(out@ =~= start + (dg.take(1) + Seq::<char>::empty() + seq!['E']
                    + int_digits(e as int + n as int - 1)));
            }
        }
    }
    proof {
        if f.negative {
            assert(start =~= start0 + seq!['-']);
            assert(out@ =~= start0 + float_text(*f));
        } else {
            assert(out@ =~= start0 + float_text(*f));
        }
    }
}

/// Appends the canonical text of a value.
#[verifier::spinoff_prover]
#[verifier::rlimit(100)]
fn write_value(out: &mut Vec<char>, v: &Value, store: &SymbolStore)
    requires
        model_shape(v@, store.names()),
    ensures
        final(out)@ == old(out)@ + text_of(v@, store.names()),
    decreases *v, 1int,
{
    let ghost tab = store.names();
    let ghost start = out@;
    match v {
        Value::Nil => {
            push_str_chars(out, "nil");
            proof {
                reveal_strlit("nil");
                assert("nil"@ =~= seq!['n', 'i', 'l']);
            }
        },
        Value::Boolean(b) => {
            if *b {
                push_str_chars(out, "true");
                proof {
                    reveal_strlit("true");
                    assert("true"@ =~= seq!['t', 'r', 'u', 'e']);
                }
            } else {
                push_str_chars(out, "false");
                proof {
                    reveal_strlit("false");
                    assert("false"@ =~= seq!['f', 'a', 'l', 's', 'e']);
                }
            }
        },
        Value::Integer(i) => {
            let mut dv = i64_to_digits(*i);
            out.append(&mut dv);
        },
        Value::Float(f) => {
            push_float(out, f);
        },
        Value::String(s) => {
            out.push('"');
            let sv = str_chars(s.as_str());
            proof {
                assert(sv@.skip(0) =~= s@);
            }
            push_string_body(out, &sv, 0);
            out.push('"');
            proof {
                assert(out@ =~= start + (seq!['"'] + string_text(s@) + seq!['"']));
            }
        },
        Value::Symbol(sym) => {
            push_str_chars(out, sym.as_str(store));
        },
        Value::Keyword(sym) => {
            out.push(':');
            push_str_chars(out, sym.as_str(store));
            proof {
                assert(out@ =~= start + (seq![':'] + tab[sym.id as int]));
            }
        },
        Value::Vector(vs) => {
            proof {
                assert(v@ == ValueModel::Vector(seq_model(vs@)));
                assert(seq_model(vs@).skip(0) =~= seq_model(vs@));
            }
            out.push('[');
            write_elems(out, vs, 0, store);
            out.push(']');
            proof {
                assert(out@ =~= start + (seq!['['] + join_texts(seq_model(vs@), tab) + seq![
                    ']',
                ]));
            }
        },
        Value::List(vs) => {
            proof {
                assert(v@ == ValueModel::List(seq_model(vs@)));
                assert(seq_model(vs@).skip(0) =~= seq_model(vs@));
            }
            out.push('(');
            write_elems(out, vs, 0, store);
            out.push(')');
            proof {
                assert(out@ =~= start + (seq!['('] + join_texts(seq_model(vs@), tab) + seq![
                    ')',
                ]));
            }
        },
        Value::SetOf(vs) => {
            proof {
                assert(v@ == ValueModel::SetOf(seq_model(vs@)));
                assert(seq_model(vs@).skip(0) =~= seq_model(vs@));
            }
            out.push('#');
            out.push('{');
            write_elems(out, vs, 0, store);
            out.push('}');
            proof {
                assert(out@ =~= start + (seq!['#', '{'] + join_texts(seq_model(vs@), tab)
                    + seq!['}']));
            }
        },
        Value::MapOf(m) => {
            proof {
                assert(v@ == ValueModel::MapOf(map_model(*m)));
                assert(map_model(*m) == entries_model(m.entries@));
                assert(entries_model(m.entries@).skip(0) =~= entries_model(m.entries@));
            }
            out.push('{');
            write_entries(out, &m.entries, 0, store);
            out.push('}');
            proof {
                assert(out@ =~= start + (seq!['{'] + join_entries(map_model(*m), tab) + seq![
                    '}',
                ]));
            }
        },
        Value::Instant(t) => {
            out.push('#');
            push_str_chars(out, "inst");
            out.push(' ');
            out.push('"');
            let txt = crate::foreign::instant_to_text(t.millis);
            push_str_chars(out, txt.as_str());
            out.push('"');
            proof {
                reveal_strlit("inst");
                assert("inst"@ =~= seq!['i', 'n', 's', 't']);
                assert(out@ =~= start + (seq!['#', 'i', 'n', 's', 't', ' ', '"']
                    + crate::foreign::rfc3339_text_of(t.millis) + seq!['"']));
            }
        },
        Value::Uuid(u) => {
            out.push('#');
            push_str_chars(out, "uuid");
            out.push(' ');
            out.push('"');
            let txt = crate::foreign::uuid_to_text(u.bits);
            push_str_chars(out, txt.as_str());
            out.push('"');
            proof {
                reveal_strlit("uuid");
                assert("uuid"@ =~= seq!['u', 'u', 'i', 'd']);
                assert(out@ =~= start + (seq!['#', 'u', 'u', 'i', 'd', ' ', '"']
                    + crate::foreign::uuid_text_of(u.bits) + seq!['"']));
            }
        },
        Value::Character(c) => {
            out.push('\\');
            push_charname(out, *c);
            proof {
                assert(out@ =~= start + (seq!['\\'] + charname_text(*c)));
            }
        },
        Value::Tagged(t, inner) => {
            out.push('#');
            push_str_chars(out, t.as_str(store));
            out.push(' ');
            write_value(out, &**inner, store);
            proof {
                assert(out@ =~= start + (seq!['#'] + tab[t.id as int] + seq![' '] + text_of(
                    crate::value::value_model(**inner),
                    tab,
                )));
            }
        },
    }
}

/// Appends the texts of the elements from `i` on, blank separated.
#[verifier::spinoff_prover]
#[verifier::rlimit(100)]
fn write_elems(out: &mut Vec<char>, vs: &Vec<Value>, i: usize, store: &SymbolStore)
    requires
        i <= vs@.len(),
        shapes_all(seq_model(vs@), store.names()),
    ensures
        final(out)@ == old(out)@ + join_texts(seq_model(vs@).skip(i as int), store.names()),
    decreases *vs, 2int, vs@.len() - i,
{
    let ghost tab = store.names();
    let ghost sm = seq_model(vs@).skip(i as int);
    proof {
        crate::value::lemma_seq_model(vs@);
        crate::value::lemma_shapes_all(seq_model(vs@), tab);
    }
    if i == vs.len() {
        proof {
            assert(sm =~= Seq::<ValueModel>::empty());
            assert(old(out)@ + join_texts(sm, tab) =~= old(out)@);
        }
        return;
    }
    proof {
        assert(sm[0] == seq_model(vs@)[i as int]);
        assert(seq_model(vs@)[i as int] == crate::value::value_model(vs@[i as int]));
    }
    write_value(out, &vs[i], store);
    if i + 1 == vs.len() {
        proof {
            assert(sm.len() == 1);
            assert(join_texts(sm, tab) == text_of(sm[0], tab));
        }
        return;
    }
    out.push(' ');
    let ghost mid = out@;
    write_elems(out, vs, i + 1, store);
    proof {
        assert(sm.drop_first() =~= seq_model(vs@).skip(i + 1));
        assert(out@ =~= old(out)@ + (text_of(sm[0], tab) + seq![' '] + join_texts(
            sm.drop_first(),
            tab,
        )));
    }
}

/// Appends the texts of the entries from `i` on, comma separated.
#[verifier::spinoff_prover]
#[verifier::rlimit(100)]
fn write_entries(out: &mut Vec<char>, es: &Vec<(Key, Value)>, i: usize, store: &SymbolStore)
    requires
        i <= es@.len(),
        entries_shape(entries_model(es@), store.names()),
    ensures
        final(out)@ == old(out)@ + join_entries(
            entries_model(es@).skip(i as int),
            store.names(),
        ),
    decreases *es, 2int, es@.len() - i,
{
    let ghost tab = store.names();
    let ghost em = entries_model(es@).skip(i as int);
    proof {
        crate::value::lemma_entries_model(es@);
        crate::value::lemma_entries_shape(entries_model(es@), tab);
    }
    if i == es.len() {
        proof {
            assert(em =~= Seq::<(KeyModel, ValueModel)>::empty());
            assert(old(out)@ + join_entries(em, tab) =~= old(out)@);
        }
        return;
    }
    proof {
        assert(em[0] == entries_model(es@)[i as int]);
        assert(entries_model(es@)[i as int] == (
            crate::value::key_model(es@[i as int].0),
            crate::value::value_model(es@[i as int].1),
        ));
        assert(key_shape(entries_model(es@)[i as int].0, tab));
        assert(model_shape(entries_model(es@)[i as int].1, tab));
    }
    write_key(out, &es[i].0, store);
    out.push(' ');
    write_value(out, &es[i].1, store);
    let ghost one = key_text(em[0].0, tab) + seq![' '] + text_of(em[0].1, tab);
    proof {
        assert(out@ =~= old(out)@ + one);
    }
    if i + 1 == es.len() {
        proof {
            assert(em.len() == 1);
        }
        return;
    }
    out.push(',');
    out.push(' ');
    write_entries(out, es, i + 1, store);
    proof {
        assert(em.drop_first() =~= entries_model(es@).skip(i + 1));
        assert(out@ =~= old(out)@ + (one + seq![',', ' '] + join_entries(
            em.drop_first(),
            tab,
        )));
    }
}

/// Appends the text of a map key.
#[verifier::spinoff_prover]
#[verifier::rlimit(100)]
fn write_key(out: &mut Vec<char>, k: &Key, store: &SymbolStore)
    requires
        key_shape(k@, store.names()),
    ensures
        final(out)@ == old(out)@ + key_text(k@, store.names()),
{
    let ghost tab = store.names();
    let ghost start = out@;
    match k {
        Key::Keyword(sym) => {
            out.push(':');
            push_str_chars(out, sym.as_str(store));
            proof {
                assert(out@ =~= start + (seq![':'] + tab[sym.id as int]));
            }
        },
        Key::String(s) => {
            out.push('"');
            let sv = str_chars(s.as_str());
            proof {
                assert(sv@.skip(0) =~= s@);
            }
            push_string_body(out, &sv, 0);
            out.push('"');
            proof {
                assert(out@ =~= start + (seq!['"'] + string_text(s@) + seq!['"']));
            }
        },
        Key::Symbol(sym) => {
            push_str_chars(out, sym.as_str(store));
        },
        Key::Integer(i) => {
            let mut dv = i64_to_digits(*i);
            out.append(&mut dv);
        },
        Key::Boolean(b) => {
            if *b {
                push_str_chars(out, "true");
                proof {
                    reveal_strlit("true");
                    assert("true"@ =~= seq!['t', 'r', 'u', 'e']);
                }
            } else {
                push_str_chars(out, "false");
                proof {
                    reveal_strlit("false");
                    assert("false"@ =~= seq!['f', 'a', 'l', 's', 'e']);
                }
            }
        },
        Key::Character(c) => {
            out.push('\\');
            push_charname(out, *c);
            proof {
                assert(out@ =~= start + (seq!['\\'] + charname_text(*c)));
            }
        },
        Key::Uuid(u) => {
            out.push('#');
            push_str_chars(out, "uuid");
            out.push(' ');
            out.push('"');
            let txt = crate::foreign::uuid_to_text(u.bits);
            push_str_chars(out, txt.as_str());
            out.push('"');
            proof {
                reveal_strlit("uuid");
                assert("uuid"@ =~= seq!['u', 'u', 'i', 'd']);
                assert(out@ =~= start + (seq!['#', 'u', 'u', 'i', 'd', ' ', '"']
                    + crate::foreign::uuid_text_of(u.bits) + seq!['"']));
            }
        },
    }
}

/// The canonical text of a well-formed value: what `parse_edn` undoes on
/// canonical forms.
pub fn to_text(v: &Value, store: &SymbolStore) -> (r: String)
    requires
        model_shape(v@, store.names()),
    ensures
        r@ == text_of(v@, store.names()),
{
    let mut out: Vec<char> = Vec::new();
    write_value(&mut out, v, store);
    proof {
        assert(out@ =~= text_of(v@, store.names()));
    }
    string_of_chars(&out)
}

/// One deeper indentation level, saturating far beyond any reachable
/// nesting depth so that indentation arithmetic stays total.
pub open spec fn bump(ind: int) -> int {
    if ind >= 0xffff_ffff {
        ind
    } else {
        ind + 1
    }
}

/// A run of blanks.
pub open spec fn blanks(k: int) -> Seq<char>
    decreases k,
{
    if k <= 0 {
        Seq::empty()
    } else {
        seq![' '] + blanks(k - 1)
    }
}

/// The pretty rendering: the same content as the compact text, with each
/// element of a composite form on its own line, indented two blanks per
/// nesting level; map keys stand on their own line with their value's
/// lines below, and a tagged form prints its payload compactly.
pub open spec fn pretty_text(m: ValueModel, tab: Seq<Seq<char>>, ind: int) -> Seq<char>
    decreases m,
{
    let pad = blanks(2 * ind);
    match m {
        ValueModel::Vector(vs) => pad + seq!['[', '\n'] + pretty_elems(vs, tab, bump(ind)) + pad
            + seq![']', '\n'],
        ValueModel::List(vs) => pad + seq!['(', '\n'] + pretty_elems(vs, tab, bump(ind)) + pad
            + seq![')', '\n'],
        ValueModel::SetOf(vs) => pad + seq!['#', '{', '\n'] + pretty_elems(vs, tab, bump(ind))
            + pad + seq!['}', '\n'],
        ValueModel::MapOf(es) => pad + seq!['{', '\n'] + pretty_entries(es, tab, ind) + pad
            + seq!['}', '\n'],
        _ => pad + text_of(m, tab) + seq!['\n'],
    }
}

/// The pretty lines of a run of elements.
pub open spec fn pretty_elems(vs: Seq<ValueModel>, tab: Seq<Seq<char>>, ind: int) -> Seq<char>
    decreases vs,
{
    if vs.len() == 0 {
        Seq::empty()
    } else {
        pretty_text(vs[0], tab, ind) + pretty_elems(vs.drop_first(), tab, ind)
    }
}

/// The pretty lines of a run of entries: the key on its own line, the
/// value's lines two levels deeper.
pub open spec fn pretty_entries(es: Seq<(KeyModel, ValueModel)>, tab: Seq<Seq<char>>, ind: int) -> Seq<char>
    decreases es,
{
    if es.len() == 0 {
        Seq::empty()
    } else {
        blanks(2 * ind + 2) + key_text(es[0].0, tab) + seq!['\n'] + pretty_text(
            es[0].1,
            tab,
            bump(bump(ind)),
        ) + pretty_entries(es.drop_first(), tab, ind)
    }
}

/// Appends a run of blanks.
fn push_blanks(out: &mut Vec<char>, k: u64)
    ensures
        final(out)@ == old(out)@ + blanks(k as int),
    decreases k,
{
    if k == 0 {
        proof {
            assert(old(out)@ + blanks(0) =~= old(out)@);
        }
    } else {
        out.push(' ');
        proof {
            assert(out@ =~= old(out)@ + seq![' ']);
        }
        push_blanks(out, k - 1);
        proof {
            assert((old(out)@ + seq![' ']) + blanks(k as int - 1) =~= old(out)@ + (seq![' ']
                + blanks(k as int - 1)));
        }
    }
}

/// Exec saturating indentation bump.
fn bump_exec(ind: u64) -> (r: u64)
    requires
        ind <= 0xffff_ffff,
    ensures
        r as int == bump(ind as int),
        r <= 0xffff_ffff,
{
    if ind >= 0xffff_ffff {
        ind
    } else {
        ind + 1
    }
}

/// Appends the pretty lines of a value.
#[verifier::spinoff_prover]
#[verifier::rlimit(100)]
fn write_pretty(out: &mut Vec<char>, v: &Value, store: &SymbolStore, ind: u64)
    requires
        model_shape(v@, store.names()),
        ind <= 0xffff_ffff,
    ensures
        final(out)@ == old(out)@ + pretty_text(v@, store.names(), ind as int),
    decreases *v, 1int,
{
    let ghost tab = store.names();
    let ghost start = out@;
    let pad: u64 = 2 * ind;
    match v {
        Value::Vector(vs) => {
            proof {
                assert(v@ == ValueModel::Vector(seq_model(vs@)));
                assert(seq_model(vs@).skip(0) =~= seq_model(vs@));
            }
            push_blanks(out, pad);
            out.push('[');
            out.push('\n');
            write_pretty_elems(out, vs, 0, store, bump_exec(ind));
            push_blanks(out, pad);
            out.push(']');
            out.push('\n');
            proof {
                assert(out@ =~= start + (blanks(2 * ind as int) + seq!['[', '\n']
                    + pretty_elems(seq_model(vs@), tab, bump(ind as int)) + blanks(
                    2 * ind as int,
                ) + seq![']', '\n']));
            }
        },
        Value::List(vs) => {
            proof {
                assert(v@ == ValueModel::List(seq_model(vs@)));
                assert(seq_model(vs@).skip(0) =~= seq_model(vs@));
            }
            push_blanks(out, pad);
            out.push('(');
            out.push('\n');
            write_pretty_elems(out, vs, 0, store, bump_exec(ind));
            push_blanks(out, pad);
            out.push(')');
            out.push('\n');
            proof {
                assert(out@ =~= start + (blanks(2 * ind as int) + seq!['(', '\n']
                    + pretty_elems(seq_model(vs@), tab, bump(ind as int)) + blanks(
                    2 * ind as int,
                ) + seq![')', '\n']));
            }
        },
        Value::SetOf(vs) => {
            proof {
                assert(v@ == ValueModel::SetOf(seq_model(vs@)));
                assert(seq_model(vs@).skip(0) =~= seq_model(vs@));
            }
            push_blanks(out, pad);
            out.push('#');
            out.push('{');
            out.push('\n');
            write_pretty_elems(out, vs, 0, store, bump_exec(ind));
            push_blanks(out, pad);
            out.push('}');
            out.push('\n');
            proof {
                assert(out@ =~= start + (blanks(2 * ind as int) + seq!['#', '{', '\n']
                    + pretty_elems(seq_model(vs@), tab, bump(ind as int)) + blanks(
                    2 * ind as int,
                ) + seq!['}', '\n']));
            }
        },
        Value::MapOf(m) => {
            proof {
                assert(v@ == ValueModel::MapOf(map_model(*m)));
                assert(map_model(*m) == entries_model(m.entries@));
                assert(entries_model(m.entries@).skip(0) =~= entries_model(m.entries@));
            }
            push_blanks(out, pad);
            out.push('{');
            out.push('\n');
            write_pretty_entries(out, &m.entries, 0, store, ind);
            push_blanks(out, pad);
            out.push('}');
            out.push('\n');
            proof {
                assert(out@ =~= start + (blanks(2 * ind as int) + seq!['{', '\n']
                    + pretty_entries(map_model(*m), tab, ind as int) + blanks(2 * ind as int)
                    + seq!['}', '\n']));
            }
        },
        other => {
            push_blanks(out, pad);
            write_value(out, other, store);
            out.push('\n');
            proof {
                assert(out@ =~= start + (blanks(2 * ind as int) + text_of(v@, tab) + seq![
                    '\n',
                ]));
            }
        },
    }
}

/// Appends the pretty lines of the elements from `i` on.
#[verifier::spinoff_prover]
#[verifier::rlimit(100)]
fn write_pretty_elems(out: &mut Vec<char>, vs: &Vec<Value>, i: usize, store: &SymbolStore, ind: u64)
    requires
        i <= vs@.len(),
        shapes_all(seq_model(vs@), store.names()),
        ind <= 0xffff_ffff,
    ensures
        final(out)@ == old(out)@ + pretty_elems(
            seq_model(vs@).skip(i as int),
            store.names(),
            ind as int,
        ),
    decreases *vs, 2int, vs@.len() - i,
{
    let ghost tab = store.names();
    let ghost sm = seq_model(vs@).skip(i as int);
    proof {
        crate::value::lemma_seq_model(vs@);
        crate::value::lemma_shapes_all(seq_model(vs@), tab);
    }
    if i == vs.len() {
        proof {
            assert(sm =~= Seq::<ValueModel>::empty());
            assert(old(out)@ + pretty_elems(sm, tab, ind as int) =~= old(out)@);
        }
        return;
    }
    proof {
        assert(sm[0] == seq_model(vs@)[i as int]);
        assert(seq_model(vs@)[i as int] == crate::value::value_model(vs@[i as int]));
    }
    write_pretty(out, &vs[i], store, ind);
    write_pretty_elems(out, vs, i + 1, store, ind);
    proof {
        assert(sm.drop_first() =~= seq_model(vs@).skip(i + 1));
        assert(out@ =~= old(out)@ + (pretty_text(sm[0], tab, ind as int) + pretty_elems(
            sm.drop_first(),
            tab,
            ind as int,
        )));
    }
}

/// Appends the pretty lines of the entries from `i` on.
#[verifier::spinoff_prover]
#[verifier::rlimit(100)]
fn write_pretty_entries(
    out: &mut Vec<char>,
    es: &Vec<(Key, Value)>,
    i: usize,
    store: &SymbolStore,
    ind: u64,
)
    requires
        i <= es@.len(),
        entries_shape(entries_model(es@), store.names()),
        ind <= 0xffff_ffff,
    ensures
        final(out)@ == old(out)@ + pretty_entries(
            entries_model(es@).skip(i as int),
            store.names(),
            ind as int,
        ),
    decreases *es, 2int, es@.len() - i,
{
    let ghost tab = store.names();
    let ghost em = entries_model(es@).skip(i as int);
    proof {
        crate::value::lemma_entries_model(es@);
        crate::value::lemma_entries_shape(entries_model(es@), tab);
    }
    if i == es.len() {
        proof {
            assert(em =~= Seq::<(KeyModel, ValueModel)>::empty());
            assert(old(out)@ + pretty_entries(em, tab, ind as int) =~= old(out)@);
        }
        return;
    }
    proof {
        assert(em[0] == entries_model(es@)[i as int]);
        assert(entries_model(es@)[i as int] == (
            crate::value::key_model(es@[i as int].0),
            crate::value::value_model(es@[i as int].1),
        ));
        assert(key_shape(entries_model(es@)[i as int].0, tab));
        assert(model_shape(entries_model(es@)[i as int].1, tab));
    }
    push_blanks(out, 2 * ind + 2);
    write_key(out, &es[i].0, store);
    out.push('\n');
    let ghost head = blanks(2 * ind as int + 2) + key_text(em[0].0, tab) + seq!['\n'];
    proof {
        assert(out@ =~= old(out)@ + head);
    }
    write_pretty(out, &es[i].1, store, bump_exec(bump_exec(ind)));
    write_pretty_entries(out, es, i + 1, store, ind);
    proof {
        assert(em.drop_first() =~= entries_model(es@).skip(i + 1));
        assert(out@ =~= old(out)@ + (head + pretty_text(em[0].1, tab, bump(bump(ind as int)))
            + pretty_entries(em.drop_first(), tab, ind as int)));
    }
}

/// The pretty rendering of a well-formed value: the compact content with
/// one element per line, indented by nesting depth.
pub fn to_text_pretty(v: &Value, store: &SymbolStore) -> (r: String)
    requires
        model_shape(v@, store.names()),
    ensures
        r@ == pretty_text(v@, store.names(), 0),
{
    let mut out: Vec<char> = Vec::new();
    write_pretty(&mut out, v, store, 0);
    proof {
        assert(out@ =~= pretty_text(v@, store.names(), 0));
    }
    string_of_chars(&out)
}

/// A token-character run with nothing after it spans the whole text.
proof fn lemma_token_end_all(s: Seq<char>, i: int)
    requires
        0 <= i <= s.len(),
        forall|k: int| i <= k < s.len() ==> crate::parser::is_token_char(#[trigger] s[k]),
    ensures
        crate::parser::sp_token_end(s, i) == s.len(),
    decreases s.len() - i,
{
    if i < s.len() {
        lemma_token_end_all(s, i + 1);
    }
}

/// A digit run with nothing after it spans the whole text.
proof fn lemma_digit_run_all(s: Seq<char>, i: int)
    requires
        0 <= i <= s.len(),
        forall|k: int| i <= k < s.len() ==> crate::text::is_digit_char(#[trigger] s[k]),
    ensures
        crate::parser::sp_digit_run(s, i) == s.len(),
    decreases s.len() - i,
{
    if i < s.len() {
        lemma_digit_run_all(s, i + 1);
    }
}

/// Evaluating the digits of `m` gives back `m`: reading is the inverse
/// of rendering, one digit at a time.
proof fn lemma_digits_val_snoc(s: Seq<char>, i: int, j: int, acc: nat)
    requires
        0 <= i < j <= s.len(),
        forall|k: int| i <= k < j ==> crate::text::is_digit_char(#[trigger] s[k]),
    ensures
        crate::parser::sp_digits_val(s, i, j, acc) == crate::parser::sp_digits_val(
            s,
            i,
            j - 1,
            acc,
        ) * 10 + crate::text::digit_val(s[j - 1]),
    decreases j - i,
{
    let d0 = crate::text::digit_val(s[i]);
    let acc2 = (acc * 10 + d0) as nat;
    assert(crate::parser::sp_digits_val(s, i, j, acc) == crate::parser::sp_digits_val(
        s,
        i + 1,
        j,
        acc2,
    ));
    if i + 1 < j {
        lemma_digits_val_snoc(s, i + 1, j, acc2);
        assert(crate::parser::sp_digits_val(s, i, j - 1, acc) == crate::parser::sp_digits_val(
            s,
            i + 1,
            j - 1,
            acc2,
        ));
    } else {
        assert(crate::parser::sp_digits_val(s, i + 1, j, acc2) == acc2);
        assert(crate::parser::sp_digits_val(s, i, j - 1, acc) == acc);
    }
}

/// The decimal digits of `m` evaluate back to `m`, wherever they stand.
proof fn lemma_digits_val_inverse(s: Seq<char>, i: int, m: nat)
    requires
        0 <= i,
        i + dec_digits(m).len() <= s.len(),
        s.subrange(i, i + dec_digits(m).len() as int) == dec_digits(m),
        forall|k: int|
            i <= k < i + dec_digits(m).len() ==> crate::text::is_digit_char(#[trigger] s[k]),
    ensures
        crate::parser::sp_digits_val(s, i, i + dec_digits(m).len() as int, 0) == m,
    decreases m,
{
    crate::text::lemma_dec_digits_shape(m);
    let dd = dec_digits(m);
    let j = i + dd.len() as int;
    if m < 10 {
        assert(s.subrange(i, j)[0] == s[i]);
        assert(s[i] == dd[0]);
        assert(crate::text::digit_val(s[i]) == m as int);
        let acc2 = (0 * 10 + crate::text::digit_val(s[i])) as nat;
        assert(crate::parser::sp_digits_val(s, i, j, 0) == crate::parser::sp_digits_val(
            s,
            i + 1,
            j,
            acc2,
        ));
        assert(crate::parser::sp_digits_val(s, i + 1, j, acc2) == acc2);
    } else {
        let dh = dec_digits(m / 10);
        assert(dd == dh.push(crate::text::digit_to_char((m % 10) as int)));
        assert(s.subrange(i, j - 1) =~= dh) by {
            assert(forall|k: int|
                0 <= k < dh.len() ==> s.subrange(i, j)[k] == #[trigger] dh[k]);
        }
        lemma_digits_val_inverse(s, i, m / 10);
        lemma_digits_val_snoc(s, i, j, 0);
        assert(s.subrange(i, j)[dd.len() - 1] == s[j - 1]);
        assert(s[j - 1] == dd[dd.len() - 1]);
        assert(crate::text::digit_val(s[j - 1]) == (m % 10) as int);
        assert(crate::parser::sp_digits_val(s, i, j - 1, 0) == m / 10);
        assert(crate::parser::sp_digits_val(s, i, j, 0) == (m / 10) * 10 + (m % 10));
    }
}

/// Every digit of a decimal rendering is a token character.
proof fn lemma_digits_are_tokens(m: nat)
    ensures
        forall|k: int|
            0 <= k < dec_digits(m).len() ==> crate::parser::is_token_char(
                #[trigger] dec_digits(m)[k],
            ),
{
    crate::text::lemma_dec_digits_shape(m);
    assert forall|k: int|
        0 <= k < dec_digits(m).len() implies crate::parser::is_token_char(
        #[trigger] dec_digits(m)[k],
    ) by {
        assert(crate::text::is_digit_char(dec_digits(m)[k]));
    }
}

/// Printing then parsing returns the same value: proved here for the
/// atom forms `nil`, the booleans, the integers, the characters and the
/// strings, whose canonical texts the grammar reads back exactly. The remaining
/// forms round-trip by construction of the printer and are exercised by
/// tests, but their inverse proof is not carried out here.
pub proof fn lemma_print_parse_atom(m: ValueModel, tab: Seq<Seq<char>>)
    requires
        (m is Nil) || (m is Boolean) || ((m is Integer) && i64::MIN <= m->Integer_0
            <= i64::MAX) || (m is Character) || (m is String),
    ensures
        crate::parser::sp_top(text_of(m, tab), 0, tab) == Some(
            (m, text_of(m, tab).len() as int, tab),
        ),
{
    let s = text_of(m, tab);
    match m {
        ValueModel::Nil => {
            assert(s == seq!['n', 'i', 'l']);
            assert(crate::parser::sp_ws(s, 0, false) == 0) by {
                reveal_with_fuel(crate::parser::sp_ws, 2);
            }
            assert(crate::parser::sp_token_end(s, 0) == 3) by {
                reveal_with_fuel(crate::parser::sp_token_end, 5);
            }
            assert(s.subrange(0, 3) =~= seq!['n', 'i', 'l']);
            assert(crate::parser::sp_value(s, 0, tab) == Some((m, 3int, tab)));
        },
        ValueModel::Boolean(b) => {
            if b {
                assert(s == seq!['t', 'r', 'u', 'e']);
                assert(crate::parser::sp_ws(s, 0, false) == 0) by {
                    reveal_with_fuel(crate::parser::sp_ws, 2);
                }
                assert(crate::parser::sp_token_end(s, 0) == 4) by {
                    reveal_with_fuel(crate::parser::sp_token_end, 6);
                }
                assert(s.subrange(0, 4) =~= seq!['t', 'r', 'u', 'e']);
                assert(!(s.subrange(0, 4) =~= seq!['n', 'i', 'l']));
                assert(crate::parser::sp_value(s, 0, tab) == Some((m, 4int, tab)));
            } else {
                assert(s == seq!['f', 'a', 'l', 's', 'e']);
                assert(crate::parser::sp_ws(s, 0, false) == 0) by {
                    reveal_with_fuel(crate::parser::sp_ws, 2);
                }
                assert(crate::parser::sp_token_end(s, 0) == 5) by {
                    reveal_with_fuel(crate::parser::sp_token_end, 7);
                }
                assert(s.subrange(0, 5) =~= seq!['f', 'a', 'l', 's', 'e']);
                assert(crate::parser::sp_value(s, 0, tab) == Some((m, 5int, tab)));
            }
        },
        ValueModel::Integer(i) => {
            lemma_print_parse_integer(i, tab);
        },
        ValueModel::Character(c) => {
            lemma_print_parse_character(c, tab);
        },
        ValueModel::String(st) => {
            lemma_print_parse_string(st, tab);
        },
        _ => {},
    }
}

/// Reading a printed string body undoes the escaping exactly.
proof fn lemma_unescape_escape(t: Seq<char>, i: int, s: Seq<char>, acc: Seq<char>)
    requires
        0 <= i <= t.len(),
        t.subrange(i, t.len() as int) == string_text(s) + seq!['"'],
    ensures
        crate::parser::sp_string(t, i, acc) == Some((acc + s, t.len() as int)),
    decreases s.len(),
{
    let tail = t.subrange(i, t.len() as int);
    if s.len() == 0 {
        assert(string_text(s) =~= Seq::<char>::empty());
        assert(tail =~= seq!['"']);
        assert(t[i] == tail[0]);
        assert(i + 1 == t.len());
        assert(acc + s =~= acc);
    } else {
        let c = s[0];
        let esc = escape_char_text(c);
        let rest = string_text(s.drop_first()) + seq!['"'];
        assert(string_text(s) == esc + string_text(s.drop_first()));
        assert(esc.len() == 1 || esc.len() == 2);
        assert(tail =~= esc + rest);
        assert(forall|k: int| 0 <= k < tail.len() ==> #[trigger] tail[k] == t[i + k]);
        assert(tail[0] == esc[0]);
        assert(t[i] == esc[0]);
        let j = i + esc.len() as int;
        assert(t.subrange(j, t.len() as int) =~= rest) by {
            assert forall|k: int|
                0 <= k < t.len() - j implies #[trigger] t.subrange(j, t.len() as int)[k]
                == rest[k] by {
                assert(t.subrange(j, t.len() as int)[k] == t[j + k]);
                assert(tail[j + k - i] == t[j + k]);
                assert(tail[esc.len() + k] == rest[k]);
            }
        }
        lemma_unescape_escape(t, j, s.drop_first(), acc.push(c));
        assert(acc.push(c) + s.drop_first() =~= acc + s);
        if esc.len() == 2 {
            assert(t[i] == '\\');
            assert(tail[1] == esc[1]);
            assert(t[i + 1] == esc[1]);
            assert(crate::parser::sp_string(t, i, acc) == crate::parser::sp_string(
                t,
                i + 2,
                acc.push(c),
            ));
        } else {
            assert(esc =~= seq![c]);
            assert(c != '"' && c != '\\');
            assert(crate::parser::sp_string(t, i, acc) == crate::parser::sp_string(
                t,
                i + 1,
                acc.push(c),
            ));
        }
    }
}

/// The string case of the atom round trip.
#[verifier::spinoff_prover]
#[verifier::rlimit(100)]
proof fn lemma_print_parse_string(s: Seq<char>, tab: Seq<Seq<char>>)
    ensures
        ({
            let t = seq!['"'] + string_text(s) + seq!['"'];
            crate::parser::sp_top(t, 0, tab) == Some(
                (ValueModel::String(s), t.len() as int, tab),
            )
        }),
{
    let t = seq!['"'] + string_text(s) + seq!['"'];
    assert(t[0] == '"');
    assert(crate::parser::sp_ws(t, 0, false) == 0) by {
        reveal_with_fuel(crate::parser::sp_ws, 2);
    }
    assert(t.subrange(1, t.len() as int) =~= string_text(s) + seq!['"']);
    lemma_unescape_escape(t, 1, s, Seq::empty());
    assert(Seq::empty() + s =~= s);
    assert(crate::parser::sp_value(t, 0, tab) == Some(
        (ValueModel::String(s), t.len() as int, tab),
    ));
}

/// The character case of the atom round trip.
#[verifier::spinoff_prover]
#[verifier::rlimit(100)]
proof fn lemma_print_parse_character(c: char, tab: Seq<Seq<char>>)
    ensures
        crate::parser::sp_top(seq!['\\'] + charname_text(c), 0, tab) == Some(
            (
                ValueModel::Character(c),
                (seq!['\\'] + charname_text(c)).len() as int,
                tab,
            ),
        ),
{
    let s = seq!['\\'] + charname_text(c);
    assert(s[0] == '\\');
    assert(crate::parser::sp_ws(s, 0, false) == 0) by {
        reveal_with_fuel(crate::parser::sp_ws, 2);
    }
    if c == '\n' || c == '\r' || c == ' ' || c == '\t' {
        assert(forall|k: int|
            1 <= k < s.len() ==> crate::parser::is_token_char(#[trigger] s[k])) by {
            assert(forall|k: int| 1 <= k < s.len() ==> s[k] == charname_text(c)[k - 1]);
        }
        lemma_token_end_all(s, 1);
        assert(s.subrange(1, s.len() as int) =~= charname_text(c));
        assert(crate::parser::sp_charname(s.subrange(1, s.len() as int)) == Some(c));
        assert(crate::parser::sp_value_char(s, 0) == Some(
            (ValueModel::Character(c), s.len() as int),
        ));
    } else {
        assert(charname_text(c) == seq![c]);
        assert(s.len() == 2);
        assert(s[1] == c);
        if crate::parser::is_token_char(c) {
            assert(crate::parser::sp_token_end(s, 1) == 2) by {
                reveal_with_fuel(crate::parser::sp_token_end, 4);
            }
            assert(s.subrange(1, 2) =~= seq![c]);
            assert(crate::parser::sp_charname(seq![c]) == Some(c));
            assert(crate::parser::sp_value_char(s, 0) == Some((ValueModel::Character(c), 2int)));
        } else {
            assert(crate::parser::sp_token_end(s, 1) == 1) by {
                reveal_with_fuel(crate::parser::sp_token_end, 3);
            }
            assert(crate::parser::sp_value_char(s, 0) == Some((ValueModel::Character(c), 2int)));
        }
    }
    assert(crate::parser::sp_value(s, 0, tab) == Some(
        (ValueModel::Character(c), s.len() as int, tab),
    ));
}

/// The integer case of the atom round trip.
#[verifier::spinoff_prover]
#[verifier::rlimit(100)]
proof fn lemma_print_parse_integer(i: int, tab: Seq<Seq<char>>)
    requires
        i64::MIN <= i <= i64::MAX,
    ensures
        crate::parser::sp_top(int_digits(i), 0, tab) == Some(
            (ValueModel::Integer(i), int_digits(i).len() as int, tab),
        ),
{
    let s = int_digits(i);
    let mag: nat = if i < 0 {
        (-i) as nat
    } else {
        i as nat
    };
    let dd = dec_digits(mag);
    crate::text::lemma_dec_digits_shape(mag);
    lemma_digits_are_tokens(mag);
    if i < 0 {
        assert(s == seq!['-'] + dd);
        assert(s[0] == '-');
        assert(forall|k: int| 1 <= k < s.len() ==> s[k] == #[trigger] dd[k - 1]);
        assert(forall|k: int|
            1 <= k < s.len() ==> crate::text::is_digit_char(#[trigger] s[k]));
        assert(forall|k: int|
            0 <= k < s.len() ==> crate::parser::is_token_char(#[trigger] s[k]));
        assert(crate::parser::sp_ws(s, 0, false) == 0) by {
            reveal_with_fuel(crate::parser::sp_ws, 2);
        }
        lemma_token_end_all(s, 0);
        lemma_digit_run_all(s, 1);
        assert(s.subrange(1, s.len() as int) =~= dd);
        lemma_digits_val_inverse(s, 1, mag);
        assert(s[1] == dd[0]);
        assert(crate::text::is_digit_char(s[1]));
        let t = s.subrange(0, s.len() as int);
        assert(t =~= s);
        assert(t[0] == '-');
        assert(!(t =~= seq!['n', 'i', 'l']));
        assert(!(t =~= seq!['t', 'r', 'u', 'e']));
        assert(!(t =~= seq!['f', 'a', 'l', 's', 'e']));
        assert(crate::parser::sp_number(s, 0, s.len() as int) == Some(ValueModel::Integer(i)));
        assert(crate::parser::sp_value(s, 0, tab) == Some((ValueModel::Integer(i), s.len() as int, tab)));
    } else {
        assert(s == dd);
        assert(forall|k: int|
            0 <= k < s.len() ==> crate::text::is_digit_char(#[trigger] s[k]));
        assert(crate::text::is_digit_char(s[0]));
        assert(crate::parser::sp_ws(s, 0, false) == 0) by {
            reveal_with_fuel(crate::parser::sp_ws, 2);
        }
        lemma_token_end_all(s, 0);
        lemma_digit_run_all(s, 0);
        assert(s.subrange(0, s.len() as int) =~= dd);
        lemma_digits_val_inverse(s, 0, mag);
        let t = s.subrange(0, s.len() as int);
        assert(t =~= s);
        assert(crate::text::is_digit_char(t[0]));
        assert(!(t =~= seq!['n', 'i', 'l']));
        assert(!(t =~= seq!['t', 'r', 'u', 'e']));
        assert(!(t =~= seq!['f', 'a', 'l', 's', 'e']));
        assert(crate::parser::sp_number(s, 0, s.len() as int) == Some(ValueModel::Integer(i)));
        assert(crate::parser::sp_value(s, 0, tab) == Some((ValueModel::Integer(i), s.len() as int, tab)));
    }
}

} // verus!
