//! The structured values that domains hold, their mathematical model, and the
//! canonical text form in which they are persisted and returned to callers.

use vstd::prelude::*;

verus! {

broadcast use vstd::std_specs::vec::group_vec_axioms, vstd::seq::group_seq_axioms;

/// A structured value: the sole mutable payload of a domain.
///
/// Numbers are integers: the store's own rules only ever mint integer
/// identifiers, and integer-only numbers keep the whole crate free of
/// floating point.
#[verifier::ext_equal]
pub enum JsonValue {
    Null,
    Bool(bool),
    Int(i64),
    Str(String),
    Arr(Vec<JsonValue>),
    Obj(Vec<(String, JsonValue)>),
}

/// The mathematical model of a `JsonValue`.
#[verifier::ext_equal]
pub ghost enum JsonModel {
    Null,
    Bool(bool),
    Int(i64),
    Str(Seq<char>),
    Arr(Seq<JsonModel>),
    Obj(Seq<(Seq<char>, JsonModel)>),
}

pub open spec fn jmodel(v: JsonValue) -> JsonModel
    decreases v,
{
    match v {
        JsonValue::Null => JsonModel::Null,
        JsonValue::Bool(b) => JsonModel::Bool(b),
        JsonValue::Int(i) => JsonModel::Int(i),
        JsonValue::Str(s) => JsonModel::Str(s@),
        JsonValue::Arr(items) => JsonModel::Arr(jmodel_items(items@)),
        JsonValue::Obj(entries) => JsonModel::Obj(jmodel_entries(entries@)),
    }
}

pub open spec fn jmodel_items(items: Seq<JsonValue>) -> Seq<JsonModel>
    decreases items,
{
    if items.len() == 0 {
        Seq::empty()
    } else {
        jmodel_items(items.drop_last()).push(jmodel(items.last()))
    }
}

pub open spec fn jmodel_entries(entries: Seq<(String, JsonValue)>) -> Seq<(Seq<char>, JsonModel)>
    decreases entries,
{
    if entries.len() == 0 {
        Seq::empty()
    } else {
        jmodel_entries(entries.drop_last()).push(
            (entries.last().0@, jmodel(entries.last().1)),
        )
    }
}

impl View for JsonValue {
    type V = JsonModel;

    open spec fn view(&self) -> JsonModel {
        jmodel(*self)
    }
}

pub proof fn lemma_jmodel_items(items: Seq<JsonValue>)
    ensures
        jmodel_items(items).len() == items.len(),
        forall|i: int| 0 <= i < items.len() ==> jmodel_items(items)[i] == jmodel(items[i]),
    decreases items.len(),
{
    if items.len() > 0 {
        lemma_jmodel_items(items.drop_last());
    }
}

pub proof fn lemma_jmodel_entries(entries: Seq<(String, JsonValue)>)
    ensures
        jmodel_entries(entries).len() == entries.len(),
        forall|i: int|
            0 <= i < entries.len() ==> jmodel_entries(entries)[i] == (
                entries[i].0@,
                jmodel(entries[i].1),
            ),
    decreases entries.len(),
{
    if entries.len() > 0 {
        lemma_jmodel_entries(entries.drop_last());
    }
}

/// The decimal digit characters of `n`, most significant first.
pub open spec fn dec_digits(n: nat) -> Seq<char>
    decreases n,
{
    if n < 10 {
        seq![digit_char(n)]
    } else {
        dec_digits(n / 10).push(digit_char(n % 10))
    }
}

proof fn lemma_dec_digits_len(n: nat)
    ensures
        dec_digits(n).len() >= 1,
        n >= 10 ==> dec_digits(n).len() >= 2,
    decreases n,
{
    if n >= 10 {
        lemma_dec_digits_len(n / 10);
    }
}

/// The decimal text of a number determines the number: two distinct counts
/// never share an identifier text.
pub proof fn lemma_dec_digits_injective(a: nat, b: nat)
    requires
        dec_digits(a) == dec_digits(b),
    ensures
        a == b,
    decreases a,
{
    lemma_dec_digits_len(a);
    lemma_dec_digits_len(b);
    if a < 10 && b < 10 {
        assert(dec_digits(a)[0] == digit_char(a));
        assert(dec_digits(b)[0] == digit_char(b));
    } else if a < 10 {
        assert(dec_digits(b).len() >= 2);
    } else if b < 10 {
        assert(dec_digits(a).len() >= 2);
    } else {
        assert(dec_digits(a / 10).push(digit_char(a % 10)) == dec_digits(b / 10).push(
            digit_char(b % 10),
        ));
        assert(dec_digits(a / 10) =~= dec_digits(a).drop_last());
        assert(dec_digits(b / 10) =~= dec_digits(b).drop_last());
        assert(digit_char(a % 10) == dec_digits(a).last());
        assert(digit_char(b % 10) == dec_digits(b).last());
        lemma_dec_digits_injective(a / 10, b / 10);
        assert(a % 10 == b % 10);
    }
}

pub open spec fn digit_char(n: nat) -> char {
    if n == 0 {
        '0'
    } else if n == 1 {
        '1'
    } else if n == 2 {
        '2'
    } else if n == 3 {
        '3'
    } else if n == 4 {
        '4'
    } else if n == 5 {
        '5'
    } else if n == 6 {
        '6'
    } else if n == 7 {
        '7'
    } else if n == 8 {
        '8'
    } else {
        '9'
    }
}

pub open spec fn hex_char(n: nat) -> char {
    if n < 10 {
        digit_char(n)
    } else if n == 10 {
        'a'
    } else if n == 11 {
        'b'
    } else if n == 12 {
        'c'
    } else if n == 13 {
        'd'
    } else if n == 14 {
        'e'
    } else {
        'f'
    }
}

/// The text of an integer: a minus sign for negative values, then the
/// decimal digits of the magnitude.
pub open spec fn int_text(i: int) -> Seq<char> {
    if i < 0 {
        seq!['-'] + dec_digits((-i) as nat)
    } else {
        dec_digits(i as nat)
    }
}

/// How one character of a string is written inside quotes: quote and
/// backslash get a backslash, control characters become `\u00` plus two hex
/// digits, and every other character stands for itself.
pub open spec fn esc_char(c: char) -> Seq<char> {
    if c == '"' {
        seq!['\\', '"']
    } else if c == '\\' {
        seq!['\\', '\\']
    } else if (c as u32) < 32 {
        seq!['\\', 'u', '0', '0', hex_char(((c as u32) / 16) as nat), hex_char(
            ((c as u32) % 16) as nat,
        )]
    } else {
        seq![c]
    }
}

pub open spec fn esc(s: Seq<char>) -> Seq<char>
    decreases s.len(),
{
    if s.len() == 0 {
        Seq::empty()
    } else {
        esc(s.drop_last()) + esc_char(s.last())
    }
}

/// The canonical text of a value: the form in which every domain's value is
/// persisted and in which snapshots are returned.
pub open spec fn text_of(m: JsonModel) -> Seq<char>
    decreases m,
{
    match m {
        JsonModel::Null => seq!['n', 'u', 'l', 'l'],
        JsonModel::Bool(b) => if b {
            seq!['t', 'r', 'u', 'e']
        } else {
            seq!['f', 'a', 'l', 's', 'e']
        },
        JsonModel::Int(i) => int_text(i as int),
        JsonModel::Str(s) => seq!['"'] + esc(s) + seq!['"'],
        JsonModel::Arr(items) => seq!['['] + items_text(items) + seq![']'],
        JsonModel::Obj(entries) => seq!['{'] + entries_text(entries) + seq!['}'],
    }
}

pub open spec fn items_text(items: Seq<JsonModel>) -> Seq<char>
    decreases items,
{
    if items.len() == 0 {
        Seq::empty()
    } else if items.len() == 1 {
        text_of(items[0])
    } else {
        items_text(items.drop_last()) + seq![','] + text_of(items.last())
    }
}

pub open spec fn entry_text(e: (Seq<char>, JsonModel)) -> Seq<char>
    decreases e,
{
    seq!['"'] + esc(e.0) + seq!['"', ':'] + text_of(e.1)
}

pub open spec fn entries_text(entries: Seq<(Seq<char>, JsonModel)>) -> Seq<char>
    decreases entries,
{
    if entries.len() == 0 {
        Seq::empty()
    } else if entries.len() == 1 {
        entry_text(entries[0])
    } else {
        entries_text(entries.drop_last()) + seq![','] + entry_text(entries.last())
    }
}

/// Relies on `String::from_iter`: collecting characters yields the string
/// made of exactly those characters, in order.
#[verifier::external_body]
pub(crate) fn string_from_chars(chars: &Vec<char>) -> (r: String)
    ensures
        r@ == chars@,
{
    chars.iter().collect()
}

/// The characters of a string slice, as a vector.
pub fn chars_of(s: &str) -> (r: Vec<char>)
    ensures
        r@ == s@,
{
    let n = s.unicode_len();
    let mut r: Vec<char> = Vec::new();
    let mut i: usize = 0;
    while i < n
        invariant
            i <= n,
            n == s@.len(),
            r@ == s@.subrange(0, i as int),
        decreases n - i,
    {
        r.push(s.get_char(i));
        i = i + 1;
        proof {
            assert(r@ =~= s@.subrange(0, i as int));
        }
    }
    proof {
        assert(r@ =~= s@);
    }
    r
}

/// Whether two string slices hold the same characters.
pub fn str_eq(a: &str, b: &str) -> (r: bool)
    ensures
        r == (a@ == b@),
{
    let na = a.unicode_len();
    let nb = b.unicode_len();
    if na != nb {
        return false;
    }
    let mut i: usize = 0;
    while i < na
        invariant
            i <= na,
            na == a@.len(),
            na == b@.len(),
            forall|j: int| 0 <= j < i ==> a@[j] == b@[j],
        decreases na - i,
    {
        if a.get_char(i) != b.get_char(i) {
            return false;
        }
        i = i + 1;
    }
    proof {
        assert(a@ =~= b@);
    }
    true
}

fn digit_to_char(d: u64) -> (c: char)
    requires
        d < 10,
    ensures
        c == digit_char(d as nat),
{
    if d == 0 {
        '0'
    } else if d == 1 {
        '1'
    } else if d == 2 {
        '2'
    } else if d == 3 {
        '3'
    } else if d == 4 {
        '4'
    } else if d == 5 {
        '5'
    } else if d == 6 {
        '6'
    } else if d == 7 {
        '7'
    } else if d == 8 {
        '8'
    } else {
        '9'
    }
}

fn hex_to_char(d: u64) -> (c: char)
    requires
        d < 16,
    ensures
        c == hex_char(d as nat),
{
    if d < 10 {
        digit_to_char(d)
    } else if d == 10 {
        'a'
    } else if d == 11 {
        'b'
    } else if d == 12 {
        'c'
    } else if d == 13 {
        'd'
    } else if d == 14 {
        'e'
    } else {
        'f'
    }
}

fn push_u64(n: u64, out: &mut Vec<char>)
    ensures
        final(out)@ == old(out)@ + dec_digits(n as nat),
{
    let mut tmp: Vec<char> = Vec::new();
    let mut m: u64 = n;
    loop
        invariant_except_break
            dec_digits(n as nat) =~= dec_digits(m as nat) + tmp@.reverse(),
        ensures
            dec_digits(n as nat) =~= tmp@.reverse(),
        decreases m,
    {
        let d: u64 = m % 10;
        let ghost old_tmp = tmp@;
        tmp.push(digit_to_char(d));
        proof {
            assert(tmp@.reverse() =~= seq![digit_char(d as nat)] + old_tmp.reverse());
        }
        m = m / 10;
        if m == 0 {
            proof {
                assert(dec_digits((d as nat)) =~= seq![digit_char(d as nat)]);
            }
            break;
        }
        proof {
            assert(dec_digits((m * 10 + d) as nat) =~= dec_digits(m as nat).push(
                digit_char(d as nat),
            ));
            assert(dec_digits(m as nat).push(digit_char(d as nat)) =~= dec_digits(m as nat)
                + seq![digit_char(d as nat)]);
        }
    }
    let mut k: usize = tmp.len();
    while k > 0
        invariant
            k <= tmp.len(),
            out@ =~= old(out)@ + tmp@.reverse().subrange(0, tmp@.len() - k),
            dec_digits(n as nat) =~= tmp@.reverse(),
        decreases k,
    {
        k = k - 1;
        out.push(tmp[k]);
        proof {
            assert(out@ =~= old(out)@ + tmp@.reverse().subrange(0, tmp@.len() - k));
        }
    }
    proof {
        assert(out@ =~= old(out)@ + dec_digits(n as nat));
    }
}

fn push_i64(i: i64, out: &mut Vec<char>)
    ensures
        final(out)@ == old(out)@ + int_text(i as int),
{
    if i < 0 {
        out.push('-');
        let mag: u64 = ((-1 - i) as u64) + 1;
        proof {
            assert(mag as nat == (-(i as int)) as nat);
        }
        push_u64(mag, out);
        proof {
            assert(out@ =~= old(out)@ + int_text(i as int));
        }
    } else {
        push_u64(i as u64, out);
    }
}

fn push_escaped(s: &str, out: &mut Vec<char>)
    ensures
        final(out)@ == old(out)@ + esc(s@),
{
    let cs = chars_of(s);
    let mut i: usize = 0;
    proof {
        assert(esc(s@.subrange(0, 0)) =~= Seq::<char>::empty());
        assert(out@ =~= out@ + esc(s@.subrange(0, 0)));
    }
    while i < cs.len()
        invariant
            i <= cs.len(),
            cs@ == s@,
            out@ =~= old(out)@ + esc(s@.subrange(0, i as int)),
        decreases cs.len() - i,
    {
        let c = cs[i];
        let code: u32 = c as u32;
        if c == '"' {
            out.push('\\');
            out.push('"');
            proof {
                assert(out@ =~= old(out)@ + esc(s@.subrange(0, i as int)) + esc_char(c));
            }
        } else if c == '\\' {
            out.push('\\');
            out.push('\\');
            proof {
                assert(out@ =~= old(out)@ + esc(s@.subrange(0, i as int)) + esc_char(c));
            }
        } else if code < 32 {
            out.push('\\');
            out.push('u');
            out.push('0');
            out.push('0');
            out.push(hex_to_char((code / 16) as u64));
            out.push(hex_to_char((code % 16) as u64));
            proof {
                assert((((code / 16) as u64) as nat) == ((c as u32) / 16) as nat);
                assert((((code % 16) as u64) as nat) == ((c as u32) % 16) as nat);
                assert(out@ =~= old(out)@ + esc(s@.subrange(0, i as int)) + esc_char(c));
            }
        } else {
            out.push(c);
            proof {
                assert(out@ =~= old(out)@ + esc(s@.subrange(0, i as int)) + esc_char(c));
            }
        }
        proof {
            let pre = s@.subrange(0, i as int);
            let post = s@.subrange(0, i + 1);
            assert(post.drop_last() =~= pre);
            assert(post.last() == c);
            assert(esc(post) == esc(pre) + esc_char(c));
            assert(out@ =~= old(out)@ + esc(post));
        }
        i = i + 1;
    }
    proof {
        assert(s@.subrange(0, s@.len() as int) =~= s@);
    }
}

proof fn lemma_items_text_step(s: Seq<JsonModel>, i: int)
    requires
        0 <= i < s.len(),
    ensures
        items_text(s.subrange(0, i + 1)) == items_text(s.subrange(0, i)) + (if i == 0 {
            Seq::<char>::empty()
        } else {
            seq![',']
        }) + text_of(s[i]),
{
    let pre = s.subrange(0, i);
    let post = s.subrange(0, i + 1);
    assert(post.drop_last() =~= pre);
    assert(post.last() == s[i]);
    if i == 0 {
        assert(items_text(post) == text_of(s[0]));
        assert(items_text(pre) + Seq::<char>::empty() + text_of(s[0]) =~= text_of(s[0]));
    } else {
        assert(items_text(post) == items_text(pre) + seq![','] + text_of(s[i]));
    }
}

proof fn lemma_entries_text_step(s: Seq<(Seq<char>, JsonModel)>, i: int)
    requires
        0 <= i < s.len(),
    ensures
        entries_text(s.subrange(0, i + 1)) == entries_text(s.subrange(0, i)) + (if i == 0 {
            Seq::<char>::empty()
        } else {
            seq![',']
        }) + entry_text(s[i]),
{
    let pre = s.subrange(0, i);
    let post = s.subrange(0, i + 1);
    assert(post.drop_last() =~= pre);
    assert(post.last() == s[i]);
    if i == 0 {
        assert(entries_text(post) == entry_text(s[0]));
        assert(entries_text(pre) + Seq::<char>::empty() + entry_text(s[0]) =~= entry_text(s[0]));
    } else {
        assert(entries_text(post) == entries_text(pre) + seq![','] + entry_text(s[i]));
    }
}

fn render_into(v: &JsonValue, out: &mut Vec<char>)
    ensures
        final(out)@ == old(out)@ + text_of(v@),
    decreases *v,
{
    match v {
        JsonValue::Null => {
            out.push('n');
            out.push('u');
            out.push('l');
            out.push('l');
            proof {
                assert(out@ =~= old(out)@ + text_of(v@));
            }
        },
        JsonValue::Bool(b) => {
            if *b {
                out.push('t');
                out.push('r');
                out.push('u');
                out.push('e');
            } else {
                out.push('f');
                out.push('a');
                out.push('l');
                out.push('s');
                out.push('e');
            }
            proof {
                assert(out@ =~= old(out)@ + text_of(v@));
            }
        },
        JsonValue::Int(i) => {
            push_i64(*i, out);
        },
        JsonValue::Str(s) => {
            out.push('"');
            push_escaped(s.as_str(), out);
            out.push('"');
            proof {
                assert(out@ =~= old(out)@ + text_of(v@));
            }
        },
        JsonValue::Arr(items) => {
            let ghost ms = jmodel_items(items@);
            proof {
                lemma_jmodel_items(items@);
            }
            out.push('[');
            let mut i: usize = 0;
            proof {
                assert(items_text(ms.subrange(0, 0)) =~= Seq::<char>::empty());
                assert(out@ =~= old(out)@ + seq!['['] + items_text(ms.subrange(0, 0)));
            }
            while i < items.len()
                invariant
                    *v == JsonValue::Arr(*items),
                    i <= items.len(),
                    ms == jmodel_items(items@),
                    ms.len() == items@.len(),
                    forall|j: int| 0 <= j < items@.len() ==> ms[j] == jmodel(items@[j]),
                    out@ =~= old(out)@ + seq!['['] + items_text(ms.subrange(0, i as int)),
                decreases items.len() - i,
            {
                if i > 0 {
                    out.push(',');
                }
                proof {
                    assert(*v == JsonValue::Arr(*items));
                    assert(decreases_to!(*v => (*v)->Arr_0));
                    assert(decreases_to!(*items => items@));
                    assert(decreases_to!(items@ => items@[i as int]));
                }
                render_into(&items[i], out);
                proof {
                    lemma_items_text_step(ms, i as int);
                    assert(out@ =~= old(out)@ + seq!['['] + items_text(
                        ms.subrange(0, i + 1),
                    ));
                }
                i = i + 1;
            }
            out.push(']');
            proof {
                assert(ms.subrange(0, ms.len() as int) =~= ms);
                assert(out@ =~= old(out)@ + text_of(v@));
            }
        },
        JsonValue::Obj(entries) => {
            let ghost ms = jmodel_entries(entries@);
            proof {
                lemma_jmodel_entries(entries@);
            }
            out.push('{');
            let mut i: usize = 0;
            proof {
                assert(entries_text(ms.subrange(0, 0)) =~= Seq::<char>::empty());
                assert(out@ =~= old(out)@ + seq!['{'] + entries_text(ms.subrange(0, 0)));
            }
            while i < entries.len()
                invariant
                    *v == JsonValue::Obj(*entries),
                    i <= entries.len(),
                    ms == jmodel_entries(entries@),
                    ms.len() == entries@.len(),
                    forall|j: int|
                        0 <= j < entries@.len() ==> ms[j] == (
                            entries@[j].0@,
                            jmodel(entries@[j].1),
                        ),
                    out@ =~= old(out)@ + seq!['{'] + entries_text(ms.subrange(0, i as int)),
                decreases entries.len() - i,
            {
                if i > 0 {
                    out.push(',');
                }
                out.push('"');
                push_escaped(entries[i].0.as_str(), out);
                out.push('"');
                out.push(':');
                proof {
                    assert(*v == JsonValue::Obj(*entries));
                    assert(decreases_to!(*v => (*v)->Obj_0));
                    assert(decreases_to!(*entries => entries@));
                    assert(decreases_to!(entries@ => entries@[i as int]));
                    assert(decreases_to!(entries@[i as int] => entries@[i as int].1));
                }
                render_into(&entries[i].1, out);
                proof {
                    lemma_entries_text_step(ms, i as int);
                    assert(out@ =~= old(out)@ + seq!['{'] + entries_text(
                        ms.subrange(0, i + 1),
                    ));
                }
                i = i + 1;
            }
            out.push('}');
            proof {
                assert(ms.subrange(0, ms.len() as int) =~= ms);
                assert(out@ =~= old(out)@ + text_of(v@));
            }
        },
    }
}

/// The canonical text of a value, as a `String`: this is the serialization
/// in which every domain's value is persisted and returned.
pub fn render(v: &JsonValue) -> (r: String)
    ensures
        r@ == text_of(v@),
{
    let mut out: Vec<char> = Vec::new();
    render_into(v, &mut out);
    string_from_chars(&out)
}

/// The decimal text of `n`.
pub fn u64_to_string(n: u64) -> (r: String)
    ensures
        r@ == dec_digits(n as nat),
{
    let mut out: Vec<char> = Vec::new();
    push_u64(n, &mut out);
    string_from_chars(&out)
}

/// A deep copy whose model is exactly the model of the original.
pub fn jclone(v: &JsonValue) -> (r: JsonValue)
    ensures
        r@ == v@,
    decreases *v,
{
    match v {
        JsonValue::Null => JsonValue::Null,
        JsonValue::Bool(b) => JsonValue::Bool(*b),
        JsonValue::Int(i) => JsonValue::Int(*i),
        JsonValue::Str(s) => JsonValue::Str(s.clone()),
        JsonValue::Arr(items) => {
            let mut copy: Vec<JsonValue> = Vec::new();
            let mut i: usize = 0;
            while i < items.len()
                invariant
                    *v == JsonValue::Arr(*items),
                    i <= items.len(),
                    copy@.len() == i,
                    forall|j: int| 0 <= j < i ==> jmodel(copy@[j]) == jmodel(items@[j]),
                decreases items.len() - i,
            {
                proof {
                    assert(*v == JsonValue::Arr(*items));
                    assert(decreases_to!(*v => (*v)->Arr_0));
                    assert(decreases_to!(*items => items@));
                    assert(decreases_to!(items@ => items@[i as int]));
                }
                let c = jclone(&items[i]);
                copy.push(c);
                i = i + 1;
            }
            proof {
                lemma_jmodel_items(copy@);
                lemma_jmodel_items(items@);
                assert(jmodel_items(copy@) =~= jmodel_items(items@));
            }
            JsonValue::Arr(copy)
        },
        JsonValue::Obj(entries) => {
            let mut copy: Vec<(String, JsonValue)> = Vec::new();
            let mut i: usize = 0;
            while i < entries.len()
                invariant
                    *v == JsonValue::Obj(*entries),
                    i <= entries.len(),
                    copy@.len() == i,
                    forall|j: int|
                        0 <= j < i ==> copy@[j].0@ == entries@[j].0@ && jmodel(copy@[j].1)
                            == jmodel(entries@[j].1),
                decreases entries.len() - i,
            {
                proof {
                    assert(*v == JsonValue::Obj(*entries));
                    assert(decreases_to!(*v => (*v)->Obj_0));
                    assert(decreases_to!(*entries => entries@));
                    assert(decreases_to!(entries@ => entries@[i as int]));
                    assert(decreases_to!(entries@[i as int] => entries@[i as int].1));
                }
                let k = entries[i].0.clone();
                let c = jclone(&entries[i].1);
                copy.push((k, c));
                i = i + 1;
            }
            proof {
                lemma_jmodel_entries(copy@);
                lemma_jmodel_entries(entries@);
                assert(jmodel_entries(copy@) =~= jmodel_entries(entries@));
            }
            JsonValue::Obj(copy)
        },
    }
}

} // verus!
