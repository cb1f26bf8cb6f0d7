//! Reading a value back from its canonical text.
//!
//! The parser accepts exactly the text that [`crate::json::render`] produces:
//! no surrounding whitespace, strings escaped the canonical way, integers
//! without leading zeros. Its contract is two-sided: whatever it accepts
//! reads back as a value whose canonical text is the very input, and every
//! canonical text is accepted.

use vstd::prelude::*;

use crate::errors::StoreError;
use crate::json::{
    JsonValue, JsonModel, jmodel, jmodel_items, jmodel_entries, text_of, items_text,
    entries_text, entry_text, esc, esc_char, dec_digits, digit_char, hex_char, int_text,
    chars_of, string_from_chars, lemma_dec_digits_injective,
};

verus! {

broadcast use vstd::std_specs::vec::group_vec_axioms, vstd::seq::group_seq_axioms;


/// Whether some value has exactly this canonical text: the texts the parser
/// accepts.
pub open spec fn parseable(s: Seq<char>) -> bool {
    exists|m: JsonModel| text_of(m) == s
}

pub open spec fn spec_digit_val(c: char) -> Option<u64> {
    if c == '0' {
        Some(0u64)
    } else if c == '1' {
        Some(1u64)
    } else if c == '2' {
        Some(2u64)
    } else if c == '3' {
        Some(3u64)
    } else if c == '4' {
        Some(4u64)
    } else if c == '5' {
        Some(5u64)
    } else if c == '6' {
        Some(6u64)
    } else if c == '7' {
        Some(7u64)
    } else if c == '8' {
        Some(8u64)
    } else if c == '9' {
        Some(9u64)
    } else {
        None
    }
}

pub open spec fn spec_hex_val(c: char) -> Option<u64> {
    if c == 'a' {
        Some(10u64)
    } else if c == 'b' {
        Some(11u64)
    } else if c == 'c' {
        Some(12u64)
    } else if c == 'd' {
        Some(13u64)
    } else if c == 'e' {
        Some(14u64)
    } else if c == 'f' {
        Some(15u64)
    } else {
        spec_digit_val(c)
    }
}

pub open spec fn is_digit_char(c: char) -> bool {
    spec_digit_val(c) is Some
}

proof fn lemma_digit_char_val(d: nat)
    requires
        d < 10,
    ensures
        spec_digit_val(digit_char(d)) == Some(d as u64),
{
}

proof fn lemma_hex_char_val(d: nat)
    requires
        d < 16,
    ensures
        spec_hex_val(hex_char(d)) == Some(d as u64),
{
}

proof fn lemma_dec_digits_shape(n: nat)
    ensures
        dec_digits(n).len() >= 1,
        forall|k: int| 0 <= k < dec_digits(n).len() ==> is_digit_char(#[trigger] dec_digits(n)[k]),
        n >= 1 ==> dec_digits(n)[0] != '0',
        n >= 10 ==> dec_digits(n).len() >= 2,
        n < 10 ==> dec_digits(n).len() == 1,
    decreases n,
{
    if n < 10 {
        lemma_digit_char_val(n);
    } else {
        lemma_dec_digits_shape(n / 10);
        lemma_digit_char_val(n % 10);
        assert forall|k: int| 0 <= k < dec_digits(n).len() implies is_digit_char(
            #[trigger] dec_digits(n)[k],
        ) by {
            if k < dec_digits(n / 10).len() {
                assert(dec_digits(n)[k] == dec_digits(n / 10)[k]);
            } else {
                assert(dec_digits(n)[k] == digit_char(n % 10));
            }
        }
        assert(dec_digits(n)[0] == dec_digits(n / 10)[0]);
    }
}

proof fn lemma_dec_prefix_bound(a: nat, n: nat, j: int)
    requires
        1 <= j <= dec_digits(n).len(),
        dec_digits(a) == dec_digits(n).subrange(0, j),
    ensures
        a <= n,
        j < dec_digits(n).len() ==> a <= n / 10,
    decreases n,
{
    lemma_dec_digits_shape(n);
    if j == dec_digits(n).len() {
        assert(dec_digits(n).subrange(0, j) =~= dec_digits(n));
        lemma_dec_digits_injective(a, n);
    } else {
        assert(n >= 10);
        assert(dec_digits(n).subrange(0, j) =~= dec_digits(n / 10).subrange(0, j));
        lemma_dec_prefix_bound(a, n / 10, j);
    }
}

proof fn lemma_esc_concat(a: Seq<char>, b: Seq<char>)
    ensures
        esc(a + b) == esc(a) + esc(b),
    decreases b.len(),
{
    if b.len() == 0 {
        assert(a + b =~= a);
        assert(esc(a) + esc(b) =~= esc(a));
    } else {
        assert((a + b).drop_last() =~= a + b.drop_last());
        assert((a + b).last() == b.last());
        lemma_esc_concat(a, b.drop_last());
        assert(esc(a + b) =~= esc(a) + esc(b));
    }
}

proof fn lemma_esc_first(s: Seq<char>)
    requires
        s.len() >= 1,
    ensures
        esc(s) == esc_char(s[0]) + esc(s.drop_first()),
{
    assert(s =~= seq![s[0]] + s.drop_first());
    lemma_esc_concat(seq![s[0]], s.drop_first());
    let u = seq![s[0]];
    assert(u.len() == 1 && u.last() == s[0]);
    assert(u.drop_last() =~= Seq::<char>::empty());
    assert(esc(u) == esc(u.drop_last()) + esc_char(s[0]));
    assert(esc(u.drop_last()) == esc(Seq::<char>::empty()));
    assert(esc(u) =~= esc_char(s[0]));
}

proof fn lemma_text_first(m: JsonModel)
    ensures
        text_of(m).len() >= 1,
        match m {
            JsonModel::Null => text_of(m)[0] == 'n',
            JsonModel::Bool(b) => text_of(m)[0] == (if b {
                't'
            } else {
                'f'
            }),
            JsonModel::Int(_) => text_of(m)[0] == '-' || is_digit_char(text_of(m)[0]),
            JsonModel::Str(_) => text_of(m)[0] == '"',
            JsonModel::Arr(_) => text_of(m)[0] == '[',
            JsonModel::Obj(_) => text_of(m)[0] == '{',
        },
{
    match m {
        JsonModel::Int(i) => {
            if i >= 0 {
                lemma_dec_digits_shape(i as nat);
            } else {
                lemma_dec_digits_shape((-(i as int)) as nat);
            }
        },
        _ => {},
    }
}

/// The text of the elements of an array after the first: a comma before
/// each one.
pub open spec fn tail_items_text(items: Seq<JsonModel>) -> Seq<char>
    decreases items.len(),
{
    if items.len() == 0 {
        Seq::empty()
    } else {
        seq![','] + text_of(items[0]) + tail_items_text(items.drop_first())
    }
}

proof fn lemma_tail_items_push(t: Seq<JsonModel>, x: JsonModel)
    ensures
        tail_items_text(t.push(x)) == tail_items_text(t) + seq![','] + text_of(x),
    decreases t.len(),
{
    let p = t.push(x);
    assert(p.len() == t.len() + 1);
    if t.len() == 0 {
        assert(p.drop_first() =~= Seq::<JsonModel>::empty());
        assert(p[0] == x);
        assert(tail_items_text(p) == seq![','] + text_of(x) + tail_items_text(p.drop_first()));
        assert(tail_items_text(p.drop_first()) == Seq::<char>::empty());
        assert(tail_items_text(p) =~= tail_items_text(t) + seq![','] + text_of(x));
    } else {
        assert(p.drop_first() =~= t.drop_first().push(x));
        assert(p[0] == t[0]);
        lemma_tail_items_push(t.drop_first(), x);
        assert(tail_items_text(p) == seq![','] + text_of(t[0]) + tail_items_text(p.drop_first()));
        assert(tail_items_text(p.drop_first()) == tail_items_text(t.drop_first().push(x)));
        assert(tail_items_text(t) == seq![','] + text_of(t[0]) + tail_items_text(t.drop_first()));
        assert(tail_items_text(p) =~= tail_items_text(t) + seq![','] + text_of(x));
    }
}

proof fn lemma_items_text_front(items: Seq<JsonModel>)
    requires
        items.len() >= 1,
    ensures
        items_text(items) == text_of(items[0]) + tail_items_text(items.drop_first()),
    decreases items.len(),
{
    if items.len() == 1 {
        assert(items.drop_first() =~= Seq::<JsonModel>::empty());
        assert(items_text(items) =~= text_of(items[0]) + tail_items_text(items.drop_first()));
    } else {
        lemma_items_text_front(items.drop_last());
        assert(items.drop_last()[0] == items[0]);
        assert(items.drop_first() =~= items.drop_last().drop_first().push(items.last()));
        lemma_tail_items_push(items.drop_last().drop_first(), items.last());
        assert(items_text(items) == items_text(items.drop_last()) + seq![','] + text_of(
            items.last(),
        ));
        assert(items_text(items) =~= text_of(items[0]) + tail_items_text(items.drop_first()));
    }
}

/// The text of the entries of an object after the first: a comma before
/// each one.
pub open spec fn tail_entries_text(entries: Seq<(Seq<char>, JsonModel)>) -> Seq<char>
    decreases entries.len(),
{
    if entries.len() == 0 {
        Seq::empty()
    } else {
        seq![','] + entry_text(entries[0]) + tail_entries_text(entries.drop_first())
    }
}

proof fn lemma_tail_entries_push(t: Seq<(Seq<char>, JsonModel)>, x: (Seq<char>, JsonModel))
    ensures
        tail_entries_text(t.push(x)) == tail_entries_text(t) + seq![','] + entry_text(x),
    decreases t.len(),
{
    let p = t.push(x);
    assert(p.len() == t.len() + 1);
    if t.len() == 0 {
        assert(p.drop_first() =~= Seq::<(Seq<char>, JsonModel)>::empty());
        assert(p[0] == x);
        assert(tail_entries_text(p) == seq![','] + entry_text(x) + tail_entries_text(
            p.drop_first(),
        ));
        assert(tail_entries_text(p.drop_first()) == Seq::<char>::empty());
        assert(tail_entries_text(p) =~= tail_entries_text(t) + seq![','] + entry_text(x));
    } else {
        assert(p.drop_first() =~= t.drop_first().push(x));
        assert(p[0] == t[0]);
        lemma_tail_entries_push(t.drop_first(), x);
        assert(tail_entries_text(p) == seq![','] + entry_text(t[0]) + tail_entries_text(
            p.drop_first(),
        ));
        assert(tail_entries_text(p.drop_first()) == tail_entries_text(t.drop_first().push(x)));
        assert(tail_entries_text(t) == seq![','] + entry_text(t[0]) + tail_entries_text(
            t.drop_first(),
        ));
        assert(tail_entries_text(p) =~= tail_entries_text(t) + seq![','] + entry_text(x));
    }
}

proof fn lemma_entries_text_front(entries: Seq<(Seq<char>, JsonModel)>)
    requires
        entries.len() >= 1,
    ensures
        entries_text(entries) == entry_text(entries[0]) + tail_entries_text(entries.drop_first()),
    decreases entries.len(),
{
    if entries.len() == 1 {
        assert(entries.drop_first() =~= Seq::<(Seq<char>, JsonModel)>::empty());
        assert(entries_text(entries) =~= entry_text(entries[0]) + tail_entries_text(
            entries.drop_first(),
        ));
    } else {
        lemma_entries_text_front(entries.drop_last());
        assert(entries.drop_last()[0] == entries[0]);
        assert(entries.drop_first() =~= entries.drop_last().drop_first().push(entries.last()));
        lemma_tail_entries_push(entries.drop_last().drop_first(), entries.last());
        assert(entries_text(entries) == entries_text(entries.drop_last()) + seq![','] + entry_text(
            entries.last(),
        ));
        assert(entries_text(entries) =~= entry_text(entries[0]) + tail_entries_text(
            entries.drop_first(),
        ));
    }
}

fn digit_val(c: char) -> (r: Option<u64>)
    ensures
        r == spec_digit_val(c),
        r matches Some(d) ==> d < 10 && digit_char(d as nat) == c,
{
    if c == '0' {
        Some(0)
    } else if c == '1' {
        Some(1)
    } else if c == '2' {
        Some(2)
    } else if c == '3' {
        Some(3)
    } else if c == '4' {
        Some(4)
    } else if c == '5' {
        Some(5)
    } else if c == '6' {
        Some(6)
    } else if c == '7' {
        Some(7)
    } else if c == '8' {
        Some(8)
    } else if c == '9' {
        Some(9)
    } else {
        None
    }
}

fn hex_val(c: char) -> (r: Option<u64>)
    ensures
        r == spec_hex_val(c),
        r matches Some(d) ==> d < 16 && hex_char(d as nat) == c,
{
    if c == 'a' {
        Some(10)
    } else if c == 'b' {
        Some(11)
    } else if c == 'c' {
        Some(12)
    } else if c == 'd' {
        Some(13)
    } else if c == 'e' {
        Some(14)
    } else if c == 'f' {
        Some(15)
    } else {
        digit_val(c)
    }
}

/// Reads a quoted string starting at the opening quote; yields the content
/// and the position just past the closing quote. A ghost hint naming a
/// content whose quoted text sits at `pos` obliges the parser to read
/// exactly that content.
#[verifier::rlimit(100)]
fn parse_string(cs: &Vec<char>, pos: usize, Ghost(hint): Ghost<Option<(Seq<char>, int)>>) -> (r:
    Result<(String, usize), StoreError>)
    requires
        pos < cs@.len(),
        cs@[pos as int] == '"',
        (match hint {
            Some(h) => pos < h.1 <= cs@.len() && cs@.subrange(pos as int, h.1) == seq!['"'] + esc(
                h.0,
            ) + seq!['"'],
            None => true,
        }),
    ensures
        r matches Ok(p) ==> pos < p.1 <= cs@.len() && seq!['"'] + esc(p.0@) + seq!['"']
            == cs@.subrange(pos as int, p.1 as int),
        r matches Err(e) ==> e == StoreError::Parse,
        (match hint {
            Some(h) => r matches Ok(p) && p.0@ == h.0 && p.1 == h.1,
            None => true,
        }),
{
    let len = cs.len();
    let mut cur: usize = pos + 1;
    let mut content: Vec<char> = Vec::new();
    proof {
        assert(seq!['"'] + esc(content@) =~= cs@.subrange(pos as int, cur as int));
        match hint {
            Some(h) => {
                assert(content@ =~= h.0.subrange(0, 0));
                assert(esc(h.0.subrange(0, 0)) =~= Seq::<char>::empty());
            },
            None => {},
        }
    }
    loop
        invariant_except_break
            pos < cur <= len,
            len == cs@.len(),
            cs@[pos as int] == '"',
            seq!['"'] + esc(content@) == cs@.subrange(pos as int, cur as int),
            (match hint {
                Some(h) => pos < h.1 <= len && cs@.subrange(pos as int, h.1) == seq!['"'] + esc(
                    h.0,
                ) + seq!['"'] && content@.len() <= h.0.len() && content@ == h.0.subrange(
                    0,
                    content@.len() as int,
                ) && cur <= h.1 - 1,
                None => true,
            }),
        ensures
            pos < cur <= len,
            seq!['"'] + esc(content@) + seq!['"'] == cs@.subrange(pos as int, cur as int),
            (match hint {
                Some(h) => content@ == h.0 && cur == h.1,
                None => true,
            }),
        decreases len - cur,
    {
        proof {
            match hint {
                Some(h) => {
                    let k = content@.len() as int;
                    assert(h.1 - pos == 2 + esc(h.0).len());
                    assert(h.0 =~= h.0.subrange(0, k) + h.0.subrange(k, h.0.len() as int));
                    lemma_esc_concat(h.0.subrange(0, k), h.0.subrange(k, h.0.len() as int));
                    assert((seq!['"'] + esc(content@)).len() == 1 + esc(content@).len());
                    assert(cs@.subrange(pos as int, cur as int).len() == cur - pos);
                    assert(cur - pos - 1 == esc(content@).len());
                    if k < h.0.len() {
                        lemma_esc_first(h.0.subrange(k, h.0.len() as int));
                        assert(h.0.subrange(k, h.0.len() as int)[0] == h.0[k]);
                        assert(cs@.subrange(pos as int, h.1)[cur - pos] == (seq!['"'] + esc(h.0)
                            + seq!['"'])[cur - pos]);
                        assert(cs@[cur as int] == esc_char(h.0[k])[0]);
                    } else {
                        assert(esc(content@) == esc(h.0));
                        assert(cur == h.1 - 1);
                        assert(cs@.subrange(pos as int, h.1)[cur - pos] == (seq!['"'] + esc(h.0)
                            + seq!['"'])[cur - pos]);
                        assert(cs@[cur as int] == '"');
                    }
                },
                None => {},
            }
        }
        if cur >= len {
            proof {
                match hint {
                    Some(h) => {
                        assert(false);
                    },
                    None => {},
                }
            }
            return Err(StoreError::Parse);
        }
        let c = cs[cur];
        if c == '"' {
            proof {
                match hint {
                    Some(h) => {
                        let k = content@.len() as int;
                        if k < h.0.len() {
                            // the escape of any character never begins with a quote
                            assert(esc_char(h.0[k])[0] != '"');
                            assert(false);
                        }
                        assert(content@ =~= h.0);
                    },
                    None => {},
                }
            }
            cur = cur + 1;
            proof {
                assert(seq!['"'] + esc(content@) + seq!['"'] =~= cs@.subrange(
                    pos as int,
                    cur as int,
                ));
            }
            break;
        } else if c == '\\' {
            proof {
                match hint {
                    Some(h) => {
                        let k = content@.len() as int;
                        assert(k < h.0.len());
                        assert(esc_char(h.0[k])[0] == '\\');
                        assert(esc_char(h.0[k]).len() >= 2);
                        assert(cur - pos + 1 < h.1 - pos);
                        assert(cs@.subrange(pos as int, h.1)[cur - pos + 1] == (seq!['"'] + esc(
                            h.0,
                        ) + seq!['"'])[cur - pos + 1]);
                        assert(cs@[cur + 1] == esc_char(h.0[k])[1]);
                    },
                    None => {},
                }
            }
            if cur + 1 >= len {
                proof {
                    match hint {
                        Some(h) => {
                            assert(false);
                        },
                        None => {},
                    }
                }
                return Err(StoreError::Parse);
            }
            let e = cs[cur + 1];
            if e == '"' || e == '\\' {
                let ghost old_content = content@;
                let ghost oc = cur as int;
                content.push(e);
                cur = cur + 2;
                proof {
                    assert(content@.drop_last() =~= old_content);
                    assert(esc(content@) == esc(old_content) + esc_char(e));
                    assert(cs@.subrange(oc, cur as int) =~= esc_char(e));
                    assert(cs@.subrange(pos as int, cur as int) =~= cs@.subrange(pos as int, oc)
                        + cs@.subrange(oc, cur as int));
                    assert(seq!['"'] + esc(content@) =~= cs@.subrange(pos as int, cur as int));
                    match hint {
                        Some(h) => {
                            let k = old_content.len() as int;
                            assert(esc_char(h.0[k])[1] == e);
                            assert(h.0[k] == e);
                            assert(content@ =~= h.0.subrange(0, k + 1));
                            assert(esc_char(h.0[k]).len() == 2);
                            assert(cur <= h.1 - 1);
                        },
                        None => {},
                    }
                }
            } else if e == 'u' {
                proof {
                    match hint {
                        Some(h) => {
                            let k = content@.len() as int;
                            // the marker after the backslash says this is a control escape
                            assert(h.0[k] != '"' && h.0[k] != '\\');
                            assert((h.0[k] as u32) < 32);
                            assert(esc_char(h.0[k]).len() == 6);
                            assert(cur - pos + 6 < h.1 - pos);
                            assert forall|j: int| 0 <= j < 6 implies cs@[cur + j] == esc_char(
                                h.0[k],
                            )[j] by {
                                assert(cs@.subrange(pos as int, h.1)[cur - pos + j] == (seq!['"']
                                    + esc(h.0) + seq!['"'])[cur - pos + j]);
                            }
                            lemma_hex_char_val((((h.0[k] as u32) / 16) as nat));
                            lemma_hex_char_val((((h.0[k] as u32) % 16) as nat));
                        },
                        None => {},
                    }
                }
                if len - (cur + 1) < 5 {
                    proof {
                        match hint {
                            Some(h) => {
                                assert(false);
                            },
                            None => {},
                        }
                    }
                    return Err(StoreError::Parse);
                }
                if cs[cur + 2] != '0' || cs[cur + 3] != '0' {
                    proof {
                        match hint {
                            Some(h) => {
                                assert(false);
                            },
                            None => {},
                        }
                    }
                    return Err(StoreError::Parse);
                }
                let h1 = match hex_val(cs[cur + 4]) {
                    Some(d) => d,
                    None => {
                        proof {
                            match hint {
                                Some(h) => {
                                    assert(false);
                                },
                                None => {},
                            }
                        }
                        return Err(StoreError::Parse);
                    },
                };
                let h2 = match hex_val(cs[cur + 5]) {
                    Some(d) => d,
                    None => {
                        proof {
                            match hint {
                                Some(h) => {
                                    assert(false);
                                },
                                None => {},
                            }
                        }
                        return Err(StoreError::Parse);
                    },
                };
                let code: u64 = h1 * 16 + h2;
                if code >= 32 {
                    proof {
                        match hint {
                            Some(h) => {
                                let k = content@.len() as int;
                                assert(h1 == (h.0[k] as u32) / 16 && h2 == (h.0[k] as u32) % 16);
                                assert(false);
                            },
                            None => {},
                        }
                    }
                    return Err(StoreError::Parse);
                }
                let decoded: char = (code as u8) as char;
                let ghost old_content = content@;
                let ghost oc = cur as int;
                content.push(decoded);
                cur = cur + 6;
                proof {
                    assert(decoded as u32 == code);
                    assert((decoded as u32) / 16 == h1 && (decoded as u32) % 16 == h2);
                    assert(esc_char(decoded) =~= seq![
                        '\\',
                        'u',
                        '0',
                        '0',
                        hex_char(h1 as nat),
                        hex_char(h2 as nat),
                    ]);
                    assert(content@.drop_last() =~= old_content);
                    assert(esc(content@) == esc(old_content) + esc_char(decoded));
                    assert(cs@.subrange(oc, cur as int) =~= esc_char(decoded));
                    assert(cs@.subrange(pos as int, cur as int) =~= cs@.subrange(pos as int, oc)
                        + cs@.subrange(oc, cur as int));
                    assert(seq!['"'] + esc(content@) =~= cs@.subrange(pos as int, cur as int));
                    match hint {
                        Some(h) => {
                            let k = old_content.len() as int;
                            assert(h1 == (h.0[k] as u32) / 16 && h2 == (h.0[k] as u32) % 16);
                            assert(decoded as u32 == h.0[k] as u32);
                            vstd::utf8::char_u32_cast(decoded, decoded as u32);
                            vstd::utf8::char_u32_cast(h.0[k], decoded as u32);
                            assert(decoded == h.0[k]);
                            assert(content@ =~= h.0.subrange(0, k + 1));
                            assert(cur <= h.1 - 1);
                        },
                        None => {},
                    }
                }
            } else {
                proof {
                    match hint {
                        Some(h) => {
                            let k = content@.len() as int;
                            // the second escape character is a quote, a backslash or `u`
                            assert(false);
                        },
                        None => {},
                    }
                }
                return Err(StoreError::Parse);
            }
        } else {
            let code: u32 = c as u32;
            proof {
                match hint {
                    Some(h) => {
                        let k = content@.len() as int;
                        assert(k < h.0.len());
                        // a character whose escape begins with itself is a plain one
                        assert(h.0[k] != '"' && h.0[k] != '\\' && (h.0[k] as u32) >= 32);
                        assert(cs@[cur as int] == h.0[k]);
                    },
                    None => {},
                }
            }
            if code < 32 {
                proof {
                    match hint {
                        Some(h) => {
                            assert(false);
                        },
                        None => {},
                    }
                }
                return Err(StoreError::Parse);
            }
            let ghost old_content = content@;
            let ghost oc = cur as int;
            content.push(c);
            cur = cur + 1;
            proof {
                assert(content@.drop_last() =~= old_content);
                assert(esc_char(c) =~= seq![c]);
                assert(esc(content@) == esc(old_content) + esc_char(c));
                assert(cs@.subrange(oc, cur as int) =~= esc_char(c));
                assert(cs@.subrange(pos as int, cur as int) =~= cs@.subrange(pos as int, oc)
                    + cs@.subrange(oc, cur as int));
                assert(seq!['"'] + esc(content@) =~= cs@.subrange(pos as int, cur as int));
                match hint {
                    Some(h) => {
                        let k = old_content.len() as int;
                        assert(content@ =~= h.0.subrange(0, k + 1));
                        assert(esc_char(h.0[k]).len() == 1);
                        assert(cur <= h.1 - 1);
                    },
                    None => {},
                }
            }
        }
    }
    let s = string_from_chars(&content);
    Ok((s, cur))
}

/// The magnitude of an integer.
pub open spec fn int_mag(v: i64) -> nat {
    if v < 0 {
        (-(v as int)) as nat
    } else {
        v as nat
    }
}

/// Reads an integer starting at `pos`: an optional minus sign, then decimal
/// digits without a leading zero. A ghost hint naming an integer whose text
/// sits at `pos` obliges the parser to read exactly that integer.
fn parse_int(cs: &Vec<char>, pos: usize, Ghost(hint): Ghost<Option<(i64, int)>>) -> (r: Result<
    (i64, usize),
    StoreError,
>)
    requires
        pos < cs@.len(),
        (match hint {
            Some(h) => pos < h.1 <= cs@.len() && cs@.subrange(pos as int, h.1) == int_text(
                h.0 as int,
            ) && (h.1 == cs@.len() || !is_digit_char(cs@[h.1])),
            None => true,
        }),
    ensures
        r matches Ok(p) ==> pos < p.1 <= cs@.len() && int_text(p.0 as int) == cs@.subrange(
            pos as int,
            p.1 as int,
        ),
        r matches Err(e) ==> e == StoreError::Parse,
        (match hint {
            Some(h) => r matches Ok(p) && p.0 == h.0 && p.1 == h.1,
            None => true,
        }),
{
    let len = cs.len();
    proof {
        match hint {
            Some(h) => {
                lemma_dec_digits_shape(int_mag(h.0));
                if h.0 < 0 {
                    assert(cs@[pos as int] == int_text(h.0 as int)[0]);
                    assert(int_text(h.0 as int) == seq!['-'] + dec_digits(int_mag(h.0)));
                    assert(cs@.subrange(pos as int, h.1).subrange(1, h.1 - pos) =~= cs@.subrange(
                        pos + 1,
                        h.1,
                    ));
                    assert((seq!['-'] + dec_digits(int_mag(h.0))).len() == h.1 - pos);
                    assert(dec_digits(int_mag(h.0)).len() == h.1 - pos - 1);
                    assert forall|k: int| 0 <= k < h.1 - pos - 1 implies (seq!['-'] + dec_digits(
                        int_mag(h.0),
                    )).subrange(1, h.1 - pos)[k] == dec_digits(int_mag(h.0))[k] by {
                        assert((seq!['-'] + dec_digits(int_mag(h.0)))[k + 1] == dec_digits(
                            int_mag(h.0),
                        )[k]);
                    }
                    assert((seq!['-'] + dec_digits(int_mag(h.0))).subrange(1, h.1 - pos)
                        =~= dec_digits(int_mag(h.0)));
                    assert(cs@.subrange(pos + 1, h.1) == dec_digits(int_mag(h.0)));
                } else {
                    assert(cs@.subrange(pos as int, h.1) == dec_digits(int_mag(h.0)));
                    assert(cs@[pos as int] == dec_digits(int_mag(h.0))[0]);
                    assert(spec_digit_val('-') is None);
                    assert(cs@[pos as int] != '-');
                }
            },
            None => {},
        }
    }
    let neg = cs[pos] == '-';
    let start: usize = if neg {
        pos + 1
    } else {
        pos
    };
    proof {
        match hint {
            Some(h) => {
                assert(neg == (h.0 < 0));
                assert(cs@.subrange(start as int, h.1) =~= dec_digits(int_mag(h.0)));
                assert(h.1 - start == dec_digits(int_mag(h.0)).len());
                assert(start < h.1);
            },
            None => {},
        }
    }
    if start >= len {
        proof {
            match hint {
                Some(h) => {
                    assert(false);
                },
                None => {},
            }
        }
        return Err(StoreError::Parse);
    }
    let d0 = match digit_val(cs[start]) {
        Some(d) => d,
        None => {
            proof {
                match hint {
                    Some(h) => {
                        assert(cs@[start as int] == dec_digits(int_mag(h.0))[0]);
                        assert(is_digit_char(cs@[start as int]));
                        assert(false);
                    },
                    None => {},
                }
            }
            return Err(StoreError::Parse);
        },
    };
    let mut mag: u64 = d0;
    let mut cur: usize = start + 1;
    if d0 == 0 {
        proof {
            match hint {
                Some(h) => {
                    assert(cs@[start as int] == '0');
                    assert(cs@[start as int] == dec_digits(int_mag(h.0))[0]);
                    assert(int_mag(h.0) == 0);
                },
                None => {},
            }
        }
        if neg {
            proof {
                match hint {
                    Some(h) => {
                        // a negative integer has magnitude at least one
                        assert(false);
                    },
                    None => {},
                }
            }
            return Err(StoreError::Parse);
        }
        proof {
            assert(dec_digits(0) =~= seq![digit_char(0)]);
            assert(int_text(0) =~= cs@.subrange(pos as int, cur as int));
            match hint {
                Some(h) => {
                    assert(h.0 == 0);
                    assert(h.1 == start + 1);
                },
                None => {},
            }
        }
        return Ok((0i64, cur));
    }
    proof {
        assert(dec_digits(mag as nat) =~= cs@.subrange(start as int, cur as int));
    }
    loop
        invariant_except_break
            start < cur <= len,
            len == cs@.len(),
            mag >= 1,
            dec_digits(mag as nat) == cs@.subrange(start as int, cur as int),
            (match hint {
                Some(h) => start < h.1 <= len && cur <= h.1 && cs@.subrange(start as int, h.1)
                    == dec_digits(int_mag(h.0)) && (h.1 == len || !is_digit_char(cs@[h.1]))
                    && int_mag(h.0) <= 9223372036854775808,
                None => true,
            }),
        ensures
            start < cur <= len,
            mag >= 1,
            dec_digits(mag as nat) == cs@.subrange(start as int, cur as int),
            (match hint {
                Some(h) => cur == h.1 && mag == int_mag(h.0),
                None => true,
            }),
        decreases len - cur,
    {
        proof {
            match hint {
                Some(h) => {
                    lemma_dec_digits_shape(int_mag(h.0));
                    assert(dec_digits(mag as nat) =~= dec_digits(int_mag(h.0)).subrange(
                        0,
                        cur - start,
                    ));
                    lemma_dec_prefix_bound(mag as nat, int_mag(h.0), cur - start);
                },
                None => {},
            }
        }
        if cur >= len {
            proof {
                match hint {
                    Some(h) => {
                        assert(cur == h.1);
                        assert(dec_digits(mag as nat) == dec_digits(int_mag(h.0)));
                        lemma_dec_digits_injective(mag as nat, int_mag(h.0));
                    },
                    None => {},
                }
            }
            break;
        }
        let d = match digit_val(cs[cur]) {
            Some(d) => d,
            None => {
                proof {
                    match hint {
                        Some(h) => {
                            if cur < h.1 {
                                assert(cs@[cur as int] == dec_digits(int_mag(h.0))[cur - start]);
                                assert(is_digit_char(cs@[cur as int]));
                                assert(false);
                            }
                            assert(cur == h.1);
                            assert(dec_digits(mag as nat) == dec_digits(int_mag(h.0)));
                            lemma_dec_digits_injective(mag as nat, int_mag(h.0));
                        },
                        None => {},
                    }
                }
                break;
            },
        };
        proof {
            match hint {
                Some(h) => {
                    if cur == h.1 {
                        assert(h.1 < len);
                        assert(!is_digit_char(cs@[h.1]));
                        assert(false);
                    }
                    assert(cur < h.1);
                    assert(mag as nat <= int_mag(h.0) / 10);
                    assert(10 * (int_mag(h.0) / 10) <= int_mag(h.0)) by (nonlinear_arith);
                    assert(mag as nat * 10 <= int_mag(h.0)) by (nonlinear_arith)
                        requires
                            mag as nat <= int_mag(h.0) / 10,
                            10 * (int_mag(h.0) / 10) <= int_mag(h.0),
                    ;
                },
                None => {},
            }
        }
        let m10 = match mag.checked_mul(10) {
            Some(m) => m,
            None => {
                proof {
                    match hint {
                        Some(h) => {
                            assert(false);
                        },
                        None => {},
                    }
                }
                return Err(StoreError::Parse);
            },
        };
        let next = match m10.checked_add(d) {
            Some(m) => m,
            None => {
                proof {
                    match hint {
                        Some(h) => {
                            assert(false);
                        },
                        None => {},
                    }
                }
                return Err(StoreError::Parse);
            },
        };
        let ghost old_mag = mag;
        mag = next;
        cur = cur + 1;
        proof {
            assert(mag >= 10);
            assert(mag as nat / 10 == old_mag as nat && mag as nat % 10 == d as nat);
            assert(dec_digits(mag as nat) == dec_digits(old_mag as nat).push(
                digit_char(d as nat),
            ));
            assert(dec_digits(mag as nat) =~= cs@.subrange(start as int, cur as int));
        }
    }
    if neg {
        if mag > 9223372036854775808u64 {
            proof {
                match hint {
                    Some(h) => {
                        assert(false);
                    },
                    None => {},
                }
            }
            return Err(StoreError::Parse);
        }
        let i: i64 = if mag == 9223372036854775808u64 {
            i64::MIN
        } else {
            -(mag as i64)
        };
        proof {
            assert((-(i as int)) as nat == mag as nat);
            assert(int_text(i as int) =~= cs@.subrange(pos as int, cur as int));
            match hint {
                Some(h) => {
                    assert(int_mag(h.0) == mag as nat && h.0 < 0);
                    assert(i == h.0);
                },
                None => {},
            }
        }
        Ok((i, cur))
    } else {
        if mag > 9223372036854775807u64 {
            proof {
                match hint {
                    Some(h) => {
                        assert(int_mag(h.0) == mag as nat && h.0 >= 0);
                        assert(false);
                    },
                    None => {},
                }
            }
            return Err(StoreError::Parse);
        }
        let i: i64 = mag as i64;
        proof {
            assert(int_text(i as int) =~= cs@.subrange(pos as int, cur as int));
            match hint {
                Some(h) => {
                    assert(int_mag(h.0) == mag as nat && h.0 >= 0);
                    assert(i == h.0);
                },
                None => {},
            }
        }
        Ok((i, cur))
    }
}

proof fn lemma_items_text_push(ms: Seq<JsonModel>, m: JsonModel)
    ensures
        items_text(ms.push(m)) == items_text(ms) + (if ms.len() == 0 {
            Seq::<char>::empty()
        } else {
            seq![',']
        }) + text_of(m),
{
    let post = ms.push(m);
    assert(post.drop_last() =~= ms);
    assert(post.last() == m);
    if ms.len() == 0 {
        assert(items_text(post) == text_of(m));
        assert(items_text(ms) + Seq::<char>::empty() + text_of(m) =~= text_of(m));
    } else {
        assert(items_text(post) == items_text(ms) + seq![','] + text_of(m));
    }
}

proof fn lemma_entries_text_push(ms: Seq<(Seq<char>, JsonModel)>, e: (Seq<char>, JsonModel))
    ensures
        entries_text(ms.push(e)) == entries_text(ms) + (if ms.len() == 0 {
            Seq::<char>::empty()
        } else {
            seq![',']
        }) + entry_text(e),
{
    let post = ms.push(e);
    assert(post.drop_last() =~= ms);
    assert(post.last() == e);
    if ms.len() == 0 {
        assert(entries_text(post) == entry_text(e));
        assert(entries_text(ms) + Seq::<char>::empty() + entry_text(e) =~= entry_text(e));
    } else {
        assert(entries_text(post) == entries_text(ms) + seq![','] + entry_text(e));
    }
}

/// Reads one value starting at `pos`; yields the value and the position just
/// past its text, which is exactly the value's canonical text.
proof fn lemma_subrange_split(s: Seq<char>, a: int, b: int, x: Seq<char>, y: Seq<char>)
    requires
        0 <= a <= b <= s.len(),
        s.subrange(a, b) == x + y,
    ensures
        a + x.len() <= b,
        s.subrange(a, a + x.len() as int) == x,
        s.subrange(a + x.len() as int, b) == y,
{
    let t = x + y;
    assert(t.len() == x.len() + y.len());
    assert(s.subrange(a, b).len() == b - a);
    assert(b - a == x.len() + y.len());
    assert(s.subrange(a, b).subrange(0, x.len() as int) =~= s.subrange(a, a + x.len() as int));
    assert(t.subrange(0, x.len() as int) =~= x);
    assert(s.subrange(a, b).subrange(0, x.len() as int) == t.subrange(0, x.len() as int));
    assert(s.subrange(a, b).subrange(x.len() as int, b - a) =~= s.subrange(
        a + x.len() as int,
        b,
    ));
    assert(t.subrange(x.len() as int, b - a) =~= y);
    assert(s.subrange(a, b).subrange(x.len() as int, b - a) == t.subrange(
        x.len() as int,
        b - a,
    ));
}

/// Reads one value starting at `pos`; yields the value and the position just
/// past its text, which is exactly the value's canonical text. A ghost hint
/// naming a value whose text sits at `pos` obliges the parser to read
/// exactly that value.
#[verifier::rlimit(100)]
fn parse_value(cs: &Vec<char>, pos: usize, Ghost(hint): Ghost<Option<(JsonModel, int)>>) -> (r:
    Result<(JsonValue, usize), StoreError>)
    requires
        pos < cs@.len(),
        (match hint {
            Some(h) => pos < h.1 <= cs@.len() && cs@.subrange(pos as int, h.1) == text_of(h.0)
                && (h.1 == cs@.len() || !is_digit_char(cs@[h.1])),
            None => true,
        }),
    ensures
        r matches Ok(p) ==> pos < p.1 <= cs@.len() && text_of(p.0@) == cs@.subrange(
            pos as int,
            p.1 as int,
        ),
        r matches Err(e) ==> e == StoreError::Parse,
        (match hint {
            Some(h) => r matches Ok(p) && p.0@ == h.0 && p.1 == h.1,
            None => true,
        }),
    decreases cs@.len() - pos,
{
    let len = cs.len();
    proof {
        match hint {
            Some(h) => {
                lemma_text_first(h.0);
                assert(cs@.subrange(pos as int, h.1)[0] == text_of(h.0)[0]);
                assert(cs@[pos as int] == text_of(h.0)[0]);
            },
            None => {},
        }
    }
    let c = cs[pos];
    if c == 'n' {
        proof {
            match hint {
                Some(h) => {
                    assert(spec_digit_val('n') is None);
                    assert(h.0 matches JsonModel::Null);
                    assert(text_of(h.0) =~= seq!['n', 'u', 'l', 'l']);
                    assert(h.1 == pos + 4);
                    assert(cs@.subrange(pos as int, h.1)[1] == 'u');
                    assert(cs@.subrange(pos as int, h.1)[2] == 'l');
                    assert(cs@.subrange(pos as int, h.1)[3] == 'l');
                },
                None => {},
            }
        }
        if len - pos < 4 || cs[pos + 1] != 'u' || cs[pos + 2] != 'l' || cs[pos + 3] != 'l' {
            proof {
                match hint {
                    Some(h) => {
                        assert(false);
                    },
                    None => {},
                }
            }
            return Err(StoreError::Parse);
        }
        proof {
            assert(text_of(jmodel(JsonValue::Null)) =~= cs@.subrange(pos as int, pos + 4));
        }
        Ok((JsonValue::Null, pos + 4))
    } else if c == 't' {
        proof {
            match hint {
                Some(h) => {
                    assert(spec_digit_val('t') is None);
                    assert(h.0 matches JsonModel::Bool(_) && h.0->Bool_0 == true);
                    assert(text_of(h.0) =~= seq!['t', 'r', 'u', 'e']);
                    assert(h.1 == pos + 4);
                    assert(cs@.subrange(pos as int, h.1)[1] == 'r');
                    assert(cs@.subrange(pos as int, h.1)[2] == 'u');
                    assert(cs@.subrange(pos as int, h.1)[3] == 'e');
                },
                None => {},
            }
        }
        if len - pos < 4 || cs[pos + 1] != 'r' || cs[pos + 2] != 'u' || cs[pos + 3] != 'e' {
            proof {
                match hint {
                    Some(h) => {
                        assert(false);
                    },
                    None => {},
                }
            }
            return Err(StoreError::Parse);
        }
        proof {
            assert(text_of(jmodel(JsonValue::Bool(true))) =~= cs@.subrange(pos as int, pos + 4));
        }
        Ok((JsonValue::Bool(true), pos + 4))
    } else if c == 'f' {
        proof {
            match hint {
                Some(h) => {
                    assert(spec_digit_val('f') is None);
                    assert(h.0 matches JsonModel::Bool(_) && h.0->Bool_0 == false);
                    assert(text_of(h.0) =~= seq!['f', 'a', 'l', 's', 'e']);
                    assert(h.1 == pos + 5);
                    assert(cs@.subrange(pos as int, h.1)[1] == 'a');
                    assert(cs@.subrange(pos as int, h.1)[2] == 'l');
                    assert(cs@.subrange(pos as int, h.1)[3] == 's');
                    assert(cs@.subrange(pos as int, h.1)[4] == 'e');
                },
                None => {},
            }
        }
        if len - pos < 5 || cs[pos + 1] != 'a' || cs[pos + 2] != 'l' || cs[pos + 3] != 's'
            || cs[pos + 4] != 'e' {
            proof {
                match hint {
                    Some(h) => {
                        assert(false);
                    },
                    None => {},
                }
            }
            return Err(StoreError::Parse);
        }
        proof {
            assert(text_of(jmodel(JsonValue::Bool(false))) =~= cs@.subrange(pos as int, pos + 5));
        }
        Ok((JsonValue::Bool(false), pos + 5))
    } else if c == '"' {
        let ghost shint: Option<(Seq<char>, int)> = match hint {
            Some(h) => match h.0 {
                JsonModel::Str(s0) => Some((s0, h.1)),
                _ => None,
            },
            None => None,
        };
        proof {
            match hint {
                Some(h) => {
                    assert(spec_digit_val('"') is None);
                    assert(h.0 matches JsonModel::Str(_));
                    assert(shint == Some((h.0->Str_0, h.1)));
                },
                None => {},
            }
        }
        match parse_string(cs, pos, Ghost(shint)) {
            Ok((s, end)) => {
                proof {
                    assert(text_of(jmodel(JsonValue::Str(s))) == seq!['"'] + esc(s@) + seq!['"']);
                    match hint {
                        Some(h) => {
                            assert(jmodel(JsonValue::Str(s)) == h.0);
                        },
                        None => {},
                    }
                }
                Ok((JsonValue::Str(s), end))
            },
            Err(e) => {
                proof {
                    match hint {
                        Some(h) => {
                            assert(false);
                        },
                        None => {},
                    }
                }
                Err(e)
            },
        }
    } else if c == '[' {
        let ghost items: Seq<JsonModel> = match hint {
            Some(h) => match h.0 {
                JsonModel::Arr(its) => its,
                _ => Seq::empty(),
            },
            None => Seq::empty(),
        };
        let mut elems: Vec<JsonValue> = Vec::new();
        let mut cur: usize = pos + 1;
        proof {
            match hint {
                Some(h) => {
                    assert(spec_digit_val('[') is None);
                    assert(h.0 matches JsonModel::Arr(_));
                    assert(h.0 == JsonModel::Arr(items));
                    assert(text_of(h.0) =~= seq!['['] + (items_text(items) + seq![']']));
                    lemma_subrange_split(
                        cs@,
                        pos as int,
                        h.1,
                        seq!['['],
                        items_text(items) + seq![']'],
                    );
                    if items.len() == 0 {
                        assert(items_text(items) == Seq::<char>::empty());
                        assert(items_text(items) + seq![']'] =~= seq![']']);
                        assert(h.1 == pos + 2);
                        assert(cs@.subrange(pos + 1, h.1)[0] == ']');
                        assert(cs@[pos + 1] == ']');
                    } else {
                        lemma_items_text_front(items);
                        lemma_text_first(items[0]);
                        assert(items.drop_first() =~= items.subrange(1, items.len() as int));
                        assert(items_text(items) + seq![']'] =~= text_of(items[0]) + (
                        tail_items_text(items.subrange(1, items.len() as int)) + seq![']']));
                        assert(cs@.subrange(pos + 1, h.1) == text_of(items[0]) + (tail_items_text(
                            items.subrange(1, items.len() as int),
                        ) + seq![']']));
                        assert(cs@.subrange(pos + 1, h.1)[0] == text_of(items[0])[0]);
                        assert(cs@[pos + 1] == text_of(items[0])[0]);
                        assert(spec_digit_val(']') is None);
                        assert(cs@[pos + 1] != ']');
                    }
                    assert((items.len() == 0) <==> (cs@[pos + 1] == ']'));
                },
                None => {},
            }
        }
        if cur < len && cs[cur] == ']' {
            proof {
                assert(jmodel_items(elems@) =~= Seq::<JsonModel>::empty());
                assert(text_of(jmodel(JsonValue::Arr(elems))) =~= cs@.subrange(
                    pos as int,
                    cur + 1,
                ));
                match hint {
                    Some(h) => {
                        assert(cs@[pos + 1] == ']');
                        assert(items.len() == 0);
                        assert(h.0 == JsonModel::Arr(items));
                        assert(jmodel_items(elems@) =~~= items);
                        assert(jmodel(JsonValue::Arr(elems)) == JsonModel::Arr(
                            jmodel_items(elems@),
                        ));
                        assert(jmodel(JsonValue::Arr(elems)) =~~= h.0);
                        assert(cur + 1 == h.1);
                    },
                    None => {},
                }
            }
            return Ok((JsonValue::Arr(elems), cur + 1));
        }
        proof {
            match hint {
                Some(h) => {
                    assert(pos + 1 < h.1 <= len);
                    assert(items.len() > 0);
                    assert(jmodel_items(elems@) =~= items.subrange(0, 0));
                },
                None => {},
            }
        }
        loop
            invariant_except_break
                pos < cur <= len,
                len == cs@.len(),
                cs@.subrange(pos as int, cur as int) =~= seq!['['] + items_text(
                    jmodel_items(elems@),
                ) + (if elems@.len() == 0 {
                    Seq::<char>::empty()
                } else {
                    seq![',']
                }),
                (match hint {
                    Some(h) => h.0 == JsonModel::Arr(items) && pos < h.1 <= len && cur < h.1 && (
                    h.1 == len || !is_digit_char(cs@[h.1])) && elems@.len() < items.len()
                        && jmodel_items(elems@) == items.subrange(0, elems@.len() as int)
                        && cs@.subrange(cur as int, h.1) == text_of(
                        items[elems@.len() as int],
                    ) + (tail_items_text(
                        items.subrange(elems@.len() as int + 1, items.len() as int),
                    ) + seq![']']),
                    None => true,
                }),
            ensures
                pos < cur <= len,
                cs@.subrange(pos as int, cur as int) =~= seq!['['] + items_text(
                    jmodel_items(elems@),
                ) + seq![']'],
                (match hint {
                    Some(h) => jmodel_items(elems@) == items && cur == h.1,
                    None => true,
                }),
            decreases len - cur,
        {
            let ghost k = elems@.len() as int;
            proof {
                match hint {
                    Some(h) => {
                        lemma_text_first(items[k]);
                        assert(cs@.subrange(cur as int, h.1).len() == h.1 - cur);
                        assert((tail_items_text(
                            items.subrange(k + 1, items.len() as int),
                        ) + seq![']']).len() == tail_items_text(
                            items.subrange(k + 1, items.len() as int),
                        ).len() + 1);
                        assert((text_of(items[k]) + (tail_items_text(
                            items.subrange(k + 1, items.len() as int),
                        ) + seq![']'])).len() >= 2);
                        assert(h.1 - cur >= 2);
                        assert(cur < len);
                    },
                    None => {},
                }
            }
            if cur >= len {
                proof {
                    match hint {
                        Some(h) => {
                            assert(false);
                        },
                        None => {},
                    }
                }
                return Err(StoreError::Parse);
            }
            let ghost vhint: Option<(JsonModel, int)> = match hint {
                Some(h) => Some((items[k], cur + text_of(items[k]).len() as int)),
                None => None,
            };
            proof {
                match hint {
                    Some(h) => {
                        lemma_subrange_split(
                            cs@,
                            cur as int,
                            h.1,
                            text_of(items[k]),
                            tail_items_text(items.subrange(k + 1, items.len() as int))
                                + seq![']'],
                        );
                        let e_end = cur + text_of(items[k]).len() as int;
                        let rest = tail_items_text(items.subrange(k + 1, items.len() as int))
                            + seq![']'];
                        if k + 1 < items.len() {
                            assert(items.subrange(k + 1, items.len() as int).len() > 0);
                            assert(rest[0] == ',');
                        } else {
                            assert(items.subrange(k + 1, items.len() as int).len() == 0);
                            assert(tail_items_text(items.subrange(k + 1, items.len() as int))
                                == Seq::<char>::empty());
                            assert(rest =~= seq![']']);
                            assert(rest[0] == ']');
                        }
                        assert(cs@.subrange(e_end, h.1)[0] == rest[0]);
                        assert(cs@[e_end] == ',' || cs@[e_end] == ']');
                        assert(spec_digit_val(',') is None && spec_digit_val(']') is None);
                        assert(e_end < h.1);
                    },
                    None => {},
                }
            }
            let ghost old_elems = elems@;
            match parse_value(cs, cur, Ghost(vhint)) {
                Ok((v, end)) => {
                    proof {
                        lemma_items_text_push(jmodel_items(old_elems), jmodel(v));
                    }
                    elems.push(v);
                    proof {
                        assert(elems@.drop_last() =~= old_elems);
                        assert(jmodel_items(elems@) == jmodel_items(old_elems).push(jmodel(v)));
                    }
                    let ghost oc = cur as int;
                    cur = end;
                    proof {
                        assert(cs@.subrange(oc, cur as int) == text_of(jmodel(v)));
                        assert(cs@.subrange(pos as int, cur as int) =~= cs@.subrange(
                            pos as int,
                            oc,
                        ) + cs@.subrange(oc, cur as int));
                        assert(cs@.subrange(pos as int, cur as int) =~= seq!['['] + items_text(
                            jmodel_items(elems@),
                        ));
                        match hint {
                            Some(h) => {
                                assert(jmodel(v) == items[k]);
                                assert(jmodel_items(elems@) =~= items.subrange(0, k + 1));
                                assert(cur == oc + text_of(items[k]).len());
                            },
                            None => {},
                        }
                    }
                },
                Err(e) => {
                    proof {
                        match hint {
                            Some(h) => {
                                assert(false);
                            },
                            None => {},
                        }
                    }
                    return Err(e);
                },
            }
            proof {
                match hint {
                    Some(h) => {
                        assert(cur < h.1 <= len);
                    },
                    None => {},
                }
            }
            if cur >= len {
                proof {
                    match hint {
                        Some(h) => {
                            assert(false);
                        },
                        None => {},
                    }
                }
                return Err(StoreError::Parse);
            }
            let t = cs[cur];
            proof {
                match hint {
                    Some(h) => {
                        let rest = tail_items_text(items.subrange(k + 1, items.len() as int))
                            + seq![']'];
                        assert(cs@.subrange(cur as int, h.1) == rest);
                        assert(cs@.subrange(cur as int, h.1)[0] == rest[0]);
                        assert(t == rest[0]);
                    },
                    None => {},
                }
            }
            if t == ']' {
                proof {
                    match hint {
                        Some(h) => {
                            if k + 1 < items.len() {
                                assert(items.subrange(k + 1, items.len() as int).len() > 0);
                                assert(t == ',');
                                assert(false);
                            }
                            assert(elems@.len() == items.len());
                            assert(jmodel_items(elems@) =~= items);
                            assert(tail_items_text(items.subrange(k + 1, items.len() as int))
                                == Seq::<char>::empty());
                            assert(cs@.subrange(cur as int, h.1) =~= seq![']']);
                            assert(cur + 1 == h.1);
                        },
                        None => {},
                    }
                }
                cur = cur + 1;
                proof {
                    assert(cs@.subrange(pos as int, cur as int) =~= seq!['['] + items_text(
                        jmodel_items(elems@),
                    ) + seq![']']);
                }
                break;
            } else if t == ',' {
                proof {
                    match hint {
                        Some(h) => {
                            if k + 1 == items.len() {
                                assert(cs@.subrange(cur as int, h.1) =~= seq![']']);
                                assert(t == ']');
                                assert(false);
                            }
                            assert(k + 1 < items.len());
                            let sub1 = items.subrange(k + 1, items.len() as int);
                            assert(sub1[0] == items[k + 1]);
                            assert(sub1.drop_first() =~= items.subrange(
                                k + 2,
                                items.len() as int,
                            ));
                            assert(tail_items_text(sub1) == seq![','] + text_of(items[k + 1])
                                + tail_items_text(items.subrange(k + 2, items.len() as int)));
                            assert(cs@.subrange(cur as int, h.1) =~= seq![','] + (text_of(
                                items[k + 1],
                            ) + (tail_items_text(items.subrange(k + 2, items.len() as int))
                                + seq![']'])));
                            lemma_subrange_split(
                                cs@,
                                cur as int,
                                h.1,
                                seq![','],
                                text_of(items[k + 1]) + (tail_items_text(
                                    items.subrange(k + 2, items.len() as int),
                                ) + seq![']']),
                            );
                        },
                        None => {},
                    }
                }
                cur = cur + 1;
                proof {
                    assert(elems@.len() > 0);
                    assert(cs@.subrange(pos as int, cur as int) =~= seq!['['] + items_text(
                        jmodel_items(elems@),
                    ) + seq![',']);
                }
            } else {
                proof {
                    match hint {
                        Some(h) => {
                            assert(false);
                        },
                        None => {},
                    }
                }
                return Err(StoreError::Parse);
            }
        }
        proof {
            assert(text_of(jmodel(JsonValue::Arr(elems))) =~= cs@.subrange(pos as int, cur as int));
            match hint {
                Some(h) => {
                    assert(jmodel(JsonValue::Arr(elems)) =~~= h.0);
                },
                None => {},
            }
        }
        Ok((JsonValue::Arr(elems), cur))
    } else if c == '{' {
        let ghost oentries: Seq<(Seq<char>, JsonModel)> = match hint {
            Some(h) => match h.0 {
                JsonModel::Obj(es) => es,
                _ => Seq::empty(),
            },
            None => Seq::empty(),
        };
        let mut entries: Vec<(String, JsonValue)> = Vec::new();
        let mut cur: usize = pos + 1;
        proof {
            match hint {
                Some(h) => {
                    assert(spec_digit_val('{') is None);
                    assert(h.0 matches JsonModel::Obj(_));
                    assert(h.0 == JsonModel::Obj(oentries));
                    assert(text_of(h.0) =~= seq!['{'] + (entries_text(oentries) + seq!['}']));
                    lemma_subrange_split(
                        cs@,
                        pos as int,
                        h.1,
                        seq!['{'],
                        entries_text(oentries) + seq!['}'],
                    );
                    if oentries.len() == 0 {
                        assert(entries_text(oentries) == Seq::<char>::empty());
                        assert(entries_text(oentries) + seq!['}'] =~= seq!['}']);
                        assert(h.1 == pos + 2);
                        assert(cs@.subrange(pos + 1, h.1)[0] == '}');
                        assert(cs@[pos + 1] == '}');
                    } else {
                        lemma_entries_text_front(oentries);
                        assert(oentries.drop_first() =~= oentries.subrange(
                            1,
                            oentries.len() as int,
                        ));
                        assert(entries_text(oentries) + seq!['}'] =~= entry_text(oentries[0]) + (
                        tail_entries_text(oentries.subrange(1, oentries.len() as int))
                            + seq!['}']));
                        assert(cs@.subrange(pos + 1, h.1) == entry_text(oentries[0]) + (
                        tail_entries_text(oentries.subrange(1, oentries.len() as int))
                            + seq!['}']));
                        assert(entry_text(oentries[0])[0] == '"');
                        assert(cs@.subrange(pos + 1, h.1)[0] == '"');
                        assert(cs@[pos + 1] == '"');
                    }
                    assert((oentries.len() == 0) <==> (cs@[pos + 1] == '}'));
                },
                None => {},
            }
        }
        if cur < len && cs[cur] == '}' {
            proof {
                assert(jmodel_entries(entries@) =~= Seq::<(Seq<char>, JsonModel)>::empty());
                assert(text_of(jmodel(JsonValue::Obj(entries))) =~= cs@.subrange(
                    pos as int,
                    cur + 1,
                ));
                match hint {
                    Some(h) => {
                        assert(cs@[pos + 1] == '}');
                        assert(oentries.len() == 0);
                        assert(h.0 == JsonModel::Obj(oentries));
                        assert(jmodel_entries(entries@) =~~= oentries);
                        assert(jmodel(JsonValue::Obj(entries)) == JsonModel::Obj(
                            jmodel_entries(entries@),
                        ));
                        assert(jmodel(JsonValue::Obj(entries)) =~~= h.0);
                        assert(cur + 1 == h.1);
                    },
                    None => {},
                }
            }
            return Ok((JsonValue::Obj(entries), cur + 1));
        }
        proof {
            match hint {
                Some(h) => {
                    assert(pos + 1 < h.1 <= len);
                    assert(oentries.len() > 0);
                    assert(jmodel_entries(entries@) =~= oentries.subrange(0, 0));
                },
                None => {},
            }
        }
        loop
            invariant_except_break
                pos < cur <= len,
                len == cs@.len(),
                cs@.subrange(pos as int, cur as int) =~= seq!['{'] + entries_text(
                    jmodel_entries(entries@),
                ) + (if entries@.len() == 0 {
                    Seq::<char>::empty()
                } else {
                    seq![',']
                }),
                (match hint {
                    Some(h) => h.0 == JsonModel::Obj(oentries) && pos < h.1 <= len && cur < h.1
                        && (h.1 == len || !is_digit_char(cs@[h.1])) && entries@.len()
                        < oentries.len()
                        && jmodel_entries(entries@) == oentries.subrange(0, entries@.len() as int)
                        && cs@.subrange(cur as int, h.1) == entry_text(
                        oentries[entries@.len() as int],
                    ) + (tail_entries_text(
                        oentries.subrange(entries@.len() as int + 1, oentries.len() as int),
                    ) + seq!['}']),
                    None => true,
                }),
            ensures
                pos < cur <= len,
                cs@.subrange(pos as int, cur as int) =~= seq!['{'] + entries_text(
                    jmodel_entries(entries@),
                ) + seq!['}'],
                (match hint {
                    Some(h) => jmodel_entries(entries@) == oentries && cur == h.1,
                    None => true,
                }),
            decreases len - cur,
        {
            let ghost k = entries@.len() as int;
            proof {
                match hint {
                    Some(h) => {
                        assert(cs@.subrange(cur as int, h.1).len() == h.1 - cur);
                        lemma_text_first(oentries[k].1);
                        assert(entry_text(oentries[k]).len() == 3 + esc(oentries[k].0).len()
                            + text_of(oentries[k].1).len());
                        assert((tail_entries_text(
                            oentries.subrange(k + 1, oentries.len() as int),
                        ) + seq!['}']).len() == tail_entries_text(
                            oentries.subrange(k + 1, oentries.len() as int),
                        ).len() + 1);
                        assert((entry_text(oentries[k]) + (tail_entries_text(
                            oentries.subrange(k + 1, oentries.len() as int),
                        ) + seq!['}'])).len() >= 2);
                        assert(h.1 - cur >= 2);
                        assert(cur < len);
                        assert(cs@.subrange(cur as int, h.1)[0] == entry_text(oentries[k])[0]);
                        assert(cs@[cur as int] == '"');
                    },
                    None => {},
                }
            }
            if cur >= len {
                proof {
                    match hint {
                        Some(h) => {
                            assert(false);
                        },
                        None => {},
                    }
                }
                return Err(StoreError::Parse);
            }
            if cs[cur] != '"' {
                proof {
                    match hint {
                        Some(h) => {
                            assert(false);
                        },
                        None => {},
                    }
                }
                return Err(StoreError::Parse);
            }
            let ghost khint: Option<(Seq<char>, int)> = match hint {
                Some(h) => Some(
                    (oentries[k].0, cur + 2 + esc(oentries[k].0).len() as int),
                ),
                None => None,
            };
            proof {
                match hint {
                    Some(h) => {
                        let key_text = seq!['"'] + esc(oentries[k].0) + seq!['"'];
                        let val_rest = seq![':'] + text_of(oentries[k].1) + (tail_entries_text(
                            oentries.subrange(k + 1, oentries.len() as int),
                        ) + seq!['}']);
                        assert(entry_text(oentries[k]) + (tail_entries_text(
                            oentries.subrange(k + 1, oentries.len() as int),
                        ) + seq!['}']) =~= key_text + val_rest);
                        lemma_subrange_split(cs@, cur as int, h.1, key_text, val_rest);
                    },
                    None => {},
                }
            }
            let ghost entry_start = cur;
            let (key, key_end) = match parse_string(cs, cur, Ghost(khint)) {
                Ok(p) => p,
                Err(e) => {
                    proof {
                        match hint {
                            Some(h) => {
                                assert(false);
                            },
                            None => {},
                        }
                    }
                    return Err(e);
                },
            };
            proof {
                match hint {
                    Some(h) => {
                        let val_rest = seq![':'] + text_of(oentries[k].1) + (tail_entries_text(
                            oentries.subrange(k + 1, oentries.len() as int),
                        ) + seq!['}']);
                        assert(key@ == oentries[k].0);
                        assert(key_end == cur + 2 + esc(oentries[k].0).len());
                        assert(cs@.subrange(key_end as int, h.1) == val_rest);
                        assert(cs@.subrange(key_end as int, h.1)[0] == ':');
                        assert(cs@[key_end as int] == ':');
                        lemma_text_first(oentries[k].1);
                        assert(val_rest =~= seq![':'] + (text_of(oentries[k].1) + (
                        tail_entries_text(oentries.subrange(k + 1, oentries.len() as int))
                            + seq!['}'])));
                        lemma_subrange_split(
                            cs@,
                            key_end as int,
                            h.1,
                            seq![':'],
                            text_of(oentries[k].1) + (tail_entries_text(
                                oentries.subrange(k + 1, oentries.len() as int),
                            ) + seq!['}']),
                        );
                        assert(key_end + 1 < h.1 <= len);
                    },
                    None => {},
                }
            }
            if key_end >= len || cs[key_end] != ':' {
                proof {
                    match hint {
                        Some(h) => {
                            assert(false);
                        },
                        None => {},
                    }
                }
                return Err(StoreError::Parse);
            }
            if key_end + 1 >= len {
                proof {
                    match hint {
                        Some(h) => {
                            assert(false);
                        },
                        None => {},
                    }
                }
                return Err(StoreError::Parse);
            }
            let ghost vhint: Option<(JsonModel, int)> = match hint {
                Some(h) => Some(
                    (oentries[k].1, key_end + 1 + text_of(oentries[k].1).len() as int),
                ),
                None => None,
            };
            proof {
                match hint {
                    Some(h) => {
                        lemma_subrange_split(
                            cs@,
                            key_end + 1,
                            h.1,
                            text_of(oentries[k].1),
                            tail_entries_text(oentries.subrange(k + 1, oentries.len() as int))
                                + seq!['}'],
                        );
                        let e_end = key_end + 1 + text_of(oentries[k].1).len() as int;
                        let rest = tail_entries_text(
                            oentries.subrange(k + 1, oentries.len() as int),
                        ) + seq!['}'];
                        if k + 1 < oentries.len() {
                            assert(oentries.subrange(k + 1, oentries.len() as int).len() > 0);
                            assert(rest[0] == ',');
                        } else {
                            assert(oentries.subrange(k + 1, oentries.len() as int).len() == 0);
                            assert(tail_entries_text(
                                oentries.subrange(k + 1, oentries.len() as int),
                            ) == Seq::<char>::empty());
                            assert(rest =~= seq!['}']);
                            assert(rest[0] == '}');
                        }
                        assert(cs@.subrange(e_end, h.1)[0] == rest[0]);
                        assert(cs@[e_end] == ',' || cs@[e_end] == '}');
                        assert(spec_digit_val(',') is None && spec_digit_val('}') is None);
                        assert(e_end < h.1);
                    },
                    None => {},
                }
            }
            let ghost old_entries = entries@;
            match parse_value(cs, key_end + 1, Ghost(vhint)) {
                Ok((v, end)) => {
                    proof {
                        lemma_entries_text_push(
                            jmodel_entries(old_entries),
                            (key@, jmodel(v)),
                        );
                    }
                    entries.push((key, v));
                    proof {
                        assert(entries@.drop_last() =~= old_entries);
                        assert(jmodel_entries(entries@) == jmodel_entries(old_entries).push(
                            (entries@.last().0@, jmodel(entries@.last().1)),
                        ));
                        assert(cs@.subrange(entry_start as int, end as int) =~= cs@.subrange(
                            entry_start as int,
                            key_end as int,
                        ) + cs@.subrange(key_end as int, key_end + 1) + cs@.subrange(
                            key_end + 1,
                            end as int,
                        ));
                        assert(cs@.subrange(key_end as int, key_end + 1) =~= seq![':']);
                        assert(cs@.subrange(entry_start as int, end as int) =~= entry_text(
                            (entries@.last().0@, jmodel(entries@.last().1)),
                        ));
                    }
                    cur = end;
                    proof {
                        assert(cs@.subrange(pos as int, cur as int) =~= cs@.subrange(
                            pos as int,
                            entry_start as int,
                        ) + cs@.subrange(entry_start as int, cur as int));
                        assert(cs@.subrange(pos as int, cur as int) =~= seq!['{'] + entries_text(
                            jmodel_entries(entries@),
                        ));
                        match hint {
                            Some(h) => {
                                assert(jmodel(v) == oentries[k].1);
                                assert(jmodel_entries(entries@) =~= oentries.subrange(0, k + 1));
                                assert(cur == key_end + 1 + text_of(oentries[k].1).len());
                            },
                            None => {},
                        }
                    }
                },
                Err(e) => {
                    proof {
                        match hint {
                            Some(h) => {
                                assert(false);
                            },
                            None => {},
                        }
                    }
                    return Err(e);
                },
            }
            proof {
                match hint {
                    Some(h) => {
                        assert(cur < h.1 <= len);
                    },
                    None => {},
                }
            }
            if cur >= len {
                proof {
                    match hint {
                        Some(h) => {
                            assert(false);
                        },
                        None => {},
                    }
                }
                return Err(StoreError::Parse);
            }
            let t = cs[cur];
            proof {
                match hint {
                    Some(h) => {
                        let rest = tail_entries_text(
                            oentries.subrange(k + 1, oentries.len() as int),
                        ) + seq!['}'];
                        assert(cs@.subrange(cur as int, h.1) == rest);
                        assert(cs@.subrange(cur as int, h.1)[0] == rest[0]);
                        assert(t == rest[0]);
                    },
                    None => {},
                }
            }
            if t == '}' {
                proof {
                    match hint {
                        Some(h) => {
                            if k + 1 < oentries.len() {
                                assert(oentries.subrange(k + 1, oentries.len() as int).len()
                                    > 0);
                                assert(t == ',');
                                assert(false);
                            }
                            assert(entries@.len() == oentries.len());
                            assert(jmodel_entries(entries@) =~= oentries);
                            assert(tail_entries_text(
                                oentries.subrange(k + 1, oentries.len() as int),
                            ) == Seq::<char>::empty());
                            assert(cs@.subrange(cur as int, h.1) =~= seq!['}']);
                            assert(cur + 1 == h.1);
                        },
                        None => {},
                    }
                }
                cur = cur + 1;
                proof {
                    assert(cs@.subrange(pos as int, cur as int) =~= seq!['{'] + entries_text(
                        jmodel_entries(entries@),
                    ) + seq!['}']);
                }
                break;
            } else if t == ',' {
                proof {
                    match hint {
                        Some(h) => {
                            if k + 1 == oentries.len() {
                                assert(cs@.subrange(cur as int, h.1) =~= seq!['}']);
                                assert(t == '}');
                                assert(false);
                            }
                            assert(k + 1 < oentries.len());
                            let sub1 = oentries.subrange(k + 1, oentries.len() as int);
                            assert(sub1[0] == oentries[k + 1]);
                            assert(sub1.drop_first() =~= oentries.subrange(
                                k + 2,
                                oentries.len() as int,
                            ));
                            assert(tail_entries_text(sub1) == seq![','] + entry_text(
                                oentries[k + 1],
                            ) + tail_entries_text(oentries.subrange(k + 2, oentries.len() as int)));
                            assert(cs@.subrange(cur as int, h.1) =~= seq![','] + (entry_text(
                                oentries[k + 1],
                            ) + (tail_entries_text(oentries.subrange(k + 2, oentries.len() as int))
                                + seq!['}'])));
                            lemma_subrange_split(
                                cs@,
                                cur as int,
                                h.1,
                                seq![','],
                                entry_text(oentries[k + 1]) + (tail_entries_text(
                                    oentries.subrange(k + 2, oentries.len() as int),
                                ) + seq!['}']),
                            );
                        },
                        None => {},
                    }
                }
                cur = cur + 1;
                proof {
                    assert(entries@.len() > 0);
                    assert(cs@.subrange(pos as int, cur as int) =~= seq!['{'] + entries_text(
                        jmodel_entries(entries@),
                    ) + seq![',']);
                }
            } else {
                proof {
                    match hint {
                        Some(h) => {
                            assert(false);
                        },
                        None => {},
                    }
                }
                return Err(StoreError::Parse);
            }
        }
        proof {
            assert(text_of(jmodel(JsonValue::Obj(entries))) =~= cs@.subrange(
                pos as int,
                cur as int,
            ));
            match hint {
                Some(h) => {
                    assert(jmodel(JsonValue::Obj(entries)) =~~= h.0);
                },
                None => {},
            }
        }
        Ok((JsonValue::Obj(entries), cur))
    } else {
        let ghost ihint: Option<(i64, int)> = match hint {
            Some(h) => match h.0 {
                JsonModel::Int(i0) => Some((i0, h.1)),
                _ => None,
            },
            None => None,
        };
        proof {
            match hint {
                Some(h) => {
                    assert(h.0 matches JsonModel::Int(_));
                    assert(ihint == Some((h.0->Int_0, h.1)));
                },
                None => {},
            }
        }
        match parse_int(cs, pos, Ghost(ihint)) {
            Ok((i, end)) => {
                proof {
                    assert(text_of(jmodel(JsonValue::Int(i))) == int_text(i as int));
                    match hint {
                        Some(h) => {
                            assert(jmodel(JsonValue::Int(i)) == h.0);
                        },
                        None => {},
                    }
                }
                Ok((JsonValue::Int(i), end))
            },
            Err(e) => {
                proof {
                    match hint {
                        Some(h) => {
                            assert(false);
                        },
                        None => {},
                    }
                }
                Err(e)
            },
        }
    }
}

/// Reads a whole value from its canonical text.
///
/// The contract is two-sided. Whatever the parser accepts serializes back
/// to the very input text; and every canonical text — the text of some
/// value — is accepted. Text in any other form — surrounding whitespace,
/// non-canonical escapes, leading zeros, fractions or exponents — is
/// reported as a parse failure.
pub fn parse(s: &str) -> (r: Result<JsonValue, StoreError>)
    ensures
        r matches Ok(v) ==> text_of(v@) == s@,
        parseable(s@) ==> r is Ok,
        r matches Err(e) ==> e == StoreError::Parse,
{
    let cs = chars_of(s);
    let ghost hint: Option<(JsonModel, int)> = if parseable(s@) {
        Some((choose|m: JsonModel| text_of(m) == s@, s@.len() as int))
    } else {
        None
    };
    proof {
        match hint {
            Some(h) => {
                lemma_text_first(h.0);
            },
            None => {},
        }
    }
    if cs.len() == 0 {
        proof {
            match hint {
                Some(h) => {
                    assert(false);
                },
                None => {},
            }
        }
        return Err(StoreError::Parse);
    }
    proof {
        match hint {
            Some(h) => {
                assert(cs@.subrange(0, cs@.len() as int) =~= s@);
            },
            None => {},
        }
    }
    match parse_value(&cs, 0, Ghost(hint)) {
        Ok((v, end)) => {
            if end == cs.len() {
                proof {
                    assert(cs@.subrange(0, cs@.len() as int) =~= s@);
                }
                Ok(v)
            } else {
                proof {
                    match hint {
                        Some(h) => {
                            assert(false);
                        },
                        None => {},
                    }
                }
                Err(StoreError::Parse)
            }
        },
        Err(e) => {
            proof {
                match hint {
                    Some(h) => {
                        assert(false);
                    },
                    None => {},
                }
            }
            Err(e)
        },
    }
}

} // verus!
