use vstd::prelude::*;
use vstd::string::StrSliceExecFns;
use vstd::string::StringExecFns;

use crate::item::{Item, ItemView, views_of};

verus! {

// ---------------------------------------------------------------------------
// The on-disk document, as a mathematical function of the collection.
//
// A collection is rendered as a structured-text array, one item per line:
//
//   [
//     {"id": 1, "name": "A", "status": "up", "stream_url": "u1"},
//     {"id": 2, "name": "B", "status": "down", "stream_url": "u2"}
//   ]
//
// Quotes and backslashes inside text fields are escaped with a backslash.
// ---------------------------------------------------------------------------
pub open spec fn lit_empty_doc() -> Seq<char> {
    "[]"@
}

pub open spec fn lit_doc_open() -> Seq<char> {
    "[\n"@
}

pub open spec fn lit_doc_close() -> Seq<char> {
    "\n]"@
}

pub open spec fn lit_sep() -> Seq<char> {
    ",\n"@
}

pub open spec fn lit_item_open() -> Seq<char> {
    "  {\"id\": "@
}

pub open spec fn lit_key_name() -> Seq<char> {
    ", \"name\": \""@
}

pub open spec fn lit_key_status() -> Seq<char> {
    ", \"status\": \""@
}

pub open spec fn lit_key_url() -> Seq<char> {
    ", \"stream_url\": \""@
}

pub open spec fn lit_item_end() -> Seq<char> {
    "}"@
}

pub open spec fn quote() -> Seq<char> {
    seq!['"']
}

/// How one character of a text field stands in the document: quotes and
/// backslashes get a backslash before them, everything else stands as it is.
pub open spec fn escape_char(c: char) -> Seq<char> {
    if c == '"' {
        seq!['\\', '"']
    } else if c == '\\' {
        seq!['\\', '\\']
    } else {
        seq![c]
    }
}

/// A whole text field, escaped character by character.
pub open spec fn escape_string(s: Seq<char>) -> Seq<char>
    decreases s.len(),
{
    if s.len() == 0 {
        Seq::empty()
    } else {
        escape_char(s[0]) + escape_string(s.skip(1))
    }
}

/// The decimal digit `d` as a character, for `d < 10`.
pub open spec fn dec_digit_char(d: nat) -> char {
    if d == 0 {
        '0'
    } else if d == 1 {
        '1'
    } else if d == 2 {
        '2'
    } else if d == 3 {
        '3'
    } else if d == 4 {
        '4'
    } else if d == 5 {
        '5'
    } else if d == 6 {
        '6'
    } else if d == 7 {
        '7'
    } else if d == 8 {
        '8'
    } else {
        '9'
    }
}

/// The decimal representation of `n`, most significant digit first, with no
/// leading zeros (a single `'0'` for zero).
pub open spec fn dec_rep(n: nat) -> Seq<char>
    decreases n,
{
    if n < 10 {
        seq![dec_digit_char(n)]
    } else {
        dec_rep(n / 10).push(dec_digit_char(n % 10))
    }
}

/// The document text of one item.
pub open spec fn encode_item(it: ItemView) -> Seq<char> {
    lit_item_open() + dec_rep(it.id as nat) + lit_key_name() + escape_string(it.name) + quote()
        + lit_key_status() + escape_string(it.status) + quote() + lit_key_url() + escape_string(
        it.stream_url,
    ) + quote() + lit_item_end()
}

/// The document text of a non-empty tail of the collection: the items joined
/// by separators, then the closing bracket.
pub open spec fn encode_rest(vs: Seq<ItemView>) -> Seq<char>
    decreases vs.len(),
{
    if vs.len() == 0 {
        Seq::empty()
    } else if vs.len() == 1 {
        encode_item(vs[0]) + lit_doc_close()
    } else {
        encode_item(vs[0]) + lit_sep() + encode_rest(vs.skip(1))
    }
}

/// The whole document text of a collection.
pub open spec fn encode_items_spec(vs: Seq<ItemView>) -> Seq<char> {
    if vs.len() == 0 {
        lit_empty_doc()
    } else {
        lit_doc_open() + encode_rest(vs)
    }
}

/// Escaping distributes over concatenation.
pub proof fn lemma_escape_append(a: Seq<char>, b: Seq<char>)
    ensures
        escape_string(a + b) == escape_string(a) + escape_string(b),
    decreases a.len(),
{
    if a.len() == 0 {
        assert(a + b =~= b);
        assert(escape_string(a) + escape_string(b) =~= escape_string(b));
    } else {
        assert((a + b).len() > 0);
        assert((a + b)[0] == a[0]);
        assert((a + b).skip(1) =~= a.skip(1) + b);
        lemma_escape_append(a.skip(1), b);
        assert(escape_string(a + b) =~= escape_string(a) + escape_string(b));
    }
}

// ---------------------------------------------------------------------------
// The encoder.
// ---------------------------------------------------------------------------
/// Relies on `String::push`: appends the given character to the end of the
/// string.
#[verifier::external_body]
fn push_char(out: &mut String, c: char)
    ensures
        final(out)@ == old(out)@.push(c),
{
    out.push(c);
}

/// Appends one text field in its escaped form.
fn append_escaped(out: &mut String, s: &str)
    ensures
        final(out)@ == old(out)@ + escape_string(s@),
{
    let ghost base = out@;
    let n = s.unicode_len();
    for i in 0..n
        invariant
            n == s@.len(),
            out@ =~= base + escape_string(s@.subrange(0, i as int)),
    {
        let c = s.get_char(i);
        if c == '"' {
            push_char(out, '\\');
            push_char(out, '"');
        } else if c == '\\' {
            push_char(out, '\\');
            push_char(out, '\\');
        } else {
            push_char(out, c);
        }
        proof {
            assert(seq![c].skip(1) =~= Seq::<char>::empty());
            assert(escape_string(Seq::<char>::empty()) == Seq::<char>::empty());
            assert(escape_string(seq![c]) =~= escape_char(c));
            lemma_escape_append(s@.subrange(0, i as int), seq![c]);
            assert(s@.subrange(0, i + 1) =~= s@.subrange(0, i as int) + seq![c]);
            assert(out@ =~= base + escape_string(s@.subrange(0, i + 1)));
        }
    }
    proof {
        assert(s@.subrange(0, n as int) =~= s@);
    }
}

/// The decimal digit `d < 10` as a character.
fn dec_digit_exec(d: u32) -> (c: char)
    requires
        d < 10,
    ensures
        c == dec_digit_char(d as nat),
{
    if d == 0 {
        '0'
    } else if d == 1 {
        '1'
    } else if d == 2 {
        '2'
    } else if d == 3 {
        '3'
    } else if d == 4 {
        '4'
    } else if d == 5 {
        '5'
    } else if d == 6 {
        '6'
    } else if d == 7 {
        '7'
    } else if d == 8 {
        '8'
    } else {
        '9'
    }
}

/// Appends the decimal representation of `n`.
fn append_dec(out: &mut String, n: u32)
    ensures
        final(out)@ == old(out)@ + dec_rep(n as nat),
    decreases n,
{
    if n < 10 {
        push_char(out, dec_digit_exec(n));
        proof {
            assert(out@ =~= old(out)@ + dec_rep(n as nat));
        }
    } else {
        append_dec(out, n / 10);
        push_char(out, dec_digit_exec(n % 10));
        proof {
            assert(out@ =~= old(out)@ + dec_rep(n as nat));
        }
    }
}

/// Appends the document text of one item.
fn append_item(out: &mut String, it: &Item)
    ensures
        final(out)@ == old(out)@ + encode_item(it@),
{
    out.append("  {\"id\": ");
    append_dec(out, it.id);
    out.append(", \"name\": \"");
    append_escaped(out, it.name.as_str());
    push_char(out, '"');
    out.append(", \"status\": \"");
    append_escaped(out, it.status.as_str());
    push_char(out, '"');
    out.append(", \"stream_url\": \"");
    append_escaped(out, it.stream_url.as_str());
    push_char(out, '"');
    out.append("}");
    proof {
        assert(out@ =~= old(out)@ + encode_item(it@));
    }
}

/// Appends the document text of the items from index `j` on.
fn append_rest(out: &mut String, items: &Vec<Item>, j: usize)
    requires
        j < items.len(),
    ensures
        final(out)@ == old(out)@ + encode_rest(views_of(items@).skip(j as int)),
    decreases items.len() - j,
{
    let ghost vs = views_of(items@);
    append_item(out, &items[j]);
    proof {
        assert(vs.skip(j as int)[0] == vs[j as int]);
        assert(vs[j as int] == items@[j as int]@);
    }
    if j == items.len() - 1 {
        out.append("\n]");
        proof {
            assert(vs.skip(j as int).len() == 1);
            assert(out@ =~= old(out)@ + encode_rest(vs.skip(j as int)));
        }
    } else {
        out.append(",\n");
        append_rest(out, items, j + 1);
        proof {
            assert(vs.skip(j as int).len() >= 2);
            assert(vs.skip(j as int).skip(1) =~= vs.skip(j + 1));
            assert(out@ =~= old(out)@ + encode_rest(vs.skip(j as int)));
        }
    }
}

/// The full document text for a collection: what `save` writes to disk.
pub fn encode_items(items: &Vec<Item>) -> (r: String)
    ensures
        r@ == encode_items_spec(views_of(items@)),
{
    let mut out = String::new();
    if items.len() == 0 {
        out.append("[]");
        proof {
            assert(out@ =~= lit_empty_doc());
        }
    } else {
        out.append("[\n");
        append_rest(&mut out, items, 0);
        proof {
            assert(views_of(items@).skip(0) =~= views_of(items@));
            assert(out@ =~= encode_items_spec(views_of(items@)));
        }
    }
    out
}

// ---------------------------------------------------------------------------
// The parser, as a mathematical function of the document text. A document
// that the encoder did not produce may fail to parse; the round-trip lemmas
// below prove that everything the encoder produces parses back exactly.
// ---------------------------------------------------------------------------
/// Removes the prefix `p` from `t`, if `t` starts with it.
pub open spec fn strip_prefix(t: Seq<char>, p: Seq<char>) -> Option<Seq<char>> {
    if p.len() <= t.len() && t.subrange(0, p.len() as int) == p {
        Some(t.skip(p.len() as int))
    } else {
        None
    }
}

/// Whether `c` is a decimal digit.
pub open spec fn is_digit(c: char) -> bool {
    48 <= c as u32 <= 57
}

/// The value of the decimal digit `c`.
pub open spec fn digit_val(c: char) -> nat {
    (c as u32 - 48) as nat
}

/// How many decimal digits `t` starts with.
pub open spec fn digit_run_len(t: Seq<char>) -> nat
    decreases t.len(),
{
    if t.len() > 0 && is_digit(t[0]) {
        1 + digit_run_len(t.skip(1))
    } else {
        0
    }
}

/// The numeric value of a sequence of decimal digits, most significant first.
pub open spec fn dec_value(digits: Seq<char>) -> nat
    decreases digits.len(),
{
    if digits.len() == 0 {
        0
    } else {
        dec_value(digits.drop_last()) * 10 + digit_val(digits.last())
    }
}

/// Ten to the `k`.
pub open spec fn pow10(k: nat) -> nat
    decreases k,
{
    if k == 0 {
        1nat
    } else {
        10 * pow10((k - 1) as nat)
    }
}

/// Reads a decimal number from the head of `t`: the longest run of digits,
/// rejected when it is empty, longer than ten digits, or worth more than
/// `u32::MAX`.
pub open spec fn parse_number(t: Seq<char>) -> Option<(u32, Seq<char>)> {
    let k = digit_run_len(t) as int;
    if 1 <= k <= 10 && dec_value(t.subrange(0, k)) <= u32::MAX {
        Some((dec_value(t.subrange(0, k)) as u32, t.skip(k)))
    } else {
        None
    }
}

/// Reads an escaped text field from the head of `t`, through its closing
/// quote: a backslash takes the next character literally (only a quote or a
/// backslash may follow it), an unescaped quote ends the field.
pub open spec fn parse_str_body(t: Seq<char>) -> Option<(Seq<char>, Seq<char>)>
    decreases t.len(),
{
    if t.len() == 0 {
        None
    } else if t[0] == '"' {
        Some((Seq::empty(), t.skip(1)))
    } else if t[0] == '\\' {
        if t.len() >= 2 && (t[1] == '"' || t[1] == '\\') {
            match parse_str_body(t.skip(2)) {
                Some(p) => Some((seq![t[1]] + p.0, p.1)),
                None => None,
            }
        } else {
            None
        }
    } else {
        match parse_str_body(t.skip(1)) {
            Some(p) => Some((seq![t[0]] + p.0, p.1)),
            None => None,
        }
    }
}

/// Reads one item record from the head of `t`.
pub open spec fn parse_item(t: Seq<char>) -> Option<(ItemView, Seq<char>)> {
    match strip_prefix(t, lit_item_open()) {
        None => None,
        Some(t1) => match parse_number(t1) {
            None => None,
            Some((id, t2)) => match strip_prefix(t2, lit_key_name()) {
                None => None,
                Some(t3) => match parse_str_body(t3) {
                    None => None,
                    Some((name, t4)) => match strip_prefix(t4, lit_key_status()) {
                        None => None,
                        Some(t5) => match parse_str_body(t5) {
                            None => None,
                            Some((status, t6)) => match strip_prefix(t6, lit_key_url()) {
                                None => None,
                                Some(t7) => match parse_str_body(t7) {
                                    None => None,
                                    Some((url, t8)) => match strip_prefix(t8, lit_item_end()) {
                                        None => None,
                                        Some(t9) => Some(
                                            (
                                                ItemView {
                                                    id,
                                                    name,
                                                    status,
                                                    stream_url: url,
                                                },
                                                t9,
                                            ),
                                        ),
                                    },
                                },
                            },
                        },
                    },
                },
            },
        },
    }
}

/// Reads one or more item records, separated by `lit_sep` and closed by
/// `lit_doc_close`, from the head of `t`. `fuel` bounds the recursion; any
/// value of at least the number of records is enough.
pub open spec fn parse_items_rest(t: Seq<char>, fuel: nat) -> Option<(Seq<ItemView>, Seq<char>)>
    decreases fuel,
{
    if fuel == 0 {
        None
    } else {
        match parse_item(t) {
            None => None,
            Some((it, r)) => match strip_prefix(r, lit_sep()) {
                Some(r2) => match parse_items_rest(r2, (fuel - 1) as nat) {
                    None => None,
                    Some((vs, r3)) => Some((seq![it] + vs, r3)),
                },
                None => match strip_prefix(r, lit_doc_close()) {
                    Some(r2) => Some((seq![it], r2)),
                    None => None,
                },
            },
        }
    }
}

/// Parses a whole document: what `load` makes of the file's text.
pub open spec fn parse_items(t: Seq<char>) -> Option<Seq<ItemView>> {
    if t == lit_empty_doc() {
        Some(Seq::empty())
    } else {
        match strip_prefix(t, lit_doc_open()) {
            None => None,
            Some(t1) => match parse_items_rest(t1, t1.len()) {
                Some((vs, rest)) => if rest.len() == 0 {
                    Some(vs)
                } else {
                    None
                },
                None => None,
            },
        }
    }
}

// ---------------------------------------------------------------------------
// The executable parser. Each function returns exactly what the spec-level
// parser says for the text from `pos` on.
// ---------------------------------------------------------------------------
fn is_digit_exec(c: char) -> (r: bool)
    ensures
        r == is_digit(c),
{
    let u = c as u32;
    48 <= u && u <= 57
}

fn digit_val_exec(c: char) -> (d: u32)
    requires
        is_digit(c),
    ensures
        d == digit_val(c),
        d < 10,
{
    (c as u32) - 48
}

/// Consumes the literal `lit` at `pos`, if the text carries it there.
fn expect_lit(text: &str, len: usize, pos: usize, lit: &str) -> (r: Option<usize>)
    requires
        len == text@.len(),
        pos <= len,
    ensures
        match r {
            Some(q) => pos <= q <= len && q == pos + lit@.len() && strip_prefix(
                text@.skip(pos as int),
                lit@,
            ) == Some(text@.skip(q as int)),
            None => strip_prefix(text@.skip(pos as int), lit@) is None,
        },
{
    let n = lit.unicode_len();
    if n > len - pos {
        proof {
            assert(lit@.len() > text@.skip(pos as int).len());
        }
        return None;
    }
    for i in 0..n
        invariant
            len == text@.len(),
            pos <= len,
            n == lit@.len(),
            n <= len - pos,
            forall|j: int| 0 <= j < i ==> text@[pos + j] == lit@[j],
    {
        if text.get_char(pos + i) != lit.get_char(i) {
            proof {
                let t = text@.skip(pos as int);
                assert(t.subrange(0, n as int)[i as int] == text@[pos + i]);
                assert(t.subrange(0, n as int) != lit@);
            }
            return None;
        }
    }
    proof {
        let t = text@.skip(pos as int);
        assert(t.subrange(0, n as int) =~= lit@);
        assert(t.skip(n as int) =~= text@.skip(pos + n));
    }
    Some(pos + n)
}

/// Reads a decimal number at `pos`.
fn parse_number_exec(text: &str, len: usize, pos: usize) -> (r: Option<(u32, usize)>)
    requires
        len == text@.len(),
        pos <= len,
    ensures
        match r {
            Some(p) => pos <= p.1 <= len && parse_number(text@.skip(pos as int)) == Some(
                (p.0, text@.skip(p.1 as int)),
            ),
            None => parse_number(text@.skip(pos as int)) is None,
        },
{
    let ghost t = text@.skip(pos as int);
    let mut k = pos;
    while k < len && is_digit_exec(text.get_char(k))
        invariant
            len == text@.len(),
            pos <= k <= len,
            forall|j: int| pos <= j < k ==> is_digit(#[trigger] text@[j]),
        decreases len - k,
    {
        k = k + 1;
    }
    proof {
        assert forall|j: int| 0 <= j < k - pos implies is_digit(#[trigger] t[j]) by {
            assert(t[j] == text@[pos + j]);
        }
        if k < len {
            assert(t[k - pos] == text@[k as int]);
        }
        lemma_digit_run_char(t, (k - pos) as nat);
    }
    if k - pos < 1 || k - pos > 10 {
        return None;
    }
    proof {
        assert(pow10(0nat) == 1);
        assert(pow10(1nat) == 10);
        assert(pow10(2nat) == 100);
        assert(pow10(3nat) == 1000);
        assert(pow10(4nat) == 10000);
        assert(pow10(5nat) == 100000);
        assert(pow10(6nat) == 1000000);
        assert(pow10(7nat) == 10000000);
        assert(pow10(8nat) == 100000000);
        assert(pow10(9nat) == 1000000000);
        assert(pow10(10nat) == 10000000000);
        assert(t.subrange(0, 0) =~= Seq::<char>::empty());
    }
    let mut acc: u64 = 0;
    let mut i = pos;
    while i < k
        invariant
            len == text@.len(),
            t == text@.skip(pos as int),
            pos <= i <= k <= len,
            k - pos <= 10,
            forall|j: int| pos <= j < k ==> is_digit(#[trigger] text@[j]),
            acc == dec_value(t.subrange(0, i - pos)),
            acc < pow10((i - pos) as nat),
            pow10(10nat) == 10000000000,
        decreases k - i,
    {
        let c = text.get_char(i);
        proof {
            assert(t[i - pos] == text@[i as int]);
        }
        let d = digit_val_exec(c);
        proof {
            let pre = t.subrange(0, i - pos);
            let cur = t.subrange(0, i - pos + 1);
            assert(cur.drop_last() =~= pre);
            assert(cur.last() == t[i - pos]);
            assert(pow10((i - pos + 1) as nat) == 10 * pow10((i - pos) as nat));
            assert(pow10(0nat) == 1);
            assert(pow10(1nat) == 10);
            assert(pow10(2nat) == 100);
            assert(pow10(3nat) == 1000);
            assert(pow10(4nat) == 10000);
            assert(pow10(5nat) == 100000);
            assert(pow10(6nat) == 1000000);
            assert(pow10(7nat) == 10000000);
            assert(pow10(8nat) == 100000000);
            assert(pow10(9nat) == 1000000000);
        }
        acc = acc * 10 + (d as u64);
        i = i + 1;
    }
    if acc > 0xFFFF_FFFF {
        return None;
    }
    proof {
        assert(t.skip(k - pos) =~= text@.skip(k as int));
    }
    Some((acc as u32, k))
}

/// Reads an escaped text field at `pos`, through its closing quote.
fn parse_str_body_exec(text: &str, len: usize, pos: usize) -> (r: Option<(String, usize)>)
    requires
        len == text@.len(),
        pos <= len,
    ensures
        match r {
            Some(p) => pos <= p.1 <= len && parse_str_body(text@.skip(pos as int)) == Some(
                (p.0@, text@.skip(p.1 as int)),
            ),
            None => parse_str_body(text@.skip(pos as int)) is None,
        },
    decreases len - pos,
{
    let ghost t = text@.skip(pos as int);
    if pos == len {
        return None;
    }
    let c = text.get_char(pos);
    proof {
        assert(t[0] == text@[pos as int]);
    }
    if c == '"' {
        let out = String::new();
        proof {
            assert(t.skip(1) =~= text@.skip(pos + 1));
        }
        Some((out, pos + 1))
    } else if c == '\\' {
        if pos + 1 == len {
            return None;
        }
        let e = text.get_char(pos + 1);
        proof {
            assert(t[1] == text@[pos + 1]);
        }
        if e == '"' || e == '\\' {
            proof {
                assert(t.skip(2) =~= text@.skip(pos + 2));
            }
            match parse_str_body_exec(text, len, pos + 2) {
                None => None,
                Some((s, q)) => {
                    let mut out = String::new();
                    push_char(&mut out, e);
                    out.append(s.as_str());
                    proof {
                        assert(out@ =~= seq![t[1]] + s@);
                    }
                    Some((out, q))
                },
            }
        } else {
            None
        }
    } else {
        proof {
            assert(t.skip(1) =~= text@.skip(pos + 1));
        }
        match parse_str_body_exec(text, len, pos + 1) {
            None => None,
            Some((s, q)) => {
                let mut out = String::new();
                push_char(&mut out, c);
                out.append(s.as_str());
                proof {
                    assert(out@ =~= seq![t[0]] + s@);
                }
                Some((out, q))
            },
        }
    }
}

/// Reads one item record at `pos`.
fn parse_item_exec(text: &str, len: usize, pos: usize) -> (r: Option<(Item, usize)>)
    requires
        len == text@.len(),
        pos <= len,
    ensures
        match r {
            Some(p) => pos <= p.1 <= len && parse_item(text@.skip(pos as int)) == Some(
                (p.0@, text@.skip(p.1 as int)),
            ),
            None => parse_item(text@.skip(pos as int)) is None,
        },
{
    let q1 = match expect_lit(text, len, pos, "  {\"id\": ") {
        Some(q) => q,
        None => return None,
    };
    let (id, q2) = match parse_number_exec(text, len, q1) {
        Some(p) => p,
        None => return None,
    };
    let q3 = match expect_lit(text, len, q2, ", \"name\": \"") {
        Some(q) => q,
        None => return None,
    };
    let (name, q4) = match parse_str_body_exec(text, len, q3) {
        Some(p) => p,
        None => return None,
    };
    let q5 = match expect_lit(text, len, q4, ", \"status\": \"") {
        Some(q) => q,
        None => return None,
    };
    let (status, q6) = match parse_str_body_exec(text, len, q5) {
        Some(p) => p,
        None => return None,
    };
    let q7 = match expect_lit(text, len, q6, ", \"stream_url\": \"") {
        Some(q) => q,
        None => return None,
    };
    let (stream_url, q8) = match parse_str_body_exec(text, len, q7) {
        Some(p) => p,
        None => return None,
    };
    let q9 = match expect_lit(text, len, q8, "}") {
        Some(q) => q,
        None => return None,
    };
    let it = Item { id, name, status, stream_url };
    proof {
        assert(it@ =~= ItemView { id, name: it.name@, status: it.status@, stream_url: it.stream_url@ });
    }
    Some((it, q9))
}

/// Reads the item records and the closing bracket at `pos`.
fn parse_items_rest_exec(text: &str, len: usize, pos: usize, fuel: usize) -> (r: Option<
    (Vec<Item>, usize),
>)
    requires
        len == text@.len(),
        pos <= len,
    ensures
        match r {
            Some(p) => pos <= p.1 <= len && parse_items_rest(text@.skip(pos as int), fuel as nat)
                == Some((views_of(p.0@), text@.skip(p.1 as int))),
            None => parse_items_rest(text@.skip(pos as int), fuel as nat) is None,
        },
    decreases fuel,
{
    if fuel == 0 {
        return None;
    }
    let (it, q1) = match parse_item_exec(text, len, pos) {
        Some(p) => p,
        None => return None,
    };
    let ghost itv = it@;
    match expect_lit(text, len, q1, ",\n") {
        Some(q2) => {
            match parse_items_rest_exec(text, len, q2, fuel - 1) {
                None => None,
                Some((mut v, q3)) => {
                    let ghost tailv = views_of(v@);
                    v.insert(0, it);
                    proof {
                        assert(views_of(v@) =~= seq![itv] + tailv);
                    }
                    Some((v, q3))
                },
            }
        },
        None => {
            match expect_lit(text, len, q1, "\n]") {
                Some(q2) => {
                    let mut v: Vec<Item> = Vec::new();
                    v.push(it);
                    proof {
                        assert(views_of(v@) =~= seq![itv]);
                    }
                    Some((v, q2))
                },
                None => None,
            }
        },
    }
}

/// Parses a whole document back into items: what `load` makes of the file's
/// text. `None` is a document this library did not write.
pub fn decode_items(text: &str) -> (r: Option<Vec<Item>>)
    ensures
        match r {
            Some(v) => parse_items(text@) == Some(views_of(v@)),
            None => parse_items(text@) is None,
        },
{
    let len = text.unicode_len();
    let mut empty_doc = false;
    if len == 2 {
        if text.get_char(0) == '[' {
            if text.get_char(1) == ']' {
                empty_doc = true;
            }
        }
    }
    proof {
        reveal_strlit("[]");
        if text@ == lit_empty_doc() {
            assert(text@.len() == 2);
            assert(text@[0] == '[' && text@[1] == ']');
        }
        if empty_doc {
            assert(text@ =~= lit_empty_doc());
        }
    }
    if empty_doc {
        let v: Vec<Item> = Vec::new();
        proof {
            assert(views_of(v@) =~= Seq::<ItemView>::empty());
        }
        return Some(v);
    }
    proof {
        assert(text@.skip(0) =~= text@);
    }
    let q1 = match expect_lit(text, len, 0, "[\n") {
        Some(q) => q,
        None => return None,
    };
    match parse_items_rest_exec(text, len, q1, len - q1) {
        None => None,
        Some((v, q2)) => {
            if q2 == len {
                proof {
                    assert(text@.skip(q2 as int).len() == 0);
                }
                Some(v)
            } else {
                proof {
                    assert(text@.skip(q2 as int).len() > 0);
                }
                None
            }
        },
    }
}

// ---------------------------------------------------------------------------
// Round trip: everything the encoder produces parses back to the same
// collection.
// ---------------------------------------------------------------------------
pub proof fn lemma_strip_prefix_of_concat(p: Seq<char>, rest: Seq<char>)
    ensures
        strip_prefix(p + rest, p) == Some(rest),
{
    let t = p + rest;
    assert(t.subrange(0, p.len() as int) =~= p);
    assert(t.skip(p.len() as int) =~= rest);
}

/// An escaped field followed by its closing quote parses back to the field.
pub proof fn lemma_parse_str_body_round(s: Seq<char>, rest: Seq<char>)
    ensures
        parse_str_body(escape_string(s) + quote() + rest) == Some((s, rest)),
    decreases s.len(),
{
    let t = escape_string(s) + quote() + rest;
    if s.len() == 0 {
        assert(t =~= seq!['"'] + rest);
        assert(t[0] == '"');
        assert(t.skip(1) =~= rest);
        assert(parse_str_body(t) == Some((Seq::<char>::empty(), rest)));
    } else {
        let c = s[0];
        let tail = escape_string(s.skip(1)) + quote() + rest;
        lemma_parse_str_body_round(s.skip(1), rest);
        if c == '"' {
            assert(escape_char(c) =~= seq!['\\', '"']);
            assert(t =~= seq!['\\', '"'] + tail);
            assert(t[0] == '\\' && t[1] == '"');
            assert(t.skip(2) =~= tail);
            assert(seq![t[1]] + s.skip(1) =~= s);
        } else if c == '\\' {
            assert(escape_char(c) =~= seq!['\\', '\\']);
            assert(t =~= seq!['\\', '\\'] + tail);
            assert(t[0] == '\\' && t[1] == '\\');
            assert(t.skip(2) =~= tail);
            assert(seq![t[1]] + s.skip(1) =~= s);
        } else {
            assert(escape_char(c) =~= seq![c]);
            assert(t =~= seq![c] + tail);
            assert(t[0] == c);
            assert(t.skip(1) =~= tail);
            assert(seq![t[0]] + s.skip(1) =~= s);
        }
    }
}

/// Every character of a decimal representation is a digit, and its value is
/// the represented number.
pub proof fn lemma_dec_rep_digits(n: nat)
    ensures
        dec_rep(n).len() >= 1,
        forall|i: int| 0 <= i < dec_rep(n).len() ==> is_digit(#[trigger] dec_rep(n)[i]),
        dec_value(dec_rep(n)) == n,
    decreases n,
{
    if n < 10 {
        assert(is_digit(dec_digit_char(n)));
        assert(digit_val(dec_digit_char(n)) == n);
        assert(dec_rep(n).drop_last() =~= Seq::<char>::empty());
        assert(dec_value(Seq::<char>::empty()) == 0);
    } else {
        lemma_dec_rep_digits(n / 10);
        let d = n % 10;
        assert(d < 10);
        assert(is_digit(dec_digit_char(d)));
        assert(digit_val(dec_digit_char(d)) == d);
        let r = dec_rep(n);
        assert(r =~= dec_rep(n / 10).push(dec_digit_char(d)));
        assert(r.drop_last() =~= dec_rep(n / 10));
        assert(r.last() == dec_digit_char(d));
        assert(dec_value(r) == (n / 10) * 10 + d);
        vstd::arithmetic::div_mod::lemma_fundamental_div_mod(n as int, 10);
    }
}

/// A bound on the length of a decimal representation: `n` below ten to the
/// `k` takes at most `k` digits.
pub proof fn lemma_dec_rep_len(n: nat, k: nat)
    requires
        1 <= k,
        n < pow10(k),
    ensures
        dec_rep(n).len() <= k,
    decreases n,
{
    if n < 10 {
    } else {
        assert(pow10(k) == 10 * pow10((k - 1) as nat));
        if k == 1 {
            assert(pow10(1nat) == 10 * pow10(0nat));
            assert(pow10(0nat) == 1);
            assert(false);
        }
        vstd::arithmetic::div_mod::lemma_fundamental_div_mod(n as int, 10);
        if n / 10 >= pow10((k - 1) as nat) {
            assert((n / 10) * 10 >= pow10((k - 1) as nat) * 10) by (nonlinear_arith)
                requires
                    n / 10 >= pow10((k - 1) as nat),
            ;
            assert(false);
        }
        lemma_dec_rep_len(n / 10, (k - 1) as nat);
    }
}

/// The digit run at the head of `t` is exactly `k` long when the first `k`
/// characters are digits and the next one, if any, is not.
pub proof fn lemma_digit_run_char(t: Seq<char>, k: nat)
    requires
        k <= t.len(),
        forall|j: int| 0 <= j < k ==> is_digit(#[trigger] t[j]),
        k == t.len() || !is_digit(t[k as int]),
    ensures
        digit_run_len(t) == k,
    decreases t.len(),
{
    if k == 0 {
    } else {
        assert(is_digit(t[0]));
        lemma_digit_run_char(t.skip(1), (k - 1) as nat);
    }
}

/// A decimal representation followed by anything that does not start with a
/// digit parses back to the represented number.
pub proof fn lemma_parse_number_round(n: u32, rest: Seq<char>)
    requires
        rest.len() == 0 || !is_digit(rest[0]),
    ensures
        parse_number(dec_rep(n as nat) + rest) == Some((n, rest)),
{
    let r = dec_rep(n as nat);
    let t = r + rest;
    lemma_dec_rep_digits(n as nat);
    assert(pow10(0nat) == 1);
    assert(pow10(1nat) == 10);
    assert(pow10(2nat) == 100);
    assert(pow10(3nat) == 1000);
    assert(pow10(4nat) == 10000);
    assert(pow10(5nat) == 100000);
    assert(pow10(6nat) == 1000000);
    assert(pow10(7nat) == 10000000);
    assert(pow10(8nat) == 100000000);
    assert(pow10(9nat) == 1000000000);
    assert(pow10(10nat) == 10000000000);
    lemma_dec_rep_len(n as nat, 10);
    assert(forall|j: int| 0 <= j < r.len() ==> is_digit(#[trigger] t[j]));
    lemma_digit_run_char(t, r.len());
    assert(t.subrange(0, r.len() as int) =~= r);
    assert(t.skip(r.len() as int) =~= rest);
}

proof fn lemma_seq_assoc(a: Seq<char>, b: Seq<char>, c: Seq<char>)
    ensures
        (a + b) + c == a + (b + c),
{
    assert((a + b) + c =~= a + (b + c));
}

/// One encoded item followed by anything parses back to the item.
#[verifier::rlimit(100)]
pub proof fn lemma_parse_item_round(it: ItemView, rest: Seq<char>)
    ensures
        parse_item(encode_item(it) + rest) == Some((it, rest)),
{
    let o = lit_item_open();
    let d = dec_rep(it.id as nat);
    let kn = lit_key_name();
    let en = escape_string(it.name);
    let q = quote();
    let ks = lit_key_status();
    let es = escape_string(it.status);
    let ku = lit_key_url();
    let eu = escape_string(it.stream_url);
    let end = lit_item_end();

    let s_end = end + rest;
    let s_url = eu + q + s_end;
    let s_kurl = ku + s_url;
    let s_status = es + q + s_kurl;
    let s_kstatus = ks + s_status;
    let s_name = en + q + s_kstatus;
    let s_kname = kn + s_name;
    let s_num = d + s_kname;

    let p0 = o + d;
    let p1 = p0 + kn;
    let p2 = p1 + en;
    let p3 = p2 + q;
    let p4 = p3 + ks;
    let p5 = p4 + es;
    let p6 = p5 + q;
    let p7 = p6 + ku;
    let p8 = p7 + eu;
    let p9 = p8 + q;
    let p10 = p9 + end;
    assert(encode_item(it) == p10);
    let t = encode_item(it) + rest;

    lemma_seq_assoc(p9, end, rest);
    lemma_seq_assoc(p8, q, s_end);
    lemma_seq_assoc(p7, eu, q + s_end);
    lemma_seq_assoc(eu, q, s_end);
    assert(t == p7 + s_url);
    lemma_seq_assoc(p6, ku, s_url);
    lemma_seq_assoc(p5, q, s_kurl);
    lemma_seq_assoc(p4, es, q + s_kurl);
    lemma_seq_assoc(es, q, s_kurl);
    assert(t == p4 + s_status);
    lemma_seq_assoc(p3, ks, s_status);
    lemma_seq_assoc(p2, q, s_kstatus);
    lemma_seq_assoc(p1, en, q + s_kstatus);
    lemma_seq_assoc(en, q, s_kstatus);
    assert(t == p1 + s_name);
    lemma_seq_assoc(p0, kn, s_name);
    lemma_seq_assoc(o, d, s_kname);
    assert(t == o + s_num);

    lemma_strip_prefix_of_concat(o, s_num);
    reveal_strlit(", \"name\": \"");
    assert(s_kname[0] == ',');
    assert(!is_digit(','));
    lemma_parse_number_round(it.id, s_kname);
    lemma_strip_prefix_of_concat(kn, s_name);
    lemma_parse_str_body_round(it.name, s_kstatus);
    lemma_strip_prefix_of_concat(ks, s_status);
    lemma_parse_str_body_round(it.status, s_kurl);
    lemma_strip_prefix_of_concat(ku, s_url);
    lemma_parse_str_body_round(it.stream_url, s_end);
    lemma_strip_prefix_of_concat(end, rest);
    assert(parse_item(t) == Some(
        (ItemView { id: it.id, name: it.name, status: it.status, stream_url: it.stream_url }, rest),
    ));
    assert(ItemView { id: it.id, name: it.name, status: it.status, stream_url: it.stream_url }
        =~= it);
}

/// The encoded tail of a collection is at least as long as the collection.
pub proof fn lemma_encode_rest_len(vs: Seq<ItemView>)
    ensures
        encode_rest(vs).len() >= vs.len(),
    decreases vs.len(),
{
    reveal_strlit("  {\"id\": ");
    if vs.len() == 0 {
    } else if vs.len() == 1 {
        assert(encode_item(vs[0]).len() >= lit_item_open().len());
    } else {
        lemma_encode_rest_len(vs.skip(1));
        assert(vs.skip(1).len() == vs.len() - 1);
        assert(encode_item(vs[0]).len() >= lit_item_open().len());
    }
}

/// The encoded tail of a non-empty collection, followed by anything, parses
/// back to the collection.
#[verifier::rlimit(100)]
pub proof fn lemma_parse_items_rest_round(vs: Seq<ItemView>, rest: Seq<char>, fuel: nat)
    requires
        vs.len() >= 1,
        fuel >= vs.len(),
    ensures
        parse_items_rest(encode_rest(vs) + rest, fuel) == Some((vs, rest)),
    decreases vs.len(),
{
    reveal_strlit(",\n");
    reveal_strlit("\n]");
    let t = encode_rest(vs) + rest;
    if vs.len() == 1 {
        let after = lit_doc_close() + rest;
        assert(t =~= encode_item(vs[0]) + after);
        lemma_parse_item_round(vs[0], after);
        assert(after[0] == '\n');
        assert(lit_sep()[0] == ',');
        if strip_prefix(after, lit_sep()) is Some {
            assert(after.subrange(0, lit_sep().len() as int)[0] == lit_sep()[0]);
            assert(false);
        }
        lemma_strip_prefix_of_concat(lit_doc_close(), rest);
        assert(seq![vs[0]] =~= vs);
    } else {
        let tail = encode_rest(vs.skip(1)) + rest;
        let after = lit_sep() + tail;
        assert(t =~= encode_item(vs[0]) + after);
        lemma_parse_item_round(vs[0], after);
        lemma_strip_prefix_of_concat(lit_sep(), tail);
        lemma_parse_items_rest_round(vs.skip(1), rest, (fuel - 1) as nat);
        assert(seq![vs[0]] + vs.skip(1) =~= vs);
    }
}

/// The round trip of the persistence adapter: the document written for a
/// collection parses back to exactly that collection.
pub proof fn lemma_encode_parse_round_trip(vs: Seq<ItemView>)
    ensures
        parse_items(encode_items_spec(vs)) == Some(vs),
{
    reveal_strlit("[]");
    reveal_strlit("[\n");
    let t = encode_items_spec(vs);
    if vs.len() == 0 {
        assert(t == lit_empty_doc());
    } else {
        let body = encode_rest(vs);
        lemma_encode_rest_len(vs);
        assert(t =~= lit_doc_open() + body);
        assert(t.len() >= 2 + vs.len());
        if t == lit_empty_doc() {
            assert(t.len() == 2);
            assert(false);
        }
        lemma_strip_prefix_of_concat(lit_doc_open(), body);
        assert(body + Seq::<char>::empty() =~= body);
        lemma_parse_items_rest_round(vs, Seq::empty(), body.len());
        assert(parse_items_rest(body, body.len()) == Some((vs, Seq::<char>::empty())));
    }
}

/// A rejected operation keeps the document unchanged, byte for byte: the
/// document is a function of the collection alone, and the collection did not
/// change.
pub proof fn lemma_rejected_op_keeps_document(s: Seq<ItemView>, op: crate::store::Op)
    requires
        !crate::store::accepted(s, op),
    ensures
        crate::store::apply_op(s, op) == s,
        encode_items_spec(crate::store::apply_op(s, op)) == encode_items_spec(s),
{
}

} // verus!
