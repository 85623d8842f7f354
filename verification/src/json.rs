//! JSON documents: their mathematical value, the grammar as a function on
//! bytes, and a parser that is proved to compute it.

use vstd::prelude::*;
use crate::bytes::{copy_range, equal, matches_at};

verus! {

/// The mathematical value of a JSON document. A number keeps the text it
/// was written with. An object keeps its members in the order written.
pub enum JsonValue {
    Null,
    Bool(bool),
    Number(Seq<u8>),
    Text(Seq<u8>),
    Array(Seq<JsonValue>),
    Object(Seq<(Seq<u8>, JsonValue)>),
}

/// A JSON document held in memory.
#[derive(Debug)]
pub enum Json {
    Null,
    Bool(bool),
    Number(Vec<u8>),
    Text(Vec<u8>),
    Array(Vec<Json>),
    Object(Vec<(Vec<u8>, Json)>),
}

impl Json {
    /// The value that this document stands for.
    pub open spec fn model(&self) -> JsonValue
        decreases self,
    {
        match self {
            Json::Null => JsonValue::Null,
            Json::Bool(b) => JsonValue::Bool(*b),
            Json::Number(n) => JsonValue::Number(n@),
            Json::Text(t) => JsonValue::Text(t@),
            Json::Array(items) => JsonValue::Array(
                Seq::new(
                    items@.len(),
                    |i: int|
                        if 0 <= i < items@.len() {
                            items@[i].model()
                        } else {
                            JsonValue::Null
                        },
                ),
            ),
            Json::Object(members) => JsonValue::Object(
                Seq::new(
                    members@.len(),
                    |i: int|
                        if 0 <= i < members@.len() {
                            (members@[i].0@, members@[i].1.model())
                        } else {
                            (Seq::empty(), JsonValue::Null)
                        },
                ),
            ),
        }
    }
}

impl View for Json {
    type V = JsonValue;

    open spec fn view(&self) -> JsonValue {
        self.model()
    }
}

/// The values of a list of documents.
pub open spec fn item_models(items: Seq<Json>) -> Seq<JsonValue> {
    Seq::new(items.len(), |i: int| items[i]@)
}

/// The values of a list of object members.
pub open spec fn member_models(members: Seq<(Vec<u8>, Json)>) -> Seq<(Seq<u8>, JsonValue)> {
    Seq::new(members.len(), |i: int| (members[i].0@, members[i].1@))
}

/// An array's value is the list of its items' values.
pub proof fn lemma_array_model(items: Vec<Json>)
    ensures
        Json::Array(items)@ == JsonValue::Array(item_models(items@)),
{
    let a = Json::Array(items).model()->Array_0;
    assert(a =~= item_models(items@));
}

/// An object's value is the list of its members' values.
pub proof fn lemma_object_model(members: Vec<(Vec<u8>, Json)>)
    ensures
        Json::Object(members)@ == JsonValue::Object(member_models(members@)),
{
    let a = Json::Object(members).model()->Object_0;
    assert(a =~= member_models(members@));
}

/// How deep arrays and objects may nest.
pub const MAX_DEPTH: usize = 128;

/// Space, tab, line feed or carriage return.
pub open spec fn is_space(b: u8) -> bool {
    b == 32 || b == 9 || b == 10 || b == 13
}

/// A decimal digit.
pub open spec fn is_digit(b: u8) -> bool {
    48 <= b <= 57
}

/// The first position at or after `i` that holds no white space.
pub open spec fn skip_space(s: Seq<u8>, i: int) -> int
    decreases s.len() - i,
{
    if 0 <= i < s.len() && is_space(s[i]) {
        skip_space(s, i + 1)
    } else {
        i
    }
}

/// The first position at or after `i` that holds no digit.
pub open spec fn skip_digits(s: Seq<u8>, i: int) -> int
    decreases s.len() - i,
{
    if 0 <= i < s.len() && is_digit(s[i]) {
        skip_digits(s, i + 1)
    } else {
        i
    }
}

/// `skip_digits` moves forward and stays within the text.
pub proof fn lemma_skip_digits(s: Seq<u8>, i: int)
    requires
        0 <= i <= s.len(),
    ensures
        i <= skip_digits(s, i) <= s.len(),
    decreases s.len() - i,
{
    if i < s.len() && is_digit(s[i]) {
        lemma_skip_digits(s, i + 1);
    }
}

/// The value of a hexadecimal digit, or -1.
pub open spec fn hex_value(b: u8) -> int {
    if 48 <= b <= 57 {
        b - 48
    } else if 97 <= b <= 102 {
        b - 87
    } else if 65 <= b <= 70 {
        b - 55
    } else {
        -1
    }
}

/// The code point written by four hexadecimal digits at `i`, or -1.
pub open spec fn hex4(s: Seq<u8>, i: int) -> int {
    if i < 0 || i + 4 > s.len() || hex_value(s[i]) < 0 || hex_value(s[i + 1]) < 0 || hex_value(
        s[i + 2],
    ) < 0 || hex_value(s[i + 3]) < 0 {
        -1
    } else {
        hex_value(s[i]) * 4096 + hex_value(s[i + 1]) * 256 + hex_value(s[i + 2]) * 16 + hex_value(
            s[i + 3],
        )
    }
}

/// The UTF-8 bytes of a code point below 65536.
pub open spec fn utf8(code: int) -> Seq<u8> {
    if code < 128 {
        seq![code as u8]
    } else if code < 2048 {
        seq![(192 + code / 64) as u8, (128 + code % 64) as u8]
    } else {
        seq![(224 + code / 4096) as u8, (128 + (code / 64) % 64) as u8, (128 + code % 64) as u8]
    }
}

/// The byte that a one-letter escape stands for, or -1.
pub open spec fn escape_value(b: u8) -> int {
    if b == 34 || b == 92 || b == 47 {
        b as int
    } else if b == 98 {
        8
    } else if b == 102 {
        12
    } else if b == 110 {
        10
    } else if b == 114 {
        13
    } else if b == 116 {
        9
    } else {
        -1
    }
}

/// Reads the rest of a string whose opening quote was just passed, `acc`
/// being what was read so far. Gives the text and the position after the
/// closing quote. Control bytes, unknown escapes and escaped surrogates are
/// refused.
pub open spec fn text_at(s: Seq<u8>, i: int, acc: Seq<u8>) -> Option<(Seq<u8>, int)>
    decreases s.len() - i,
{
    if i < 0 || i >= s.len() {
        None
    } else if s[i] == 34 {
        Some((acc, i + 1))
    } else if s[i] == 92 {
        if i + 1 >= s.len() {
            None
        } else if s[i + 1] == 117 {
            let code = hex4(s, i + 2);
            if code < 0 || 55296 <= code < 57344 {
                None
            } else {
                text_at(s, i + 6, acc + utf8(code))
            }
        } else if escape_value(s[i + 1]) >= 0 {
            text_at(s, i + 2, acc.push(escape_value(s[i + 1]) as u8))
        } else {
            None
        }
    } else if s[i] < 32 {
        None
    } else {
        text_at(s, i + 1, acc.push(s[i]))
    }
}

/// Where the number that begins at `i` ends, or -1 when none begins there:
/// an optional minus, a zero or digits without a leading zero, an optional
/// fraction, an optional exponent.
pub open spec fn number_end(s: Seq<u8>, i: int) -> int {
    let a = if 0 <= i < s.len() && s[i] == 45 {
        i + 1
    } else {
        i
    };
    if a < 0 || a >= s.len() || !is_digit(s[a]) {
        -1
    } else {
        let b = if s[a] == 48 {
            a + 1
        } else {
            skip_digits(s, a)
        };
        let c = if 0 <= b < s.len() && s[b] == 46 {
            skip_digits(s, b + 1)
        } else {
            b
        };
        if 0 <= b < s.len() && s[b] == 46 && c == b + 1 {
            -1
        } else if 0 <= c < s.len() && (s[c] == 101 || s[c] == 69) {
            let d = if c + 1 < s.len() && (s[c + 1] == 43 || s[c + 1] == 45) {
                c + 2
            } else {
                c + 1
            };
            if skip_digits(s, d) == d {
                -1
            } else {
                skip_digits(s, d)
            }
        } else {
            c
        }
    }
}

/// Reads the value that begins at `i`; gives it and the position after it.
/// `depth` is how many more levels of arrays and objects may open.
pub open spec fn value_at(s: Seq<u8>, i: int, depth: nat) -> Option<(JsonValue, int)>
    decreases s.len() - i, 1nat,
{
    if i < 0 || i >= s.len() {
        None
    } else if s[i] == 123 {
        if depth == 0 || skip_space(s, i + 1) <= i || skip_space(s, i + 1) > s.len() {
            None
        } else {
            members_at(s, skip_space(s, i + 1), (depth - 1) as nat, Seq::empty())
        }
    } else if s[i] == 91 {
        if depth == 0 || skip_space(s, i + 1) <= i || skip_space(s, i + 1) > s.len() {
            None
        } else {
            elements_at(s, skip_space(s, i + 1), (depth - 1) as nat, Seq::empty())
        }
    } else if s[i] == 34 {
        match text_at(s, i + 1, Seq::empty()) {
            Some((t, j)) => Some((JsonValue::Text(t), j)),
            None => None,
        }
    } else if word_at(s, i, seq![110u8, 117, 108, 108]) {
        Some((JsonValue::Null, i + 4))
    } else if word_at(s, i, seq![116u8, 114, 117, 101]) {
        Some((JsonValue::Bool(true), i + 4))
    } else if word_at(s, i, seq![102u8, 97, 108, 115, 101]) {
        Some((JsonValue::Bool(false), i + 5))
    } else if number_end(s, i) > i {
        Some((JsonValue::Number(s.subrange(i, number_end(s, i))), number_end(s, i)))
    } else {
        None
    }
}

/// The bytes of `word` stand at `i`.
pub open spec fn word_at(s: Seq<u8>, i: int, word: Seq<u8>) -> bool {
    0 <= i && i + word.len() <= s.len() && s.subrange(i, i + word.len()) == word
}

/// Reads the items of an array from `i` on, the bracket and the white
/// space after it being passed and `acc` holding the items read so far.
pub open spec fn elements_at(s: Seq<u8>, i: int, depth: nat, acc: Seq<JsonValue>) -> Option<
    (JsonValue, int),
>
    decreases s.len() - i, 2nat,
{
    if i < 0 || i >= s.len() {
        None
    } else if acc.len() == 0 && s[i] == 93 {
        Some((JsonValue::Array(acc), i + 1))
    } else {
        match value_at(s, i, depth) {
            None => None,
            Some((v, j)) => {
                let k = skip_space(s, j);
                if j <= i || k < j || k >= s.len() {
                    None
                } else if s[k] == 93 {
                    Some((JsonValue::Array(acc.push(v)), k + 1))
                } else if s[k] == 44 && k < skip_space(s, k + 1) <= s.len() {
                    elements_at(s, skip_space(s, k + 1), depth, acc.push(v))
                } else {
                    None
                }
            },
        }
    }
}

/// Reads the members of an object from `i` on, the brace and the white
/// space after it being passed and `acc` holding the members read so far.
pub open spec fn members_at(
    s: Seq<u8>,
    i: int,
    depth: nat,
    acc: Seq<(Seq<u8>, JsonValue)>,
) -> Option<(JsonValue, int)>
    decreases s.len() - i, 2nat,
{
    if i < 0 || i >= s.len() {
        None
    } else if acc.len() == 0 && s[i] == 125 {
        Some((JsonValue::Object(acc), i + 1))
    } else if s[i] != 34 {
        None
    } else {
        match text_at(s, i + 1, Seq::empty()) {
            None => None,
            Some((key, after_key)) => {
                let colon = skip_space(s, after_key);
                if after_key <= i || colon < after_key || colon >= s.len() || s[colon] != 58
                    || skip_space(s, colon + 1) <= colon || skip_space(s, colon + 1) > s.len() {
                    None
                } else {
                    match value_at(s, skip_space(s, colon + 1), depth) {
                        None => None,
                        Some((v, j)) => {
                            let k = skip_space(s, j);
                            if j <= i || k < j || k >= s.len() {
                                None
                            } else if s[k] == 125 {
                                Some((JsonValue::Object(acc.push((key, v))), k + 1))
                            } else if s[k] == 44 && k < skip_space(s, k + 1) <= s.len() {
                                members_at(s, skip_space(s, k + 1), depth, acc.push((key, v)))
                            } else {
                                None
                            }
                        },
                    }
                }
            },
        }
    }
}

/// The document that `s` holds: one value with nothing but white space
/// around it. `None` when `s` is not a JSON text.
pub open spec fn parsed(s: Seq<u8>) -> Option<JsonValue> {
    match value_at(s, skip_space(s, 0), MAX_DEPTH as nat) {
        Some((v, j)) => if skip_space(s, j) == s.len() {
            Some(v)
        } else {
            None
        },
        None => None,
    }
}

fn skip_ws(s: &[u8], i: usize) -> (r: usize)
    requires
        i <= s@.len(),
    ensures
        r == skip_space(s@, i as int),
        i <= r <= s@.len(),
{
    let mut k: usize = i;
    while k < s.len() && (s[k] == 32 || s[k] == 9 || s[k] == 10 || s[k] == 13)
        invariant
            i <= k <= s@.len(),
            skip_space(s@, i as int) == skip_space(s@, k as int),
        decreases s@.len() - k,
    {
        k += 1;
    }
    k
}

fn digits_end(s: &[u8], i: usize) -> (r: usize)
    requires
        i <= s@.len(),
    ensures
        r == skip_digits(s@, i as int),
        i <= r <= s@.len(),
{
    let mut k: usize = i;
    while k < s.len() && 48 <= s[k] && s[k] <= 57
        invariant
            i <= k <= s@.len(),
            skip_digits(s@, i as int) == skip_digits(s@, k as int),
        decreases s@.len() - k,
    {
        k += 1;
    }
    k
}

fn hex_digit(b: u8) -> (r: Option<u32>)
    ensures
        match r {
            Some(v) => v == hex_value(b) && v < 16,
            None => hex_value(b) < 0,
        },
{
    if 48 <= b && b <= 57 {
        Some((b - 48) as u32)
    } else if 97 <= b && b <= 102 {
        Some((b - 87) as u32)
    } else if 65 <= b && b <= 70 {
        Some((b - 55) as u32)
    } else {
        None
    }
}

fn read_hex4(s: &[u8], i: usize) -> (r: Option<u32>)
    requires
        i <= s@.len(),
    ensures
        match r {
            Some(v) => v == hex4(s@, i as int) && v < 65536 && i + 4 <= s@.len(),
            None => hex4(s@, i as int) < 0,
        },
{
    if s.len() - i < 4 {
        return None;
    }
    match (hex_digit(s[i]), hex_digit(s[i + 1]), hex_digit(s[i + 2]), hex_digit(s[i + 3])) {
        (Some(a), Some(b), Some(c), Some(d)) => Some(a * 4096 + b * 256 + c * 16 + d),
        _ => None,
    }
}

fn push_utf8(out: &mut Vec<u8>, code: u32)
    requires
        code < 65536,
    ensures
        final(out)@ == old(out)@ + utf8(code as int),
{
    if code < 128 {
        out.push(code as u8);
        assert(out@ =~= old(out)@ + utf8(code as int));
    } else if code < 2048 {
        out.push((192 + code / 64) as u8);
        out.push((128 + code % 64) as u8);
        assert(out@ =~= old(out)@ + utf8(code as int));
    } else {
        out.push((224 + code / 4096) as u8);
        out.push((128 + (code / 64) % 64) as u8);
        out.push((128 + code % 64) as u8);
        assert(out@ =~= old(out)@ + utf8(code as int));
    }
}

fn escape(b: u8) -> (r: Option<u8>)
    ensures
        match r {
            Some(v) => v == escape_value(b),
            None => escape_value(b) < 0,
        },
{
    if b == 34 || b == 92 || b == 47 {
        Some(b)
    } else if b == 98 {
        Some(8)
    } else if b == 102 {
        Some(12)
    } else if b == 110 {
        Some(10)
    } else if b == 114 {
        Some(13)
    } else if b == 116 {
        Some(9)
    } else {
        None
    }
}

fn read_text(s: &[u8], start: usize) -> (r: Option<(Vec<u8>, usize)>)
    requires
        start <= s@.len(),
    ensures
        match r {
            Some((t, j)) => text_at(s@, start as int, Seq::empty()) == Some((t@, j as int)) && j
                <= s@.len(),
            None => text_at(s@, start as int, Seq::empty()) is None,
        },
{
    let mut acc: Vec<u8> = Vec::new();
    let mut i: usize = start;
    loop
        invariant
            start <= i <= s@.len(),
            text_at(s@, start as int, Seq::empty()) == text_at(s@, i as int, acc@),
        decreases s@.len() - i,
    {
        if i >= s.len() {
            return None;
        }
        let b = s[i];
        if b == 34 {
            return Some((acc, i + 1));
        } else if b == 92 {
            if i + 1 >= s.len() {
                return None;
            }
            let e = s[i + 1];
            if e == 117 {
                match read_hex4(s, i + 2) {
                    None => {
                        return None;
                    },
                    Some(code) => {
                        if 55296 <= code && code < 57344 {
                            return None;
                        }
                        push_utf8(&mut acc, code);
                        i += 6;
                    },
                }
            } else {
                match escape(e) {
                    None => {
                        return None;
                    },
                    Some(v) => {
                        acc.push(v);
                        i += 2;
                    },
                }
            }
        } else if b < 32 {
            return None;
        } else {
            acc.push(b);
            i += 1;
        }
    }
}

fn read_number_end(s: &[u8], i: usize) -> (r: Option<usize>)
    requires
        i < s@.len(),
    ensures
        match r {
            Some(e) => e == number_end(s@, i as int) && i < e <= s@.len(),
            None => number_end(s@, i as int) <= i,
        },
{
    let a: usize = if s[i] == 45 {
        i + 1
    } else {
        i
    };
    if a >= s.len() || !(48 <= s[a] && s[a] <= 57) {
        return None;
    }
    let b: usize = if s[a] == 48 {
        a + 1
    } else {
        digits_end(s, a)
    };
    proof {
        if s@[a as int] != 48 {
            assert(skip_digits(s@, a as int) == skip_digits(s@, a + 1));
            lemma_skip_digits(s@, a + 1);
        }
    }
    let mut c: usize = b;
    if b < s.len() && s[b] == 46 {
        c = digits_end(s, b + 1);
        if c == b + 1 {
            return None;
        }
    }
    if c < s.len() && (s[c] == 101 || s[c] == 69) {
        let d: usize = if c + 1 < s.len() && (s[c + 1] == 43 || s[c + 1] == 45) {
            c + 2
        } else {
            c + 1
        };
        let e = digits_end(s, d);
        if e == d {
            return None;
        }
        Some(e)
    } else {
        Some(c)
    }
}

fn read_value(s: &[u8], i: usize, depth: usize) -> (r: Option<(Json, usize)>)
    requires
        i <= s@.len(),
    ensures
        match r {
            Some((v, j)) => value_at(s@, i as int, depth as nat) == Some((v@, j as int)) && j
                <= s@.len(),
            None => value_at(s@, i as int, depth as nat) is None,
        },
    decreases s@.len() - i, 1nat,
{
    if i >= s.len() {
        return None;
    }
    let b = s[i];
    if b == 123 {
        if depth == 0 {
            return None;
        }
        let next = skip_ws(s, i + 1);
        let acc: Vec<(Vec<u8>, Json)> = Vec::new();
        assert(member_models(acc@) =~= Seq::empty());
        read_members(s, next, depth - 1, acc)
    } else if b == 91 {
        if depth == 0 {
            return None;
        }
        let next = skip_ws(s, i + 1);
        let acc: Vec<Json> = Vec::new();
        assert(item_models(acc@) =~= Seq::empty());
        read_elements(s, next, depth - 1, acc)
    } else if b == 34 {
        match read_text(s, i + 1) {
            Some((t, j)) => Some((Json::Text(t), j)),
            None => None,
        }
    } else {
        let null_word = [110u8, 117, 108, 108];
        let true_word = [116u8, 114, 117, 101];
        let false_word = [102u8, 97, 108, 115, 101];
        assert(null_word@ =~= seq![110u8, 117, 108, 108]);
        assert(true_word@ =~= seq![116u8, 114, 117, 101]);
        assert(false_word@ =~= seq![102u8, 97, 108, 115, 101]);
        if matches_at(s, i, null_word.as_slice()) {
            Some((Json::Null, i + 4))
        } else if matches_at(s, i, true_word.as_slice()) {
            Some((Json::Bool(true), i + 4))
        } else if matches_at(s, i, false_word.as_slice()) {
            Some((Json::Bool(false), i + 5))
        } else {
            match read_number_end(s, i) {
                Some(e) => Some((Json::Number(copy_range(s, i, e)), e)),
                None => None,
            }
        }
    }
}

fn read_elements(s: &[u8], i: usize, depth: usize, acc: Vec<Json>) -> (r: Option<(Json, usize)>)
    requires
        i <= s@.len(),
    ensures
        match r {
            Some((v, j)) => elements_at(s@, i as int, depth as nat, item_models(acc@)) == Some(
                (v@, j as int),
            ) && j <= s@.len(),
            None => elements_at(s@, i as int, depth as nat, item_models(acc@)) is None,
        },
    decreases s@.len() - i, 2nat,
{
    let mut acc = acc;
    let ghost before = item_models(acc@);
    if i >= s.len() {
        return None;
    }
    if acc.len() == 0 && s[i] == 93 {
        proof {
            lemma_array_model(acc);
        }
        return Some((Json::Array(acc), i + 1));
    }
    match read_value(s, i, depth) {
        None => None,
        Some((v, j)) => {
            let k = skip_ws(s, j);
            if j <= i || k >= s.len() {
                return None;
            }
            acc.push(v);
            assert(item_models(acc@) =~= before.push(v@));
            if s[k] == 93 {
                proof {
                    lemma_array_model(acc);
                }
                Some((Json::Array(acc), k + 1))
            } else if s[k] == 44 {
                let next = skip_ws(s, k + 1);
                read_elements(s, next, depth, acc)
            } else {
                None
            }
        },
    }
}

fn read_members(s: &[u8], i: usize, depth: usize, acc: Vec<(Vec<u8>, Json)>) -> (r: Option<
    (Json, usize),
>)
    requires
        i <= s@.len(),
    ensures
        match r {
            Some((v, j)) => members_at(s@, i as int, depth as nat, member_models(acc@)) == Some(
                (v@, j as int),
            ) && j <= s@.len(),
            None => members_at(s@, i as int, depth as nat, member_models(acc@)) is None,
        },
    decreases s@.len() - i, 2nat,
{
    let mut acc = acc;
    let ghost before = member_models(acc@);
    if i >= s.len() {
        return None;
    }
    if acc.len() == 0 && s[i] == 125 {
        proof {
            lemma_object_model(acc);
        }
        return Some((Json::Object(acc), i + 1));
    }
    if s[i] != 34 {
        return None;
    }
    match read_text(s, i + 1) {
        None => None,
        Some((key, after_key)) => {
            if after_key <= i {
                return None;
            }
            let colon = skip_ws(s, after_key);
            if colon >= s.len() || s[colon] != 58 {
                return None;
            }
            let at = skip_ws(s, colon + 1);
            match read_value(s, at, depth) {
                None => None,
                Some((v, j)) => {
                    let k = skip_ws(s, j);
                    if j <= i || k >= s.len() {
                        return None;
                    }
                    let ghost key_view = key@;
                    acc.push((key, v));
                    assert(member_models(acc@) =~= before.push((key_view, v@)));
                    if s[k] == 125 {
                        proof {
                            lemma_object_model(acc);
                        }
                        Some((Json::Object(acc), k + 1))
                    } else if s[k] == 44 {
                        let next = skip_ws(s, k + 1);
                        read_members(s, next, depth, acc)
                    } else {
                        None
                    }
                },
            }
        },
    }
}

/// Parses a JSON text.
pub fn parse(s: &[u8]) -> (r: Option<Json>)
    ensures
        match r {
            Some(j) => parsed(s@) == Some(j@),
            None => parsed(s@) is None,
        },
{
    let start = skip_ws(s, 0);
    match read_value(s, start, MAX_DEPTH) {
        None => None,
        Some((v, j)) => {
            let end = skip_ws(s, j);
            if end == s.len() {
                Some(v)
            } else {
                None
            }
        },
    }
}

/// The position of the last member named `key`; -1 when there is none.
pub open spec fn member_index(members: Seq<(Seq<u8>, JsonValue)>, key: Seq<u8>) -> int
    decreases members.len(),
{
    if members.len() == 0 {
        -1
    } else if members.last().0 == key {
        members.len() - 1
    } else {
        member_index(members.drop_last(), key)
    }
}

/// `member_index` is -1 or the position of a member named `key`.
pub proof fn lemma_member_index(members: Seq<(Seq<u8>, JsonValue)>, key: Seq<u8>)
    ensures
        -1 <= member_index(members, key) < members.len(),
        member_index(members, key) >= 0 ==> members[member_index(members, key)].0 == key,
    decreases members.len(),
{
    if members.len() > 0 && members.last().0 != key {
        lemma_member_index(members.drop_last(), key);
    }
}

/// The member of an object named `key`, the last one written with that
/// name; `None` for a value that is no object or has no such member.
pub open spec fn field(v: JsonValue, key: Seq<u8>) -> Option<JsonValue> {
    match v {
        JsonValue::Object(members) => {
            let k = member_index(members, key);
            if 0 <= k < members.len() {
                Some(members[k].1)
            } else {
                None
            }
        },
        _ => None,
    }
}

/// Finds the last member named `key`.
pub fn find_member(members: &Vec<(Vec<u8>, Json)>, key: &[u8]) -> (r: Option<usize>)
    ensures
        match r {
            Some(k) => k == member_index(member_models(members@), key@) && k < members@.len(),
            None => member_index(member_models(members@), key@) == -1,
        },
{
    let ghost all = member_models(members@);
    let mut i: usize = members.len();
    assert(all.take(i as int) =~= all);
    while i > 0
        invariant
            i <= members@.len(),
            all == member_models(members@),
            member_index(all, key@) == member_index(all.take(i as int), key@),
        decreases i,
    {
        i -= 1;
        assert(all.take(i + 1).drop_last() =~= all.take(i as int));
        assert(all.take(i + 1).last().0 == members@[i as int].0@);
        if equal(members[i].0.as_slice(), key) {
            return Some(i);
        }
    }
    None
}

/// The member of an object named `key`.
pub fn get_field<'a>(j: &'a Json, key: &[u8]) -> (r: Option<&'a Json>)
    ensures
        match r {
            Some(x) => field(j@, key@) == Some(x@),
            None => field(j@, key@) is None,
        },
{
    match j {
        Json::Object(members) => {
            proof {
                lemma_object_model(*members);
                lemma_member_index(member_models(members@), key@);
            }
            match find_member(members, key) {
                Some(k) => Some(&members[k].1),
                None => None,
            }
        },
        _ => None,
    }
}

} // verus!
