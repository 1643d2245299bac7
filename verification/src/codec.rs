//! The persistence encoding: notes as a JSON array of objects with the
//! fields `id`, `title` and `content`, and a decoder for the same text.

use vstd::prelude::*;

verus! {

/// The hexadecimal digit character for a value in 0..16.
pub open spec fn hex_digit(d: int) -> char {
    if d == 0 {
        '0'
    } else if d == 1 {
        '1'
    } else if d == 2 {
        '2'
    } else if d == 3 {
        '3'
    } else if d == 4 {
        '4'
    } else if d == 5 {
        '5'
    } else if d == 6 {
        '6'
    } else if d == 7 {
        '7'
    } else if d == 8 {
        '8'
    } else if d == 9 {
        '9'
    } else if d == 10 {
        'a'
    } else if d == 11 {
        'b'
    } else if d == 12 {
        'c'
    } else if d == 13 {
        'd'
    } else if d == 14 {
        'e'
    } else {
        'f'
    }
}

/// The decimal digits of a non-negative number, most significant first.
pub open spec fn digits_of(n: int) -> Seq<char>
    decreases n,
{
    if n < 10 {
        seq![hex_digit(n)]
    } else {
        digits_of(n / 10) + seq![hex_digit(n % 10)]
    }
}

/// How one character appears inside a JSON string: quote and backslash
/// get a backslash escape, control characters a `\u00XX` escape, and
/// every other character stands for itself.
pub open spec fn escape_char(c: char) -> Seq<char> {
    if c == '"' {
        seq!['\\', '"']
    } else if c == '\\' {
        seq!['\\', '\\']
    } else if (c as u32) < 0x20 {
        seq!['\\', 'u', '0', '0', hex_digit(((c as u32) / 16) as int), hex_digit(
            ((c as u32) % 16) as int,
        )]
    } else {
        seq![c]
    }
}

/// The inside of a JSON string: each character escaped as needed.
pub open spec fn encode_string_body(s: Seq<char>) -> Seq<char>
    decreases s.len(),
{
    if s.len() == 0 {
        Seq::empty()
    } else {
        escape_char(s[0]) + encode_string_body(s.drop_first())
    }
}

/// A JSON string: the escaped body between double quotes.
pub open spec fn encode_string(s: Seq<char>) -> Seq<char> {
    seq!['"'] + encode_string_body(s) + seq!['"']
}

/// One note as a JSON object with the fields `id`, `title` and `content`,
/// in that order.
pub open spec fn encode_note(n: crate::model::NoteModel) -> Seq<char> {
    seq!['{', '"', 'i', 'd', '"', ':'] + digits_of(n.id) + seq![',', '"', 't', 'i', 't', 'l', 'e', '"', ':']
        + encode_string(n.title) + seq![',', '"', 'c', 'o', 'n', 't', 'e', 'n', 't', '"', ':']
        + encode_string(n.content) + seq!['}']
}

/// The notes of the array, separated by commas.
pub open spec fn encode_items(s: Seq<crate::model::NoteModel>) -> Seq<char>
    decreases s.len(),
{
    if s.len() == 0 {
        Seq::empty()
    } else if s.len() == 1 {
        encode_note(s[0])
    } else {
        encode_note(s[0]) + seq![','] + encode_items(s.drop_first())
    }
}

/// The whole persisted text: a JSON array of the notes in order.
pub open spec fn encode_notes(s: Seq<crate::model::NoteModel>) -> Seq<char> {
    seq!['['] + encode_items(s) + seq![']']
}

/// Appending one more character to a string extends its escaped body by
/// that character's escape.
pub proof fn lemma_body_snoc(s: Seq<char>, c: char)
    ensures
        encode_string_body(s.push(c)) == encode_string_body(s) + escape_char(c),
    decreases s.len(),
{
    if s.len() == 0 {
        assert(s.push(c)[0] == c);
        assert(s.push(c).drop_first() =~= Seq::<char>::empty());
        assert(encode_string_body(s.push(c).drop_first()) == Seq::<char>::empty());
        assert(encode_string_body(s.push(c)) =~= encode_string_body(s) + escape_char(c));
    } else {
        assert(s.push(c)[0] == s[0]);
        assert(s.push(c).drop_first() =~= s.drop_first().push(c));
        lemma_body_snoc(s.drop_first(), c);
        assert(encode_string_body(s.push(c)) == escape_char(s[0]) + encode_string_body(
            s.drop_first().push(c),
        ));
        assert(encode_string_body(s.push(c)) =~= encode_string_body(s) + escape_char(c));
    }
}

/// Appending one more note to the array extends its encoding by a comma
/// (when it is not the first) and the note's encoding.
pub proof fn lemma_items_snoc(s: Seq<crate::model::NoteModel>, x: crate::model::NoteModel)
    ensures
        s.len() == 0 ==> encode_items(s.push(x)) == encode_note(x),
        s.len() > 0 ==> encode_items(s.push(x)) == encode_items(s) + seq![','] + encode_note(x),
    decreases s.len(),
{
    if s.len() == 0 {
        assert(s.push(x)[0] == x);
    } else if s.len() == 1 {
        assert(s.push(x)[0] == s[0]);
        assert(s.push(x).drop_first() =~= seq![x]);
        assert(encode_items(seq![x]) == encode_note(x));
        assert(encode_items(s.push(x)) =~= encode_items(s) + seq![','] + encode_note(x));
    } else {
        assert(s.push(x)[0] == s[0]);
        assert(s.push(x).drop_first() =~= s.drop_first().push(x));
        lemma_items_snoc(s.drop_first(), x);
        assert(encode_items(s.push(x)) =~= encode_items(s) + seq![','] + encode_note(x));
    }
}

/// JSON whitespace.
pub open spec fn is_ws(c: char) -> bool {
    c == ' ' || c == '\t' || c == '\n' || c == '\r'
}

/// The first position at or after `i` holding no whitespace.
pub open spec fn skip_ws(t: Seq<char>, i: int) -> int
    decreases t.len() - i,
{
    if 0 <= i < t.len() && is_ws(t[i]) {
        skip_ws(t, i + 1)
    } else {
        i
    }
}

/// The value of a decimal digit character, or -1.
pub open spec fn digit_val(c: char) -> int {
    if c == '0' {
        0
    } else if c == '1' {
        1
    } else if c == '2' {
        2
    } else if c == '3' {
        3
    } else if c == '4' {
        4
    } else if c == '5' {
        5
    } else if c == '6' {
        6
    } else if c == '7' {
        7
    } else if c == '8' {
        8
    } else if c == '9' {
        9
    } else {
        -1
    }
}

/// Whether the character is a decimal digit.
pub open spec fn is_digit(c: char) -> bool {
    digit_val(c) >= 0
}

/// The value of a hexadecimal digit character, or -1.
pub open spec fn hex_val(c: char) -> int {
    if digit_val(c) >= 0 {
        digit_val(c)
    } else if c == 'a' || c == 'A' {
        10
    } else if c == 'b' || c == 'B' {
        11
    } else if c == 'c' || c == 'C' {
        12
    } else if c == 'd' || c == 'D' {
        13
    } else if c == 'e' || c == 'E' {
        14
    } else if c == 'f' || c == 'F' {
        15
    } else {
        -1
    }
}

/// Reads a digit run starting from an accumulated value; fails when the
/// value would not fit a `usize`.
pub open spec fn parse_nat(t: Seq<char>, i: int, acc: int) -> Option<(int, int)>
    decreases t.len() - i,
{
    if 0 <= i < t.len() && is_digit(t[i]) {
        if acc * 10 + digit_val(t[i]) > usize::MAX as int {
            None
        } else {
            parse_nat(t, i + 1, acc * 10 + digit_val(t[i]))
        }
    } else {
        Some((acc, i))
    }
}

/// Reads a number: one digit at least, value fitting a `usize`.
pub open spec fn parse_number(t: Seq<char>, i: int) -> Option<(int, int)> {
    if 0 <= i < t.len() && is_digit(t[i]) {
        parse_nat(t, i, 0)
    } else {
        None
    }
}

/// Reads the inside of a JSON string up to its closing quote, resolving
/// escapes; `\uXXXX` is accepted for values below 0x80.
pub open spec fn parse_string_body(t: Seq<char>, i: int, acc: Seq<char>) -> Option<
    (Seq<char>, int),
>
    decreases t.len() - i,
{
    if i < 0 || i >= t.len() {
        None
    } else if t[i] == '"' {
        Some((acc, i + 1))
    } else if t[i] == '\\' {
        if i + 1 >= t.len() {
            None
        } else {
            let e = t[i + 1];
            if e == '"' {
                parse_string_body(t, i + 2, acc.push('"'))
            } else if e == '\\' {
                parse_string_body(t, i + 2, acc.push('\\'))
            } else if e == '/' {
                parse_string_body(t, i + 2, acc.push('/'))
            } else if e == 'n' {
                parse_string_body(t, i + 2, acc.push('\n'))
            } else if e == 't' {
                parse_string_body(t, i + 2, acc.push('\t'))
            } else if e == 'r' {
                parse_string_body(t, i + 2, acc.push('\r'))
            } else if e == 'b' {
                parse_string_body(t, i + 2, acc.push(8u8 as char))
            } else if e == 'f' {
                parse_string_body(t, i + 2, acc.push(12u8 as char))
            } else if e == 'u' {
                if i + 6 > t.len() {
                    None
                } else if hex_val(t[i + 2]) < 0 || hex_val(t[i + 3]) < 0 || hex_val(t[i + 4]) < 0
                    || hex_val(t[i + 5]) < 0 {
                    None
                } else {
                    let v = ((hex_val(t[i + 2]) * 16 + hex_val(t[i + 3])) * 16 + hex_val(t[i + 4]))
                        * 16 + hex_val(t[i + 5]);
                    if v >= 0x80 {
                        None
                    } else {
                        parse_string_body(t, i + 6, acc.push((v as u8) as char))
                    }
                }
            } else {
                None
            }
        }
    } else if (t[i] as u32) < 0x20 {
        None
    } else {
        parse_string_body(t, i + 1, acc.push(t[i]))
    }
}

/// Reads a quoted JSON string.
pub open spec fn parse_string(t: Seq<char>, i: int) -> Option<(Seq<char>, int)> {
    if 0 <= i < t.len() && t[i] == '"' {
        parse_string_body(t, i + 1, Seq::empty())
    } else {
        None
    }
}

/// The pattern stands in `t` at position `i`.
pub open spec fn has_at(t: Seq<char>, i: int, pat: Seq<char>) -> bool {
    0 <= i && i + pat.len() <= t.len() && (forall|k: int| 0 <= k < pat.len() ==> t[i + k] == pat[k])
}

/// Consumes the pattern if it stands at `i`.
pub open spec fn expect(t: Seq<char>, i: int, pat: Seq<char>) -> Option<int> {
    if has_at(t, i, pat) {
        Some(i + pat.len())
    } else {
        None
    }
}

/// Consumes one fixed character.
pub open spec fn expect_char(t: Seq<char>, i: int, c: char) -> Option<int> {
    if 0 <= i < t.len() && t[i] == c {
        Some(i + 1)
    } else {
        None
    }
}

/// The `id` field's key.
pub open spec fn key_id() -> Seq<char> {
    seq!['"', 'i', 'd', '"']
}

/// The `title` field's key.
pub open spec fn key_title() -> Seq<char> {
    seq!['"', 't', 'i', 't', 'l', 'e', '"']
}

/// The `content` field's key.
pub open spec fn key_content() -> Seq<char> {
    seq!['"', 'c', 'o', 'n', 't', 'e', 'n', 't', '"']
}

/// Reads one note object: `{"id":N,"title":S,"content":S}`, with
/// whitespace allowed between the tokens. `i` stands on the brace.
pub open spec fn parse_note(t: Seq<char>, i: int) -> Option<(crate::model::NoteModel, int)> {
    match expect_char(t, i, '{') {
        None => None,
        Some(j0) => match expect(t, skip_ws(t, j0), key_id()) {
            None => None,
            Some(j1) => match expect_char(t, skip_ws(t, j1), ':') {
                None => None,
                Some(j2) => match parse_number(t, skip_ws(t, j2)) {
                    None => None,
                    Some((idv, j3)) => match expect_char(t, skip_ws(t, j3), ',') {
                        None => None,
                        Some(j4) => match expect(t, skip_ws(t, j4), key_title()) {
                            None => None,
                            Some(j5) => match expect_char(t, skip_ws(t, j5), ':') {
                                None => None,
                                Some(j6) => match parse_string(t, skip_ws(t, j6)) {
                                    None => None,
                                    Some((title, j7)) => match expect_char(t, skip_ws(t, j7), ',') {
                                        None => None,
                                        Some(j8) => match expect(t, skip_ws(t, j8), key_content()) {
                                            None => None,
                                            Some(j9) => match expect_char(t, skip_ws(t, j9), ':') {
                                                None => None,
                                                Some(j10) => match parse_string(
                                                    t,
                                                    skip_ws(t, j10),
                                                ) {
                                                    None => None,
                                                    Some((content, j11)) => match expect_char(
                                                        t,
                                                        skip_ws(t, j11),
                                                        '}',
                                                    ) {
                                                        None => None,
                                                        Some(j12) => Some(
                                                            (
                                                                crate::model::NoteModel {
                                                                    id: idv,
                                                                    title: title,
                                                                    content: content,
                                                                },
                                                                j12,
                                                            ),
                                                        ),
                                                    },
                                                },
                                            },
                                        },
                                    },
                                },
                            },
                        },
                    },
                },
            },
        },
    }
}

/// Reads the notes of a nonempty array from the first note on: note,
/// then a comma and the next note, until the closing bracket.
pub open spec fn parse_items(t: Seq<char>, i: int, acc: Seq<crate::model::NoteModel>) -> Option<
    (Seq<crate::model::NoteModel>, int),
>
    decreases t.len() - i,
{
    match parse_note(t, i) {
        None => None,
        Some((n, j)) => {
            let k = skip_ws(t, j);
            if k < t.len() && t[k] == ',' {
                let m = skip_ws(t, k + 1);
                if i < m <= t.len() {
                    parse_items(t, m, acc.push(n))
                } else {
                    None
                }
            } else if k < t.len() && t[k] == ']' {
                Some((acc.push(n), k + 1))
            } else {
                None
            }
        },
    }
}

/// Decodes the persisted text: a JSON array of note objects, and nothing
/// but whitespace around it.
pub open spec fn spec_decode(t: Seq<char>) -> Option<Seq<crate::model::NoteModel>> {
    let i = skip_ws(t, 0);
    if i < t.len() && t[i] == '[' {
        let j = skip_ws(t, i + 1);
        if j < t.len() && t[j] == ']' {
            if skip_ws(t, j + 1) == t.len() {
                Some(Seq::empty())
            } else {
                None
            }
        } else {
            match parse_items(t, j, Seq::empty()) {
                None => None,
                Some((notes, k)) => {
                    if skip_ws(t, k) == t.len() {
                        Some(notes)
                    } else {
                        None
                    }
                },
            }
        }
    } else {
        None
    }
}

/// Relies on `str::chars`: it yields exactly the characters of the
/// string, which are the string's view in order.
#[verifier::external_body]
pub(crate) fn string_to_chars(s: &str) -> (r: Vec<char>)
    ensures
        r@ == s@,
{
    s.chars().collect()
}

/// Relies on `String`'s `FromIterator<char>`: collecting characters
/// builds the string holding exactly those characters.
#[verifier::external_body]
pub(crate) fn chars_to_string(v: &Vec<char>) -> (r: String)
    ensures
        r@ == v@,
{
    v.iter().collect()
}

/// The character for one hexadecimal digit.
fn hex_digit_exec(d: usize) -> (c: char)
    requires
        d < 16,
    ensures
        c == hex_digit(d as int),
{
    if d == 0 {
        '0'
    } else if d == 1 {
        '1'
    } else if d == 2 {
        '2'
    } else if d == 3 {
        '3'
    } else if d == 4 {
        '4'
    } else if d == 5 {
        '5'
    } else if d == 6 {
        '6'
    } else if d == 7 {
        '7'
    } else if d == 8 {
        '8'
    } else if d == 9 {
        '9'
    } else if d == 10 {
        'a'
    } else if d == 11 {
        'b'
    } else if d == 12 {
        'c'
    } else if d == 13 {
        'd'
    } else if d == 14 {
        'e'
    } else {
        'f'
    }
}

/// Appends the decimal digits of `n`.
fn push_digits(n: usize, out: &mut Vec<char>)
    ensures
        final(out)@ == old(out)@ + digits_of(n as int),
    decreases n,
{
    if n < 10 {
        let c = hex_digit_exec(n);
        out.push(c);
        proof {
            assert(out@ =~= old(out)@ + digits_of(n as int));
        }
    } else {
        push_digits(n / 10, out);
        let c = hex_digit_exec(n % 10);
        out.push(c);
        proof {
            assert(out@ =~= old(out)@ + digits_of(n as int));
        }
    }
}

/// Appends one character in its escaped form.
fn push_escaped_char(c: char, out: &mut Vec<char>)
    ensures
        final(out)@ == old(out)@ + escape_char(c),
{
    if c == '"' {
        out.push('\\');
        out.push('"');
    } else if c == '\\' {
        out.push('\\');
        out.push('\\');
    } else if (c as u32) < 0x20 {
        let v = c as u32;
        out.push('\\');
        out.push('u');
        out.push('0');
        out.push('0');
        let h = hex_digit_exec((v / 16) as usize);
        out.push(h);
        let l = hex_digit_exec((v % 16) as usize);
        out.push(l);
    } else {
        out.push(c);
    }
    proof {
        assert(out@ =~= old(out)@ + escape_char(c));
    }
}

/// Appends a text as a quoted, escaped JSON string.
fn push_string(s: &str, out: &mut Vec<char>)
    ensures
        final(out)@ == old(out)@ + encode_string(s@),
{
    let cs = string_to_chars(s);
    out.push('"');
    let n = cs.len();
    let mut i: usize = 0;
    while i < n
        invariant
            i <= n,
            n == cs.len(),
            cs@ == s@,
            out@ == old(out)@ + seq!['"'] + encode_string_body(cs@.take(i as int)),
        decreases n - i,
    {
        push_escaped_char(cs[i], out);
        proof {
            assert(cs@.take(i + 1) =~= cs@.take(i as int).push(cs@[i as int]));
            lemma_body_snoc(cs@.take(i as int), cs@[i as int]);
        }
        i = i + 1;
    }
    out.push('"');
    proof {
        assert(cs@.take(n as int) =~= s@);
        assert(out@ =~= old(out)@ + encode_string(s@));
    }
}

/// Appends one note as a JSON object.
fn push_note(note: &crate::store::Note, out: &mut Vec<char>)
    ensures
        final(out)@ == old(out)@ + encode_note(note.deep_view()),
{
    out.push('{');
    out.push('"');
    out.push('i');
    out.push('d');
    out.push('"');
    out.push(':');
    push_digits(note.id, out);
    out.push(',');
    out.push('"');
    out.push('t');
    out.push('i');
    out.push('t');
    out.push('l');
    out.push('e');
    out.push('"');
    out.push(':');
    push_string(note.title.as_str(), out);
    out.push(',');
    out.push('"');
    out.push('c');
    out.push('o');
    out.push('n');
    out.push('t');
    out.push('e');
    out.push('n');
    out.push('t');
    out.push('"');
    out.push(':');
    push_string(note.content.as_str(), out);
    out.push('}');
    proof {
        assert(out@ =~= old(out)@ + encode_note(note.deep_view()));
    }
}

/// Ten to the power `k` (1 for non-positive `k`).
pub open spec fn pow10(k: int) -> int
    decreases k,
{
    if k <= 0 {
        1
    } else {
        10 * pow10(k - 1)
    }
}

proof fn lemma_pow10_pos(k: int)
    ensures
        pow10(k) >= 1,
    decreases k,
{
    if k > 0 {
        lemma_pow10_pos(k - 1);
    }
}

/// The digits of a number are digit characters, and there is at least
/// one of them.
proof fn lemma_digits_are_digits(n: int)
    requires
        n >= 0,
    ensures
        digits_of(n).len() >= 1,
        forall|k: int| 0 <= k < digits_of(n).len() ==> is_digit(#[trigger] digits_of(n)[k]),
    decreases n,
{
    if n < 10 {
        assert(digit_val(hex_digit(n)) == n);
        assert(digits_of(n)[0] == hex_digit(n));
    } else {
        lemma_digits_are_digits(n / 10);
        let d = digits_of(n / 10);
        assert(digit_val(hex_digit(n % 10)) == n % 10);
        assert forall|k: int| 0 <= k < digits_of(n).len() implies is_digit(
            #[trigger] digits_of(n)[k],
        ) by {
            if k < d.len() {
                assert(digits_of(n)[k] == d[k]);
            } else {
                assert(digits_of(n)[k] == hex_digit(n % 10));
            }
        }
    }
}

/// Reading the digits of `n` multiplies the accumulated value out and
/// adds `n`.
proof fn lemma_parse_digits(t: Seq<char>, i: int, n: int, acc: int)
    requires
        0 <= n,
        0 <= acc,
        has_at(t, i, digits_of(n)),
        acc * pow10(digits_of(n).len() as int) + n <= usize::MAX as int,
    ensures
        parse_nat(t, i, acc) == parse_nat(
            t,
            i + digits_of(n).len(),
            acc * pow10(digits_of(n).len() as int) + n,
        ),
    decreases n,
{
    vstd::arithmetic::div_mod::lemma_fundamental_div_mod(n, 10);
    if n < 10 {
        assert(pow10(0) == 1);
        assert(pow10(1) == 10);
        assert(digit_val(hex_digit(n)) == n);
        assert(t[i] == digits_of(n)[0]);
        assert(parse_nat(t, i, acc) == parse_nat(t, i + 1, acc * 10 + n));
    } else {
        let d = digits_of(n / 10);
        let la = d.len() as int;
        let q = n / 10;
        let r = n % 10;
        lemma_pow10_pos(la);
        lemma_digits_are_digits(n / 10);
        assert(digits_of(n) == d + seq![hex_digit(r)]);
        assert(digits_of(n).len() == la + 1);
        assert(pow10(la + 1) == 10 * pow10(la));
        assert(has_at(t, i, d)) by {
            assert forall|k: int| 0 <= k < d.len() implies t[i + k] == d[k] by {
                assert(t[i + k] == digits_of(n)[k]);
                assert(digits_of(n)[k] == d[k]);
            }
        }
        assert(q >= 1);
        let a2 = acc * pow10(la) + q;
        assert(a2 * 10 + r == acc * pow10(la + 1) + n) by (nonlinear_arith)
            requires
                pow10(la + 1) == 10 * pow10(la),
                n == 10 * q + r,
                a2 == acc * pow10(la) + q,
        ;
        assert(a2 >= 0 && a2 * 10 + r <= usize::MAX as int && a2 <= usize::MAX as int)
            by (nonlinear_arith)
            requires
                acc >= 0,
                q >= 1,
                r >= 0,
                pow10(la) >= 1,
                a2 == acc * pow10(la) + q,
                a2 * 10 + r == acc * pow10(la + 1) + n,
                acc * pow10(la + 1) + n <= usize::MAX as int,
        ;
        lemma_parse_digits(t, i, q, acc);
        assert(parse_nat(t, i, acc) == parse_nat(t, i + la, a2));
        assert(t[i + la] == digits_of(n)[la]);
        assert(digits_of(n)[la] == hex_digit(r));
        assert(digit_val(hex_digit(r)) == r);
        assert(i + la < t.len());
        assert(parse_nat(t, i + la, a2) == parse_nat(t, i + la + 1, a2 * 10 + r));
    }
}

/// The digits of `n`, followed by anything but a digit, read back as
/// exactly `n`.
proof fn lemma_parse_number_digits(t: Seq<char>, i: int, n: int)
    requires
        0 <= n <= usize::MAX as int,
        has_at(t, i, digits_of(n)),
        i + digits_of(n).len() == t.len() || !is_digit(t[i + digits_of(n).len()]),
    ensures
        parse_number(t, i) == Some((n, i + digits_of(n).len())),
{
    lemma_digits_are_digits(n);
    lemma_pow10_pos(digits_of(n).len() as int);
    assert(t[i] == digits_of(n)[0]);
    assert(0 * pow10(digits_of(n).len() as int) + n <= usize::MAX as int);
    lemma_parse_digits(t, i, n, 0);
    let j = i + digits_of(n).len();
    assert(parse_nat(t, j, n) == Some((n, j)));
}

/// A code point below 0x80, taken down to a byte and back up to a
/// character, gives back the character it came from.
proof fn lemma_ascii_char_round(c: char, v: int)
    requires
        0 <= v < 0x80,
        c as u32 == v,
    ensures
        ((v as u8) as char) == c,
{
}

/// The escaped body of `s`, followed by a closing quote, reads back as
/// the accumulated text extended by `s`.
proof fn lemma_parse_body_encoded(t: Seq<char>, i: int, s: Seq<char>, acc: Seq<char>)
    requires
        has_at(t, i, encode_string_body(s)),
        i + encode_string_body(s).len() < t.len(),
        t[i + encode_string_body(s).len()] == '"',
    ensures
        parse_string_body(t, i, acc) == Some(
            (acc + s, i + encode_string_body(s).len() + 1),
        ),
    decreases s.len(),
{
    let body = encode_string_body(s);
    let j = i + body.len();
    if s.len() == 0 {
        assert(acc + s =~= acc);
        assert(parse_string_body(t, i, acc) == Some((acc, i + 1)));
    } else {
        let c = s[0];
        let e = escape_char(c);
        let rest = encode_string_body(s.drop_first());
        assert(body == e + rest);
        assert(has_at(t, i + e.len(), rest)) by {
            assert forall|k: int| 0 <= k < rest.len() implies t[i + e.len() + k] == rest[k] by {
                assert(t[i + (e.len() + k)] == body[e.len() + k]);
                assert(body[e.len() + k] == rest[k]);
            }
        }
        assert forall|k: int| 0 <= k < e.len() implies t[i + k] == e[k] by {
            assert(t[i + k] == body[k]);
            assert(body[k] == e[k]);
        }
        if c == '"' {
            assert(t[i] == '\\' && t[i + 1] == '"');
            lemma_parse_body_encoded(t, i + 2, s.drop_first(), acc.push(c));
            assert(acc.push(c) + s.drop_first() =~= acc + s);
        } else if c == '\\' {
            assert(t[i] == '\\' && t[i + 1] == '\\');
            lemma_parse_body_encoded(t, i + 2, s.drop_first(), acc.push(c));
            assert(acc.push(c) + s.drop_first() =~= acc + s);
        } else if (c as u32) < 0x20 {
            let hv = (c as u32) as int;
            assert(t[i] == '\\' && t[i + 1] == 'u' && t[i + 2] == '0' && t[i + 3] == '0');
            assert(t[i + 4] == hex_digit(hv / 16));
            assert(t[i + 5] == hex_digit(hv % 16));
            vstd::arithmetic::div_mod::lemma_fundamental_div_mod(hv, 16);
            assert(0 <= hv / 16 < 2);
            assert(0 <= hv % 16 < 16);
            assert(hex_val(hex_digit(hv / 16)) == hv / 16);
            assert(hex_val(hex_digit(hv % 16)) == hv % 16);
            assert(hex_val('0') == 0);
            let v = ((hex_val(t[i + 2]) * 16 + hex_val(t[i + 3])) * 16 + hex_val(t[i + 4])) * 16
                + hex_val(t[i + 5]);
            assert(v == hv);
            lemma_ascii_char_round(c, v);
            lemma_parse_body_encoded(t, i + 6, s.drop_first(), acc.push(c));
            assert(acc.push(c) + s.drop_first() =~= acc + s);
        } else {
            assert(t[i + 0] == e[0]);
            assert(t[i] == c);
            assert(t[i] != '"' && t[i] != '\\' && !((t[i] as u32) < 0x20));
            lemma_parse_body_encoded(t, i + 1, s.drop_first(), acc.push(c));
            assert(acc.push(c) + s.drop_first() =~= acc + s);
        }
    }
}

/// An encoded string reads back as exactly its text.
proof fn lemma_parse_string_encoded(t: Seq<char>, i: int, s: Seq<char>)
    requires
        has_at(t, i, encode_string(s)),
    ensures
        parse_string(t, i) == Some((s, i + encode_string(s).len())),
{
    let body = encode_string_body(s);
    assert(t[i] == encode_string(s)[0]);
    assert(encode_string(s)[0] == '"');
    assert(has_at(t, i + 1, body)) by {
        assert forall|k: int| 0 <= k < body.len() implies t[i + 1 + k] == body[k] by {
            assert(t[i + (1 + k)] == encode_string(s)[1 + k]);
            assert(encode_string(s)[1 + k] == body[k]);
        }
    }
    assert(t[i + 1 + body.len()] == encode_string(s)[1 + body.len() as int]);
    assert(encode_string(s)[1 + body.len() as int] == '"');
    lemma_parse_body_encoded(t, i + 1, s, Seq::empty());
    assert(Seq::empty() + s =~= s);
    assert(parse_string(t, i) == Some((s, i + encode_string(s).len())));
}

/// A pattern made of two parts stands in `t` exactly where its parts do.
proof fn lemma_has_at_concat(t: Seq<char>, i: int, a: Seq<char>, b: Seq<char>)
    requires
        has_at(t, i, a + b),
    ensures
        has_at(t, i, a),
        has_at(t, i + a.len(), b),
{
    assert forall|k: int| 0 <= k < a.len() implies t[i + k] == a[k] by {
        assert(t[i + k] == (a + b)[k]);
    }
    assert forall|k: int| 0 <= k < b.len() implies t[i + a.len() + k] == b[k] by {
        assert(t[i + (a.len() + k)] == (a + b)[a.len() + k]);
    }
}

/// An encoded note object reads back as exactly that note.
#[verifier::rlimit(80)]
proof fn lemma_parse_note_encoded(t: Seq<char>, i: int, n: crate::model::NoteModel)
    requires
        has_at(t, i, encode_note(n)),
        0 <= n.id <= usize::MAX as int,
    ensures
        parse_note(t, i) == Some((n, i + encode_note(n).len())),
{
    let a0 = seq!['{', '"', 'i', 'd', '"', ':'];
    let dg = digits_of(n.id);
    let a1 = seq![',', '"', 't', 'i', 't', 'l', 'e', '"', ':'];
    let ts = encode_string(n.title);
    let a2 = seq![',', '"', 'c', 'o', 'n', 't', 'e', 'n', 't', '"', ':'];
    let cs = encode_string(n.content);
    let br = seq!['}'];
    let enc = encode_note(n);
    assert(enc == a0 + dg + a1 + ts + a2 + cs + br);
    lemma_has_at_concat(t, i, a0 + dg + a1 + ts + a2 + cs, br);
    lemma_has_at_concat(t, i, a0 + dg + a1 + ts + a2, cs);
    lemma_has_at_concat(t, i, a0 + dg + a1 + ts, a2);
    lemma_has_at_concat(t, i, a0 + dg + a1, ts);
    lemma_has_at_concat(t, i, a0 + dg, a1);
    lemma_has_at_concat(t, i, a0, dg);
    let p1 = i + 6;
    let p2 = p1 + dg.len() as int;
    let p3 = p2 + 9;
    let p4 = p3 + ts.len() as int;
    let p5 = p4 + 11;
    let p6 = p5 + cs.len() as int;
    lemma_digits_are_digits(n.id);
    // "{"
    assert(t[i] == '{');
    assert(skip_ws(t, i + 1) == i + 1);
    // the id key and its colon
    assert(has_at(t, i + 1, key_id())) by {
        assert forall|k: int| 0 <= k < 4 implies t[i + 1 + k] == key_id()[k] by {
            assert(t[i + (1 + k)] == a0[1 + k]);
        }
    }
    assert(t[i + 5] == a0[5]);
    assert(skip_ws(t, i + 5) == i + 5);
    assert(expect_char(t, i + 5, ':') == Some(p1));
    // the id digits, ended by the comma after them
    assert(t[p1 + dg.len()] == a1[0]);
    assert(skip_ws(t, p1) == p1) by {
        assert(t[p1 + 0] == dg[0]);
        assert(is_digit(dg[0]));
    }
    lemma_parse_number_digits(t, p1, n.id);
    assert(parse_number(t, p1) == Some((n.id, p2)));
    assert(skip_ws(t, p2) == p2);
    assert(expect_char(t, p2, ',') == Some(p2 + 1));
    // the title key and its colon
    assert(has_at(t, p2 + 1, key_title())) by {
        assert forall|k: int| 0 <= k < 7 implies t[p2 + 1 + k] == key_title()[k] by {
            assert(t[p2 + (1 + k)] == a1[1 + k]);
        }
    }
    assert(t[p2 + 8] == a1[8]);
    assert(skip_ws(t, p2 + 8) == p2 + 8);
    assert(expect_char(t, p2 + 8, ':') == Some(p3));
    // the title text
    assert(t[p3 + 0] == ts[0]);
    assert(ts[0] == '"');
    assert(skip_ws(t, p3) == p3);
    lemma_parse_string_encoded(t, p3, n.title);
    assert(parse_string(t, p3) == Some((n.title, p4)));
    assert(t[p4 + 0] == a2[0]);
    assert(skip_ws(t, p4) == p4);
    assert(expect_char(t, p4, ',') == Some(p4 + 1));
    // the content key and its colon
    assert(has_at(t, p4 + 1, key_content())) by {
        assert forall|k: int| 0 <= k < 9 implies t[p4 + 1 + k] == key_content()[k] by {
            assert(t[p4 + (1 + k)] == a2[1 + k]);
        }
    }
    assert(t[p4 + 10] == a2[10]);
    assert(skip_ws(t, p4 + 10) == p4 + 10);
    assert(expect_char(t, p4 + 10, ':') == Some(p5));
    // the content text
    assert(t[p5 + 0] == cs[0]);
    assert(cs[0] == '"');
    assert(skip_ws(t, p5) == p5);
    lemma_parse_string_encoded(t, p5, n.content);
    assert(parse_string(t, p5) == Some((n.content, p6)));
    // the closing brace
    assert(t[p6 + 0] == br[0]);
    assert(skip_ws(t, p6) == p6);
    assert(expect_char(t, p6, '}') == Some(p6 + 1));
    assert(p6 + 1 == i + enc.len());
    let m = crate::model::NoteModel { id: n.id, title: n.title, content: n.content };
    assert(m =~= n);
}

/// The encoded items of a nonempty note sequence, followed by the
/// closing bracket, read back as the accumulated notes extended by that
/// sequence.
proof fn lemma_parse_items_encoded(
    t: Seq<char>,
    i: int,
    s: Seq<crate::model::NoteModel>,
    acc: Seq<crate::model::NoteModel>,
)
    requires
        s.len() > 0,
        forall|k: int| 0 <= k < s.len() ==> 0 <= (#[trigger] s[k]).id <= usize::MAX as int,
        has_at(t, i, encode_items(s)),
        i + encode_items(s).len() < t.len(),
        t[i + encode_items(s).len()] == ']',
    ensures
        parse_items(t, i, acc) == Some((acc + s, i + encode_items(s).len() + 1)),
    decreases s.len(),
{
    let items = encode_items(s);
    let j = i + items.len();
    let n0 = encode_note(s[0]);
    if s.len() == 1 {
        assert(items == n0);
        lemma_parse_note_encoded(t, i, s[0]);
        assert(t[j] == ']');
        assert(!is_ws(']'));
        assert(skip_ws(t, j) == j);
        assert(parse_items(t, i, acc) == Some((acc.push(s[0]), j + 1)));
        assert(acc.push(s[0]) =~= acc + s);
    } else {
        let rest = encode_items(s.drop_first());
        assert(items == n0 + seq![','] + rest);
        lemma_has_at_concat(t, i, n0 + seq![','], rest);
        lemma_has_at_concat(t, i, n0, seq![',']);
        lemma_parse_note_encoded(t, i, s[0]);
        let k = i + n0.len() as int;
        assert(seq![','][0] == ',');
        assert(t[k + 0] == seq![','][0]);
        assert(t[k + 0] == ',');
        assert(skip_ws(t, k) == k);
        let m = k + 1;
        assert(rest.len() > 0) by {
            assert(s.drop_first().len() > 0);
        }
        assert(t[m + 0] == rest[0]);
        assert(rest[0] == encode_note(s.drop_first()[0])[0]);
        assert(encode_note(s.drop_first()[0])[0] == '{');
        assert(skip_ws(t, m) == m);
        assert(forall|k2: int|
            0 <= k2 < s.drop_first().len() ==> 0 <= (#[trigger] s.drop_first()[k2]).id
                <= usize::MAX as int);
        assert(m + rest.len() == j);
        lemma_parse_items_encoded(t, m, s.drop_first(), acc.push(s[0]));
        assert(parse_items(t, i, acc) == parse_items(t, m, acc.push(s[0])));
        assert(acc.push(s[0]) + s.drop_first() =~= acc + s);
    }
}

/// Law: decoding what was encoded gives back exactly the notes that
/// were encoded. This holds for every store this system can produce,
/// whose ids all fit the allocator.
#[verifier::rlimit(80)]
pub proof fn lemma_save_load_round_trip(s: Seq<crate::model::NoteModel>)
    requires
        forall|k: int| 0 <= k < s.len() ==> 0 <= (#[trigger] s[k]).id <= usize::MAX as int,
    ensures
        spec_decode(encode_notes(s)) == Some(s),
{
    let t = encode_notes(s);
    let items = encode_items(s);
    assert(t == seq!['['] + items + seq![']']);
    assert(has_at(t, 0, t));
    assert(seq!['['] + items + seq![']'] == (seq!['['] + items) + seq![']']);
    lemma_has_at_concat(t, 0, seq!['['] + items, seq![']']);
    lemma_has_at_concat(t, 0, seq!['['], items);
    assert(t[0] == '[');
    assert(skip_ws(t, 0) == 0);
    if s.len() == 0 {
        assert(items.len() == 0);
        assert(t.len() == 2);
        assert(t[1] == ']');
        assert(skip_ws(t, 1) == 1);
        assert(skip_ws(t, 2) == 2);
        assert(spec_decode(t) == Some(Seq::<crate::model::NoteModel>::empty()));
        assert(Seq::<crate::model::NoteModel>::empty() =~= s);
    } else {
        assert(items.len() > 0);
        assert(t[1 as int + 0] == items[0]);
        assert(items[0] == encode_note(s[0])[0]);
        assert(encode_note(s[0])[0] == '{');
        assert(skip_ws(t, 1) == 1);
        assert(t[(1 + items.len()) as int] == ']');
        lemma_parse_items_encoded(t, 1, s, Seq::empty());
        assert(parse_items(t, 1, Seq::empty()) == Some(
            (Seq::empty() + s, 1 + items.len() as int + 1),
        ));
        assert(Seq::empty() + s =~= s);
        assert(1 + items.len() + 1 == t.len());
        assert(skip_ws(t, t.len() as int) == t.len());
    }
}

/// Whether the character is JSON whitespace.
fn is_ws_char(c: char) -> (r: bool)
    ensures
        r == is_ws(c),
{
    c == ' ' || c == '\t' || c == '\n' || c == '\r'
}

/// The value of a decimal digit character.
fn digit_value(c: char) -> (r: Option<usize>)
    ensures
        match r {
            Some(d) => digit_val(c) == d as int && d < 10,
            None => digit_val(c) == -1,
        },
{
    if c == '0' {
        Some(0)
    } else if c == '1' {
        Some(1)
    } else if c == '2' {
        Some(2)
    } else if c == '3' {
        Some(3)
    } else if c == '4' {
        Some(4)
    } else if c == '5' {
        Some(5)
    } else if c == '6' {
        Some(6)
    } else if c == '7' {
        Some(7)
    } else if c == '8' {
        Some(8)
    } else if c == '9' {
        Some(9)
    } else {
        None
    }
}

/// The value of a hexadecimal digit character.
fn hex_value(c: char) -> (r: Option<usize>)
    ensures
        match r {
            Some(d) => hex_val(c) == d as int && d < 16,
            None => hex_val(c) == -1,
        },
{
    let first = digit_value(c);
    if let Some(d) = first {
        Some(d)
    } else if c == 'a' || c == 'A' {
        Some(10)
    } else if c == 'b' || c == 'B' {
        Some(11)
    } else if c == 'c' || c == 'C' {
        Some(12)
    } else if c == 'd' || c == 'D' {
        Some(13)
    } else if c == 'e' || c == 'E' {
        Some(14)
    } else if c == 'f' || c == 'F' {
        Some(15)
    } else {
        None
    }
}

/// Skips whitespace.
fn skip_ws_exec(t: &Vec<char>, i: usize) -> (r: usize)
    requires
        i <= t@.len(),
    ensures
        r as int == skip_ws(t@, i as int),
        i <= r <= t@.len(),
{
    let mut j = i;
    while j < t.len() && is_ws_char(t[j])
        invariant
            i <= j <= t@.len(),
            skip_ws(t@, i as int) == skip_ws(t@, j as int),
        decreases t@.len() - j,
    {
        j = j + 1;
    }
    j
}

/// Reads a number fitting a `usize`.
fn parse_number_exec(t: &Vec<char>, i: usize) -> (r: Option<(usize, usize)>)
    requires
        i <= t@.len(),
    ensures
        match r {
            Some((v, j)) => parse_number(t@, i as int) == Some((v as int, j as int)) && i < j
                <= t@.len(),
            None => parse_number(t@, i as int) is None,
        },
{
    if i >= t.len() {
        return None;
    }
    if digit_value(t[i]).is_none() {
        return None;
    }
    let mut acc: usize = 0;
    let mut j = i;
    while j < t.len() && digit_value(t[j]).is_some()
        invariant
            i <= j <= t@.len(),
            parse_nat(t@, i as int, 0) == parse_nat(t@, j as int, acc as int),
            j > i || acc == 0,
            i < t@.len() && is_digit(t@[i as int]),
        decreases t@.len() - j,
    {
        let d = digit_value(t[j]).unwrap();
        if acc > usize::MAX / 10 {
            proof {
                assert(acc * 10 + digit_val(t@[j as int]) > usize::MAX as int) by (nonlinear_arith)
                    requires
                        acc as int > usize::MAX as int / 10,
                        digit_val(t@[j as int]) >= 0,
                ;
            }
            return None;
        }
        let acc10 = acc * 10;
        proof {
            assert(acc as int * 10 <= usize::MAX as int) by (nonlinear_arith)
                requires
                    acc as int <= usize::MAX as int / 10,
            ;
        }
        if d > usize::MAX - acc10 {
            return None;
        }
        acc = acc10 + d;
        j = j + 1;
    }
    Some((acc, j))
}

/// Reads a quoted string, resolving escapes.
fn parse_string_exec(t: &Vec<char>, i: usize) -> (r: Option<(String, usize)>)
    requires
        i <= t@.len(),
    ensures
        match r {
            Some((s, j)) => parse_string(t@, i as int) == Some((s@, j as int)) && i < j
                <= t@.len(),
            None => parse_string(t@, i as int) is None,
        },
{
    if i >= t.len() {
        return None;
    }
    if t[i] != '"' {
        return None;
    }
    let n = t.len();
    let mut acc: Vec<char> = Vec::new();
    let mut j = i + 1;
    proof {
        assert(acc@ =~= Seq::<char>::empty());
    }
    loop
        invariant
            i + 1 <= j <= n,
            n == t@.len(),
            i < t@.len() && t@[i as int] == '"',
            parse_string_body(t@, i + 1, Seq::empty()) == parse_string_body(t@, j as int, acc@),
        decreases t@.len() - j,
    {
        if j >= n {
            return None;
        }
        let c = t[j];
        if c == '"' {
            let s = chars_to_string(&acc);
            return Some((s, j + 1));
        } else if c == '\\' {
            if j + 1 >= n {
                return None;
            }
            let e = t[j + 1];
            if e == '"' {
                acc.push('"');
                j = j + 2;
            } else if e == '\\' {
                acc.push('\\');
                j = j + 2;
            } else if e == '/' {
                acc.push('/');
                j = j + 2;
            } else if e == 'n' {
                acc.push('\n');
                j = j + 2;
            } else if e == 't' {
                acc.push('\t');
                j = j + 2;
            } else if e == 'r' {
                acc.push('\r');
                j = j + 2;
            } else if e == 'b' {
                acc.push(8u8 as char);
                j = j + 2;
            } else if e == 'f' {
                acc.push(12u8 as char);
                j = j + 2;
            } else if e == 'u' {
                if n - j < 6 {
                    return None;
                }
                let h0 = match hex_value(t[j + 2]) {
                    Some(d) => d,
                    None => {
                        return None;
                    },
                };
                let h1 = match hex_value(t[j + 3]) {
                    Some(d) => d,
                    None => {
                        return None;
                    },
                };
                let h2 = match hex_value(t[j + 4]) {
                    Some(d) => d,
                    None => {
                        return None;
                    },
                };
                let h3 = match hex_value(t[j + 5]) {
                    Some(d) => d,
                    None => {
                        return None;
                    },
                };
                let v = ((h0 * 16 + h1) * 16 + h2) * 16 + h3;
                if v >= 0x80 {
                    return None;
                }
                acc.push((v as u8) as char);
                j = j + 6;
            } else {
                return None;
            }
        } else if (c as u32) < 0x20 {
            return None;
        } else {
            acc.push(c);
            j = j + 1;
        }
    }
}

/// Whether the pattern stands at `i`.
fn match_at(t: &Vec<char>, i: usize, pat: &Vec<char>) -> (r: bool)
    requires
        i <= t@.len(),
    ensures
        r == has_at(t@, i as int, pat@),
{
    let n = t.len();
    if n - i < pat.len() {
        return false;
    }
    let mut k: usize = 0;
    while k < pat.len()
        invariant
            k <= pat@.len(),
            n == t@.len(),
            i + pat@.len() <= t@.len(),
            forall|m: int| 0 <= m < k ==> t@[i + m] == pat@[m],
        decreases pat@.len() - k,
    {
        if t[i + k] != pat[k] {
            return false;
        }
        k = k + 1;
    }
    true
}

/// The characters of the `id` key.
fn key_id_exec() -> (r: Vec<char>)
    ensures
        r@ == key_id(),
{
    let mut v: Vec<char> = Vec::new();
    v.push('"');
    v.push('i');
    v.push('d');
    v.push('"');
    proof {
        assert(v@ =~= key_id());
    }
    v
}

/// The characters of the `title` key.
fn key_title_exec() -> (r: Vec<char>)
    ensures
        r@ == key_title(),
{
    let mut v: Vec<char> = Vec::new();
    v.push('"');
    v.push('t');
    v.push('i');
    v.push('t');
    v.push('l');
    v.push('e');
    v.push('"');
    proof {
        assert(v@ =~= key_title());
    }
    v
}

/// The characters of the `content` key.
fn key_content_exec() -> (r: Vec<char>)
    ensures
        r@ == key_content(),
{
    let mut v: Vec<char> = Vec::new();
    v.push('"');
    v.push('c');
    v.push('o');
    v.push('n');
    v.push('t');
    v.push('e');
    v.push('n');
    v.push('t');
    v.push('"');
    proof {
        assert(v@ =~= key_content());
    }
    v
}

/// Consumes one fixed character.
fn expect_char_exec(t: &Vec<char>, i: usize, c: char) -> (r: Option<usize>)
    requires
        i <= t@.len(),
    ensures
        match r {
            Some(j) => expect_char(t@, i as int, c) == Some(j as int) && j == i + 1 && j
                <= t@.len(),
            None => expect_char(t@, i as int, c) is None,
        },
{
    if i < t.len() {
        if t[i] == c {
            return Some(i + 1);
        }
    }
    None
}

/// Reads one note object.
fn parse_note_exec(t: &Vec<char>, i: usize) -> (r: Option<(crate::store::Note, usize)>)
    requires
        i <= t@.len(),
    ensures
        match r {
            Some((note, j)) => parse_note(t@, i as int) == Some((note.deep_view(), j as int)) && i
                < j <= t@.len(),
            None => parse_note(t@, i as int) is None,
        },
{
    let n = t.len();
    let j0 = match expect_char_exec(t, i, '{') {
        Some(j) => j,
        None => {
            return None;
        },
    };
    let w1 = skip_ws_exec(t, j0);
    proof {
        assert(n == t@.len());
    }
    let kid = key_id_exec();
    if !match_at(t, w1, &kid) {
        return None;
    }
    let j1 = w1 + kid.len();
    let w2 = skip_ws_exec(t, j1);
    let j2 = match expect_char_exec(t, w2, ':') {
        Some(j) => j,
        None => {
            return None;
        },
    };
    let w3 = skip_ws_exec(t, j2);
    let (idv, j3) = match parse_number_exec(t, w3) {
        Some(x) => x,
        None => {
            return None;
        },
    };
    let w4 = skip_ws_exec(t, j3);
    let j4 = match expect_char_exec(t, w4, ',') {
        Some(j) => j,
        None => {
            return None;
        },
    };
    let w5 = skip_ws_exec(t, j4);
    let ktitle = key_title_exec();
    if !match_at(t, w5, &ktitle) {
        return None;
    }
    let j5 = w5 + ktitle.len();
    let w6 = skip_ws_exec(t, j5);
    let j6 = match expect_char_exec(t, w6, ':') {
        Some(j) => j,
        None => {
            return None;
        },
    };
    let w7 = skip_ws_exec(t, j6);
    let (title, j7) = match parse_string_exec(t, w7) {
        Some(x) => x,
        None => {
            return None;
        },
    };
    let w8 = skip_ws_exec(t, j7);
    let j8 = match expect_char_exec(t, w8, ',') {
        Some(j) => j,
        None => {
            return None;
        },
    };
    let w9 = skip_ws_exec(t, j8);
    let kcontent = key_content_exec();
    if !match_at(t, w9, &kcontent) {
        return None;
    }
    let j9 = w9 + kcontent.len();
    let w10 = skip_ws_exec(t, j9);
    let j10 = match expect_char_exec(t, w10, ':') {
        Some(j) => j,
        None => {
            return None;
        },
    };
    let w11 = skip_ws_exec(t, j10);
    let (content, j11) = match parse_string_exec(t, w11) {
        Some(x) => x,
        None => {
            return None;
        },
    };
    let w12 = skip_ws_exec(t, j11);
    let j12 = match expect_char_exec(t, w12, '}') {
        Some(j) => j,
        None => {
            return None;
        },
    };
    let note = crate::store::Note { id: idv, title: title, content: content };
    Some((note, j12))
}

/// Decodes the persisted text into notes; `None` means the text is not
/// an encoding this format knows.
pub fn decode_notes(text: &str) -> (r: Option<Vec<crate::store::Note>>)
    ensures
        match r {
            Some(v) => spec_decode(text@) == Some(v.deep_view()),
            None => spec_decode(text@) is None,
        },
{
    let t = string_to_chars(text);
    let i = skip_ws_exec(&t, 0);
    if i >= t.len() {
        return None;
    }
    if t[i] != '[' {
        return None;
    }
    let j = skip_ws_exec(&t, i + 1);
    if j < t.len() {
        if t[j] == ']' {
            let e = skip_ws_exec(&t, j + 1);
            if e == t.len() {
                let out: Vec<crate::store::Note> = Vec::new();
                proof {
                    assert(out.deep_view() =~= Seq::<crate::model::NoteModel>::empty());
                }
                return Some(out);
            }
            return None;
        }
    }
    let mut acc: Vec<crate::store::Note> = Vec::new();
    let mut pos = j;
    proof {
        assert(acc.deep_view() =~= Seq::<crate::model::NoteModel>::empty());
    }
    loop
        invariant
            pos <= t@.len(),
            t@ == text@,
            skip_ws(t@, 0) == i as int,
            i < t@.len() && t@[i as int] == '[',
            skip_ws(t@, i + 1) == j as int,
            !(j < t@.len() && t@[j as int] == ']'),
            parse_items(t@, j as int, Seq::empty()) == parse_items(
                t@,
                pos as int,
                acc.deep_view(),
            ),
        decreases t@.len() - pos,
    {
        let ghost acc_before = acc.deep_view();
        let (note, jn) = match parse_note_exec(&t, pos) {
            Some(x) => x,
            None => {
                return None;
            },
        };
        let k = skip_ws_exec(&t, jn);
        if k < t.len() {
            if t[k] == ',' {
                let m = skip_ws_exec(&t, k + 1);
                acc.push(note);
                proof {
                    assert(acc.deep_view() =~= acc_before.push(note.deep_view()));
                }
                pos = m;
                continue ;
            }
            if t[k] == ']' {
                acc.push(note);
                proof {
                    assert(acc.deep_view() =~= acc_before.push(note.deep_view()));
                }
                let e = skip_ws_exec(&t, k + 1);
                if e == t.len() {
                    return Some(acc);
                }
                return None;
            }
        }
        return None;
    }
}

/// Encodes the notes as the persisted JSON text.
pub fn encode_notes_exec(notes: &Vec<crate::store::Note>) -> (r: String)
    ensures
        r@ == encode_notes(notes.deep_view()),
{
    let ghost dv = notes.deep_view();
    let mut out: Vec<char> = Vec::new();
    out.push('[');
    let n = notes.len();
    let mut i: usize = 0;
    proof {
        assert(out@ =~= seq!['['] + encode_items(dv.take(0)));
    }
    while i < n
        invariant
            i <= n,
            n == notes.len(),
            dv == notes.deep_view(),
            out@ == seq!['['] + encode_items(dv.take(i as int)),
        decreases n - i,
    {
        if i > 0 {
            out.push(',');
        }
        push_note(&notes[i], &mut out);
        proof {
            assert(dv.take(i + 1) =~= dv.take(i as int).push(dv[i as int]));
            lemma_items_snoc(dv.take(i as int), dv[i as int]);
            assert(out@ =~= seq!['['] + encode_items(dv.take(i + 1)));
        }
        i = i + 1;
    }
    out.push(']');
    proof {
        assert(dv.take(n as int) =~= dv);
        assert(out@ =~= encode_notes(dv));
    }
    let r = chars_to_string(&out);
    r
}


} // verus!
