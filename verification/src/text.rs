//! The textual form of a column value: the canonical text the store hands
//! out when a column is read as raw text, and the parser that recovers the
//! tree from it.
//!
//! The format is compact tree-notation text: `null`, `true`, `false`,
//! decimal integers, quoted text with `\"`, `\\` and `\u00XX` escapes for
//! the two special characters and the control characters, `[v,v,...]`
//! arrays and `{"k":v,...}` objects, with no blank space. Rendering is
//! total and parsing recovers exactly what was rendered; text that no tree
//! renders to is rejected.

use vstd::prelude::*;

use crate::errors::CodecError;

use crate::tree::{StoredValue, TreeVal, lemma_views_of_index, lemma_views_of_len,
    lemma_entry_views_of_index, lemma_entry_views_of_len, lemma_stored_in_range, entry_views_of,
    tree_in_range, views_of};
use vstd::string::StrSliceExecFns;

verus! {

/// The sixteen digit characters, low to high.
pub open spec fn hex_digit(v: int) -> char {
    if v == 0 {
        '0'
    } else if v == 1 {
        '1'
    } else if v == 2 {
        '2'
    } else if v == 3 {
        '3'
    } else if v == 4 {
        '4'
    } else if v == 5 {
        '5'
    } else if v == 6 {
        '6'
    } else if v == 7 {
        '7'
    } else if v == 8 {
        '8'
    } else if v == 9 {
        '9'
    } else if v == 10 {
        'a'
    } else if v == 11 {
        'b'
    } else if v == 12 {
        'c'
    } else if v == 13 {
        'd'
    } else if v == 14 {
        'e'
    } else {
        'f'
    }
}

/// How one character appears inside quoted text.
pub open spec fn escape_char(c: char) -> Seq<char> {
    if c == '"' {
        seq!['\\', '"']
    } else if c == '\\' {
        seq!['\\', '\\']
    } else if (c as u32) < 0x20 {
        seq!['\\', 'u', '0', '0', hex_digit(c as u32 as int / 16), hex_digit(c as u32 as int % 16)]
    } else {
        seq![c]
    }
}

/// Quoted-text body: each character escaped in order.
pub open spec fn escape_text(s: Seq<char>) -> Seq<char>
    decreases s,
{
    if s.len() == 0 {
        Seq::<char>::empty()
    } else {
        escape_char(s.first()) + escape_text(s.drop_first())
    }
}

/// The decimal digits of a non-negative integer, most significant first.
pub open spec fn dec_digits(n: nat) -> Seq<char>
    decreases n,
{
    if n < 10 {
        seq![hex_digit(n as int)]
    } else {
        dec_digits(n / 10).push(hex_digit(n as int % 10))
    }
}

/// The decimal text of an integer.
pub open spec fn render_int(n: int) -> Seq<char> {
    if n < 0 {
        seq!['-'] + dec_digits((-n) as nat)
    } else {
        dec_digits(n as nat)
    }
}

/// The canonical text of a tree.
pub open spec fn render_tree(t: TreeVal) -> Seq<char>
    decreases t, 1int,
{
    match t {
        TreeVal::Null => seq!['n', 'u', 'l', 'l'],
        TreeVal::Bool(b) => if b {
            seq!['t', 'r', 'u', 'e']
        } else {
            seq!['f', 'a', 'l', 's', 'e']
        },
        TreeVal::Int(n) => render_int(n as int),
        TreeVal::Text(s) => seq!['"'] + escape_text(s) + seq!['"'],
        TreeVal::Arr(xs) => seq!['['] + render_items(xs) + seq![']'],
        TreeVal::Obj(fs) => seq!['{'] + render_entries(fs) + seq!['}'],
    }
}

/// The comma-separated texts of array items.
pub open spec fn render_items(xs: Seq<TreeVal>) -> Seq<char>
    decreases xs, 0int,
{
    if xs.len() == 0 {
        Seq::<char>::empty()
    } else if xs.len() == 1 {
        render_tree(xs.first())
    } else {
        render_tree(xs.first()) + seq![','] + render_items(xs.drop_first())
    }
}

/// The comma-separated texts of object entries, each a quoted key, a colon
/// and the value.
pub open spec fn render_entries(fs: Seq<(Seq<char>, TreeVal)>) -> Seq<char>
    decreases fs, 0int,
{
    if fs.len() == 0 {
        Seq::<char>::empty()
    } else {
        let head = seq!['"'] + escape_text(fs.first().0) + seq!['"', ':'] + render_tree(
            fs.first().1,
        );
        if fs.len() == 1 {
            head
        } else {
            head + seq![','] + render_entries(fs.drop_first())
        }
    }
}

/// Escaping one more character at the end extends the escaped text.
proof fn lemma_escape_text_push(s: Seq<char>, c: char)
    ensures
        escape_text(s.push(c)) == escape_text(s) + escape_char(c),
    decreases s,
{
    if s.len() == 0 {
        assert(s.push(c).first() == c);
        assert(s.push(c).drop_first() =~= Seq::<char>::empty());
        assert(escape_text(s.push(c)) == escape_char(c) + escape_text(Seq::<char>::empty()));
        assert(escape_char(c) + Seq::<char>::empty() =~= escape_char(c));
        assert(escape_text(s) + escape_char(c) =~= escape_char(c));
    } else {
        assert(s.push(c).drop_first() =~= s.drop_first().push(c));
        lemma_escape_text_push(s.drop_first(), c);
        assert(escape_text(s.push(c)) == escape_char(s.first()) + (escape_text(s.drop_first())
            + escape_char(c)));
        assert(escape_char(s.first()) + (escape_text(s.drop_first()) + escape_char(c)) =~= (
        escape_char(s.first()) + escape_text(s.drop_first())) + escape_char(c));
    }
}

/// The digit character for a value below sixteen.
fn hex_digit_exec(v: u32) -> (c: char)
    requires
        v < 16,
    ensures
        c == hex_digit(v as int),
{
    if v == 0 {
        '0'
    } else if v == 1 {
        '1'
    } else if v == 2 {
        '2'
    } else if v == 3 {
        '3'
    } else if v == 4 {
        '4'
    } else if v == 5 {
        '5'
    } else if v == 6 {
        '6'
    } else if v == 7 {
        '7'
    } else if v == 8 {
        '8'
    } else if v == 9 {
        '9'
    } else if v == 10 {
        'a'
    } else if v == 11 {
        'b'
    } else if v == 12 {
        'c'
    } else if v == 13 {
        'd'
    } else if v == 14 {
        'e'
    } else {
        'f'
    }
}

/// Appends one character in its escaped form.
fn push_escaped_char(out: &mut Vec<char>, c: char)
    ensures
        final(out)@ == old(out)@ + escape_char(c),
{
    if c == '"' {
        out.push('\\');
        out.push('"');
    } else if c == '\\' {
        out.push('\\');
        out.push('\\');
    } else if (c as u32) < 0x20 {
        let v = c as u32;
        out.push('\\');
        out.push('u');
        out.push('0');
        out.push('0');
        out.push(hex_digit_exec(v / 16));
        out.push(hex_digit_exec(v % 16));
        proof {
            assert(final(out)@ =~= old(out)@ + escape_char(c));
        }
    } else {
        out.push(c);
        proof {
            assert(final(out)@ =~= old(out)@ + escape_char(c));
        }
    }
    proof {
        assert(final(out)@ =~= old(out)@ + escape_char(c));
    }
}

/// Appends quoted text: an opening quote, the escaped body, a closing quote.
fn push_quoted(out: &mut Vec<char>, s: &String)
    ensures
        final(out)@ == old(out)@ + seq!['"'] + escape_text(s@) + seq!['"'],
{
    out.push('"');
    let ghost base = out@;
    let text = s.as_str();
    let n = text.unicode_len();
    let mut i: usize = 0;
    proof {
        assert(escape_text(s@.take(0)) =~= Seq::<char>::empty());
        assert(out@ =~= base + escape_text(s@.take(0)));
    }
    while i < n
        invariant
            i <= n,
            n == s@.len(),
            text@ == s@,
            out@ == base + escape_text(s@.take(i as int)),
        decreases n - i,
    {
        let c = text.get_char(i);
        push_escaped_char(out, c);
        proof {
            assert(s@.take(i + 1) =~= s@.take(i as int).push(s@[i as int]));
            lemma_escape_text_push(s@.take(i as int), s@[i as int]);
            assert(out@ =~= base + escape_text(s@.take(i + 1)));
        }
        i = i + 1;
    }
    proof {
        assert(s@.take(n as int) =~= s@);
    }
    out.push('"');
    proof {
        assert(final(out)@ =~= old(out)@ + seq!['"'] + escape_text(s@) + seq!['"']);
    }
}

/// Appends the decimal digits of a non-negative value.
fn push_dec_digits(out: &mut Vec<char>, n: u64)
    ensures
        final(out)@ == old(out)@ + dec_digits(n as nat),
    decreases n,
{
    if n < 10 {
        out.push(hex_digit_exec(n as u32));
        proof {
            assert(final(out)@ =~= old(out)@ + dec_digits(n as nat));
        }
    } else {
        push_dec_digits(out, n / 10);
        out.push(hex_digit_exec((n % 10) as u32));
        proof {
            assert(final(out)@ =~= old(out)@ + dec_digits(n as nat));
        }
    }
}

/// Appends the decimal text of an integer.
fn push_int(out: &mut Vec<char>, n: i64)
    ensures
        final(out)@ == old(out)@ + render_int(n as int),
{
    if n < 0 {
        out.push('-');
        let m: u64 = if n == i64::MIN {
            9223372036854775808u64
        } else {
            (-n) as u64
        };
        proof {
            assert(m as nat == (-(n as int)) as nat);
        }
        push_dec_digits(out, m);
        proof {
            assert(final(out)@ =~= old(out)@ + render_int(n as int));
        }
    } else {
        push_dec_digits(out, n as u64);
    }
}

/// Appends the canonical text of a tree.
fn push_tree(out: &mut Vec<char>, v: &StoredValue)
    ensures
        final(out)@ == old(out)@ + render_tree(v@),
    decreases v, 1int,
{
    match v {
        StoredValue::Null => {
            out.push('n');
            out.push('u');
            out.push('l');
            out.push('l');
            proof {
                assert(final(out)@ =~= old(out)@ + render_tree(v@));
            }
        },
        StoredValue::Bool(b) => {
            if *b {
                out.push('t');
                out.push('r');
                out.push('u');
                out.push('e');
            } else {
                out.push('f');
                out.push('a');
                out.push('l');
                out.push('s');
                out.push('e');
            }
            proof {
                assert(final(out)@ =~= old(out)@ + render_tree(v@));
            }
        },
        StoredValue::Int(n) => {
            push_int(out, *n);
        },
        StoredValue::Text(s) => {
            push_quoted(out, s);
            proof {
                assert(final(out)@ =~= old(out)@ + render_tree(v@));
            }
        },
        StoredValue::Arr(xs) => {
            out.push('[');
            if xs.len() > 0 {
                push_items(out, xs, 0);
            }
            out.push(']');
            proof {
                lemma_views_of_len(xs@);
                if xs@.len() == 0 {
                    assert(render_items(views_of(xs@)) =~= Seq::<char>::empty());
                } else {
                    assert(views_of(xs@).skip(0) =~= views_of(xs@));
                }
                assert(final(out)@ =~= old(out)@ + render_tree(v@));
            }
        },
        StoredValue::Obj(fs) => {
            out.push('{');
            if fs.len() > 0 {
                push_entries(out, fs, 0);
            }
            out.push('}');
            proof {
                lemma_entry_views_of_len(fs@);
                if fs@.len() == 0 {
                    assert(render_entries(entry_views_of(fs@)) =~= Seq::<char>::empty());
                } else {
                    assert(entry_views_of(fs@).skip(0) =~= entry_views_of(fs@));
                }
                assert(final(out)@ =~= old(out)@ + render_tree(v@));
            }
        },
    }
}

/// Appends the texts of the items from position `k` on, comma-separated.
fn push_items(out: &mut Vec<char>, xs: &Vec<StoredValue>, k: usize)
    requires
        k < xs@.len(),
    ensures
        final(out)@ == old(out)@ + render_items(views_of(xs@).skip(k as int)),
    decreases xs, xs@.len() - k, 0int,
{
    proof {
        lemma_views_of_len(xs@);
        lemma_views_of_index(xs@, k as int);
        assert(views_of(xs@).skip(k as int).first() == xs@[k as int]@);
        assert(views_of(xs@).skip(k as int).drop_first() =~= views_of(xs@).skip(k + 1));
    }
    push_tree(out, &xs[k]);
    if k < xs.len() - 1 {
        out.push(',');
        push_items(out, xs, k + 1);
        proof {
            assert(final(out)@ =~= old(out)@ + render_items(views_of(xs@).skip(k as int)));
        }
    } else {
        proof {
            assert(views_of(xs@).skip(k as int).len() == 1);
            assert(final(out)@ =~= old(out)@ + render_items(views_of(xs@).skip(k as int)));
        }
    }
}

/// Appends the texts of the entries from position `k` on, comma-separated.
fn push_entries(out: &mut Vec<char>, fs: &Vec<(String, StoredValue)>, k: usize)
    requires
        k < fs@.len(),
    ensures
        final(out)@ == old(out)@ + render_entries(entry_views_of(fs@).skip(k as int)),
    decreases fs, fs@.len() - k, 0int,
{
    proof {
        lemma_entry_views_of_len(fs@);
        lemma_entry_views_of_index(fs@, k as int);
        assert(entry_views_of(fs@).skip(k as int).first() == (fs@[k as int].0@, fs@[k as int].1@));
        assert(entry_views_of(fs@).skip(k as int).drop_first() =~= entry_views_of(fs@).skip(k + 1));
    }
    push_quoted(out, &fs[k].0);
    out.push(':');
    push_tree(out, &fs[k].1);
    if k < fs.len() - 1 {
        out.push(',');
        push_entries(out, fs, k + 1);
        proof {
            assert(final(out)@ =~= old(out)@ + render_entries(entry_views_of(fs@).skip(k as int)));
        }
    } else {
        proof {
            assert(entry_views_of(fs@).skip(k as int).len() == 1);
            assert(final(out)@ =~= old(out)@ + render_entries(entry_views_of(fs@).skip(k as int)));
        }
    }
}

/// Whether a character is a decimal digit.
pub open spec fn is_digit(c: char) -> bool {
    '0' as u32 <= c as u32 && c as u32 <= '9' as u32
}

/// The value of a decimal digit character.
pub open spec fn digit_val(c: char) -> int {
    c as u32 - '0' as u32
}

/// Whether a character is a lower-case hexadecimal digit.
pub open spec fn is_hex_lower(c: char) -> bool {
    is_digit(c) || ('a' as u32 <= c as u32 && c as u32 <= 'f' as u32)
}

/// The value of a lower-case hexadecimal digit character.
pub open spec fn hex_val(c: char) -> int {
    if is_digit(c) {
        digit_val(c)
    } else {
        10 + (c as u32 - 'a' as u32)
    }
}

/// The end of the digit run starting at `i`.
pub open spec fn sp_digits_end(s: Seq<char>, i: int) -> int
    decreases s.len() - i,
{
    if 0 <= i < s.len() && is_digit(s[i]) {
        sp_digits_end(s, i + 1)
    } else {
        i
    }
}

/// The value of a run of digit characters, most significant first.
pub open spec fn digits_value(s: Seq<char>) -> int
    decreases s,
{
    if s.len() == 0 {
        0int
    } else {
        digits_value(s.drop_last()) * 10 + digit_val(s.last())
    }
}

/// Parses an integer at `i` (the caller has seen a sign or digit there):
/// the value of the digit run, failing on an empty run or a value outside
/// the store's integer column range.
pub open spec fn sp_int(s: Seq<char>, i: int) -> Option<(TreeVal, int)> {
    let neg = s[i] == '-';
    let j: int = if neg {
        i + 1
    } else {
        i
    };
    let e = sp_digits_end(s, j);
    if e == j {
        None
    } else {
        let m = digits_value(s.subrange(j, e));
        let v: int = if neg {
            -m
        } else {
            m
        };
        if i64::MIN <= v <= i64::MAX {
            Some((TreeVal::Int(v), e))
        } else {
            None
        }
    }
}

/// Parses a quoted-text body from `i` (just after the opening quote) up to
/// and including the closing quote: the unescaped characters and the index
/// after the quote. Unknown escapes and raw control characters are
/// rejected.
pub open spec fn sp_text_body(s: Seq<char>, i: int) -> Option<(Seq<char>, int)>
    decreases s.len() - i,
{
    if i < 0 || i >= s.len() {
        None
    } else if s[i] == '"' {
        Some((Seq::<char>::empty(), i + 1))
    } else if s[i] == '\\' {
        if s.len() - i >= 2 && (s[i + 1] == '"' || s[i + 1] == '\\') {
            match sp_text_body(s, i + 2) {
                Some((rest, e)) => Some((seq![s[i + 1]] + rest, e)),
                None => None,
            }
        } else if i + 6 <= s.len() && s[i + 1] == 'u' && s[i + 2] == '0' && s[i + 3] == '0'
            && is_hex_lower(s[i + 4]) && is_hex_lower(s[i + 5]) && hex_val(s[i + 4]) * 16 + hex_val(
            s[i + 5],
        ) < 0x20 {
            let v = hex_val(s[i + 4]) * 16 + hex_val(s[i + 5]);
            match sp_text_body(s, i + 6) {
                Some((rest, e)) => Some((seq![(v as u8) as char] + rest, e)),
                None => None,
            }
        } else {
            None
        }
    } else if (s[i] as u32) < 0x20 {
        None
    } else {
        match sp_text_body(s, i + 1) {
            Some((rest, e)) => Some((seq![s[i]] + rest, e)),
            None => None,
        }
    }
}

/// Parses one value at `i`: the tree and the index just after its text.
pub open spec fn sp_value(s: Seq<char>, i: int) -> Option<(TreeVal, int)>
    decreases s.len() - i, 0int,
{
    if i < 0 || i >= s.len() {
        None
    } else if s[i] == 'n' {
        if s.len() - i >= 4 && s[i + 1] == 'u' && s[i + 2] == 'l' && s[i + 3] == 'l' {
            Some((TreeVal::Null, i + 4))
        } else {
            None
        }
    } else if s[i] == 't' {
        if s.len() - i >= 4 && s[i + 1] == 'r' && s[i + 2] == 'u' && s[i + 3] == 'e' {
            Some((TreeVal::Bool(true), i + 4))
        } else {
            None
        }
    } else if s[i] == 'f' {
        if s.len() - i >= 5 && s[i + 1] == 'a' && s[i + 2] == 'l' && s[i + 3] == 's' && s[i + 4]
            == 'e' {
            Some((TreeVal::Bool(false), i + 5))
        } else {
            None
        }
    } else if s[i] == '"' {
        match sp_text_body(s, i + 1) {
            Some((cs, e)) => Some((TreeVal::Text(cs), e)),
            None => None,
        }
    } else if s[i] == '[' {
        if s.len() - i >= 2 && s[i + 1] == ']' {
            Some((TreeVal::Arr(Seq::<TreeVal>::empty()), i + 2))
        } else {
            match sp_items(s, i + 1) {
                Some((xs, e)) => Some((TreeVal::Arr(xs), e)),
                None => None,
            }
        }
    } else if s[i] == '{' {
        if s.len() - i >= 2 && s[i + 1] == '}' {
            Some((TreeVal::Obj(Seq::<(Seq<char>, TreeVal)>::empty()), i + 2))
        } else {
            match sp_entries(s, i + 1) {
                Some((fs, e)) => Some((TreeVal::Obj(fs), e)),
                None => None,
            }
        }
    } else if s[i] == '-' || is_digit(s[i]) {
        sp_int(s, i)
    } else {
        None
    }
}

/// Parses one or more comma-separated items at `i`, up to and including the
/// closing bracket.
pub open spec fn sp_items(s: Seq<char>, i: int) -> Option<(Seq<TreeVal>, int)>
    decreases s.len() - i, 1int,
{
    match sp_value(s, i) {
        Some((v, j)) => {
            if j <= i || j >= s.len() {
                None
            } else if s[j] == ',' {
                match sp_items(s, j + 1) {
                    Some((rest, e)) => Some((seq![v] + rest, e)),
                    None => None,
                }
            } else if s[j] == ']' {
                Some((seq![v], j + 1))
            } else {
                None
            }
        },
        None => None,
    }
}

/// Parses one or more comma-separated object entries at `i`, up to and
/// including the closing brace.
pub open spec fn sp_entries(s: Seq<char>, i: int) -> Option<(Seq<(Seq<char>, TreeVal)>, int)>
    decreases s.len() - i, 1int,
{
    if i < 0 || i >= s.len() || s[i] != '"' {
        None
    } else {
        match sp_text_body(s, i + 1) {
            Some((key, k)) => {
                if k <= i + 1 || k >= s.len() || s[k] != ':' {
                    None
                } else {
                    match sp_value(s, k + 1) {
                        Some((v, j)) => {
                            if j <= k + 1 || j >= s.len() {
                                None
                            } else if s[j] == ',' {
                                match sp_entries(s, j + 1) {
                                    Some((rest, e)) => Some((seq![(key, v)] + rest, e)),
                                    None => None,
                                }
                            } else if s[j] == '}' {
                                Some((seq![(key, v)], j + 1))
                            } else {
                                None
                            }
                        },
                        None => None,
                    }
                }
            },
            None => None,
        }
    }
}

/// The tree a whole text parses to: one value covering every character.
pub open spec fn spec_parse_text(s: Seq<char>) -> Option<TreeVal> {
    match sp_value(s, 0) {
        Some((v, e)) => if e == s.len() {
            Some(v)
        } else {
            None
        },
        None => None,
    }
}

/// Digit runs render as digit characters, at least one.
proof fn lemma_dec_digits_digits(n: nat)
    ensures
        dec_digits(n).len() >= 1,
        forall|k: int| 0 <= k < dec_digits(n).len() ==> is_digit(#[trigger] dec_digits(n)[k]),
    decreases n,
{
    if n >= 10 {
        lemma_dec_digits_digits(n / 10);
        assert(dec_digits(n) == dec_digits(n / 10).push(hex_digit(n as int % 10)));
        assert(is_digit(hex_digit(n as int % 10)));
    }
}

/// Reading the rendered digits of a value gives the value back.
proof fn lemma_digits_value_of_dec(n: nat)
    ensures
        digits_value(dec_digits(n)) == n,
    decreases n,
{
    if n < 10 {
        let d = seq![hex_digit(n as int)];
        assert(d.drop_last() =~= Seq::<char>::empty());
        assert(d.last() == hex_digit(n as int));
        assert(digits_value(d) == digits_value(Seq::<char>::empty()) * 10 + digit_val(
            hex_digit(n as int),
        ));
        assert(digit_val(hex_digit(n as int)) == n);
    } else {
        lemma_digits_value_of_dec(n / 10);
        assert(dec_digits(n).drop_last() =~= dec_digits(n / 10));
        assert(dec_digits(n).last() == hex_digit(n as int % 10));
        assert(digit_val(hex_digit(n as int % 10)) == n as int % 10);
        assert(digits_value(dec_digits(n)) == (n / 10) * 10 + n % 10);
    }
}

/// A digit run bounded by a non-digit (or the end) scans to exactly its end.
proof fn lemma_digits_end_of_run(s: Seq<char>, i: int, e: int)
    requires
        0 <= i <= e <= s.len(),
        forall|k: int| i <= k < e ==> is_digit(#[trigger] s[k]),
        e == s.len() || !is_digit(s[e]),
    ensures
        sp_digits_end(s, i) == e,
    decreases e - i,
{
    if i < e {
        lemma_digits_end_of_run(s, i + 1, e);
    }
}

/// Hexadecimal digits round-trip through their character.
proof fn lemma_hex_val_of_digit(x: int)
    requires
        0 <= x < 16,
    ensures
        is_hex_lower(hex_digit(x)),
        hex_val(hex_digit(x)) == x,
{
}

/// Reading a rendered integer at `i` gives the integer back and stops at
/// its end, provided no digit follows it.
proof fn lemma_rt_int(s: Seq<char>, i: int, n: int)
    requires
        i64::MIN <= n <= i64::MAX,
        0 <= i,
        i + render_int(n).len() <= s.len(),
        s.subrange(i, i + render_int(n).len()) == render_int(n),
        i + render_int(n).len() == s.len() || !is_digit(s[i + render_int(n).len()]),
    ensures
        sp_int(s, i) == Some((TreeVal::Int(n), i + render_int(n).len())),
        s[i] == '-' || is_digit(s[i]),
{
    let r = render_int(n);
    let end = i + r.len();
    if n < 0 {
        let m = (-n) as nat;
        lemma_dec_digits_digits(m);
        lemma_digits_value_of_dec(m);
        assert(s[i] == r[0]);
        assert(r[0] == '-');
        assert forall|k: int| i + 1 <= k < end implies is_digit(#[trigger] s[k]) by {
            assert(s[k] == r[k - i]);
            assert(r[k - i] == dec_digits(m)[k - i - 1]);
        }
        lemma_digits_end_of_run(s, i + 1, end);
        assert(s.subrange(i + 1, end) =~= dec_digits(m)) by {
            assert forall|k: int| 0 <= k < end - i - 1 implies s.subrange(i + 1, end)[k]
                == dec_digits(m)[k] by {
                assert(s.subrange(i + 1, end)[k] == s[i + 1 + k]);
                assert(s[i + 1 + k] == r[1 + k]);
                assert(r[1 + k] == dec_digits(m)[k]);
            }
        }
    } else {
        let m = n as nat;
        lemma_dec_digits_digits(m);
        lemma_digits_value_of_dec(m);
        assert forall|k: int| i <= k < end implies is_digit(#[trigger] s[k]) by {
            assert(s[k] == r[k - i]);
        }
        assert(s[i] == r[0]);
        assert(is_digit(s[i]));
        assert(s[i] != '-');
        lemma_digits_end_of_run(s, i, end);
        assert(s.subrange(i, end) =~= dec_digits(m));
        assert(end > i);
    }
}

/// Reading a rendered quoted body at `i` (just after the opening quote)
/// gives the text back and stops just after the closing quote.
proof fn lemma_rt_text_body(s: Seq<char>, i: int, content: Seq<char>)
    requires
        0 <= i,
        i + escape_text(content).len() + 1 <= s.len(),
        s.subrange(i, i + escape_text(content).len()) == escape_text(content),
        s[i + escape_text(content).len()] == '"',
    ensures
        sp_text_body(s, i) == Some((content, i + escape_text(content).len() + 1)),
    decreases content.len(),
{
    let esc = escape_text(content);
    if content.len() == 0 {
        assert(s[i] == '"');
    } else {
        let c = content.first();
        let ec = escape_char(c);
        let rest = content.drop_first();
        let erest = escape_text(rest);
        assert(esc == ec + erest);
        assert forall|k: int| 0 <= k < ec.len() implies s[i + k] == ec[k] by {
            assert(s[i + k] == esc[k]);
        }
        assert(s[i] == ec[0]) by {
            assert(s[i + 0] == ec[0]);
        }
        assert(s.subrange(i + ec.len(), i + esc.len()) =~= erest) by {
            assert forall|k: int| 0 <= k < erest.len() implies s.subrange(
                i + ec.len(),
                i + esc.len(),
            )[k] == erest[k] by {
                assert(s.subrange(i + ec.len(), i + esc.len())[k] == s[i + ec.len() + k]);
                assert(s[i + ec.len() + k] == esc[ec.len() + k]);
                assert(esc[ec.len() + k] == erest[k]);
            }
        }
        lemma_rt_text_body(s, i + ec.len(), rest);
        if c == '"' {
            assert(s[i] == '\\' && s[i + 1] == '"');
            assert(seq![s[i + 1]] + rest =~= content);
        } else if c == '\\' {
            assert(s[i] == '\\' && s[i + 1] == '\\');
            assert(seq![s[i + 1]] + rest =~= content);
        } else if (c as u32) < 0x20 {
            let v = c as u32 as int;
            lemma_hex_val_of_digit(v / 16);
            lemma_hex_val_of_digit(v % 16);
            assert(s[i] == '\\' && s[i + 1] == 'u' && s[i + 2] == '0' && s[i + 3] == '0');
            assert(s[i + 4] == hex_digit(v / 16) && s[i + 5] == hex_digit(v % 16));
            assert(hex_val(s[i + 4]) * 16 + hex_val(s[i + 5]) == v);
            assert(s[i + 1] != '"' && s[i + 1] != '\\');
            vstd::utf8::char_u32_cast(c, c as u32);
            assert(((v as u8) as char) == c);
            assert(seq![(v as u8) as char] + rest =~= content);
        } else {
            assert(s[i] == c);
            assert(s[i] != '"' && s[i] != '\\' && !((s[i] as u32) < 0x20));
            assert(seq![s[i]] + rest =~= content);
        }
    }
}

/// A window into a matched region reads from the matched text.
proof fn lemma_subrange_shift(s: Seq<char>, i: int, r: Seq<char>, a: int, b: int)
    requires
        0 <= i,
        i + r.len() <= s.len(),
        s.subrange(i, i + r.len()) == r,
        0 <= a <= b <= r.len(),
    ensures
        s.subrange(i + a, i + b) == r.subrange(a, b),
{
    assert(s.subrange(i + a, i + b) =~= r.subrange(a, b)) by {
        assert forall|k: int| 0 <= k < b - a implies s.subrange(i + a, i + b)[k] == r.subrange(
            a,
            b,
        )[k] by {
            assert(s.subrange(i + a, i + b)[k] == s[i + a + k]);
            assert(s.subrange(i, i + r.len())[a + k] == s[i + a + k]);
            assert(r.subrange(a, b)[k] == r[a + k]);
        }
    }
}

/// One position of a matched region reads the matched character.
proof fn lemma_index_shift(s: Seq<char>, i: int, r: Seq<char>, q: int)
    requires
        0 <= i,
        i + r.len() <= s.len(),
        s.subrange(i, i + r.len()) == r,
        0 <= q < r.len(),
    ensures
        s[i + q] == r[q],
{
    assert(s.subrange(i, i + r.len())[q] == s[i + q]);
}

/// Rendered text is never empty, and its first character names its shape.
proof fn lemma_render_first(t: TreeVal)
    ensures
        render_tree(t).len() >= 1,
        render_tree(t)[0] == 'n' || render_tree(t)[0] == 't' || render_tree(t)[0] == 'f'
            || render_tree(t)[0] == '"' || render_tree(t)[0] == '[' || render_tree(t)[0] == '{'
            || render_tree(t)[0] == '-' || is_digit(render_tree(t)[0]),
{
    match t {
        TreeVal::Int(n) => {
            if n >= 0 {
                lemma_dec_digits_digits(n as nat);
                assert(render_tree(t)[0] == dec_digits(n as nat)[0]);
            } else {
                lemma_dec_digits_digits((-n) as nat);
                assert(render_tree(t)[0] == '-');
            }
        },
        _ => {},
    }
}

/// Reading a rendered value at `i` gives the value back and stops at its
/// end, provided no digit follows the rendered text.
proof fn lemma_rt_value(s: Seq<char>, i: int, t: TreeVal)
    requires
        tree_in_range(t),
        0 <= i,
        i + render_tree(t).len() <= s.len(),
        s.subrange(i, i + render_tree(t).len()) == render_tree(t),
        i + render_tree(t).len() == s.len() || !is_digit(s[i + render_tree(t).len()]),
    ensures
        sp_value(s, i) == Some((t, i + render_tree(t).len())),
    decreases t, 1int,
{
    let r = render_tree(t);
    let end = i + r.len();
    lemma_render_first(t);
    match t {
        TreeVal::Null => {
            lemma_index_shift(s, i, r, 0);
            lemma_index_shift(s, i, r, 1);
            lemma_index_shift(s, i, r, 2);
            lemma_index_shift(s, i, r, 3);
        },
        TreeVal::Bool(b) => {
            lemma_index_shift(s, i, r, 0);
            lemma_index_shift(s, i, r, 1);
            lemma_index_shift(s, i, r, 2);
            lemma_index_shift(s, i, r, 3);
            if !b {
                lemma_index_shift(s, i, r, 4);
            }
        },
        TreeVal::Int(n) => {
            lemma_rt_int(s, i, n);
        },
        TreeVal::Text(cs) => {
            let esc = escape_text(cs);
            lemma_index_shift(s, i, r, 0);
            assert(s[i] == '"');
            lemma_index_shift(s, i, r, 1 + esc.len() as int);
            assert(s[i + 1 + esc.len() as int] == '"');
            lemma_subrange_shift(s, i, r, 1, 1 + esc.len() as int);
            assert(r.subrange(1, 1 + esc.len() as int) =~= esc) by {
                assert forall|k: int| 0 <= k < esc.len() implies r.subrange(1, 1 + esc.len() as int)[k]
                    == esc[k] by {
                    assert(r.subrange(1, 1 + esc.len() as int)[k] == r[1 + k]);
                    assert(r[1 + k] == esc[k]);
                }
            }
            lemma_rt_text_body(s, i + 1, cs);
        },
        TreeVal::Arr(xs) => {
            lemma_index_shift(s, i, r, 0);
            assert(s[i] == '[');
            let ri = render_items(xs);
            if xs.len() == 0 {
                lemma_index_shift(s, i, r, 1);
                assert(s[i + 1] == ']');
                let parsed = sp_value(s, i)->Some_0;
                assert(parsed.0 == TreeVal::Arr(Seq::<TreeVal>::empty()));
                assert(Seq::<TreeVal>::empty() =~= xs);
            } else {
                lemma_render_first(xs.first());
                lemma_index_shift(s, i, r, 1);
                assert(r[1] == ri[0]);
                assert(ri[0] == render_tree(xs.first())[0]);
                assert(s[i + 1] != ']');
                lemma_index_shift(s, i, r, 1 + ri.len() as int);
                assert(s[i + 1 + ri.len() as int] == ']');
                lemma_subrange_shift(s, i, r, 1, 1 + ri.len() as int);
                assert(r.subrange(1, 1 + ri.len() as int) =~= ri) by {
                    assert forall|k: int| 0 <= k < ri.len() implies r.subrange(1, 1 + ri.len() as int)[k]
                        == ri[k] by {
                        assert(r.subrange(1, 1 + ri.len() as int)[k] == r[1 + k]);
                        assert(r[1 + k] == ri[k]);
                    }
                }
                lemma_rt_items(s, i + 1, xs);
            }
        },
        TreeVal::Obj(fs) => {
            lemma_index_shift(s, i, r, 0);
            assert(s[i] == '{');
            let re = render_entries(fs);
            if fs.len() == 0 {
                lemma_index_shift(s, i, r, 1);
                assert(s[i + 1] == '}');
                let parsed = sp_value(s, i)->Some_0;
                assert(parsed.0 == TreeVal::Obj(Seq::<(Seq<char>, TreeVal)>::empty()));
                assert(Seq::<(Seq<char>, TreeVal)>::empty() =~= fs);
            } else {
                lemma_index_shift(s, i, r, 1);
                assert(r[1] == re[0]);
                assert(re[0] == '"');
                assert(s[i + 1] != '}');
                lemma_index_shift(s, i, r, 1 + re.len() as int);
                assert(s[i + 1 + re.len() as int] == '}');
                lemma_subrange_shift(s, i, r, 1, 1 + re.len() as int);
                assert(r.subrange(1, 1 + re.len() as int) =~= re) by {
                    assert forall|k: int| 0 <= k < re.len() implies r.subrange(1, 1 + re.len() as int)[k]
                        == re[k] by {
                        assert(r.subrange(1, 1 + re.len() as int)[k] == r[1 + k]);
                        assert(r[1 + k] == re[k]);
                    }
                }
                lemma_rt_entries(s, i + 1, fs);
            }
        },
    }
}

/// Reading rendered items at `i` gives the items back and stops just after
/// the closing bracket that follows them.
proof fn lemma_rt_items(s: Seq<char>, i: int, xs: Seq<TreeVal>)
    requires
        forall|k: int| 0 <= k < xs.len() ==> tree_in_range(#[trigger] xs[k]),
        xs.len() >= 1,
        0 <= i,
        i + render_items(xs).len() < s.len(),
        s.subrange(i, i + render_items(xs).len()) == render_items(xs),
        s[i + render_items(xs).len()] == ']',
    ensures
        sp_items(s, i) == Some((xs, i + render_items(xs).len() + 1)),
    decreases xs, 2int,
{
    let ri = render_items(xs);
    let first = xs.first();
    let rf = render_tree(first);
    lemma_render_first(first);
    if xs.len() == 1 {
        assert(ri == rf);
        lemma_rt_value(s, i, first);
        let j = i + rf.len();
        assert(s[j] == ']');
        assert(seq![first] =~= xs);
    } else {
        let rest = xs.drop_first();
        let rr = render_items(rest);
        assert(ri == rf + seq![','] + rr);
        let j = i + rf.len();
        lemma_index_shift(s, i, ri, rf.len() as int);
        assert(s[j] == ri[rf.len() as int]);
        assert(ri[rf.len() as int] == ',');
        assert(!is_digit(','));
        lemma_subrange_shift(s, i, ri, 0, rf.len() as int);
        assert(ri.subrange(0, rf.len() as int) =~= rf) by {
            assert forall|k: int| 0 <= k < rf.len() implies ri.subrange(0, rf.len() as int)[k]
                == rf[k] by {
                assert(ri.subrange(0, rf.len() as int)[k] == ri[k]);
                assert(ri[k] == rf[k]);
            }
        }
        lemma_rt_value(s, i, first);
        lemma_subrange_shift(s, i, ri, rf.len() as int + 1, ri.len() as int);
        assert(ri.subrange(rf.len() as int + 1, ri.len() as int) =~= rr) by {
            assert forall|k: int| 0 <= k < rr.len() implies ri.subrange(
                rf.len() as int + 1,
                ri.len() as int,
            )[k] == rr[k] by {
                assert(ri.subrange(rf.len() as int + 1, ri.len() as int)[k] == ri[rf.len() + 1 + k]);
                assert(ri[rf.len() + 1 + k] == rr[k]);
            }
        }
        lemma_rt_items(s, j + 1, rest);
        assert(seq![first] + rest =~= xs);
    }
}

/// Reading rendered entries at `i` gives the entries back and stops just
/// after the closing brace that follows them.
proof fn lemma_rt_entries(s: Seq<char>, i: int, fs: Seq<(Seq<char>, TreeVal)>)
    requires
        forall|k: int| 0 <= k < fs.len() ==> tree_in_range((#[trigger] fs[k]).1),
        fs.len() >= 1,
        0 <= i,
        i + render_entries(fs).len() < s.len(),
        s.subrange(i, i + render_entries(fs).len()) == render_entries(fs),
        s[i + render_entries(fs).len()] == '}',
    ensures
        sp_entries(s, i) == Some((fs, i + render_entries(fs).len() + 1)),
    decreases fs, 2int,
{
    let re = render_entries(fs);
    let key = fs.first().0;
    let v = fs.first().1;
    let esc = escape_text(key);
    let rv = render_tree(v);
    let head = seq!['"'] + esc + seq!['"', ':'] + rv;
    lemma_render_first(v);
    lemma_index_shift(s, i, re, 0);
    assert(re[0] == head[0]);
    assert(s[i] == '"');
    // The key body sits at i + 1, closed by a quote, then a colon.
    lemma_index_shift(s, i, re, 1 + esc.len() as int);
    assert(re[1 + esc.len() as int] == head[1 + esc.len() as int]);
    assert(head[1 + esc.len() as int] == '"');
    lemma_index_shift(s, i, re, 2 + esc.len() as int);
    assert(re[2 + esc.len() as int] == head[2 + esc.len() as int]);
    assert(head[2 + esc.len() as int] == ':');
    lemma_subrange_shift(s, i, re, 1, 1 + esc.len() as int);
    assert(re.subrange(1, 1 + esc.len() as int) =~= esc) by {
        assert forall|k: int| 0 <= k < esc.len() implies re.subrange(1, 1 + esc.len() as int)[k]
            == esc[k] by {
            assert(re.subrange(1, 1 + esc.len() as int)[k] == re[1 + k]);
            assert(re[1 + k] == head[1 + k]);
            assert(head[1 + k] == esc[k]);
        }
    }
    lemma_rt_text_body(s, i + 1, key);
    let k0 = i + 2 + esc.len() as int;
    // The value sits just after the colon.
    lemma_subrange_shift(s, i, re, 3 + esc.len() as int, 3 + esc.len() as int + rv.len());
    assert(re.subrange(3 + esc.len() as int, 3 + esc.len() as int + rv.len()) =~= rv) by {
        assert forall|k: int| 0 <= k < rv.len() implies re.subrange(
            3 + esc.len() as int,
            3 + esc.len() as int + rv.len(),
        )[k] == rv[k] by {
            assert(re.subrange(3 + esc.len() as int, 3 + esc.len() as int + rv.len())[k] == re[3 + esc.len() as int
                + k]);
            assert(re[3 + esc.len() as int + k] == head[3 + esc.len() as int + k]);
            assert(head[3 + esc.len() as int + k] == rv[k]);
        }
    }
    let j = k0 + 1 + rv.len();
    if fs.len() == 1 {
        assert(re == head);
        assert(s[j] == '}');
        lemma_rt_value(s, k0 + 1, v);
        assert(seq![(key, v)] =~= fs);
    } else {
        let rest = fs.drop_first();
        let rr = render_entries(rest);
        assert(re == head + seq![','] + rr);
        lemma_index_shift(s, i, re, head.len() as int);
        assert(re[head.len() as int] == ',');
        assert(s[j] == ',');
        assert(!is_digit(','));
        lemma_rt_value(s, k0 + 1, v);
        lemma_subrange_shift(s, i, re, head.len() as int + 1, re.len() as int);
        assert(re.subrange(head.len() as int + 1, re.len() as int) =~= rr) by {
            assert forall|k: int| 0 <= k < rr.len() implies re.subrange(
                head.len() as int + 1,
                re.len() as int,
            )[k] == rr[k] by {
                assert(re.subrange(head.len() as int + 1, re.len() as int)[k] == re[head.len() + 1 + k]);
                assert(re[head.len() + 1 + k] == rr[k]);
            }
        }
        lemma_rt_entries(s, j + 1, rest);
        assert(seq![(key, v)] + rest =~= fs);
    }
}

/// Round trip at the text level: the canonical text of any tree parses
/// back to exactly that tree.
pub proof fn lemma_parse_render(t: TreeVal)
    requires
        tree_in_range(t),
    ensures
        spec_parse_text(render_tree(t)) == Some(t),
{
    let s = render_tree(t);
    assert(s.subrange(0, s.len() as int) =~= s);
    lemma_rt_value(s, 0, t);
}

/// Relies on `String: FromIterator<char>`: collecting characters yields the
/// string of exactly those characters, in order.
#[verifier::external_body]
fn string_from_chars(v: &Vec<char>) -> (r: String)
    ensures
        r@ == v@,
{
    v.iter().collect()
}

/// The canonical text of a column value, as the store returns the column on
/// a raw read.
pub fn to_text(v: &StoredValue) -> (r: String)
    ensures
        r@ == render_tree(v@),
{
    let mut out: Vec<char> = Vec::new();
    push_tree(&mut out, v);
    proof {
        assert(out@ =~= render_tree(v@));
    }
    string_from_chars(&out)
}

/// The characters of a text, in order.
fn chars_of_str(s: &str) -> (r: Vec<char>)
    ensures
        r@ == s@,
{
    let n = s.unicode_len();
    let mut r: Vec<char> = Vec::new();
    let mut i: usize = 0;
    while i < n
        invariant
            i <= n,
            n == s@.len(),
            r@ == s@.take(i as int),
        decreases n - i,
    {
        r.push(s.get_char(i));
        proof {
            assert(s@.take(i + 1) =~= s@.take(i as int).push(s@[i as int]));
        }
        i = i + 1;
    }
    proof {
        assert(s@.take(n as int) =~= s@);
    }
    r
}

/// Whether a character is a decimal digit.
fn is_digit_exec(c: char) -> (r: bool)
    ensures
        r == is_digit(c),
{
    '0' <= c && c <= '9'
}

/// A digit run can only grow in value as it extends to the right.
proof fn lemma_digits_value_grows(d: Seq<char>, k: int)
    requires
        0 <= k <= d.len(),
        forall|q: int| 0 <= q < d.len() ==> is_digit(#[trigger] d[q]),
    ensures
        digits_value(d) >= digits_value(d.take(k)),
        digits_value(d) >= 0,
    decreases d.len(),
{
    if d.len() == 0 {
    } else if k == d.len() {
        assert(d.take(k) =~= d);
        lemma_digits_value_grows(d.drop_last(), d.len() - 1);
        assert(d.drop_last().take(d.len() - 1) =~= d.drop_last());
        assert(digits_value(d) == digits_value(d.drop_last()) * 10 + digit_val(d.last()));
        assert(digit_val(d.last()) >= 0);
        assert(digits_value(d.drop_last()) * 10 >= digits_value(d.drop_last())) by (nonlinear_arith)
            requires
                digits_value(d.drop_last()) >= 0,
        ;
    } else {
        assert(forall|q: int|
            0 <= q < d.drop_last().len() ==> is_digit(#[trigger] d.drop_last()[q]));
        lemma_digits_value_grows(d.drop_last(), k);
        assert(d.drop_last().take(k) =~= d.take(k));
        assert(digits_value(d) == digits_value(d.drop_last()) * 10 + digit_val(d.last()));
        assert(digit_val(d.last()) >= 0);
        assert(digits_value(d.drop_last()) * 10 >= digits_value(d.drop_last())) by (nonlinear_arith)
            requires
                digits_value(d.drop_last()) >= 0,
        ;
    }
}

/// The end of the digit run starting at `i`.
fn p_digits_end(s: &Vec<char>, i: usize) -> (e: usize)
    requires
        i <= s@.len(),
    ensures
        e as int == sp_digits_end(s@, i as int),
        i <= e <= s@.len(),
        forall|q: int| i <= q < e ==> is_digit(#[trigger] s@[q]),
    decreases s@.len() - i,
{
    if i < s.len() && is_digit_exec(s[i]) {
        p_digits_end(s, i + 1)
    } else {
        i
    }
}

/// Parses an integer, mirroring [`sp_int`].
fn p_int(s: &Vec<char>, i: usize) -> (r: Option<(StoredValue, usize)>)
    requires
        i < s@.len(),
        s@[i as int] == '-' || is_digit(s@[i as int]),
    ensures
        match (r, sp_int(s@, i as int)) {
            (Some((v, e)), Some(se)) => v@ == se.0 && e as int == se.1 && i < e <= s@.len(),
            (None, None) => true,
            _ => false,
        },
{
    let n = s.len();
    let neg = s[i] == '-';
    let j: usize = if neg {
        i + 1
    } else {
        i
    };
    let e = p_digits_end(s, j);
    if e == j {
        return None;
    }
    let ghost run = s@.subrange(j as int, e as int);
    proof {
        assert(forall|q: int| 0 <= q < run.len() ==> is_digit(#[trigger] run[q]));
    }
    let mut m: u128 = 0;
    let mut k: usize = j;
    while k < e
        invariant
            i < s@.len(),
            neg == (s@[i as int] == '-'),
            j as int == if neg {
                i + 1
            } else {
                i as int
            },
            e as int == sp_digits_end(s@, j as int),
            e > j,
            j <= k <= e <= s@.len(),
            run == s@.subrange(j as int, e as int),
            forall|q: int| 0 <= q < run.len() ==> is_digit(#[trigger] run[q]),
            m as int == digits_value(run.take(k - j)),
            m <= 0x8000_0000_0000_0000u128,
        decreases e - k,
    {
        proof {
            assert(run[k - j] == s@[k as int]);
            assert(is_digit(s@[k as int]));
        }
        let d: u128 = (s[k] as u32 - 48) as u128;
        proof {
            assert(run.take(k - j + 1) =~= run.take(k - j).push(run[k - j]));
            assert(run.take(k - j + 1).drop_last() =~= run.take(k - j));
            assert(d as int == digit_val(run[k - j]));
        }
        let next: u128 = m * 10 + d;
        if next > 0x8000_0000_0000_0000u128 {
            proof {
                lemma_digits_value_grows(run, k - j + 1);
                assert(digits_value(run) >= digits_value(run.take(k - j + 1)));
                assert(digits_value(run) > 0x8000_0000_0000_0000);
                assert(sp_int(s@, i as int) is None);
            }
            return None;
        }
        m = next;
        k = k + 1;
    }
    proof {
        assert(run.take(e - j) =~= run);
        assert(m as int == digits_value(run));
    }
    if neg {
        if m == 0x8000_0000_0000_0000u128 {
            Some((StoredValue::Int(i64::MIN), e))
        } else {
            Some((StoredValue::Int(-(m as i64)), e))
        }
    } else {
        if m == 0x8000_0000_0000_0000u128 {
            None
        } else {
            Some((StoredValue::Int(m as i64), e))
        }
    }
}

/// Parses a quoted-text body, mirroring [`sp_text_body`].
fn p_text_body(s: &Vec<char>, i: usize) -> (r: Option<(Vec<char>, usize)>)
    requires
        i <= s@.len(),
    ensures
        match (r, sp_text_body(s@, i as int)) {
            (Some((cs, e)), Some(se)) => cs@ == se.0 && e as int == se.1 && i < e <= s@.len(),
            (None, None) => true,
            _ => false,
        },
    decreases s@.len() - i,
{
    if i >= s.len() {
        return None;
    }
    let c = s[i];
    if c == '"' {
        Some((Vec::new(), i + 1))
    } else if c == '\\' {
        if s.len() - i >= 2 && (s[i + 1] == '"' || s[i + 1] == '\\') {
            match p_text_body(s, i + 2) {
                Some((rest, e)) => {
                    let mut out = rest;
                    out.insert(0, s[i + 1]);
                    proof {
                        assert(out@ =~= seq![s@[i + 1]] + sp_text_body(s@, i + 2)->Some_0.0);
                    }
                    Some((out, e))
                },
                None => None,
            }
        } else if s.len() - i >= 6 && s[i + 1] == 'u' && s[i + 2] == '0' && s[i + 3] == '0'
            && is_hex_exec(s[i + 4]) && is_hex_exec(s[i + 5]) && hex_val_exec(s[i + 4]) * 16
            + hex_val_exec(s[i + 5]) < 0x20 {
            let v: u32 = hex_val_exec(s[i + 4]) * 16 + hex_val_exec(s[i + 5]);
            match p_text_body(s, i + 6) {
                Some((rest, e)) => {
                    let mut out = rest;
                    out.insert(0, (v as u8) as char);
                    proof {
                        assert(out@ =~= seq![((v as u8) as char)] + sp_text_body(
                            s@,
                            i + 6,
                        )->Some_0.0);
                    }
                    Some((out, e))
                },
                None => None,
            }
        } else {
            None
        }
    } else if (c as u32) < 0x20 {
        None
    } else {
        match p_text_body(s, i + 1) {
            Some((rest, e)) => {
                let mut out = rest;
                out.insert(0, c);
                proof {
                    assert(out@ =~= seq![s@[i as int]] + sp_text_body(s@, i + 1)->Some_0.0);
                }
                Some((out, e))
            },
            None => None,
        }
    }
}

/// Whether a character is a lower-case hexadecimal digit.
fn is_hex_exec(c: char) -> (r: bool)
    ensures
        r == is_hex_lower(c),
{
    ('0' <= c && c <= '9') || ('a' <= c && c <= 'f')
}

/// The value of a lower-case hexadecimal digit character.
fn hex_val_exec(c: char) -> (r: u32)
    requires
        is_hex_lower(c),
    ensures
        r == hex_val(c),
        r < 16,
{
    if '0' <= c && c <= '9' {
        c as u32 - 48
    } else {
        c as u32 - 97 + 10
    }
}

/// Parses one value, mirroring [`sp_value`].
fn p_value(s: &Vec<char>, i: usize) -> (r: Option<(StoredValue, usize)>)
    requires
        i <= s@.len(),
    ensures
        match (r, sp_value(s@, i as int)) {
            (Some((v, e)), Some(se)) => v@ == se.0 && e as int == se.1 && i < e <= s@.len(),
            (None, None) => true,
            _ => false,
        },
    decreases s@.len() - i, 0int,
{
    if i >= s.len() {
        return None;
    }
    let c = s[i];
    if c == 'n' {
        if s.len() - i >= 4 && s[i + 1] == 'u' && s[i + 2] == 'l' && s[i + 3] == 'l' {
            Some((StoredValue::Null, i + 4))
        } else {
            None
        }
    } else if c == 't' {
        if s.len() - i >= 4 && s[i + 1] == 'r' && s[i + 2] == 'u' && s[i + 3] == 'e' {
            Some((StoredValue::Bool(true), i + 4))
        } else {
            None
        }
    } else if c == 'f' {
        if s.len() - i >= 5 && s[i + 1] == 'a' && s[i + 2] == 'l' && s[i + 3] == 's' && s[i + 4]
            == 'e' {
            Some((StoredValue::Bool(false), i + 5))
        } else {
            None
        }
    } else if c == '"' {
        match p_text_body(s, i + 1) {
            Some((cs, e)) => Some((StoredValue::Text(string_from_chars(&cs)), e)),
            None => None,
        }
    } else if c == '[' {
        if s.len() - i >= 2 && s[i + 1] == ']' {
            let empty: Vec<StoredValue> = Vec::new();
            proof {
                crate::tree::lemma_views_of_len(empty@);
                assert(views_of(empty@) =~= Seq::<TreeVal>::empty());
            }
            Some((StoredValue::Arr(empty), i + 2))
        } else {
            match p_items(s, i + 1) {
                Some((xs, e)) => Some((StoredValue::Arr(xs), e)),
                None => None,
            }
        }
    } else if c == '{' {
        if s.len() - i >= 2 && s[i + 1] == '}' {
            let empty: Vec<(String, StoredValue)> = Vec::new();
            proof {
                crate::tree::lemma_entry_views_of_len(empty@);
                assert(entry_views_of(empty@) =~= Seq::<(Seq<char>, TreeVal)>::empty());
            }
            Some((StoredValue::Obj(empty), i + 2))
        } else {
            match p_entries(s, i + 1) {
                Some((fs, e)) => Some((StoredValue::Obj(fs), e)),
                None => None,
            }
        }
    } else if c == '-' || is_digit_exec(c) {
        p_int(s, i)
    } else {
        None
    }
}

/// Parses one or more items, mirroring [`sp_items`].
fn p_items(s: &Vec<char>, i: usize) -> (r: Option<(Vec<StoredValue>, usize)>)
    requires
        i <= s@.len(),
    ensures
        match (r, sp_items(s@, i as int)) {
            (Some((xs, e)), Some(se)) => views_of(xs@) == se.0 && e as int == se.1 && i < e
                <= s@.len(),
            (None, None) => true,
            _ => false,
        },
    decreases s@.len() - i, 1int,
{
    match p_value(s, i) {
        Some((v, j)) => {
            if j >= s.len() {
                None
            } else if s[j] == ',' {
                match p_items(s, j + 1) {
                    Some((rest, e)) => {
                        let ghost grest = rest@;
                        let ghost rest_views = views_of(rest@);
                        let ghost gv = v@;
                        let mut out = rest;
                        out.insert(0, v);
                        proof {
                            assert(out@[0]@ == gv);
                            assert(out@.drop_first() =~= grest);
                            lemma_views_of_prepend(out@, gv, rest_views);
                        }
                        Some((out, e))
                    },
                    None => None,
                }
            } else if s[j] == ']' {
                let mut out: Vec<StoredValue> = Vec::new();
                out.push(v);
                proof {
                    crate::tree::lemma_views_of_len(out@);
                    crate::tree::lemma_views_of_index(out@, 0);
                    assert(views_of(out@) =~= seq![sp_value(s@, i as int)->Some_0.0]);
                }
                Some((out, j + 1))
            } else {
                None
            }
        },
        None => None,
    }
}

/// Prepending a child to a sequence whose models are known prepends its
/// model.
proof fn lemma_views_of_prepend(out: Seq<StoredValue>, v: TreeVal, rest_views: Seq<TreeVal>)
    requires
        out.len() >= 1,
        out[0]@ == v,
        views_of(out.drop_first()) == rest_views,
    ensures
        views_of(out) == seq![v] + rest_views,
{
    crate::tree::lemma_views_of_len(out);
    crate::tree::lemma_views_of_len(out.drop_first());
    assert(views_of(out) =~= seq![v] + rest_views) by {
        assert forall|k: int| 0 <= k < out.len() implies views_of(out)[k] == (seq![v]
            + rest_views)[k] by {
            crate::tree::lemma_views_of_index(out, k);
            if k > 0 {
                crate::tree::lemma_views_of_index(out.drop_first(), k - 1);
                assert(out.drop_first()[k - 1] == out[k]);
            }
        }
    }
}

/// Prepending an entry to a sequence whose models are known prepends its
/// model.
proof fn lemma_entry_views_of_prepend(
    out: Seq<(String, StoredValue)>,
    kv: (Seq<char>, TreeVal),
    rest_views: Seq<(Seq<char>, TreeVal)>,
)
    requires
        out.len() >= 1,
        out[0].0@ == kv.0,
        out[0].1@ == kv.1,
        entry_views_of(out.drop_first()) == rest_views,
    ensures
        entry_views_of(out) == seq![kv] + rest_views,
{
    crate::tree::lemma_entry_views_of_len(out);
    crate::tree::lemma_entry_views_of_len(out.drop_first());
    assert(entry_views_of(out) =~= seq![kv] + rest_views) by {
        assert forall|k: int| 0 <= k < out.len() implies entry_views_of(out)[k] == (seq![kv]
            + rest_views)[k] by {
            crate::tree::lemma_entry_views_of_index(out, k);
            if k > 0 {
                crate::tree::lemma_entry_views_of_index(out.drop_first(), k - 1);
                assert(out.drop_first()[k - 1] == out[k]);
            }
        }
    }
}

/// Parses one or more object entries, mirroring [`sp_entries`].
fn p_entries(s: &Vec<char>, i: usize) -> (r: Option<(Vec<(String, StoredValue)>, usize)>)
    requires
        i <= s@.len(),
    ensures
        match (r, sp_entries(s@, i as int)) {
            (Some((fs, e)), Some(se)) => entry_views_of(fs@) == se.0 && e as int == se.1 && i < e
                <= s@.len(),
            (None, None) => true,
            _ => false,
        },
    decreases s@.len() - i, 1int,
{
    if i >= s.len() || s[i] != '"' {
        return None;
    }
    match p_text_body(s, i + 1) {
        Some((key_chars, k)) => {
            if k >= s.len() || s[k] != ':' {
                return None;
            }
            let key = string_from_chars(&key_chars);
            match p_value(s, k + 1) {
                Some((v, j)) => {
                    if j >= s.len() {
                        None
                    } else if s[j] == ',' {
                        match p_entries(s, j + 1) {
                            Some((rest, e)) => {
                                let ghost grest = rest@;
                                let ghost rest_views = entry_views_of(rest@);
                                let ghost kv = (key@, v@);
                                let mut out = rest;
                                out.insert(0, (key, v));
                                proof {
                                    assert(out@[0].0@ == kv.0 && out@[0].1@ == kv.1);
                                    assert(out@.drop_first() =~= grest);
                                    lemma_entry_views_of_prepend(out@, kv, rest_views);
                                }
                                Some((out, e))
                            },
                            None => None,
                        }
                    } else if s[j] == '}' {
                        let ghost kv = (key@, v@);
                        let mut out: Vec<(String, StoredValue)> = Vec::new();
                        out.push((key, v));
                        proof {
                            crate::tree::lemma_entry_views_of_len(out@);
                            crate::tree::lemma_entry_views_of_index(out@, 0);
                            assert(entry_views_of(out@) =~= seq![kv]);
                        }
                        Some((out, j + 1))
                    } else {
                        None
                    }
                },
                None => None,
            }
        },
        None => None,
    }
}

/// Round trip for every in-memory column value: its canonical text parses
/// back to its own model, so a raw-text read of a stored column is faithful.
pub proof fn lemma_value_text_round_trip(v: StoredValue)
    ensures
        spec_parse_text(render_tree(v@)) == Some(v@),
{
    lemma_stored_in_range(v);
    lemma_parse_render(v@);
}

/// Reads a column value back from its raw text, as handed out by the store;
/// text that is not valid tree text is rejected as malformed.
pub fn from_text(raw: &str) -> (r: Result<StoredValue, CodecError>)
    ensures
        match spec_parse_text(raw@) {
            Some(t) => r matches Ok(v) && v@ == t,
            None => r matches Err(e) && e == CodecError::Malformed,
        },
{
    let chars = chars_of_str(raw);
    match p_value(&chars, 0) {
        Some((v, e)) => {
            if e == chars.len() {
                Ok(v)
            } else {
                Err(CodecError::Malformed)
            }
        },
        None => Err(CodecError::Malformed),
    }
}

} // verus!
