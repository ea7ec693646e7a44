use vstd::prelude::*;
use vstd::string::StrSliceExecFns;
use crate::chars::char_from_u32;
use crate::ts::{digit_char, digit_val, is_digit, lemma_digit_char};

verus! {

// ---------------------------------------------------------------------------
// Whitespace
// ---------------------------------------------------------------------------

pub open spec fn is_ws(c: char) -> bool {
    c == ' ' || c == '\t' || c == '\n' || c == '\r'
}

/// The first position at or after `i` that does not hold whitespace.
pub open spec fn ws_end(s: Seq<char>, i: int) -> int
    decreases s.len() - i,
{
    if i < s.len() && is_ws(s[i]) {
        ws_end(s, i + 1)
    } else {
        i
    }
}

pub proof fn lemma_ws_end(s: Seq<char>, i: int)
    requires
        0 <= i <= s.len(),
    ensures
        i <= ws_end(s, i) <= s.len(),
        ws_end(s, i) < s.len() ==> !is_ws(s[ws_end(s, i)]),
    decreases s.len() - i,
{
    if i < s.len() && is_ws(s[i]) {
        lemma_ws_end(s, i + 1);
    }
}

pub(crate) fn skip_ws(cs: &Vec<char>, i: usize) -> (r: usize)
    requires
        i <= cs@.len(),
    ensures
        r == ws_end(cs@, i as int),
        i <= r <= cs@.len(),
{
    let n: usize = cs.len();
    let mut j: usize = i;
    while j < n && (cs[j] == ' ' || cs[j] == '\t' || cs[j] == '\n' || cs[j] == '\r')
        invariant
            i <= j <= n,
            n == cs@.len(),
            ws_end(cs@, i as int) == ws_end(cs@, j as int),
        decreases n - j,
    {
        j = j + 1;
    }
    proof {
        lemma_ws_end(cs@, i as int);
    }
    j
}

// ---------------------------------------------------------------------------
// Hexadecimal digits
// ---------------------------------------------------------------------------

pub open spec fn hex_char(d: int) -> char {
    if d < 10 {
        digit_char(d)
    } else if d == 10 {
        'a'
    } else if d == 11 {
        'b'
    } else if d == 12 {
        'c'
    } else if d == 13 {
        'd'
    } else if d == 14 {
        'e'
    } else {
        'f'
    }
}

/// The value of a hexadecimal digit character, or -1 for any other character.
pub open spec fn hex_val(c: char) -> int {
    if is_digit(c) {
        digit_val(c)
    } else if c == 'a' || c == 'A' {
        10
    } else if c == 'b' || c == 'B' {
        11
    } else if c == 'c' || c == 'C' {
        12
    } else if c == 'd' || c == 'D' {
        13
    } else if c == 'e' || c == 'E' {
        14
    } else if c == 'f' || c == 'F' {
        15
    } else {
        -1
    }
}

pub open spec fn is_hex(c: char) -> bool {
    hex_val(c) >= 0
}

pub proof fn lemma_hex_char(d: int)
    requires
        0 <= d <= 15,
    ensures
        is_hex(hex_char(d)),
        hex_val(hex_char(d)) == d,
{
    if d < 10 {
        lemma_digit_char(d);
    }
}

fn hex_val_exec(c: char) -> (r: Option<u8>)
    ensures
        r is Some <==> is_hex(c),
        r matches Some(v) ==> v == hex_val(c) && v <= 15,
{
    if c == '0' {
        Some(0)
    } else if c == '1' {
        Some(1)
    } else if c == '2' {
        Some(2)
    } else if c == '3' {
        Some(3)
    } else if c == '4' {
        Some(4)
    } else if c == '5' {
        Some(5)
    } else if c == '6' {
        Some(6)
    } else if c == '7' {
        Some(7)
    } else if c == '8' {
        Some(8)
    } else if c == '9' {
        Some(9)
    } else if c == 'a' || c == 'A' {
        Some(10)
    } else if c == 'b' || c == 'B' {
        Some(11)
    } else if c == 'c' || c == 'C' {
        Some(12)
    } else if c == 'd' || c == 'D' {
        Some(13)
    } else if c == 'e' || c == 'E' {
        Some(14)
    } else if c == 'f' || c == 'F' {
        Some(15)
    } else {
        None
    }
}

fn hex_char_exec(d: u8) -> (c: char)
    requires
        d <= 15,
    ensures
        c == hex_char(d as int),
{
    if d == 0 {
        '0'
    } else if d == 1 {
        '1'
    } else if d == 2 {
        '2'
    } else if d == 3 {
        '3'
    } else if d == 4 {
        '4'
    } else if d == 5 {
        '5'
    } else if d == 6 {
        '6'
    } else if d == 7 {
        '7'
    } else if d == 8 {
        '8'
    } else if d == 9 {
        '9'
    } else if d == 10 {
        'a'
    } else if d == 11 {
        'b'
    } else if d == 12 {
        'c'
    } else if d == 13 {
        'd'
    } else if d == 14 {
        'e'
    } else {
        'f'
    }
}

// ---------------------------------------------------------------------------
// String escaping, as a writer produces it
// ---------------------------------------------------------------------------

/// How one character is written inside a quoted string: itself, a short
/// backslash escape, or `\u00..` for the remaining control characters.
pub open spec fn esc_char(c: char) -> Seq<char> {
    if c == '"' {
        seq!['\\', '"']
    } else if c == '\\' {
        seq!['\\', '\\']
    } else if c == '\n' {
        seq!['\\', 'n']
    } else if c == '\t' {
        seq!['\\', 't']
    } else if c == '\r' {
        seq!['\\', 'r']
    } else if (c as u32) == 8 {
        seq!['\\', 'b']
    } else if (c as u32) == 12 {
        seq!['\\', 'f']
    } else if (c as u32) < 32 {
        seq![
            '\\',
            'u',
            '0',
            '0',
            hex_char(((c as u32) as int) / 16),
            hex_char(((c as u32) as int) % 16),
        ]
    } else {
        seq![c]
    }
}

pub open spec fn esc_str(s: Seq<char>) -> Seq<char>
    decreases s.len(),
{
    if s.len() == 0 {
        Seq::empty()
    } else {
        esc_char(s[0]) + esc_str(s.drop_first())
    }
}

pub proof fn lemma_esc_push(a: Seq<char>, c: char)
    ensures
        esc_str(a.push(c)) == esc_str(a) + esc_char(c),
    decreases a.len(),
{
    if a.len() == 0 {
        assert(a.push(c).drop_first() =~= Seq::<char>::empty());
        assert(a.push(c)[0] == c);
        assert(esc_str(a) == Seq::<char>::empty());
        assert(esc_str(a.push(c).drop_first()) == Seq::<char>::empty());
        assert(esc_str(a.push(c)) == esc_char(c) + esc_str(a.push(c).drop_first()));
        assert(esc_str(a.push(c)) =~= esc_str(a) + esc_char(c));
    } else {
        assert(a.push(c).drop_first() =~= a.drop_first().push(c));
        lemma_esc_push(a.drop_first(), c);
        assert(esc_str(a.push(c)) =~= esc_str(a) + esc_char(c));
    }
}

/// Appends the escaped form of `s` to `out`.
pub(crate) fn push_escaped(out: &mut Vec<char>, s: &str)
    ensures
        final(out)@ == old(out)@ + esc_str(s@),
{
    let n: usize = s.unicode_len();
    let mut i: usize = 0;
    proof {
        assert(s@.subrange(0, 0) =~= Seq::<char>::empty());
        assert(out@ =~= old(out)@ + esc_str(s@.subrange(0, 0)));
    }
    while i < n
        invariant
            i <= n,
            n == s@.len(),
            out@ == old(out)@ + esc_str(s@.subrange(0, i as int)),
        decreases n - i,
    {
        let c = s.get_char(i);
        let v: u32 = c as u32;
        if c == '"' {
            out.push('\\');
            out.push('"');
        } else if c == '\\' {
            out.push('\\');
            out.push('\\');
        } else if c == '\n' {
            out.push('\\');
            out.push('n');
        } else if c == '\t' {
            out.push('\\');
            out.push('t');
        } else if c == '\r' {
            out.push('\\');
            out.push('r');
        } else if v == 8 {
            out.push('\\');
            out.push('b');
        } else if v == 12 {
            out.push('\\');
            out.push('f');
        } else if v < 32 {
            out.push('\\');
            out.push('u');
            out.push('0');
            out.push('0');
            out.push(hex_char_exec((v / 16) as u8));
            out.push(hex_char_exec((v % 16) as u8));
        } else {
            out.push(c);
        }
        proof {
            lemma_esc_push(s@.subrange(0, i as int), s@[i as int]);
            assert(s@.subrange(0, i + 1) =~= s@.subrange(0, i as int).push(s@[i as int]));
            assert(out@ =~= old(out)@ + esc_str(s@.subrange(0, i + 1)));
        }
        i = i + 1;
    }
    proof {
        assert(s@.subrange(0, n as int) =~= s@);
    }
}

// ---------------------------------------------------------------------------
// Reading a quoted string body (the opening quote already consumed)
// ---------------------------------------------------------------------------

pub open spec fn short_unescape(e: char) -> Option<char> {
    if e == '"' {
        Some('"')
    } else if e == '\\' {
        Some('\\')
    } else if e == '/' {
        Some('/')
    } else if e == 'n' {
        Some('\n')
    } else if e == 't' {
        Some('\t')
    } else if e == 'r' {
        Some('\r')
    } else if e == 'b' {
        Some((8u32) as char)
    } else if e == 'f' {
        Some((12u32) as char)
    } else {
        None
    }
}

/// A numeric escape may name any Unicode scalar value.
pub open spec fn scalar_ok(v: int) -> bool {
    (0 <= v < 0xD800) || (0xE000 <= v <= 0x10FFFF)
}

/// The characters denoted by a quoted string starting (after its opening
/// quote) at `i`, and the position just past its closing quote.
pub open spec fn str_body(s: Seq<char>, i: int) -> Option<(Seq<char>, int)>
    decreases s.len() - i,
{
    if i < 0 || i >= s.len() {
        None
    } else if s[i] == '"' {
        Some((Seq::empty(), i + 1))
    } else if s[i] == '\\' {
        if i + 2 > s.len() {
            None
        } else {
            let e = s[i + 1];
            if e == 'u' {
                if i + 6 <= s.len() && is_hex(s[i + 2]) && is_hex(s[i + 3]) && is_hex(s[i + 4])
                    && is_hex(s[i + 5]) {
                    let v: int = ((hex_val(s[i + 2]) * 16 + hex_val(s[i + 3])) * 16 + hex_val(
                        s[i + 4],
                    )) * 16 + hex_val(s[i + 5]);
                    if scalar_ok(v) {
                        match str_body(s, i + 6) {
                            Some(p) => Some((seq![((v as u32) as char)] + p.0, p.1)),
                            None => None,
                        }
                    } else {
                        None
                    }
                } else {
                    None
                }
            } else {
                match short_unescape(e) {
                    Some(c) => match str_body(s, i + 2) {
                        Some(p) => Some((seq![c] + p.0, p.1)),
                        None => None,
                    },
                    None => None,
                }
            }
        }
    } else if (s[i] as u32) < 32 {
        None
    } else {
        match str_body(s, i + 1) {
            Some(p) => Some((seq![s[i]] + p.0, p.1)),
            None => None,
        }
    }
}

/// Reads one quoted string body; `None` exactly where the text is not a
/// well-formed quoted string.
pub(crate) fn str_body_exec(cs: &Vec<char>, start: usize) -> (r: Option<(Vec<char>, usize)>)
    requires
        start <= cs@.len(),
    ensures
        match r {
            Some(p) => str_body(cs@, start as int) == Some((p.0@, p.1 as int)) && p.1 <= cs@.len(),
            None => str_body(cs@, start as int) is None,
        },
{
    let n: usize = cs.len();
    let mut i: usize = start;
    let mut acc: Vec<char> = Vec::new();
    loop
        invariant
            start <= i <= n,
            n == cs@.len(),
            (match str_body(cs@, i as int) {
                Some(p) => str_body(cs@, start as int) == Some((acc@ + p.0, p.1)),
                None => str_body(cs@, start as int) is None,
            }),
        decreases n - i,
    {
        if i >= n {
            return None;
        }
        let c = cs[i];
        if c == '"' {
            proof {
                assert(acc@ + Seq::<char>::empty() =~= acc@);
            }
            return Some((acc, i + 1));
        } else if c == '\\' {
            if n - i < 2 {
                return None;
            }
            let e = cs[i + 1];
            if e == 'u' {
                if n - i < 6 {
                    return None;
                }
                let h0 = hex_val_exec(cs[i + 2]);
                let h1 = hex_val_exec(cs[i + 3]);
                let h2 = hex_val_exec(cs[i + 4]);
                let h3 = hex_val_exec(cs[i + 5]);
                match (h0, h1, h2, h3) {
                    (Some(a), Some(b), Some(x), Some(y)) => {
                        let v: u32 = ((a as u32 * 16 + b as u32) * 16 + x as u32) * 16 + y as u32;
                        if v < 0xD800 || 0xE000 <= v {
                            let ghost prev = acc@;
                            match char_from_u32(v) {
                                Some(ch) => {
                                    acc.push(ch);
                                    proof {
                                        let p = str_body(cs@, i + 6)->0;
                                        if str_body(cs@, i + 6) is Some {
                                            assert(prev + (seq![ch] + p.0) =~= acc@ + p.0);
                                        }
                                    }
                                    i = i + 6;
                                },
                                None => {
                                    proof {
                                        assert(false);
                                    }
                                    return None;
                                },
                            }
                        } else {
                            return None;
                        }
                    },
                    _ => {
                        return None;
                    },
                }
            } else {
                let dec: Option<char> = if e == '"' {
                    Some('"')
                } else if e == '\\' {
                    Some('\\')
                } else if e == '/' {
                    Some('/')
                } else if e == 'n' {
                    Some('\n')
                } else if e == 't' {
                    Some('\t')
                } else if e == 'r' {
                    Some('\r')
                } else if e == 'b' {
                    Some('\u{0008}')
                } else if e == 'f' {
                    Some('\u{000C}')
                } else {
                    None
                };
                proof {
                    assert(dec == short_unescape(e));
                }
                match dec {
                    Some(ch) => {
                        let ghost prev = acc@;
                        acc.push(ch);
                        proof {
                            let p = str_body(cs@, i + 2)->0;
                            if str_body(cs@, i + 2) is Some {
                                assert(prev + (seq![ch] + p.0) =~= acc@ + p.0);
                            }
                        }
                        i = i + 2;
                    },
                    None => {
                        return None;
                    },
                }
            }
        } else if (c as u32) < 32 {
            return None;
        } else {
            let ghost prev = acc@;
            acc.push(c);
            proof {
                let p = str_body(cs@, i + 1)->0;
                if str_body(cs@, i + 1) is Some {
                    assert(prev + (seq![c] + p.0) =~= acc@ + p.0);
                }
            }
            i = i + 1;
        }
    }
}

// ---------------------------------------------------------------------------
// Skipping one value of any shape (for members this format does not know)
// ---------------------------------------------------------------------------

pub open spec fn is_num_char(c: char) -> bool {
    is_digit(c) || c == '-' || c == '+' || c == '.' || c == 'e' || c == 'E'
}

pub open spec fn num_end(s: Seq<char>, i: int) -> int
    decreases s.len() - i,
{
    if i < s.len() && is_num_char(s[i]) {
        num_end(s, i + 1)
    } else {
        i
    }
}

pub proof fn lemma_num_end(s: Seq<char>, i: int)
    requires
        0 <= i <= s.len(),
    ensures
        i <= num_end(s, i) <= s.len(),
    decreases s.len() - i,
{
    if i < s.len() && is_num_char(s[i]) {
        lemma_num_end(s, i + 1);
    }
}

fn num_end_exec(cs: &Vec<char>, i: usize) -> (r: usize)
    requires
        i <= cs@.len(),
    ensures
        r == num_end(cs@, i as int),
        i <= r <= cs@.len(),
{
    let n: usize = cs.len();
    let mut j: usize = i;
    while j < n && (digit_val_probe(cs[j]) || cs[j] == '-' || cs[j] == '+' || cs[j] == '.' || cs[j]
        == 'e' || cs[j] == 'E')
        invariant
            i <= j <= n,
            n == cs@.len(),
            num_end(cs@, i as int) == num_end(cs@, j as int),
        decreases n - j,
    {
        j = j + 1;
    }
    proof {
        lemma_num_end(cs@, i as int);
    }
    j
}

fn digit_val_probe(c: char) -> (r: bool)
    ensures
        r == is_digit(c),
{
    '0' <= c && c <= '9'
}

/// The position just past one value of any JSON shape, or `None` where the
/// text is not one.  `fuel` bounds the parsing work; the entry points hand
/// in more than any input can use up.
pub open spec fn skip_value(s: Seq<char>, i: int, fuel: nat) -> Option<int>
    decreases fuel,
{
    if fuel == 0 {
        None
    } else if i < 0 || i >= s.len() {
        None
    } else if s[i] == '"' {
        match str_body(s, i + 1) {
            Some(p) => Some(p.1),
            None => None,
        }
    } else if s[i] == 't' {
        if i + 4 <= s.len() && s[i + 1] == 'r' && s[i + 2] == 'u' && s[i + 3] == 'e' {
            Some(i + 4)
        } else {
            None
        }
    } else if s[i] == 'f' {
        if i + 5 <= s.len() && s[i + 1] == 'a' && s[i + 2] == 'l' && s[i + 3] == 's' && s[i + 4]
            == 'e' {
            Some(i + 5)
        } else {
            None
        }
    } else if s[i] == 'n' {
        if i + 4 <= s.len() && s[i + 1] == 'u' && s[i + 2] == 'l' && s[i + 3] == 'l' {
            Some(i + 4)
        } else {
            None
        }
    } else if s[i] == '[' {
        skip_array_items(s, ws_end(s, i + 1), (fuel - 1) as nat)
    } else if s[i] == '{' {
        skip_object_members(s, ws_end(s, i + 1), (fuel - 1) as nat)
    } else if is_num_char(s[i]) {
        Some(num_end(s, i))
    } else {
        None
    }
}

pub open spec fn skip_array_items(s: Seq<char>, i: int, fuel: nat) -> Option<int>
    decreases fuel,
{
    if fuel == 0 {
        None
    } else if i < 0 || i >= s.len() {
        None
    } else if s[i] == ']' {
        Some(i + 1)
    } else {
        match skip_value(s, i, (fuel - 1) as nat) {
            Some(j) => {
                let k = ws_end(s, j);
                if k < s.len() && s[k] == ',' {
                    skip_array_items(s, ws_end(s, k + 1), (fuel - 1) as nat)
                } else if k < s.len() && s[k] == ']' {
                    Some(k + 1)
                } else {
                    None
                }
            },
            None => None,
        }
    }
}

pub open spec fn skip_object_members(s: Seq<char>, i: int, fuel: nat) -> Option<int>
    decreases fuel,
{
    if fuel == 0 {
        None
    } else if i < 0 || i >= s.len() {
        None
    } else if s[i] == '}' {
        Some(i + 1)
    } else if s[i] == '"' {
        match str_body(s, i + 1) {
            Some(p) => {
                let k = ws_end(s, p.1);
                if k < s.len() && s[k] == ':' {
                    match skip_value(s, ws_end(s, k + 1), (fuel - 1) as nat) {
                        Some(j2) => {
                            let e = ws_end(s, j2);
                            if e < s.len() && s[e] == ',' {
                                skip_object_members(s, ws_end(s, e + 1), (fuel - 1) as nat)
                            } else if e < s.len() && s[e] == '}' {
                                Some(e + 1)
                            } else {
                                None
                            }
                        },
                        None => None,
                    }
                } else {
                    None
                }
            },
            None => None,
        }
    } else {
        None
    }
}

pub(crate) fn skip_value_exec(cs: &Vec<char>, i: usize, fuel: usize) -> (r: Option<usize>)
    requires
        i <= cs@.len(),
    ensures
        match r {
            Some(j) => skip_value(cs@, i as int, fuel as nat) == Some(j as int) && j
                <= cs@.len(),
            None => skip_value(cs@, i as int, fuel as nat) is None,
        },
    decreases fuel,
{
    let n: usize = cs.len();
    if fuel == 0 || i >= n {
        return None;
    }
    let c = cs[i];
    if c == '"' {
        match str_body_exec(cs, i + 1) {
            Some(p) => Some(p.1),
            None => None,
        }
    } else if c == 't' {
        if n - i >= 4 && cs[i + 1] == 'r' && cs[i + 2] == 'u' && cs[i + 3] == 'e' {
            Some(i + 4)
        } else {
            None
        }
    } else if c == 'f' {
        if n - i >= 5 && cs[i + 1] == 'a' && cs[i + 2] == 'l' && cs[i + 3] == 's' && cs[i + 4]
            == 'e' {
            Some(i + 5)
        } else {
            None
        }
    } else if c == 'n' {
        if n - i >= 4 && cs[i + 1] == 'u' && cs[i + 2] == 'l' && cs[i + 3] == 'l' {
            Some(i + 4)
        } else {
            None
        }
    } else if c == '[' {
        skip_array_items_exec(cs, skip_ws(cs, i + 1), fuel - 1)
    } else if c == '{' {
        skip_object_members_exec(cs, skip_ws(cs, i + 1), fuel - 1)
    } else if digit_val_probe(c) || c == '-' || c == '+' || c == '.' || c == 'e' || c == 'E' {
        Some(num_end_exec(cs, i))
    } else {
        None
    }
}

fn skip_array_items_exec(cs: &Vec<char>, i: usize, fuel: usize) -> (r: Option<usize>)
    requires
        i <= cs@.len(),
    ensures
        match r {
            Some(j) => skip_array_items(cs@, i as int, fuel as nat) == Some(j as int) && j
                <= cs@.len(),
            None => skip_array_items(cs@, i as int, fuel as nat) is None,
        },
    decreases fuel,
{
    let n: usize = cs.len();
    if fuel == 0 || i >= n {
        return None;
    }
    if cs[i] == ']' {
        return Some(i + 1);
    }
    match skip_value_exec(cs, i, fuel - 1) {
        Some(j) => {
            let k = skip_ws(cs, j);
            if k < n && cs[k] == ',' {
                skip_array_items_exec(cs, skip_ws(cs, k + 1), fuel - 1)
            } else if k < n && cs[k] == ']' {
                Some(k + 1)
            } else {
                None
            }
        },
        None => None,
    }
}

fn skip_object_members_exec(cs: &Vec<char>, i: usize, fuel: usize) -> (r: Option<usize>)
    requires
        i <= cs@.len(),
    ensures
        match r {
            Some(j) => skip_object_members(cs@, i as int, fuel as nat) == Some(j as int) && j
                <= cs@.len(),
            None => skip_object_members(cs@, i as int, fuel as nat) is None,
        },
    decreases fuel,
{
    let n: usize = cs.len();
    if fuel == 0 || i >= n {
        return None;
    }
    if cs[i] == '}' {
        return Some(i + 1);
    }
    if cs[i] != '"' {
        return None;
    }
    match str_body_exec(cs, i + 1) {
        Some(p) => {
            let k = skip_ws(cs, p.1);
            if k < n && cs[k] == ':' {
                match skip_value_exec(cs, skip_ws(cs, k + 1), fuel - 1) {
                    Some(j2) => {
                        let e = skip_ws(cs, j2);
                        if e < n && cs[e] == ',' {
                            skip_object_members_exec(cs, skip_ws(cs, e + 1), fuel - 1)
                        } else if e < n && cs[e] == '}' {
                            Some(e + 1)
                        } else {
                            None
                        }
                    },
                    None => None,
                }
            } else {
                None
            }
        },
        None => None,
    }
}

} // verus!
