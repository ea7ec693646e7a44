use vstd::prelude::*;

verus! {

/// The zone-offset suffix of a stored timestamp, kept as written so that a
/// loaded record can be written back without change.
#[derive(Debug, Clone, Copy, PartialEq, Eq, Structural)]
pub enum TzOffset {
    Zulu,
    Plus { hours: u8, minutes: u8 },
    Minus { hours: u8, minutes: u8 },
}

/// An absolute instant, stored as the civil fields of its textual form plus
/// the offset they were written in.  The instant itself is `epoch_of`.
#[derive(Debug, Clone, Copy, PartialEq, Eq, Structural)]
pub struct Timestamp {
    pub year: u16,
    pub month: u8,
    pub day: u8,
    pub hour: u8,
    pub minute: u8,
    pub second: u8,
    /// Number of fractional-second digits as written (0 = none).
    pub frac_len: u8,
    /// Value of the fractional digits, read as a plain integer.
    pub frac_val: u32,
    pub offset: TzOffset,
}

pub open spec fn pow10(n: int) -> int
    decreases n,
{
    if n <= 0 {
        1
    } else {
        10 * pow10(n - 1)
    }
}

pub open spec fn is_leap_year(y: int) -> bool {
    (y % 4 == 0 && y % 100 != 0) || y % 400 == 0
}

pub open spec fn days_in_month(y: int, m: int) -> int {
    if m == 2 {
        if is_leap_year(y) {
            29
        } else {
            28
        }
    } else if m == 4 || m == 6 || m == 9 || m == 11 {
        30
    } else {
        31
    }
}

/// Days in the proleptic Gregorian years `0 .. y`.
pub open spec fn days_before_year(y: int) -> int
    decreases y,
{
    if y <= 0 {
        0
    } else {
        days_before_year(y - 1) + if is_leap_year(y - 1) {
            366int
        } else {
            365int
        }
    }
}

/// Days in year `y` before the first of month `m`.
pub open spec fn days_before_month(y: int, m: int) -> int
    decreases m,
{
    if m <= 1 {
        0
    } else {
        days_before_month(y, m - 1) + days_in_month(y, m - 1)
    }
}

/// Day count of the civil date `y-m-d` from 0000-01-01.
pub open spec fn civil_days(y: int, m: int, d: int) -> int {
    days_before_year(y) + days_before_month(y, m) + d - 1
}

pub open spec fn offset_secs(o: TzOffset) -> int {
    match o {
        TzOffset::Zulu => 0,
        TzOffset::Plus { hours, minutes } => hours * 3600 + minutes * 60,
        TzOffset::Minus { hours, minutes } => -(hours * 3600 + minutes * 60),
    }
}

pub open spec fn offset_wf(o: TzOffset) -> bool {
    match o {
        TzOffset::Zulu => true,
        TzOffset::Plus { hours, minutes } => hours < 24 && minutes < 60,
        TzOffset::Minus { hours, minutes } => hours < 24 && minutes < 60,
    }
}

pub open spec fn ts_wf(t: Timestamp) -> bool {
    &&& t.year <= 9999
    &&& 1 <= t.month <= 12
    &&& 1 <= t.day <= days_in_month(t.year as int, t.month as int)
    &&& t.hour < 24
    &&& t.minute < 60
    &&& t.second < 60
    &&& t.frac_len <= 9
    &&& (t.frac_val as int) < pow10(t.frac_len as int)
    &&& offset_wf(t.offset)
}

/// Seconds since 1970-01-01T00:00:00Z of the instant the fields denote.
/// The fractional digits are below one second and do not take part.
pub open spec fn epoch_of(t: Timestamp) -> int {
    (civil_days(t.year as int, t.month as int, t.day as int) - civil_days(1970, 1, 1)) * 86400
        + t.hour * 3600 + t.minute * 60 + t.second - offset_secs(t.offset)
}

pub proof fn lemma_days_before_year_bounds(y: int)
    requires
        0 <= y,
    ensures
        365 * y <= days_before_year(y) <= 366 * y,
    decreases y,
{
    if y > 0 {
        lemma_days_before_year_bounds(y - 1);
    }
}

pub proof fn lemma_days_before_month_bounds(y: int, m: int)
    requires
        1 <= m <= 13,
    ensures
        0 <= days_before_month(y, m) <= 31 * (m - 1),
    decreases m,
{
    if m > 1 {
        lemma_days_before_month_bounds(y, m - 1);
    }
}

/// Every well-formed timestamp denotes an instant a formatter for the years
/// 0 through 9999 can take.
pub proof fn lemma_epoch_in_range(t: Timestamp)
    requires
        ts_wf(t),
    ensures
        -100_000_000_000 <= epoch_of(t) <= 400_000_000_000,
{
    lemma_days_before_year_bounds(t.year as int);
    lemma_days_before_year_bounds(1970);
    lemma_days_before_month_bounds(t.year as int, t.month as int);
    lemma_days_before_month_bounds(1970, 1);
}

fn is_leap_year_exec(y: u16) -> (r: bool)
    ensures
        r == is_leap_year(y as int),
{
    (y % 4 == 0 && y % 100 != 0) || y % 400 == 0
}

fn days_in_month_exec(y: u16, m: u8) -> (r: u8)
    requires
        1 <= m <= 12,
    ensures
        r == days_in_month(y as int, m as int),
{
    if m == 2 {
        if is_leap_year_exec(y) {
            29
        } else {
            28
        }
    } else if m == 4 || m == 6 || m == 9 || m == 11 {
        30
    } else {
        31
    }
}

fn days_before_year_exec(y: u16) -> (r: u32)
    requires
        y <= 10000,
    ensures
        r == days_before_year(y as int),
{
    let mut acc: u32 = 0;
    let mut i: u16 = 0;
    while i < y
        invariant
            i <= y,
            y <= 10000,
            acc == days_before_year(i as int),
            acc <= 366 * (i as u32),
        decreases y - i,
    {
        proof {
            lemma_days_before_year_bounds(i as int);
            lemma_days_before_year_bounds(i + 1);
        }
        if is_leap_year_exec(i) {
            acc = acc + 366;
        } else {
            acc = acc + 365;
        }
        i = i + 1;
    }
    acc
}

fn days_before_month_exec(y: u16, m: u8) -> (r: u16)
    requires
        1 <= m <= 13,
    ensures
        r == days_before_month(y as int, m as int),
{
    let mut acc: u16 = 0;
    let mut i: u8 = 1;
    while i < m
        invariant
            1 <= i <= m,
            m <= 13,
            acc == days_before_month(y as int, i as int),
            acc <= 372,
        decreases m - i,
    {
        proof {
            lemma_days_before_month_bounds(y as int, i as int);
            lemma_days_before_month_bounds(y as int, i + 1);
        }
        acc = acc + days_in_month_exec(y, i) as u16;
        i = i + 1;
    }
    acc
}

impl Timestamp {
    /// The instant as seconds since the Unix epoch.
    pub fn epoch_seconds(&self) -> (r: i64)
        requires
            ts_wf(*self),
        ensures
            r == epoch_of(*self),
    {
        proof {
            lemma_days_before_year_bounds(self.year as int);
            lemma_days_before_year_bounds(1970);
            lemma_days_before_month_bounds(self.year as int, self.month as int);
            lemma_days_before_month_bounds(1970, 1);
        }
        let own_days: i64 = days_before_year_exec(self.year) as i64 + days_before_month_exec(
            self.year,
            self.month,
        ) as i64 + self.day as i64 - 1;
        let epoch_days: i64 = days_before_year_exec(1970) as i64;
        let tod: i64 = self.hour as i64 * 3600 + self.minute as i64 * 60 + self.second as i64;
        let off: i64 = match self.offset {
            TzOffset::Zulu => 0,
            TzOffset::Plus { hours, minutes } => hours as i64 * 3600 + minutes as i64 * 60,
            TzOffset::Minus { hours, minutes } => -(hours as i64 * 3600 + minutes as i64 * 60),
        };
        (own_days - epoch_days) * 86400 + tod - off
    }
}


// ---------------------------------------------------------------------------
// Textual form: `YYYY-MM-DDTHH:MM:SS`, optional `.` plus fraction digits,
// then `Z` or a signed `HH:MM` offset.
// ---------------------------------------------------------------------------

pub open spec fn digit_char(d: int) -> char {
    if d == 0 {
        '0'
    } else if d == 1 {
        '1'
    } else if d == 2 {
        '2'
    } else if d == 3 {
        '3'
    } else if d == 4 {
        '4'
    } else if d == 5 {
        '5'
    } else if d == 6 {
        '6'
    } else if d == 7 {
        '7'
    } else if d == 8 {
        '8'
    } else {
        '9'
    }
}

/// The value of a decimal digit character, or -1 for any other character.
pub open spec fn digit_val(c: char) -> int {
    if c == '0' {
        0
    } else if c == '1' {
        1
    } else if c == '2' {
        2
    } else if c == '3' {
        3
    } else if c == '4' {
        4
    } else if c == '5' {
        5
    } else if c == '6' {
        6
    } else if c == '7' {
        7
    } else if c == '8' {
        8
    } else if c == '9' {
        9
    } else {
        -1
    }
}

pub open spec fn is_digit(c: char) -> bool {
    digit_val(c) >= 0
}

pub proof fn lemma_digit_char(d: int)
    requires
        0 <= d <= 9,
    ensures
        is_digit(digit_char(d)),
        digit_val(digit_char(d)) == d,
{
}

/// Two decimal digits, most significant first.
pub open spec fn pad2(n: int) -> Seq<char> {
    seq![digit_char(n / 10), digit_char(n % 10)]
}

pub open spec fn pad4(n: int) -> Seq<char> {
    pad2(n / 100) + pad2(n % 100)
}

/// `val` written with exactly `len` decimal digits, leading zeroes kept.
pub open spec fn frac_str(len: int, val: int) -> Seq<char>
    decreases len,
{
    if len <= 0 {
        Seq::empty()
    } else {
        frac_str(len - 1, val / 10).push(digit_char(val % 10))
    }
}

pub open spec fn offset_str(o: TzOffset) -> Seq<char> {
    match o {
        TzOffset::Zulu => seq!['Z'],
        TzOffset::Plus { hours, minutes } => seq!['+'] + pad2(hours as int) + seq![':'] + pad2(
            minutes as int,
        ),
        TzOffset::Minus { hours, minutes } => seq!['-'] + pad2(hours as int) + seq![':'] + pad2(
            minutes as int,
        ),
    }
}

/// The canonical written form of a timestamp.
pub open spec fn ts_str(t: Timestamp) -> Seq<char> {
    pad4(t.year as int) + seq!['-'] + pad2(t.month as int) + seq!['-'] + pad2(t.day as int)
        + seq!['T'] + pad2(t.hour as int) + seq![':'] + pad2(t.minute as int) + seq![':'] + pad2(
        t.second as int,
    ) + (if t.frac_len == 0 {
        Seq::<char>::empty()
    } else {
        seq!['.'] + frac_str(t.frac_len as int, t.frac_val as int)
    }) + offset_str(t.offset)
}

// ---------------------------------------------------------------------------
// Parsing
// ---------------------------------------------------------------------------

pub open spec fn all_digits(s: Seq<char>, i: int, j: int) -> bool {
    forall|k: int| i <= k < j ==> is_digit(#[trigger] s[k])
}

pub open spec fn d2v(s: Seq<char>, i: int) -> int {
    digit_val(s[i]) * 10 + digit_val(s[i + 1])
}

pub open spec fn d4v(s: Seq<char>, i: int) -> int {
    d2v(s, i) * 100 + d2v(s, i + 2)
}

/// The first position at or after `i` that does not hold a digit.
pub open spec fn digits_end(s: Seq<char>, i: int) -> int
    decreases s.len() - i,
{
    if i < s.len() && is_digit(s[i]) {
        digits_end(s, i + 1)
    } else {
        i
    }
}

/// The decimal value of the digits at positions `i ..= j-1`.
pub open spec fn digits_val(s: Seq<char>, i: int, j: int) -> int
    decreases j - i,
{
    if j <= i {
        0
    } else {
        digits_val(s, i, j - 1) * 10 + digit_val(s[j - 1])
    }
}

pub open spec fn parse_offset(s: Seq<char>, p: int) -> Option<TzOffset> {
    if p < 0 || p >= s.len() {
        None
    } else if s[p] == 'Z' {
        if p + 1 == s.len() {
            Some(TzOffset::Zulu)
        } else {
            None
        }
    } else if (s[p] == '+' || s[p] == '-') && p + 6 == s.len() && all_digits(s, p + 1, p + 3)
        && s[p + 3] == ':' && all_digits(s, p + 4, p + 6) {
        let h: int = d2v(s, p + 1);
        let m: int = d2v(s, p + 4);
        if h < 24 && m < 60 {
            if s[p] == '+' {
                Some(TzOffset::Plus { hours: h as u8, minutes: m as u8 })
            } else {
                Some(TzOffset::Minus { hours: h as u8, minutes: m as u8 })
            }
        } else {
            None
        }
    } else {
        None
    }
}

pub open spec fn ts_shape_ok(s: Seq<char>) -> bool {
    &&& all_digits(s, 0, 4)
    &&& s[4] == '-'
    &&& all_digits(s, 5, 7)
    &&& s[7] == '-'
    &&& all_digits(s, 8, 10)
    &&& s[10] == 'T'
    &&& all_digits(s, 11, 13)
    &&& s[13] == ':'
    &&& all_digits(s, 14, 16)
    &&& s[16] == ':'
    &&& all_digits(s, 17, 19)
}

/// What a stored timestamp string means; `None` when it is not one.
pub open spec fn parse_ts(s: Seq<char>) -> Option<Timestamp> {
    if s.len() < 20 || !ts_shape_ok(s) {
        None
    } else {
        let year: int = d4v(s, 0);
        let month: int = d2v(s, 5);
        let day: int = d2v(s, 8);
        let hour: int = d2v(s, 11);
        let minute: int = d2v(s, 14);
        let second: int = d2v(s, 17);
        let has_frac: bool = s[19] == '.';
        let fe: int = if has_frac {
            digits_end(s, 20)
        } else {
            19
        };
        let flen: int = if has_frac {
            fe - 20
        } else {
            0
        };
        let fval: int = if has_frac {
            digits_val(s, 20, fe)
        } else {
            0
        };
        if has_frac && flen < 1 {
            None
        } else if flen > 9 {
            None
        } else if !(1 <= month <= 12 && 1 <= day <= days_in_month(year, month) && hour < 24
            && minute < 60 && second < 60) {
            None
        } else {
            match parse_offset(s, fe) {
                Some(o) => Some(
                    Timestamp {
                        year: year as u16,
                        month: month as u8,
                        day: day as u8,
                        hour: hour as u8,
                        minute: minute as u8,
                        second: second as u8,
                        frac_len: flen as u8,
                        frac_val: fval as u32,
                        offset: o,
                    },
                ),
                None => None,
            }
        }
    }
}

pub proof fn lemma_digits_end_props(s: Seq<char>, i: int)
    requires
        0 <= i <= s.len(),
    ensures
        i <= digits_end(s, i) <= s.len(),
        all_digits(s, i, digits_end(s, i)),
        digits_end(s, i) == s.len() || !is_digit(s[digits_end(s, i)]),
    decreases s.len() - i,
{
    if i < s.len() && is_digit(s[i]) {
        lemma_digits_end_props(s, i + 1);
    }
}

/// Scanning digits cannot stop before a known digit region ends.
pub proof fn lemma_digits_end_of_region(s: Seq<char>, i: int, j: int)
    requires
        0 <= i <= j <= s.len(),
        all_digits(s, i, j),
        j == s.len() || !is_digit(s[j]),
    ensures
        digits_end(s, i) == j,
    decreases j - i,
{
    if i < j {
        assert(is_digit(s[i]));
        lemma_digits_end_of_region(s, i + 1, j);
    }
}

pub proof fn lemma_digits_val_bound(s: Seq<char>, i: int, j: int)
    requires
        0 <= i <= j <= s.len(),
        all_digits(s, i, j),
    ensures
        0 <= digits_val(s, i, j) < pow10(j - i),
    decreases j - i,
{
    if i < j {
        lemma_digits_val_bound(s, i, j - 1);
        assert(is_digit(s[j - 1]));
        assert(digit_val(s[j - 1]) <= 9);
        assert(digits_val(s, i, j - 1) <= pow10(j - 1 - i) - 1);
        assert(pow10(j - i) == 10 * pow10(j - i - 1));
    }
}

pub proof fn lemma_pow10_pos(n: int)
    ensures
        pow10(n) >= 1,
    decreases n,
{
    if n > 0 {
        lemma_pow10_pos(n - 1);
    }
}

/// A parsed timestamp is well formed.
pub proof fn lemma_parse_ts_wf(s: Seq<char>)
    requires
        parse_ts(s) is Some,
    ensures
        ts_wf(parse_ts(s)->0),
{
    let t = parse_ts(s)->0;
    assert(s.len() >= 20 && ts_shape_ok(s));
    assert(is_digit(s[0]) && is_digit(s[1]) && is_digit(s[2]) && is_digit(s[3]));
    assert(is_digit(s[5]) && is_digit(s[6]));
    assert(is_digit(s[8]) && is_digit(s[9]));
    assert(is_digit(s[11]) && is_digit(s[12]));
    assert(is_digit(s[14]) && is_digit(s[15]));
    assert(is_digit(s[17]) && is_digit(s[18]));
    if s[19] == '.' {
        lemma_digits_end_props(s, 20);
        let fe = digits_end(s, 20);
        lemma_digits_val_bound(s, 20, fe);
    }
    let fe: int = if s[19] == '.' { digits_end(s, 20) } else { 19 };
    let o = parse_offset(s, fe)->0;
    if s[fe] == 'Z' {
        assert(offset_wf(o));
    } else {
        assert(is_digit(s[fe + 1]) && is_digit(s[fe + 2]));
        assert(is_digit(s[fe + 4]) && is_digit(s[fe + 5]));
        assert(offset_wf(o));
    }
}

// ---------------------------------------------------------------------------
// Executable formatting and parsing
// ---------------------------------------------------------------------------

fn digit_char_exec(d: u8) -> (c: char)
    requires
        d <= 9,
    ensures
        c == digit_char(d as int),
{
    if d == 0 {
        '0'
    } else if d == 1 {
        '1'
    } else if d == 2 {
        '2'
    } else if d == 3 {
        '3'
    } else if d == 4 {
        '4'
    } else if d == 5 {
        '5'
    } else if d == 6 {
        '6'
    } else if d == 7 {
        '7'
    } else if d == 8 {
        '8'
    } else {
        '9'
    }
}

fn digit_val_exec(c: char) -> (r: Option<u8>)
    ensures
        r is Some <==> is_digit(c),
        r matches Some(v) ==> v == digit_val(c) && v <= 9,
{
    if c == '0' {
        Some(0)
    } else if c == '1' {
        Some(1)
    } else if c == '2' {
        Some(2)
    } else if c == '3' {
        Some(3)
    } else if c == '4' {
        Some(4)
    } else if c == '5' {
        Some(5)
    } else if c == '6' {
        Some(6)
    } else if c == '7' {
        Some(7)
    } else if c == '8' {
        Some(8)
    } else if c == '9' {
        Some(9)
    } else {
        None
    }
}

fn push2(out: &mut Vec<char>, n: u8)
    requires
        n < 100,
    ensures
        final(out)@ == old(out)@ + pad2(n as int),
{
    out.push(digit_char_exec(n / 10));
    out.push(digit_char_exec(n % 10));
    proof {
        assert(out@ =~= old(out)@ + pad2(n as int));
    }
}

fn push4(out: &mut Vec<char>, n: u16)
    requires
        n < 10000,
    ensures
        final(out)@ == old(out)@ + pad4(n as int),
{
    push2(out, (n / 100) as u8);
    push2(out, (n % 100) as u8);
    proof {
        assert(out@ =~= old(out)@ + pad4(n as int));
    }
}

fn push_frac(out: &mut Vec<char>, len: u8, val: u32)
    requires
        len <= 9,
        (val as int) < pow10(len as int),
    ensures
        final(out)@ == old(out)@ + frac_str(len as int, val as int),
    decreases len,
{
    if len > 0 {
        proof {
            assert(pow10(len as int) == 10 * pow10(len as int - 1));
            assert((val as int) / 10 < pow10(len as int - 1)) by (nonlinear_arith)
                requires
                    (val as int) < 10 * pow10(len as int - 1),
                    0 <= val as int,
            ;
        }
        push_frac(out, len - 1, val / 10);
        out.push(digit_char_exec((val % 10) as u8));
        proof {
            assert(out@ =~= old(out)@ + frac_str(len as int, val as int));
        }
    } else {
        proof {
            assert(out@ =~= old(out)@ + frac_str(len as int, val as int));
        }
    }
}

/// The canonical written form of the timestamp, as characters.
pub fn format_ts(t: &Timestamp) -> (r: Vec<char>)
    requires
        ts_wf(*t),
    ensures
        r@ == ts_str(*t),
{
    let mut out: Vec<char> = Vec::new();
    push4(&mut out, t.year);
    out.push('-');
    push2(&mut out, t.month);
    out.push('-');
    push2(&mut out, t.day);
    out.push('T');
    push2(&mut out, t.hour);
    out.push(':');
    push2(&mut out, t.minute);
    out.push(':');
    push2(&mut out, t.second);
    if t.frac_len > 0 {
        out.push('.');
        push_frac(&mut out, t.frac_len, t.frac_val);
    }
    match t.offset {
        TzOffset::Zulu => {
            out.push('Z');
        },
        TzOffset::Plus { hours, minutes } => {
            out.push('+');
            push2(&mut out, hours);
            out.push(':');
            push2(&mut out, minutes);
        },
        TzOffset::Minus { hours, minutes } => {
            out.push('-');
            push2(&mut out, hours);
            out.push(':');
            push2(&mut out, minutes);
        },
    }
    proof {
        assert(out@ =~= ts_str(*t));
    }
    out
}

fn read2(cs: &Vec<char>, i: usize) -> (r: Option<u8>)
    requires
        i + 2 <= cs@.len(),
    ensures
        r is Some <==> (is_digit(cs@[i as int]) && is_digit(cs@[i as int + 1])),
        r matches Some(v) ==> v == d2v(cs@, i as int) && v < 100,
{
    let n: usize = cs.len();
    let a = digit_val_exec(cs[i]);
    let b = digit_val_exec(cs[i + 1]);
    match (a, b) {
        (Some(x), Some(y)) => Some(x * 10 + y),
        _ => None,
    }
}

fn read4(cs: &Vec<char>, i: usize) -> (r: Option<u16>)
    requires
        i + 4 <= cs@.len(),
    ensures
        r is Some <==> all_digits(cs@, i as int, i as int + 4),
        r matches Some(v) ==> v == d4v(cs@, i as int) && v < 10000,
{
    let n: usize = cs.len();
    let a = read2(cs, i);
    let b = read2(cs, i + 2);
    match (a, b) {
        (Some(x), Some(y)) => {
            proof {
                assert forall|k: int| i <= k < i + 4 implies is_digit(#[trigger] cs@[k]) by {
                    if k < i + 2 {
                        assert(is_digit(cs@[i as int]) && is_digit(cs@[i as int + 1]));
                    } else {
                        assert(is_digit(cs@[i as int + 2]) && is_digit(cs@[i as int + 3]));
                    }
                }
            }
            Some(x as u16 * 100 + y as u16)
        },
        _ => {
            proof {
                if all_digits(cs@, i as int, i as int + 4) {
                    assert(is_digit(cs@[i as int]) && is_digit(cs@[i as int + 1]));
                    assert(is_digit(cs@[i as int + 2]) && is_digit(cs@[i as int + 3]));
                }
            }
            None
        },
    }
}

/// Reads the written form back into a timestamp; `None` exactly where the
/// characters are not a well-formed timestamp string.
pub fn parse_ts_chars(cs: &Vec<char>) -> (r: Option<Timestamp>)
    ensures
        r == parse_ts(cs@),
        r matches Some(t) ==> ts_wf(t),
{
    proof {
        if parse_ts(cs@) is Some {
            lemma_parse_ts_wf(cs@);
        }
    }
    let n: usize = cs.len();
    if n < 20 {
        return None;
    }
    let year = match read4(cs, 0) {
        Some(v) => v,
        None => {
            return None;
        },
    };
    if !(cs[4] == '-' && cs[7] == '-' && cs[10] == 'T' && cs[13] == ':' && cs[16] == ':') {
        return None;
    }
    let month = match read2(cs, 5) {
        Some(v) => v,
        None => {
            return None;
        },
    };
    let day = match read2(cs, 8) {
        Some(v) => v,
        None => {
            return None;
        },
    };
    let hour = match read2(cs, 11) {
        Some(v) => v,
        None => {
            return None;
        },
    };
    let minute = match read2(cs, 14) {
        Some(v) => v,
        None => {
            return None;
        },
    };
    let second = match read2(cs, 17) {
        Some(v) => v,
        None => {
            return None;
        },
    };
    let has_frac: bool = cs[19] == '.';
    let mut fe: usize = 19;
    let mut frac_len: u8 = 0;
    let mut frac_val: u32 = 0;
    if has_frac {
        fe = 20;
        loop
            invariant_except_break
                20 <= fe <= n,
                n == cs@.len(),
                all_digits(cs@, 20, fe as int),
            ensures
                20 <= fe <= n,
                all_digits(cs@, 20, fe as int),
                fe == n || !is_digit(cs@[fe as int]),
            decreases n - fe,
        {
            if fe < n {
                match digit_val_exec(cs[fe]) {
                    Some(_) => {
                        proof {
                            assert forall|k: int| 20 <= k < fe + 1 implies is_digit(
                                #[trigger] cs@[k],
                            ) by {}
                        }
                        fe = fe + 1;
                    },
                    None => {
                        break ;
                    },
                }
            } else {
                break ;
            }
        }
        proof {
            lemma_digits_end_of_region(cs@, 20, fe as int);
        }
        if fe == 20 {
            return None;
        }
        if fe - 20 > 9 {
            return None;
        }
        frac_len = (fe - 20) as u8;
        let mut j: usize = 20;
        proof {
            assert(pow10(0) == 1);
            assert(pow10(1) == 10);
            assert(pow10(2) == 100);
            assert(pow10(3) == 1000);
            assert(pow10(4) == 10000);
            assert(pow10(5) == 100000);
            assert(pow10(6) == 1000000);
            assert(pow10(7) == 10000000);
            assert(pow10(8) == 100000000);
            assert(pow10(9) == 1000000000);
        }
        while j < fe
            invariant
                20 <= j <= fe <= n,
                fe - 20 <= 9,
                n == cs@.len(),
                all_digits(cs@, 20, fe as int),
                frac_val == digits_val(cs@, 20, j as int),
                (frac_val as int) < pow10(j as int - 20),
                pow10(9) == 1000000000,
                pow10(j as int - 20) <= pow10(9),
            decreases fe - j,
        {
            let d = match digit_val_exec(cs[j]) {
                Some(v) => v,
                None => {
                    proof {
                        assert(is_digit(cs@[j as int]));
                    }
                    unreached()
                },
            };
            proof {
                assert(pow10(j as int - 20 + 1) == 10 * pow10(j as int - 20));
                assert(pow10(j as int + 1 - 20) <= pow10(9)) by {
                    lemma_pow10_mono(j as int + 1 - 20, 9);
                };
            }
            frac_val = frac_val * 10 + d as u32;
            j = j + 1;
        }
    }
    if !(1 <= month && month <= 12) {
        return None;
    }
    if !(1 <= day && day <= days_in_month_exec(year, month)) {
        return None;
    }
    if !(hour < 24 && minute < 60 && second < 60) {
        return None;
    }
    let off: TzOffset;
    if fe >= n {
        return None;
    }
    if cs[fe] == 'Z' {
        if fe + 1 != n {
            return None;
        }
        off = TzOffset::Zulu;
    } else if cs[fe] == '+' || cs[fe] == '-' {
        if !(fe + 6 == n) {
            return None;
        }
        let oh = match read2(cs, fe + 1) {
            Some(v) => v,
            None => {
                return None;
            },
        };
        if cs[fe + 3] != ':' {
            return None;
        }
        let om = match read2(cs, fe + 4) {
            Some(v) => v,
            None => {
                return None;
            },
        };
        if !(oh < 24 && om < 60) {
            return None;
        }
        if cs[fe] == '+' {
            off = TzOffset::Plus { hours: oh, minutes: om };
        } else {
            off = TzOffset::Minus { hours: oh, minutes: om };
        }
    } else {
        return None;
    }
    Some(
        Timestamp {
            year,
            month,
            day,
            hour,
            minute,
            second,
            frac_len,
            frac_val,
            offset: off,
        },
    )
}

pub proof fn lemma_pow10_mono(a: int, b: int)
    requires
        a <= b,
    ensures
        pow10(a) <= pow10(b),
    decreases b - a,
{
    lemma_pow10_pos(a);
    if a < b {
        lemma_pow10_mono(a, b - 1);
        lemma_pow10_pos(b - 1);
    }
}

// ---------------------------------------------------------------------------
// Writing a well-formed timestamp and reading it back gives the same fields.
// ---------------------------------------------------------------------------

pub proof fn lemma_frac_str_len(len: int, val: int)
    ensures
        frac_str(len, val).len() == if len <= 0 {
            0int
        } else {
            len
        },
    decreases len,
{
    if len > 0 {
        lemma_frac_str_len(len - 1, val / 10);
    }
}

/// Digits written by `frac_str` read back as the same value.
pub proof fn lemma_frac_digits(s: Seq<char>, i: int, len: int, val: int)
    requires
        0 <= len,
        0 <= val < pow10(len),
        0 <= i,
        i + len <= s.len(),
        forall|k: int| 0 <= k < len ==> s[i + k] == frac_str(len, val)[k],
    ensures
        all_digits(s, i, i + len),
        digits_val(s, i, i + len) == val,
    decreases len,
{
    lemma_frac_str_len(len, val);
    if len == 0 {
        assert(digits_val(s, i, i) == 0);
    } else {
        assert(pow10(len) == 10 * pow10(len - 1));
        assert(val / 10 < pow10(len - 1)) by (nonlinear_arith)
            requires
                val < 10 * pow10(len - 1),
                0 <= val,
        ;
        lemma_frac_str_len(len - 1, val / 10);
        assert forall|k: int| 0 <= k < len - 1 implies s[i + k] == #[trigger] frac_str(len - 1, val / 10)[k] by {
            assert(s[i + k] == frac_str(len, val)[k]);
        }
        lemma_frac_digits(s, i, len - 1, val / 10);
        assert(s[i + (len - 1)] == frac_str(len, val)[len - 1]);
        assert(frac_str(len, val)[len - 1] == digit_char(val % 10));
        lemma_digit_char(val % 10);
        assert forall|k: int| i <= k < i + len implies is_digit(#[trigger] s[k]) by {
            if k < i + len - 1 {
                assert(is_digit(s[k]));
            } else {
                assert(s[k] == digit_char(val % 10));
            }
        }
        assert(digits_val(s, i, i + len) == digits_val(s, i, i + len - 1) * 10 + digit_val(
            s[i + len - 1],
        ));
    }
}

/// A well-formed timestamp survives being written and read back.
#[verifier::rlimit(100)]
pub proof fn lemma_ts_roundtrip(t: Timestamp)
    requires
        ts_wf(t),
    ensures
        parse_ts(ts_str(t)) == Some(t),
{
    let y: int = t.year as int;
    let mo: int = t.month as int;
    let d: int = t.day as int;
    let h: int = t.hour as int;
    let mi: int = t.minute as int;
    let sec: int = t.second as int;
    let flen: int = t.frac_len as int;
    let fval: int = t.frac_val as int;
    let head = pad4(y) + seq!['-'] + pad2(mo) + seq!['-'] + pad2(d) + seq!['T'] + pad2(h)
        + seq![':'] + pad2(mi) + seq![':'] + pad2(sec);
    let fracpart = if t.frac_len == 0 {
        Seq::<char>::empty()
    } else {
        seq!['.'] + frac_str(flen, fval)
    };
    let off = offset_str(t.offset);
    let s = ts_str(t);
    assert(s =~= head + fracpart + off);
    lemma_frac_str_len(flen, fval);
    assert(head.len() == 19);
    let fraclen: int = if t.frac_len == 0 {
        0int
    } else {
        1 + flen
    };
    assert(fracpart.len() == fraclen);
    let offlen: int = off.len() as int;
    assert(match t.offset {
        TzOffset::Zulu => offlen == 1,
        TzOffset::Plus { .. } => offlen == 6,
        TzOffset::Minus { .. } => offlen == 6,
    });
    assert(s.len() == 19 + fraclen + offlen);

    // The first nineteen characters.
    assert(0 <= y / 100 <= 99 && 0 <= y % 100 <= 99);
    lemma_digit_char((y / 100) / 10);
    lemma_digit_char((y / 100) % 10);
    lemma_digit_char((y % 100) / 10);
    lemma_digit_char((y % 100) % 10);
    lemma_digit_char(mo / 10);
    lemma_digit_char(mo % 10);
    lemma_digit_char(d / 10);
    lemma_digit_char(d % 10);
    lemma_digit_char(h / 10);
    lemma_digit_char(h % 10);
    lemma_digit_char(mi / 10);
    lemma_digit_char(mi % 10);
    lemma_digit_char(sec / 10);
    lemma_digit_char(sec % 10);
    assert(s[0] == digit_char((y / 100) / 10));
    assert(s[1] == digit_char((y / 100) % 10));
    assert(s[2] == digit_char((y % 100) / 10));
    assert(s[3] == digit_char((y % 100) % 10));
    assert(s[4] == '-');
    assert(s[5] == digit_char(mo / 10));
    assert(s[6] == digit_char(mo % 10));
    assert(s[7] == '-');
    assert(s[8] == digit_char(d / 10));
    assert(s[9] == digit_char(d % 10));
    assert(s[10] == 'T');
    assert(s[11] == digit_char(h / 10));
    assert(s[12] == digit_char(h % 10));
    assert(s[13] == ':');
    assert(s[14] == digit_char(mi / 10));
    assert(s[15] == digit_char(mi % 10));
    assert(s[16] == ':');
    assert(s[17] == digit_char(sec / 10));
    assert(s[18] == digit_char(sec % 10));
    assert(ts_shape_ok(s));
    assert(d2v(s, 0) == y / 100);
    assert(d2v(s, 2) == y % 100);
    assert(d4v(s, 0) == y);
    assert(d2v(s, 5) == mo);
    assert(d2v(s, 8) == d);
    assert(d2v(s, 11) == h);
    assert(d2v(s, 14) == mi);
    assert(d2v(s, 17) == sec);

    // The offset characters are not digits, and start with 'Z', '+' or '-'.
    let fe: int = 19 + fraclen;
    assert(s[fe] == off[0]);
    assert(match t.offset {
        TzOffset::Zulu => off[0] == 'Z',
        TzOffset::Plus { .. } => off[0] == '+',
        TzOffset::Minus { .. } => off[0] == '-',
    });
    assert(!is_digit(s[fe]));

    // Fraction handling.
    if t.frac_len == 0 {
        assert(s[19] == off[0]);
        assert(s[19] != '.');
    } else {
        assert(s[19] == '.');
        assert forall|k: int| 0 <= k < flen implies s[20 + k] == #[trigger] frac_str(flen, fval)[k] by {
            assert(fracpart[1 + k] == frac_str(flen, fval)[k]);
        }
        lemma_frac_digits(s, 20, flen, fval);
        lemma_digits_end_of_region(s, 20, 20 + flen);
        assert(digits_end(s, 20) == fe);
        assert(digits_val(s, 20, fe) == fval);
    }

    // Offset parsing.
    match t.offset {
        TzOffset::Zulu => {
            assert(parse_offset(s, fe) == Some(t.offset));
        },
        TzOffset::Plus { hours, minutes } => {
            lemma_digit_char(hours as int / 10);
            lemma_digit_char(hours as int % 10);
            lemma_digit_char(minutes as int / 10);
            lemma_digit_char(minutes as int % 10);
            assert(s[fe + 1] == digit_char(hours as int / 10));
            assert(s[fe + 2] == digit_char(hours as int % 10));
            assert(s[fe + 3] == ':');
            assert(s[fe + 4] == digit_char(minutes as int / 10));
            assert(s[fe + 5] == digit_char(minutes as int % 10));
            assert(all_digits(s, fe + 1, fe + 3)) by {
                assert(is_digit(s[fe + 1]) && is_digit(s[fe + 2]));
            }
            assert(all_digits(s, fe + 4, fe + 6)) by {
                assert(is_digit(s[fe + 4]) && is_digit(s[fe + 5]));
            }
            assert(d2v(s, fe + 1) == hours as int);
            assert(d2v(s, fe + 4) == minutes as int);
            assert(parse_offset(s, fe) == Some(t.offset));
        },
        TzOffset::Minus { hours, minutes } => {
            lemma_digit_char(hours as int / 10);
            lemma_digit_char(hours as int % 10);
            lemma_digit_char(minutes as int / 10);
            lemma_digit_char(minutes as int % 10);
            assert(s[fe + 1] == digit_char(hours as int / 10));
            assert(s[fe + 2] == digit_char(hours as int % 10));
            assert(s[fe + 3] == ':');
            assert(s[fe + 4] == digit_char(minutes as int / 10));
            assert(s[fe + 5] == digit_char(minutes as int % 10));
            assert(all_digits(s, fe + 1, fe + 3)) by {
                assert(is_digit(s[fe + 1]) && is_digit(s[fe + 2]));
            }
            assert(all_digits(s, fe + 4, fe + 6)) by {
                assert(is_digit(s[fe + 4]) && is_digit(s[fe + 5]));
            }
            assert(d2v(s, fe + 1) == hours as int);
            assert(d2v(s, fe + 4) == minutes as int);
            assert(parse_offset(s, fe) == Some(t.offset));
        },
    }
    assert(parse_ts(s) == Some(t));
}

} // verus!
