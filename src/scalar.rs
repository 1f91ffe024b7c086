//! The encoding of the two scalar kinds that the task file holds: quoted,
//! escaped strings and unsigned decimal integers, each with its parser.
use vstd::prelude::*;

verus! {

pub open spec fn is_digit(c: char) -> bool {
    '0' <= c && c <= '9'
}

pub open spec fn digit_val(c: char) -> nat {
    (c as u32 - 48) as nat
}

/// The character of a decimal digit `d < 10`.
pub open spec fn dec_char(d: nat) -> char {
    ((d + 48) as u8) as char
}

/// The decimal digits of `n`, most significant first, with no leading zero.
pub open spec fn digits(n: nat) -> Seq<char>
    decreases n,
{
    if n < 10 {
        seq![dec_char(n)]
    } else {
        digits(n / 10).push(dec_char(n % 10))
    }
}

/// The number that a string of decimal digits denotes.
pub open spec fn digits_val(ds: Seq<char>) -> nat
    decreases ds.len(),
{
    if ds.len() == 0 {
        0
    } else {
        digits_val(ds.drop_last()) * 10 + digit_val(ds.last())
    }
}

/// A lower-case hexadecimal digit for `n < 16`.
pub open spec fn hex_char(n: nat) -> char {
    if n < 10 {
        ((n + 48) as u8) as char
    } else {
        ((n + 87) as u8) as char
    }
}

pub open spec fn is_hex(c: char) -> bool {
    ('0' <= c && c <= '9') || ('a' <= c && c <= 'f')
}

pub open spec fn hex_val(c: char) -> nat {
    if c <= '9' {
        (c as u32 - 48) as nat
    } else {
        (c as u32 - 87) as nat
    }
}

/// The control characters that have a one-letter escape.
pub open spec fn is_short(c: char) -> bool {
    c == '\u{8}' || c == '\t' || c == '\n' || c == '\u{c}' || c == '\r'
}

/// The letter that escapes a character of `is_short`.
pub open spec fn short_letter(c: char) -> char {
    if c == '\u{8}' {
        'b'
    } else if c == '\t' {
        't'
    } else if c == '\n' {
        'n'
    } else if c == '\u{c}' {
        'f'
    } else {
        'r'
    }
}

pub open spec fn is_short_letter(e: char) -> bool {
    e == 'b' || e == 't' || e == 'n' || e == 'f' || e == 'r'
}

/// The character that a one-letter escape stands for.
pub open spec fn unshort(e: char) -> char {
    if e == 'b' {
        '\u{8}'
    } else if e == 't' {
        '\t'
    } else if e == 'n' {
        '\n'
    } else if e == 'f' {
        '\u{c}'
    } else {
        '\r'
    }
}

/// How one character of a string value is written between the quotes:
/// the quote and the backslash are escaped by a backslash, backspace, tab,
/// line feed, form feed and carriage return by their one-letter escapes, the
/// other control characters as `\u00XX` in lower-case hexadecimal, and
/// everything else stands as it is.
pub open spec fn esc_char(c: char) -> Seq<char> {
    if c == '"' {
        seq!['\\', '"']
    } else if c == '\\' {
        seq!['\\', '\\']
    } else if is_short(c) {
        seq!['\\', short_letter(c)]
    } else if (c as u32) < 32 {
        seq!['\\', 'u', '0', '0', hex_char((c as u32) as nat / 16), hex_char((c as u32) as nat % 16)]
    } else {
        seq![c]
    }
}

/// The escaped form of a whole string value.
pub open spec fn esc(s: Seq<char>) -> Seq<char>
    decreases s.len(),
{
    if s.len() == 0 {
        Seq::empty()
    } else {
        esc_char(s[0]) + esc(s.drop_first())
    }
}

/// A string value as it is written: escaped and between double quotes.
pub open spec fn quoted(s: Seq<char>) -> Seq<char> {
    seq!['"'] + (esc(s) + seq!['"'])
}

/// Puts `c` in front of the text of a parse result.
pub open spec fn cons_res(c: char, r: Option<(Seq<char>, int)>) -> Option<(Seq<char>, int)> {
    match r {
        Some((x, j)) => Some((seq![c] + x, j)),
        None => None,
    }
}

/// Puts `p` in front of the text of a parse result.
pub open spec fn prepend_res(p: Seq<char>, r: Option<(Seq<char>, int)>) -> Option<(Seq<char>, int)> {
    match r {
        Some((x, j)) => Some((p + x, j)),
        None => None,
    }
}

/// Reads an escaped string body that starts at `i` up to and including its
/// closing quote: the unescaped text and the index after the quote.
pub open spec fn parse_str_body(s: Seq<char>, i: int) -> Option<(Seq<char>, int)>
    decreases s.len() - i,
{
    if i < 0 || i >= s.len() {
        None
    } else if s[i] == '"' {
        Some((Seq::empty(), i + 1))
    } else if s[i] == '\\' {
        if i + 1 < s.len() && (s[i + 1] == '"' || s[i + 1] == '\\') {
            cons_res(s[i + 1], parse_str_body(s, i + 2))
        } else if i + 1 < s.len() && is_short_letter(s[i + 1]) {
            cons_res(unshort(s[i + 1]), parse_str_body(s, i + 2))
        } else if i + 5 < s.len() && s[i + 1] == 'u' && s[i + 2] == '0' && s[i + 3] == '0' && (s[i
            + 4] == '0' || s[i + 4] == '1') && is_hex(s[i + 5]) && !is_short(
            ((16 * hex_val(s[i + 4]) + hex_val(s[i + 5])) as u8) as char,
        ) {
            cons_res(
                ((16 * hex_val(s[i + 4]) + hex_val(s[i + 5])) as u8) as char,
                parse_str_body(s, i + 6),
            )
        } else {
            None
        }
    } else if (s[i] as u32) < 32 {
        None
    } else {
        cons_res(s[i], parse_str_body(s, i + 1))
    }
}

/// The index of the first character at or after `i` that is not a digit.
pub open spec fn digit_run_end(s: Seq<char>, i: int) -> int
    decreases s.len() - i,
{
    if 0 <= i < s.len() && is_digit(s[i]) {
        digit_run_end(s, i + 1)
    } else {
        i
    }
}

/// Reads an unsigned decimal integer that starts at `i`: at least one digit,
/// no leading zero, at most `u64::MAX`; the value and the index after it.
pub open spec fn parse_num(s: Seq<char>, i: int) -> Option<(u64, int)> {
    let j = digit_run_end(s, i);
    if j <= i || (s[i] == '0' && j > i + 1) {
        None
    } else if digits_val(s.subrange(i, j)) > u64::MAX {
        None
    } else {
        Some((digits_val(s.subrange(i, j)) as u64, j))
    }
}


proof fn lemma_digits(n: nat)
    ensures
        digits(n).len() >= 1,
        forall|k: int| 0 <= k < digits(n).len() ==> is_digit(#[trigger] digits(n)[k]),
        digits(n)[0] == '0' ==> n == 0 && digits(n).len() == 1,
        digits_val(digits(n)) == n,
    decreases n,
{
    if n < 10 {
        assert(digits(n).drop_last() =~= Seq::<char>::empty());
        assert(digit_val(digits(n).last()) == n);
        assert(digits_val(Seq::<char>::empty()) == 0);
        assert(digits_val(digits(n)) == n);
    } else {
        lemma_digits(n / 10);
        let d = digits(n);
        assert(d.drop_last() =~= digits(n / 10));
        assert(digit_val(d.last()) == n % 10);
        assert((n / 10) * 10 + n % 10 == n) by (nonlinear_arith);
        assert(digits_val(d) == digits_val(d.drop_last()) * 10 + digit_val(d.last()));
        assert(digits_val(d) == n);
        assert(d[0] == digits(n / 10)[0]);
        assert forall|k: int| 0 <= k < d.len() implies is_digit(#[trigger] d[k]) by {
            if k < d.len() - 1 {
                assert(d[k] == digits(n / 10)[k]);
            }
        }
    }
}

proof fn lemma_val_positive(ds: Seq<char>)
    requires
        ds.len() > 0,
        forall|k: int| 0 <= k < ds.len() ==> is_digit(#[trigger] ds[k]),
        ds[0] != '0',
    ensures
        digits_val(ds) > 0,
    decreases ds.len(),
{
    if ds.len() > 1 {
        let p = ds.drop_last();
        assert(p[0] == ds[0]);
        assert forall|k: int| 0 <= k < p.len() implies is_digit(#[trigger] p[k]) by {
            assert(p[k] == ds[k]);
        }
        lemma_val_positive(p);
    }
}

proof fn lemma_canonical(ds: Seq<char>)
    requires
        ds.len() > 0,
        forall|k: int| 0 <= k < ds.len() ==> is_digit(#[trigger] ds[k]),
        ds[0] == '0' ==> ds.len() == 1,
    ensures
        digits(digits_val(ds)) == ds,
    decreases ds.len(),
{
    let v = digits_val(ds);
    let p = ds.drop_last();
    let d = digit_val(ds.last());
    assert(is_digit(ds[ds.len() - 1]));
    if ds.len() == 1 {
        assert(digits_val(p) == 0);
        assert(digits(v) =~= ds);
    } else {
        assert(p[0] == ds[0]);
        assert forall|k: int| 0 <= k < p.len() implies is_digit(#[trigger] p[k]) by {
            assert(p[k] == ds[k]);
        }
        lemma_val_positive(p);
        lemma_canonical(p);
        let a = digits_val(p);
        assert(v == a * 10 + d);
        assert(v / 10 == a && v % 10 == d) by (nonlinear_arith)
            requires
                v == a * 10 + d,
                d < 10,
        ;
        assert(digits(v) =~= ds);
    }
}

proof fn lemma_run_end(s: Seq<char>, i: int, k: int)
    requires
        0 <= i <= k <= s.len(),
        forall|m: int| i <= m < k ==> is_digit(#[trigger] s[m]),
        k == s.len() || !is_digit(s[k]),
    ensures
        digit_run_end(s, i) == k,
    decreases k - i,
{
    if i < k {
        lemma_run_end(s, i + 1, k);
    }
}

proof fn lemma_run_end_props(s: Seq<char>, i: int)
    requires
        0 <= i <= s.len(),
    ensures
        i <= digit_run_end(s, i) <= s.len(),
        forall|m: int| i <= m < digit_run_end(s, i) ==> is_digit(#[trigger] s[m]),
        digit_run_end(s, i) == s.len() || !is_digit(s[digit_run_end(s, i)]),
    decreases s.len() - i,
{
    if i < s.len() && is_digit(s[i]) {
        lemma_run_end_props(s, i + 1);
    }
}

/// The digits of `n` followed by a non-digit (or the end) are read back as `n`.
pub proof fn lemma_num_complete(s: Seq<char>, i: int, n: u64)
    requires
        0 <= i,
        i + digits(n as nat).len() <= s.len(),
        s.subrange(i, i + digits(n as nat).len()) == digits(n as nat),
        i + digits(n as nat).len() == s.len() || !is_digit(s[i + digits(n as nat).len()]),
    ensures
        parse_num(s, i) == Some((n, i + digits(n as nat).len())),
{
    let d = digits(n as nat);
    let k = i + d.len();
    lemma_digits(n as nat);
    assert forall|m: int| i <= m < k implies is_digit(#[trigger] s[m]) by {
        assert(s[m] == s.subrange(i, k)[m - i]);
    }
    lemma_run_end(s, i, k);
    assert(s[i] == d[0]);
}

/// What `parse_num` reads is the digits of its value, followed by a non-digit.
pub proof fn lemma_num_sound(s: Seq<char>, i: int)
    requires
        0 <= i <= s.len(),
        parse_num(s, i) is Some,
    ensures
        ({
            let (v, j) = parse_num(s, i).unwrap();
            &&& i < j <= s.len()
            &&& s.subrange(i, j) == digits(v as nat)
            &&& (j == s.len() || !is_digit(s[j]))
        }),
{
    let j = digit_run_end(s, i);
    lemma_run_end_props(s, i);
    let ds = s.subrange(i, j);
    assert forall|k: int| 0 <= k < ds.len() implies is_digit(#[trigger] ds[k]) by {
        assert(ds[k] == s[i + k]);
    }
    lemma_canonical(ds);
}

proof fn lemma_hex_char(m: nat)
    requires
        m < 16,
    ensures
        is_hex(hex_char(m)),
        hex_val(hex_char(m)) == m,
        m < 2 ==> (hex_char(m) == '0' || hex_char(m) == '1'),
{
}

proof fn lemma_hex_val(c: char)
    requires
        is_hex(c),
    ensures
        hex_val(c) < 16,
        hex_char(hex_val(c)) == c,
{
}

proof fn lemma_code_char(c: char)
    requires
        (c as u32) < 32,
    ensures
        (((c as u32) as u8) as char) == c,
{
}

proof fn lemma_esc_push(x: Seq<char>, c: char)
    ensures
        esc(x.push(c)) == esc(x) + esc_char(c),
    decreases x.len(),
{
    if x.len() == 0 {
        assert(x.push(c).drop_first() =~= Seq::<char>::empty());
        assert(esc(x.push(c).drop_first()) =~= Seq::<char>::empty());
        assert(esc(x) =~= Seq::<char>::empty());
        assert(x.push(c)[0] == c);
        assert(esc(x.push(c)) =~= esc(x) + esc_char(c));
    } else {
        lemma_esc_push(x.drop_first(), c);
        assert(x.push(c).drop_first() =~= x.drop_first().push(c));
        assert(x.push(c)[0] == x[0]);
        let a = esc_char(x[0]);
        let b = esc(x.drop_first());
        assert(esc(x.push(c)) == a + (b + esc_char(c)));
        assert(a + (b + esc_char(c)) =~= (a + b) + esc_char(c));
    }
}

/// The written form of a string body, closing quote included, is read back
/// as that string.
pub proof fn lemma_str_complete(s: Seq<char>, i: int, x: Seq<char>)
    requires
        0 <= i,
        i + esc(x).len() + 1 <= s.len(),
        s.subrange(i, i + esc(x).len() + 1) == esc(x) + seq!['"'],
    ensures
        parse_str_body(s, i) == Some((x, i + esc(x).len() + 1)),
    decreases x.len(),
{
    let k = i + esc(x).len() + 1;
    if x.len() == 0 {
        assert(s[i] == s.subrange(i, k)[0]);
    } else {
        let c = x[0];
        let e = esc_char(c);
        let m = e.len() as int;
        let rest = x.drop_first();
        assert(esc(x) == e + esc(rest));
        assert forall|t: int| 0 <= t < m implies s[i + t] == e[t] by {
            assert(s[i + t] == s.subrange(i, k)[t]);
            assert((esc(x) + seq!['"'])[t] == e[t]);
        }
        assert(s.subrange(i + m, k) =~= esc(rest) + seq!['"']) by {
            assert forall|t: int| 0 <= t < k - (i + m) implies s.subrange(i + m, k)[t] == (esc(
                rest,
            ) + seq!['"'])[t] by {
                assert(s.subrange(i + m, k)[t] == s.subrange(i, k)[t + m]);
            }
        }
        lemma_str_complete(s, i + m, rest);
        assert(seq![c] + rest =~= x);
        if c == '"' || c == '\\' {
            assert(s[i] == '\\' && s[i + 1] == c);
        } else if is_short(c) {
            assert(s[i] == '\\' && s[i + 1] == short_letter(c));
        } else if (c as u32) < 32 {
            let code = (c as u32) as nat;
            lemma_hex_char(code / 16);
            lemma_hex_char(code % 16);
            lemma_code_char(c);
            assert(s[i + 4] == hex_char(code / 16));
            assert(s[i + 5] == hex_char(code % 16));
            assert(16 * (code / 16) + code % 16 == code);
        } else {
            assert(s[i] == c);
        }
    }
}

/// What `parse_str_body` reads is the written form of the string it returns,
/// closing quote included.
pub proof fn lemma_str_sound(s: Seq<char>, i: int)
    requires
        parse_str_body(s, i) is Some,
    ensures
        ({
            let (x, j) = parse_str_body(s, i).unwrap();
            &&& 0 <= i < j <= s.len()
            &&& s.subrange(i, j) == esc(x) + seq!['"']
        }),
    decreases s.len() - i,
{
    let (x, j) = parse_str_body(s, i).unwrap();
    if s[i] == '"' {
        assert(esc(x) =~= Seq::<char>::empty());
        assert(s.subrange(i, j) =~= esc(x) + seq!['"']);
    } else {
        let m: int = if s[i] == '\\' {
            if s[i + 1] == '"' || s[i + 1] == '\\' || is_short_letter(s[i + 1]) {
                2
            } else {
                6
            }
        } else {
            1
        };
        lemma_str_sound(s, i + m);
        let (rest, j2) = parse_str_body(s, i + m).unwrap();
        assert(j2 == j);
        let c = x[0];
        assert(x.drop_first() =~= rest);
        assert(esc(x) == esc_char(c) + esc(rest));
        if m == 6 {
            let code = 16 * hex_val(s[i + 4]) + hex_val(s[i + 5]);
            lemma_hex_val(s[i + 4]);
            lemma_hex_val(s[i + 5]);
            assert(code < 32);
            assert((c as u32) as nat == code);
            assert(code / 16 == hex_val(s[i + 4]) && code % 16 == hex_val(s[i + 5]));
        }
        assert(esc_char(c).len() == m);
        assert forall|t: int| 0 <= t < m implies esc_char(c)[t] == s[i + t] by {}
        assert(s.subrange(i, j) =~= esc_char(c) + s.subrange(i + m, j));
        assert(s.subrange(i, j) =~= esc(x) + seq!['"']);
    }
}

proof fn lemma_prepend_cons(p: Seq<char>, c: char, r: Option<(Seq<char>, int)>)
    ensures
        prepend_res(p, cons_res(c, r)) == prepend_res(p.push(c), r),
{
    if let Some((x, j)) = r {
        assert(p + (seq![c] + x) =~= p.push(c) + x);
    }
}

/// Appends the decimal digits of `n`.
pub fn write_digits(out: &mut Vec<char>, n: u64)
    ensures
        final(out)@ == old(out)@ + digits(n as nat),
    decreases n,
{
    if n >= 10 {
        write_digits(out, n / 10);
    }
    let d = (n % 10) as u8;
    out.push((d + 48) as char);
    proof {
        if n < 10 {
            assert(final(out)@ =~= old(out)@ + digits(n as nat));
        } else {
            assert(final(out)@ =~= old(out)@ + digits(n as nat));
        }
    }
}

fn short_escape(c: char) -> (e: char)
    requires
        is_short(c),
    ensures
        e == short_letter(c),
{
    if c == '\u{8}' {
        'b'
    } else if c == '\t' {
        't'
    } else if c == '\n' {
        'n'
    } else if c == '\u{c}' {
        'f'
    } else {
        'r'
    }
}

fn unescape_short(e: char) -> (c: char)
    ensures
        c == unshort(e),
{
    if e == 'b' {
        '\u{8}'
    } else if e == 't' {
        '\t'
    } else if e == 'n' {
        '\n'
    } else if e == 'f' {
        '\u{c}'
    } else {
        '\r'
    }
}

fn hex_digit(m: u32) -> (c: char)
    requires
        m < 16,
    ensures
        c == hex_char(m as nat),
{
    if m < 10 {
        ((m + 48) as u8) as char
    } else {
        ((m + 87) as u8) as char
    }
}

/// Whether `t` stands in `s` at index `i`.
pub open spec fn lit(s: Seq<char>, i: int, t: Seq<char>) -> bool {
    0 <= i && i + t.len() <= s.len() && s.subrange(i, i + t.len()) == t
}

pub proof fn lemma_lit_concat(s: Seq<char>, i: int, a: Seq<char>, b: Seq<char>)
    ensures
        lit(s, i, a + b) == (lit(s, i, a) && lit(s, i + a.len(), b)),
{
    if lit(s, i, a) && lit(s, i + a.len(), b) {
        assert(s.subrange(i, i + (a + b).len()) =~= a + b) by {
            assert forall|k: int| 0 <= k < a.len() + b.len() implies s.subrange(
                i,
                i + (a + b).len(),
            )[k] == (a + b)[k] by {
                if k < a.len() {
                    assert(s.subrange(i, i + a.len())[k] == s[i + k]);
                } else {
                    assert(s.subrange(i + a.len(), i + a.len() + b.len())[k - a.len()] == s[i
                        + k]);
                }
            }
        }
    }
    if lit(s, i, a + b) {
        assert(s.subrange(i, i + a.len()) =~= a) by {
            assert forall|k: int| 0 <= k < a.len() implies s.subrange(i, i + a.len())[k] == a[k] by {
                assert(s.subrange(i, i + (a + b).len())[k] == s[i + k]);
            }
        }
        assert(s.subrange(i + a.len(), i + a.len() + b.len()) =~= b) by {
            assert forall|k: int| 0 <= k < b.len() implies s.subrange(
                i + a.len(),
                i + a.len() + b.len(),
            )[k] == b[k] by {
                assert(s.subrange(i, i + (a + b).len())[a.len() + k] == s[i + a.len() + k]);
            }
        }
    }
}

pub proof fn lemma_lit_at(s: Seq<char>, i: int, t: Seq<char>, k: int)
    requires
        lit(s, i, t),
        0 <= k < t.len(),
    ensures
        s[i + k] == t[k],
{
    assert(s.subrange(i, i + t.len())[k] == s[i + k]);
}

/// Whether `t` stands in `s` at index `i`.
pub fn read_lit(s: &Vec<char>, i: usize, t: &Vec<char>) -> (r: bool)
    ensures
        r == lit(s@, i as int, t@),
{
    if i > s.len() || s.len() - i < t.len() {
        return false;
    }
    let mut k: usize = 0;
    while k < t.len()
        invariant
            k <= t.len(),
            i + t.len() <= s.len(),
            forall|m: int| 0 <= m < k ==> s@[i + m] == t@[m],
        decreases t.len() - k,
    {
        if s[i + k] != t[k] {
            assert(s@.subrange(i as int, i + t.len())[k as int] == s@[i + k]);
            return false;
        }
        k += 1;
    }
    assert(s@.subrange(i as int, i + t.len()) =~= t@);
    true
}

/// Appends all of `t`.
pub fn write_all(out: &mut Vec<char>, t: &Vec<char>)
    ensures
        final(out)@ == old(out)@ + t@,
{
    let mut k: usize = 0;
    while k < t.len()
        invariant
            k <= t.len(),
            out@ == old(out)@ + t@.take(k as int),
        decreases t.len() - k,
    {
        out.push(t[k]);
        k += 1;
        assert(out@ =~= old(out)@ + t@.take(k as int));
    }
    assert(t@.take(k as int) =~= t@);
}

/// Appends `x` escaped and between double quotes.
pub fn write_quoted(out: &mut Vec<char>, x: &Vec<char>)
    ensures
        final(out)@ == old(out)@ + quoted(x@),
{
    let ghost start = out@;
    out.push('"');
    let mut k: usize = 0;
    while k < x.len()
        invariant
            k <= x.len(),
            out@ == start.push('"') + esc(x@.take(k as int)),
        decreases x.len() - k,
    {
        let c = x[k];
        let code = c as u32;
        if c == '"' || c == '\\' {
            out.push('\\');
            out.push(c);
        } else if c == '\u{8}' || c == '\t' || c == '\n' || c == '\u{c}' || c == '\r' {
            out.push('\\');
            out.push(short_escape(c));
        } else if code < 32 {
            out.push('\\');
            out.push('u');
            out.push('0');
            out.push('0');
            out.push(hex_digit(code / 16));
            out.push(hex_digit(code % 16));
        } else {
            out.push(c);
        }
        proof {
            lemma_esc_push(x@.take(k as int), c);
            assert(x@.take(k + 1) =~= x@.take(k as int).push(c));
            assert(out@ =~= start.push('"') + esc(x@.take(k + 1)));
        }
        k += 1;
    }
    out.push('"');
    proof {
        assert(x@.take(k as int) =~= x@);
        assert(out@ =~= old(out)@ + quoted(x@));
    }
}

fn code_of(h: char, l: char) -> (v: u32)
    requires
        h == '0' || h == '1',
        is_hex(l),
    ensures
        v == 16 * hex_val(h) + hex_val(l),
        v < 32,
{
    16 * hex_value(h) + hex_value(l)
}

fn hex_value(c: char) -> (v: u32)
    requires
        is_hex(c),
    ensures
        v == hex_val(c),
{
    if c <= '9' {
        c as u32 - 48
    } else {
        c as u32 - 87
    }
}

/// Reads an escaped string body from index `i` through its closing quote.
pub fn read_str_body(s: &Vec<char>, i: usize) -> (r: Option<(Vec<char>, usize)>)
    ensures
        match r {
            Some((x, j)) => parse_str_body(s@, i as int) == Some((x@, j as int)),
            None => parse_str_body(s@, i as int) is None,
        },
{
    let mut out: Vec<char> = Vec::new();
    let mut k: usize = i;
    while k < s.len()
        invariant
            i <= k,
            prepend_res(out@, parse_str_body(s@, k as int)) == parse_str_body(s@, i as int),
        decreases s.len() - k,
    {
        let c = s[k];
        if c == '"' {
            assert(out@ + Seq::<char>::empty() =~= out@);
            return Some((out, k + 1));
        } else if c == '\\' {
            if k + 1 < s.len() && (s[k + 1] == '"' || s[k + 1] == '\\') {
                proof {
                    lemma_prepend_cons(out@, s@[k + 1], parse_str_body(s@, k + 2));
                }
                out.push(s[k + 1]);
                k += 2;
            } else if k + 1 < s.len() && (s[k + 1] == 'b' || s[k + 1] == 't' || s[k + 1] == 'n'
                || s[k + 1] == 'f' || s[k + 1] == 'r') {
                let ch = unescape_short(s[k + 1]);
                proof {
                    lemma_prepend_cons(out@, ch, parse_str_body(s@, k + 2));
                }
                out.push(ch);
                k += 2;
            } else if s.len() - k > 5 && s[k + 1] == 'u' && s[k + 2] == '0' && s[k + 3] == '0' && (s[k
                + 4] == '0' || s[k + 4] == '1') && (('0' <= s[k + 5] && s[k + 5] <= '9') || ('a'
                <= s[k + 5] && s[k + 5] <= 'f')) && !(code_of(s[k + 4], s[k + 5]) == 8 || code_of(
                s[k + 4],
                s[k + 5],
            ) == 9 || code_of(s[k + 4], s[k + 5]) == 10 || code_of(s[k + 4], s[k + 5]) == 12
                || code_of(s[k + 4], s[k + 5]) == 13) {
                let code = code_of(s[k + 4], s[k + 5]);
                let ch = (code as u8) as char;
                proof {
                    lemma_prepend_cons(out@, ch, parse_str_body(s@, k + 6));
                }
                out.push(ch);
                k += 6;
            } else {
                return None;
            }
        } else if (c as u32) < 32 {
            return None;
        } else {
            proof {
                lemma_prepend_cons(out@, c, parse_str_body(s@, k + 1));
            }
            out.push(c);
            k += 1;
        }
    }
    None
}

/// Reads an unsigned decimal integer at index `i`.
pub fn read_num(s: &Vec<char>, i: usize) -> (r: Option<(u64, usize)>)
    requires
        i <= s.len(),
    ensures
        match r {
            Some((v, j)) => parse_num(s@, i as int) == Some((v, j as int)),
            None => parse_num(s@, i as int) is None,
        },
{
    let mut k: usize = i;
    let mut v: u64 = 0;
    let mut overflow = false;
    while k < s.len() && '0' <= s[k] && s[k] <= '9'
        invariant
            i <= k <= s.len(),
            digit_run_end(s@, k as int) == digit_run_end(s@, i as int),
            !overflow ==> v as nat == digits_val(s@.subrange(i as int, k as int)),
            overflow ==> digits_val(s@.subrange(i as int, k as int)) > u64::MAX,
        decreases s.len() - k,
    {
        let d = (s[k] as u32 - 48) as u64;
        let ghost prev = s@.subrange(i as int, k as int);
        assert(s@.subrange(i as int, k + 1).drop_last() =~= prev);
        if !overflow {
            if v > (u64::MAX - d) / 10 {
                overflow = true;
                assert(v * 10 + d > u64::MAX) by (nonlinear_arith)
                    requires
                        v > (u64::MAX - d) / 10,
                        d < 10,
                ;
            } else {
                assert(v * 10 + d <= u64::MAX) by (nonlinear_arith)
                    requires
                        v <= (u64::MAX - d) / 10,
                        d < 10,
                ;
                v = v * 10 + d;
            }
        }
        k += 1;
    }
    proof {
        lemma_run_end_props(s@, k as int);
        if k < s.len() {
            assert(!is_digit(s@[k as int]));
        }
    }
    if k == i || (s[i] == '0' && k > i + 1) || overflow {
        None
    } else {
        Some((v, k))
    }
}
} // verus!
