//! Reading and writing the persisted form of a transition model.
//!
//! The model is written as one JSON object holding the token list and the
//! count matrix. The writer produces one canonical text for each model;
//! the reader accepts exactly that canonical shape and rejects anything
//! else as malformed. Reading what was written gives the model structure
//! back unchanged; [`lemma_model_round_trip`] states that law.

use vstd::prelude::*;
use vstd::string::StringExecFns;

use crate::chars::chars_of;
use crate::markov::{vecs_view, MarkovModel};
use crate::morphological_analysis::LyrianToken;

verus! {

/// The code point range of a character value.
proof fn char_bounds(c: char)
    ensures
        0 <= c as int <= 0x10FFFF,
        c as u32 == c as int,
{
}

/// Relies on String::push: it appends exactly the given character.
#[verifier::external_body]
fn push_char(s: &mut String, c: char)
    ensures
        final(s)@ == old(s)@.push(c),
{
    s.push(c);
}

/// The decimal digit characters, by value.
pub open spec fn digit_char(n: int) -> char {
    if n == 0 {
        '0'
    } else if n == 1 {
        '1'
    } else if n == 2 {
        '2'
    } else if n == 3 {
        '3'
    } else if n == 4 {
        '4'
    } else if n == 5 {
        '5'
    } else if n == 6 {
        '6'
    } else if n == 7 {
        '7'
    } else if n == 8 {
        '8'
    } else {
        '9'
    }
}

/// Whether `c` is a decimal digit.
pub open spec fn is_digit(c: char) -> bool {
    '0' <= c && c <= '9'
}

/// The value of a decimal digit character.
pub open spec fn digit_val(c: char) -> int {
    c as int - '0' as int
}

/// The decimal representation of `n`, most significant digit first.
pub open spec fn dec_rep(n: int) -> Seq<char>
    recommends
        n >= 0,
    decreases n,
{
    if n < 10 {
        seq![digit_char(n)]
    } else {
        dec_rep(n / 10) + seq![digit_char(n % 10)]
    }
}

/// The hexadecimal digits of a control character's code point.
pub open spec fn ctrl_hex(c: char) -> (char, char) {
    let lo = (c as int) % 16;
    let hi = (c as int) / 16;
    (digit_char_hex(hi), digit_char_hex(lo))
}

/// The hexadecimal digit characters, by value, lower case.
pub open spec fn digit_char_hex(n: int) -> char {
    if n < 10 {
        digit_char(n)
    } else if n == 10 {
        'a'
    } else if n == 11 {
        'b'
    } else if n == 12 {
        'c'
    } else if n == 13 {
        'd'
    } else if n == 14 {
        'e'
    } else {
        'f'
    }
}

/// The control character with the given two hexadecimal digits, if the
/// digits name one.
pub open spec fn ctrl_of_hex(hi: char, lo: char) -> Option<char> {
    if (hi == '0' || hi == '1') && is_hex_digit(lo) {
        let code = (if hi == '0' {
            0int
        } else {
            16int
        }) + hex_val(lo);
        Some(ctrl_char(code))
    } else {
        None
    }
}

/// Whether `c` is a lower-case hexadecimal digit.
pub open spec fn is_hex_digit(c: char) -> bool {
    is_digit(c) || c == 'a' || c == 'b' || c == 'c' || c == 'd' || c == 'e' || c == 'f'
}

/// The value of a lower-case hexadecimal digit.
pub open spec fn hex_val(c: char) -> int {
    if is_digit(c) {
        digit_val(c)
    } else {
        c as int - 'a' as int + 10
    }
}

/// The control character with the given code point.
pub open spec fn ctrl_char(code: int) -> char {
    if code == 0 {
        '\u{00}'
    } else if code == 1 {
        '\u{01}'
    } else if code == 2 {
        '\u{02}'
    } else if code == 3 {
        '\u{03}'
    } else if code == 4 {
        '\u{04}'
    } else if code == 5 {
        '\u{05}'
    } else if code == 6 {
        '\u{06}'
    } else if code == 7 {
        '\u{07}'
    } else if code == 8 {
        '\u{08}'
    } else if code == 9 {
        '\u{09}'
    } else if code == 10 {
        '\u{0a}'
    } else if code == 11 {
        '\u{0b}'
    } else if code == 12 {
        '\u{0c}'
    } else if code == 13 {
        '\u{0d}'
    } else if code == 14 {
        '\u{0e}'
    } else if code == 15 {
        '\u{0f}'
    } else if code == 16 {
        '\u{10}'
    } else if code == 17 {
        '\u{11}'
    } else if code == 18 {
        '\u{12}'
    } else if code == 19 {
        '\u{13}'
    } else if code == 20 {
        '\u{14}'
    } else if code == 21 {
        '\u{15}'
    } else if code == 22 {
        '\u{16}'
    } else if code == 23 {
        '\u{17}'
    } else if code == 24 {
        '\u{18}'
    } else if code == 25 {
        '\u{19}'
    } else if code == 26 {
        '\u{1a}'
    } else if code == 27 {
        '\u{1b}'
    } else if code == 28 {
        '\u{1c}'
    } else if code == 29 {
        '\u{1d}'
    } else if code == 30 {
        '\u{1e}'
    } else {
        '\u{1f}'
    }
}

/// The written form of one character of a string: itself, or its escape.
pub open spec fn esc_char(c: char) -> Seq<char> {
    if c == '"' {
        seq!['\\', '"']
    } else if c == '\\' {
        seq!['\\', '\\']
    } else if (c as int) < 32 {
        seq!['\\', 'u', '0', '0', ctrl_hex(c).0, ctrl_hex(c).1]
    } else {
        seq![c]
    }
}

/// The written form of a string's characters.
pub open spec fn esc_str(s: Seq<char>) -> Seq<char>
    decreases s.len(),
{
    if s.len() == 0 {
        Seq::empty()
    } else {
        esc_char(s[0]) + esc_str(s.drop_first())
    }
}

/// The written form of one token object.
pub open spec fn render_token(t: LyrianToken) -> Seq<char> {
    "{\"word\":\""@ + esc_str(t.word@) + "\",\"mora\":\""@ + esc_str(t.mora@)
        + "\",\"syllable\":\""@ + esc_str(t.syllable@) + "\"}"@
}

/// The written forms of the tokens, separated by commas.
pub open spec fn render_token_items(s: Seq<LyrianToken>) -> Seq<char>
    decreases s.len(),
{
    if s.len() == 0 {
        Seq::empty()
    } else if s.len() == 1 {
        render_token(s[0])
    } else {
        render_token(s[0]) + seq![','] + render_token_items(s.drop_first())
    }
}

/// The written forms of one row's counts, separated by commas.
pub open spec fn render_row_items(r: Seq<u32>) -> Seq<char>
    decreases r.len(),
{
    if r.len() == 0 {
        Seq::empty()
    } else if r.len() == 1 {
        dec_rep(r[0] as int)
    } else {
        dec_rep(r[0] as int) + seq![','] + render_row_items(r.drop_first())
    }
}

/// The written form of one count matrix row.
pub open spec fn render_row(r: Seq<u32>) -> Seq<char> {
    seq!['['] + render_row_items(r) + seq![']']
}

/// The written forms of the matrix rows, separated by commas.
pub open spec fn render_row_list(rows: Seq<Seq<u32>>) -> Seq<char>
    decreases rows.len(),
{
    if rows.len() == 0 {
        Seq::empty()
    } else if rows.len() == 1 {
        render_row(rows[0])
    } else {
        render_row(rows[0]) + seq![','] + render_row_list(rows.drop_first())
    }
}

/// The written form of a whole model: its token list and its count matrix.
pub open spec fn render_model(toks: Seq<LyrianToken>, rows: Seq<Seq<u32>>) -> Seq<char> {
    "{\"elements\":["@ + render_token_items(toks) + "],\"rows\":["@ + render_row_list(rows)
        + "]}"@
}

/// Consumes the literal `lit` from the front of `s`.
pub open spec fn parse_lit(s: Seq<char>, lit: Seq<char>) -> Option<Seq<char>> {
    if lit.len() <= s.len() && s.take(lit.len() as int) == lit {
        Some(s.skip(lit.len() as int))
    } else {
        None
    }
}

/// Consumes the characters of a written string up to and including its
/// closing quote, undoing the escapes.
pub open spec fn parse_string_body(s: Seq<char>) -> Option<(Seq<char>, Seq<char>)>
    decreases s.len(),
{
    if s.len() == 0 {
        None
    } else if s[0] == '"' {
        Some((Seq::empty(), s.drop_first()))
    } else if s[0] == '\\' {
        if s.len() < 2 {
            None
        } else if s[1] == '"' || s[1] == '\\' {
            match parse_string_body(s.skip(2)) {
                Some((w, rest)) => Some((seq![s[1]] + w, rest)),
                None => None,
            }
        } else if s[1] == 'u' {
            if s.len() < 6 {
                None
            } else if s[2] == '0' && s[3] == '0' {
                match ctrl_of_hex(s[4], s[5]) {
                    Some(c) => match parse_string_body(s.skip(6)) {
                        Some((w, rest)) => Some((seq![c] + w, rest)),
                        None => None,
                    },
                    None => None,
                }
            } else {
                None
            }
        } else {
            None
        }
    } else if (s[0] as int) < 32 {
        None
    } else {
        match parse_string_body(s.drop_first()) {
            Some((w, rest)) => Some((seq![s[0]] + w, rest)),
            None => None,
        }
    }
}

/// Consumes the decimal digits at the front of `s` into `acc`, refusing a
/// value beyond the count range.
pub open spec fn parse_digits(s: Seq<char>, acc: int) -> Option<(int, Seq<char>)>
    decreases s.len(),
{
    if s.len() > 0 && is_digit(s[0]) {
        let acc2 = acc * 10 + digit_val(s[0]);
        if acc2 > u32::MAX {
            None
        } else {
            parse_digits(s.drop_first(), acc2)
        }
    } else {
        Some((acc, s))
    }
}

/// Consumes one count from the front of `s`.
pub open spec fn parse_u32(s: Seq<char>) -> Option<(int, Seq<char>)> {
    if s.len() > 0 && is_digit(s[0]) {
        parse_digits(s, 0)
    } else {
        None
    }
}

/// Consumes one token object from the front of `s`.
pub open spec fn parse_token(s: Seq<char>) -> Option<
    ((Seq<char>, Seq<char>, Seq<char>), Seq<char>),
> {
    match parse_lit(s, "{\"word\":\""@) {
        None => None,
        Some(s1) => match parse_string_body(s1) {
            None => None,
            Some((w, s2)) => match parse_lit(s2, ",\"mora\":\""@) {
                None => None,
                Some(s3) => match parse_string_body(s3) {
                    None => None,
                    Some((m, s4)) => match parse_lit(s4, ",\"syllable\":\""@) {
                        None => None,
                        Some(s5) => match parse_string_body(s5) {
                            None => None,
                            Some((sy, s6)) => match parse_lit(s6, "}"@) {
                                None => None,
                                Some(s7) => Some(((w, m, sy), s7)),
                            },
                        },
                    },
                },
            },
        },
    }
}

/// Consumes a comma-separated run of token objects from the front of `s`.
pub open spec fn parse_token_list(s: Seq<char>) -> Option<
    (Seq<(Seq<char>, Seq<char>, Seq<char>)>, Seq<char>),
>
    decreases s.len(),
{
    match parse_token(s) {
        None => None,
        Some((t, rest)) => {
            if rest.len() >= s.len() {
                None
            } else if rest.len() > 0 && rest[0] == ',' {
                match parse_token_list(rest.drop_first()) {
                    None => None,
                    Some((ts, rest2)) => Some((seq![t] + ts, rest2)),
                }
            } else {
                Some((seq![t], rest))
            }
        },
    }
}

/// Consumes a comma-separated run of counts from the front of `s`.
pub open spec fn parse_num_list(s: Seq<char>) -> Option<(Seq<u32>, Seq<char>)>
    decreases s.len(),
{
    match parse_u32(s) {
        None => None,
        Some((n, rest)) => {
            if rest.len() >= s.len() {
                None
            } else if rest.len() > 0 && rest[0] == ',' {
                match parse_num_list(rest.drop_first()) {
                    None => None,
                    Some((ns, rest2)) => Some((seq![n as u32] + ns, rest2)),
                }
            } else {
                Some((seq![n as u32], rest))
            }
        },
    }
}

/// Consumes one bracketed count row from the front of `s`.
pub open spec fn parse_row(s: Seq<char>) -> Option<(Seq<u32>, Seq<char>)> {
    match parse_lit(s, "["@) {
        None => None,
        Some(s1) => {
            if s1.len() > 0 && s1[0] == ']' {
                Some((Seq::empty(), s1.drop_first()))
            } else {
                match parse_num_list(s1) {
                    None => None,
                    Some((ns, s2)) => match parse_lit(s2, "]"@) {
                        None => None,
                        Some(s3) => Some((ns, s3)),
                    },
                }
            }
        },
    }
}

/// Consumes a comma-separated run of rows from the front of `s`.
pub open spec fn parse_row_seq(s: Seq<char>) -> Option<(Seq<Seq<u32>>, Seq<char>)>
    decreases s.len(),
{
    match parse_row(s) {
        None => None,
        Some((r, rest)) => {
            if rest.len() >= s.len() {
                None
            } else if rest.len() > 0 && rest[0] == ',' {
                match parse_row_seq(rest.drop_first()) {
                    None => None,
                    Some((rs, rest2)) => Some((seq![r] + rs, rest2)),
                }
            } else {
                Some((seq![r], rest))
            }
        },
    }
}

/// Reads a whole written model: the token views and the count matrix. The
/// text must be exactly one canonical model object, with nothing after it.
pub open spec fn parse_model(s: Seq<char>) -> Option<
    (Seq<(Seq<char>, Seq<char>, Seq<char>)>, Seq<Seq<u32>>),
> {
    match parse_lit(s, "{\"elements\":["@) {
        None => None,
        Some(s1) => {
            let toks_parsed: Option<(Seq<(Seq<char>, Seq<char>, Seq<char>)>, Seq<char>)> = if s1.len()
                > 0 && s1[0] == ']' {
                Some((Seq::empty(), s1.drop_first()))
            } else {
                match parse_token_list(s1) {
                    None => None,
                    Some((ts, s2)) => match parse_lit(s2, "]"@) {
                        None => None,
                        Some(s3) => Some((ts, s3)),
                    },
                }
            };
            match toks_parsed {
                None => None,
                Some((ts, s4)) => match parse_lit(s4, ",\"rows\":["@) {
                    None => None,
                    Some(s5) => {
                        let rows_parsed: Option<(Seq<Seq<u32>>, Seq<char>)> = if s5.len() > 0
                            && s5[0] == ']' {
                            Some((Seq::empty(), s5.drop_first()))
                        } else {
                            match parse_row_seq(s5) {
                                None => None,
                                Some((rs, s6)) => match parse_lit(s6, "]"@) {
                                    None => None,
                                    Some(s7) => Some((rs, s7)),
                                },
                            }
                        };
                        match rows_parsed {
                            None => None,
                            Some((rs, s8)) => match parse_lit(s8, "}"@) {
                                None => None,
                                Some(s9) => {
                                    if s9.len() == 0 {
                                        Some((ts, rs))
                                    } else {
                                        None
                                    }
                                },
                            },
                        }
                    },
                },
            }
        },
    }
}

/// The views of a token sequence: the field characters of each token.
pub open spec fn tok_views(s: Seq<LyrianToken>) -> Seq<(Seq<char>, Seq<char>, Seq<char>)> {
    Seq::new(s.len(), |i: int| s[i]@)
}

proof fn lemma_parse_lit(lit: Seq<char>, rest: Seq<char>)
    ensures
        parse_lit(lit + rest, lit) == Some(rest),
{
    assert((lit + rest).take(lit.len() as int) =~= lit);
    assert((lit + rest).skip(lit.len() as int) =~= rest);
}

proof fn lemma_hex_digit_inverse(n: int)
    requires
        0 <= n < 16,
    ensures
        is_hex_digit(digit_char_hex(n)),
        hex_val(digit_char_hex(n)) == n,
{
}

proof fn lemma_ctrl_roundtrip(c: char)
    requires
        (c as int) < 32,
    ensures
        ctrl_of_hex(ctrl_hex(c).0, ctrl_hex(c).1) == Some(c),
{
    let code = c as int;
    let hi = code / 16;
    let lo = code % 16;
    vstd::arithmetic::div_mod::lemma_fundamental_div_mod(code, 16);
    lemma_hex_digit_inverse(lo);
    assert(hi == 0 || hi == 1);
    assert(ctrl_char(code) == c);
}

proof fn lemma_esc_str_parse(w: Seq<char>, rest: Seq<char>)
    ensures
        parse_string_body(esc_str(w) + seq!['"'] + rest) == Some((w, rest)),
    decreases w.len(),
{
    if w.len() == 0 {
        let s = esc_str(w) + seq!['"'] + rest;
        assert(s =~= seq!['"'] + rest);
        assert(s[0] == '"');
        assert(s.drop_first() =~= rest);
    } else {
        let c = w[0];
        let tail = esc_str(w.drop_first()) + seq!['"'] + rest;
        let s = esc_str(w) + seq!['"'] + rest;
        lemma_esc_str_parse(w.drop_first(), rest);
        assert(esc_str(w) == esc_char(c) + esc_str(w.drop_first()));
        assert(s =~= esc_char(c) + tail);
        if c == '"' || c == '\\' {
            assert(s =~= seq!['\\', c] + tail);
            assert(s[0] == '\\' && s[1] == c);
            assert(s.skip(2) =~= tail);
            assert(seq![c] + w.drop_first() =~= w);
        } else if (c as int) < 32 {
            let hx = ctrl_hex(c);
            assert(s =~= seq!['\\', 'u', '0', '0', hx.0, hx.1] + tail);
            assert(s[0] == '\\' && s[1] == 'u' && s[2] == '0' && s[3] == '0');
            assert(s[4] == hx.0 && s[5] == hx.1);
            lemma_ctrl_roundtrip(c);
            assert(s.skip(6) =~= tail);
            assert(seq![c] + w.drop_first() =~= w);
        } else {
            assert(s =~= seq![c] + tail);
            assert(s[0] == c);
            assert(s.drop_first() =~= tail);
            assert(seq![c] + w.drop_first() =~= w);
        }
    }
}

proof fn lemma_digit_inverse(n: int)
    requires
        0 <= n < 10,
    ensures
        is_digit(digit_char(n)),
        digit_val(digit_char(n)) == n,
{
}

proof fn lemma_dec_rep_first(n: int)
    requires
        0 <= n,
    ensures
        dec_rep(n).len() >= 1,
        is_digit(dec_rep(n)[0]),
    decreases n,
{
    if n < 10 {
        lemma_digit_inverse(n);
    } else {
        lemma_dec_rep_first(n / 10);
    }
}

proof fn lemma_parse_digits_prefix(n: int, suffix: Seq<char>, acc: int)
    requires
        0 <= n,
        0 <= acc,
        acc * vstd::arithmetic::power::pow(10, dec_rep(n).len() as nat) + n <= u32::MAX,
    ensures
        parse_digits(dec_rep(n) + suffix, acc) == parse_digits(
            suffix,
            acc * vstd::arithmetic::power::pow(10, dec_rep(n).len() as nat) + n,
        ),
    decreases n,
{
    broadcast use vstd::arithmetic::power::lemma_pow_positive;
    broadcast use vstd::arithmetic::power::lemma_pow1;
    broadcast use vstd::arithmetic::power::lemma_pow_adds;

    if n < 10 {
        let s = dec_rep(n) + suffix;
        lemma_digit_inverse(n);
        assert(s[0] == digit_char(n));
        assert(s.len() > 0 && is_digit(s[0]));
        let acc2 = acc * 10 + n;
        assert(dec_rep(n).len() == 1);
        assert(vstd::arithmetic::power::pow(10, 1nat) == 10);
        assert(acc * vstd::arithmetic::power::pow(10, 1nat) + n == acc2);
        assert(s.drop_first() =~= suffix);
    } else {
        let d = n % 10;
        let q = n / 10;
        vstd::arithmetic::div_mod::lemma_fundamental_div_mod(n, 10);
        let l1 = dec_rep(q).len() as nat;
        let p1 = vstd::arithmetic::power::pow(10, l1);
        assert(dec_rep(n) == dec_rep(q) + seq![digit_char(d)]);
        assert(dec_rep(n).len() == l1 + 1);
        let pfull = vstd::arithmetic::power::pow(10, (l1 + 1) as nat);
        assert(pfull == vstd::arithmetic::power::pow(10, 1nat) * p1) by {
            vstd::arithmetic::power::lemma_pow_adds(10, 1nat, l1);
        }
        assert(pfull == 10 * p1);
        assert(p1 > 0);
        // The accumulated prefix value never exceeds the whole value.
        assert((acc * p1 + q) * 10 + d == acc * (10 * p1) + n) by (nonlinear_arith)
            requires
                n == q * 10 + d,
        ;
        assert(acc * p1 + q <= (acc * p1 + q) * 10 + d) by (nonlinear_arith)
            requires
                0 <= acc * p1 + q,
                0 <= d,
        ;
        assert(0 <= acc * p1) by (nonlinear_arith)
            requires
                0 <= acc,
                0 < p1,
        ;
        lemma_parse_digits_prefix(q, seq![digit_char(d)] + suffix, acc);
        assert(dec_rep(n) + suffix =~= dec_rep(q) + (seq![digit_char(d)] + suffix));
        let mid = seq![digit_char(d)] + suffix;
        lemma_digit_inverse(d);
        assert(mid[0] == digit_char(d) && is_digit(mid[0]));
        let a1 = acc * p1 + q;
        let acc2 = a1 * 10 + d;
        assert(acc2 == acc * pfull + n);
        assert(mid.drop_first() =~= suffix);
    }
}

proof fn lemma_parse_u32_dec(n: int, suffix: Seq<char>)
    requires
        0 <= n <= u32::MAX,
        suffix.len() == 0 || !is_digit(suffix[0]),
    ensures
        parse_u32(dec_rep(n) + suffix) == Some((n, suffix)),
{
    broadcast use vstd::arithmetic::power::lemma_pow_positive;

    lemma_dec_rep_first(n);
    let s = dec_rep(n) + suffix;
    assert(s[0] == dec_rep(n)[0]);
    let p = vstd::arithmetic::power::pow(10, dec_rep(n).len() as nat);
    assert(0 * p + n == n) by (nonlinear_arith);
    lemma_parse_digits_prefix(n, suffix, 0);
}

proof fn lemma_parse_render_token(t: LyrianToken, rest: Seq<char>)
    ensures
        parse_token(render_token(t) + rest) == Some((t@, rest)),
        render_token(t).len() > 0,
{
    let la = "{\"word\":\""@;
    let lb = ",\"mora\":\""@;
    let lc = ",\"syllable\":\""@;
    let ld = "}"@;
    let qb = "\",\"mora\":\""@;
    let qc = "\",\"syllable\":\""@;
    let qd = "\"}"@;
    reveal_strlit("{\"word\":\"");
    reveal_strlit(",\"mora\":\"");
    reveal_strlit(",\"syllable\":\"");
    reveal_strlit("}");
    reveal_strlit("\",\"mora\":\"");
    reveal_strlit("\",\"syllable\":\"");
    reveal_strlit("\"}");
    assert(qb =~= seq!['"'] + lb);
    assert(qc =~= seq!['"'] + lc);
    assert(qd =~= seq!['"'] + ld);
    let s = render_token(t) + rest;
    let t3 = ld + rest;
    let a3 = esc_str(t.syllable@) + seq!['"'] + t3;
    let t2 = lc + a3;
    let a2 = esc_str(t.mora@) + seq!['"'] + t2;
    let t1 = lb + a2;
    let a1 = esc_str(t.word@) + seq!['"'] + t1;
    assert(s =~= la + a1);
    lemma_parse_lit(la, a1);
    lemma_esc_str_parse(t.word@, t1);
    lemma_parse_lit(lb, a2);
    lemma_esc_str_parse(t.mora@, t2);
    lemma_parse_lit(lc, a3);
    lemma_esc_str_parse(t.syllable@, t3);
    lemma_parse_lit(ld, rest);
}

proof fn lemma_parse_token_items(ts: Seq<LyrianToken>, rest: Seq<char>)
    requires
        ts.len() >= 1,
        rest.len() >= 1,
        rest[0] != ',',
    ensures
        parse_token_list(render_token_items(ts) + rest) == Some((tok_views(ts), rest)),
    decreases ts.len(),
{
    let s = render_token_items(ts) + rest;
    if ts.len() == 1 {
        assert(s =~= render_token(ts[0]) + rest);
        lemma_parse_render_token(ts[0], rest);
        assert(tok_views(ts) =~= seq![ts[0]@]);
    } else {
        let tail = render_token_items(ts.drop_first()) + rest;
        let rest1 = seq![','] + tail;
        assert(s =~= render_token(ts[0]) + rest1);
        lemma_parse_render_token(ts[0], rest1);
        assert(rest1[0] == ',');
        assert(rest1.drop_first() =~= tail);
        lemma_parse_token_items(ts.drop_first(), rest);
        assert(seq![ts[0]@] + tok_views(ts.drop_first()) =~= tok_views(ts));
    }
}

proof fn lemma_parse_render_row(r: Seq<u32>, rest: Seq<char>)
    ensures
        parse_row(render_row(r) + rest) == Some((r, rest)),
        render_row(r).len() > 0,
{
    reveal_strlit("[");
    reveal_strlit("]");
    let lo = "["@;
    let lcl = "]"@;
    let s = render_row(r) + rest;
    let s1 = render_row_items(r) + (seq![']'] + rest);
    assert(lo =~= seq!['[']);
    assert(lcl =~= seq![']']);
    assert(s =~= lo + s1);
    lemma_parse_lit(lo, s1);
    if r.len() == 0 {
        assert(s1 =~= seq![']'] + rest);
        assert(s1[0] == ']');
        assert(s1.drop_first() =~= rest);
        assert(parse_row(s) == Some((Seq::<u32>::empty(), rest)));
        assert(r =~= Seq::<u32>::empty());
    } else {
        lemma_dec_rep_first(r[0] as int);
        assert(s1[0] == dec_rep(r[0] as int)[0]);
        assert(s1[0] != ']');
        lemma_parse_num_items(r, seq![']'] + rest);
        assert((seq![']'] + rest)[0] == ']');
        lemma_parse_lit(lcl, rest);
        assert(seq![']'] + rest =~= lcl + rest);
    }
}

proof fn lemma_parse_num_items(r: Seq<u32>, rest: Seq<char>)
    requires
        r.len() >= 1,
        rest.len() >= 1,
        rest[0] != ',',
        !is_digit(rest[0]),
    ensures
        parse_num_list(render_row_items(r) + rest) == Some((r, rest)),
    decreases r.len(),
{
    let s = render_row_items(r) + rest;
    if r.len() == 1 {
        assert(s =~= dec_rep(r[0] as int) + rest);
        lemma_parse_u32_dec(r[0] as int, rest);
        assert(seq![r[0]] =~= r);
    } else {
        let tail = render_row_items(r.drop_first()) + rest;
        let rest1 = seq![','] + tail;
        assert(s =~= dec_rep(r[0] as int) + rest1);
        assert(rest1[0] == ',');
        assert(!is_digit(','));
        lemma_parse_u32_dec(r[0] as int, rest1);
        assert(rest1.drop_first() =~= tail);
        lemma_parse_num_items(r.drop_first(), rest);
        assert(seq![r[0]] + r.drop_first() =~= r);
    }
}

proof fn lemma_parse_row_items(rows: Seq<Seq<u32>>, rest: Seq<char>)
    requires
        rows.len() >= 1,
        rest.len() >= 1,
        rest[0] != ',',
    ensures
        parse_row_seq(render_row_list(rows) + rest) == Some((rows, rest)),
    decreases rows.len(),
{
    let s = render_row_list(rows) + rest;
    if rows.len() == 1 {
        assert(s =~= render_row(rows[0]) + rest);
        lemma_parse_render_row(rows[0], rest);
        assert(seq![rows[0]] =~= rows);
    } else {
        let tail = render_row_list(rows.drop_first()) + rest;
        let rest1 = seq![','] + tail;
        assert(s =~= render_row(rows[0]) + rest1);
        lemma_parse_render_row(rows[0], rest1);
        assert(rest1[0] == ',');
        assert(rest1.drop_first() =~= tail);
        lemma_parse_row_items(rows.drop_first(), rest);
        assert(seq![rows[0]] + rows.drop_first() =~= rows);
    }
}

/// The round-trip law: reading a written model gives back exactly the
/// token views and the count matrix that were written, for every model.
pub proof fn lemma_model_round_trip(toks: Seq<LyrianToken>, rows: Seq<Seq<u32>>)
    ensures
        parse_model(render_model(toks, rows)) == Some((tok_views(toks), rows)),
{
    let le = "{\"elements\":["@;
    let lr = ",\"rows\":["@;
    let lrfull = "],\"rows\":["@;
    let lcl = "]"@;
    let lend = "]}"@;
    let lbrace = "}"@;
    reveal_strlit("{\"elements\":[");
    reveal_strlit(",\"rows\":[");
    reveal_strlit("],\"rows\":[");
    reveal_strlit("]");
    reveal_strlit("]}");
    reveal_strlit("}");
    reveal_strlit("{\"word\":\"");
    assert(lrfull =~= seq![']'] + lr);
    assert(lend =~= seq![']'] + lbrace);
    let s = render_model(toks, rows);
    let after_rows = lend + Seq::<char>::empty();
    let rows_part = render_row_list(rows) + after_rows;
    let mid = lrfull + (render_row_list(rows) + lend);
    let s1 = render_token_items(toks) + mid;
    assert(s =~= le + s1);
    lemma_parse_lit(le, s1);
    assert(after_rows =~= lend);

    // The token list part.
    let s4: Seq<char>;
    if toks.len() == 0 {
        assert(s1 =~= seq![']'] + (lr + (render_row_list(rows) + lend)));
        assert(s1[0] == ']');
        s4 = lr + (render_row_list(rows) + lend);
        assert(s1.drop_first() =~= s4);
        assert(tok_views(toks) =~= Seq::<(Seq<char>, Seq<char>, Seq<char>)>::empty());
    } else {
        lemma_parse_token_items(toks, mid);
        assert(mid[0] == ']');
        assert(s1[0] == render_token(toks[0])[0]) by {
            assert(render_token_items(toks).len() > 0 ==> render_token_items(toks)[0]
                == render_token(toks[0])[0]);
            lemma_parse_render_token(toks[0], mid);
        }
        assert(s1[0] == '{');
        assert(s1[0] != ']');
        s4 = lr + (render_row_list(rows) + lend);
        assert(mid =~= lcl + s4);
        lemma_parse_lit(lcl, s4);
    }

    // The row matrix part.
    lemma_parse_lit(lr, render_row_list(rows) + lend);
    let s5 = render_row_list(rows) + lend;
    let s8: Seq<char>;
    if rows.len() == 0 {
        assert(s5 =~= seq![']'] + lbrace);
        assert(s5[0] == ']');
        s8 = lbrace;
        assert(s5.drop_first() =~= s8);
        assert(rows =~= Seq::<Seq<u32>>::empty());
    } else {
        assert(lend =~= lcl + lbrace);
        assert(s5 =~= render_row_list(rows) + (lcl + lbrace));
        lemma_parse_row_items(rows, lcl + lbrace);
        assert((lcl + lbrace)[0] == ']');
        assert(s5[0] == render_row(rows[0])[0]);
        assert(s5[0] == '[');
        assert(s5[0] != ']');
        s8 = lbrace;
        lemma_parse_lit(lcl, lbrace);
    }
    lemma_parse_lit(lbrace, Seq::<char>::empty());
    assert(s8 =~= lbrace + Seq::<char>::empty());
}

/// The shape that parsed parts must have to form a model: one matrix row
/// per token, each as long as the token list, no token view twice, and a
/// token count within range.
pub open spec fn shape_ok_views(
    ts: Seq<(Seq<char>, Seq<char>, Seq<char>)>,
    rs: Seq<Seq<u32>>,
) -> bool {
    &&& rs.len() == ts.len()
    &&& forall|i: int| 0 <= i < rs.len() ==> (#[trigger] rs[i]).len() == ts.len()
    &&& ts.len() <= u32::MAX
    &&& forall|p: int, q: int| 0 <= p < q < ts.len() ==> (#[trigger] ts[p]) != (#[trigger] ts[q])
}

proof fn lemma_esc_str_snoc(s: Seq<char>, c: char)
    ensures
        esc_str(s.push(c)) == esc_str(s) + esc_char(c),
    decreases s.len(),
{
    if s.len() == 0 {
        assert(s.push(c)[0] == c);
        assert(s.push(c).drop_first() =~= Seq::<char>::empty());
        assert(esc_char(c) + esc_str(Seq::empty()) =~= esc_str(s) + esc_char(c));
    } else {
        assert(s.push(c)[0] == s[0]);
        assert(s.push(c).drop_first() =~= s.drop_first().push(c));
        lemma_esc_str_snoc(s.drop_first(), c);
        assert(esc_char(s[0]) + (esc_str(s.drop_first()) + esc_char(c)) =~= (esc_char(s[0])
            + esc_str(s.drop_first())) + esc_char(c));
    }
}

/// The decimal digit character of a small count.
fn dec_digit_char(n: u32) -> (c: char)
    requires
        n < 10,
    ensures
        c == digit_char(n as int),
{
    if n == 0 {
        '0'
    } else if n == 1 {
        '1'
    } else if n == 2 {
        '2'
    } else if n == 3 {
        '3'
    } else if n == 4 {
        '4'
    } else if n == 5 {
        '5'
    } else if n == 6 {
        '6'
    } else if n == 7 {
        '7'
    } else if n == 8 {
        '8'
    } else {
        '9'
    }
}

/// The hexadecimal digit character of a value below sixteen.
fn hex_digit_char(n: u32) -> (c: char)
    requires
        n < 16,
    ensures
        c == digit_char_hex(n as int),
{
    if n < 10 {
        dec_digit_char(n)
    } else if n == 10 {
        'a'
    } else if n == 11 {
        'b'
    } else if n == 12 {
        'c'
    } else if n == 13 {
        'd'
    } else if n == 14 {
        'e'
    } else {
        'f'
    }
}

/// Appends the written form of the string's characters, escaping where
/// the format requires it.
#[verifier::loop_isolation(false)]
fn push_escaped(out: &mut String, s: &str)
    ensures
        final(out)@ == old(out)@ + esc_str(s@),
{
    let cs = chars_of(s);
    let ghost base = out@;
    let mut i: usize = 0;
    while i < cs.len()
        invariant
            i <= cs@.len(),
            cs@ == s@,
            out@ == base + esc_str(s@.take(i as int)),
        decreases cs@.len() - i,
    {
        proof {
            lemma_esc_str_snoc(s@.take(i as int), s@[i as int]);
            assert(s@.take(i as int + 1) =~= s@.take(i as int).push(s@[i as int]));
        }
        let c = cs[i];
        proof {
            char_bounds(c);
        }
        if c == '"' {
            push_char(out, '\\');
            push_char(out, '"');
            proof {
                assert(esc_char(c) =~= seq!['\\', '"']);
                assert(out@ =~= base + esc_str(s@.take(i as int + 1)));
            }
        } else if c == '\\' {
            push_char(out, '\\');
            push_char(out, '\\');
            proof {
                assert(esc_char(c) =~= seq!['\\', '\\']);
                assert(out@ =~= base + esc_str(s@.take(i as int + 1)));
            }
        } else if (c as u32) < 32 {
            let code = c as u32;
            push_char(out, '\\');
            push_char(out, 'u');
            push_char(out, '0');
            push_char(out, '0');
            push_char(out, hex_digit_char(code / 16));
            push_char(out, hex_digit_char(code % 16));
            proof {
                assert(esc_char(c) =~= seq![
                    '\\',
                    'u',
                    '0',
                    '0',
                    digit_char_hex((c as int) / 16),
                    digit_char_hex((c as int) % 16),
                ]);
                assert(out@ =~= base + esc_str(s@.take(i as int + 1)));
            }
        } else {
            push_char(out, c);
            proof {
                assert(esc_char(c) =~= seq![c]);
                assert(out@ =~= base + esc_str(s@.take(i as int + 1)));
            }
        }
        i = i + 1;
    }
    proof {
        assert(s@.take(s@.len() as int) =~= s@);
    }
}

/// Appends the decimal representation of a count.
fn push_dec(out: &mut String, n: u32)
    ensures
        final(out)@ == old(out)@ + dec_rep(n as int),
    decreases n,
{
    if n < 10 {
        push_char(out, dec_digit_char(n));
        proof {
            assert(old(out)@.push(digit_char(n as int)) =~= old(out)@ + dec_rep(n as int));
        }
    } else {
        push_dec(out, n / 10);
        push_char(out, dec_digit_char(n % 10));
        proof {
            assert((old(out)@ + dec_rep(n as int / 10)).push(digit_char(n as int % 10)) =~= old(
                out,
            )@ + dec_rep(n as int));
        }
    }
}

/// Appends the written form of one token object.
fn push_token(out: &mut String, t: &LyrianToken)
    ensures
        final(out)@ == old(out)@ + render_token(*t),
{
    out.append("{\"word\":\"");
    push_escaped(out, t.word.as_str());
    out.append("\",\"mora\":\"");
    push_escaped(out, t.mora.as_str());
    out.append("\",\"syllable\":\"");
    push_escaped(out, t.syllable.as_str());
    out.append("\"}");
    proof {
        assert(out@ =~= old(out)@ + render_token(*t));
    }
}

/// Appends the written forms of the tokens from state `i` on.
fn push_token_items(out: &mut String, m: &MarkovModel, i: usize)
    requires
        i < m.size(),
    ensures
        final(out)@ == old(out)@ + render_token_items(m.tokens().skip(i as int)),
    decreases m.size() - i,
{
    let ghost sk = m.tokens().skip(i as int);
    proof {
        assert(sk.len() == m.size() - i);
        assert(sk[0] == m.tokens()[i as int]);
    }
    let t = m.token_at(i);
    push_token(out, t);
    let n = m.size_exec();
    if i < n - 1 {
        out.append(",");
        push_token_items(out, m, i + 1);
        proof {
            reveal_strlit(",");
            assert(","@ =~= seq![',']);
            assert(sk.drop_first() =~= m.tokens().skip(i as int + 1));
            assert(render_token_items(sk) == render_token(sk[0]) + seq![',']
                + render_token_items(sk.drop_first()));
            assert(out@ =~= old(out)@ + render_token_items(sk));
        }
    } else {
        proof {
            assert(sk.len() == 1);
        }
    }
}

/// Appends the written forms of one row's counts from column `j` on.
fn push_row_items(out: &mut String, m: &MarkovModel, i: usize, j: usize)
    requires
        i < m.size(),
        j < m.size(),
    ensures
        final(out)@ == old(out)@ + render_row_items(m.row(i as int).skip(j as int)),
    decreases m.size() - j,
{
    let rl = m.row_len(i);
    let ghost sk = m.row(i as int).skip(j as int);
    proof {
        assert(sk.len() == m.size() - j);
        assert(sk[0] == m.row(i as int)[j as int]);
    }
    let c = m.count_at(i, j);
    push_dec(out, c);
    let n = m.size_exec();
    if j < n - 1 {
        out.append(",");
        push_row_items(out, m, i, j + 1);
        proof {
            reveal_strlit(",");
            assert(","@ =~= seq![',']);
            assert(sk.drop_first() =~= m.row(i as int).skip(j as int + 1));
            assert(out@ =~= old(out)@ + render_row_items(sk));
        }
    } else {
        proof {
            assert(sk.len() == 1);
        }
    }
}

/// Appends the written form of one row.
fn push_row(out: &mut String, m: &MarkovModel, i: usize)
    requires
        i < m.size(),
    ensures
        final(out)@ == old(out)@ + render_row(m.row(i as int)),
{
    push_char(out, '[');
    push_row_items(out, m, i, 0);
    push_char(out, ']');
    proof {
        assert(m.row(i as int).skip(0) =~= m.row(i as int));
        assert(out@ =~= old(out)@ + render_row(m.row(i as int)));
    }
}

/// Appends the written forms of the rows from row `i` on.
fn push_row_list(out: &mut String, m: &MarkovModel, i: usize)
    requires
        i < m.size(),
    ensures
        final(out)@ == old(out)@ + render_row_list(m.rows_view().skip(i as int)),
    decreases m.size() - i,
{
    let ghost sk = m.rows_view().skip(i as int);
    proof {
        assert(m.rows_view().len() == m.size());
        assert(sk.len() == m.size() - i);
        assert(sk[0] == m.rows_view()[i as int]);
        assert(m.rows_view()[i as int] == m.row(i as int));
    }
    push_row(out, m, i);
    let n = m.size_exec();
    if i < n - 1 {
        out.append(",");
        push_row_list(out, m, i + 1);
        proof {
            reveal_strlit(",");
            assert(","@ =~= seq![',']);
            assert(sk.drop_first() =~= m.rows_view().skip(i as int + 1));
            assert(out@ =~= old(out)@ + render_row_list(sk));
        }
    } else {
        proof {
            assert(sk.len() == 1);
        }
    }
}

/// Writes the whole model in its canonical persisted form.
pub fn render_model_exec(m: &MarkovModel) -> (r: String)
    ensures
        r@ == render_model(m.tokens(), m.rows_view()),
{
    let mut out = String::new();
    out.append("{\"elements\":[");
    if m.size_exec() > 0 {
        push_token_items(&mut out, m, 0);
        proof {
            assert(m.tokens().skip(0) =~= m.tokens());
        }
    } else {
        proof {
            assert(m.tokens().len() == 0);
        }
    }
    out.append("],\"rows\":[");
    if m.size_exec() > 0 {
        push_row_list(&mut out, m, 0);
        proof {
            assert(m.rows_view().skip(0) =~= m.rows_view());
        }
    } else {
        proof {
            assert(m.rows_view().len() == 0);
        }
    }
    out.append("]}");
    proof {
        assert(out@ =~= render_model(m.tokens(), m.rows_view()));
    }
    out
}



/// Consumes the literal at the front of the remaining input.
#[verifier::loop_isolation(false)]
fn parse_lit_exec(cs: &Vec<char>, pos: usize, lit: &Vec<char>) -> (r: Option<usize>)
    requires
        pos <= cs@.len(),
    ensures
        match r {
            Some(p2) => p2 <= cs@.len() && parse_lit(cs@.skip(pos as int), lit@) == Some(
                cs@.skip(p2 as int),
            ),
            None => parse_lit(cs@.skip(pos as int), lit@) is None,
        },
{
    let ghost s = cs@.skip(pos as int);
    if cs.len() - pos < lit.len() {
        proof {
            assert(s.len() < lit@.len());
        }
        return None;
    }
    let mut k: usize = 0;
    while k < lit.len()
        invariant
            k <= lit@.len(),
            forall|q: int| 0 <= q < k ==> cs@[pos + q] == lit@[q],
        decreases lit@.len() - k,
    {
        if cs[pos + k] != lit[k] {
            proof {
                assert(s.take(lit@.len() as int)[k as int] == cs@[pos + k]);
                assert(s.take(lit@.len() as int) != lit@);
            }
            return None;
        }
        k = k + 1;
    }
    proof {
        assert(s.take(lit@.len() as int) =~= lit@);
        assert(s.skip(lit@.len() as int) =~= cs@.skip(pos + lit@.len()));
    }
    Some(pos + lit.len())
}

/// Decides whether `c` is a decimal digit.
fn is_digit_exec(c: char) -> (b: bool)
    ensures
        b == is_digit(c),
{
    '0' <= c && c <= '9'
}

/// The control character a pair of hexadecimal digits names, if any.
fn ctrl_of_hex_exec(hi: char, lo: char) -> (r: Option<char>)
    ensures
        r == ctrl_of_hex(hi, lo),
{
    proof {
        char_bounds(lo);
    }
    let lo_ok = is_digit_exec(lo) || lo == 'a' || lo == 'b' || lo == 'c' || lo == 'd' || lo == 'e'
        || lo == 'f';
    if (hi == '0' || hi == '1') && lo_ok {
        let lo_val: u32 = if '0' <= lo && lo <= '9' {
            lo as u32 - '0' as u32
        } else {
            lo as u32 - 'a' as u32 + 10
        };
        let code: u32 = if hi == '0' {
            lo_val
        } else {
            16 + lo_val
        };
        proof {
            assert(code as int == (if hi == '0' {
                0int
            } else {
                16int
            }) + hex_val(lo));
        }
        Some(ctrl_char_exec(code))
    } else {
        None
    }
}

/// The control character with the given code point.
fn ctrl_char_exec(code: u32) -> (c: char)
    requires
        code < 32,
    ensures
        c == ctrl_char(code as int),
{
    if code == 0 {
        '\u{00}'
    } else if code == 1 {
        '\u{01}'
    } else if code == 2 {
        '\u{02}'
    } else if code == 3 {
        '\u{03}'
    } else if code == 4 {
        '\u{04}'
    } else if code == 5 {
        '\u{05}'
    } else if code == 6 {
        '\u{06}'
    } else if code == 7 {
        '\u{07}'
    } else if code == 8 {
        '\u{08}'
    } else if code == 9 {
        '\u{09}'
    } else if code == 10 {
        '\u{0a}'
    } else if code == 11 {
        '\u{0b}'
    } else if code == 12 {
        '\u{0c}'
    } else if code == 13 {
        '\u{0d}'
    } else if code == 14 {
        '\u{0e}'
    } else if code == 15 {
        '\u{0f}'
    } else if code == 16 {
        '\u{10}'
    } else if code == 17 {
        '\u{11}'
    } else if code == 18 {
        '\u{12}'
    } else if code == 19 {
        '\u{13}'
    } else if code == 20 {
        '\u{14}'
    } else if code == 21 {
        '\u{15}'
    } else if code == 22 {
        '\u{16}'
    } else if code == 23 {
        '\u{17}'
    } else if code == 24 {
        '\u{18}'
    } else if code == 25 {
        '\u{19}'
    } else if code == 26 {
        '\u{1a}'
    } else if code == 27 {
        '\u{1b}'
    } else if code == 28 {
        '\u{1c}'
    } else if code == 29 {
        '\u{1d}'
    } else if code == 30 {
        '\u{1e}'
    } else {
        '\u{1f}'
    }
}

/// Reads a written string up to and including its closing quote, undoing
/// the escapes.
fn parse_string_body_exec(cs: &Vec<char>, pos: usize) -> (r: Option<(String, usize)>)
    requires
        pos <= cs@.len(),
    ensures
        match r {
            Some(v) => v.1 <= cs@.len() && parse_string_body(cs@.skip(pos as int)) == Some(
                (v.0@, cs@.skip(v.1 as int)),
            ),
            None => parse_string_body(cs@.skip(pos as int)) is None,
        },
    decreases cs@.len() - pos,
{
    let ghost s = cs@.skip(pos as int);
    if pos >= cs.len() {
        return None;
    }
    let c0 = cs[pos];
    proof {
        char_bounds(c0);
        assert(s[0] == cs@[pos as int]);
    }
    if c0 == '"' {
        proof {
            assert(s.drop_first() =~= cs@.skip(pos as int + 1));
        }
        let w = String::new();
        proof {
            assert(w@ =~= Seq::<char>::empty());
        }
        Some((w, pos + 1))
    } else if c0 == '\\' {
        if pos + 1 >= cs.len() {
            proof {
                assert(s.len() < 2);
            }
            return None;
        }
        let c1 = cs[pos + 1];
        proof {
            assert(s[1] == cs@[pos as int + 1]);
        }
        if c1 == '"' || c1 == '\\' {
            proof {
                assert(s.skip(2) =~= cs@.skip(pos as int + 2));
            }
            match parse_string_body_exec(cs, pos + 2) {
                Some((w, p2)) => {
                    let mut o = String::new();
                    push_char(&mut o, c1);
                    o.append(w.as_str());
                    proof {
                        assert(o@ =~= seq![s[1]] + w@);
                    }
                    Some((o, p2))
                },
                None => None,
            }
        } else if c1 == 'u' {
            if cs.len() - pos < 6 {
                proof {
                    assert(s.len() < 6);
                }
                return None;
            }
            proof {
                assert(s[2] == cs@[pos as int + 2]);
                assert(s[3] == cs@[pos as int + 3]);
                assert(s[4] == cs@[pos as int + 4]);
                assert(s[5] == cs@[pos as int + 5]);
            }
            if cs[pos + 2] == '0' && cs[pos + 3] == '0' {
                match ctrl_of_hex_exec(cs[pos + 4], cs[pos + 5]) {
                    Some(c) => {
                        proof {
                            assert(s.skip(6) =~= cs@.skip(pos as int + 6));
                        }
                        match parse_string_body_exec(cs, pos + 6) {
                            Some((w, p2)) => {
                                let mut o = String::new();
                                push_char(&mut o, c);
                                o.append(w.as_str());
                                proof {
                                    assert(o@ =~= seq![c] + w@);
                                }
                                Some((o, p2))
                            },
                            None => None,
                        }
                    },
                    None => None,
                }
            } else {
                None
            }
        } else {
            None
        }
    } else if (c0 as u32) < 32 {
        None
    } else {
        proof {
            assert(s.drop_first() =~= cs@.skip(pos as int + 1));
        }
        match parse_string_body_exec(cs, pos + 1) {
            Some((w, p2)) => {
                let mut o = String::new();
                push_char(&mut o, c0);
                o.append(w.as_str());
                proof {
                    assert(o@ =~= seq![s[0]] + w@);
                }
                Some((o, p2))
            },
            None => None,
        }
    }
}

/// Reads the digits of one count into an accumulator.
fn parse_digits_exec(cs: &Vec<char>, pos: usize, acc: u32) -> (r: Option<(u32, usize)>)
    requires
        pos <= cs@.len(),
    ensures
        match r {
            Some(v) => v.1 <= cs@.len() && parse_digits(cs@.skip(pos as int), acc as int) == Some(
                (v.0 as int, cs@.skip(v.1 as int)),
            ),
            None => parse_digits(cs@.skip(pos as int), acc as int) is None,
        },
    decreases cs@.len() - pos,
{
    let ghost s = cs@.skip(pos as int);
    if pos < cs.len() && is_digit_exec(cs[pos]) {
        let c = cs[pos];
        proof {
            char_bounds(c);
            assert(s[0] == cs@[pos as int]);
        }
        let d: u32 = c as u32 - '0' as u32;
        proof {
            assert(d as int == digit_val(c));
        }
        let acc2: u64 = acc as u64 * 10 + d as u64;
        if acc2 > u32::MAX as u64 {
            None
        } else {
            proof {
                assert(s.drop_first() =~= cs@.skip(pos as int + 1));
            }
            parse_digits_exec(cs, pos + 1, acc2 as u32)
        }
    } else {
        proof {
            if pos < cs@.len() {
                assert(s[0] == cs@[pos as int]);
            }
        }
        Some((acc, pos))
    }
}

/// Reads one count from the remaining input.
fn parse_u32_exec(cs: &Vec<char>, pos: usize) -> (r: Option<(u32, usize)>)
    requires
        pos <= cs@.len(),
    ensures
        match r {
            Some(v) => v.1 <= cs@.len() && parse_u32(cs@.skip(pos as int)) == Some(
                (v.0 as int, cs@.skip(v.1 as int)),
            ),
            None => parse_u32(cs@.skip(pos as int)) is None,
        },
{
    let ghost s = cs@.skip(pos as int);
    if pos < cs.len() && is_digit_exec(cs[pos]) {
        proof {
            assert(s[0] == cs@[pos as int]);
        }
        parse_digits_exec(cs, pos, 0)
    } else {
        proof {
            if pos < cs@.len() {
                assert(s[0] == cs@[pos as int]);
            }
        }
        None
    }
}

/// Reads one token object from the remaining input.
fn parse_token_exec(cs: &Vec<char>, pos: usize) -> (r: Option<(LyrianToken, usize)>)
    requires
        pos <= cs@.len(),
    ensures
        match r {
            Some(v) => v.1 <= cs@.len() && parse_token(cs@.skip(pos as int)) == Some(
                (v.0@, cs@.skip(v.1 as int)),
            ),
            None => parse_token(cs@.skip(pos as int)) is None,
        },
{
    let lit_a = chars_of("{\"word\":\"");
    let p1 = match parse_lit_exec(cs, pos, &lit_a) {
        Some(p) => p,
        None => {
            return None;
        },
    };
    let (w, p2) = match parse_string_body_exec(cs, p1) {
        Some(v) => v,
        None => {
            return None;
        },
    };
    let lit_b = chars_of(",\"mora\":\"");
    let p3 = match parse_lit_exec(cs, p2, &lit_b) {
        Some(p) => p,
        None => {
            return None;
        },
    };
    let (mo, p4) = match parse_string_body_exec(cs, p3) {
        Some(v) => v,
        None => {
            return None;
        },
    };
    let lit_c = chars_of(",\"syllable\":\"");
    let p5 = match parse_lit_exec(cs, p4, &lit_c) {
        Some(p) => p,
        None => {
            return None;
        },
    };
    let (sy, p6) = match parse_string_body_exec(cs, p5) {
        Some(v) => v,
        None => {
            return None;
        },
    };
    let lit_d = chars_of("}");
    let p7 = match parse_lit_exec(cs, p6, &lit_d) {
        Some(p) => p,
        None => {
            return None;
        },
    };
    let t = LyrianToken::new(w, mo, sy);
    Some((t, p7))
}

/// Reads a comma-separated run of token objects.
fn parse_token_list_exec(cs: &Vec<char>, pos: usize) -> (r: Option<(Vec<LyrianToken>, usize)>)
    requires
        pos <= cs@.len(),
    ensures
        match r {
            Some(v) => v.1 <= cs@.len() && parse_token_list(cs@.skip(pos as int)) == Some(
                (tok_views(v.0@), cs@.skip(v.1 as int)),
            ),
            None => parse_token_list(cs@.skip(pos as int)) is None,
        },
    decreases cs@.len() - pos,
{
    let ghost s = cs@.skip(pos as int);
    let (t, p1) = match parse_token_exec(cs, pos) {
        Some(v) => v,
        None => {
            return None;
        },
    };
    if p1 <= pos {
        proof {
            assert(cs@.skip(p1 as int).len() >= s.len());
        }
        return None;
    }
    proof {
        assert(cs@.skip(p1 as int).len() < s.len());
    }
    if p1 < cs.len() && cs[p1] == ',' {
        proof {
            assert(cs@.skip(p1 as int)[0] == cs@[p1 as int]);
            assert(cs@.skip(p1 as int).drop_first() =~= cs@.skip(p1 as int + 1));
        }
        match parse_token_list_exec(cs, p1 + 1) {
            Some((ts, p2)) => {
                let ghost tsv = ts@;
                let mut out: Vec<LyrianToken> = Vec::new();
                out.push(t);
                let mut rest_vec = ts;
                out.append(&mut rest_vec);
                proof {
                    assert(tok_views(out@) =~= seq![t@] + tok_views(tsv));
                }
                Some((out, p2))
            },
            None => None,
        }
    } else {
        proof {
            if p1 < cs@.len() {
                assert(cs@.skip(p1 as int)[0] == cs@[p1 as int]);
            }
        }
        let mut out: Vec<LyrianToken> = Vec::new();
        out.push(t);
        proof {
            assert(tok_views(out@) =~= seq![t@]);
        }
        Some((out, p1))
    }
}

/// Reads a comma-separated run of counts.
fn parse_num_list_exec(cs: &Vec<char>, pos: usize) -> (r: Option<(Vec<u32>, usize)>)
    requires
        pos <= cs@.len(),
    ensures
        match r {
            Some(v) => v.1 <= cs@.len() && parse_num_list(cs@.skip(pos as int)) == Some(
                (v.0@, cs@.skip(v.1 as int)),
            ),
            None => parse_num_list(cs@.skip(pos as int)) is None,
        },
    decreases cs@.len() - pos,
{
    let ghost s = cs@.skip(pos as int);
    let (n, p1) = match parse_u32_exec(cs, pos) {
        Some(v) => v,
        None => {
            return None;
        },
    };
    if p1 <= pos {
        proof {
            assert(cs@.skip(p1 as int).len() >= s.len());
        }
        return None;
    }
    proof {
        assert(cs@.skip(p1 as int).len() < s.len());
    }
    if p1 < cs.len() && cs[p1] == ',' {
        proof {
            assert(cs@.skip(p1 as int)[0] == cs@[p1 as int]);
            assert(cs@.skip(p1 as int).drop_first() =~= cs@.skip(p1 as int + 1));
        }
        match parse_num_list_exec(cs, p1 + 1) {
            Some((ns, p2)) => {
                let ghost nsv = ns@;
                let mut out: Vec<u32> = Vec::new();
                out.push(n);
                let mut rest_vec = ns;
                out.append(&mut rest_vec);
                proof {
                    assert(out@ =~= seq![n] + nsv);
                }
                Some((out, p2))
            },
            None => None,
        }
    } else {
        proof {
            if p1 < cs@.len() {
                assert(cs@.skip(p1 as int)[0] == cs@[p1 as int]);
            }
        }
        let mut out: Vec<u32> = Vec::new();
        out.push(n);
        proof {
            assert(out@ =~= seq![n]);
        }
        Some((out, p1))
    }
}

/// Reads one bracketed count row.
fn parse_row_exec(cs: &Vec<char>, pos: usize) -> (r: Option<(Vec<u32>, usize)>)
    requires
        pos <= cs@.len(),
    ensures
        match r {
            Some(v) => v.1 <= cs@.len() && parse_row(cs@.skip(pos as int)) == Some(
                (v.0@, cs@.skip(v.1 as int)),
            ),
            None => parse_row(cs@.skip(pos as int)) is None,
        },
{
    let lit_open = chars_of("[");
    let p1 = match parse_lit_exec(cs, pos, &lit_open) {
        Some(p) => p,
        None => {
            return None;
        },
    };
    if p1 < cs.len() && cs[p1] == ']' {
        proof {
            assert(cs@.skip(p1 as int)[0] == cs@[p1 as int]);
            assert(cs@.skip(p1 as int).drop_first() =~= cs@.skip(p1 as int + 1));
        }
        let out: Vec<u32> = Vec::new();
        proof {
            assert(out@ =~= Seq::<u32>::empty());
        }
        return Some((out, p1 + 1));
    }
    proof {
        if p1 < cs@.len() {
            assert(cs@.skip(p1 as int)[0] == cs@[p1 as int]);
        }
    }
    let (ns, p2) = match parse_num_list_exec(cs, p1) {
        Some(v) => v,
        None => {
            return None;
        },
    };
    let lit_close = chars_of("]");
    let p3 = match parse_lit_exec(cs, p2, &lit_close) {
        Some(p) => p,
        None => {
            return None;
        },
    };
    Some((ns, p3))
}

/// Reads a comma-separated run of rows.
fn parse_row_seq_exec(cs: &Vec<char>, pos: usize) -> (r: Option<(Vec<Vec<u32>>, usize)>)
    requires
        pos <= cs@.len(),
    ensures
        match r {
            Some(v) => v.1 <= cs@.len() && parse_row_seq(cs@.skip(pos as int)) == Some(
                (vecs_view(v.0@), cs@.skip(v.1 as int)),
            ),
            None => parse_row_seq(cs@.skip(pos as int)) is None,
        },
    decreases cs@.len() - pos,
{
    let ghost s = cs@.skip(pos as int);
    let (rw, p1) = match parse_row_exec(cs, pos) {
        Some(v) => v,
        None => {
            return None;
        },
    };
    if p1 <= pos {
        proof {
            assert(cs@.skip(p1 as int).len() >= s.len());
        }
        return None;
    }
    proof {
        assert(cs@.skip(p1 as int).len() < s.len());
    }
    if p1 < cs.len() && cs[p1] == ',' {
        proof {
            assert(cs@.skip(p1 as int)[0] == cs@[p1 as int]);
            assert(cs@.skip(p1 as int).drop_first() =~= cs@.skip(p1 as int + 1));
        }
        match parse_row_seq_exec(cs, p1 + 1) {
            Some((rs, p2)) => {
                let ghost rsv = rs@;
                let ghost rwv = rw@;
                let mut out: Vec<Vec<u32>> = Vec::new();
                out.push(rw);
                let mut rest_vec = rs;
                out.append(&mut rest_vec);
                proof {
                    assert(vecs_view(out@) =~= seq![rwv] + vecs_view(rsv));
                }
                Some((out, p2))
            },
            None => None,
        }
    } else {
        proof {
            if p1 < cs@.len() {
                assert(cs@.skip(p1 as int)[0] == cs@[p1 as int]);
            }
        }
        let ghost rwv = rw@;
        let mut out: Vec<Vec<u32>> = Vec::new();
        out.push(rw);
        proof {
            assert(vecs_view(out@) =~= seq![rwv]);
        }
        Some((out, p1))
    }
}

/// Reads a whole written model: its tokens and its count matrix. The text
/// must be exactly one canonical model object.
pub fn parse_model_exec(cs: &Vec<char>) -> (r: Option<(Vec<LyrianToken>, Vec<Vec<u32>>)>)
    ensures
        match r {
            Some(v) => parse_model(cs@) == Some((tok_views(v.0@), vecs_view(v.1@))),
            None => parse_model(cs@) is None,
        },
{
    let ghost s0 = cs@;
    proof {
        assert(cs@.skip(0) =~= cs@);
    }
    let lit_e = chars_of("{\"elements\":[");
    let p1 = match parse_lit_exec(cs, 0, &lit_e) {
        Some(p) => p,
        None => {
            return None;
        },
    };
    let toks: Vec<LyrianToken>;
    let p4: usize;
    if p1 < cs.len() && cs[p1] == ']' {
        proof {
            assert(cs@.skip(p1 as int)[0] == cs@[p1 as int]);
            assert(cs@.skip(p1 as int).drop_first() =~= cs@.skip(p1 as int + 1));
        }
        toks = Vec::new();
        p4 = p1 + 1;
        proof {
            assert(tok_views(toks@) =~= Seq::<(Seq<char>, Seq<char>, Seq<char>)>::empty());
        }
    } else {
        proof {
            if p1 < cs@.len() {
                assert(cs@.skip(p1 as int)[0] == cs@[p1 as int]);
            }
        }
        let (ts, p2) = match parse_token_list_exec(cs, p1) {
            Some(v) => v,
            None => {
                return None;
            },
        };
        let lit_close = chars_of("]");
        let p3 = match parse_lit_exec(cs, p2, &lit_close) {
            Some(p) => p,
            None => {
                return None;
            },
        };
        toks = ts;
        p4 = p3;
    }
    let lit_r = chars_of(",\"rows\":[");
    let p5 = match parse_lit_exec(cs, p4, &lit_r) {
        Some(p) => p,
        None => {
            return None;
        },
    };
    let rows: Vec<Vec<u32>>;
    let p8: usize;
    if p5 < cs.len() && cs[p5] == ']' {
        proof {
            assert(cs@.skip(p5 as int)[0] == cs@[p5 as int]);
            assert(cs@.skip(p5 as int).drop_first() =~= cs@.skip(p5 as int + 1));
        }
        rows = Vec::new();
        p8 = p5 + 1;
        proof {
            assert(vecs_view(rows@) =~= Seq::<Seq<u32>>::empty());
        }
    } else {
        proof {
            if p5 < cs@.len() {
                assert(cs@.skip(p5 as int)[0] == cs@[p5 as int]);
            }
        }
        let (rs, p6) = match parse_row_seq_exec(cs, p5) {
            Some(v) => v,
            None => {
                return None;
            },
        };
        let lit_close = chars_of("]");
        let p7 = match parse_lit_exec(cs, p6, &lit_close) {
            Some(p) => p,
            None => {
                return None;
            },
        };
        rows = rs;
        p8 = p7;
    }
    let lit_end = chars_of("}");
    let p9 = match parse_lit_exec(cs, p8, &lit_end) {
        Some(p) => p,
        None => {
            return None;
        },
    };
    if p9 == cs.len() {
        proof {
            assert(cs@.skip(p9 as int).len() == 0);
        }
        Some((toks, rows))
    } else {
        proof {
            assert(cs@.skip(p9 as int).len() != 0);
        }
        None
    }
}


} // verus!
