//! Tokenization of text values: version stacks split on `/`, and 1D
//! array strings split on commas, semicolons and whitespace with each
//! token parsed as a number or boolean.

use vstd::prelude::*;
use vstd::std_specs::iter::IteratorSpec;
use crate::layout::floatbits::{dec_to_f64_bits, dec_to_f64_bits_x};
use crate::layout::value::{views1, DataValue, DataValueV, ValueSource, ValueSourceV};

verus! {

// --- Character classes ---------------------------------------------------

/// ASCII whitespace, as the 1D tokenizer splits on it.
pub open spec fn is_space(c: char) -> bool {
    c == ' ' || c == '\t' || c == '\n' || c == '\r' || c == '\u{000C}'
}

pub open spec fn is_list_sep(c: char) -> bool {
    c == ',' || c == ';' || is_space(c)
}

/// Unicode whitespace, as trimming removes it: the characters with the
/// White_Space property.
pub open spec fn is_trim_space(c: char) -> bool {
    c == ' ' || c == '\t' || c == '\n' || c == '\r' || c == '\u{000B}' || c == '\u{000C}' || c
        == '\u{0085}' || c == '\u{00A0}' || c == '\u{1680}' || ('\u{2000}' <= c && c
        <= '\u{200A}') || c == '\u{2028}' || c == '\u{2029}' || c == '\u{202F}' || c
        == '\u{205F}' || c == '\u{3000}'
}

/// Exec test for `is_trim_space`.
pub fn trim_space(c: char) -> (b: bool)
    ensures
        b == is_trim_space(c),
{
    c == ' ' || c == '\t' || c == '\n' || c == '\r' || c == '\u{000B}' || c == '\u{000C}' || c
        == '\u{0085}' || c == '\u{00A0}' || c == '\u{1680}' || ('\u{2000}' <= c && c
        <= '\u{200A}') || c == '\u{2028}' || c == '\u{2029}' || c == '\u{202F}' || c
        == '\u{205F}' || c == '\u{3000}'
}

pub open spec fn is_digit(c: char) -> bool {
    '0' <= c && c <= '9'
}

pub open spec fn digit_val(c: char) -> nat {
    ((c as u32) - 48) as nat
}

pub open spec fn is_hex_digit(c: char) -> bool {
    is_digit(c) || ('a' <= c && c <= 'f') || ('A' <= c && c <= 'F')
}

pub open spec fn hex_digit_val(c: char) -> nat {
    if is_digit(c) {
        digit_val(c)
    } else if 'a' <= c && c <= 'f' {
        ((c as u32) - 87) as nat
    } else {
        ((c as u32) - 55) as nat
    }
}

pub open spec fn all_digits(s: Seq<char>) -> bool {
    forall|i: int| 0 <= i < s.len() ==> is_digit(#[trigger] s[i])
}

pub open spec fn all_hex_digits(s: Seq<char>) -> bool {
    forall|i: int| 0 <= i < s.len() ==> is_hex_digit(#[trigger] s[i])
}

/// The decimal value of a digit string.
pub open spec fn dec_value(s: Seq<char>) -> nat
    decreases s.len(),
{
    if s.len() == 0 {
        0
    } else {
        dec_value(s.drop_last()) * 10 + digit_val(s.last())
    }
}

/// The hexadecimal value of a hex digit string.
pub open spec fn hex_value(s: Seq<char>) -> nat
    decreases s.len(),
{
    if s.len() == 0 {
        0
    } else {
        hex_value(s.drop_last()) * 16 + hex_digit_val(s.last())
    }
}

proof fn lemma_dec_value_monotone(s: Seq<char>, i: int, j: int)
    requires
        0 <= i <= j <= s.len(),
    ensures
        dec_value(s.take(i)) <= dec_value(s.take(j)),
    decreases j - i,
{
    if i < j {
        lemma_dec_value_monotone(s, i, j - 1);
        assert(s.take(j).drop_last() =~= s.take(j - 1));
    }
}

proof fn lemma_hex_value_monotone(s: Seq<char>, i: int, j: int)
    requires
        0 <= i <= j <= s.len(),
    ensures
        hex_value(s.take(i)) <= hex_value(s.take(j)),
    decreases j - i,
{
    if i < j {
        lemma_hex_value_monotone(s, i, j - 1);
        assert(s.take(j).drop_last() =~= s.take(j - 1));
    }
}

// --- chars and strings ---------------------------------------------------

/// The characters of a string slice, in order.
pub fn chars_of(s: &str) -> (r: Vec<char>)
    ensures
        r@ == s@,
{
    broadcast use vstd::string::axiom_spec_iter, vstd::string::next_postcondition;

    let mut it = s.chars();
    let mut out: Vec<char> = Vec::new();
    loop
        invariant
            it.obeys_prophetic_iter_laws(),
            it.decrease() is Some,
            out@ + it.remaining() == s@,
        decreases it.decrease()->Some_0,
    {
        match it.next() {
            Some(c) => {
                out.push(c);
                proof {
                    assert(out@ + it.remaining() =~= s@);
                }
            },
            None => {
                proof {
                    assert(out@ =~= s@);
                }
                return out;
            },
        }
    }
}

/// Relies on `String::push`: appends exactly the one character.
#[verifier::external_body]
fn push_char(s: &mut String, c: char)
    ensures
        final(s)@ == old(s)@.push(c),
{
    s.push(c)
}

/// A `String` with exactly the given characters.
pub fn string_of(chars: &Vec<char>) -> (r: String)
    ensures
        r@ == chars@,
{
    let mut out = String::new();
    let mut i: usize = 0;
    proof {
        assert(chars@.take(0) =~= Seq::<char>::empty());
    }
    while i < chars.len()
        invariant
            i <= chars@.len(),
            out@ == chars@.take(i as int),
        decreases chars@.len() - i,
    {
        push_char(&mut out, chars[i]);
        i = i + 1;
        proof {
            assert(chars@.take(i as int) =~= chars@.take(i - 1).push(chars@[i - 1]));
        }
    }
    proof {
        assert(chars@.take(chars@.len() as int) =~= chars@);
    }
    out
}

// --- Splitting and trimming ----------------------------------------------

/// Splits on every occurrence of `sep`; empty pieces are kept.
pub open spec fn split_char(s: Seq<char>, sep: char) -> Seq<Seq<char>>
    decreases s.len(),
{
    if s.len() == 0 {
        seq![Seq::<char>::empty()]
    } else {
        let prev = split_char(s.drop_last(), sep);
        if s.last() == sep {
            prev.push(Seq::empty())
        } else {
            prev.update(prev.len() - 1, prev.last().push(s.last()))
        }
    }
}

pub open spec fn char_views(ts: Seq<Vec<char>>) -> Seq<Seq<char>> {
    ts.map_values(|t: Vec<char>| t@)
}

/// Exec split on a single separator character.
pub fn split_on(s: &Vec<char>, sep: char) -> (r: Vec<Vec<char>>)
    ensures
        char_views(r@) == split_char(s@, sep),
{
    let mut out: Vec<Vec<char>> = Vec::new();
    let mut cur: Vec<char> = Vec::new();
    let mut i: usize = 0;
    proof {
        assert(s@.take(0) =~= Seq::<char>::empty());
        assert(char_views(out@).push(cur@) =~= split_char(s@.take(0), sep));
    }
    while i < s.len()
        invariant
            i <= s@.len(),
            char_views(out@).push(cur@) == split_char(s@.take(i as int), sep),
        decreases s@.len() - i,
    {
        let c: char = s[i];
        proof {
            assert(s@.take(i + 1).drop_last() =~= s@.take(i as int));
            assert(s@.take(i + 1).last() == s@[i as int]);
        }
        if c == sep {
            out.push(cur);
            cur = Vec::new();
            proof {
                assert(char_views(out@).push(cur@) =~= split_char(s@.take(i as int), sep).push(
                    Seq::empty(),
                ));
            }
        } else {
            cur.push(c);
            proof {
                let prev = split_char(s@.take(i as int), sep);
                assert(char_views(out@).push(cur@) =~= prev.update(
                    prev.len() - 1,
                    prev.last().push(s@[i as int]),
                ));
            }
        }
        i = i + 1;
    }
    proof {
        assert(s@.take(s@.len() as int) =~= s@);
    }
    out.push(cur);
    proof {
        assert(char_views(out@) =~= split_char(s@, sep));
    }
    out
}

/// Leading whitespace removed.
pub open spec fn trim_start_spec(s: Seq<char>) -> Seq<char>
    decreases s.len(),
{
    if s.len() > 0 && is_trim_space(s[0]) {
        trim_start_spec(s.drop_first())
    } else {
        s
    }
}

/// Trailing whitespace removed.
pub open spec fn trim_end_spec(s: Seq<char>) -> Seq<char>
    decreases s.len(),
{
    if s.len() > 0 && is_trim_space(s.last()) {
        trim_end_spec(s.drop_last())
    } else {
        s
    }
}

/// Leading and trailing whitespace removed.
pub open spec fn trim_spec(s: Seq<char>) -> Seq<char> {
    trim_end_spec(trim_start_spec(s))
}

proof fn lemma_trim_start_skip(s: Seq<char>, k: int)
    requires
        0 <= k <= s.len(),
        forall|j: int| 0 <= j < k ==> is_trim_space(#[trigger] s[j]),
        k == s.len() || !is_trim_space(s[k]),
    ensures
        trim_start_spec(s) == s.skip(k),
    decreases k,
{
    if k == 0 {
        assert(s.skip(0) =~= s);
    } else {
        lemma_trim_start_skip(s.drop_first(), k - 1);
        assert(s.drop_first().skip(k - 1) =~= s.skip(k));
    }
}

proof fn lemma_trim_end_take(s: Seq<char>, k: int)
    requires
        0 <= k <= s.len(),
        forall|j: int| k <= j < s.len() ==> is_trim_space(#[trigger] s[j]),
        k == 0 || !is_trim_space(s[k - 1]),
    ensures
        trim_end_spec(s) == s.take(k),
    decreases s.len() - k,
{
    if k == s.len() {
        assert(s.take(k) =~= s);
    } else {
        lemma_trim_end_take(s.drop_last(), k);
        assert(s.drop_last().take(k) =~= s.take(k));
    }
}

/// Exec trim of a character vector.
pub fn trim_chars(s: &Vec<char>) -> (r: Vec<char>)
    ensures
        r@ == trim_spec(s@),
{
    let n: usize = s.len();
    let mut a: usize = 0;
    while a < n && trim_space(s[a])
        invariant
            a <= n,
            n == s@.len(),
            forall|j: int| 0 <= j < a ==> is_trim_space(#[trigger] s@[j]),
        decreases n - a,
    {
        a = a + 1;
    }
    let mut b: usize = n;
    while b > a && trim_space(s[b - 1])
        invariant
            a <= b <= n,
            n == s@.len(),
            forall|j: int| 0 <= j < a ==> is_trim_space(#[trigger] s@[j]),
            a == n || !is_trim_space(s@[a as int]),
            forall|j: int| b <= j < n ==> is_trim_space(#[trigger] s@[j]),
        decreases b,
    {
        b = b - 1;
    }
    let mut out: Vec<char> = Vec::new();
    let mut i: usize = a;
    proof {
        assert(s@.subrange(a as int, a as int) =~= Seq::<char>::empty());
    }
    while i < b
        invariant
            a <= i <= b <= n,
            n == s@.len(),
            out@ == s@.subrange(a as int, i as int),
        decreases b - i,
    {
        out.push(s[i]);
        i = i + 1;
        proof {
            assert(s@.subrange(a as int, i as int) =~= s@.subrange(a as int, i - 1).push(
                s@[i - 1],
            ));
        }
    }
    proof {
        lemma_trim_start_skip(s@, a as int);
        let sk = s@.skip(a as int);
        lemma_trim_end_take(sk, b - a);
        assert(sk.take(b - a) =~= s@.subrange(a as int, b as int));
        assert(out@ =~= trim_spec(s@));
    }
    out
}

// --- List tokens ---------------------------------------------------------

/// The maximal separator-free pieces of `s`, in order (no empties).
pub open spec fn class_tokens(s: Seq<char>) -> Seq<Seq<char>>
    decreases s.len(),
{
    if s.len() == 0 {
        Seq::empty()
    } else {
        let prev = class_tokens(s.drop_last());
        let c = s.last();
        if is_list_sep(c) {
            prev
        } else if s.len() >= 2 && !is_list_sep(s[s.len() - 2]) {
            prev.update(prev.len() - 1, prev.last().push(c))
        } else {
            prev.push(seq![c])
        }
    }
}

/// Exec split into separator-free tokens.
pub fn class_split(s: &Vec<char>) -> (r: Vec<Vec<char>>)
    ensures
        char_views(r@) == class_tokens(s@),
{
    let mut out: Vec<Vec<char>> = Vec::new();
    let mut cur: Vec<char> = Vec::new();
    let mut open: bool = false;
    let mut i: usize = 0;
    proof {
        assert(s@.take(0) =~= Seq::<char>::empty());
    }
    while i < s.len()
        invariant
            i <= s@.len(),
            open == (i > 0 && !is_list_sep(s@[i - 1])),
            open ==> cur@.len() >= 1,
            !open ==> cur@.len() == 0,
            (if open {
                char_views(out@).push(cur@)
            } else {
                char_views(out@)
            }) == class_tokens(s@.take(i as int)),
        decreases s@.len() - i,
    {
        let c: char = s[i];
        let sep: bool = c == ',' || c == ';' || c == ' ' || c == '\t' || c == '\n' || c == '\r'
            || c == '\u{000C}';
        proof {
            assert(s@.take(i + 1).drop_last() =~= s@.take(i as int));
            assert(s@.take(i + 1).last() == s@[i as int]);
            if i > 0 {
                assert(s@.take(i + 1)[i - 1] == s@[i - 1]);
            }
        }
        if sep {
            if open {
                out.push(cur);
                cur = Vec::new();
            }
            open = false;
        } else {
            if open {
                cur.push(c);
                proof {
                    let prev = class_tokens(s@.take(i as int));
                    assert(char_views(out@).push(cur@) =~= prev.update(
                        prev.len() - 1,
                        prev.last().push(s@[i as int]),
                    ));
                }
            } else {
                cur.push(c);
                proof {
                    assert(cur@ =~= seq![s@[i as int]]);
                }
            }
            open = true;
        }
        i = i + 1;
    }
    proof {
        assert(s@.take(s@.len() as int) =~= s@);
    }
    if open {
        out.push(cur);
        proof {
            assert(char_views(out@) =~= class_tokens(s@));
        }
    }
    out
}

// --- Token parsing -------------------------------------------------------

/// Splits at the first character satisfying the class: the piece before,
/// and the rest after the separator when one exists.
pub open spec fn split_once_exp(s: Seq<char>) -> (Seq<char>, Option<Seq<char>>)
    decreases s.len(),
{
    if s.len() == 0 {
        (s, None)
    } else if s[0] == 'e' || s[0] == 'E' {
        (Seq::empty(), Some(s.drop_first()))
    } else {
        let rest = split_once_exp(s.drop_first());
        (seq![s[0]] + rest.0, rest.1)
    }
}

pub open spec fn split_once_dot(s: Seq<char>) -> (Seq<char>, Option<Seq<char>>)
    decreases s.len(),
{
    if s.len() == 0 {
        (s, None)
    } else if s[0] == '.' {
        (Seq::empty(), Some(s.drop_first()))
    } else {
        let rest = split_once_dot(s.drop_first());
        (seq![s[0]] + rest.0, rest.1)
    }
}

/// A plain unsigned decimal token.
pub open spec fn parse_u64_token(s: Seq<char>) -> Option<u64> {
    if s.len() >= 1 && all_digits(s) && dec_value(s) <= u64::MAX as nat {
        Some(dec_value(s) as u64)
    } else {
        None
    }
}

/// A negative decimal token (leading `-`).
pub open spec fn parse_i64_token(s: Seq<char>) -> Option<i64> {
    if s.len() >= 2 && s[0] == '-' && all_digits(s.drop_first()) && dec_value(s.drop_first())
        <= 0x8000_0000_0000_0000 as nat {
        Some((-(dec_value(s.drop_first()) as int)) as i64)
    } else {
        None
    }
}

/// A hexadecimal token (`0x` prefix).
pub open spec fn parse_hex_token(s: Seq<char>) -> Option<u64> {
    if s.len() >= 3 && s[0] == '0' && (s[1] == 'x' || s[1] == 'X') && all_hex_digits(s.skip(2))
        && hex_value(s.skip(2)) <= u64::MAX as nat {
        Some(hex_value(s.skip(2)) as u64)
    } else {
        None
    }
}

/// A fractional or scientific decimal token, rounded to the nearest
/// binary64. Tokens with more than nineteen mantissa digits, more than
/// two exponent digits, or a scale outside [-22, 19] are not accepted.
pub open spec fn parse_float_token(s: Seq<char>) -> Option<u64> {
    let neg = s.len() > 0 && s[0] == '-';
    let body = if neg {
        s.drop_first()
    } else {
        s
    };
    let me = split_once_exp(body);
    let ifr = split_once_dot(me.0);
    let ip = ifr.0;
    let fp = match ifr.1 {
        Some(f) => f,
        None => Seq::<char>::empty(),
    };
    if ifr.1 is None && me.1 is None {
        None  // neither a dot nor an exponent: not a float token
    } else if !(all_digits(ip) && all_digits(fp) && ip.len() + fp.len() >= 1 && ip.len() + fp.len()
        <= 19) {
        None
    } else {
        let digits = ip + fp;
        let m = dec_value(digits);
        let k0: Option<int> = match me.1 {
            None => Some(0),
            Some(ex) => parse_exp_spec(ex),
        };
        match k0 {
            None => None,
            Some(ev) => {
                let k = ev - fp.len();
                if -22 <= k <= 19 && m < 10_000_000_000_000_000_000 {
                    Some(dec_to_f64_bits(neg, m as u64, k))
                } else {
                    None
                }
            },
        }
    }
}

/// The optional sign and one or two digits of an exponent part.
pub open spec fn parse_exp_spec(ex: Seq<char>) -> Option<int> {
    let eneg = ex.len() > 0 && ex[0] == '-';
    let epos = ex.len() > 0 && ex[0] == '+';
    let ed = if eneg || epos {
        ex.drop_first()
    } else {
        ex
    };
    if 1 <= ed.len() <= 2 && all_digits(ed) {
        if eneg {
            Some(-(dec_value(ed) as int))
        } else {
            Some(dec_value(ed) as int)
        }
    } else {
        None
    }
}

/// `true` / `false`, ASCII case-insensitive.
pub open spec fn chr_ci(c: char, lower: char, upper: char) -> bool {
    c == lower || c == upper
}

pub open spec fn parse_bool_token(s: Seq<char>) -> Option<bool> {
    if s.len() == 4 && chr_ci(s[0], 't', 'T') && chr_ci(s[1], 'r', 'R') && chr_ci(s[2], 'u', 'U')
        && chr_ci(s[3], 'e', 'E') {
        Some(true)
    } else if s.len() == 5 && chr_ci(s[0], 'f', 'F') && chr_ci(s[1], 'a', 'A') && chr_ci(
        s[2],
        'l',
        'L',
    ) && chr_ci(s[3], 's', 'S') && chr_ci(s[4], 'e', 'E') {
        Some(false)
    } else {
        None
    }
}

/// One token parsed by the priority list: unsigned decimal, negative
/// decimal, hexadecimal, fractional/scientific, boolean.
pub open spec fn parse_token_spec(s: Seq<char>) -> Option<DataValueV> {
    if parse_u64_token(s) is Some {
        Some(DataValueV::U64(parse_u64_token(s)->Some_0))
    } else if parse_i64_token(s) is Some {
        Some(DataValueV::I64(parse_i64_token(s)->Some_0))
    } else if parse_hex_token(s) is Some {
        Some(DataValueV::U64(parse_hex_token(s)->Some_0))
    } else if parse_float_token(s) is Some {
        Some(DataValueV::F64(parse_float_token(s)->Some_0))
    } else if parse_bool_token(s) is Some {
        Some(DataValueV::Bool(parse_bool_token(s)->Some_0))
    } else {
        None
    }
}

// --- Exec parsing --------------------------------------------------------

fn check_all_digits(s: &Vec<char>, from: usize, to: usize) -> (b: bool)
    requires
        from <= to <= s@.len(),
    ensures
        b == all_digits(s@.subrange(from as int, to as int)),
{
    let mut i: usize = from;
    while i < to
        invariant
            from <= i <= to <= s@.len(),
            forall|j: int| from <= j < i ==> is_digit(#[trigger] s@[j]),
        decreases to - i,
    {
        let c: char = s[i];
        if !('0' <= c && c <= '9') {
            proof {
                assert(s@.subrange(from as int, to as int)[i - from] == s@[i as int]);
            }
            return false;
        }
        i = i + 1;
    }
    proof {
        assert forall|j: int| 0 <= j < to - from implies is_digit(
            #[trigger] s@.subrange(from as int, to as int)[j],
        ) by {
            assert(s@.subrange(from as int, to as int)[j] == s@[from + j]);
        }
    }
    true
}

fn check_all_hex(s: &Vec<char>, from: usize, to: usize) -> (b: bool)
    requires
        from <= to <= s@.len(),
    ensures
        b == all_hex_digits(s@.subrange(from as int, to as int)),
{
    let mut i: usize = from;
    while i < to
        invariant
            from <= i <= to <= s@.len(),
            forall|j: int| from <= j < i ==> is_hex_digit(#[trigger] s@[j]),
        decreases to - i,
    {
        let c: char = s[i];
        if !(('0' <= c && c <= '9') || ('a' <= c && c <= 'f') || ('A' <= c && c <= 'F')) {
            proof {
                assert(s@.subrange(from as int, to as int)[i - from] == s@[i as int]);
            }
            return false;
        }
        i = i + 1;
    }
    proof {
        assert forall|j: int| 0 <= j < to - from implies is_hex_digit(
            #[trigger] s@.subrange(from as int, to as int)[j],
        ) by {
            assert(s@.subrange(from as int, to as int)[j] == s@[from + j]);
        }
    }
    true
}

/// The decimal value of `s[from..to]`, or nothing on 64-bit overflow.
fn dec_range_u64(s: &Vec<char>, from: usize, to: usize) -> (r: Option<u64>)
    requires
        from <= to <= s@.len(),
        all_digits(s@.subrange(from as int, to as int)),
    ensures
        ({
            let sub = s@.subrange(from as int, to as int);
            match r {
                Some(v) => v as nat == dec_value(sub),
                None => dec_value(sub) > u64::MAX as nat,
            }
        }),
{
    let ghost sub = s@.subrange(from as int, to as int);
    let mut acc: u64 = 0;
    let mut i: usize = from;
    proof {
        assert(sub.take(0) =~= Seq::<char>::empty());
    }
    while i < to
        invariant
            from <= i <= to <= s@.len(),
            sub == s@.subrange(from as int, to as int),
            all_digits(sub),
            acc as nat == dec_value(sub.take((i - from) as int)),
        decreases to - i,
    {
        let c: char = s[i];
        proof {
            assert(sub[i - from] == s@[i as int]);
            assert(is_digit(sub[i - from]));
            assert(sub.take((i - from + 1) as int).drop_last() =~= sub.take((i - from) as int));
            assert(sub.take((i - from + 1) as int).last() == sub[i - from]);
        }
        let d: u64 = ((c as u32) - 48) as u64;
        if acc > (u64::MAX - d) / 10 {
            proof {
                lemma_dec_value_monotone(sub, i - from + 1, sub.len() as int);
                assert(sub.take(sub.len() as int) =~= sub);
            }
            return None;
        }
        acc = acc * 10 + d;
        i = i + 1;
    }
    proof {
        assert(sub.take((to - from) as int) =~= sub);
    }
    Some(acc)
}

/// The hexadecimal value of `s[from..to]`, or nothing on overflow.
fn hex_range_u64(s: &Vec<char>, from: usize, to: usize) -> (r: Option<u64>)
    requires
        from <= to <= s@.len(),
        all_hex_digits(s@.subrange(from as int, to as int)),
    ensures
        ({
            let sub = s@.subrange(from as int, to as int);
            match r {
                Some(v) => v as nat == hex_value(sub),
                None => hex_value(sub) > u64::MAX as nat,
            }
        }),
{
    let ghost sub = s@.subrange(from as int, to as int);
    let mut acc: u64 = 0;
    let mut i: usize = from;
    proof {
        assert(sub.take(0) =~= Seq::<char>::empty());
    }
    while i < to
        invariant
            from <= i <= to <= s@.len(),
            sub == s@.subrange(from as int, to as int),
            all_hex_digits(sub),
            acc as nat == hex_value(sub.take((i - from) as int)),
        decreases to - i,
    {
        let c: char = s[i];
        proof {
            assert(sub[i - from] == s@[i as int]);
            assert(is_hex_digit(sub[i - from]));
            assert(sub.take((i - from + 1) as int).drop_last() =~= sub.take((i - from) as int));
            assert(sub.take((i - from + 1) as int).last() == sub[i - from]);
        }
        let d: u64 = if '0' <= c && c <= '9' {
            ((c as u32) - 48) as u64
        } else if 'a' <= c && c <= 'f' {
            ((c as u32) - 87) as u64
        } else {
            ((c as u32) - 55) as u64
        };
        if acc > (u64::MAX - d) / 16 {
            proof {
                lemma_hex_value_monotone(sub, i - from + 1, sub.len() as int);
                assert(sub.take(sub.len() as int) =~= sub);
            }
            return None;
        }
        acc = acc * 16 + d;
        i = i + 1;
    }
    proof {
        assert(sub.take((to - from) as int) =~= sub);
    }
    Some(acc)
}

/// The value of an n-digit string stays under 10^n.
proof fn lemma_dec_value_bound(s: Seq<char>)
    requires
        all_digits(s),
    ensures
        dec_value(s) < crate::layout::floatbits::pow10(s.len()),
    decreases s.len(),
{
    if s.len() > 0 {
        assert(all_digits(s.drop_last())) by {
            assert(forall|j: int| 0 <= j < s.len() - 1 ==> s.drop_last()[j] == s[j]);
        }
        lemma_dec_value_bound(s.drop_last());
        assert(is_digit(s.last()));
        assert(digit_val(s.last()) <= 9);
    }
}

proof fn lemma_split_exp_at(s: Seq<char>, j: int)
    requires
        0 <= j <= s.len(),
        forall|i: int| 0 <= i < j ==> !(#[trigger] s[i] == 'e' || s[i] == 'E'),
        j == s.len() || s[j] == 'e' || s[j] == 'E',
    ensures
        split_once_exp(s).0 == s.take(j),
        split_once_exp(s).1 == (if j < s.len() {
            Some(s.skip(j + 1))
        } else {
            None::<Seq<char>>
        }),
    decreases j,
{
    if s.len() == 0 {
        assert(s.take(0) =~= s);
    } else if s[0] == 'e' || s[0] == 'E' {
        assert(j == 0);
        assert(s.take(0) =~= Seq::<char>::empty());
        assert(s.skip(1) =~= s.drop_first());
    } else {
        assert(j >= 1);
        lemma_split_exp_at(s.drop_first(), j - 1);
        assert(seq![s[0]] + s.drop_first().take(j - 1) =~= s.take(j));
        if j < s.len() {
            assert(s.drop_first().skip(j) =~= s.skip(j + 1));
        }
    }
}

proof fn lemma_split_dot_at(s: Seq<char>, j: int)
    requires
        0 <= j <= s.len(),
        forall|i: int| 0 <= i < j ==> !(#[trigger] s[i] == '.'),
        j == s.len() || s[j] == '.',
    ensures
        split_once_dot(s).0 == s.take(j),
        split_once_dot(s).1 == (if j < s.len() {
            Some(s.skip(j + 1))
        } else {
            None::<Seq<char>>
        }),
    decreases j,
{
    if s.len() == 0 {
        assert(s.take(0) =~= s);
    } else if s[0] == '.' {
        assert(j == 0);
        assert(s.take(0) =~= Seq::<char>::empty());
        assert(s.skip(1) =~= s.drop_first());
    } else {
        assert(j >= 1);
        lemma_split_dot_at(s.drop_first(), j - 1);
        assert(seq![s[0]] + s.drop_first().take(j - 1) =~= s.take(j));
        if j < s.len() {
            assert(s.drop_first().skip(j) =~= s.skip(j + 1));
        }
    }
}

/// Parses one token under `parse_token_spec`.
#[verifier::rlimit(100)]
#[verifier::spinoff_prover]
pub fn parse_token(tok: &Vec<char>) -> (r: Option<DataValue>)
    ensures
        match (r, parse_token_spec(tok@)) {
            (Some(v), Some(sv)) => v@ == sv,
            (None, None) => true,
            _ => false,
        },
{
    let n: usize = tok.len();
    proof {
        assert(tok@.subrange(0, n as int) =~= tok@);
    }
    // 1. unsigned decimal
    if n >= 1 && check_all_digits(tok, 0, n) {
        if let Some(v) = dec_range_u64(tok, 0, n) {
            return Some(DataValue::U64(v));
        }
    }
    // 2. negative decimal
    if n >= 2 && tok[0] == '-' {
        proof {
            assert(tok@.subrange(1, n as int) =~= tok@.drop_first());
        }
        if check_all_digits(tok, 1, n) {
            if let Some(v) = dec_range_u64(tok, 1, n) {
                if v <= 0x8000_0000_0000_0000u64 {
                    let iv: i64 = if v == 0x8000_0000_0000_0000u64 {
                        i64::MIN
                    } else {
                        -(v as i64)
                    };
                    return Some(DataValue::I64(iv));
                }
            }
        }
    }
    // 3. hexadecimal
    if n >= 3 && tok[0] == '0' && (tok[1] == 'x' || tok[1] == 'X') {
        proof {
            assert(tok@.subrange(2, n as int) =~= tok@.skip(2));
        }
        if check_all_hex(tok, 2, n) {
            if let Some(v) = hex_range_u64(tok, 2, n) {
                return Some(DataValue::U64(v));
            }
        }
    }
    // 4. fractional / scientific
    let fres: Option<u64> = parse_float_chars(tok);
    proof {
        assert(fres is Some <==> parse_float_token(tok@) is Some);
    }
    if let Some(bits) = fres {
        return Some(DataValue::F64(bits));
    }
    // 5. boolean
    if n == 4 && (tok[0] == 't' || tok[0] == 'T') && (tok[1] == 'r' || tok[1] == 'R') && (tok[2]
        == 'u' || tok[2] == 'U') && (tok[3] == 'e' || tok[3] == 'E') {
        return Some(DataValue::Bool(true));
    }
    if n == 5 && (tok[0] == 'f' || tok[0] == 'F') && (tok[1] == 'a' || tok[1] == 'A') && (tok[2]
        == 'l' || tok[2] == 'L') && (tok[3] == 's' || tok[3] == 'S') && (tok[4] == 'e' || tok[4]
        == 'E') {
        return Some(DataValue::Bool(false));
    }
    None
}

/// Appends `tok[from..to]` to `out`.
fn copy_range(tok: &Vec<char>, from: usize, to: usize, out: &mut Vec<char>)
    requires
        from <= to <= tok@.len(),
    ensures
        final(out)@ == old(out)@ + tok@.subrange(from as int, to as int),
{
    let mut i: usize = from;
    proof {
        assert(old(out)@ + tok@.subrange(from as int, from as int) =~= old(out)@);
    }
    while i < to
        invariant
            from <= i <= to <= tok@.len(),
            out@ == old(out)@ + tok@.subrange(from as int, i as int),
        decreases to - i,
    {
        out.push(tok[i]);
        i = i + 1;
        proof {
            assert(old(out)@ + tok@.subrange(from as int, i as int) =~= (old(out)@ + tok@.subrange(
                from as int,
                i - 1,
            )).push(tok@[i - 1]));
        }
    }
}

/// Exec mirror of `parse_exp_spec` on `tok[efrom0..n]`.
fn parse_exp_part(tok: &Vec<char>, efrom0: usize, n: usize) -> (r: Option<i64>)
    requires
        efrom0 <= n <= tok@.len(),
    ensures
        ({
            let ex = tok@.subrange(efrom0 as int, n as int);
            match (r, parse_exp_spec(ex)) {
                (Some(v), Some(sv)) => v as int == sv && -99 <= v <= 99,
                (None, None) => true,
                _ => false,
            }
        }),
{
    let ghost ex = tok@.subrange(efrom0 as int, n as int);
    let eneg: bool = efrom0 < n && tok[efrom0] == '-';
    let eplus: bool = efrom0 < n && tok[efrom0] == '+';
    let efrom: usize = if eneg || eplus {
        efrom0 + 1
    } else {
        efrom0
    };
    proof {
        if efrom0 < n {
            assert(ex[0] == tok@[efrom0 as int]);
        }
        if eneg || eplus {
            assert(ex.drop_first() =~= tok@.subrange(efrom as int, n as int));
        }
    }
    let elen: usize = n - efrom;
    if !(1 <= elen && elen <= 2) {
        return None;
    }
    if !check_all_digits(tok, efrom, n) {
        return None;
    }
    let ghost ed = tok@.subrange(efrom as int, n as int);
    proof {
        lemma_dec_value_bound(ed);
        assert(crate::layout::floatbits::pow10(2) == 100) by {
            reveal_with_fuel(crate::layout::floatbits::pow10, 3);
        }
        if ed.len() < 2 {
            crate::layout::floatbits::lemma_pow10_le(ed.len(), 2);
        }
    }
    let raw: u64 = match dec_range_u64(tok, efrom, n) {
        Some(v) => v,
        None => {
            proof {
                assert(false);
            }
            0
        },
    };
    if eneg {
        Some(-(raw as i64))
    } else {
        Some(raw as i64)
    }
}

/// Exec mirror of `parse_float_token`.
#[verifier::rlimit(100)]
#[verifier::spinoff_prover]
fn parse_float_chars(tok: &Vec<char>) -> (r: Option<u64>)
    ensures
        r == parse_float_token(tok@),
{
    let n: usize = tok.len();
    let neg: bool = n > 0 && tok[0] == '-';
    let start: usize = if neg { 1 } else { 0 };
    let ghost body = if neg {
        tok@.drop_first()
    } else {
        tok@
    };
    proof {
        if neg {
            assert(body =~= tok@.skip(1));
        }
    }
    // the first exponent marker
    let mut je: usize = start;
    while je < n && !(tok[je] == 'e' || tok[je] == 'E')
        invariant
            start <= je <= n,
            n == tok@.len(),
            forall|i: int| start <= i < je ==> !(#[trigger] tok@[i] == 'e' || tok@[i] == 'E'),
        decreases n - je,
    {
        je = je + 1;
    }
    proof {
        assert forall|i: int| 0 <= i < je - start implies !(#[trigger] body[i] == 'e' || body[i]
            == 'E') by {
            assert(body[i] == tok@[i + start]);
        }
        if je < n {
            assert(body[je - start] == tok@[je as int]);
        }
        lemma_split_exp_at(body, je - start);
    }
    // the first dot inside the mantissa
    let mut jd: usize = start;
    while jd < je && tok[jd] != '.'
        invariant
            start <= jd <= je <= n,
            n == tok@.len(),
            forall|i: int| start <= i < jd ==> !(#[trigger] tok@[i] == '.'),
        decreases je - jd,
    {
        jd = jd + 1;
    }
    let ghost mant = split_once_exp(body).0;
    proof {
        assert(mant == body.take(je - start));
        assert forall|i: int| 0 <= i < jd - start implies !(#[trigger] mant[i] == '.') by {
            assert(mant[i] == tok@[i + start]);
        }
        if jd < je {
            assert(mant[jd - start] == tok@[jd as int]);
        }
        lemma_split_dot_at(mant, jd - start);
    }
    let has_dot: bool = jd < je;
    let has_exp: bool = je < n;
    if !has_dot && !has_exp {
        return None;
    }
    // digit checks on the integer and fraction parts
    proof {
        assert(tok@.subrange(start as int, jd as int) =~= split_once_dot(mant).0) by {
            assert(mant.take(jd - start) =~= tok@.subrange(start as int, jd as int));
        }
    }
    if !check_all_digits(tok, start, jd) {
        return None;
    }
    let fp_from: usize = if has_dot { jd + 1 } else { je };
    let ghost fp = if has_dot {
        split_once_dot(mant).1->Some_0
    } else {
        Seq::<char>::empty()
    };
    proof {
        if has_dot {
            assert(mant.skip(jd - start + 1) =~= tok@.subrange(fp_from as int, je as int));
        } else {
            assert(tok@.subrange(fp_from as int, je as int) =~= Seq::<char>::empty());
        }
        assert(fp =~= tok@.subrange(fp_from as int, je as int));
    }
    if !check_all_digits(tok, fp_from, je) {
        return None;
    }
    let ip_len: usize = jd - start;
    let fp_len: usize = je - fp_from;
    if ip_len + fp_len < 1 || ip_len + fp_len > 19 {
        return None;
    }
    // mantissa digits, concatenated
    let mut digits: Vec<char> = Vec::new();
    copy_range(tok, start, jd, &mut digits);
    proof {
        assert(Seq::<char>::empty() + tok@.subrange(start as int, jd as int) =~= tok@.subrange(
            start as int,
            jd as int,
        ));
    }
    copy_range(tok, fp_from, je, &mut digits);
    let ghost all_digits_seq = split_once_dot(mant).0 + fp;
    proof {
        assert(digits@ =~= all_digits_seq);
        assert(all_digits(digits@)) by {
            assert(forall|j: int|
                0 <= j < digits@.len() ==> is_digit(#[trigger] digits@[j]) == is_digit(
                    if j < jd - start {
                        tok@.subrange(start as int, jd as int)[j]
                    } else {
                        tok@.subrange(fp_from as int, je as int)[j - (jd - start)]
                    },
                ));
        }
        lemma_dec_value_bound(digits@);
        assert(crate::layout::floatbits::pow10(19) == 10_000_000_000_000_000_000) by {
            reveal_with_fuel(crate::layout::floatbits::pow10, 20);
        }
        if digits@.len() < 19 {
            crate::layout::floatbits::lemma_pow10_le(digits@.len(), 19);
        }
    }
    let dlen: usize = digits.len();
    let m: u64 = match dec_range_u64(&digits, 0, dlen) {
        Some(v) => v,
        None => {
            proof {
                assert(digits@.subrange(0, dlen as int) =~= digits@);
                assert(false);
            }
            0
        },
    };
    proof {
        assert(digits@.subrange(0, dlen as int) =~= digits@);
    }
    // the exponent
    let ev: i64 = if has_exp {
        proof {
            let ex = split_once_exp(body).1->Some_0;
            assert(ex =~= tok@.subrange(je + 1, n as int));
        }
        match parse_exp_part(tok, je + 1, n) {
            Some(v) => v,
            None => {
                return None;
            },
        }
    } else {
        0
    };
    // scale and round
    if fp_len > 200 {
        return None;
    }
    let k: i64 = ev - (fp_len as i64);
    if !(-22 <= k && k <= 19) {
        return None;
    }
    Some(dec_to_f64_bits_x(neg, m, k))
}

// --- Whole-string tokenization -------------------------------------------

/// Element-wise parse of a token list, failing on the first bad token.
pub open spec fn parse_tokens_spec(toks: Seq<Seq<char>>) -> Option<Seq<DataValueV>>
    decreases toks.len(),
{
    if toks.len() == 0 {
        Some(Seq::empty())
    } else {
        match parse_token_spec(toks[0]) {
            None => None,
            Some(v) => match parse_tokens_spec(toks.drop_first()) {
                None => None,
                Some(rest) => Some(seq![v] + rest),
            },
        }
    }
}

/// What a text value resolves to on the 1D path: a parsed array when
/// every token is numeric or boolean, otherwise the whole original
/// string.
pub open spec fn tokenize_value_spec(s: Seq<char>) -> ValueSourceV {
    let toks = class_tokens(s);
    if toks.len() >= 1 && parse_tokens_spec(toks) is Some {
        ValueSourceV::Array(parse_tokens_spec(toks)->Some_0)
    } else {
        ValueSourceV::Single(DataValueV::Str(s))
    }
}

/// Tokenizes a text value for the 1D lookup path.
pub fn tokenize_string_value(s: &str) -> (r: ValueSource)
    ensures
        r@ == tokenize_value_spec(s@),
{
    let chars = chars_of(s);
    let toks = class_split(&chars);
    let ghost tv = class_tokens(s@);
    let mut vals: Vec<DataValue> = Vec::new();
    let mut i: usize = 0;
    if toks.len() == 0 {
        return ValueSource::Single(DataValue::Str(s.to_owned()));
    }
    proof {
        assert(char_views(toks@).skip(0) =~= char_views(toks@));
    }
    while i < toks.len()
        invariant
            i <= toks@.len(),
            char_views(toks@) == tv,
            tv == class_tokens(s@),
            tv.len() == toks@.len(),
            parse_tokens_spec(tv) == (match parse_tokens_spec(tv.skip(i as int)) {
                None => None::<Seq<DataValueV>>,
                Some(rest) => Some(views1(vals@) + rest),
            }),
        decreases toks@.len() - i,
    {
        proof {
            assert(tv.skip(i as int).drop_first() =~= tv.skip(i + 1));
            assert(tv.skip(i as int)[0] == tv[i as int]);
            assert(tv[i as int] == toks@[i as int]@);
        }
        match parse_token(&toks[i]) {
            None => {
                return ValueSource::Single(DataValue::Str(s.to_owned()));
            },
            Some(v) => {
                let ghost vprev = vals@;
                proof {
                    let vs = views1(vprev);
                    if let Some(rest) = parse_tokens_spec(tv.skip(i + 1)) {
                        assert(vs + (seq![v@] + rest) =~= (vs.push(v@)) + rest);
                    }
                }
                vals.push(v);
                proof {
                    assert(views1(vals@) =~= views1(
                        vprev,
                    ).push(vals@.last()@));
                }
                i = i + 1;
            },
        }
    }
    proof {
        assert(tv.skip(tv.len() as int) =~= Seq::<Seq<char>>::empty());
    }
    ValueSource::Array(vals)
}

} // verus!
