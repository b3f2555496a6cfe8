use vstd::prelude::*;

verus! {

use vstd::string::StrSliceExecFns;
use vstd::string::StringExecFns;


/// The views of a sequence of strings.
pub open spec fn views_of(s: Seq<String>) -> Seq<Seq<char>> {
    Seq::new(s.len(), |i: int| s[i]@)
}

/// The whitespace characters that line trimming removes.
pub open spec fn is_space(c: char) -> bool {
    c == ' ' || c == '\t' || c == '\r' || c == '\n'
}

pub open spec fn trimmed_front(s: Seq<char>) -> Seq<char>
    decreases s.len(),
{
    if s.len() > 0 && is_space(s[0]) {
        trimmed_front(s.drop_first())
    } else {
        s
    }
}

pub open spec fn trimmed_back(s: Seq<char>) -> Seq<char>
    decreases s.len(),
{
    if s.len() > 0 && is_space(s.last()) {
        trimmed_back(s.drop_last())
    } else {
        s
    }
}

/// A line with leading and trailing whitespace removed.
pub open spec fn trimmed(s: Seq<char>) -> Seq<char> {
    trimmed_back(trimmed_front(s))
}

proof fn lemma_trimmed_front_skip(s: Seq<char>, a: int)
    requires
        0 <= a <= s.len(),
        forall|j: int| 0 <= j < a ==> is_space(#[trigger] s[j]),
        a == s.len() || !is_space(s[a]),
    ensures
        trimmed_front(s) == s.skip(a),
    decreases a,
{
    if a == 0 {
        assert(s.skip(0) =~= s);
    } else {
        lemma_trimmed_front_skip(s.drop_first(), a - 1);
        assert(s.drop_first().skip(a - 1) =~= s.skip(a));
    }
}

proof fn lemma_trimmed_back_take(s: Seq<char>, b: int)
    requires
        0 <= b <= s.len(),
        forall|j: int| b <= j < s.len() ==> is_space(#[trigger] s[j]),
        b == 0 || !is_space(s[b - 1]),
    ensures
        trimmed_back(s) == s.take(b),
    decreases s.len(),
{
    if b == s.len() {
        assert(s.take(b) =~= s);
    } else {
        lemma_trimmed_back_take(s.drop_last(), b);
        assert(s.drop_last().take(b) =~= s.take(b));
    }
}

/// Removes leading and trailing whitespace from a string slice.
pub fn trim<'a>(s: &'a str) -> (r: &'a str)
    ensures
        r@ == trimmed(s@),
{
    let n: usize = s.unicode_len();
    let mut a: usize = 0;
    while a < n && is_space_char(s.get_char(a))
        invariant
            0 <= a <= n,
            n == s@.len(),
            forall|j: int| 0 <= j < a ==> is_space(#[trigger] s@[j]),
        decreases n - a,
    {
        a = a + 1;
    }
    proof {
        lemma_trimmed_front_skip(s@, a as int);
    }
    let mut b: usize = n;
    while b > a && is_space_char(s.get_char(b - 1))
        invariant
            a <= b <= n,
            n == s@.len(),
            forall|j: int| b <= j < n ==> is_space(#[trigger] s@[j]),
        decreases b,
    {
        b = b - 1;
    }
    proof {
        if b == a {
            lemma_trimmed_back_take(s@.skip(a as int), 0);
        } else {
            lemma_trimmed_back_take(s@.skip(a as int), b - a);
        }
        assert(s@.skip(a as int).take(b - a) =~= s@.subrange(a as int, b as int));
    }
    s.substring_char(a, b)
}

/// Whether a character counts as whitespace for trimming.
pub fn is_space_char(c: char) -> (r: bool)
    ensures
        r == is_space(c),
{
    c == ' ' || c == '\t' || c == '\r' || c == '\n'
}

/// Character-for-character string equality.
pub fn str_eq(a: &str, b: &str) -> (r: bool)
    ensures
        r == (a@ == b@),
{
    let n: usize = a.unicode_len();
    if n != b.unicode_len() {
        return false;
    }
    let mut i: usize = 0;
    while i < n
        invariant
            0 <= i <= n,
            n == a@.len(),
            n == b@.len(),
            forall|j: int| 0 <= j < i ==> a@[j] == b@[j],
        decreases n - i,
    {
        if a.get_char(i) != b.get_char(i) {
            return false;
        }
        i = i + 1;
    }
    proof {
        assert(a@ =~= b@);
    }
    true
}

/// Strict lexicographic order on character sequences, by code point,
/// with a proper prefix ordered before its extensions. On UTF-8 text
/// this agrees with the byte order that `str` comparison uses.
pub open spec fn lex_lt(a: Seq<char>, b: Seq<char>) -> bool
    decreases a.len(),
{
    if b.len() == 0 {
        false
    } else if a.len() == 0 {
        true
    } else if a[0] == b[0] {
        lex_lt(a.drop_first(), b.drop_first())
    } else {
        (a[0] as u32) < (b[0] as u32)
    }
}

proof fn lemma_lex_skip(a: Seq<char>, b: Seq<char>, i: int)
    requires
        0 <= i <= a.len(),
        i <= b.len(),
        forall|j: int| 0 <= j < i ==> a[j] == b[j],
    ensures
        lex_lt(a, b) == lex_lt(a.skip(i), b.skip(i)),
    decreases i,
{
    if i == 0 {
        assert(a.skip(0) =~= a);
        assert(b.skip(0) =~= b);
    } else {
        assert(a.drop_first().skip(i - 1) =~= a.skip(i));
        assert(b.drop_first().skip(i - 1) =~= b.skip(i));
        lemma_lex_skip(a.drop_first(), b.drop_first(), i - 1);
    }
}

/// Strict lexicographic comparison of two string slices.
pub fn str_lt(a: &str, b: &str) -> (r: bool)
    ensures
        r == lex_lt(a@, b@),
{
    let na: usize = a.unicode_len();
    let nb: usize = b.unicode_len();
    let n: usize = if na < nb { na } else { nb };
    let mut i: usize = 0;
    while i < n
        invariant
            0 <= i <= n,
            na == a@.len(),
            nb == b@.len(),
            n == if na < nb { na } else { nb },
            forall|j: int| 0 <= j < i ==> a@[j] == b@[j],
        decreases n - i,
    {
        let ca = a.get_char(i);
        let cb = b.get_char(i);
        if ca != cb {
            proof {
                lemma_lex_skip(a@, b@, i as int);
            }
            return (ca as u32) < (cb as u32);
        }
        i = i + 1;
    }
    proof {
        lemma_lex_skip(a@, b@, n as int);
    }
    na < nb
}

pub proof fn lemma_lex_lt_irreflexive(a: Seq<char>)
    ensures
        !lex_lt(a, a),
    decreases a.len(),
{
    if a.len() > 0 {
        lemma_lex_lt_irreflexive(a.drop_first());
    }
}

pub proof fn lemma_lex_lt_connected(a: Seq<char>, b: Seq<char>)
    requires
        a != b,
    ensures
        lex_lt(a, b) || lex_lt(b, a),
    decreases a.len(),
{
    if b.len() == 0 {
        if a.len() == 0 {
            assert(a =~= b);
        }
    } else if a.len() == 0 {
    } else if a[0] == b[0] {
        assert(a == seq![a[0]] + a.drop_first());
        assert(b == seq![b[0]] + b.drop_first());
        assert(a.drop_first() != b.drop_first());
        lemma_lex_lt_connected(a.drop_first(), b.drop_first());
    } else {
        let ua = a[0] as u32;
        let ub = b[0] as u32;
        vstd::utf8::char_u32_cast(a[0], ua);
        vstd::utf8::char_u32_cast(b[0], ub);
        if ua == ub {
            assert(a[0] == (ua as char));
            assert(b[0] == (ub as char));
        }
        assert(ua != ub);
    }
}

pub proof fn lemma_lex_lt_transitive(a: Seq<char>, b: Seq<char>, c: Seq<char>)
    requires
        lex_lt(a, b),
        lex_lt(b, c),
    ensures
        lex_lt(a, c),
    decreases a.len() + b.len() + c.len(),
{
    if a.len() == 0 {
    } else if b.len() == 0 {
    } else if c.len() == 0 {
    } else {
        if a[0] == b[0] && b[0] == c[0] {
            lemma_lex_lt_transitive(a.drop_first(), b.drop_first(), c.drop_first());
        }
    }
}

pub proof fn lemma_lex_lt_asymmetric(a: Seq<char>, b: Seq<char>)
    requires
        lex_lt(a, b),
    ensures
        !lex_lt(b, a),
        a != b,
{
    if lex_lt(b, a) {
        lemma_lex_lt_transitive(a, b, a);
        lemma_lex_lt_irreflexive(a);
    }
    if a == b {
        lemma_lex_lt_irreflexive(a);
    }
}

/// The index of the first space in a sequence, or its length when
/// no space occurs.
pub open spec fn first_space(s: Seq<char>) -> int
    decreases s.len(),
{
    if s.len() == 0 {
        0
    } else if s[0] == ' ' {
        0
    } else {
        1 + first_space(s.drop_first())
    }
}

pub proof fn lemma_first_space(s: Seq<char>)
    ensures
        0 <= first_space(s) <= s.len(),
        forall|j: int| 0 <= j < first_space(s) ==> s[j] != ' ',
        first_space(s) < s.len() ==> s[first_space(s)] == ' ',
    decreases s.len(),
{
    if s.len() > 0 && s[0] != ' ' {
        lemma_first_space(s.drop_first());
        assert forall|j: int| 0 <= j < first_space(s) implies s[j] != ' ' by {
            if j > 0 {
                assert(s.drop_first()[j - 1] != ' ');
            }
        }
        if first_space(s) < s.len() {
            assert(s[first_space(s)] == s.drop_first()[first_space(s.drop_first())]);
        }
    }
}

/// The position of the first space character, if any.
pub fn find_space(s: &str) -> (r: Option<usize>)
    ensures
        match r {
            Some(i) => i == first_space(s@) && i < s@.len(),
            None => first_space(s@) == s@.len(),
        },
{
    proof {
        lemma_first_space(s@);
    }
    let n: usize = s.unicode_len();
    let mut i: usize = 0;
    while i < n
        invariant
            0 <= i <= n,
            n == s@.len(),
            forall|j: int| 0 <= j < i ==> s@[j] != ' ',
            first_space(s@) >= i,
        decreases n - i,
    {
        if s.get_char(i) == ' ' {
            proof {
                lemma_first_space_found(s@, i as int);
            }
            return Some(i);
        }
        i = i + 1;
        proof {
            lemma_first_space_found_ge(s@, i as int);
        }
    }
    None
}

proof fn lemma_first_space_found(s: Seq<char>, i: int)
    requires
        0 <= i < s.len(),
        s[i] == ' ',
        forall|j: int| 0 <= j < i ==> s[j] != ' ',
    ensures
        first_space(s) == i,
{
    lemma_first_space(s);
    if first_space(s) < i {
        assert(s[first_space(s)] == ' ');
    }
}

proof fn lemma_first_space_found_ge(s: Seq<char>, i: int)
    requires
        0 <= i <= s.len(),
        forall|j: int| 0 <= j < i ==> s[j] != ' ',
    ensures
        first_space(s) >= i,
{
    lemma_first_space(s);
    if first_space(s) < i {
        assert(s[first_space(s)] == ' ');
    }
}

/// Decimal digit.
pub open spec fn is_digit(c: char) -> bool {
    48 <= (c as u32) && (c as u32) <= 57
}

pub open spec fn digit_val(c: char) -> int {
    (c as u32) - 48
}

pub open spec fn digit_char(d: int) -> char {
    ((d + 48) as u32) as char
}

/// The number a sequence of decimal digits denotes.
pub open spec fn dec_value(s: Seq<char>) -> int
    decreases s.len(),
{
    if s.len() == 0 {
        0
    } else {
        dec_value(s.drop_last()) * 10 + digit_val(s.last())
    }
}

/// The canonical decimal text of a number: no sign, no leading zero.
pub open spec fn dec_text(v: int) -> Seq<char>
    decreases v,
{
    if v < 10 {
        seq![digit_char(v)]
    } else {
        dec_text(v / 10) + seq![digit_char(v % 10)]
    }
}

/// The digits of a number, ignoring one optional leading plus sign.
pub open spec fn digits_part(s: Seq<char>) -> Seq<char> {
    if s.len() > 0 && s[0] == '+' {
        s.drop_first()
    } else {
        s
    }
}

/// Whether a sequence is an accepted unsigned decimal: an optional
/// plus sign, then one or more digits, denoting at most `u64::MAX`.
pub open spec fn valid_u64_text(s: Seq<char>) -> bool {
    let d = digits_part(s);
    d.len() > 0 && (forall|i: int| 0 <= i < d.len() ==> is_digit(#[trigger] d[i])) && dec_value(d)
        <= u64::MAX
}

/// Hexadecimal digit, either case.
pub open spec fn is_hex_digit(c: char) -> bool {
    (48 <= (c as u32) && (c as u32) <= 57) || (97 <= (c as u32) && (c as u32) <= 102) || (65 <= (
    c as u32) && (c as u32) <= 70)
}

/// The lower-case form of a hexadecimal digit.
pub open spec fn hex_lower(c: char) -> char {
    if 65 <= (c as u32) && (c as u32) <= 70 {
        (((c as u32) + 32) as u32) as char
    } else {
        c
    }
}

/// Whether a sequence is an accepted patch identifier: at most 40
/// hexadecimal digits.
pub open spec fn valid_id_text(s: Seq<char>) -> bool {
    s.len() <= 40 && forall|i: int| 0 <= i < s.len() ==> is_hex_digit(#[trigger] s[i])
}

pub open spec fn zeros(n: int) -> Seq<char> {
    Seq::new(n as nat, |i: int| '0')
}

/// The canonical form of a patch identifier: digits lower-cased and
/// padded with zeros to the full 40 places.
pub open spec fn canonical_id(s: Seq<char>) -> Seq<char> {
    Seq::new(s.len(), |i: int| hex_lower(s[i])) + zeros(40 - s.len())
}

/// An identifier already in canonical form.
pub open spec fn is_canonical_id(s: Seq<char>) -> bool {
    s.len() == 40 && forall|i: int|
        0 <= i < s.len() ==> is_hex_digit(#[trigger] s[i]) && hex_lower(s[i]) == s[i]
}

pub proof fn lemma_dec_value_push(s: Seq<char>, c: char)
    ensures
        dec_value(s.push(c)) == dec_value(s) * 10 + digit_val(c),
{
    assert(s.push(c).drop_last() =~= s);
    assert(s.push(c).last() == c);
}

pub proof fn lemma_dec_value_nonneg(s: Seq<char>)
    requires
        forall|i: int| 0 <= i < s.len() ==> is_digit(#[trigger] s[i]),
    ensures
        dec_value(s) >= 0,
    decreases s.len(),
{
    if s.len() > 0 {
        lemma_dec_value_nonneg(s.drop_last());
    }
}

pub proof fn lemma_dec_value_mono(s: Seq<char>, i: int)
    requires
        forall|j: int| 0 <= j < s.len() ==> is_digit(#[trigger] s[j]),
        0 <= i <= s.len(),
    ensures
        dec_value(s) >= dec_value(s.take(i)),
    decreases s.len(),
{
    lemma_dec_value_nonneg(s);
    if i < s.len() {
        assert(s.drop_last().take(i) =~= s.take(i));
        lemma_dec_value_mono(s.drop_last(), i);
        lemma_dec_value_nonneg(s.drop_last());
    } else {
        assert(s.take(i) =~= s);
    }
}

/// Reads an unsigned decimal number, accepting an optional leading
/// plus sign, and rejecting anything else or any value over
/// `u64::MAX`.
pub fn parse_u64(s: &str) -> (r: Option<u64>)
    ensures
        match r {
            Some(v) => valid_u64_text(s@) && v == dec_value(digits_part(s@)),
            None => !valid_u64_text(s@),
        },
{
    let n: usize = s.unicode_len();
    let start: usize = if n > 0 && s.get_char(0) == '+' {
        1
    } else {
        0
    };
    let ghost d = digits_part(s@);
    proof {
        assert(d =~= s@.skip(start as int));
    }
    if start == n {
        return None;
    }
    let mut v: u64 = 0;
    let mut i: usize = start;
    while i < n
        invariant
            start <= i <= n,
            n == s@.len(),
            d == digits_part(s@),
            d == s@.skip(start as int),
            d.len() == n - start,
            forall|j: int| start <= j < i ==> is_digit(#[trigger] s@[j]),
            forall|j: int| 0 <= j < i - start ==> is_digit(#[trigger] d[j]),
            v == dec_value(d.take(i - start)),
        decreases n - i,
    {
        let c = s.get_char(i);
        let u: u32 = c as u32;
        if !(48 <= u && u <= 57) {
            proof {
                assert(d[i - start] == s@[i as int]);
                assert(!is_digit(d[i - start]));
            }
            return None;
        }
        let dv: u64 = (u - 48) as u64;
        proof {
            assert(d.take(i + 1 - start) =~= d.take(i - start).push(d[i - start]));
            lemma_dec_value_push(d.take(i - start), d[i - start]);
            assert(d[i - start] == s@[i as int]);
        }
        if v > (u64::MAX - dv) / 10 {
            proof {
                assert(v * 10 + dv > u64::MAX) by (nonlinear_arith)
                    requires
                        v > (u64::MAX - dv) / 10,
                        dv <= 9,
                ;
                if valid_u64_text(s@) {
                    lemma_dec_value_mono(d, i + 1 - start);
                    assert(dec_value(d) <= u64::MAX);
                    assert(dec_value(d.take(i + 1 - start)) > u64::MAX);
                }
            }
            return None;
        }
        proof {
            assert(v * 10 + dv <= u64::MAX) by (nonlinear_arith)
                requires
                    v <= (u64::MAX - dv) / 10,
                    dv <= 9,
            ;
        }
        v = v * 10 + dv;
        i = i + 1;
    }
    proof {
        assert(d.take(n - start) =~= d);
        lemma_dec_value_nonneg(d);
    }
    Some(v)
}

/// The canonical text of one decimal digit.
fn digit_str(dv: u64) -> (r: &'static str)
    requires
        dv < 10,
    ensures
        r@ == seq![digit_char(dv as int)],
        r@.len() == 1,
{
    let r: &'static str = match dv {
        0 => "0",
        1 => "1",
        2 => "2",
        3 => "3",
        4 => "4",
        5 => "5",
        6 => "6",
        7 => "7",
        8 => "8",
        _ => "9",
    };
    proof {
        reveal_strlit("0");
        reveal_strlit("1");
        reveal_strlit("2");
        reveal_strlit("3");
        reveal_strlit("4");
        reveal_strlit("5");
        reveal_strlit("6");
        reveal_strlit("7");
        reveal_strlit("8");
        reveal_strlit("9");
        assert(r@ =~= seq![digit_char(dv as int)]);
    }
    r
}

/// Writes a number in its canonical decimal form.
pub fn u64_to_string(v: u64) -> (r: String)
    ensures
        r@ == dec_text(v as int),
    decreases v,
{
    if v < 10 {
        digit_str(v).to_owned()
    } else {
        let mut r = u64_to_string(v / 10);
        r.append(digit_str(v % 10));
        r
    }
}

pub proof fn lemma_dec_text_value(v: int)
    requires
        v >= 0,
    ensures
        dec_text(v).len() > 0,
        forall|i: int| 0 <= i < dec_text(v).len() ==> is_digit(#[trigger] dec_text(v)[i]),
        dec_value(dec_text(v)) == v,
    decreases v,
{
    if v < 10 {
        assert(is_digit(digit_char(v)));
        assert(dec_text(v) =~= Seq::empty().push(digit_char(v)));
        lemma_dec_value_push(Seq::empty(), digit_char(v));
    } else {
        lemma_dec_text_value(v / 10);
        assert(dec_text(v) =~= dec_text(v / 10).push(digit_char(v % 10)));
        lemma_dec_value_push(dec_text(v / 10), digit_char(v % 10));
        assert(is_digit(digit_char(v % 10)));
        assert forall|i: int| 0 <= i < dec_text(v).len() implies is_digit(
            #[trigger] dec_text(v)[i],
        ) by {
            if i < dec_text(v / 10).len() {
                assert(dec_text(v)[i] == dec_text(v / 10)[i]);
            }
        }
    }
}

/// The canonical text of a number parses back to it.
pub proof fn lemma_dec_text_valid_u64(v: u64)
    ensures
        valid_u64_text(dec_text(v as int)),
        dec_value(digits_part(dec_text(v as int))) == v,
{
    lemma_dec_text_value(v as int);
    assert(dec_text(v as int)[0] != '+') by {
        if (v as int) < 10 {
            assert(dec_text(v as int)[0] == digit_char(v as int));
        } else {
            assert(dec_text(v as int)[0] == dec_text(v as int / 10)[0]);
            lemma_dec_text_value(v as int / 10);
        }
    }
    assert(digits_part(dec_text(v as int)) == dec_text(v as int));
}

/// The lower-cased text of one hexadecimal digit, or nothing when the
/// character is not one.
fn hex_digit_str(c: char) -> (r: Option<&'static str>)
    ensures
        match r {
            Some(t) => is_hex_digit(c) && t@ == seq![hex_lower(c)],
            None => !is_hex_digit(c),
        },
{
    let r: Option<&'static str> = match c {
        '0' => Some("0"),
        '1' => Some("1"),
        '2' => Some("2"),
        '3' => Some("3"),
        '4' => Some("4"),
        '5' => Some("5"),
        '6' => Some("6"),
        '7' => Some("7"),
        '8' => Some("8"),
        '9' => Some("9"),
        'a' | 'A' => Some("a"),
        'b' | 'B' => Some("b"),
        'c' | 'C' => Some("c"),
        'd' | 'D' => Some("d"),
        'e' | 'E' => Some("e"),
        'f' | 'F' => Some("f"),
        _ => None,
    };
    proof {
        reveal_strlit("0");
        reveal_strlit("1");
        reveal_strlit("2");
        reveal_strlit("3");
        reveal_strlit("4");
        reveal_strlit("5");
        reveal_strlit("6");
        reveal_strlit("7");
        reveal_strlit("8");
        reveal_strlit("9");
        reveal_strlit("a");
        reveal_strlit("b");
        reveal_strlit("c");
        reveal_strlit("d");
        reveal_strlit("e");
        reveal_strlit("f");
        match r {
            Some(t) => {
                assert(t@ =~= seq![hex_lower(c)]);
            },
            None => {},
        }
    }
    r
}

/// Reads a patch identifier and brings it to canonical form: at most
/// 40 hexadecimal digits, lower-cased and zero-padded to 40 places.
pub fn parse_id(s: &str) -> (r: Option<String>)
    ensures
        match r {
            Some(id) => valid_id_text(s@) && id@ == canonical_id(s@),
            None => !valid_id_text(s@),
        },
{
    let n: usize = s.unicode_len();
    if n > 40 {
        return None;
    }
    let mut out = String::new();
    let mut i: usize = 0;
    while i < n
        invariant
            0 <= i <= n,
            n == s@.len(),
            n <= 40,
            forall|j: int| 0 <= j < i ==> is_hex_digit(#[trigger] s@[j]),
            out@ =~= Seq::new(i as nat, |j: int| hex_lower(s@[j])),
        decreases n - i,
    {
        let c = s.get_char(i);
        match hex_digit_str(c) {
            Some(t) => {
                out.append(t);
            },
            None => {
                return None;
            },
        }
        i = i + 1;
        proof {
            assert(out@ =~= Seq::new(i as nat, |j: int| hex_lower(s@[j])));
        }
    }
    let mut pad: usize = n;
    while pad < 40
        invariant
            n <= pad <= 40,
            n == s@.len(),
            out@ =~= Seq::new(n as nat, |j: int| hex_lower(s@[j])) + zeros(pad - n),
        decreases 40 - pad,
    {
        out.append("0");
        pad = pad + 1;
        proof {
            reveal_strlit("0");
            assert(out@ =~= Seq::new(n as nat, |j: int| hex_lower(s@[j])) + zeros(
                pad - n,
            ));
        }
    }
    proof {
        assert(out@ =~= canonical_id(s@));
    }
    Some(out)
}

/// The canonical form of a valid identifier is canonical.
pub proof fn lemma_canonical_id_canonical(s: Seq<char>)
    requires
        valid_id_text(s),
    ensures
        is_canonical_id(canonical_id(s)),
        valid_id_text(canonical_id(s)),
        canonical_id(canonical_id(s)) == canonical_id(s),
{
    let c = canonical_id(s);
    assert forall|i: int| 0 <= i < c.len() implies is_hex_digit(#[trigger] c[i]) && hex_lower(
        c[i],
    ) == c[i] by {
        if i < s.len() {
            assert(c[i] == hex_lower(s[i]));
            assert(is_hex_digit(hex_lower(s[i])) && hex_lower(hex_lower(s[i])) == hex_lower(
                s[i],
            ));
        } else {
            assert(c[i] == '0');
        }
    }
    assert(canonical_id(c) =~= c);
}

/// Index of the first newline, or the length when none occurs.
pub open spec fn first_nl(s: Seq<char>) -> int
    decreases s.len(),
{
    if s.len() == 0 {
        0
    } else if s[0] == '\n' {
        0
    } else {
        1 + first_nl(s.drop_first())
    }
}

pub proof fn lemma_first_nl(s: Seq<char>)
    ensures
        0 <= first_nl(s) <= s.len(),
        forall|j: int| 0 <= j < first_nl(s) ==> s[j] != '\n',
        first_nl(s) < s.len() ==> s[first_nl(s)] == '\n',
    decreases s.len(),
{
    if s.len() > 0 && s[0] != '\n' {
        lemma_first_nl(s.drop_first());
        assert forall|j: int| 0 <= j < first_nl(s) implies s[j] != '\n' by {
            if j > 0 {
                assert(s.drop_first()[j - 1] != '\n');
            }
        }
        if first_nl(s) < s.len() {
            assert(s[first_nl(s)] == s.drop_first()[first_nl(s.drop_first())]);
        }
    }
}

/// The lines of a text, split at newline characters; the separator is
/// consumed, and a trailing newline yields a final empty line.
pub open spec fn lines_of(s: Seq<char>) -> Seq<Seq<char>>
    decreases s.len(),
    via lines_of_decreases
{
    let i = first_nl(s);
    if i == s.len() {
        seq![s]
    } else {
        seq![s.take(i)] + lines_of(s.skip(i + 1))
    }
}

#[via_fn]
proof fn lines_of_decreases(s: Seq<char>) {
    lemma_first_nl(s);
}

/// Splits a text into its lines.
pub fn split_lines(s: &str) -> (r: Vec<String>)
    ensures
        views_of(r@) == lines_of(s@),
{
    let n: usize = s.unicode_len();
    let mut r: Vec<String> = Vec::new();
    let mut start: usize = 0;
    proof {
        assert(s@.skip(0) =~= s@);
        assert(views_of(r@) =~= Seq::<Seq<char>>::empty());
        assert(lines_of(s@) =~= views_of(r@) + lines_of(s@.skip(0)));
    }
    loop
        invariant_except_break
            0 <= start <= n,
            n == s@.len(),
            lines_of(s@) =~= views_of(r@) + lines_of(
                s@.skip(start as int),
            ),
        ensures
            views_of(r@) == lines_of(s@),
        decreases n - start,
    {
        let ghost rest = s@.skip(start as int);
        let ghost r0 = r@;
        let mut j: usize = start;
        while j < n && s.get_char(j) != '\n'
            invariant
                start <= j <= n,
                n == s@.len(),
                forall|k: int| start <= k < j ==> s@[k] != '\n',
            decreases n - j,
        {
            j = j + 1;
        }
        proof {
            lemma_first_nl(rest);
            assert forall|k: int| 0 <= k < j - start implies rest[k] != '\n' by {
                assert(rest[k] == s@[start + k]);
            }
            if first_nl(rest) < j - start {
                assert(rest[first_nl(rest)] != '\n');
                assert(false);
            }
            if j < n {
                assert(rest[j - start] == s@[j as int]);
                if first_nl(rest) > j - start {
                    assert(rest[j - start] != '\n');
                    assert(false);
                }
            } else {
                if first_nl(rest) < rest.len() {
                    assert(s@[start + first_nl(rest)] == '\n');
                    assert(false);
                }
            }
        }
        let piece = s.substring_char(start, j);
        r.push(piece.to_owned());
        proof {
            assert(views_of(r@) =~= views_of(r0)
                + seq![piece@]);
        }
        if j == n {
            proof {
                assert(first_nl(rest) == rest.len());
                assert(piece@ =~= rest);
                assert(views_of(r@) =~= lines_of(s@));
            }
            break;
        }
        proof {
            assert(first_nl(rest) == j - start);
            assert(rest.take(j - start) =~= s@.subrange(start as int, j as int));
            assert(rest.skip(j - start + 1) =~= s@.skip(j + 1));
            assert(lines_of(rest) == seq![rest.take(j - start)] + lines_of(
                rest.skip(j - start + 1),
            ));
        }
        start = j + 1;
    }
    r
}

/// A single line: text without a newline character.
pub open spec fn no_nl(s: Seq<char>) -> bool {
    forall|i: int| 0 <= i < s.len() ==> s[i] != '\n'
}

pub proof fn lemma_first_nl_at(s: Seq<char>, i: int)
    requires
        0 <= i <= s.len(),
        forall|j: int| 0 <= j < i ==> s[j] != '\n',
        i == s.len() || s[i] == '\n',
    ensures
        first_nl(s) == i,
{
    lemma_first_nl(s);
    if first_nl(s) < i {
        assert(s[first_nl(s)] == '\n');
    }
    if first_nl(s) > i && i < s.len() {
        assert(s[i] != '\n');
    }
}

/// Splitting one newline-terminated line off the front of a text.
pub proof fn lemma_lines_cons(a: Seq<char>, rest: Seq<char>)
    requires
        no_nl(a),
    ensures
        lines_of(a + seq!['\n'] + rest) == seq![a] + lines_of(rest),
{
    let t = a + seq!['\n'] + rest;
    assert forall|j: int| 0 <= j < a.len() implies t[j] != '\n' by {
        assert(t[j] == a[j]);
    }
    assert(t[a.len() as int] == '\n');
    lemma_first_nl_at(t, a.len() as int);
    assert(t.take(a.len() as int) =~= a);
    assert(t.skip(a.len() as int + 1) =~= rest);
}

/// Text whose edges are not whitespace trims to itself.
pub proof fn lemma_trimmed_id(s: Seq<char>)
    requires
        s.len() > 0 ==> !is_space(s[0]) && !is_space(s.last()),
    ensures
        trimmed(s) == s,
{
    lemma_trimmed_front_skip(s, 0);
    assert(s.skip(0) =~= s);
    lemma_trimmed_back_take(s, s.len() as int);
    assert(s.take(s.len() as int) =~= s);
}

/// A canonical identifier is its own canonical form and is accepted.
pub proof fn lemma_canonical_fixed(s: Seq<char>)
    requires
        is_canonical_id(s),
    ensures
        valid_id_text(s),
        canonical_id(s) == s,
        no_nl(s),
        forall|i: int| 0 <= i < s.len() ==> !is_space(#[trigger] s[i]) && s[i] != ' ',
    decreases s.len(),
{
    assert(canonical_id(s) =~= s);
    assert forall|i: int| 0 <= i < s.len() implies !is_space(#[trigger] s[i]) && s[i] != ' '
        && s[i] != '\n' by {
        assert(is_hex_digit(s[i]));
        assert((s[i] as u32) != 32 && (s[i] as u32) != 9 && (s[i] as u32) != 13 && (s[i] as u32)
            != 10) by {
            if is_space(s[i]) || s[i] == '\n' {
            }
        }
        if is_space(s[i]) {
            assert((s[i] as u32) == 32 || (s[i] as u32) == 9 || (s[i] as u32) == 13 || (
            s[i] as u32) == 10);
        }
    }
}

/// How many whitespace characters lead a sequence.
pub open spec fn lead_spaces(s: Seq<char>) -> int
    decreases s.len(),
{
    if s.len() > 0 && is_space(s[0]) {
        1 + lead_spaces(s.drop_first())
    } else {
        0
    }
}

pub proof fn lemma_trimmed_front_rep(s: Seq<char>)
    ensures
        0 <= lead_spaces(s) <= s.len(),
        trimmed_front(s) == s.skip(lead_spaces(s)),
        trimmed_front(s).len() > 0 ==> !is_space(trimmed_front(s)[0]),
        forall|j: int| 0 <= j < lead_spaces(s) ==> is_space(#[trigger] s[j]),
    decreases s.len(),
{
    if s.len() > 0 && is_space(s[0]) {
        lemma_trimmed_front_rep(s.drop_first());
        assert(s.drop_first().skip(lead_spaces(s.drop_first())) =~= s.skip(
            1 + lead_spaces(s.drop_first()),
        ));
        assert forall|j: int| 0 <= j < lead_spaces(s) implies is_space(#[trigger] s[j]) by {
            if j > 0 {
                assert(is_space(s.drop_first()[j - 1]));
            }
        }
    } else {
        assert(s.skip(0) =~= s);
    }
}

/// How many whitespace characters trail a sequence.
pub open spec fn trail_spaces(s: Seq<char>) -> int
    decreases s.len(),
{
    if s.len() > 0 && is_space(s.last()) {
        1 + trail_spaces(s.drop_last())
    } else {
        0
    }
}

pub proof fn lemma_trimmed_back_rep(s: Seq<char>)
    ensures
        0 <= trail_spaces(s) <= s.len(),
        trimmed_back(s) == s.take(s.len() - trail_spaces(s)),
        trimmed_back(s).len() > 0 ==> !is_space(trimmed_back(s).last()),
    decreases s.len(),
{
    if s.len() > 0 && is_space(s.last()) {
        lemma_trimmed_back_rep(s.drop_last());
        assert(s.drop_last().take(s.drop_last().len() - trail_spaces(s.drop_last())) =~= s.take(
            s.len() - 1 - trail_spaces(s.drop_last()),
        ));
    } else {
        assert(s.take(s.len() as int) =~= s);
    }
}

/// Trimming keeps every remaining character of the text and cleans its
/// edges.
pub proof fn lemma_trimmed_wf(s: Seq<char>)
    ensures
        trimmed(s).len() > 0 ==> !is_space(trimmed(s)[0]) && !is_space(trimmed(s).last()),
        no_nl(s) ==> no_nl(trimmed(s)),
        (forall|i: int| 0 <= i < s.len() ==> s[i] != ' ') ==> (forall|i: int|
            0 <= i < trimmed(s).len() ==> trimmed(s)[i] != ' '),
{
    lemma_trimmed_front_rep(s);
    let f = trimmed_front(s);
    lemma_trimmed_back_rep(f);
    let t = trimmed(s);
    assert(t == f.take(f.len() - trail_spaces(f)));
    if t.len() > 0 {
        assert(t[0] == f[0]);
    }
    assert forall|i: int| 0 <= i < t.len() implies t[i] == s[lead_spaces(s) + i] by {
        assert(t[i] == f[i]);
        assert(f[i] == s[lead_spaces(s) + i]);
    }
}

/// Every line a split yields is free of newlines.
pub proof fn lemma_lines_no_nl(s: Seq<char>)
    ensures
        forall|k: int| 0 <= k < lines_of(s).len() ==> no_nl(#[trigger] lines_of(s)[k]),
    decreases s.len(),
{
    lemma_first_nl(s);
    let i = first_nl(s);
    if i == s.len() {
        assert forall|k: int| 0 <= k < lines_of(s).len() implies no_nl(
            #[trigger] lines_of(s)[k],
        ) by {
            assert(lines_of(s)[k] == s);
            assert forall|j: int| 0 <= j < s.len() implies s[j] != '\n' by {}
        }
    } else {
        lemma_lines_no_nl(s.skip(i + 1));
        assert forall|k: int| 0 <= k < lines_of(s).len() implies no_nl(
            #[trigger] lines_of(s)[k],
        ) by {
            if k == 0 {
                assert(lines_of(s)[0] == s.take(i));
                assert forall|j: int| 0 <= j < s.take(i).len() implies s.take(i)[j]
                    != '\n' by {
                    assert(s.take(i)[j] == s[j]);
                }
            } else {
                assert(lines_of(s)[k] == lines_of(s.skip(i + 1))[k - 1]);
            }
        }
    }
}

} // verus!
