//! JSON text pieces: string literals and unsigned integers. Rendering them
//! is serde_json's work; finding where one ends in a text is done here.

use vstd::prelude::*;
use vstd::std_specs::iter::IteratorSpec;

verus! {

/// The characters of `text`, in order.
pub fn chars_of(text: &str) -> (r: Vec<char>)
    ensures
        r@ == text@,
{
    broadcast use vstd::string::group_string_axioms;
    let mut it = text.chars();
    let mut out: Vec<char> = Vec::new();
    loop
        invariant
            out@ + it.remaining() == text@,
            it.decrease() is Some,
        ensures
            out@ == text@,
        decreases it.decrease()->0,
    {
        match it.next() {
            Some(c) => {
                let ghost before = out@;
                out.push(c);
                assert(out@ + it.remaining() =~= before + seq![c] + it.remaining());
            },
            None => {
                assert(out@ + it.remaining() =~= out@);
                break;
            },
        }
    }
    out
}

/// The digit of value `d` (below 16), as JSON writes it: lower case.
pub open spec fn hex_digit(d: int) -> char {
    seq!['0', '1', '2', '3', '4', '5', '6', '7', '8', '9', 'a', 'b', 'c', 'd', 'e', 'f'][d]
}

/// How a JSON string literal writes one character: `"` and `\` after a
/// backslash, the five control characters that have a short escape with it,
/// the other control characters as `\u00XX`, everything else as it is.
pub open spec fn escape_char(c: char) -> Seq<char> {
    if c == '"' {
        seq!['\\', '"']
    } else if c == '\\' {
        seq!['\\', '\\']
    } else if c == '\u{8}' {
        seq!['\\', 'b']
    } else if c == '\u{c}' {
        seq!['\\', 'f']
    } else if c == '\n' {
        seq!['\\', 'n']
    } else if c == '\r' {
        seq!['\\', 'r']
    } else if c == '\t' {
        seq!['\\', 't']
    } else if (c as u32) < 0x20 {
        seq!['\\', 'u', '0', '0', hex_digit((c as u32) as int / 16), hex_digit((c as u32) as int % 16)]
    } else {
        seq![c]
    }
}

/// The body of a JSON string literal holding `s`.
pub open spec fn escaped(s: Seq<char>) -> Seq<char>
    decreases s.len(),
{
    if s.len() == 0 {
        Seq::empty()
    } else {
        escape_char(s[0]) + escaped(s.drop_first())
    }
}

/// The JSON string literal holding `s`, quotes included.
pub open spec fn json_quote(s: Seq<char>) -> Seq<char> {
    seq!['"'] + escaped(s) + seq!['"']
}

/// The decimal digits of `n`, without leading zeros.
pub open spec fn decimal(n: nat) -> Seq<char>
    decreases n,
{
    if n < 10 {
        seq![hex_digit(n as int)]
    } else {
        decimal(n / 10).push(hex_digit((n % 10) as int))
    }
}

/// Relies on serde_json's `to_string` on a `str`: it writes the string
/// literal, escaping as `escape_char` says, and does not fail.
#[verifier::external_body]
fn quote_text(s: &str) -> (r: Option<String>)
    ensures
        r is Some,
        r->0@ == json_quote(s@),
{
    serde_json::to_string(s).ok()
}

/// Relies on serde_json's `to_string` on a `u64`: it writes the decimal
/// digits and does not fail.
#[verifier::external_body]
fn number_text(n: u64) -> (r: Option<String>)
    ensures
        r is Some,
        r->0@ == decimal(n as nat),
{
    serde_json::to_string(&n).ok()
}

/// Whether `r` is what a literal in the form `json_quote` writes reads back
/// as: the string it was written from.
pub open spec fn reads_back(lit: Seq<char>, r: Option<String>) -> bool {
    forall|x: Seq<char>| #[trigger] json_quote(x) == lit ==> (r matches Some(s) && s@ == x)
}

/// Relies on serde_json's `from_str` into a `String`: a literal in the form
/// that `to_string` writes reads back as the string it was written from.
#[verifier::external_body]
fn string_of_literal(lit: &str) -> (r: Option<String>)
    ensures
        reads_back(lit@, r),
{
    serde_json::from_str::<String>(lit).ok()
}

/// `s` as a JSON string literal.
pub fn quote(s: &str) -> (r: String)
    ensures
        r@ == json_quote(s@),
{
    match quote_text(s) {
        Some(q) => q,
        None => String::new(),
    }
}

/// The decimal digits of `n`.
pub fn digits(n: u64) -> (r: String)
    ensures
        r@ == decimal(n as nat),
{
    match number_text(n) {
        Some(q) => q,
        None => String::new(),
    }
}

spec fn shift(o: Option<nat>, k: nat) -> Option<nat> {
    match o {
        Some(n) => Some(n + k),
        None => None,
    }
}

/// Where the body of a string literal that starts at the front of `s` ends:
/// the index of the first quote not taken by a backslash escape.
spec fn closing_quote(s: Seq<char>) -> Option<nat>
    decreases s.len(),
{
    if s.len() == 0 {
        None
    } else if s[0] == '"' {
        Some(0)
    } else if s[0] == '\\' {
        if s.len() < 2 {
            None
        } else {
            shift(closing_quote(s.subrange(2, s.len() as int)), 2)
        }
    } else {
        shift(closing_quote(s.drop_first()), 1)
    }
}

proof fn lemma_plain_prefix(p: Seq<char>, t: Seq<char>)
    requires
        forall|i: int| 0 <= i < p.len() ==> p[i] != '"' && p[i] != '\\',
    ensures
        closing_quote(p + t) == shift(closing_quote(t), p.len()),
    decreases p.len(),
{
    if p.len() == 0 {
        assert(p + t =~= t);
    } else {
        assert((p + t).drop_first() =~= p.drop_first() + t);
        assert((p + t)[0] == p[0]);
        lemma_plain_prefix(p.drop_first(), t);
    }
}

proof fn lemma_escaped_closes(x: Seq<char>, rest: Seq<char>)
    ensures
        closing_quote(escaped(x) + seq!['"'] + rest) == Some(escaped(x).len()),
    decreases x.len(),
{
    if x.len() == 0 {
        assert(escaped(x) + seq!['"'] + rest =~= seq!['"'] + rest);
    } else {
        let c = x[0];
        let tail = escaped(x.drop_first()) + seq!['"'] + rest;
        lemma_escaped_closes(x.drop_first(), rest);
        let e = escape_char(c);
        assert(escaped(x) + seq!['"'] + rest =~= e + tail);
        if e.len() == 1 {
            lemma_plain_prefix(e, tail);
        } else if e.len() == 2 {
            assert((e + tail).subrange(2, (e + tail).len() as int) =~= tail);
        } else {
            let d = e.subrange(2, 6);
            assert((e + tail).subrange(2, (e + tail).len() as int) =~= d + tail);
            lemma_plain_prefix(d, tail);
        }
    }
}

/// The index in `t` of the quote that closes the string literal whose body
/// starts at `from`.
fn closing_quote_at(t: &Vec<char>, from: usize) -> (r: Option<usize>)
    requires
        from <= t.len(),
    ensures
        r matches Some(e) ==> from <= e < t.len(),
        shift(closing_quote(t@.subrange(from as int, t.len() as int)), from as nat) == match r {
            Some(e) => Some(e as nat),
            None => None,
        },
{
    let mut i: usize = from;
    while i < t.len()
        invariant
            from <= i <= t.len(),
            shift(closing_quote(t@.subrange(from as int, t.len() as int)), from as nat) == shift(
                closing_quote(t@.subrange(i as int, t.len() as int)),
                i as nat,
            ),
        decreases t.len() - i,
    {
        let ghost s = t@.subrange(i as int, t.len() as int);
        if t[i] == '"' {
            return Some(i);
        } else if t[i] == '\\' {
            if t.len() - i < 2 {
                return None;
            }
            assert(s.subrange(2, s.len() as int) =~= t@.subrange(i + 2, t.len() as int));
            i = i + 2;
        } else {
            assert(s.drop_first() =~= t@.subrange(i + 1, t.len() as int));
            i = i + 1;
        }
    }
    None
}

/// Whether a reader returned the string `x` and the index `end` just past it.
pub open spec fn read_as(r: Option<(String, usize)>, x: Seq<char>, end: int) -> bool {
    r matches Some(v) && v.0@ == x && v.1 == end
}

proof fn lemma_literal_found(t: Seq<char>, p: int, x: Seq<char>)
    requires
        0 <= p,
        p + json_quote(x).len() <= t.len(),
        t.subrange(p, p + json_quote(x).len()) == json_quote(x),
    ensures
        t[p] == '"',
        shift(closing_quote(t.subrange(p + 1, t.len() as int)), (p + 1) as nat) == Some(
            (p + 1 + escaped(x).len()) as nat,
        ),
{
    let q = json_quote(x);
    assert(t[p] == t.subrange(p, p + q.len())[0]);
    let rest = t.subrange(p + q.len(), t.len() as int);
    assert(t.subrange(p + 1, t.len() as int) =~= escaped(x) + seq!['"'] + rest) by {
        assert forall|i: int| 0 <= i < t.len() - (p + 1) implies #[trigger] t.subrange(p + 1, t.len() as int)[i] == (escaped(x) + seq!['"'] + rest)[i] by {
            if i < q.len() - 1 {
                assert(t[p + 1 + i] == t.subrange(p, p + q.len())[i + 1]);
                assert(q[i + 1] == (escaped(x) + seq!['"'])[i]);
            }
        }
    }
    lemma_escaped_closes(x, rest);
}

/// The string literal that starts at index `p` of `t`, read back, and the
/// index just past it. A literal written as `json_quote` writes it is read
/// back as the string it was written from.
pub(crate) fn string_at(text: &str, t: &Vec<char>, p: usize) -> (r: Option<(String, usize)>)
    requires
        t@ == text@,
    ensures
        forall|x: Seq<char>|
            p + json_quote(x).len() <= t.len() && #[trigger] json_quote(x) == t@.subrange(
                p as int,
                p + json_quote(x).len(),
            ) ==> read_as(r, x, p + json_quote(x).len()),
{
    if p >= t.len() || t[p] != '"' {
        proof {
            assert forall|x: Seq<char>|
                p + json_quote(x).len() <= t.len() && #[trigger] json_quote(x) == t@.subrange(
                    p as int,
                    p + json_quote(x).len(),
                ) implies false by {
                lemma_literal_found(t@, p as int, x);
            }
        }
        return None;
    }
    match closing_quote_at(t, p + 1) {
        None => {
            proof {
                assert forall|x: Seq<char>|
                    p + json_quote(x).len() <= t.len() && #[trigger] json_quote(x) == t@.subrange(
                        p as int,
                        p + json_quote(x).len(),
                    ) implies false by {
                    lemma_literal_found(t@, p as int, x);
                }
            }
            None
        },
        Some(e) => {
            let lit = text.substring_char(p, e + 1);
            let r = string_of_literal(lit);
            proof {
                assert forall|x: Seq<char>|
                    p + json_quote(x).len() <= t.len() && #[trigger] json_quote(x) == t@.subrange(
                        p as int,
                        p + json_quote(x).len(),
                    ) implies (r is Some && r->0@ == x && e + 1 == p + json_quote(x).len()) by {
                    lemma_literal_found(t@, p as int, x);
                    assert(lit@ == json_quote(x));
                }
            }
            match r {
                Some(s) => Some((s, e + 1)),
                None => None,
            }
        },
    }
}

/// Whether `c` is a decimal digit.
pub open spec fn is_digit(c: char) -> bool {
    48 <= (c as u32) <= 57
}

pub(crate) open spec fn digits_value(s: Seq<char>) -> nat
    decreases s.len(),
{
    if s.len() == 0 {
        0
    } else {
        digits_value(s.drop_last()) * 10 + ((s.last() as u32) - 48) as nat
    }
}

spec fn pow10(k: nat) -> nat
    decreases k,
{
    if k == 0 {
        1
    } else {
        10 * pow10((k - 1) as nat)
    }
}

pub(crate) proof fn lemma_decimal(n: nat)
    ensures
        decimal(n).len() >= 1,
        forall|i: int| 0 <= i < decimal(n).len() ==> is_digit(#[trigger] decimal(n)[i]),
        digits_value(decimal(n)) == n,
        n < 100000 ==> decimal(n).len() <= 5,
    decreases n,
{
    if n >= 10 {
        lemma_decimal(n / 10);
        let d = decimal(n / 10);
        assert(decimal(n).drop_last() =~= d);
        assert forall|i: int| 0 <= i < decimal(n).len() implies is_digit(#[trigger] decimal(n)[i]) by {
            if i < d.len() {
                assert(decimal(n)[i] == d[i]);
            }
        }
        lemma_digit_char((n % 10) as int);
        assert(decimal(n).last() == hex_digit((n % 10) as int));
        assert(digits_value(decimal(n)) == digits_value(d) * 10 + (n % 10));
        if n < 100000 {
            reveal_with_fuel(pow10, 6);
            lemma_decimal_bound(n, 5);
        }
    } else {
        lemma_digit_char(n as int);
        assert(decimal(n).drop_last() =~= Seq::<char>::empty());
        assert(digits_value(decimal(n)) == digits_value(Seq::<char>::empty()) * 10 + n);
    }
}

proof fn lemma_digit_char(k: int)
    requires
        0 <= k < 10,
    ensures
        (hex_digit(k) as u32) == 48 + k,
{
    let h = seq!['0', '1', '2', '3', '4', '5', '6', '7', '8', '9', 'a', 'b', 'c', 'd', 'e', 'f'];
    assert(hex_digit(k) == h[k]);
    if k == 0 {
        assert(h[0] == '0');
    } else if k == 1 {
        assert(h[1] == '1');
    } else if k == 2 {
        assert(h[2] == '2');
    } else if k == 3 {
        assert(h[3] == '3');
    } else if k == 4 {
        assert(h[4] == '4');
    } else if k == 5 {
        assert(h[5] == '5');
    } else if k == 6 {
        assert(h[6] == '6');
    } else if k == 7 {
        assert(h[7] == '7');
    } else if k == 8 {
        assert(h[8] == '8');
    } else {
        assert(h[9] == '9');
    }
}

proof fn lemma_decimal_bound(n: nat, k: nat)
    requires
        1 <= k,
        n < pow10(k),
    ensures
        decimal(n).len() <= k,
    decreases n,
{
    reveal_with_fuel(pow10, 5);
    if n >= 10 {
        assert(k >= 2) by {
            if k == 1 {
                assert(pow10(1) == 10);
            }
        }
        assert(pow10(k) == 10 * pow10((k - 1) as nat));
        assert(n / 10 < pow10((k - 1) as nat)) by (nonlinear_arith)
            requires
                n < 10 * pow10((k - 1) as nat),
        ;
        lemma_decimal_bound(n / 10, (k - 1) as nat);
    }
}

/// The unsigned 16-bit number whose decimal digits start at index `p` of `t`,
/// and the index just past them. Digits written as `decimal` writes them, and
/// not followed by another digit, are read back as the number they were
/// written from.
pub(crate) fn number_at(t: &Vec<char>, p: usize) -> (r: Option<(u16, usize)>)
    requires
        p <= t.len(),
    ensures
        forall|n: u16|
            p + decimal(n as nat).len() <= t.len() && #[trigger] decimal(n as nat) == t@.subrange(
                p as int,
                p + decimal(n as nat).len(),
            ) && (p + decimal(n as nat).len() == t.len() || !is_digit(
                t@[p + decimal(n as nat).len()],
            )) ==> r == Some((n, (p + decimal(n as nat).len()) as usize)),
{
    let mut j: usize = p;
    let mut v: u64 = 0;
    while j < t.len() && j - p < 6 && 48 <= (t[j] as u32) && (t[j] as u32) <= 57
        invariant
            p <= j <= t.len(),
            j - p <= 6,
            v == digits_value(t@.subrange(p as int, j as int)),
            v < pow10((j - p) as nat),
            forall|i: int| p <= i < j ==> is_digit(t@[i]),
        decreases t.len() - j,
    {
        let ghost before = t@.subrange(p as int, j as int);
        let d = (t[j] as u32 - 48) as u64;
        proof {
            reveal_with_fuel(pow10, 7);
            assert(v * 10 + d < pow10((j - p) as nat) * 10) by (nonlinear_arith)
                requires
                    v < pow10((j - p) as nat),
                    d < 10,
            ;
        }
        v = v * 10 + d;
        j = j + 1;
        proof {
            assert(t@.subrange(p as int, j as int).drop_last() =~= before);
        }
    }
    let r: Option<(u16, usize)> = if j == p || j - p > 5 || v > 65535 {
        None
    } else {
        Some((v as u16, j))
    };
    proof {
        assert forall|n: u16|
            p + decimal(n as nat).len() <= t.len() && #[trigger] decimal(n as nat) == t@.subrange(
                p as int,
                p + decimal(n as nat).len(),
            ) && (p + decimal(n as nat).len() == t.len() || !is_digit(
                t@[p + decimal(n as nat).len()],
            )) implies r == Some((n, (p + decimal(n as nat).len()) as usize)) by {
            let dn = decimal(n as nat);
            lemma_decimal(n as nat);
            assert forall|i: int| p <= i < p + dn.len() implies is_digit(t@[i]) by {
                assert(t@[i] == dn[i - p]);
            }
            if j < p + dn.len() {
                assert(is_digit(t@[j as int]));
            }
            if j > p + dn.len() {
                assert(is_digit(t@[p + dn.len()]));
            }
            assert(j == p + dn.len());
        }
    }
    r
}

} // verus!
