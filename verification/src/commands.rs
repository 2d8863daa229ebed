//! The application's exchanges with its helper scripts: reading the monitor
//! list they print, and the arguments that save settings through them.
use vstd::prelude::*;
use crate::model::{Monitor, RotationCfg, PowerCfg};
use crate::text::{
    split_words, words, views, chars_of, string_of, sub_chars, owned, u32_value, parse_u32,
    digits_value, unsigned_value, digit_value, usize_value, is_word, whitespace,
};

verus! {

/// Position `i` holds the first `x` of `s`.
pub open spec fn first_x(s: Seq<char>, i: int) -> bool {
    0 <= i < s.len() && s[i] == 'x' && forall|j: int| 0 <= j < i ==> s[j] != 'x'
}

/// The monitor a line of the monitor list describes: exactly two words, a
/// name and `<width>x<height>` (cut at the first `x`), both sizes decimal.
pub open spec fn monitor_of_line(l: Seq<char>) -> Option<(Seq<char>, u32, u32)> {
    let w = words(l);
    if w.len() == 2 && exists|i: int| first_x(w[1], i) {
        let i = choose|i: int| first_x(w[1], i);
        match (u32_value(w[1].take(i)), u32_value(w[1].skip(i + 1))) {
            (Some(a), Some(b)) => Some((w[0], a, b)),
            _ => None,
        }
    } else {
        None
    }
}

/// Reads one line of the monitor list (`NAME WxH`).
pub fn parse_monitor_line(line: &str) -> (r: Option<Monitor>)
    ensures
        match monitor_of_line(line@) {
            Some((name, w, h)) => r matches Some(m) && m.name@ == name && m.w == w && m.h == h,
            None => r is None,
        },
{
    let p = split_words(line);
    let ghost w = views(p@);
    assert(w == words(line@));
    if p.len() != 2 {
        return None;
    }
    assert(w[0] == p@[0]@ && w[1] == p@[1]@);
    let size = chars_of(p[1].as_str());
    let mut i: usize = 0;
    while i < size.len() && size[i] != 'x'
        invariant
            i <= size.len(),
            forall|j: int| 0 <= j < i ==> size@[j] != 'x',
        decreases size.len() - i,
    {
        i += 1;
    }
    if i == size.len() {
        assert(!exists|k: int| first_x(size@, k));
        return None;
    }
    proof {
        assert(first_x(size@, i as int));
        let c = choose|k: int| first_x(size@, k);
        if c < i {
            assert(size@[c] == 'x');
        } else if c > i {
            assert(size@[i as int] != 'x');
        }
    }
    let ws = string_of(&sub_chars(&size, 0, i));
    let hs = string_of(&sub_chars(&size, i + 1, size.len()));
    assert(ws@ =~= size@.take(i as int));
    assert(hs@ =~= size@.skip(i + 1));
    match (parse_u32(ws.as_str()), parse_u32(hs.as_str())) {
        (Some(a), Some(b)) => Some(Monitor { name: owned(p[0].as_str()), w: a, h: b }),
        _ => None,
    }
}

/// The decimal digits of a number, without leading zeros ("0" for zero).
pub open spec fn decimal_digits(v: nat) -> Seq<char>
    decreases v,
{
    let d = (('0' as int) + (v % 10) as int) as char;
    if v < 10 {
        seq![d]
    } else {
        decimal_digits(v / 10).push(d)
    }
}

/// Reading back the decimal digits of a number gives the number: what
/// `decimal` writes, `str::parse` reads back unchanged.
pub proof fn lemma_decimal_roundtrip(v: nat)
    ensures
        decimal_digits(v).len() > 0,
        digits_value(decimal_digits(v), 10) == Some(v),
        unsigned_value(decimal_digits(v), 10) == Some(v),
        v <= u32::MAX ==> u32_value(decimal_digits(v)) == Some(v as u32),
        v <= usize::MAX ==> usize_value(decimal_digits(v)) == Some(v as usize),
    decreases v,
{
    let s = decimal_digits(v);
    let d = (('0' as int) + (v % 10) as int) as char;
    assert(d as int == 48 + v % 10);
    assert(digit_value(d, 10) == Some((v % 10) as nat));
    assert(s.last() == d);
    if v < 10 {
        assert(s.drop_last() =~= Seq::<char>::empty());
        assert(digits_value(Seq::<char>::empty(), 10) == Some(0nat));
        assert(digits_value(s, 10) == Some(v));
    } else {
        lemma_decimal_roundtrip(v / 10);
        assert(s.drop_last() =~= decimal_digits(v / 10));
        assert((v / 10) * 10 + v % 10 == v) by (nonlinear_arith);
        assert(digits_value(s, 10) == Some(v));
    }
    assert(s[0] != '+') by {
        if v >= 10 {
            lemma_first_digit(v);
        }
    }
}

proof fn lemma_first_digit(v: nat)
    ensures
        '0' <= decimal_digits(v)[0] <= '9',
    decreases v,
{
    if v >= 10 {
        lemma_first_digit(v / 10);
        assert(decimal_digits(v)[0] == decimal_digits(v / 10)[0]);
    }
}

/// The decimal digits of a number are a word: ASCII digits only.
pub proof fn lemma_decimal_is_word(v: nat)
    ensures
        is_word(decimal_digits(v)),
        forall|i: int|
            0 <= i < decimal_digits(v).len() ==> '0' <= #[trigger] decimal_digits(v)[i] <= '9',
    decreases v,
{
    let s = decimal_digits(v);
    let d = (('0' as int) + (v % 10) as int) as char;
    assert(d as int == 48 + v % 10);
    if v >= 10 {
        lemma_decimal_is_word(v / 10);
        let p = decimal_digits(v / 10);
        assert(s == p.push(d));
        assert forall|i: int| 0 <= i < s.len() implies '0' <= #[trigger] s[i] <= '9' by {
            if i < p.len() {
                assert(s[i] == p[i]);
            }
        }
    }
    assert forall|i: int| 0 <= i < s.len() implies !whitespace(#[trigger] s[i]) by {
        assert('0' <= s[i] <= '9');
    }
}

/// A number in decimal (`to_string` of an unsigned integer).
pub fn decimal(v: u64) -> (r: String)
    ensures
        r@ == decimal_digits(v as nat),
{
    // digits, least significant first
    let mut rev: Vec<char> = Vec::new();
    let mut x: u64 = v;
    loop
        invariant_except_break
            decimal_digits(v as nat) == decimal_digits(x as nat) + rev@.reverse(),
        ensures
            decimal_digits(v as nat) == rev@.reverse(),
        decreases x,
    {
        let d = ((x % 10) as u8 + 48u8) as char;
        proof {
            assert(d == (('0' as int) + (x % 10) as int) as char);
            if x >= 10 {
                assert(decimal_digits(x as nat) == decimal_digits((x / 10) as nat).push(d));
            } else {
                assert(decimal_digits(x as nat) == seq![d]);
            }
            assert(rev@.push(d).reverse() =~= seq![d] + rev@.reverse());
        }
        rev.push(d);
        if x < 10 {
            assert(decimal_digits(v as nat) =~= rev@.reverse());
            break;
        }
        x = x / 10;
        proof {
            assert(decimal_digits(v as nat) =~= decimal_digits(x as nat) + rev@.reverse());
        }
    }
    let mut out: Vec<char> = Vec::new();
    let mut i: usize = rev.len();
    while i > 0
        invariant
            i <= rev.len(),
            out@ == rev@.skip(i as int).reverse(),
        decreases i,
    {
        i -= 1;
        out.push(rev[i]);
        assert(out@ =~= rev@.skip(i as int).reverse());
    }
    assert(rev@.skip(0) =~= rev@);
    string_of(&out)
}

/// "true" or "false".
pub open spec fn bool_word(b: bool) -> Seq<char> {
    if b {
        "true"@
    } else {
        "false"@
    }
}

fn bool_string(b: bool) -> (r: String)
    ensures
        r@ == bool_word(b),
{
    if b {
        owned("true")
    } else {
        owned("false")
    }
}

/// The state-script arguments that save rotation settings.
pub fn rotation_args(r: &RotationCfg) -> (a: Vec<String>)
    ensures
        views(a@) == seq![
            "set-rotation"@,
            bool_word(r.enabled),
            r.interval@,
            r.scope@,
            bool_word(r.per_monitor),
        ],
{
    let mut a: Vec<String> = Vec::new();
    a.push(owned("set-rotation"));
    a.push(bool_string(r.enabled));
    a.push(owned(r.interval.as_str()));
    a.push(owned(r.scope.as_str()));
    a.push(bool_string(r.per_monitor));
    assert(views(a@) =~= seq![
        "set-rotation"@,
        bool_word(r.enabled),
        r.interval@,
        r.scope@,
        bool_word(r.per_monitor),
    ]);
    a
}

/// The state-script arguments that save a monitor's fit mode.
pub fn fit_args(name: &str, mode: &str) -> (a: Vec<String>)
    ensures
        views(a@) == seq!["set-fit"@, name@, mode@],
{
    let mut a: Vec<String> = Vec::new();
    a.push(owned("set-fit"));
    a.push(owned(name));
    a.push(owned(mode));
    assert(views(a@) =~= seq!["set-fit"@, name@, mode@]);
    a
}

/// The state-script arguments that save power settings.
pub fn power_args(p: &PowerCfg) -> (a: Vec<String>)
    ensures
        views(a@) == seq![
            "set-power"@,
            p.mode@,
            decimal_digits(p.fps_cap as nat),
            p.battery@,
        ],
{
    let mut a: Vec<String> = Vec::new();
    a.push(owned("set-power"));
    a.push(owned(p.mode.as_str()));
    a.push(decimal(p.fps_cap as u64));
    a.push(owned(p.battery.as_str()));
    assert(views(a@) =~= seq![
        "set-power"@,
        p.mode@,
        decimal_digits(p.fps_cap as nat),
        p.battery@,
    ]);
    a
}

} // verus!
