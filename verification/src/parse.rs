//! Parser for the macro scripting language.
//!
//! A script is one or more macros. A macro is a trigger (one or more button
//! names joined by `+`), then a brace-enclosed block of action lines. Each
//! action line is one statement — `press`, `hold` or `release` of a button,
//! `move to` a literal location or back to `start`, or `wait` a duration in
//! seconds — closed by a line ending or the end of the input. Whitespace
//! between tokens is insignificant except as the statement terminator.
//!
//! The grammar of each construct is stated by a `spec` function over the
//! input characters, and every executable parser returns exactly what its
//! spec says: position reached and value, or failure. A script either parses
//! completely (only trailing whitespace permitted) or fails as a whole, with
//! the offset of the unparsable remainder.
use vstd::prelude::*;
use vstd::string::StrSliceExecFns;
use crate::script::Action;
use crate::script::Button;
use crate::script::Event;
use crate::script::Macro;
use crate::script::MacroModel;
use crate::script::Trigger;
use crate::script::TriggerModel;
use crate::script::trigger_matches;

verus! {

/// A structured parse failure: the character offset at which the unparsable
/// remainder of the input starts.
#[derive(Clone, Copy, Debug, PartialEq, Eq, Structural)]
pub struct ParseError {
    pub offset: usize,
}

/// Statement-internal whitespace: spaces and tabs.
pub open spec fn is_space_char(c: char) -> bool {
    c == ' ' || c == '\t'
}

/// Whitespace between tokens, line breaks included.
pub open spec fn is_ws_char(c: char) -> bool {
    c == ' ' || c == '\t' || c == '\n' || c == '\r'
}

pub open spec fn is_digit_char(c: char) -> bool {
    '0' <= c && c <= '9'
}

pub open spec fn digit_value(c: char) -> nat {
    (c as u32 - '0' as u32) as nat
}

/// Position reached by skipping whitespace (line breaks included) from `i`.
pub open spec fn skip_ws(s: Seq<char>, i: int) -> int
    decreases s.len() - i,
{
    if i < s.len() && is_ws_char(s[i]) {
        skip_ws(s, i + 1)
    } else {
        i
    }
}

/// Position reached by skipping spaces and tabs from `i`.
pub open spec fn skip_spaces(s: Seq<char>, i: int) -> int
    decreases s.len() - i,
{
    if i < s.len() && is_space_char(s[i]) {
        skip_spaces(s, i + 1)
    } else {
        i
    }
}

/// Position just past the run of decimal digits starting at `i`.
pub open spec fn skip_digits(s: Seq<char>, i: int) -> int
    decreases s.len() - i,
{
    if i < s.len() && is_digit_char(s[i]) {
        skip_digits(s, i + 1)
    } else {
        i
    }
}

pub proof fn lemma_skip_ws_bounds(s: Seq<char>, i: int)
    requires
        i <= s.len(),
    ensures
        i <= skip_ws(s, i) <= s.len(),
    decreases s.len() - i,
{
    if i < s.len() && is_ws_char(s[i]) {
        lemma_skip_ws_bounds(s, i + 1);
    }
}

pub proof fn lemma_skip_spaces_bounds(s: Seq<char>, i: int)
    requires
        i <= s.len(),
    ensures
        i <= skip_spaces(s, i) <= s.len(),
    decreases s.len() - i,
{
    if i < s.len() && is_space_char(s[i]) {
        lemma_skip_spaces_bounds(s, i + 1);
    }
}

pub proof fn lemma_skip_digits_bounds(s: Seq<char>, i: int)
    requires
        i <= s.len(),
    ensures
        i <= skip_digits(s, i) <= s.len(),
    decreases s.len() - i,
{
    if i < s.len() && is_digit_char(s[i]) {
        lemma_skip_digits_bounds(s, i + 1);
    }
}

/// The value of the digit run `s[i..j)` read as a decimal number.
pub open spec fn digits_value(s: Seq<char>, i: int, j: int) -> nat
    decreases j - i,
{
    if j <= i {
        0
    } else {
        digits_value(s, i, j - 1) * 10 + digit_value(s[j - 1])
    }
}

/// The literal `t` stands in `s` at position `i`.
pub open spec fn has_tag(s: Seq<char>, i: int, t: Seq<char>) -> bool {
    &&& 0 <= i
    &&& i + t.len() <= s.len()
    &&& s.subrange(i, i + t.len() as int) == t
}

/// The input decoded to one `char` per grammar position.
fn to_chars(s: &str) -> (v: Vec<char>)
    ensures
        v@ == s@,
{
    let n = s.unicode_len();
    let mut v: Vec<char> = Vec::new();
    let mut i: usize = 0;
    while i < n
        invariant
            n == s@.len(),
            i <= n,
            v@ == s@.subrange(0, i as int),
        decreases n - i,
    {
        let c = s.get_char(i);
        v.push(c);
        proof {
            assert(v@ =~= s@.subrange(0, i + 1 as int));
        }
        i = i + 1;
    }
    proof {
        assert(s@.subrange(0, s@.len() as int) =~= s@);
    }
    v
}

fn is_ws_at(s: &Vec<char>, j: usize) -> (r: bool)
    requires
        j < s@.len(),
    ensures
        r == is_ws_char(s@[j as int]),
{
    let c = s[j];
    c == ' ' || c == '\t' || c == '\n' || c == '\r'
}

fn is_space_at(s: &Vec<char>, j: usize) -> (r: bool)
    requires
        j < s@.len(),
    ensures
        r == is_space_char(s@[j as int]),
{
    let c = s[j];
    c == ' ' || c == '\t'
}

fn is_digit_at(s: &Vec<char>, j: usize) -> (r: bool)
    requires
        j < s@.len(),
    ensures
        r == is_digit_char(s@[j as int]),
{
    let c = s[j];
    c >= '0' && c <= '9'
}

/// Skip whitespace, line breaks included (the `ws` around every token).
fn ws(s: &Vec<char>, i: usize) -> (j: usize)
    requires
        i <= s@.len(),
    ensures
        j as int == skip_ws(s@, i as int),
        i <= j <= s@.len(),
{
    let mut j: usize = i;
    while j < s.len() && is_ws_at(s, j)
        invariant
            i <= j <= s@.len(),
            skip_ws(s@, i as int) == skip_ws(s@, j as int),
        decreases s@.len() - j,
    {
        j = j + 1;
    }
    j
}

/// Skip spaces and tabs.
fn spaces(s: &Vec<char>, i: usize) -> (j: usize)
    requires
        i <= s@.len(),
    ensures
        j as int == skip_spaces(s@, i as int),
        i <= j <= s@.len(),
{
    let mut j: usize = i;
    while j < s.len() && is_space_at(s, j)
        invariant
            i <= j <= s@.len(),
            skip_spaces(s@, i as int) == skip_spaces(s@, j as int),
        decreases s@.len() - j,
    {
        j = j + 1;
    }
    j
}

/// The end of the digit run starting at `i`.
fn digits_end(s: &Vec<char>, i: usize) -> (j: usize)
    requires
        i <= s@.len(),
    ensures
        j as int == skip_digits(s@, i as int),
        i <= j <= s@.len(),
{
    let mut j: usize = i;
    while j < s.len() && is_digit_at(s, j)
        invariant
            i <= j <= s@.len(),
            skip_digits(s@, i as int) == skip_digits(s@, j as int),
        decreases s@.len() - j,
    {
        j = j + 1;
    }
    j
}

/// Recognize the literal `tag` at position `i` and step over it.
fn eat_tag(s: &Vec<char>, i: usize, tag: &str) -> (r: Option<usize>)
    requires
        i <= s@.len(),
    ensures
        r is Some <==> has_tag(s@, i as int, tag@),
        r is Some ==> r->0 as int == i + tag@.len() && r->0 <= s@.len(),
{
    let n = tag.unicode_len();
    if n > s.len() - i {
        return None;
    }
    let mut k: usize = 0;
    while k < n
        invariant
            n as nat == tag@.len(),
            i + n <= s@.len() <= usize::MAX,
            k <= n,
            forall|m: int| 0 <= m < k ==> s@[i + m] == tag@[m],
        decreases n - k,
    {
        if s[i + k] != tag.get_char(k) {
            proof {
                assert(s@.subrange(i as int, i + tag@.len() as int)[k as int] == s@[i + k]);
            }
            return None;
        }
        k = k + 1;
    }
    proof {
        assert(s@.subrange(i as int, i + tag@.len() as int) =~= tag@);
    }
    Some(i + n)
}

/// Every character in a skipped digit run is a digit.
pub proof fn lemma_skip_digits_digits(s: Seq<char>, i: int)
    requires
        0 <= i <= s.len(),
    ensures
        forall|m: int| i <= m < skip_digits(s, i) ==> is_digit_char(s[m]),
    decreases s.len() - i,
{
    if i < s.len() && is_digit_char(s[i]) {
        lemma_skip_digits_digits(s, i + 1);
    }
}

fn digit_at_val(s: &Vec<char>, k: usize) -> (d: u32)
    requires
        k < s@.len(),
        is_digit_char(s@[k as int]),
    ensures
        d as nat == digit_value(s@[k as int]),
        d <= 9,
{
    let c = s[k];
    (c as u32) - ('0' as u32)
}

/// Parse the digit run at `i` as a decimal number; fails when there is no
/// digit at `i` or the value exceeds `cap`.
fn scan_number(s: &Vec<char>, i: usize, cap: u64) -> (r: Option<(usize, u64)>)
    requires
        i <= s@.len(),
        cap <= u32::MAX as u64,
    ensures
        ({
            let j = skip_digits(s@, i as int);
            &&& (r is Some <==> (j > i && digits_value(s@, i as int, j) <= cap as nat))
            &&& (r is Some ==> (r->0).0 as int == j && (r->0).1 as nat == digits_value(
                s@,
                i as int,
                j,
            ))
        }),
{
    proof {
        lemma_skip_digits_digits(s@, i as int);
    }
    let j = digits_end(s, i);
    if j == i {
        return None;
    }
    let mut k: usize = i;
    let mut val: u64 = 0;
    let mut over: bool = false;
    while k < j
        invariant
            i <= k <= j <= s@.len(),
            j as int == skip_digits(s@, i as int),
            cap <= u32::MAX as u64,
            forall|m: int| i <= m < j ==> is_digit_char(s@[m]),
            !over ==> val as nat == digits_value(s@, i as int, k as int) && val <= cap,
            over ==> digits_value(s@, i as int, k as int) > cap as nat,
        decreases j - k,
    {
        let d = digit_at_val(s, k);
        if !over {
            let next: u64 = val * 10 + d as u64;
            if next > cap {
                over = true;
            } else {
                val = next;
            }
        } else {
            proof {
                let v = digits_value(s@, i as int, k as int);
                assert(digits_value(s@, i as int, k + 1 as int) == v * 10 + digit_value(
                    s@[k as int],
                ));
                assert(v * 10 >= v);
            }
        }
        k = k + 1;
    }
    if over {
        return None;
    }
    Some((j, val))
}

/// Grammar of a button name: `Mouse`, then `Left`, `Right`, `Middle` or a
/// device button number that fits in one byte.
pub open spec fn spec_parse_button(s: Seq<char>, i: int) -> Option<(int, Button)> {
    if has_tag(s, i, "Mouse"@) {
        let j = i + "Mouse"@.len() as int;
        if has_tag(s, j, "Left"@) {
            Some((j + "Left"@.len() as int, Button::Left))
        } else if has_tag(s, j, "Right"@) {
            Some((j + "Right"@.len() as int, Button::Right))
        } else if has_tag(s, j, "Middle"@) {
            Some((j + "Middle"@.len() as int, Button::Middle))
        } else {
            let k = skip_digits(s, j);
            if k > j && digits_value(s, j, k) <= u8::MAX as nat {
                Some((k, Button::Other(digits_value(s, j, k) as u8)))
            } else {
                None
            }
        }
    } else {
        None
    }
}

/// Parse a button name at `i`.
fn parse_button(s: &Vec<char>, i: usize) -> (r: Option<(usize, Button)>)
    requires
        i <= s@.len(),
    ensures
        r is Some <==> spec_parse_button(s@, i as int) is Some,
        r is Some ==> (r->0).0 as int == (spec_parse_button(s@, i as int)->0).0 && (r->0).1
            == (spec_parse_button(s@, i as int)->0).1,
        r is Some ==> i < (r->0).0 <= s@.len(),
{
    let j = match eat_tag(s, i, "Mouse") {
        Some(j) => j,
        None => {
            return None;
        },
    };
    proof {
        reveal_strlit("Mouse");
    }
    if let Some(k) = eat_tag(s, j, "Left") {
        proof {
            reveal_strlit("Left");
        }
        return Some((k, Button::Left));
    }
    if let Some(k) = eat_tag(s, j, "Right") {
        proof {
            reveal_strlit("Right");
        }
        return Some((k, Button::Right));
    }
    if let Some(k) = eat_tag(s, j, "Middle") {
        proof {
            reveal_strlit("Middle");
        }
        return Some((k, Button::Middle));
    }
    match scan_number(s, j, u8::MAX as u64) {
        Some((k, n)) => {
            proof {
                lemma_skip_digits_bounds(s@, j as int);
            }
            Some((k, Button::Other(n as u8)))
        },
        None => None,
    }
}

/// Ten to the `n`-th power.
pub open spec fn pow10(n: nat) -> nat
    decreases n,
{
    if n == 0 {
        1
    } else {
        10 * pow10((n - 1) as nat)
    }
}

/// Grammar of a duration in seconds, yielding milliseconds: whole seconds,
/// then optionally a dot and fractional digits. Only the first three
/// fractional digits count; read directly as milliseconds, zero-padded on
/// the right to three digits (`0.5` is 500 ms, `0.1234` is 123 ms). A dot
/// without a digit after it is left unconsumed. Fails when the total does
/// not fit the millisecond type.
pub open spec fn spec_parse_seconds(s: Seq<char>, i: int) -> Option<(int, u32)> {
    let j = skip_digits(s, i);
    if j <= i {
        None
    } else {
        let whole = digits_value(s, i, j);
        let frac_end = skip_digits(s, j + 1);
        let has_frac = j < s.len() && s[j] == '.' && frac_end > j + 1;
        let end = if has_frac {
            frac_end
        } else {
            j
        };
        let m = if !has_frac {
            0
        } else if frac_end - (j + 1) >= 3 {
            3
        } else {
            frac_end - (j + 1)
        };
        let frac = digits_value(s, j + 1, j + 1 + m) * pow10((3 - m) as nat);
        let ms = whole * 1000 + frac;
        if ms <= u32::MAX as nat {
            Some((end, ms as u32))
        } else {
            None
        }
    }
}

/// Parse a duration in seconds at `i`, yielding milliseconds.
#[verifier::rlimit(50)]
fn parse_seconds_at(s: &Vec<char>, i: usize) -> (r: Option<(usize, u32)>)
    requires
        i <= s@.len(),
    ensures
        r is Some <==> spec_parse_seconds(s@, i as int) is Some,
        r is Some ==> (r->0).0 as int == (spec_parse_seconds(s@, i as int)->0).0 && (r->0).1
            == (spec_parse_seconds(s@, i as int)->0).1,
        r is Some ==> i < (r->0).0 <= s@.len(),
{
    let (j, whole) = match scan_number(s, i, u32::MAX as u64) {
        Some(p) => p,
        None => {
            proof {
                let jj = skip_digits(s@, i as int);
                if jj > i {
                    let w = digits_value(s@, i as int, jj);
                    assert(w * 1000 >= w);
                }
            }
            return None;
        },
    };
    proof {
        lemma_skip_digits_bounds(s@, i as int);
    }
    let ghost mut spec_m: int = 0;
    let mut end: usize = j;
    let mut frac: u64 = 0;
    if j < s.len() && s[j] == '.' {
        let a = j + 1;
        let fe = digits_end(s, a);
        if fe > a {
            proof {
                lemma_skip_digits_digits(s@, a as int);
            }
            let m: usize = if fe - a >= 3 {
                3
            } else {
                fe - a
            };
            proof {
                spec_m = m as int;
            }
            let mut v: u64 = digit_at_val(s, a) as u64;
            proof {
                assert(digits_value(s@, a as int, a as int) == 0);
                assert(v as nat == digits_value(s@, a as int, a + 1));
                assert(v <= 9);
            }
            if m >= 2 {
                let d = digit_at_val(s, a + 1);
                v = v * 10 + d as u64;
                proof {
                    assert(v as nat == digits_value(s@, a as int, a + 2));
                    assert(v <= 99);
                }
            }
            if m == 3 {
                let d = digit_at_val(s, a + 2);
                v = v * 10 + d as u64;
                proof {
                    assert(v as nat == digits_value(s@, a as int, a + 3));
                    assert(v <= 999);
                }
            }
            if m == 3 {
                frac = v;
                proof {
                    assert(pow10((3 - m) as nat) == 1);
                    assert(frac as nat == digits_value(s@, a as int, a + m) * pow10(
                        (3 - m) as nat,
                    )) by (nonlinear_arith)
                        requires
                            v as nat == digits_value(s@, a as int, a + m),
                            pow10((3 - m) as nat) == 1,
                            frac == v,
                    ;
                }
            } else if m == 2 {
                frac = v * 10;
                proof {
                    assert(pow10(0) == 1);
                    assert(pow10((3 - m) as nat) == 10);
                    assert(frac as nat == digits_value(s@, a as int, a + m) * pow10(
                        (3 - m) as nat,
                    )) by (nonlinear_arith)
                        requires
                            v as nat == digits_value(s@, a as int, a + m),
                            pow10((3 - m) as nat) == 10,
                            frac == v * 10,
                    ;
                }
            } else {
                frac = v * 100;
                proof {
                    assert(pow10(0) == 1);
                    assert(pow10(1) == 10);
                    assert(pow10((3 - m) as nat) == 100);
                    assert(frac as nat == digits_value(s@, a as int, a + m) * pow10(
                        (3 - m) as nat,
                    )) by (nonlinear_arith)
                        requires
                            v as nat == digits_value(s@, a as int, a + m),
                            pow10((3 - m) as nat) == 100,
                            frac == v * 100,
                    ;
                }
            }
            end = fe;
            proof {
                assert(frac as nat == digits_value(s@, a as int, a + m) * pow10((3 - m) as nat));
                assert(frac <= 99900);
            }
        }
    }
    proof {
        if spec_m == 0 {
            assert(digits_value(s@, j + 1 as int, j + 1 + spec_m) == 0);
            assert(digits_value(s@, j + 1 as int, j + 1 + spec_m) * pow10((3 - spec_m) as nat)
                == 0) by (nonlinear_arith)
                requires
                    digits_value(s@, j + 1 as int, j + 1 + spec_m) == 0,
            ;
        }
        assert(frac as nat == digits_value(s@, j + 1 as int, j + 1 + spec_m) * pow10(
            (3 - spec_m) as nat,
        ));
    }
    let ms64: u64 = whole * 1000 + frac;
    if ms64 > u32::MAX as u64 {
        return None;
    }
    Some((end, ms64 as u32))
}

/// Grammar of a literal location: a coordinate, a comma possibly surrounded
/// by whitespace, a second coordinate; each coordinate a digit run whose
/// value fits the signed device coordinate range.
pub open spec fn spec_parse_loc(s: Seq<char>, i: int) -> Option<(int, (i64, i64))> {
    let jx = skip_digits(s, i);
    if jx <= i || digits_value(s, i, jx) > i32::MAX as nat {
        None
    } else {
        let x = digits_value(s, i, jx);
        let c = skip_ws(s, jx);
        if has_tag(s, c, ","@) {
            let j2 = skip_ws(s, c + 1);
            let jy = skip_digits(s, j2);
            if jy <= j2 || digits_value(s, j2, jy) > i32::MAX as nat {
                None
            } else {
                Some((jy, (x as i64, digits_value(s, j2, jy) as i64)))
            }
        } else {
            None
        }
    }
}

/// Parse a literal location at `i`.
fn parse_loc(s: &Vec<char>, i: usize) -> (r: Option<(usize, (i64, i64))>)
    requires
        i <= s@.len(),
    ensures
        r is Some <==> spec_parse_loc(s@, i as int) is Some,
        r is Some ==> (r->0).0 as int == (spec_parse_loc(s@, i as int)->0).0 && (r->0).1
            == (spec_parse_loc(s@, i as int)->0).1,
        r is Some ==> i < (r->0).0 <= s@.len(),
{
    let (jx, x) = match scan_number(s, i, i32::MAX as u64) {
        Some(p) => p,
        None => {
            return None;
        },
    };
    proof {
        lemma_skip_digits_bounds(s@, i as int);
    }
    let c = ws(s, jx);
    let c2 = match eat_tag(s, c, ",") {
        Some(p) => p,
        None => {
            return None;
        },
    };
    proof {
        reveal_strlit(",");
    }
    let j2 = ws(s, c2);
    let (jy, y) = match scan_number(s, j2, i32::MAX as u64) {
        Some(p) => p,
        None => {
            return None;
        },
    };
    proof {
        lemma_skip_digits_bounds(s@, j2 as int);
    }
    Some((jy, (x as i64, y as i64)))
}

/// Grammar of a `wait` statement: the keyword, at least one space or tab,
/// then a duration in seconds. One action: suspend for that many
/// milliseconds.
pub open spec fn spec_parse_wait(s: Seq<char>, i: int) -> Option<(int, Seq<Action>)> {
    if has_tag(s, i, "wait"@) {
        let j = i + "wait"@.len() as int;
        let j2 = skip_spaces(s, j);
        if j2 > j {
            match spec_parse_seconds(s, j2) {
                Some((k, ms)) => Some((k, seq![Action::Wait(ms)])),
                None => None,
            }
        } else {
            None
        }
    } else {
        None
    }
}

/// Grammar of a `press` statement: a synthetic tap. Two actions: the
/// button's press immediately followed by its release. Key names are
/// reserved by the grammar but not implemented: anything but a button name
/// fails the statement.
pub open spec fn spec_parse_press(s: Seq<char>, i: int) -> Option<(int, Seq<Action>)> {
    if has_tag(s, i, "press"@) {
        let j = i + "press"@.len() as int;
        let j2 = skip_spaces(s, j);
        if j2 > j {
            match spec_parse_button(s, j2) {
                Some((k, b)) => Some(
                    (
                        k,
                        seq![
                            Action::Emit(Event::ButtonPress(b)),
                            Action::Emit(Event::ButtonRelease(b)),
                        ],
                    ),
                ),
                None => None,
            }
        } else {
            None
        }
    } else {
        None
    }
}

/// Grammar of a `hold` statement: one action, the button's press alone, so
/// that a script can hold a button across several lines.
pub open spec fn spec_parse_hold(s: Seq<char>, i: int) -> Option<(int, Seq<Action>)> {
    if has_tag(s, i, "hold"@) {
        let j = i + "hold"@.len() as int;
        let j2 = skip_spaces(s, j);
        if j2 > j {
            match spec_parse_button(s, j2) {
                Some((k, b)) => Some((k, seq![Action::Emit(Event::ButtonPress(b))])),
                None => None,
            }
        } else {
            None
        }
    } else {
        None
    }
}

/// Grammar of a `release` statement: one action, the button's release alone.
pub open spec fn spec_parse_release(s: Seq<char>, i: int) -> Option<(int, Seq<Action>)> {
    if has_tag(s, i, "release"@) {
        let j = i + "release"@.len() as int;
        let j2 = skip_spaces(s, j);
        if j2 > j {
            match spec_parse_button(s, j2) {
                Some((k, b)) => Some((k, seq![Action::Emit(Event::ButtonRelease(b))])),
                None => None,
            }
        } else {
            None
        }
    } else {
        None
    }
}

/// Grammar of a `move to` statement: the keyword, whitespace, then `start`
/// (move back to where the trigger fired) or a literal location.
pub open spec fn spec_parse_move(s: Seq<char>, i: int) -> Option<(int, Seq<Action>)> {
    if has_tag(s, i, "move to"@) {
        let j = i + "move to"@.len() as int;
        let j2 = skip_ws(s, j);
        if j2 > j {
            if has_tag(s, j2, "start"@) {
                Some((j2 + "start"@.len() as int, seq![Action::ReturnToStart]))
            } else {
                match spec_parse_loc(s, j2) {
                    Some((k, (x, y))) => Some(
                        (k, seq![Action::Emit(Event::MouseMove { x, y })]),
                    ),
                    None => None,
                }
            }
        } else {
            None
        }
    } else {
        None
    }
}

/// Grammar of one action statement: the five statement kinds, tried in
/// order.
pub open spec fn spec_parse_action(s: Seq<char>, i: int) -> Option<(int, Seq<Action>)> {
    if spec_parse_press(s, i) is Some {
        spec_parse_press(s, i)
    } else if spec_parse_hold(s, i) is Some {
        spec_parse_hold(s, i)
    } else if spec_parse_release(s, i) is Some {
        spec_parse_release(s, i)
    } else if spec_parse_move(s, i) is Some {
        spec_parse_move(s, i)
    } else {
        spec_parse_wait(s, i)
    }
}

/// Grammar of a statement terminator: a line ending or the end of the input.
pub open spec fn spec_statement_end(s: Seq<char>, i: int) -> Option<int> {
    if i < s.len() && s[i] == '\n' {
        Some(i + 1)
    } else if i + 2 <= s.len() && s[i] == '\r' && s[i + 1] == '\n' {
        Some(i + 2)
    } else if i == s.len() {
        Some(i)
    } else {
        None
    }
}

/// Grammar of one action line: an action, then spaces, then a statement
/// terminator.
pub open spec fn spec_parse_action_line(s: Seq<char>, i: int) -> Option<(int, Seq<Action>)> {
    match spec_parse_action(s, i) {
        Some((j, acts)) => {
            let j2 = skip_spaces(s, j);
            match spec_statement_end(s, j2) {
                Some(k) => Some((k, acts)),
                None => None,
            }
        },
        None => None,
    }
}

/// Parse a `wait` statement at `i`.
fn parse_wait(s: &Vec<char>, i: usize) -> (r: Option<(usize, Vec<Action>)>)
    requires
        i <= s@.len(),
    ensures
        r is Some <==> spec_parse_wait(s@, i as int) is Some,
        r is Some ==> (r->0).0 as int == (spec_parse_wait(s@, i as int)->0).0 && (r->0).1@
            == (spec_parse_wait(s@, i as int)->0).1,
        r is Some ==> i < (r->0).0 <= s@.len(),
{
    let j = match eat_tag(s, i, "wait") {
        Some(j) => j,
        None => {
            return None;
        },
    };
    proof {
        reveal_strlit("wait");
    }
    let j2 = spaces(s, j);
    if j2 == j {
        return None;
    }
    match parse_seconds_at(s, j2) {
        Some((k, ms)) => {
            let mut acts: Vec<Action> = Vec::new();
            acts.push(Action::Wait(ms));
            proof {
                assert(acts@ =~= seq![Action::Wait(ms)]);
            }
            Some((k, acts))
        },
        None => None,
    }
}

/// Parse a `press` statement at `i`.
fn parse_press(s: &Vec<char>, i: usize) -> (r: Option<(usize, Vec<Action>)>)
    requires
        i <= s@.len(),
    ensures
        r is Some <==> spec_parse_press(s@, i as int) is Some,
        r is Some ==> (r->0).0 as int == (spec_parse_press(s@, i as int)->0).0 && (r->0).1@
            == (spec_parse_press(s@, i as int)->0).1,
        r is Some ==> i < (r->0).0 <= s@.len(),
{
    let j = match eat_tag(s, i, "press") {
        Some(j) => j,
        None => {
            return None;
        },
    };
    proof {
        reveal_strlit("press");
    }
    let j2 = spaces(s, j);
    if j2 == j {
        return None;
    }
    match parse_button(s, j2) {
        Some((k, b)) => {
            let mut acts: Vec<Action> = Vec::new();
            acts.push(Action::Emit(Event::ButtonPress(b)));
            acts.push(Action::Emit(Event::ButtonRelease(b)));
            proof {
                assert(acts@ =~= seq![
                    Action::Emit(Event::ButtonPress(b)),
                    Action::Emit(Event::ButtonRelease(b)),
                ]);
            }
            Some((k, acts))
        },
        None => None,
    }
}

/// Parse a `hold` statement at `i`.
fn parse_hold(s: &Vec<char>, i: usize) -> (r: Option<(usize, Vec<Action>)>)
    requires
        i <= s@.len(),
    ensures
        r is Some <==> spec_parse_hold(s@, i as int) is Some,
        r is Some ==> (r->0).0 as int == (spec_parse_hold(s@, i as int)->0).0 && (r->0).1@
            == (spec_parse_hold(s@, i as int)->0).1,
        r is Some ==> i < (r->0).0 <= s@.len(),
{
    let j = match eat_tag(s, i, "hold") {
        Some(j) => j,
        None => {
            return None;
        },
    };
    proof {
        reveal_strlit("hold");
    }
    let j2 = spaces(s, j);
    if j2 == j {
        return None;
    }
    match parse_button(s, j2) {
        Some((k, b)) => {
            let mut acts: Vec<Action> = Vec::new();
            acts.push(Action::Emit(Event::ButtonPress(b)));
            proof {
                assert(acts@ =~= seq![Action::Emit(Event::ButtonPress(b))]);
            }
            Some((k, acts))
        },
        None => None,
    }
}

/// Parse a `release` statement at `i`.
fn parse_release(s: &Vec<char>, i: usize) -> (r: Option<(usize, Vec<Action>)>)
    requires
        i <= s@.len(),
    ensures
        r is Some <==> spec_parse_release(s@, i as int) is Some,
        r is Some ==> (r->0).0 as int == (spec_parse_release(s@, i as int)->0).0 && (r->0).1@
            == (spec_parse_release(s@, i as int)->0).1,
        r is Some ==> i < (r->0).0 <= s@.len(),
{
    let j = match eat_tag(s, i, "release") {
        Some(j) => j,
        None => {
            return None;
        },
    };
    proof {
        reveal_strlit("release");
    }
    let j2 = spaces(s, j);
    if j2 == j {
        return None;
    }
    match parse_button(s, j2) {
        Some((k, b)) => {
            let mut acts: Vec<Action> = Vec::new();
            acts.push(Action::Emit(Event::ButtonRelease(b)));
            proof {
                assert(acts@ =~= seq![Action::Emit(Event::ButtonRelease(b))]);
            }
            Some((k, acts))
        },
        None => None,
    }
}

/// Parse a `move to` statement at `i`.
fn parse_move(s: &Vec<char>, i: usize) -> (r: Option<(usize, Vec<Action>)>)
    requires
        i <= s@.len(),
    ensures
        r is Some <==> spec_parse_move(s@, i as int) is Some,
        r is Some ==> (r->0).0 as int == (spec_parse_move(s@, i as int)->0).0 && (r->0).1@
            == (spec_parse_move(s@, i as int)->0).1,
        r is Some ==> i < (r->0).0 <= s@.len(),
{
    let j = match eat_tag(s, i, "move to") {
        Some(j) => j,
        None => {
            return None;
        },
    };
    proof {
        reveal_strlit("move to");
    }
    let j2 = ws(s, j);
    if j2 == j {
        return None;
    }
    if let Some(k) = eat_tag(s, j2, "start") {
        proof {
            reveal_strlit("start");
        }
        let mut acts: Vec<Action> = Vec::new();
        acts.push(Action::ReturnToStart);
        proof {
            assert(acts@ =~= seq![Action::ReturnToStart]);
        }
        return Some((k, acts));
    }
    match parse_loc(s, j2) {
        Some((k, (x, y))) => {
            let mut acts: Vec<Action> = Vec::new();
            acts.push(Action::Emit(Event::MouseMove { x, y }));
            proof {
                assert(acts@ =~= seq![Action::Emit(Event::MouseMove { x, y })]);
            }
            Some((k, acts))
        },
        None => None,
    }
}

/// Parse one action statement at `i`.
fn parse_action_at(s: &Vec<char>, i: usize) -> (r: Option<(usize, Vec<Action>)>)
    requires
        i <= s@.len(),
    ensures
        r is Some <==> spec_parse_action(s@, i as int) is Some,
        r is Some ==> (r->0).0 as int == (spec_parse_action(s@, i as int)->0).0 && (r->0).1@
            == (spec_parse_action(s@, i as int)->0).1,
        r is Some ==> i < (r->0).0 <= s@.len(),
{
    if let Some(r) = parse_press(s, i) {
        return Some(r);
    }
    if let Some(r) = parse_hold(s, i) {
        return Some(r);
    }
    if let Some(r) = parse_release(s, i) {
        return Some(r);
    }
    if let Some(r) = parse_move(s, i) {
        return Some(r);
    }
    parse_wait(s, i)
}

/// Recognize a statement terminator at `i`.
fn statement_end(s: &Vec<char>, i: usize) -> (r: Option<usize>)
    requires
        i <= s@.len(),
    ensures
        r is Some <==> spec_statement_end(s@, i as int) is Some,
        r is Some ==> r->0 as int == spec_statement_end(s@, i as int)->0 && i <= r->0 <= s@.len(),
{
    if i < s.len() {
        let c = s[i];
        if c == '\n' {
            return Some(i + 1);
        }
        if c == '\r' && i + 1 < s.len() {
            if s[i + 1] == '\n' {
                return Some(i + 2);
            }
        }
        None
    } else {
        Some(i)
    }
}

/// Parse one action line at `i`.
fn parse_action_line(s: &Vec<char>, i: usize) -> (r: Option<(usize, Vec<Action>)>)
    requires
        i <= s@.len(),
    ensures
        r is Some <==> spec_parse_action_line(s@, i as int) is Some,
        r is Some ==> (r->0).0 as int == (spec_parse_action_line(s@, i as int)->0).0 && (r->0).1@
            == (spec_parse_action_line(s@, i as int)->0).1,
        r is Some ==> i < (r->0).0 <= s@.len(),
{
    let (j, acts) = match parse_action_at(s, i) {
        Some(p) => p,
        None => {
            return None;
        },
    };
    let j2 = spaces(s, j);
    match statement_end(s, j2) {
        Some(k) => Some((k, acts)),
        None => None,
    }
}

/// Skipping whitespace never moves backwards.
pub proof fn lemma_skip_ws_ge(s: Seq<char>, i: int)
    ensures
        skip_ws(s, i) >= i,
    decreases s.len() - i,
{
    if i < s.len() && is_ws_char(s[i]) {
        lemma_skip_ws_ge(s, i + 1);
    }
}

/// A parsed button name ends strictly after it begins, within the input.
pub proof fn lemma_button_progress(s: Seq<char>, i: int)
    requires
        spec_parse_button(s, i) is Some,
    ensures
        i < (spec_parse_button(s, i)->0).0 <= s.len(),
{
    reveal_strlit("Mouse");
    reveal_strlit("Left");
    reveal_strlit("Right");
    reveal_strlit("Middle");
    let j = i + "Mouse"@.len() as int;
    if has_tag(s, j, "Left"@) {
    } else if has_tag(s, j, "Right"@) {
    } else if has_tag(s, j, "Middle"@) {
    } else {
        lemma_skip_digits_bounds(s, j);
    }
}

/// A parsed duration ends strictly after it begins, within the input.
pub proof fn lemma_seconds_progress(s: Seq<char>, i: int)
    requires
        spec_parse_seconds(s, i) is Some,
    ensures
        i < (spec_parse_seconds(s, i)->0).0 <= s.len(),
{
    let j = skip_digits(s, i);
    if i < s.len() {
        lemma_skip_digits_bounds(s, i);
    }
    if j < s.len() && s[j] == '.' {
        lemma_skip_digits_bounds(s, j + 1);
    }
}

/// A parsed location ends strictly after it begins, within the input.
pub proof fn lemma_loc_progress(s: Seq<char>, i: int)
    requires
        spec_parse_loc(s, i) is Some,
    ensures
        i < (spec_parse_loc(s, i)->0).0 <= s.len(),
{
    reveal_strlit(",");
    let jx = skip_digits(s, i);
    let c = skip_ws(s, jx);
    lemma_skip_ws_ge(s, jx);
    lemma_skip_ws_bounds(s, c + 1);
    lemma_skip_digits_bounds(s, skip_ws(s, c + 1));
}

/// A parsed action statement ends strictly after it begins, within the
/// input.
pub proof fn lemma_action_progress(s: Seq<char>, i: int)
    requires
        spec_parse_action(s, i) is Some,
    ensures
        i < (spec_parse_action(s, i)->0).0 <= s.len(),
{
    if spec_parse_press(s, i) is Some {
        reveal_strlit("press");
        let j = i + "press"@.len() as int;
        lemma_skip_spaces_bounds(s, j);
        lemma_button_progress(s, skip_spaces(s, j));
    } else if spec_parse_hold(s, i) is Some {
        reveal_strlit("hold");
        let j = i + "hold"@.len() as int;
        lemma_skip_spaces_bounds(s, j);
        lemma_button_progress(s, skip_spaces(s, j));
    } else if spec_parse_release(s, i) is Some {
        reveal_strlit("release");
        let j = i + "release"@.len() as int;
        lemma_skip_spaces_bounds(s, j);
        lemma_button_progress(s, skip_spaces(s, j));
    } else if spec_parse_move(s, i) is Some {
        reveal_strlit("move to");
        reveal_strlit("start");
        let j = i + "move to"@.len() as int;
        lemma_skip_ws_bounds(s, j);
        let j2 = skip_ws(s, j);
        if has_tag(s, j2, "start"@) {
        } else {
            lemma_loc_progress(s, j2);
        }
    } else {
        reveal_strlit("wait");
        let j = i + "wait"@.len() as int;
        lemma_skip_spaces_bounds(s, j);
        lemma_seconds_progress(s, skip_spaces(s, j));
    }
}

/// A parsed action line ends strictly after it begins, within the input.
pub proof fn lemma_action_line_progress(s: Seq<char>, i: int)
    requires
        spec_parse_action_line(s, i) is Some,
    ensures
        i < (spec_parse_action_line(s, i)->0).0 <= s.len(),
{
    lemma_action_progress(s, i);
    let j = (spec_parse_action(s, i)->0).0;
    lemma_skip_spaces_bounds(s, j);
}

/// `skip_digits` stops exactly at the first non-digit position.
pub proof fn lemma_skip_digits_exact(s: Seq<char>, i: int, j: int)
    requires
        0 <= i <= j <= s.len(),
        forall|m: int| i <= m < j ==> is_digit_char(s[m]),
        j == s.len() || !is_digit_char(s[j]),
    ensures
        skip_digits(s, i) == j,
    decreases j - i,
{
    if i < j {
        lemma_skip_digits_exact(s, i + 1, j);
    }
}

/// The duration formula, for any input that is exactly a whole part, a dot
/// and a fractional part: the parsed milliseconds are the whole seconds
/// times a thousand, plus the first three fractional digits read directly as
/// milliseconds — truncated past three digits, zero-padded under three —
/// whenever that total fits the millisecond type, and a failure otherwise.
pub proof fn lemma_duration_formula(s: Seq<char>, w: int)
    requires
        0 < w,
        w + 1 < s.len(),
        forall|m: int| 0 <= m < w ==> is_digit_char(s[m]),
        s[w] == '.',
        forall|m: int| w < m < s.len() ==> is_digit_char(s[m]),
    ensures
        ({
            let fr_len = s.len() - (w + 1);
            let m = if fr_len >= 3 {
                3
            } else {
                fr_len
            };
            let ms = digits_value(s, 0, w) * 1000 + digits_value(s, w + 1, w + 1 + m) * pow10(
                (3 - m) as nat,
            );
            if ms <= u32::MAX as nat {
                spec_parse_seconds(s, 0) == Some((s.len() as int, ms as u32))
            } else {
                spec_parse_seconds(s, 0) is None
            }
        }),
{
    lemma_skip_digits_exact(s, 0, w);
    lemma_skip_digits_exact(s, w + 1, s.len() as int);
}

/// Tap expansion: a parsed `press` statement expands to exactly two actions,
/// the button's press immediately followed by the same button's release.
pub proof fn lemma_press_expands_to_tap(s: Seq<char>, i: int)
    requires
        spec_parse_press(s, i) is Some,
    ensures
        ({
            let acts = (spec_parse_press(s, i)->0).1;
            &&& acts.len() == 2
            &&& exists|b: Button|
                acts == seq![
                    Action::Emit(Event::ButtonPress(b)),
                    Action::Emit(Event::ButtonRelease(b)),
                ]
        }),
{
    reveal_strlit("press");
    let j2 = skip_spaces(s, i + "press"@.len() as int);
    let b = (spec_parse_button(s, j2)->0).1;
    assert((spec_parse_press(s, i)->0).1 == seq![
        Action::Emit(Event::ButtonPress(b)),
        Action::Emit(Event::ButtonRelease(b)),
    ]);
}

/// Hold/release asymmetry: a parsed `hold` statement expands to exactly one
/// action, the button's press alone.
pub proof fn lemma_hold_expands_to_press(s: Seq<char>, i: int)
    requires
        spec_parse_hold(s, i) is Some,
    ensures
        ({
            let acts = (spec_parse_hold(s, i)->0).1;
            &&& acts.len() == 1
            &&& exists|b: Button| acts == seq![Action::Emit(Event::ButtonPress(b))]
        }),
{
    reveal_strlit("hold");
    let j2 = skip_spaces(s, i + "hold"@.len() as int);
    let b = (spec_parse_button(s, j2)->0).1;
    assert((spec_parse_hold(s, i)->0).1 == seq![Action::Emit(Event::ButtonPress(b))]);
}

/// Hold/release asymmetry: a parsed `release` statement expands to exactly
/// one action, the button's release alone.
pub proof fn lemma_release_expands_to_release(s: Seq<char>, i: int)
    requires
        spec_parse_release(s, i) is Some,
    ensures
        ({
            let acts = (spec_parse_release(s, i)->0).1;
            &&& acts.len() == 1
            &&& exists|b: Button| acts == seq![Action::Emit(Event::ButtonRelease(b))]
        }),
{
    reveal_strlit("release");
    let j2 = skip_spaces(s, i + "release"@.len() as int);
    let b = (spec_parse_button(s, j2)->0).1;
    assert((spec_parse_release(s, i)->0).1 == seq![Action::Emit(Event::ButtonRelease(b))]);
}

/// Grammar of a trigger's event list: one or more button names joined by
/// `+` (whitespace around the `+` insignificant). A button name in a trigger
/// stands for that button's *release*: the macro fires when the user
/// finishes the click, never mid-press. A `+` not followed by a button name
/// is left unconsumed and ends the list.
pub open spec fn spec_parse_trigger_events(s: Seq<char>, i: int) -> Option<(int, Seq<Event>)>
    decreases s.len() - i,
    via spec_parse_trigger_events_decreases
{
    match spec_parse_button(s, i) {
        None => None,
        Some((j, b)) => {
            let ev = Event::ButtonRelease(b);
            let j2 = skip_ws(s, j);
            if has_tag(s, j2, "+"@) {
                let j3 = skip_ws(s, j2 + 1);
                match spec_parse_trigger_events(s, j3) {
                    Some((k, evs)) => Some((k, seq![ev] + evs)),
                    None => Some((j, seq![ev])),
                }
            } else {
                Some((j, seq![ev]))
            }
        },
    }
}

#[via_fn]
proof fn spec_parse_trigger_events_decreases(s: Seq<char>, i: int) {
    if spec_parse_button(s, i) is Some {
        reveal_strlit("+");
        lemma_button_progress(s, i);
        let j = (spec_parse_button(s, i)->0).0;
        lemma_skip_ws_ge(s, j);
        let j2 = skip_ws(s, j);
        if has_tag(s, j2, "+"@) {
            lemma_skip_ws_bounds(s, j2 + 1);
        }
    }
}

/// A parsed trigger event list ends strictly after it begins, within the
/// input.
pub proof fn lemma_trigger_events_progress(s: Seq<char>, i: int)
    requires
        spec_parse_trigger_events(s, i) is Some,
    ensures
        i < (spec_parse_trigger_events(s, i)->0).0 <= s.len(),
    decreases s.len() - i,
{
    reveal_strlit("+");
    lemma_button_progress(s, i);
    let j = (spec_parse_button(s, i)->0).0;
    lemma_skip_ws_ge(s, j);
    let j2 = skip_ws(s, j);
    if has_tag(s, j2, "+"@) {
        lemma_skip_ws_bounds(s, j2 + 1);
        let j3 = skip_ws(s, j2 + 1);
        if spec_parse_trigger_events(s, j3) is Some {
            lemma_trigger_events_progress(s, j3);
        }
    }
}

/// Grammar of a trigger: one button name gives a `Single` trigger on that
/// button's release; several joined by `+` give a `Combo` (reserved: it
/// never fires today).
pub open spec fn spec_parse_trigger(s: Seq<char>, i: int) -> Option<(int, TriggerModel)> {
    match spec_parse_trigger_events(s, i) {
        Some((j, evs)) => Some(
            (
                j,
                if evs.len() == 1 {
                    TriggerModel::Single(evs[0])
                } else {
                    TriggerModel::Combo(evs)
                },
            ),
        ),
        None => None,
    }
}

/// Every event a trigger is built from is a button release.
pub proof fn lemma_trigger_events_are_releases(s: Seq<char>, i: int)
    requires
        spec_parse_trigger_events(s, i) is Some,
    ensures
        ({
            let evs = (spec_parse_trigger_events(s, i)->0).1;
            forall|k: int| 0 <= k < evs.len() ==> evs[k] is ButtonRelease
        }),
    decreases s.len() - i,
{
    reveal_strlit("+");
    lemma_button_progress(s, i);
    let j = (spec_parse_button(s, i)->0).0;
    lemma_skip_ws_ge(s, j);
    let j2 = skip_ws(s, j);
    if has_tag(s, j2, "+"@) {
        lemma_skip_ws_bounds(s, j2 + 1);
        let j3 = skip_ws(s, j2 + 1);
        if spec_parse_trigger_events(s, j3) is Some {
            lemma_trigger_events_are_releases(s, j3);
        }
    }
}

/// Trigger-on-release semantics: a parsed single trigger fires on exactly
/// one event, the named button's *release*; it never fires on a button
/// press. A parsed combo trigger is built from releases too, and fires on
/// nothing (reserved).
pub proof fn lemma_trigger_fires_on_release(s: Seq<char>, i: int)
    requires
        spec_parse_trigger(s, i) is Some,
    ensures
        ({
            let t = (spec_parse_trigger(s, i)->0).1;
            match t {
                TriggerModel::Single(ev) => {
                    &&& ev is ButtonRelease
                    &&& trigger_matches(t, ev)
                    &&& forall|e: Event| e != ev ==> !trigger_matches(t, e)
                },
                TriggerModel::Combo(evs) => {
                    &&& (forall|k: int| 0 <= k < evs.len() ==> evs[k] is ButtonRelease)
                    &&& forall|e: Event| !trigger_matches(t, e)
                },
            }
        }),
{
    lemma_trigger_events_are_releases(s, i);
}

/// Parse a trigger's event list at `i`.
fn parse_trigger_events(s: &Vec<char>, i: usize) -> (r: Option<(usize, Vec<Event>)>)
    requires
        i <= s@.len(),
    ensures
        r is Some <==> spec_parse_trigger_events(s@, i as int) is Some,
        r is Some ==> (r->0).0 as int == (spec_parse_trigger_events(s@, i as int)->0).0 && (
        r->0).1@ == (spec_parse_trigger_events(s@, i as int)->0).1,
        r is Some ==> i < (r->0).0 <= s@.len(),
    decreases s@.len() - i,
{
    let (j, b) = match parse_button(s, i) {
        Some(p) => p,
        None => {
            return None;
        },
    };
    let ev = Event::ButtonRelease(b);
    let j2 = ws(s, j);
    if let Some(jp) = eat_tag(s, j2, "+") {
        proof {
            reveal_strlit("+");
        }
        let j3 = ws(s, jp);
        match parse_trigger_events(s, j3) {
            Some((k, mut evs)) => {
                let mut out: Vec<Event> = Vec::new();
                out.push(ev);
                let ghost rest = evs@;
                out.append(&mut evs);
                proof {
                    assert(out@ =~= seq![ev] + rest);
                }
                return Some((k, out));
            },
            None => {
                let mut out: Vec<Event> = Vec::new();
                out.push(ev);
                proof {
                    assert(out@ =~= seq![ev]);
                }
                return Some((j, out));
            },
        }
    }
    let mut out: Vec<Event> = Vec::new();
    out.push(ev);
    proof {
        assert(out@ =~= seq![ev]);
    }
    Some((j, out))
}

/// Parse a trigger at `i`.
fn parse_trigger(s: &Vec<char>, i: usize) -> (r: Option<(usize, Trigger)>)
    requires
        i <= s@.len(),
    ensures
        r is Some <==> spec_parse_trigger(s@, i as int) is Some,
        r is Some ==> (r->0).0 as int == (spec_parse_trigger(s@, i as int)->0).0 && (r->0).1@
            == (spec_parse_trigger(s@, i as int)->0).1,
        r is Some ==> i < (r->0).0 <= s@.len(),
{
    match parse_trigger_events(s, i) {
        Some((j, evs)) => {
            if evs.len() == 1 {
                Some((j, Trigger::Single(evs[0])))
            } else {
                Some((j, Trigger::Combo(evs)))
            }
        },
        None => None,
    }
}

/// Grammar of a macro's action block content: one or more action lines,
/// each possibly surrounded by whitespace; their actions, concatenated in
/// order. Ends (without consuming) where no further action line starts.
pub open spec fn spec_parse_action_lines(s: Seq<char>, i: int) -> Option<(int, Seq<Action>)>
    decreases s.len() - i,
    via spec_parse_action_lines_decreases
{
    let j = skip_ws(s, i);
    match spec_parse_action_line(s, j) {
        None => None,
        Some((k, acts)) => {
            let k2 = skip_ws(s, k);
            match spec_parse_action_lines(s, k2) {
                Some((e, rest)) => Some((e, acts + rest)),
                None => Some((k2, acts)),
            }
        },
    }
}

#[via_fn]
proof fn spec_parse_action_lines_decreases(s: Seq<char>, i: int) {
    lemma_skip_ws_ge(s, i);
    let j = skip_ws(s, i);
    if spec_parse_action_line(s, j) is Some {
        lemma_action_line_progress(s, j);
        let k = (spec_parse_action_line(s, j)->0).0;
        lemma_skip_ws_bounds(s, k);
    }
}

/// A parsed action block ends strictly after it begins, within the input.
pub proof fn lemma_action_lines_progress(s: Seq<char>, i: int)
    requires
        spec_parse_action_lines(s, i) is Some,
    ensures
        i < (spec_parse_action_lines(s, i)->0).0 <= s.len(),
    decreases s.len() - i,
{
    lemma_skip_ws_ge(s, i);
    let j = skip_ws(s, i);
    lemma_action_line_progress(s, j);
    let k = (spec_parse_action_line(s, j)->0).0;
    lemma_skip_ws_bounds(s, k);
    let k2 = skip_ws(s, k);
    if spec_parse_action_lines(s, k2) is Some {
        lemma_action_lines_progress(s, k2);
    }
}

/// Parse a macro's action block at `i`.
fn parse_action_lines(s: &Vec<char>, i: usize) -> (r: Option<(usize, Vec<Action>)>)
    requires
        i <= s@.len(),
    ensures
        r is Some <==> spec_parse_action_lines(s@, i as int) is Some,
        r is Some ==> (r->0).0 as int == (spec_parse_action_lines(s@, i as int)->0).0 && (
        r->0).1@ == (spec_parse_action_lines(s@, i as int)->0).1,
        r is Some ==> i < (r->0).0 <= s@.len(),
    decreases s@.len() - i,
{
    let j = ws(s, i);
    let (k, mut acts) = match parse_action_line(s, j) {
        Some(p) => p,
        None => {
            return None;
        },
    };
    let k2 = ws(s, k);
    match parse_action_lines(s, k2) {
        Some((e, mut rest)) => {
            let ghost first = acts@;
            let ghost more = rest@;
            acts.append(&mut rest);
            proof {
                assert(acts@ =~= first + more);
            }
            Some((e, acts))
        },
        None => Some((k2, acts)),
    }
}

/// Grammar of one macro: a trigger, an opening brace, one or more action
/// lines, a closing brace, whitespace between the parts insignificant.
pub open spec fn spec_parse_macro(s: Seq<char>, i: int) -> Option<(int, MacroModel)> {
    match spec_parse_trigger(s, i) {
        None => None,
        Some((j, t)) => {
            let j2 = skip_ws(s, j);
            if has_tag(s, j2, "{"@) {
                match spec_parse_action_lines(s, j2 + 1) {
                    None => None,
                    Some((k, acts)) => {
                        let k2 = skip_ws(s, k);
                        if has_tag(s, k2, "}"@) {
                            Some((k2 + 1, MacroModel { trigger: t, actions: acts }))
                        } else {
                            None
                        }
                    },
                }
            } else {
                None
            }
        },
    }
}

/// A parsed macro ends strictly after it begins, within the input.
pub proof fn lemma_macro_progress(s: Seq<char>, i: int)
    requires
        spec_parse_macro(s, i) is Some,
    ensures
        i < (spec_parse_macro(s, i)->0).0 <= s.len(),
{
    reveal_strlit("{");
    reveal_strlit("}");
    lemma_trigger_events_progress(s, i);
    let j = (spec_parse_trigger(s, i)->0).0;
    lemma_skip_ws_ge(s, j);
    let j2 = skip_ws(s, j);
    lemma_action_lines_progress(s, j2 + 1);
    let k = (spec_parse_action_lines(s, j2 + 1)->0).0;
    lemma_skip_ws_ge(s, k);
}

/// Parse one macro at `i`.
fn parse_macro_at(s: &Vec<char>, i: usize) -> (r: Option<(usize, Macro)>)
    requires
        i <= s@.len(),
    ensures
        r is Some <==> spec_parse_macro(s@, i as int) is Some,
        r is Some ==> (r->0).0 as int == (spec_parse_macro(s@, i as int)->0).0 && (r->0).1@
            == (spec_parse_macro(s@, i as int)->0).1,
        r is Some ==> i < (r->0).0 <= s@.len(),
{
    let (j, trigger) = match parse_trigger(s, i) {
        Some(p) => p,
        None => {
            return None;
        },
    };
    let j2 = ws(s, j);
    let jb = match eat_tag(s, j2, "{") {
        Some(p) => p,
        None => {
            return None;
        },
    };
    proof {
        reveal_strlit("{");
    }
    let (k, actions) = match parse_action_lines(s, jb) {
        Some(p) => p,
        None => {
            return None;
        },
    };
    let k2 = ws(s, k);
    match eat_tag(s, k2, "}") {
        Some(e) => {
            proof {
                reveal_strlit("}");
            }
            Some((e, Macro { trigger, actions }))
        },
        None => None,
    }
}

/// Grammar of a macro list: one or more macros, each possibly surrounded by
/// whitespace. Ends (without consuming) where no further macro starts.
pub open spec fn spec_parse_macros(s: Seq<char>, i: int) -> Option<(int, Seq<MacroModel>)>
    decreases s.len() - i,
    via spec_parse_macros_decreases
{
    let j = skip_ws(s, i);
    match spec_parse_macro(s, j) {
        None => None,
        Some((k, m)) => {
            let k2 = skip_ws(s, k);
            match spec_parse_macros(s, k2) {
                Some((e, ms)) => Some((e, seq![m] + ms)),
                None => Some((k2, seq![m])),
            }
        },
    }
}

#[via_fn]
proof fn spec_parse_macros_decreases(s: Seq<char>, i: int) {
    lemma_skip_ws_ge(s, i);
    let j = skip_ws(s, i);
    if spec_parse_macro(s, j) is Some {
        lemma_macro_progress(s, j);
        let k = (spec_parse_macro(s, j)->0).0;
        lemma_skip_ws_bounds(s, k);
    }
}

/// The views of a list of parsed macros.
pub open spec fn macro_views(ms: Seq<Macro>) -> Seq<MacroModel> {
    ms.map_values(|m: Macro| m@)
}

/// Parse a macro list at `i`.
fn parse_macros(s: &Vec<char>, i: usize) -> (r: Option<(usize, Vec<Macro>)>)
    requires
        i <= s@.len(),
    ensures
        r is Some <==> spec_parse_macros(s@, i as int) is Some,
        r is Some ==> (r->0).0 as int == (spec_parse_macros(s@, i as int)->0).0 && macro_views(
            (r->0).1@,
        ) == (spec_parse_macros(s@, i as int)->0).1,
        r is Some ==> i < (r->0).0 <= s@.len(),
    decreases s@.len() - i,
{
    let j = ws(s, i);
    let (k, m) = match parse_macro_at(s, j) {
        Some(p) => p,
        None => {
            return None;
        },
    };
    let k2 = ws(s, k);
    match parse_macros(s, k2) {
        Some((e, rest)) => {
            let ghost m_view = m@;
            let ghost rest_views = macro_views(rest@);
            let mut out: Vec<Macro> = Vec::new();
            out.push(m);
            let mut rest = rest;
            out.append(&mut rest);
            proof {
                assert(macro_views(out@) =~= seq![m_view] + rest_views);
            }
            Some((e, out))
        },
        None => {
            let mut out: Vec<Macro> = Vec::new();
            out.push(m);
            proof {
                assert(macro_views(out@) =~= seq![m@]);
            }
            Some((k2, out))
        },
    }
}

/// Grammar of a whole script: one or more macros with insignificant
/// whitespace around them. The whole input must belong to the grammar —
/// only trailing whitespace is permitted after the last macro; anything
/// else fails the file as a whole, at the offset where the unparsable
/// remainder starts.
pub open spec fn spec_parse_file(s: Seq<char>) -> Result<Seq<MacroModel>, int> {
    match spec_parse_macros(s, 0) {
        None => Err(skip_ws(s, 0)),
        Some((k, ms)) => if k == s.len() {
            Ok(ms)
        } else {
            Err(k)
        },
    }
}

/// Parse a whole script into its ordered macro list. Either the whole input
/// belongs to the grammar (only trailing whitespace permitted) and every
/// macro is returned, in script order, or the file fails as a whole — never
/// a partial load — with the character offset of the unparsable remainder.
pub fn parse_file(input: &str) -> (r: Result<Vec<Macro>, ParseError>)
    ensures
        r is Ok <==> spec_parse_file(input@) is Ok,
        r is Ok ==> macro_views(r->Ok_0@) == spec_parse_file(input@)->Ok_0,
        r is Err ==> r->Err_0.offset as int == spec_parse_file(input@)->Err_0,
{
    let chars = to_chars(input);
    match parse_macros(&chars, 0) {
        Some((k, macros)) => {
            if k == chars.len() {
                Ok(macros)
            } else {
                Err(ParseError { offset: k })
            }
        },
        None => {
            let offset = ws(&chars, 0);
            Err(ParseError { offset })
        },
    }
}

/// Parse a duration in seconds at the start of the input, yielding the
/// unparsed remainder and the duration in milliseconds.
pub fn parse_seconds<'a>(input: &'a str) -> (r: Option<(&'a str, u32)>)
    ensures
        r is Some <==> spec_parse_seconds(input@, 0) is Some,
        r is Some ==> (r->0).1 == (spec_parse_seconds(input@, 0)->0).1 && (r->0).0@
            == input@.subrange((spec_parse_seconds(input@, 0)->0).0, input@.len() as int),
{
    let chars = to_chars(input);
    match parse_seconds_at(&chars, 0) {
        Some((k, ms)) => {
            let rest = input.substring_char(k, input.unicode_len());
            Some((rest, ms))
        },
        None => None,
    }
}

/// Parse one action statement at the start of the input, yielding the
/// unparsed remainder and the actions the statement expands to.
pub fn parse_action<'a>(input: &'a str) -> (r: Option<(&'a str, Vec<Action>)>)
    ensures
        r is Some <==> spec_parse_action(input@, 0) is Some,
        r is Some ==> (r->0).1@ == (spec_parse_action(input@, 0)->0).1 && (r->0).0@
            == input@.subrange((spec_parse_action(input@, 0)->0).0, input@.len() as int),
{
    let chars = to_chars(input);
    match parse_action_at(&chars, 0) {
        Some((k, acts)) => {
            let rest = input.substring_char(k, input.unicode_len());
            Some((rest, acts))
        },
        None => None,
    }
}

/// Parse one macro at the start of the input, yielding the unparsed
/// remainder and the macro.
pub fn parse_macro<'a>(input: &'a str) -> (r: Option<(&'a str, Macro)>)
    ensures
        r is Some <==> spec_parse_macro(input@, 0) is Some,
        r is Some ==> (r->0).1@ == (spec_parse_macro(input@, 0)->0).1 && (r->0).0@
            == input@.subrange((spec_parse_macro(input@, 0)->0).0, input@.len() as int),
{
    let chars = to_chars(input);
    match parse_macro_at(&chars, 0) {
        Some((k, m)) => {
            let rest = input.substring_char(k, input.unicode_len());
            Some((rest, m))
        },
        None => None,
    }
}

} // verus!
