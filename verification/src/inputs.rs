//! Key-press console-command extraction.
//!
//! A recording's console commands include key bindings such as `+jump 57`:
//! a leading `+` or `-` for press or release, and a trailing numeric key
//! code.  A separate key-map text names each code, in records of the form
//! `(57, Space)`.  Everything here works on the raw bytes of those strings:
//! picking the commands that look like inputs, slicing out the trailing
//! code, parsing the key-map text and resolving a code through it — each
//! against an exact spec of the textual patterns involved.

use vstd::prelude::*;

verus! {

/// An ASCII decimal digit.
pub open spec fn is_digit(b: u8) -> bool {
    48 <= b <= 57
}

/// An ASCII whitespace byte: space, tab, line feed, vertical tab, form
/// feed or carriage return.
pub open spec fn is_space(b: u8) -> bool {
    b == 32 || b == 9 || b == 10 || b == 11 || b == 12 || b == 13
}

/// Whether a console command is a key press or release: it starts with
/// `+` or `-`.
pub open spec fn spec_is_input_command(s: Seq<u8>) -> bool {
    s.len() > 0 && (s[0] == 43 || s[0] == 45)
}

/// Returns whether a byte is ASCII whitespace.
fn is_space_byte(b: u8) -> (r: bool)
    ensures
        r == is_space(b),
{
    b == 32 || b == 9 || b == 10 || b == 11 || b == 12 || b == 13
}

/// Returns whether a byte is an ASCII decimal digit.
fn is_digit_byte(b: u8) -> (r: bool)
    ensures
        r == is_digit(b),
{
    48 <= b && b <= 57
}

/// Returns whether the command is a key press or release.
pub fn is_input_command(cmd: &Vec<u8>) -> (r: bool)
    ensures
        r == spec_is_input_command(cmd@),
{
    cmd.len() > 0 && (cmd[0] == 43 || cmd[0] == 45)
}

/// Start of the run of whitespace that ends the string (its length when
/// the last byte is not whitespace).
pub open spec fn trailing_ws_start(s: Seq<u8>) -> int
    decreases s.len(),
{
    if s.len() == 0 {
        0
    } else if is_space(s.last()) {
        trailing_ws_start(s.drop_last())
    } else {
        s.len() as int
    }
}

/// Start of the run of digits that ends at `e` (`e` itself when the byte
/// before `e` is no digit).
pub open spec fn digit_run_start(s: Seq<u8>, e: int) -> int
    decreases e,
{
    if e <= 0 || e > s.len() {
        0
    } else if is_digit(s[e - 1]) {
        digit_run_start(s, e - 1)
    } else {
        e
    }
}

/// The trailing key code of a command: the run of digits that sits before
/// the final whitespace (if any), itself preceded by a space byte.  `None`
/// when the command ends in no such code.
pub open spec fn spec_trailing_keycode(s: Seq<u8>) -> Option<Seq<u8>> {
    let e = trailing_ws_start(s);
    let b = digit_run_start(s, e);
    if b < e && b >= 1 && s[b - 1] == 32 {
        Some(s.subrange(b, e))
    } else {
        None
    }
}

/// Only one cut obeys the trailing-whitespace characterization.
proof fn lemma_ws_start_unique(s: Seq<u8>, e: int)
    requires
        0 <= e <= s.len(),
        forall|i: int| e <= i < s.len() ==> is_space(#[trigger] s[i]),
        e > 0 ==> !is_space(s[e - 1]),
    ensures
        e == trailing_ws_start(s),
    decreases s.len(),
{
    if s.len() == 0 {
    } else if is_space(s.last()) {
        assert(e < s.len());
        assert(forall|i: int|
            0 <= i < s.drop_last().len() ==> #[trigger] s.drop_last()[i] == s[i]);
        lemma_ws_start_unique(s.drop_last(), e);
    } else {
        assert(e == s.len());
    }
}

/// Only one cut obeys the digit-run characterization.
proof fn lemma_digit_start_unique(s: Seq<u8>, e: int, b: int)
    requires
        0 <= b <= e <= s.len(),
        forall|i: int| b <= i < e ==> is_digit(#[trigger] s[i]),
        b > 0 ==> !is_digit(s[b - 1]),
    ensures
        b == digit_run_start(s, e),
    decreases e,
{
    if e > 0 && b < e {
        assert(is_digit(s[e - 1]));
        lemma_digit_start_unique(s, e - 1, b);
    } else if e > 0 {
        assert(b == e);
        assert(!is_digit(s[e - 1]));
    }
}

/// Slices the trailing numeric key code out of a command, if the command
/// carries one: a run of digits before the final whitespace, preceded by
/// a space byte.
pub fn trailing_keycode(cmd: &Vec<u8>) -> (r: Option<Vec<u8>>)
    ensures
        match r {
            Some(code) => spec_trailing_keycode(cmd@) == Some(code@),
            None => spec_trailing_keycode(cmd@) is None,
        },
{
    let n = cmd.len();
    let mut e: usize = n;
    while e > 0 && is_space_byte(cmd[e - 1])
        invariant
            0 <= e <= n,
            n == cmd@.len(),
            forall|i: int| e <= i < n ==> is_space(#[trigger] cmd@[i]),
        decreases e,
    {
        e = e - 1;
    }
    proof {
        lemma_ws_start_unique(cmd@, e as int);
    }
    let mut b: usize = e;
    while b > 0 && is_digit_byte(cmd[b - 1])
        invariant
            0 <= b <= e,
            e <= n,
            n == cmd@.len(),
            forall|i: int| b <= i < e ==> is_digit(#[trigger] cmd@[i]),
        decreases b,
    {
        b = b - 1;
    }
    proof {
        lemma_digit_start_unique(cmd@, e as int, b as int);
    }
    if b < e && b >= 1 && cmd[b - 1] == 32 {
        let mut code: Vec<u8> = Vec::new();
        let mut i: usize = b;
        while i < e
            invariant
                b <= i <= e,
                e <= n,
                n == cmd@.len(),
                code@ == cmd@.subrange(b as int, i as int),
            decreases e - i,
        {
            code.push(cmd[i]);
            proof {
                assert(code@ =~= cmd@.subrange(b as int, i + 1));
            }
            i = i + 1;
        }
        Some(code)
    } else {
        None
    }
}

/// Length of the run of digits starting at `p`.
pub open spec fn digit_run_len(s: Seq<u8>, p: int) -> nat
    decreases s.len() - p,
{
    if p < 0 || p >= s.len() || !is_digit(s[p]) {
        0
    } else {
        1 + digit_run_len(s, p + 1)
    }
}

/// Length of the run of bytes other than `)` starting at `p`.
pub open spec fn value_run_len(s: Seq<u8>, p: int) -> nat
    decreases s.len() - p,
{
    if p < 0 || p >= s.len() || s[p] == 41 {
        0
    } else {
        1 + value_run_len(s, p + 1)
    }
}

/// The key-map records found from position `p` on: each one a run of
/// digits, then `, `, then a non-empty run of bytes other than `)` —
/// the code and the key name it maps to — scanned left to right.
pub open spec fn spec_keymap(s: Seq<u8>, p: int) -> Seq<(Seq<u8>, Seq<u8>)>
    decreases s.len() - p,
    via spec_keymap_decreases
{
    if p < 0 || p >= s.len() {
        Seq::empty()
    } else if is_digit(s[p]) && (p == 0 || !is_digit(s[p - 1])) {
        let d = p + digit_run_len(s, p);
        if d + 1 < s.len() && s[d] == 44 && s[d + 1] == 32 && value_run_len(s, d + 2) >= 1 {
            let v = d + 2 + value_run_len(s, d + 2);
            seq![(s.subrange(p, d), s.subrange(d + 2, v))] + spec_keymap(s, v)
        } else {
            spec_keymap(s, p + 1)
        }
    } else {
        spec_keymap(s, p + 1)
    }
}

/// The digit run starting at `p` stays inside the string.
proof fn lemma_digit_run_bound(s: Seq<u8>, p: int)
    requires
        0 <= p <= s.len(),
    ensures
        p + digit_run_len(s, p) <= s.len(),
    decreases s.len() - p,
{
    if p < s.len() && is_digit(s[p]) {
        lemma_digit_run_bound(s, p + 1);
    }
}

/// The non-`)` run starting at `p` stays inside the string.
proof fn lemma_value_run_bound(s: Seq<u8>, p: int)
    requires
        0 <= p <= s.len(),
    ensures
        p + value_run_len(s, p) <= s.len(),
    decreases s.len() - p,
{
    if p < s.len() && s[p] != 41 {
        lemma_value_run_bound(s, p + 1);
    }
}

/// Termination of the key-map scan: each continuation point lies strictly
/// further into the string.
#[via_fn]
proof fn spec_keymap_decreases(s: Seq<u8>, p: int) {
    if 0 <= p < s.len() {
        lemma_digit_run_bound(s, p);
        let d = p + digit_run_len(s, p);
        if d + 2 <= s.len() {
            lemma_value_run_bound(s, d + 2);
        }
    }
}

/// Where the digit run starting at `p` ends.
proof fn lemma_digit_run_len(s: Seq<u8>, p: int, d: int)
    requires
        0 <= p <= d <= s.len(),
        forall|i: int| p <= i < d ==> is_digit(#[trigger] s[i]),
        d == s.len() || !is_digit(s[d]),
    ensures
        digit_run_len(s, p) == d - p,
    decreases d - p,
{
    if p < d {
        lemma_digit_run_len(s, p + 1, d);
    }
}

/// Where the non-`)` run starting at `p` ends.
proof fn lemma_value_run_len(s: Seq<u8>, p: int, v: int)
    requires
        0 <= p <= v <= s.len(),
        forall|i: int| p <= i < v ==> #[trigger] s[i] != 41,
        v == s.len() || s[v] == 41,
    ensures
        value_run_len(s, p) == v - p,
    decreases v - p,
{
    if p < v {
        lemma_value_run_len(s, p + 1, v);
    }
}

/// Spec-level image of a list of parsed key-map records.
pub open spec fn view_pairs(v: Seq<(Vec<u8>, Vec<u8>)>) -> Seq<(Seq<u8>, Seq<u8>)> {
    v.map(|i: int, e: (Vec<u8>, Vec<u8>)| (e.0@, e.1@))
}

/// Parses a key-map text into its code/name records, in text order.
pub fn parse_keymap(text: &Vec<u8>) -> (r: Vec<(Vec<u8>, Vec<u8>)>)
    ensures
        view_pairs(r@) == spec_keymap(text@, 0),
{
    let n = text.len();
    let mut out: Vec<(Vec<u8>, Vec<u8>)> = Vec::new();
    let mut p: usize = 0;
    while p < n
        invariant
            0 <= p,
            n == text@.len(),
            spec_keymap(text@, 0) == view_pairs(out@) + spec_keymap(text@, p as int),
        decreases n - p,
    {
        let is_start = {
            let c = text[p];
            48 <= c && c <= 57 && (p == 0 || {
                let q = text[p - 1];
                !(48 <= q && q <= 57)
            })
        };
        if is_start {
            let mut d: usize = p;
            while d < n && is_digit_byte(text[d])
                invariant
                    p <= d <= n,
                    n == text@.len(),
                    forall|i: int| p <= i < d ==> is_digit(#[trigger] text@[i]),
                decreases n - d,
            {
                d = d + 1;
            }
            proof {
                lemma_digit_run_len(text@, p as int, d as int);
            }
            if n - d > 2 && text[d] == 44 && text[d + 1] == 32 && text[d + 2] != 41 {
                let mut v: usize = d + 2;
                while v < n && text[v] != 41
                    invariant
                        d + 2 <= v <= n,
                        n == text@.len(),
                        forall|i: int| d + 2 <= i < v ==> #[trigger] text@[i] != 41,
                    decreases n - v,
                {
                    v = v + 1;
                }
                proof {
                    lemma_value_run_len(text@, d + 2, v as int);
                }
                let code = copy_bytes(text, p, d);
                let name = copy_bytes(text, d + 2, v);
                let ghost pre = out@;
                out.push((code, name));
                proof {
                    assert(view_pairs(out@) =~= view_pairs(pre) + seq![
                        (text@.subrange(p as int, d as int), text@.subrange(d + 2, v as int)),
                    ]);
                    assert(view_pairs(pre) + (seq![
                        (text@.subrange(p as int, d as int), text@.subrange(d + 2, v as int)),
                    ] + spec_keymap(text@, v as int)) =~= view_pairs(out@) + spec_keymap(
                        text@,
                        v as int,
                    ));
                }
                p = v;
            } else {
                p = p + 1;
            }
        } else {
            p = p + 1;
        }
    }
    proof {
        assert(view_pairs(out@) + Seq::<(Seq<u8>, Seq<u8>)>::empty() =~= view_pairs(out@));
    }
    out
}

/// Copies `v[start .. end]` into a fresh vector.
fn copy_bytes(v: &Vec<u8>, start: usize, end: usize) -> (r: Vec<u8>)
    requires
        start <= end <= v@.len(),
    ensures
        r@ == v@.subrange(start as int, end as int),
{
    let mut out: Vec<u8> = Vec::new();
    let mut i: usize = start;
    while i < end
        invariant
            start <= i <= end,
            end <= v@.len(),
            out@ == v@.subrange(start as int, i as int),
        decreases end - i,
    {
        out.push(v[i]);
        proof {
            assert(out@ =~= v@.subrange(start as int, i + 1));
        }
        i = i + 1;
    }
    out
}

/// The name the key map gives a code: the last record bearing the code
/// wins, as later lines of the map override earlier ones.
pub open spec fn spec_lookup(m: Seq<(Seq<u8>, Seq<u8>)>, code: Seq<u8>) -> Option<Seq<u8>>
    decreases m.len(),
{
    if m.len() == 0 {
        None
    } else if m.last().0 == code {
        Some(m.last().1)
    } else {
        spec_lookup(m.drop_last(), code)
    }
}

/// Compares two byte strings.
fn bytes_eq(a: &Vec<u8>, b: &Vec<u8>) -> (r: bool)
    ensures
        r == (a@ == b@),
{
    if a.len() != b.len() {
        proof {
            assert(a@ != b@);
        }
        return false;
    }
    let mut i: usize = 0;
    while i < a.len()
        invariant
            i <= a@.len(),
            a@.len() == b@.len(),
            forall|j: int| 0 <= j < i ==> a@[j] == b@[j],
        decreases a@.len() - i,
    {
        if a[i] != b[i] {
            proof {
                assert(a@ != b@);
            }
            return false;
        }
        i = i + 1;
    }
    proof {
        assert(a@ =~= b@);
    }
    true
}

/// Resolves a key code through a parsed key map; the last record bearing
/// the code wins.
pub fn lookup_key(keymap: &Vec<(Vec<u8>, Vec<u8>)>, code: &Vec<u8>) -> (r: Option<Vec<u8>>)
    ensures
        match r {
            Some(name) => spec_lookup(view_pairs(keymap@), code@) == Some(name@),
            None => spec_lookup(view_pairs(keymap@), code@) is None,
        },
{
    let mut k: usize = keymap.len();
    proof {
        assert(view_pairs(keymap@).take(k as int) =~= view_pairs(keymap@));
    }
    while k > 0
        invariant
            k <= keymap@.len(),
            spec_lookup(view_pairs(keymap@), code@) == spec_lookup(
                view_pairs(keymap@).take(k as int),
                code@,
            ),
        decreases k,
    {
        k = k - 1;
        if bytes_eq(&keymap[k].0, code) {
            let name = copy_bytes(&keymap[k].1, 0, keymap[k].1.len());
            proof {
                let m = view_pairs(keymap@).take(k + 1);
                assert(m.last() == (keymap@[k as int].0@, keymap@[k as int].1@));
                assert(name@ =~= keymap@[k as int].1@);
            }
            return Some(name);
        }
        proof {
            let m = view_pairs(keymap@).take(k + 1);
            assert(m.last() == (keymap@[k as int].0@, keymap@[k as int].1@));
            assert(m.drop_last() =~= view_pairs(keymap@).take(k as int));
        }
    }
    proof {
        assert(view_pairs(keymap@).take(0) =~= Seq::<(Seq<u8>, Seq<u8>)>::empty());
    }
    None
}

} // verus!
