//! Character-level string helpers shared by the library.

use vstd::prelude::*;

verus! {

/// Appends one character to a string (`String::push`).
#[verifier::external_body]
pub(crate) fn push_char(s: &mut String, c: char)
    ensures
        final(s)@ == old(s)@.push(c),
{
    s.push(c);
}

/// The characters of `s`, in order.
pub fn chars_of(s: &str) -> (v: Vec<char>)
    ensures
        v@ == s@,
{
    let mut v: Vec<char> = Vec::new();
    for c in it: s.chars()
        invariant
            v@ == it.seq().take(it.index() as int),
    {
        v.push(c);
    }
    v
}

/// A string holding exactly the characters of `v`.
pub fn string_from_chars(v: &Vec<char>) -> (s: String)
    ensures
        s@ == v@,
{
    let mut s = String::new();
    let n = v.len();
    for i in 0..n
        invariant
            n == v@.len(),
            s@ == v@.take(i as int),
    {
        push_char(&mut s, v[i]);
        assert(v@.take(i + 1) =~= v@.take(i as int).push(v@[i as int]));
    }
    assert(v@.take(n as int) =~= v@);
    s
}

/// Whether two character vectors are equal.
pub fn chars_equal(a: &Vec<char>, b: &Vec<char>) -> (r: bool)
    ensures
        r == (a@ == b@),
{
    if a.len() != b.len() {
        return false;
    }
    let n = a.len();
    for i in 0..n
        invariant
            n == a@.len(),
            n == b@.len(),
            forall|j: int| 0 <= j < i ==> a@[j] == b@[j],
    {
        if a[i] != b[i] {
            return false;
        }
    }
    assert(a@ =~= b@);
    true
}

/// Whether two strings hold the same characters.
pub fn str_equal(a: &str, b: &str) -> (r: bool)
    ensures
        r == (a@ == b@),
{
    let ca = chars_of(a);
    let cb = chars_of(b);
    chars_equal(&ca, &cb)
}

/// Whether `s` starts with `prefix`.
pub open spec fn has_prefix(s: Seq<char>, prefix: Seq<char>) -> bool {
    prefix.len() <= s.len() && s.take(prefix.len() as int) == prefix
}

pub fn chars_have_prefix(s: &Vec<char>, prefix: &Vec<char>) -> (r: bool)
    ensures
        r == has_prefix(s@, prefix@),
{
    if prefix.len() > s.len() {
        return false;
    }
    let n = prefix.len();
    for i in 0..n
        invariant
            n == prefix@.len(),
            n <= s@.len(),
            forall|j: int| 0 <= j < i ==> s@[j] == prefix@[j],
    {
        if s[i] != prefix[i] {
            assert(s@.take(n as int)[i as int] != prefix@[i as int]);
            return false;
        }
    }
    assert(s@.take(n as int) =~= prefix@);
    true
}

/// Whether `needle` occurs in `s` at position `at`.
pub open spec fn occurs_at(s: Seq<char>, needle: Seq<char>, at: int) -> bool {
    0 <= at && at + needle.len() <= s.len() && s.subrange(at, at + needle.len()) == needle
}

/// Whether `needle` occurs somewhere in `s`.
pub open spec fn contains_seq(s: Seq<char>, needle: Seq<char>) -> bool {
    exists|at: int| occurs_at(s, needle, at)
}

pub fn chars_occur_at(s: &Vec<char>, needle: &Vec<char>, at: usize) -> (r: bool)
    ensures
        r == occurs_at(s@, needle@, at as int),
{
    if at > s.len() || needle.len() > s.len() - at {
        return false;
    }
    let n = needle.len();
    let mut i: usize = 0;
    while i < n
        invariant
            n == needle@.len(),
            at + n <= s@.len(),
            s@.len() == s.len(),
            i <= n,
            forall|j: int| 0 <= j < i ==> s@[at + j] == needle@[j],
        decreases n - i,
    {
        if s[at + i] != needle[i] {
            assert(s@.subrange(at as int, at + n)[i as int] != needle@[i as int]);
            return false;
        }
        i = i + 1;
    }
    assert(s@.subrange(at as int, at + n) =~= needle@);
    true
}

/// Finds the first occurrence of `needle` in `s`.
pub fn find_chars(s: &Vec<char>, needle: &Vec<char>) -> (r: Option<usize>)
    ensures
        match r {
            Some(at) => occurs_at(s@, needle@, at as int) && forall|b: int|
                0 <= b < at ==> !occurs_at(s@, needle@, b),
            None => !contains_seq(s@, needle@),
        },
{
    let n = s.len();
    let mut at: usize = 0;
    loop
        invariant
            n == s@.len(),
            at <= n,
            forall|b: int| 0 <= b < at ==> !occurs_at(s@, needle@, b),
        decreases n - at,
    {
        if chars_occur_at(s, needle, at) {
            return Some(at);
        }
        if at == n {
            assert forall|b: int| !occurs_at(s@, needle@, b) by {
                if occurs_at(s@, needle@, b) {
                    assert(b <= n);
                    if b < at {
                    } else {
                        assert(b == at);
                    }
                }
            }
            return None;
        }
        at = at + 1;
    }
}


/// The character of the decimal digit `d`.
pub open spec fn digit_char(d: int) -> char {
    (d + ('0' as int)) as char
}

/// Decimal notation of `n`, without leading zeros.
pub open spec fn decimal_text(n: nat) -> Seq<char>
    decreases n,
{
    (if n >= 10 {
        decimal_text(n / 10)
    } else {
        Seq::empty()
    }).push(digit_char((n % 10) as int))
}

fn digit(d: u16) -> (c: char)
    requires
        d < 10,
    ensures
        c == digit_char(d as int),
{
    let b: u8 = d as u8 + 48;
    b as char
}

/// Appends the decimal notation of `n` to `s`.
pub fn push_decimal(s: &mut String, n: u16)
    ensures
        final(s)@ == old(s)@ + decimal_text(n as nat),
    decreases n,
{
    if n >= 10 {
        push_decimal(s, n / 10);
    }
    push_char(s, digit(n % 10));
    assert(old(s)@ + decimal_text(n as nat) =~= old(s)@ + (if n >= 10 {
        decimal_text((n / 10) as nat)
    } else {
        Seq::empty()
    }) + seq![digit_char((n % 10) as int)]);
}

/// The decimal notation of `n`.
pub fn decimal_string(n: u16) -> (s: String)
    ensures
        s@ == decimal_text(n as nat),
{
    let mut s = String::new();
    push_decimal(&mut s, n);
    assert(Seq::<char>::empty() + decimal_text(n as nat) =~= decimal_text(n as nat));
    s
}

/// `s` with every occurrence of `pat` replaced by `rep`, matches taken left
/// to right without overlapping (`str::replace`). An empty `pat` occurs
/// before every character and at the end.
pub open spec fn replace_all(s: Seq<char>, pat: Seq<char>, rep: Seq<char>) -> Seq<char>
    decreases s.len(),
{
    if pat.len() == 0 {
        if s.len() == 0 {
            rep
        } else {
            rep + seq![s[0]] + replace_all(s.drop_first(), pat, rep)
        }
    } else if s.len() == 0 {
        Seq::empty()
    } else if pat.len() > 0 && occurs_at(s, pat, 0) {
        rep + replace_all(s.skip(pat.len() as int), pat, rep)
    } else {
        seq![s[0]] + replace_all(s.drop_first(), pat, rep)
    }
}

/// Replaces every occurrence of `pat` in `s` by `rep`.
pub fn replace_text(s: &str, pat: &str, rep: &str) -> (r: String)
    ensures
        r@ == replace_all(s@, pat@, rep@),
{
    let sv = chars_of(s);
    let pv = chars_of(pat);
    let n = sv.len();
    let k = pv.len();
    if k == 0 {
        let mut out = String::new();
        let mut i: usize = 0;
        assert(sv@.skip(0) =~= sv@);
        assert(out@ + replace_all(sv@, pv@, rep@) =~= replace_all(sv@, pv@, rep@));
        while i < n
            invariant
                n == sv@.len(),
                k == pv@.len(),
                k == 0,
                sv@ == s@,
                pv@ == pat@,
                i <= n,
                out@ + replace_all(sv@.skip(i as int), pv@, rep@) == replace_all(sv@, pv@, rep@),
            decreases n - i,
        {
            let ghost rest = sv@.skip(i as int);
            let ghost before = out@;
            proof {
                assert(rest.drop_first() =~= sv@.skip(i + 1));
                assert(rest[0] == sv@[i as int]);
            }
            out.append(rep);
            push_char(&mut out, sv[i]);
            assert(out@ + replace_all(sv@.skip(i + 1), pv@, rep@) =~= before + replace_all(rest, pv@, rep@));
            i = i + 1;
        }
        let ghost before = out@;
        assert(sv@.skip(n as int) =~= Seq::<char>::empty());
        out.append(rep);
        assert(out@ =~= before + replace_all(sv@.skip(n as int), pv@, rep@));
        return out;
    }
    let mut out = String::new();
    let mut i: usize = 0;
    assert(sv@.skip(0) =~= sv@);
    assert(out@ + replace_all(sv@, pv@, rep@) =~= replace_all(sv@, pv@, rep@));
    while i < n
        invariant
            n == sv@.len(),
            k == pv@.len(),
            k > 0,
            sv@ == s@,
            pv@ == pat@,
            i <= n,
            out@ + replace_all(sv@.skip(i as int), pv@, rep@) == replace_all(sv@, pv@, rep@),
        decreases n - i,
    {
        let ghost rest = sv@.skip(i as int);
        let ghost before = out@;
        if chars_occur_at(&sv, &pv, i) {
            proof {
                assert(rest.subrange(0, k as int) =~= sv@.subrange(i as int, i + k));
                assert(occurs_at(rest, pv@, 0));
                assert(rest.skip(k as int) =~= sv@.skip(i + k));
            }
            out.append(rep);
            assert(out@ + replace_all(sv@.skip(i + k), pv@, rep@) =~= before + replace_all(rest, pv@, rep@));
            i = i + k;
        } else {
            proof {
                if occurs_at(rest, pv@, 0) {
                    assert(rest.subrange(0, k as int) =~= sv@.subrange(i as int, i + k));
                }
                assert(rest.drop_first() =~= sv@.skip(i + 1));
                assert(rest[0] == sv@[i as int]);
            }
            push_char(&mut out, sv[i]);
            assert(out@ + replace_all(sv@.skip(i + 1), pv@, rep@) =~= before + replace_all(rest, pv@, rep@));
            i = i + 1;
        }
    }
    assert(sv@.skip(n as int) =~= Seq::<char>::empty());
    assert(out@ + Seq::<char>::empty() =~= out@);
    out
}

/// The text of an optional string.
pub open spec fn opt_text(o: Option<&str>) -> Option<Seq<char>> {
    match o {
        Some(s) => Some(s@),
        None => None,
    }
}

/// The texts of a list of strings.
pub open spec fn texts(v: Seq<String>) -> Seq<Seq<char>> {
    v.map_values(|s: String| s@)
}

/// Whether `token` is one of `tokens`.
pub fn listed(tokens: &Vec<String>, token: &str) -> (r: bool)
    ensures
        r == texts(tokens@).contains(token@),
{
    let ghost v = tokens@.map_values(|s: String| s@);
    let n = tokens.len();
    for i in 0..n
        invariant
            n == tokens@.len(),
            v == tokens@.map_values(|s: String| s@),
            forall|j: int| 0 <= j < i ==> v[j] != token@,
    {
        if str_equal(tokens[i].as_str(), token) {
            assert(v[i as int] == token@);
            return true;
        }
    }
    assert forall|j: int| 0 <= j < v.len() implies v[j] != token@ by {}
    false
}

/// White space as `char::is_whitespace` defines it (the Unicode
/// `White_Space` property).
pub open spec fn is_space(c: char) -> bool {
    ('\u{9}' <= c && c <= '\u{d}') || c == ' ' || c == '\u{85}' || c == '\u{a0}' || c == '\u{1680}'
        || ('\u{2000}' <= c && c <= '\u{200a}') || c == '\u{2028}' || c == '\u{2029}' || c
        == '\u{202f}' || c == '\u{205f}' || c == '\u{3000}'
}

/// Whether `c` is white space (`char::is_whitespace`).
pub fn is_space_char(c: char) -> (r: bool)
    ensures
        r == is_space(c),
{
    ('\u{9}' <= c && c <= '\u{d}') || c == ' ' || c == '\u{85}' || c == '\u{a0}' || c == '\u{1680}'
        || ('\u{2000}' <= c && c <= '\u{200a}') || c == '\u{2028}' || c == '\u{2029}' || c
        == '\u{202f}' || c == '\u{205f}' || c == '\u{3000}'
}

/// `s` without the white space at its start.
pub open spec fn trim_start_spec(s: Seq<char>) -> Seq<char>
    decreases s.len(),
{
    if s.len() > 0 && is_space(s[0]) {
        trim_start_spec(s.drop_first())
    } else {
        s
    }
}

/// `s` without the white space at its end.
pub open spec fn trim_end_spec(s: Seq<char>) -> Seq<char>
    decreases s.len(),
{
    if s.len() > 0 && is_space(s.last()) {
        trim_end_spec(s.drop_last())
    } else {
        s
    }
}

/// `s` without white space at either end (`str::trim`).
pub open spec fn trim_spec(s: Seq<char>) -> Seq<char> {
    trim_end_spec(trim_start_spec(s))
}

proof fn lemma_trim_start_index(s: Seq<char>, k: int)
    requires
        0 <= k <= s.len(),
        forall|i: int| 0 <= i < k ==> is_space(s[i]),
        k == s.len() || !is_space(s[k]),
    ensures
        trim_start_spec(s) == s.skip(k),
    decreases k,
{
    if k > 0 {
        lemma_trim_start_index(s.drop_first(), k - 1);
        assert(s.drop_first().skip(k - 1) =~= s.skip(k));
    } else {
        assert(s.skip(0) =~= s);
    }
}

proof fn lemma_trim_end_index(s: Seq<char>, k: int)
    requires
        0 <= k <= s.len(),
        forall|i: int| k <= i < s.len() ==> is_space(s[i]),
        k == 0 || !is_space(s[k - 1]),
    ensures
        trim_end_spec(s) == s.take(k),
    decreases s.len() - k,
{
    if k < s.len() {
        lemma_trim_end_index(s.drop_last(), k);
        assert(s.drop_last().take(k) =~= s.take(k));
    } else {
        assert(s.take(k) =~= s);
    }
}

/// Removes white space from both ends of `v`.
pub fn trim_chars(v: &Vec<char>) -> (r: Vec<char>)
    ensures
        r@ == trim_spec(v@),
{
    let n = v.len();
    let mut a: usize = 0;
    while a < n && is_space_char(v[a])
        invariant
            n == v@.len(),
            a <= n,
            forall|i: int| 0 <= i < a ==> is_space(v@[i]),
        decreases n - a,
    {
        a = a + 1;
    }
    proof {
        lemma_trim_start_index(v@, a as int);
    }
    let ghost lead = v@.skip(a as int);
    let mut b: usize = n;
    while b > a && is_space_char(v[b - 1])
        invariant
            n == v@.len(),
            a <= b <= n,
            forall|i: int| b <= i < n ==> is_space(v@[i]),
        decreases b,
    {
        b = b - 1;
    }
    proof {
        assert forall|i: int| (b - a) <= i < lead.len() implies is_space(lead[i]) by {
            assert(lead[i] == v@[a + i]);
        }
        if b > a {
            assert(lead[b - a - 1] == v@[b - 1]);
        }
        lemma_trim_end_index(lead, b - a);
    }
    let mut r: Vec<char> = Vec::new();
    let mut j = a;
    while j < b
        invariant
            n == v@.len(),
            a <= j <= b <= n,
            r@ == v@.subrange(a as int, j as int),
        decreases b - j,
    {
        r.push(v[j]);
        assert(v@.subrange(a as int, j + 1) =~= v@.subrange(a as int, j as int).push(v@[j as int]));
        j = j + 1;
    }
    assert(lead.take(b - a) =~= v@.subrange(a as int, b as int));
    r
}



/// `s` without white space at either end (`str::trim`).
pub fn trim_text(s: &str) -> (r: String)
    ensures
        r@ == trim_spec(s@),
{
    let t = trim_chars(&chars_of(s));
    string_from_chars(&t)
}

/// Length of the first piece of `t`: the characters before the first `sep`.
pub open spec fn piece_len(t: Seq<char>, sep: char) -> nat
    decreases t.len(),
{
    if t.len() == 0 || t[0] == sep {
        0
    } else {
        1 + piece_len(t.drop_first(), sep)
    }
}

/// The first of the pieces of `text` between separators `sep` that starts
/// with `prefix`.
pub open spec fn first_piece_with_prefix(text: Seq<char>, sep: char, prefix: Seq<char>) -> Option<
    Seq<char>,
>
    decreases text.len(),
{
    let k = piece_len(text, sep);
    if has_prefix(text.take(k as int), prefix) {
        Some(text.take(k as int))
    } else if k < text.len() {
        first_piece_with_prefix(text.skip(k + 1int), sep, prefix)
    } else {
        None
    }
}

/// The first of the pieces of `text` between separators `sep` in which
/// `needle` occurs.
pub open spec fn first_piece_containing(text: Seq<char>, sep: char, needle: Seq<char>) -> Option<
    Seq<char>,
>
    decreases text.len(),
{
    let k = piece_len(text, sep);
    if contains_seq(text.take(k as int), needle) {
        Some(text.take(k as int))
    } else if k < text.len() {
        first_piece_containing(text.skip(k + 1int), sep, needle)
    } else {
        None
    }
}

/// The piece found contains the needle.
pub(crate) proof fn lemma_piece_containing(text: Seq<char>, sep: char, needle: Seq<char>)
    ensures
        first_piece_containing(text, sep, needle) matches Some(p) ==> contains_seq(p, needle),
    decreases text.len(),
{
    let k = piece_len(text, sep);
    if !contains_seq(text.take(k as int), needle) && k < text.len() {
        lemma_piece_containing(text.skip(k + 1int), sep, needle);
    }
}

proof fn lemma_piece_len(t: Seq<char>, sep: char, k: int)
    requires
        0 <= k <= t.len(),
        forall|i: int| 0 <= i < k ==> t[i] != sep,
        k == t.len() || t[k] == sep,
    ensures
        piece_len(t, sep) == k,
    decreases k,
{
    if k > 0 {
        lemma_piece_len(t.drop_first(), sep, k - 1);
    }
}

/// The piece of `t` that starts at `pos`: its characters up to the next
/// `sep` or the end; also returns where it ends.
fn piece_at(t: &Vec<char>, sep: char, pos: usize) -> (r: (Vec<char>, usize))
    requires
        pos <= t@.len(),
    ensures
        r.1 == pos + piece_len(t@.skip(pos as int), sep),
        r.1 <= t@.len(),
        r.0@ == t@.skip(pos as int).take(piece_len(t@.skip(pos as int), sep) as int),
{
    let n = t.len();
    let mut e = pos;
    while e < n && t[e] != sep
        invariant
            n == t@.len(),
            pos <= e <= n,
            forall|i: int| pos <= i < e ==> t@[i] != sep,
        decreases n - e,
    {
        e = e + 1;
    }
    let ghost rest = t@.skip(pos as int);
    proof {
        assert forall|i: int| 0 <= i < e - pos implies rest[i] != sep by {
            assert(rest[i] == t@[pos + i]);
        }
        if e < n {
            assert(rest[e - pos] == t@[e as int]);
        }
        lemma_piece_len(rest, sep, e - pos);
    }
    let mut piece: Vec<char> = Vec::new();
    let mut j = pos;
    while j < e
        invariant
            n == t@.len(),
            pos <= j <= e <= n,
            piece@ == t@.subrange(pos as int, j as int),
        decreases e - j,
    {
        piece.push(t[j]);
        assert(t@.subrange(pos as int, j + 1) =~= t@.subrange(pos as int, j as int).push(t@[j as int]));
        j = j + 1;
    }
    assert(piece@ =~= rest.take(e - pos));
    (piece, e)
}

/// Finds the first piece of `t` between separators `sep` that starts with `prefix`.
pub fn find_piece_with_prefix(t: &Vec<char>, sep: char, prefix: &Vec<char>) -> (r: Option<Vec<char>>)
    ensures
        match first_piece_with_prefix(t@, sep, prefix@) {
            Some(p) => r matches Some(v) && v@ == p,
            None => r is None,
        },
{
    let n = t.len();
    let mut pos: usize = 0;
    assert(t@.skip(0) =~= t@);
    loop
        invariant
            n == t@.len(),
            pos <= n,
            first_piece_with_prefix(t@, sep, prefix@) == first_piece_with_prefix(
                t@.skip(pos as int),
                sep,
                prefix@,
            ),
        decreases n - pos,
    {
        let ghost rest = t@.skip(pos as int);
        let (piece, e) = piece_at(t, sep, pos);
        if chars_have_prefix(&piece, prefix) {
            return Some(piece);
        }
        if e == n {
            return None;
        }
        assert(rest.skip(e - pos + 1) =~= t@.skip(e + 1));
        pos = e + 1;
    }
}

/// Finds the first piece of `t` between separators `sep` in which `needle` occurs.
pub fn find_piece_containing(t: &Vec<char>, sep: char, needle: &Vec<char>) -> (r: Option<Vec<char>>)
    ensures
        match first_piece_containing(t@, sep, needle@) {
            Some(p) => r matches Some(v) && v@ == p,
            None => r is None,
        },
{
    let n = t.len();
    let mut pos: usize = 0;
    assert(t@.skip(0) =~= t@);
    loop
        invariant
            n == t@.len(),
            pos <= n,
            first_piece_containing(t@, sep, needle@) == first_piece_containing(
                t@.skip(pos as int),
                sep,
                needle@,
            ),
        decreases n - pos,
    {
        let ghost rest = t@.skip(pos as int);
        let (piece, e) = piece_at(t, sep, pos);
        if find_chars(&piece, needle).is_some() {
            return Some(piece);
        }
        if e == n {
            return None;
        }
        assert(rest.skip(e - pos + 1) =~= t@.skip(e + 1));
        pos = e + 1;
    }
}

} // verus!
