//! Character-level text handling used by the output parsers: the
//! mathematical meaning of line splitting, trimming, prefix stripping,
//! field splitting and decimal parsing, with executable counterparts.
use vstd::prelude::*;

verus! {

// ---------------------------------------------------------------------
// Specifications
// ---------------------------------------------------------------------

/// Unicode `White_Space`, the property that `char::is_whitespace` tests.
pub open spec fn is_whitespace(c: char) -> bool {
    let u = c as u32;
    ||| 9 <= u <= 13
    ||| u == 32
    ||| u == 0x85
    ||| u == 0xa0
    ||| u == 0x1680
    ||| 0x2000 <= u <= 0x200a
    ||| u == 0x2028
    ||| u == 0x2029
    ||| u == 0x202f
    ||| u == 0x205f
    ||| u == 0x3000
}

/// `s` without its leading whitespace.
pub open spec fn trim_start(s: Seq<char>) -> Seq<char>
    decreases s.len(),
{
    if s.len() > 0 && is_whitespace(s[0]) {
        trim_start(s.drop_first())
    } else {
        s
    }
}

/// `s` without its trailing whitespace.
pub open spec fn trim_end(s: Seq<char>) -> Seq<char>
    decreases s.len(),
{
    if s.len() > 0 && is_whitespace(s.last()) {
        trim_end(s.drop_last())
    } else {
        s
    }
}

/// `s` without leading and trailing whitespace (`str::trim`).
pub open spec fn trim(s: Seq<char>) -> Seq<char> {
    trim_end(trim_start(s))
}

/// The rest of `s` after `p`, when `s` starts with `p` (`str::strip_prefix`).
pub open spec fn strip_prefix(s: Seq<char>, p: Seq<char>) -> Option<Seq<char>> {
    if p.len() <= s.len() && s.take(p.len() as int) == p {
        Some(s.skip(p.len() as int))
    } else {
        None
    }
}

/// Index of the first `c` in `s`, or the length of `s` when there is none.
pub open spec fn char_pos(s: Seq<char>, c: char) -> nat
    decreases s.len(),
{
    if s.len() == 0 {
        0
    } else if s[0] == c {
        0
    } else {
        1 + char_pos(s.drop_first(), c)
    }
}

/// The part of `s` before its first `c` (the first item of `str::split`).
pub open spec fn before_char(s: Seq<char>, c: char) -> Seq<char> {
    s.take(char_pos(s, c) as int)
}

/// A line with the carriage return of a `\r\n` ending removed.
pub open spec fn strip_cr(s: Seq<char>) -> Seq<char> {
    if s.len() > 0 && s.last() == '\r' {
        s.drop_last()
    } else {
        s
    }
}

/// The lines of `s` as `str::lines` yields them: split at `\n`, a `\r`
/// just before a `\n` dropped, a final line ending optional.
pub open spec fn split_lines(s: Seq<char>) -> Seq<Seq<char>>
    decreases s.len(),
{
    if s.len() == 0 {
        seq![]
    } else {
        let i = char_pos(s, '\n');
        if i < s.len() {
            seq![strip_cr(s.take(i as int))] + split_lines(s.skip(i + 1int))
        } else {
            seq![s]
        }
    }
}

/// At most `n` pieces of `s` split at `c`, the last holding the rest
/// (`str::splitn`).
pub open spec fn splitn(s: Seq<char>, n: nat, c: char) -> Seq<Seq<char>>
    decreases n,
{
    if n == 0 {
        seq![]
    } else if n == 1 {
        seq![s]
    } else {
        let i = char_pos(s, c);
        if i < s.len() {
            seq![s.take(i as int)] + splitn(s.skip(i + 1int), (n - 1) as nat, c)
        } else {
            seq![s]
        }
    }
}

/// All pieces of `s` split at `c` (`str::split` with a character).
pub open spec fn split(s: Seq<char>, c: char) -> Seq<Seq<char>>
    decreases s.len(),
{
    let i = char_pos(s, c);
    if i < s.len() {
        seq![s.take(i as int)] + split(s.skip(i + 1int), c)
    } else {
        seq![s]
    }
}

/// Whether `p` occurs in `s` at index `i`.
pub open spec fn matches_at(s: Seq<char>, p: Seq<char>, i: int) -> bool {
    0 <= i && i + p.len() <= s.len() && s.subrange(i, i + p.len()) == p
}

/// The first index from `i` on at which `p` occurs in `s`.
pub open spec fn find_from(s: Seq<char>, p: Seq<char>, i: nat) -> Option<nat>
    decreases s.len() + 1 - i,
{
    if i + p.len() > s.len() {
        None
    } else if matches_at(s, p, i as int) {
        Some(i)
    } else {
        find_from(s, p, i + 1)
    }
}

/// The first index at which `p` occurs in `s` (`str::find`).
pub open spec fn find(s: Seq<char>, p: Seq<char>) -> Option<nat> {
    find_from(s, p, 0)
}

/// `s` split around the first occurrence of `p` (`str::split_once`).
pub open spec fn split_once(s: Seq<char>, p: Seq<char>) -> Option<(Seq<char>, Seq<char>)> {
    match find(s, p) {
        Some(i) => Some((s.take(i as int), s.skip(i + p.len() as int))),
        None => None,
    }
}

/// Index of the first whitespace character of `s`, or its length.
pub open spec fn ws_pos(s: Seq<char>) -> nat
    decreases s.len(),
{
    if s.len() == 0 {
        0
    } else if is_whitespace(s[0]) {
        0
    } else {
        1 + ws_pos(s.drop_first())
    }
}

/// The whitespace-separated words of `s` (`str::split_whitespace`).
pub open spec fn words(s: Seq<char>) -> Seq<Seq<char>>
    decreases s.len(),
{
    if s.len() == 0 {
        seq![]
    } else if is_whitespace(s[0]) {
        words(s.drop_first())
    } else {
        let k = ws_pos(s);
        proof {
            lemma_ws_pos(s);
        }
        seq![s.take(k as int)] + words(s.skip(k as int))
    }
}

/// `s` with every `c` removed (`str::replace(c, "")`).
pub open spec fn without_char(s: Seq<char>, c: char) -> Seq<char>
    decreases s.len(),
{
    if s.len() == 0 {
        s
    } else if s.last() == c {
        without_char(s.drop_last(), c)
    } else {
        without_char(s.drop_last(), c).push(s.last())
    }
}

pub open spec fn is_digit(c: char) -> bool {
    '0' <= c && c <= '9'
}

pub open spec fn digit_value(c: char) -> nat {
    (c as u32 - '0' as u32) as nat
}

/// The number that a string of decimal digits denotes.
pub open spec fn digits_value(d: Seq<char>) -> nat
    decreases d.len(),
{
    if d.len() == 0 {
        0
    } else {
        digits_value(d.drop_last()) * 10 + digit_value(d.last())
    }
}

pub open spec fn all_digits(d: Seq<char>) -> bool {
    d.len() > 0 && forall|i: int| 0 <= i < d.len() ==> is_digit(#[trigger] d[i])
}

/// `str::parse::<u64>`: an optional `+` followed by one or more decimal
/// digits whose value fits in a `u64`.
pub open spec fn parse_u64(s: Seq<char>) -> Option<u64> {
    let d = if s.len() > 0 && s[0] == '+' {
        s.drop_first()
    } else {
        s
    };
    if all_digits(d) && digits_value(d) <= u64::MAX {
        Some(digits_value(d) as u64)
    } else {
        None
    }
}

/// `s` holds `p` somewhere (`str::contains`).
pub open spec fn contains(s: Seq<char>, p: Seq<char>) -> bool {
    find(s, p) is Some
}

// ---------------------------------------------------------------------
// Lemmas
// ---------------------------------------------------------------------

/// `char_pos` is the index of the first `c`.
pub proof fn lemma_char_pos(s: Seq<char>, c: char)
    ensures
        char_pos(s, c) <= s.len(),
        char_pos(s, c) < s.len() ==> s[char_pos(s, c) as int] == c,
        forall|j: int| 0 <= j < char_pos(s, c) ==> s[j] != c,
    decreases s.len(),
{
    if s.len() > 0 && s[0] != c {
        lemma_char_pos(s.drop_first(), c);
        assert forall|j: int| 0 <= j < char_pos(s, c) implies s[j] != c by {
            if j > 0 {
                assert(s[j] == s.drop_first()[j - 1]);
            }
        }
    }
}

/// `ws_pos` is the index of the first whitespace character.
pub proof fn lemma_ws_pos(s: Seq<char>)
    ensures
        ws_pos(s) <= s.len(),
        ws_pos(s) < s.len() ==> is_whitespace(s[ws_pos(s) as int]),
        forall|j: int| 0 <= j < ws_pos(s) ==> !is_whitespace(s[j]),
    decreases s.len(),
{
    if s.len() > 0 && !is_whitespace(s[0]) {
        lemma_ws_pos(s.drop_first());
        assert forall|j: int| 0 <= j < ws_pos(s) implies !is_whitespace(s[j]) by {
            if j > 0 {
                assert(s[j] == s.drop_first()[j - 1]);
            }
        }
    }
}

/// A prefix's digit value never exceeds the whole's.
pub proof fn lemma_digits_prefix(d: Seq<char>, k: int)
    requires
        0 <= k <= d.len(),
    ensures
        digits_value(d.take(k)) <= digits_value(d),
    decreases d.len(),
{
    if k < d.len() {
        lemma_digits_prefix(d.drop_last(), k);
        assert(d.drop_last().take(k) =~= d.take(k));
    } else {
        assert(d.take(k) =~= d);
    }
}

// ---------------------------------------------------------------------
// Executable counterparts
// ---------------------------------------------------------------------

/// Appends `c` to `s` with `String::push`. Trusted: the contract states
/// what the standard library documents for `String::push` (the character
/// is added at the end); vstd gives that method no specification.
#[verifier::external_body]
pub(crate) fn push_char(s: &mut String, c: char)
    ensures
        final(s)@ == old(s)@.push(c),
{
    s.push(c);
}

/// The characters of `s`, in order.
pub fn chars_of(s: &str) -> (v: Vec<char>)
    ensures
        v@ == s@,
{
    let mut v: Vec<char> = Vec::new();
    for c in it: s.chars()
        invariant
            v@ == it.seq().take(it.index() as int),
            it.seq() == s@,
    {
        v.push(c);
    }
    v
}

/// A `String` holding the characters of `v`.
pub fn string_of(v: &Vec<char>) -> (s: String)
    ensures
        s@ == v@,
{
    let mut s = String::new();
    let mut i: usize = 0;
    while i < v.len()
        invariant
            i <= v.len(),
            s@ == v@.take(i as int),
        decreases v.len() - i,
    {
        push_char(&mut s, v[i]);
        assert(v@.take(i + 1) =~= v@.take(i as int).push(v@[i as int]));
        i = i + 1;
    }
    assert(v@.take(v.len() as int) =~= v@);
    s
}

/// The characters of `v` from `start` up to `end`.
pub fn slice(v: &Vec<char>, start: usize, end: usize) -> (r: Vec<char>)
    requires
        start <= end <= v.len(),
    ensures
        r@ == v@.subrange(start as int, end as int),
{
    let mut r: Vec<char> = Vec::new();
    let mut i: usize = start;
    while i < end
        invariant
            start <= i <= end <= v.len(),
            r@ == v@.subrange(start as int, i as int),
        decreases end - i,
    {
        r.push(v[i]);
        assert(v@.subrange(start as int, i + 1) =~= v@.subrange(start as int, i as int).push(v@[i as int]));
        i = i + 1;
    }
    r
}

/// Whether `c` is Unicode whitespace (`char::is_whitespace`).
pub fn is_whitespace_char(c: char) -> (b: bool)
    ensures
        b == is_whitespace(c),
{
    let u = c as u32;
    (9 <= u && u <= 13) || u == 32 || u == 0x85 || u == 0xa0 || u == 0x1680 || (0x2000 <= u && u
        <= 0x200a) || u == 0x2028 || u == 0x2029 || u == 0x202f || u == 0x205f || u == 0x3000
}

/// `v` without leading and trailing whitespace.
pub fn trim_chars(v: &Vec<char>) -> (r: Vec<char>)
    ensures
        r@ == trim(v@),
{
    let mut a: usize = 0;
    assert(v@.skip(0) =~= v@);
    while a < v.len() && is_whitespace_char(v[a])
        invariant
            a <= v.len(),
            trim_start(v@) == trim_start(v@.skip(a as int)),
        decreases v.len() - a,
    {
        assert(v@.skip(a as int).drop_first() =~= v@.skip(a + 1));
        a = a + 1;
    }
    let t = slice(v, a, v.len());
    assert(t@ =~= v@.skip(a as int));
    let mut b: usize = t.len();
    assert(t@.take(t.len() as int) =~= t@);
    while b > 0 && is_whitespace_char(t[b - 1])
        invariant
            b <= t.len(),
            trim_end(t@) == trim_end(t@.take(b as int)),
        decreases b,
    {
        assert(t@.take(b as int).drop_last() =~= t@.take(b - 1));
        b = b - 1;
    }
    slice(&t, 0, b)
}

/// Whether `v` starts with `p`.
pub fn starts_with(v: &Vec<char>, p: &Vec<char>) -> (b: bool)
    ensures
        b == (p@.len() <= v@.len() && v@.take(p@.len() as int) == p@),
{
    if p.len() > v.len() {
        return false;
    }
    let mut i: usize = 0;
    while i < p.len()
        invariant
            p.len() <= v.len(),
            i <= p.len(),
            forall|j: int| 0 <= j < i ==> v@[j] == p@[j],
        decreases p.len() - i,
    {
        if v[i] != p[i] {
            assert(v@.take(p@.len() as int)[i as int] != p@[i as int]);
            return false;
        }
        i = i + 1;
    }
    assert(v@.take(p@.len() as int) =~= p@);
    true
}

/// Whether `a` and `b` hold the same characters.
pub fn same_chars(a: &Vec<char>, b: &Vec<char>) -> (r: bool)
    ensures
        r == (a@ == b@),
{
    if a.len() != b.len() {
        return false;
    }
    let r = starts_with(a, b);
    assert(a@.take(b@.len() as int) =~= a@);
    r
}

/// `str::strip_prefix` on characters.
pub fn strip_prefix_chars(v: &Vec<char>, p: &Vec<char>) -> (r: Option<Vec<char>>)
    ensures
        r is Some == strip_prefix(v@, p@) is Some,
        r matches Some(rest) ==> strip_prefix(v@, p@) == Some(rest@),
{
    if starts_with(v, p) {
        let rest = slice(v, p.len(), v.len());
        assert(rest@ =~= v@.skip(p@.len() as int));
        Some(rest)
    } else {
        None
    }
}

/// Index of the first `c` in `v` at or after `start`, or `v.len()`.
pub fn find_char_from(v: &Vec<char>, c: char, start: usize) -> (r: usize)
    requires
        start <= v.len(),
    ensures
        start <= r <= v.len(),
        r - start == char_pos(v@.skip(start as int), c),
{
    let mut i: usize = start;
    while i < v.len() && v[i] != c
        invariant
            start <= i <= v.len(),
            char_pos(v@.skip(start as int), c) == (i - start) + char_pos(v@.skip(i as int), c),
        decreases v.len() - i,
    {
        assert(v@.skip(i as int).drop_first() =~= v@.skip(i + 1));
        i = i + 1;
    }
    i
}

/// The lines of `v` (`str::lines`).
pub fn lines_of(v: &Vec<char>) -> (r: Vec<Vec<char>>)
    ensures
        r@.len() == split_lines(v@).len(),
        forall|k: int| 0 <= k < r@.len() ==> (#[trigger] r@[k])@ == split_lines(v@)[k],
{
    let mut out: Vec<Vec<char>> = Vec::new();
    let ghost mut done: Seq<Seq<char>> = seq![];
    let mut pos: usize = 0;
    assert(v@.skip(0) =~= v@);
    while pos < v.len()
        invariant
            pos <= v.len(),
            out@.len() == done.len(),
            forall|k: int| 0 <= k < out@.len() ==> (#[trigger] out@[k])@ == done[k],
            split_lines(v@) == done + split_lines(v@.skip(pos as int)),
        decreases v.len() - pos,
    {
        let ghost rest = v@.skip(pos as int);
        let nl = find_char_from(v, '\n', pos);
        if nl < v.len() {
            let mut e = nl;
            if e > pos && v[e - 1] == '\r' {
                e = e - 1;
            }
            let line = slice(v, pos, e);
            assert(rest.take(nl - pos) =~= v@.subrange(pos as int, nl as int));
            assert(line@ =~= strip_cr(rest.take(nl - pos)));
            assert(rest.skip(nl - pos + 1) =~= v@.skip(nl + 1));
            proof {
                done = done.push(line@);
            }
            out.push(line);
            pos = nl + 1;
        } else {
            let line = slice(v, pos, v.len());
            assert(line@ =~= rest);
            proof {
                done = done.push(line@);
            }
            out.push(line);
            pos = v.len();
            assert(v@.skip(pos as int) =~= Seq::<char>::empty());
        }
    }
    assert(v@.skip(pos as int) =~= Seq::<char>::empty());
    assert(done + split_lines(v@.skip(pos as int)) =~= done);
    out
}

/// `str::splitn` on characters.
pub fn splitn_chars(v: &Vec<char>, n: usize, c: char) -> (r: Vec<Vec<char>>)
    requires
        n >= 1,
    ensures
        r@.len() == splitn(v@, n as nat, c).len(),
        forall|k: int| 0 <= k < r@.len() ==> (#[trigger] r@[k])@ == splitn(v@, n as nat, c)[k],
{
    let mut out: Vec<Vec<char>> = Vec::new();
    let ghost mut done: Seq<Seq<char>> = seq![];
    let mut pos: usize = 0;
    let mut left: usize = n;
    assert(v@.skip(0) =~= v@);
    loop
        invariant
            pos <= v.len(),
            1 <= left <= n,
            out@.len() == done.len(),
            forall|k: int| 0 <= k < out@.len() ==> (#[trigger] out@[k])@ == done[k],
            splitn(v@, n as nat, c) == done + splitn(v@.skip(pos as int), left as nat, c),
        decreases left,
    {
        let ghost rest = v@.skip(pos as int);
        if left == 1 {
            let piece = slice(v, pos, v.len());
            assert(piece@ =~= rest);
            proof {
                done = done.push(piece@);
            }
            out.push(piece);
            assert(splitn(v@, n as nat, c) =~= done);
            return out;
        }
        let i = find_char_from(v, c, pos);
        if i < v.len() {
            let piece = slice(v, pos, i);
            assert(piece@ =~= rest.take(i - pos));
            assert(rest.skip(i - pos + 1) =~= v@.skip(i + 1));
            proof {
                done = done.push(piece@);
            }
            out.push(piece);
            pos = i + 1;
            left = left - 1;
        } else {
            let piece = slice(v, pos, v.len());
            assert(piece@ =~= rest);
            proof {
                done = done.push(piece@);
            }
            out.push(piece);
            assert(splitn(v@, n as nat, c) =~= done);
            return out;
        }
    }
}

/// The part of `v` before its first `c`.
pub fn before_char_chars(v: &Vec<char>, c: char) -> (r: Vec<char>)
    ensures
        r@ == before_char(v@, c),
{
    let i = find_char_from(v, c, 0);
    assert(v@.skip(0) =~= v@);
    slice(v, 0, i)
}

/// `str::find` on characters.
pub fn find_chars(v: &Vec<char>, p: &Vec<char>) -> (r: Option<usize>)
    ensures
        match r {
            Some(i) => find(v@, p@) == Some(i as nat),
            None => find(v@, p@) is None,
        },
{
    let mut i: usize = 0;
    while p.len() <= v.len() && i <= v.len() - p.len()
        invariant
            find(v@, p@) == find_from(v@, p@, i as nat),
        decreases v.len() + 1 - i,
    {
        let mut k: usize = 0;
        let mut same = true;
        while k < p.len()
            invariant
                i + p.len() <= v.len(),
                k <= p.len(),
                same == (forall|j: int| 0 <= j < k ==> v@[i + j] == p@[j]),
            decreases p.len() - k,
        {
            if v[i + k] != p[k] {
                same = false;
            }
            k = k + 1;
        }
        if same {
            assert(v@.subrange(i as int, i + p.len()) =~= p@);
            return Some(i);
        }
        assert(!matches_at(v@, p@, i as int)) by {
            if v@.subrange(i as int, i + p.len()) == p@ {
                assert forall|j: int| 0 <= j < p.len() implies v@[i + j] == p@[j] by {
                    assert(v@.subrange(i as int, i + p.len())[j] == v@[i + j]);
                }
            }
        }
        i = i + 1;
    }
    None
}

/// `str::split_once` on characters.
pub fn split_once_chars(v: &Vec<char>, p: &Vec<char>) -> (r: Option<(Vec<char>, Vec<char>)>)
    ensures
        match r {
            Some((a, b)) => split_once(v@, p@) == Some((a@, b@)),
            None => split_once(v@, p@) is None,
        },
{
    match find_chars(v, p) {
        Some(i) => {
            proof {
                lemma_find_bounds(v@, p@, 0);
                assert(find_from(v@, p@, 0) == Some(i as nat));
            }
            assert(i + p.len() <= v.len());
            let a = slice(v, 0, i);
            let b = slice(v, i + p.len(), v.len());
            assert(a@ =~= v@.take(i as int));
            assert(b@ =~= v@.skip(i + p.len()));
            Some((a, b))
        },
        None => None,
    }
}

/// Where the first `c` of `x + y` is: that of `x` when `x` holds one,
/// else past `x` at the first `c` of `y`.
pub proof fn lemma_char_pos_append(x: Seq<char>, y: Seq<char>, c: char)
    ensures
        char_pos(x, c) < x.len() ==> char_pos(x + y, c) == char_pos(x, c),
        char_pos(x, c) >= x.len() ==> char_pos(x + y, c) == x.len() + char_pos(y, c),
    decreases x.len(),
{
    if x.len() > 0 {
        assert((x + y)[0] == x[0]);
        if x[0] != c {
            assert((x + y).drop_first() =~= x.drop_first() + y);
            lemma_char_pos_append(x.drop_first(), y, c);
        }
    } else {
        assert(x + y =~= y);
    }
}

/// Splitting `x`, `c` and then a piece without `c` gives the pieces of
/// `x` followed by that piece.
pub proof fn lemma_split_append(x: Seq<char>, c: char, t: Seq<char>)
    requires
        forall|j: int| 0 <= j < t.len() ==> t[j] != c,
    ensures
        split(x + seq![c] + t, c) == split(x, c).push(t),
    decreases x.len(),
{
    let s = x + seq![c] + t;
    lemma_char_pos(x, c);
    lemma_char_pos(t, c);
    lemma_char_pos_append(x, seq![c] + t, c);
    assert(s =~= x + (seq![c] + t));
    let i = char_pos(x, c);
    if i < x.len() {
        assert(s.take(i as int) =~= x.take(i as int));
        assert(s.skip(i + 1int) =~= x.skip(i + 1int) + seq![c] + t);
        lemma_split_append(x.skip(i + 1int), c, t);
        assert(split(x, c) == seq![x.take(i as int)] + split(x.skip(i + 1int), c));
        assert(split(s, c) =~= split(x, c).push(t));
    } else {
        assert(char_pos(seq![c] + t, c) == 0);
        assert(s.take(x.len() as int) =~= x);
        assert(s.skip(x.len() + 1int) =~= t);
        assert(char_pos(t, c) == t.len());
        assert(split(t, c) == seq![t]);
        assert(split(x, c) == seq![x]);
        assert(split(s, c) =~= split(x, c).push(t));
    }
}

/// A match found by `find_from` lies inside `s`.
pub proof fn lemma_find_bounds(s: Seq<char>, p: Seq<char>, i: nat)
    ensures
        find_from(s, p, i) matches Some(j) ==> i <= j && j + p.len() <= s.len(),
    decreases s.len() + 1 - i,
{
    if i + p.len() <= s.len() && !matches_at(s, p, i as int) {
        lemma_find_bounds(s, p, i + 1);
    }
}

/// Whether `p` occurs in `v`.
pub fn contains_chars(v: &Vec<char>, p: &Vec<char>) -> (b: bool)
    ensures
        b == contains(v@, p@),
{
    find_chars(v, p).is_some()
}

/// `str::split` at `c` on characters.
pub fn split_chars(v: &Vec<char>, c: char) -> (r: Vec<Vec<char>>)
    ensures
        r@.len() == split(v@, c).len(),
        forall|k: int| 0 <= k < r@.len() ==> (#[trigger] r@[k])@ == split(v@, c)[k],
{
    let mut out: Vec<Vec<char>> = Vec::new();
    let ghost mut done: Seq<Seq<char>> = seq![];
    let mut pos: usize = 0;
    assert(v@.skip(0) =~= v@);
    loop
        invariant
            pos <= v.len(),
            out@.len() == done.len(),
            forall|k: int| 0 <= k < out@.len() ==> (#[trigger] out@[k])@ == done[k],
            split(v@, c) == done + split(v@.skip(pos as int), c),
        decreases v.len() - pos,
    {
        let ghost rest = v@.skip(pos as int);
        let i = find_char_from(v, c, pos);
        if i < v.len() {
            let piece = slice(v, pos, i);
            assert(piece@ =~= rest.take(i - pos));
            assert(rest.skip(i - pos + 1) =~= v@.skip(i + 1));
            proof {
                done = done.push(piece@);
            }
            out.push(piece);
            pos = i + 1;
        } else {
            let piece = slice(v, pos, v.len());
            assert(piece@ =~= rest);
            proof {
                done = done.push(piece@);
            }
            out.push(piece);
            assert(split(v@, c) =~= done);
            return out;
        }
    }
}

/// `str::split_whitespace` on characters.
pub fn words_of(v: &Vec<char>) -> (r: Vec<Vec<char>>)
    ensures
        r@.len() == words(v@).len(),
        forall|k: int| 0 <= k < r@.len() ==> (#[trigger] r@[k])@ == words(v@)[k],
{
    let mut out: Vec<Vec<char>> = Vec::new();
    let ghost mut done: Seq<Seq<char>> = seq![];
    let mut pos: usize = 0;
    assert(v@.skip(0) =~= v@);
    while pos < v.len()
        invariant
            pos <= v.len(),
            out@.len() == done.len(),
            forall|k: int| 0 <= k < out@.len() ==> (#[trigger] out@[k])@ == done[k],
            words(v@) == done + words(v@.skip(pos as int)),
        decreases v.len() - pos,
    {
        let ghost rest = v@.skip(pos as int);
        if is_whitespace_char(v[pos]) {
            assert(rest.drop_first() =~= v@.skip(pos + 1));
            pos = pos + 1;
        } else {
            let mut e = pos;
            while e < v.len() && !is_whitespace_char(v[e])
                invariant
                    pos <= e <= v.len(),
                    ws_pos(rest) == (e - pos) + ws_pos(v@.skip(e as int)),
                decreases v.len() - e,
            {
                assert(v@.skip(e as int).drop_first() =~= v@.skip(e + 1));
                e = e + 1;
            }
            let word = slice(v, pos, e);
            assert(word@ =~= rest.take(e - pos));
            assert(rest.skip(e - pos) =~= v@.skip(e as int));
            proof {
                done = done.push(word@);
            }
            out.push(word);
            pos = e;
        }
    }
    assert(v@.skip(pos as int) =~= Seq::<char>::empty());
    assert(done + words(v@.skip(pos as int)) =~= done);
    out
}

/// `v` with every `c` removed.
pub fn without_char_chars(v: &Vec<char>, c: char) -> (r: Vec<char>)
    ensures
        r@ == without_char(v@, c),
{
    let mut r: Vec<char> = Vec::new();
    let mut i: usize = 0;
    while i < v.len()
        invariant
            i <= v.len(),
            r@ == without_char(v@.take(i as int), c),
        decreases v.len() - i,
    {
        assert(v@.take(i + 1).drop_last() =~= v@.take(i as int));
        if v[i] != c {
            r.push(v[i]);
        }
        i = i + 1;
    }
    assert(v@.take(v.len() as int) =~= v@);
    r
}

/// `str::parse::<u64>` on characters.
pub fn parse_u64_chars(v: &Vec<char>) -> (r: Option<u64>)
    ensures
        r == parse_u64(v@),
{
    let start: usize = if v.len() > 0 && v[0] == '+' {
        1
    } else {
        0
    };
    let ghost d = v@.skip(start as int);
    assert(d =~= (if v@.len() > 0 && v@[0] == '+' {
        v@.drop_first()
    } else {
        v@
    }));
    if start >= v.len() {
        return None;
    }
    let mut acc: u64 = 0;
    let mut i: usize = start;
    while i < v.len()
        invariant
            start <= i <= v.len(),
            d == v@.skip(start as int),
            d == (if v@.len() > 0 && v@[0] == '+' {
                v@.drop_first()
            } else {
                v@
            }),
            acc == digits_value(d.take(i - start)),
            forall|j: int| 0 <= j < i - start ==> is_digit(#[trigger] d[j]),
        decreases v.len() - i,
    {
        let c = v[i];
        if !('0' <= c && c <= '9') {
            assert(d[i - start] == c);
            assert(!is_digit(d[i - start]));
            assert(!all_digits(d));
            return None;
        }
        let dig = (c as u32 - '0' as u32) as u64;
        assert(d.take(i - start + 1).drop_last() =~= d.take(i - start));
        assert(d.take(i - start + 1).last() == c);
        assert(d[i - start] == c);
        assert(digit_value(c) == dig);
        assert(digits_value(d.take(i - start + 1)) == acc * 10 + dig);
        if acc > (u64::MAX - dig) / 10 {
            proof {
                lemma_digits_prefix(d, i - start + 1);
            }
            assert(digits_value(d.take(i - start + 1)) > u64::MAX) by (nonlinear_arith)
                requires
                    acc > (u64::MAX - dig) / 10,
                    digits_value(d.take(i - start + 1)) == acc * 10 + dig,
            ;
            assert(digits_value(d) > u64::MAX);
            return None;
        }
        acc = acc * 10 + dig;
        i = i + 1;
    }
    assert(d.take(i - start) =~= d);
    Some(acc)
}

} // verus!
