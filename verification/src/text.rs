//! Character-level text utilities: whitespace tokenization, trimming,
//! searching for separators, and decimal rendering.
//!
//! The input-line mini-grammar of the prompt is `token (' ' token)*`, where a
//! token is a bare word or a `name:value` pair.  Everything here is specified
//! over `Seq<char>`, the view of both `&str` and `Vec<char>`.

use vstd::prelude::*;

verus! {

/// The whitespace characters on which input lines are split.
pub open spec fn is_space_char(c: char) -> bool {
    c == ' ' || c == '\t' || c == '\n' || c == '\r'
}

/// Length of the leading run of non-whitespace characters.
pub open spec fn token_len(s: Seq<char>) -> nat
    decreases s.len(),
{
    if s.len() == 0 || is_space_char(s[0]) {
        0
    } else {
        1 + token_len(s.skip(1))
    }
}

pub proof fn lemma_token_len(s: Seq<char>)
    ensures
        token_len(s) <= s.len(),
        forall|j: int| 0 <= j < token_len(s) ==> !is_space_char(s[j]),
        token_len(s) < s.len() ==> is_space_char(s[token_len(s) as int]),
    decreases s.len(),
{
    if s.len() > 0 && !is_space_char(s[0]) {
        lemma_token_len(s.skip(1));
        assert forall|j: int| 0 <= j < token_len(s) implies !is_space_char(s[j]) by {
            if j > 0 {
                assert(s[j] == s.skip(1)[j - 1]);
            }
        }
        if token_len(s) < s.len() {
            assert(s[token_len(s) as int] == s.skip(1)[token_len(s.skip(1)) as int]);
        }
    }
}

/// `token_len` is the unique boundary: all characters before it are
/// non-whitespace and the character at it (if any) is whitespace.
pub proof fn lemma_token_len_exact(s: Seq<char>, k: int)
    requires
        0 <= k <= s.len(),
        forall|j: int| 0 <= j < k ==> !is_space_char(s[j]),
        k < s.len() ==> is_space_char(s[k]),
    ensures
        token_len(s) == k,
    decreases k,
{
    if k == 0 {
    } else {
        lemma_token_len_exact(s.skip(1), k - 1);
    }
}

/// The whitespace-separated tokens of a line, in order.
pub open spec fn tokens_of(s: Seq<char>) -> Seq<Seq<char>>
    decreases s.len(),
    via tokens_of_dec
{
    if s.len() == 0 {
        Seq::empty()
    } else if is_space_char(s[0]) {
        tokens_of(s.skip(1))
    } else {
        seq![s.take(token_len(s) as int)] + tokens_of(s.skip(token_len(s) as int))
    }
}

#[via_fn]
proof fn tokens_of_dec(s: Seq<char>) {
    lemma_token_len(s);
}

/// Tokens are never empty and never contain whitespace.
pub proof fn lemma_tokens_wf(s: Seq<char>)
    ensures
        forall|i: int| 0 <= i < tokens_of(s).len() ==> (#[trigger] tokens_of(s)[i]).len() > 0,
        forall|i: int, j: int|
            0 <= i < tokens_of(s).len() && 0 <= j < tokens_of(s)[i].len()
                ==> !is_space_char(#[trigger] tokens_of(s)[i][j]),
    decreases s.len(),
{
    if s.len() == 0 {
    } else if is_space_char(s[0]) {
        lemma_tokens_wf(s.skip(1));
        assert forall|i: int| 0 <= i < tokens_of(s).len() implies (#[trigger] tokens_of(
            s,
        )[i]).len() > 0 by {
            assert(tokens_of(s)[i] == tokens_of(s.skip(1))[i]);
        }
        assert forall|i: int, j: int|
            0 <= i < tokens_of(s).len() && 0 <= j < tokens_of(s)[i].len()
                implies !is_space_char(#[trigger] tokens_of(s)[i][j]) by {
            assert(tokens_of(s)[i][j] == tokens_of(s.skip(1))[i][j]);
        }
    } else {
        lemma_token_len(s);
        let rest = tokens_of(s.skip(token_len(s) as int));
        lemma_tokens_wf(s.skip(token_len(s) as int));
        let t = s.take(token_len(s) as int);
        assert forall|j: int| 0 <= j < t.len() implies !is_space_char(t[j]) by {
            assert(t[j] == s[j]);
        }
        assert forall|i: int| 0 <= i < tokens_of(s).len() implies (#[trigger] tokens_of(
            s,
        )[i]).len() > 0 by {
            if i > 0 {
                assert(tokens_of(s)[i] == rest[i - 1]);
            }
        }
        assert forall|i: int, j: int|
            0 <= i < tokens_of(s).len() && 0 <= j < tokens_of(s)[i].len()
                implies !is_space_char(#[trigger] tokens_of(s)[i][j]) by {
            if i > 0 {
                assert(tokens_of(s)[i] == rest[i - 1]);
                assert(tokens_of(s)[i][j] == rest[i - 1][j]);
            }
        }
    }
}

/// The tokens joined back together with single spaces.
pub open spec fn join_tokens(ts: Seq<Seq<char>>) -> Seq<char>
    decreases ts.len(),
{
    if ts.len() == 0 {
        Seq::empty()
    } else if ts.len() == 1 {
        ts[0]
    } else {
        ts[0] + seq![' '] + join_tokens(ts.drop_first())
    }
}

pub proof fn lemma_join_push(ts: Seq<Seq<char>>, t: Seq<char>)
    ensures
        ts.len() == 0 ==> join_tokens(ts.push(t)) == t,
        ts.len() > 0 ==> join_tokens(ts.push(t)) == join_tokens(ts) + seq![' '] + t,
    decreases ts.len(),
{
    if ts.len() == 0 {
        assert(ts.push(t)[0] == t);
    } else if ts.len() == 1 {
        assert(ts.push(t).drop_first() =~= seq![t]);
        assert(ts.push(t)[0] == ts[0]);
        assert(join_tokens(seq![t]) == seq![t][0]);
        assert(join_tokens(ts.push(t)) == ts[0] + seq![' '] + t);
    } else {
        lemma_join_push(ts.drop_first(), t);
        assert(ts.push(t).drop_first() =~= ts.drop_first().push(t));
        assert(join_tokens(ts) + seq![' '] + t =~= ts[0] + seq![' '] + (join_tokens(
            ts.drop_first(),
        ) + seq![' '] + t));
    }
}

/// Whether a token carries the `name:value` separator.
pub open spec fn has_colon(t: Seq<char>) -> bool {
    exists|i: int| 0 <= i < t.len() && t[i] == ':'
}

/// Index of the first `:`, or the length when there is none.
pub open spec fn colon_pos(t: Seq<char>) -> int
    decreases t.len(),
{
    if t.len() == 0 {
        0
    } else if t[0] == ':' {
        0
    } else {
        1 + colon_pos(t.skip(1))
    }
}

pub proof fn lemma_colon_pos(t: Seq<char>)
    ensures
        0 <= colon_pos(t) <= t.len(),
        has_colon(t) <==> colon_pos(t) < t.len(),
        colon_pos(t) < t.len() ==> t[colon_pos(t)] == ':',
        forall|j: int| 0 <= j < colon_pos(t) ==> t[j] != ':',
    decreases t.len(),
{
    if t.len() > 0 && t[0] != ':' {
        lemma_colon_pos(t.skip(1));
        assert forall|j: int| 0 <= j < colon_pos(t) implies t[j] != ':' by {
            if j > 0 {
                assert(t[j] == t.skip(1)[j - 1]);
            }
        }
        if colon_pos(t.skip(1)) < t.skip(1).len() {
            assert(t[colon_pos(t)] == t.skip(1)[colon_pos(t.skip(1))]);
        }
        if has_colon(t) {
            let i = choose|i: int| 0 <= i < t.len() && t[i] == ':';
            assert(t.skip(1)[i - 1] == ':');
        }
        if has_colon(t.skip(1)) {
            let i = choose|i: int| 0 <= i < t.skip(1).len() && t.skip(1)[i] == ':';
            assert(t[i + 1] == ':');
        }
    }
}

/// The key part of a `name:value` token.
pub open spec fn colon_key(t: Seq<char>) -> Seq<char> {
    t.take(colon_pos(t))
}

/// The value part of a `name:value` token.
pub open spec fn colon_value(t: Seq<char>) -> Seq<char> {
    t.skip(colon_pos(t) + 1)
}

/// Whether the character occurs at all.
pub open spec fn has_char_in(t: Seq<char>, c: char) -> bool {
    exists|i: int| 0 <= i < t.len() && t[i] == c
}

/// Index of the first occurrence of a character, or the length when there
/// is none.
pub open spec fn first_pos_of(t: Seq<char>, c: char) -> int
    decreases t.len(),
{
    if t.len() == 0 {
        0
    } else if t[0] == c {
        0
    } else {
        1 + first_pos_of(t.skip(1), c)
    }
}

pub proof fn lemma_first_pos_of(t: Seq<char>, c: char)
    ensures
        0 <= first_pos_of(t, c) <= t.len(),
        has_char_in(t, c) <==> first_pos_of(t, c) < t.len(),
        first_pos_of(t, c) < t.len() ==> t[first_pos_of(t, c)] == c,
        forall|j: int| 0 <= j < first_pos_of(t, c) ==> t[j] != c,
    decreases t.len(),
{
    if t.len() > 0 && t[0] != c {
        lemma_first_pos_of(t.skip(1), c);
        assert forall|j: int| 0 <= j < first_pos_of(t, c) implies t[j] != c by {
            if j > 0 {
                assert(t[j] == t.skip(1)[j - 1]);
            }
        }
        if first_pos_of(t.skip(1), c) < t.skip(1).len() {
            assert(t[first_pos_of(t, c)] == t.skip(1)[first_pos_of(t.skip(1), c)]);
        }
        if has_char_in(t, c) {
            let i = choose|i: int| 0 <= i < t.len() && t[i] == c;
            assert(t.skip(1)[i - 1] == c);
        }
        if has_char_in(t.skip(1), c) {
            let i = choose|i: int| 0 <= i < t.skip(1).len() && t.skip(1)[i] == c;
            assert(t[i + 1] == c);
        }
    }
}

/// First occurrence of a character in the buffer, if any.
pub fn find_char(v: &Vec<char>, c: char) -> (r: Option<usize>)
    ensures
        has_char_in(v@, c) ==> (r matches Some(i) && i == first_pos_of(v@, c)),
        !has_char_in(v@, c) ==> r is None,
{
    proof {
        lemma_first_pos_of(v@, c);
    }
    let n = v.len();
    let mut i: usize = 0;
    while i < n
        invariant
            n == v@.len(),
            i <= n,
            forall|j: int| 0 <= j < i ==> v@[j] != c,
        decreases n - i,
    {
        if v[i] == c {
            proof {
                lemma_first_pos_of(v@, c);
                assert(has_char_in(v@, c));
                assert(first_pos_of(v@, c) >= i) by {
                    if first_pos_of(v@, c) < i {
                        assert(v@[first_pos_of(v@, c)] == c);
                    }
                }
                assert(first_pos_of(v@, c) <= i) by {
                    if first_pos_of(v@, c) > i {
                        assert(v@[i as int] != c);
                    }
                }
            }
            return Some(i);
        }
        i = i + 1;
    }
    proof {
        assert(!has_char_in(v@, c));
    }
    None
}

/// Index of the last plain space, or `-1` when there is none.
pub open spec fn last_space_pos(t: Seq<char>) -> int
    decreases t.len(),
{
    if t.len() == 0 {
        -1
    } else if t[t.len() - 1] == ' ' {
        t.len() - 1
    } else {
        last_space_pos(t.drop_last())
    }
}

pub proof fn lemma_last_space_pos(t: Seq<char>)
    ensures
        -1 <= last_space_pos(t) < t.len(),
        last_space_pos(t) >= 0 ==> t[last_space_pos(t)] == ' ',
        forall|j: int| last_space_pos(t) < j < t.len() ==> t[j] != ' ',
    decreases t.len(),
{
    if t.len() > 0 && t[t.len() - 1] != ' ' {
        lemma_last_space_pos(t.drop_last());
        if last_space_pos(t) >= 0 {
            assert(t[last_space_pos(t)] == t.drop_last()[last_space_pos(t.drop_last())]);
        }
        assert forall|j: int| last_space_pos(t) < j < t.len() implies t[j] != ' ' by {
            if j < t.len() - 1 {
                assert(t[j] == t.drop_last()[j]);
            }
        }
    }
}

/// The line with leading whitespace removed.
pub open spec fn trim_start_of(s: Seq<char>) -> Seq<char>
    decreases s.len(),
{
    if s.len() > 0 && is_space_char(s[0]) {
        trim_start_of(s.skip(1))
    } else {
        s
    }
}

/// The line with trailing whitespace removed.
pub open spec fn trim_end_of(s: Seq<char>) -> Seq<char>
    decreases s.len(),
{
    if s.len() > 0 && is_space_char(s[s.len() - 1]) {
        trim_end_of(s.drop_last())
    } else {
        s
    }
}

/// The line with whitespace removed from both ends.
pub open spec fn trim_of(s: Seq<char>) -> Seq<char> {
    trim_end_of(trim_start_of(s))
}

pub proof fn lemma_trim_start_at(s: Seq<char>, a: int)
    requires
        0 <= a <= s.len(),
        forall|j: int| 0 <= j < a ==> is_space_char(s[j]),
        a < s.len() ==> !is_space_char(s[a]),
    ensures
        trim_start_of(s) == s.skip(a),
    decreases a,
{
    if a == 0 {
        assert(s.skip(0) =~= s);
    } else {
        lemma_trim_start_at(s.skip(1), a - 1);
        assert(s.skip(1).skip(a - 1) =~= s.skip(a));
    }
}

pub proof fn lemma_trim_end_at(s: Seq<char>, b: int)
    requires
        0 <= b <= s.len(),
        forall|j: int| b <= j < s.len() ==> is_space_char(s[j]),
        b > 0 ==> !is_space_char(s[b - 1]),
    ensures
        trim_end_of(s) == s.take(b),
    decreases s.len(),
{
    if b == s.len() {
        if s.len() == 0 || !is_space_char(s[s.len() - 1]) {
            assert(s.take(b) =~= s);
        }
    } else {
        lemma_trim_end_at(s.drop_last(), b);
        assert(s.drop_last().take(b) =~= s.take(b));
    }
}

/// The decimal digit character for a value below ten.
pub open spec fn digit_char(d: nat) -> char {
    ((48 + d) as u8) as char
}

/// Decimal rendering of a natural number, most significant digit first.
pub open spec fn dec_nat(n: nat) -> Seq<char>
    decreases n,
{
    if n < 10 {
        seq![digit_char(n)]
    } else {
        dec_nat(n / 10) + seq![digit_char(n % 10)]
    }
}

/// Decimal rendering of an integer, with a leading minus when negative.
pub open spec fn dec_int(n: int) -> Seq<char> {
    if n >= 0 {
        dec_nat(n as nat)
    } else {
        seq!['-'] + dec_nat((-n) as nat)
    }
}

// ---------------------------------------------------------------------------
// Executable helpers
// ---------------------------------------------------------------------------

/// Relies on char::to_string: a string holding exactly the one character.
#[verifier::external_body]
pub fn char_to_string(c: char) -> (r: String)
    ensures
        r@ == seq![c],
{
    c.to_string()
}

/// The characters of a string, in order.
pub fn chars_of(s: &str) -> (r: Vec<char>)
    ensures
        r@ == s@,
{
    let n = s.unicode_len();
    let mut v: Vec<char> = Vec::new();
    let mut i: usize = 0;
    while i < n
        invariant
            n == s@.len(),
            i <= n,
            v@ == s@.take(i as int),
        decreases n - i,
    {
        let c = s.get_char(i);
        v.push(c);
        proof {
            assert(v@ =~= s@.take(i + 1 as int));
        }
        i = i + 1;
    }
    proof {
        assert(v@ =~= s@);
    }
    v
}

/// A string holding the given characters.
pub fn string_from_chars(v: &Vec<char>) -> (r: String)
    ensures
        r@ == v@,
{
    let mut s = String::new();
    let mut i: usize = 0;
    while i < v.len()
        invariant
            i <= v@.len(),
            s@ == v@.take(i as int),
        decreases v@.len() - i,
    {
        let t = char_to_string(v[i]);
        s.append(t.as_str());
        proof {
            assert(s@ =~= v@.take(i + 1 as int));
        }
        i = i + 1;
    }
    proof {
        assert(s@ =~= v@);
    }
    s
}

/// Appends every character of a string to a character buffer.
pub fn push_str_chars(dst: &mut Vec<char>, s: &str)
    ensures
        final(dst)@ == old(dst)@ + s@,
{
    let n = s.unicode_len();
    let mut i: usize = 0;
    while i < n
        invariant
            n == s@.len(),
            i <= n,
            dst@ == old(dst)@ + s@.take(i as int),
        decreases n - i,
    {
        dst.push(s.get_char(i));
        proof {
            assert(dst@ =~= old(dst)@ + s@.take(i + 1 as int));
        }
        i = i + 1;
    }
    proof {
        assert(dst@ =~= old(dst)@ + s@);
    }
}

/// Appends every character of another buffer.
pub fn push_chars(dst: &mut Vec<char>, src: &Vec<char>)
    ensures
        final(dst)@ == old(dst)@ + src@,
{
    let n = src.len();
    let mut i: usize = 0;
    while i < n
        invariant
            n == src@.len(),
            i <= n,
            dst@ == old(dst)@ + src@.take(i as int),
        decreases n - i,
    {
        dst.push(src[i]);
        proof {
            assert(dst@ =~= old(dst)@ + src@.take(i + 1 as int));
        }
        i = i + 1;
    }
    proof {
        assert(dst@ =~= old(dst)@ + src@);
    }
}

/// A copy of the characters in `[from, to)`.
pub fn subvec(v: &Vec<char>, from: usize, to: usize) -> (r: Vec<char>)
    requires
        from <= to <= v@.len(),
    ensures
        r@ == v@.subrange(from as int, to as int),
{
    let mut r: Vec<char> = Vec::new();
    let mut i: usize = from;
    while i < to
        invariant
            from <= i <= to <= v@.len(),
            r@ == v@.subrange(from as int, i as int),
        decreases to - i,
    {
        r.push(v[i]);
        proof {
            assert(r@ =~= v@.subrange(from as int, i + 1 as int));
        }
        i = i + 1;
    }
    r
}

/// Whether the characters equal the string, character for character.
pub fn chars_eq_str(v: &Vec<char>, s: &str) -> (r: bool)
    ensures
        r == (v@ == s@),
{
    let n = s.unicode_len();
    if v.len() != n {
        proof {
            assert(v@.len() != s@.len());
        }
        return false;
    }
    let mut i: usize = 0;
    while i < n
        invariant
            n == s@.len(),
            v@.len() == n,
            i <= n,
            forall|j: int| 0 <= j < i ==> v@[j] == s@[j],
        decreases n - i,
    {
        if v[i] != s.get_char(i) {
            return false;
        }
        i = i + 1;
    }
    proof {
        assert(v@ =~= s@);
    }
    true
}

/// Whether two strings are equal, character for character.
pub fn str_eq(a: &str, b: &str) -> (r: bool)
    ensures
        r == (a@ == b@),
{
    let n = a.unicode_len();
    let m = b.unicode_len();
    if n != m {
        proof {
            assert(a@.len() != b@.len());
        }
        return false;
    }
    let mut i: usize = 0;
    while i < n
        invariant
            n == a@.len(),
            m == b@.len(),
            n == m,
            i <= n,
            forall|j: int| 0 <= j < i ==> a@[j] == b@[j],
        decreases n - i,
    {
        if a.get_char(i) != b.get_char(i) {
            return false;
        }
        i = i + 1;
    }
    proof {
        assert(a@ =~= b@);
    }
    true
}

/// Whether two character buffers are equal.
pub fn chars_eq(a: &Vec<char>, b: &Vec<char>) -> (r: bool)
    ensures
        r == (a@ == b@),
{
    if a.len() != b.len() {
        proof {
            assert(a@.len() != b@.len());
        }
        return false;
    }
    let n = a.len();
    let mut i: usize = 0;
    while i < n
        invariant
            n == a@.len(),
            b@.len() == n,
            i <= n,
            forall|j: int| 0 <= j < i ==> a@[j] == b@[j],
        decreases n - i,
    {
        if a[i] != b[i] {
            return false;
        }
        i = i + 1;
    }
    proof {
        assert(a@ =~= b@);
    }
    true
}

/// Whether the string starts with the given characters.
pub fn str_starts_with_chars(s: &str, p: &Vec<char>) -> (r: bool)
    ensures
        r == p@.is_prefix_of(s@),
{
    let n = s.unicode_len();
    if p.len() > n {
        return false;
    }
    let m = p.len();
    let mut i: usize = 0;
    while i < m
        invariant
            n == s@.len(),
            p@.len() == m <= n,
            i <= m,
            forall|j: int| 0 <= j < i ==> p@[j] == s@[j],
        decreases m - i,
    {
        if p[i] != s.get_char(i) {
            proof {
                assert(!p@.is_prefix_of(s@)) by {
                    if p@.is_prefix_of(s@) {
                        assert(p@[i as int] == s@.subrange(0, p@.len() as int)[i as int]);
                    }
                }
            }
            return false;
        }
        i = i + 1;
    }
    proof {
        assert(p@ =~= s@.subrange(0, p@.len() as int));
    }
    true
}

/// Whether one character buffer starts with another.
pub fn chars_start_with(v: &Vec<char>, p: &Vec<char>) -> (r: bool)
    ensures
        r == p@.is_prefix_of(v@),
{
    let n = v.len();
    if p.len() > n {
        return false;
    }
    let m = p.len();
    let mut i: usize = 0;
    while i < m
        invariant
            n == v@.len(),
            p@.len() == m <= n,
            i <= m,
            forall|j: int| 0 <= j < i ==> p@[j] == v@[j],
        decreases m - i,
    {
        if p[i] != v[i] {
            proof {
                assert(!p@.is_prefix_of(v@)) by {
                    if p@.is_prefix_of(v@) {
                        assert(p@[i as int] == v@.subrange(0, p@.len() as int)[i as int]);
                    }
                }
            }
            return false;
        }
        i = i + 1;
    }
    proof {
        assert(p@ =~= v@.subrange(0, p@.len() as int));
    }
    true
}

/// Splits a line into its whitespace-separated tokens.
pub fn tokenize(s: &Vec<char>) -> (r: Vec<Vec<char>>)
    ensures
        r.deep_view() == tokens_of(s@),
{
    let mut r: Vec<Vec<char>> = Vec::new();
    let mut i: usize = 0;
    proof {
        assert(s@.skip(0) =~= s@);
        assert(r.deep_view() + tokens_of(s@) =~= tokens_of(s@));
    }
    while i < s.len()
        invariant
            i <= s@.len(),
            tokens_of(s@) == r.deep_view() + tokens_of(s@.skip(i as int)),
        decreases s@.len() - i,
    {
        let c = s[i];
        if c == ' ' || c == '\t' || c == '\n' || c == '\r' {
            proof {
                assert(s@.skip(i as int).skip(1) =~= s@.skip(i + 1 as int));
            }
            i = i + 1;
        } else {
            let ghost rem = s@.skip(i as int);
            let ghost r0 = r.deep_view();
            let start = i;
            let mut tok: Vec<char> = Vec::new();
            while i < s.len() && !(s[i] == ' ' || s[i] == '\t' || s[i] == '\n' || s[i] == '\r')
                invariant
                    start <= i <= s@.len(),
                    start < s@.len(),
                    !is_space_char(s@[start as int]),
                    forall|j: int| start <= j < i ==> !is_space_char(s@[j]),
                    tok@ == s@.subrange(start as int, i as int),
                decreases s@.len() - i,
            {
                tok.push(s[i]);
                proof {
                    assert(tok@ =~= s@.subrange(start as int, i + 1 as int));
                }
                i = i + 1;
            }
            proof {
                assert(i > start);
                assert forall|j: int| 0 <= j < i - start implies !is_space_char(rem[j]) by {
                    assert(rem[j] == s@[start + j]);
                }
                if i - start < rem.len() {
                    assert(rem[i - start] == s@[i as int]);
                }
                lemma_token_len_exact(rem, i - start);
                assert(rem.take(token_len(rem) as int) =~= tok@);
                assert(rem.skip(token_len(rem) as int) =~= s@.skip(i as int));
                assert(tokens_of(rem) == seq![tok@] + tokens_of(s@.skip(i as int)));
            }
            r.push(tok);
            proof {
                assert(tok.deep_view() =~= tok@);
                assert(r.deep_view() =~~= r0.push(tok@));
                assert(r0.push(tok@) + tokens_of(s@.skip(i as int)) =~= r0 + (seq![tok@]
                    + tokens_of(s@.skip(i as int))));
            }
        }
    }
    proof {
        assert(s@.skip(i as int) =~= Seq::<char>::empty());
        assert(r.deep_view() + tokens_of(s@.skip(i as int)) =~= r.deep_view());
    }
    r
}

/// First `:` in the buffer, if any.
pub fn find_first_colon(v: &Vec<char>) -> (r: Option<usize>)
    ensures
        has_colon(v@) ==> (r matches Some(i) && i == colon_pos(v@)),
        !has_colon(v@) ==> r is None,
{
    proof {
        lemma_colon_pos(v@);
    }
    let n = v.len();
    let mut i: usize = 0;
    while i < n
        invariant
            n == v@.len(),
            i <= n,
            forall|j: int| 0 <= j < i ==> v@[j] != ':',
        decreases n - i,
    {
        if v[i] == ':' {
            proof {
                lemma_colon_pos(v@);
                assert(has_colon(v@));
                assert(colon_pos(v@) >= i) by {
                    if colon_pos(v@) < i {
                        assert(v@[colon_pos(v@)] == ':');
                    }
                }
                assert(colon_pos(v@) <= i) by {
                    if colon_pos(v@) > i {
                        assert(v@[i as int] != ':');
                    }
                }
            }
            return Some(i);
        }
        i = i + 1;
    }
    proof {
        assert(!has_colon(v@));
    }
    None
}

/// Last plain space in the buffer, if any.
pub fn rfind_space(v: &Vec<char>) -> (r: Option<usize>)
    ensures
        last_space_pos(v@) >= 0 ==> (r matches Some(i) && i == last_space_pos(v@)),
        last_space_pos(v@) < 0 ==> r is None,
{
    proof {
        lemma_last_space_pos(v@);
    }
    let n = v.len();
    let mut i: usize = n;
    while i > 0
        invariant
            n == v@.len(),
            i <= n,
            forall|j: int| i <= j < n ==> v@[j] != ' ',
        decreases i,
    {
        i = i - 1;
        if v[i] == ' ' {
            proof {
                lemma_last_space_pos(v@);
                assert(last_space_pos(v@) >= i) by {
                    if last_space_pos(v@) < i {
                        assert(v@[i as int] != ' ');
                    }
                }
                assert(last_space_pos(v@) <= i) by {
                    if last_space_pos(v@) > i {
                        assert(v@[last_space_pos(v@)] == ' ');
                    }
                }
            }
            return Some(i);
        }
    }
    proof {
        assert(last_space_pos(v@) < 0) by {
            if last_space_pos(v@) >= 0 {
                assert(v@[last_space_pos(v@)] == ' ');
            }
        }
    }
    None
}

/// Whether the buffer, ignoring surrounding whitespace, equals the string.
pub fn trimmed_eq_str(v: &Vec<char>, s: &str) -> (r: bool)
    ensures
        r == (trim_of(v@) == s@),
{
    let n = v.len();
    let mut a: usize = 0;
    while a < n && (v[a] == ' ' || v[a] == '\t' || v[a] == '\n' || v[a] == '\r')
        invariant
            n == v@.len(),
            a <= n,
            forall|j: int| 0 <= j < a ==> is_space_char(v@[j]),
        decreases n - a,
    {
        a = a + 1;
    }
    proof {
        lemma_trim_start_at(v@, a as int);
    }
    let ghost st = v@.skip(a as int);
    let mut b: usize = n;
    while b > a && (v[b - 1] == ' ' || v[b - 1] == '\t' || v[b - 1] == '\n' || v[b - 1] == '\r')
        invariant
            n == v@.len(),
            a <= b <= n,
            forall|j: int| b <= j < n ==> is_space_char(v@[j]),
        decreases b,
    {
        b = b - 1;
    }
    proof {
        assert forall|j: int| b - a <= j < st.len() implies is_space_char(st[j]) by {
            assert(st[j] == v@[a + j]);
        }
        if b > a {
            assert(st[b - a - 1] == v@[b - 1]);
        }
        lemma_trim_end_at(st, b - a);
        assert(trim_of(v@) == v@.subrange(a as int, b as int)) by {
            assert(st.take(b - a) =~= v@.subrange(a as int, b as int));
        }
    }
    let m = s.unicode_len();
    if b - a != m {
        proof {
            assert(trim_of(v@).len() != s@.len());
        }
        return false;
    }
    let mut i: usize = 0;
    while i < m
        invariant
            m == s@.len(),
            a + m == b <= n == v@.len(),
            i <= m,
            trim_of(v@) == v@.subrange(a as int, b as int),
            forall|j: int| 0 <= j < i ==> v@[a + j] == s@[j],
        decreases m - i,
    {
        if v[a + i] != s.get_char(i) {
            proof {
                assert(trim_of(v@)[i as int] == v@[a + i]);
            }
            return false;
        }
        i = i + 1;
    }
    proof {
        assert(trim_of(v@) =~= s@);
    }
    true
}

/// The digit character for a value below ten.
pub fn digit_of(d: u32) -> (c: char)
    requires
        d < 10,
    ensures
        c == digit_char(d as nat),
{
    let b: u8 = 48 + (d as u8);
    b as char
}

/// Appends the decimal rendering of an unsigned number.
pub fn push_dec_u32(out: &mut Vec<char>, n: u32)
    ensures
        final(out)@ == old(out)@ + dec_nat(n as nat),
    decreases n,
{
    if n < 10 {
        out.push(digit_of(n));
        proof {
            assert(out@ =~= old(out)@ + dec_nat(n as nat));
        }
    } else {
        push_dec_u32(out, n / 10);
        out.push(digit_of(n % 10));
        proof {
            assert(out@ =~= old(out)@ + dec_nat(n as nat));
        }
    }
}

/// Appends the decimal rendering of a signed number.
pub fn push_dec_i32(out: &mut Vec<char>, n: i32)
    ensures
        final(out)@ == old(out)@ + dec_int(n as int),
{
    if n >= 0 {
        push_dec_u32(out, n as u32);
    } else {
        out.push('-');
        let m: i64 = -(n as i64);
        push_dec_u32(out, m as u32);
        proof {
            assert(out@ =~= old(out)@ + dec_int(n as int));
        }
    }
}

/// The character repeated `n` times.
pub open spec fn repeat_char(c: char, n: int) -> Seq<char>
    decreases n,
{
    if n <= 0 {
        Seq::empty()
    } else {
        repeat_char(c, n - 1).push(c)
    }
}

/// Text padded on the right with spaces to at least the given width.
pub open spec fn pad_right_spec(s: Seq<char>, w: int) -> Seq<char> {
    s + repeat_char(' ', w - s.len())
}

/// Text padded on the left with spaces to at least the given width.
pub open spec fn pad_left_spec(s: Seq<char>, w: int) -> Seq<char> {
    repeat_char(' ', w - s.len()) + s
}

/// Appends the character `n` times.
pub fn push_repeat(out: &mut Vec<char>, c: char, n: usize)
    ensures
        final(out)@ == old(out)@ + repeat_char(c, n as int),
{
    let mut i: usize = 0;
    proof {
        assert(out@ =~= old(out)@ + repeat_char(c, 0));
    }
    while i < n
        invariant
            i <= n,
            out@ == old(out)@ + repeat_char(c, i as int),
        decreases n - i,
    {
        out.push(c);
        i = i + 1;
    }
}

/// Appends text padded on the right to at least the given width.
pub fn push_pad_right(out: &mut Vec<char>, s: &Vec<char>, w: usize)
    ensures
        final(out)@ == old(out)@ + pad_right_spec(s@, w as int),
{
    push_chars(out, s);
    if s.len() < w {
        push_repeat(out, ' ', w - s.len());
        proof {
            assert(out@ =~= old(out)@ + pad_right_spec(s@, w as int));
        }
    } else {
        proof {
            assert(repeat_char(' ', w - s@.len()) =~= Seq::<char>::empty());
            assert(out@ =~= old(out)@ + pad_right_spec(s@, w as int));
        }
    }
}

/// Appends text padded on the left to at least the given width.
pub fn push_pad_left(out: &mut Vec<char>, s: &Vec<char>, w: usize)
    ensures
        final(out)@ == old(out)@ + pad_left_spec(s@, w as int),
{
    if s.len() < w {
        push_repeat(out, ' ', w - s.len());
    } else {
        proof {
            assert(repeat_char(' ', w - s@.len()) =~= Seq::<char>::empty());
        }
    }
    push_chars(out, s);
    proof {
        assert(out@ =~= old(out)@ + pad_left_spec(s@, w as int));
    }
}

/// Appends the decimal rendering of a wide unsigned number.
pub fn push_dec_u64(out: &mut Vec<char>, n: u64)
    ensures
        final(out)@ == old(out)@ + dec_nat(n as nat),
    decreases n,
{
    if n < 10 {
        out.push(digit_of(n as u32));
        proof {
            assert(out@ =~= old(out)@ + dec_nat(n as nat));
        }
    } else {
        push_dec_u64(out, n / 10);
        out.push(digit_of((n % 10) as u32));
        proof {
            assert(out@ =~= old(out)@ + dec_nat(n as nat));
        }
    }
}

/// Joins the tokens in `[from, to)` with single spaces.
pub fn join_range(toks: &Vec<Vec<char>>, from: usize, to: usize) -> (r: Vec<char>)
    requires
        from <= to <= toks@.len(),
    ensures
        r@ == join_tokens(toks.deep_view().subrange(from as int, to as int)),
{
    let mut r: Vec<char> = Vec::new();
    let mut i: usize = from;
    proof {
        assert(toks.deep_view().subrange(from as int, from as int) =~= Seq::<Seq<char>>::empty());
    }
    while i < to
        invariant
            from <= i <= to <= toks@.len(),
            toks.deep_view().len() == toks@.len(),
            r@ == join_tokens(toks.deep_view().subrange(from as int, i as int)),
        decreases to - i,
    {
        let ghost pre = toks.deep_view().subrange(from as int, i as int);
        if i > from {
            r.push(' ');
        }
        push_chars(&mut r, &toks[i]);
        proof {
            let post = toks.deep_view().subrange(from as int, i + 1 as int);
            assert(post =~= pre.push(toks.deep_view()[i as int]));
            lemma_join_push(pre, toks.deep_view()[i as int]);
            assert(toks.deep_view()[i as int] == toks@[i as int].deep_view());
            assert(toks@[i as int].deep_view() =~= toks@[i as int]@);
            assert(r@ =~= join_tokens(post));
        }
        i = i + 1;
    }
    r
}

} // verus!
