//! Small verified utilities over `&str` and its `Seq<char>` view.

use vstd::prelude::*;

verus! {

/// Character-by-character string equality, proved against the views.
pub fn str_eq(a: &str, b: &str) -> (r: bool)
    ensures
        r == (a@ == b@),
{
    let alen = a.unicode_len();
    let blen = b.unicode_len();
    if alen != blen {
        assert(a@ != b@) by {
            assert(a@.len() != b@.len());
        }
        return false;
    }
    let mut i: usize = 0;
    while i < alen
        invariant
            alen == a@.len(),
            blen == b@.len(),
            alen == blen,
            i <= alen,
            forall|k: int| 0 <= k < i ==> a@[k] == b@[k],
        decreases alen - i,
    {
        if a.get_char(i) != b.get_char(i) {
            return false;
        }
        i += 1;
    }
    proof {
        assert(a@ =~= b@);
    }
    true
}

/// Membership of a string among a list of strings, by value.
pub fn vec_contains_str(v: &Vec<String>, s: &str) -> (r: bool)
    ensures
        r == v.deep_view().contains(s@),
{
    let mut i: usize = 0;
    let n = v.len();
    while i < n
        invariant
            n == v.len(),
            i <= n,
            forall|k: int| 0 <= k < i ==> v.deep_view()[k] != s@,
        decreases n - i,
    {
        if str_eq(v[i].as_str(), s) {
            assert(v.deep_view()[i as int] == s@);
            return true;
        }
        i += 1;
    }
    assert(!v.deep_view().contains(s@));
    false
}

/// The whitespace characters that delimit tokens.
pub open spec fn is_space(c: char) -> bool {
    c == ' ' || c == '\t' || c == '\n' || c == '\r' || c == '\u{b}' || c == '\u{c}'
}

/// Executable test for `is_space`.
pub fn is_space_c(c: char) -> (r: bool)
    ensures
        r == is_space(c),
{
    c == ' ' || c == '\t' || c == '\n' || c == '\r' || c == '\u{b}' || c == '\u{c}'
}

/// Position of the first occurrence of `c` in `s`, or `s.len()`.
pub open spec fn find_char(s: Seq<char>, c: char) -> int
    decreases s.len(),
{
    if s.len() == 0 {
        0
    } else if s[0] == c {
        0
    } else {
        1 + find_char(s.drop_first(), c)
    }
}

/// What `find_char` returns: the first occurrence, or the length.
pub proof fn lemma_find_char(s: Seq<char>, c: char)
    ensures
        0 <= find_char(s, c) <= s.len(),
        forall|k: int| 0 <= k < find_char(s, c) ==> s[k] != c,
        find_char(s, c) < s.len() ==> s[find_char(s, c)] == c,
    decreases s.len(),
{
    if s.len() != 0 && s[0] != c {
        lemma_find_char(s.drop_first(), c);
        let f = find_char(s, c);
        assert forall|k: int| 0 <= k < f implies s[k] != c by {
            if k > 0 {
                assert(s.drop_first()[k - 1] == s[k]);
            }
        }
        if f < s.len() {
            assert(s.drop_first()[f - 1] == s[f]);
        }
    }
}

/// Any position with the first-occurrence properties is `find_char`.
pub proof fn lemma_find_char_unique(s: Seq<char>, c: char, j: int)
    requires
        0 <= j <= s.len(),
        forall|k: int| 0 <= k < j ==> s[k] != c,
        j < s.len() ==> s[j] == c,
    ensures
        find_char(s, c) == j,
{
    lemma_find_char(s, c);
    let f = find_char(s, c);
    if f < j {
        assert(s[f] != c);
    }
    if j < f {
        assert(s[j] != c);
    }
}

/// The run of non-whitespace characters at the head of `s`.
pub open spec fn take_nonspace(s: Seq<char>) -> Seq<char>
    decreases s.len(),
{
    if s.len() == 0 || is_space(s[0]) {
        Seq::<char>::empty()
    } else {
        seq![s[0]] + take_nonspace(s.drop_first())
    }
}

/// The first whitespace-delimited token of `s`; empty when `s` is all
/// whitespace.
pub open spec fn first_token(s: Seq<char>) -> Seq<char>
    decreases s.len(),
{
    if s.len() == 0 {
        Seq::<char>::empty()
    } else if is_space(s[0]) {
        first_token(s.drop_first())
    } else {
        take_nonspace(s)
    }
}

proof fn lemma_take_nonspace(s: Seq<char>, b: int)
    requires
        0 <= b <= s.len(),
        forall|k: int| 0 <= k < b ==> !is_space(s[k]),
        b < s.len() ==> is_space(s[b]),
    ensures
        take_nonspace(s) == s.subrange(0, b),
    decreases s.len(),
{
    if s.len() == 0 {
        assert(take_nonspace(s) =~= s.subrange(0, 0));
    } else if is_space(s[0]) {
        assert(b == 0);
        assert(take_nonspace(s) =~= s.subrange(0, 0));
    } else {
        assert(b >= 1);
        let t = s.drop_first();
        lemma_take_nonspace(t, b - 1);
        assert(seq![s[0]] + t.subrange(0, b - 1) =~= s.subrange(0, b));
    }
}

/// `first_token` is the subrange `[a, b)` of `s` when whitespace runs up
/// to `a` and the token runs up to `b`.
pub proof fn lemma_first_token(s: Seq<char>, a: int, b: int)
    requires
        0 <= a <= b <= s.len(),
        forall|k: int| 0 <= k < a ==> is_space(s[k]),
        a < s.len() ==> !is_space(s[a]),
        a == s.len() ==> a == b,
        forall|k: int| a <= k < b ==> !is_space(s[k]),
        b < s.len() ==> is_space(s[b]),
    ensures
        first_token(s) == s.subrange(a, b),
    decreases s.len(),
{
    if s.len() == 0 {
        assert(first_token(s) =~= s.subrange(0, 0));
    } else if is_space(s[0]) {
        assert(a >= 1);
        let t = s.drop_first();
        lemma_first_token(t, a - 1, b - 1);
        assert(t.subrange(a - 1, b - 1) =~= s.subrange(a, b));
    } else {
        assert(a == 0);
        lemma_take_nonspace(s, b);
    }
}

/// The run of non-whitespace characters at the end of `s`.
pub open spec fn take_nonspace_end(s: Seq<char>) -> Seq<char>
    decreases s.len(),
{
    if s.len() == 0 || is_space(s.last()) {
        Seq::<char>::empty()
    } else {
        take_nonspace_end(s.drop_last()).push(s.last())
    }
}

/// The last whitespace-delimited token of `s`; empty when `s` is all
/// whitespace.
pub open spec fn last_token(s: Seq<char>) -> Seq<char>
    decreases s.len(),
{
    if s.len() == 0 {
        Seq::<char>::empty()
    } else if is_space(s.last()) {
        last_token(s.drop_last())
    } else {
        take_nonspace_end(s)
    }
}

proof fn lemma_take_nonspace_end(s: Seq<char>, a: int)
    requires
        0 <= a <= s.len(),
        forall|k: int| a <= k < s.len() ==> !is_space(s[k]),
        a > 0 ==> is_space(s[a - 1]),
    ensures
        take_nonspace_end(s) == s.subrange(a, s.len() as int),
    decreases s.len(),
{
    if s.len() == 0 {
        assert(take_nonspace_end(s) =~= s.subrange(0, 0));
    } else if is_space(s.last()) {
        assert(a == s.len());
        assert(take_nonspace_end(s) =~= s.subrange(a, s.len() as int));
    } else {
        let t = s.drop_last();
        if a == s.len() {
            assert(!is_space(s[a - 1]));
            assert(false);
        }
        lemma_take_nonspace_end(t, a);
        assert(t.subrange(a, t.len() as int).push(s.last()) =~= s.subrange(a, s.len() as int));
    }
}

/// `last_token` is the subrange `[a, b)` of `s` when whitespace fills
/// `[b, len)` and the token fills `[a, b)`.
pub proof fn lemma_last_token(s: Seq<char>, a: int, b: int)
    requires
        0 <= a <= b <= s.len(),
        forall|k: int| b <= k < s.len() ==> is_space(s[k]),
        b > 0 ==> !is_space(s[b - 1]),
        b == 0 ==> a == 0,
        forall|k: int| a <= k < b ==> !is_space(s[k]),
        a > 0 ==> is_space(s[a - 1]),
    ensures
        last_token(s) == s.subrange(a, b),
    decreases s.len(),
{
    if s.len() == 0 {
        assert(last_token(s) =~= s.subrange(0, 0));
    } else if is_space(s.last()) {
        assert(b < s.len());
        let t = s.drop_last();
        lemma_last_token(t, a, b);
        assert(t.subrange(a, b) =~= s.subrange(a, b));
    } else {
        assert(b == s.len());
        lemma_take_nonspace_end(s, a);
    }
}

/// Scans for `c` from position `from` on.
pub fn find_char_from(s: &str, from: usize, c: char) -> (r: usize)
    requires
        from <= s@.len(),
    ensures
        from <= r <= s@.len(),
        forall|k: int| from <= k < r ==> s@[k] != c,
        r < s@.len() ==> s@[r as int] == c,
{
    let n = s.unicode_len();
    let mut i = from;
    while i < n && s.get_char(i) != c
        invariant
            n == s@.len(),
            from <= i <= n,
            forall|k: int| from <= k < i ==> s@[k] != c,
        decreases n - i,
    {
        i += 1;
    }
    i
}

/// The first whitespace-delimited token of `s`, as a fresh string.
pub fn first_token_of(s: &str) -> (r: String)
    ensures
        r@ == first_token(s@),
{
    let n = s.unicode_len();
    let mut a: usize = 0;
    while a < n && is_space_c(s.get_char(a))
        invariant
            n == s@.len(),
            a <= n,
            forall|k: int| 0 <= k < a ==> is_space(s@[k]),
        decreases n - a,
    {
        a += 1;
    }
    let mut b: usize = a;
    while b < n && !is_space_c(s.get_char(b))
        invariant
            n == s@.len(),
            a <= b <= n,
            forall|k: int| a <= k < b ==> !is_space(s@[k]),
        decreases n - b,
    {
        b += 1;
    }
    proof {
        lemma_first_token(s@, a as int, b as int);
    }
    s.substring_char(a, b).to_owned()
}

/// The last whitespace-delimited token of `s`, as a fresh string.
pub fn last_token_of(s: &str) -> (r: String)
    ensures
        r@ == last_token(s@),
{
    let n = s.unicode_len();
    let mut b: usize = n;
    while b > 0 && is_space_c(s.get_char(b - 1))
        invariant
            n == s@.len(),
            b <= n,
            forall|k: int| b <= k < n ==> is_space(s@[k]),
        decreases b,
    {
        b -= 1;
    }
    let mut a: usize = b;
    while a > 0 && !is_space_c(s.get_char(a - 1))
        invariant
            n == s@.len(),
            a <= b <= n,
            forall|k: int| a <= k < b ==> !is_space(s@[k]),
        decreases a,
    {
        a -= 1;
    }
    proof {
        lemma_last_token(s@, a as int, b as int);
    }
    s.substring_char(a, b).to_owned()
}


/// Code-point order on character sequences: `a` at or before `b`.
pub open spec fn lex_le(a: Seq<char>, b: Seq<char>) -> bool
    decreases a.len(),
{
    if a.len() == 0 {
        true
    } else if b.len() == 0 {
        false
    } else if a[0] < b[0] {
        true
    } else if a[0] > b[0] {
        false
    } else {
        lex_le(a.drop_first(), b.drop_first())
    }
}

/// Strictly before, in code-point order.
pub open spec fn lex_lt(a: Seq<char>, b: Seq<char>) -> bool {
    lex_le(a, b) && a != b
}

/// The order is total.
pub proof fn lemma_lex_total(a: Seq<char>, b: Seq<char>)
    ensures
        lex_le(a, b) || lex_le(b, a),
    decreases a.len(),
{
    if a.len() != 0 && b.len() != 0 && a[0] == b[0] {
        lemma_lex_total(a.drop_first(), b.drop_first());
    }
}

/// The order is transitive.
pub proof fn lemma_lex_trans(a: Seq<char>, b: Seq<char>, c: Seq<char>)
    requires
        lex_le(a, b),
        lex_le(b, c),
    ensures
        lex_le(a, c),
    decreases a.len(),
{
    if a.len() != 0 && b.len() != 0 && c.len() != 0 && a[0] == b[0] && b[0] == c[0] {
        lemma_lex_trans(a.drop_first(), b.drop_first(), c.drop_first());
    }
}

/// Executable code-point comparison of two strings.
pub fn str_le(a: &str, b: &str) -> (r: bool)
    ensures
        r == lex_le(a@, b@),
{
    let alen = a.unicode_len();
    let blen = b.unicode_len();
    let mut i: usize = 0;
    proof {
        assert(a@.subrange(0, alen as int) =~= a@);
        assert(b@.subrange(0, blen as int) =~= b@);
    }
    loop
        invariant_except_break
            lex_le(a@, b@) == lex_le(
                a@.subrange(i as int, alen as int),
                b@.subrange(i as int, blen as int),
            ),
        invariant
            alen == a@.len(),
            blen == b@.len(),
            i <= alen,
            i <= blen,
        ensures
            lex_le(a@, b@) == lex_le(
                a@.subrange(i as int, alen as int),
                b@.subrange(i as int, blen as int),
            ),
            i == alen || i == blen || (i < alen && i < blen && a@[i as int] != b@[i as int]),
        decreases alen - i,
    {
        if i == alen {
            break ;
        }
        if i == blen {
            proof {
                assert(b@.subrange(i as int, blen as int).len() == 0);
                assert(a@.subrange(i as int, alen as int).len() > 0);
            }
            break ;
        }
        let ca = a.get_char(i);
        let cb = b.get_char(i);
        if ca != cb {
            proof {
                assert(a@.subrange(i as int, alen as int)[0] == a@[i as int]);
                assert(b@.subrange(i as int, blen as int)[0] == b@[i as int]);
            }
            break ;
        }
        proof {
            let sa = a@.subrange(i as int, alen as int);
            let sb = b@.subrange(i as int, blen as int);
            assert(sa[0] == a@[i as int]);
            assert(sb[0] == b@[i as int]);
            assert(sa.drop_first() =~= a@.subrange(i as int + 1, alen as int));
            assert(sb.drop_first() =~= b@.subrange(i as int + 1, blen as int));
        }
        i += 1;
    }
    if i == alen {
        proof {
            assert(a@.subrange(i as int, alen as int).len() == 0);
        }
        true
    } else if i == blen {
        proof {
            assert(b@.subrange(i as int, blen as int).len() == 0);
            assert(a@.subrange(i as int, alen as int).len() > 0);
        }
        false
    } else {
        let ca = a.get_char(i);
        let cb = b.get_char(i);
        proof {
            assert(a@.subrange(i as int, alen as int)[0] == a@[i as int]);
            assert(b@.subrange(i as int, blen as int)[0] == b@[i as int]);
        }
        ca < cb
    }
}

/// Executable strict code-point comparison.
pub fn str_lt(a: &str, b: &str) -> (r: bool)
    ensures
        r == lex_lt(a@, b@),
{
    str_le(a, b) && !str_eq(a, b)
}

} // verus!
