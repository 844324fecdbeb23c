//! Character-sequence helpers shared by the engine and the rewriters.
use vstd::prelude::*;
use vstd::string::StrSliceExecFns;

verus! {

/// The characters of a string slice, as a vector.
pub fn chars_of(s: &str) -> (r: Vec<char>)
    ensures
        r@ == s@,
{
    let n: usize = s.unicode_len();
    let mut r: Vec<char> = Vec::new();
    let mut i: usize = 0;
    while i < n
        invariant
            n == s@.len(),
            i <= n,
            r@ == s@.subrange(0, i as int),
        decreases n - i,
    {
        let c = s.get_char(i);
        r.push(c);
        i = i + 1;
        proof {
            assert(r@ =~= s@.subrange(0, i as int));
        }
    }
    proof {
        assert(r@ =~= s@);
    }
    r
}

/// A copy of `s[a..b]`.
pub fn copy_range(s: &Vec<char>, a: usize, b: usize) -> (r: Vec<char>)
    requires
        a <= b <= s@.len(),
    ensures
        r@ == s@.subrange(a as int, b as int),
{
    let mut r: Vec<char> = Vec::new();
    let mut i: usize = a;
    while i < b
        invariant
            a <= i <= b <= s@.len(),
            r@ == s@.subrange(a as int, i as int),
        decreases b - i,
    {
        r.push(s[i]);
        i = i + 1;
        proof {
            assert(r@ =~= s@.subrange(a as int, i as int));
        }
    }
    r
}

/// Appends all of `src` to `dst`.
pub fn append_chars(dst: &mut Vec<char>, src: &Vec<char>)
    ensures
        final(dst)@ == old(dst)@ + src@,
{
    let mut i: usize = 0;
    while i < src.len()
        invariant
            i <= src@.len(),
            dst@ == old(dst)@ + src@.subrange(0, i as int),
        decreases src@.len() - i,
    {
        dst.push(src[i]);
        i = i + 1;
        proof {
            assert(old(dst)@ + src@.subrange(0, i - 1) + seq![src@[i - 1]] =~= old(dst)@
                + src@.subrange(0, i as int));
        }
    }
    proof {
        assert(old(dst)@ + src@.subrange(0, src@.len() as int) =~= old(dst)@ + src@);
    }
}

/// Whether the character sequences are equal.
pub fn chars_eq(a: &Vec<char>, b: &Vec<char>) -> (r: bool)
    ensures
        r == (a@ == b@),
{
    if a.len() != b.len() {
        proof {
            assert(a@.len() != b@.len());
        }
        return false;
    }
    let mut i: usize = 0;
    while i < a.len()
        invariant
            a@.len() == b@.len(),
            i <= a@.len(),
            forall|j: int| 0 <= j < i ==> a@[j] == b@[j],
        decreases a@.len() - i,
    {
        if a[i] != b[i] {
            return false;
        }
        i = i + 1;
    }
    proof {
        assert(a@ =~= b@);
    }
    true
}

/// Whether `s` starts with `prefix`.
pub open spec fn starts_with(s: Seq<char>, prefix: Seq<char>) -> bool {
    prefix.len() <= s.len() && s.subrange(0, prefix.len() as int) == prefix
}

/// Exec check of `starts_with`.
pub fn has_prefix(s: &Vec<char>, prefix: &Vec<char>) -> (r: bool)
    ensures
        r == starts_with(s@, prefix@),
{
    if prefix.len() > s.len() {
        return false;
    }
    let mut i: usize = 0;
    while i < prefix.len()
        invariant
            prefix@.len() <= s@.len(),
            i <= prefix@.len(),
            forall|j: int| 0 <= j < i ==> s@[j] == prefix@[j],
        decreases prefix@.len() - i,
    {
        if s[i] != prefix[i] {
            proof {
                assert(s@.subrange(0, prefix@.len() as int)[i as int] != prefix@[i as int]);
            }
            return false;
        }
        i = i + 1;
    }
    proof {
        assert(s@.subrange(0, prefix@.len() as int) =~= prefix@);
    }
    true
}

/// A copy of the whole character vector.
pub fn clone_chars(s: &Vec<char>) -> (r: Vec<char>)
    ensures
        r@ == s@,
{
    let r = copy_range(s, 0, s.len());
    proof {
        assert(s@.subrange(0, s@.len() as int) =~= s@);
    }
    r
}

/// XML whitespace.
pub open spec fn is_ws(c: char) -> bool {
    c == ' ' || c == '\t' || c == '\n' || c == '\r'
}

/// Exec check of `is_ws`.
pub fn ws_char(c: char) -> (r: bool)
    ensures
        r == is_ws(c),
{
    c == ' ' || c == '\t' || c == '\n' || c == '\r'
}

/// Index of the first occurrence of `c` in `s` at or after `i`, or -1.
pub open spec fn find_char(s: Seq<char>, i: int, c: char) -> int
    decreases s.len() - i when 0 <= i <= s.len()
{
    if i >= s.len() {
        -1
    } else if s[i] == c {
        i
    } else {
        find_char(s, i + 1, c)
    }
}

pub proof fn lemma_find_char(s: Seq<char>, i: int, c: char)
    requires
        0 <= i <= s.len(),
    ensures
        find_char(s, i, c) == -1 ==> forall|j: int| i <= j < s.len() ==> s[j] != c,
        find_char(s, i, c) != -1 ==> i <= find_char(s, i, c) < s.len() && s[find_char(s, i, c)]
            == c && forall|j: int| i <= j < find_char(s, i, c) ==> s[j] != c,
    decreases s.len() - i,
{
    if i < s.len() && s[i] != c {
        lemma_find_char(s, i + 1, c);
    }
}

/// A first occurrence pinned down by its witnesses.
pub proof fn lemma_find_char_determined(s: Seq<char>, i: int, p: int, c: char)
    requires
        0 <= i <= p < s.len(),
        s[p] == c,
        forall|j: int| i <= j < p ==> s[j] != c,
    ensures
        find_char(s, i, c) == p,
{
    lemma_find_char(s, i, c);
    let f = find_char(s, i, c);
    if f == -1 {
        assert(s[p] != c);
    } else {
        if f < p {
            assert(s[f] != c);
        }
        if f > p {
            assert(s[p] != c);
        }
    }
}

/// No occurrence at all pins the search down to -1.
pub proof fn lemma_find_char_none(s: Seq<char>, i: int, c: char)
    requires
        0 <= i <= s.len(),
        forall|j: int| i <= j < s.len() ==> s[j] != c,
    ensures
        find_char(s, i, c) == -1,
{
    lemma_find_char(s, i, c);
    let f = find_char(s, i, c);
    if f != -1 {
        assert(s[f] != c);
    }
}

/// Index of the first non-whitespace character at or after `i`, or -1.
pub open spec fn find_non_ws(s: Seq<char>, i: int) -> int
    decreases s.len() - i when 0 <= i <= s.len()
{
    if i >= s.len() {
        -1
    } else if !is_ws(s[i]) {
        i
    } else {
        find_non_ws(s, i + 1)
    }
}

pub proof fn lemma_find_non_ws(s: Seq<char>, i: int)
    requires
        0 <= i <= s.len(),
    ensures
        find_non_ws(s, i) == -1 ==> forall|j: int| i <= j < s.len() ==> is_ws(s[j]),
        find_non_ws(s, i) != -1 ==> i <= find_non_ws(s, i) < s.len() && !is_ws(
            s[find_non_ws(s, i)],
        ) && forall|j: int| i <= j < find_non_ws(s, i) ==> is_ws(s[j]),
    decreases s.len() - i,
{
    if i < s.len() && is_ws(s[i]) {
        lemma_find_non_ws(s, i + 1);
    }
}

/// A first non-whitespace position pinned down by its witnesses.
pub proof fn lemma_find_non_ws_determined(s: Seq<char>, i: int, p: int)
    requires
        0 <= i <= p < s.len(),
        !is_ws(s[p]),
        forall|j: int| i <= j < p ==> is_ws(s[j]),
    ensures
        find_non_ws(s, i) == p,
    decreases p - i,
{
    if i < p {
        lemma_find_non_ws_determined(s, i + 1, p);
    }
}

/// Whether `pat` occurs in `s` starting exactly at `i`.
pub open spec fn matches_at(s: Seq<char>, i: int, pat: Seq<char>) -> bool {
    0 <= i && i + pat.len() <= s.len() && s.subrange(i, i + pat.len()) == pat
}

/// `matches_at` holds exactly when every pattern character agrees.
pub proof fn lemma_matches_at_iff(s: Seq<char>, i: int, pat: Seq<char>)
    requires
        0 <= i,
    ensures
        matches_at(s, i, pat) <==> (i + pat.len() <= s.len() && forall|k: int|
            0 <= k < pat.len() ==> s[i + k] == pat[k]),
{
    if i + pat.len() <= s.len() {
        if forall|k: int| 0 <= k < pat.len() ==> s[i + k] == pat[k] {
            assert(s.subrange(i, i + pat.len()) =~= pat);
        }
        if matches_at(s, i, pat) {
            assert forall|k: int| 0 <= k < pat.len() implies s[i + k] == pat[k] by {
                assert(pat[k] == s.subrange(i, i + pat.len())[k]);
            }
        }
    }
}

/// Index of the first occurrence of `pat` in `s` at or after `i`, or -1.
pub open spec fn find_sub(s: Seq<char>, i: int, pat: Seq<char>) -> int
    decreases s.len() + 1 - i when 0 <= i
{
    if i + pat.len() > s.len() {
        -1
    } else if matches_at(s, i, pat) {
        i
    } else {
        find_sub(s, i + 1, pat)
    }
}

pub proof fn lemma_find_sub(s: Seq<char>, i: int, pat: Seq<char>)
    requires
        0 <= i,
    ensures
        find_sub(s, i, pat) == -1 ==> forall|j: int| i <= j ==> !matches_at(s, j, pat),
        find_sub(s, i, pat) != -1 ==> i <= find_sub(s, i, pat) && matches_at(
            s,
            find_sub(s, i, pat),
            pat,
        ) && forall|j: int| i <= j < find_sub(s, i, pat) ==> !matches_at(s, j, pat),
    decreases s.len() + 1 - i,
{
    if i + pat.len() > s.len() {
        assert forall|j: int| i <= j implies !matches_at(s, j, pat) by {}
    } else if !matches_at(s, i, pat) {
        lemma_find_sub(s, i + 1, pat);
    }
}

/// A first pattern occurrence pinned down by its witnesses.
pub proof fn lemma_find_sub_determined(s: Seq<char>, i: int, p: int, pat: Seq<char>)
    requires
        0 <= i <= p,
        matches_at(s, p, pat),
        forall|j: int| i <= j < p ==> !matches_at(s, j, pat),
    ensures
        find_sub(s, i, pat) == p,
    decreases p - i,
{
    if i < p {
        lemma_find_sub_determined(s, i + 1, p, pat);
    }
}

/// The tail of `s` from `i` on, with every occurrence of `from` (leftmost
/// first, without overlap) replaced by `to`.
pub open spec fn replace_from(s: Seq<char>, i: int, from: Seq<char>, to: Seq<char>) -> Seq<char>
    decreases s.len() - i when from.len() >= 1 && 0 <= i
{
    let p = find_sub(s, i, from);
    if p < i || p + from.len() > s.len() {
        s.subrange(i, s.len() as int)
    } else {
        s.subrange(i, p) + to + replace_from(s, p + from.len(), from, to)
    }
}

/// Replacement introduces no character that neither input holds.
pub proof fn lemma_replace_from_no_char(
    s: Seq<char>,
    i: int,
    from: Seq<char>,
    to: Seq<char>,
    c: char,
)
    requires
        0 <= i <= s.len(),
        from.len() >= 1,
        forall|j: int| i <= j < s.len() ==> s[j] != c,
        forall|j: int| 0 <= j < to.len() ==> to[j] != c,
    ensures
        forall|j: int|
            0 <= j < replace_from(s, i, from, to).len() ==> replace_from(s, i, from, to)[j] != c,
    decreases s.len() + 1 - i,
{
    let p = find_sub(s, i, from);
    let r = replace_from(s, i, from, to);
    if p < i || p + from.len() > s.len() {
        assert(r == s.subrange(i, s.len() as int));
        assert forall|j: int| 0 <= j < r.len() implies r[j] != c by {
            assert(r[j] == s[i + j]);
        }
    } else {
        lemma_replace_from_no_char(s, p + from.len(), from, to, c);
        let rest = replace_from(s, p + from.len(), from, to);
        assert forall|j: int| 0 <= j < r.len() implies r[j] != c by {
            if j < p - i {
                assert(r[j] == s[i + j]);
            } else if j < p - i + to.len() {
                assert(r[j] == to[j - (p - i)]);
            } else {
                assert(r[j] == rest[j - (p - i) - to.len()]);
            }
        }
    }
}

/// `s` with every occurrence of `from` replaced by `to`: leftmost match
/// first, matches do not overlap, and the scan continues after the
/// replacement, so freshly inserted text is never replaced again.
pub open spec fn replace_all_spec(s: Seq<char>, from: Seq<char>, to: Seq<char>) -> Seq<char> {
    replace_from(s, 0, from, to)
}

/// A sequence without the pattern is left unchanged by replacement.
pub proof fn lemma_replace_all_absent(s: Seq<char>, from: Seq<char>, to: Seq<char>)
    requires
        from.len() >= 1,
        find_sub(s, 0, from) == -1,
    ensures
        replace_all_spec(s, from, to) == s,
{
    assert(s.subrange(0, s.len() as int) =~= s);
}

/// Exec mirror of `replace_all_spec`.
pub fn replace_all(s: &Vec<char>, from: &Vec<char>, to: &Vec<char>) -> (r: Vec<char>)
    requires
        from@.len() >= 1,
    ensures
        r@ == replace_all_spec(s@, from@, to@),
{
    let n: usize = s.len();
    let mut out: Vec<char> = Vec::new();
    let mut pos: usize = 0;
    proof {
        assert(out@ + replace_from(s@, 0, from@, to@) =~= replace_from(s@, 0, from@, to@));
    }
    loop
        invariant
            n == s@.len(),
            from@.len() >= 1,
            pos <= s@.len(),
            replace_all_spec(s@, from@, to@) == out@ + replace_from(s@, pos as int, from@, to@),
        decreases s@.len() - pos,
    {
        let ghost pos0 = pos as int;
        match scan_sub(s, pos, from) {
            Some(p) => {
                proof {
                    lemma_find_sub(s@, pos0, from@);
                }
                let piece = copy_range(s, pos, p);
                append_chars(&mut out, &piece);
                append_chars(&mut out, to);
                pos = p + from.len();
                proof {
                    assert(replace_from(s@, pos0, from@, to@) == s@.subrange(pos0, p as int) + to@
                        + replace_from(s@, pos as int, from@, to@));
                    assert(out@ + replace_from(s@, pos as int, from@, to@)
                        =~= replace_all_spec(s@, from@, to@));
                }
            },
            None => {
                let piece = copy_range(s, pos, n);
                append_chars(&mut out, &piece);
                proof {
                    assert(replace_from(s@, pos0, from@, to@) == s@.subrange(
                        pos0,
                        s@.len() as int,
                    ));
                    assert(out@ =~= replace_all_spec(s@, from@, to@));
                }
                return out;
            },
        }
    }
}

/// Index of the last occurrence of `c` at or below `i`, or -1.
pub open spec fn rfind_char(s: Seq<char>, i: int, c: char) -> int
    decreases i + 1 when i < s.len()
{
    if i < 0 {
        -1
    } else if s[i] == c {
        i
    } else {
        rfind_char(s, i - 1, c)
    }
}

/// Exec search for the last occurrence of a character.
pub fn scan_last_char(s: &Vec<char>, c: char) -> (r: Option<usize>)
    ensures
        ({
            let f = rfind_char(s@, s@.len() - 1, c);
            match r {
                Some(j) => f == j && j < s@.len(),
                None => f == -1,
            }
        }),
{
    let mut i: usize = s.len();
    while i > 0
        invariant
            i <= s@.len(),
            rfind_char(s@, s@.len() - 1, c) == rfind_char(s@, i - 1, c),
        decreases i,
    {
        if s[i - 1] == c {
            return Some(i - 1);
        }
        i = i - 1;
    }
    None
}

/// Index of the last occurrence of `pat` starting at or below `i`, or -1.
pub open spec fn rfind_sub(s: Seq<char>, i: int, pat: Seq<char>) -> int
    decreases i + 1 when i + pat.len() <= s.len()
{
    if i < 0 {
        -1
    } else if matches_at(s, i, pat) {
        i
    } else {
        rfind_sub(s, i - 1, pat)
    }
}

/// Exec search for the last occurrence of a pattern.
pub fn scan_last_sub(s: &Vec<char>, pat: &Vec<char>) -> (r: Option<usize>)
    requires
        pat@.len() >= 1,
    ensures
        ({
            let f = rfind_sub(s@, s@.len() - pat@.len(), pat@);
            match r {
                Some(j) => f == j && j + pat@.len() <= s@.len(),
                None => f == -1,
            }
        }),
{
    let n: usize = s.len();
    if pat.len() > n {
        return None;
    }
    let mut i: usize = n - pat.len() + 1;
    while i > 0
        invariant
            n == s@.len(),
            1 <= pat@.len() <= n,
            i + pat@.len() <= n + 1,
            rfind_sub(s@, s@.len() - pat@.len(), pat@) == rfind_sub(s@, i - 1, pat@),
        decreases i,
    {
        if check_at(s, i - 1, pat) {
            return Some(i - 1);
        }
        i = i - 1;
    }
    None
}

/// Index of the last non-whitespace character at or below `i`, or -1.
pub open spec fn rfind_non_ws(s: Seq<char>, i: int) -> int
    decreases i + 1 when i < s.len()
{
    if i < 0 {
        -1
    } else if !is_ws(s[i]) {
        i
    } else {
        rfind_non_ws(s, i - 1)
    }
}

/// Exec search for the last non-whitespace character.
pub fn scan_last_non_ws(s: &Vec<char>) -> (r: Option<usize>)
    ensures
        ({
            let f = rfind_non_ws(s@, s@.len() - 1);
            match r {
                Some(j) => f == j && j < s@.len() && !is_ws(s@[j as int]),
                None => f == -1,
            }
        }),
{
    let mut i: usize = s.len();
    while i > 0
        invariant
            i <= s@.len(),
            rfind_non_ws(s@, s@.len() - 1) == rfind_non_ws(s@, i - 1),
        decreases i,
    {
        if !ws_char(s[i - 1]) {
            return Some(i - 1);
        }
        i = i - 1;
    }
    None
}

pub proof fn lemma_rfind_non_ws(s: Seq<char>, i: int)
    requires
        i < s.len(),
    ensures
        rfind_non_ws(s, i) == -1 ==> forall|j: int| 0 <= j <= i ==> is_ws(s[j]),
        rfind_non_ws(s, i) != -1 ==> 0 <= rfind_non_ws(s, i) <= i && !is_ws(s[rfind_non_ws(s, i)])
            && forall|j: int| rfind_non_ws(s, i) < j <= i ==> is_ws(s[j]),
    decreases i + 1,
{
    if i >= 0 && is_ws(s[i]) {
        lemma_rfind_non_ws(s, i - 1);
    }
}

/// The sequence without leading and trailing whitespace.
pub open spec fn trim_ws(s: Seq<char>) -> Seq<char> {
    let a = find_non_ws(s, 0);
    if a == -1 {
        Seq::empty()
    } else {
        let b = rfind_non_ws(s, s.len() - 1);
        s.subrange(a, b + 1)
    }
}

/// Exec mirror of `trim_ws`.
pub fn trim_chars(s: &Vec<char>) -> (r: Vec<char>)
    ensures
        r@ == trim_ws(s@),
{
    match scan_non_ws(s, 0) {
        None => Vec::new(),
        Some(a) => {
            proof {
                lemma_rfind_non_ws(s@, s@.len() - 1);
            }
            match scan_last_non_ws(s) {
                None => {
                    proof {
                        assert(is_ws(s@[a as int]));
                        assert(false);
                    }
                    Vec::new()
                },
                Some(b) => {
                    let n: usize = s.len();
                    proof {
                        assert(b < n);
                        if a > b {
                            assert(is_ws(s@[a as int]));
                            assert(false);
                        }
                    }
                    copy_range(s, a, b + 1)
                },
            }
        },
    }
}

/// Exec search for a single character.
pub fn scan_char(s: &Vec<char>, from: usize, c: char) -> (r: Option<usize>)
    requires
        from <= s@.len(),
    ensures
        ({
            let f = find_char(s@, from as int, c);
            match r {
                Some(j) => f == j && from <= j < s@.len(),
                None => f == -1,
            }
        }),
{
    let mut i: usize = from;
    while i < s.len()
        invariant
            from <= i <= s@.len(),
            find_char(s@, from as int, c) == find_char(s@, i as int, c),
        decreases s@.len() - i,
    {
        if s[i] == c {
            proof {
                lemma_find_char(s@, i as int, c);
            }
            return Some(i);
        }
        i = i + 1;
    }
    None
}

/// Exec search for the next non-whitespace character.
pub fn scan_non_ws(s: &Vec<char>, from: usize) -> (r: Option<usize>)
    requires
        from <= s@.len(),
    ensures
        ({
            let f = find_non_ws(s@, from as int);
            match r {
                Some(j) => f == j && from <= j < s@.len() && !is_ws(s@[j as int]),
                None => f == -1,
            }
        }),
{
    let mut i: usize = from;
    while i < s.len()
        invariant
            from <= i <= s@.len(),
            find_non_ws(s@, from as int) == find_non_ws(s@, i as int),
        decreases s@.len() - i,
    {
        if !ws_char(s[i]) {
            return Some(i);
        }
        i = i + 1;
    }
    None
}

/// Exec check of `matches_at`.
pub fn check_at(s: &Vec<char>, i: usize, pat: &Vec<char>) -> (r: bool)
    ensures
        r == matches_at(s@, i as int, pat@),
{
    let n: usize = s.len();
    if pat.len() > n || i > n - pat.len() {
        return false;
    }
    let mut k: usize = 0;
    while k < pat.len()
        invariant
            n == s@.len(),
            i + pat@.len() <= n,
            k <= pat@.len(),
            forall|j: int| 0 <= j < k ==> s@[i + j] == pat@[j],
        decreases pat@.len() - k,
    {
        if s[i + k] != pat[k] {
            proof {
                assert(s@.subrange(i as int, i + pat@.len())[k as int] != pat@[k as int]);
            }
            return false;
        }
        k = k + 1;
    }
    proof {
        assert(s@.subrange(i as int, i + pat@.len()) =~= pat@);
    }
    true
}

/// Exec search for a substring.
pub fn scan_sub(s: &Vec<char>, from: usize, pat: &Vec<char>) -> (r: Option<usize>)
    requires
        from <= s@.len(),
    ensures
        ({
            let f = find_sub(s@, from as int, pat@);
            match r {
                Some(j) => f == j && from <= j && j + pat@.len() <= s@.len(),
                None => f == -1,
            }
        }),
{
    let n: usize = s.len();
    if pat.len() == 0 {
        proof {
            assert(s@.subrange(from as int, from as int) =~= pat@);
            assert(matches_at(s@, from as int, pat@));
        }
        return Some(from);
    }
    if pat.len() > n || from > n - pat.len() {
        return None;
    }
    let mut i: usize = from;
    while i <= n - pat.len()
        invariant
            n == s@.len(),
            1 <= pat@.len() <= n,
            from <= i,
            i <= n + 1 - pat@.len(),
            find_sub(s@, from as int, pat@) == find_sub(s@, i as int, pat@),
        decreases s@.len() + 1 - i,
    {
        if check_at(s, i, pat) {
            proof {
                lemma_find_sub(s@, i as int, pat@);
            }
            return Some(i);
        }
        i = i + 1;
    }
    None
}

} // verus!
