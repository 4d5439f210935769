//! Character-level building blocks: Unicode whitespace, conversions between
//! `&str`/`String` and `Vec<char>`, and comparison of character sequences.
use vstd::prelude::*;

verus! {

broadcast use vstd::string::group_string_axioms;

/// Whether `c` has the Unicode `White_Space` property (the set of characters
/// that `char::is_whitespace` accepts).
pub open spec fn spec_is_whitespace(c: char) -> bool {
    ||| ('\u{9}' <= c && c <= '\u{d}')
    ||| c == ' '
    ||| c == '\u{85}'
    ||| c == '\u{a0}'
    ||| c == '\u{1680}'
    ||| ('\u{2000}' <= c && c <= '\u{200a}')
    ||| c == '\u{2028}'
    ||| c == '\u{2029}'
    ||| c == '\u{202f}'
    ||| c == '\u{205f}'
    ||| c == '\u{3000}'
}

/// Executable test for Unicode whitespace.
pub fn is_whitespace(c: char) -> (res: bool)
    ensures
        res == spec_is_whitespace(c),
{
    ('\u{9}' <= c && c <= '\u{d}') || c == ' ' || c == '\u{85}' || c == '\u{a0}' || c
        == '\u{1680}' || ('\u{2000}' <= c && c <= '\u{200a}') || c == '\u{2028}' || c
        == '\u{2029}' || c == '\u{202f}' || c == '\u{205f}' || c == '\u{3000}'
}

/// The characters of `s`, in order.
pub fn str_chars(s: &str) -> (res: Vec<char>)
    ensures
        res@ == s@,
{
    let mut out: Vec<char> = Vec::new();
    for c in it: s.chars()
        invariant
            out@ == it.seq().take(it.index() as int),
    {
        out.push(c);
    }
    out
}

} // verus!

verus! {

/// Collects characters into a `String` (`FromIterator<&char>` for `String` in
/// std): the string holds exactly these characters, in order.
#[verifier::external_body]
pub(crate) fn chars_to_string(chars: &Vec<char>) -> (res: String)
    ensures
        res@ == chars@,
{
    chars.iter().collect()
}

/// Whether two character sequences are equal.
pub fn chars_eq(a: &Vec<char>, b: &Vec<char>) -> (res: bool)
    ensures
        res == (a@ == b@),
{
    if a.len() != b.len() {
        return false;
    }
    let n = a.len();
    for i in 0..n
        invariant
            n == a.len() == b.len(),
            forall|m: int| 0 <= m < i ==> a@[m] == b@[m],
    {
        if a[i] != b[i] {
            return false;
        }
    }
    assert(a@ =~= b@);
    true
}

/// The characters of `s` from `start` (inclusive) to `end` (exclusive).
pub fn copy_range(s: &Vec<char>, start: usize, end: usize) -> (res: Vec<char>)
    requires
        start <= end <= s.len(),
    ensures
        res@ == s@.subrange(start as int, end as int),
{
    let mut out: Vec<char> = Vec::new();
    let mut i = start;
    while i < end
        invariant
            start <= i <= end <= s.len(),
            out@ == s@.subrange(start as int, i as int),
        decreases end - i,
    {
        out.push(s[i]);
        i = i + 1;
        assert(out@ =~= s@.subrange(start as int, i as int));
    }
    out
}

// ---------------------------------------------------------------------------
// Splitting on a separator string
// ---------------------------------------------------------------------------
/// Shifts an optional position by `d`.
pub open spec fn shift(o: Option<nat>, d: nat) -> Option<nat> {
    match o {
        Some(j) => Some(j + d),
        None => None,
    }
}

/// The position of the first occurrence of `sep` in `s`, if any.
pub open spec fn find_sep(s: Seq<char>, sep: Seq<char>) -> Option<nat>
    decreases s.len(),
{
    if sep.len() == 0 || s.len() < sep.len() {
        None
    } else if s.take(sep.len() as int) == sep {
        Some(0)
    } else {
        shift(find_sep(s.drop_first(), sep), 1)
    }
}

/// A found separator lies inside the sequence, and is non-empty.
pub proof fn lemma_find_sep_bound(s: Seq<char>, sep: Seq<char>)
    ensures
        find_sep(s, sep) matches Some(i) ==> {
            &&& 0 < sep.len()
            &&& i + sep.len() <= s.len()
            &&& s.subrange(i as int, (i + sep.len()) as int) == sep
        },
    decreases s.len(),
{
    if sep.len() == 0 || s.len() < sep.len() {
    } else if s.take(sep.len() as int) == sep {
    } else {
        lemma_find_sep_bound(s.drop_first(), sep);
        if let Some(j) = find_sep(s.drop_first(), sep) {
            assert(s.subrange((j + 1) as int, (j + 1 + sep.len()) as int) =~= s.drop_first().subrange(
                j as int,
                (j + sep.len()) as int,
            ));
        }
    }
}

/// The pieces of `s` between the non-overlapping occurrences of `sep`, found
/// from left to right (what `str::split` yields for a string pattern).
pub open spec fn split_on(s: Seq<char>, sep: Seq<char>) -> Seq<Seq<char>>
    decreases s.len(),
{
    match find_sep(s, sep) {
        None => seq![s],
        Some(i) => {
            proof {
                lemma_find_sep_bound(s, sep);
            }
            seq![s.take(i as int)] + split_on(s.skip((i + sep.len()) as int), sep)
        },
    }
}

/// There is always at least one piece, and more than one exactly when the
/// separator occurs.
pub proof fn lemma_split_on_len(s: Seq<char>, sep: Seq<char>)
    ensures
        split_on(s, sep).len() >= 1,
        split_on(s, sep).len() >= 2 <==> find_sep(s, sep) is Some,
    decreases s.len(),
{
    if let Some(i) = find_sep(s, sep) {
        lemma_find_sep_bound(s, sep);
        lemma_split_on_len(s.skip((i + sep.len()) as int), sep);
    }
}

/// A single-character separator is found exactly when the character occurs.
pub proof fn lemma_find_char(s: Seq<char>, c: char)
    ensures
        find_sep(s, seq![c]) is None <==> !s.contains(c),
    decreases s.len(),
{
    if s.len() >= 1 {
        lemma_find_char(s.drop_first(), c);
        if s.take(1) == seq![c] {
            assert(s[0] == seq![c][0]);
        } else {
            assert(s[0] != c) by {
                if s[0] == c {
                    assert(s.take(1) =~= seq![c]);
                }
            }
            assert(s.contains(c) <==> s.drop_first().contains(c)) by {
                if s.contains(c) {
                    let k = choose|k: int| 0 <= k < s.len() && s[k] == c;
                    assert(s.drop_first()[k - 1] == c);
                }
                if s.drop_first().contains(c) {
                    let k = choose|k: int| 0 <= k < s.len() - 1 && s.drop_first()[k] == c;
                    assert(s[k + 1] == c);
                }
            }
        }
    }
}

/// A single-character separator placed after `s1` is found at the end of `s1`
/// unless `s1` holds one itself.
proof fn lemma_find_char_concat(s1: Seq<char>, c: char, s2: Seq<char>)
    ensures
        find_sep(s1 + seq![c] + s2, seq![c]) == match find_sep(s1, seq![c]) {
            Some(i) => Some(i),
            None => Some(s1.len()),
        },
    decreases s1.len(),
{
    let s = s1 + seq![c] + s2;
    let sep = seq![c];
    if s1.len() == 0 {
        assert(s.take(1) =~= sep);
    } else {
        assert(s[0] == s1[0]);
        if s1.take(1) == sep {
            assert(s.take(1) =~= s1.take(1));
        } else {
            assert(s.take(1) != sep) by {
                assert(s1.take(1)[0] == s1[0]);
                if s.take(1) == sep {
                    assert(s1.take(1) =~= sep);
                }
            }
            assert(s.drop_first() =~= s1.drop_first() + seq![c] + s2);
            lemma_find_char_concat(s1.drop_first(), c, s2);
        }
    }
}

/// Splitting at a single-character separator placed between two texts gives
/// the pieces of the first followed by the pieces of the second.
pub proof fn lemma_split_char_concat(s1: Seq<char>, c: char, s2: Seq<char>)
    ensures
        split_on(s1 + seq![c] + s2, seq![c]) == split_on(s1, seq![c]) + split_on(s2, seq![c]),
    decreases s1.len(),
{
    let s = s1 + seq![c] + s2;
    let sep = seq![c];
    lemma_find_char_concat(s1, c, s2);
    match find_sep(s1, sep) {
        Some(i) => {
            lemma_find_sep_bound(s1, sep);
            let t1 = s1.skip((i + 1) as int);
            assert(s.take(i as int) =~= s1.take(i as int));
            assert(s.skip((i + 1) as int) =~= t1 + seq![c] + s2);
            lemma_split_char_concat(t1, c, s2);
            assert(split_on(s, sep) =~= split_on(s1, sep) + split_on(s2, sep));
        },
        None => {
            assert(s.take(s1.len() as int) =~= s1);
            assert(s.skip((s1.len() + 1) as int) =~= s2);
            assert(split_on(s, sep) =~= split_on(s1, sep) + split_on(s2, sep));
        },
    }
}

/// A separator is not found in a text that lacks its first character.
pub proof fn lemma_find_sep_absent(b: Seq<char>, sep: Seq<char>)
    requires
        sep.len() >= 1,
        forall|i: int| 0 <= i < b.len() ==> b[i] != sep[0],
    ensures
        find_sep(b, sep) is None,
        split_on(b, sep) == seq![b],
    decreases b.len(),
{
    if b.len() >= sep.len() {
        assert(b.take(sep.len() as int)[0] == b[0]);
        lemma_find_sep_absent(b.drop_first(), sep);
    }
}

/// A separator placed after a text that lacks its first character is found
/// right there: the text is the first piece.
pub proof fn lemma_split_after_plain(a: Seq<char>, sep: Seq<char>, b: Seq<char>)
    requires
        sep.len() >= 1,
        forall|i: int| 0 <= i < a.len() ==> a[i] != sep[0],
    ensures
        find_sep(a + sep + b, sep) == Some(a.len()),
        split_on(a + sep + b, sep) == seq![a] + split_on(b, sep),
    decreases a.len(),
{
    let s = a + sep + b;
    if a.len() == 0 {
        assert(s.take(sep.len() as int) =~= sep);
    } else {
        assert(s.take(sep.len() as int)[0] == a[0]);
        assert(s.drop_first() =~= a.drop_first() + sep + b);
        lemma_split_after_plain(a.drop_first(), sep, b);
    }
    assert(s.take(a.len() as int) =~= a);
    assert(s.skip((a.len() + sep.len()) as int) =~= b);
}

/// The character sequences held by a sequence of character vectors.
pub open spec fn char_vecs(v: Seq<Vec<char>>) -> Seq<Seq<char>> {
    v.map_values(|p: Vec<char>| p@)
}

/// Whether `sep` occurs in `s` at position `i`.
fn matches_at(s: &Vec<char>, i: usize, sep: &Vec<char>) -> (res: bool)
    requires
        i <= s.len(),
    ensures
        res == (sep.len() <= s.len() - i && s@.subrange(i as int, i + sep.len()) == sep@),
{
    let k = sep.len();
    if k > s.len() - i {
        return false;
    }
    for m in 0..k
        invariant
            k == sep.len() <= s.len() - i,
            forall|j: int| 0 <= j < m ==> s@[i + j] == sep@[j],
    {
        if s[i + m] != sep[m] {
            return false;
        }
    }
    assert(s@.subrange(i as int, i + k) =~= sep@);
    true
}

/// Splits `s` at every non-overlapping occurrence of `sep`, left to right.
pub fn split_on_chars(s: &Vec<char>, sep: &Vec<char>) -> (res: Vec<Vec<char>>)
    requires
        sep.len() > 0,
    ensures
        char_vecs(res@) == split_on(s@, sep@),
{
    let n = s.len();
    let k = sep.len();
    let mut pieces: Vec<Vec<char>> = Vec::new();
    let mut start: usize = 0;
    let mut i: usize = 0;
    assert(s@.skip(0) =~= s@);
    while k <= n - i
        invariant
            n == s.len(),
            k == sep.len() > 0,
            start <= i <= n,
            split_on(s@, sep@) == char_vecs(pieces@) + split_on(s@.skip(start as int), sep@),
            find_sep(s@.skip(start as int), sep@) == shift(
                find_sep(s@.skip(i as int), sep@),
                (i - start) as nat,
            ),
        decreases n - i,
    {
        assert(s@.skip(i as int).take(k as int) =~= s@.subrange(i as int, i + k));
        if matches_at(s, i, sep) {
            let piece = copy_range(s, start, i);
            let ghost old_pieces = char_vecs(pieces@);
            assert(find_sep(s@.skip(i as int), sep@) == Some(0nat));
            let ghost rest = s@.skip(start as int);
            assert(rest.take(i - start) =~= piece@);
            assert(rest.skip(i - start + k) =~= s@.skip(i + k));
            pieces.push(piece);
            assert(char_vecs(pieces@) =~= old_pieces.push(piece@));
            i = i + k;
            start = i;
        } else {
            assert(s@.skip(i as int).drop_first() =~= s@.skip(i + 1));
            i = i + 1;
        }
    }
    let last = copy_range(s, start, n);
    assert(s@.skip(start as int) =~= last@);
    let ghost old_pieces = char_vecs(pieces@);
    pieces.push(last);
    assert(char_vecs(pieces@) =~= old_pieces.push(last@));
    pieces
}

} // verus!

verus! {

// ---------------------------------------------------------------------------
// Whitespace-separated tokens
// ---------------------------------------------------------------------------
/// The number of characters before the first whitespace character of `s`.
pub open spec fn leading_run(s: Seq<char>) -> nat
    decreases s.len(),
{
    if s.len() == 0 || spec_is_whitespace(s[0]) {
        0
    } else {
        1 + leading_run(s.drop_first())
    }
}

/// The leading run is part of `s`, and is non-empty when `s` starts with a
/// non-whitespace character.
pub proof fn lemma_leading_run_bound(s: Seq<char>)
    ensures
        leading_run(s) <= s.len(),
        s.len() > 0 && !spec_is_whitespace(s[0]) ==> leading_run(s) >= 1,
        forall|m: int| 0 <= m < leading_run(s) ==> !spec_is_whitespace(#[trigger] s[m]),
    decreases s.len(),
{
    if s.len() > 0 && !spec_is_whitespace(s[0]) {
        lemma_leading_run_bound(s.drop_first());
        assert forall|m: int| 0 <= m < leading_run(s) implies !spec_is_whitespace(
            #[trigger] s[m],
        ) by {
            if m > 0 {
                assert(s[m] == s.drop_first()[m - 1]);
            }
        }
    }
}

/// A run of `r` non-whitespace characters ended by whitespace or by the end of
/// `s` is the leading run of `s`.
pub proof fn lemma_leading_run_exact(s: Seq<char>, r: nat)
    requires
        r <= s.len(),
        forall|m: int| 0 <= m < r ==> !spec_is_whitespace(#[trigger] s[m]),
        r == s.len() || spec_is_whitespace(s[r as int]),
    ensures
        leading_run(s) == r,
    decreases r,
{
    if r > 0 {
        let t = s.drop_first();
        assert forall|m: int| 0 <= m < r - 1 implies !spec_is_whitespace(#[trigger] t[m]) by {
            assert(t[m] == s[m + 1]);
        }
        if r < s.len() {
            assert(t[r - 1] == s[r as int]);
        }
        lemma_leading_run_exact(t, (r - 1) as nat);
    }
}

/// The maximal runs of non-whitespace characters of `s`, in order (what
/// `str::split_whitespace` yields).
pub open spec fn whitespace_tokens(s: Seq<char>) -> Seq<Seq<char>>
    decreases s.len(),
{
    if s.len() == 0 {
        seq![]
    } else if spec_is_whitespace(s[0]) {
        whitespace_tokens(s.drop_first())
    } else {
        proof {
            lemma_leading_run_bound(s);
        }
        seq![s.take(leading_run(s) as int)] + whitespace_tokens(s.skip(leading_run(s) as int))
    }
}

/// Splits `s` into its maximal runs of non-whitespace characters.
pub fn split_whitespace(s: &Vec<char>) -> (res: Vec<Vec<char>>)
    ensures
        char_vecs(res@) == whitespace_tokens(s@),
{
    let n = s.len();
    let mut tokens: Vec<Vec<char>> = Vec::new();
    let mut i: usize = 0;
    assert(s@.skip(0) =~= s@);
    while i < n
        invariant
            n == s.len(),
            i <= n,
            whitespace_tokens(s@) == char_vecs(tokens@) + whitespace_tokens(s@.skip(i as int)),
        decreases n - i,
    {
        let ghost rest = s@.skip(i as int);
        if is_whitespace(s[i]) {
            assert(rest.drop_first() =~= s@.skip(i + 1));
            i = i + 1;
        } else {
            let mut j = i + 1;
            while j < n && !is_whitespace(s[j])
                invariant
                    n == s.len(),
                    i < j <= n,
                    forall|m: int| i <= m < j ==> !spec_is_whitespace(#[trigger] s@[m]),
                decreases n - j,
            {
                j = j + 1;
            }
            proof {
                assert forall|m: int| 0 <= m < j - i implies !spec_is_whitespace(
                    #[trigger] rest[m],
                ) by {
                    assert(rest[m] == s@[i + m]);
                }
                if j < n {
                    assert(rest[j - i] == s@[j as int]);
                }
                lemma_leading_run_exact(rest, (j - i) as nat);
            }
            let token = copy_range(s, i, j);
            assert(rest.take(j - i) =~= token@);
            assert(rest.skip(j - i) =~= s@.skip(j as int));
            let ghost old_tokens = char_vecs(tokens@);
            tokens.push(token);
            assert(char_vecs(tokens@) =~= old_tokens.push(token@));
            i = j;
        }
    }
    assert(s@.skip(n as int) =~= Seq::<char>::empty());
    assert(char_vecs(tokens@) + whitespace_tokens(Seq::<char>::empty()) =~= char_vecs(tokens@));
    tokens
}

// ---------------------------------------------------------------------------
// Trimming whitespace
// ---------------------------------------------------------------------------
/// `s` without its leading whitespace.
pub open spec fn trim_start(s: Seq<char>) -> Seq<char>
    decreases s.len(),
{
    if s.len() > 0 && spec_is_whitespace(s[0]) {
        trim_start(s.drop_first())
    } else {
        s
    }
}

/// `s` without its trailing whitespace.
pub open spec fn trim_end(s: Seq<char>) -> Seq<char>
    decreases s.len(),
{
    if s.len() > 0 && spec_is_whitespace(s.last()) {
        trim_end(s.drop_last())
    } else {
        s
    }
}

/// `s` without leading and trailing whitespace (what `str::trim` yields).
pub open spec fn trim(s: Seq<char>) -> Seq<char> {
    trim_end(trim_start(s))
}

proof fn lemma_trim_start_exact(s: Seq<char>, a: nat)
    requires
        a <= s.len(),
        forall|m: int| 0 <= m < a ==> spec_is_whitespace(#[trigger] s[m]),
        a == s.len() || !spec_is_whitespace(s[a as int]),
    ensures
        trim_start(s) == s.skip(a as int),
    decreases a,
{
    if a == 0 {
        assert(s.skip(0) =~= s);
    } else {
        let t = s.drop_first();
        assert forall|m: int| 0 <= m < a - 1 implies spec_is_whitespace(#[trigger] t[m]) by {
            assert(t[m] == s[m + 1]);
        }
        if a < s.len() {
            assert(t[a - 1] == s[a as int]);
        }
        lemma_trim_start_exact(t, (a - 1) as nat);
        assert(t.skip(a - 1) =~= s.skip(a as int));
    }
}

proof fn lemma_trim_end_exact(s: Seq<char>, b: nat)
    requires
        b <= s.len(),
        forall|m: int| b <= m < s.len() ==> spec_is_whitespace(#[trigger] s[m]),
        b == 0 || !spec_is_whitespace(s[b - 1]),
    ensures
        trim_end(s) == s.take(b as int),
    decreases s.len() - b,
{
    if b == s.len() {
        assert(s.take(b as int) =~= s);
    } else {
        let t = s.drop_last();
        assert(spec_is_whitespace(s[s.len() - 1]));
        assert forall|m: int| b <= m < t.len() implies spec_is_whitespace(#[trigger] t[m]) by {
            assert(t[m] == s[m]);
        }
        if b > 0 {
            assert(t[b - 1] == s[b - 1]);
        }
        lemma_trim_end_exact(t, b);
        assert(t.take(b as int) =~= s.take(b as int));
    }
}

/// The characters of `s` without leading and trailing whitespace.
pub fn trim_chars(s: &Vec<char>) -> (res: Vec<char>)
    ensures
        res@ == trim(s@),
{
    let n = s.len();
    let mut a: usize = 0;
    while a < n && is_whitespace(s[a])
        invariant
            n == s.len(),
            a <= n,
            forall|m: int| 0 <= m < a ==> spec_is_whitespace(#[trigger] s@[m]),
        decreases n - a,
    {
        a = a + 1;
    }
    let mut b: usize = n;
    while b > a && is_whitespace(s[b - 1])
        invariant
            n == s.len(),
            a <= b <= n,
            forall|m: int| b <= m < n ==> spec_is_whitespace(#[trigger] s@[m]),
        decreases b - a,
    {
        b = b - 1;
    }
    proof {
        lemma_trim_start_exact(s@, a as nat);
        let t = s@.skip(a as int);
        assert forall|m: int| b - a <= m < t.len() implies spec_is_whitespace(
            #[trigger] t[m],
        ) by {
            assert(t[m] == s@[a + m]);
        }
        if b > a {
            assert(t[b - a - 1] == s@[b - 1]);
        }
        lemma_trim_end_exact(t, (b - a) as nat);
        assert(t.take(b - a) =~= s@.subrange(a as int, b as int));
    }
    copy_range(s, a, b)
}

/// Where the leading whitespace of `s` ends: `trim_start` drops exactly the
/// whitespace before the returned position.
proof fn lemma_trim_start_shape(s: Seq<char>) -> (a: int)
    ensures
        0 <= a <= s.len(),
        trim_start(s) == s.skip(a),
        forall|m: int| 0 <= m < a ==> spec_is_whitespace(#[trigger] s[m]),
        a == s.len() || !spec_is_whitespace(s[a]),
    decreases s.len(),
{
    if s.len() > 0 && spec_is_whitespace(s[0]) {
        let t = s.drop_first();
        let a1 = lemma_trim_start_shape(t);
        assert(t.skip(a1) =~= s.skip(a1 + 1));
        assert forall|m: int| 0 <= m < a1 + 1 implies spec_is_whitespace(#[trigger] s[m]) by {
            if m > 0 {
                assert(s[m] == t[m - 1]);
            }
        }
        if a1 < t.len() {
            assert(s[a1 + 1] == t[a1]);
        }
        a1 + 1
    } else {
        assert(s.skip(0) =~= s);
        0
    }
}

/// Where the trailing whitespace of `s` starts: `trim_end` drops exactly the
/// whitespace from the returned position on.
proof fn lemma_trim_end_shape(s: Seq<char>) -> (b: int)
    ensures
        0 <= b <= s.len(),
        trim_end(s) == s.take(b),
        forall|m: int| b <= m < s.len() ==> spec_is_whitespace(#[trigger] s[m]),
        b == 0 || !spec_is_whitespace(s[b - 1]),
    decreases s.len(),
{
    if s.len() > 0 && spec_is_whitespace(s.last()) {
        let t = s.drop_last();
        let b1 = lemma_trim_end_shape(t);
        assert(t.take(b1) =~= s.take(b1));
        assert forall|m: int| b1 <= m < s.len() implies spec_is_whitespace(#[trigger] s[m]) by {
            if m < t.len() {
                assert(s[m] == t[m]);
            }
        }
        if b1 > 0 {
            assert(s[b1 - 1] == t[b1 - 1]);
        }
        b1
    } else {
        assert(s.take(s.len() as int) =~= s);
        s.len() as int
    }
}

/// Trimming removes exactly the whitespace at both ends of a text: the result
/// is a contiguous piece `s[i..j]` of `s`, everything before `i` and from `j`
/// on is whitespace, and the result is empty or neither starts nor ends with
/// whitespace.
pub proof fn lemma_trim_removes_outer_whitespace(s: Seq<char>)
    ensures
        exists|i: int, j: int|
            #![trigger s.subrange(i, j)]
            0 <= i <= j <= s.len() && trim(s) == s.subrange(i, j) && (forall|m: int|
                0 <= m < i ==> spec_is_whitespace(#[trigger] s[m])) && (forall|m: int|
                j <= m < s.len() ==> spec_is_whitespace(#[trigger] s[m])),
        trim(s).len() == 0 || (!spec_is_whitespace(trim(s)[0]) && !spec_is_whitespace(
            trim(s).last(),
        )),
{
    let a = lemma_trim_start_shape(s);
    let t = s.skip(a);
    let b = lemma_trim_end_shape(t);
    assert(t.take(b) =~= s.subrange(a, a + b));
    assert forall|m: int| a + b <= m < s.len() implies spec_is_whitespace(#[trigger] s[m]) by {
        assert(s[m] == t[m - a]);
    }
    if b > 0 {
        assert(trim(s)[0] == s[a]);
        assert(trim(s).last() == t[b - 1]);
    }
    assert(0 <= a <= a + b <= s.len() && trim(s) == s.subrange(a, a + b));
}

} // verus!
