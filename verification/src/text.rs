//! Character-level helpers shared by the parsers and the renderer:
//! Unicode whitespace, trimming, decimal digits and string building.

use vstd::prelude::*;

verus! {

/// `String::push` appends one character.
pub assume_specification[ String::push ](s: &mut String, ch: char)
    ensures
        final(s)@ == old(s)@.push(ch),
;

/// Unicode `White_Space`, the property behind `char::is_whitespace`.
pub open spec fn is_ws(c: char) -> bool {
    let u = c as u32;
    ||| 0x09 <= u <= 0x0D
    ||| u == 0x20
    ||| u == 0x85
    ||| u == 0xA0
    ||| u == 0x1680
    ||| 0x2000 <= u <= 0x200A
    ||| u == 0x2028
    ||| u == 0x2029
    ||| u == 0x202F
    ||| u == 0x205F
    ||| u == 0x3000
}

/// Whether `c` is whitespace, as `char::is_whitespace` decides it.
pub fn is_whitespace(c: char) -> (r: bool)
    ensures
        r == is_ws(c),
{
    let u = c as u32;
    (0x09 <= u && u <= 0x0D) || u == 0x20 || u == 0x85 || u == 0xA0 || u == 0x1680 || (0x2000
        <= u && u <= 0x200A) || u == 0x2028 || u == 0x2029 || u == 0x202F || u == 0x205F || u
        == 0x3000
}

/// `s` without its leading whitespace.
pub open spec fn trim_start(s: Seq<char>) -> Seq<char>
    decreases s.len(),
{
    if s.len() > 0 && is_ws(s[0]) {
        trim_start(s.drop_first())
    } else {
        s
    }
}

/// `s` without its trailing whitespace.
pub open spec fn trim_end(s: Seq<char>) -> Seq<char>
    decreases s.len(),
{
    if s.len() > 0 && is_ws(s.last()) {
        trim_end(s.drop_last())
    } else {
        s
    }
}

/// `s` without leading and trailing whitespace (`str::trim`).
pub open spec fn trim(s: Seq<char>) -> Seq<char> {
    trim_end(trim_start(s))
}

/// Every character of `s` is whitespace.
pub open spec fn all_ws(s: Seq<char>) -> bool {
    forall|i: int| 0 <= i < s.len() ==> #[trigger] is_ws(s[i])
}

/// Skipping a whitespace prefix that ends at a non-whitespace character
/// (or at the end) is what `trim_start` does.
pub proof fn lemma_trim_start_at(s: Seq<char>, k: int)
    requires
        0 <= k <= s.len(),
        all_ws(s.take(k)),
        k == s.len() || !is_ws(s[k]),
    ensures
        trim_start(s) == s.skip(k),
    decreases k,
{
    if k == 0 {
        assert(s.skip(0) =~= s);
    } else {
        assert(is_ws(s.take(k)[0]));
        let t = s.drop_first();
        assert forall|i: int| 0 <= i < k - 1 implies #[trigger] is_ws(t.take(k - 1)[i]) by {
            assert(t.take(k - 1)[i] == s.take(k)[i + 1]);
        }
        lemma_trim_start_at(t, k - 1);
        assert(t.skip(k - 1) =~= s.skip(k));
    }
}

/// Dropping a whitespace suffix that starts after a non-whitespace
/// character (or at the start) is what `trim_end` does.
pub proof fn lemma_trim_end_at(s: Seq<char>, k: int)
    requires
        0 <= k <= s.len(),
        all_ws(s.skip(k)),
        k == 0 || !is_ws(s[k - 1]),
    ensures
        trim_end(s) == s.take(k),
    decreases s.len() - k,
{
    if k == s.len() {
        assert(s.take(k) =~= s);
    } else {
        assert(is_ws(s.skip(k)[s.len() - k - 1]));
        let t = s.drop_last();
        assert forall|i: int| 0 <= i < t.len() - k implies #[trigger] is_ws(t.skip(k)[i]) by {
            assert(t.skip(k)[i] == s.skip(k)[i]);
        }
        lemma_trim_end_at(t, k);
        assert(t.take(k) =~= s.take(k));
    }
}

/// The bounds `(a, b)` of `trim(v[lo..hi])` inside `v`.
pub fn trim_bounds(v: &Vec<char>, lo: usize, hi: usize) -> (r: (usize, usize))
    requires
        lo <= hi <= v@.len(),
    ensures
        lo <= r.0 <= r.1 <= hi,
        v@.subrange(r.0 as int, r.1 as int) == trim(v@.subrange(lo as int, hi as int)),
{
    let ghost s = v@.subrange(lo as int, hi as int);
    let mut a = lo;
    while a < hi && is_whitespace(v[a])
        invariant
            lo <= a <= hi <= v@.len(),
            s == v@.subrange(lo as int, hi as int),
            forall|i: int| lo <= i < a ==> is_ws(#[trigger] v@[i]),
        decreases hi - a,
    {
        a = a + 1;
    }
    proof {
        assert forall|i: int| 0 <= i < a - lo implies #[trigger] is_ws(s.take(a - lo)[i]) by {
            assert(s.take(a - lo)[i] == v@[lo + i]);
        }
        lemma_trim_start_at(s, a - lo);
        assert(s.skip(a - lo) =~= v@.subrange(a as int, hi as int));
    }
    let ghost t = v@.subrange(a as int, hi as int);
    let mut b = hi;
    while b > a && is_whitespace(v[b - 1])
        invariant
            lo <= a <= b <= hi <= v@.len(),
            t == v@.subrange(a as int, hi as int),
            forall|i: int| b <= i < hi ==> is_ws(#[trigger] v@[i]),
        decreases b - a,
    {
        b = b - 1;
    }
    proof {
        assert forall|i: int| 0 <= i < t.len() - (b - a) implies #[trigger] is_ws(
            t.skip(b - a)[i],
        ) by {
            assert(t.skip(b - a)[i] == v@[b + i]);
        }
        lemma_trim_end_at(t, b - a);
        assert(t.take(b - a) =~= v@.subrange(a as int, b as int));
    }
    (a, b)
}

/// The characters of a string slice, in order.
pub fn chars_of(s: &str) -> (r: Vec<char>)
    ensures
        r@ == s@,
{
    let mut r: Vec<char> = Vec::new();
    for c in it: s.chars()
        invariant
            r@ == it.seq().take(it.index()),
    {
        r.push(c);
    }
    assert(r@ =~= s@);
    r
}

/// Appends `v[lo..hi]` to `s`.
pub fn push_range(s: &mut String, v: &Vec<char>, lo: usize, hi: usize)
    requires
        lo <= hi <= v@.len(),
    ensures
        final(s)@ == old(s)@ + v@.subrange(lo as int, hi as int),
{
    let mut i = lo;
    while i < hi
        invariant
            lo <= i <= hi <= v@.len(),
            s@ == old(s)@ + v@.subrange(lo as int, i as int),
        decreases hi - i,
    {
        s.push(v[i]);
        i = i + 1;
        assert(v@.subrange(lo as int, i as int) =~= v@.subrange(lo as int, i - 1).push(v@[i - 1]));
    }
}

/// A string holding `v[lo..hi]`.
pub fn string_of_range(v: &Vec<char>, lo: usize, hi: usize) -> (r: String)
    requires
        lo <= hi <= v@.len(),
    ensures
        r@ == v@.subrange(lo as int, hi as int),
{
    let mut s = String::new();
    push_range(&mut s, v, lo, hi);
    assert(s@ =~= v@.subrange(lo as int, hi as int));
    s
}

/// A string holding the characters of `v`.
pub fn string_of(v: &Vec<char>) -> (r: String)
    ensures
        r@ == v@,
{
    let r = string_of_range(v, 0, v.len());
    assert(v@.subrange(0, v@.len() as int) =~= v@);
    r
}

/// Appends every character of `t` to `s`.
pub fn push_str(s: &mut String, t: &str)
    ensures
        final(s)@ == old(s)@ + t@,
{
    let v = chars_of(t);
    push_range(s, &v, 0, v.len());
    assert(v@.subrange(0, v@.len() as int) =~= t@);
}

/// The decimal digit character for `d < 10`.
pub open spec fn digit_char(d: nat) -> char {
    if d == 0 {
        '0'
    } else if d == 1 {
        '1'
    } else if d == 2 {
        '2'
    } else if d == 3 {
        '3'
    } else if d == 4 {
        '4'
    } else if d == 5 {
        '5'
    } else if d == 6 {
        '6'
    } else if d == 7 {
        '7'
    } else if d == 8 {
        '8'
    } else {
        '9'
    }
}

/// The decimal representation of `n`, without leading zeros.
pub open spec fn decimal(n: nat) -> Seq<char>
    decreases n,
{
    if n < 10 {
        seq![digit_char(n)]
    } else {
        decimal(n / 10).push(digit_char(n % 10))
    }
}

fn digit(d: u64) -> (c: char)
    requires
        d < 10,
    ensures
        c == digit_char(d as nat),
{
    match d {
        0 => '0',
        1 => '1',
        2 => '2',
        3 => '3',
        4 => '4',
        5 => '5',
        6 => '6',
        7 => '7',
        8 => '8',
        _ => '9',
    }
}

/// Appends the decimal representation of `n` to `s`.
pub fn push_decimal(s: &mut String, n: u64)
    ensures
        final(s)@ == old(s)@ + decimal(n as nat),
    decreases n,
{
    if n >= 10 {
        push_decimal(s, n / 10);
    }
    s.push(digit(n % 10));
}


/// Position of the first `c` in `s`, or `s.len()` when there is none.
pub open spec fn index_of(s: Seq<char>, c: char) -> int
    decreases s.len(),
{
    if s.len() == 0 {
        0
    } else if s[0] == c {
        0
    } else {
        1 + index_of(s.drop_first(), c)
    }
}

/// `index_of` is the first position holding `c`.
pub proof fn lemma_index_of_at(s: Seq<char>, c: char, k: int)
    requires
        0 <= k <= s.len(),
        forall|i: int| 0 <= i < k ==> s[i] != c,
        k == s.len() || s[k] == c,
    ensures
        index_of(s, c) == k,
    decreases k,
{
    if k > 0 {
        let t = s.drop_first();
        assert forall|i: int| 0 <= i < k - 1 implies t[i] != c by {
            assert(t[i] == s[i + 1]);
        }
        lemma_index_of_at(t, c, k - 1);
    }
}

/// `index_of` stays within `0..=s.len()`, and what precedes it is not `c`.
pub proof fn lemma_index_of_bounds(s: Seq<char>, c: char)
    ensures
        0 <= index_of(s, c) <= s.len(),
        forall|i: int| 0 <= i < index_of(s, c) ==> s[i] != c,
        index_of(s, c) < s.len() ==> s[index_of(s, c)] == c,
    decreases s.len(),
{
    if s.len() > 0 && s[0] != c {
        lemma_index_of_bounds(s.drop_first(), c);
        assert forall|i: int| 0 <= i < index_of(s, c) implies s[i] != c by {
            if i > 0 {
                assert(s[i] == s.drop_first()[i - 1]);
            }
        }
    }
}

/// The absolute position of the first `c` in `v[lo..hi]`, or `hi`.
pub fn find_char(v: &Vec<char>, lo: usize, hi: usize, c: char) -> (r: usize)
    requires
        lo <= hi <= v@.len(),
    ensures
        lo <= r <= hi,
        r - lo == index_of(v@.subrange(lo as int, hi as int), c),
{
    let mut i = lo;
    while i < hi && v[i] != c
        invariant
            lo <= i <= hi <= v@.len(),
            forall|j: int| lo <= j < i ==> v@[j] != c,
        decreases hi - i,
    {
        i = i + 1;
    }
    proof {
        let s = v@.subrange(lo as int, hi as int);
        assert forall|j: int| 0 <= j < i - lo implies s[j] != c by {
            assert(s[j] == v@[lo + j]);
        }
        lemma_index_of_at(s, c, i - lo);
    }
    i
}


/// The ASCII uppercase of `c` (`char::to_ascii_uppercase`).
pub open spec fn ascii_upper(c: char) -> char {
    if 'a' <= c <= 'z' {
        ((c as u32) - 32) as char
    } else {
        c
    }
}

/// Every character of `s` is ASCII.
pub open spec fn is_ascii_seq(s: Seq<char>) -> bool {
    forall|i: int| 0 <= i < s.len() ==> (#[trigger] s[i] as u32) < 0x80
}

/// What `char::to_uppercase` yields for `c`.
pub uninterp spec fn upper_of(c: char) -> Seq<char>;

/// `char::to_uppercase`: the uppercase mapping of `c`. The standard
/// library documents it as one or more characters, and its source maps
/// through a table of at most three characters per character, with
/// `to_ascii_uppercase` for ASCII characters. The full Unicode table is not
/// stated; the result is named `upper_of(c)`.
#[verifier::external_body]
fn char_to_uppercase(c: char) -> (r: Vec<char>)
    ensures
        r@ == upper_of(c),
        1 <= r@.len() <= 3,
        (c as u32) < 0x80 ==> r@ == seq![ascii_upper(c)],
{
    c.to_uppercase().collect()
}

/// The uppercase of a character sequence: `str::to_uppercase` maps every
/// character by `char::to_uppercase`, with no context rules.
pub open spec fn upper_seq(s: Seq<char>) -> Seq<char>
    decreases s.len(),
{
    if s.len() == 0 {
        s
    } else {
        upper_seq(s.drop_last()) + upper_of(s.last())
    }
}

/// For ASCII text whose characters' uppercase is known to be their ASCII
/// uppercase, the uppercase of a prefix is the prefix of the uppercase.
pub proof fn lemma_upper_ascii_take(s: Seq<char>, j: int)
    requires
        0 <= j <= s.len(),
        forall|k: int| 0 <= k < s.len() ==> #[trigger] upper_of(s[k]) == seq![ascii_upper(s[k])],
    ensures
        upper_seq(s.take(j)) == s.take(j).map_values(|c: char| ascii_upper(c)),
    decreases j,
{
    if j > 0 {
        lemma_upper_ascii_take(s, j - 1);
        assert(s.take(j).drop_last() =~= s.take(j - 1));
        assert(upper_of(s[j - 1]) == seq![ascii_upper(s[j - 1])]);
        assert(s.take(j).map_values(|c: char| ascii_upper(c)) =~= s.take(j - 1).map_values(
            |c: char| ascii_upper(c),
        ).push(ascii_upper(s[j - 1])));
    } else {
        assert(s.take(0) =~= Seq::<char>::empty());
        assert(s.take(0).map_values(|c: char| ascii_upper(c)) =~= Seq::<char>::empty());
    }
}

/// The uppercase of `s`, as characters.
pub fn upper_chars(s: &str) -> (r: Vec<char>)
    ensures
        r@ == upper_seq(s@),
        r@.len() <= 3 * s@.len(),
        is_ascii_seq(s@) ==> r@ == s@.map_values(|c: char| ascii_upper(c)),
        forall|k: int| 0 <= k < s@.len() && (s@[k] as u32) < 0x80 ==> #[trigger] upper_of(s@[k])
            == seq![ascii_upper(s@[k])],
{
    let v = chars_of(s);
    let mut r: Vec<char> = Vec::new();
    let mut i: usize = 0;
    while i < v.len()
        invariant
            i <= v@.len(),
            v@ == s@,
            r@ == upper_seq(v@.take(i as int)),
            r@.len() <= 3 * i,
            is_ascii_seq(v@) ==> r@ == v@.take(i as int).map_values(|c: char| ascii_upper(c)),
            forall|k: int| 0 <= k < i && (v@[k] as u32) < 0x80 ==> #[trigger] upper_of(v@[k])
                == seq![ascii_upper(v@[k])],
        decreases v@.len() - i,
    {
        let u = char_to_uppercase(v[i]);
        let mut j: usize = 0;
        let ghost r0 = r@;
        while j < u.len()
            invariant
                j <= u@.len() <= 3,
                r@ == r0 + u@.take(j as int),
            decreases u@.len() - j,
        {
            r.push(u[j]);
            j = j + 1;
            assert(u@.take(j as int) =~= u@.take(j - 1).push(u@[j - 1]));
        }
        assert(v@.take(i + 1).drop_last() =~= v@.take(i as int));
        assert(u@.take(u@.len() as int) =~= u@);
        proof {
            if is_ascii_seq(v@) {
                assert((v@[i as int] as u32) < 0x80);
                assert(v@.take(i + 1).map_values(|c: char| ascii_upper(c)) =~= v@.take(
                    i as int,
                ).map_values(|c: char| ascii_upper(c)).push(ascii_upper(v@[i as int])));
            }
        }
        i = i + 1;
    }
    assert(v@.take(v@.len() as int) =~= v@);
    r
}


/// End of the run of non-whitespace characters of `s` starting at `i`.
pub open spec fn word_end(s: Seq<char>, i: int) -> int
    decreases s.len() - i,
{
    if i < 0 || i >= s.len() || is_ws(s[i]) {
        i
    } else {
        word_end(s, i + 1)
    }
}

/// `word_end` lies between `i` and the end, and passes only non-whitespace.
pub proof fn lemma_word_end(s: Seq<char>, i: int)
    requires
        0 <= i <= s.len(),
    ensures
        i <= word_end(s, i) <= s.len(),
        forall|k: int| i <= k < word_end(s, i) ==> !is_ws(#[trigger] s[k]),
        word_end(s, i) == s.len() || is_ws(s[word_end(s, i)]),
    decreases s.len() - i,
{
    if i < s.len() && !is_ws(s[i]) {
        lemma_word_end(s, i + 1);
    }
}

/// `word_end` is the first whitespace position at or after `i`.
pub proof fn lemma_word_end_at(s: Seq<char>, i: int, e: int)
    requires
        0 <= i <= e <= s.len(),
        forall|k: int| i <= k < e ==> !is_ws(#[trigger] s[k]),
        e == s.len() || is_ws(s[e]),
    ensures
        word_end(s, i) == e,
    decreases e - i,
{
    if i < e {
        lemma_word_end_at(s, i + 1, e);
    }
}

/// The words of `s` from position `i` on, as `(start, end)` positions:
/// the maximal runs of non-whitespace characters (`str::split_whitespace`).
pub open spec fn spans_from(s: Seq<char>, i: int) -> Seq<(int, int)>
    decreases s.len() - i,
{
    if i < 0 || i >= s.len() {
        Seq::empty()
    } else if is_ws(s[i]) {
        spans_from(s, i + 1)
    } else {
        proof {
            lemma_word_end(s, i);
        }
        seq![(i, word_end(s, i))] + spans_from(s, word_end(s, i))
    }
}

/// The word positions of `s`.
pub open spec fn spans(s: Seq<char>) -> Seq<(int, int)> {
    spans_from(s, 0)
}

/// The words of `s`, in order.
pub open spec fn words(s: Seq<char>) -> Seq<Seq<char>> {
    spans(s).map_values(|p: (int, int)| s.subrange(p.0, p.1))
}

/// Words from `i` on start after whitespace (or at the start), and every
/// non-whitespace character from `i` on lies in one of them.
proof fn lemma_runs_from(s: Seq<char>, i: int)
    requires
        0 <= i <= s.len(),
        i == 0 || is_ws(s[i - 1]),
    ensures
        forall|k: int| 0 <= k < spans_from(s, i).len() ==> {
            let p = #[trigger] spans_from(s, i)[k];
            p.0 == 0 || is_ws(s[p.0 - 1])
        },
        forall|j: int|
            i <= j < s.len() && !is_ws(#[trigger] s[j]) ==> exists|k: int|
                0 <= k < spans_from(s, i).len() && (#[trigger] spans_from(s, i)[k]).0 <= j < spans_from(
                    s,
                    i,
                )[k].1,
    decreases s.len() - i,
{
    if i < s.len() {
        if is_ws(s[i]) {
            lemma_runs_from(s, i + 1);
            assert(spans_from(s, i) == spans_from(s, i + 1));
        } else {
            let e = word_end(s, i);
            lemma_word_end(s, i);
            let r = spans_from(s, e);
            assert(spans_from(s, i) == seq![(i, e)] + r);
            if e < s.len() {
                assert(spans_from(s, e) == spans_from(s, e + 1));
                lemma_runs_from(s, e + 1);
            }
            assert forall|k: int| 0 <= k < spans_from(s, i).len() implies {
                let p = #[trigger] spans_from(s, i)[k];
                p.0 == 0 || is_ws(s[p.0 - 1])
            } by {
                if k > 0 {
                    assert(spans_from(s, i)[k] == r[k - 1]);
                }
            }
            assert forall|j: int| i <= j < s.len() && !is_ws(#[trigger] s[j]) implies exists|k: int|
                0 <= k < spans_from(s, i).len() && (#[trigger] spans_from(s, i)[k]).0 <= j < spans_from(
                    s,
                    i,
                )[k].1 by {
                if j < e {
                    assert(spans_from(s, i)[0] == (i, e));
                } else {
                    assert(j != e);
                    let k2 = choose|k: int|
                        0 <= k < r.len() && (#[trigger] r[k]).0 <= j < r[k].1;
                    assert(spans_from(s, i)[k2 + 1] == r[k2]);
                }
            }
        }
    }
}

/// The words are exactly the maximal runs of non-whitespace characters
/// (`str::split_whitespace`): each is a non-empty run with whitespace (or
/// the text's edge) on both sides, and every non-whitespace character lies
/// in one of them.
pub proof fn lemma_words_are_runs(s: Seq<char>)
    ensures
        forall|k: int| 0 <= k < spans(s).len() ==> {
            let p = #[trigger] spans(s)[k];
            &&& 0 <= p.0 < p.1 <= s.len()
            &&& p.0 == 0 || is_ws(s[p.0 - 1])
            &&& p.1 == s.len() || is_ws(s[p.1])
            &&& forall|j: int| p.0 <= j < p.1 ==> !is_ws(#[trigger] s[j])
        },
        forall|j: int|
            0 <= j < s.len() && !is_ws(#[trigger] s[j]) ==> exists|k: int|
                0 <= k < spans(s).len() && (#[trigger] spans(s)[k]).0 <= j < spans(s)[k].1,
{
    lemma_spans_from(s, 0);
    lemma_runs_from(s, 0);
    assert forall|k: int| 0 <= k < spans(s).len() implies {
        let p = #[trigger] spans(s)[k];
        &&& 0 <= p.0 < p.1 <= s.len()
        &&& p.0 == 0 || is_ws(s[p.0 - 1])
        &&& p.1 == s.len() || is_ws(s[p.1])
        &&& forall|j: int| p.0 <= j < p.1 ==> !is_ws(#[trigger] s[j])
    } by {
        let p = spans(s)[k];
        lemma_word_end(s, p.0);
    }
    assert forall|j: int| 0 <= j < s.len() && !is_ws(#[trigger] s[j]) implies exists|k: int|
        0 <= k < spans(s).len() && (#[trigger] spans(s)[k]).0 <= j < spans(s)[k].1 by {
        let sf = spans_from(s, 0);
        let k = choose|k: int| 0 <= k < sf.len() && (#[trigger] sf[k]).0 <= j < sf[k].1;
        assert(spans(s)[k] == sf[k]);
    }
}

/// Word positions are ordered, non-empty, at least one character apart,
/// and cover non-whitespace runs that end at whitespace or at the end.
pub proof fn lemma_spans_from(s: Seq<char>, i: int)
    requires
        0 <= i <= s.len(),
    ensures
        forall|k: int| 0 <= k < spans_from(s, i).len() ==> {
            let p = #[trigger] spans_from(s, i)[k];
            &&& i <= p.0 < p.1 <= s.len()
            &&& word_end(s, p.0) == p.1
            &&& !is_ws(s[p.0])
        },
        forall|k: int| 0 <= k < spans_from(s, i).len() - 1 ==> #[trigger] spans_from(s, i)[k].1
            < spans_from(s, i)[k + 1].0,
    decreases s.len() - i,
{
    if i < s.len() {
        if is_ws(s[i]) {
            lemma_spans_from(s, i + 1);
            assert(spans_from(s, i) == spans_from(s, i + 1));
        } else {
            let e = word_end(s, i);
            lemma_word_end(s, i);
            lemma_spans_from(s, e);
            let r = spans_from(s, e);
            assert(spans_from(s, i) == seq![(i, e)] + r);
            assert forall|k: int| 0 <= k < spans_from(s, i).len() implies {
                let p = #[trigger] spans_from(s, i)[k];
                &&& i <= p.0 < p.1 <= s.len()
                &&& word_end(s, p.0) == p.1
                &&& !is_ws(s[p.0])
            } by {
                if k > 0 {
                    assert(spans_from(s, i)[k] == r[k - 1]);
                }
            }
            assert forall|k: int| 0 <= k < spans_from(s, i).len() - 1 implies #[trigger] spans_from(
                s,
                i,
            )[k].1 < spans_from(s, i)[k + 1].0 by {
                if k == 0 {
                    assert(spans_from(s, i)[1] == r[0]);
                    assert(r[0].0 >= e);
                    assert(e < s.len() && is_ws(s[e]));
                    assert(r[0].0 != e);
                } else {
                    assert(spans_from(s, i)[k] == r[k - 1]);
                    assert(spans_from(s, i)[k + 1] == r[k]);
                }
            }
        }
    }
}

/// The word positions of `v`, computed by walking it once.
pub fn word_spans(v: &Vec<char>) -> (r: Vec<(usize, usize)>)
    ensures
        r@.len() == spans(v@).len(),
        forall|k: int| 0 <= k < r@.len() ==> (#[trigger] r@[k].0 as int, r@[k].1 as int)
            == spans(v@)[k],
{
    let n = v.len();
    let mut out: Vec<(usize, usize)> = Vec::new();
    let ghost mut done: Seq<(int, int)> = Seq::empty();
    let mut i: usize = 0;
    while i < n
        invariant
            i <= n == v@.len(),
            spans(v@) == done + spans_from(v@, i as int),
            out@.len() == done.len(),
            forall|k: int| 0 <= k < out@.len() ==> (#[trigger] out@[k].0 as int, out@[k].1 as int)
                == done[k],
        decreases n - i,
    {
        if is_whitespace(v[i]) {
            i = i + 1;
        } else {
            let mut e = i + 1;
            while e < n && !is_whitespace(v[e])
                invariant
                    i < e <= n == v@.len(),
                    forall|k: int| i <= k < e ==> !is_ws(#[trigger] v@[k]),
                decreases n - e,
            {
                e = e + 1;
            }
            proof {
                lemma_word_end_at(v@, i as int, e as int);
                assert(spans_from(v@, i as int) == seq![(i as int, e as int)] + spans_from(
                    v@,
                    e as int,
                ));
                done = done.push((i as int, e as int));
                assert(spans(v@) =~= done + spans_from(v@, e as int));
            }
            out.push((i, e));
            i = e;
        }
    }
    assert(spans_from(v@, n as int) =~= Seq::<(int, int)>::empty());
    assert(spans(v@) =~= done);
    out
}


/// Number of UTF-8 bytes of `s`.
pub open spec fn utf8_len(s: Seq<char>) -> nat {
    vstd::utf8::encode_utf8(s).len()
}

/// UTF-8 encoding distributes over concatenation.
pub proof fn lemma_encode_utf8_concat(a: Seq<char>, b: Seq<char>)
    ensures
        vstd::utf8::encode_utf8(a + b) == vstd::utf8::encode_utf8(a) + vstd::utf8::encode_utf8(
            b,
        ),
    decreases a.len(),
{
    if a.len() == 0 {
        assert(a + b =~= b);
        assert(vstd::utf8::encode_utf8(a) =~= Seq::<u8>::empty());
        assert(vstd::utf8::encode_utf8(a + b) =~= vstd::utf8::encode_utf8(a)
            + vstd::utf8::encode_utf8(b));
    } else {
        assert((a + b).drop_first() =~= a.drop_first() + b);
        lemma_encode_utf8_concat(a.drop_first(), b);
        assert(vstd::utf8::encode_utf8(a + b) =~= vstd::utf8::encode_utf8(a)
            + vstd::utf8::encode_utf8(b));
    }
}

/// Bytes of a prefix one character longer.
pub proof fn lemma_utf8_len_take(s: Seq<char>, k: int)
    requires
        0 <= k < s.len(),
    ensures
        utf8_len(s.take(k + 1)) == utf8_len(s.take(k)) + vstd::utf8::encode_scalar(
            s[k] as u32,
        ).len(),
        utf8_len(s.take(k + 1)) <= utf8_len(s),
{
    assert(s.take(k + 1) =~= s.take(k) + seq![s[k]]);
    lemma_encode_utf8_concat(s.take(k), seq![s[k]]);
    assert(seq![s[k]].drop_first() =~= Seq::<char>::empty());
    assert(vstd::utf8::encode_utf8(seq![s[k]]) =~= vstd::utf8::encode_scalar(s[k] as u32)
        + vstd::utf8::encode_utf8(Seq::<char>::empty()));
    assert(s =~= s.take(k + 1) + s.skip(k + 1));
    lemma_encode_utf8_concat(s.take(k + 1), s.skip(k + 1));
}

/// Bytes of `s[a..b]` are the bytes of `s[..b]` past those of `s[..a]`.
pub proof fn lemma_utf8_len_sub(s: Seq<char>, a: int, b: int)
    requires
        0 <= a <= b <= s.len(),
    ensures
        utf8_len(s.take(b)) == utf8_len(s.take(a)) + utf8_len(s.subrange(a, b)),
{
    assert(s.take(b) =~= s.take(a) + s.subrange(a, b));
    lemma_encode_utf8_concat(s.take(a), s.subrange(a, b));
}

/// Number of UTF-8 bytes of `c` (`char::len_utf8`).
pub fn char_utf8_len(c: char) -> (r: usize)
    ensures
        r == vstd::utf8::encode_scalar(c as u32).len(),
        1 <= r <= 4,
{
    broadcast use vstd::utf8::char_is_scalar;

    let u = c as u32;
    if u < 0x80 {
        1
    } else if u < 0x800 {
        2
    } else if u < 0x10000 {
        3
    } else {
        4
    }
}

proof fn lemma_scalar_len(c: char)
    ensures
        vstd::utf8::encode_scalar(c as u32).len() >= 1,
{
    broadcast use vstd::utf8::char_is_scalar;

}

/// A longer prefix has at least as many bytes; one more character adds at
/// least one.
proof fn lemma_utf8_len_prefix(s: Seq<char>, a: int, b: int)
    requires
        0 <= a <= b <= s.len(),
    ensures
        utf8_len(s.take(a)) <= utf8_len(s.take(b)),
        a < b ==> utf8_len(s.take(a)) < utf8_len(s.take(b)),
{
    lemma_utf8_len_sub(s, a, b);
    if a < b {
        let sub = s.subrange(a, b);
        lemma_utf8_len_take(sub, 0);
        lemma_scalar_len(sub[0]);
        assert(sub.take(0) =~= Seq::<char>::empty());
    }
}

/// The byte ranges of the words are the words' UTF-8 bytes, in order:
/// each range is non-empty, holds exactly the bytes of its word, and ends
/// before the next one starts (with `lemma_words_are_runs`, they are the
/// slices `str::split_whitespace` yields).
pub proof fn lemma_byte_words_slices(s: Seq<char>)
    ensures
        byte_words(s).len() == words(s).len(),
        forall|k: int| 0 <= k < byte_words(s).len() ==> {
            let b = #[trigger] byte_words(s)[k];
            &&& b.1 > 0
            &&& b.0 + b.1 <= utf8_len(s)
            &&& vstd::utf8::encode_utf8(s).subrange(b.0 as int, (b.0 + b.1) as int)
                == vstd::utf8::encode_utf8(words(s)[k])
        },
        forall|k: int| 0 <= k < byte_words(s).len() - 1 ==> #[trigger] byte_words(s)[k].0
            + byte_words(s)[k].1 < byte_words(s)[k + 1].0,
{
    lemma_spans_from(s, 0);
    let sp = spans(s);
    assert forall|k: int| 0 <= k < byte_words(s).len() implies {
        let b = #[trigger] byte_words(s)[k];
        &&& b.1 > 0
        &&& b.0 + b.1 <= utf8_len(s)
        &&& vstd::utf8::encode_utf8(s).subrange(b.0 as int, (b.0 + b.1) as int)
            == vstd::utf8::encode_utf8(words(s)[k])
    } by {
        let p = sp[k];
        let pre = s.take(p.0);
        let w = s.subrange(p.0, p.1);
        let post = s.skip(p.1);
        assert(s =~= pre + w + post);
        lemma_encode_utf8_concat(pre, w);
        lemma_encode_utf8_concat(pre + w, post);
        lemma_utf8_len_prefix(s, p.0, p.1);
        lemma_utf8_len_sub(s, p.0, p.1);
        assert(s.take(s.len() as int) =~= s);
        lemma_utf8_len_prefix(s, p.1, s.len() as int);
        let e = vstd::utf8::encode_utf8(s);
        assert(e =~= vstd::utf8::encode_utf8(pre) + vstd::utf8::encode_utf8(w)
            + vstd::utf8::encode_utf8(post));
        assert(e.subrange(
            utf8_len(pre) as int,
            (utf8_len(pre) + utf8_len(w)) as int,
        ) =~= vstd::utf8::encode_utf8(w));
        assert(words(s)[k] == w);
    }
    assert forall|k: int| 0 <= k < byte_words(s).len() - 1 implies #[trigger] byte_words(s)[k].0
        + byte_words(s)[k].1 < byte_words(s)[k + 1].0 by {
        let p = sp[k];
        let q = sp[k + 1];
        lemma_utf8_len_sub(s, p.0, p.1);
        lemma_utf8_len_prefix(s, p.1, q.0);
    }
}

/// Byte ranges `(start, len)` of the words of `line`.
pub open spec fn byte_words(s: Seq<char>) -> Seq<(nat, nat)> {
    spans(s).map_values(|p: (int, int)| (utf8_len(s.take(p.0)), utf8_len(s.subrange(p.0, p.1))))
}


/// Same whitespace pattern: same length, whitespace at the same positions.
pub open spec fn same_ws(s1: Seq<char>, s2: Seq<char>) -> bool {
    s1.len() == s2.len() && forall|k: int| 0 <= k < s1.len() ==> is_ws(#[trigger] s1[k]) == is_ws(
        s2[k],
    )
}

/// Word positions depend only on where the whitespace is.
pub proof fn lemma_spans_same_ws(s1: Seq<char>, s2: Seq<char>, i: int)
    requires
        same_ws(s1, s2),
        0 <= i <= s1.len(),
    ensures
        spans_from(s1, i) == spans_from(s2, i),
    decreases s1.len() - i,
{
    if i < s1.len() {
        assert(is_ws(s1[i]) == is_ws(s2[i]));
        if is_ws(s1[i]) {
            lemma_spans_same_ws(s1, s2, i + 1);
        } else {
            lemma_word_end(s1, i);
            let e = word_end(s1, i);
            assert forall|k: int| i <= k < e implies !is_ws(#[trigger] s2[k]) by {
                assert(!is_ws(s1[k]));
            }
            if e < s1.len() {
                assert(is_ws(s1[e]));
                assert(is_ws(s2[e]));
            }
            lemma_word_end_at(s2, i, e);
            lemma_spans_same_ws(s1, s2, e);
        }
    }
}

/// ASCII uppercase keeps whitespace where it is.
pub proof fn lemma_ascii_upper_same_ws(s: Seq<char>)
    ensures
        same_ws(s, s.map_values(|c: char| ascii_upper(c))),
{
    assert forall|k: int| 0 <= k < s.len() implies is_ws(#[trigger] s[k]) == is_ws(
        s.map_values(|c: char| ascii_upper(c))[k],
    ) by {
        let c = s[k];
        if 'a' <= c <= 'z' {
            assert(97 <= (c as u32) <= 122);
        }
    }
}


/// Position of the first occurrence of `p` in `s`, or `s.len()`.
pub open spec fn find_sub(s: Seq<char>, p: Seq<char>) -> int
    decreases s.len(),
{
    if s.len() == 0 || s.len() < p.len() {
        s.len() as int
    } else if s.take(p.len() as int) == p {
        0
    } else {
        1 + find_sub(s.drop_first(), p)
    }
}

/// `p` occurs in `s` at `j`.
pub open spec fn occurs_at(s: Seq<char>, p: Seq<char>, j: int) -> bool {
    0 <= j && j + p.len() <= s.len() && s.subrange(j, j + p.len()) == p
}

/// `find_sub` is the first occurrence, or the end when there is none.
pub proof fn lemma_find_sub_at(s: Seq<char>, p: Seq<char>, k: int)
    requires
        p.len() > 0,
        0 <= k <= s.len(),
        forall|j: int| 0 <= j < k ==> !#[trigger] occurs_at(s, p, j),
        occurs_at(s, p, k) || (k == s.len() && forall|j: int| #![trigger occurs_at(s, p, j)]
            0 <= j <= s.len() ==> !occurs_at(s, p, j)),
    ensures
        find_sub(s, p) == k,
    decreases s.len(),
{
    if s.len() == 0 || s.len() < p.len() {
    } else if s.take(p.len() as int) == p {
        assert(s.subrange(0, p.len() as int) =~= s.take(p.len() as int));
        assert(occurs_at(s, p, 0));
    } else {
        assert(s.subrange(0, p.len() as int) =~= s.take(p.len() as int));
        assert(!occurs_at(s, p, 0));
        let t = s.drop_first();
        assert forall|j: int| 0 <= j < k - 1 implies !#[trigger] occurs_at(t, p, j) by {
            if occurs_at(t, p, j) {
                assert(s.subrange(j + 1, j + 1 + p.len()) =~= t.subrange(j, j + p.len()));
                assert(occurs_at(s, p, j + 1));
            }
        }
        if occurs_at(s, p, k) {
            assert(s.subrange(k, k + p.len()) =~= t.subrange(k - 1, k - 1 + p.len()));
            assert(occurs_at(t, p, k - 1));
        } else {
            assert forall|j: int| 0 <= j <= t.len() implies !#[trigger] occurs_at(t, p, j) by {
                if occurs_at(t, p, j) {
                    assert(s.subrange(j + 1, j + 1 + p.len()) =~= t.subrange(j, j + p.len()));
                    assert(occurs_at(s, p, j + 1));
                }
            }
        }
        lemma_find_sub_at(t, p, k - 1);
    }
}

/// The absolute position of the first occurrence of `p` in `v[lo..hi]`,
/// or `hi` when there is none.
pub fn find_seq(v: &Vec<char>, lo: usize, hi: usize, p: &[char]) -> (r: usize)
    requires
        lo <= hi <= v@.len(),
        p@.len() > 0,
    ensures
        lo <= r <= hi,
        r - lo == find_sub(v@.subrange(lo as int, hi as int), p@),
        r < hi ==> r + p@.len() <= hi && v@.subrange(r as int, r + p@.len()) == p@,
{
    let ghost s = v@.subrange(lo as int, hi as int);
    let m = p.len();
    let mut i = lo;
    while i < hi
        invariant
            lo <= i <= hi <= v@.len(),
            m == p@.len() > 0,
            s == v@.subrange(lo as int, hi as int),
            forall|j: int| 0 <= j < i - lo ==> !#[trigger] occurs_at(s, p@, j),
        decreases hi - i,
    {
        if hi - i < m {
            proof {
                assert forall|j: int| #![trigger occurs_at(s, p@, j)] 0 <= j <= s.len() implies !occurs_at(
                    s,
                    p@,
                    j,
                ) by {}
                lemma_find_sub_at(s, p@, s.len() as int);
            }
            return hi;
        }
        let mut k: usize = 0;
        while k < m && v[i + k] == p[k]
            invariant
                lo <= i < hi <= v@.len(),
                m == p@.len() <= hi - i,
                k <= m,
                forall|j: int| 0 <= j < k ==> v@[i + j] == p@[j],
            decreases m - k,
        {
            k = k + 1;
        }
        if k == m {
            proof {
                assert(v@.subrange(i as int, i + m) =~= p@);
                assert(s.subrange(i - lo, i - lo + m) =~= p@);
                lemma_find_sub_at(s, p@, i - lo);
            }
            return i;
        }
        proof {
            assert(v@[i + k] != p@[k as int]);
            assert(s.subrange(i - lo, i - lo + m)[k as int] == v@[i + k]);
        }
        i = i + 1;
    }
    proof {
        assert forall|j: int| #![trigger occurs_at(s, p@, j)] 0 <= j <= s.len() implies !occurs_at(
            s,
            p@,
            j,
        ) by {}
        lemma_find_sub_at(s, p@, s.len() as int);
    }
    hi
}

/// `s` without the trailing run of `c` (`str::trim_end_matches(c)`).
pub open spec fn strip_end(s: Seq<char>, c: char) -> Seq<char>
    decreases s.len(),
{
    if s.len() > 0 && s.last() == c {
        strip_end(s.drop_last(), c)
    } else {
        s
    }
}

/// End of `strip_end(v[lo..hi], c)` inside `v`.
pub fn strip_end_bound(v: &Vec<char>, lo: usize, hi: usize, c: char) -> (r: usize)
    requires
        lo <= hi <= v@.len(),
    ensures
        lo <= r <= hi,
        v@.subrange(lo as int, r as int) == strip_end(v@.subrange(lo as int, hi as int), c),
    decreases hi - lo,
{
    if hi > lo && v[hi - 1] == c {
        assert(v@.subrange(lo as int, hi as int).drop_last() =~= v@.subrange(lo as int, hi - 1));
        strip_end_bound(v, lo, hi - 1, c)
    } else {
        hi
    }
}


/// The ASCII lowercase of `c` (`char::to_ascii_lowercase`).
pub open spec fn ascii_lower(c: char) -> char {
    if 'A' <= c <= 'Z' {
        ((c as u32) + 32) as char
    } else {
        c
    }
}

/// The lowercase `str::to_lowercase` gives: for ASCII text each letter
/// lowered on its own (`str_to_lowercase` states this), otherwise
/// `lower_of(s)`.
pub open spec fn lower_text(s: Seq<char>) -> Seq<char> {
    if is_ascii_seq(s) {
        s.map_values(|c: char| ascii_lower(c))
    } else {
        lower_of(s)
    }
}

/// What `str::to_lowercase` returns for `s`.
pub uninterp spec fn lower_of(s: Seq<char>) -> Seq<char>;

/// `str::to_lowercase`: the lowercase of `s` by the Unicode case tables
/// (with the final-sigma rule). Its source lowercases ASCII characters with
/// `to_ascii_lowercase`; the full Unicode mapping is not stated and the
/// result is named `lower_of(s)`.
#[verifier::external_body]
pub fn str_to_lowercase(s: &str) -> (r: String)
    ensures
        r@ == lower_of(s@),
        is_ascii_seq(s@) ==> r@ == s@.map_values(|c: char| ascii_lower(c)),
{
    s.to_lowercase()
}

/// What `char::is_alphanumeric` says of `c`.
pub uninterp spec fn alnum_of(c: char) -> bool;

/// `char::is_alphanumeric`: Unicode `Alphabetic` or `Numeric`. For ASCII
/// characters its source checks the ASCII letters and digits; the Unicode
/// tables are not stated and the result is named `alnum_of(c)`.
#[verifier::external_body]
pub fn char_is_alphanumeric(c: char) -> (r: bool)
    ensures
        r == alnum_of(c),
        (c as u32) < 0x80 ==> r == (('a' <= c <= 'z') || ('A' <= c <= 'Z') || ('0' <= c <= '9')),
{
    c.is_alphanumeric()
}


/// Whether two strings hold the same characters.
pub fn same_chars(a: &str, b: &str) -> (r: bool)
    ensures
        r == (a@ == b@),
{
    let va = chars_of(a);
    let vb = chars_of(b);
    if va.len() != vb.len() {
        return false;
    }
    let mut i: usize = 0;
    while i < va.len()
        invariant
            i <= va@.len() == vb@.len(),
            va@ == a@,
            vb@ == b@,
            forall|j: int| 0 <= j < i ==> va@[j] == vb@[j],
        decreases va@.len() - i,
    {
        if va[i] != vb[i] {
            return false;
        }
        i = i + 1;
    }
    assert(va@ =~= vb@);
    true
}

} // verus!
