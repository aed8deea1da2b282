//! Word splitting and keyword normalisation.
use vstd::prelude::*;

verus! {

/// The characters of a text are all ASCII.
pub open spec fn is_ascii_text(s: Seq<char>) -> bool {
    forall|i: int| 0 <= i < s.len() ==> (#[trigger] s[i] as u32) < 128
}

/// An ASCII letter or digit.
pub open spec fn ascii_alnum(c: char) -> bool {
    let x = c as u32;
    (48 <= x <= 57) || (65 <= x <= 90) || (97 <= x <= 122)
}

/// ASCII whitespace in Unicode's sense: tab, line feed, vertical tab, form
/// feed, carriage return, space.
pub open spec fn ascii_space(c: char) -> bool {
    let x = c as u32;
    (9 <= x <= 13) || x == 32
}

/// An ASCII upper-case letter made lower case; any other character unchanged.
pub open spec fn ascii_lower_char(c: char) -> char {
    if 65 <= (c as u32) <= 90 {
        ((c as u32) + 32) as char
    } else {
        c
    }
}

/// A text with its ASCII upper-case letters made lower case.
pub open spec fn ascii_lower(s: Seq<char>) -> Seq<char> {
    s.map_values(|c: char| ascii_lower_char(c))
}

/// Whether `char::is_alphanumeric` holds of a character beyond ASCII.
pub uninterp spec fn is_alnum_beyond_ascii(c: char) -> bool;

/// Whether `char::is_whitespace` holds of a character beyond ASCII.
pub uninterp spec fn is_space_beyond_ascii(c: char) -> bool;

/// What `str::to_lowercase` makes of a text that is not all ASCII.
pub uninterp spec fn lowercase_beyond_ascii(s: Seq<char>) -> Seq<char>;

/// Whether `char::is_alphanumeric` holds: on ASCII, exactly of letters and digits.
pub open spec fn is_alnum(c: char) -> bool {
    if (c as u32) < 128 {
        ascii_alnum(c)
    } else {
        is_alnum_beyond_ascii(c)
    }
}

/// Whether `char::is_whitespace` holds: on ASCII, exactly of `ascii_space`.
pub open spec fn is_space(c: char) -> bool {
    if (c as u32) < 128 {
        ascii_space(c)
    } else {
        is_space_beyond_ascii(c)
    }
}

/// What `str::to_lowercase` makes of a text: an ASCII text has its upper-case
/// letters made lower case and nothing else changed.
pub open spec fn lowercase(s: Seq<char>) -> Seq<char> {
    if is_ascii_text(s) {
        ascii_lower(s)
    } else {
        lowercase_beyond_ascii(s)
    }
}

/// Calls `char::is_alphanumeric` (Unicode's Alphabetic or Numeric property),
/// which among ASCII characters holds of letters and digits only.
#[verifier::external_body]
fn char_is_alphanumeric(c: char) -> (b: bool)
    ensures
        b == is_alnum(c),
        (c as u32) >= 128 ==> b == is_alnum_beyond_ascii(c),
{
    c.is_alphanumeric()
}

/// Calls `char::is_whitespace` (Unicode's White_Space property), which among
/// ASCII characters holds of tab, line feed, vertical tab, form feed, carriage
/// return and space only.
#[verifier::external_body]
fn char_is_whitespace(c: char) -> (b: bool)
    ensures
        b == is_space(c),
        (c as u32) >= 128 ==> b == is_space_beyond_ascii(c),
{
    c.is_whitespace()
}

/// Calls `str::to_lowercase`. Unicode's lower-case mapping takes the ASCII
/// letters A to Z to a to z and leaves every other ASCII character as it is;
/// beyond ASCII the result is named by the input alone.
#[verifier::external_body]
pub(crate) fn to_lowercase(s: &str) -> (r: String)
    ensures
        r@ == lowercase(s@),
        !is_ascii_text(s@) ==> r@ == lowercase_beyond_ascii(s@),
{
    s.to_lowercase()
}

/// The characters of a string, in order (calls `str::chars`).
#[verifier::external_body]
pub(crate) fn chars_of(s: &str) -> (r: Vec<char>)
    ensures
        r@ == s@,
{
    s.chars().collect()
}

/// The string of a sequence of characters (collects them with `FromIterator`).
#[verifier::external_body]
pub(crate) fn string_of(cs: &[char]) -> (r: String)
    ensures
        r@ == cs@,
{
    cs.iter().collect()
}

/// Drops the leading characters that are not alphanumeric.
pub open spec fn trim_start(s: Seq<char>) -> Seq<char>
    decreases s.len(),
{
    if s.len() == 0 || is_alnum(s[0]) {
        s
    } else {
        trim_start(s.skip(1))
    }
}

/// Drops the trailing characters that are not alphanumeric.
pub open spec fn trim_end(s: Seq<char>) -> Seq<char>
    decreases s.len(),
{
    if s.len() == 0 || is_alnum(s.last()) {
        s
    } else {
        trim_end(s.drop_last())
    }
}

/// A word with the non-alphanumeric characters at both ends removed, lowercased.
pub open spec fn normalize(word: Seq<char>) -> Seq<char> {
    lowercase(trim_end(trim_start(word)))
}

/// A word of the list normalises to `t`.
pub open spec fn normalised_word_of(ws: Seq<Seq<char>>, t: Seq<char>) -> bool {
    exists|i: int| 0 <= i < ws.len() && #[trigger] normalize(ws[i]) == t
}

/// The longest prefix without whitespace.
pub open spec fn leading_word(s: Seq<char>) -> Seq<char>
    decreases s.len(),
{
    if s.len() == 0 || is_space(s[0]) {
        Seq::empty()
    } else {
        seq![s[0]] + leading_word(s.skip(1))
    }
}

/// The maximal runs of non-whitespace characters, in order.
pub open spec fn words(s: Seq<char>) -> Seq<Seq<char>>
    decreases s.len(),
{
    if s.len() == 0 {
        Seq::empty()
    } else if is_space(s[0]) {
        words(s.skip(1))
    } else {
        proof {
            lemma_leading_word_len(s);
        }
        seq![leading_word(s)] + words(s.skip(leading_word(s).len() as int))
    }
}

/// Number of ASCII spaces in a text.
pub open spec fn count_spaces(s: Seq<char>) -> nat
    decreases s.len(),
{
    if s.len() == 0 {
        0
    } else {
        (if s.last() == ' ' { 1nat } else { 0nat }) + count_spaces(s.drop_last())
    }
}

pub proof fn lemma_leading_word_len(s: Seq<char>)
    ensures
        leading_word(s).len() <= s.len(),
        s.len() > 0 && !is_space(s[0]) ==> leading_word(s).len() > 0,
    decreases s.len(),
{
    if s.len() > 0 && !is_space(s[0]) {
        lemma_leading_word_len(s.skip(1));
    }
}

/// The leading word of `s` is `s[0..j]` where `j` is the first whitespace (or the end).
proof fn lemma_leading_word_is_run(s: Seq<char>, j: int)
    requires
        0 <= j <= s.len(),
        forall|k: int| 0 <= k < j ==> !is_space(#[trigger] s[k]),
        j == s.len() || is_space(s[j]),
    ensures
        leading_word(s) == s.subrange(0, j),
    decreases s.len(),
{
    if j > 0 {
        assert forall|k: int| 0 <= k < j - 1 implies !is_space(#[trigger] s.skip(1)[k]) by {
            assert(s.skip(1)[k] == s[k + 1]);
        }
        lemma_leading_word_is_run(s.skip(1), j - 1);
        assert(seq![s[0]] + s.skip(1).subrange(0, j - 1) =~= s.subrange(0, j));
    } else {
        assert(s.subrange(0, 0) =~= Seq::<char>::empty());
    }
}

/// Splits a text at whitespace (as `str::split_whitespace` does).
pub fn split_words(text: &str) -> (r: Vec<Vec<char>>)
    ensures
        r@.map_values(|w: Vec<char>| w@) == words(text@),
{
    let cs = chars_of(text);
    let n = cs.len();
    let mut r: Vec<Vec<char>> = Vec::new();
    let mut i: usize = 0;
    assert(cs@.skip(0) =~= cs@);
    assert(r@.map_values(|w: Vec<char>| w@) + words(cs@) =~= words(cs@));
    while i < n
        invariant
            n == cs@.len(),
            cs@ == text@,
            i <= n,
            r@.map_values(|w: Vec<char>| w@) + words(cs@.skip(i as int)) == words(text@),
        decreases n - i,
    {
        if char_is_whitespace(cs[i]) {
            assert(cs@.skip(i as int).skip(1) =~= cs@.skip(i + 1));
            i = i + 1;
        } else {
            let mut j = i;
            let mut w: Vec<char> = Vec::new();
            while j < n && !char_is_whitespace(cs[j])
                invariant
                    i <= j <= n,
                    n == cs@.len(),
                    w@ == cs@.subrange(i as int, j as int),
                    forall|k: int| i <= k < j ==> !is_space(#[trigger] cs@[k]),
                decreases n - j,
            {
                w.push(cs[j]);
                assert(cs@.subrange(i as int, j + 1) =~= cs@.subrange(i as int, j as int).push(cs@[j as int]));
                j = j + 1;
            }
            let ghost rest = cs@.skip(i as int);
            proof {
                assert forall|k: int| 0 <= k < j - i implies !is_space(#[trigger] rest[k]) by {
                    assert(rest[k] == cs@[i + k]);
                }
                if j < n {
                    assert(rest[j - i] == cs@[j as int]);
                }
                lemma_leading_word_is_run(rest, j - i);
                assert(rest.subrange(0, j - i) =~= w@);
                assert(rest.skip(j - i) =~= cs@.skip(j as int));
            }
            let ghost before = r@.map_values(|x: Vec<char>| x@);
            r.push(w);
            assert(r@.map_values(|x: Vec<char>| x@) =~= before.push(w@));
            assert(before.push(w@) + words(cs@.skip(j as int)) =~= before + (seq![w@] + words(cs@.skip(j as int))));
            i = j;
        }
    }
    assert(cs@.skip(n as int) =~= Seq::<char>::empty());
    assert(r@.map_values(|w: Vec<char>| w@) + Seq::<Seq<char>>::empty() =~= r@.map_values(|w: Vec<char>| w@));
    r
}

/// Removes the non-alphanumeric characters at both ends of a word and lowercases it.
pub fn normalize_word(word: &Vec<char>) -> (r: String)
    ensures
        r@ == normalize(word@),
{
    let n = word.len();
    let mut lo: usize = 0;
    assert(word@.skip(0) =~= word@);
    while lo < n && !char_is_alphanumeric(word[lo])
        invariant
            lo <= n,
            n == word@.len(),
            trim_start(word@.skip(lo as int)) == trim_start(word@),
        decreases n - lo,
    {
        assert(word@.skip(lo as int).skip(1) =~= word@.skip(lo + 1));
        lo = lo + 1;
    }
    let ghost start = word@.skip(lo as int);
    assert(trim_start(start) == start) by {
        if start.len() > 0 {
            assert(start[0] == word@[lo as int]);
        }
    }
    let mut hi: usize = n;
    while hi > lo && !char_is_alphanumeric(word[hi - 1])
        invariant
            lo <= hi <= n,
            n == word@.len(),
            trim_start(word@) == start,
            start == word@.skip(lo as int),
            trim_end(word@.subrange(lo as int, hi as int)) == trim_end(start),
        decreases hi,
    {
        assert(word@.subrange(lo as int, hi as int).drop_last() =~= word@.subrange(lo as int, hi - 1));
        hi = hi - 1;
    }
    let ghost kept = word@.subrange(lo as int, hi as int);
    assert(start =~= word@.subrange(lo as int, n as int));
    assert(trim_end(kept) == kept) by {
        if kept.len() > 0 {
            assert(kept.last() == word@[hi - 1]);
        }
    }
    let mut core: Vec<char> = Vec::new();
    let mut k = lo;
    while k < hi
        invariant
            lo <= k <= hi <= n,
            n == word@.len(),
            core@ == word@.subrange(lo as int, k as int),
        decreases hi - k,
    {
        core.push(word[k]);
        assert(word@.subrange(lo as int, k + 1) =~= word@.subrange(lo as int, k as int).push(word@[k as int]));
        k = k + 1;
    }
    let s = string_of(core.as_slice());
    to_lowercase(s.as_str())
}

/// Counts the ASCII spaces in a text.
pub fn space_count(s: &Vec<char>) -> (r: usize)
    ensures
        r == count_spaces(s@),
{
    let n = s.len();
    let mut c: usize = 0;
    let mut k: usize = 0;
    while k < n
        invariant
            k <= n,
            n == s@.len(),
            c == count_spaces(s@.take(k as int)),
            c <= k,
        decreases n - k,
    {
        assert(s@.take(k + 1).drop_last() =~= s@.take(k as int));
        if s[k] == ' ' {
            c = c + 1;
        }
        k = k + 1;
    }
    assert(s@.take(n as int) =~= s@);
    c
}

/// Whether a string is in a list.
pub fn contains_string(list: &Vec<String>, s: &String) -> (r: bool)
    ensures
        r == list@.map_values(|x: String| x@).contains(s@),
{
    let n = list.len();
    for k in 0..n
        invariant
            n == list@.len(),
            forall|i: int| 0 <= i < k ==> list@[i]@ != s@,
    {
        if list[k] == *s {
            assert(list@.map_values(|x: String| x@)[k as int] == s@);
            return true;
        }
    }
    proof {
        let lv = list@.map_values(|x: String| x@);
        if lv.contains(s@) {
            let i = choose|i: int| 0 <= i < lv.len() && #[trigger] lv[i] == s@;
            assert(list@[i]@ == s@);
        }
    }
    false
}

proof fn lemma_lower_char(c: char)
    requires
        (c as u32) < 128,
    ensures
        (ascii_lower_char(c) as u32) < 128,
        ascii_lower_char(ascii_lower_char(c)) == ascii_lower_char(c),
        is_space(ascii_lower_char(c)) == is_space(c),
        is_alnum(ascii_lower_char(c)) == is_alnum(c),
{
    if 65 <= (c as u32) <= 90 {
        let x: u32 = ((c as u32) + 32) as u32;
        assert((x as char) as u32 == x);
    }
}

proof fn lemma_lower_text(s: Seq<char>)
    requires
        is_ascii_text(s),
    ensures
        ascii_lower(s).len() == s.len(),
        is_ascii_text(ascii_lower(s)),
        ascii_lower(ascii_lower(s)) == ascii_lower(s),
        forall|i: int| 0 <= i < s.len() ==> #[trigger] ascii_lower(s)[i] == ascii_lower_char(s[i]),
{
    assert forall|i: int| 0 <= i < s.len() implies (#[trigger] ascii_lower(s)[i] as u32) < 128 by {
        lemma_lower_char(s[i]);
    }
    assert forall|i: int| 0 <= i < s.len() implies #[trigger] ascii_lower(ascii_lower(s))[i] == ascii_lower(s)[i] by {
        lemma_lower_char(s[i]);
    }
    assert(ascii_lower(ascii_lower(s)) =~= ascii_lower(s));
}

proof fn lemma_leading_word_lower(s: Seq<char>)
    requires
        is_ascii_text(s),
    ensures
        leading_word(ascii_lower(s)) == ascii_lower(leading_word(s)),
        is_ascii_text(leading_word(s)),
    decreases s.len(),
{
    lemma_lower_text(s);
    if s.len() > 0 {
        lemma_lower_char(s[0]);
        assert(ascii_lower(s).skip(1) =~= ascii_lower(s.skip(1)));
        if !is_space(s[0]) {
            assert(is_ascii_text(s.skip(1))) by {
                assert forall|i: int| 0 <= i < s.skip(1).len() implies (#[trigger] s.skip(1)[i] as u32) < 128 by {
                    assert(s.skip(1)[i] == s[i + 1]);
                }
            }
            lemma_leading_word_lower(s.skip(1));
            assert(ascii_lower(seq![s[0]] + leading_word(s.skip(1)))
                =~= seq![ascii_lower_char(s[0])] + ascii_lower(leading_word(s.skip(1))));
            let lw = seq![s[0]] + leading_word(s.skip(1));
            assert forall|i: int| 0 <= i < lw.len() implies (#[trigger] lw[i] as u32) < 128 by {
                if i > 0 {
                    assert(lw[i] == leading_word(s.skip(1))[i - 1]);
                }
            }
        } else {
            assert(ascii_lower(Seq::<char>::empty()) =~= Seq::<char>::empty());
        }
    } else {
        assert(ascii_lower(Seq::<char>::empty()) =~= Seq::<char>::empty());
    }
}

proof fn lemma_ascii_skip(s: Seq<char>, k: int)
    requires
        is_ascii_text(s),
        0 <= k <= s.len(),
    ensures
        is_ascii_text(s.skip(k)),
        ascii_lower(s).skip(k) == ascii_lower(s.skip(k)),
{
    assert forall|i: int| 0 <= i < s.skip(k).len() implies (#[trigger] s.skip(k)[i] as u32) < 128 by {
        assert(s.skip(k)[i] == s[i + k]);
    }
    assert(ascii_lower(s).skip(k) =~= ascii_lower(s.skip(k)));
}

/// Splitting a text in words commutes with making its ASCII letters lower case.
proof fn lemma_words_lower(s: Seq<char>)
    requires
        is_ascii_text(s),
    ensures
        words(ascii_lower(s)) == words(s).map_values(|w: Seq<char>| ascii_lower(w)),
        forall|i: int| 0 <= i < words(s).len() ==> is_ascii_text(#[trigger] words(s)[i]),
    decreases s.len(),
{
    lemma_lower_text(s);
    if s.len() == 0 {
        assert(ascii_lower(s).len() == 0);
        assert(words(s).map_values(|w: Seq<char>| ascii_lower(w)) =~= Seq::<Seq<char>>::empty());
    } else {
        lemma_lower_char(s[0]);
        assert(ascii_lower(s)[0] == ascii_lower_char(s[0]));
        if is_space(s[0]) {
            lemma_ascii_skip(s, 1);
            lemma_words_lower(s.skip(1));
        } else {
            lemma_leading_word_lower(s);
            lemma_leading_word_len(s);
            let n = leading_word(s).len() as int;
            lemma_lower_text(leading_word(s));
            lemma_ascii_skip(s, n);
            lemma_words_lower(s.skip(n));
            lemma_leading_word_len(ascii_lower(s));
            assert(leading_word(ascii_lower(s)).len() == n);
            let rest = words(s.skip(n));
            assert(words(s) == seq![leading_word(s)] + rest);
            assert(words(s).map_values(|w: Seq<char>| ascii_lower(w))
                =~= seq![ascii_lower(leading_word(s))] + rest.map_values(|w: Seq<char>| ascii_lower(w)));
            assert forall|i: int| 0 <= i < words(s).len() implies is_ascii_text(#[trigger] words(s)[i]) by {
                if i > 0 {
                    assert(words(s)[i] == rest[i - 1]);
                }
            }
        }
    }
}

proof fn lemma_trim_start_lower(s: Seq<char>)
    requires
        is_ascii_text(s),
    ensures
        trim_start(ascii_lower(s)) == ascii_lower(trim_start(s)),
        is_ascii_text(trim_start(s)),
    decreases s.len(),
{
    lemma_lower_text(s);
    if s.len() > 0 {
        lemma_lower_char(s[0]);
        assert(ascii_lower(s)[0] == ascii_lower_char(s[0]));
        if !is_alnum(s[0]) {
            lemma_ascii_skip(s, 1);
            lemma_trim_start_lower(s.skip(1));
        }
    }
}

proof fn lemma_trim_end_lower(s: Seq<char>)
    requires
        is_ascii_text(s),
    ensures
        trim_end(ascii_lower(s)) == ascii_lower(trim_end(s)),
        is_ascii_text(trim_end(s)),
    decreases s.len(),
{
    lemma_lower_text(s);
    if s.len() > 0 {
        lemma_lower_char(s.last());
        assert(ascii_lower(s).last() == ascii_lower_char(s.last()));
        if !is_alnum(s.last()) {
            assert(ascii_lower(s).drop_last() =~= ascii_lower(s.drop_last()));
            assert(is_ascii_text(s.drop_last())) by {
                assert forall|i: int| 0 <= i < s.drop_last().len() implies (#[trigger] s.drop_last()[i] as u32) < 128 by {
                    assert(s.drop_last()[i] == s[i]);
                }
            }
            lemma_trim_end_lower(s.drop_last());
        }
    }
}

/// A word normalises alike with its ASCII letters in either case.
pub proof fn lemma_normalize_lower(w: Seq<char>)
    requires
        is_ascii_text(w),
    ensures
        normalize(ascii_lower(w)) == normalize(w),
{
    lemma_trim_start_lower(w);
    lemma_trim_end_lower(trim_start(w));
    let t = trim_end(trim_start(w));
    lemma_lower_text(t);
    lemma_lower_text(w);
}

/// Two ASCII texts that differ only in the case of their letters split into
/// words that differ only in the case of their letters.
pub proof fn lemma_words_ascii_case(q1: Seq<char>, q2: Seq<char>)
    requires
        is_ascii_text(q1),
        is_ascii_text(q2),
        ascii_lower(q1) == ascii_lower(q2),
    ensures
        words(q1).len() == words(q2).len(),
        forall|i: int| 0 <= i < words(q1).len() ==> normalize(#[trigger] words(q1)[i]) == normalize(words(q2)[i]),
{
    lemma_words_lower(q1);
    lemma_words_lower(q2);
    let m1 = words(q1).map_values(|w: Seq<char>| ascii_lower(w));
    let m2 = words(q2).map_values(|w: Seq<char>| ascii_lower(w));
    assert(m1 == m2);
    assert forall|i: int| 0 <= i < words(q1).len() implies normalize(#[trigger] words(q1)[i]) == normalize(words(q2)[i]) by {
        assert(m1[i] == ascii_lower(words(q1)[i]));
        assert(m2[i] == ascii_lower(words(q2)[i]));
        lemma_normalize_lower(words(q1)[i]);
        lemma_normalize_lower(words(q2)[i]);
    }
}

proof fn lemma_trim_start_at(s: Seq<char>) -> (i: int)
    ensures
        0 <= i <= s.len(),
        trim_start(s) == s.skip(i),
        forall|k: int| 0 <= k < i ==> !is_alnum(#[trigger] s[k]),
        i < s.len() ==> is_alnum(s[i]),
    decreases s.len(),
{
    if s.len() == 0 || is_alnum(s[0]) {
        assert(s.skip(0) =~= s);
        0
    } else {
        let i1 = lemma_trim_start_at(s.skip(1));
        assert(s.skip(1).skip(i1) =~= s.skip(i1 + 1));
        assert forall|k: int| 0 <= k < i1 + 1 implies !is_alnum(#[trigger] s[k]) by {
            if k > 0 {
                assert(s[k] == s.skip(1)[k - 1]);
            }
        }
        if i1 + 1 < s.len() {
            assert(s[i1 + 1] == s.skip(1)[i1]);
        }
        i1 + 1
    }
}

proof fn lemma_trim_end_at(s: Seq<char>) -> (j: int)
    ensures
        0 <= j <= s.len(),
        trim_end(s) == s.take(j),
        forall|k: int| j <= k < s.len() ==> !is_alnum(#[trigger] s[k]),
        j > 0 ==> is_alnum(s[j - 1]),
    decreases s.len(),
{
    if s.len() == 0 || is_alnum(s.last()) {
        assert(s.take(s.len() as int) =~= s);
        s.len() as int
    } else {
        let j1 = lemma_trim_end_at(s.drop_last());
        assert(s.drop_last().take(j1) =~= s.take(j1));
        assert forall|k: int| j1 <= k < s.len() implies !is_alnum(#[trigger] s[k]) by {
            if k < s.len() - 1 {
                assert(s[k] == s.drop_last()[k]);
            }
        }
        if j1 > 0 {
            assert(s[j1 - 1] == s.drop_last()[j1 - 1]);
        }
        j1
    }
}

/// Normalising a word lowercases what lies between its first and its last
/// alphanumeric character: everything before the first and after the last is
/// dropped, and nothing else.
pub proof fn law_normalize_trims(w: Seq<char>)
    ensures
        exists|i: int, j: int| {
            &&& 0 <= i <= j <= w.len()
            &&& #[trigger] normalize(w) == lowercase(#[trigger] w.subrange(i, j))
            &&& forall|k: int| 0 <= k < i ==> !is_alnum(#[trigger] w[k])
            &&& forall|k: int| j <= k < w.len() ==> !is_alnum(#[trigger] w[k])
            &&& i < j ==> is_alnum(w[i]) && is_alnum(w[j - 1])
        },
{
    let i = lemma_trim_start_at(w);
    let u = w.skip(i);
    let j1 = lemma_trim_end_at(u);
    let j = i + j1;
    assert(u.take(j1) =~= w.subrange(i, j));
    assert forall|k: int| j <= k < w.len() implies !is_alnum(#[trigger] w[k]) by {
        assert(w[k] == u[k - i]);
    }
    if i < j {
        assert(w[j - 1] == u[j1 - 1]);
    }
    assert(normalize(w) == lowercase(w.subrange(i, j)));
}

/// Number of characters of a text that are not whitespace.
pub open spec fn count_non_space(s: Seq<char>) -> nat
    decreases s.len(),
{
    if s.len() == 0 {
        0
    } else {
        (if is_space(s[0]) { 0nat } else { 1nat }) + count_non_space(s.skip(1))
    }
}

/// Total length of a list of words.
pub open spec fn total_len(ws: Seq<Seq<char>>) -> nat
    decreases ws.len(),
{
    if ws.len() == 0 {
        0
    } else {
        ws[0].len() + total_len(ws.skip(1))
    }
}

proof fn lemma_leading_word_count(s: Seq<char>)
    ensures
        leading_word(s).len() <= s.len(),
        count_non_space(s) == leading_word(s).len() + count_non_space(s.skip(leading_word(s).len() as int)),
        forall|k: int| 0 <= k < leading_word(s).len() ==> #[trigger] leading_word(s)[k] == s[k] && !is_space(s[k]),
    decreases s.len(),
{
    lemma_leading_word_len(s);
    if s.len() == 0 || is_space(s[0]) {
        assert(s.skip(0) =~= s);
    } else {
        let t = s.skip(1);
        lemma_leading_word_count(t);
        let n = leading_word(t).len() as int;
        assert(t.skip(n) =~= s.skip(n + 1));
        assert forall|k: int| 0 <= k < leading_word(s).len() implies #[trigger] leading_word(s)[k] == s[k] && !is_space(s[k]) by {
            if k > 0 {
                assert(leading_word(s)[k] == leading_word(t)[k - 1]);
                assert(t[k - 1] == s[k]);
            }
        }
    }
}

/// Splitting a text in words keeps every character that is not whitespace
/// and nothing else: the words are non-empty, hold no whitespace, and their
/// lengths add up to the number of characters that are not whitespace.
pub proof fn law_words(s: Seq<char>)
    ensures
        total_len(words(s)) == count_non_space(s),
        forall|i: int| 0 <= i < words(s).len() ==> (#[trigger] words(s)[i]).len() > 0,
        forall|i: int, k: int| 0 <= i < words(s).len() && 0 <= k < words(s)[i].len()
            ==> !is_space(#[trigger] words(s)[i][k]),
    decreases s.len(),
{
    if s.len() > 0 {
        if is_space(s[0]) {
            law_words(s.skip(1));
        } else {
            lemma_leading_word_count(s);
            lemma_leading_word_len(s);
            let lw = leading_word(s);
            let n = lw.len() as int;
            law_words(s.skip(n));
            let rest = words(s.skip(n));
            assert(words(s) == seq![lw] + rest);
            assert(words(s).skip(1) =~= rest);
            assert forall|i: int| 0 <= i < words(s).len() implies (#[trigger] words(s)[i]).len() > 0 by {
                if i > 0 {
                    assert(words(s)[i] == rest[i - 1]);
                }
            }
            assert forall|i: int, k: int| 0 <= i < words(s).len() && 0 <= k < words(s)[i].len()
                implies !is_space(#[trigger] words(s)[i][k]) by {
                if i > 0 {
                    assert(words(s)[i] == rest[i - 1]);
                } else {
                    assert(lw[k] == s[k]);
                }
            }
        }
    }
}

} // verus!
