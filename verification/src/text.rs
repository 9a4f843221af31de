//! Answer normalisation: lowercasing, removal of `<|tag|>` chat markers,
//! keeping alphanumeric and whitespace characters, and trimming.
use vstd::prelude::*;

verus! {

broadcast use vstd::string::group_string_axioms;

// ── Character classes and lowercasing, as std defines them ──────────────────

/// What `char::is_alphanumeric` returns for a character beyond ASCII
/// (Unicode `Alphabetic` or `Numeric`).
pub uninterp spec fn alphanumeric_beyond_ascii(c: char) -> bool;

/// What `char::is_whitespace` returns for a character beyond ASCII (Unicode
/// `White_Space`).
pub uninterp spec fn whitespace_beyond_ascii(c: char) -> bool;

/// What `str::to_lowercase` returns for a string that holds a character
/// beyond ASCII.
pub uninterp spec fn lowercase_beyond_ascii(s: Seq<char>) -> Seq<char>;

/// An ASCII letter or digit.
pub open spec fn is_ascii_alphanumeric(c: char) -> bool {
    ('a' <= c && c <= 'z') || ('A' <= c && c <= 'Z') || ('0' <= c && c <= '9')
}

/// An ASCII character with the Unicode `White_Space` property: space, tab,
/// line feed, vertical tab, form feed, carriage return.
pub open spec fn is_ascii_blank(c: char) -> bool {
    c == ' ' || ('\t' <= c && c <= '\r')
}

/// All characters of `s` are ASCII.
pub open spec fn is_ascii_text(s: Seq<char>) -> bool {
    forall|i: int| 0 <= i < s.len() ==> (#[trigger] s[i] as u32) < 128
}

/// The ASCII lowercase of `c`: `A`..`Z` to `a`..`z`, other characters
/// unchanged.
pub open spec fn ascii_lower(c: char) -> char {
    if 'A' <= c && c <= 'Z' {
        ((c as u32) + 32) as char
    } else {
        c
    }
}

/// What `char::is_alphanumeric` returns: within ASCII, the letters and
/// digits; beyond it, the Unicode property, named.
pub open spec fn is_alphanumeric_char(c: char) -> bool {
    if (c as u32) < 128 {
        is_ascii_alphanumeric(c)
    } else {
        alphanumeric_beyond_ascii(c)
    }
}

/// What `char::is_whitespace` returns: within ASCII, the six blanks of
/// `is_ascii_blank`; beyond it, the Unicode property, named.
pub open spec fn is_whitespace_char(c: char) -> bool {
    if (c as u32) < 128 {
        is_ascii_blank(c)
    } else {
        whitespace_beyond_ascii(c)
    }
}

/// What `str::to_lowercase` returns: for ASCII text, `A`..`Z` mapped to
/// `a`..`z` and every other character kept; otherwise the Unicode case
/// mapping, named.
pub open spec fn lowercase_of(s: Seq<char>) -> Seq<char> {
    if is_ascii_text(s) {
        s.map_values(|c: char| ascii_lower(c))
    } else {
        lowercase_beyond_ascii(s)
    }
}

/// `char::is_alphanumeric`: `Alphabetic` or `Numeric`; within ASCII these
/// are exactly the letters and digits.
#[verifier::external_body]
fn char_is_alphanumeric(c: char) -> (b: bool)
    ensures
        b == is_alphanumeric_char(c),
        (c as u32) >= 128 ==> b == alphanumeric_beyond_ascii(c),
{
    c.is_alphanumeric()
}

/// `char::is_whitespace`: the Unicode `White_Space` property; within ASCII
/// it holds of U+0009 to U+000D and the space, and of nothing else.
#[verifier::external_body]
fn char_is_whitespace(c: char) -> (b: bool)
    ensures
        b == is_whitespace_char(c),
        (c as u32) >= 128 ==> b == whitespace_beyond_ascii(c),
{
    c.is_whitespace()
}

/// `str::to_lowercase`: on ASCII text it maps `A`..`Z` to `a`..`z` and keeps
/// every other character; the Unicode case mapping of other text is named.
#[verifier::external_body]
fn str_to_lowercase(s: &str) -> (r: String)
    ensures
        r@ == lowercase_of(s@),
        !is_ascii_text(s@) ==> r@ == lowercase_beyond_ascii(s@),
{
    s.to_lowercase()
}

/// `String::push`: appends one character.
#[verifier::external_body]
pub(crate) fn push_char(s: &mut String, c: char)
    ensures
        final(s)@ == old(s)@.push(c),
{
    s.push(c)
}

/// The characters of a string, in order.
pub fn chars_of(s: &str) -> (v: Vec<char>)
    ensures
        v@ == s@,
{
    let mut v: Vec<char> = Vec::new();
    for c in it: s.chars()
        invariant
            it.seq() == s@,
            v@ == s@.take(it.index() as int),
    {
        assert(s@.take(it.index() as int + 1) =~= s@.take(it.index() as int).push(c));
        v.push(c);
    }
    assert(s@.take(s@.len() as int) =~= s@);
    v
}

/// The string made of the characters `v[a..b]`.
pub fn string_of_range(v: &Vec<char>, a: usize, b: usize) -> (s: String)
    requires
        a <= b <= v@.len(),
    ensures
        s@ == v@.subrange(a as int, b as int),
{
    let mut s = String::new();
    let mut i: usize = a;
    while i < b
        invariant
            a <= i <= b <= v@.len(),
            s@ == v@.subrange(a as int, i as int),
        decreases b - i,
    {
        assert(v@.subrange(a as int, i as int + 1) =~= v@.subrange(a as int, i as int).push(
            v@[i as int],
        ));
        push_char(&mut s, v[i]);
        i += 1;
    }
    s
}

// ── Searching for a character ───────────────────────────────────────────────

/// Index of the first `c` in `s` at or after `i`.
pub open spec fn first_index_from(s: Seq<char>, c: char, i: int) -> Option<int>
    decreases s.len() - i,
{
    if i < 0 || i >= s.len() {
        None
    } else if s[i] == c {
        Some(i)
    } else {
        first_index_from(s, c, i + 1)
    }
}

/// Index of the first `c` in `s`.
pub open spec fn first_index(s: Seq<char>, c: char) -> Option<int> {
    first_index_from(s, c, 0)
}

/// Index of the last `c` in `s` before position `j`.
pub open spec fn last_index_before(s: Seq<char>, c: char, j: int) -> Option<int>
    decreases j,
{
    if j <= 0 || j > s.len() {
        None
    } else if s[j - 1] == c {
        Some(j - 1)
    } else {
        last_index_before(s, c, j - 1)
    }
}

/// Index of the last `c` in `s`.
pub open spec fn last_index(s: Seq<char>, c: char) -> Option<int> {
    last_index_before(s, c, s.len() as int)
}

/// `c` occurs in `s`.
pub open spec fn has_char(s: Seq<char>, c: char) -> bool {
    exists|k: int| 0 <= k < s.len() && s[k] == c
}

pub proof fn lemma_first_index_from(s: Seq<char>, c: char, i: int)
    requires
        0 <= i,
    ensures
        match first_index_from(s, c, i) {
            Some(k) => i <= k < s.len() && s[k] == c && forall|m: int| i <= m < k ==> s[m] != c,
            None => forall|m: int| i <= m < s.len() ==> s[m] != c,
        },
    decreases s.len() - i,
{
    if i < s.len() && s[i] != c {
        lemma_first_index_from(s, c, i + 1);
    }
}

pub proof fn lemma_last_index_before(s: Seq<char>, c: char, j: int)
    requires
        0 <= j <= s.len(),
    ensures
        match last_index_before(s, c, j) {
            Some(k) => 0 <= k < j && s[k] == c && forall|m: int| k < m < j ==> s[m] != c,
            None => forall|m: int| 0 <= m < j ==> s[m] != c,
        },
    decreases j,
{
    if j > 0 && s[j - 1] != c {
        lemma_last_index_before(s, c, j - 1);
    }
}

/// Index of the first `c` in `v`.
pub fn find_first(v: &Vec<char>, c: char) -> (r: Option<usize>)
    ensures
        match r {
            Some(k) => first_index(v@, c) == Some(k as int),
            None => first_index(v@, c) is None,
        },
{
    let mut i: usize = 0;
    while i < v.len()
        invariant
            i <= v@.len(),
            first_index(v@, c) == first_index_from(v@, c, i as int),
        decreases v.len() - i,
    {
        if v[i] == c {
            return Some(i);
        }
        i += 1;
    }
    None
}

/// Index of the last `c` in `v`.
pub fn find_last(v: &Vec<char>, c: char) -> (r: Option<usize>)
    ensures
        match r {
            Some(k) => last_index(v@, c) == Some(k as int),
            None => last_index(v@, c) is None,
        },
{
    let mut j: usize = v.len();
    while j > 0
        invariant
            j <= v@.len(),
            last_index(v@, c) == last_index_before(v@, c, j as int),
        decreases j,
    {
        if v[j - 1] == c {
            return Some(j - 1);
        }
        j -= 1;
    }
    None
}

// ── Substrings ──────────────────────────────────────────────────────────────

/// `needle` occurs in `hay` starting at `i`.
pub open spec fn occurs_at(hay: Seq<char>, needle: Seq<char>, i: int) -> bool {
    0 <= i && i + needle.len() <= hay.len() && hay.subrange(i, i + needle.len() as int) == needle
}

/// `needle` occurs somewhere in `hay` (the empty string occurs everywhere).
pub open spec fn is_substring(needle: Seq<char>, hay: Seq<char>) -> bool {
    exists|i: int| occurs_at(hay, needle, i)
}

/// First position at which `n` occurs in `h`.
pub fn find_substring(h: &Vec<char>, n: &Vec<char>) -> (r: Option<usize>)
    ensures
        match r {
            Some(i) => occurs_at(h@, n@, i as int) && forall|k: int|
                0 <= k < i ==> !occurs_at(h@, n@, k),
            None => forall|k: int| !occurs_at(h@, n@, k),
        },
{
    if n.len() > h.len() {
        proof {
            assert forall|i: int| !occurs_at(h@, n@, i) by {}
        }
        return None;
    }
    let last = h.len() - n.len();
    let mut i: usize = 0;
    while i <= last
        invariant
            last == h@.len() - n@.len(),
            h@.len() <= usize::MAX,
            forall|k: int| 0 <= k < i ==> !occurs_at(h@, n@, k),
        decreases last + 1 - i,
    {
        let mut j: usize = 0;
        while j < n.len()
            invariant
                i <= last,
                last == h@.len() - n@.len(),
                i + n@.len() <= h@.len(),
                h@.len() <= usize::MAX,
                j <= n@.len(),
                forall|m: int| 0 <= m < j ==> h@[i + m] == n@[m],
            ensures
                j <= n@.len(),
                forall|m: int| 0 <= m < j ==> h@[i + m] == n@[m],
                j < n@.len() ==> h@[i + j] != n@[j as int],
            decreases n.len() - j,
        {
            if h[i + j] != n[j] {
                break;
            }
            j += 1;
        }
        if j == n.len() {
            assert(h@.subrange(i as int, i + n@.len()) =~= n@);
            return Some(i);
        }
        assert(!occurs_at(h@, n@, i as int)) by {
            if occurs_at(h@, n@, i as int) {
                assert(h@.subrange(i as int, i + n@.len())[j as int] == h@[i + j]);
            }
        }
        if i == last {
            proof {
                assert forall|k: int| !occurs_at(h@, n@, k) by {
                    if occurs_at(h@, n@, k) {
                        assert(0 <= k <= last);
                    }
                }
            }
            return None;
        }
        i += 1;
    }
    None
}

/// Whether `needle` occurs in `hay`. On UTF-8 text a byte-wise substring is
/// exactly a character-wise one, so this is `str::contains`.
pub fn str_contains(hay: &str, needle: &str) -> (r: bool)
    ensures
        r == is_substring(needle@, hay@),
{
    let h = chars_of(hay);
    let n = chars_of(needle);
    match find_substring(&h, &n) {
        Some(i) => true,
        None => false,
    }
}

// ── Chat tags ───────────────────────────────────────────────────────────────

/// Position of the first `|>` at or after `j`, provided no line break comes
/// before it; `None` when a line break or the end of `s` comes first.
pub open spec fn close_from(s: Seq<char>, j: int) -> Option<int>
    decreases s.len() - j,
{
    if j < 0 || j + 1 >= s.len() {
        None
    } else if s[j] == '|' && s[j + 1] == '>' {
        Some(j)
    } else if s[j] == '\n' {
        None
    } else {
        close_from(s, j + 1)
    }
}

/// End (exclusive) of the chat tag `<|...|>` that starts at `i`, if one does:
/// the tag closes at the first `|>` after the opening `<|`, and holds no line
/// break.
pub open spec fn tag_end(s: Seq<char>, i: int) -> Option<int> {
    if 0 <= i && i + 1 < s.len() && s[i] == '<' && s[i + 1] == '|' {
        match close_from(s, i + 2) {
            Some(j) => Some(j + 2),
            None => None,
        }
    } else {
        None
    }
}

pub proof fn lemma_close_from_bounds(s: Seq<char>, j: int)
    ensures
        close_from(s, j) matches Some(k) ==> j <= k && k + 1 < s.len() && s[k] == '|' && s[k
            + 1] == '>',
    decreases s.len() - j,
{
    if !(j < 0 || j + 1 >= s.len()) && !(s[j] == '|' && s[j + 1] == '>') && s[j] != '\n' {
        lemma_close_from_bounds(s, j + 1);
    }
}

/// `s[i..]` with every chat tag removed, scanning from the left: a tag that
/// starts at the current position is dropped whole, otherwise the character
/// is kept.
pub open spec fn strip_from(s: Seq<char>, i: int) -> Seq<char>
    decreases s.len() - i,
{
    if i < 0 || i >= s.len() {
        Seq::empty()
    } else {
        match tag_end(s, i) {
            Some(e) => {
                proof {
                    lemma_close_from_bounds(s, i + 2);
                }
                strip_from(s, e)
            },
            None => seq![s[i]] + strip_from(s, i + 1),
        }
    }
}

/// `s` with every chat tag `<|...|>` removed.
pub open spec fn strip_chat_tags(s: Seq<char>) -> Seq<char> {
    strip_from(s, 0)
}

/// First `|>` at or after `j` with no line break before it.
fn find_close(s: &Vec<char>, j: usize) -> (r: Option<usize>)
    ensures
        match r {
            Some(k) => close_from(s@, j as int) == Some(k as int),
            None => close_from(s@, j as int) is None,
        },
{
    let n = s.len();
    let mut k = j;
    while k < n && k < n - 1
        invariant
            n == s@.len(),
            j <= k,
            close_from(s@, j as int) == close_from(s@, k as int),
        decreases n - k,
    {
        if s[k] == '|' && s[k + 1] == '>' {
            return Some(k);
        }
        if s[k] == '\n' {
            return None;
        }
        k += 1;
    }
    None
}

/// End of the chat tag that starts at `i`, if any.
fn find_tag_end(s: &Vec<char>, i: usize) -> (r: Option<usize>)
    requires
        i < s@.len(),
    ensures
        match r {
            Some(e) => tag_end(s@, i as int) == Some(e as int),
            None => tag_end(s@, i as int) is None,
        },
{
    if i < s.len() - 1 && s[i] == '<' && s[i + 1] == '|' {
        match find_close(s, i + 2) {
            Some(j) => {
                proof {
                    lemma_close_from_bounds(s@, i as int + 2);
                }
                Some(j + 2)
            },
            None => None,
        }
    } else {
        None
    }
}

/// Removes every chat tag `<|...|>` from `s`.
pub fn remove_chat_tags(s: &str) -> (r: String)
    ensures
        r@ == strip_chat_tags(s@),
{
    let v = chars_of(s);
    let n = v.len();
    let mut out = String::new();
    let mut i: usize = 0;
    while i < n
        invariant
            n == v@.len(),
            v@ == s@,
            i <= n,
            out@ + strip_from(v@, i as int) == strip_from(v@, 0),
        decreases n - i,
    {
        match find_tag_end(&v, i) {
            Some(e) => {
                proof {
                    lemma_close_from_bounds(v@, i as int + 2);
                }
                i = e;
            },
            None => {
                let c = v[i];
                assert(out@ + strip_from(v@, i as int) =~= out@.push(c) + strip_from(
                    v@,
                    i as int + 1,
                ));
                push_char(&mut out, c);
                i += 1;
            },
        }
    }
    assert(out@ + strip_from(v@, n as int) =~= out@);
    out
}

// ── Keeping alphanumeric characters and whitespace ──────────────────────────

/// The characters kept by `alphanumeric_only`.
pub open spec fn is_kept_char(c: char) -> bool {
    is_alphanumeric_char(c) || is_whitespace_char(c)
}

/// `s` with only alphanumeric and whitespace characters, in order.
pub open spec fn keep_alphanumeric(s: Seq<char>) -> Seq<char>
    decreases s.len(),
{
    if s.len() == 0 {
        Seq::empty()
    } else if is_kept_char(s.last()) {
        keep_alphanumeric(s.drop_last()).push(s.last())
    } else {
        keep_alphanumeric(s.drop_last())
    }
}

/// Keeps letters, digits and whitespace; drops every other character.
pub fn alphanumeric_only(s: &str) -> (r: String)
    ensures
        r@ == keep_alphanumeric(s@),
{
    let v = chars_of(s);
    let mut out = String::new();
    let mut i: usize = 0;
    while i < v.len()
        invariant
            v@ == s@,
            i <= v.len(),
            out@ == keep_alphanumeric(v@.take(i as int)),
        decreases v.len() - i,
    {
        let c = v[i];
        assert(v@.take(i as int + 1).drop_last() =~= v@.take(i as int));
        if char_is_alphanumeric(c) || char_is_whitespace(c) {
            push_char(&mut out, c);
        }
        i += 1;
    }
    assert(v@.take(v@.len() as int) =~= v@);
    out
}

// ── Trimming ────────────────────────────────────────────────────────────────

/// `s` without its leading whitespace.
pub open spec fn trim_start(s: Seq<char>) -> Seq<char>
    decreases s.len(),
{
    if s.len() > 0 && is_whitespace_char(s[0]) {
        trim_start(s.drop_first())
    } else {
        s
    }
}

/// `s` without its trailing whitespace.
pub open spec fn trim_end(s: Seq<char>) -> Seq<char>
    decreases s.len(),
{
    if s.len() > 0 && is_whitespace_char(s.last()) {
        trim_end(s.drop_last())
    } else {
        s
    }
}

/// `s` without leading and trailing whitespace.
pub open spec fn trim_spec(s: Seq<char>) -> Seq<char> {
    trim_end(trim_start(s))
}

/// Removes leading and trailing whitespace.
pub fn trim(s: &str) -> (r: String)
    ensures
        r@ == trim_spec(s@),
{
    let v = chars_of(s);
    let n = v.len();
    let mut a: usize = 0;
    assert(v@.subrange(0, n as int) =~= v@);
    while a < n && char_is_whitespace(v[a])
        invariant
            n == v@.len(),
            a <= n,
            trim_start(v@) == trim_start(v@.subrange(a as int, n as int)),
        decreases n - a,
    {
        assert(v@.subrange(a as int, n as int).drop_first() =~= v@.subrange(
            a as int + 1,
            n as int,
        ));
        a += 1;
    }
    assert(trim_start(v@.subrange(a as int, n as int)) == v@.subrange(a as int, n as int));
    let mut b: usize = n;
    while b > a && char_is_whitespace(v[b - 1])
        invariant
            n == v@.len(),
            a <= b <= n,
            trim_end(v@.subrange(a as int, n as int)) == trim_end(
                v@.subrange(a as int, b as int),
            ),
        decreases b,
    {
        assert(v@.subrange(a as int, b as int).drop_last() =~= v@.subrange(
            a as int,
            b as int - 1,
        ));
        b -= 1;
    }
    let mut out = String::new();
    let mut i: usize = a;
    while i < b
        invariant
            a <= i <= b <= n,
            n == v@.len(),
            out@ == v@.subrange(a as int, i as int),
        decreases b - i,
    {
        assert(v@.subrange(a as int, i as int + 1) =~= v@.subrange(a as int, i as int).push(
            v@[i as int],
        ));
        push_char(&mut out, v[i]);
        i += 1;
    }
    out
}

/// Lowercases `s` as `str::to_lowercase` does.
pub fn lowercase(s: &str) -> (r: String)
    ensures
        r@ == lowercase_of(s@),
        is_ascii_text(s@) ==> r@ == s@.map_values(|c: char| ascii_lower(c)),
{
    str_to_lowercase(s)
}

// ── Normalisation ───────────────────────────────────────────────────────────

/// An answer reduced to what is compared: lowercased, chat tags removed,
/// only alphanumeric characters and whitespace kept, then trimmed.
pub open spec fn normalized(s: Seq<char>) -> Seq<char> {
    trim_spec(keep_alphanumeric(strip_chat_tags(lowercase_of(s))))
}

/// Normalises an answer or an expected value for comparison.
pub fn normalize_expected(s: &str) -> (r: String)
    ensures
        r@ == normalized(s@),
{
    let a = lowercase(s);
    let b = remove_chat_tags(a.as_str());
    let c = alphanumeric_only(b.as_str());
    trim(c.as_str())
}

// ── Laws of normalisation ───────────────────────────────────────────────────

/// An ASCII character that lowercasing leaves as it is.
pub open spec fn is_lower_ascii(c: char) -> bool {
    (c as u32) < 128 && !('A' <= c && c <= 'Z')
}

/// A text in normal form: only alphanumeric and whitespace characters, and
/// no whitespace at either end.
pub open spec fn is_normal_form(n: Seq<char>) -> bool {
    &&& forall|k: int| 0 <= k < n.len() ==> is_kept_char(#[trigger] n[k])
    &&& n.len() > 0 ==> !is_whitespace_char(n[0]) && !is_whitespace_char(n.last())
}

proof fn lemma_lowercase_ascii(s: Seq<char>)
    requires
        is_ascii_text(s),
    ensures
        lowercase_of(s).len() == s.len(),
        forall|k: int| 0 <= k < s.len() ==> is_lower_ascii(#[trigger] lowercase_of(s)[k]),
{
    assert forall|k: int| 0 <= k < s.len() implies is_lower_ascii(#[trigger] lowercase_of(s)[k]) by {
        let c = s[k];
        assert((c as u32) < 128);
        if 'A' <= c && c <= 'Z' {
            let v: int = (c as u32) + 32;
            assert(97 <= v <= 122);
            assert(ascii_lower(c) == ((c as u32) + 32) as char);
        }
    }
}

proof fn lemma_strip_keeps(s: Seq<char>, i: int, p: spec_fn(char) -> bool)
    requires
        forall|k: int| 0 <= k < s.len() ==> p(#[trigger] s[k]),
    ensures
        forall|k: int| 0 <= k < strip_from(s, i).len() ==> p(#[trigger] strip_from(s, i)[k]),
    decreases s.len() - i,
{
    if !(i < 0 || i >= s.len()) {
        match tag_end(s, i) {
            Some(e) => {
                lemma_close_from_bounds(s, i + 2);
                lemma_strip_keeps(s, e, p);
                assert(strip_from(s, i) == strip_from(s, e));
            },
            None => {
                lemma_strip_keeps(s, i + 1, p);
                let t = strip_from(s, i + 1);
                assert forall|k: int| 0 <= k < strip_from(s, i).len() implies p(
                    #[trigger] strip_from(s, i)[k],
                ) by {
                    assert(strip_from(s, i) == seq![s[i]] + t);
                    if k > 0 {
                        assert(strip_from(s, i)[k] == t[k - 1]);
                    } else {
                        assert(strip_from(s, i)[0] == s[i]);
                    }
                }
            },
        }
    }
}

proof fn lemma_strip_untagged(s: Seq<char>, i: int)
    requires
        0 <= i <= s.len(),
        forall|k: int| 0 <= k < s.len() ==> #[trigger] s[k] != '<',
    ensures
        strip_from(s, i) == s.subrange(i, s.len() as int),
    decreases s.len() - i,
{
    if i < s.len() {
        lemma_strip_untagged(s, i + 1);
        assert(s.subrange(i, s.len() as int) =~= seq![s[i]] + s.subrange(i + 1, s.len() as int));
    } else {
        assert(s.subrange(i, s.len() as int) =~= Seq::<char>::empty());
    }
}

proof fn lemma_keep_chars(s: Seq<char>, p: spec_fn(char) -> bool)
    ensures
        forall|k: int| 0 <= k < keep_alphanumeric(s).len() ==> is_kept_char(#[trigger] keep_alphanumeric(s)[k]),
        (forall|k: int| 0 <= k < s.len() ==> p(#[trigger] s[k])) ==> forall|k: int|
            0 <= k < keep_alphanumeric(s).len() ==> p(#[trigger] keep_alphanumeric(s)[k]),
    decreases s.len(),
{
    if s.len() > 0 {
        let d = s.drop_last();
        lemma_keep_chars(d, p);
        let kd = keep_alphanumeric(d);
        let ks = keep_alphanumeric(s);
        assert forall|k: int| 0 <= k < ks.len() implies is_kept_char(#[trigger] ks[k]) by {
            if is_kept_char(s.last()) {
                assert(ks == kd.push(s.last()));
                if k < kd.len() {
                    assert(ks[k] == kd[k]);
                }
            } else {
                assert(ks == kd);
            }
        }
        if forall|k: int| 0 <= k < s.len() ==> p(#[trigger] s[k]) {
            assert forall|k: int| 0 <= k < d.len() implies p(#[trigger] d[k]) by {
                assert(d[k] == s[k]);
            }
            assert forall|k: int| 0 <= k < ks.len() implies p(#[trigger] ks[k]) by {
                if is_kept_char(s.last()) {
                    assert(ks == kd.push(s.last()));
                    if k < kd.len() {
                        assert(ks[k] == kd[k]);
                    } else {
                        assert(p(s[s.len() - 1]));
                    }
                } else {
                    assert(ks == kd);
                }
            }
        }
    }
}

proof fn lemma_keep_all_kept(s: Seq<char>)
    requires
        forall|k: int| 0 <= k < s.len() ==> is_kept_char(#[trigger] s[k]),
    ensures
        keep_alphanumeric(s) == s,
    decreases s.len(),
{
    if s.len() > 0 {
        assert forall|k: int| 0 <= k < s.drop_last().len() implies is_kept_char(
            #[trigger] s.drop_last()[k],
        ) by {
            assert(s.drop_last()[k] == s[k]);
        }
        lemma_keep_all_kept(s.drop_last());
        assert(s.drop_last().push(s.last()) =~= s);
    }
}

proof fn lemma_trim_start(s: Seq<char>)
    ensures
        exists|a: int|
            0 <= a <= s.len() && trim_start(s) == s.subrange(a, s.len() as int) && (a < s.len()
                ==> !is_whitespace_char(s[a])),
    decreases s.len(),
{
    if s.len() > 0 && is_whitespace_char(s[0]) {
        lemma_trim_start(s.drop_first());
        let a = choose|a: int|
            0 <= a <= s.drop_first().len() && trim_start(s.drop_first()) == s.drop_first().subrange(
                a,
                s.drop_first().len() as int,
            ) && (a < s.drop_first().len() ==> !is_whitespace_char(s.drop_first()[a]));
        assert(s.drop_first().subrange(a, s.drop_first().len() as int) =~= s.subrange(
            a + 1,
            s.len() as int,
        ));
        if a < s.drop_first().len() {
            assert(s.drop_first()[a] == s[a + 1]);
        }
    } else {
        assert(s.subrange(0, s.len() as int) =~= s);
    }
}

proof fn lemma_trim_end(s: Seq<char>)
    ensures
        exists|b: int|
            0 <= b <= s.len() && trim_end(s) == s.subrange(0, b) && (b > 0 ==> !is_whitespace_char(
                s[b - 1],
            )),
    decreases s.len(),
{
    if s.len() > 0 && is_whitespace_char(s.last()) {
        lemma_trim_end(s.drop_last());
        let b = choose|b: int|
            0 <= b <= s.drop_last().len() && trim_end(s.drop_last()) == s.drop_last().subrange(0, b)
                && (b > 0 ==> !is_whitespace_char(s.drop_last()[b - 1]));
        assert(s.drop_last().subrange(0, b) =~= s.subrange(0, b));
        if b > 0 {
            assert(s.drop_last()[b - 1] == s[b - 1]);
        }
    } else {
        assert(s.subrange(0, s.len() as int) =~= s);
    }
}

/// Trimming gives a piece of the text with no whitespace at either end.
proof fn lemma_trim_piece(s: Seq<char>)
    ensures
        exists|a: int, b: int|
            0 <= a <= b <= s.len() && #[trigger] trim_spec(s) == s.subrange(a, b),
        trim_spec(s).len() > 0 ==> !is_whitespace_char(trim_spec(s)[0]) && !is_whitespace_char(
            trim_spec(s).last(),
        ),
{
    lemma_trim_start(s);
    let a = choose|a: int|
        0 <= a <= s.len() && trim_start(s) == s.subrange(a, s.len() as int) && (a < s.len()
            ==> !is_whitespace_char(s[a]));
    let t = trim_start(s);
    lemma_trim_end(t);
    let b = choose|b: int|
        0 <= b <= t.len() && trim_end(t) == t.subrange(0, b) && (b > 0 ==> !is_whitespace_char(
            t[b - 1],
        ));
    assert(t.subrange(0, b) =~= s.subrange(a, a + b));
    if b > 0 {
        assert(trim_spec(s)[0] == s[a]);
    }
}

proof fn lemma_trim_clean(s: Seq<char>)
    requires
        s.len() > 0 ==> !is_whitespace_char(s[0]) && !is_whitespace_char(s.last()),
    ensures
        trim_spec(s) == s,
{
    if s.len() > 0 {
        assert(trim_start(s) == s);
        assert(trim_end(s) == s);
    }
}

/// What normalisation gives is in normal form: only alphanumeric and
/// whitespace characters, no whitespace at either end; for ASCII input it
/// is ASCII with no uppercase letter.
pub proof fn lemma_normalized_form(s: Seq<char>)
    ensures
        is_normal_form(normalized(s)),
        is_ascii_text(s) ==> forall|k: int|
            0 <= k < normalized(s).len() ==> is_lower_ascii(#[trigger] normalized(s)[k]),
{
    let l = lowercase_of(s);
    let st = strip_chat_tags(l);
    let kp = keep_alphanumeric(st);
    let n = trim_spec(kp);
    let p = |c: char| is_lower_ascii(c);
    lemma_keep_chars(st, p);
    lemma_trim_piece(kp);
    let (a, b) = choose|a: int, b: int| 0 <= a <= b <= kp.len() && #[trigger] trim_spec(kp) == kp.subrange(a, b);
    assert forall|k: int| 0 <= k < n.len() implies is_kept_char(#[trigger] n[k]) by {
        assert(n[k] == kp[a + k]);
    }
    if is_ascii_text(s) {
        lemma_lowercase_ascii(s);
        assert forall|k: int| 0 <= k < l.len() implies p(#[trigger] l[k]) by {}
        lemma_strip_keeps(l, 0, p);
        assert forall|k: int| 0 <= k < n.len() implies is_lower_ascii(#[trigger] n[k]) by {
            assert(n[k] == kp[a + k]);
            assert(p(kp[a + k]));
        }
    }
}

/// Normalising an ASCII answer twice gives what normalising it once gives.
pub proof fn lemma_normalize_idempotent(s: Seq<char>)
    requires
        is_ascii_text(s),
    ensures
        normalized(normalized(s)) == normalized(s),
{
    let n = normalized(s);
    lemma_normalized_form(s);
    assert(is_ascii_text(n)) by {
        assert forall|i: int| 0 <= i < n.len() implies (#[trigger] n[i] as u32) < 128 by {
            assert(is_lower_ascii(n[i]));
        }
    }
    assert forall|k: int| 0 <= k < n.len() implies ascii_lower(#[trigger] n[k]) == n[k] by {
        assert(is_lower_ascii(n[k]));
    }
    assert(lowercase_of(n) =~= n);
    assert forall|k: int| 0 <= k < n.len() implies #[trigger] n[k] != '<' by {
        assert(is_kept_char(n[k]));
        assert(is_lower_ascii(n[k]));
    }
    lemma_strip_untagged(n, 0);
    assert(n.subrange(0, n.len() as int) =~= n);
    lemma_keep_all_kept(n);
    lemma_trim_clean(n);
}

/// Character-wise equality of two strings.
pub fn str_eq(a: &str, b: &str) -> (r: bool)
    ensures
        r == (a@ == b@),
{
    let x = chars_of(a);
    let y = chars_of(b);
    if x.len() != y.len() {
        return false;
    }
    let mut i: usize = 0;
    while i < x.len()
        invariant
            x@ == a@,
            y@ == b@,
            x@.len() == y@.len(),
            i <= x.len(),
            forall|k: int| 0 <= k < i ==> x@[k] == y@[k],
        decreases x.len() - i,
    {
        if x[i] != y[i] {
            return false;
        }
        i += 1;
    }
    assert(x@ =~= y@);
    true
}

/// Operations on answers, as methods.
pub trait StringBenchExt {
    /// Keeps letters, digits and whitespace.
    fn alphanumeric_only(&self) -> String;

    /// Lowercases.
    fn lowercase(&self) -> String;

    /// Removes `<|tag|>` chat markers.
    fn remove_chat_tags(&self) -> String;
}

impl StringBenchExt for String {
    fn alphanumeric_only(&self) -> (r: String)
        ensures
            r@ == keep_alphanumeric(self@),
    {
        alphanumeric_only(self.as_str())
    }

    fn lowercase(&self) -> (r: String)
        ensures
            r@ == lowercase_of(self@),
    {
        lowercase(self.as_str())
    }

    fn remove_chat_tags(&self) -> (r: String)
        ensures
            r@ == strip_chat_tags(self@),
    {
        remove_chat_tags(self.as_str())
    }
}

impl StringBenchExt for str {
    fn alphanumeric_only(&self) -> (r: String)
        ensures
            r@ == keep_alphanumeric(self@),
    {
        alphanumeric_only(self)
    }

    fn lowercase(&self) -> (r: String)
        ensures
            r@ == lowercase_of(self@),
    {
        lowercase(self)
    }

    fn remove_chat_tags(&self) -> (r: String)
        ensures
            r@ == strip_chat_tags(self@),
    {
        remove_chat_tags(self)
    }
}

} // verus!
