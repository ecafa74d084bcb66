//! Text as a sequence of characters: searching, trimming and cutting.
//!
//! Every position in this module counts characters, never bytes. The
//! specification functions speak of `Seq<char>`; the executable functions work
//! on `&[char]` and hand out sub-slices without copying.
use vstd::prelude::*;
use vstd::slice::slice_subrange;

verus! {

/// `String::push` of std: the string afterwards is the string before with
/// the character `c` at its end, and nothing else changes.
pub assume_specification[ String::push ](s: &mut String, c: char)
    ensures
        final(s)@ == old(s)@.push(c),
;

/// White space as Unicode defines it (`White_Space`).
#[verifier::opaque]
pub open spec fn is_space(c: char) -> bool {
    let n = c as u32;
    ||| 0x09 <= n <= 0x0D
    ||| n == 0x20
    ||| n == 0x85
    ||| n == 0xA0
    ||| n == 0x1680
    ||| 0x2000 <= n <= 0x200A
    ||| n == 0x2028
    ||| n == 0x2029
    ||| n == 0x202F
    ||| n == 0x205F
    ||| n == 0x3000
}

/// The first position at or after `from` that holds `c`; `s.len()` where there
/// is none.
pub open spec fn first_index(s: Seq<char>, c: char, from: int) -> int
    decreases s.len() - from,
{
    if from < 0 || from >= s.len() {
        s.len() as int
    } else if s[from] == c {
        from
    } else {
        first_index(s, c, from + 1)
    }
}

/// The last position below `end` that holds `c`; `-1` where there is none.
pub open spec fn last_index(s: Seq<char>, c: char, end: int) -> int
    decreases end,
{
    if end <= 0 || end > s.len() {
        -1
    } else if s[end - 1] == c {
        end - 1
    } else {
        last_index(s, c, end - 1)
    }
}

/// The first position at or after `from` that holds white space; `s.len()`
/// where there is none.
pub open spec fn first_space(s: Seq<char>, from: int) -> int
    decreases s.len() - from,
{
    if from < 0 || from >= s.len() {
        s.len() as int
    } else if is_space(s[from]) {
        from
    } else {
        first_space(s, from + 1)
    }
}

/// The number of white-space characters that `s` begins with.
pub open spec fn leading_spaces(s: Seq<char>, from: int) -> int
    decreases s.len() - from,
{
    if from < 0 || from >= s.len() {
        s.len() as int
    } else if !is_space(s[from]) {
        from
    } else {
        leading_spaces(s, from + 1)
    }
}

/// The position just behind the last character below `end` that is no white
/// space; `0` where there is none.
pub open spec fn content_end(s: Seq<char>, end: int) -> int
    decreases end,
{
    if end <= 0 || end > s.len() {
        0
    } else if !is_space(s[end - 1]) {
        end
    } else {
        content_end(s, end - 1)
    }
}

/// `s` without the white space at its two ends.
pub open spec fn trimmed(s: Seq<char>) -> Seq<char> {
    let from = leading_spaces(s, 0);
    let to = content_end(s, s.len() as int);
    if from < to {
        s.subrange(from, to)
    } else {
        Seq::empty()
    }
}

/// `a` stands somewhere in `s` with `b` directly behind it.
pub open spec fn has_pair(s: Seq<char>, a: char, b: char) -> bool {
    exists|i: int| 0 <= i && i + 1 < s.len() && #[trigger] s[i] == a && s[i + 1] == b
}

/// `s` with every line feed turned into a blank.
pub open spec fn unfolded(s: Seq<char>) -> Seq<char> {
    Seq::new(
        s.len(),
        |i: int|
            if s[i] == '\n' {
                ' '
            } else {
                s[i]
            },
    )
}

/// The characters of `s` from position `begin` to position `end`, both
/// included; nothing where the two do not name such a stretch.
pub open spec fn substring(s: Seq<char>, begin: int, end: int) -> Seq<char> {
    if 0 <= begin <= end < s.len() {
        s.subrange(begin, end + 1)
    } else {
        Seq::empty()
    }
}

/// Where `first_index` points: at `c` or at the end, with no `c` before it.
pub proof fn lemma_first_index(s: Seq<char>, c: char, from: int)
    requires
        0 <= from <= s.len(),
    ensures
        from <= first_index(s, c, from) <= s.len(),
        first_index(s, c, from) < s.len() ==> s[first_index(s, c, from)] == c,
        forall|k: int| from <= k < first_index(s, c, from) ==> s[k] != c,
    decreases s.len() - from,
{
    if from < s.len() && s[from] != c {
        lemma_first_index(s, c, from + 1);
    }
}

/// Where `leading_spaces` points: at a character that is no white space or
/// at the end, with nothing but white space before it.
pub proof fn lemma_leading_spaces(s: Seq<char>, from: int)
    requires
        0 <= from <= s.len(),
    ensures
        from <= leading_spaces(s, from) <= s.len(),
        leading_spaces(s, from) < s.len() ==> !is_space(s[leading_spaces(s, from)]),
        forall|k: int| from <= k < leading_spaces(s, from) ==> is_space(s[k]),
    decreases s.len() - from,
{
    if from < s.len() && is_space(s[from]) {
        lemma_leading_spaces(s, from + 1);
    }
}

/// Where `content_end` points: behind a character that is no white space or
/// at the beginning, with nothing but white space behind it.
pub proof fn lemma_content_end(s: Seq<char>, end: int)
    requires
        0 <= end <= s.len(),
    ensures
        0 <= content_end(s, end) <= end,
        content_end(s, end) > 0 ==> !is_space(s[content_end(s, end) - 1]),
        forall|k: int| content_end(s, end) <= k < end ==> is_space(s[k]),
    decreases end,
{
    if end > 0 && is_space(s[end - 1]) {
        lemma_content_end(s, end - 1);
    }
}

/// Trimming makes no text longer, and what is left neither begins nor ends
/// with white space.
pub proof fn lemma_trimmed(s: Seq<char>)
    ensures
        trimmed(s).len() <= s.len(),
        trimmed(s).len() > 0 ==> !is_space(trimmed(s)[0]) && !is_space(trimmed(s).last()),
{
    lemma_leading_spaces(s, 0);
    lemma_content_end(s, s.len() as int);
}

/// The first `c` at or after `from` stands at `at`, where nothing before `at`
/// is `c` and `at` holds `c` or is the end.
pub proof fn lemma_first_index_is(s: Seq<char>, c: char, from: int, at: int)
    requires
        0 <= from <= at <= s.len(),
        forall|k: int| from <= k < at ==> s[k] != c,
        at < s.len() ==> s[at] == c,
    ensures
        first_index(s, c, from) == at,
    decreases at - from,
{
    if from < at {
        lemma_first_index_is(s, c, from + 1, at);
    }
}

/// The last `c` below `end` stands at `at`, where nothing behind `at` is `c`
/// and `at` holds `c` or is `-1`.
pub proof fn lemma_last_index_is(s: Seq<char>, c: char, end: int, at: int)
    requires
        -1 <= at < end <= s.len(),
        forall|k: int| at < k < end ==> s[k] != c,
        at >= 0 ==> s[at] == c,
    ensures
        last_index(s, c, end) == at,
    decreases end - at,
{
    if at + 1 < end {
        lemma_last_index_is(s, c, end - 1, at);
    }
}

/// The first white space at or after `from` stands at `at`, where nothing
/// before `at` is white space and `at` holds white space or is the end.
pub proof fn lemma_first_space_is(s: Seq<char>, from: int, at: int)
    requires
        0 <= from <= at <= s.len(),
        forall|k: int| from <= k < at ==> !is_space(s[k]),
        at < s.len() ==> is_space(s[at]),
    ensures
        first_space(s, from) == at,
    decreases at - from,
{
    if from < at {
        lemma_first_space_is(s, from + 1, at);
    }
}

/// Trimming leaves the stretch from `from` to `to`, where that stretch
/// neither begins nor ends with white space and nothing but white space
/// stands around it.
pub proof fn lemma_trimmed_is(s: Seq<char>, from: int, to: int)
    requires
        0 <= from < to <= s.len(),
        forall|k: int| 0 <= k < from ==> is_space(s[k]),
        forall|k: int| to <= k < s.len() ==> is_space(s[k]),
        !is_space(s[from]),
        !is_space(s[to - 1]),
    ensures
        trimmed(s) == s.subrange(from, to),
{
    lemma_leading_is(s, 0, from);
    lemma_content_end_is(s, s.len() as int, to);
}

/// The white space at the beginning ends at `at`.
pub proof fn lemma_leading_is(s: Seq<char>, from: int, at: int)
    requires
        0 <= from <= at <= s.len(),
        forall|k: int| from <= k < at ==> is_space(s[k]),
        at < s.len() ==> !is_space(s[at]),
    ensures
        leading_spaces(s, from) == at,
    decreases at - from,
{
    if from < at {
        lemma_leading_is(s, from + 1, at);
    }
}

/// The white space at the end begins at `at`.
pub proof fn lemma_content_end_is(s: Seq<char>, end: int, at: int)
    requires
        0 <= at <= end <= s.len(),
        forall|k: int| at <= k < end ==> is_space(s[k]),
        at > 0 ==> !is_space(s[at - 1]),
    ensures
        content_end(s, end) == at,
    decreases end - at,
{
    if at < end {
        lemma_content_end_is(s, end - 1, at);
    }
}

/// Blanks, tabs and line feeds are white space; brackets, quotes, slashes
/// and the equals sign are not.
pub proof fn lemma_spaces()
    ensures
        is_space(' '),
        is_space('\t'),
        is_space('\n'),
        is_space('\r'),
        !is_space('<'),
        !is_space('>'),
        !is_space('"'),
        !is_space('/'),
        !is_space('='),
{
    reveal(is_space);
}

/// Tells whether `c` is white space.
pub fn is_space_char(c: char) -> (r: bool)
    ensures
        r == is_space(c),
{
    proof {
        reveal(is_space);
    }
    let n: u32 = c as u32;
    (0x09 <= n && n <= 0x0D) || n == 0x20 || n == 0x85 || n == 0xA0 || n == 0x1680 || (0x2000 <= n
        && n <= 0x200A) || n == 0x2028 || n == 0x2029 || n == 0x202F || n == 0x205F || n == 0x3000
}

/// Finds the first `c` at or after `from`; gives `s.len()` where there is none.
pub fn find_char(s: &[char], c: char, from: usize) -> (r: usize)
    ensures
        r == first_index(s@, c, from as int),
        r <= s@.len(),
        r < s@.len() ==> from <= r && s@[r as int] == c,
{
    if from >= s.len() {
        return s.len();
    }
    let mut i: usize = from;
    while i < s.len() && s[i] != c
        invariant
            from <= i <= s.len(),
            first_index(s@, c, from as int) == first_index(s@, c, i as int),
        decreases s.len() - i,
    {
        i += 1;
    }
    i
}

/// Finds the last `c`; gives `None` where there is none.
pub fn rfind_char(s: &[char], c: char) -> (r: Option<usize>)
    ensures
        match r {
            Some(i) => i == last_index(s@, c, s@.len() as int) && i < s@.len() && s@[i as int] == c,
            None => last_index(s@, c, s@.len() as int) == -1,
        },
{
    let mut i: usize = s.len();
    while i > 0 && s[i - 1] != c
        invariant
            i <= s.len(),
            last_index(s@, c, s@.len() as int) == last_index(s@, c, i as int),
        decreases i,
    {
        i -= 1;
    }
    if i == 0 {
        None
    } else {
        Some(i - 1)
    }
}

/// Finds the first white space at or after `from`; gives `s.len()` where there
/// is none.
pub fn find_space(s: &[char], from: usize) -> (r: usize)
    ensures
        r == first_space(s@, from as int),
        r <= s@.len(),
        r < s@.len() ==> from <= r && is_space(s@[r as int]),
{
    if from >= s.len() {
        return s.len();
    }
    let mut i: usize = from;
    while i < s.len() && !is_space_char(s[i])
        invariant
            from <= i <= s.len(),
            first_space(s@, from as int) == first_space(s@, i as int),
        decreases s.len() - i,
    {
        i += 1;
    }
    i
}

/// Tells whether `a` stands somewhere in `s` with `b` directly behind it.
pub fn contains_pair(s: &[char], a: char, b: char) -> (r: bool)
    ensures
        r == has_pair(s@, a, b),
{
    if s.len() < 2 {
        return false;
    }
    let mut i: usize = 0;
    while i < s.len() - 1
        invariant
            i < s.len(),
            forall|k: int|
                0 <= k < i && k + 1 < s@.len() ==> !(#[trigger] s@[k] == a && s@[k + 1] == b),
        decreases s.len() - i,
    {
        if s[i] == a && s[i + 1] == b {
            return true;
        }
        i += 1;
    }
    false
}

/// The part of `s` between the white space at its two ends.
pub fn trim_chars(s: &[char]) -> (r: &[char])
    ensures
        r@ == trimmed(s@),
{
    let mut from: usize = 0;
    while from < s.len() && is_space_char(s[from])
        invariant
            from <= s.len(),
            leading_spaces(s@, 0) == leading_spaces(s@, from as int),
        decreases s.len() - from,
    {
        from += 1;
    }
    let mut to: usize = s.len();
    while to > 0 && is_space_char(s[to - 1])
        invariant
            to <= s.len(),
            content_end(s@, s@.len() as int) == content_end(s@, to as int),
        decreases to,
    {
        to -= 1;
    }
    if from < to {
        slice_subrange(s, from, to)
    } else {
        slice_subrange(s, 0, 0)
    }
}

/// A copy of `s` in which every line feed has become a blank.
pub fn unfold_lines(s: &[char]) -> (r: Vec<char>)
    ensures
        r@ == unfolded(s@),
{
    let mut r: Vec<char> = Vec::new();
    let mut i: usize = 0;
    while i < s.len()
        invariant
            i <= s.len(),
            r@.len() == i,
            forall|k: int| 0 <= k < i ==> r@[k] == unfolded(s@)[k],
        decreases s.len() - i,
    {
        if s[i] == '\n' {
            r.push(' ');
        } else {
            r.push(s[i]);
        }
        i += 1;
    }
    assert(r@ =~= unfolded(s@));
    r
}

/// The characters of a string, in order.
pub fn to_chars(s: &str) -> (v: Vec<char>)
    ensures
        v@ == s@,
{
    let mut v: Vec<char> = Vec::new();
    for c in it: s.chars()
        invariant
            v@ == it.seq().take(it.index() as int),
            it.seq() == s@,
    {
        v.push(c);
    }
    v
}

/// The string made of the characters of `s`, in order.
pub fn to_text(s: &[char]) -> (r: String)
    ensures
        r@ == s@,
{
    let mut r = String::new();
    let mut i: usize = 0;
    while i < s.len()
        invariant
            i <= s.len(),
            r@ == s@.take(i as int),
        decreases s.len() - i,
    {
        r.push(s[i]);
        assert(s@.take(i as int).push(s@[i as int]) =~= s@.take(i + 1));
        i += 1;
    }
    r
}

/// The characters of `string` from position `begin` to position `end`, both
/// included. Where `begin` lies behind `end`, or either lies outside the
/// string, the result is empty.
pub fn substr_any(string: &String, begin: &usize, end: &usize) -> (r: String)
    ensures
        r@ == substring(string@, *begin as int, *end as int),
{
    let text = string.as_str();
    if *begin > *end || *end >= text.unicode_len() {
        return String::new();
    }
    String::from_str(text.substring_char(*begin, *end + 1))
}

/// The characters of `string` from position `begin` to position `end`, both
/// included, or the reason why the two name no such stretch.
pub fn substr_try(string: &String, begin: &usize, end: &usize) -> (r: Result<String, &'static str>)
    ensures
        *begin <= *end < string@.len() <==> r is Ok,
        r matches Ok(text) ==> text@ == string@.subrange(*begin as int, *end + 1),
        r matches Err(reason) ==> reason@ == (if *begin > *end {
            "invalid begin > end"@
        } else if *begin >= string@.len() {
            "invalid begin index"@
        } else {
            "invalid end index"@
        }),
{
    let text = string.as_str();
    if *begin > *end {
        return Err("invalid begin > end");
    }
    let len = text.unicode_len();
    if *begin >= len {
        return Err("invalid begin index");
    }
    if *end >= len {
        return Err("invalid end index");
    }
    Ok(String::from_str(text.substring_char(*begin, *end + 1)))
}

} // verus!
