//! Conversions between strings and character vectors, shared by the asset
//! resolver and the command-line logic.
use vstd::prelude::*;
use vstd::string::StringExecFns;
use vstd::utf8::{decode_utf8, valid_utf8};

verus! {

broadcast use {vstd::string::axiom_spec_iter, vstd::string::next_postcondition};

use vstd::std_specs::iter::IteratorSpec;

/// The characters of `s`, in order.
pub fn chars_of(s: &str) -> (v: Vec<char>)
    ensures
        v@ == s@,
{
    let mut v: Vec<char> = Vec::new();
    let mut it = s.chars();
    loop
        invariant
            v@ + it.remaining() == s@,
            it.decrease() is Some,
        ensures
            v@ == s@,
        decreases it.decrease()->0,
    {
        let ghost before = it.remaining();
        match it.next() {
            Some(c) => {
                assert(v@.push(c) + it.remaining() =~= v@ + before);
                v.push(c);
            },
            None => {
                assert(v@ =~= s@);
                break;
            },
        }
    }
    v
}

/// Appends one character (`String::push`).
#[verifier::external_body]
fn push_char(s: &mut String, c: char)
    ensures
        final(s)@ == old(s)@.push(c),
{
    s.push(c);
}

/// The string made of `v[from..to]`.
pub fn string_of_range(v: &Vec<char>, from: usize, to: usize) -> (s: String)
    requires
        from <= to <= v.len(),
    ensures
        s@ == v@.subrange(from as int, to as int),
{
    let mut s = String::new();
    let mut i = from;
    while i < to
        invariant
            from <= i <= to <= v.len(),
            s@ == v@.subrange(from as int, i as int),
        decreases to - i,
    {
        push_char(&mut s, v[i]);
        assert(v@.subrange(from as int, i + 1) =~= v@.subrange(from as int, i as int).push(v@[i as int]));
        i = i + 1;
    }
    s
}

/// The string made of all of `v`.
pub fn string_of(v: &Vec<char>) -> (s: String)
    ensures
        s@ == v@,
{
    let s = string_of_range(v, 0, v.len());
    assert(v@.subrange(0, v@.len() as int) =~= v@);
    s
}

/// A copy of `s`.
pub fn copy_str(s: &str) -> (r: String)
    ensures
        r@ == s@,
{
    s.to_owned()
}

/// `true` when `a` and `b` hold the same characters.
pub fn str_eq(a: &str, b: &str) -> (r: bool)
    ensures
        r == (a@ == b@),
{
    let x = a.to_owned();
    let y = b.to_owned();
    x == y
}

/// `true` when `s` starts with `prefix`.
pub fn starts_with_chars(s: &Vec<char>, from: usize, prefix: &Vec<char>) -> (r: bool)
    requires
        from <= s.len(),
    ensures
        r == (from + prefix.len() <= s.len() && s@.subrange(from as int, from + prefix.len()) == prefix@),
{
    if prefix.len() > s.len() - from {
        return false;
    }
    let mut i: usize = 0;
    while i < prefix.len()
        invariant
            from + prefix.len() <= s.len(),
            i <= prefix.len(),
            forall|j: int| 0 <= j < i ==> s@[from + j] == prefix@[j],
        decreases prefix.len() - i,
    {
        if s[from + i] != prefix[i] {
            assert(s@.subrange(from as int, from + prefix.len())[i as int] != prefix@[i as int]);
            return false;
        }
        i = i + 1;
    }
    assert(s@.subrange(from as int, from + prefix.len()) =~= prefix@);
    true
}

/// Decodes UTF-8 text (`std::str::from_utf8`, then an owned copy): the text
/// when `bytes` are valid UTF-8, `None` otherwise.
#[verifier::external_body]
pub(crate) fn utf8_text(bytes: &[u8]) -> (r: Option<String>)
    ensures
        r is Some <==> valid_utf8(bytes@),
        r matches Some(s) ==> s@ == decode_utf8(bytes@),
{
    std::str::from_utf8(bytes).ok().map(|s| s.to_string())
}

/// Appends a string.
pub(crate) fn push_str(s: &mut String, other: &str)
    ensures
        final(s)@ == old(s)@ + other@,
{
    s.append(other);
}

// ---------------------------------------------------------------------------
// Whitespace and trimming
// ---------------------------------------------------------------------------

/// Unicode `White_Space`, the set `char::is_whitespace` tests.
pub open spec fn is_space(c: char) -> bool {
    let u = c as u32;
    (9 <= u <= 13) || u == 32 || u == 0x85 || u == 0xa0 || u == 0x1680 || (0x2000 <= u <= 0x200a)
        || u == 0x2028 || u == 0x2029 || u == 0x202f || u == 0x205f || u == 0x3000
}

pub fn is_space_char(c: char) -> (b: bool)
    ensures
        b == is_space(c),
{
    let u = c as u32;
    (9 <= u && u <= 13) || u == 32 || u == 0x85 || u == 0xa0 || u == 0x1680 || (0x2000 <= u && u <= 0x200a)
        || u == 0x2028 || u == 0x2029 || u == 0x202f || u == 0x205f || u == 0x3000
}

/// `s` without leading whitespace.
pub open spec fn trim_start(s: Seq<char>) -> Seq<char>
    decreases s.len(),
{
    if s.len() > 0 && is_space(s[0]) {
        trim_start(s.drop_first())
    } else {
        s
    }
}

/// `s` without trailing whitespace.
pub open spec fn trim_end(s: Seq<char>) -> Seq<char>
    decreases s.len(),
{
    if s.len() > 0 && is_space(s.last()) {
        trim_end(s.drop_last())
    } else {
        s
    }
}

/// `s` without leading and trailing whitespace (`str::trim`).
pub open spec fn trim(s: Seq<char>) -> Seq<char> {
    trim_end(trim_start(s))
}

proof fn lemma_trim_start_at(s: Seq<char>, k: int)
    requires
        0 <= k <= s.len(),
        forall|j: int| 0 <= j < k ==> is_space(#[trigger] s[j]),
        k == s.len() || !is_space(s[k]),
    ensures
        trim_start(s) == s.subrange(k, s.len() as int),
    decreases k,
{
    if k == 0 {
        assert(s.subrange(0, s.len() as int) =~= s);
    } else {
        assert(is_space(s[0]));
        lemma_trim_start_at(s.drop_first(), k - 1);
        assert(s.drop_first().subrange(k - 1, s.len() - 1) =~= s.subrange(k, s.len() as int));
    }
}

proof fn lemma_trim_end_at(s: Seq<char>, k: int)
    requires
        0 <= k <= s.len(),
        forall|j: int| k <= j < s.len() ==> is_space(#[trigger] s[j]),
        k == 0 || !is_space(s[k - 1]),
    ensures
        trim_end(s) == s.subrange(0, k),
    decreases s.len() - k,
{
    if k == s.len() {
        assert(s.subrange(0, k) =~= s);
    } else {
        assert(is_space(s[s.len() - 1]));
        lemma_trim_end_at(s.drop_last(), k);
        assert(s.drop_last().subrange(0, k) =~= s.subrange(0, k));
    }
}

/// The bounds `[a, b)` of `v` without leading and trailing whitespace.
pub fn trim_bounds(v: &Vec<char>, from: usize, to: usize) -> (r: (usize, usize))
    requires
        from <= to <= v.len(),
    ensures
        from <= r.0 <= r.1 <= to,
        v@.subrange(r.0 as int, r.1 as int) == trim(v@.subrange(from as int, to as int)),
{
    let ghost s = v@.subrange(from as int, to as int);
    let mut a = from;
    while a < to && is_space_char(v[a])
        invariant
            from <= a <= to <= v.len(),
            forall|j: int| from <= j < a ==> is_space(#[trigger] v@[j]),
        decreases to - a,
    {
        a = a + 1;
    }
    proof {
        assert forall|j: int| 0 <= j < a - from implies is_space(#[trigger] s[j]) by {
            assert(s[j] == v@[from + j]);
        }
        lemma_trim_start_at(s, a - from);
        assert(s.subrange(a - from, s.len() as int) =~= v@.subrange(a as int, to as int));
    }
    let ghost t = v@.subrange(a as int, to as int);
    let mut b = to;
    while b > a && is_space_char(v[b - 1])
        invariant
            from <= a <= b <= to <= v.len(),
            forall|j: int| b <= j < to ==> is_space(#[trigger] v@[j]),
        decreases b - a,
    {
        b = b - 1;
    }
    proof {
        assert forall|j: int| b - a <= j < t.len() implies is_space(#[trigger] t[j]) by {
            assert(t[j] == v@[a + j]);
        }
        if b > a {
            assert(t[b - a - 1] == v@[b - 1]);
        }
        lemma_trim_end_at(t, b - a);
        assert(t.subrange(0, b - a) =~= v@.subrange(a as int, b as int));
    }
    (a, b)
}

// ---------------------------------------------------------------------------
// Lines
// ---------------------------------------------------------------------------

/// Index of the first `c` in `s`, or `s.len()` when there is none.
pub open spec fn index_of(s: Seq<char>, c: char) -> int
    decreases s.len(),
{
    if s.len() == 0 {
        0
    } else if s[0] == c {
        0
    } else {
        1 + index_of(s.drop_first(), c)
    }
}

pub proof fn lemma_index_of(s: Seq<char>, c: char)
    ensures
        0 <= index_of(s, c) <= s.len(),
        forall|j: int| 0 <= j < index_of(s, c) ==> s[j] != c,
        index_of(s, c) < s.len() ==> s[index_of(s, c)] == c,
    decreases s.len(),
{
    if s.len() > 0 && s[0] != c {
        lemma_index_of(s.drop_first(), c);
        assert forall|j: int| 0 <= j < index_of(s, c) implies s[j] != c by {
            if j > 0 {
                assert(s[j] == s.drop_first()[j - 1]);
            }
        }
    }
}

proof fn lemma_index_of_at(s: Seq<char>, c: char, k: int)
    requires
        0 <= k <= s.len(),
        forall|j: int| 0 <= j < k ==> #[trigger] s[j] != c,
        k == s.len() || s[k] == c,
    ensures
        index_of(s, c) == k,
    decreases k,
{
    if k > 0 {
        assert(s[0] != c);
        assert forall|j: int| 0 <= j < k - 1 implies #[trigger] s.drop_first()[j] != c by {
            assert(s.drop_first()[j] == s[j + 1]);
        }
        lemma_index_of_at(s.drop_first(), c, k - 1);
    }
}

/// `line` without a carriage return at its end.
pub open spec fn strip_cr(line: Seq<char>) -> Seq<char> {
    if line.len() > 0 && line.last() == '\r' {
        line.drop_last()
    } else {
        line
    }
}

/// The lines of `s` (`str::lines`): split at `\n`, a `\r` before the `\n`
/// dropped, no empty line after a final `\n`.
pub open spec fn lines_of(s: Seq<char>) -> Seq<Seq<char>>
    decreases s.len(),
{
    if s.len() == 0 {
        seq![]
    } else {
        let k = index_of(s, '\n');
        if 0 <= k < s.len() {
            seq![strip_cr(s.subrange(0, k))] + lines_of(s.subrange(k + 1, s.len() as int))
        } else {
            seq![s]
        }
    }
}

/// The lines of `v`.
pub fn split_lines(v: &Vec<char>) -> (r: Vec<Vec<char>>)
    ensures
        r@.map_values(|l: Vec<char>| l@) == lines_of(v@),
{
    let mut r: Vec<Vec<char>> = Vec::new();
    let mut i: usize = 0;
    assert(v@.subrange(0, v.len() as int) =~= v@);
    assert(r@.map_values(|l: Vec<char>| l@) =~= Seq::<Seq<char>>::empty());
    assert(Seq::<Seq<char>>::empty() + lines_of(v@) =~= lines_of(v@));
    while i < v.len()
        invariant
            i <= v.len(),
            r@.map_values(|l: Vec<char>| l@) + lines_of(v@.subrange(i as int, v.len() as int)) == lines_of(v@),
        decreases v.len() - i,
    {
        let ghost rest = v@.subrange(i as int, v.len() as int);
        let mut j = i;
        while j < v.len() && v[j] != '\n'
            invariant
                i <= j <= v.len(),
                forall|k: int| i <= k < j ==> #[trigger] v@[k] != '\n',
            decreases v.len() - j,
        {
            j = j + 1;
        }
        proof {
            assert forall|k: int| 0 <= k < j - i implies #[trigger] rest[k] != '\n' by {
                assert(rest[k] == v@[i + k]);
            }
            if j < v.len() {
                assert(rest[j - i] == v@[j as int]);
            }
            lemma_index_of_at(rest, '\n', j - i);
        }
        let line_end = if j < v.len() && j > i && v[j - 1] == '\r' { j - 1 } else { j };
        let mut line: Vec<char> = Vec::new();
        let mut k = i;
        while k < line_end
            invariant
                i <= k <= line_end <= j <= v.len(),
                line@ =~= v@.subrange(i as int, k as int),
            decreases line_end - k,
        {
            line.push(v[k]);
            k = k + 1;
        }
        proof {
            let part = rest.subrange(0, j - i);
            assert(part =~= v@.subrange(i as int, j as int));
            if j < v.len() {
                if j > i && v@[j - 1] == '\r' {
                    assert(strip_cr(part) =~= line@);
                } else {
                    assert(strip_cr(part) =~= line@);
                }
                assert(rest.subrange(j - i + 1, rest.len() as int) =~= v@.subrange(j + 1, v.len() as int));
            } else {
                assert(part =~= rest);
                assert(line@ =~= rest);
                assert(v@.subrange(v.len() as int, v.len() as int) =~= Seq::<char>::empty());
            }
        }
        let ghost before = r@.map_values(|l: Vec<char>| l@);
        r.push(line);
        assert(r@.map_values(|l: Vec<char>| l@) =~= before.push(line@));
        if j < v.len() {
            assert(lines_of(rest) == seq![line@] + lines_of(v@.subrange(j + 1, v.len() as int)));
            assert(before.push(line@) + lines_of(v@.subrange(j + 1, v.len() as int)) =~= before + lines_of(rest));
            i = j + 1;
        } else {
            assert(lines_of(rest) == seq![line@]);
            assert(lines_of(v@.subrange(v.len() as int, v.len() as int)) =~= Seq::<Seq<char>>::empty());
            assert(before.push(line@) + lines_of(v@.subrange(v.len() as int, v.len() as int)) =~= before + lines_of(rest));
            i = j;
        }
    }
    assert(lines_of(v@.subrange(v.len() as int, v.len() as int)) =~= Seq::<Seq<char>>::empty());
    assert(r@.map_values(|l: Vec<char>| l@) =~= r@.map_values(|l: Vec<char>| l@) + Seq::<Seq<char>>::empty());
    r
}

// ---------------------------------------------------------------------------
// Words
// ---------------------------------------------------------------------------

/// Index of the first whitespace character of `s`, or `s.len()`.
pub open spec fn space_index(s: Seq<char>) -> int
    decreases s.len(),
{
    if s.len() == 0 {
        0
    } else if is_space(s[0]) {
        0
    } else {
        1 + space_index(s.drop_first())
    }
}

proof fn lemma_space_index_at(s: Seq<char>, k: int)
    requires
        0 <= k <= s.len(),
        forall|j: int| 0 <= j < k ==> !is_space(#[trigger] s[j]),
        k == s.len() || is_space(s[k]),
    ensures
        space_index(s) == k,
    decreases k,
{
    if k > 0 {
        assert(!is_space(s[0]));
        assert forall|j: int| 0 <= j < k - 1 implies !is_space(#[trigger] s.drop_first()[j]) by {
            assert(s.drop_first()[j] == s[j + 1]);
        }
        lemma_space_index_at(s.drop_first(), k - 1);
    }
}

pub proof fn lemma_space_index_bounds(s: Seq<char>)
    ensures
        0 <= space_index(s) <= s.len(),
        s.len() > 0 && !is_space(s[0]) ==> space_index(s) >= 1,
    decreases s.len(),
{
    if s.len() > 0 && !is_space(s[0]) {
        lemma_space_index_bounds(s.drop_first());
    }
}

/// The whitespace-separated words of `s` (`str::split_whitespace`).
pub open spec fn words_of(s: Seq<char>) -> Seq<Seq<char>>
    decreases s.len(),
{
    if s.len() == 0 {
        seq![]
    } else if is_space(s[0]) {
        words_of(s.drop_first())
    } else {
        let k = space_index(s);
        if 1 <= k <= s.len() {
            seq![s.subrange(0, k)] + words_of(s.subrange(k, s.len() as int))
        } else {
            seq![s]
        }
    }
}

/// The words of `v[from..to]`.
pub fn split_words(v: &Vec<char>, from: usize, to: usize) -> (r: Vec<Vec<char>>)
    requires
        from <= to <= v.len(),
    ensures
        r@.map_values(|w: Vec<char>| w@) == words_of(v@.subrange(from as int, to as int)),
{
    let mut r: Vec<Vec<char>> = Vec::new();
    let mut i = from;
    while i < to
        invariant
            from <= i <= to <= v.len(),
            r@.map_values(|w: Vec<char>| w@) + words_of(v@.subrange(i as int, to as int)) == words_of(v@.subrange(from as int, to as int)),
        decreases to - i,
    {
        let ghost rest = v@.subrange(i as int, to as int);
        if is_space_char(v[i]) {
            assert(rest.drop_first() =~= v@.subrange(i + 1, to as int));
            i = i + 1;
        } else {
            let mut j = i;
            let mut word: Vec<char> = Vec::new();
            while j < to && !is_space_char(v[j])
                invariant
                    i <= j <= to <= v.len(),
                    forall|k: int| i <= k < j ==> !is_space(#[trigger] v@[k]),
                    word@ =~= v@.subrange(i as int, j as int),
                decreases to - j,
            {
                word.push(v[j]);
                j = j + 1;
            }
            proof {
                assert forall|k: int| 0 <= k < j - i implies !is_space(#[trigger] rest[k]) by {
                    assert(rest[k] == v@[i + k]);
                }
                if j < to {
                    assert(rest[j - i] == v@[j as int]);
                }
                lemma_space_index_at(rest, j - i);
                assert(rest.subrange(0, j - i) =~= word@);
                assert(rest.subrange(j - i, rest.len() as int) =~= v@.subrange(j as int, to as int));
            }
            let ghost before = r@.map_values(|w: Vec<char>| w@);
            r.push(word);
            assert(r@.map_values(|w: Vec<char>| w@) =~= before.push(word@));
            assert(before.push(word@) + words_of(v@.subrange(j as int, to as int)) =~= before + words_of(rest));
            i = j;
        }
    }
    assert(words_of(v@.subrange(to as int, to as int)) =~= Seq::<Seq<char>>::empty());
    assert(r@.map_values(|w: Vec<char>| w@) =~= r@.map_values(|w: Vec<char>| w@) + Seq::<Seq<char>>::empty());
    r
}

// ---------------------------------------------------------------------------
// Searching and joining
// ---------------------------------------------------------------------------

/// `key` occurs in `s` starting at index `i`.
pub open spec fn occurs_at(s: Seq<char>, key: Seq<char>, i: int) -> bool {
    0 <= i && i + key.len() <= s.len() && s.subrange(i, i + key.len()) == key
}

/// `key` occurs somewhere in `s` (`str::contains`).
pub open spec fn contains(s: Seq<char>, key: Seq<char>) -> bool {
    exists|i: int| occurs_at(s, key, i)
}

/// The index of the first occurrence of `key` in `s` (`str::find`).
#[verifier::opaque]
pub open spec fn first_occurrence(s: Seq<char>, key: Seq<char>) -> Option<int> {
    if contains(s, key) {
        Some(choose|i: int| occurs_at(s, key, i) && forall|j: int| 0 <= j < i ==> !occurs_at(s, key, j))
    } else {
        None
    }
}

/// The first occurrence of `key` in `s`.
pub fn find(s: &Vec<char>, key: &Vec<char>) -> (r: Option<usize>)
    ensures
        match r {
            Some(i) => first_occurrence(s@, key@) == Some(i as int) && occurs_at(s@, key@, i as int),
            None => first_occurrence(s@, key@) is None && !contains(s@, key@),
        },
{
    reveal(first_occurrence);
    if key.len() > s.len() {
        assert forall|i: int| !occurs_at(s@, key@, i) by {}
        return None;
    }
    let last = s.len() - key.len();
    let mut i: usize = 0;
    while i < last
        invariant
            key.len() <= s.len(),
            last == s.len() - key.len(),
            i <= last,
            forall|j: int| 0 <= j < i ==> !occurs_at(s@, key@, j),
        decreases last - i,
    {
        if starts_with_chars(s, i, key) {
            proof {
                lemma_first_occurrence_is(s@, key@, i as int);
            }
            return Some(i);
        }
        i = i + 1;
    }
    if starts_with_chars(s, last, key) {
        proof {
            lemma_first_occurrence_is(s@, key@, last as int);
        }
        return Some(last);
    }
    assert forall|j: int| !occurs_at(s@, key@, j) by {
        if 0 <= j && j + key.len() <= s.len() {
            assert(j <= last);
        }
    }
    None
}

/// The first occurrence, when there is one, is an occurrence.
pub proof fn lemma_first_occurrence_occurs(s: Seq<char>, key: Seq<char>)
    ensures
        first_occurrence(s, key) matches Some(p) ==> occurs_at(s, key, p),
        first_occurrence(s, key) is Some <==> contains(s, key),
{
    reveal(first_occurrence);
    if contains(s, key) {
        let i0 = choose|i: int| occurs_at(s, key, i);
        lemma_minimal_occurrence(s, key, i0);
    }
}

proof fn lemma_minimal_occurrence(s: Seq<char>, key: Seq<char>, i0: int)
    requires
        occurs_at(s, key, i0),
    ensures
        exists|m: int| occurs_at(s, key, m) && forall|j: int| 0 <= j < m ==> !occurs_at(s, key, j),
    decreases i0,
{
    if exists|j: int| 0 <= j < i0 && occurs_at(s, key, j) {
        let j = choose|j: int| 0 <= j < i0 && occurs_at(s, key, j);
        lemma_minimal_occurrence(s, key, j);
    } else {
        assert(occurs_at(s, key, i0) && forall|j: int| 0 <= j < i0 ==> !occurs_at(s, key, j));
    }
}

proof fn lemma_first_occurrence_is(s: Seq<char>, key: Seq<char>, i: int)
    requires
        occurs_at(s, key, i),
        forall|j: int| 0 <= j < i ==> !occurs_at(s, key, j),
    ensures
        first_occurrence(s, key) == Some(i),
{
    reveal(first_occurrence);
    let m = choose|m: int| occurs_at(s, key, m) && forall|j: int| 0 <= j < m ==> !occurs_at(s, key, j);
    assert(occurs_at(s, key, m));
    if m < i {
        assert(!occurs_at(s, key, m));
    } else if m > i {
        assert(!occurs_at(s, key, i));
    }
}

/// `parts` joined with `sep` between consecutive parts.
pub open spec fn join(parts: Seq<Seq<char>>, sep: Seq<char>) -> Seq<char>
    decreases parts.len(),
{
    if parts.len() == 0 {
        seq![]
    } else if parts.len() == 1 {
        parts[0]
    } else {
        join(parts.drop_last(), sep) + sep + parts.last()
    }
}

} // verus!
