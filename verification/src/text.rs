//! Character-level text utilities: searching for a marker, trimming
//! white space, case-insensitive comparison and joining.

use vstd::prelude::*;
use vstd::string::StringExecFns;

verus! {

/// `marker` occurs in `text` starting at index `i`.
pub open spec fn occurs_at(text: Seq<char>, marker: Seq<char>, i: int) -> bool {
    &&& 0 <= i
    &&& i + marker.len() <= text.len()
    &&& text.subrange(i, i + marker.len()) == marker
}

/// `i` is the start of the rightmost occurrence of `marker` in `text`.
pub open spec fn is_last_occurrence(text: Seq<char>, marker: Seq<char>, i: int) -> bool {
    &&& occurs_at(text, marker, i)
    &&& forall|j: int| occurs_at(text, marker, j) ==> j <= i
}

/// `marker` occurs somewhere in `text`.
pub open spec fn contains(text: Seq<char>, marker: Seq<char>) -> bool {
    exists|i: int| occurs_at(text, marker, i)
}

/// Start of the rightmost occurrence of `marker` in `text`, if there is one.
pub open spec fn last_occurrence(text: Seq<char>, marker: Seq<char>) -> Option<int> {
    if exists|i: int| is_last_occurrence(text, marker, i) {
        Some(choose|i: int| is_last_occurrence(text, marker, i))
    } else {
        None
    }
}

/// The part of `text` that follows the rightmost occurrence of `marker`.
pub open spec fn after_last(text: Seq<char>, marker: Seq<char>) -> Option<Seq<char>> {
    match last_occurrence(text, marker) {
        Some(i) => Some(text.skip(i + marker.len())),
        None => None,
    }
}

/// A rightmost occurrence, once found, is the one `last_occurrence` names.
pub proof fn lemma_last_occurrence_found(text: Seq<char>, marker: Seq<char>, i: int)
    requires
        is_last_occurrence(text, marker, i),
    ensures
        last_occurrence(text, marker) == Some(i),
{
    let k = choose|k: int| is_last_occurrence(text, marker, k);
    assert(occurs_at(text, marker, k));
    assert(occurs_at(text, marker, i));
}

/// Without any occurrence there is no rightmost one.
pub proof fn lemma_last_occurrence_absent(text: Seq<char>, marker: Seq<char>)
    requires
        !contains(text, marker),
    ensures
        last_occurrence(text, marker) is None,
{
    if exists|i: int| is_last_occurrence(text, marker, i) {
        let k = choose|k: int| is_last_occurrence(text, marker, k);
        assert(occurs_at(text, marker, k));
    }
}

/// The code points that carry the Unicode property `White_Space`.
pub open spec fn is_white_space(c: char) -> bool {
    let n = c as u32;
    ||| 0x09 <= n <= 0x0D
    ||| n == 0x20
    ||| n == 0x85
    ||| n == 0xA0
    ||| n == 0x1680
    ||| 0x2000 <= n <= 0x200A
    ||| n == 0x2028
    ||| n == 0x2029
    ||| n == 0x202F
    ||| n == 0x205F
    ||| n == 0x3000
}

/// Whether `c` carries the Unicode property `White_Space`.
pub fn is_white_space_char(c: char) -> (white: bool)
    ensures
        white == is_white_space(c),
{
    let n = c as u32;
    (0x09 <= n && n <= 0x0D) || n == 0x20 || n == 0x85 || n == 0xA0 || n == 0x1680 || (0x2000 <= n
        && n <= 0x200A) || n == 0x2028 || n == 0x2029 || n == 0x202F || n == 0x205F || n == 0x3000
}

/// `s` without its leading white space.
pub open spec fn trim_start(s: Seq<char>) -> Seq<char>
    decreases s.len(),
{
    if s.len() > 0 && is_white_space(s[0]) {
        trim_start(s.drop_first())
    } else {
        s
    }
}

/// `s` without its trailing white space.
pub open spec fn trim_end(s: Seq<char>) -> Seq<char>
    decreases s.len(),
{
    if s.len() > 0 && is_white_space(s.last()) {
        trim_end(s.drop_last())
    } else {
        s
    }
}

/// `s` without leading and trailing white space.
pub open spec fn trim(s: Seq<char>) -> Seq<char> {
    trim_end(trim_start(s))
}

/// Dropping a run of white space from the front is what `trim_start` does.
pub proof fn lemma_trim_start_skip(s: Seq<char>, k: int)
    requires
        0 <= k <= s.len(),
        forall|j: int| 0 <= j < k ==> is_white_space(s[j]),
        k < s.len() ==> !is_white_space(s[k]),
    ensures
        trim_start(s) == s.skip(k),
    decreases k,
{
    if k == 0 {
        assert(s.skip(0) =~= s);
    } else {
        let rest = s.drop_first();
        assert forall|j: int| 0 <= j < k - 1 implies is_white_space(rest[j]) by {
            assert(rest[j] == s[j + 1]);
        }
        lemma_trim_start_skip(rest, k - 1);
        assert(rest.skip(k - 1) =~= s.skip(k));
    }
}

/// Dropping a run of white space from the back is what `trim_end` does.
pub proof fn lemma_trim_end_take(s: Seq<char>, k: int)
    requires
        0 <= k <= s.len(),
        forall|j: int| k <= j < s.len() ==> is_white_space(s[j]),
        k > 0 ==> !is_white_space(s[k - 1]),
    ensures
        trim_end(s) == s.take(k),
    decreases s.len() - k,
{
    if k == s.len() {
        assert(s.take(k) =~= s);
    } else {
        let rest = s.drop_last();
        lemma_trim_end_take(rest, k);
        assert(rest.take(k) =~= s.take(k));
    }
}

/// Where `text[from..]` begins and ends once its white space is trimmed:
/// the index of its first character that is no white space, and the index
/// after its last such character. Both are `text.len()` where it holds
/// nothing but white space.
pub fn trim_bounds(text: &Vec<char>, from: usize) -> (bounds: (usize, usize))
    requires
        from <= text.len(),
    ensures
        from <= bounds.0 <= bounds.1 <= text.len(),
        text@.subrange(bounds.0 as int, bounds.1 as int) == trim(text@.skip(from as int)),
        forall|j: int| from <= j < bounds.0 ==> is_white_space(text@[j]),
        forall|j: int| bounds.1 <= j < text.len() ==> is_white_space(text@[j]),
        bounds.0 < bounds.1 ==> !is_white_space(text@[bounds.0 as int]) && !is_white_space(
            text@[bounds.1 - 1],
        ),
        bounds.0 == bounds.1 ==> bounds.0 == text.len(),
{
    let mut a: usize = from;
    while a < text.len() && is_white_space_char(text[a])
        invariant
            from <= a <= text.len(),
            forall|j: int| from <= j < a ==> is_white_space(text@[j]),
        decreases text.len() - a,
    {
        a += 1;
    }
    let mut b: usize = text.len();
    while b > a && is_white_space_char(text[b - 1])
        invariant
            a <= b <= text.len(),
            forall|j: int| b <= j < text.len() ==> is_white_space(text@[j]),
        decreases b,
    {
        b -= 1;
    }
    proof {
        let rest = text@.skip(from as int);
        lemma_trim_start_skip(rest, a - from);
        let front = rest.skip(a - from);
        assert(front =~= text@.skip(a as int));
        lemma_trim_end_take(front, b - a);
        assert(front.take(b - a) =~= text@.subrange(a as int, b as int));
    }
    (a, b)
}

/// The characters of `s`, in order.
pub fn chars_of(s: &str) -> (v: Vec<char>)
    ensures
        v@ == s@,
{
    let mut v: Vec<char> = Vec::new();
    for c in it: s.chars()
        invariant
            v@ == it.seq().take(it.index()),
            it.seq() == s@,
    {
        v.push(c);
    }
    v
}

/// Whether `marker` occurs in `text` at index `i`.
pub fn matches_at(text: &Vec<char>, marker: &Vec<char>, i: usize) -> (found: bool)
    ensures
        found == occurs_at(text@, marker@, i as int),
{
    if marker.len() > text.len() || i > text.len() - marker.len() {
        return false;
    }
    let mut k: usize = 0;
    while k < marker.len()
        invariant
            k <= marker.len(),
            i + marker.len() <= text.len(),
            forall|j: int| 0 <= j < k ==> text@[i + j] == marker@[j],
        decreases marker.len() - k,
    {
        if text[i + k] != marker[k] {
            proof {
                let sub = text@.subrange(i as int, i + marker.len());
                assert(sub[k as int] == text@[i + k]);
            }
            return false;
        }
        k += 1;
    }
    assert(text@.subrange(i as int, i + marker.len()) =~= marker@);
    true
}

/// Start of the rightmost occurrence of `marker` in `text`.
pub fn find_last(text: &Vec<char>, marker: &Vec<char>) -> (found: Option<usize>)
    ensures
        match found {
            Some(i) => last_occurrence(text@, marker@) == Some(i as int),
            None => last_occurrence(text@, marker@) is None,
        },
        found matches Some(i) ==> is_last_occurrence(text@, marker@, i as int),
        found is None <==> !contains(text@, marker@),
{
    if marker.len() > text.len() {
        proof {
            lemma_last_occurrence_absent(text@, marker@);
        }
        return None;
    }
    let mut i: usize = text.len() - marker.len();
    loop
        invariant
            marker.len() <= text.len(),
            i + marker.len() <= text.len(),
            forall|j: int| i < j ==> !occurs_at(text@, marker@, j),
        decreases i,
    {
        if matches_at(text, marker, i) {
            proof {
                lemma_last_occurrence_found(text@, marker@, i as int);
            }
            return Some(i);
        }
        if i == 0 {
            proof {
                lemma_last_occurrence_absent(text@, marker@);
            }
            return None;
        }
        i -= 1;
    }
}

/// `c` with an upper-case ASCII letter turned into its lower-case form.
pub open spec fn ascii_lower(c: char) -> char {
    if 0x41 <= c as int <= 0x5A {
        (c as int + 0x20) as char
    } else {
        c
    }
}

/// `a` and `b` are equal once ASCII letters are compared without regard
/// to case.
pub open spec fn eq_ignore_ascii_case(a: Seq<char>, b: Seq<char>) -> bool {
    &&& a.len() == b.len()
    &&& forall|i: int| 0 <= i < a.len() ==> ascii_lower(#[trigger] a[i]) == ascii_lower(b[i])
}

/// The texts that a sequence of strings holds.
pub open spec fn texts(strings: Seq<String>) -> Seq<Seq<char>> {
    strings.map_values(|s: String| s@)
}

/// `parts` written one after another with `sep` between neighbours.
pub open spec fn joined(parts: Seq<Seq<char>>, sep: Seq<char>) -> Seq<char>
    decreases parts.len(),
{
    if parts.len() == 0 {
        Seq::empty()
    } else if parts.len() == 1 {
        parts[0]
    } else {
        joined(parts.drop_last(), sep) + sep + parts.last()
    }
}

/// The code of `c` after `ascii_lower`.
fn lower_code(c: char) -> (n: u32)
    ensures
        n == ascii_lower(c) as u32,
{
    let n = c as u32;
    if 65 <= n && n <= 90 {
        n + 32
    } else {
        n
    }
}

/// Compares two texts without regard to the case of ASCII letters.
pub fn same_ignoring_ascii_case(a: &str, b: &str) -> (same: bool)
    ensures
        same == eq_ignore_ascii_case(a@, b@),
{
    let left = chars_of(a);
    let right = chars_of(b);
    if left.len() != right.len() {
        return false;
    }
    let mut i: usize = 0;
    while i < left.len()
        invariant
            i <= left.len(),
            left.len() == right.len(),
            left@ == a@,
            right@ == b@,
            forall|j: int| 0 <= j < i ==> ascii_lower(#[trigger] left@[j]) == ascii_lower(right@[j]),
        decreases left.len() - i,
    {
        if lower_code(left[i]) != lower_code(right[i]) {
            return false;
        }
        i += 1;
    }
    true
}

/// Writes `parts` one after another with `sep` between neighbours.
pub fn join(parts: &Vec<String>, sep: &str) -> (out: String)
    ensures
        out@ == joined(texts(parts@), sep@),
{
    let mut out = String::new();
    let mut i: usize = 0;
    while i < parts.len()
        invariant
            i <= parts.len(),
            out@ == joined(texts(parts@).take(i as int), sep@),
        decreases parts.len() - i,
    {
        let ghost before = texts(parts@).take(i as int);
        let ghost now = texts(parts@).take(i + 1);
        assert(now.drop_last() =~= before);
        assert(now.last() == parts@[i as int]@);
        if i > 0 {
            out.append(sep);
        }
        out.append(parts[i].as_str());
        proof {
            if i == 0 {
                assert(out@ =~= parts@[0]@);
            }
        }
        i += 1;
    }
    assert(texts(parts@).take(i as int) =~= texts(parts@));
    out
}

/// Whether `marker` occurs in `text`.
pub fn contains_text(text: &str, marker: &str) -> (found: bool)
    ensures
        found == contains(text@, marker@),
{
    let t = chars_of(text);
    let m = chars_of(marker);
    find_last(&t, &m).is_some()
}

} // verus!
