use std::collections::hash_map::Entry;
use std::collections::HashMap;
use std::collections::VecDeque;
use vstd::prelude::*;
use vstd::utf8::encode_scalar;
use vstd::utf8::encode_utf8;

verus! {

// ---------------------------------------------------------------------------
// Byte offsets of the chars of a string
// ---------------------------------------------------------------------------

/// The byte offset at which char `k` of `s` starts in its UTF-8 encoding
/// (for `k == s.len()`, the length of the whole encoding).
pub open spec fn byte_offset(s: Seq<char>, k: int) -> int {
    encode_utf8(s.take(k)).len() as int
}

/// The number of bytes UTF-8 uses for `c`.
pub open spec fn char_width(c: char) -> int {
    encode_scalar(c as u32).len() as int
}

proof fn lemma_encode_push(a: Seq<char>, c: char)
    ensures
        encode_utf8(a.push(c)) == encode_utf8(a) + encode_scalar(c as u32),
    decreases a.len(),
{
    if a.len() == 0 {
        assert(a.push(c).drop_first() =~= Seq::<char>::empty());
        assert(encode_utf8(a) =~= Seq::<u8>::empty());
        assert(encode_utf8(a.push(c)) =~= encode_scalar(c as u32) + encode_utf8(
            Seq::<char>::empty(),
        ));
        assert(encode_utf8(Seq::<char>::empty()) =~= Seq::<u8>::empty());
    } else {
        lemma_encode_push(a.drop_first(), c);
        assert(a.push(c).drop_first() =~= a.drop_first().push(c));
        assert(a.push(c)[0] == a[0]);
        assert(encode_utf8(a.push(c)) =~= encode_scalar(a[0] as u32) + encode_utf8(
            a.drop_first().push(c),
        ));
    }
}

proof fn lemma_char_width_bounds(c: char)
    ensures
        1 <= char_width(c) <= 4,
{
    broadcast use vstd::utf8::char_is_scalar;

}

/// The offset of char `k + 1` is that of char `k` plus the width of char `k`.
proof fn lemma_byte_offset_step(s: Seq<char>, k: int)
    requires
        0 <= k < s.len(),
    ensures
        byte_offset(s, k + 1) == byte_offset(s, k) + char_width(s[k]),
        byte_offset(s, k) < byte_offset(s, k + 1),
{
    lemma_encode_push(s.take(k), s[k]);
    assert(s.take(k + 1) =~= s.take(k).push(s[k]));
    lemma_char_width_bounds(s[k]);
}

/// Byte offsets grow strictly from char to char.
proof fn lemma_byte_offset_strict(s: Seq<char>, i: int, j: int)
    requires
        0 <= i < j <= s.len(),
    ensures
        byte_offset(s, i) < byte_offset(s, j),
    decreases j - i,
{
    lemma_byte_offset_step(s, j - 1);
    if i < j - 1 {
        lemma_byte_offset_strict(s, i, j - 1);
    }
}

/// The width of `c` in UTF-8, computed from its scalar value.
fn utf8_width(c: char) -> (w: usize)
    ensures
        w == char_width(c),
        1 <= w <= 4,
{
    proof {
        broadcast use vstd::utf8::char_is_scalar;
    }
    let code: u32 = c as u32;
    if code <= 0x7F {
        1
    } else if code <= 0x7FF {
        2
    } else if code <= 0xFFFF {
        3
    } else {
        4
    }
}

// ---------------------------------------------------------------------------
// Windows of distinct chars
// ---------------------------------------------------------------------------

/// The chars `s[i]` through `s[k]` are pairwise distinct, and the window cannot be
/// extended to the left: it is the longest window of distinct chars that ends at `k`.
pub open spec fn is_maximal_window(s: Seq<char>, i: int, k: int) -> bool {
    &&& 0 <= i <= k < s.len()
    &&& s.subrange(i, k + 1).no_duplicates()
    &&& (i == 0 || !s.subrange(i - 1, k + 1).no_duplicates())
}

/// The byte offset of the char just before position `i`, or -1 when `i` is the first position.
pub open spec fn offset_before(s: Seq<char>, i: int) -> int {
    if i == 0 {
        -1
    } else {
        byte_offset(s, i - 1)
    }
}

/// The measure that the map-based scans give to the window `s[i..=k]`: the byte offset of
/// its last char minus the byte offset of the char just before it. When every char is a
/// single byte, this is the number of chars in the window.
pub open spec fn window_score(s: Seq<char>, i: int, k: int) -> int {
    byte_offset(s, k) - offset_before(s, i)
}

/// `n` is the largest score of a maximal window of `s` (0 for the empty string).
pub open spec fn is_best_score(s: Seq<char>, n: int) -> bool {
    &&& forall|i: int, k: int| #[trigger] is_maximal_window(s, i, k) ==> window_score(s, i, k) <= n
    &&& if s.len() == 0 {
        n == 0
    } else {
        exists|i: int, k: int| #[trigger] is_maximal_window(s, i, k) && window_score(s, i, k) == n
    }
}

/// `n` is the length of the longest run of consecutive chars of `s` in which no char repeats.
pub open spec fn is_longest_distinct_len(s: Seq<char>, n: int) -> bool {
    &&& exists|i: int, j: int|
        0 <= i <= j <= s.len() && j - i == n && (#[trigger] s.subrange(i, j)).no_duplicates()
    &&& forall|i: int, j: int|
        0 <= i <= j <= s.len() && (#[trigger] s.subrange(i, j)).no_duplicates() ==> j - i <= n
}

proof fn lemma_no_dup_subrange(s: Seq<char>, i: int, j: int, a: int, b: int)
    requires
        0 <= i <= a <= b <= j <= s.len(),
        s.subrange(i, j).no_duplicates(),
    ensures
        s.subrange(a, b).no_duplicates(),
{
    let t = s.subrange(i, j);
    let u = s.subrange(a, b);
    assert forall|x: int, y: int| 0 <= x < u.len() && 0 <= y < u.len() && x != y implies u[x]
        != u[y] by {
        assert(u[x] == t[x + a - i] && u[y] == t[y + a - i]);
    }
}

/// At most one maximal window ends at a given position.
proof fn lemma_maximal_unique(s: Seq<char>, i1: int, i2: int, k: int)
    requires
        is_maximal_window(s, i1, k),
        is_maximal_window(s, i2, k),
    ensures
        i1 == i2,
{
    if i1 < i2 {
        lemma_no_dup_subrange(s, i1, k + 1, i2 - 1, k + 1);
    } else if i2 < i1 {
        lemma_no_dup_subrange(s, i2, k + 1, i1 - 1, k + 1);
    }
}

/// Every window of distinct chars lies inside a maximal window that ends where it ends.
proof fn lemma_exists_maximal(s: Seq<char>, i: int, k: int)
    requires
        0 <= i <= k < s.len(),
        s.subrange(i, k + 1).no_duplicates(),
    ensures
        exists|i2: int| i2 <= i && #[trigger] is_maximal_window(s, i2, k),
    decreases i,
{
    if i == 0 || !s.subrange(i - 1, k + 1).no_duplicates() {
        assert(is_maximal_window(s, i, k));
    } else {
        lemma_exists_maximal(s, i - 1, k);
        let i2 = choose|i2: int| i2 <= i - 1 && #[trigger] is_maximal_window(s, i2, k);
        assert(i2 <= i && is_maximal_window(s, i2, k));
    }
}

/// When `n` bounds the length of every maximal window and one of them has length `n`,
/// `n` is the length of the longest run of distinct chars.
proof fn lemma_longest_from_maximal(s: Seq<char>, n: int)
    requires
        forall|i: int, k: int| #[trigger] is_maximal_window(s, i, k) ==> k - i + 1 <= n,
        s.len() == 0 ==> n == 0,
        s.len() > 0 ==> exists|i: int, k: int| #[trigger]
            is_maximal_window(s, i, k) && k - i + 1 == n,
    ensures
        is_longest_distinct_len(s, n),
{
    if s.len() == 0 {
        assert(s.subrange(0, 0).no_duplicates());
    } else {
        let (i, k) = choose|i: int, k: int| #[trigger] is_maximal_window(s, i, k) && k - i + 1 == n;
        assert(0 <= i <= k + 1 <= s.len() && (k + 1) - i == n && s.subrange(i, k + 1).no_duplicates());
    }
    assert forall|i: int, j: int|
        0 <= i <= j <= s.len() && (#[trigger] s.subrange(i, j)).no_duplicates() implies j - i
        <= n by {
        if i < j {
            lemma_exists_maximal(s, i, j - 1);
            let i2 = choose|i2: int| i2 <= i && #[trigger] is_maximal_window(s, i2, j - 1);
        }
    }
}

/// The maximal window ending at `k` is the one ending at `k - 1`, cut just after the
/// previous occurrence of `s[k]` when that lies inside it.
proof fn lemma_extend_window(s: Seq<char>, w: int, k: int, w2: int)
    requires
        0 <= k < s.len(),
        k == 0 ==> w == 0,
        k > 0 ==> is_maximal_window(s, w, k - 1),
        w <= w2 <= k,
        forall|x: int| w2 <= x < k ==> s[x] != s[k],
        w2 == w || s[w2 - 1] == s[k],
    ensures
        is_maximal_window(s, w2, k),
{
    if k > 0 {
        lemma_no_dup_subrange(s, w, k, w2, k);
    }
    let t = s.subrange(w2, k + 1);
    assert(t.no_duplicates()) by {
        assert forall|x: int, y: int| 0 <= x < t.len() && 0 <= y < t.len() && x != y implies t[x]
            != t[y] by {
            assert(t[x] == s[w2 + x] && t[y] == s[w2 + y]);
            if x < t.len() - 1 && y < t.len() - 1 {
                assert(s.subrange(w2, k)[x] == s[w2 + x] && s.subrange(w2, k)[y] == s[w2 + y]);
            }
        }
    }
    if w2 > 0 {
        if w2 != w {
            let d = s.subrange(w2 - 1, k + 1);
            assert(d[0] == d[k - w2 + 1]);
        } else if s.subrange(w - 1, k + 1).no_duplicates() {
            lemma_no_dup_subrange(s, w - 1, k + 1, w - 1, k);
        }
    }
}

// ---------------------------------------------------------------------------
// Laws
// ---------------------------------------------------------------------------

/// A string has one best score: the two map-based scans, which both return it, agree on
/// every input.
pub proof fn lemma_best_score_unique(s: Seq<char>, n: int, m: int)
    requires
        is_best_score(s, n),
        is_best_score(s, m),
    ensures
        n == m,
{
    if s.len() > 0 {
        let (i, k) = choose|i: int, k: int| #[trigger]
            is_maximal_window(s, i, k) && window_score(s, i, k) == n;
        let (i2, k2) = choose|i: int, k: int| #[trigger]
            is_maximal_window(s, i, k) && window_score(s, i, k) == m;
    }
}

/// A string has one longest length of a run of distinct chars.
pub proof fn lemma_longest_distinct_unique(s: Seq<char>, n: int, m: int)
    requires
        is_longest_distinct_len(s, n),
        is_longest_distinct_len(s, m),
    ensures
        n == m,
{
    let (i, j) = choose|i: int, j: int|
        0 <= i <= j <= s.len() && j - i == n && (#[trigger] s.subrange(i, j)).no_duplicates();
    let (i2, j2) = choose|i: int, j: int|
        0 <= i <= j <= s.len() && j - i == m && (#[trigger] s.subrange(i, j)).no_duplicates();
}

/// On a string of single-byte chars every byte offset is the char's position.
proof fn lemma_ascii_byte_offset(s: Seq<char>, k: int)
    requires
        vstd::utf8::is_ascii_chars(s),
        0 <= k <= s.len(),
    ensures
        byte_offset(s, k) == k,
{
    assert(vstd::utf8::is_ascii_chars(s.take(k)));
    vstd::utf8::is_ascii_chars_encode_utf8(s.take(k));
}

/// On a string of single-byte chars, the best score of the map-based scans is exactly the
/// length of the longest substring without a repeated char, so all three solutions agree.
pub proof fn lemma_ascii_score_is_length(s: Seq<char>, n: int)
    requires
        vstd::utf8::is_ascii_chars(s),
    ensures
        is_best_score(s, n) <==> is_longest_distinct_len(s, n),
{
    assert forall|i: int, k: int| #[trigger]
        is_maximal_window(s, i, k) implies window_score(s, i, k) == k - i + 1 by {
        lemma_ascii_byte_offset(s, k);
        if i > 0 {
            lemma_ascii_byte_offset(s, i - 1);
        }
    }
    if is_best_score(s, n) {
        lemma_longest_from_maximal(s, n);
    }
    if is_longest_distinct_len(s, n) {
        if s.len() == 0 {
            let (i, j) = choose|i: int, j: int|
                0 <= i <= j <= s.len() && j - i == n && (#[trigger] s.subrange(i, j)).no_duplicates();
        } else {
            assert(s.subrange(0, 1).no_duplicates());
            let (i, j) = choose|i: int, j: int|
                0 <= i <= j <= s.len() && j - i == n && (#[trigger] s.subrange(i, j)).no_duplicates();
            lemma_exists_maximal(s, i, j - 1);
            let i2 = choose|i2: int| i2 <= i && #[trigger] is_maximal_window(s, i2, j - 1);
            assert(s.subrange(i2, j).no_duplicates());
        }
        assert forall|i: int, k: int| #[trigger]
            is_maximal_window(s, i, k) implies window_score(s, i, k) <= n by {
            assert(s.subrange(i, k + 1).no_duplicates());
        }
    }
}

proof fn lemma_reverse_window(s: Seq<char>, i: int, j: int)
    requires
        0 <= i <= j <= s.len(),
        s.subrange(i, j).no_duplicates(),
    ensures
        s.reverse().subrange(s.len() - j, s.len() - i).no_duplicates(),
{
    let t = s.subrange(i, j);
    let u = s.reverse().subrange(s.len() - j, s.len() - i);
    assert forall|x: int, y: int| 0 <= x < u.len() && 0 <= y < u.len() && x != y implies u[x]
        != u[y] by {
        assert(u[x] == t[j - i - 1 - x] && u[y] == t[j - i - 1 - y]);
    }
}

/// Reversing a string does not change the length of its longest run of distinct chars.
pub proof fn lemma_longest_distinct_reverse(s: Seq<char>, n: int)
    requires
        is_longest_distinct_len(s, n),
    ensures
        is_longest_distinct_len(s.reverse(), n),
{
    let r = s.reverse();
    let len = s.len() as int;
    let (i, j) = choose|i: int, j: int|
        0 <= i <= j <= s.len() && j - i == n && (#[trigger] s.subrange(i, j)).no_duplicates();
    lemma_reverse_window(s, i, j);
    assert(0 <= len - j <= len - i <= r.len() && (len - i) - (len - j) == n && r.subrange(
        len - j,
        len - i,
    ).no_duplicates());
    assert(r.reverse() =~= s);
    assert forall|a: int, b: int|
        0 <= a <= b <= r.len() && (#[trigger] r.subrange(a, b)).no_duplicates() implies b - a
        <= n by {
        lemma_reverse_window(r, a, b);
        assert(s.subrange(len - b, len - a).no_duplicates());
    }
}

/// On a string of single-byte chars, reversing the string does not change the best score
/// of the map-based scans.
pub proof fn lemma_ascii_reverse_same_score(s: Seq<char>, n: int)
    requires
        vstd::utf8::is_ascii_chars(s),
    ensures
        is_best_score(s, n) <==> is_best_score(s.reverse(), n),
{
    let r = s.reverse();
    assert(vstd::utf8::is_ascii_chars(r)) by {
        assert forall|i: int| 0 <= i < r.len() implies '\0' <= #[trigger] r[i] <= '\u{7f}' by {
            assert(r[i] == s[s.len() - 1 - i]);
        }
    }
    assert(r.reverse() =~= s);
    lemma_ascii_score_is_length(s, n);
    lemma_ascii_score_is_length(r, n);
    if is_longest_distinct_len(s, n) {
        lemma_longest_distinct_reverse(s, n);
    }
    if is_longest_distinct_len(r, n) {
        lemma_longest_distinct_reverse(r, n);
    }
}

// ---------------------------------------------------------------------------
// The state of a map-based scan
// ---------------------------------------------------------------------------

spec fn max_of(a: int, b: int) -> int {
    if a >= b {
        a
    } else {
        b
    }
}

/// `j` is the last position before `k` that holds the char whose code is `key`.
spec fn is_last_before(s: Seq<char>, k: int, j: int, key: u32) -> bool {
    &&& 0 <= j < k
    &&& s[j] as u32 == key
    &&& forall|j2: int| j < j2 < k ==> s[j2] as u32 != key
}

/// What holds after the scan has read the first `k` chars of `s`: `last_seen` maps the
/// code of each char read to the byte offset of its last occurrence, the current window
/// `s[window..k]` is the maximal window ending at `k - 1`, `start` is one past the byte offset
/// of the char before that window, and `best` is the best score of the windows seen so far.
spec fn scan_state(
    s: Seq<char>,
    k: int,
    last_seen: Map<u32, usize>,
    window: int,
    start: int,
    best: int,
) -> bool {
    &&& 0 <= window <= k <= s.len()
    &&& start == offset_before(s, window) + 1
    &&& (k == 0 ==> window == 0 && best == 0)
    &&& (k > 0 ==> is_maximal_window(s, window, k - 1))
    &&& forall|j: int| 0 <= j < k ==> #[trigger] last_seen.contains_key(s[j] as u32)
    &&& forall|key: u32| #[trigger]
        last_seen.contains_key(key) ==> exists|j: int|
            #[trigger] is_last_before(s, k, j, key) && last_seen[key] == byte_offset(s, j)
    &&& forall|i: int, k2: int|
        #[trigger] is_maximal_window(s, i, k2) && k2 < k ==> window_score(s, i, k2) <= best
    &&& k > 0 ==> exists|i: int, k2: int|
        #[trigger] is_maximal_window(s, i, k2) && k2 < k && window_score(s, i, k2) == best
}

proof fn lemma_byte_offset_mono(s: Seq<char>, i: int, j: int)
    requires
        0 <= i <= j <= s.len(),
    ensures
        byte_offset(s, i) <= byte_offset(s, j),
{
    if i < j {
        lemma_byte_offset_strict(s, i, j);
    }
}

/// One step of the scan: reading char `k` moves the state forward, whichever branch is taken.
proof fn lemma_scan_step(
    s: Seq<char>,
    k: int,
    last_seen: Map<u32, usize>,
    window: int,
    start: int,
    best: int,
) -> (window2: int)
    requires
        scan_state(s, k, last_seen, window, start, best),
        k < s.len(),
        byte_offset(s, s.len() as int) <= usize::MAX,
    ensures
        ({
            let key = s[k] as u32;
            let idx = byte_offset(s, k);
            let seen2 = last_seen.insert(key, idx as usize);
            if last_seen.contains_key(key) && last_seen[key] >= start {
                scan_state(
                    s,
                    k + 1,
                    seen2,
                    window2,
                    last_seen[key] + 1,
                    max_of(best, idx - last_seen[key]),
                )
            } else {
                scan_state(s, k + 1, seen2, window2, start, max_of(best, idx - start + 1))
            }
        }),
{
    broadcast use vstd::utf8::char_u32_cast;

    let key = s[k] as u32;
    let idx = byte_offset(s, k);
    let seen2 = last_seen.insert(key, idx as usize);
    lemma_byte_offset_mono(s, k, s.len() as int);
    let repeat = last_seen.contains_key(key) && last_seen[key] >= start;
    let mut j: int = -1;
    if last_seen.contains_key(key) {
        j = choose|j: int| is_last_before(s, k, j, key) && last_seen[key] == byte_offset(s, j);
        if window > 0 {
            if j < window {
                lemma_byte_offset_mono(s, j, window - 1);
            } else {
                lemma_byte_offset_strict(s, window - 1, j);
            }
        }
    }
    let window2 = if repeat {
        j + 1
    } else {
        window
    };
    let start2: int = if repeat {
        last_seen[key] + 1
    } else {
        start
    };
    let score = if repeat {
        idx - last_seen[key]
    } else {
        idx - start + 1
    };
    let best2 = max_of(best, score);
    // The new window holds distinct chars.
    if k > 0 {
        lemma_no_dup_subrange(s, window, k, window2, k);
    }
    let w = s.subrange(window2, k + 1);
    assert(w =~= s.subrange(window2, k).push(s[k]));
    assert forall|x: int| window2 <= x < k implies s[x] != s[k] by {
        if s[x] == s[k] {
            assert(last_seen.contains_key(s[x] as u32));
        }
    }
    assert(w.no_duplicates()) by {
        assert forall|x: int, y: int| 0 <= x < w.len() && 0 <= y < w.len() && x != y implies w[x]
            != w[y] by {
            assert(w[x] == s[window2 + x] && w[y] == s[window2 + y]);
        }
    }
    // It cannot grow to the left.
    if window2 > 0 {
        if repeat {
            let d = s.subrange(j, k + 1);
            vstd::utf8::char_u32_cast(s[j], key);
            vstd::utf8::char_u32_cast(s[k], key);
            assert(d[0] == d[k - j]);
        } else if s.subrange(window - 1, k + 1).no_duplicates() {
            lemma_no_dup_subrange(s, window - 1, k + 1, window - 1, k);
        }
    }
    assert(is_maximal_window(s, window2, k));
    assert(window_score(s, window2, k) == score);
    // The best score covers the windows ending at `k` too.
    assert forall|i: int, k2: int|
        #[trigger] is_maximal_window(s, i, k2) && k2 < k + 1 implies window_score(s, i, k2)
        <= best2 by {
        if k2 == k {
            lemma_maximal_unique(s, i, window2, k);
        }
    }
    if best2 != best || k == 0 {
        assert(is_maximal_window(s, window2, k) && k < k + 1 && window_score(s, window2, k)
            == best2);
    }
    // The map still records last occurrences.
    assert forall|key2: u32| #[trigger] seen2.contains_key(key2) implies exists|j2: int|
        #[trigger] is_last_before(s, k + 1, j2, key2) && seen2[key2] == byte_offset(s, j2) by {
        if key2 == key {
            assert(is_last_before(s, k + 1, k, key2));
        } else {
            let j0 = choose|j0: int|
                is_last_before(s, k, j0, key2) && last_seen[key2] == byte_offset(s, j0);
            assert(is_last_before(s, k + 1, j0, key2));
        }
    }
    assert(start2 == offset_before(s, window2) + 1);
    window2
}

/// Before any char is read the map is empty, the window is empty and the best score is 0.
proof fn lemma_scan_start(s: Seq<char>)
    ensures
        scan_state(s, 0, Map::empty(), 0, 0, 0),
{
}

/// Once every char is read, the best score seen is the best score of the string.
proof fn lemma_scan_end(s: Seq<char>, last_seen: Map<u32, usize>, window: int, start: int, best: int)
    requires
        scan_state(s, s.len() as int, last_seen, window, start, best),
    ensures
        is_best_score(s, best),
{
}

/// The bounds that keep the arithmetic of one scan step within `usize`.
proof fn lemma_scan_bounds(
    s: Seq<char>,
    k: int,
    last_seen: Map<u32, usize>,
    window: int,
    start: int,
    best: int,
)
    requires
        scan_state(s, k, last_seen, window, start, best),
        k < s.len(),
    ensures
        byte_offset(s, k + 1) == byte_offset(s, k) + char_width(s[k]),
        byte_offset(s, k) < byte_offset(s, k + 1) <= byte_offset(s, s.len() as int),
        start <= byte_offset(s, k),
        last_seen.contains_key(s[k] as u32) ==> last_seen[s[k] as u32] < byte_offset(s, k),
{
    lemma_byte_offset_step(s, k);
    lemma_byte_offset_mono(s, k + 1, s.len() as int);
    let key = s[k] as u32;
    if last_seen.contains_key(key) {
        let j = choose|j: int|
            is_last_before(s, k, j, key) && last_seen[key] == byte_offset(s, j);
        lemma_byte_offset_strict(s, j, k);
    }
    if window > 0 {
        lemma_byte_offset_strict(s, window - 1, k);
    }
}

// ---------------------------------------------------------------------------
// The three solutions
// ---------------------------------------------------------------------------

/// Solutions to "the longest substring without repeating characters".
pub struct Solution {}

impl Solution {
    /// Scans the chars once, with a map from each char to the byte offset of its last
    /// occurrence. Windows are measured with byte offsets: on a string of single-byte chars
    /// the result is the length of the longest substring without a repeated char.
    pub fn length_of_longest_substring(s: String) -> (longest: i32)
        ensures
            exists|n: int| is_best_score(s@, n) && longest == n as i32,
    {
        broadcast use vstd::std_specs::hash::group_hash_axioms;

        let ghost text = s@;
        let total: usize = s.as_str().as_bytes().len();
        proof {
            assert(text.take(text.len() as int) =~= text);
        }
        let mut long_sub_map: HashMap<u32, usize> = HashMap::new();
        let mut start_idx: usize = 0;
        let mut largest_len: usize = 0;
        let mut idx: usize = 0;
        let ghost mut window: int = 0;
        proof {
            lemma_scan_start(text);
        }
        for c in it: s.chars()
            invariant
                text == s@,
                it.seq() == text,
                total == byte_offset(text, text.len() as int),
                idx == byte_offset(text, it.index() as int),
                scan_state(
                    text,
                    it.index() as int,
                    long_sub_map@,
                    window,
                    start_idx as int,
                    largest_len as int,
                ),
        {
            let ghost k = it.index() as int;
            proof {
                lemma_scan_bounds(
                    text,
                    k,
                    long_sub_map@,
                    window,
                    start_idx as int,
                    largest_len as int,
                );
                window = lemma_scan_step(
                    text,
                    k,
                    long_sub_map@,
                    window,
                    start_idx as int,
                    largest_len as int,
                );
            }
            let key: u32 = c as u32;
            if long_sub_map.contains_key(&key) {
                let last: usize = *long_sub_map.get(&key).unwrap();
                if last >= start_idx {
                    let candidate: usize = idx - last;
                    if candidate > largest_len {
                        largest_len = candidate;
                    }
                    start_idx = last + 1;
                } else {
                    let candidate: usize = idx - start_idx + 1;
                    if candidate > largest_len {
                        largest_len = candidate;
                    }
                }
            } else {
                let candidate: usize = idx - start_idx + 1;
                if candidate > largest_len {
                    largest_len = candidate;
                }
            }
            long_sub_map.insert(key, idx);
            idx = idx + utf8_width(c);
        }
        proof {
            lemma_scan_end(text, long_sub_map@, window, start_idx as int, largest_len as int);
        }
        largest_len as i32
    }

    /// The same scan as `length_of_longest_substring`, written with the entry API of the
    /// map: an occupied entry is updated in place, a vacant one is filled.
    pub fn length_of_longest_substring_entry_and_modify(s: String) -> (longest: i32)
        ensures
            exists|n: int| is_best_score(s@, n) && longest == n as i32,
    {
        broadcast use vstd::std_specs::hash::group_hash_axioms;

        let ghost text = s@;
        let total: usize = s.as_str().as_bytes().len();
        proof {
            assert(text.take(text.len() as int) =~= text);
        }
        let mut long_sub_map: HashMap<u32, usize> = HashMap::new();
        let mut start_idx: usize = 0;
        let mut largest_len: usize = 0;
        let mut idx: usize = 0;
        let ghost mut window: int = 0;
        proof {
            lemma_scan_start(text);
        }
        for c in it: s.chars()
            invariant
                text == s@,
                it.seq() == text,
                total == byte_offset(text, text.len() as int),
                idx == byte_offset(text, it.index() as int),
                scan_state(
                    text,
                    it.index() as int,
                    long_sub_map@,
                    window,
                    start_idx as int,
                    largest_len as int,
                ),
        {
            let ghost k = it.index() as int;
            proof {
                lemma_scan_bounds(
                    text,
                    k,
                    long_sub_map@,
                    window,
                    start_idx as int,
                    largest_len as int,
                );
                window = lemma_scan_step(
                    text,
                    k,
                    long_sub_map@,
                    window,
                    start_idx as int,
                    largest_len as int,
                );
            }
            let key: u32 = c as u32;
            match long_sub_map.entry(key) {
                Entry::Occupied(mut occupied) => {
                    let old_idx = occupied.get_mut();
                    if *old_idx >= start_idx {
                        let candidate: usize = idx - *old_idx;
                        if candidate > largest_len {
                            largest_len = candidate;
                        }
                        start_idx = *old_idx + 1;
                    } else {
                        let candidate: usize = idx - start_idx + 1;
                        if candidate > largest_len {
                            largest_len = candidate;
                        }
                    }
                    *old_idx = idx;
                },
                Entry::Vacant(vacant) => {
                    vacant.insert(idx);
                },
            }
            let candidate: usize = idx - start_idx + 1;
            if candidate > largest_len {
                largest_len = candidate;
            }
            idx = idx + utf8_width(c);
        }
        proof {
            lemma_scan_end(text, long_sub_map@, window, start_idx as int, largest_len as int);
        }
        largest_len as i32
    }

    /// Keeps the current window in a deque, newest char at the front; a repeated char
    /// drops everything from the back up to and including its earlier occurrence. The
    /// result is the length, in chars, of the longest substring without a repeated char.
    pub fn length_of_longest_substring_vecdeque(s: String) -> (longest: i32)
        ensures
            exists|n: int| is_longest_distinct_len(s@, n) && longest == n as i32,
    {
        let ghost text = s@;
        let mut max_len: usize = 0;
        let mut sub_vec_deque: VecDeque<char> = VecDeque::with_capacity(s.as_str().len());
        let ghost mut w: int = 0;
        for ch in it: s.chars()
            invariant
                text == s@,
                it.seq() == text,
                0 <= w <= it.index() <= text.len(),
                it.index() == 0 ==> w == 0 && max_len == 0,
                it.index() > 0 ==> is_maximal_window(text, w, it.index() - 1),
                sub_vec_deque@.len() == it.index() - w,
                forall|x: int|
                    0 <= x < sub_vec_deque@.len() ==> #[trigger] sub_vec_deque@[x] == text[it.index()
                        - 1 - x],
                forall|i: int, k2: int|
                    #[trigger] is_maximal_window(text, i, k2) && k2 < it.index() ==> k2 - i + 1
                        <= max_len,
                it.index() > 0 ==> exists|i: int, k2: int|
                    #[trigger] is_maximal_window(text, i, k2) && k2 < it.index() && k2 - i + 1
                        == max_len,
        {
            let ghost k = it.index() as int;
            let ghost w_old = w;
            if deque_contains(&sub_vec_deque, ch) {
                loop
                    invariant_except_break
                        w_old <= w <= k,
                        sub_vec_deque@.len() == k - w,
                        forall|x: int|
                            0 <= x < sub_vec_deque@.len() ==> #[trigger] sub_vec_deque@[x]
                                == text[k - 1 - x],
                        exists|t: int| w <= t < k && text[t] == ch,
                    ensures
                        w_old < w <= k,
                        text[w - 1] == ch,
                        sub_vec_deque@.len() == k - w,
                        forall|x: int|
                            0 <= x < sub_vec_deque@.len() ==> #[trigger] sub_vec_deque@[x]
                                == text[k - 1 - x],
                    decreases k - w,
                {
                    let popped = sub_vec_deque.pop_back();
                    match popped {
                        Some(x) => {
                            proof {
                                assert(x == text[w]);
                                w = w + 1;
                            }
                            if x == ch {
                                break ;
                            }
                        },
                        None => {
                            break ;
                        },
                    }
                }
                proof {
                    if k > 0 {
                        assert(text.subrange(w_old, k)[w - 1 - w_old] == text[w - 1]);
                    }
                }
            }
            proof {
                assert forall|x: int| w <= x < k implies text[x] != text[k] by {
                    if text[x] == text[k] {
                        if w == w_old {
                            assert(sub_vec_deque@[k - 1 - x] == text[x]);
                        } else {
                            let t = text.subrange(w_old, k);
                            assert(t[x - w_old] == t[w - 1 - w_old]);
                        }
                    }
                }
                lemma_extend_window(text, w_old, k, w);
            }
            sub_vec_deque.push_front(ch);
            if sub_vec_deque.len() > max_len {
                max_len = sub_vec_deque.len();
            }
            proof {
                assert forall|i: int, k2: int|
                    #[trigger] is_maximal_window(text, i, k2) && k2 < k + 1 implies k2 - i + 1
                    <= max_len by {
                    if k2 == k {
                        lemma_maximal_unique(text, i, w, k);
                    }
                }
                if max_len == sub_vec_deque@.len() {
                    assert(is_maximal_window(text, w, k) && k < k + 1 && k - w + 1 == max_len);
                }
            }
        }
        proof {
            lemma_longest_from_maximal(text, max_len as int);
        }
        max_len as i32
    }
}

/// Whether `ch` is held anywhere in `deque`.
fn deque_contains(deque: &VecDeque<char>, ch: char) -> (found: bool)
    ensures
        found == deque@.contains(ch),
{
    let mut i: usize = 0;
    while i < deque.len()
        invariant
            0 <= i <= deque@.len(),
            forall|x: int| 0 <= x < i ==> deque@[x] != ch,
        decreases deque@.len() - i,
    {
        if deque[i] == ch {
            return true;
        }
        i = i + 1;
    }
    false
}

} // verus!
