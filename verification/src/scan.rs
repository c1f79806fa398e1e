//! Byte- and character-level scanning primitives of the parser: keyword
//! recognition on identifier boundaries, byte search, brace matching and the
//! character classes that the parser relies on.

use vstd::prelude::*;
use vstd::utf8::{
    is_char_boundary, is_char_boundary_iff_not_is_continuation_byte, is_char_boundary_start_end_of_seq,
    valid_utf8,
};

verus! {

/// ASCII letters, digits and `_`.
pub open spec fn is_ident_byte(b: u8) -> bool {
    (97 <= b && b <= 122) || (65 <= b && b <= 90) || (48 <= b && b <= 57) || b == 95
}

/// ASCII whitespace as Rust's `u8::is_ascii_whitespace` defines it:
/// space, tab, line feed, form feed and carriage return.
pub open spec fn is_ascii_ws_byte(b: u8) -> bool {
    b == 32 || b == 9 || b == 10 || b == 12 || b == 13
}

/// Byte position `i` of `s` begins a character: it lies within the text (the
/// end included) and does not hold a UTF-8 continuation byte.
pub open spec fn starts_char(s: Seq<u8>, i: int) -> bool {
    &&& 0 <= i <= s.len()
    &&& (i == s.len() || !(128 <= s[i] && s[i] < 192))
}

/// In valid UTF-8, a position begins a character exactly when it is a char
/// boundary (the positions at which `str::get(at..)` succeeds).
pub proof fn lemma_starts_char_iff_boundary(s: Seq<u8>, i: int)
    requires
        valid_utf8(s),
    ensures
        starts_char(s, i) <==> is_char_boundary(s, i),
{
    is_char_boundary_start_end_of_seq(s);
    if 0 <= i < s.len() {
        is_char_boundary_iff_not_is_continuation_byte(s, i);
    } else if i != s.len() && i != 0 {
        reveal_with_fuel(is_char_boundary, 1);
    }
}

/// `kw` occurs in `s` at byte `at`, which begins a character, and neither the
/// byte before nor the byte after the occurrence is an identifier byte.
pub open spec fn keyword_at(s: Seq<u8>, at: int, kw: Seq<u8>) -> bool {
    &&& starts_char(s, at)
    &&& at + kw.len() <= s.len()
    &&& s.subrange(at, at + kw.len()) == kw
    &&& (at == 0 || !is_ident_byte(s[at - 1]))
    &&& (at + kw.len() == s.len() || !is_ident_byte(s[at + kw.len()]))
}

/// The first position at or after `from` where `kw` occurs as a keyword.
pub open spec fn scan_keyword(s: Seq<u8>, kw: Seq<u8>, from: int) -> Option<int>
    decreases s.len() - from,
{
    if from < 0 || from >= s.len() {
        None
    } else if keyword_at(s, from, kw) {
        Some(from)
    } else {
        scan_keyword(s, kw, from + 1)
    }
}

/// The first position at or after `from` where the non-empty keyword `kw`
/// occurs as a keyword; none when `from` does not begin a character.
pub open spec fn find_keyword(s: Seq<u8>, kw: Seq<u8>, from: int) -> Option<int> {
    if starts_char(s, from) {
        scan_keyword(s, kw, from)
    } else {
        None
    }
}

/// The first position in `[from, to)` holding byte `b`.
pub open spec fn find_byte(s: Seq<u8>, b: u8, from: int, to: int) -> Option<int>
    decreases to - from,
{
    if from < 0 || from >= to || from >= s.len() {
        None
    } else if s[from] == b {
        Some(from)
    } else {
        find_byte(s, b, from + 1, to)
    }
}

/// The first position at or after `from` holding `{` or `;`.
pub open spec fn find_open_or_semi(s: Seq<u8>, from: int) -> Option<int>
    decreases s.len() - from,
{
    if from < 0 || from >= s.len() {
        None
    } else if s[from] == 123 || s[from] == 59 {
        Some(from)
    } else {
        find_open_or_semi(s, from + 1)
    }
}

/// Scanning from `i` with `depth` unclosed `{`: the position of the `}` that
/// brings the depth back to zero (a `}` at depth zero also does).
pub open spec fn match_brace_from(s: Seq<u8>, i: int, depth: nat) -> Option<int>
    decreases s.len() - i,
{
    if i < 0 || i >= s.len() {
        None
    } else if s[i] == 123 {
        match_brace_from(s, i + 1, depth + 1)
    } else if s[i] == 125 {
        if depth <= 1 {
            Some(i)
        } else {
            match_brace_from(s, i + 1, (depth - 1) as nat)
        }
    } else {
        match_brace_from(s, i + 1, depth)
    }
}

/// The `}` matching the `{` at `open`.
pub open spec fn matching_brace(s: Seq<u8>, open: int) -> Option<int> {
    match_brace_from(s, open, 0)
}

/// A keyword found from `from` on lies at or after `from` and is a keyword there.
pub proof fn lemma_find_keyword_bounds(s: Seq<u8>, kw: Seq<u8>, from: int)
    ensures
        find_keyword(s, kw, from) matches Some(k) ==> from <= k && keyword_at(s, k, kw),
{
    lemma_scan_keyword_bounds(s, kw, from);
}

/// A keyword found by scanning from `from` lies at or after `from` and is a
/// keyword there.
pub proof fn lemma_scan_keyword_bounds(s: Seq<u8>, kw: Seq<u8>, from: int)
    ensures
        scan_keyword(s, kw, from) matches Some(k) ==> from <= k && keyword_at(s, k, kw),
    decreases s.len() - from,
{
    if 0 <= from < s.len() && !keyword_at(s, from, kw) {
        lemma_scan_keyword_bounds(s, kw, from + 1);
    }
}

/// No keyword occurs between `from` and the one the scan finds, and none at
/// all from `from` on when the scan finds none.
pub proof fn lemma_scan_keyword_first(s: Seq<u8>, kw: Seq<u8>, from: int)
    requires
        kw.len() > 0,
        0 <= from,
    ensures
        scan_keyword(s, kw, from) matches Some(k) ==> forall|p: int|
            from <= p < k ==> !#[trigger] keyword_at(s, p, kw),
        scan_keyword(s, kw, from) is None ==> forall|p: int| from <= p ==> !#[trigger] keyword_at(s, p, kw),
    decreases s.len() - from,
{
    if 0 <= from < s.len() && !keyword_at(s, from, kw) {
        lemma_scan_keyword_first(s, kw, from + 1);
    }
}

/// A byte found in `[from, to)` lies in that range and holds `b`.
pub proof fn lemma_find_byte_bounds(s: Seq<u8>, b: u8, from: int, to: int)
    ensures
        find_byte(s, b, from, to) matches Some(k) ==> from <= k < to && k < s.len() && s[k] == b,
    decreases to - from,
{
    if 0 <= from < to && from < s.len() && s[from] != b {
        lemma_find_byte_bounds(s, b, from + 1, to);
    }
}

/// The byte found in `[from, to)` is the first `b` there.
pub proof fn lemma_find_byte_first(s: Seq<u8>, b: u8, from: int, to: int)
    ensures
        find_byte(s, b, from, to) matches Some(k) ==> forall|t: int| from <= t < k ==> #[trigger] s[t] != b,
    decreases to - from,
{
    if 0 <= from < to && from < s.len() && s[from] != b {
        lemma_find_byte_first(s, b, from + 1, to);
    }
}

/// A `{` or `;` found from `from` on lies at or after `from`.
pub proof fn lemma_find_open_or_semi_bounds(s: Seq<u8>, from: int)
    ensures
        find_open_or_semi(s, from) matches Some(k) ==> from <= k < s.len() && (s[k] == 123 || s[k] == 59),
    decreases s.len() - from,
{
    if 0 <= from < s.len() && !(s[from] == 123 || s[from] == 59) {
        lemma_find_open_or_semi_bounds(s, from + 1);
    }
}

/// A matching `}` found from `i` on lies at or after `i`.
pub proof fn lemma_match_brace_bounds(s: Seq<u8>, i: int, depth: nat)
    ensures
        match_brace_from(s, i, depth) matches Some(k) ==> i <= k < s.len() && s[k] == 125,
    decreases s.len() - i,
{
    if 0 <= i < s.len() {
        if s[i] == 123 {
            lemma_match_brace_bounds(s, i + 1, depth + 1);
        } else if s[i] == 125 {
            if depth > 1 {
                lemma_match_brace_bounds(s, i + 1, (depth - 1) as nat);
            }
        } else {
            lemma_match_brace_bounds(s, i + 1, depth);
        }
    }
}

/// The `}` matching a `{` lies strictly after it.
pub proof fn lemma_matching_brace_after(s: Seq<u8>, open: int)
    requires
        0 <= open < s.len(),
        s[open] == 123,
    ensures
        matching_brace(s, open) matches Some(k) ==> open < k < s.len() && s[k] == 125,
{
    lemma_match_brace_bounds(s, open + 1, 1);
}

/// `+1` for `{`, `-1` for `}`, 0 for any other byte.
pub open spec fn brace_delta(b: u8) -> int {
    if b == 123 {
        1
    } else if b == 125 {
        -1
    } else {
        0
    }
}

/// The number of `{` minus the number of `}` among the bytes `[a, b)`.
pub open spec fn brace_balance(s: Seq<u8>, a: int, b: int) -> int
    decreases b - a,
{
    if b <= a {
        0
    } else {
        brace_balance(s, a, b - 1) + brace_delta(s[b - 1])
    }
}

proof fn lemma_match_brace_from_balance(s: Seq<u8>, open: int, i: int, depth: nat)
    requires
        0 <= open < i <= s.len(),
        depth == brace_balance(s, open, i),
        depth > 0,
        forall|j: int| open <= j < i ==> #[trigger] brace_balance(s, open, j + 1) > 0,
    ensures
        match_brace_from(s, i, depth) matches Some(c) ==> i <= c < s.len() && brace_balance(s, open, c + 1)
            == 0 && forall|j: int| open <= j < c ==> #[trigger] brace_balance(s, open, j + 1) > 0,
        match_brace_from(s, i, depth) is None ==> forall|j: int|
            open <= j < s.len() ==> #[trigger] brace_balance(s, open, j + 1) > 0,
    decreases s.len() - i,
{
    if i < s.len() {
        assert(brace_balance(s, open, i + 1) == depth + brace_delta(s[i]));
        if s[i] == 123 {
            lemma_match_brace_from_balance(s, open, i + 1, depth + 1);
        } else if s[i] == 125 {
            if depth > 1 {
                lemma_match_brace_from_balance(s, open, i + 1, (depth - 1) as nat);
            }
        } else {
            lemma_match_brace_from_balance(s, open, i + 1, depth);
        }
    }
}

/// The `}` matching the `{` at `open` sits at the least index after `open`
/// where the bytes from `open` through it hold as many `}` as `{`; there is
/// no match exactly when no such index exists.
pub proof fn lemma_matching_brace_balances(s: Seq<u8>, open: int)
    requires
        0 <= open < s.len(),
        s[open] == 123,
    ensures
        matching_brace(s, open) matches Some(c) ==> open < c < s.len() && brace_balance(s, open, c + 1) == 0
            && forall|j: int| open <= j < c ==> #[trigger] brace_balance(s, open, j + 1) > 0,
        matching_brace(s, open) is None ==> forall|j: int|
            open <= j < s.len() ==> #[trigger] brace_balance(s, open, j + 1) > 0,
{
    assert(brace_balance(s, open, open + 1) == 1) by {
        assert(brace_balance(s, open, open) == 0);
    }
    assert(forall|j: int| open <= j < open + 1 ==> #[trigger] brace_balance(s, open, j + 1) > 0);
    lemma_match_brace_from_balance(s, open, open + 1, 1);
}

pub fn is_ident_byte_exec(b: u8) -> (r: bool)
    ensures
        r == is_ident_byte(b),
{
    (97 <= b && b <= 122) || (65 <= b && b <= 90) || (48 <= b && b <= 57) || b == 95
}

pub fn is_ascii_ws_byte_exec(b: u8) -> (r: bool)
    ensures
        r == is_ascii_ws_byte(b),
{
    b == 32 || b == 9 || b == 10 || b == 12 || b == 13
}

/// True when `kw` occurs at `at` on identifier boundaries.
pub fn keyword_at_exec(s: &[u8], at: usize, kw: &[u8]) -> (r: bool)
    ensures
        r == keyword_at(s@, at as int, kw@),
{
    if at > s.len() || kw.len() > s.len() - at {
        return false;
    }
    if at < s.len() && 128 <= s[at] && s[at] < 192 {
        return false;
    }
    let mut j: usize = 0;
    while j < kw.len()
        invariant
            at + kw@.len() <= s.len(),
            0 <= j <= kw@.len(),
            forall|t: int| 0 <= t < j ==> s@[at + t] == kw@[t],
        decreases kw@.len() - j,
    {
        if s[at + j] != kw[j] {
            proof {
                assert(s@.subrange(at as int, at + kw@.len())[j as int] != kw@[j as int]);
            }
            return false;
        }
        j = j + 1;
    }
    proof {
        assert(s@.subrange(at as int, at + kw@.len()) =~= kw@);
    }
    let end = at + kw.len();
    (at == 0 || !is_ident_byte_exec(s[at - 1])) && (end == s.len() || !is_ident_byte_exec(s[end]))
}

/// Next boundary-respecting occurrence of the non-empty keyword `kw` at or
/// after `from`; none when `from` does not begin a character.
pub fn find_keyword_exec(s: &[u8], kw: &[u8], from: usize) -> (r: Option<usize>)
    ensures
        match r {
            Some(k) => find_keyword(s@, kw@, from as int) == Some(k as int),
            None => find_keyword(s@, kw@, from as int) is None,
        },
{
    if from > s.len() || (from < s.len() && 128 <= s[from] && s[from] < 192) {
        return None;
    }
    let mut i = from;
    while i < s.len()
        invariant
            from <= i,
            starts_char(s@, from as int),
            scan_keyword(s@, kw@, from as int) == scan_keyword(s@, kw@, i as int),
        decreases s@.len() - i,
    {
        if keyword_at_exec(s, i, kw) {
            return Some(i);
        }
        i = i + 1;
    }
    None
}

/// The first position in `[from, to)` holding byte `b`.
pub fn find_byte_exec(s: &[u8], b: u8, from: usize, to: usize) -> (r: Option<usize>)
    ensures
        match r {
            Some(k) => find_byte(s@, b, from as int, to as int) == Some(k as int),
            None => find_byte(s@, b, from as int, to as int) is None,
        },
{
    let mut i = from;
    while i < to && i < s.len()
        invariant
            from <= i,
            find_byte(s@, b, from as int, to as int) == find_byte(s@, b, i as int, to as int),
        decreases s@.len() - i,
    {
        if s[i] == b {
            return Some(i);
        }
        i = i + 1;
    }
    None
}

/// The first position at or after `from` holding `{` or `;`.
pub fn find_open_or_semi_exec(s: &[u8], from: usize) -> (r: Option<usize>)
    ensures
        match r {
            Some(k) => find_open_or_semi(s@, from as int) == Some(k as int),
            None => find_open_or_semi(s@, from as int) is None,
        },
{
    let mut i = from;
    while i < s.len()
        invariant
            from <= i,
            find_open_or_semi(s@, from as int) == find_open_or_semi(s@, i as int),
        decreases s@.len() - i,
    {
        if s[i] == 123 || s[i] == 59 {
            return Some(i);
        }
        i = i + 1;
    }
    None
}

/// Index of the `}` matching the `{` at `open`, scanning by brace depth.
pub fn find_matching_brace(s: &[u8], open: usize) -> (r: Option<usize>)
    ensures
        match r {
            Some(k) => matching_brace(s@, open as int) == Some(k as int),
            None => matching_brace(s@, open as int) is None,
        },
{
    let mut depth: usize = 0;
    let mut i = open;
    while i < s.len()
        invariant
            open <= i,
            depth <= i - open,
            matching_brace(s@, open as int) == match_brace_from(s@, i as int, depth as nat),
        decreases s@.len() - i,
    {
        let b = s[i];
        if b == 123 {
            depth = depth + 1;
        } else if b == 125 {
            depth = depth.saturating_sub(1);
            if depth == 0 {
                return Some(i);
            }
        }
        i = i + 1;
    }
    None
}

/// Unicode `White_Space`, the set that Rust's `char::is_whitespace` tests.
pub open spec fn is_whitespace(c: char) -> bool {
    let u = c as u32;
    ||| (9 <= u && u <= 13)
    ||| u == 32
    ||| u == 0x85
    ||| u == 0xa0
    ||| u == 0x1680
    ||| (0x2000 <= u && u <= 0x200a)
    ||| u == 0x2028
    ||| u == 0x2029
    ||| u == 0x202f
    ||| u == 0x205f
    ||| u == 0x3000
}

pub fn is_whitespace_exec(c: char) -> (r: bool)
    ensures
        r == is_whitespace(c),
{
    let u = c as u32;
    (9 <= u && u <= 13) || u == 32 || u == 0x85 || u == 0xa0 || u == 0x1680 || (0x2000 <= u
        && u <= 0x200a) || u == 0x2028 || u == 0x2029 || u == 0x202f || u == 0x205f || u == 0x3000
}

/// Every character is whitespace (the text is empty once trimmed).
pub open spec fn is_blank(cs: Seq<char>) -> bool {
    forall|i: int| 0 <= i < cs.len() ==> is_whitespace(#[trigger] cs[i])
}

pub fn is_blank_exec(s: &str) -> (r: bool)
    ensures
        r == is_blank(s@),
{
    let mut blank = true;
    for c in it: s.chars()
        invariant
            it.seq() == s@,
            blank == (forall|j: int| 0 <= j < it.index() ==> is_whitespace(#[trigger] s@[j])),
    {
        if !is_whitespace_exec(c) {
            blank = false;
        }
    }
    blank
}

/// The value of Rust's `char::is_alphanumeric` on `c` (Unicode `Alphabetic`
/// or `Numeric`).
pub uninterp spec fn char_is_alphanumeric(c: char) -> bool;

/// Calls `char::is_alphanumeric`; its result is named, not stated: Unicode's
/// `Alphabetic` and `Numeric` tables are not written out here.
#[verifier::external_body]
fn is_alphanumeric(c: char) -> (r: bool)
    ensures
        r == char_is_alphanumeric(c),
{
    c.is_alphanumeric()
}

/// A character that may appear in a contract name.
pub open spec fn is_name_char(c: char) -> bool {
    char_is_alphanumeric(c) || c == '_'
}

pub fn is_name_char_exec(c: char) -> (r: bool)
    ensures
        r == is_name_char(c),
{
    is_alphanumeric(c) || c == '_'
}

/// `cs` with its leading whitespace removed.
pub open spec fn skip_ws(cs: Seq<char>) -> Seq<char>
    decreases cs.len(),
{
    if cs.len() > 0 && is_whitespace(cs[0]) {
        skip_ws(cs.drop_first())
    } else {
        cs
    }
}

/// The longest prefix of `cs` made of name characters.
pub open spec fn take_name(cs: Seq<char>) -> Seq<char>
    decreases cs.len(),
{
    if cs.len() > 0 && is_name_char(cs[0]) {
        seq![cs[0]] + take_name(cs.drop_first())
    } else {
        seq![]
    }
}

/// The name that follows optional leading whitespace in `cs`.
pub open spec fn leading_name(cs: Seq<char>) -> Seq<char> {
    take_name(skip_ws(cs))
}

/// Calls `String::push`, which appends `c` to the end of `s`: the string
/// afterwards is the old one followed by `c`.
#[verifier::external_body]
pub(crate) fn push_char(s: &mut String, c: char)
    ensures
        final(s)@ == old(s)@.push(c),
{
    s.push(c)
}

/// The name that follows optional leading whitespace in `text`.
pub fn leading_name_exec(text: &str) -> (name: String)
    ensures
        name@ == leading_name(text@),
{
    let ghost cs = text@;
    let mut name = String::new();
    let mut taking = false;
    let mut done = false;
    let ghost mut q: int = 0;
    proof {
        assert(cs.skip(0) =~= cs);
    }
    for c in it: text.chars()
        invariant
            it.seq() == cs,
            0 <= it.index() <= cs.len(),
            done ==> name@ == leading_name(cs),
            !done && !taking ==> name@ == Seq::<char>::empty() && skip_ws(cs) == skip_ws(cs.skip(it.index() as int)),
            !done && taking ==> 0 <= q <= it.index() && skip_ws(cs) == cs.skip(q)
                && take_name(cs.skip(q)) == name@ + take_name(cs.skip(it.index() as int)),
    {
        let ghost p = it.index() as int;
        proof {
            assert(cs.skip(p)[0] == c);
            assert(cs.skip(p).drop_first() =~= cs.skip(p + 1));
        }
        if done {
        } else if !taking {
            if is_whitespace_exec(c) {
            } else if is_name_char_exec(c) {
                proof {
                    q = p;
                }
                taking = true;
                let ghost old_name = name@;
                push_char(&mut name, c);
                proof {
                    assert(name@ =~= seq![c]);
                }
            } else {
                done = true;
            }
        } else {
            if is_name_char_exec(c) {
                let ghost old_name = name@;
                push_char(&mut name, c);
                proof {
                    assert(old_name + take_name(cs.skip(p)) =~= name@ + take_name(cs.skip(p + 1)));
                }
            } else {
                proof {
                    assert(name@ =~= name@ + take_name(cs.skip(p)));
                }
                done = true;
            }
        }
    }
    proof {
        if !done {
            assert(cs.skip(cs.len() as int) =~= Seq::<char>::empty());
            if taking {
                assert(name@ =~= name@ + take_name(cs.skip(cs.len() as int)));
            }
        }
    }
    name
}

} // verus!
