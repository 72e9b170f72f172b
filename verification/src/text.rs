//! Verified text utilities: string equality, trimming, substring search,
//! delay-input parsing, and the trusted character-level wrappers they rest
//! on.

use vstd::prelude::*;
use vstd::string::StrSliceExecFns;
use vstd::string::StringExecFns;

verus! {

/// What `str::to_lowercase` returns: a function of the characters alone.
pub uninterp spec fn lower_of(s: Seq<char>) -> Seq<char>;

/// Whether `char::is_whitespace` holds of a character.
pub uninterp spec fn is_space(c: char) -> bool;

/// Relies on `str::to_lowercase`: the result depends on the characters alone.
#[verifier::external_body]
pub(crate) fn to_lowercase_str(s: &str) -> (r: String)
    ensures
        r@ == lower_of(s@),
{
    s.to_lowercase()
}

/// Relies on `char::is_whitespace`: a fixed classification of characters.
#[verifier::external_body]
pub(crate) fn char_is_whitespace(c: char) -> (r: bool)
    ensures
        r == is_space(c),
{
    c.is_whitespace()
}

/// Relies on `String::push`: appends the given character.
#[verifier::external_body]
pub(crate) fn push_char(s: &mut String, c: char)
    ensures
        final(s)@ == old(s)@.push(c),
{
    s.push(c)
}

/// Character-for-character string equality.
pub fn str_eq(a: &str, b: &str) -> (r: bool)
    ensures
        r == (a@ == b@),
{
    let alen = a.unicode_len();
    let blen = b.unicode_len();
    if alen != blen {
        assert(a@ != b@) by {
            assert(a@.len() != b@.len());
        }
        return false;
    }
    let mut i: usize = 0;
    while i < alen
        invariant
            alen == a@.len(),
            a@.len() == b@.len(),
            0 <= i <= alen,
            forall|j: int| 0 <= j < i ==> a@[j] == b@[j],
        decreases alen - i,
    {
        if a.get_char(i) != b.get_char(i) {
            return false;
        }
        i += 1;
    }
    assert(a@ =~= b@);
    true
}

/// The sequence with its leading whitespace removed.
pub open spec fn trim_front_spec(s: Seq<char>) -> Seq<char>
    decreases s.len(),
{
    if s.len() > 0 && is_space(s.first()) {
        trim_front_spec(s.drop_first())
    } else {
        s
    }
}

/// The sequence with its trailing whitespace removed.
pub open spec fn trim_end_spec(s: Seq<char>) -> Seq<char>
    decreases s.len(),
{
    if s.len() > 0 && is_space(s.last()) {
        trim_end_spec(s.drop_last())
    } else {
        s
    }
}

/// The sequence with leading and trailing whitespace removed.
pub open spec fn trim_spec(s: Seq<char>) -> Seq<char> {
    trim_end_spec(trim_front_spec(s))
}

proof fn lemma_trim_front_scan(s: Seq<char>, i: int)
    requires
        0 <= i <= s.len(),
        forall|j: int| 0 <= j < i ==> is_space(s[j]),
        i == s.len() || !is_space(s[i]),
    ensures
        trim_front_spec(s) == s.skip(i),
    decreases i,
{
    if i == 0 {
        assert(s.skip(0) =~= s);
    } else {
        lemma_trim_front_scan(s.drop_first(), i - 1);
        assert(s.drop_first() =~= s.skip(1));
        assert(s.skip(1).skip(i - 1) =~= s.skip(i));
    }
}

proof fn lemma_trim_end_scan(s: Seq<char>, j: int)
    requires
        0 <= j <= s.len(),
        forall|k: int| j <= k < s.len() ==> is_space(s[k]),
        j == 0 || !is_space(s[j - 1]),
    ensures
        trim_end_spec(s) == s.take(j),
    decreases s.len() - j,
{
    if j == s.len() {
        assert(s.take(j) =~= s);
    } else {
        lemma_trim_end_scan(s.drop_last(), j);
        assert(s.drop_last() =~= s.take(s.len() - 1));
        assert(s.drop_last().take(j) =~= s.take(j));
    }
}

/// Remove leading and trailing whitespace.
pub fn trim_str<'a>(s: &'a str) -> (r: &'a str)
    ensures
        r@ == trim_spec(s@),
{
    let n = s.unicode_len();
    let mut i: usize = 0;
    while i < n && char_is_whitespace(s.get_char(i))
        invariant
            n == s@.len(),
            0 <= i <= n,
            forall|j: int| 0 <= j < i ==> is_space(s@[j]),
        decreases n - i,
    {
        i += 1;
    }
    proof {
        lemma_trim_front_scan(s@, i as int);
    }
    let mut j: usize = n;
    while j > i && char_is_whitespace(s.get_char(j - 1))
        invariant
            n == s@.len(),
            i <= j <= n,
            forall|k: int| j <= k < n ==> is_space(s@[k]),
        decreases j,
    {
        j -= 1;
    }
    let r = s.substring_char(i, j);
    proof {
        let u = s@.skip(i as int);
        lemma_trim_end_scan(u, j - i);
        assert(u.take(j - i) =~= s@.subrange(i as int, j as int));
    }
    r
}

/// Whether `n` occurs in `h` starting at position `i`.
pub open spec fn match_at(h: Seq<char>, n: Seq<char>, i: int) -> bool {
    &&& 0 <= i
    &&& i + n.len() <= h.len()
    &&& forall|j: int| 0 <= j < n.len() ==> h[i + j] == n[j]
}

/// Whether `n` occurs anywhere in `h` as a contiguous subsequence.
pub open spec fn contains_sub(h: Seq<char>, n: Seq<char>) -> bool {
    exists|i: int| match_at(h, n, i)
}

/// Substring search: does `needle` occur contiguously in `hay`?
pub fn contains_chars(hay: &str, needle: &str) -> (r: bool)
    ensures
        r == contains_sub(hay@, needle@),
{
    let hlen = hay.unicode_len();
    let nlen = needle.unicode_len();
    if nlen > hlen {
        return false;
    }
    let mut i: usize = 0;
    while i <= hlen - nlen
        invariant
            hlen == hay@.len(),
            nlen == needle@.len(),
            nlen <= hlen,
            0 <= i <= hlen - nlen + 1,
            forall|p: int| 0 <= p < i ==> !match_at(hay@, needle@, p),
        decreases hlen - nlen + 1 - i,
    {
        let mut j: usize = 0;
        let mut hit = true;
        while j < nlen
            invariant
                hlen == hay@.len(),
                nlen == needle@.len(),
                i + nlen <= hlen,
                0 <= j <= nlen,
                hit ==> forall|q: int| 0 <= q < j ==> hay@[i + q] == needle@[q],
                !hit ==> !match_at(hay@, needle@, i as int),
            decreases nlen - j,
        {
            if hay.get_char(i + j) != needle.get_char(j) {
                hit = false;
                j = nlen;
            } else {
                j += 1;
            }
        }
        if hit {
            assert(match_at(hay@, needle@, i as int));
            return true;
        }
        i += 1;
    }
    assert(forall|p: int| #[trigger] match_at(hay@, needle@, p) ==> 0 <= p <= hlen - nlen);
    false
}

/// The position of the first occurrence of `c`, if any.
pub open spec fn find_char_spec(s: Seq<char>, c: char) -> Option<int>
    decreases s.len(),
{
    if s.len() == 0 {
        None
    } else if s[0] == c {
        Some(0)
    } else {
        match find_char_spec(s.drop_first(), c) {
            Some(k) => Some(k + 1),
            None => None,
        }
    }
}

proof fn lemma_find_char_scan(s: Seq<char>, c: char, i: int)
    requires
        0 <= i <= s.len(),
        forall|j: int| 0 <= j < i ==> s[j] != c,
        i == s.len() || s[i] == c,
    ensures
        i < s.len() ==> find_char_spec(s, c) == Some(i),
        i == s.len() ==> find_char_spec(s, c) is None,
    decreases i,
{
    if i == 0 {
    } else {
        lemma_find_char_scan(s.drop_first(), c, i - 1);
    }
}

/// Find the first occurrence of a character.
pub fn find_char_str(s: &str, c: char) -> (r: Option<usize>)
    ensures
        match r {
            Some(i) => find_char_spec(s@, c) == Some(i as int) && i < s@.len(),
            None => find_char_spec(s@, c) is None,
        },
{
    let n = s.unicode_len();
    let mut i: usize = 0;
    while i < n
        invariant
            n == s@.len(),
            0 <= i <= n,
            forall|j: int| 0 <= j < i ==> s@[j] != c,
        decreases n - i,
    {
        if s.get_char(i) == c {
            proof {
                lemma_find_char_scan(s@, c, i as int);
            }
            return Some(i);
        }
        i += 1;
    }
    proof {
        lemma_find_char_scan(s@, c, n as int);
    }
    None
}

/// Remove trailing whitespace only.
pub fn trim_end_str<'a>(s: &'a str) -> (r: &'a str)
    ensures
        r@ == trim_end_spec(s@),
{
    let n = s.unicode_len();
    let mut j: usize = n;
    while j > 0 && char_is_whitespace(s.get_char(j - 1))
        invariant
            n == s@.len(),
            0 <= j <= n,
            forall|k: int| j <= k < n ==> is_space(s@[k]),
        decreases j,
    {
        j -= 1;
    }
    let r = s.substring_char(0, j);
    proof {
        lemma_trim_end_scan(s@, j as int);
        assert(s@.take(j as int) =~= s@.subrange(0, j as int));
    }
    r
}

/// Whether a character is an ascii decimal digit.
pub open spec fn is_digit_char(c: char) -> bool {
    48 <= c as u32 <= 57
}

/// The numeric value of an ascii decimal digit.
pub open spec fn digit_val(c: char) -> int {
    c as u32 - 48
}

/// Whether every character of the sequence is an ascii decimal digit.
pub open spec fn all_digits(s: Seq<char>) -> bool {
    forall|i: int| 0 <= i < s.len() ==> is_digit_char(s[i])
}

/// The value of a sequence of decimal digits, most significant first.
pub open spec fn digits_val(s: Seq<char>) -> int
    decreases s.len(),
{
    if s.len() == 0 {
        0
    } else {
        digits_val(s.drop_last()) * 10 + digit_val(s.last())
    }
}

proof fn lemma_digits_val_nonneg(s: Seq<char>)
    requires
        all_digits(s),
    ensures
        digits_val(s) >= 0,
    decreases s.len(),
{
    if s.len() > 0 {
        lemma_digits_val_nonneg(s.drop_last());
    }
}

proof fn lemma_digits_val_prefix(s: Seq<char>, i: int)
    requires
        all_digits(s),
        0 <= i <= s.len(),
    ensures
        digits_val(s) >= digits_val(s.take(i)),
    decreases s.len(),
{
    if i < s.len() {
        lemma_digits_val_prefix(s.drop_last(), i);
        assert(s.drop_last().take(i) =~= s.take(i));
        lemma_digits_val_nonneg(s.drop_last());
    } else {
        assert(s.take(i) =~= s);
    }
}

/// What `u32::from_str` (via `str::parse`) returns: an optional leading
/// `+`, then one or more decimal digits whose value fits in `u32`.
pub open spec fn spec_parse_u32(s: Seq<char>) -> Option<u32> {
    let t = if s.len() > 0 && s[0] == '+' {
        s.drop_first()
    } else {
        s
    };
    if t.len() > 0 && all_digits(t) && digits_val(t) <= u32::MAX {
        Some(digits_val(t) as u32)
    } else {
        None
    }
}

/// Parse an unsigned decimal number as `str::parse::<u32>` does.
pub fn parse_u32_str(s: &str) -> (r: Option<u32>)
    ensures
        r == spec_parse_u32(s@),
{
    let n = s.unicode_len();
    let start: usize = if n > 0 && s.get_char(0) == '+' {
        1
    } else {
        0
    };
    let ghost t = if s@.len() > 0 && s@[0] == '+' {
        s@.drop_first()
    } else {
        s@
    };
    proof {
        assert(t =~= s@.skip(start as int));
    }
    if start >= n {
        return None;
    }
    let mut acc: u32 = 0;
    let mut i: usize = start;
    while i < n
        invariant
            n == s@.len(),
            t == s@.skip(start as int),
            t == (if s@.len() > 0 && s@[0] == '+' {
                s@.drop_first()
            } else {
                s@
            }),
            start < n,
            start <= i <= n,
            t.len() == n - start,
            all_digits(t.take(i - start)),
            acc == digits_val(t.take(i - start)),
        decreases n - i,
    {
        let c = s.get_char(i);
        let v = c as u32;
        if v < 48 || v > 57 {
            assert(t[i - start] == s@[i as int]);
            assert(!all_digits(t));
            return None;
        }
        let d = v - 48;
        proof {
            assert(t.take(i - start + 1).drop_last() =~= t.take(i - start));
            assert(t.take(i - start + 1).last() == t[i - start]);
            assert(t[i - start] == s@[i as int]);
        }
        if acc > (u32::MAX - d) / 10 {
            proof {
                let big = t.take(i - start + 1);
                assert(digits_val(big) == acc * 10 + d);
                assert(acc * 10 + d > u32::MAX) by (nonlinear_arith)
                    requires
                        acc > (u32::MAX - d) / 10,
                        d <= 9,
                ;
                if all_digits(t) {
                    lemma_digits_val_prefix(t, i - start + 1);
                }
            }
            return None;
        }
        proof {
            assert(acc * 10 + d <= u32::MAX) by (nonlinear_arith)
                requires
                    acc <= (u32::MAX - d) / 10,
                    d <= 9,
            ;
        }
        acc = acc * 10 + d;
        i += 1;
    }
    proof {
        assert(t.take(i - start) =~= t);
    }
    Some(acc)
}

/// What a delay input in `HH:MM` shape means in minutes. The sentinel
/// `00:00` means no delay; a malformed input means no delay as well.
pub open spec fn spec_parse_delay(s: Seq<char>) -> Option<u32> {
    if s == "00:00"@ {
        None
    } else {
        match find_char_spec(s, ':') {
            Some(k) => {
                let rest = s.skip(k + 1);
                if find_char_spec(rest, ':') is Some {
                    None
                } else {
                    match (spec_parse_u32(s.take(k)), spec_parse_u32(rest)) {
                        (Some(h), Some(m)) => if h < 100 && m < 100 {
                            Some((h * 60 + m) as u32)
                        } else {
                            None
                        },
                        _ => None,
                    }
                }
            },
            None => None,
        }
    }
}

/// Parse a delay input of the shape `HH:MM` into minutes.
///
/// `00:00` and anything that is not two numbers of at most two digits each,
/// separated by one colon, count as "no delay".
pub fn parse_delay_input(s: &str) -> (r: Option<u32>)
    ensures
        r == spec_parse_delay(s@),
{
    if str_eq(s, "00:00") {
        return None;
    }
    let n = s.unicode_len();
    let k = match find_char_str(s, ':') {
        Some(k) => k,
        None => {
            return None;
        },
    };
    let head = s.substring_char(0, k);
    let rest = s.substring_char(k + 1, n);
    proof {
        assert(head@ =~= s@.take(k as int));
        assert(rest@ =~= s@.skip(k + 1));
    }
    if find_char_str(rest, ':').is_some() {
        return None;
    }
    let h = match parse_u32_str(head) {
        Some(h) => h,
        None => {
            return None;
        },
    };
    let m = match parse_u32_str(rest) {
        Some(m) => m,
        None => {
            return None;
        },
    };
    if h < 100 && m < 100 {
        Some(h * 60 + m)
    } else {
        None
    }
}

/// The character of a decimal digit.
pub open spec fn digit_char(d: int) -> char {
    if d == 0 {
        '0'
    } else if d == 1 {
        '1'
    } else if d == 2 {
        '2'
    } else if d == 3 {
        '3'
    } else if d == 4 {
        '4'
    } else if d == 5 {
        '5'
    } else if d == 6 {
        '6'
    } else if d == 7 {
        '7'
    } else if d == 8 {
        '8'
    } else {
        '9'
    }
}

/// The decimal digits of a non-negative number, most significant first.
pub open spec fn dec_chars(n: int) -> Seq<char>
    decreases n,
{
    if n < 10 {
        seq![digit_char(n)]
    } else {
        dec_chars(n / 10).push(digit_char(n % 10))
    }
}

/// Decimal digits, zero-padded on the left to at least two places.
pub open spec fn pad2(n: int) -> Seq<char> {
    if n < 10 {
        seq!['0'] + dec_chars(n)
    } else {
        dec_chars(n)
    }
}

/// A delay rendered as `HH:MM` (hours may take more than two digits).
pub open spec fn spec_format_hhmm(total: u32) -> Seq<char> {
    pad2(total as int / 60) + seq![':'] + pad2(total as int % 60)
}

fn digit_char_exec(d: u32) -> (c: char)
    requires
        d < 10,
    ensures
        c == digit_char(d as int),
{
    if d == 0 {
        '0'
    } else if d == 1 {
        '1'
    } else if d == 2 {
        '2'
    } else if d == 3 {
        '3'
    } else if d == 4 {
        '4'
    } else if d == 5 {
        '5'
    } else if d == 6 {
        '6'
    } else if d == 7 {
        '7'
    } else if d == 8 {
        '8'
    } else {
        '9'
    }
}

fn push_dec(s: &mut String, n: u32)
    ensures
        final(s)@ == old(s)@ + dec_chars(n as int),
    decreases n,
{
    if n >= 10 {
        push_dec(s, n / 10);
    }
    push_char(s, digit_char_exec(n % 10));
    proof {
        if n < 10 {
            assert(s@ =~= old(s)@ + dec_chars(n as int));
        } else {
            assert(s@ =~= old(s)@ + dec_chars(n as int));
        }
    }
}

/// Render a delay in minutes as `HH:MM`.
pub fn format_hhmm(total: u32) -> (r: String)
    ensures
        r@ == spec_format_hhmm(total),
{
    let h = total / 60;
    let m = total % 60;
    let mut s = String::new();
    if h < 10 {
        push_char(&mut s, '0');
    }
    push_dec(&mut s, h);
    push_char(&mut s, ':');
    if m < 10 {
        push_char(&mut s, '0');
    }
    push_dec(&mut s, m);
    proof {
        assert(s@ =~= spec_format_hhmm(total));
    }
    s
}

/// The delay input after a button press of `delta` minutes: the current
/// value (zero when unparseable) moved by `delta` and clamped at zero,
/// rendered back as `HH:MM`.
pub open spec fn spec_adjust_delay(s: Seq<char>, delta: int) -> Seq<char> {
    let cur = match spec_parse_delay(s) {
        Some(v) => v as int,
        None => 0,
    };
    let moved = if cur + delta < 0 {
        0
    } else {
        cur + delta
    };
    spec_format_hhmm(moved as u32)
}

/// Move a delay input by a number of minutes, clamping at zero.
pub fn adjust_delay_input(current: &str, delta_minutes: i32) -> (r: String)
    ensures
        r@ == spec_adjust_delay(current@, delta_minutes as int),
{
    let cur: u32 = match parse_delay_input(current) {
        Some(v) => v,
        None => 0,
    };
    assert(cur <= 6039);
    let total: i64 = cur as i64 + delta_minutes as i64;
    let moved: u32 = if total < 0 {
        0
    } else {
        total as u32
    };
    format_hhmm(moved)
}

/// The title and body a captured text splits into: the text is trimmed,
/// the first line (right-trimmed) is the title, the rest (right-trimmed)
/// is the body.
pub open spec fn spec_parse_memo(text: Seq<char>) -> (Seq<char>, Seq<char>) {
    let t = trim_spec(text);
    match find_char_spec(t, '\n') {
        Some(i) => (trim_spec(t.take(i)), trim_end_spec(t.skip(i + 1))),
        None => (t, Seq::empty()),
    }
}

/// Split a captured text into title (first line) and body (the rest).
pub fn parse_memo_text(text: &str) -> (r: (String, String))
    ensures
        r.0@ == spec_parse_memo(text@).0,
        r.1@ == spec_parse_memo(text@).1,
{
    let t = trim_str(text);
    let n = t.unicode_len();
    match find_char_str(t, '\n') {
        Some(i) => {
            let head = t.substring_char(0, i);
            let tail = t.substring_char(i + 1, n);
            proof {
                assert(head@ =~= t@.take(i as int));
                assert(tail@ =~= t@.skip(i + 1));
            }
            let title = trim_str(head).to_owned();
            let body = trim_end_str(tail).to_owned();
            (title, body)
        },
        None => (t.to_owned(), String::new()),
    }
}

/// The text a memo is re-edited as: the title, then on a new line the
/// body; the line break is omitted when the body is empty.
pub open spec fn spec_edit_text(title: Seq<char>, body: Seq<char>) -> Seq<char> {
    if body.len() == 0 {
        title
    } else {
        title + seq!['\n'] + body
    }
}

/// Join a memo's title and body back into one editable text.
pub fn edit_text(title: &str, body: &str) -> (r: String)
    ensures
        r@ == spec_edit_text(title@, body@),
{
    if body.unicode_len() == 0 {
        title.to_owned()
    } else {
        let mut s = title.to_owned();
        push_char(&mut s, '\n');
        s.append(body);
        proof {
            assert(s@ =~= title@ + seq!['\n'] + body@);
        }
        s
    }
}

} // verus!
