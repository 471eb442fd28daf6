//! Character-level helpers used when reading pack attributes.
use vstd::prelude::*;

verus! {

/// ASCII lower-casing of one character; every other character is unchanged.
pub open spec fn ascii_lower(c: char) -> char {
    if 'A' <= c && c <= 'Z' {
        ((c as u32) + 32) as char
    } else {
        c
    }
}

/// Two texts are equal when ASCII letters are compared without regard to case.
pub open spec fn eq_ignoring_ascii_case(a: Seq<char>, b: Seq<char>) -> bool {
    &&& a.len() == b.len()
    &&& forall|i: int| 0 <= i < a.len() ==> ascii_lower(#[trigger] a[i]) == ascii_lower(b[i])
}

pub(crate) fn lower_char(c: char) -> (r: char)
    ensures
        r == ascii_lower(c),
{
    if 'A' <= c && c <= 'Z' {
        ((c as u8) + 32) as char
    } else {
        c
    }
}

/// Compares two texts, ASCII letters without regard to case.
pub fn eq_ignore_ascii_case(a: &str, b: &str) -> (r: bool)
    ensures
        r == eq_ignoring_ascii_case(a@, b@),
{
    let n = a.unicode_len();
    if n != b.unicode_len() {
        return false;
    }
    let mut i: usize = 0;
    while i < n
        invariant
            n == a@.len(),
            n == b@.len(),
            i <= n,
            forall|j: int| 0 <= j < i ==> ascii_lower(#[trigger] a@[j]) == ascii_lower(b@[j]),
        decreases n - i,
    {
        if lower_char(a.get_char(i)) != lower_char(b.get_char(i)) {
            return false;
        }
        i = i + 1;
    }
    true
}

} // verus!

verus! {

/// Appends one character to a string.
///
/// Wraps `String::push`, whose documentation says that it appends the given
/// character to the end of the string: the contract states exactly that.
#[verifier::external_body]
pub(crate) fn push_char(s: &mut String, c: char)
    ensures
        final(s)@ == old(s)@.push(c),
{
    s.push(c);
}

pub open spec fn is_ascii_alphanumeric(c: char) -> bool {
    ('0' <= c && c <= '9') || ('a' <= c && c <= 'z') || ('A' <= c && c <= 'Z')
}

pub open spec fn safe_char(c: char, is_full: bool) -> char {
    if is_ascii_alphanumeric(c) || (is_full && c == '.') { c } else { '_' }
}

pub open spec fn safe_name(value: Seq<char>, is_full: bool) -> Seq<char> {
    value.map_values(|c: char| safe_char(c, is_full))
}

/// The characters of a text, in order.
pub fn chars_of(s: &str) -> (v: Vec<char>)
    ensures
        v@ == s@,
{
    let mut v: Vec<char> = Vec::new();
    for c in it: s.chars()
        invariant
            it.seq() == s@,
            v@ == it.seq().take(it.index() as int),
    {
        v.push(c);
        assert(it.seq().take(it.index() + 1 as int) == it.seq().take(it.index() as int).push(c));
    }
    assert(s@.take(s@.len() as int) == s@);
    v
}

pub open spec fn is_digit(c: char) -> bool {
    '0' <= c && c <= '9'
}

pub open spec fn all_digits(s: Seq<char>) -> bool {
    forall|i: int| 0 <= i < s.len() ==> is_digit(#[trigger] s[i])
}

pub open spec fn digit_value(c: char) -> int {
    (c as int) - ('0' as int)
}

/// The value of a string of decimal digits, most significant first.
pub open spec fn decimal_value(s: Seq<char>) -> int
    decreases s.len(),
{
    if s.len() == 0 {
        0
    } else {
        decimal_value(s.drop_last()) * 10 + digit_value(s.last())
    }
}

/// A text without its leading `+` or `-`, if it has one.
pub open spec fn unsigned_part(s: Seq<char>) -> Seq<char> {
    if s.len() > 0 && (s[0] == '+' || s[0] == '-') {
        s.drop_first()
    } else {
        s
    }
}

/// What `i32::from_str` gives for a text: an optional sign, then one or more
/// decimal digits whose value lies in the range of `i32`.
pub open spec fn i32_text_value(s: Seq<char>) -> Option<i32> {
    let d = unsigned_part(s);
    let negative = s.len() > 0 && s[0] == '-';
    if d.len() == 0 || !all_digits(d) {
        None
    } else {
        let v = if negative { -decimal_value(d) } else { decimal_value(d) };
        if i32::MIN <= v && v <= i32::MAX {
            Some(v as i32)
        } else {
            None
        }
    }
}

proof fn lemma_decimal_nonneg(s: Seq<char>)
    requires
        all_digits(s),
    ensures
        decimal_value(s) >= 0,
    decreases s.len(),
{
    if s.len() > 0 {
        lemma_decimal_nonneg(s.drop_last());
    }
}

proof fn lemma_decimal_prefix_le(s: Seq<char>, k: int)
    requires
        all_digits(s),
        0 <= k <= s.len(),
    ensures
        decimal_value(s.take(k)) <= decimal_value(s),
    decreases s.len(),
{
    if k < s.len() {
        lemma_decimal_prefix_le(s.drop_last(), k);
        assert(s.drop_last().take(k) == s.take(k));
        lemma_decimal_nonneg(s.drop_last());
    } else {
        assert(s.take(k) == s);
    }
}

/// Reads a text as an `i32` the way `i32::from_str` does.
pub fn parse_i32(s: &str) -> (r: Option<i32>)
    ensures
        r == i32_text_value(s@),
{
    let t = chars_of(s);
    let n = t.len();
    if n == 0 {
        return None;
    }
    let negative = t[0] == '-';
    let start: usize = if t[0] == '-' || t[0] == '+' { 1 } else { 0 };
    let ghost d = unsigned_part(t@);
    assert(d == t@.skip(start as int));
    if start == n {
        return None;
    }
    let mut acc: i64 = 0;
    let mut i: usize = start;
    while i < n
        invariant
            t@ == s@,
            n == t@.len(),
            start <= i <= n,
            d == t@.skip(start as int),
            d == unsigned_part(s@),
            negative == (s@.len() > 0 && s@[0] == '-'),
            all_digits(d.take(i - start)),
            acc == decimal_value(d.take(i - start)),
            0 <= acc <= 2147483648,
        decreases n - i,
    {
        let c = t[i];
        if !('0' <= c && c <= '9') {
            assert(!is_digit(d[i - start]));
            assert(!all_digits(d));
            return None;
        }
        let dv = ((c as u32) - ('0' as u32)) as i64;
        proof {
            let p = d.take(i - start + 1);
            assert(p.drop_last() == d.take(i - start));
            assert(p.last() == c);
        }
        acc = acc * 10 + dv;
        assert(acc == decimal_value(d.take(i - start + 1)));
        if acc > 2147483648 {
            proof {
                if all_digits(d) {
                    lemma_decimal_prefix_le(d, i - start + 1);
                }
            }
            return None;
        }
        i = i + 1;
    }
    assert(d.take(n - start) == d);
    if negative {
        Some((0 - acc) as i32)
    } else if acc <= 2147483647 {
        Some(acc as i32)
    } else {
        None
    }
}


/// `Digit+ | Digit+ '.' Digit* | Digit* '.' Digit+`: digits with at most one
/// point and at least one digit.
pub open spec fn decimal_mantissa(m: Seq<char>) -> bool {
    ||| (m.len() > 0 && all_digits(m))
    ||| exists|k: int|
        0 <= k < m.len() && #[trigger] m[k] == '.' && all_digits(m.take(k)) && all_digits(
            m.skip(k + 1),
        ) && m.len() > 1
}

/// `'e' Sign? Digit+`, the letter in either case.
pub open spec fn decimal_exponent(x: Seq<char>) -> bool {
    &&& x.len() > 0
    &&& ascii_lower(x[0]) == 'e'
    &&& unsigned_part(x.drop_first()).len() > 0
    &&& all_digits(unsigned_part(x.drop_first()))
}

/// `Mantissa Exp?`
pub open spec fn decimal_number(t: Seq<char>) -> bool {
    ||| decimal_mantissa(t)
    ||| exists|k: int|
        0 <= k < t.len() && ascii_lower(#[trigger] t[k]) == 'e' && decimal_mantissa(t.take(k))
            && decimal_exponent(t.skip(k))
}

pub open spec fn lower_text(t: Seq<char>) -> Seq<char> {
    t.map_values(|c: char| ascii_lower(c))
}

/// `inf`, `infinity` or `nan`, in any case.
pub open spec fn special_float_word(t: Seq<char>) -> bool {
    ||| lower_text(t) == seq!['i', 'n', 'f']
    ||| lower_text(t) == seq!['i', 'n', 'f', 'i', 'n', 'i', 't', 'y']
    ||| lower_text(t) == seq!['n', 'a', 'n']
}

/// The texts that `f32::from_str` accepts, by the grammar in its documentation:
/// an optional sign, then `inf`, `infinity`, `nan` or a decimal number with an
/// optional exponent, letters in any case and no surrounding whitespace.
pub open spec fn float_literal(s: Seq<char>) -> bool {
    special_float_word(unsigned_part(s)) || decimal_number(unsigned_part(s))
}

proof fn lemma_mantissa_chars(m: Seq<char>, p: int)
    requires
        decimal_mantissa(m),
        0 <= p < m.len(),
    ensures
        is_digit(m[p]) || m[p] == '.',
{
    if !(m.len() > 0 && all_digits(m)) {
        let k = choose|k: int|
            0 <= k < m.len() && #[trigger] m[k] == '.' && all_digits(m.take(k)) && all_digits(
                m.skip(k + 1),
            ) && m.len() > 1;
        if p < k {
            assert(m.take(k)[p] == m[p]);
        } else if p > k {
            assert(m.skip(k + 1)[p - k - 1] == m[p]);
        }
    }
}

proof fn lemma_mantissa_one_point(m: Seq<char>, p: int, q: int)
    requires
        0 <= p < q < m.len(),
        !is_digit(m[p]),
        !is_digit(m[q]),
    ensures
        !decimal_mantissa(m),
{
    if !decimal_mantissa(m) {
    } else if m.len() > 0 && all_digits(m) {
        assert(is_digit(m[p]));
    } else {
        let k = choose|k: int|
            0 <= k < m.len() && #[trigger] m[k] == '.' && all_digits(m.take(k)) && all_digits(
                m.skip(k + 1),
            ) && m.len() > 1;
        if p < k {
            assert(m.take(k)[p] == m[p]);
        } else if p > k {
            assert(m.skip(k + 1)[p - k - 1] == m[p]);
        } else {
            assert(m.skip(k + 1)[q - k - 1] == m[q]);
        }
    }
}

/// Index of the first character at or after `i` that is not a decimal digit.
fn digit_run_end(t: &Vec<char>, i: usize) -> (j: usize)
    requires
        i <= t@.len(),
    ensures
        i <= j <= t@.len(),
        forall|k: int| i <= k < j ==> is_digit(#[trigger] t@[k]),
        j < t@.len() ==> !is_digit(t@[j as int]),
{
    let mut j = i;
    while j < t.len() && '0' <= t[j] && t[j] <= '9'
        invariant
            i <= j <= t@.len(),
            forall|k: int| i <= k < j ==> is_digit(#[trigger] t@[k]),
        decreases t@.len() - j,
    {
        j = j + 1;
    }
    j
}

fn lower_equals(t: &Vec<char>, start: usize, word: &Vec<char>) -> (r: bool)
    requires
        start <= t@.len(),
    ensures
        r == (lower_text(t@.skip(start as int)) == word@),
{
    let n = t.len();
    if n - start != word.len() {
        proof {
            assert(lower_text(t@.skip(start as int)).len() != word@.len());
        }
        return false;
    }
    let mut i: usize = 0;
    while i < word.len()
        invariant
            n == t@.len(),
            start <= n,
            n - start == word@.len(),
            i <= word@.len(),
            forall|k: int| 0 <= k < i ==> ascii_lower(#[trigger] t@[start + k]) == word@[k],
        decreases word@.len() - i,
    {
        if lower_char(t[start + i]) != word[i] {
            proof {
                assert(lower_text(t@.skip(start as int))[i as int] == ascii_lower(t@[start + i]));
            }
            return false;
        }
        i = i + 1;
    }
    proof {
        assert forall|k: int| 0 <= k < word@.len() implies lower_text(t@.skip(start as int))[k]
            == word@[k] by {
            assert(t@.skip(start as int)[k] == t@[start + k]);
        }
        assert(lower_text(t@.skip(start as int)) =~= word@);
    }
    true
}

/// Whether `f32::from_str` accepts the text (see `float_literal`).
pub fn is_float_literal(s: &str) -> (r: bool)
    ensures
        r == float_literal(s@),
{
    let t = chars_of(s);
    let n = t.len();
    let start: usize = if n > 0 && (t[0] == '+' || t[0] == '-') { 1 } else { 0 };
    let ghost u = unsigned_part(s@);
    assert(u =~= t@.skip(start as int));
    let special = lower_equals(&t, start, &vec!['i', 'n', 'f']) || lower_equals(
        &t,
        start,
        &vec!['i', 'n', 'f', 'i', 'n', 'i', 't', 'y'],
    ) || lower_equals(&t, start, &vec!['n', 'a', 'n']);
    if special {
        return true;
    }
    let number = scan_number(&t, start);
    assert(u =~= t@.skip(start as int));
    number
}

/// Whether the characters from `start` on form a decimal number.
#[verifier::rlimit(30)]
fn scan_number(t: &Vec<char>, start: usize) -> (r: bool)
    requires
        start <= t@.len(),
    ensures
        r == decimal_number(t@.skip(start as int)),
{
    let n = t.len();
    let ghost u = t@.skip(start as int);
    let j = digit_run_end(t, start);
    let (l, mantissa_ok) = if j < n && t[j] == '.' {
        let l = digit_run_end(t, j + 1);
        (l, (j - start) + (l - j - 1) > 0)
    } else {
        (j, j > start)
    };
    // the mantissa candidate is u[0 .. l - start]
    let ghost m = u.take(l - start);
    proof {
        assert forall|k: int| 0 <= k < l - start && k != j - start implies is_digit(
            #[trigger] m[k],
        ) by {
            assert(m[k] == t@[start + k]);
        }
    }
    assert(mantissa_ok == decimal_mantissa(m)) by {
        lemma_scan_mantissa(t@, start as int, j as int, l as int);
    }
    if l == n {
        assert(m =~= u);
        proof {
            if !mantissa_ok {
                assert forall|k: int|
                    0 <= k < u.len() && ascii_lower(#[trigger] u[k]) == 'e' && decimal_mantissa(
                        u.take(k),
                    ) implies !decimal_exponent(u.skip(k)) by {
                    assert(u[k] == t@[start + k]);
                    if k != j - start {
                        assert(is_digit(m[k]));
                    }
                }
            }
        }
        return mantissa_ok;
    }
    let e = t[l];
    if !(e == 'e' || e == 'E') {
        proof {
            lemma_no_number_after(t@, start as int, j as int, l as int);
        }
        return false;
    }
    let mut p = l + 1;
    if p < n && (t[p] == '+' || t[p] == '-') {
        p = p + 1;
    }
    let q = digit_run_end(t, p);
    let exponent_ok = p < n && q == n;
    proof {
        let x = u.skip(l - start);
        assert(x =~= t@.skip(l as int));
        let y = unsigned_part(x.drop_first());
        assert(y =~= t@.skip(p as int));
        if exponent_ok {
            assert forall|k: int| 0 <= k < y.len() implies is_digit(#[trigger] y[k]) by {
                assert(y[k] == t@[p + k]);
            }
        } else if y.len() > 0 {
            assert(y[q - p] == t@[q as int]);
        }
        assert(exponent_ok == decimal_exponent(x));
        assert(u[l - start] == t@[l as int]);
        assert(u.take(l - start) == m);
        lemma_unique_exponent_split(t@, start as int, j as int, l as int);
    }
    mantissa_ok && exponent_ok
}


/// How `scan_number` cuts the characters from `start` on: a run of digits up
/// to `j`, and, when `t[j]` is a point, a second run of digits up to `l`.
spec fn mantissa_layout(t: Seq<char>, start: int, j: int, l: int) -> bool {
    &&& 0 <= start <= j <= l <= t.len()
    &&& forall|k: int| start <= k < j ==> is_digit(#[trigger] t[k])
    &&& j < t.len() ==> !is_digit(t[j])
    &&& if j < t.len() && t[j] == '.' {
        &&& j + 1 <= l
        &&& forall|k: int| j + 1 <= k < l ==> is_digit(#[trigger] t[k])
        &&& l < t.len() ==> !is_digit(t[l])
    } else {
        l == j
    }
}

proof fn lemma_layout_chars(t: Seq<char>, start: int, j: int, l: int, k: int)
    requires
        mantissa_layout(t, start, j, l),
        start <= k < l,
    ensures
        is_digit(t[k]) || (k == j && t[k] == '.'),
        ascii_lower(t[k]) != 'e',
{
}

proof fn lemma_scan_mantissa(t: Seq<char>, start: int, j: int, l: int)
    requires
        mantissa_layout(t, start, j, l),
    ensures
        decimal_mantissa(t.skip(start).take(l - start)) == (if j < t.len() && t[j] == '.' {
            (j - start) + (l - j - 1) > 0
        } else {
            j > start
        }),
{
    let m = t.skip(start).take(l - start);
    assert forall|k: int| 0 <= k < m.len() implies #[trigger] m[k] == t[start + k] by {}
    if j < t.len() && t[j] == '.' {
        let k = j - start;
        assert(m[k] == '.');
        assert(all_digits(m.take(k))) by {
            assert forall|i: int| 0 <= i < k implies is_digit(#[trigger] m.take(k)[i]) by {
                assert(m.take(k)[i] == t[start + i]);
            }
        }
        assert(all_digits(m.skip(k + 1))) by {
            assert forall|i: int| 0 <= i < m.len() - k - 1 implies is_digit(
                #[trigger] m.skip(k + 1)[i],
            ) by {
                assert(m.skip(k + 1)[i] == t[j + 1 + i]);
            }
        }
        assert(!all_digits(m)) by {
            assert(!is_digit(m[k]));
        }
    } else {
        assert(all_digits(m)) by {
            assert forall|i: int| 0 <= i < m.len() implies is_digit(#[trigger] m[i]) by {
                assert(m[i] == t[start + i]);
            }
        }
    }
}

proof fn lemma_no_number_after(t: Seq<char>, start: int, j: int, l: int)
    requires
        mantissa_layout(t, start, j, l),
        l < t.len(),
        ascii_lower(t[l]) != 'e',
    ensures
        !decimal_number(t.skip(start)),
{
    let u = t.skip(start);
    let p = l - start;
    assert(u[p] == t[l]);
    let two_points = t[l] == '.';
    if two_points {
        assert(j < t.len() && t[j] == '.');
        assert(u[j - start] == t[j]);
    }
    if decimal_mantissa(u) {
        if two_points {
            lemma_mantissa_one_point(u, j - start, p);
        } else {
            lemma_mantissa_chars(u, p);
        }
    }
    assert forall|k: int|
        0 <= k < u.len() && ascii_lower(#[trigger] u[k]) == 'e' implies !decimal_mantissa(
        u.take(k),
    ) by {
        assert(u[k] == t[start + k]);
        if k < p {
            lemma_layout_chars(t, start, j, l, start + k);
        } else {
            let w = u.take(k);
            assert(w[p] == t[l]);
            if decimal_mantissa(w) {
                if two_points {
                    assert(w[j - start] == t[j]);
                    lemma_mantissa_one_point(w, j - start, p);
                } else {
                    lemma_mantissa_chars(w, p);
                }
            }
        }
    }
}

proof fn lemma_unique_exponent_split(t: Seq<char>, start: int, j: int, l: int)
    requires
        mantissa_layout(t, start, j, l),
        l < t.len(),
        ascii_lower(t[l]) == 'e',
    ensures
        decimal_number(t.skip(start)) == (decimal_mantissa(t.skip(start).take(l - start))
            && decimal_exponent(t.skip(start).skip(l - start))),
{
    let u = t.skip(start);
    let p = l - start;
    assert(u[p] == t[l]);
    assert(!is_digit(t[l]) && t[l] != '.');
    if decimal_mantissa(u) {
        lemma_mantissa_chars(u, p);
    }
    assert forall|k: int|
        0 <= k < u.len() && k != p && ascii_lower(#[trigger] u[k]) == 'e' implies !decimal_mantissa(
        u.take(k),
    ) by {
        assert(u[k] == t[start + k]);
        if k < p {
            lemma_layout_chars(t, start, j, l, start + k);
        } else {
            let w = u.take(k);
            assert(w[p] == t[l]);
            if decimal_mantissa(w) {
                lemma_mantissa_chars(w, p);
            }
        }
    }
}


/// Making a name safe twice gives what making it safe once gives.
pub proof fn lemma_safe_name_idempotent(value: Seq<char>, is_full: bool)
    ensures
        safe_name(safe_name(value, is_full), is_full) == safe_name(value, is_full),
        safe_name(value, is_full).len() == value.len(),
{
    assert(safe_name(safe_name(value, is_full), is_full) =~= safe_name(value, is_full));
}

/// Comparing without regard to ASCII case is symmetric and reflexive.
pub proof fn lemma_eq_ignoring_ascii_case(a: Seq<char>, b: Seq<char>)
    ensures
        eq_ignoring_ascii_case(a, b) == eq_ignoring_ascii_case(b, a),
        eq_ignoring_ascii_case(a, a),
{
}


/// A character that a safe name keeps: an ASCII letter or digit, or, in a
/// full name, a `.`.
pub open spec fn kept_in_safe_name(c: char, is_full: bool) -> bool {
    ||| 'a' <= c <= 'z'
    ||| 'A' <= c <= 'Z'
    ||| '0' <= c <= '9'
    ||| (is_full && c == '.')
}

/// A safe name has one character for each character of the name: the same
/// character where it is an ASCII letter or digit (or a `.` in a full name),
/// and `_` in place of any other. So a safe name holds nothing but ASCII
/// letters, digits, `_` and, in a full name, `.`.
pub proof fn lemma_safe_name_characters(value: Seq<char>, is_full: bool)
    ensures
        safe_name(value, is_full).len() == value.len(),
        forall|i: int| 0 <= i < value.len() && kept_in_safe_name(value[i], is_full) ==> #[trigger] safe_name(
            value,
            is_full,
        )[i] == value[i],
        forall|i: int| 0 <= i < value.len() && !kept_in_safe_name(value[i], is_full) ==> #[trigger] safe_name(
            value,
            is_full,
        )[i] == '_',
        forall|i: int| 0 <= i < value.len() ==> ({
            let c = #[trigger] safe_name(value, is_full)[i];
            kept_in_safe_name(c, is_full) || c == '_'
        }),
{
}

} // verus!
