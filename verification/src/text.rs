//! Character and line utilities: converting strings to character vectors,
//! splitting, trimming, and parsing unsigned numbers.
use vstd::prelude::*;

verus! {

use crate::is_ascii_digit_char;

/// Whether `char::is_whitespace` holds of `c` (the Unicode `White_Space`
/// property); left uninterpreted beyond what the wrapper below states.
pub uninterp spec fn is_whitespace_char(c: char) -> bool;

/// Relies on `char::is_whitespace`: the result depends on the character
/// alone, and on ASCII characters it holds exactly of space and of the
/// control characters U+0009 through U+000D.
#[verifier::external_body]
pub(crate) fn char_is_whitespace(c: char) -> (r: bool)
    ensures
        r == is_whitespace_char(c),
        (c as u32) < 128 ==> r == (c == ' ' || (9 <= c as u32 && c as u32 <= 13)),
{
    c.is_whitespace()
}

/// Relies on `FromIterator<char> for String`: collecting characters
/// builds the string of exactly those characters, in order.
#[verifier::external_body]
pub(crate) fn chars_to_string(v: &Vec<char>) -> (r: String)
    ensures
        r@ == v@,
{
    v.iter().collect()
}

/// The characters of a string, as a vector.
pub fn to_chars(s: &str) -> (r: Vec<char>)
    ensures
        r@ == s@,
{
    let n = s.unicode_len();
    let mut r: Vec<char> = Vec::new();
    let mut i: usize = 0;
    while i < n
        invariant
            i <= n,
            n == s@.len(),
            r@ == s@.take(i as int),
        decreases n - i,
    {
        r.push(s.get_char(i));
        proof {
            assert(r@ =~= s@.take(i + 1));
        }
        i = i + 1;
    }
    proof {
        assert(r@ =~= s@);
    }
    r
}

/// A copy of `v[from..to]`.
pub fn subrange_vec(v: &Vec<char>, from: usize, to: usize) -> (r: Vec<char>)
    requires
        from <= to <= v@.len(),
    ensures
        r@ == v@.subrange(from as int, to as int),
{
    let mut r: Vec<char> = Vec::new();
    let mut i: usize = from;
    while i < to
        invariant
            from <= i <= to <= v@.len(),
            r@ == v@.subrange(from as int, i as int),
        decreases to - i,
    {
        r.push(v[i]);
        proof {
            assert(r@ =~= v@.subrange(from as int, i + 1));
        }
        i = i + 1;
    }
    r
}

/// The numeric value of an ASCII digit character.
pub open spec fn digit_value(c: char) -> int {
    c as int - '0' as int
}

/// Whether every character of `s` is an ASCII digit.
pub open spec fn all_ascii_digits(s: Seq<char>) -> bool {
    forall|i: int| 0 <= i < s.len() ==> is_ascii_digit_char(#[trigger] s[i])
}

/// The value of a sequence of ASCII digits, most significant first.
pub open spec fn digits_val(s: Seq<char>) -> int
    decreases s.len(),
{
    if s.len() == 0 {
        0
    } else {
        digits_val(s.drop_last()) * 10 + digit_value(s.last())
    }
}

pub proof fn lemma_digits_val_nonneg(s: Seq<char>)
    requires
        all_ascii_digits(s),
    ensures
        digits_val(s) >= 0,
    decreases s.len(),
{
    if s.len() > 0 {
        assert(all_ascii_digits(s.drop_last()));
        lemma_digits_val_nonneg(s.drop_last());
    }
}

/// Extending a digit string on the right never lowers its value.
pub proof fn lemma_digits_val_prefix_le(s: Seq<char>, i: int)
    requires
        all_ascii_digits(s),
        0 <= i <= s.len(),
    ensures
        digits_val(s.take(i)) <= digits_val(s),
    decreases s.len() - i,
{
    if i < s.len() {
        lemma_digits_val_prefix_le(s, i + 1);
        assert(s.take(i + 1).drop_last() =~= s.take(i));
        assert(all_ascii_digits(s.take(i)));
        lemma_digits_val_nonneg(s.take(i));
        assert(digits_val(s.take(i)) <= digits_val(s.take(i + 1)));
    } else {
        assert(s.take(i) =~= s);
    }
}

/// What `str::parse::<u32>` returns on `s`: an optional leading `+`,
/// then at least one ASCII digit, and a value that fits in `u32`.
pub open spec fn parse_u32_spec(s: Seq<char>) -> Option<u32> {
    let body = if s.len() > 0 && s[0] == '+' {
        s.skip(1)
    } else {
        s
    };
    if body.len() > 0 && all_ascii_digits(body) && digits_val(body) <= u32::MAX as int {
        Some(digits_val(body) as u32)
    } else {
        None
    }
}

/// What `str::parse::<u8>` returns on `s`.
pub open spec fn parse_u8_spec(s: Seq<char>) -> Option<u8> {
    let body = if s.len() > 0 && s[0] == '+' {
        s.skip(1)
    } else {
        s
    };
    if body.len() > 0 && all_ascii_digits(body) && digits_val(body) <= u8::MAX as int {
        Some(digits_val(body) as u8)
    } else {
        None
    }
}

/// Parses the digits `v[from..]` (no sign) as a value bounded by `max`.
fn parse_digits(v: &Vec<char>, from: usize, max: u32) -> (r: Option<u32>)
    requires
        from <= v@.len(),
        9 <= max,
    ensures
        ({
            let body = v@.skip(from as int);
            match r {
                Some(n) => body.len() > 0 && all_ascii_digits(body) && digits_val(body) == n
                    && n <= max,
                None => !(body.len() > 0 && all_ascii_digits(body) && digits_val(body)
                    <= max as int),
            }
        }),
{
    let ghost body = v@.skip(from as int);
    let n = v.len();
    if from == n {
        return None;
    }
    let mut acc: u32 = 0;
    let mut i: usize = from;
    while i < n
        invariant
            from <= i <= n,
            n == v@.len(),
            9 <= max,
            body == v@.skip(from as int),
            all_ascii_digits(body.take(i - from)),
            acc == digits_val(body.take(i - from)),
            acc <= max,
        decreases n - i,
    {
        let c = v[i];
        proof {
            assert(body.take(i + 1 - from).drop_last() =~= body.take(i - from));
            assert(body.take(i + 1 - from).last() == c);
        }
        if !('0' <= c && c <= '9') {
            proof {
                assert(body[i - from] == c);
                assert(!all_ascii_digits(body));
            }
            return None;
        }
        let d: u32 = c as u32 - 48;
        proof {
            assert(d == digit_value(c));
        }
        if acc > (max - d) / 10 {
            proof {
                assert(digits_val(body.take(i + 1 - from)) == acc * 10 + d);
                assert(acc * 10 + d > max as int) by (nonlinear_arith)
                    requires
                        acc > (max - d) / 10,
                        d <= 9,
                        max >= d,
                        acc >= 0,
                ;
                if all_ascii_digits(body) && digits_val(body) <= max as int {
                    lemma_digits_val_prefix_le(body, i + 1 - from);
                    assert(false);
                }
            }
            return None;
        }
        proof {
            assert(acc * 10 + d <= max as int) by (nonlinear_arith)
                requires
                    acc <= (max - d) / 10,
                    d <= 9,
                    max >= d,
                    acc >= 0,
            ;
        }
        acc = acc * 10 + d;
        i = i + 1;
    }
    proof {
        assert(body.take(n - from) =~= body);
    }
    Some(acc)
}

/// Verified counterpart of `str::parse::<u32>` on a character vector.
pub fn parse_u32_chars(v: &Vec<char>) -> (r: Option<u32>)
    ensures
        r == parse_u32_spec(v@),
{
    if v.len() > 0 && v[0] == '+' {
        proof {
            assert(v@.skip(1) == (if v@.len() > 0 && v@[0] == '+' {
                v@.skip(1)
            } else {
                v@
            }));
        }
        parse_digits(v, 1, u32::MAX)
    } else {
        proof {
            assert(v@.skip(0) =~= v@);
        }
        parse_digits(v, 0, u32::MAX)
    }
}

/// Verified counterpart of `str::parse::<u8>` on a character vector.
pub fn parse_u8_chars(v: &Vec<char>) -> (r: Option<u8>)
    ensures
        r == parse_u8_spec(v@),
{
    let r32 = if v.len() > 0 && v[0] == '+' {
        parse_digits(v, 1, 255)
    } else {
        proof {
            assert(v@.skip(0) =~= v@);
        }
        parse_digits(v, 0, 255)
    };
    match r32 {
        Some(n) => Some(n as u8),
        None => None,
    }
}

/// The views of the elements of a sequence of viewable values.
pub open spec fn seq_views<T: View>(s: Seq<T>) -> Seq<T::V> {
    Seq::new(s.len(), |i: int| s[i]@)
}

/// What `str::split` yields on `s` for the one-character pattern `sep`:
/// the (possibly empty) pieces between occurrences of `sep`.
pub open spec fn split_on(s: Seq<char>, sep: char) -> Seq<Seq<char>>
    decreases s.len(),
{
    if s.len() == 0 {
        seq![Seq::<char>::empty()]
    } else if s[0] == sep {
        seq![Seq::<char>::empty()] + split_on(s.skip(1), sep)
    } else {
        let rest = split_on(s.skip(1), sep);
        seq![seq![s[0]] + rest[0]] + rest.skip(1)
    }
}

pub proof fn lemma_split_on_len(s: Seq<char>, sep: char)
    ensures
        split_on(s, sep).len() >= 1,
    decreases s.len(),
{
    if s.len() > 0 {
        lemma_split_on_len(s.skip(1), sep);
    }
}

/// Splits `v` at each occurrence of `sep`.
pub fn split_on_chars(v: &Vec<char>, sep: char) -> (r: Vec<Vec<char>>)
    ensures
        seq_views(r@) == split_on(v@, sep),
{
    let n = v.len();
    let mut done: Vec<Vec<char>> = Vec::new();
    let mut cur: Vec<char> = Vec::new();
    let mut i: usize = 0;
    proof {
        lemma_split_on_len(v@, sep);
        assert(v@.skip(0) =~= v@);
        assert(split_on(v@, sep) =~= seq_views(done@) + seq![cur@ + split_on(v@.skip(0), sep)[0]]
            + split_on(v@.skip(0), sep).skip(1));
    }
    while i < n
        invariant
            i <= n,
            n == v@.len(),
            split_on(v@.skip(i as int), sep).len() >= 1,
            split_on(v@, sep) == seq_views(done@) + seq![cur@ + split_on(v@.skip(i as int), sep)[0]]
                + split_on(v@.skip(i as int), sep).skip(1),
        decreases n - i,
    {
        let ghost sp = split_on(v@.skip(i as int), sep);
        let ghost spn = split_on(v@.skip(i + 1), sep);
        proof {
            lemma_split_on_len(v@.skip(i + 1), sep);
            assert(v@.skip(i as int).skip(1) =~= v@.skip(i + 1));
            assert(v@.skip(i as int)[0] == v@[i as int]);
        }
        let c = v[i];
        if c == sep {
            proof {
                assert(sp =~= seq![Seq::<char>::empty()] + spn);
            }
            let done_len = done.len();
            done.push(cur);
            cur = Vec::new();
            proof {
                assert(seq_views(done@) =~= seq_views(done@.take(done_len as int)).push(
                    done@.last()@,
                ));
                assert(split_on(v@, sep) =~= seq_views(done@) + seq![cur@ + spn[0]] + spn.skip(1));
            }
        } else {
            proof {
                assert(sp =~= seq![seq![v@[i as int]] + spn[0]] + spn.skip(1));
            }
            let ghost old_cur = cur@;
            cur.push(c);
            proof {
                assert(cur@ + spn[0] =~= old_cur + sp[0]);
                assert(split_on(v@, sep) =~= seq_views(done@) + seq![cur@ + spn[0]] + spn.skip(1));
            }
        }
        i = i + 1;
    }
    proof {
        assert(v@.skip(n as int) =~= Seq::<char>::empty());
        assert(split_on(v@.skip(n as int), sep) =~= seq![Seq::<char>::empty()]);
    }
    let ghost done_len = done@.len();
    done.push(cur);
    proof {
        assert(seq_views(done@) =~= seq_views(done@.take(done_len as int)).push(done@.last()@));
        assert(seq_views(done@) =~= split_on(v@, sep));
    }
    done
}

/// What `str::split_once` yields on `s` for the one-character pattern
/// `sep`: the pieces before and after the first occurrence, if any.
pub open spec fn split_once_spec(s: Seq<char>, sep: char) -> Option<(Seq<char>, Seq<char>)>
    decreases s.len(),
{
    if s.len() == 0 {
        None
    } else if s[0] == sep {
        Some((Seq::<char>::empty(), s.skip(1)))
    } else {
        match split_once_spec(s.skip(1), sep) {
            None => None,
            Some(p) => Some((seq![s[0]] + p.0, p.1)),
        }
    }
}

pub proof fn lemma_split_once_none(s: Seq<char>, sep: char)
    requires
        forall|j: int| 0 <= j < s.len() ==> s[j] != sep,
    ensures
        split_once_spec(s, sep) is None,
    decreases s.len(),
{
    if s.len() > 0 {
        lemma_split_once_none(s.skip(1), sep);
    }
}

pub proof fn lemma_split_once_at(s: Seq<char>, sep: char, i: int)
    requires
        0 <= i < s.len(),
        s[i] == sep,
        forall|j: int| 0 <= j < i ==> s[j] != sep,
    ensures
        split_once_spec(s, sep) == Some((s.take(i), s.skip(i + 1))),
    decreases i,
{
    if i == 0 {
        assert(s.take(0) =~= Seq::<char>::empty());
    } else {
        lemma_split_once_at(s.skip(1), sep, i - 1);
        assert(s.skip(1).take(i - 1) =~= s.take(i).skip(1));
        assert(seq![s[0]] + s.skip(1).take(i - 1) =~= s.take(i));
        assert(s.skip(1).skip(i) =~= s.skip(i + 1));
    }
}

/// Splits `v` at the first occurrence of `sep`, if there is one.
pub fn split_once_chars(v: &Vec<char>, sep: char) -> (r: Option<(Vec<char>, Vec<char>)>)
    ensures
        match r {
            Some(p) => split_once_spec(v@, sep) == Some((p.0@, p.1@)),
            None => split_once_spec(v@, sep) is None,
        },
{
    let n = v.len();
    let mut i: usize = 0;
    while i < n
        invariant
            i <= n,
            n == v@.len(),
            forall|j: int| 0 <= j < i ==> v@[j] != sep,
        decreases n - i,
    {
        if v[i] == sep {
            let head = subrange_vec(v, 0, i);
            let tail = subrange_vec(v, i + 1, n);
            proof {
                lemma_split_once_at(v@, sep, i as int);
                assert(v@.subrange(0, i as int) =~= v@.take(i as int));
                assert(v@.subrange(i + 1, n as int) =~= v@.skip(i + 1));
            }
            return Some((head, tail));
        }
        i = i + 1;
    }
    proof {
        lemma_split_once_none(v@, sep);
    }
    None
}

/// What `str::trim_start` leaves of `s`.
pub open spec fn trim_start_spec(s: Seq<char>) -> Seq<char>
    decreases s.len(),
{
    if s.len() > 0 && is_whitespace_char(s[0]) {
        trim_start_spec(s.skip(1))
    } else {
        s
    }
}

/// What `str::trim_end` leaves of `s`.
pub open spec fn trim_end_spec(s: Seq<char>) -> Seq<char>
    decreases s.len(),
{
    if s.len() > 0 && is_whitespace_char(s.last()) {
        trim_end_spec(s.drop_last())
    } else {
        s
    }
}

/// What `str::trim` leaves of `s`.
pub open spec fn trim_spec(s: Seq<char>) -> Seq<char> {
    trim_end_spec(trim_start_spec(s))
}

/// Removes leading and trailing whitespace, as `str::trim` does.
pub fn trim_chars(v: &Vec<char>) -> (r: Vec<char>)
    ensures
        r@ == trim_spec(v@),
{
    let n = v.len();
    let mut lo: usize = 0;
    proof {
        assert(v@.skip(0) =~= v@);
    }
    while lo < n && char_is_whitespace(v[lo])
        invariant
            lo <= n,
            n == v@.len(),
            trim_start_spec(v@) == trim_start_spec(v@.skip(lo as int)),
        decreases n - lo,
    {
        proof {
            assert(v@.skip(lo as int)[0] == v@[lo as int]);
            assert(v@.skip(lo as int).skip(1) =~= v@.skip(lo + 1));
        }
        lo = lo + 1;
    }
    proof {
        if lo < n {
            assert(v@.skip(lo as int)[0] == v@[lo as int]);
        } else {
            assert(v@.skip(lo as int) =~= Seq::<char>::empty());
        }
        assert(trim_start_spec(v@) == v@.skip(lo as int));
    }
    let ghost t = v@.skip(lo as int);
    let mut hi: usize = n;
    proof {
        assert(t.take(n - lo) =~= t);
    }
    while hi > lo && char_is_whitespace(v[hi - 1])
        invariant
            lo <= hi <= n,
            n == v@.len(),
            t == v@.skip(lo as int),
            trim_end_spec(t) == trim_end_spec(t.take(hi - lo)),
        decreases hi,
    {
        proof {
            assert(t.take(hi - lo).last() == v@[hi - 1]);
            assert(t.take(hi - lo).drop_last() =~= t.take(hi - 1 - lo));
        }
        hi = hi - 1;
    }
    proof {
        if hi > lo {
            assert(t.take(hi - lo).last() == v@[hi - 1]);
        } else {
            assert(t.take(hi - lo) =~= Seq::<char>::empty());
        }
        assert(trim_end_spec(t) == t.take(hi - lo));
        assert(v@.subrange(lo as int, hi as int) =~= t.take(hi - lo));
    }
    subrange_vec(v, lo, hi)
}

/// What `str::split_whitespace` yields on `s`: the maximal runs of
/// non-whitespace characters, in order.
pub open spec fn split_ws(s: Seq<char>) -> Seq<Seq<char>>
    decreases s.len(),
{
    if s.len() == 0 {
        Seq::<Seq<char>>::empty()
    } else if is_whitespace_char(s[0]) {
        split_ws(s.skip(1))
    } else {
        let rest = split_ws(s.skip(1));
        if 1 < s.len() && !is_whitespace_char(s[1]) {
            seq![seq![s[0]] + rest[0]] + rest.skip(1)
        } else {
            seq![seq![s[0]]] + rest
        }
    }
}

/// A whole run of non-whitespace characters is the first token.
proof fn lemma_split_ws_token(s: Seq<char>, j: int)
    requires
        0 < j <= s.len(),
        forall|k: int| 0 <= k < j ==> !is_whitespace_char(#[trigger] s[k]),
        j == s.len() || is_whitespace_char(s[j]),
    ensures
        split_ws(s) == seq![s.take(j)] + split_ws(s.skip(j)),
    decreases j,
{
    let rest = split_ws(s.skip(1));
    if j == 1 {
        assert(s.take(1) =~= seq![s[0]]);
        if 1 < s.len() {
            assert(s.skip(1)[0] == s[1]);
            assert(is_whitespace_char(s[1]));
            assert(split_ws(s.skip(1)) == split_ws(s.skip(1).skip(1)));
            assert(s.skip(1).skip(1) =~= s.skip(2));
            assert(split_ws(s) =~= seq![s.take(1)] + split_ws(s.skip(1)));
            assert(s.skip(1) =~= s.skip(j));
        } else {
            assert(s.skip(1) =~= s.skip(j));
        }
    } else {
        assert(s.skip(1)[0] == s[1]);
        lemma_split_ws_token(s.skip(1), j - 1);
        assert(s.skip(1).take(j - 1) =~= s.take(j).skip(1));
        assert(seq![s[0]] + s.skip(1).take(j - 1) =~= s.take(j));
        assert(s.skip(1).skip(j - 1) =~= s.skip(j));
        assert(!is_whitespace_char(s[1]));
        assert(split_ws(s) == seq![seq![s[0]] + rest[0]] + rest.skip(1));
        assert(rest == seq![s.skip(1).take(j - 1)] + split_ws(s.skip(j)));
        assert(rest[0] == s.skip(1).take(j - 1));
        assert(rest.skip(1) =~= split_ws(s.skip(j)));
    }
}

/// Splits `v` into its whitespace-separated tokens.
pub fn split_whitespace_chars(v: &Vec<char>) -> (r: Vec<Vec<char>>)
    ensures
        seq_views(r@) == split_ws(v@),
{
    let n = v.len();
    let mut done: Vec<Vec<char>> = Vec::new();
    let mut i: usize = 0;
    proof {
        assert(v@.skip(0) =~= v@);
        assert(seq_views(done@) =~= Seq::<Seq<char>>::empty());
    }
    while i < n
        invariant
            i <= n,
            n == v@.len(),
            split_ws(v@) == seq_views(done@) + split_ws(v@.skip(i as int)),
        decreases n - i,
    {
        proof {
            assert(v@.skip(i as int)[0] == v@[i as int]);
        }
        if char_is_whitespace(v[i]) {
            proof {
                assert(v@.skip(i as int).skip(1) =~= v@.skip(i + 1));
            }
            i = i + 1;
        } else {
            let mut j: usize = i + 1;
            while j < n && !char_is_whitespace(v[j])
                invariant
                    i < j <= n,
                    n == v@.len(),
                    forall|k: int| i <= k < j ==> !is_whitespace_char(#[trigger] v@[k]),
                decreases n - j,
            {
                j = j + 1;
            }
            let tok = subrange_vec(v, i, j);
            proof {
                let s = v@.skip(i as int);
                assert forall|k: int| 0 <= k < j - i implies !is_whitespace_char(
                    #[trigger] s[k],
                ) by {
                    assert(s[k] == v@[i + k]);
                }
                if (j as int) < n {
                    assert(s[j - i] == v@[j as int]);
                }
                lemma_split_ws_token(s, j - i);
                assert(s.take(j - i) =~= v@.subrange(i as int, j as int));
                assert(s.skip(j - i) =~= v@.skip(j as int));
            }
            let ghost done_len = done@.len();
            done.push(tok);
            proof {
                assert(seq_views(done@) =~= seq_views(done@.take(done_len as int)).push(
                    done@.last()@,
                ));
                assert(seq_views(done@) + split_ws(v@.skip(j as int)) =~= seq_views(
                    done@.take(done_len as int),
                ) + (seq![v@.subrange(i as int, j as int)] + split_ws(v@.skip(j as int))));
            }
            i = j;
        }
    }
    proof {
        assert(v@.skip(n as int) =~= Seq::<char>::empty());
        assert(split_ws(v@) =~= seq_views(done@));
    }
    done
}

/// Whether two character vectors hold the same characters.
pub fn chars_eq(a: &Vec<char>, b: &Vec<char>) -> (r: bool)
    ensures
        r == (a@ == b@),
{
    if a.len() != b.len() {
        proof {
            assert(a@ != b@);
        }
        return false;
    }
    let n = a.len();
    let mut i: usize = 0;
    while i < n
        invariant
            i <= n,
            n == a@.len() == b@.len(),
            forall|j: int| 0 <= j < i ==> a@[j] == b@[j],
        decreases n - i,
    {
        if a[i] != b[i] {
            return false;
        }
        i = i + 1;
    }
    proof {
        assert(a@ =~= b@);
    }
    true
}

} // verus!

verus! {

/// The trimmed lines of a multi-line string: split at newlines, each
/// piece trimmed of surrounding whitespace.
pub open spec fn lines_of(s: Seq<char>) -> Seq<Seq<char>> {
    let parts = split_on(s, '\n');
    Seq::new(parts.len(), |i: int| trim_spec(parts[i]))
}

/// Splits `multiline` at newlines and trims every line.
pub fn to_line_vector(multiline: String) -> (r: Vec<String>)
    ensures
        seq_views(r@) == lines_of(multiline@),
{
    let chars = to_chars(multiline.as_str());
    let parts = split_on_chars(&chars, '\n');
    let mut r: Vec<String> = Vec::new();
    let n = parts.len();
    let mut i: usize = 0;
    while i < n
        invariant
            i <= n,
            n == parts@.len(),
            seq_views(parts@) == split_on(multiline@, '\n'),
            r@.len() == i,
            forall|j: int| 0 <= j < i ==> #[trigger] r@[j]@ == lines_of(multiline@)[j],
        decreases n - i,
    {
        let t = trim_chars(&parts[i]);
        let line = chars_to_string(&t);
        r.push(line);
        proof {
            assert(seq_views(parts@)[i as int] == parts@[i as int]@);
        }
        i = i + 1;
    }
    proof {
        assert(seq_views(r@) =~= lines_of(multiline@));
    }
    r
}

/// The lines of `ls` that are not empty, in order.
pub open spec fn nonempty_lines(ls: Seq<Seq<char>>) -> Seq<Seq<char>>
    decreases ls.len(),
{
    if ls.len() == 0 {
        Seq::<Seq<char>>::empty()
    } else {
        (if ls[0].len() > 0 {
            seq![ls[0]]
        } else {
            Seq::<Seq<char>>::empty()
        }) + nonempty_lines(ls.skip(1))
    }
}

/// Drops the empty lines of `vec`.
pub fn filter_empty_lines(vec: Vec<String>) -> (r: Vec<String>)
    ensures
        seq_views(r@) == nonempty_lines(seq_views(vec@)),
{
    let mut r: Vec<String> = Vec::new();
    let n = vec.len();
    let mut i: usize = 0;
    proof {
        assert(seq_views(vec@).skip(0) =~= seq_views(vec@));
        assert(seq_views(r@) =~= Seq::<Seq<char>>::empty());
    }
    while i < n
        invariant
            i <= n,
            n == vec@.len(),
            nonempty_lines(seq_views(vec@)) == seq_views(r@) + nonempty_lines(
                seq_views(vec@).skip(i as int),
            ),
        decreases n - i,
    {
        let ghost rem = seq_views(vec@).skip(i as int);
        proof {
            assert(rem[0] == vec@[i as int]@);
            assert(rem.skip(1) =~= seq_views(vec@).skip(i + 1));
        }
        let s = &vec[i];
        if !s.as_str().is_empty() {
            let ghost r_len = r@.len();
            r.push(s.clone());
            proof {
                assert(seq_views(r@) =~= seq_views(r@.take(r_len as int)).push(r@.last()@));
            }
        }
        i = i + 1;
    }
    proof {
        assert(seq_views(vec@).skip(n as int) =~= Seq::<Seq<char>>::empty());
        assert(seq_views(r@) =~= nonempty_lines(seq_views(vec@)));
    }
    r
}

} // verus!
