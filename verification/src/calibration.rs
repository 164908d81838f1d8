//! Calibration lines: keeping only digits, taking the outer pair of
//! each line, summing the parsed pairs, and rewriting spelled-out
//! number words into digits.
use vstd::prelude::*;

verus! {

use crate::is_ascii_digit_char;
use crate::text::{
    all_ascii_digits,
    chars_to_string,
    digits_val,
    lemma_digits_val_nonneg,
    parse_u32_spec,
    seq_views,
    to_chars,
};

/// The ASCII digits of `s`, in order.
pub open spec fn digits_of(s: Seq<char>) -> Seq<char>
    decreases s.len(),
{
    if s.len() == 0 {
        Seq::<char>::empty()
    } else {
        digits_of(s.drop_last()) + (if is_ascii_digit_char(s.last()) {
            seq![s.last()]
        } else {
            Seq::<char>::empty()
        })
    }
}

/// The first and last digit of `s`, as a two-character string.
pub open spec fn outer_digits(s: Seq<char>) -> Seq<char> {
    seq![digits_of(s).first(), digits_of(s).last()]
}

/// Keeps only the ASCII digits of `v`.
fn keep_digits(v: &Vec<char>) -> (r: Vec<char>)
    ensures
        r@ == digits_of(v@),
{
    let n = v.len();
    let mut r: Vec<char> = Vec::new();
    let mut i: usize = 0;
    proof {
        assert(v@.take(0) =~= Seq::<char>::empty());
    }
    while i < n
        invariant
            i <= n,
            n == v@.len(),
            r@ == digits_of(v@.take(i as int)),
        decreases n - i,
    {
        let c = v[i];
        proof {
            assert(v@.take(i + 1).drop_last() =~= v@.take(i as int));
            assert(v@.take(i + 1).last() == c);
        }
        if '0' <= c && c <= '9' {
            r.push(c);
        }
        i = i + 1;
    }
    proof {
        assert(v@.take(n as int) =~= v@);
    }
    r
}

/// Reduces each line to a two-character string of its first and last
/// ASCII digit. Every line must hold at least one digit.
pub fn filter_outer_digits(vec: Vec<String>) -> (r: Vec<String>)
    requires
        forall|i: int| 0 <= i < vec@.len() ==> digits_of(#[trigger] seq_views(vec@)[i]).len() > 0,
    ensures
        r@.len() == vec@.len(),
        forall|i: int| 0 <= i < vec@.len() ==> #[trigger] seq_views(r@)[i] == outer_digits(
            seq_views(vec@)[i],
        ),
{
    let n = vec.len();
    let mut r: Vec<String> = Vec::new();
    let mut i: usize = 0;
    while i < n
        invariant
            i <= n,
            n == vec@.len(),
            forall|j: int| 0 <= j < n ==> digits_of(#[trigger] seq_views(vec@)[j]).len() > 0,
            r@.len() == i,
            forall|j: int| 0 <= j < i ==> #[trigger] r@[j]@ == outer_digits(seq_views(vec@)[j]),
        decreases n - i,
    {
        let chars = to_chars(vec[i].as_str());
        let ds = keep_digits(&chars);
        proof {
            assert(seq_views(vec@)[i as int] == vec@[i as int]@);
            assert(ds@.len() > 0);
        }
        let mut pair: Vec<char> = Vec::new();
        pair.push(ds[0]);
        pair.push(ds[ds.len() - 1]);
        proof {
            assert(pair@ =~= outer_digits(vec@[i as int]@));
        }
        r.push(chars_to_string(&pair));
        i = i + 1;
    }
    proof {
        assert forall|i: int| 0 <= i < vec@.len() implies #[trigger] seq_views(r@)[i]
            == outer_digits(seq_views(vec@)[i]) by {
            assert(seq_views(r@)[i] == r@[i]@);
        }
    }
    r
}

/// The value a line contributes to the sum: its parsed value, or zero
/// where it does not parse as a `u32`.
pub open spec fn parse_or_zero(s: Seq<char>) -> int {
    match parse_u32_spec(s) {
        Some(n) => n as int,
        None => 0,
    }
}

/// The sum of the parsed values of all lines.
pub open spec fn sum_parsed(ls: Seq<Seq<char>>) -> int
    decreases ls.len(),
{
    if ls.len() == 0 {
        0
    } else {
        sum_parsed(ls.drop_last()) + parse_or_zero(ls.last())
    }
}

pub proof fn lemma_sum_parsed_nonneg(ls: Seq<Seq<char>>)
    ensures
        sum_parsed(ls) >= 0,
    decreases ls.len(),
{
    if ls.len() > 0 {
        lemma_sum_parsed_nonneg(ls.drop_last());
        if parse_u32_spec(ls.last()) is Some {
            lemma_digits_val_nonneg(
                if ls.last().len() > 0 && ls.last()[0] == '+' {
                    ls.last().skip(1)
                } else {
                    ls.last()
                },
            );
        }
    }
}

/// Prefix sums never exceed the whole sum.
proof fn lemma_sum_parsed_prefix(ls: Seq<Seq<char>>, i: int)
    requires
        0 <= i <= ls.len(),
    ensures
        sum_parsed(ls.take(i)) <= sum_parsed(ls),
    decreases ls.len() - i,
{
    if i < ls.len() {
        lemma_sum_parsed_prefix(ls, i + 1);
        assert(ls.take(i + 1).drop_last() =~= ls.take(i));
        let tail = ls.take(i + 1).last();
        if parse_u32_spec(tail) is Some {
            lemma_digits_val_nonneg(
                if tail.len() > 0 && tail[0] == '+' {
                    tail.skip(1)
                } else {
                    tail
                },
            );
        }
    } else {
        assert(ls.take(i) =~= ls);
    }
}

/// Sums each line parsed as a `u32`, counting unparsable lines as zero.
pub fn sum_outer_digits(vec: &Vec<String>) -> (sum: u32)
    requires
        sum_parsed(seq_views(vec@)) <= u32::MAX,
    ensures
        sum == sum_parsed(seq_views(vec@)),
{
    let ghost all = seq_views(vec@);
    let n = vec.len();
    let mut sum: u32 = 0;
    let mut i: usize = 0;
    proof {
        assert(all.take(0) =~= Seq::<Seq<char>>::empty());
    }
    while i < n
        invariant
            i <= n,
            n == vec@.len(),
            all == seq_views(vec@),
            sum_parsed(all) <= u32::MAX,
            sum == sum_parsed(all.take(i as int)),
        decreases n - i,
    {
        let chars = to_chars(vec[i].as_str());
        let v = crate::text::parse_u32_chars(&chars);
        proof {
            assert(all.take(i + 1).drop_last() =~= all.take(i as int));
            assert(all.take(i + 1).last() == vec@[i as int]@);
            lemma_sum_parsed_prefix(all, i + 1);
            lemma_sum_parsed_nonneg(all.take(i as int));
        }
        match v {
            Some(x) => {
                sum = sum + x;
            },
            None => {},
        }
        i = i + 1;
    }
    proof {
        assert(all.take(n as int) =~= all);
    }
    sum
}

/// What `str::replace` returns for a non-empty pattern: each
/// non-overlapping occurrence of `from`, scanning left to right,
/// replaced by `to`.
pub open spec fn replace_spec(s: Seq<char>, from: Seq<char>, to: Seq<char>) -> Seq<char>
    decreases s.len(),
    when from.len() > 0
{
    if s.len() < from.len() {
        s
    } else if s.take(from.len() as int) == from {
        to + replace_spec(s.skip(from.len() as int), from, to)
    } else {
        seq![s[0]] + replace_spec(s.skip(1), from, to)
    }
}

/// Verified counterpart of `str::replace` on character vectors.
pub fn replace_chars(v: &Vec<char>, from: &Vec<char>, to: &Vec<char>) -> (r: Vec<char>)
    requires
        from@.len() > 0,
    ensures
        r@ == replace_spec(v@, from@, to@),
{
    let n = v.len();
    let m = from.len();
    let mut r: Vec<char> = Vec::new();
    let mut i: usize = 0;
    proof {
        assert(v@.skip(0) =~= v@);
        assert(r@ + replace_spec(v@.skip(0), from@, to@) =~= replace_spec(v@, from@, to@));
    }
    while i < n
        invariant
            i <= n,
            n == v@.len(),
            m == from@.len(),
            0 < m,
            replace_spec(v@, from@, to@) == r@ + replace_spec(v@.skip(i as int), from@, to@),
        decreases n - i,
    {
        let ghost rem = v@.skip(i as int);
        let matches_here: bool = if m <= n - i {
            let mut k: usize = 0;
            let mut eq: bool = true;
            proof {
                assert(rem.take(0) =~= from@.take(0));
            }
            while k < m
                invariant
                    k <= m,
                    m == from@.len(),
                    i + m <= n,
                    n == v@.len(),
                    rem == v@.skip(i as int),
                    eq == (rem.take(k as int) == from@.take(k as int)),
                decreases m - k,
            {
                proof {
                    assert(rem.take(k + 1).drop_last() =~= rem.take(k as int));
                    assert(from@.take(k + 1).drop_last() =~= from@.take(k as int));
                    assert(rem.take(k + 1).last() == v@[i + k]);
                    assert(from@.take(k + 1).last() == from@[k as int]);
                }
                if v[i + k] != from[k] {
                    eq = false;
                    proof {
                        assert(rem.take(k + 1) != from@.take(k + 1));
                    }
                } else {
                    proof {
                        if eq {
                            assert(rem.take(k + 1) =~= rem.take(k as int).push(v@[i + k]));
                            assert(from@.take(k + 1) =~= from@.take(k as int).push(
                                from@[k as int],
                            ));
                        } else {
                            if rem.take(k + 1) == from@.take(k + 1) {
                                assert(rem.take(k as int) =~= rem.take(k + 1).drop_last());
                                assert(false);
                            }
                        }
                    }
                }
                k = k + 1;
            }
            proof {
                assert(rem.take(m as int) == from@.take(m as int) <==> eq);
                assert(from@.take(m as int) =~= from@);
            }
            eq
        } else {
            proof {
                assert(rem.len() < from@.len());
            }
            false
        };
        if matches_here {
            proof {
                assert(rem.take(m as int) == from@);
                assert(replace_spec(rem, from@, to@) == to@ + replace_spec(
                    rem.skip(m as int),
                    from@,
                    to@,
                ));
                assert(rem.skip(m as int) =~= v@.skip(i + m));
            }
            let mut k: usize = 0;
            let ghost r_before = r@;
            while k < to.len()
                invariant
                    k <= to@.len(),
                    r@ == r_before + to@.take(k as int),
                decreases to@.len() - k,
            {
                r.push(to[k]);
                proof {
                    assert(r_before + to@.take(k + 1) =~= (r_before + to@.take(k as int)).push(
                        to@[k as int],
                    ));
                }
                k = k + 1;
            }
            proof {
                assert(r@ =~= r_before + to@);
                assert(r@ + replace_spec(v@.skip(i + m), from@, to@) =~= r_before + replace_spec(
                    rem,
                    from@,
                    to@,
                ));
            }
            i = i + m;
        } else {
            proof {
                if rem.len() >= from@.len() {
                    assert(rem.take(m as int) != from@);
                    assert(replace_spec(rem, from@, to@) == seq![rem[0]] + replace_spec(
                        rem.skip(1),
                        from@,
                        to@,
                    ));
                } else {
                    assert(rem.len() >= 1);
                    assert(replace_spec(rem, from@, to@) == rem);
                    assert(rem =~= seq![rem[0]] + rem.skip(1));
                    assert(replace_spec(rem.skip(1), from@, to@) == rem.skip(1));
                }
                assert(rem[0] == v@[i as int]);
                assert(rem.skip(1) =~= v@.skip(i + 1));
            }
            let ghost r_before = r@;
            r.push(v[i]);
            proof {
                assert(r@ + replace_spec(v@.skip(i + 1), from@, to@) =~= r_before + replace_spec(
                    rem,
                    from@,
                    to@,
                ));
            }
            i = i + 1;
        }
    }
    proof {
        assert(v@.skip(n as int) =~= Seq::<char>::empty());
        assert(replace_spec(v@.skip(n as int), from@, to@) == Seq::<char>::empty());
        assert(r@ =~= replace_spec(v@, from@, to@));
    }
    r
}

} // verus!

verus! {

use crate::text::trim_spec;

/// One `str::replace` step, with the pattern and replacement given as
/// string literals.
fn replace_str(v: &Vec<char>, from: &str, to: &str) -> (r: Vec<char>)
    requires
        from@.len() > 0,
    ensures
        r@ == replace_spec(v@, from@, to@),
{
    let f = to_chars(from);
    let t = to_chars(to);
    replace_chars(v, &f, &t)
}

/// The spelled-out number words of a line rewritten to digit-bearing
/// abbreviations, applied one word after another in a fixed order.
pub open spec fn word_digit_rewrite(s: Seq<char>) -> Seq<char> {
    let s1 = replace_spec(s, "zero"@, "z0o"@);
    let s2 = replace_spec(s1, "one"@, "o1e"@);
    let s3 = replace_spec(s2, "two"@, "t2o"@);
    let s4 = replace_spec(s3, "three"@, "t3e"@);
    let s5 = replace_spec(s4, "four"@, "f4r"@);
    let s6 = replace_spec(s5, "five"@, "f5e"@);
    let s7 = replace_spec(s6, "six"@, "s6x"@);
    let s8 = replace_spec(s7, "seven"@, "s7n"@);
    let s9 = replace_spec(s8, "eight"@, "e8t"@);
    let s10 = replace_spec(s9, "nine"@, "n9e"@);
    let s11 = replace_spec(s10, "ten"@, "t10n"@);
    let s12 = replace_spec(s11, "eleven"@, "e11n"@);
    let s13 = replace_spec(s12, "twelve"@, "t12n"@);
    let s14 = replace_spec(s13, "thirteen"@, "t13n"@);
    let s15 = replace_spec(s14, "fourteen"@, "f14n"@);
    let s16 = replace_spec(s15, "fifteen"@, "f15n"@);
    let s17 = replace_spec(s16, "sixteen"@, "s16n"@);
    let s18 = replace_spec(s17, "seventeen"@, "s17n"@);
    let s19 = replace_spec(s18, "eighteen"@, "e18n"@);
    let s20 = replace_spec(s19, "nineteen"@, "n19n"@);
    s20
}

/// Rewrites the number words of every line.
pub fn words_to_digits(vec: Vec<String>) -> (r: Vec<String>)
    ensures
        r@.len() == vec@.len(),
        forall|i: int| 0 <= i < vec@.len() ==> #[trigger] seq_views(r@)[i] == word_digit_rewrite(
            seq_views(vec@)[i],
        ),
{
    let n = vec.len();
    let mut r: Vec<String> = Vec::new();
    let mut i: usize = 0;
    while i < n
        invariant
            i <= n,
            n == vec@.len(),
            r@.len() == i,
            forall|j: int| 0 <= j < i ==> #[trigger] r@[j]@ == word_digit_rewrite(vec@[j]@),
        decreases n - i,
    {
        let cur = to_chars(vec[i].as_str());
        proof {
            reveal_strlit("zero");
            reveal_strlit("z0o");
            reveal_strlit("one");
            reveal_strlit("o1e");
            reveal_strlit("two");
            reveal_strlit("t2o");
            reveal_strlit("three");
            reveal_strlit("t3e");
            reveal_strlit("four");
            reveal_strlit("f4r");
            reveal_strlit("five");
            reveal_strlit("f5e");
            reveal_strlit("six");
            reveal_strlit("s6x");
            reveal_strlit("seven");
            reveal_strlit("s7n");
            reveal_strlit("eight");
            reveal_strlit("e8t");
            reveal_strlit("nine");
            reveal_strlit("n9e");
            reveal_strlit("ten");
            reveal_strlit("t10n");
            reveal_strlit("eleven");
            reveal_strlit("e11n");
            reveal_strlit("twelve");
            reveal_strlit("t12n");
            reveal_strlit("thirteen");
            reveal_strlit("t13n");
            reveal_strlit("fourteen");
            reveal_strlit("f14n");
            reveal_strlit("fifteen");
            reveal_strlit("f15n");
            reveal_strlit("sixteen");
            reveal_strlit("s16n");
            reveal_strlit("seventeen");
            reveal_strlit("s17n");
            reveal_strlit("eighteen");
            reveal_strlit("e18n");
            reveal_strlit("nineteen");
            reveal_strlit("n19n");
    }

        let cur = replace_str(&cur, "zero", "z0o");
        let cur = replace_str(&cur, "one", "o1e");
        let cur = replace_str(&cur, "two", "t2o");
        let cur = replace_str(&cur, "three", "t3e");
        let cur = replace_str(&cur, "four", "f4r");
        let cur = replace_str(&cur, "five", "f5e");
        let cur = replace_str(&cur, "six", "s6x");
        let cur = replace_str(&cur, "seven", "s7n");
        let cur = replace_str(&cur, "eight", "e8t");
        let cur = replace_str(&cur, "nine", "n9e");
        let cur = replace_str(&cur, "ten", "t10n");
        let cur = replace_str(&cur, "eleven", "e11n");
        let cur = replace_str(&cur, "twelve", "t12n");
        let cur = replace_str(&cur, "thirteen", "t13n");
        let cur = replace_str(&cur, "fourteen", "f14n");
        let cur = replace_str(&cur, "fifteen", "f15n");
        let cur = replace_str(&cur, "sixteen", "s16n");
        let cur = replace_str(&cur, "seventeen", "s17n");
        let cur = replace_str(&cur, "eighteen", "e18n");
        let cur = replace_str(&cur, "nineteen", "n19n");
        r.push(chars_to_string(&cur));
        i = i + 1;
    }
    proof {
        assert forall|i: int| 0 <= i < vec@.len() implies #[trigger] seq_views(r@)[i]
            == word_digit_rewrite(seq_views(vec@)[i]) by {
            assert(seq_views(r@)[i] == r@[i]@);
            assert(seq_views(vec@)[i] == vec@[i]@);
        }
    }
    r
}

} // verus!
