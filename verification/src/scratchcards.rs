//! Scratch cards: counting how many of a card's numbers appear among
//! its winning numbers, scoring by doubling, and cascading copies won
//! onto the following cards.
use itertools::Itertools;
use vstd::prelude::*;

verus! {

use crate::text::{
    parse_u8_spec,
    parse_u8_chars,
    seq_views,
    split_once_spec,
    split_once_chars,
    split_ws,
    split_whitespace_chars,
    to_chars,
    chars_eq,
    chars_to_string,
};

/// One parsed scratch card.
#[derive(Debug, PartialEq, Eq, Structural, Clone, Copy)]
pub struct ScratchCard {
    pub card_number: u8,
    pub power: u32,
    pub num_wins: u8,
    pub count: u32,
}

/// Relies on `itertools::Itertools::cartesian_product`: it pairs every
/// element of the first iterator with every element of the second, the
/// first factor outermost, so pair `(i, j)` stands at `i * b.len() + j`.
#[verifier::external_body]
fn cartesian_pairs(a: &Vec<String>, b: &Vec<String>) -> (r: Vec<(String, String)>)
    ensures
        r@.len() == a@.len() * b@.len(),
        forall|i: int, j: int|
            0 <= i < a@.len() && 0 <= j < b@.len() ==> (#[trigger] r@[i * b@.len() + j]).0@
                == a@[i]@ && r@[i * b@.len() + j].1@ == b@[j]@,
{
    a.iter().cartesian_product(b.iter()).map(|(x, y)| (x.clone(), y.clone())).collect()
}

/// How many elements of `rs` equal `x`.
pub open spec fn count_eq(rs: Seq<Seq<char>>, x: Seq<char>) -> int
    decreases rs.len(),
{
    if rs.len() == 0 {
        0
    } else {
        (if rs[0] == x {
            1int
        } else {
            0int
        }) + count_eq(rs.skip(1), x)
    }
}

/// How many pairs drawn from `ls` and `rs` are equal: the number of
/// matches a card scores, duplicates counted once per pairing.
pub open spec fn match_count(ls: Seq<Seq<char>>, rs: Seq<Seq<char>>) -> int
    decreases ls.len(),
{
    if ls.len() == 0 {
        0
    } else {
        count_eq(rs, ls[0]) + match_count(ls.skip(1), rs)
    }
}

proof fn lemma_count_eq_nonneg(rs: Seq<Seq<char>>, x: Seq<char>)
    ensures
        count_eq(rs, x) >= 0,
    decreases rs.len(),
{
    if rs.len() > 0 {
        lemma_count_eq_nonneg(rs.skip(1), x);
    }
}

pub proof fn lemma_match_count_nonneg(ls: Seq<Seq<char>>, rs: Seq<Seq<char>>)
    ensures
        match_count(ls, rs) >= 0,
    decreases ls.len(),
{
    if ls.len() > 0 {
        lemma_count_eq_nonneg(rs, ls[0]);
        lemma_match_count_nonneg(ls.skip(1), rs);
    }
}

/// The tokens before the first `|` token.
pub open spec fn take_until_bar(ts: Seq<Seq<char>>) -> Seq<Seq<char>>
    decreases ts.len(),
{
    if ts.len() == 0 || ts[0] == "|"@ {
        Seq::<Seq<char>>::empty()
    } else {
        seq![ts[0]] + take_until_bar(ts.skip(1))
    }
}

/// The tokens after the first `|` token, if there is one.
pub open spec fn after_bar(ts: Seq<Seq<char>>) -> Option<Seq<Seq<char>>>
    decreases ts.len(),
{
    if ts.len() == 0 {
        None
    } else if ts[0] == "|"@ {
        Some(ts.skip(1))
    } else {
        after_bar(ts.skip(1))
    }
}

proof fn lemma_take_until_bar(ts: Seq<Seq<char>>, j: int)
    requires
        0 <= j <= ts.len(),
        forall|k: int| 0 <= k < j ==> (#[trigger] ts[k]) != "|"@,
        j == ts.len() || ts[j] == "|"@,
    ensures
        take_until_bar(ts) == ts.take(j),
    decreases j,
{
    if j == 0 {
        assert(ts.take(0) =~= Seq::<Seq<char>>::empty());
    } else {
        lemma_take_until_bar(ts.skip(1), j - 1);
        assert(ts.skip(1).take(j - 1) =~= ts.take(j).skip(1));
        assert(seq![ts[0]] + ts.take(j).skip(1) =~= ts.take(j));
    }
}

proof fn lemma_after_bar_none(ts: Seq<Seq<char>>)
    requires
        forall|k: int| 0 <= k < ts.len() ==> (#[trigger] ts[k]) != "|"@,
    ensures
        after_bar(ts) is None,
    decreases ts.len(),
{
    if ts.len() > 0 {
        lemma_after_bar_none(ts.skip(1));
    }
}

proof fn lemma_after_bar_at(ts: Seq<Seq<char>>, j: int)
    requires
        0 <= j < ts.len(),
        forall|k: int| 0 <= k < j ==> (#[trigger] ts[k]) != "|"@,
        ts[j] == "|"@,
    ensures
        after_bar(ts) == Some(ts.skip(j + 1)),
    decreases j,
{
    if j > 0 {
        lemma_after_bar_at(ts.skip(1), j - 1);
        assert(ts.skip(1).skip(j) =~= ts.skip(j + 1));
    }
}

/// The number of matches a card's text scores, before the `u8` cast.
pub open spec fn card_raw_wins(s: Seq<char>) -> int {
    match split_once_spec(s, ':') {
        None => 0,
        Some(p) => {
            let toks = split_ws(p.1);
            match after_bar(toks) {
                None => 0,
                Some(rest) => match_count(take_until_bar(toks), take_until_bar(rest)),
            }
        },
    }
}

/// A card's win count as an eight-bit value: the match count cast to
/// `u8`, so taken modulo 256.
pub open spec fn card_wins_of(s: Seq<char>) -> u8 {
    (card_raw_wins(s) % 256) as u8
}

/// A card's number: the second whitespace token before the colon,
/// parsed as a `u8`.
pub open spec fn card_number_of(s: Seq<char>) -> u8 {
    match split_once_spec(s, ':') {
        None => 0,
        Some(p) => match parse_u8_spec(split_ws(p.0)[1]) {
            Some(n) => n,
            None => 0,
        },
    }
}

/// A card's score: zero without a win, else one doubled per further win.
pub open spec fn power_of_wins(w: u8) -> u32 {
    if w == 0 {
        0
    } else {
        1u32 << ((w - 1) as u32)
    }
}

/// The inputs on which evaluating a card is defined: it has a colon, a
/// second token before it that parses as a `u8`, a `|` token after it,
/// and few enough wins that the score's shift stays in range.
pub open spec fn card_defined(s: Seq<char>) -> bool {
    match split_once_spec(s, ':') {
        None => false,
        Some(p) => {
            let head_toks = split_ws(p.0);
            &&& head_toks.len() >= 2
            &&& parse_u8_spec(head_toks[1]) is Some
            &&& after_bar(split_ws(p.1)) is Some
            &&& card_wins_of(s) <= 32
        },
    }
}

/// Counts the pairs of equal strings in the cartesian product of the
/// two lists: the number of matches a card scores.
fn count_matches(ls: &Vec<String>, rs: &Vec<String>) -> (cnt: usize)
    ensures
        cnt == match_count(seq_views(ls@), seq_views(rs@)),
{
    let pairs = cartesian_pairs(ls, rs);
    let np = pairs.len();
    let ghost lv = seq_views(ls@);
    let ghost rv = seq_views(rs@);
    let nl = ls.len();
    let m = rs.len();
    let mut cnt: usize = 0;
    let mut i: usize = 0;
    proof {
        assert(lv.skip(0) =~= lv);
        lemma_match_count_nonneg(lv, rv);
    }
    while i < nl
        invariant
            i <= nl,
            nl == ls@.len(),
            m == rs@.len(),
            lv == seq_views(ls@),
            rv == seq_views(rs@),
            np == pairs@.len(),
            pairs@.len() == nl * m,
            forall|a: int, b: int|
                0 <= a < nl && 0 <= b < m ==> (#[trigger] pairs@[a * m + b]).0@ == ls@[a]@
                    && pairs@[a * m + b].1@ == rs@[b]@,
            match_count(lv, rv) == cnt + match_count(lv.skip(i as int), rv),
            cnt <= i * m,
        decreases nl - i,
    {
        let ghost x = lv[i as int];
        proof {
            assert(lv.skip(i as int)[0] == x);
            assert(lv.skip(i as int).skip(1) =~= lv.skip(i + 1));
            lemma_count_eq_nonneg(rv, x);
            lemma_match_count_nonneg(lv.skip(i + 1), rv);
        }
        let mut j: usize = 0;
        let mut row: usize = 0;
        proof {
            assert(rv.skip(0) =~= rv);
            assert(i * m + m <= nl * m) by (nonlinear_arith)
                requires
                    i < nl,
                    0 <= m,
            ;
        }
        while j < m
            invariant
                j <= m,
                m == rs@.len(),
                nl == ls@.len(),
                i < nl,
                rv == seq_views(rs@),
                x == seq_views(ls@)[i as int],
                np == pairs@.len(),
                pairs@.len() == nl * m,
                i * m + m <= nl * m,
                forall|a: int, b: int|
                    0 <= a < nl && 0 <= b < m ==> (#[trigger] pairs@[a * m + b]).0@ == ls@[a]@
                        && pairs@[a * m + b].1@ == rs@[b]@,
                count_eq(rv, x) == row + count_eq(rv.skip(j as int), x),
                row <= j,
            decreases m - j,
        {
            proof {
                assert(rv.skip(j as int)[0] == rv[j as int]);
                assert(rv.skip(j as int).skip(1) =~= rv.skip(j + 1));
                assert((i as int) * (m as int) + j < (i as int) * (m as int) + m);
                assert((i as int) * (m as int) + j < np);
            }
            let idx = i * m + j;
            let p = &pairs[idx];
            proof {
                assert(pairs@[(i as int) * (m as int) + (j as int)].0@ == ls@[i as int]@);
            }
            if p.0 == p.1 {
                row = row + 1;
            }
            j = j + 1;
        }
        proof {
            assert(rv.skip(m as int) =~= Seq::<Seq<char>>::empty());
            assert(count_eq(rv, x) == row);
            assert(cnt + row <= (i as int) * (m as int) + m);
            assert((i as int) * (m as int) + m == (i + 1) * (m as int)) by (nonlinear_arith);
            assert((i + 1) * (m as int) <= (nl as int) * (m as int)) by (nonlinear_arith)
                requires
                    i + 1 <= nl,
                    0 <= m,
            ;
            assert(cnt + row <= np);
        }
        cnt = cnt + row;
        i = i + 1;
    }
    proof {
        assert(lv.skip(nl as int) =~= Seq::<Seq<char>>::empty());
    }
    cnt
}

/// Parses one card line and scores it: the card number, the win count,
/// the score, and one starting copy where the card won at all.
pub fn eval_scratchcard(scratchcard: String) -> (r: ScratchCard)
    requires
        card_defined(scratchcard@),
    ensures
        r.card_number == card_number_of(scratchcard@),
        r.num_wins == card_wins_of(scratchcard@),
        r.power == power_of_wins(card_wins_of(scratchcard@)),
        r.count == (if card_wins_of(scratchcard@) > 0 {
            1u32
        } else {
            0u32
        }),
{
    let ghost s = scratchcard@;
    let chars = to_chars(scratchcard.as_str());
    let (card, numbers) = match split_once_chars(&chars, ':') {
        Some(p) => p,
        None => {
            proof {
                assert(false);
            }
            (Vec::new(), Vec::new())
        },
    };
    let card_toks = split_whitespace_chars(&card);
    proof {
        assert(seq_views(card_toks@) == split_ws(card@));
    }
    let card_number = match parse_u8_chars(&card_toks[1]) {
        Some(n) => n,
        None => {
            proof {
                assert(false);
            }
            0
        },
    };
    let toks = split_whitespace_chars(&numbers);
    let ghost tv = seq_views(toks@);
    let bar = to_chars("|");
    let nt = toks.len();

    let mut b: usize = 0;
    while b < nt && !chars_eq(&toks[b], &bar)
        invariant
            b <= nt,
            nt == toks@.len(),
            tv == seq_views(toks@),
            bar@ == "|"@,
            forall|k: int| 0 <= k < b ==> (#[trigger] tv[k]) != "|"@,
        decreases nt - b,
    {
        b = b + 1;
    }
    proof {
        if b == nt {
            lemma_after_bar_none(tv);
            assert(false);
        }
        assert(tv[b as int] == "|"@);
        lemma_take_until_bar(tv, b as int);
        lemma_after_bar_at(tv, b as int);
    }
    let ghost rest = tv.skip(b + 1);

    let mut b2: usize = b + 1;
    while b2 < nt && !chars_eq(&toks[b2], &bar)
        invariant
            b + 1 <= b2 <= nt,
            nt == toks@.len(),
            tv == seq_views(toks@),
            bar@ == "|"@,
            rest == tv.skip(b + 1),
            forall|k: int| b + 1 <= k < b2 ==> (#[trigger] tv[k]) != "|"@,
        decreases nt - b2,
    {
        b2 = b2 + 1;
    }
    proof {
        assert forall|k: int| 0 <= k < b2 - b - 1 implies (#[trigger] rest[k]) != "|"@ by {
            assert(rest[k] == tv[b + 1 + k]);
        }
        if b2 < nt {
            assert(rest[b2 - b - 1] == tv[b2 as int]);
        }
        lemma_take_until_bar(rest, b2 - b - 1);
        assert(rest.take(b2 - b - 1) =~= tv.subrange(b + 1, b2 as int));
        assert(tv.take(b as int) =~= tv.subrange(0, b as int));
    }

    let mut ls: Vec<String> = Vec::new();
    let mut k: usize = 0;
    while k < b
        invariant
            k <= b,
            b < nt == toks@.len(),
            tv == seq_views(toks@),
            ls@.len() == k,
            forall|q: int| 0 <= q < k ==> #[trigger] ls@[q]@ == tv[q],
        decreases b - k,
    {
        ls.push(chars_to_string(&toks[k]));
        k = k + 1;
    }
    let mut rs: Vec<String> = Vec::new();
    let mut k2: usize = b + 1;
    while k2 < b2
        invariant
            b + 1 <= k2 <= b2 <= nt,
            nt == toks@.len(),
            tv == seq_views(toks@),
            rs@.len() == k2 - b - 1,
            forall|q: int| 0 <= q < k2 - b - 1 ==> #[trigger] rs@[q]@ == tv[b + 1 + q],
        decreases b2 - k2,
    {
        rs.push(chars_to_string(&toks[k2]));
        k2 = k2 + 1;
    }
    proof {
        assert(seq_views(ls@) =~= tv.subrange(0, b as int));
        assert(seq_views(rs@) =~= tv.subrange(b + 1, b2 as int));
    }

    let cnt = count_matches(&ls, &rs);
    proof {
        assert(cnt == card_raw_wins(s));
        lemma_match_count_nonneg(seq_views(ls@), seq_views(rs@));
    }
    let num_wins: u8 = (cnt % 256) as u8;

    let power: u32 = if num_wins == 0 {
        0
    } else {
        1u32 << ((num_wins - 1) as u32)
    };

    let count: u32 = if num_wins > 0 {
        1
    } else {
        0
    };

    ScratchCard { card_number, power, num_wins, count }
}

} // verus!

verus! {

/// The win count of each card in a list of card lines.
pub open spec fn wins_of_cards(ss: Seq<Seq<char>>) -> Seq<u8> {
    Seq::new(ss.len(), |i: int| card_wins_of(ss[i]))
}

/// The copies card `j` receives from the cards before `b`: each earlier
/// card `i` whose win count reaches `j` contributes its own final count.
pub open spec fn copies_upto(wins: Seq<u8>, j: int, b: int) -> int
    decreases j, b,
    when 0 <= b <= j
{
    if b <= 0 {
        0
    } else {
        copies_upto(wins, j, b - 1) + (if j <= b - 1 + wins[b - 1] {
            card_count(wins, b - 1)
        } else {
            0
        })
    }
}

/// The final number of copies of card `j`: the one original card plus
/// every copy won by an earlier card.
pub open spec fn card_count(wins: Seq<u8>, j: int) -> int
    decreases j, j + 1,
    when 0 <= j
{
    1 + copies_upto(wins, j, j)
}

/// The total count of the first `upto` cards.
pub open spec fn total_counts(wins: Seq<u8>, upto: int) -> int
    decreases upto,
    when 0 <= upto
{
    if upto <= 0 {
        0
    } else {
        total_counts(wins, upto - 1) + card_count(wins, upto - 1)
    }
}

/// The total number of scratch cards after all copies cascade.
pub open spec fn total_cards_of(wins: Seq<u8>) -> int {
    total_counts(wins, wins.len() as int)
}

pub proof fn lemma_copies_upto_nonneg(wins: Seq<u8>, j: int, b: int)
    requires
        0 <= b <= j,
    ensures
        copies_upto(wins, j, b) >= 0,
    decreases j, b,
{
    if b > 0 {
        lemma_copies_upto_nonneg(wins, j, b - 1);
        lemma_copies_upto_nonneg(wins, b - 1, b - 1);
        assert(card_count(wins, b - 1) == 1 + copies_upto(wins, b - 1, b - 1));
        assert(copies_upto(wins, j, b) == copies_upto(wins, j, b - 1) + (if j <= b - 1 + wins[b
            - 1] {
            card_count(wins, b - 1)
        } else {
            0
        }));
    }
}

/// Later cut-offs only add contributions.
proof fn lemma_copies_upto_mono(wins: Seq<u8>, j: int, b: int, b2: int)
    requires
        0 <= b <= b2 <= j,
    ensures
        copies_upto(wins, j, b) <= copies_upto(wins, j, b2),
    decreases b2 - b,
{
    if b < b2 {
        lemma_copies_upto_mono(wins, j, b, b2 - 1);
        lemma_copies_upto_nonneg(wins, b2 - 1, b2 - 1);
        assert(card_count(wins, b2 - 1) == 1 + copies_upto(wins, b2 - 1, b2 - 1));
        assert(copies_upto(wins, j, b2) == copies_upto(wins, j, b2 - 1) + (if j <= b2 - 1
            + wins[b2 - 1] {
            card_count(wins, b2 - 1)
        } else {
            0
        }));
    }
}

/// Evaluates every card, then cascades: each card `i` starts as one
/// original copy, and every copy of card `i` wins one further copy of
/// each of the next `wins[i]` cards. Returns the total card count.
///
/// The cards must be numbered consecutively from 1, in order, and no
/// card may win copies past the end of the table.
pub fn eval_cascading_scratchcards(scratchcards: Vec<String>) -> (total: u64)
    requires
        seq_views(scratchcards@).len() <= 255,
        forall|i: int| 0 <= i < scratchcards@.len() ==> card_defined(
            #[trigger] seq_views(scratchcards@)[i],
        ),
        forall|i: int| 0 <= i < scratchcards@.len() ==> card_number_of(
            #[trigger] seq_views(scratchcards@)[i],
        ) == i + 1,
        forall|i: int| 0 <= i < scratchcards@.len() ==> i + card_wins_of(
            #[trigger] seq_views(scratchcards@)[i],
        ) < scratchcards@.len(),
        forall|j: int| 0 <= j < scratchcards@.len() ==> #[trigger] card_count(
            wins_of_cards(seq_views(scratchcards@)),
            j,
        ) <= u32::MAX,
    ensures
        total == total_cards_of(wins_of_cards(seq_views(scratchcards@))),
{
    let ghost ss = seq_views(scratchcards@);
    let ghost w = wins_of_cards(ss);
    let n = scratchcards.len();

    let mut wins: Vec<u8> = Vec::new();
    let mut i: usize = 0;
    while i < n
        invariant
            i <= n,
            n == scratchcards@.len(),
            ss == seq_views(scratchcards@),
            w == wins_of_cards(ss),
            forall|q: int| 0 <= q < n ==> card_defined(#[trigger] ss[q]),
            wins@.len() == i,
            forall|q: int| 0 <= q < i ==> #[trigger] wins@[q] == w[q],
        decreases n - i,
    {
        proof {
            assert(ss[i as int] == scratchcards@[i as int]@);
        }
        let sc = eval_scratchcard(scratchcards[i].clone());
        wins.push(sc.num_wins);
        i = i + 1;
    }
    proof {
        assert(wins@ =~= w);
    }

    let mut counts: Vec<u32> = Vec::new();
    let mut i2: usize = 0;
    while i2 < n
        invariant
            i2 <= n,
            counts@.len() == i2,
            forall|q: int| 0 <= q < i2 ==> #[trigger] counts@[q] == 1u32,
        decreases n - i2,
    {
        counts.push(1);
        i2 = i2 + 1;
    }

    let mut total: u64 = 0;
    let mut k: usize = 0;
    proof {
        assert forall|j: int| 0 <= j < n implies #[trigger] counts@[j] == 1 + copies_upto(
            w,
            j,
            0,
        ) by {}
    }
    while k < n
        invariant
            k <= n,
            n == wins@.len(),
            n <= 255,
            wins@ == w,
            counts@.len() == n,
            forall|q: int| 0 <= q < n ==> q + #[trigger] w[q] < n,
            forall|j: int| 0 <= j < n ==> #[trigger] card_count(w, j) <= u32::MAX,
            forall|j: int| k <= j < n ==> #[trigger] counts@[j] == 1 + copies_upto(
                w,
                j,
                k as int,
            ),
            total == total_counts(w, k as int),
            total <= k * 0xffff_ffff,
        decreases n - k,
    {
        let c = counts[k];
        proof {
            assert(counts@[k as int] == 1 + copies_upto(w, k as int, k as int));
            assert(c == card_count(w, k as int));
            assert(total + c <= k * 0xffff_ffff + 0xffff_ffff);
            assert(k * 0xffff_ffff + 0xffff_ffff == (k + 1) * 0xffff_ffff) by (nonlinear_arith);
            assert((k + 1) * 0xffff_ffff <= 255 * 0xffff_ffff) by (nonlinear_arith)
                requires
                    k + 1 <= 255,
            ;
        }
        total = total + c as u64;
        let wk = wins[k];
        let mut t: usize = k + 1;
        while t <= k + wk as usize
            invariant
                k < t <= n,
                t <= k + wk + 1,
                n == wins@.len(),
                wins@ == w,
                counts@.len() == n,
                wk == w[k as int],
                k + wk < n,
                c == card_count(w, k as int),
                c <= u32::MAX,
                forall|j: int| 0 <= j < n ==> #[trigger] card_count(w, j) <= u32::MAX,
                forall|j: int| k + 1 <= j < t ==> #[trigger] counts@[j] == 1 + copies_upto(
                    w,
                    j,
                    k + 1,
                ),
                forall|j: int| t <= j < n ==> #[trigger] counts@[j] == 1 + copies_upto(
                    w,
                    j,
                    k as int,
                ),
            decreases k + wk as int + 1 - t,
        {
            proof {
                assert(counts@[t as int] == 1 + copies_upto(w, t as int, k as int));
                assert(copies_upto(w, t as int, k + 1) == copies_upto(w, t as int, k as int)
                    + card_count(w, k as int));
                lemma_copies_upto_mono(w, t as int, k + 1, t as int);
                assert(1 + copies_upto(w, t as int, k + 1) <= card_count(w, t as int));
            }
            let cur = counts[t];
            counts[t] = cur + c;
            t = t + 1;
        }
        proof {
            assert forall|j: int| k + 1 <= j < n && j > k + wk implies #[trigger] counts@[j] == 1
                + copies_upto(w, j, k + 1) by {
                assert(copies_upto(w, j, k + 1) == copies_upto(w, j, k as int));
            }
        }
        k = k + 1;
    }
    total
}

} // verus!
