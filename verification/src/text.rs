//! Plain-text helpers: string-to-characters conversion, decimal rendering of
//! line numbers, and splitting message text on newlines.

use vstd::prelude::*;
use vstd::string::StrSliceExecFns;

verus! {

/// The characters of a string slice, in order.
pub fn str_to_chars(s: &str) -> (r: Vec<char>)
    ensures
        r@ == s@,
{
    let n = s.unicode_len();
    let mut v: Vec<char> = Vec::new();
    let mut i: usize = 0;
    while i < n
        invariant
            n == s@.len(),
            i <= n,
            v@ == s@.take(i as int),
        decreases n - i,
    {
        let c = s.get_char(i);
        v.push(c);
        proof {
            assert(v@ =~= s@.take(i + 1));
        }
        i = i + 1;
    }
    proof {
        assert(v@ =~= s@);
    }
    v
}

/// The character for one decimal digit.
pub open spec fn digit_char(d: nat) -> char {
    if d == 0 {
        '0'
    } else if d == 1 {
        '1'
    } else if d == 2 {
        '2'
    } else if d == 3 {
        '3'
    } else if d == 4 {
        '4'
    } else if d == 5 {
        '5'
    } else if d == 6 {
        '6'
    } else if d == 7 {
        '7'
    } else if d == 8 {
        '8'
    } else {
        '9'
    }
}

/// The decimal digits of `n`, most significant first.
pub open spec fn dec_chars(n: nat) -> Seq<char>
    decreases n,
{
    if n < 10 {
        seq![digit_char(n)]
    } else {
        dec_chars(n / 10).push(digit_char(n % 10))
    }
}

/// The character for one decimal digit.
pub fn digit_to_char(d: usize) -> (c: char)
    requires
        d < 10,
    ensures
        c == digit_char(d as nat),
{
    if d == 0 {
        '0'
    } else if d == 1 {
        '1'
    } else if d == 2 {
        '2'
    } else if d == 3 {
        '3'
    } else if d == 4 {
        '4'
    } else if d == 5 {
        '5'
    } else if d == 6 {
        '6'
    } else if d == 7 {
        '7'
    } else if d == 8 {
        '8'
    } else {
        '9'
    }
}

/// `n` written in decimal, most significant digit first.
pub fn usize_to_chars(n: usize) -> (r: Vec<char>)
    ensures
        r@ == dec_chars(n as nat),
        r@.len() >= 1,
{
    let mut digits: Vec<char> = Vec::new();
    let mut m: usize = n;
    while m >= 10
        invariant
            dec_chars(n as nat) =~= dec_chars(m as nat) + digits@.reverse(),
        decreases m,
    {
        let d = m % 10;
        let ghost dpre = digits@;
        digits.push(digit_to_char(d));
        proof {
            assert(digits@.reverse() =~= seq![digit_char(d as nat)] + dpre.reverse());
            assert(dec_chars(m as nat) =~= dec_chars((m / 10) as nat) + seq![
                digit_char((m % 10) as nat),
            ]);
            assert(dec_chars((m / 10) as nat) + seq![digit_char((m % 10) as nat)] + dpre.reverse()
                =~= dec_chars((m / 10) as nat) + digits@.reverse());
        }
        m = m / 10;
    }
    let ghost dfin = digits@;
    digits.push(digit_to_char(m));
    proof {
        assert(digits@.reverse() =~= seq![digit_char(m as nat)] + dfin.reverse());
        assert(dec_chars(m as nat) =~= seq![digit_char(m as nat)]);
        assert(dec_chars(n as nat) =~= digits@.reverse());
    }

    // Reverse the collected digits.
    let mut r: Vec<char> = Vec::new();
    let mut j: usize = digits.len();
    while j > 0
        invariant
            j <= digits@.len(),
            r@.len() == digits@.len() - j,
            forall|k: int| 0 <= k < r@.len() ==> r@[k] == digits@[digits@.len() - 1 - k],
        decreases j,
    {
        j = j - 1;
        r.push(digits[j]);
    }
    proof {
        assert(r@ =~= digits@.reverse());
    }
    r
}

/// The pieces of a character sequence between newline characters: one piece
/// more than there are newlines, each piece free of newlines.
pub open spec fn spec_split_lines(s: Seq<char>) -> Seq<Seq<char>>
    decreases s.len(),
{
    if s.len() == 0 {
        seq![Seq::<char>::empty()]
    } else {
        let prev = spec_split_lines(s.drop_last());
        if s.last() == '\n' {
            prev.push(Seq::empty())
        } else {
            prev.update(prev.len() - 1, prev.last().push(s.last()))
        }
    }
}

/// A split always yields at least one piece.
pub proof fn lemma_split_lines_len(s: Seq<char>)
    ensures
        spec_split_lines(s).len() >= 1,
    decreases s.len(),
{
    if s.len() > 0 {
        lemma_split_lines_len(s.drop_last());
    }
}

/// Split `text` on newline characters.
pub fn split_lines(text: &Vec<char>) -> (r: Vec<Vec<char>>)
    ensures
        r@.map_values(|v: Vec<char>| v@) == spec_split_lines(text@),
{
    let mut done: Vec<Vec<char>> = Vec::new();
    let mut cur: Vec<char> = Vec::new();
    let n = text.len();
    let mut i: usize = 0;
    while i < n
        invariant
            n == text@.len(),
            i <= n,
            spec_split_lines(text@.take(i as int)) =~~= done@.map_values(
                |v: Vec<char>| v@,
            ).push(cur@),
        decreases n - i,
    {
        let c = text[i];
        proof {
            assert(text@.take(i + 1).drop_last() =~= text@.take(i as int));
            assert(text@.take(i + 1).last() == text@[i as int]);
            lemma_split_lines_len(text@.take(i as int));
        }
        let ghost dpre = done@;
        let ghost cpre = cur@;
        if c == '\n' {
            done.push(cur);
            cur = Vec::new();
            proof {
                assert(done@.map_values(|v: Vec<char>| v@) =~~= dpre.map_values(
                    |v: Vec<char>| v@,
                ).push(cpre));
                assert(spec_split_lines(text@.take(i + 1)) =~~= done@.map_values(
                    |v: Vec<char>| v@,
                ).push(cur@));
            }
        } else {
            cur.push(c);
            proof {
                let prev = spec_split_lines(text@.take(i as int));
                assert(prev.last() == cpre);
                assert(spec_split_lines(text@.take(i + 1)) =~~= done@.map_values(
                    |v: Vec<char>| v@,
                ).push(cur@));
            }
        }
        i = i + 1;
    }
    done.push(cur);
    proof {
        assert(text@.take(n as int) =~= text@);
        assert(done@.map_values(|v: Vec<char>| v@) =~~= spec_split_lines(text@));
    }
    done
}


/// Ten to the `k`-th power.
pub open spec fn pow10(k: nat) -> int
    decreases k,
{
    if k == 0 {
        1
    } else {
        10 * pow10((k - 1) as nat)
    }
}

/// A number below `pow10(k)` has at most `k` decimal digits.
pub proof fn lemma_dec_chars_len_below(n: nat, k: nat)
    requires
        k >= 1,
        n < pow10(k),
    ensures
        dec_chars(n).len() <= k,
    decreases n,
{
    if n >= 10 {
        assert(pow10(k) == 10 * pow10((k - 1) as nat));
        assert(k >= 2) by {
            if k == 1 {
                assert(pow10(0nat) == 1);
                assert(pow10(1nat) == 10);
            }
        }
        assert((n / 10) < pow10((k - 1) as nat)) by (nonlinear_arith)
            requires
                n < 10 * pow10((k - 1) as nat),
                n >= 10,
        ;
        lemma_dec_chars_len_below(n / 10, (k - 1) as nat);
    }
}

/// More digits never come from a smaller number.
pub proof fn lemma_dec_chars_len_mono(m: nat, n: nat)
    requires
        m <= n,
    ensures
        dec_chars(m).len() <= dec_chars(n).len(),
    decreases n,
{
    if m >= 10 {
        assert((m / 10) <= (n / 10)) by (nonlinear_arith)
            requires
                m <= n,
        ;
        lemma_dec_chars_len_mono(m / 10, n / 10);
        assert(m / 10 < m);
        assert(n / 10 < n);
    } else {
        lemma_dec_chars_at_least_one(n);
    }
}

/// Every number has at least one digit.
pub proof fn lemma_dec_chars_at_least_one(n: nat)
    ensures
        dec_chars(n).len() >= 1,
    decreases n,
{
    if n >= 10 {
        lemma_dec_chars_at_least_one(n / 10);
    }
}

/// Line numbers within the line-index limit take at most nine digits.
pub proof fn lemma_dec_chars_len_line_limit(n: nat)
    requires
        n <= crate::LINE_LIMIT,
    ensures
        dec_chars(n).len() <= 9,
{
    assert(pow10(0nat) == 1);
    assert(pow10(1nat) == 10);
    assert(pow10(2nat) == 100);
    assert(pow10(3nat) == 1000);
    assert(pow10(4nat) == 10000);
    assert(pow10(5nat) == 100000);
    assert(pow10(6nat) == 1000000);
    assert(pow10(7nat) == 10000000);
    assert(pow10(8nat) == 100000000);
    assert(pow10(9nat) == 1000000000);
    lemma_dec_chars_len_below(n, 9);
}


/// A split has at most one piece more than the text has characters, and no
/// piece longer than the text.
pub proof fn lemma_split_lines_pieces(s: Seq<char>)
    ensures
        spec_split_lines(s).len() <= s.len() + 1,
        forall|q: int|
            0 <= q < spec_split_lines(s).len() ==> (#[trigger] spec_split_lines(s)[q]).len()
                <= s.len(),
    decreases s.len(),
{
    lemma_split_lines_len(s);
    if s.len() > 0 {
        lemma_split_lines_pieces(s.drop_last());
        let prev = spec_split_lines(s.drop_last());
        lemma_split_lines_len(s.drop_last());
        assert forall|q: int|
            0 <= q < spec_split_lines(s).len() implies (#[trigger] spec_split_lines(s)[q]).len()
            <= s.len() by {
            if s.last() == '\n' {
                if q < prev.len() {
                    assert(spec_split_lines(s)[q] == prev[q]);
                } else {
                    assert(spec_split_lines(s)[q].len() == 0);
                }
            } else {
                if q < prev.len() - 1 {
                    assert(spec_split_lines(s)[q] == prev[q]);
                } else {
                    assert(spec_split_lines(s)[q] == prev[q].push(s.last()));
                }
            }
        }
    }
}

} // verus!
