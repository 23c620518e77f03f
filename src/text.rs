//! Splitting of text into lines and whitespace-separated tokens, and decimal numbers.
use vstd::prelude::*;

verus! {

/// The byte that ends a line.
pub open spec fn is_newline(b: u8) -> bool {
    b == 10
}

/// Bytes that separate tokens within a line: space, tab and carriage return.
pub open spec fn is_blank(b: u8) -> bool {
    b == 32 || b == 9 || b == 13
}

/// Position of the first newline in `t`, or `t.len()` if there is none.
pub open spec fn newline_pos(t: Seq<u8>) -> nat
    decreases t.len(),
{
    if t.len() == 0 {
        0
    } else if is_newline(t[0]) {
        0
    } else {
        1 + newline_pos(t.skip(1))
    }
}

/// Position of the first blank in `t`, or `t.len()` if there is none.
pub open spec fn blank_pos(t: Seq<u8>) -> nat
    decreases t.len(),
{
    if t.len() == 0 {
        0
    } else if is_blank(t[0]) {
        0
    } else {
        1 + blank_pos(t.skip(1))
    }
}

/// The lines of `t`: the pieces between newlines, where a final newline
/// does not start another (empty) line.
pub open spec fn lines_of(t: Seq<u8>) -> Seq<Seq<u8>>
    decreases t.len(),
{
    if t.len() == 0 {
        seq![]
    } else {
        let e = newline_pos(t);
        if e < t.len() {
            seq![t.take(e as int)] + lines_of(t.skip(e + 1 as int))
        } else {
            seq![t]
        }
    }
}

/// The tokens of `t`: its maximal runs of bytes that are not blanks.
pub open spec fn tokens_of(t: Seq<u8>) -> Seq<Seq<u8>>
    decreases t.len(),
{
    if t.len() == 0 {
        seq![]
    } else if is_blank(t[0]) {
        tokens_of(t.skip(1))
    } else {
        let e = blank_pos(t);
        if 1 <= e <= t.len() {
            seq![t.take(e as int)] + tokens_of(t.skip(e as int))
        } else {
            seq![]
        }
    }
}

/// The pieces of `s` that a list of half-open ranges selects.
pub open spec fn pieces(s: Seq<u8>, r: Seq<(usize, usize)>) -> Seq<Seq<u8>> {
    r.map_values(|p: (usize, usize)| s.subrange(p.0 as int, p.1 as int))
}

proof fn lemma_newline_pos(t: Seq<u8>, j: int)
    requires
        0 <= j <= t.len(),
        forall|k: int| 0 <= k < j ==> !is_newline(#[trigger] t[k]),
        j < t.len() ==> is_newline(t[j]),
    ensures
        newline_pos(t) == j,
    decreases t.len(),
{
    if t.len() > 0 && j > 0 {
        assert forall|k: int| 0 <= k < j - 1 implies !is_newline(#[trigger] t.skip(1)[k]) by {
            assert(t.skip(1)[k] == t[k + 1]);
        }
        lemma_newline_pos(t.skip(1), j - 1);
    }
}

proof fn lemma_blank_pos(t: Seq<u8>, j: int)
    requires
        0 <= j <= t.len(),
        forall|k: int| 0 <= k < j ==> !is_blank(#[trigger] t[k]),
        j < t.len() ==> is_blank(t[j]),
    ensures
        blank_pos(t) == j,
    decreases t.len(),
{
    if t.len() > 0 && j > 0 {
        assert forall|k: int| 0 <= k < j - 1 implies !is_blank(#[trigger] t.skip(1)[k]) by {
            assert(t.skip(1)[k] == t[k + 1]);
        }
        lemma_blank_pos(t.skip(1), j - 1);
    }
}

/// The ranges of the lines of `s`.
pub fn line_ranges(s: &[u8]) -> (r: Vec<(usize, usize)>)
    ensures
        pieces(s@, r@) == lines_of(s@),
        forall|k: int| 0 <= k < r.len() ==> (#[trigger] r[k]).0 <= r[k].1 <= s.len(),
{
    let mut r: Vec<(usize, usize)> = Vec::new();
    let mut pos: usize = 0;
    proof {
        assert(s@.subrange(0, s@.len() as int) =~= s@);
    }
    while pos < s.len()
        invariant
            pos <= s.len(),
            lines_of(s@) == pieces(s@, r@) + lines_of(s@.subrange(pos as int, s@.len() as int)),
            forall|k: int| 0 <= k < r.len() ==> (#[trigger] r[k]).0 <= r[k].1 <= s.len(),
        decreases s.len() - pos,
    {
        let ghost t = s@.subrange(pos as int, s@.len() as int);
        let mut e: usize = pos;
        while e < s.len() && s[e] != 10
            invariant
                pos <= e <= s.len(),
                forall|k: int| pos <= k < e ==> !is_newline(#[trigger] s@[k]),
            decreases s.len() - e,
        {
            e = e + 1;
        }
        proof {
            assert forall|k: int| 0 <= k < e - pos implies !is_newline(#[trigger] t[k]) by {
                assert(t[k] == s@[pos + k]);
            }
            lemma_newline_pos(t, e - pos);
            assert(t.take(e - pos) =~= s@.subrange(pos as int, e as int));
        }
        let ghost old_r = r@;
        r.push((pos, e));
        proof {
            assert(pieces(s@, r@) =~= pieces(s@, old_r) + seq![s@.subrange(pos as int, e as int)]);
        }
        if e < s.len() {
            proof {
                assert(t.skip(e - pos + 1) =~= s@.subrange(e + 1, s@.len() as int));
            }
            pos = e + 1;
        } else {
            proof {
                assert(t =~= s@.subrange(pos as int, e as int));
                assert(s@.subrange(e as int, s@.len() as int) =~= Seq::<u8>::empty());
            }
            pos = e;
        }
        proof {
            assert(lines_of(s@) =~= pieces(s@, r@) + lines_of(s@.subrange(pos as int, s@.len() as int)));
        }
    }
    proof {
        assert(s@.subrange(pos as int, s@.len() as int) =~= Seq::<u8>::empty());
        assert(pieces(s@, r@) + Seq::<Seq<u8>>::empty() =~= pieces(s@, r@));
    }
    r
}

/// The ranges of the tokens of `s[lo..hi]`.
pub fn token_ranges(s: &[u8], lo: usize, hi: usize) -> (r: Vec<(usize, usize)>)
    requires
        lo <= hi <= s.len(),
    ensures
        pieces(s@, r@) == tokens_of(s@.subrange(lo as int, hi as int)),
        forall|k: int| 0 <= k < r.len() ==> lo <= (#[trigger] r[k]).0 <= r[k].1 <= hi,
{
    let mut r: Vec<(usize, usize)> = Vec::new();
    let mut pos: usize = lo;
    while pos < hi
        invariant
            lo <= pos <= hi <= s.len(),
            tokens_of(s@.subrange(lo as int, hi as int)) == pieces(s@, r@) + tokens_of(
                s@.subrange(pos as int, hi as int),
            ),
            forall|k: int| 0 <= k < r.len() ==> lo <= (#[trigger] r[k]).0 <= r[k].1 <= hi,
        decreases hi - pos,
    {
        let ghost t = s@.subrange(pos as int, hi as int);
        let b = s[pos];
        if b == 32 || b == 9 || b == 13 {
            proof {
                assert(t.skip(1) =~= s@.subrange(pos + 1, hi as int));
            }
            pos = pos + 1;
        } else {
            let mut e: usize = pos + 1;
            while e < hi && !(s[e] == 32 || s[e] == 9 || s[e] == 13)
                invariant
                    pos < e <= hi <= s.len(),
                    forall|k: int| pos <= k < e ==> !is_blank(#[trigger] s@[k]),
                decreases hi - e,
            {
                e = e + 1;
            }
            proof {
                assert forall|k: int| 0 <= k < e - pos implies !is_blank(#[trigger] t[k]) by {
                    assert(t[k] == s@[pos + k]);
                }
                lemma_blank_pos(t, e - pos);
                assert(t.take(e - pos) =~= s@.subrange(pos as int, e as int));
                assert(t.skip(e - pos) =~= s@.subrange(e as int, hi as int));
            }
            let ghost old_r = r@;
            r.push((pos, e));
            proof {
                assert(pieces(s@, r@) =~= pieces(s@, old_r) + seq![s@.subrange(pos as int, e as int)]);
            }
            pos = e;
        }
    }
    proof {
        assert(s@.subrange(pos as int, hi as int) =~= Seq::<u8>::empty());
        assert(pieces(s@, r@) + Seq::<Seq<u8>>::empty() =~= pieces(s@, r@));
    }
    r
}

/// An ASCII decimal digit.
pub open spec fn is_digit(b: u8) -> bool {
    48 <= b <= 57
}

/// A non-empty run of decimal digits.
pub open spec fn is_decimal(t: Seq<u8>) -> bool {
    t.len() > 0 && forall|i: int| 0 <= i < t.len() ==> is_digit(#[trigger] t[i])
}

/// The number that a run of decimal digits denotes.
pub open spec fn decimal_value(t: Seq<u8>) -> nat
    decreases t.len(),
{
    if t.len() == 0 {
        0
    } else {
        decimal_value(t.drop_last()) * 10 + (t.last() - 48) as nat
    }
}

/// The number that a run of digits denotes, if it is one that fits in `usize`.
pub open spec fn digits_number(t: Seq<u8>) -> Option<usize> {
    if is_decimal(t) && decimal_value(t) <= usize::MAX {
        Some(decimal_value(t) as usize)
    } else {
        None
    }
}

/// The non-negative integer that a token denotes, if it is one that fits in
/// `usize`: decimal digits, after at most one leading `+`.
pub open spec fn number_of(t: Seq<u8>) -> Option<usize> {
    if t.len() > 0 && t[0] == 43 {
        digits_number(t.skip(1))
    } else {
        digits_number(t)
    }
}

proof fn lemma_value_grows(t: Seq<u8>, j: int)
    requires
        0 <= j <= t.len(),
        forall|i: int| 0 <= i < t.len() ==> is_digit(#[trigger] t[i]),
    ensures
        decimal_value(t.take(j)) <= decimal_value(t),
    decreases t.len(),
{
    if j < t.len() {
        let u = t.drop_last();
        assert(u.take(j) =~= t.take(j));
        assert forall|i: int| 0 <= i < u.len() implies is_digit(#[trigger] u[i]) by {
            assert(u[i] == t[i]);
        }
        lemma_value_grows(u, j);
    } else {
        assert(t.take(j) =~= t);
    }
}

/// Reads `s[lo..hi]` as a decimal number, with an optional leading `+`.
pub fn parse_number(s: &[u8], lo: usize, hi: usize) -> (r: Option<usize>)
    requires
        lo <= hi <= s.len(),
    ensures
        r == number_of(s@.subrange(lo as int, hi as int)),
{
    if lo < hi && s[lo] == 43 {
        proof {
            assert(s@.subrange(lo as int, hi as int).skip(1) =~= s@.subrange(lo + 1, hi as int));
        }
        parse_digits(s, lo + 1, hi)
    } else {
        parse_digits(s, lo, hi)
    }
}

fn parse_digits(s: &[u8], lo: usize, hi: usize) -> (r: Option<usize>)
    requires
        lo <= hi <= s.len(),
    ensures
        r == digits_number(s@.subrange(lo as int, hi as int)),
{
    let ghost t = s@.subrange(lo as int, hi as int);
    if lo == hi {
        return None;
    }
    let mut acc: usize = 0;
    let mut i: usize = lo;
    while i < hi
        invariant
            lo <= i <= hi <= s.len(),
            t == s@.subrange(lo as int, hi as int),
            forall|k: int| lo <= k < i ==> is_digit(#[trigger] s@[k]),
            acc == decimal_value(s@.subrange(lo as int, i as int)),
        decreases hi - i,
    {
        let b = s[i];
        if b < 48 || b > 57 {
            proof {
                assert(!is_digit(t[i - lo]));
            }
            return None;
        }
        let ghost u = s@.subrange(lo as int, i + 1);
        proof {
            assert(u.drop_last() =~= s@.subrange(lo as int, i as int));
        }
        let d: usize = (b - 48) as usize;
        let m = acc.checked_mul(10);
        let next = match m {
            Some(m) => m.checked_add(d),
            None => None,
        };
        match next {
            Some(n) => {
                acc = n;
                i = i + 1;
            },
            None => {
                proof {
                    if is_decimal(t) {
                        assert(t.take(i + 1 - lo) =~= u);
                        lemma_value_grows(t, i + 1 - lo);
                    }
                }
                return None;
            },
        }
    }
    proof {
        assert(t =~= s@.subrange(lo as int, i as int));
    }
    Some(acc)
}

/// The character of the decimal digit `d`.
pub open spec fn digit_text(d: nat) -> Seq<char> {
    if d == 0 {
        "0"@
    } else if d == 1 {
        "1"@
    } else if d == 2 {
        "2"@
    } else if d == 3 {
        "3"@
    } else if d == 4 {
        "4"@
    } else if d == 5 {
        "5"@
    } else if d == 6 {
        "6"@
    } else if d == 7 {
        "7"@
    } else if d == 8 {
        "8"@
    } else {
        "9"@
    }
}

/// The decimal notation of `n`, without leading zeros.
pub open spec fn decimal_text(n: nat) -> Seq<char>
    decreases n,
{
    if n < 10 {
        digit_text(n)
    } else {
        decimal_text(n / 10) + digit_text(n % 10)
    }
}

fn push_digit(out: &mut String, d: usize)
    requires
        d < 10,
    ensures
        final(out)@ == old(out)@ + digit_text(d as nat),
{
    if d == 0 {
        out.append("0");
    } else if d == 1 {
        out.append("1");
    } else if d == 2 {
        out.append("2");
    } else if d == 3 {
        out.append("3");
    } else if d == 4 {
        out.append("4");
    } else if d == 5 {
        out.append("5");
    } else if d == 6 {
        out.append("6");
    } else if d == 7 {
        out.append("7");
    } else if d == 8 {
        out.append("8");
    } else {
        out.append("9");
    }
}

/// Appends the decimal notation of `n` to `out`.
pub fn push_decimal(out: &mut String, n: usize)
    ensures
        final(out)@ == old(out)@ + decimal_text(n as nat),
    decreases n,
{
    if n >= 10 {
        push_decimal(out, n / 10);
        push_digit(out, n % 10);
        proof {
            assert(out@ =~= old(out)@ + decimal_text(n as nat));
        }
    } else {
        push_digit(out, n);
    }
}

} // verus!
