//! Decimal rendering and parsing of machine integers, the base layer of the
//! blob-name and locator codecs.  Rendering is canonical (no leading zeros),
//! which makes it injective; parsing accepts exactly the canonical strings.

use vstd::prelude::*;

verus! {

/// Is `c` one of the ten decimal digit characters?
pub open spec fn is_digit(c: char) -> bool {
    '0' <= c && c <= '9'
}

/// Numeric value of a digit character.
pub open spec fn digit_val(c: char) -> nat {
    ((c as int) - ('0' as int)) as nat
}

/// The digit character for a value below ten.
pub open spec fn digit_char(d: nat) -> char {
    if d == 0 {
        '0'
    } else if d == 1 {
        '1'
    } else if d == 2 {
        '2'
    } else if d == 3 {
        '3'
    } else if d == 4 {
        '4'
    } else if d == 5 {
        '5'
    } else if d == 6 {
        '6'
    } else if d == 7 {
        '7'
    } else if d == 8 {
        '8'
    } else {
        '9'
    }
}

/// Canonical decimal rendering of `n`, most significant digit first.
pub open spec fn dec_str(n: nat) -> Seq<char>
    decreases n,
{
    if n < 10 {
        seq![digit_char(n)]
    } else {
        dec_str(n / 10).push(digit_char(n % 10))
    }
}

/// The number denoted by a digit string (leading zeros allowed).
pub open spec fn dec_val(s: Seq<char>) -> nat
    decreases s.len(),
{
    if s.len() == 0 {
        0
    } else {
        dec_val(s.drop_last()) * 10 + digit_val(s.last())
    }
}

/// Every character of `s` is a decimal digit.
pub open spec fn all_digits(s: Seq<char>) -> bool {
    forall|i: int| 0 <= i < s.len() ==> is_digit(#[trigger] s[i])
}

/// A digit string in canonical form: nonempty, and no redundant leading zero.
pub open spec fn canonical_digits(s: Seq<char>) -> bool {
    &&& s.len() >= 1
    &&& all_digits(s)
    &&& (s.len() > 1 ==> s[0] != '0')
}

pub proof fn lemma_digit_char_val(d: nat)
    requires
        d < 10,
    ensures
        is_digit(digit_char(d)),
        digit_val(digit_char(d)) == d,
{
}

pub proof fn lemma_digit_val_char(c: char)
    requires
        is_digit(c),
    ensures
        digit_val(c) < 10,
        digit_char(digit_val(c)) == c,
{
}

pub proof fn lemma_dec_str_wf(n: nat)
    ensures
        dec_str(n).len() >= 1,
        all_digits(dec_str(n)),
        canonical_digits(dec_str(n)),
        n >= 10 ==> dec_str(n).len() >= 2,
        n < 10 ==> dec_str(n) == seq![digit_char(n)],
    decreases n,
{
    if n < 10 {
        lemma_digit_char_val(n);
        assert forall|i: int| 0 <= i < dec_str(n).len() implies is_digit(#[trigger] dec_str(n)[i]) by {
            assert(dec_str(n)[i] == digit_char(n));
        }
    } else {
        lemma_dec_str_wf(n / 10);
        lemma_digit_char_val(n % 10);
        let s = dec_str(n);
        let p = dec_str(n / 10);
        assert(s == p.push(digit_char(n % 10)));
        assert forall|i: int| 0 <= i < s.len() implies is_digit(#[trigger] s[i]) by {
            if i < p.len() {
                assert(s[i] == p[i]);
            } else {
                assert(s[i] == digit_char(n % 10));
            }
        }
        assert(s[0] == p[0]);
        assert(n / 10 >= 1);
        if p.len() == 1 {
            assert(p == seq![digit_char(n / 10)]);
            assert(p[0] == digit_char((n / 10) as nat));
            assert(digit_val(p[0]) == n / 10);
            assert(p[0] != '0');
        }
    }
}

pub proof fn lemma_dec_str_val(n: nat)
    ensures
        dec_val(dec_str(n)) == n,
    decreases n,
{
    if n < 10 {
        lemma_digit_char_val(n);
        let s = dec_str(n);
        assert(s.drop_last() =~= Seq::<char>::empty());
        assert(dec_val(s) == dec_val(s.drop_last()) * 10 + digit_val(s.last()));
    } else {
        lemma_dec_str_val(n / 10);
        lemma_digit_char_val(n % 10);
        let s = dec_str(n);
        let p = dec_str(n / 10);
        assert(s == p.push(digit_char(n % 10)));
        assert(s.drop_last() =~= p);
        assert(s.last() == digit_char(n % 10));
        assert(dec_val(s) == (n / 10) * 10 + n % 10);
        assert((n / 10) * 10 + n % 10 == n) by (nonlinear_arith);
    }
}

/// Canonical rendering is injective.
pub proof fn lemma_dec_str_injective(a: nat, b: nat)
    requires
        dec_str(a) == dec_str(b),
    ensures
        a == b,
{
    lemma_dec_str_val(a);
    lemma_dec_str_val(b);
}

/// A nonempty digit string without a leading zero denotes a positive number,
/// unless it is the single digit zero.
pub proof fn lemma_dec_val_positive(s: Seq<char>)
    requires
        all_digits(s),
        s.len() >= 1,
        s[0] != '0',
    ensures
        dec_val(s) >= 1,
    decreases s.len(),
{
    if s.len() == 1 {
        assert(s.last() == s[0]);
        assert(is_digit(s[0]));
        assert(digit_val(s[0]) >= 1);
    } else {
        let p = s.drop_last();
        assert(all_digits(p)) by {
            assert(forall|i: int| 0 <= i < p.len() ==> #[trigger] p[i] == s[i]);
        }
        assert(p[0] == s[0]);
        lemma_dec_val_positive(p);
        assert(dec_val(s) == dec_val(p) * 10 + digit_val(s.last()));
        assert(dec_val(p) * 10 >= 10) by (nonlinear_arith)
            requires
                dec_val(p) >= 1,
        ;
    }
}

/// Parsing a canonical digit string and re-rendering gives the string back.
pub proof fn lemma_canonical_roundtrip(s: Seq<char>)
    requires
        canonical_digits(s),
    ensures
        dec_str(dec_val(s)) == s,
    decreases s.len(),
{
    if s.len() == 1 {
        lemma_digit_val_char(s[0]);
        assert(s.last() == s[0]);
        assert(s.drop_last() =~= Seq::<char>::empty());
        assert(dec_val(Seq::<char>::empty()) == 0);
        assert(dec_val(s) == dec_val(s.drop_last()) * 10 + digit_val(s.last()));
        assert(dec_val(s) == digit_val(s[0]));
        assert(dec_str(dec_val(s)) == seq![digit_char(digit_val(s[0]))]);
        assert(dec_str(dec_val(s)) =~= s);
    } else {
        let p = s.drop_last();
        assert(all_digits(p)) by {
            assert(forall|i: int| 0 <= i < p.len() ==> #[trigger] p[i] == s[i]);
        }
        assert(p[0] == s[0]);
        assert(canonical_digits(p));
        lemma_canonical_roundtrip(p);
        lemma_dec_val_positive(p);
        lemma_digit_val_char(s.last());
        let n = dec_val(s);
        assert(n == dec_val(p) * 10 + digit_val(s.last()));
        assert(n / 10 == dec_val(p) && n % 10 == digit_val(s.last())) by (nonlinear_arith)
            requires
                n == dec_val(p) * 10 + digit_val(s.last()),
                digit_val(s.last()) < 10,
        ;
        assert(n >= 10) by {
            assert(dec_val(p) * 10 >= 10) by (nonlinear_arith)
                requires
                    dec_val(p) >= 1,
            ;
        }
        assert(dec_str(n) == dec_str(dec_val(p)).push(digit_char(digit_val(s.last()))));
        assert(dec_str(n) =~= s);
    }
}

/// The end of the run of digit characters that starts at `i`.
pub open spec fn digit_run_end(s: Seq<char>, i: int) -> int
    decreases s.len() - i,
{
    if 0 <= i < s.len() && is_digit(s[i]) {
        digit_run_end(s, i + 1)
    } else {
        i
    }
}

pub proof fn lemma_digit_run_end(s: Seq<char>, i: int)
    requires
        0 <= i <= s.len(),
    ensures
        i <= digit_run_end(s, i) <= s.len(),
        forall|j: int| i <= j < digit_run_end(s, i) ==> is_digit(#[trigger] s[j]),
        digit_run_end(s, i) < s.len() ==> !is_digit(s[digit_run_end(s, i)]),
    decreases s.len() - i,
{
    if 0 <= i < s.len() && is_digit(s[i]) {
        lemma_digit_run_end(s, i + 1);
    }
}

/// The digit run inside a string that was assembled around a canonical
/// rendering ends exactly where the rendering ends.
pub proof fn lemma_digit_run_of_rendering(s: Seq<char>, i: int, d: Seq<char>)
    requires
        0 <= i,
        i + d.len() <= s.len(),
        all_digits(d),
        s.subrange(i, i + d.len() as int) == d,
        i + d.len() < s.len() ==> !is_digit(s[i + d.len()]),
        i + d.len() == s.len() || !is_digit(s[i + d.len()]),
    ensures
        digit_run_end(s, i) == i + d.len(),
    decreases d.len(),
{
    if d.len() == 0 {
        if 0 <= i < s.len() {
            assert(!is_digit(s[i]));
        }
    } else {
        assert(s[i] == d[0]);
        assert(is_digit(d[0]));
        let d2 = d.subrange(1, d.len() as int);
        assert(all_digits(d2)) by {
            assert(forall|k: int| 0 <= k < d2.len() ==> #[trigger] d2[k] == d[k + 1]);
        }
        assert(s.subrange(i + 1, i + 1 + d2.len() as int) =~= d2) by {
            assert(forall|k: int|
                0 <= k < d2.len() ==> #[trigger] s.subrange(i + 1, i + 1 + d2.len() as int)[k] == s[
                    i + 1 + k
                ] && d[k + 1] == s[i + 1 + k]);
        }
        lemma_digit_run_of_rendering(s, i + 1, d2);
        assert(0 <= i < s.len() && is_digit(s[i]));
        assert(digit_run_end(s, i) == digit_run_end(s, i + 1));
    }
}

/// Renders one digit as a string slice.
fn digit_to_str(d: u64) -> (s: &'static str)
    requires
        d < 10,
    ensures
        s@ == seq![digit_char(d as nat)],
{
    proof {
        reveal_strlit("0");
        reveal_strlit("1");
        reveal_strlit("2");
        reveal_strlit("3");
        reveal_strlit("4");
        reveal_strlit("5");
        reveal_strlit("6");
        reveal_strlit("7");
        reveal_strlit("8");
        reveal_strlit("9");
    }
    let s: &'static str = if d == 0 {
        "0"
    } else if d == 1 {
        "1"
    } else if d == 2 {
        "2"
    } else if d == 3 {
        "3"
    } else if d == 4 {
        "4"
    } else if d == 5 {
        "5"
    } else if d == 6 {
        "6"
    } else if d == 7 {
        "7"
    } else if d == 8 {
        "8"
    } else {
        "9"
    };
    proof {
        assert(s@ =~= seq![digit_char(d as nat)]);
    }
    s
}

/// Renders `n` in canonical decimal.
pub fn u64_to_dec(n: u64) -> (s: String)
    ensures
        s@ == dec_str(n as nat),
    decreases n,
{
    if n < 10 {
        let d = digit_to_str(n);
        let s = String::from_str(d);
        s
    } else {
        let mut s = u64_to_dec(n / 10);
        let d = digit_to_str(n % 10);
        s.append(d);
        proof {
            assert(s@ =~= dec_str(n as nat));
        }
        s
    }
}

/// Canonical decimal of `n`, left-padded with zeros to at least `w` characters.
pub open spec fn pad_str(n: nat, w: nat) -> Seq<char> {
    if dec_str(n).len() >= w {
        dec_str(n)
    } else {
        Seq::new((w - dec_str(n).len()) as nat, |i: int| '0') + dec_str(n)
    }
}

pub proof fn lemma_pad_str_wf(n: nat, w: nat)
    ensures
        all_digits(pad_str(n, w)),
        pad_str(n, w).len() >= w,
        pad_str(n, w).len() >= 1,
{
    lemma_dec_str_wf(n);
    let s = pad_str(n, w);
    if dec_str(n).len() < w {
        assert forall|i: int| 0 <= i < s.len() implies is_digit(#[trigger] s[i]) by {
            let z = (w - dec_str(n).len()) as nat;
            if i < z {
                assert(s[i] == '0');
            } else {
                assert(s[i] == dec_str(n)[i - z]);
            }
        }
    }
}

/// Leading zeros do not change a digit string's value.
pub proof fn lemma_dec_val_zeros(k: nat, s: Seq<char>)
    ensures
        dec_val(Seq::new(k, |i: int| '0') + s) == dec_val(s),
    decreases s.len(),
{
    let z = Seq::new(k, |i: int| '0');
    if s.len() == 0 {
        assert(z + s =~= z);
        assert(dec_val(z) == 0) by {
            lemma_dec_val_all_zeros(k);
        }
    } else {
        lemma_dec_val_zeros(k, s.drop_last());
        assert((z + s).drop_last() =~= z + s.drop_last());
        assert((z + s).last() == s.last());
    }
}

proof fn lemma_dec_val_all_zeros(k: nat)
    ensures
        dec_val(Seq::new(k, |i: int| '0')) == 0,
    decreases k,
{
    let z = Seq::new(k, |i: int| '0');
    if k > 0 {
        lemma_dec_val_all_zeros((k - 1) as nat);
        assert(z.drop_last() =~= Seq::new((k - 1) as nat, |i: int| '0'));
        assert(z.last() == '0');
        assert(digit_val('0') == 0);
    }
}

/// Padded rendering still denotes `n`; hence it is injective at fixed width.
pub proof fn lemma_pad_str_val(n: nat, w: nat)
    ensures
        dec_val(pad_str(n, w)) == n,
{
    lemma_dec_str_val(n);
    if dec_str(n).len() < w {
        lemma_dec_val_zeros((w - dec_str(n).len()) as nat, dec_str(n));
    }
}

pub proof fn lemma_pad_str_injective(a: nat, b: nat, w: nat)
    requires
        pad_str(a, w) == pad_str(b, w),
    ensures
        a == b,
{
    lemma_pad_str_val(a, w);
    lemma_pad_str_val(b, w);
}

/// Renders `n` left-padded with zeros to at least `w` characters.
pub fn u64_to_dec_pad(n: u64, w: usize) -> (s: String)
    ensures
        s@ == pad_str(n as nat, w as nat),
{
    let d = u64_to_dec(n);
    let dl = d.as_str().unicode_len();
    if dl >= w {
        d
    } else {
        let mut s = String::new();
        let mut k: usize = 0;
        while k < w - dl
            invariant
                s@ =~= Seq::new(k as nat, |i: int| '0'),
                k <= w - dl,
                dl == dec_str(n as nat).len(),
                dl < w,
            decreases w - dl - k,
        {
            s.append("0");
            k = k + 1;
            proof {
                reveal_strlit("0");
                assert("0"@ =~= seq!['0']);
                assert(s@ =~= Seq::new(k as nat, |i: int| '0'));
            }
        }
        s.append(d.as_str());
        proof {
            assert(s@ =~= pad_str(n as nat, w as nat));
        }
        s
    }
}

/// Parses the digit run that starts at character position `from`.
/// Returns the value and the position one past the run; refuses an empty run
/// and a value that does not fit in a machine word.
pub fn parse_digit_run(s: &str, from: usize) -> (r: Option<(u64, usize)>)
    requires
        from <= s@.len(),
        s@.len() <= usize::MAX,
    ensures
        ({
            let e = digit_run_end(s@, from as int);
            let v = dec_val(s@.subrange(from as int, e));
            if e == from {
                r is None
            } else if v > u64::MAX {
                r is None
            } else {
                r == Some((v as u64, e as usize))
            }
        }),
{
    let n = s.unicode_len();
    proof {
        lemma_digit_run_end(s@, from as int);
    }
    let mut i: usize = from;
    let mut acc: u64 = 0;
    let mut overflowed: bool = false;
    loop
        invariant
            from <= i <= n,
            n == s@.len(),
            s@.len() <= usize::MAX,
            forall|j: int| from <= j < i ==> is_digit(#[trigger] s@[j]),
            digit_run_end(s@, from as int) == digit_run_end(s@, i as int),
            !overflowed ==> acc == dec_val(s@.subrange(from as int, i as int)),
            overflowed ==> dec_val(s@.subrange(from as int, i as int)) > u64::MAX,
            overflowed ==> i > from,
        ensures
            i == digit_run_end(s@, from as int),
            forall|j: int| from <= j < i ==> is_digit(#[trigger] s@[j]),
            !overflowed ==> acc == dec_val(s@.subrange(from as int, i as int)),
            overflowed ==> dec_val(s@.subrange(from as int, i as int)) > u64::MAX,
            overflowed ==> i > from,
        decreases n - i,
    {
        if i >= n {
            proof {
                assert(digit_run_end(s@, i as int) == i);
            }
            break ;
        }
        let c = s.get_char(i);
        let cv = c as u32;
        if !(48 <= cv && cv <= 57) {
            proof {
                assert(!is_digit(s@[i as int]));
                assert(digit_run_end(s@, i as int) == i);
            }
            break ;
        }
        proof {
            assert(is_digit(s@[i as int]));
            assert(digit_run_end(s@, i as int) == digit_run_end(s@, i + 1));
        }
        let d: u64 = (cv - 48) as u64;
        proof {
            assert(d == digit_val(s@[i as int]));
            assert(s@.subrange(from as int, i + 1).drop_last() =~= s@.subrange(
                from as int,
                i as int,
            ));
            assert(s@.subrange(from as int, i + 1).last() == s@[i as int]);
            assert(dec_val(s@.subrange(from as int, i + 1)) == dec_val(
                s@.subrange(from as int, i as int),
            ) * 10 + digit_val(s@[i as int]));
        }
        if overflowed {
            proof {
                let prev = dec_val(s@.subrange(from as int, i as int));
                assert(prev * 10 >= prev) by (nonlinear_arith);
            }
        } else if acc > (u64::MAX - d) / 10 {
            proof {
                let prev = dec_val(s@.subrange(from as int, i as int));
                assert(prev * 10 + d > u64::MAX) by (nonlinear_arith)
                    requires
                        prev > (u64::MAX - d) / 10,
                        d < 10,
                ;
            }
            overflowed = true;
        } else {
            proof {
                let prev = dec_val(s@.subrange(from as int, i as int));
                assert(prev * 10 + d <= u64::MAX) by (nonlinear_arith)
                    requires
                        prev <= (u64::MAX - d) / 10,
                        d < 10,
                ;
            }
            acc = acc * 10 + d;
        }
        i = i + 1;
    }
    if overflowed {
        None
    } else if i == from {
        None
    } else {
        Some((acc, i))
    }
}

} // verus!
